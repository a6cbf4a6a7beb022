//! A registry that timestamps 32-byte digests by refundable, per-voter stakes.
//!
//! Each digest that has at least one live vote owns a digest record (its voter
//! count, creation time and escrowed balance) and one vote record per voter.
//! The operations `vote`, `unvote` and `verify` are state transitions
//! over that store; the caller's spendable balance is handed in and out as a
//! plain value.

pub mod error;
pub mod laws;
pub mod registry;
pub mod state;

pub use error::ErrorCode;
pub use registry::{unvote, verify, vote, Registry, Unvote, Vote};
pub use state::{DigestView, HashAccount, VoteInfo};
