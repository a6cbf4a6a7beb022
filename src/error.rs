use vstd::prelude::*;

verus! {

/// Why an operation on the registry was refused. A refused operation leaves
/// the registry and the caller's balance as they were.
#[derive(Debug, Clone, Copy, PartialEq, Eq, Structural)]
pub enum ErrorCode {
    /// No live digest record exists for the digest.
    HashNotFound,
    /// The caller already holds a live vote for the digest.
    AlreadyVoted,
    /// The caller holds no vote for the digest.
    NotVoter,
    /// The caller's spendable balance is below the deposit unit.
    InsufficientFunds,
    /// A counter or a balance would leave the range of `u64`.
    ArithmeticOverflow,
}

} // verus!
