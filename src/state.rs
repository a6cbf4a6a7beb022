use vstd::prelude::*;

verus! {

/// The record kept for a registered digest.
#[derive(Debug, Clone, Copy)]
pub struct HashAccount {
    /// The digest this record stands for.
    pub hash: [u8; 32],
    /// The number of live votes for the digest.
    pub voters: u64,
    /// The clock reading of the vote that created the record.
    pub created_at: i64,
}

/// One voter's live vote for one digest, and the stake it escrowed.
#[derive(Debug, Clone, Copy)]
pub struct VoteInfo {
    /// The identity of the voter.
    pub voter: [u8; 32],
    /// The digest voted for.
    pub hash: [u8; 32],
    /// The stake escrowed by this vote.
    pub amount: u64,
}

/// What a live digest record holds, as mathematical values.
pub struct DigestView {
    /// The record's voter counter.
    pub voter_count: nat,
    /// The clock reading at creation.
    pub created_at: int,
    /// The balance escrowed in the record.
    pub escrow: nat,
    /// The voters that hold a live vote record for the digest, in voting order.
    pub voters: Seq<Seq<u8>>,
}

/// Byte-wise equality of two 32-byte values.
pub fn same_bytes(a: &[u8; 32], b: &[u8; 32]) -> (r: bool)
    ensures
        r == (a@ == b@),
{
    let mut i: usize = 0;
    while i < 32
        invariant
            i <= 32,
            a@.len() == 32,
            b@.len() == 32,
            forall|j: int| 0 <= j < i ==> a@[j] == b@[j],
        decreases 32 - i,
    {
        if a[i] != b[i] {
            assert(a@[i as int] != b@[i as int]);
            return false;
        }
        i = i + 1;
    }
    assert(a@ =~= b@);
    true
}

} // verus!
