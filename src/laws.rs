//! Properties of the registry's operations, stated over the ledger view that
//! their contracts use.

use vstd::prelude::*;

use crate::error::ErrorCode;
use crate::registry::{
    after_unvote, after_vote, escrow_of, ledger_wf, lemma_remove_keeps_distinct, unvote_error, vote_error,
    voted, Ledger,
};

verus! {

/// In a consistent ledger a digest is registered exactly when some voter holds
/// a live vote for it: a digest never voted on, or whose votes were all
/// withdrawn, is not found.
pub proof fn lemma_registered_iff_live_vote(m: Ledger, unit: nat, h: Seq<u8>)
    requires
        ledger_wf(m, unit),
    ensures
        m.contains_key(h) <==> exists|v: Seq<u8>| voted(m, h, v),
{
    if m.contains_key(h) {
        assert(m[h].voters.len() > 0);
        assert(voted(m, h, m[h].voters[0]));
    }
}

/// A digest is registered after a vote for it, and stays registered after a
/// withdrawal exactly when that withdrawal does not take its last vote.
pub proof fn lemma_registration_follows_votes(
    m: Ledger,
    unit: nat,
    h: Seq<u8>,
    voter: Seq<u8>,
    now: int,
)
    requires
        ledger_wf(m, unit),
    ensures
        after_vote(m, h, voter, now, unit).contains_key(h),
        voted(m, h, voter) ==> (after_unvote(m, h, voter, unit).contains_key(h) <==> m[h].voter_count
            > 1),
{
}

/// A voter's second vote for a digest, with no withdrawal in between, is
/// refused as a duplicate, whatever the caller's balance.
pub proof fn lemma_second_vote_refused(
    m: Ledger,
    unit: nat,
    h: Seq<u8>,
    voter: Seq<u8>,
    now: int,
    lamports: nat,
)
    ensures
        vote_error(after_vote(m, h, voter, now, unit), h, voter, lamports, unit) == Some(
            ErrorCode::AlreadyVoted,
        ),
{
    let m1 = after_vote(m, h, voter, now, unit);
    if m.contains_key(h) {
        assert(m1[h].voters[m[h].voters.len() as int] == voter);
    } else {
        assert(m1[h].voters[0] == voter);
    }
}

/// An accepted vote keeps the ledger consistent: each record's count equals
/// its number of live votes, its escrow is one unit per vote, and no voter
/// appears twice.
pub proof fn lemma_vote_keeps_consistency(
    m: Ledger,
    unit: nat,
    h: Seq<u8>,
    voter: Seq<u8>,
    now: int,
    lamports: nat,
)
    requires
        ledger_wf(m, unit),
        vote_error(m, h, voter, lamports, unit).is_none(),
    ensures
        ledger_wf(after_vote(m, h, voter, now, unit), unit),
{
    let m1 = after_vote(m, h, voter, now, unit);
    if m.contains_key(h) {
        let s = m[h].voters;
        assert forall|a: int, b: int|
            0 <= a < s.push(voter).len() && 0 <= b < s.push(voter).len() && a != b implies s.push(
            voter,
        )[a] != s.push(voter)[b] by {
            if a == s.len() {
                assert(s[b] == s.push(voter)[b]);
            }
            if b == s.len() {
                assert(s[a] == s.push(voter)[a]);
            }
        }
        assert(m1[h].escrow == m1[h].voter_count * unit) by (nonlinear_arith)
            requires
                m1[h].escrow == m[h].escrow + unit,
                m[h].escrow == m[h].voter_count * unit,
                m1[h].voter_count == m[h].voter_count + 1,
        ;
    } else {
        assert(m1[h].voters.no_duplicates());
    }
    assert forall|k: Seq<u8>| #[trigger] m1.contains_key(k) implies {
        &&& m1[k].voter_count == m1[k].voters.len()
        &&& m1[k].voter_count > 0
        &&& m1[k].escrow == m1[k].voter_count * unit
        &&& m1[k].voters.no_duplicates()
    } by {
        if k != h {
            assert(m.contains_key(k));
        }
    }
}

/// An accepted withdrawal keeps the ledger consistent, in the same sense as an
/// accepted vote does.
pub proof fn lemma_unvote_keeps_consistency(
    m: Ledger,
    unit: nat,
    h: Seq<u8>,
    voter: Seq<u8>,
    lamports: nat,
)
    requires
        ledger_wf(m, unit),
        unvote_error(m, h, voter, lamports, unit).is_none(),
    ensures
        ledger_wf(after_unvote(m, h, voter, unit), unit),
{
    let m1 = after_unvote(m, h, voter, unit);
    let s = m[h].voters;
    assert(m.contains_key(h));
    if m[h].voter_count > 1 {
        let k = choose|k: int| 0 <= k < s.len() && s[k] == voter;
        lemma_remove_keeps_distinct(s, k);
        assert(m[h].escrow >= unit) by (nonlinear_arith)
            requires
                m[h].escrow == m[h].voter_count * unit,
                m[h].voter_count > 1,
        ;
        assert(m1[h].escrow == m1[h].voter_count * unit) by (nonlinear_arith)
            requires
                m1[h].escrow == m[h].escrow - unit,
                m[h].escrow == m[h].voter_count * unit,
                m1[h].voter_count == m[h].voter_count - 1,
        ;
    }
    assert forall|q: Seq<u8>| #[trigger] m1.contains_key(q) implies {
        &&& m1[q].voter_count == m1[q].voters.len()
        &&& m1[q].voter_count > 0
        &&& m1[q].escrow == m1[q].voter_count * unit
        &&& m1[q].voters.no_duplicates()
    } by {
        if q != h {
            assert(m.contains_key(q));
        }
    }
}

/// A vote followed at once by the same caller's withdrawal is accepted and
/// leaves the ledger as it was; with the caller's balance, which the vote
/// lowers by one unit and the withdrawal raises by one unit, restored too.
pub proof fn lemma_vote_unvote_round_trip(
    m: Ledger,
    unit: nat,
    h: Seq<u8>,
    voter: Seq<u8>,
    now: int,
    lamports: nat,
)
    requires
        ledger_wf(m, unit),
        lamports <= u64::MAX,
        vote_error(m, h, voter, lamports, unit).is_none(),
    ensures
        unvote_error(after_vote(m, h, voter, now, unit), h, voter, (lamports - unit) as nat, unit)
            .is_none(),
        after_unvote(after_vote(m, h, voter, now, unit), h, voter, unit) == m,
{
    let m1 = after_vote(m, h, voter, now, unit);
    if m.contains_key(h) {
        let s = m[h].voters;
        let t = s.push(voter);
        assert(t[s.len() as int] == voter);
        t.index_of_first_ensures(voter);
        let idx = t.index_of_first(voter).unwrap();
        if idx < s.len() {
            assert(s[idx] == voter);
        }
        assert(t.remove_value(voter) =~= s);
        assert(after_unvote(m1, h, voter, unit) =~= m);
    } else {
        assert(m1[h].voters[0] == voter);
        assert(after_unvote(m1, h, voter, unit) =~= m);
    }
}

/// Value is conserved: an accepted vote adds exactly one deposit unit to the
/// digest's escrow, which the voter's balance loses, and an accepted
/// withdrawal takes exactly one unit out of it, which the voter's balance gains.
pub proof fn lemma_value_conserved(
    m: Ledger,
    unit: nat,
    h: Seq<u8>,
    voter: Seq<u8>,
    now: int,
    lamports: nat,
)
    requires
        ledger_wf(m, unit),
    ensures
        vote_error(m, h, voter, lamports, unit).is_none() ==> escrow_of(
            after_vote(m, h, voter, now, unit),
            h,
        ) == escrow_of(m, h) + unit,
        unvote_error(m, h, voter, lamports, unit).is_none() ==> escrow_of(
            after_unvote(m, h, voter, unit),
            h,
        ) + unit == escrow_of(m, h),
{
    if unvote_error(m, h, voter, lamports, unit).is_none() {
        assert(m.contains_key(h));
        assert(m[h].escrow >= unit) by (nonlinear_arith)
            requires
                m[h].escrow == m[h].voter_count * unit,
                m[h].voter_count > 0,
        ;
        if m[h].voter_count <= 1 {
            assert(m[h].voter_count == 1);
            assert(m[h].escrow == unit) by (nonlinear_arith)
                requires
                    m[h].escrow == m[h].voter_count * unit,
                    m[h].voter_count == 1,
            ;
        }
    }
}

} // verus!
