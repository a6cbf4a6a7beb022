use hash_timestamp::{unvote, verify, vote, ErrorCode, Registry, Unvote, Vote};
use hash_timestamp::state::same_bytes;

const UNIT: u64 = 1_000;

fn digest(b: u8) -> [u8; 32] {
    [b; 32]
}

fn voter(b: u8) -> [u8; 32] {
    let mut k = [0u8; 32];
    k[0] = b;
    k[31] = b;
    k
}

fn cast(r: &mut Registry, who: u8, lamports: u64, now: i64, d: [u8; 32]) -> (Result<(), ErrorCode>, u64) {
    let mut ctx = Vote { user: voter(who), lamports, now };
    let res = vote(r, &mut ctx, d);
    (res, ctx.lamports)
}

fn withdraw(r: &mut Registry, who: u8, lamports: u64, d: [u8; 32]) -> (Result<(), ErrorCode>, u64) {
    let mut ctx = Unvote { user: voter(who), lamports };
    let res = unvote(r, &mut ctx, d);
    (res, ctx.lamports)
}

#[test]
fn fresh_digest_is_not_found() {
    let r = Registry::new(UNIT);
    assert_eq!(verify(&r, digest(9)), Err(ErrorCode::HashNotFound));
    assert!(r.record(&digest(9)).is_none());
    assert_eq!(r.escrow(&digest(9)), 0);
    assert_eq!(r.unit(), UNIT);
}

#[test]
fn verify_tracks_votes_until_last_withdrawal() {
    let mut r = Registry::new(UNIT);
    let d = digest(1);
    assert_eq!(cast(&mut r, 1, 5_000, 10, d), (Ok(()), 4_000));
    assert_eq!(verify(&r, d), Ok(()));
    assert_eq!(verify(&r, digest(2)), Err(ErrorCode::HashNotFound));
    assert_eq!(withdraw(&mut r, 1, 4_000, d), (Ok(()), 5_000));
    assert_eq!(verify(&r, d), Err(ErrorCode::HashNotFound));
}

#[test]
fn scenario_two_voters_vote() {
    let mut r = Registry::new(UNIT);
    let d = digest(7);
    let (res, v1) = cast(&mut r, 1, 10_000, 100, d);
    assert_eq!(res, Ok(()));
    assert_eq!(v1, 10_000 - UNIT);
    let rec = r.record(&d).unwrap();
    assert_eq!(rec.voters, 1);
    assert_eq!(rec.created_at, 100);
    assert_eq!(rec.hash, d);
    assert_eq!(r.escrow(&d), UNIT);

    let (res, v2) = cast(&mut r, 2, 3_000, 200, d);
    assert_eq!(res, Ok(()));
    assert_eq!(v2, 3_000 - UNIT);
    let rec = r.record(&d).unwrap();
    assert_eq!(rec.voters, 2);
    assert_eq!(rec.created_at, 100);
    assert_eq!(r.escrow(&d), 2 * UNIT);

    let first = r.vote_record(&d, &voter(1)).unwrap();
    assert_eq!(first.voter, voter(1));
    assert_eq!(first.hash, d);
    assert_eq!(first.amount, UNIT);
    assert!(r.vote_record(&d, &voter(2)).is_some());
}

#[test]
fn scenario_two_voters_withdraw() {
    let mut r = Registry::new(UNIT);
    let d = digest(7);
    let (_, v1) = cast(&mut r, 1, 10_000, 100, d);
    let (_, v2) = cast(&mut r, 2, 3_000, 200, d);

    assert_eq!(withdraw(&mut r, 1, v1, d), (Ok(()), 10_000));
    let rec = r.record(&d).unwrap();
    assert_eq!(rec.voters, 1);
    assert_eq!(r.escrow(&d), UNIT);
    assert_eq!(verify(&r, d), Ok(()));
    assert!(r.vote_record(&d, &voter(1)).is_none());
    assert!(r.vote_record(&d, &voter(2)).is_some());

    assert_eq!(withdraw(&mut r, 2, v2, d), (Ok(()), 3_000));
    assert!(r.record(&d).is_none());
    assert_eq!(r.escrow(&d), 0);
    assert_eq!(verify(&r, d), Err(ErrorCode::HashNotFound));
}

#[test]
fn scenario_double_vote_is_refused() {
    let mut r = Registry::new(UNIT);
    let d = digest(3);
    let (_, v1) = cast(&mut r, 1, 5_000, 1, d);
    assert_eq!(cast(&mut r, 1, v1, 2, d), (Err(ErrorCode::AlreadyVoted), v1));
    let rec = r.record(&d).unwrap();
    assert_eq!(rec.voters, 1);
    assert_eq!(rec.created_at, 1);
    assert_eq!(r.escrow(&d), UNIT);
}

#[test]
fn scenario_unvote_by_non_voter() {
    let mut r = Registry::new(UNIT);
    let d = digest(4);
    cast(&mut r, 1, 5_000, 1, d);
    assert_eq!(withdraw(&mut r, 2, 700, d), (Err(ErrorCode::NotVoter), 700));
    assert_eq!(r.record(&d).unwrap().voters, 1);
    assert_eq!(r.escrow(&d), UNIT);
    assert_eq!(withdraw(&mut r, 2, 700, digest(5)), (Err(ErrorCode::HashNotFound), 700));
}

#[test]
fn vote_then_unvote_restores_everything() {
    let mut r = Registry::new(UNIT);
    let d = digest(6);
    let (res, after) = cast(&mut r, 3, 2_500, 42, d);
    assert_eq!(res, Ok(()));
    assert_eq!(withdraw(&mut r, 3, after, d), (Ok(()), 2_500));
    assert!(r.record(&d).is_none());
    assert!(r.vote_record(&d, &voter(3)).is_none());

    // a later vote starts a fresh record
    assert_eq!(cast(&mut r, 3, 2_500, 50, d), (Ok(()), 1_500));
    assert_eq!(r.record(&d).unwrap().created_at, 50);
}

#[test]
fn round_trip_on_a_shared_digest() {
    let mut r = Registry::new(UNIT);
    let d = digest(8);
    cast(&mut r, 1, 5_000, 1, d);
    let (_, after) = cast(&mut r, 2, 5_000, 2, d);
    assert_eq!(withdraw(&mut r, 2, after, d), (Ok(()), 5_000));
    let rec = r.record(&d).unwrap();
    assert_eq!(rec.voters, 1);
    assert_eq!(rec.created_at, 1);
    assert_eq!(r.escrow(&d), UNIT);
}

#[test]
fn counts_match_live_votes_after_mixed_operations() {
    let mut r = Registry::new(UNIT);
    let a = digest(10);
    let b = digest(11);
    for who in 1..=4u8 {
        assert_eq!(cast(&mut r, who, 9_000, who as i64, a).0, Ok(()));
    }
    assert_eq!(cast(&mut r, 1, 9_000, 5, b).0, Ok(()));
    assert_eq!(withdraw(&mut r, 2, 0, a).0, Ok(()));
    assert_eq!(withdraw(&mut r, 4, 0, a).0, Ok(()));
    let live = (1..=4u8).filter(|w| r.vote_record(&a, &voter(*w)).is_some()).count() as u64;
    assert_eq!(live, 2);
    assert_eq!(r.record(&a).unwrap().voters, live);
    assert_eq!(r.escrow(&a), live * UNIT);
    assert_eq!(r.record(&b).unwrap().voters, 1);
    assert_eq!(r.escrow(&b), UNIT);
}

#[test]
fn vote_with_too_little_balance_is_refused() {
    let mut r = Registry::new(UNIT);
    let d = digest(12);
    assert_eq!(cast(&mut r, 1, UNIT - 1, 1, d), (Err(ErrorCode::InsufficientFunds), UNIT - 1));
    assert!(r.record(&d).is_none());
    cast(&mut r, 2, UNIT, 1, d);
    assert_eq!(cast(&mut r, 1, UNIT - 1, 1, d), (Err(ErrorCode::InsufficientFunds), UNIT - 1));
    assert_eq!(r.record(&d).unwrap().voters, 1);
}

#[test]
fn vote_with_exact_balance_is_accepted() {
    let mut r = Registry::new(UNIT);
    assert_eq!(cast(&mut r, 1, UNIT, 1, digest(13)), (Ok(()), 0));
}

#[test]
fn escrow_overflow_is_refused() {
    let big = u64::MAX / 2 + 1;
    let mut r = Registry::new(big);
    let d = digest(14);
    assert_eq!(cast(&mut r, 1, u64::MAX, 1, d), (Ok(()), u64::MAX - big));
    assert_eq!(cast(&mut r, 2, u64::MAX, 1, d), (Err(ErrorCode::ArithmeticOverflow), u64::MAX));
    assert_eq!(r.record(&d).unwrap().voters, 1);
    assert_eq!(r.escrow(&d), big);
}

#[test]
fn refund_overflow_is_refused() {
    let mut r = Registry::new(UNIT);
    let d = digest(15);
    cast(&mut r, 1, UNIT, 1, d);
    assert_eq!(withdraw(&mut r, 1, u64::MAX, d), (Err(ErrorCode::ArithmeticOverflow), u64::MAX));
    assert_eq!(r.record(&d).unwrap().voters, 1);
    assert!(r.vote_record(&d, &voter(1)).is_some());
}

#[test]
fn votes_on_other_digests_are_independent() {
    let mut r = Registry::new(UNIT);
    cast(&mut r, 1, 5_000, 1, digest(20));
    assert_eq!(cast(&mut r, 1, 5_000, 2, digest(21)), (Ok(()), 4_000));
    assert_eq!(withdraw(&mut r, 1, 0, digest(20)), (Ok(()), UNIT));
    assert_eq!(verify(&r, digest(20)), Err(ErrorCode::HashNotFound));
    assert_eq!(verify(&r, digest(21)), Ok(()));
}

#[test]
fn zero_unit_votes_escrow_nothing() {
    let mut r = Registry::new(0);
    let d = digest(22);
    assert_eq!(cast(&mut r, 1, 0, 3, d), (Ok(()), 0));
    assert_eq!(r.escrow(&d), 0);
    assert_eq!(r.record(&d).unwrap().voters, 1);
    assert_eq!(withdraw(&mut r, 1, 0, d), (Ok(()), 0));
    assert!(r.record(&d).is_none());
}

#[test]
fn byte_comparison_sees_every_position() {
    let a = digest(1);
    let mut b = digest(1);
    assert!(same_bytes(&a, &b));
    b[31] = 2;
    assert!(!same_bytes(&a, &b));
    b[31] = 1;
    b[0] = 0;
    assert!(!same_bytes(&a, &b));
}
