use vstd::prelude::*;

use crate::error::ErrorCode;
use crate::state::{same_bytes, DigestView, HashAccount, VoteInfo};

verus! {

/// What the registry holds: each registered digest and its record.
pub type Ledger = Map<Seq<u8>, DigestView>;

/// Whether `voter` holds a live vote for digest `h`.
pub open spec fn voted(m: Ledger, h: Seq<u8>, voter: Seq<u8>) -> bool {
    m.contains_key(h) && m[h].voters.contains(voter)
}

/// The consistency every reachable ledger keeps: each record counts exactly its
/// live votes, holds one unit of escrow per vote, lists each voter once, and
/// exists only while at least one vote is live.
pub open spec fn ledger_wf(m: Ledger, unit: nat) -> bool {
    forall|h: Seq<u8>|
        #[trigger] m.contains_key(h) ==> {
            &&& m[h].voter_count == m[h].voters.len()
            &&& m[h].voter_count > 0
            &&& m[h].escrow == m[h].voter_count * unit
            &&& m[h].voters.no_duplicates()
        }
}

/// The ledger after `voter` votes for `h`: a record is created at `now` when `h`
/// was not registered; the count and the escrow grow by one vote.
pub open spec fn after_vote(m: Ledger, h: Seq<u8>, voter: Seq<u8>, now: int, unit: nat) -> Ledger {
    if m.contains_key(h) {
        let d = m[h];
        m.insert(
            h,
            DigestView {
                voter_count: d.voter_count + 1,
                created_at: d.created_at,
                escrow: d.escrow + unit,
                voters: d.voters.push(voter),
            },
        )
    } else {
        m.insert(h, DigestView { voter_count: 1, created_at: now, escrow: unit, voters: seq![voter] })
    }
}

/// The ledger after `voter` withdraws its vote for `h`: the record loses that
/// vote and one unit of escrow, and is retired when no vote is left.
pub open spec fn after_unvote(m: Ledger, h: Seq<u8>, voter: Seq<u8>, unit: nat) -> Ledger {
    let d = m[h];
    if d.voter_count <= 1 {
        m.remove(h)
    } else {
        m.insert(
            h,
            DigestView {
                voter_count: (d.voter_count - 1) as nat,
                created_at: d.created_at,
                escrow: (d.escrow - unit) as nat,
                voters: d.voters.remove_value(voter),
            },
        )
    }
}

/// The error a vote is refused with, if any, tested in this order.
pub open spec fn vote_error(m: Ledger, h: Seq<u8>, voter: Seq<u8>, lamports: nat, unit: nat) -> Option<
    ErrorCode,
> {
    if voted(m, h, voter) {
        Some(ErrorCode::AlreadyVoted)
    } else if lamports < unit {
        Some(ErrorCode::InsufficientFunds)
    } else if m.contains_key(h) && (m[h].voter_count + 1 > u64::MAX || m[h].escrow + unit
        > u64::MAX) {
        Some(ErrorCode::ArithmeticOverflow)
    } else {
        None
    }
}

/// The error a withdrawal is refused with, if any, tested in this order.
pub open spec fn unvote_error(m: Ledger, h: Seq<u8>, voter: Seq<u8>, lamports: nat, unit: nat) -> Option<
    ErrorCode,
> {
    if !m.contains_key(h) {
        Some(ErrorCode::HashNotFound)
    } else if !m[h].voters.contains(voter) {
        Some(ErrorCode::NotVoter)
    } else if lamports + unit > u64::MAX {
        Some(ErrorCode::ArithmeticOverflow)
    } else {
        None
    }
}

/// The balance escrowed for `h`: zero when it is not registered.
pub open spec fn escrow_of(m: Ledger, h: Seq<u8>) -> nat {
    if m.contains_key(h) {
        m[h].escrow
    } else {
        0
    }
}

/// The result that an operation refused with `e`, or accepted when `e` is none, returns.
pub open spec fn outcome(e: Option<ErrorCode>) -> Result<(), ErrorCode> {
    match e {
        Some(code) => Err(code),
        None => Ok(()),
    }
}

/// A digest record, the balance escrowed in it, and the live votes for its digest.
struct DigestEntry {
    account: HashAccount,
    lamports: u64,
    votes: Vec<VoteInfo>,
}

impl DigestEntry {
    spec fn voters(self) -> Seq<Seq<u8>> {
        self.votes@.map_values(|v: VoteInfo| v.voter@)
    }

    spec fn model(self) -> DigestView {
        DigestView {
            voter_count: self.account.voters as nat,
            created_at: self.account.created_at as int,
            escrow: self.lamports as nat,
            voters: self.voters(),
        }
    }

    spec fn wf(self, unit: u64) -> bool {
        &&& self.account.voters as nat == self.votes@.len()
        &&& self.votes@.len() > 0
        &&& self.lamports as nat == self.account.voters as nat * unit as nat
        &&& self.voters().no_duplicates()
        &&& forall|k: int|
            0 <= k < self.votes@.len() ==> {
                &&& (#[trigger] self.votes@[k]).hash@ == self.account.hash@
                &&& self.votes@[k].amount == unit
            }
    }
}

spec fn holds(s: Seq<DigestEntry>, i: int, h: Seq<u8>) -> bool {
    0 <= i < s.len() && s[i].account.hash@ == h
}

spec fn keys_unique(s: Seq<DigestEntry>) -> bool {
    forall|i: int, j: int|
        0 <= i < s.len() && 0 <= j < s.len() && i != j ==> s[i].account.hash@ != s[j].account.hash@
}

spec fn view_of(s: Seq<DigestEntry>) -> Ledger {
    Map::new(
        |h: Seq<u8>| exists|i: int| holds(s, i, h),
        |h: Seq<u8>| s[choose|i: int| holds(s, i, h)].model(),
    )
}

proof fn lemma_view_at(s: Seq<DigestEntry>, i: int)
    requires
        keys_unique(s),
        0 <= i < s.len(),
    ensures
        view_of(s).contains_key(s[i].account.hash@),
        view_of(s)[s[i].account.hash@] == s[i].model(),
{
    let h = s[i].account.hash@;
    assert(holds(s, i, h));
    let j = choose|j: int| holds(s, j, h);
    assert(j == i);
}

proof fn lemma_view_update(s: Seq<DigestEntry>, i: int, e: DigestEntry)
    requires
        keys_unique(s),
        0 <= i < s.len(),
        e.account.hash@ == s[i].account.hash@,
    ensures
        keys_unique(s.update(i, e)),
        view_of(s.update(i, e)) == view_of(s).insert(e.account.hash@, e.model()),
{
    let t = s.update(i, e);
    let want = view_of(s).insert(e.account.hash@, e.model());
    assert forall|h: Seq<u8>| view_of(t).contains_key(h) == want.contains_key(h) by {
        if view_of(t).contains_key(h) {
            let j = choose|j: int| holds(t, j, h);
            assert(holds(s, j, h));
        }
        if view_of(s).contains_key(h) {
            let j = choose|j: int| holds(s, j, h);
            assert(holds(t, j, h));
        }
        if h == e.account.hash@ {
            assert(holds(t, i, h));
        }
    }
    assert forall|h: Seq<u8>| #[trigger] view_of(t).contains_key(h) implies view_of(t)[h] == want[h] by {
        let j = choose|j: int| holds(t, j, h);
        lemma_view_at(t, j);
        if j != i {
            lemma_view_at(s, j);
        }
    }
    assert(view_of(t) =~= want);
}

proof fn lemma_view_push(s: Seq<DigestEntry>, e: DigestEntry)
    requires
        keys_unique(s),
        !view_of(s).contains_key(e.account.hash@),
    ensures
        keys_unique(s.push(e)),
        view_of(s.push(e)) == view_of(s).insert(e.account.hash@, e.model()),
{
    let t = s.push(e);
    let n = s.len() as int;
    let want = view_of(s).insert(e.account.hash@, e.model());
    assert forall|i: int| 0 <= i < n implies s[i].account.hash@ != e.account.hash@ by {
        if s[i].account.hash@ == e.account.hash@ {
            assert(holds(s, i, e.account.hash@));
        }
    }
    assert forall|h: Seq<u8>| view_of(t).contains_key(h) == want.contains_key(h) by {
        if view_of(t).contains_key(h) {
            let j = choose|j: int| holds(t, j, h);
            if j < n {
                assert(holds(s, j, h));
            }
        }
        if view_of(s).contains_key(h) {
            let j = choose|j: int| holds(s, j, h);
            assert(holds(t, j, h));
        }
        if h == e.account.hash@ {
            assert(holds(t, n, h));
        }
    }
    assert forall|h: Seq<u8>| #[trigger] view_of(t).contains_key(h) implies view_of(t)[h] == want[h] by {
        let j = choose|j: int| holds(t, j, h);
        lemma_view_at(t, j);
        if j != n {
            lemma_view_at(s, j);
        }
    }
    assert(view_of(t) =~= want);
}

proof fn lemma_view_remove(s: Seq<DigestEntry>, i: int)
    requires
        keys_unique(s),
        0 <= i < s.len(),
    ensures
        keys_unique(s.remove(i)),
        view_of(s.remove(i)) == view_of(s).remove(s[i].account.hash@),
{
    let t = s.remove(i);
    let h0 = s[i].account.hash@;
    let want = view_of(s).remove(h0);
    assert forall|a: int, b: int|
        0 <= a < t.len() && 0 <= b < t.len() && a != b implies t[a].account.hash@
        != t[b].account.hash@ by {
        let a0 = if a < i { a } else { a + 1 };
        let b0 = if b < i { b } else { b + 1 };
        assert(t[a] == s[a0] && t[b] == s[b0]);
    }
    assert forall|h: Seq<u8>| view_of(t).contains_key(h) == want.contains_key(h) by {
        if view_of(t).contains_key(h) {
            let j = choose|j: int| holds(t, j, h);
            let j0 = if j < i { j } else { j + 1 };
            assert(holds(s, j0, h));
        }
        if want.contains_key(h) {
            let j = choose|j: int| holds(s, j, h);
            assert(j != i);
            let j1 = if j < i { j } else { j - 1 };
            assert(holds(t, j1, h));
        }
    }
    assert forall|h: Seq<u8>| #[trigger] view_of(t).contains_key(h) implies view_of(t)[h] == want[h] by {
        let j = choose|j: int| holds(t, j, h);
        let j0 = if j < i { j } else { j + 1 };
        assert(t[j] == s[j0]);
        lemma_view_at(t, j);
        lemma_view_at(s, j0);
    }
    assert(view_of(t) =~= want);
}

/// The caller of a vote: its authenticated identity, its spendable balance, and
/// the clock reading the host supplies for the call.
pub struct Vote {
    pub user: [u8; 32],
    pub lamports: u64,
    pub now: i64,
}

/// The caller of a withdrawal: its authenticated identity and its spendable balance.
pub struct Unvote {
    pub user: [u8; 32],
    pub lamports: u64,
}

/// The store of digest records and their vote records, keyed by digest.
pub struct Registry {
    unit: u64,
    entries: Vec<DigestEntry>,
}

impl View for Registry {
    type V = Ledger;

    closed spec fn view(&self) -> Ledger {
        view_of(self.entries@)
    }
}

impl Registry {
    /// The stake that every vote escrows, fixed when the registry is made.
    pub closed spec fn deposit_unit(&self) -> nat {
        self.unit as nat
    }

    /// The registry's representation is consistent.
    pub closed spec fn wf(&self) -> bool {
        &&& keys_unique(self.entries@)
        &&& forall|i: int|
            0 <= i < self.entries@.len() ==> (#[trigger] self.entries@[i]).wf(self.unit)
    }

    /// An empty registry in which every vote escrows `unit`.
    pub fn new(unit: u64) -> (r: Registry)
        ensures
            r.wf(),
            r@ == Ledger::empty(),
            r.deposit_unit() == unit,
    {
        let r = Registry { unit, entries: Vec::new() };
        assert(r@ =~= Ledger::empty());
        r
    }

    /// The stake that every vote escrows.
    pub fn unit(&self) -> (r: u64)
        ensures
            r == self.deposit_unit(),
    {
        self.unit
    }

    fn find_entry(&self, hash: &[u8; 32]) -> (r: Option<usize>)
        ensures
            match r {
                Some(i) => holds(self.entries@, i as int, hash@),
                None => forall|i: int|
                    0 <= i < self.entries@.len() ==> !holds(self.entries@, i, hash@),
            },
    {
        let mut i: usize = 0;
        while i < self.entries.len()
            invariant
                i <= self.entries@.len(),
                forall|j: int| 0 <= j < i ==> !holds(self.entries@, j, hash@),
            decreases self.entries@.len() - i,
        {
            if same_bytes(&self.entries[i].account.hash, hash) {
                return Some(i);
            }
            i = i + 1;
        }
        None
    }

    /// In a consistent registry every record's voter count equals the number of
    /// live vote records for its digest, its escrow is one deposit unit per live
    /// vote, and no voter holds two votes for one digest.
    pub proof fn lemma_counts_match(&self)
        requires
            self.wf(),
        ensures
            ledger_wf(self@, self.deposit_unit()),
    {
        let s = self.entries@;
        assert forall|h: Seq<u8>| #[trigger] self@.contains_key(h) implies {
            &&& self@[h].voter_count == self@[h].voters.len()
            &&& self@[h].voter_count > 0
            &&& self@[h].escrow == self@[h].voter_count * self.deposit_unit()
            &&& self@[h].voters.no_duplicates()
        } by {
            let j = choose|j: int| holds(s, j, h);
            lemma_view_at(s, j);
            assert(s[j].wf(self.unit));
        }
    }

    /// The digest record of `hash`, when it is registered.
    pub fn record(&self, hash: &[u8; 32]) -> (r: Option<HashAccount>)
        requires
            self.wf(),
        ensures
            r is Some <==> self@.contains_key(hash@),
            r matches Some(a) ==> {
                &&& a.hash@ == hash@
                &&& a.voters as nat == self@[hash@].voter_count
                &&& a.created_at as int == self@[hash@].created_at
            },
    {
        match self.find_entry(hash) {
            Some(i) => {
                proof {
                    lemma_view_at(self.entries@, i as int);
                }
                Some(self.entries[i].account)
            },
            None => None,
        }
    }

    /// The balance escrowed for `hash`; zero when it is not registered.
    pub fn escrow(&self, hash: &[u8; 32]) -> (r: u64)
        requires
            self.wf(),
        ensures
            r == (if self@.contains_key(hash@) {
                self@[hash@].escrow
            } else {
                0
            }),
    {
        match self.find_entry(hash) {
            Some(i) => {
                proof {
                    lemma_view_at(self.entries@, i as int);
                }
                self.entries[i].lamports
            },
            None => 0,
        }
    }

    /// The live vote record of `voter` for `hash`, if there is one.
    pub fn vote_record(&self, hash: &[u8; 32], voter: &[u8; 32]) -> (r: Option<VoteInfo>)
        requires
            self.wf(),
        ensures
            r is Some <==> voted(self@, hash@, voter@),
            r matches Some(v) ==> {
                &&& v.voter@ == voter@
                &&& v.hash@ == hash@
                &&& v.amount == self.deposit_unit()
            },
    {
        match self.find_entry(hash) {
            Some(i) => {
                proof {
                    lemma_view_at(self.entries@, i as int);
                    assert(self.entries@[i as int].wf(self.unit));
                }
                match find_vote(&self.entries[i].votes, voter) {
                    Some(k) => {
                        proof {
                            assert(self.entries@[i as int].voters()[k as int] == voter@);
                        }
                        Some(self.entries[i].votes[k])
                    },
                    None => None,
                }
            },
            None => {
                proof {
                    if self@.contains_key(hash@) {
                        let j = choose|j: int| holds(self.entries@, j, hash@);
                    }
                }
                None
            },
        }
    }
}

fn find_vote(votes: &Vec<VoteInfo>, voter: &[u8; 32]) -> (r: Option<usize>)
    ensures
        match r {
            Some(k) => k < votes@.len() && votes@[k as int].voter@ == voter@,
            None => forall|k: int| 0 <= k < votes@.len() ==> votes@[k].voter@ != voter@,
        },
{
    let mut k: usize = 0;
    while k < votes.len()
        invariant
            k <= votes@.len(),
            forall|j: int| 0 <= j < k ==> votes@[j].voter@ != voter@,
        decreases votes@.len() - k,
    {
        if same_bytes(&votes[k].voter, voter) {
            return Some(k);
        }
        k = k + 1;
    }
    None
}

/// Casts the caller's vote for `hash`, escrowing one deposit unit from its
/// balance. The digest record is created when `hash` is not registered yet.
pub fn vote(registry: &mut Registry, ctx: &mut Vote, hash: [u8; 32]) -> (r: Result<(), ErrorCode>)
    requires
        old(registry).wf(),
    ensures
        final(registry).wf(),
        final(registry).deposit_unit() == old(registry).deposit_unit(),
        r == outcome(
            vote_error(
                old(registry)@,
                hash@,
                old(ctx).user@,
                old(ctx).lamports as nat,
                old(registry).deposit_unit(),
            ),
        ),
        r is Ok ==> {
            &&& final(registry)@ == after_vote(
                old(registry)@,
                hash@,
                old(ctx).user@,
                old(ctx).now as int,
                old(registry).deposit_unit(),
            )
            &&& final(ctx).lamports == old(ctx).lamports - old(registry).deposit_unit()
            &&& final(ctx).user == old(ctx).user
            &&& final(ctx).now == old(ctx).now
        },
        r is Err ==> *final(registry) == *old(registry) && *final(ctx) == *old(ctx),
{
    let unit = registry.unit;
    let ghost m = registry@;
    let ghost s = registry.entries@;
    let ballot = VoteInfo { voter: ctx.user, hash, amount: unit };
    match registry.find_entry(&hash) {
        None => {
            proof {
                if m.contains_key(hash@) {
                    let j = choose|j: int| holds(s, j, hash@);
                }
            }
            if ctx.lamports < unit {
                return Err(ErrorCode::InsufficientFunds);
            }
            let mut votes: Vec<VoteInfo> = Vec::new();
            votes.push(ballot);
            let entry = DigestEntry {
                account: HashAccount { hash, voters: 1, created_at: ctx.now },
                lamports: unit,
                votes,
            };
            proof {
                lemma_view_push(s, entry);
                assert(entry.voters() =~= seq![ctx.user@]);
                assert(entry.wf(unit));
            }
            registry.entries.push(entry);
            ctx.lamports = ctx.lamports - unit;
            proof {
                assert(registry.entries@ == s.push(entry));
                assert(registry@ =~= after_vote(m, hash@, ctx.user@, ctx.now as int, unit as nat));
            }
            Ok(())
        },
        Some(i) => {
            proof {
                lemma_view_at(s, i as int);
            }
            let old_entry = &registry.entries[i];
            let found = find_vote(&old_entry.votes, &ctx.user);
            if found.is_some() {
                proof {
                    let k = found.unwrap() as int;
                    assert(old_entry.voters()[k] == ctx.user@);
                }
                return Err(ErrorCode::AlreadyVoted);
            }
            proof {
                assert(!old_entry.voters().contains(ctx.user@));
            }
            if ctx.lamports < unit {
                return Err(ErrorCode::InsufficientFunds);
            }
            let voters = old_entry.account.voters;
            let lamports = old_entry.lamports;
            if voters == u64::MAX || lamports > u64::MAX - unit {
                return Err(ErrorCode::ArithmeticOverflow);
            }
            let ghost e0 = *old_entry;
            let mut entry = registry.entries.remove(i);
            entry.votes.push(ballot);
            entry.account.voters = voters + 1;
            entry.lamports = lamports + unit;
            proof {
                assert(s[i as int].wf(unit));
                assert(entry.voters() =~= e0.voters().push(ctx.user@));
                assert(entry.lamports as nat == entry.account.voters as nat * unit as nat) by (nonlinear_arith)
                    requires
                        lamports as nat == voters as nat * unit as nat,
                        entry.lamports == lamports + unit,
                        entry.account.voters == voters + 1,
                ;
                assert forall|k: int| 0 <= k < entry.votes@.len() implies {
                    &&& (#[trigger] entry.votes@[k]).hash@ == entry.account.hash@
                    &&& entry.votes@[k].amount == unit
                } by {
                    if k < e0.votes@.len() {
                        assert(entry.votes@[k] == e0.votes@[k]);
                    }
                }
                assert(entry.wf(unit));
                lemma_view_update(s, i as int, entry);
            }
            registry.entries.insert(i, entry);
            ctx.lamports = ctx.lamports - unit;
            proof {
                assert(registry.entries@ =~= s.update(i as int, entry));
                assert(registry@ =~= after_vote(m, hash@, ctx.user@, ctx.now as int, unit as nat));
            }
            Ok(())
        },
    }
}

pub(crate) proof fn lemma_remove_keeps_distinct(s: Seq<Seq<u8>>, k: int)
    requires
        s.no_duplicates(),
        0 <= k < s.len(),
    ensures
        s.remove(k).no_duplicates(),
        forall|x: Seq<u8>| s.remove(k).contains(x) <==> (s.contains(x) && x != s[k]),
        s.remove_value(s[k]) == s.remove(k),
{
    let t = s.remove(k);
    assert forall|a: int, b: int| 0 <= a < t.len() && 0 <= b < t.len() && a != b implies t[a] != t[b] by {
        let a0 = if a < k { a } else { a + 1 };
        let b0 = if b < k { b } else { b + 1 };
        assert(t[a] == s[a0] && t[b] == s[b0]);
    }
    assert forall|x: Seq<u8>| t.contains(x) <==> (s.contains(x) && x != s[k]) by {
        if t.contains(x) {
            let a = choose|a: int| 0 <= a < t.len() && t[a] == x;
            let a0 = if a < k { a } else { a + 1 };
            assert(s[a0] == x);
        }
        if s.contains(x) && x != s[k] {
            let a = choose|a: int| 0 <= a < s.len() && s[a] == x;
            let a1 = if a < k { a } else { a - 1 };
            assert(t[a1] == x);
        }
    }
    s.index_of_first_ensures(s[k]);
}

/// Withdraws the caller's vote for `hash` and refunds its stake. The digest
/// record is retired, and its residual escrow drained to the caller, when this
/// was the last vote.
pub fn unvote(registry: &mut Registry, ctx: &mut Unvote, hash: [u8; 32]) -> (r: Result<(), ErrorCode>)
    requires
        old(registry).wf(),
    ensures
        final(registry).wf(),
        final(registry).deposit_unit() == old(registry).deposit_unit(),
        r == outcome(
            unvote_error(
                old(registry)@,
                hash@,
                old(ctx).user@,
                old(ctx).lamports as nat,
                old(registry).deposit_unit(),
            ),
        ),
        r is Ok ==> {
            &&& final(registry)@ == after_unvote(
                old(registry)@,
                hash@,
                old(ctx).user@,
                old(registry).deposit_unit(),
            )
            &&& final(ctx).lamports == old(ctx).lamports + old(registry).deposit_unit()
            &&& final(ctx).user == old(ctx).user
        },
        r is Err ==> *final(registry) == *old(registry) && *final(ctx) == *old(ctx),
{
    let unit = registry.unit;
    let ghost m = registry@;
    let ghost s = registry.entries@;
    let i = match registry.find_entry(&hash) {
        Some(i) => i,
        None => {
            proof {
                if m.contains_key(hash@) {
                    let j = choose|j: int| holds(s, j, hash@);
                }
            }
            return Err(ErrorCode::HashNotFound);
        },
    };
    proof {
        lemma_view_at(s, i as int);
        assert(s[i as int].wf(unit));
    }
    let k = match find_vote(&registry.entries[i].votes, &ctx.user) {
        Some(k) => k,
        None => {
            return Err(ErrorCode::NotVoter);
        },
    };
    let ghost e0 = registry.entries@[i as int];
    proof {
        assert(e0.voters()[k as int] == ctx.user@);
    }
    let amount = registry.entries[i].votes[k].amount;
    if ctx.lamports > u64::MAX - amount {
        return Err(ErrorCode::ArithmeticOverflow);
    }
    let mut entry = registry.entries.remove(i);
    proof {
        assert(entry.lamports as nat == entry.account.voters as nat * unit as nat);
        assert(entry.account.voters >= 1);
        assert(entry.lamports >= unit) by (nonlinear_arith)
            requires
                entry.lamports as nat == entry.account.voters as nat * unit as nat,
                entry.account.voters >= 1,
        ;
    }
    entry.lamports = entry.lamports - amount;
    ctx.lamports = ctx.lamports + amount;
    let _ = entry.votes.remove(k);
    entry.account.voters = entry.account.voters - 1;
    proof {
        assert(entry.lamports as nat == entry.account.voters as nat * unit as nat) by (nonlinear_arith)
            requires
                e0.lamports as nat == e0.account.voters as nat * unit as nat,
                entry.lamports == e0.lamports - unit,
                entry.account.voters == e0.account.voters - 1,
        ;
        assert(entry.voters() =~= e0.voters().remove(k as int));
        lemma_remove_keeps_distinct(e0.voters(), k as int);
    }
    if entry.account.voters == 0 {
        let residual = entry.lamports;
        assert(residual == 0);
        ctx.lamports = ctx.lamports + residual;
        proof {
            lemma_view_remove(s, i as int);
            assert(registry.entries@ =~= s.remove(i as int));
            assert(registry@ =~= after_unvote(m, hash@, ctx.user@, unit as nat));
            assert forall|j: int| 0 <= j < registry.entries@.len() implies (#[trigger] registry.entries@[j]).wf(unit) by {
                let j0 = if j < i { j } else { j + 1 };
                assert(registry.entries@[j] == s[j0]);
            }
        }
    } else {
        proof {
            assert forall|q: int| 0 <= q < entry.votes@.len() implies {
                &&& (#[trigger] entry.votes@[q]).hash@ == entry.account.hash@
                &&& entry.votes@[q].amount == unit
            } by {
                let q0 = if q < k { q } else { q + 1 };
                assert(entry.votes@[q] == e0.votes@[q0]);
            }
            assert(entry.wf(unit));
            lemma_view_update(s, i as int, entry);
        }
        registry.entries.insert(i, entry);
        proof {
            assert(registry.entries@ =~= s.update(i as int, entry));
            assert(registry@ =~= after_unvote(m, hash@, ctx.user@, unit as nat));
        }
    }
    Ok(())
}

/// Confirms that `hash` is registered; changes nothing.
pub fn verify(registry: &Registry, hash: [u8; 32]) -> (r: Result<(), ErrorCode>)
    requires
        registry.wf(),
    ensures
        r == (if registry@.contains_key(hash@) {
            Ok(())
        } else {
            Err(ErrorCode::HashNotFound)
        }),
{
    match registry.find_entry(&hash) {
        Some(i) => {
            proof {
                lemma_view_at(registry.entries@, i as int);
            }
            Ok(())
        },
        None => Err(ErrorCode::HashNotFound),
    }
}

} // verus!
