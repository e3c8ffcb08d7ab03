use vstd::prelude::*;

use crate::conversion_utils::{quad_text, u32_to_ip};

verus! {

/// Ranks are `u32`, so the ledger holds at most this many visitors.
pub const MAX_VISITORS: usize = 4294967295;

/// A visitor as shown to callers: its address, its key, its first-seen rank
/// and its bot flag.
#[derive(Debug, Clone, PartialEq, Eq)]
pub struct UserInfo {
    pub ip_str: String,
    pub ip_dec: u32,
    pub rank: u32,
    pub is_bot: bool,
}

impl UserInfo {
    pub fn new(ip_dec: u32, rank: u32, is_bot: bool) -> (r: Self)
        ensures
            r.ip_str@ == quad_text(ip_dec),
            r.ip_dec == ip_dec,
            r.rank == rank,
            r.is_bot == is_bot,
    {
        UserInfo { ip_str: u32_to_ip(ip_dec), ip_dec, rank, is_bot }
    }
}

/// One row of the ledger. Its rank is its position plus one.
#[derive(Debug, Clone, Copy, PartialEq, Eq, Structural)]
pub struct VisitorRecord {
    pub user: u32,
    pub is_bot: bool,
}

/// Failures of the ledger.
#[derive(Debug, Clone, Copy, PartialEq, Eq, Structural)]
pub enum LedgerError {
    /// No rank can be given: the ledger is full.
    Unavailable,
    /// No record has the key.
    NotFound,
}

/// The index of the most recent record of `key`, or -1.
pub open spec fn position(recs: Seq<VisitorRecord>, key: u32) -> int
    decreases recs.len(),
{
    if recs.len() == 0 {
        -1
    } else if recs.last().user == key {
        recs.len() - 1
    } else {
        position(recs.drop_last(), key)
    }
}

/// Each key has at most one record, and every rank fits a `u32`.
pub open spec fn ledger_wf(recs: Seq<VisitorRecord>) -> bool {
    &&& recs.len() <= MAX_VISITORS
    &&& forall|i: int, j: int|
        0 <= i < recs.len() && 0 <= j < recs.len() && i != j ==> recs[i].user != recs[j].user
}

/// The records after resolving `key`: unchanged if it is known or if the
/// ledger is full, else with a new bot record for it at the end.
pub open spec fn after_resolve(recs: Seq<VisitorRecord>, key: u32) -> Seq<VisitorRecord> {
    if position(recs, key) >= 0 || recs.len() >= MAX_VISITORS {
        recs
    } else {
        recs.push(VisitorRecord { user: key, is_bot: true })
    }
}

/// The rank of `key`: its record's position plus one.
pub open spec fn rank_of(recs: Seq<VisitorRecord>, key: u32) -> int {
    position(recs, key) + 1
}

/// The records after marking `key` verified.
pub open spec fn after_verify(recs: Seq<VisitorRecord>, key: u32) -> Seq<VisitorRecord> {
    if position(recs, key) >= 0 {
        recs.update(position(recs, key), VisitorRecord { user: key, is_bot: false })
    } else {
        recs
    }
}

/// The number of records whose bot flag is `bot`.
pub open spec fn count_flag(recs: Seq<VisitorRecord>, bot: bool) -> nat
    decreases recs.len(),
{
    if recs.len() == 0 {
        0
    } else {
        count_flag(recs.drop_last(), bot) + (if recs.last().is_bot == bot { 1nat } else { 0nat })
    }
}

pub proof fn lemma_position(recs: Seq<VisitorRecord>, key: u32)
    ensures
        -1 <= position(recs, key) < recs.len(),
        position(recs, key) >= 0 ==> recs[position(recs, key)].user == key,
        position(recs, key) == -1 ==> forall|i: int| 0 <= i < recs.len() ==> recs[i].user != key,
    decreases recs.len(),
{
    if recs.len() > 0 {
        lemma_position(recs.drop_last(), key);
        if recs.last().user != key {
            assert forall|i: int| 0 <= i < recs.len() - 1 implies recs[i] == recs.drop_last()[i] by {}
        }
    }
}

proof fn lemma_count_flag_bound(recs: Seq<VisitorRecord>, bot: bool)
    ensures
        count_flag(recs, bot) <= recs.len(),
    decreases recs.len(),
{
    if recs.len() > 0 {
        lemma_count_flag_bound(recs.drop_last(), bot);
    }
}

proof fn lemma_position_push(recs: Seq<VisitorRecord>, key: u32, rec: VisitorRecord)
    ensures
        position(recs.push(rec), key) == if rec.user == key { recs.len() as int } else { position(recs, key) },
{
    assert(recs.push(rec).drop_last() =~= recs);
}

/// Resolving a key any number of times creates one record for it at most:
/// a second resolution changes nothing and sees the same rank, and the key
/// then has exactly one record.
pub proof fn lemma_resolve_once(recs: Seq<VisitorRecord>, key: u32)
    requires
        ledger_wf(recs),
        recs.len() < MAX_VISITORS || position(recs, key) >= 0,
    ensures
        after_resolve(after_resolve(recs, key), key) == after_resolve(recs, key),
        rank_of(after_resolve(recs, key), key) >= 1,
        position(recs, key) >= 0 ==> rank_of(after_resolve(recs, key), key) == rank_of(recs, key),
        forall|i: int|
            0 <= i < after_resolve(recs, key).len() && #[trigger] after_resolve(recs, key)[i].user == key
                ==> i == position(after_resolve(recs, key), key),
{
    let after = after_resolve(recs, key);
    lemma_position(recs, key);
    lemma_position_push(recs, key, VisitorRecord { user: key, is_bot: true });
    lemma_position(after, key);
    assert forall|i: int| 0 <= i < after.len() && #[trigger] after[i].user == key
        implies i == position(after, key) by {
        if position(recs, key) == -1 {
            if i < recs.len() {
                assert(recs[i] == after[i]);
            }
        }
    }
}

/// The records after resolving `key` `n` times in a row.
pub open spec fn resolve_times(recs: Seq<VisitorRecord>, key: u32, n: nat) -> Seq<VisitorRecord>
    decreases n,
{
    if n == 0 {
        recs
    } else {
        after_resolve(resolve_times(recs, key, (n - 1) as nat), key)
    }
}

/// Any number of resolutions of one key, on any ledger, leave what one
/// leaves: a single record of the key, whose rank every one of them sees.
pub proof fn lemma_resolve_many(recs: Seq<VisitorRecord>, key: u32, n: nat)
    requires
        ledger_wf(recs),
        recs.len() < MAX_VISITORS || position(recs, key) >= 0,
        n >= 1,
    ensures
        resolve_times(recs, key, n) == after_resolve(recs, key),
        rank_of(resolve_times(recs, key, n), key) == rank_of(after_resolve(recs, key), key),
        forall|i: int|
            0 <= i < resolve_times(recs, key, n).len() && #[trigger] resolve_times(recs, key, n)[i].user == key
                ==> i == position(resolve_times(recs, key, n), key),
    decreases n,
{
    lemma_resolve_once(recs, key);
    assert(resolve_times(recs, key, n) == after_resolve(resolve_times(recs, key, (n - 1) as nat), key));
    if n > 1 {
        lemma_resolve_many(recs, key, (n - 1) as nat);
    } else {
        assert(resolve_times(recs, key, 0) == recs);
    }
}

/// Ranks never change and follow first-seen order, whatever happens in
/// between: resolving or verifying any key keeps the rank of every known
/// visitor, and a key seen for the first time gets a rank above all of them.
pub proof fn lemma_ranks_stable(recs: Seq<VisitorRecord>, key: u32, other: u32)
    requires
        ledger_wf(recs),
        position(recs, other) >= 0,
    ensures
        rank_of(after_resolve(recs, key), other) == rank_of(recs, other),
        rank_of(after_verify(recs, key), other) == rank_of(recs, other),
        position(recs, key) == -1 && recs.len() < MAX_VISITORS ==> rank_of(after_resolve(recs, key), key)
            > rank_of(recs, other),
        ledger_wf(after_resolve(recs, key)),
        ledger_wf(after_verify(recs, key)),
{
    lemma_position(recs, key);
    lemma_position(recs, other);
    lemma_position_push(recs, other, VisitorRecord { user: key, is_bot: true });
    lemma_position_push(recs, key, VisitorRecord { user: key, is_bot: true });
    let v = after_verify(recs, key);
    let r = after_resolve(recs, key);
    assert forall|i: int, j: int| 0 <= i < r.len() && 0 <= j < r.len() && i != j implies r[i].user != r[j].user by {
        if position(recs, key) == -1 && recs.len() < MAX_VISITORS {
            if i < recs.len() {
                assert(r[i] == recs[i]);
            }
            if j < recs.len() {
                assert(r[j] == recs[j]);
            }
        }
    }
    if position(recs, key) >= 0 {
        assert forall|i: int| 0 <= i < v.len() implies #[trigger] v[i].user == recs[i].user by {}
        assert(ledger_wf(v));
        lemma_position(v, other);
        let q = position(v, other);
        let p = position(recs, other);
        if q != p {
            if q == -1 {
                assert(v[p].user == other);
            } else {
                assert(recs[q].user == other);
            }
        }
    }
}

/// Ranks follow first-seen order: a key seen for the first time after
/// another gets a greater rank, and the earlier key keeps its own.
pub proof fn lemma_rank_order(recs: Seq<VisitorRecord>, a: u32, b: u32)
    requires
        ledger_wf(recs),
        a != b,
        position(recs, a) == -1,
        position(recs, b) == -1,
        recs.len() + 2 <= MAX_VISITORS,
    ensures
        rank_of(after_resolve(recs, a), a) == recs.len() + 1,
        rank_of(after_resolve(after_resolve(recs, a), b), b) == recs.len() + 2,
        rank_of(after_resolve(after_resolve(recs, a), b), a) == rank_of(after_resolve(recs, a), a),
{
    let r1 = after_resolve(recs, a);
    lemma_position_push(recs, a, VisitorRecord { user: a, is_bot: true });
    lemma_position_push(recs, b, VisitorRecord { user: a, is_bot: true });
    lemma_position_push(r1, b, VisitorRecord { user: b, is_bot: true });
    lemma_position_push(r1, a, VisitorRecord { user: b, is_bot: true });
}

/// Marking a visitor verified twice is the same as once: both succeed and
/// leave its bot flag cleared.
pub proof fn lemma_verify_idempotent(recs: Seq<VisitorRecord>, key: u32)
    requires
        ledger_wf(recs),
        position(recs, key) >= 0,
    ensures
        position(after_verify(recs, key), key) == position(recs, key),
        after_verify(after_verify(recs, key), key) == after_verify(recs, key),
        after_verify(recs, key)[position(recs, key)].is_bot == false,
        ledger_wf(after_verify(recs, key)),
{
    let p = position(recs, key);
    let v = after_verify(recs, key);
    lemma_position(recs, key);
    assert(position(v, key) == p) by {
        lemma_position(v, key);
        if position(v, key) != p {
            if position(v, key) == -1 {
                assert(v[p].user == key);
            } else {
                assert(recs[position(v, key)].user == key);
            }
        }
    }
    assert(after_verify(v, key) =~= v);
}

/// The visitors seen so far, in first-seen order, held in memory.
///
/// This is the reference model of the visitor ledger: its methods state and
/// prove the get-or-create, rank, verify and count rules. A durable
/// deployment keeps the same table in a database and must follow these
/// rules there; its statements are not checked against this model.
pub struct VisitorLedger {
    records: Vec<VisitorRecord>,
}

impl View for VisitorLedger {
    type V = Seq<VisitorRecord>;

    closed spec fn view(&self) -> Seq<VisitorRecord> {
        self.records@
    }
}

impl VisitorLedger {
    pub open spec fn wf(&self) -> bool {
        ledger_wf(self@)
    }

    pub fn new() -> (r: Self)
        ensures
            r@ == Seq::<VisitorRecord>::empty(),
            r.wf(),
    {
        VisitorLedger { records: Vec::new() }
    }

    fn find(&self, key: u32) -> (r: Option<usize>)
        ensures
            match r {
                Some(i) => i as int == position(self@, key),
                None => position(self@, key) == -1,
            },
    {
        let mut i: usize = self.records.len();
        proof { assert(self.records@.subrange(0, i as int) =~= self.records@); }
        while i > 0
            invariant
                i <= self.records@.len(),
                position(self@, key) == position(self.records@.subrange(0, i as int), key),
            decreases i,
        {
            let ghost prefix = self.records@.subrange(0, i as int);
            assert(prefix.drop_last() =~= self.records@.subrange(0, i - 1));
            if self.records[i - 1].user == key {
                return Some(i - 1);
            }
            i = i - 1;
        }
        None
    }

    /// Looks up the visitor of `key`, first adding it as a bot with the next
    /// rank if it is new. Fails only when a new visitor cannot get a rank.
    pub fn get_user_info(&mut self, ip_dec: u32) -> (r: Result<UserInfo, LedgerError>)
        requires
            old(self).wf(),
        ensures
            final(self).wf(),
            final(self)@ == after_resolve(old(self)@, ip_dec),
            match r {
                Ok(info) => {
                    &&& position(final(self)@, ip_dec) >= 0
                    &&& info.ip_dec == ip_dec
                    &&& info.ip_str@ == quad_text(ip_dec)
                    &&& info.rank == rank_of(final(self)@, ip_dec)
                    &&& info.is_bot == final(self)@[position(final(self)@, ip_dec)].is_bot
                },
                Err(e) => {
                    &&& e == LedgerError::Unavailable
                    &&& position(old(self)@, ip_dec) == -1
                    &&& old(self)@.len() >= MAX_VISITORS
                },
            },
    {
        proof { lemma_position(self@, ip_dec); }
        match self.find(ip_dec) {
            Some(i) => {
                let rec = self.records[i];
                Ok(UserInfo::new(ip_dec, (i + 1) as u32, rec.is_bot))
            },
            None => {
                if self.records.len() >= MAX_VISITORS {
                    return Err(LedgerError::Unavailable);
                }
                let rank = self.records.len() + 1;
                self.records.push(VisitorRecord { user: ip_dec, is_bot: true });
                proof {
                    let s = self@;
                    assert(s.drop_last() =~= old(self)@);
                    assert(position(s, ip_dec) == s.len() - 1);
                }
                Ok(UserInfo::new(ip_dec, rank as u32, true))
            },
        }
    }

    /// Whether the visitor of `key` is still a bot; a new visitor is added as
    /// one, as `get_user_info` does.
    pub fn is_user_bot(&mut self, ip_dec: u32) -> (r: Result<bool, LedgerError>)
        requires
            old(self).wf(),
        ensures
            final(self).wf(),
            final(self)@ == after_resolve(old(self)@, ip_dec),
            match r {
                Ok(b) => position(final(self)@, ip_dec) >= 0 && b == final(self)@[position(
                    final(self)@,
                    ip_dec,
                )].is_bot,
                Err(e) => e == LedgerError::Unavailable && position(old(self)@, ip_dec) == -1
                    && old(self)@.len() >= MAX_VISITORS,
            },
    {
        match self.get_user_info(ip_dec) {
            Ok(info) => Ok(info.is_bot),
            Err(e) => Err(e),
        }
    }

    /// Clears the bot flag of the visitor of `key`. Marking a verified
    /// visitor again succeeds and changes nothing.
    pub fn set_user_not_bot(&mut self, ip_dec: u32) -> (r: Result<(), LedgerError>)
        requires
            old(self).wf(),
        ensures
            final(self).wf(),
            final(self)@ == after_verify(old(self)@, ip_dec),
            r is Ok <==> position(old(self)@, ip_dec) >= 0,
            r matches Err(e) ==> e == LedgerError::NotFound,
    {
        proof { lemma_position(self@, ip_dec); }
        match self.find(ip_dec) {
            Some(i) => {
                self.records.set(i, VisitorRecord { user: ip_dec, is_bot: false });
                Ok(())
            },
            None => Err(LedgerError::NotFound),
        }
    }

    fn count_where(&self, bot: bool) -> (r: u32)
        requires
            self.wf(),
        ensures
            r == count_flag(self@, bot),
    {
        let mut n: u32 = 0;
        let mut i: usize = 0;
        while i < self.records.len()
            invariant
                i <= self.records@.len() <= MAX_VISITORS,
                n == count_flag(self.records@.subrange(0, i as int), bot),
            decreases self.records@.len() - i,
        {
            proof {
                assert(self.records@.subrange(0, i + 1).drop_last() =~= self.records@.subrange(0, i as int));
                lemma_count_flag_bound(self.records@.subrange(0, i as int), bot);
            }
            if self.records[i].is_bot == bot {
                n = n + 1;
            }
            i = i + 1;
        }
        proof { assert(self.records@.subrange(0, i as int) =~= self.records@); }
        n
    }

    /// The number of visitors.
    pub fn get_total_user_count(&self) -> (r: u32)
        requires
            self.wf(),
        ensures
            r == self@.len(),
    {
        self.records.len() as u32
    }

    /// The number of verified visitors.
    pub fn get_user_count(&self) -> (r: u32)
        requires
            self.wf(),
        ensures
            r == count_flag(self@, false),
    {
        self.count_where(false)
    }

    /// The number of visitors still marked as bots.
    pub fn get_bot_count(&self) -> (r: u32)
        requires
            self.wf(),
        ensures
            r == count_flag(self@, true),
    {
        self.count_where(true)
    }
}

} // verus!
