use vstd::prelude::*;

verus! {

/// How long a token stays redeemable, in nanoseconds.
pub const VALIDATION_TIMEOUT_NANOS: i128 = 10000000000;

/// The number of characters of a token id.
pub const TOKEN_LEN: usize = 16;

/// How many fresh ids `issue` draws before it gives up on collisions.
pub const MAX_ID_ATTEMPTS: u32 = 8;

pub open spec fn is_alphanumeric(c: char) -> bool {
    ('0' <= c && c <= '9') || ('A' <= c && c <= 'Z') || ('a' <= c && c <= 'z')
}

/// Relies on rand's `Alphanumeric` distribution (`DistString::sample_string`
/// with `thread_rng`): `len` characters, each an ASCII letter or digit.
#[verifier::external_body]
fn random_alphanumeric(len: usize) -> (r: String)
    ensures
        r@.len() == len,
        forall|i: int| 0 <= i < len ==> is_alphanumeric(#[trigger] r@[i]),
{
    rand::distributions::DistString::sample_string(
        &rand::distributions::Alphanumeric,
        &mut rand::thread_rng(),
        len,
    )
}

/// Relies on time's `OffsetDateTime::now_utc`, read as nanoseconds since the
/// Unix epoch (`unix_timestamp_nanos`). Nothing is promised of the value.
#[verifier::external_body]
fn now_nanos() -> (r: i128) {
    time::OffsetDateTime::now_utc().unix_timestamp_nanos()
}

/// Whether a token issued at `issued_at` has outlived its time to live at
/// `now` (both in nanoseconds since the Unix epoch).
pub open spec fn expired(issued_at: i128, now: i128) -> bool {
    now - issued_at > VALIDATION_TIMEOUT_NANOS
}

/// A token waiting to be redeemed: the visitor it is bound to, its id, and
/// when it was issued (nanoseconds since the Unix epoch).
#[derive(Debug)]
pub struct PendingValidation {
    pub user: u32,
    pub unique_id: String,
    pub timestamp: i128,
}

impl PendingValidation {
    /// A token for `user` with a fresh random id, issued now.
    pub fn new(user: u32) -> (r: Self)
        ensures
            r.user == user,
            r.unique_id@.len() == TOKEN_LEN,
            forall|i: int| 0 <= i < TOKEN_LEN ==> is_alphanumeric(#[trigger] r.unique_id@[i]),
    {
        PendingValidation { user, unique_id: random_alphanumeric(TOKEN_LEN), timestamp: now_nanos() }
    }

    /// Whether the token has expired at `now`.
    pub fn is_expired_at(&self, now: i128) -> (r: bool)
        ensures
            r == expired(self.timestamp, now),
    {
        if now < i128::MIN + VALIDATION_TIMEOUT_NANOS {
            false
        } else {
            now - VALIDATION_TIMEOUT_NANOS > self.timestamp
        }
    }

    /// Whether the token has expired by the clock.
    pub fn is_expired(&self) -> (r: bool)
        ensures
            exists|now: i128| r == expired(self.timestamp, now),
    {
        let now = now_nanos();
        let r = self.is_expired_at(now);
        assert(r == expired(self.timestamp, now));
        r
    }
}

/// Why a redemption failed.
#[derive(Debug, Clone, Copy, PartialEq, Eq, Structural)]
pub enum RedeemError {
    NotFound,
    Expired,
}

/// The index of the most recent pending token with id `id`, or -1.
pub open spec fn find_token(s: Seq<PendingValidation>, id: Seq<char>) -> int
    decreases s.len(),
{
    if s.len() == 0 {
        -1
    } else if s.last().unique_id@ == id {
        s.len() - 1
    } else {
        find_token(s.drop_last(), id)
    }
}

/// No pending id has the length of a freshly drawn one, so a draw cannot
/// collide (an empty store, for one).
pub open spec fn no_id_of_token_len(s: Seq<PendingValidation>) -> bool {
    forall|i: int| 0 <= i < s.len() ==> #[trigger] s[i].unique_id@.len() != TOKEN_LEN
}

/// What a redemption of `id` judged at `now` returns: the pending token if
/// it was live, `NotFound` if none was pending, `Expired` if it was too old.
pub open spec fn redeem_result(
    s: Seq<PendingValidation>,
    id: Seq<char>,
    now: i128,
    r: Result<PendingValidation, RedeemError>,
) -> bool {
    match r {
        Ok(p) => {
            &&& find_token(s, id) >= 0
            &&& p == s[find_token(s, id)]
            &&& !expired(p.timestamp, now)
        },
        Err(RedeemError::NotFound) => find_token(s, id) == -1,
        Err(RedeemError::Expired) => {
            &&& find_token(s, id) >= 0
            &&& expired(s[find_token(s, id)].timestamp, now)
        },
    }
}

/// No two pending tokens share an id.
pub open spec fn tokens_wf(s: Seq<PendingValidation>) -> bool {
    forall|i: int, j: int|
        0 <= i < s.len() && 0 <= j < s.len() && i != j ==> s[i].unique_id@ != s[j].unique_id@
}

/// The pending tokens that have not expired at `now`, in order.
pub open spec fn live(s: Seq<PendingValidation>, now: i128) -> Seq<PendingValidation>
    decreases s.len(),
{
    if s.len() == 0 {
        s
    } else if expired(s.last().timestamp, now) {
        live(s.drop_last(), now)
    } else {
        live(s.drop_last(), now).push(s.last())
    }
}

/// The pending tokens after redeeming `id`: its entry, if any, is gone.
pub open spec fn after_redeem(s: Seq<PendingValidation>, id: Seq<char>) -> Seq<PendingValidation> {
    if find_token(s, id) >= 0 {
        s.remove(find_token(s, id))
    } else {
        s
    }
}

pub proof fn lemma_find_token(s: Seq<PendingValidation>, id: Seq<char>)
    ensures
        -1 <= find_token(s, id) < s.len(),
        find_token(s, id) >= 0 ==> s[find_token(s, id)].unique_id@ == id,
        find_token(s, id) == -1 ==> forall|i: int| 0 <= i < s.len() ==> s[i].unique_id@ != id,
    decreases s.len(),
{
    if s.len() > 0 {
        lemma_find_token(s.drop_last(), id);
        if s.last().unique_id@ != id {
            assert forall|i: int| 0 <= i < s.len() - 1 implies s[i] == s.drop_last()[i] by {}
        }
    }
}

proof fn lemma_live_from(s: Seq<PendingValidation>, now: i128)
    ensures
        forall|k: int| 0 <= k < live(s, now).len() ==> exists|j: int| 0 <= j < s.len() && #[trigger] live(s, now)[k] == s[j],
        forall|k: int| 0 <= k < live(s, now).len() ==> !expired(#[trigger] live(s, now)[k].timestamp, now),
        tokens_wf(s) ==> tokens_wf(live(s, now)),
        live(s, now).len() <= s.len(),
    decreases s.len(),
{
    if s.len() > 0 {
        let d = s.drop_last();
        lemma_live_from(d, now);
        assert forall|k: int| 0 <= k < live(d, now).len() implies exists|j: int| 0 <= j < s.len() && #[trigger] live(d, now)[k] == s[j] by {
            let j = choose|j: int| 0 <= j < d.len() && live(d, now)[k] == d[j];
            assert(s[j] == d[j]);
        }
        if !expired(s.last().timestamp, now) {
            let l = live(s, now);
            assert forall|k: int| 0 <= k < l.len() implies exists|j: int| 0 <= j < s.len() && #[trigger] l[k] == s[j] by {
                if k == l.len() - 1 {
                    assert(l[k] == s[s.len() - 1]);
                } else {
                    assert(l[k] == live(d, now)[k]);
                }
            }
            if tokens_wf(s) {
                assert forall|a: int, b: int| 0 <= a < l.len() && 0 <= b < l.len() && a != b
                    implies l[a].unique_id@ != l[b].unique_id@ by {
                    if a == l.len() - 1 || b == l.len() - 1 {
                        let o = if a == l.len() - 1 { b } else { a };
                        let j = choose|j: int| 0 <= j < d.len() && live(d, now)[o] == d[j];
                        assert(l[o] == d[j]);
                        assert(s[j] == d[j]);
                    } else {
                        assert(l[a] == live(d, now)[a]);
                        assert(l[b] == live(d, now)[b]);
                    }
                }
            }
        }
    }
}

/// A token is single-use: once a redemption of `id` has been handled,
/// whether it succeeded, found the token expired or found nothing, `id` is
/// no longer pending, so a second redemption finds nothing and changes
/// nothing.
pub proof fn lemma_redeem_single_use(s: Seq<PendingValidation>, id: Seq<char>)
    requires
        tokens_wf(s),
    ensures
        tokens_wf(after_redeem(s, id)),
        find_token(after_redeem(s, id), id) == -1,
        after_redeem(after_redeem(s, id), id) == after_redeem(s, id),
{
    lemma_find_token(s, id);
    let i = find_token(s, id);
    let t = after_redeem(s, id);
    if i >= 0 {
        assert forall|a: int, b: int| 0 <= a < t.len() && 0 <= b < t.len() && a != b
            implies t[a].unique_id@ != t[b].unique_id@ by {
            let oa = if a < i { a } else { a + 1 };
            let ob = if b < i { b } else { b + 1 };
            assert(t[a] == s[oa]);
            assert(t[b] == s[ob]);
        }
        assert forall|k: int| 0 <= k < t.len() implies t[k].unique_id@ != id by {
            let ok = if k < i { k } else { k + 1 };
            assert(t[k] == s[ok]);
        }
    }
    lemma_find_token(t, id);
}

/// The tokens waiting to be redeemed. Each id is pending at most once.
pub struct TokenStore {
    pending: Vec<PendingValidation>,
}

impl View for TokenStore {
    type V = Seq<PendingValidation>;

    closed spec fn view(&self) -> Seq<PendingValidation> {
        self.pending@
    }
}

impl TokenStore {
    pub open spec fn wf(&self) -> bool {
        tokens_wf(self@)
    }

    pub fn new() -> (r: Self)
        ensures
            r@ == Seq::<PendingValidation>::empty(),
            r.wf(),
    {
        TokenStore { pending: Vec::new() }
    }

    /// The number of pending tokens.
    pub fn len(&self) -> (r: usize)
        ensures
            r == self@.len(),
    {
        self.pending.len()
    }

    fn find(&self, id: &String) -> (r: Option<usize>)
        ensures
            match r {
                Some(i) => i as int == find_token(self@, id@),
                None => find_token(self@, id@) == -1,
            },
    {
        let mut i: usize = self.pending.len();
        proof { assert(self.pending@.subrange(0, i as int) =~= self.pending@); }
        while i > 0
            invariant
                i <= self.pending@.len(),
                find_token(self@, id@) == find_token(self.pending@.subrange(0, i as int), id@),
            decreases i,
        {
            assert(self.pending@.subrange(0, i as int).drop_last() =~= self.pending@.subrange(0, i - 1));
            if self.pending[i - 1].unique_id == *id {
                return Some(i - 1);
            }
            i = i - 1;
        }
        None
    }

    /// Whether a token with id `id` is pending.
    pub fn contains(&self, id: &String) -> (r: bool)
        ensures
            r == (find_token(self@, id@) >= 0),
    {
        self.find(id).is_some()
    }

    /// Adds `p` unless its id is already pending; an existing token is never
    /// overwritten. Returns whether it was added.
    pub fn insert(&mut self, p: PendingValidation) -> (r: bool)
        requires
            old(self).wf(),
        ensures
            final(self).wf(),
            r == (find_token(old(self)@, p.unique_id@) == -1),
            r ==> final(self)@ == old(self)@.push(p),
            !r ==> final(self)@ == old(self)@,
    {
        proof { lemma_find_token(self@, p.unique_id@); }
        if self.find(&p.unique_id).is_some() {
            return false;
        }
        self.pending.push(p);
        true
    }

    /// Issues a token for `user` with a fresh id and returns the id. An id
    /// that is already pending is never reused: a fresh one is drawn instead,
    /// up to `MAX_ID_ATTEMPTS` times, after which nothing is issued.
    pub fn issue(&mut self, user: u32) -> (r: Option<String>)
        requires
            old(self).wf(),
        ensures
            final(self).wf(),
            match r {
                Some(id) => {
                    &&& final(self)@.len() == old(self)@.len() + 1
                    &&& final(self)@.drop_last() == old(self)@
                    &&& final(self)@.last().user == user
                    &&& final(self)@.last().unique_id@ == id@
                    &&& find_token(old(self)@, id@) == -1
                    &&& id@.len() == TOKEN_LEN
                    &&& forall|i: int| 0 <= i < TOKEN_LEN ==> is_alphanumeric(#[trigger] id@[i])
                },
                None => final(self)@ == old(self)@,
            },
            no_id_of_token_len(old(self)@) ==> r is Some,
    {
        let mut attempt: u32 = 0;
        while attempt < MAX_ID_ATTEMPTS
            invariant
                self.wf(),
                self@ == old(self)@,
                no_id_of_token_len(old(self)@) ==> attempt == 0,
            decreases MAX_ID_ATTEMPTS - attempt,
        {
            let p = PendingValidation::new(user);
            let id = p.unique_id.clone();
            proof { lemma_find_token(self@, p.unique_id@); }
            if self.insert(p) {
                proof { assert(self@.drop_last() =~= old(self)@); }
                return Some(id);
            }
            attempt = attempt + 1;
        }
        None
    }

    /// Removes the token `id` if it is pending. Returns it if it was still
    /// live at `now`; otherwise says whether it was missing or expired.
    pub fn redeem_at(&mut self, id: &String, now: i128) -> (r: Result<PendingValidation, RedeemError>)
        requires
            old(self).wf(),
        ensures
            final(self).wf(),
            final(self)@ == after_redeem(old(self)@, id@),
            find_token(final(self)@, id@) == -1,
            redeem_result(old(self)@, id@, now, r),
    {
        proof { lemma_find_token(self@, id@); }
        match self.find(id) {
            None => Err(RedeemError::NotFound),
            Some(i) => {
                let p = self.pending.remove(i);
                proof { lemma_redeem_single_use(old(self)@, id@); }
                if p.is_expired_at(now) {
                    Err(RedeemError::Expired)
                } else {
                    Ok(p)
                }
            },
        }
    }

    /// Removes the token `id` if it is pending, judging its age by the clock.
    pub fn redeem(&mut self, id: &String) -> (r: Result<PendingValidation, RedeemError>)
        requires
            old(self).wf(),
        ensures
            final(self).wf(),
            final(self)@ == after_redeem(old(self)@, id@),
            find_token(final(self)@, id@) == -1,
            exists|now: i128| redeem_result(old(self)@, id@, now, r),
    {
        let now = now_nanos();
        let r = self.redeem_at(id, now);
        assert(redeem_result(old(self)@, id@, now, r));
        r
    }

    /// Drops every token that has expired at `now` and keeps the others.
    pub fn sweep_expired_at(&mut self, now: i128)
        requires
            old(self).wf(),
        ensures
            final(self).wf(),
            final(self)@ == live(old(self)@, now),
    {
        let ghost orig = self@;
        let total: usize = self.pending.len();
        let mut i: usize = 0;
        let mut j: usize = 0;
        proof {
            assert(orig.subrange(0, 0) =~= Seq::<PendingValidation>::empty());
            assert(self@ =~= live(orig.subrange(0, 0), now) + orig.subrange(0, orig.len() as int));
        }
        while i < self.pending.len()
            invariant
                j <= orig.len() == total,
                i == live(orig.subrange(0, j as int), now).len(),
                self@ == live(orig.subrange(0, j as int), now) + orig.subrange(j as int, orig.len() as int),
            decreases orig.len() - j,
        {
            proof {
                lemma_live_from(orig.subrange(0, j as int), now);
                assert(j < orig.len());
                assert(orig.subrange(0, j + 1).drop_last() =~= orig.subrange(0, j as int));
                assert(self@[i as int] == orig[j as int]);
            }
            if self.pending[i].is_expired_at(now) {
                self.pending.remove(i);
                proof {
                    assert(self@ =~= live(orig.subrange(0, j + 1), now) + orig.subrange(j + 1, orig.len() as int));
                }
            } else {
                proof {
                    assert(self@ =~= live(orig.subrange(0, j + 1), now) + orig.subrange(j + 1, orig.len() as int));
                }
                i = i + 1;
            }
            j = j + 1;
        }
        proof {
            lemma_live_from(orig.subrange(0, j as int), now);
            assert(j == orig.len());
            assert(orig.subrange(0, j as int) =~= orig);
            assert(self@ =~= live(orig, now));
            lemma_live_from(orig, now);
        }
    }

    /// Drops every token that has expired by the clock.
    pub fn sweep_expired(&mut self)
        requires
            old(self).wf(),
        ensures
            final(self).wf(),
            exists|now: i128| final(self)@ == live(old(self)@, now),
    {
        self.sweep_expired_at(now_nanos());
    }
}

} // verus!
