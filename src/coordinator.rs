use vstd::prelude::*;

use crate::user_info::{after_verify, position, VisitorLedger};
use crate::validation::{
    after_redeem, expired, find_token, live, PendingValidation, RedeemError, TokenStore,
};

verus! {

/// Why a redemption was turned down.
#[derive(Debug, Clone, Copy, PartialEq, Eq, Structural)]
pub enum RejectReason {
    /// No such token is pending.
    Invalid,
    /// The token outlived its time to live.
    Expired,
    /// The token was good but the ledger could not be updated; it is
    /// pending again so that the visitor can retry.
    Retry,
}

/// The outcome of a redemption.
#[derive(Debug, Clone, Copy, PartialEq, Eq, Structural)]
pub enum Verification {
    Verified,
    Rejected(RejectReason),
}

/// The rejection that a failed redemption leads to.
pub fn rejection(e: RedeemError) -> (r: Verification)
    ensures
        e == RedeemError::NotFound ==> r == Verification::Rejected(RejectReason::Invalid),
        e == RedeemError::Expired ==> r == Verification::Rejected(RejectReason::Expired),
{
    match e {
        RedeemError::NotFound => Verification::Rejected(RejectReason::Invalid),
        RedeemError::Expired => Verification::Rejected(RejectReason::Expired),
    }
}

/// The pending tokens after a redeemed token `p` is put back, unless its id
/// has been taken meanwhile.
pub open spec fn reinstated(s: Seq<PendingValidation>, p: PendingValidation) -> Seq<PendingValidation> {
    if find_token(s, p.unique_id@) == -1 {
        s.push(p)
    } else {
        s
    }
}

/// Ends a redemption of the live token `p`, given whether the ledger
/// accepted the visitor's new status: on success the visitor is verified;
/// otherwise `p` is pending again and the visitor is asked to retry. Expired
/// tokens are swept at `now` either way.
pub fn finish_verification(store: &mut TokenStore, p: PendingValidation, ledger_ok: bool, now: i128) -> (r: Verification)
    requires
        old(store).wf(),
    ensures
        final(store).wf(),
        ledger_ok ==> r == Verification::Verified && final(store)@ == live(old(store)@, now),
        !ledger_ok ==> r == Verification::Rejected(RejectReason::Retry) && final(store)@ == live(
            reinstated(old(store)@, p),
            now,
        ),
{
    let r = if ledger_ok {
        Verification::Verified
    } else {
        store.insert(p);
        Verification::Rejected(RejectReason::Retry)
    };
    store.sweep_expired_at(now);
    r
}

/// Redeems the token `id` at `now` and, if it was live, clears the bot flag
/// of its visitor in `ledger`. Expired tokens are swept afterwards.
pub fn complete_verification(ledger: &mut VisitorLedger, store: &mut TokenStore, id: &String, now: i128) -> (r: Verification)
    requires
        old(ledger).wf(),
        old(store).wf(),
    ensures
        final(ledger).wf(),
        final(store).wf(),
        ({
            let pos = find_token(old(store)@, id@);
            let redeemed = after_redeem(old(store)@, id@);
            if pos == -1 {
                &&& r == Verification::Rejected(RejectReason::Invalid)
                &&& final(ledger)@ == old(ledger)@
                &&& final(store)@ == live(redeemed, now)
            } else if expired(old(store)@[pos].timestamp, now) {
                &&& r == Verification::Rejected(RejectReason::Expired)
                &&& final(ledger)@ == old(ledger)@
                &&& final(store)@ == live(redeemed, now)
            } else {
                let user = old(store)@[pos].user;
                &&& final(ledger)@ == after_verify(old(ledger)@, user)
                &&& position(old(ledger)@, user) >= 0 ==> r == Verification::Verified
                    && final(store)@ == live(redeemed, now)
                &&& position(old(ledger)@, user) == -1 ==> r == Verification::Rejected(RejectReason::Retry)
                    && final(store)@ == live(reinstated(redeemed, old(store)@[pos]), now)
            }
        }),
{
    match store.redeem_at(id, now) {
        Err(e) => {
            store.sweep_expired_at(now);
            rejection(e)
        },
        Ok(p) => {
            let ok = ledger.set_user_not_bot(p.user).is_ok();
            finish_verification(store, p, ok, now)
        },
    }
}

} // verus!
