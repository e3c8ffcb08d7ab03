use notiplogger::{
    complete_verification, finish_verification, rejection, PendingValidation, RedeemError, RejectReason,
    TokenStore, Verification, VisitorLedger,
};

const SECOND: i128 = 1_000_000_000;

fn token(user: u32, id: &str, at: i128) -> PendingValidation {
    PendingValidation { user, unique_id: id.to_string(), timestamp: at }
}

#[test]
fn new_token_has_sixteen_alphanumerics() {
    let p = PendingValidation::new(77);
    assert_eq!(p.user, 77);
    assert_eq!(p.unique_id.chars().count(), 16);
    assert!(p.unique_id.chars().all(|c| c.is_ascii_alphanumeric()));
    assert!(!p.is_expired());
}

#[test]
fn expiry_boundary() {
    let p = token(1, "abc", 100 * SECOND);
    assert!(!p.is_expired_at(100 * SECOND));
    assert!(!p.is_expired_at(110 * SECOND));
    assert!(p.is_expired_at(110 * SECOND + 1));
    assert!(!p.is_expired_at(i128::MIN));
}

#[test]
fn redeem_once_then_not_found() {
    let mut store = TokenStore::new();
    assert!(store.insert(token(5, "tok", 0)));
    let p = store.redeem_at(&"tok".to_string(), 3 * SECOND).unwrap();
    assert_eq!(p.user, 5);
    assert_eq!(store.len(), 0);
    assert!(matches!(store.redeem_at(&"tok".to_string(), 3 * SECOND), Err(RedeemError::NotFound)));
}

#[test]
fn expired_token_is_removed() {
    let mut store = TokenStore::new();
    assert!(store.insert(token(5, "old", 0)));
    assert!(matches!(store.redeem_at(&"old".to_string(), 11 * SECOND), Err(RedeemError::Expired)));
    assert!(!store.contains(&"old".to_string()));
    assert!(matches!(store.redeem_at(&"old".to_string(), 0), Err(RedeemError::NotFound)));
}

#[test]
fn insert_refuses_collision() {
    let mut store = TokenStore::new();
    assert!(store.insert(token(1, "same", 0)));
    assert!(!store.insert(token(2, "same", 5)));
    assert_eq!(store.len(), 1);
    assert_eq!(store.redeem_at(&"same".to_string(), 0).unwrap().user, 1);
}

#[test]
fn sweep_keeps_only_live_tokens() {
    let mut store = TokenStore::new();
    store.insert(token(1, "a", 0));
    store.insert(token(2, "b", 5 * SECOND));
    store.insert(token(3, "c", 20 * SECOND));
    store.sweep_expired_at(16 * SECOND);
    assert_eq!(store.len(), 1);
    assert!(store.contains(&"c".to_string()));
    assert!(!store.contains(&"a".to_string()));
}

#[test]
fn issue_adds_a_fresh_token() {
    let mut store = TokenStore::new();
    let a = store.issue(3).unwrap();
    let b = store.issue(3).unwrap();
    assert_ne!(a, b);
    assert_eq!(a.len(), 16);
    assert_eq!(store.len(), 2);
    assert_eq!(store.redeem(&a).unwrap().user, 3);
    assert!(matches!(store.redeem(&a), Err(RedeemError::NotFound)));
}

#[test]
fn rejection_reasons() {
    assert_eq!(rejection(RedeemError::NotFound), Verification::Rejected(RejectReason::Invalid));
    assert_eq!(rejection(RedeemError::Expired), Verification::Rejected(RejectReason::Expired));
}

#[test]
fn failed_ledger_update_reinstates_token() {
    let mut store = TokenStore::new();
    let r = finish_verification(&mut store, token(4, "keep", 0), false, SECOND);
    assert_eq!(r, Verification::Rejected(RejectReason::Retry));
    assert!(store.contains(&"keep".to_string()));
    let r = finish_verification(&mut store, token(4, "other", 0), true, SECOND);
    assert_eq!(r, Verification::Verified);
    assert!(!store.contains(&"other".to_string()));
}

#[test]
fn localhost_scenario() {
    let key = notiplogger::ip_to_u32("127.0.0.1".to_string()).unwrap();
    assert_eq!(key, 2130706433);
    assert_eq!(notiplogger::ip_to_u32("127.0.0.1:8080".to_string()), Some(key));
    assert_eq!(notiplogger::u32_to_ip(key), "127.0.0.1");
    let mut ledger = VisitorLedger::new();
    let first = ledger.get_user_info(key).unwrap();
    assert_eq!((first.rank, first.is_bot), (1, true));
    assert_eq!(ledger.get_user_info(key).unwrap().rank, 1);
    let mut store = TokenStore::new();
    store.insert(token(key, "localtoken", 50 * SECOND));
    let r = complete_verification(&mut ledger, &mut store, &"localtoken".to_string(), 52 * SECOND);
    assert_eq!(r, Verification::Verified);
    assert!(!ledger.get_user_info(key).unwrap().is_bot);
    assert_eq!(store.len(), 0);
}

#[test]
fn completion_rejections() {
    let mut ledger = VisitorLedger::new();
    let mut store = TokenStore::new();
    store.insert(token(8, "late", 0));
    store.insert(token(9, "stray", 100 * SECOND));
    let missing = complete_verification(&mut ledger, &mut store, &"nope".to_string(), 100 * SECOND);
    assert_eq!(missing, Verification::Rejected(RejectReason::Invalid));
    assert!(!store.contains(&"late".to_string()));
    let retry = complete_verification(&mut ledger, &mut store, &"stray".to_string(), 100 * SECOND);
    assert_eq!(retry, Verification::Rejected(RejectReason::Retry));
    assert!(store.contains(&"stray".to_string()));
    store.insert(token(8, "late2", 0));
    let late = complete_verification(&mut ledger, &mut store, &"late2".to_string(), 100 * SECOND);
    assert_eq!(late, Verification::Rejected(RejectReason::Expired));
}

#[test]
fn issue_on_empty_store_always_succeeds() {
    for user in 0..50u32 {
        let mut store = TokenStore::new();
        let id = store.issue(user).unwrap();
        assert!(id.chars().all(|c| c.is_ascii_alphanumeric()));
        assert_eq!(store.redeem_at(&id, i128::MIN).unwrap().user, user);
    }
}
