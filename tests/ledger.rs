use notiplogger::{LedgerError, UserInfo, VisitorLedger};

#[test]
fn user_info_new_fills_address() {
    let info = UserInfo::new(3232252549, 7, true);
    assert_eq!(info.ip_str, "192.168.66.133");
    assert_eq!(info.ip_dec, 3232252549);
    assert_eq!(info.rank, 7);
    assert!(info.is_bot);
}

#[test]
fn first_resolve_gives_rank_one_bot() {
    let mut ledger = VisitorLedger::new();
    let info = ledger.get_user_info(2130706433).unwrap();
    assert_eq!(info.rank, 1);
    assert!(info.is_bot);
    assert_eq!(info.ip_str, "127.0.0.1");
    let again = ledger.get_user_info(2130706433).unwrap();
    assert_eq!(again.rank, 1);
    assert_eq!(ledger.get_total_user_count(), 1);
}

#[test]
fn repeated_resolve_creates_one_record() {
    let mut ledger = VisitorLedger::new();
    let mut ranks = Vec::new();
    for _ in 0..20 {
        ranks.push(ledger.get_user_info(42).unwrap().rank);
    }
    assert!(ranks.iter().all(|r| *r == 1));
    assert_eq!(ledger.get_total_user_count(), 1);
}

#[test]
fn ranks_follow_first_seen_order() {
    let mut ledger = VisitorLedger::new();
    let a = ledger.get_user_info(10).unwrap().rank;
    let b = ledger.get_user_info(20).unwrap().rank;
    let a2 = ledger.get_user_info(10).unwrap().rank;
    let c = ledger.get_user_info(5).unwrap().rank;
    assert_eq!((a, b, a2, c), (1, 2, 1, 3));
}

#[test]
fn mark_verified_twice() {
    let mut ledger = VisitorLedger::new();
    ledger.get_user_info(9).unwrap();
    assert_eq!(ledger.set_user_not_bot(9), Ok(()));
    assert!(!ledger.get_user_info(9).unwrap().is_bot);
    assert_eq!(ledger.set_user_not_bot(9), Ok(()));
    assert!(!ledger.get_user_info(9).unwrap().is_bot);
    assert_eq!(ledger.is_user_bot(9), Ok(false));
}

#[test]
fn mark_unknown_visitor_fails() {
    let mut ledger = VisitorLedger::new();
    assert_eq!(ledger.set_user_not_bot(1), Err(LedgerError::NotFound));
    assert_eq!(ledger.get_total_user_count(), 0);
}

#[test]
fn counts_split_bots_and_verified() {
    let mut ledger = VisitorLedger::new();
    for k in [1u32, 2, 3, 4] {
        ledger.get_user_info(k).unwrap();
    }
    assert_eq!(ledger.is_user_bot(5), Ok(true));
    ledger.set_user_not_bot(2).unwrap();
    ledger.set_user_not_bot(4).unwrap();
    assert_eq!(ledger.get_total_user_count(), 5);
    assert_eq!(ledger.get_bot_count(), 3);
    assert_eq!(ledger.get_user_count(), 2);
}

#[test]
fn ranks_survive_other_operations() {
    let mut ledger = VisitorLedger::new();
    let a = ledger.get_user_info(100).unwrap().rank;
    ledger.set_user_not_bot(100).unwrap();
    let b = ledger.get_user_info(200).unwrap().rank;
    ledger.set_user_not_bot(200).unwrap();
    ledger.get_user_info(100).unwrap();
    let c = ledger.get_user_info(300).unwrap().rank;
    assert!(a < b && b < c);
    assert_eq!(ledger.get_user_info(100).unwrap().rank, a);
    assert_eq!(ledger.get_user_info(200).unwrap().rank, b);
}
