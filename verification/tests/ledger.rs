use matching_engine::Account;
use matching_engine::EngineError;
use matching_engine::Ledger;

fn seeded() -> Ledger {
    let mut l = Ledger::new();
    assert!(l.add_user(1, 10, 1_000));
    assert!(l.add_user(2, 4, 50));
    l
}

#[test]
fn settle_moves_stock_one_way_and_cash_the_other() {
    let mut l = seeded();
    // User 1 buys 3 units from user 2 at 7 each.
    assert_eq!(l.settle(1, 2, 3, 7), Ok(()));
    assert_eq!(l.stock_of(1), Some(13));
    assert_eq!(l.cash_of(1), Some(979));
    assert_eq!(l.stock_of(2), Some(1));
    assert_eq!(l.cash_of(2), Some(71));
}

#[test]
fn settle_rejects_unknown_parties() {
    let mut l = seeded();
    assert_eq!(l.settle(9, 2, 1, 1), Err(EngineError::UnknownUser));
    assert_eq!(l.settle(1, 9, 1, 1), Err(EngineError::UnknownUser));
    assert_eq!(l.stock_of(1), Some(10));
    assert_eq!(l.stock_of(2), Some(4));
}

#[test]
fn settle_rejects_an_overdrawn_seller() {
    let mut l = seeded();
    assert_eq!(l.settle(1, 2, 5, 1), Err(EngineError::InsufficientBalance));
    assert_eq!(l.stock_of(2), Some(4));
    assert_eq!(l.cash_of(1), Some(1_000));
}

#[test]
fn settle_rejects_an_overdrawn_buyer() {
    let mut l = seeded();
    // 2 units at 30 cost 60, more cash than user 2 holds.
    assert_eq!(l.settle(2, 1, 2, 30), Err(EngineError::InsufficientBalance));
    assert_eq!(l.cash_of(2), Some(50));
    assert_eq!(l.stock_of(1), Some(10));
}

#[test]
fn settle_with_oneself_checks_but_moves_nothing() {
    let mut l = seeded();
    assert_eq!(l.settle(1, 1, 2, 3), Ok(()));
    assert_eq!(l.stock_of(1), Some(10));
    assert_eq!(l.cash_of(1), Some(1_000));
    // The checks still apply to a self-trade.
    assert_eq!(l.settle(2, 2, 9, 1), Err(EngineError::InsufficientBalance));
}

#[test]
fn accounts_list_reports_every_user() {
    let l = seeded();
    let accounts = l.accounts_list();
    assert_eq!(accounts.len(), 2);
    assert_eq!(accounts[0], Account { id: 1, stock: 10, cash: 1_000 });
    assert_eq!(accounts[1], Account { id: 2, stock: 4, cash: 50 });
    assert!(l.has_user(2));
    assert!(!l.has_user(3));
}

#[test]
fn add_user_guards_the_asset_totals() {
    let mut l = Ledger::new();
    assert!(l.add_user(1, u64::MAX, 0));
    // Another unit of stock anywhere would overflow the total.
    assert!(!l.add_user(2, 1, 0));
    assert!(l.add_user(2, 0, 7));
    assert_eq!(l.len(), 2);
}
