use matching_engine::EngineError;
use matching_engine::MatchingEngine;
use matching_engine::Side;
use matching_engine::hello;
use matching_engine::rocket;

/// Two users, each with 10 stock and 50,000 cash.
fn two_user_engine() -> MatchingEngine {
    let mut e = MatchingEngine::new();
    assert!(e.add_user(1, 10, 50_000));
    assert!(e.add_user(2, 10, 50_000));
    e
}

fn stock(e: &MatchingEngine, id: u64) -> u64 {
    e.stock_of(id).unwrap()
}

fn cash(e: &MatchingEngine, id: u64) -> u64 {
    e.cash_of(id).unwrap()
}

fn totals(e: &MatchingEngine) -> (u64, u64) {
    let mut s: u64 = 0;
    let mut c: u64 = 0;
    for a in e.accounts_list() {
        s += a.stock;
        c += a.cash;
    }
    (s, c)
}

#[test]
fn hello_replies_ok() {
    assert_eq!(hello("anyone", 30), "OK");
}

#[test]
fn rocket_seeds_two_users() {
    let e = rocket();
    let accounts = e.accounts_list();
    assert_eq!(accounts.len(), 2);
    assert_eq!(accounts[0].id, 1);
    assert_eq!(accounts[0].stock, 10);
    assert_eq!(accounts[0].cash, 50_000);
    assert_eq!(accounts[1].id, 2);
    assert_eq!(accounts[1].stock, 10);
    assert_eq!(accounts[1].cash, 50_000);
    assert!(e.bid_orders().is_empty());
    assert!(e.ask_orders().is_empty());
}

#[test]
fn add_user_rejects_duplicate_id() {
    let mut e = two_user_engine();
    assert!(!e.add_user(1, 5, 5));
    assert_eq!(e.users_len(), 2);
    assert!(e.add_user(3, 5, 5));
    assert_eq!(e.users_len(), 3);
}

#[test]
fn full_fill_empties_the_book() {
    // A bid of 5 at 100 against a single resting ask of 5 at 100.
    let mut e = two_user_engine();
    assert_eq!(e.submit(1, Side::Ask, 100, 5), Ok(0));
    assert_eq!(e.submit(2, Side::Bid, 100, 5), Ok(5));
    assert!(e.ask_orders().is_empty());
    assert!(e.bid_orders().is_empty());
    assert_eq!(stock(&e, 1), 5);
    assert_eq!(cash(&e, 1), 50_500);
    assert_eq!(stock(&e, 2), 15);
    assert_eq!(cash(&e, 2), 49_500);
}

#[test]
fn partial_fill_rests_the_remainder() {
    // A bid of 8 at 100 against a single resting ask of 5 at 95: 5 trade at
    // the resting price, and a bid of 3 at 100 remains.
    let mut e = two_user_engine();
    assert_eq!(e.submit(1, Side::Ask, 95, 5), Ok(0));
    assert_eq!(e.submit(2, Side::Bid, 100, 8), Ok(5));
    assert!(e.ask_orders().is_empty());
    let bids = e.bid_orders();
    assert_eq!(bids.len(), 1);
    assert_eq!(bids[0].user_id, 2);
    assert_eq!(bids[0].side, Side::Bid);
    assert_eq!(bids[0].price, 100);
    assert_eq!(bids[0].quantity, 3);
    assert_eq!(stock(&e, 1), 5);
    assert_eq!(cash(&e, 1), 50_475);
    assert_eq!(stock(&e, 2), 15);
    assert_eq!(cash(&e, 2), 49_525);
}

#[test]
fn no_match_rests_the_bid_unchanged() {
    // A bid at 90 when the best resting ask is at 100: nothing trades.
    let mut e = two_user_engine();
    assert_eq!(e.submit(1, Side::Ask, 100, 5), Ok(0));
    assert_eq!(e.submit(2, Side::Bid, 90, 4), Ok(0));
    let asks = e.ask_orders();
    assert_eq!(asks.len(), 1);
    assert_eq!(asks[0].price, 100);
    assert_eq!(asks[0].quantity, 5);
    let bids = e.bid_orders();
    assert_eq!(bids.len(), 1);
    assert_eq!(bids[0].price, 90);
    assert_eq!(bids[0].quantity, 4);
    assert_eq!(stock(&e, 1), 10);
    assert_eq!(cash(&e, 2), 50_000);
}

#[test]
fn empty_opposite_side_rests_everything() {
    // Matching against an empty opposite side rests the full order and never
    // settles anything.
    let mut e = two_user_engine();
    assert_eq!(e.submit(2, Side::Bid, 100, 7), Ok(0));
    let bids = e.bid_orders();
    assert_eq!(bids.len(), 1);
    assert_eq!(bids[0].quantity, 7);
    assert_eq!(stock(&e, 1), 10);
    assert_eq!(cash(&e, 1), 50_000);
    assert_eq!(stock(&e, 2), 10);
    assert_eq!(cash(&e, 2), 50_000);
}

#[test]
fn price_priority_takes_the_lowest_ask() {
    // With asks resting at 105 and 100, a bid crossing both trades at 100.
    let mut e = two_user_engine();
    assert_eq!(e.submit(1, Side::Ask, 105, 3), Ok(0));
    assert_eq!(e.submit(1, Side::Ask, 100, 3), Ok(0));
    assert_eq!(e.submit(2, Side::Bid, 110, 3), Ok(3));
    let asks = e.ask_orders();
    assert_eq!(asks.len(), 1);
    assert_eq!(asks[0].price, 105);
    // The trade went through at the resting price of 100.
    assert_eq!(cash(&e, 2), 50_000 - 300);
    assert_eq!(cash(&e, 1), 50_000 + 300);
}

#[test]
fn time_priority_takes_the_earlier_arrival() {
    // Two asks at the same price: the one inserted first is matched first.
    let mut e = two_user_engine();
    assert!(e.add_user(3, 10, 50_000));
    assert_eq!(e.submit(1, Side::Ask, 100, 2), Ok(0));
    assert_eq!(e.submit(3, Side::Ask, 100, 2), Ok(0));
    assert_eq!(e.submit(2, Side::Bid, 100, 2), Ok(2));
    let asks = e.ask_orders();
    assert_eq!(asks.len(), 1);
    assert_eq!(asks[0].user_id, 3);
    assert_eq!(stock(&e, 1), 8);
    assert_eq!(stock(&e, 3), 10);
}

#[test]
fn time_priority_holds_on_the_bid_side_too() {
    // Two bids at the same price: the earlier arrival is hit first.
    let mut e = two_user_engine();
    assert!(e.add_user(3, 10, 50_000));
    assert_eq!(e.submit(2, Side::Bid, 100, 2), Ok(0));
    assert_eq!(e.submit(3, Side::Bid, 100, 2), Ok(0));
    assert_eq!(e.submit(1, Side::Ask, 100, 2), Ok(2));
    let bids = e.bid_orders();
    assert_eq!(bids.len(), 1);
    assert_eq!(bids[0].user_id, 3);
    assert_eq!(stock(&e, 2), 12);
    assert_eq!(stock(&e, 3), 10);
}

#[test]
fn ask_side_matches_highest_bid_first() {
    // The mirror walk: with bids at 90 and 95, an incoming ask trades at 95.
    let mut e = two_user_engine();
    assert_eq!(e.submit(2, Side::Bid, 90, 3), Ok(0));
    assert_eq!(e.submit(2, Side::Bid, 95, 3), Ok(0));
    assert_eq!(e.submit(1, Side::Ask, 85, 3), Ok(3));
    let bids = e.bid_orders();
    assert_eq!(bids.len(), 1);
    assert_eq!(bids[0].price, 90);
    assert_eq!(cash(&e, 1), 50_000 + 285);
    assert_eq!(cash(&e, 2), 50_000 - 285);
}

#[test]
fn conservation_across_a_burst_of_submissions() {
    let mut e = two_user_engine();
    assert!(e.add_user(3, 10, 50_000));
    let before = totals(&e);
    assert_eq!(before, (30, 150_000));
    let _ = e.submit(1, Side::Ask, 100, 4);
    let _ = e.submit(2, Side::Bid, 101, 6);
    let _ = e.submit(3, Side::Ask, 99, 5);
    let _ = e.submit(1, Side::Bid, 103, 2);
    let _ = e.submit(2, Side::Ask, 90, 1);
    assert_eq!(totals(&e), before);
}

#[test]
fn no_balance_ever_goes_negative() {
    // Balances are unsigned; a trade that would overdraw is rejected whole.
    let mut e = two_user_engine();
    assert_eq!(e.submit(1, Side::Ask, 100, 15), Ok(0));
    assert_eq!(e.submit(2, Side::Bid, 100, 15), Err(EngineError::InsufficientBalance));
    for a in e.accounts_list() {
        assert!(a.stock <= 10 && a.cash <= 50_000);
    }
}

#[test]
fn zero_price_is_rejected() {
    let mut e = two_user_engine();
    assert_eq!(e.submit(1, Side::Bid, 0, 5), Err(EngineError::InvalidOrder));
}

#[test]
fn zero_quantity_is_rejected() {
    let mut e = two_user_engine();
    assert_eq!(e.submit(1, Side::Ask, 100, 0), Err(EngineError::InvalidOrder));
}

#[test]
fn unknown_user_is_rejected_without_trace() {
    let mut e = two_user_engine();
    assert_eq!(e.submit(1, Side::Ask, 100, 5), Ok(0));
    let bids_before = e.bid_orders();
    let asks_before = e.ask_orders();
    let accounts_before = e.accounts_list();
    assert_eq!(e.submit(99, Side::Bid, 100, 5), Err(EngineError::UnknownUser));
    assert_eq!(e.bid_orders(), bids_before);
    assert_eq!(e.ask_orders(), asks_before);
    assert_eq!(e.accounts_list(), accounts_before);
}

#[test]
fn seller_short_of_stock_fails_the_whole_submission() {
    // The first trade of the walk would succeed, the second would overdraw
    // the seller; the whole submission is rolled back.
    let mut e = two_user_engine();
    assert!(e.add_user(3, 2, 0));
    assert_eq!(e.submit(1, Side::Ask, 90, 3), Ok(0));
    assert_eq!(e.submit(3, Side::Ask, 95, 5), Ok(0));
    let bids_before = e.bid_orders();
    let asks_before = e.ask_orders();
    let accounts_before = e.accounts_list();
    assert_eq!(e.submit(2, Side::Bid, 100, 8), Err(EngineError::InsufficientBalance));
    assert_eq!(e.bid_orders(), bids_before);
    assert_eq!(e.ask_orders(), asks_before);
    assert_eq!(e.accounts_list(), accounts_before);
}

#[test]
fn buyer_short_of_cash_fails_the_whole_submission() {
    let mut e = two_user_engine();
    assert_eq!(e.submit(1, Side::Ask, 40_000, 2), Ok(0));
    let accounts_before = e.accounts_list();
    // Two units at 40,000 cost 80,000 — more cash than the buyer holds.
    assert_eq!(e.submit(2, Side::Bid, 40_000, 2), Err(EngineError::InsufficientBalance));
    assert_eq!(e.accounts_list(), accounts_before);
    assert_eq!(e.ask_orders().len(), 1);
    assert!(e.bid_orders().is_empty());
}

#[test]
fn self_trade_is_permitted_and_moves_nothing() {
    let mut e = two_user_engine();
    assert_eq!(e.submit(1, Side::Ask, 100, 5), Ok(0));
    assert_eq!(e.submit(1, Side::Bid, 100, 5), Ok(5));
    assert!(e.ask_orders().is_empty());
    assert!(e.bid_orders().is_empty());
    assert_eq!(stock(&e, 1), 10);
    assert_eq!(cash(&e, 1), 50_000);
}

#[test]
fn walk_sweeps_several_price_levels() {
    // A large bid climbs the ask side, paying each resting price in turn.
    let mut e = two_user_engine();
    assert_eq!(e.submit(1, Side::Ask, 100, 2), Ok(0));
    assert_eq!(e.submit(1, Side::Ask, 101, 2), Ok(0));
    assert_eq!(e.submit(1, Side::Ask, 102, 2), Ok(0));
    assert_eq!(e.submit(2, Side::Bid, 101, 5), Ok(4));
    // 2 at 100 and 2 at 101 traded; the ask at 102 does not cross.
    let asks = e.ask_orders();
    assert_eq!(asks.len(), 1);
    assert_eq!(asks[0].price, 102);
    let bids = e.bid_orders();
    assert_eq!(bids.len(), 1);
    assert_eq!(bids[0].quantity, 1);
    assert_eq!(bids[0].price, 101);
    assert_eq!(cash(&e, 2), 50_000 - 2 * 100 - 2 * 101);
    assert_eq!(stock(&e, 2), 14);
}

#[test]
fn a_fresh_engine_can_stamp_orders() {
    let mut e = two_user_engine();
    assert!(e.ids_available());
    assert_eq!(e.submit(1, Side::Ask, 100, 1), Ok(0));
    assert!(e.ids_available());
}

#[test]
fn best_opposite_reports_the_matching_front() {
    let mut e = two_user_engine();
    assert!(e.best_opposite(Side::Bid).is_none());
    assert_eq!(e.submit(1, Side::Ask, 105, 3), Ok(0));
    assert_eq!(e.submit(1, Side::Ask, 100, 3), Ok(0));
    let best = e.best_opposite(Side::Bid).unwrap();
    assert_eq!(best.price, 100);
    assert!(e.best_opposite(Side::Ask).is_none());
}
