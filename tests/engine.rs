use kkdex::cmp;
use kkdex::error::EngineError;
use kkdex::ledger::BalanceLedger;
use kkdex::level::Level;
use kkdex::level_table::{LevelTable, Step};
use kkdex::order::{LimitOrder, ASK, BID};
use kkdex::orderbook::{OrderBook, A, B};

fn order(id: u128, owner: &str, callable: &str, side: bool, price: u128, size: u128) -> LimitOrder {
    LimitOrder {
        timestamp: 0,
        address: owner.to_string(),
        callable: callable.to_string(),
        id,
        side,
        price,
        size,
        status: false,
        pending: false,
    }
}

fn book() -> OrderBook {
    OrderBook::new("kkdex.testnet".to_string(), "a.testnet".to_string(), "b.testnet".to_string())
}

fn engine() -> String {
    "kkdex.testnet".to_string()
}

fn fund(b: &mut OrderBook, acct: &str, a: u128, bb: u128) {
    let s = acct.to_string();
    b.internal_token_deposit(&s, &"a.testnet".to_string(), a).unwrap();
    b.internal_token_deposit(&s, &"b.testnet".to_string(), bb).unwrap();
}

#[test]
fn initialize() {
    let mut t = LevelTable::new(BID);
    assert!(t.get_min_level() > t.get_max_level());
    assert!(matches!(t.get_level(100), Err(EngineError::NotFound)));
}

#[test]
fn level_volume_follows_push_and_pop() {
    let mut l = Level::new();
    assert!(l.empty());
    l.push(order(1, "m1", "", ASK, 100, 3)).unwrap();
    assert_eq!(l.volume, 3);
    l.push(order(2, "m2", "", ASK, 100, 4)).unwrap();
    assert_eq!(l.volume, 7);
    let first = l.pop().unwrap();
    assert_eq!(first.id, 1);
    assert_eq!(l.volume, 4);
    assert_eq!(l.get(0).unwrap().id, 2);
    assert!(matches!(l.get(1), Err(EngineError::NotFound)));
    let second = l.pop().unwrap();
    assert_eq!(second.id, 2);
    assert_eq!(l.volume, 0);
    assert!(l.empty());
    assert!(matches!(l.pop(), Err(EngineError::NotFound)));
    assert!(matches!(l.peek_front(), Err(EngineError::NotFound)));
}

#[test]
fn level_push_overflow_is_refused() {
    let mut l = Level::new();
    l.push(order(1, "m1", "", ASK, 1, u128::MAX)).unwrap();
    assert_eq!(l.push(order(2, "m2", "", ASK, 1, 1)), Err(EngineError::Overflow));
    assert_eq!(l.volume, u128::MAX);
    assert_eq!(l.orders.len(), 1);
}

#[test]
fn level_reduce_front() {
    let mut l = Level::new();
    l.push(order(1, "m1", "", ASK, 100, 5)).unwrap();
    assert_eq!(l.reduce_front(6), Err(EngineError::Underflow));
    l.reduce_front(2).unwrap();
    assert_eq!(l.peek_front().unwrap().size, 3);
    assert_eq!(l.volume, 3);
    l.reduce_front(3).unwrap();
    assert!(l.empty());
    assert_eq!(l.volume, 0);
}

#[test]
fn pop_for_hands_out_settlement_request() {
    let mut l = Level::new();
    l.push(order(7, "m1", "exec.testnet", ASK, 100, 5)).unwrap();
    l.push(order(8, "m2", "", ASK, 100, 5)).unwrap();
    let (m, req) = l.pop_for(42).unwrap();
    assert!(m.pending);
    let req = req.unwrap();
    assert_eq!(req.target, "exec.testnet");
    assert_eq!(req.maker_id, 7);
    assert_eq!(req.taker_id, 42);
    let (m2, req2) = l.pop_for(42).unwrap();
    assert_eq!(m2.id, 8);
    assert!(req2.is_none());
}

#[test]
fn order_lock_and_sub() {
    let mut o = order(1, "x", "", BID, 10, 5);
    o.lock();
    assert!(o.pending);
    o.lock();
    assert!(o.pending);
    assert_eq!(o.sub(6), Err(EngineError::Underflow));
    assert_eq!(o.size, 5);
    o.sub(5).unwrap();
    assert_eq!(o.size, 0);
}

#[test]
fn cmp_orders_both_ways() {
    assert!(cmp(1, 2, true));
    assert!(cmp(2, 2, true));
    assert!(!cmp(3, 2, true));
    assert!(cmp(3, 2, false));
    assert!(!cmp(1, 2, false));
}

#[test]
fn table_widens_range_and_ignores_other_side() {
    let mut t = LevelTable::new(ASK);
    t.add_order(order(1, "m", "", ASK, 105, 2)).unwrap();
    assert_eq!(t.get_min_level(), 105);
    assert_eq!(t.get_max_level(), 105);
    t.add_order(order(2, "m", "", ASK, 101, 2)).unwrap();
    t.add_order(order(3, "m", "", ASK, 110, 2)).unwrap();
    t.add_order(order(4, "m", "", ASK, 105, 3)).unwrap();
    assert_eq!(t.get_min_level(), 101);
    assert_eq!(t.get_max_level(), 110);
    assert_eq!(t.get_level(105).unwrap().volume, 5);
    t.add_order(order(5, "m", "", BID, 90, 2)).unwrap();
    assert_eq!(t.get_min_level(), 101);
    assert!(matches!(t.get_level(90), Err(EngineError::NotFound)));
}

#[test]
fn exact_exhaustion_removes_resting_order() {
    let mut t = LevelTable::new(ASK);
    t.add_order(order(1, "m", "", ASK, 100, 5)).unwrap();
    t.add_order(order(2, "m", "", ASK, 100, 3)).unwrap();
    match t.match_front(100, 5, 9) {
        Step::Consumed { maker, request } => {
            assert_eq!(maker.id, 1);
            assert!(maker.pending);
            assert!(request.is_none());
        }
        _ => panic!("expected the resting order to be consumed"),
    }
    let l = t.get_level(100).unwrap();
    assert_eq!(l.volume, 3);
    assert_eq!(l.orders.len(), 1);
    assert_eq!(l.orders[0].id, 2);
}

#[test]
fn larger_resting_order_is_reduced_in_place() {
    let mut t = LevelTable::new(ASK);
    t.add_order(order(1, "m", "", ASK, 100, 8)).unwrap();
    match t.match_front(100, 3, 9) {
        Step::Partial { maker_id, filled } => {
            assert_eq!(maker_id, 1);
            assert_eq!(filled, 3);
        }
        _ => panic!("expected a partial fill"),
    }
    assert_eq!(t.get_level(100).unwrap().orders[0].size, 5);
    assert_eq!(t.get_level(100).unwrap().volume, 5);
    assert!(matches!(t.match_front(99, 3, 9), Step::Skip));
}

#[test]
fn sweep_stops_once_size_is_used_up() {
    let mut t = LevelTable::new(ASK);
    t.add_order(order(1, "m", "", ASK, 100, 5)).unwrap();
    t.add_order(order(2, "m", "", ASK, 101, 5)).unwrap();
    t.add_order(order(3, "m", "", ASK, 102, 5)).unwrap();
    let (remaining, fills) = t.sweep(9, BID, 200, 5);
    assert_eq!(remaining, 0);
    assert_eq!(fills.len(), 1);
    assert_eq!(fills[0].price, 100);
    assert_eq!(t.get_level(101).unwrap().volume, 5);
    assert_eq!(t.get_level(102).unwrap().volume, 5);
}

#[test]
fn sweep_scans_best_price_first_and_skips_gaps() {
    let mut t = LevelTable::new(BID);
    t.add_order(order(1, "m", "", BID, 90, 2)).unwrap();
    t.add_order(order(2, "m", "", BID, 95, 2)).unwrap();
    t.add_order(order(3, "m", "", BID, 99, 2)).unwrap();
    let (remaining, fills) = t.sweep(9, ASK, 95, 10);
    assert_eq!(remaining, 6);
    assert_eq!(fills.len(), 2);
    assert_eq!(fills[0].price, 99);
    assert_eq!(fills[1].price, 95);
    assert_eq!(t.get_level(90).unwrap().volume, 2);
}

#[test]
fn transfer_is_zero_sum() {
    let mut l = BalanceLedger::new();
    let x = "x".to_string();
    let y = "y".to_string();
    l.deposit(&x, 100, A).unwrap();
    l.deposit(&y, 7, A).unwrap();
    l.transfer(&x, &y, 30, A).unwrap();
    assert_eq!(l.balance_of(&x, A), 70);
    assert_eq!(l.balance_of(&y, A), 37);
    assert_eq!(l.balance_of(&x, B), 0);
    assert_eq!(l.balance_of(&x, A) + l.balance_of(&y, A), 107);
}

#[test]
fn transfer_to_a_new_account() {
    let mut l = BalanceLedger::new();
    let x = "x".to_string();
    let z = "z".to_string();
    l.deposit(&x, 10, B).unwrap();
    l.transfer(&x, &z, 10, B).unwrap();
    assert_eq!(l.balance_of(&x, B), 0);
    assert_eq!(l.balance_of(&z, B), 10);
}

#[test]
fn self_transfer_is_refused() {
    let mut l = BalanceLedger::new();
    let x = "x".to_string();
    l.deposit(&x, 100, A).unwrap();
    assert_eq!(l.transfer(&x, &x, 10, A), Err(EngineError::SelfTransfer));
    assert_eq!(l.balance_of(&x, A), 100);
}

#[test]
fn insufficient_balance_is_refused() {
    let mut l = BalanceLedger::new();
    let x = "x".to_string();
    let y = "y".to_string();
    l.deposit(&x, 5, A).unwrap();
    assert_eq!(l.transfer(&x, &y, 6, A), Err(EngineError::InsufficientBalance));
    assert_eq!(l.balance_of(&x, A), 5);
    assert_eq!(l.balance_of(&y, A), 0);
}

#[test]
fn deposit_overflow_is_refused() {
    let mut l = BalanceLedger::new();
    let x = "x".to_string();
    let y = "y".to_string();
    l.deposit(&x, u128::MAX, A).unwrap();
    assert_eq!(l.deposit(&y, 1, A), Err(EngineError::Overflow));
    assert_eq!(l.balance_of(&y, A), 0);
    l.deposit(&y, 1, B).unwrap();
}

#[test]
fn token_deposit_picks_asset_by_token_account() {
    let mut b = book();
    let s = "alice".to_string();
    b.internal_token_deposit(&s, &"a.testnet".to_string(), 11).unwrap();
    b.internal_token_deposit(&s, &"b.testnet".to_string(), 22).unwrap();
    assert_eq!(b.ledger.balance_of(&s, A), 11);
    assert_eq!(b.ledger.balance_of(&s, B), 22);
    b.internal_transfer(&s, &"bob".to_string(), 1, B).unwrap();
    assert_eq!(b.ledger.balance_of(&"bob".to_string(), B), 1);
    assert_eq!(
        b.internal_transfer(&s, &s, 1, B),
        Err(EngineError::SelfTransfer)
    );
}

#[test]
fn test_fill_credits_both_assets() {
    let mut b = book();
    let x = "x".to_string();
    let y = "y".to_string();
    b.internal_token_deposit(&x, &"a.testnet".to_string(), 5).unwrap();
    b.test_fill(&x, &y);
    assert_eq!(b.ledger.balance_of(&x, A), 1_000_000_000);
    assert_eq!(b.ledger.balance_of(&y, B), 1_000_000_000);
}

#[test]
fn bid_meets_equal_ask_without_target() {
    let mut b = book();
    fund(&mut b, "taker", 5, 0);
    fund(&mut b, "maker", 0, 500);
    b.push_order(order(1, "maker", "", ASK, 100, 5)).unwrap();
    let r = b.send_order_raw(order(2, "taker", "", BID, 100, 5));
    assert_eq!(r.taker_id, 2);
    assert_eq!(r.fills.len(), 1);
    assert_eq!(r.fills[0].price, 100);
    assert_eq!(r.fills[0].size, 5);
    assert!(r.requests.is_empty());
    assert_eq!(r.remaining, 0);
    assert_eq!(r.unsettled, 0);
    let f = r.finalized.unwrap();
    assert_eq!(f.taker_id, 2);
    assert_eq!(f.remaining, 0);
    assert!(f.complete());
    let t = "taker".to_string();
    let m = "maker".to_string();
    assert_eq!(b.ledger.balance_of(&t, A), 0);
    assert_eq!(b.ledger.balance_of(&m, A), 5);
    assert_eq!(b.ledger.balance_of(&m, B), 0);
    assert_eq!(b.ledger.balance_of(&t, B), 500);
    assert!(b.get_pending(2).is_none());
    assert!(b.get_pending(1).is_none());
    assert!(b.asks.get_level(100).unwrap().empty());
}

#[test]
fn refused_immediate_settlement_leaves_size_unfilled() {
    let mut b = book();
    b.push_order(order(1, "maker", "", ASK, 100, 5)).unwrap();
    let r = b.send_order_raw(order(2, "taker", "", BID, 100, 5));
    assert_eq!(r.remaining, 0);
    assert_eq!(r.unsettled, 5);
    let f = r.finalized.unwrap();
    assert_eq!(f.remaining, 5);
    assert!(!f.complete());
    assert_eq!(b.ledger.balance_of(&"maker".to_string(), B), 0);
}

#[test]
fn larger_bid_waits_for_one_settlement() {
    let mut b = book();
    fund(&mut b, "taker", 10, 0);
    fund(&mut b, "maker", 0, 500);
    b.push_order(order(1, "maker", "exec.testnet", ASK, 100, 5)).unwrap();
    let r = b.send_order_raw(order(2, "taker", "", BID, 100, 10));
    assert_eq!(r.fills.len(), 1);
    assert_eq!(r.remaining, 5);
    assert_eq!(r.requests.len(), 1);
    assert_eq!(r.requests[0].maker_id, 1);
    assert_eq!(r.requests[0].taker_id, 2);
    assert_eq!(r.requests[0].target, "exec.testnet");
    assert!(r.finalized.is_none());
    assert!(b.asks.get_level(100).unwrap().empty());
    let done = b.on_execute(&engine(), 2, 1, true).unwrap();
    let f = done.unwrap();
    assert_eq!(f.taker_id, 2);
    assert_eq!(f.remaining, 5);
    assert_eq!(b.ledger.balance_of(&"taker".to_string(), A), 5);
    assert_eq!(b.ledger.balance_of(&"maker".to_string(), A), 5);
    assert_eq!(b.ledger.balance_of(&"taker".to_string(), B), 500);
    assert!(b.get_pending(2).is_none());
}

#[test]
fn failed_settlement_moves_nothing() {
    let mut b = book();
    fund(&mut b, "taker", 10, 0);
    fund(&mut b, "maker", 0, 500);
    b.push_order(order(1, "maker", "exec.testnet", ASK, 100, 5)).unwrap();
    b.send_order_raw(order(2, "taker", "", BID, 100, 5));
    let f = b.on_execute(&engine(), 2, 1, false).unwrap().unwrap();
    assert_eq!(f.remaining, 5);
    assert_eq!(b.ledger.balance_of(&"taker".to_string(), A), 10);
    assert_eq!(b.ledger.balance_of(&"maker".to_string(), B), 500);
}

#[test]
fn two_settlements_join_before_finalization() {
    let mut b = book();
    fund(&mut b, "taker", 10, 0);
    fund(&mut b, "m1", 0, 500);
    fund(&mut b, "m2", 0, 505);
    b.push_order(order(1, "m1", "exec.testnet", ASK, 100, 5)).unwrap();
    b.push_order(order(3, "m2", "exec.testnet", ASK, 101, 5)).unwrap();
    let r = b.send_order_raw(order(2, "taker", "", BID, 101, 10));
    assert_eq!(r.requests.len(), 2);
    assert_eq!(r.remaining, 0);
    assert!(b.on_execute(&engine(), 2, 3, true).unwrap().is_none());
    let f = b.on_execute(&engine(), 2, 1, true).unwrap().unwrap();
    assert_eq!(f.remaining, 0);
    assert_eq!(b.ledger.balance_of(&"taker".to_string(), B), 1005);
}

#[test]
fn unknown_maker_is_not_found() {
    let mut b = book();
    fund(&mut b, "taker", 10, 0);
    fund(&mut b, "maker", 0, 500);
    b.push_order(order(1, "maker", "exec.testnet", ASK, 100, 5)).unwrap();
    b.send_order_raw(order(2, "taker", "", BID, 100, 10));
    assert!(matches!(b.on_execute(&engine(), 2, 77, true), Err(EngineError::NotFound)));
    assert_eq!(b.ledger.balance_of(&"taker".to_string(), A), 10);
    assert_eq!(b.ledger.balance_of(&"maker".to_string(), B), 500);
    assert!(b.get_pending(1).is_some());
}

#[test]
fn notifications_from_others_are_refused() {
    let mut b = book();
    b.push_order(order(1, "maker", "exec.testnet", ASK, 100, 5)).unwrap();
    b.send_order_raw(order(2, "taker", "", BID, 100, 10));
    let stranger = "mallory".to_string();
    assert!(matches!(b.on_execute(&stranger, 2, 1, true), Err(EngineError::Unauthorized)));
    assert!(matches!(b.order_finalization(&stranger, 2), Err(EngineError::Unauthorized)));
    assert!(b.get_pending(1).is_some());
}

#[test]
fn explicit_finalization_reports_remaining() {
    let mut b = book();
    b.push_order(order(1, "maker", "exec.testnet", ASK, 100, 5)).unwrap();
    b.send_order_raw(order(2, "taker", "", BID, 100, 10));
    let f = b.order_finalization(&engine(), 2).unwrap();
    assert_eq!(f.remaining, 10);
    assert!(matches!(b.order_finalization(&engine(), 2), Err(EngineError::NotFound)));
}

#[test]
fn ask_taker_scans_bids_downwards() {
    let mut b = book();
    fund(&mut b, "maker", 4, 0);
    fund(&mut b, "taker", 0, 400);
    b.push_order(order(1, "maker", "", BID, 99, 4)).unwrap();
    b.push_order(order(3, "maker", "", BID, 100, 4)).unwrap();
    let r = b.send_order_raw(order(2, "taker", "", ASK, 100, 4));
    assert_eq!(r.fills.len(), 1);
    assert_eq!(r.fills[0].price, 100);
    assert_eq!(r.finalized.unwrap().remaining, 0);
    assert_eq!(b.ledger.balance_of(&"taker".to_string(), A), 4);
    assert_eq!(b.ledger.balance_of(&"maker".to_string(), B), 400);
    assert_eq!(b.bids.get_level(99).unwrap().volume, 4);
}

#[test]
fn order_ids_come_from_the_digest_of_the_key() {
    let key = LimitOrder::key_bytes(-7, &"exec.testnet".to_string(), true, 100, 5);
    assert_eq!(key, b"exec.testnet-71005true".to_vec());
    let key_ask = LimitOrder::key_bytes(0, &String::new(), false, 0, 12);
    assert_eq!(key_ask, b"0012false".to_vec());
    near_sdk::test_utils::test_env::setup();
    let digest = near_sdk::env::keccak256(&key);
    let o = LimitOrder::new(-7, "exec.testnet".to_string(), true, 100, 5, "alice".to_string(), &digest);
    let mut first = [0u8; 16];
    first.copy_from_slice(&digest[..16]);
    assert_eq!(o.id, u128::from_be_bytes(first));
    assert_eq!(o.address, "alice");
    assert!(!o.pending);
    let mut d = vec![0u8; 16];
    d[15] = 1;
    d[0] = 2;
    let small = LimitOrder::new(0, String::new(), false, 1, 1, "bob".to_string(), &d);
    assert_eq!(small.id, (2u128 << 120) + 1);
}

#[test]
fn send_order_builds_and_matches() {
    let mut b = book();
    fund(&mut b, "taker", 5, 0);
    fund(&mut b, "maker", 0, 500);
    b.push_order(order(1, "maker", "", ASK, 100, 5)).unwrap();
    let mut digest = vec![0u8; 32];
    digest[15] = 9;
    let r = b.send_order(BID, 100, 5, String::new(), 3, "taker".to_string(), &digest);
    assert_eq!(r.taker_id, 9);
    assert_eq!(r.finalized.unwrap().remaining, 0);
    assert_eq!(b.ledger.balance_of(&"taker".to_string(), B), 500);
    assert!(b.asks.get_level(100).unwrap().empty());
}

#[test]
fn send_order_leaves_the_residual_off_the_book() {
    let mut b = book();
    let digest = vec![7u8; 32];
    let r = b.send_order(BID, 100, 5, String::new(), 3, "taker".to_string(), &digest);
    assert_eq!(r.remaining, 5);
    assert!(r.fills.is_empty());
    assert!(matches!(b.bids.get_level(100), Err(EngineError::NotFound)));
}

#[test]
fn set_balance_replaces_the_amount() {
    let mut l = BalanceLedger::new();
    let x = "x".to_string();
    l.deposit(&x, 40, A).unwrap();
    l.set_balance(&x, 7, A).unwrap();
    assert_eq!(l.balance_of(&x, A), 7);
    l.set_balance(&"y".to_string(), u128::MAX - 7, A).unwrap();
    assert_eq!(l.set_balance(&"z".to_string(), 1, A), Err(EngineError::Overflow));
}

#[test]
fn defaults_are_empty() {
    let o = LimitOrder::default();
    assert_eq!(o.size, 0);
    assert_eq!(o.id, 0);
    assert!(o.address.is_empty());
    let mut t = LevelTable::default();
    assert!(t.get_min_level() > t.get_max_level());
    let b = OrderBook::default();
    assert!(b.engine_id.is_empty());
    assert!(b.get_pending(0).is_none());
}

#[test]
fn push_order_overflow_is_refused() {
    let mut b = book();
    b.push_order(order(1, "m", "", BID, 50, u128::MAX)).unwrap();
    assert_eq!(b.push_order(order(2, "m", "", BID, 50, 1)), Err(EngineError::Overflow));
    assert_eq!(b.bids.get_level(50).unwrap().orders.len(), 1);
}

#[test]
fn settlement_with_overflowing_notional_is_refused() {
    let mut b = book();
    fund(&mut b, "taker", 10, 0);
    b.push_order(order(1, "maker", "exec.testnet", ASK, u128::MAX, 2)).unwrap();
    let r = b.send_order_raw(order(2, "taker", "", BID, u128::MAX, 2));
    assert_eq!(r.requests.len(), 1);
    assert!(matches!(b.on_execute(&engine(), 2, 1, true), Err(EngineError::Overflow)));
}

#[test]
fn key_text_covers_integer_extremes() {
    let key = LimitOrder::key_bytes(i128::MIN, &"c".to_string(), false, u128::MAX, 10);
    let expected = format!("c{}{}10false", i128::MIN, u128::MAX);
    assert_eq!(key, expected.into_bytes());
    let key = LimitOrder::key_bytes(i128::MAX, &String::new(), true, 9, 0);
    assert_eq!(key, format!("{}90true", i128::MAX).into_bytes());
}
