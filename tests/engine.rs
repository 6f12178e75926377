use matching_engine::errors::EngineError;
use matching_engine::ledger::{AskOrBid, Ledger};
use matching_engine::orders::{new_order, revoke_ask, revoke_bid, OrderModel};
use matching_engine::stocks::{ipo_buy, ipo_stock, list_stock, IPOBuyModel, IPOModel};
use matching_engine::users::{recharge, register, RechargeModel, RegisterModel};

fn user(l: &mut Ledger, name: &str, cash: u64) -> usize {
    let id = register(
        l,
        RegisterModel { name: name.to_owned(), password: "pw".to_owned() },
        0,
    )
    .unwrap();
    if cash > 0 {
        recharge(l, id, RechargeModel { cash }).unwrap();
    }
    id
}

fn issue(l: &mut Ledger, issuer: usize, name: &str, circ: i64, price: i32) -> usize {
    ipo_stock(l, issuer, IPOModel { name: name.to_owned(), offer_circ: circ, offer_price: price }, 0).unwrap()
}

fn order(side: AskOrBid, stock_id: usize, price: i32, volume: i64) -> OrderModel {
    OrderModel { entype: side, stock_id, price, volume }
}

fn lack_of(e: &EngineError) -> Option<i64> {
    match e {
        EngineError::Insufficient(r) => r.lack,
        _ => None,
    }
}

/// Users A and B, stock S issued by A (100 shares at 50), B holding 40 from
/// the IPO, S listed.
fn listed_market() -> (Ledger, usize, usize, usize) {
    let mut l = Ledger::new();
    let a = user(&mut l, "A", 10000);
    let s = issue(&mut l, a, "S", 100, 50);
    let b = user(&mut l, "B", 10000);
    assert_eq!(ipo_buy(&mut l, b, s, IPOBuyModel { amount: 40 }, 1).unwrap(), 40);
    list_stock(&mut l, a, s, 2).unwrap();
    (l, a, b, s)
}

#[test]
fn ipo_purchase_scenario() {
    let (l, a, b, s) = listed_market();
    assert_eq!(l.balance(a), Some(10000));
    assert_eq!(l.balance(b), Some(8000));
    assert_eq!(l.new_stock(s).unwrap().offer_unfulfilled, 60);
    assert_eq!(l.holding(b, s), 40);
    let d = l.deals()[0];
    assert_eq!(d.sell_user_id, None);
    assert_eq!(d.buy_user_id, b);
    assert_eq!(d.price, 50);
    assert_eq!(d.amount, 40);
    assert_eq!(l.is_listed(s), Some(true));
    assert_eq!(l.cash_in_custody(), 18000);
}

#[test]
fn maker_price_and_refund_scenario() {
    let (mut l, a, b, s) = listed_market();
    assert_eq!(new_order(&mut l, b, order(AskOrBid::Ask, s, 60, 40), 3).unwrap(), 0);
    assert_eq!(l.holding(b, s), 0);
    assert_eq!(new_order(&mut l, a, order(AskOrBid::Bid, s, 70, 40), 4).unwrap(), 40);
    let d = *l.deals().last().unwrap();
    assert_eq!(d.price, 60);
    assert_eq!(d.amount, 40);
    assert_eq!(d.buy_user_id, a);
    assert_eq!(d.sell_user_id, Some(b));
    assert_eq!(l.balance(a), Some(10000 - 70 * 40 + 400));
    assert_eq!(l.balance(b), Some(8000 + 2400));
    assert_eq!(l.holding(a, s), 40);
    assert_eq!(l.holding(b, s), 0);
    assert_eq!(l.asks()[0].unfulfilled, 0);
    assert_eq!(l.bids()[0].unfulfilled, 0);
}

#[test]
fn insufficient_balance_scenario() {
    let (mut l, _a, _b, s) = listed_market();
    let c = user(&mut l, "C", 500);
    let before = l.next_order_id();
    let e = new_order(&mut l, c, order(AskOrBid::Bid, s, 100, 10), 3).unwrap_err();
    assert_eq!(lack_of(&e), Some(500));
    assert_eq!(e.status(), 406);
    assert_eq!(l.balance(c), Some(500));
    assert_eq!(l.bids().len(), 0);
    assert_eq!(l.next_order_id(), before);
}

#[test]
fn time_priority_scenario() {
    let (mut l, a, b, s) = listed_market();
    let r1 = l.next_order_id();
    new_order(&mut l, b, order(AskOrBid::Ask, s, 50, 10), 1).unwrap();
    let r2 = l.next_order_id();
    new_order(&mut l, b, order(AskOrBid::Ask, s, 50, 10), 2).unwrap();
    assert_eq!(new_order(&mut l, a, order(AskOrBid::Bid, s, 60, 15), 3).unwrap(), 15);
    let asks = l.asks();
    assert_eq!(asks[0].id, r1);
    assert_eq!(asks[0].unfulfilled, 0);
    assert_eq!(asks[1].id, r2);
    assert_eq!(asks[1].unfulfilled, 5);
    assert_eq!(l.holding(a, s), 15);
    // 60 reserved per share, 50 paid: 10 back per share
    assert_eq!(l.balance(a), Some(10000 - 15 * 50));
    assert_eq!(l.balance(b), Some(8000 + 15 * 50));
}

#[test]
fn cancel_bid_scenario() {
    let (mut l, a, _b, s) = listed_market();
    let id = l.next_order_id();
    new_order(&mut l, a, order(AskOrBid::Bid, s, 60, 10), 3).unwrap();
    assert_eq!(l.balance(a), Some(10000 - 600));
    revoke_bid(&mut l, id, a, 4).unwrap();
    assert_eq!(l.balance(a), Some(10000));
    assert_eq!(l.bids().len(), 0);
}

#[test]
fn unlisted_stock_scenario() {
    let mut l = Ledger::new();
    let a = user(&mut l, "A", 10000);
    let s = issue(&mut l, a, "S", 100, 50);
    let b = user(&mut l, "B", 10000);
    let e = new_order(&mut l, b, order(AskOrBid::Bid, s, 50, 1), 1).unwrap_err();
    assert!(matches!(e, EngineError::BadRequest(_)));
    let e = new_order(&mut l, a, order(AskOrBid::Ask, s, 50, 1), 1).unwrap_err();
    assert!(matches!(e, EngineError::BadRequest(_)));
    assert_eq!(ipo_buy(&mut l, b, s, IPOBuyModel { amount: 70 }, 1).unwrap(), 70);
    assert_eq!(ipo_buy(&mut l, a, s, IPOBuyModel { amount: 70 }, 1).unwrap(), 30);
    assert_eq!(l.new_stock(s).unwrap().offer_unfulfilled, 0);
    assert_eq!(ipo_buy(&mut l, a, s, IPOBuyModel { amount: 70 }, 1).unwrap(), 0);
    assert_eq!(l.holding(a, s), 30);
    assert_eq!(l.balance(a), Some(10000 - 30 * 50));
    list_stock(&mut l, a, s, 2).unwrap();
    let e = ipo_buy(&mut l, b, s, IPOBuyModel { amount: 1 }, 3).unwrap_err();
    assert!(matches!(e, EngineError::BadRequest(_)));
}

#[test]
fn cash_and_shares_are_conserved_by_trading() {
    let (mut l, a, b, s) = listed_market();
    let c = user(&mut l, "C", 3000);
    let total = l.cash_in_custody();
    new_order(&mut l, b, order(AskOrBid::Ask, s, 55, 25), 3).unwrap();
    new_order(&mut l, a, order(AskOrBid::Bid, s, 58, 10), 4).unwrap();
    new_order(&mut l, c, order(AskOrBid::Bid, s, 40, 20), 5).unwrap();
    let ask_id = l.asks()[0].id;
    revoke_ask(&mut l, ask_id, b, 6).unwrap();
    let balances: i64 = (0..l.user_count()).map(|u| l.balance(u).unwrap()).sum();
    let reserved: i64 = l.bids().iter().map(|o| o.unfulfilled * o.price as i64).sum();
    assert_eq!(balances + reserved, total);
    assert_eq!(balances + reserved, 10000 + 10000 + 3000 - 40 * 50);
    let held = l.holding(a, s) + l.holding(b, s) + l.holding(c, s);
    let offered: i64 = l.asks().iter().map(|o| o.unfulfilled).sum();
    assert_eq!(held + offered, 40);
    assert_eq!(l.holding(a, s), 10);
    assert_eq!(l.holding(b, s), 30);
}

#[test]
fn orders_stay_within_volume_and_balances_stay_positive() {
    let (mut l, a, b, s) = listed_market();
    new_order(&mut l, b, order(AskOrBid::Ask, s, 50, 7), 3).unwrap();
    new_order(&mut l, a, order(AskOrBid::Bid, s, 50, 3), 4).unwrap();
    new_order(&mut l, a, order(AskOrBid::Bid, s, 51, 9), 5).unwrap();
    for o in l.asks().iter().chain(l.bids().iter()) {
        assert!(0 <= o.unfulfilled && o.unfulfilled <= o.volume);
    }
    assert_eq!(l.asks()[0].unfulfilled, 0);
    assert_eq!(l.bids()[1].unfulfilled, 5);
    for u in 0..l.user_count() {
        assert!(l.balance(u).unwrap() >= 0);
        assert!(l.holding(u, s) >= 0);
    }
}

#[test]
fn submit_then_cancel_changes_nothing() {
    let (mut l, a, b, s) = listed_market();
    let id = l.next_order_id();
    new_order(&mut l, b, order(AskOrBid::Ask, s, 90, 15), 3).unwrap();
    assert_eq!(l.holding(b, s), 25);
    revoke_ask(&mut l, id, b, 4).unwrap();
    assert_eq!(l.holding(b, s), 40);
    assert_eq!(l.asks().len(), 0);
    let id = l.next_order_id();
    new_order(&mut l, a, order(AskOrBid::Bid, s, 10, 15), 5).unwrap();
    revoke_bid(&mut l, id, a, 6).unwrap();
    assert_eq!(l.balance(a), Some(10000));
    assert_eq!(l.bids().len(), 0);
    assert_eq!(l.deals().len(), 1);
}

#[test]
fn best_price_is_met_before_time() {
    let (mut l, a, b, s) = listed_market();
    new_order(&mut l, b, order(AskOrBid::Ask, s, 55, 5), 1).unwrap();
    new_order(&mut l, b, order(AskOrBid::Ask, s, 52, 5), 2).unwrap();
    assert_eq!(new_order(&mut l, a, order(AskOrBid::Bid, s, 60, 5), 3).unwrap(), 5);
    assert_eq!(l.asks()[0].unfulfilled, 5);
    assert_eq!(l.asks()[1].unfulfilled, 0);
    assert_eq!(l.deals().last().unwrap().price, 52);
    // an incoming ask meets the dearest bid first, at the bid's price
    let c = user(&mut l, "C", 10000);
    new_order(&mut l, c, order(AskOrBid::Bid, s, 45, 2), 4).unwrap();
    new_order(&mut l, c, order(AskOrBid::Bid, s, 48, 2), 5).unwrap();
    assert_eq!(new_order(&mut l, a, order(AskOrBid::Ask, s, 40, 3), 6).unwrap(), 3);
    let deals = l.deals();
    assert_eq!(deals[deals.len() - 2].price, 48);
    assert_eq!(deals[deals.len() - 1].price, 45);
    assert_eq!(l.balance(a), Some(10000 - 5 * 52 + 2 * 48 + 45));
}

#[test]
fn equal_creation_times_go_by_id() {
    let (mut l, a, b, s) = listed_market();
    new_order(&mut l, b, order(AskOrBid::Ask, s, 50, 4), 9).unwrap();
    new_order(&mut l, b, order(AskOrBid::Ask, s, 50, 4), 9).unwrap();
    new_order(&mut l, a, order(AskOrBid::Bid, s, 50, 5), 10).unwrap();
    assert_eq!(l.asks()[0].unfulfilled, 0);
    assert_eq!(l.asks()[1].unfulfilled, 3);
}

#[test]
fn refusals_change_nothing() {
    let (mut l, a, b, s) = listed_market();
    let e = new_order(&mut l, a, order(AskOrBid::Bid, s, 0, 5), 3).unwrap_err();
    assert_eq!(e.status(), 400);
    let e = new_order(&mut l, a, order(AskOrBid::Bid, s, 5, -1), 3).unwrap_err();
    assert_eq!(e.status(), 400);
    let e = new_order(&mut l, a, order(AskOrBid::Bid, 7, 5, 1), 3).unwrap_err();
    assert_eq!(e.status(), 400);
    let e = new_order(&mut l, 99, order(AskOrBid::Bid, s, 5, 1), 3).unwrap_err();
    assert_eq!(e.status(), 404);
    let e = new_order(&mut l, a, order(AskOrBid::Ask, s, 5, 1), 3).unwrap_err();
    assert_eq!(lack_of(&e), Some(1));
    let e = new_order(&mut l, b, order(AskOrBid::Ask, s, 5, 41), 3).unwrap_err();
    assert_eq!(lack_of(&e), Some(1));
    let e = new_order(&mut l, a, order(AskOrBid::Bid, s, i32::MAX, i64::MAX), 3).unwrap_err();
    assert_eq!(e.status(), 500);
    let e = revoke_bid(&mut l, 0, a, 3).unwrap_err();
    assert_eq!(e.status(), 404);
    let e = revoke_ask(&mut l, 12345, b, 3).unwrap_err();
    assert!(matches!(e, EngineError::NotFound(_)));
    let e = recharge(&mut l, a, RechargeModel { cash: u64::MAX }).unwrap_err();
    assert_eq!(e.status(), 500);
    let e = recharge(&mut l, 99, RechargeModel { cash: 1 }).unwrap_err();
    assert_eq!(e.status(), 404);
    let e = list_stock(&mut l, b, s, 3).unwrap_err();
    assert_eq!(e.status(), 400);
    let e = ipo_buy(&mut l, b, s, IPOBuyModel { amount: u64::MAX }, 3).unwrap_err();
    assert_eq!(e.status(), 500);
    assert_eq!(l.balance(a), Some(10000));
    assert_eq!(l.holding(b, s), 40);
    assert_eq!(l.asks().len() + l.bids().len(), 0);
}

#[test]
fn a_filled_order_cannot_be_cancelled() {
    let (mut l, a, b, s) = listed_market();
    let id = l.next_order_id();
    new_order(&mut l, b, order(AskOrBid::Ask, s, 50, 5), 3).unwrap();
    new_order(&mut l, a, order(AskOrBid::Bid, s, 50, 5), 4).unwrap();
    let e = revoke_ask(&mut l, id, b, 5).unwrap_err();
    assert!(matches!(e, EngineError::NotFound(_)));
    assert_eq!(l.asks().len(), 1);
    assert_eq!(l.holding(b, s), 35);
}

#[test]
fn cancelling_a_partly_filled_bid_refunds_the_rest() {
    let (mut l, a, b, s) = listed_market();
    let id = l.next_order_id();
    new_order(&mut l, a, order(AskOrBid::Bid, s, 60, 10), 3).unwrap();
    new_order(&mut l, b, order(AskOrBid::Ask, s, 55, 4), 4).unwrap();
    assert_eq!(l.balance(a), Some(10000 - 600));
    revoke_bid(&mut l, id, a, 5).unwrap();
    assert_eq!(l.balance(a), Some(10000 - 4 * 60));
    assert_eq!(l.holding(a, s), 4);
    assert_eq!(l.bids().len(), 0);
}

#[test]
fn insufficient_reports_fail_without_trades() {
    let (mut l, a, _b, s) = listed_market();
    match new_order(&mut l, a, order(AskOrBid::Bid, s, 200, 100), 3).unwrap_err() {
        EngineError::Insufficient(r) => {
            assert!(!r.succeed);
            assert_eq!(r.deal_amount, None);
            assert_eq!(r.lack, Some(10000));
        },
        _ => panic!("expected an insufficient balance"),
    }
}

#[test]
fn cancelling_someone_elses_order_is_not_found() {
    let (mut l, a, b, s) = listed_market();
    let id = l.next_order_id();
    new_order(&mut l, b, order(AskOrBid::Ask, s, 70, 5), 3).unwrap();
    let e = revoke_ask(&mut l, id, a, 4).unwrap_err();
    assert_eq!(e.status(), 404);
    let e = revoke_bid(&mut l, id, b, 4).unwrap_err();
    assert_eq!(e.status(), 404);
    assert_eq!(l.asks().len(), 1);
}

#[test]
fn issuing_and_listing_rules() {
    let mut l = Ledger::new();
    let a = user(&mut l, "A", 0);
    let b = user(&mut l, "B", 0);
    let s = issue(&mut l, a, "S", 10, 5);
    let e = ipo_stock(&mut l, b, IPOModel { name: "S".to_owned(), offer_circ: 10, offer_price: 5 }, 0).unwrap_err();
    assert_eq!(e.status(), 400);
    let e = ipo_stock(&mut l, b, IPOModel { name: "T".to_owned(), offer_circ: -1, offer_price: 5 }, 0).unwrap_err();
    assert_eq!(e.status(), 400);
    let e = ipo_stock(&mut l, b, IPOModel { name: "T".to_owned(), offer_circ: 1, offer_price: 0 }, 0).unwrap_err();
    assert_eq!(e.status(), 400);
    let e = ipo_stock(&mut l, 9, IPOModel { name: "T".to_owned(), offer_circ: 1, offer_price: 5 }, 0).unwrap_err();
    assert_eq!(e.status(), 404);
    assert_eq!(l.stock_count(), 1);
    let z = issue(&mut l, b, "Z", 0, 5);
    assert_eq!(ipo_buy(&mut l, a, z, IPOBuyModel { amount: 3 }, 1).unwrap(), 0);
    assert!(list_stock(&mut l, b, s, 1).is_err());
    list_stock(&mut l, a, s, 1).unwrap();
    assert!(list_stock(&mut l, a, s, 2).is_err());
    let e = register(&mut l, RegisterModel { name: "A".to_owned(), password: "x".to_owned() }, 0).unwrap_err();
    assert_eq!(l.stock_count(), 2);
    assert_eq!(e.status(), 400);
    assert_eq!(l.user_count(), 2);
}

#[test]
fn ipo_purchase_beyond_balance_is_insufficient() {
    let mut l = Ledger::new();
    let a = user(&mut l, "A", 0);
    let s = issue(&mut l, a, "S", 100, 50);
    let b = user(&mut l, "B", 1000);
    let e = ipo_buy(&mut l, b, s, IPOBuyModel { amount: 30 }, 1).unwrap_err();
    assert_eq!(lack_of(&e), Some(500));
    assert_eq!(l.new_stock(s).unwrap().offer_unfulfilled, 100);
    assert_eq!(l.balance(b), Some(1000));
    assert_eq!(l.deals().len(), 0);
}

#[test]
fn error_statuses() {
    assert_eq!(EngineError::InternalError(String::new()).status(), 500);
    assert_eq!(EngineError::BadRequest(String::new()).status(), 400);
    assert_eq!(EngineError::Unauthorized(String::new()).status(), 401);
    assert_eq!(EngineError::MethodNotAllowed(String::new()).status(), 405);
    assert_eq!(EngineError::NotFound(String::new()).status(), 404);
}
