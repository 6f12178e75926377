use matching_engine::errors::EngineError;
use matching_engine::favorite::{add_favorite, delete_favorite, get_favorites, get_is_favorited, AddFavoriteModel};
use matching_engine::ledger::{AskOrBid, Ledger};
use matching_engine::order_queries::{get_ask, get_bid, get_my_asks, get_my_bids, get_my_deals};
use matching_engine::orders::{new_order, OrderModel};
use matching_engine::paging::PagingModel;
use matching_engine::quotation::{get_askquote, get_bidquote, get_dealquote, get_prices, get_quotation, get_timequote};
use matching_engine::stock_queries::{
    get_ipo_stocks, get_my_holds, get_my_ipo_stocks, get_my_stocks, get_stock, get_stock_by_name, get_stocks,
    get_stocks_holding,
};
use matching_engine::stocks::{ipo_buy, ipo_stock, list_stock, IPOBuyModel, IPOModel};
use matching_engine::users::{get_user, get_user_by_name, get_user_me, recharge, register, RechargeModel, RegisterModel, RememberUserModel};

fn market() -> (Ledger, usize, usize, usize, usize) {
    let mut l = Ledger::new();
    let a = register(&mut l, RegisterModel { name: "a".to_owned(), password: "p".to_owned() }, 0).unwrap();
    let b = register(&mut l, RegisterModel { name: "b".to_owned(), password: "p".to_owned() }, 0).unwrap();
    recharge(&mut l, a, RechargeModel { cash: 100000 }).unwrap();
    recharge(&mut l, b, RechargeModel { cash: 100000 }).unwrap();
    let s = ipo_stock(&mut l, a, IPOModel { name: "S".to_owned(), offer_circ: 1000, offer_price: 10 }, 0).unwrap();
    let t = ipo_stock(&mut l, a, IPOModel { name: "T".to_owned(), offer_circ: 1000, offer_price: 10 }, 0).unwrap();
    ipo_buy(&mut l, b, s, IPOBuyModel { amount: 500 }, 1).unwrap();
    list_stock(&mut l, a, s, 2).unwrap();
    (l, a, b, s, t)
}

fn all() -> PagingModel {
    PagingModel { offset: None, limit: Some(100), order: None }
}

fn o(side: AskOrBid, stock_id: usize, price: i32, volume: i64) -> OrderModel {
    OrderModel { entype: side, stock_id, price, volume }
}

#[test]
fn depth_groups_levels_in_price_order() {
    let (mut l, a, b, s, _t) = market();
    new_order(&mut l, b, o(AskOrBid::Ask, s, 30, 5), 3).unwrap();
    new_order(&mut l, b, o(AskOrBid::Ask, s, 20, 4), 4).unwrap();
    new_order(&mut l, b, o(AskOrBid::Ask, s, 30, 6), 5).unwrap();
    new_order(&mut l, a, o(AskOrBid::Bid, s, 12, 3), 6).unwrap();
    new_order(&mut l, a, o(AskOrBid::Bid, s, 15, 2), 7).unwrap();
    new_order(&mut l, a, o(AskOrBid::Bid, s, 12, 1), 8).unwrap();
    let asks: Vec<(i32, i64)> = get_askquote(&l, s).iter().map(|m| (m.price, m.amount)).collect();
    assert_eq!(asks, vec![(20, 4), (30, 11)]);
    let bids: Vec<(i32, i64)> = get_bidquote(&l, s).iter().map(|m| (m.price, m.amount)).collect();
    assert_eq!(bids, vec![(15, 2), (12, 4)]);
    // filled orders leave the depth
    new_order(&mut l, a, o(AskOrBid::Bid, s, 20, 4), 9).unwrap();
    let asks: Vec<(i32, i64)> = get_askquote(&l, s).iter().map(|m| (m.price, m.amount)).collect();
    assert_eq!(asks, vec![(30, 11)]);
}

#[test]
fn recent_trades_and_last_prices() {
    let (mut l, a, b, s, t) = market();
    assert_eq!(get_prices(&l, &vec![s, t]).iter().map(|p| p.price).collect::<Vec<_>>(), vec![Some(10), None]);
    assert_eq!(get_dealquote(&l, s).len(), 0);
    for k in 0..7 {
        new_order(&mut l, b, o(AskOrBid::Ask, s, 20 + k, 1), 10 + k as i64).unwrap();
        new_order(&mut l, a, o(AskOrBid::Bid, s, 20 + k, 1), 10 + k as i64).unwrap();
    }
    let recent = get_dealquote(&l, s);
    let prices: Vec<i32> = recent.iter().map(|d| d.price).collect();
    assert_eq!(prices, vec![26, 25, 24, 23, 22]);
    assert!(recent.iter().all(|d| d.sell_user_id == Some(b)));
    assert_eq!(get_prices(&l, &vec![t, s]).iter().map(|p| p.price).collect::<Vec<_>>(), vec![None, Some(26)]);
    let q = get_quotation(&l, s, 10, 2, 4);
    assert_eq!(q.recent_deal.len(), 5);
    let buckets: Vec<(i64, Option<i32>)> = q.time_quote.iter().map(|m| (m.time, m.price)).collect();
    assert_eq!(buckets, vec![(10, Some(21)), (12, Some(23)), (14, Some(25)), (16, Some(26))]);
    assert_eq!(q.ask_prices.len(), 0);
    let early = get_timequote(&l, s, 0, 1, 3);
    assert_eq!(early.iter().map(|m| m.price).collect::<Vec<_>>(), vec![None, Some(10), None]);
    assert_eq!(get_timequote(&l, s, i64::MAX - 1, 1, 5).len(), 2);
}

#[test]
fn my_orders_and_deals_newest_first() {
    let (mut l, a, b, s, _t) = market();
    new_order(&mut l, b, o(AskOrBid::Ask, s, 40, 1), 3).unwrap();
    new_order(&mut l, a, o(AskOrBid::Bid, s, 5, 1), 4).unwrap();
    new_order(&mut l, b, o(AskOrBid::Ask, s, 41, 2), 5).unwrap();
    new_order(&mut l, b, o(AskOrBid::Ask, s, 42, 3), 6).unwrap();
    let mine = get_my_asks(&l, b, all());
    assert_eq!(mine.iter().map(|x| x.price).collect::<Vec<_>>(), vec![42, 41, 40]);
    assert!(mine.iter().all(|x| x.user_name == "b" && x.stock_name == "S"));
    let page = get_my_asks(&l, b, PagingModel { offset: Some(1), limit: Some(1), order: None });
    assert_eq!(page.len(), 1);
    assert_eq!(page[0].price, 41);
    assert_eq!(get_my_asks(&l, a, all()).len(), 0);
    assert_eq!(get_my_bids(&l, a, all()).len(), 1);
    assert_eq!(get_my_asks(&l, b, PagingModel { offset: Some(9), limit: None, order: None }).len(), 0);
    new_order(&mut l, a, o(AskOrBid::Bid, s, 45, 2), 7).unwrap();
    let deals = get_my_deals(&l, a, all());
    assert_eq!(deals.len(), 2);
    assert_eq!(deals[0].price, 41);
    assert_eq!(deals[0].buy_user_name, "a");
    assert_eq!(deals[0].sell_user_name.as_deref(), Some("b"));
    assert_eq!(deals[0].stock_name, "S");
    let ipo = get_my_deals(&l, b, all());
    assert_eq!(ipo.last().unwrap().sell_user_name, None);
    assert_eq!(get_my_deals(&l, b, all()).len(), 3);
    let id = l.asks()[0].id;
    let m = get_ask(&l, id).unwrap();
    assert_eq!(m.user_name, "b");
    assert_eq!(m.stock_name, "S");
    assert_eq!(m.unfulfilled, 0);
    assert!(matches!(get_bid(&l, id), Err(EngineError::NotFound(_))));
    let bid_id = l.bids()[0].id;
    assert_eq!(get_bid(&l, bid_id).unwrap().price, 5);
}

#[test]
fn stock_listings() {
    let (mut l, a, b, s, t) = market();
    let listed = get_stocks(&l, all());
    assert_eq!(listed.len(), 1);
    assert_eq!(listed[0].name, "S");
    assert_eq!(listed[0].issuer_name.as_deref(), Some("a"));
    assert_eq!(listed[0].into_market_at, Some(2));
    assert_eq!(listed[0].offer_unfulfilled, Some(500));
    let ipo = get_ipo_stocks(&l, all());
    assert_eq!(ipo.iter().map(|m| m.id).collect::<Vec<_>>(), vec![t]);
    assert_eq!(get_my_stocks(&l, a, all()).len(), 1);
    assert_eq!(get_my_stocks(&l, b, all()).len(), 0);
    assert_eq!(get_my_ipo_stocks(&l, a, all()).len(), 1);
    assert_eq!(get_stock(&l, t).unwrap().name, "T");
    assert!(get_stock(&l, 9).is_err());
    assert_eq!(get_stock_by_name(&l, &"T".to_owned()).unwrap().id, t);
    assert!(get_stock_by_name(&l, &"U".to_owned()).is_err());
    ipo_buy(&mut l, b, t, IPOBuyModel { amount: 3 }, 3).unwrap();
    let holds = get_my_holds(&l, b, all());
    assert_eq!(holds.iter().map(|m| m.id).collect::<Vec<_>>(), vec![t, s]);
    let h = get_stocks_holding(&l, b, &vec![s, t, 7]);
    assert_eq!(h.iter().map(|m| m.hold).collect::<Vec<_>>(), vec![500, 3, 0]);
}

#[test]
fn listings_go_by_listing_time() {
    let (mut l, a, _b, s, t) = market();
    list_stock(&mut l, a, t, 9).unwrap();
    let listed = get_stocks(&l, all());
    assert_eq!(listed.iter().map(|m| m.id).collect::<Vec<_>>(), vec![t, s]);
    let u = ipo_stock(&mut l, a, IPOModel { name: "U".to_owned(), offer_circ: 5, offer_price: 1 }, 4).unwrap();
    let v = ipo_stock(&mut l, a, IPOModel { name: "V".to_owned(), offer_circ: 5, offer_price: 1 }, 3).unwrap();
    let ipo = get_ipo_stocks(&l, all());
    assert_eq!(ipo.iter().map(|m| m.id).collect::<Vec<_>>(), vec![u, v]);
}

#[test]
fn times_never_run_backwards() {
    let (mut l, a, b, s, _t) = market();
    new_order(&mut l, b, o(AskOrBid::Ask, s, 30, 2), 50).unwrap();
    new_order(&mut l, b, o(AskOrBid::Ask, s, 31, 2), 20).unwrap();
    assert_eq!(l.asks()[1].created_at, 50);
    new_order(&mut l, a, o(AskOrBid::Bid, s, 31, 4), 10).unwrap();
    let deals = get_my_deals(&l, a, all());
    assert!(deals.iter().all(|d| d.created_at == 50));
    let mine = get_my_asks(&l, b, all());
    assert_eq!(mine.iter().map(|x| x.price).collect::<Vec<_>>(), vec![31, 30]);
}

#[test]
fn user_lookups() {
    let (l, a, b, _s, _t) = market();
    let u = get_user(&l, b).unwrap();
    assert_eq!(u.name, "b");
    assert_eq!(u.balance, 100000 - 5000);
    assert!(matches!(get_user(&l, 5), Err(EngineError::NotFound(_))));
    assert_eq!(get_user_by_name(&l, &"a".to_owned()).unwrap().id, a);
    assert!(get_user_by_name(&l, &"c".to_owned()).is_err());
    let me = get_user_me(&l, &RememberUserModel { id: a, name: "a".to_owned() }).unwrap();
    assert_eq!(me.balance, 100000);
}

#[test]
fn favorites() {
    let (mut l, a, _b, s, t) = market();
    add_favorite(&mut l, a, AddFavoriteModel { stock_id: s }, 5).unwrap();
    add_favorite(&mut l, a, AddFavoriteModel { stock_id: t }, 6).unwrap();
    assert!(matches!(add_favorite(&mut l, a, AddFavoriteModel { stock_id: s }, 7), Err(EngineError::BadRequest(_))));
    assert!(matches!(add_favorite(&mut l, a, AddFavoriteModel { stock_id: 9 }, 7), Err(EngineError::NotFound(_))));
    assert!(get_is_favorited(&l, a, s).is_favorited);
    let favs = get_favorites(&l, a, all());
    assert_eq!(favs.iter().map(|f| (f.stock.id, f.favorited_at)).collect::<Vec<_>>(), vec![(t, 6), (s, 5)]);
    delete_favorite(&mut l, a, s).unwrap();
    assert!(!get_is_favorited(&l, a, s).is_favorited);
    assert!(matches!(delete_favorite(&mut l, a, s), Err(EngineError::NotFound(_))));
    assert_eq!(get_favorites(&l, a, all()).len(), 1);
}

#[test]
fn error_bodies() {
    let m = EngineError::NotFound("gone".to_owned()).error_model().unwrap();
    assert_eq!(m.status, 404);
    assert_eq!(m.error, "gone");
    let (mut l, a, _b, s, _t) = market();
    let e = new_order(&mut l, a, o(AskOrBid::Ask, s, 5, 1), 3).unwrap_err();
    assert!(e.error_model().is_none());
}
