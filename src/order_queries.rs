//! Read-only views of orders and trades.
use vstd::prelude::*;
use crate::ledger::{Deal, Ledger, LedgerView, Order, order_well_formed};
use crate::errors::{EngineError, Refusal};
use crate::paging::{PagingModel, page, page_of, offset_of, limit_of};

verus! {

/// The orders of `user_id` in `book`, the latest admitted first.
pub open spec fn newest_orders_of(book: Seq<Order>, user_id: usize) -> Seq<Order>
    decreases book.len(),
{
    if book.len() == 0 {
        Seq::empty()
    } else {
        let rest = newest_orders_of(book.drop_last(), user_id);
        if book.last().user_id == user_id {
            seq![book.last()] + rest
        } else {
            rest
        }
    }
}

/// The trades `user_id` bought or sold in, the latest first.
pub open spec fn newest_deals_of(deals: Seq<Deal>, user_id: usize) -> Seq<Deal>
    decreases deals.len(),
{
    if deals.len() == 0 {
        Seq::empty()
    } else {
        let rest = newest_deals_of(deals.drop_last(), user_id);
        let d = deals.last();
        if d.buy_user_id == user_id || d.sell_user_id == Some(user_id) {
            seq![d] + rest
        } else {
            rest
        }
    }
}

/// Whether the user and stock of order `o` exist in `v`.
pub open spec fn refs_ok(v: LedgerView, o: Order) -> bool {
    o.user_id < v.users.len() && o.stock_id < v.stocks.len()
}


/// `s` lists the newest first: creation times never increase along it.
pub open spec fn orders_newest_first(s: Seq<Order>) -> bool {
    forall|i: int, j: int| 0 <= i < j < s.len() ==> (#[trigger] s[i]).created_at >= (#[trigger] s[j]).created_at
}

/// Taken from a time-ordered sequence, the listing is newest first, and
/// each of its items comes from the sequence.
pub proof fn lemma_newest_orders_sorted(s: Seq<Order>, user_id: usize)
    requires
        forall|i: int, j: int| 0 <= i < j < s.len() ==> (#[trigger] s[i]).created_at <= (#[trigger] s[j]).created_at,
    ensures
        orders_newest_first(newest_orders_of(s, user_id)),
        forall|k: int| 0 <= k < newest_orders_of(s, user_id).len() ==> exists|j: int| 0 <= j < s.len()
            && #[trigger] newest_orders_of(s, user_id)[k] == s[j],
    decreases s.len(),
{
    if s.len() > 0 {
        let b = s.drop_last();
        assert forall|i: int, j: int| 0 <= i < j < b.len() implies (#[trigger] b[i]).created_at <= (#[trigger] b[j]).created_at by {
            assert(b[i] == s[i] && b[j] == s[j]);
        }
        lemma_newest_orders_sorted(b, user_id);
        let rest = newest_orders_of(b, user_id);
        let r = newest_orders_of(s, user_id);
        if r.len() == rest.len() + 1 {
            assert(r == seq![s.last()] + rest);
            assert forall|k: int| 0 <= k < r.len() implies exists|j: int| 0 <= j < s.len() && #[trigger] r[k] == s[j] by {
                if k == 0 {
                    assert(r[0] == s[s.len() - 1]);
                } else {
                    assert(r[k] == rest[k - 1]);
                    let j = choose|j: int| 0 <= j < b.len() && #[trigger] rest[k - 1] == b[j];
                    assert(b[j] == s[j]);
                }
            }
            assert forall|i: int, j: int| 0 <= i < j < r.len() implies (#[trigger] r[i]).created_at >= (#[trigger] r[j]).created_at by {
                assert(r[j] == rest[j - 1]);
                if i == 0 {
                    let j2 = choose|j2: int| 0 <= j2 < b.len() && #[trigger] rest[j - 1] == b[j2];
                    assert(b[j2] == s[j2]);
                    assert(s[j2].created_at <= s[s.len() - 1].created_at);
                } else {
                    assert(r[i] == rest[i - 1]);
                }
            }
        } else {
            assert(r == rest);
            assert forall|k: int| 0 <= k < r.len() implies exists|j: int| 0 <= j < s.len() && #[trigger] r[k] == s[j] by {
                let j = choose|j: int| 0 <= j < b.len() && #[trigger] rest[k] == b[j];
                assert(b[j] == s[j]);
            }
        }
    }
}

/// `s` lists the newest first: creation times never increase along it.
pub open spec fn deals_newest_first(s: Seq<Deal>) -> bool {
    forall|i: int, j: int| 0 <= i < j < s.len() ==> (#[trigger] s[i]).created_at >= (#[trigger] s[j]).created_at
}

/// Taken from a time-ordered sequence, the listing is newest first, and
/// each of its items comes from the sequence.
pub proof fn lemma_newest_deals_sorted(s: Seq<Deal>, user_id: usize)
    requires
        forall|i: int, j: int| 0 <= i < j < s.len() ==> (#[trigger] s[i]).created_at <= (#[trigger] s[j]).created_at,
    ensures
        deals_newest_first(newest_deals_of(s, user_id)),
        forall|k: int| 0 <= k < newest_deals_of(s, user_id).len() ==> exists|j: int| 0 <= j < s.len()
            && #[trigger] newest_deals_of(s, user_id)[k] == s[j],
    decreases s.len(),
{
    if s.len() > 0 {
        let b = s.drop_last();
        assert forall|i: int, j: int| 0 <= i < j < b.len() implies (#[trigger] b[i]).created_at <= (#[trigger] b[j]).created_at by {
            assert(b[i] == s[i] && b[j] == s[j]);
        }
        lemma_newest_deals_sorted(b, user_id);
        let rest = newest_deals_of(b, user_id);
        let r = newest_deals_of(s, user_id);
        if r.len() == rest.len() + 1 {
            assert(r == seq![s.last()] + rest);
            assert forall|k: int| 0 <= k < r.len() implies exists|j: int| 0 <= j < s.len() && #[trigger] r[k] == s[j] by {
                if k == 0 {
                    assert(r[0] == s[s.len() - 1]);
                } else {
                    assert(r[k] == rest[k - 1]);
                    let j = choose|j: int| 0 <= j < b.len() && #[trigger] rest[k - 1] == b[j];
                    assert(b[j] == s[j]);
                }
            }
            assert forall|i: int, j: int| 0 <= i < j < r.len() implies (#[trigger] r[i]).created_at >= (#[trigger] r[j]).created_at by {
                assert(r[j] == rest[j - 1]);
                if i == 0 {
                    let j2 = choose|j2: int| 0 <= j2 < b.len() && #[trigger] rest[j - 1] == b[j2];
                    assert(b[j2] == s[j2]);
                    assert(s[j2].created_at <= s[s.len() - 1].created_at);
                } else {
                    assert(r[i] == rest[i - 1]);
                }
            }
        } else {
            assert(r == rest);
            assert forall|k: int| 0 <= k < r.len() implies exists|j: int| 0 <= j < s.len() && #[trigger] r[k] == s[j] by {
                let j = choose|j: int| 0 <= j < b.len() && #[trigger] rest[k] == b[j];
                assert(b[j] == s[j]);
            }
        }
    }
}

fn orders_of(ledger: &Ledger, book: &Vec<Order>, user_id: usize) -> (r: Vec<Order>)
    requires
        ledger.wf(),
        book@ == ledger@.asks || book@ == ledger@.bids,
    ensures
        r@ == newest_orders_of(book@, user_id),
        forall|k: int| 0 <= k < r@.len() ==> refs_ok(ledger@, #[trigger] r@[k]),
{
    let mut r: Vec<Order> = Vec::new();
    let mut i: usize = 0;
    while i < book.len()
        invariant
            ledger.wf(),
            book@ == ledger@.asks || book@ == ledger@.bids,
            i <= book@.len(),
            r@ == newest_orders_of(book@.subrange(0, i as int), user_id),
            forall|k: int| 0 <= k < r@.len() ==> refs_ok(ledger@, #[trigger] r@[k]),
        decreases book@.len() - i,
    {
        let o = book[i];
        assert(book@.subrange(0, i + 1).drop_last() == book@.subrange(0, i as int));
        assert(order_well_formed(book@[i as int], ledger@.users.len() as int, ledger@.stocks.len() as int, ledger@.next_order_id));
        if o.user_id == user_id {
            let ghost old_r = r@;
            r.insert(0, o);
            assert(r@ =~= seq![o] + newest_orders_of(book@.subrange(0, i as int), user_id));
            assert forall|k: int| 0 <= k < r@.len() implies refs_ok(ledger@, #[trigger] r@[k]) by {
                if k > 0 {
                    assert(r@[k] == old_r[k - 1]);
                }
            }
        }
        i = i + 1;
    }
    assert(book@.subrange(0, book@.len() as int) == book@);
    r
}

/// Whether the users and stock of trade `d` exist in `v`.
pub open spec fn deal_refs_ok(v: LedgerView, d: Deal) -> bool {
    &&& d.buy_user_id < v.users.len()
    &&& d.stock_id < v.stocks.len()
    &&& (d.sell_user_id matches Some(s) ==> s < v.users.len())
}

fn deals_of(ledger: &Ledger, user_id: usize) -> (r: Vec<Deal>)
    requires
        ledger.wf(),
    ensures
        r@ == newest_deals_of(ledger@.deals, user_id),
        forall|k: int| 0 <= k < r@.len() ==> deal_refs_ok(ledger@, #[trigger] r@[k]),
{
    let deals = &ledger.deals;
    let mut r: Vec<Deal> = Vec::new();
    let mut i: usize = 0;
    while i < deals.len()
        invariant
            ledger.wf(),
            deals@ == ledger@.deals,
            i <= deals@.len(),
            r@ == newest_deals_of(deals@.subrange(0, i as int), user_id),
            forall|k: int| 0 <= k < r@.len() ==> deal_refs_ok(ledger@, #[trigger] r@[k]),
        decreases deals@.len() - i,
    {
        let d = deals[i];
        assert(deals@.subrange(0, i + 1).drop_last() == deals@.subrange(0, i as int));
        let mine = d.buy_user_id == user_id || match d.sell_user_id {
            Some(s) => s == user_id,
            None => false,
        };
        if mine {
            let ghost old_r = r@;
            assert(deal_refs_ok(ledger@, deals@[i as int]));
            r.insert(0, d);
            assert(r@ =~= seq![d] + newest_deals_of(deals@.subrange(0, i as int), user_id));
            assert forall|k: int| 0 <= k < r@.len() implies deal_refs_ok(ledger@, #[trigger] r@[k]) by {
                if k > 0 {
                    assert(r@[k] == old_r[k - 1]);
                }
            }
        }
        i = i + 1;
    }
    assert(deals@.subrange(0, deals@.len() as int) == deals@);
    r
}

/// A page of the asks of user `user_id`, newest first, with
/// the names of user and stock.
pub fn get_my_asks(ledger: &Ledger, user_id: usize, paging: PagingModel) -> (r: Vec<ReturnOrderModel>)
    requires
        ledger.wf(),
    ensures
        ({
            let os = page_of(newest_orders_of(ledger@.asks, user_id), offset_of(paging), limit_of(paging));
            &&& r@.len() == os.len()
            &&& forall|k: int| 0 <= k < r@.len() ==> shows(ledger@, #[trigger] r@[k], os[k])
        }),
        forall|i: int, j: int| 0 <= i < j < r@.len() ==> (#[trigger] r@[i]).created_at >= (#[trigger] r@[j]).created_at,
{
    let mine = orders_of(ledger, &ledger.asks, user_id);
    let os = page(&mine, paging);
    let r = show_all(ledger, &mine, &os, paging);
    proof {
        lemma_newest_orders_sorted(ledger@.asks, user_id);
        let o = if offset_of(paging) < mine@.len() { offset_of(paging) } else { mine@.len() as int };
        assert forall|i: int, j: int| 0 <= i < j < r@.len() implies (#[trigger] r@[i]).created_at >= (#[trigger] r@[j]).created_at by {
            assert(shows(ledger@, r@[i], os@[i]) && shows(ledger@, r@[j], os@[j]));
            assert(os@[i] == mine@[o + i] && os@[j] == mine@[o + j]);
        }
    }
    r
}

/// A page of the bids of user `user_id`, newest first, with
/// the names of user and stock.
pub fn get_my_bids(ledger: &Ledger, user_id: usize, paging: PagingModel) -> (r: Vec<ReturnOrderModel>)
    requires
        ledger.wf(),
    ensures
        ({
            let os = page_of(newest_orders_of(ledger@.bids, user_id), offset_of(paging), limit_of(paging));
            &&& r@.len() == os.len()
            &&& forall|k: int| 0 <= k < r@.len() ==> shows(ledger@, #[trigger] r@[k], os[k])
        }),
        forall|i: int, j: int| 0 <= i < j < r@.len() ==> (#[trigger] r@[i]).created_at >= (#[trigger] r@[j]).created_at,
{
    let mine = orders_of(ledger, &ledger.bids, user_id);
    let os = page(&mine, paging);
    let r = show_all(ledger, &mine, &os, paging);
    proof {
        lemma_newest_orders_sorted(ledger@.bids, user_id);
        let o = if offset_of(paging) < mine@.len() { offset_of(paging) } else { mine@.len() as int };
        assert forall|i: int, j: int| 0 <= i < j < r@.len() implies (#[trigger] r@[i]).created_at >= (#[trigger] r@[j]).created_at by {
            assert(shows(ledger@, r@[i], os@[i]) && shows(ledger@, r@[j], os@[j]));
            assert(os@[i] == mine@[o + i] && os@[j] == mine@[o + j]);
        }
    }
    r
}

fn show_all(ledger: &Ledger, all: &Vec<Order>, os: &Vec<Order>, paging: PagingModel) -> (r: Vec<ReturnOrderModel>)
    requires
        ledger.wf(),
        forall|k: int| 0 <= k < all@.len() ==> refs_ok(ledger@, #[trigger] all@[k]),
        os@ == page_of(all@, offset_of(paging), limit_of(paging)),
    ensures
        r@.len() == os@.len(),
        forall|k: int| 0 <= k < r@.len() ==> shows(ledger@, #[trigger] r@[k], os@[k]),
{
    proof {
        let o = if offset_of(paging) < all@.len() { offset_of(paging) } else { all@.len() as int };
        assert forall|k: int| 0 <= k < os@.len() implies refs_ok(ledger@, #[trigger] os@[k]) by {
            assert(os@[k] == all@[o + k]);
        }
    }
    let mut r: Vec<ReturnOrderModel> = Vec::new();
    let mut k: usize = 0;
    while k < os.len()
        invariant
            ledger.wf(),
            forall|j: int| 0 <= j < os@.len() ==> refs_ok(ledger@, #[trigger] os@[j]),
            k <= os@.len(),
            r@.len() == k,
            forall|j: int| 0 <= j < k ==> shows(ledger@, #[trigger] r@[j], os@[j]),
        decreases os@.len() - k,
    {
        let m = show(ledger, os[k]);
        r.push(m);
        k = k + 1;
    }
    r
}

/// A trade with the names of its stock, buyer and seller.
#[derive(Debug)]
pub struct DealModel {
    pub id: u64,
    pub stock_id: usize,
    pub stock_name: String,
    pub buy_user_id: usize,
    pub buy_user_name: String,
    pub sell_user_id: Option<usize>,
    pub sell_user_name: Option<String>,
    pub price: i32,
    pub amount: i64,
    pub created_at: i64,
}

/// Whether `m` shows trade `d` of ledger `v`.
pub open spec fn shows_deal(v: LedgerView, m: DealModel, d: Deal) -> bool {
    &&& m.id == d.id
    &&& m.stock_id == d.stock_id
    &&& m.stock_name@ == v.stocks[d.stock_id as int].name@
    &&& m.buy_user_id == d.buy_user_id
    &&& m.buy_user_name@ == v.users[d.buy_user_id as int].name@
    &&& m.sell_user_id == d.sell_user_id
    &&& match d.sell_user_id {
        Some(s) => m.sell_user_name matches Some(n) && n@ == v.users[s as int].name@,
        None => m.sell_user_name is None,
    }
    &&& m.price == d.price
    &&& m.amount == d.amount
    &&& m.created_at == d.created_at
}

fn show_deal(ledger: &Ledger, d: Deal) -> (m: DealModel)
    requires
        deal_refs_ok(ledger@, d),
    ensures
        shows_deal(ledger@, m, d),
{
    let sell_user_name = match d.sell_user_id {
        Some(s) => Some(ledger.users[s].name.clone()),
        None => None,
    };
    DealModel {
        id: d.id,
        stock_id: d.stock_id,
        stock_name: ledger.stocks[d.stock_id].name.clone(),
        buy_user_id: d.buy_user_id,
        buy_user_name: ledger.users[d.buy_user_id].name.clone(),
        sell_user_id: d.sell_user_id,
        sell_user_name,
        price: d.price,
        amount: d.amount,
        created_at: d.created_at,
    }
}

/// A page of the trades user `user_id` bought or sold in, the latest first,
/// with the names of stock, buyer and seller.
pub fn get_my_deals(ledger: &Ledger, user_id: usize, paging: PagingModel) -> (r: Vec<DealModel>)
    requires
        ledger.wf(),
    ensures
        ({
            let ds = page_of(newest_deals_of(ledger@.deals, user_id), offset_of(paging), limit_of(paging));
            &&& r@.len() == ds.len()
            &&& forall|k: int| 0 <= k < r@.len() ==> shows_deal(ledger@, #[trigger] r@[k], ds[k])
        }),
        forall|i: int, j: int| 0 <= i < j < r@.len() ==> (#[trigger] r@[i]).created_at >= (#[trigger] r@[j]).created_at,
{
    let mine = deals_of(ledger, user_id);
    let ds = page(&mine, paging);
    proof {
        let o = if offset_of(paging) < mine@.len() { offset_of(paging) } else { mine@.len() as int };
        assert forall|k: int| 0 <= k < ds@.len() implies deal_refs_ok(ledger@, #[trigger] ds@[k]) by {
            assert(ds@[k] == mine@[o + k]);
        }
    }
    let mut r: Vec<DealModel> = Vec::new();
    let mut k: usize = 0;
    while k < ds.len()
        invariant
            forall|j: int| 0 <= j < ds@.len() ==> deal_refs_ok(ledger@, #[trigger] ds@[j]),
            k <= ds@.len(),
            r@.len() == k,
            forall|j: int| 0 <= j < k ==> shows_deal(ledger@, #[trigger] r@[j], ds@[j]),
        decreases ds@.len() - k,
    {
        let m = show_deal(ledger, ds[k]);
        r.push(m);
        k = k + 1;
    }
    proof {
        lemma_newest_deals_sorted(ledger@.deals, user_id);
        let o = if offset_of(paging) < mine@.len() { offset_of(paging) } else { mine@.len() as int };
        assert forall|i: int, j: int| 0 <= i < j < r@.len() implies (#[trigger] r@[i]).created_at >= (#[trigger] r@[j]).created_at by {
            assert(shows_deal(ledger@, r@[i], ds@[i]) && shows_deal(ledger@, r@[j], ds@[j]));
            assert(ds@[i] == mine@[o + i] && ds@[j] == mine@[o + j]);
        }
    }
    r
}

/// A resting order with the names of its owner and stock.
#[derive(Debug)]
pub struct ReturnOrderModel {
    pub id: u64,
    pub user_id: usize,
    pub user_name: String,
    pub stock_id: usize,
    pub stock_name: String,
    pub price: i32,
    pub volume: i64,
    pub unfulfilled: i64,
    pub created_at: i64,
    pub updated_at: i64,
}

/// Whether `m` shows order `o` of ledger `v`.
pub open spec fn shows(v: LedgerView, m: ReturnOrderModel, o: Order) -> bool {
    &&& m.id == o.id
    &&& m.user_id == o.user_id
    &&& m.user_name@ == v.users[o.user_id as int].name@
    &&& m.stock_id == o.stock_id
    &&& m.stock_name@ == v.stocks[o.stock_id as int].name@
    &&& m.price == o.price
    &&& m.volume == o.volume
    &&& m.unfulfilled == o.unfulfilled
    &&& m.created_at == o.created_at
    &&& m.updated_at == o.updated_at
}

fn show(ledger: &Ledger, o: Order) -> (m: ReturnOrderModel)
    requires
        refs_ok(ledger@, o),
    ensures
        shows(ledger@, m, o),
{
    ReturnOrderModel {
        id: o.id,
        user_id: o.user_id,
        user_name: ledger.users[o.user_id].name.clone(),
        stock_id: o.stock_id,
        stock_name: ledger.stocks[o.stock_id].name.clone(),
        price: o.price,
        volume: o.volume,
        unfulfilled: o.unfulfilled,
        created_at: o.created_at,
        updated_at: o.updated_at,
    }
}

fn find_order(ledger: &Ledger, book: &Vec<Order>, id: u64) -> (r: Result<ReturnOrderModel, EngineError>)
    requires
        ledger.wf(),
        book@ == ledger@.asks || book@ == ledger@.bids,
    ensures
        match r {
            Ok(m) => exists|i: int| 0 <= i < book@.len() && (#[trigger] book@[i]).id == id && shows(ledger@, m, book@[i]),
            Err(e) => e.refusal() == Refusal::NotFound && forall|i: int| 0 <= i < book@.len() ==> (#[trigger] book@[i]).id != id,
        },
{
    let mut i: usize = 0;
    while i < book.len()
        invariant
            ledger.wf(),
            book@ == ledger@.asks || book@ == ledger@.bids,
            i <= book@.len(),
            forall|j: int| 0 <= j < i ==> (#[trigger] book@[j]).id != id,
        decreases book@.len() - i,
    {
        let o = book[i];
        if o.id == id {
            assert(order_well_formed(book@[i as int], ledger@.users.len() as int, ledger@.stocks.len() as int, ledger@.next_order_id));
            let m = show(ledger, o);
            assert(shows(ledger@, m, book@[i as int]));
            return Ok(m);
        }
        i = i + 1;
    }
    Err(EngineError::NotFound("no such order".to_owned()))
}

/// The resting ask `ask_id`; not found when there is none.
pub fn get_ask(ledger: &Ledger, ask_id: u64) -> (r: Result<ReturnOrderModel, EngineError>)
    requires
        ledger.wf(),
    ensures
        match r {
            Ok(m) => exists|i: int| 0 <= i < ledger@.asks.len() && (#[trigger] ledger@.asks[i]).id == ask_id
                && shows(ledger@, m, ledger@.asks[i]),
            Err(e) => e.refusal() == Refusal::NotFound
                && forall|i: int| 0 <= i < ledger@.asks.len() ==> (#[trigger] ledger@.asks[i]).id != ask_id,
        },
{
    find_order(ledger, &ledger.asks, ask_id)
}

/// The resting bid `bid_id`; not found when there is none.
pub fn get_bid(ledger: &Ledger, bid_id: u64) -> (r: Result<ReturnOrderModel, EngineError>)
    requires
        ledger.wf(),
    ensures
        match r {
            Ok(m) => exists|i: int| 0 <= i < ledger@.bids.len() && (#[trigger] ledger@.bids[i]).id == bid_id
                && shows(ledger@, m, ledger@.bids[i]),
            Err(e) => e.refusal() == Refusal::NotFound
                && forall|i: int| 0 <= i < ledger@.bids.len() ==> (#[trigger] ledger@.bids[i]).id != bid_id,
        },
{
    find_order(ledger, &ledger.bids, bid_id)
}

} // verus!
