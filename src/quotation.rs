//! Market data: order-book depth, recent trades and last prices.
use vstd::prelude::*;
use crate::sums::{sum_of, lemma_sum_le, lemma_sum_prefix_le, lemma_sum_nonneg, lemma_sum_zero};
use crate::ledger::{
    Deal, Ledger, LedgerView, Order, order_well_formed, offered_term, reserve_term, held_term, balance_term,
};
use crate::paging::{page, page_of, PagingModel};

verus! {

/// One price level of a book: the price and the shares still unfilled there.
#[derive(Clone, Copy, Debug)]
pub struct OrderByPriceModel {
    pub amount: i64,
    pub price: i32,
}

/// A trade as shown in a quotation.
pub type RecentDealQuotationModel = Deal;

/// The market data of one stock.
#[derive(Debug)]
pub struct QuotationModel {
    pub time_quote: Vec<TimeIntervalQuotationModel>,
    pub recent_deal: Vec<RecentDealQuotationModel>,
    pub ask_prices: Vec<OrderByPriceModel>,
    pub bid_prices: Vec<OrderByPriceModel>,
}

/// The unfilled shares of an order of stock `s` at price `p`.
pub open spec fn at_level(s: usize, p: int) -> spec_fn(Order) -> int {
    |o: Order| if o.stock_id == s && o.price == p { o.unfulfilled as int } else { 0 }
}

/// Whether `book[i]` is an order of stock `s` with shares unfilled.
pub open spec fn live(book: Seq<Order>, s: usize, i: int) -> bool {
    0 <= i < book.len() && book[i].stock_id == s && book[i].unfulfilled > 0
}

/// Whether price `p` is a level of stock `s` in `book`.
pub open spec fn is_level(book: Seq<Order>, s: usize, p: int) -> bool {
    exists|i: int| #[trigger] live(book, s, i) && book[i].price == p
}

/// Whether `q` comes after `last` in the order of levels.
pub open spec fn beyond(ascending: bool, q: int, last: int) -> bool {
    if ascending { q > last } else { q < last }
}

/// `r` is the depth of stock `s` in `book`: every level once, in order
/// (ascending or descending price), with its total unfilled shares.
pub open spec fn is_depth(book: Seq<Order>, s: usize, ascending: bool, r: Seq<OrderByPriceModel>) -> bool {
    &&& forall|k: int| 0 <= k < r.len() ==> is_level(book, s, (#[trigger] r[k]).price as int)
        && r[k].amount == sum_of(book, at_level(s, r[k].price as int))
    &&& forall|k: int, l: int| 0 <= k < l < r.len() ==> beyond(ascending, (#[trigger] r[l]).price as int, (#[trigger] r[k]).price as int)
    &&& forall|i: int| #[trigger] live(book, s, i) ==> exists|k: int| 0 <= k < r.len() && (#[trigger] r[k]).price == book[i].price
}

pub open spec fn prices_positive(book: Seq<Order>) -> bool {
    forall|i: int| 0 <= i < book.len() ==> (#[trigger] book[i]).price > 0 && book[i].unfulfilled >= 0
}

/// The first level after `last`.
fn next_level(book: &Vec<Order>, s: usize, ascending: bool, last: i64) -> (r: Option<i32>)
    ensures
        match r {
            Some(p) => is_level(book@, s, p as int) && beyond(ascending, p as int, last as int)
                && forall|i: int| #[trigger] live(book@, s, i) && beyond(ascending, book@[i].price as int, last as int)
                    ==> !beyond(ascending, p as int, book@[i].price as int),
            None => forall|i: int| #[trigger] live(book@, s, i) ==> !beyond(ascending, book@[i].price as int, last as int),
        },
{
    let mut best: Option<i32> = None;
    let mut i: usize = 0;
    while i < book.len()
        invariant
            i <= book@.len(),
            match best {
                Some(p) => is_level(book@, s, p as int) && beyond(ascending, p as int, last as int)
                    && forall|j: int| 0 <= j < i && #[trigger] live(book@, s, j) && beyond(ascending, book@[j].price as int, last as int)
                        ==> !beyond(ascending, p as int, book@[j].price as int),
                None => forall|j: int| 0 <= j < i && #[trigger] live(book@, s, j) ==> !beyond(ascending, book@[j].price as int, last as int),
            },
        decreases book@.len() - i,
    {
        let o = book[i];
        let after = if ascending { o.price as i64 > last } else { (o.price as i64) < last };
        if o.stock_id == s && o.unfulfilled > 0 && after {
            assert(live(book@, s, i as int));
            let better = match best {
                None => true,
                Some(p) => if ascending { o.price < p } else { o.price > p },
            };
            if better {
                best = Some(o.price);
            }
        }
        i = i + 1;
    }
    best
}

/// The unfilled shares at price `p` of stock `s`.
fn level_sum(book: &Vec<Order>, s: usize, p: i32) -> (r: i64)
    requires
        prices_positive(book@),
        sum_of(book@, at_level(s, p as int)) <= i64::MAX,
    ensures
        r == sum_of(book@, at_level(s, p as int)),
{
    let ghost f = at_level(s, p as int);
    proof {
        assert forall|j: int| 0 <= j < book@.len() implies f(#[trigger] book@[j]) >= 0 by {}
    }
    let mut acc: i64 = 0;
    let mut i: usize = 0;
    while i < book.len()
        invariant
            i <= book@.len(),
            prices_positive(book@),
            f == at_level(s, p as int),
            forall|j: int| 0 <= j < book@.len() ==> f(#[trigger] book@[j]) >= 0,
            sum_of(book@, f) <= i64::MAX,
            acc == sum_of(book@.subrange(0, i as int), f),
        decreases book@.len() - i,
    {
        let o = book[i];
        proof {
            lemma_sum_prefix_le(book@, i + 1, f);
            assert(book@.subrange(0, i + 1).drop_last() == book@.subrange(0, i as int));
        }
        if o.stock_id == s && o.price == p {
            acc = acc + o.unfulfilled;
        }
        i = i + 1;
    }
    assert(book@.subrange(0, book@.len() as int) == book@);
    acc
}

/// The depth of stock `s` in `book`.
fn depth(book: &Vec<Order>, s: usize, ascending: bool) -> (r: Vec<OrderByPriceModel>)
    requires
        prices_positive(book@),
        forall|p: int| #[trigger] sum_of(book@, at_level(s, p)) <= i64::MAX,
    ensures
        is_depth(book@, s, ascending, r@),
{
    let mut r: Vec<OrderByPriceModel> = Vec::new();
    let mut last: i64 = if ascending { 0 } else { i32::MAX as i64 + 1 };
    loop
        invariant
            prices_positive(book@),
            forall|p: int| #[trigger] sum_of(book@, at_level(s, p)) <= i64::MAX,
            0 <= last <= i32::MAX as i64 + 1,
            forall|k: int| 0 <= k < r@.len() ==> is_level(book@, s, (#[trigger] r@[k]).price as int)
                && r@[k].amount == sum_of(book@, at_level(s, r@[k].price as int)),
            forall|k: int, l: int| 0 <= k < l < r@.len() ==> beyond(ascending, (#[trigger] r@[l]).price as int, (#[trigger] r@[k]).price as int),
            forall|k: int| 0 <= k < r@.len() ==> !beyond(ascending, (#[trigger] r@[k]).price as int, last as int),
            r@.len() > 0 ==> r@.last().price == last,
            r@.len() == 0 ==> last == if ascending { 0 } else { i32::MAX as i64 + 1 },
            forall|i: int| #[trigger] live(book@, s, i) && !beyond(ascending, book@[i].price as int, last as int)
                ==> exists|k: int| 0 <= k < r@.len() && (#[trigger] r@[k]).price == book@[i].price,
        ensures
            is_depth(book@, s, ascending, r@),
        decreases (if ascending { i32::MAX as int + 1 - last as int } else { last as int }),
    {
        match next_level(book, s, ascending, last) {
            None => {
                break;
            },
            Some(p) => {
                let amount = level_sum(book, s, p);
                let ghost old_r = r@;
                let ghost old_last = last;
                r.push(OrderByPriceModel { amount, price: p });
                last = p as i64;
                proof {
                    assert(r@.last().price == p);
                    assert forall|i: int| #[trigger] live(book@, s, i) && !beyond(ascending, book@[i].price as int, last as int)
                        implies exists|k: int| 0 <= k < r@.len() && (#[trigger] r@[k]).price == book@[i].price by {
                        if beyond(ascending, book@[i].price as int, old_last as int) {
                            assert(r@[old_r.len() as int].price == book@[i].price);
                        } else {
                            let k = choose|k: int| 0 <= k < old_r.len() && (#[trigger] old_r[k]).price == book@[i].price;
                            assert(r@[k] == old_r[k]);
                        }
                    }
                    assert forall|k: int, l: int| 0 <= k < l < r@.len() implies beyond(ascending, (#[trigger] r@[l]).price as int, (#[trigger] r@[k]).price as int) by {
                        if l < old_r.len() {
                            assert(r@[l] == old_r[l]);
                        }
                        assert(r@[k] == old_r[k]);
                    }
                }
            },
        }
    }
    r
}

/// The asks of stock `stock_id` by price level, cheapest first.
pub fn get_askquote(ledger: &Ledger, stock_id: usize) -> (r: Vec<OrderByPriceModel>)
    requires
        ledger.wf(),
    ensures
        is_depth(ledger@.asks, stock_id, true, r@),
{
    let ghost v = ledger@;
    proof {
        assert(prices_positive(v.asks)) by {
            assert forall|i: int| 0 <= i < v.asks.len() implies (#[trigger] v.asks[i]).price > 0 && v.asks[i].unfulfilled >= 0 by {
                assert(order_well_formed(v.asks[i], v.users.len() as int, v.stocks.len() as int, v.next_order_id));
            }
        }
        assert forall|p: int| #[trigger] sum_of(v.asks, at_level(stock_id, p)) <= i64::MAX by {
            lemma_ask_level_bound(v, stock_id, p);
        }
    }
    depth(&ledger.asks, stock_id, true)
}

/// The bids of stock `stock_id` by price level, dearest first.
pub fn get_bidquote(ledger: &Ledger, stock_id: usize) -> (r: Vec<OrderByPriceModel>)
    requires
        ledger.wf(),
    ensures
        is_depth(ledger@.bids, stock_id, false, r@),
{
    let ghost v = ledger@;
    proof {
        assert(prices_positive(v.bids)) by {
            assert forall|i: int| 0 <= i < v.bids.len() implies (#[trigger] v.bids[i]).price > 0 && v.bids[i].unfulfilled >= 0 by {
                assert(order_well_formed(v.bids[i], v.users.len() as int, v.stocks.len() as int, v.next_order_id));
            }
        }
        assert forall|p: int| #[trigger] sum_of(v.bids, at_level(stock_id, p)) <= i64::MAX by {
            lemma_bid_level_bound(v, stock_id, p);
        }
    }
    depth(&ledger.bids, stock_id, false)
}

/// A level of asks holds no more shares than were ever issued.
proof fn lemma_ask_level_bound(v: LedgerView, s: usize, p: int)
    requires
        v.wf(),
    ensures
        sum_of(v.asks, at_level(s, p)) <= i64::MAX,
{
    assert forall|j: int| 0 <= j < v.asks.len() implies at_level(s, p)(#[trigger] v.asks[j]) <= offered_term(s)(v.asks[j]) by {
        assert(order_well_formed(v.asks[j], v.users.len() as int, v.stocks.len() as int, v.next_order_id));
    }
    lemma_sum_le(v.asks, at_level(s, p), offered_term(s));
    if s < v.stocks.len() {
        assert forall|j: int| 0 <= j < v.holds.len() implies held_term(s)(#[trigger] v.holds[j]) >= 0 by {}
        lemma_sum_nonneg(v.holds, held_term(s));
        assert(v.shares_total(s) == v.issued(s));
        assert(v.new_stocks[s as int].offer_circ <= i64::MAX);
    } else {
        assert forall|j: int| 0 <= j < v.asks.len() implies offered_term(s)(#[trigger] v.asks[j]) == 0 by {
            assert(order_well_formed(v.asks[j], v.users.len() as int, v.stocks.len() as int, v.next_order_id));
        }
        lemma_sum_zero(v.asks, offered_term(s));
    }
}

/// A level of bids holds no more shares than the cash reserved for them.
proof fn lemma_bid_level_bound(v: LedgerView, s: usize, p: int)
    requires
        v.wf(),
    ensures
        sum_of(v.bids, at_level(s, p)) <= i64::MAX,
{
    assert forall|j: int| 0 <= j < v.bids.len() implies at_level(s, p)(#[trigger] v.bids[j]) <= reserve_term()(v.bids[j]) by {
        let o = v.bids[j];
        assert(order_well_formed(o, v.users.len() as int, v.stocks.len() as int, v.next_order_id));
        assert(o.unfulfilled as int <= o.unfulfilled as int * o.price as int) by (nonlinear_arith)
            requires o.unfulfilled >= 0, o.price >= 1;
    }
    lemma_sum_le(v.bids, at_level(s, p), reserve_term());
    assert forall|j: int| 0 <= j < v.users.len() implies balance_term()(#[trigger] v.users[j]) >= 0 by {}
    lemma_sum_nonneg(v.users, balance_term());
}

/// The trades of stock `s` between two users (no IPO purchases), the latest
/// first.
pub open spec fn newest_trades_of(deals: Seq<Deal>, s: usize) -> Seq<Deal>
    decreases deals.len(),
{
    if deals.len() == 0 {
        Seq::empty()
    } else {
        let rest = newest_trades_of(deals.drop_last(), s);
        let d = deals.last();
        if d.stock_id == s && d.sell_user_id is Some {
            seq![d] + rest
        } else {
            rest
        }
    }
}


/// `s` lists the newest first: creation times never increase along it.
pub open spec fn trades_newest_first(s: Seq<Deal>) -> bool {
    forall|i: int, j: int| 0 <= i < j < s.len() ==> (#[trigger] s[i]).created_at >= (#[trigger] s[j]).created_at
}

/// Taken from a time-ordered sequence, the listing is newest first, and
/// each of its items comes from the sequence.
pub proof fn lemma_newest_trades_sorted(s: Seq<Deal>, stock: usize)
    requires
        forall|i: int, j: int| 0 <= i < j < s.len() ==> (#[trigger] s[i]).created_at <= (#[trigger] s[j]).created_at,
    ensures
        trades_newest_first(newest_trades_of(s, stock)),
        forall|k: int| 0 <= k < newest_trades_of(s, stock).len() ==> exists|j: int| 0 <= j < s.len()
            && #[trigger] newest_trades_of(s, stock)[k] == s[j],
    decreases s.len(),
{
    if s.len() > 0 {
        let b = s.drop_last();
        assert forall|i: int, j: int| 0 <= i < j < b.len() implies (#[trigger] b[i]).created_at <= (#[trigger] b[j]).created_at by {
            assert(b[i] == s[i] && b[j] == s[j]);
        }
        lemma_newest_trades_sorted(b, stock);
        let rest = newest_trades_of(b, stock);
        let r = newest_trades_of(s, stock);
        if r.len() == rest.len() + 1 {
            assert(r == seq![s.last()] + rest);
            assert forall|k: int| 0 <= k < r.len() implies exists|j: int| 0 <= j < s.len() && #[trigger] r[k] == s[j] by {
                if k == 0 {
                    assert(r[0] == s[s.len() - 1]);
                } else {
                    assert(r[k] == rest[k - 1]);
                    let j = choose|j: int| 0 <= j < b.len() && #[trigger] rest[k - 1] == b[j];
                    assert(b[j] == s[j]);
                }
            }
            assert forall|i: int, j: int| 0 <= i < j < r.len() implies (#[trigger] r[i]).created_at >= (#[trigger] r[j]).created_at by {
                assert(r[j] == rest[j - 1]);
                if i == 0 {
                    let j2 = choose|j2: int| 0 <= j2 < b.len() && #[trigger] rest[j - 1] == b[j2];
                    assert(b[j2] == s[j2]);
                    assert(s[j2].created_at <= s[s.len() - 1].created_at);
                } else {
                    assert(r[i] == rest[i - 1]);
                }
            }
        } else {
            assert(r == rest);
            assert forall|k: int| 0 <= k < r.len() implies exists|j: int| 0 <= j < s.len() && #[trigger] r[k] == s[j] by {
                let j = choose|j: int| 0 <= j < b.len() && #[trigger] rest[k] == b[j];
                assert(b[j] == s[j]);
            }
        }
    }
}

fn trades_of(deals: &Vec<Deal>, s: usize) -> (r: Vec<Deal>)
    ensures
        r@ == newest_trades_of(deals@, s),
{
    let mut r: Vec<Deal> = Vec::new();
    let mut i: usize = 0;
    while i < deals.len()
        invariant
            i <= deals@.len(),
            r@ == newest_trades_of(deals@.subrange(0, i as int), s),
        decreases deals@.len() - i,
    {
        let d = deals[i];
        assert(deals@.subrange(0, i + 1).drop_last() == deals@.subrange(0, i as int));
        if d.stock_id == s && d.sell_user_id.is_some() {
            r.insert(0, d);
            assert(r@ =~= seq![d] + newest_trades_of(deals@.subrange(0, i as int), s));
        }
        i = i + 1;
    }
    assert(deals@.subrange(0, deals@.len() as int) == deals@);
    r
}

/// The five latest trades of stock `stock_id` between two users, the latest
/// first.
pub fn get_dealquote(ledger: &Ledger, stock_id: usize) -> (r: Vec<Deal>)
    requires
        ledger.wf(),
    ensures
        r@ == page_of(newest_trades_of(ledger@.deals, stock_id), 0, 5),
        trades_newest_first(r@),
{
    let all = trades_of(&ledger.deals, stock_id);
    let r = page(&all, PagingModel { offset: Some(0), limit: Some(5), order: None });
    proof {
        lemma_newest_trades_sorted(ledger@.deals, stock_id);
        assert forall|i: int, j: int| 0 <= i < j < r@.len() implies (#[trigger] r@[i]).created_at >= (#[trigger] r@[j]).created_at by {
            assert(r@[i] == all@[i] && r@[j] == all@[j]);
        }
    }
    r
}

/// The price of the latest trade of stock `s`, if it ever traded.
pub open spec fn last_price(deals: Seq<Deal>, s: usize) -> Option<i32>
    decreases deals.len(),
{
    if deals.len() == 0 {
        None
    } else if deals.last().stock_id == s {
        Some(deals.last().price)
    } else {
        last_price(deals.drop_last(), s)
    }
}

fn latest_price(deals: &Vec<Deal>, s: usize) -> (r: Option<i32>)
    ensures
        r == last_price(deals@, s),
{
    let mut r: Option<i32> = None;
    let mut i: usize = 0;
    while i < deals.len()
        invariant
            i <= deals@.len(),
            r == last_price(deals@.subrange(0, i as int), s),
        decreases deals@.len() - i,
    {
        assert(deals@.subrange(0, i + 1).drop_last() == deals@.subrange(0, i as int));
        if deals[i].stock_id == s {
            r = Some(deals[i].price);
        }
        i = i + 1;
    }
    assert(deals@.subrange(0, deals@.len() as int) == deals@);
    r
}

/// The price of the latest trade of stock `s` made in `[lo, hi)`.
pub open spec fn bucket_price(deals: Seq<Deal>, s: usize, lo: int, hi: int) -> Option<i32>
    decreases deals.len(),
{
    if deals.len() == 0 {
        None
    } else if deals.last().stock_id == s && lo <= deals.last().created_at < hi {
        Some(deals.last().price)
    } else {
        bucket_price(deals.drop_last(), s, lo, hi)
    }
}

/// A time bucket and the price of its latest trade, `None` when nothing
/// traded in it.
#[derive(Clone, Copy, Debug)]
pub struct TimeIntervalQuotationModel {
    pub time: i64,
    pub price: Option<i32>,
}

/// The prices of stock `stock_id` over `count` buckets of `width` starting at
/// `start`: bucket `k` covers `[start + k * width, start + (k + 1) * width)`
/// and carries the price of the latest trade in it. Buckets whose start does
/// not fit in `i64` are left out.
pub fn get_timequote(ledger: &Ledger, stock_id: usize, start: i64, width: i64, count: usize) -> (r: Vec<TimeIntervalQuotationModel>)
    requires
        width > 0,
    ensures
        r@.len() <= count,
        forall|k: int| 0 <= k < r@.len() ==> (#[trigger] r@[k]).time == start + k * width
            && r@[k].price == bucket_price(ledger@.deals, stock_id, start + k * width, start + (k + 1) * width),
        r@.len() < count ==> start + r@.len() * width > i64::MAX,
{
    let mut r: Vec<TimeIntervalQuotationModel> = Vec::new();
    let mut k: usize = 0;
    while k < count
        invariant
            width > 0,
            k <= count,
            r@.len() == k,
            forall|j: int| 0 <= j < k ==> (#[trigger] r@[j]).time == start + j * width
                && r@[j].price == bucket_price(ledger@.deals, stock_id, start + j * width, start + (j + 1) * width),
        decreases count - k,
    {
        proof {
            assert(0 <= k as int * width as int <= usize::MAX as int * i64::MAX as int) by (nonlinear_arith)
                requires 0 <= k <= usize::MAX, 0 < width <= i64::MAX;
            assert((k as int + 1) * width as int == k as int * width as int + width as int) by (nonlinear_arith);
        }
        let lo: i128 = start as i128 + k as i128 * width as i128;
        let hi: i128 = lo + width as i128;
        if lo > i64::MAX as i128 {
            return r;
        }
        let mut price: Option<i32> = None;
        let mut i: usize = 0;
        while i < ledger.deals.len()
            invariant
                i <= ledger@.deals.len(),
                price == bucket_price(ledger@.deals.subrange(0, i as int), stock_id, lo as int, hi as int),
            decreases ledger@.deals.len() - i,
        {
            assert(ledger@.deals.subrange(0, i + 1).drop_last() == ledger@.deals.subrange(0, i as int));
            let d = ledger.deals[i];
            if d.stock_id == stock_id && lo <= d.created_at as i128 && (d.created_at as i128) < hi {
                price = Some(d.price);
            }
            i = i + 1;
        }
        assert(ledger@.deals.subrange(0, ledger@.deals.len() as int) == ledger@.deals);
        r.push(TimeIntervalQuotationModel { time: lo as i64, price });
        k = k + 1;
    }
    r
}

/// The latest trade price of a stock, if it ever traded.
#[derive(Clone, Copy, Debug)]
pub struct PriceModel {
    pub price: Option<i32>,
}

/// The latest trade price of each of `stock_ids`, in the same order.
pub fn get_prices(ledger: &Ledger, stock_ids: &Vec<usize>) -> (r: Vec<PriceModel>)
    ensures
        r@.len() == stock_ids@.len(),
        forall|k: int| 0 <= k < r@.len() ==> (#[trigger] r@[k]).price == last_price(ledger@.deals, stock_ids@[k]),
{
    let mut r: Vec<PriceModel> = Vec::new();
    let mut k: usize = 0;
    while k < stock_ids.len()
        invariant
            k <= stock_ids@.len(),
            r@.len() == k,
            forall|j: int| 0 <= j < k ==> (#[trigger] r@[j]).price == last_price(ledger@.deals, stock_ids@[j]),
        decreases stock_ids@.len() - k,
    {
        let price = latest_price(&ledger.deals, stock_ids[k]);
        r.push(PriceModel { price });
        k = k + 1;
    }
    r
}

/// The market data of stock `stock_id`: its prices over `count` buckets of
/// `width` from `start`, its latest trades and both books by price level.
pub fn get_quotation(ledger: &Ledger, stock_id: usize, start: i64, width: i64, count: usize) -> (r: QuotationModel)
    requires
        ledger.wf(),
        width > 0,
    ensures
        trades_newest_first(r.recent_deal@),
        r.time_quote@.len() <= count,
        forall|k: int| 0 <= k < r.time_quote@.len() ==> (#[trigger] r.time_quote@[k]).time == start + k * width
            && r.time_quote@[k].price == bucket_price(ledger@.deals, stock_id, start + k * width, start + (k + 1) * width),
        r.time_quote@.len() < count ==> start + r.time_quote@.len() * width > i64::MAX,
        r.recent_deal@ == page_of(newest_trades_of(ledger@.deals, stock_id), 0, 5),
        is_depth(ledger@.asks, stock_id, true, r.ask_prices@),
        is_depth(ledger@.bids, stock_id, false, r.bid_prices@),
{
    QuotationModel {
        time_quote: get_timequote(ledger, stock_id, start, width, count),
        recent_deal: get_dealquote(ledger, stock_id),
        ask_prices: get_askquote(ledger, stock_id),
        bid_prices: get_bidquote(ledger, stock_id),
    }
}

} // verus!
