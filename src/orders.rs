//! Order admission, the matching engine and cancellation.
use vstd::prelude::*;
use crate::sums::{sum_of, lemma_sum_update, lemma_sum_bounds_term};
use crate::ledger::{
    stamp, advance,
    AskOrBid, Order, Deal, LedgerView, Ledger, credit_user, credit_hold, holds_key, balance_term,
    reserve_term, held_term, offered_term, order_well_formed, book_well_formed,
};
use crate::book::{crosses, next_candidate, best_candidate, is_next};
use crate::errors::{EngineError, Refusal, insufficient};

verus! {

pub open spec fn min_int(a: int, b: int) -> int {
    if a < b { a } else { b }
}

/// The quantity traded when the incoming `own[ni]` meets the resting `other[ci]`.
pub open spec fn fill_of(v: LedgerView, side: AskOrBid, ni: int, ci: int) -> int {
    min_int(v.book(side)[ni].unfulfilled as int, v.book(side.opposite())[ci].unfulfilled as int)
}

/// The buyer of a trade between an incoming order of `side` and a resting one.
pub open spec fn buyer_of(side: AskOrBid, inc: Order, c: Order) -> usize {
    match side {
        AskOrBid::Bid => inc.user_id,
        AskOrBid::Ask => c.user_id,
    }
}

pub open spec fn seller_of(side: AskOrBid, inc: Order, c: Order) -> usize {
    match side {
        AskOrBid::Bid => c.user_id,
        AskOrBid::Ask => inc.user_id,
    }
}

/// The cash an incoming bid reserved beyond what it pays at the resting
/// ask's price; an incoming ask reserved no cash.
pub open spec fn refund_of(side: AskOrBid, inc: Order, c: Order, fill: int) -> int {
    match side {
        AskOrBid::Bid => fill * (inc.price - c.price),
        AskOrBid::Ask => 0,
    }
}

/// One trade between the incoming `book(side)[ni]` and the resting
/// `book(side.opposite())[ci]`: both lose the fill from their unfulfilled
/// counts, the seller is paid at the resting price, an incoming bid gets back
/// what it reserved above that price, the trade is recorded and the buyer's
/// holding grows by the fill.
pub open spec fn fill_step(v: LedgerView, side: AskOrBid, ni: int, ci: int, now: i64) -> LedgerView {
    let inc = v.book(side)[ni];
    let c = v.book(side.opposite())[ci];
    let fill = fill_of(v, side, ni, ci);
    let inc2 = Order { unfulfilled: (inc.unfulfilled - fill) as i64, updated_at: now, ..inc };
    let c2 = Order { unfulfilled: (c.unfulfilled - fill) as i64, updated_at: now, ..c };
    let buyer = buyer_of(side, inc, c);
    let seller = seller_of(side, inc, c);
    let deal = Deal {
        id: v.deals.len() as u64,
        buy_user_id: buyer,
        sell_user_id: Some(seller),
        stock_id: inc.stock_id,
        price: c.price,
        amount: fill as i64,
        created_at: now,
    };
    LedgerView {
        users: credit_user(
            credit_user(v.users, seller as int, fill * c.price),
            buyer as int,
            refund_of(side, inc, c, fill),
        ),
        holds: credit_hold(v.holds, buyer, inc.stock_id, fill, now),
        asks: match side {
            AskOrBid::Bid => v.asks.update(ci, c2),
            AskOrBid::Ask => v.asks.update(ni, inc2),
        },
        bids: match side {
            AskOrBid::Bid => v.bids.update(ni, inc2),
            AskOrBid::Ask => v.bids.update(ci, c2),
        },
        deals: v.deals.push(deal),
        ..v
    }
}

/// Whether the incoming `book(side)[ni]` may trade with `book(side.opposite())[ci]`.
pub open spec fn step_ok(v: LedgerView, side: AskOrBid, ni: int, ci: int) -> bool {
    let inc = v.book(side)[ni];
    &&& 0 <= ni < v.book(side).len()
    &&& 0 <= ci < v.book(side.opposite()).len()
    &&& inc.unfulfilled > 0
    &&& crosses(side, inc.stock_id, inc.price, v.book(side.opposite())[ci])
}

/// Matching the incoming `book(side)[ni]` against the opposite book until it
/// is filled or nothing crosses: the final ledger and the quantity traded.
pub open spec fn run_match(v: LedgerView, side: AskOrBid, ni: int, now: i64) -> (LedgerView, int)
    decreases (if 0 <= ni < v.book(side).len() { v.book(side)[ni].unfulfilled as int } else { 0 }),
{
    let own = v.book(side);
    if 0 <= ni < own.len() && own[ni].unfulfilled > 0 {
        match next_candidate(v.book(side.opposite()), side, own[ni].stock_id, own[ni].price) {
            Some(ci) => {
                if step_ok(v, side, ni, ci) {
                    let r = run_match(fill_step(v, side, ni, ci, now), side, ni, now);
                    (r.0, fill_of(v, side, ni, ci) + r.1)
                } else {
                    (v, 0)
                }
            },
            None => (v, 0),
        }
    } else {
        (v, 0)
    }
}

/// A limit order as submitted: its side, stock, price in cents and volume.
#[derive(Clone, Copy, Debug)]
pub struct OrderModel {
    pub entype: AskOrBid,
    pub stock_id: usize,
    pub price: i32,
    pub volume: i64,
}

/// Why an order of `user_id` is refused, or `None` when it is admitted: a
/// price or volume that is not positive, or a stock that does not exist or is
/// not listed, is a bad request; an unknown user is not found; a bid whose cost
/// `price * volume` exceeds the balance lacks the difference, an ask whose
/// volume exceeds the holding lacks the difference.
pub open spec fn order_refusal(v: LedgerView, user_id: usize, order: OrderModel) -> Option<Refusal> {
    if order.price <= 0 || order.volume <= 0 {
        Some(Refusal::BadRequest)
    } else if order.stock_id >= v.stocks.len() || !v.stocks[order.stock_id as int].into_market {
        Some(Refusal::BadRequest)
    } else if user_id >= v.users.len() {
        Some(Refusal::NotFound)
    } else if v.next_order_id == u64::MAX {
        Some(Refusal::Internal)
    } else {
        match order.entype {
            AskOrBid::Bid => {
                let lack = order.price * order.volume - v.users[user_id as int].balance;
                if lack <= 0 {
                    None
                } else if lack <= i64::MAX {
                    Some(Refusal::Insufficient(lack))
                } else {
                    Some(Refusal::Internal)
                }
            },
            AskOrBid::Ask => {
                let lack = order.volume - v.hold_of(user_id, order.stock_id);
                if lack <= 0 {
                    None
                } else {
                    Some(Refusal::Insufficient(lack))
                }
            },
        }
    }
}

/// The resting order an admitted order becomes.
pub open spec fn placed(v: LedgerView, user_id: usize, order: OrderModel, now: i64) -> Order {
    Order {
        id: v.next_order_id,
        user_id,
        stock_id: order.stock_id,
        price: order.price,
        volume: order.volume,
        unfulfilled: order.volume,
        created_at: now,
        updated_at: now,
    }
}

/// The ledger after admission: a bid's cost leaves the balance, an ask's
/// volume leaves the holding, and the order rests at the end of its book.
pub open spec fn reserve_and_rest(v: LedgerView, user_id: usize, order: OrderModel, now: i64) -> LedgerView {
    let o = placed(v, user_id, order, now);
    match order.entype {
        AskOrBid::Bid => LedgerView {
            users: credit_user(v.users, user_id as int, -(order.price * order.volume)),
            bids: v.bids.push(o),
            next_order_id: (v.next_order_id + 1) as u64,
            ..v
        },
        AskOrBid::Ask => LedgerView {
            holds: credit_hold(v.holds, user_id, order.stock_id, -order.volume, now),
            asks: v.asks.push(o),
            next_order_id: (v.next_order_id + 1) as u64,
            ..v
        },
    }
}

/// What submitting `order` at `now` does: the ledger after matching and the
/// quantity traded. The order and its trades are stamped with `now`, or
/// with the ledger's clock when that is later.
pub open spec fn submit(v: LedgerView, user_id: usize, order: OrderModel, now: i64) -> (LedgerView, int) {
    let t = stamp(v, now);
    let a = reserve_and_rest(advance(v, now), user_id, order, t);
    run_match(a, order.entype, a.book(order.entype).len() - 1, t)
}

pub proof fn lemma_book_push(b: Seq<Order>, o: Order, n_users: int, n_stocks: int, next_id: u64)
    requires
        book_well_formed(b, n_users, n_stocks, next_id),
        next_id < u64::MAX,
        o.id == next_id,
        order_well_formed(o, n_users, n_stocks, (next_id + 1) as u64),
    ensures
        book_well_formed(b.push(o), n_users, n_stocks, (next_id + 1) as u64),
{
    let c = b.push(o);
    assert forall|i: int| 0 <= i < c.len() implies order_well_formed(#[trigger] c[i], n_users, n_stocks, (next_id + 1) as u64) by {
        if i < b.len() {
            assert(order_well_formed(b[i], n_users, n_stocks, next_id));
        }
    }
    assert forall|i: int, j: int| 0 <= i < j < c.len() implies (#[trigger] c[i]).id < (#[trigger] c[j]).id by {
        assert(order_well_formed(b[i], n_users, n_stocks, next_id));
        if j < b.len() {
            assert(b[i].id < b[j].id);
        }
    }
}

pub proof fn lemma_book_next(b: Seq<Order>, n_users: int, n_stocks: int, next_id: u64)
    requires
        book_well_formed(b, n_users, n_stocks, next_id),
        next_id < u64::MAX,
    ensures
        book_well_formed(b, n_users, n_stocks, (next_id + 1) as u64),
{
    assert forall|i: int| 0 <= i < b.len() implies order_well_formed(#[trigger] b[i], n_users, n_stocks, (next_id + 1) as u64) by {
        assert(order_well_formed(b[i], n_users, n_stocks, next_id));
    }
}

/// Admission keeps the invariants, the cash held for users and every stock's
/// share total.
pub proof fn lemma_reserve_and_rest(v: LedgerView, user_id: usize, order: OrderModel, now: i64)
    requires
        v.wf(),
        now == v.clock,
        order_refusal(v, user_id, order) is None,
    ensures
        ({
            let a = reserve_and_rest(v, user_id, order, now);
            &&& a.wf()
            &&& a.cash_total() == v.cash_total()
            &&& forall|t: usize| #[trigger] a.shares_total(t) == v.shares_total(t)
            &&& a.book(order.entype).len() == v.book(order.entype).len() + 1
            &&& a.book(order.entype).last() == placed(v, user_id, order, now)
        }),
{
    let a = reserve_and_rest(v, user_id, order, now);
    let o = placed(v, user_id, order, now);
    let n = v.users.len() as int;
    let m = v.stocks.len() as int;
    let cost = order.price * order.volume;
    assert(cost > 0) by (nonlinear_arith)
        requires cost == order.price * order.volume, order.price > 0, order.volume > 0;
    assert(order_well_formed(o, n, m, (v.next_order_id + 1) as u64));
    match order.entype {
        AskOrBid::Bid => {
            crate::ledger::lemma_credit_user_sum(v.users, user_id as int, -cost);
            crate::sums::lemma_sum_push(v.bids, o, reserve_term());
            assert(reserve_term()(o) == cost) by (nonlinear_arith)
                requires reserve_term()(o) == o.unfulfilled as int * o.price as int, o.unfulfilled == order.volume, o.price == order.price, cost == order.price * order.volume;
            lemma_book_push(v.bids, o, n, m, v.next_order_id);
            lemma_book_next(v.asks, n, m, v.next_order_id);
            crate::ledger::lemma_book_in_time_push(v.bids, o, v.clock);
            assert(a.users_wf());
            assert forall|t: usize| #[trigger] a.shares_total(t) == v.shares_total(t) by {
                assert(a.holds == v.holds);
                assert(a.asks == v.asks);
            }
            assert(a.holds_wf());
            assert(a.books_wf());
            assert(a.stocks_wf());
            assert(a.cash_total() == v.cash_total());
        },
        AskOrBid::Ask => {
            crate::ledger::lemma_credit_hold(v, user_id, order.stock_id, -order.volume, now);
            let w = LedgerView { holds: credit_hold(v.holds, user_id, order.stock_id, -order.volume, now), ..v };
            assert(a.holds == w.holds);
            assert forall|t: usize| #[trigger] a.shares_total(t) == v.shares_total(t) by {
                crate::sums::lemma_sum_push(v.asks, o, offered_term(t));
                assert(sum_of(w.holds, held_term(t)) == sum_of(v.holds, held_term(t)) + if t == order.stock_id { -order.volume } else { 0 });
            }
            lemma_book_push(v.asks, o, n, m, v.next_order_id);
            lemma_book_next(v.bids, n, m, v.next_order_id);
            crate::ledger::lemma_book_in_time_push(v.asks, o, v.clock);
            assert(a.holds_wf());
            assert(a.books_wf());
            assert(a.users_wf());
            assert(a.stocks_wf());
            assert(a.cash_total() == v.cash_total());
        },
    }
}

/// A trade keeps the invariants, the cash held for users and every stock's
/// share total.
pub proof fn lemma_fill_step(v: LedgerView, side: AskOrBid, ni: int, ci: int, now: i64)
    requires
        v.wf(),
        now == v.clock,
        step_ok(v, side, ni, ci),
    ensures
        ({
            let w = fill_step(v, side, ni, ci, now);
            let inc = v.book(side)[ni];
            let c = v.book(side.opposite())[ci];
            let fill = fill_of(v, side, ni, ci);
            &&& w.wf()
            &&& w.cash_total() == v.cash_total()
            &&& forall|t: usize| #[trigger] w.shares_total(t) == v.shares_total(t)
            &&& 0 < fill <= inc.unfulfilled
            &&& 0 <= fill * c.price
            &&& 0 <= refund_of(side, inc, c, fill) <= fill * inc.price <= i64::MAX
            &&& v.users[seller_of(side, inc, c) as int].balance + fill * c.price <= i64::MAX
            &&& credit_user(v.users, seller_of(side, inc, c) as int, fill * c.price)[buyer_of(side, inc, c) as int].balance
                + refund_of(side, inc, c, fill) <= i64::MAX
            &&& 0 <= v.hold_of(buyer_of(side, inc, c), inc.stock_id) + fill <= i64::MAX
        }),
{
    let inc = v.book(side)[ni];
    let c = v.book(side.opposite())[ci];
    let fill = fill_of(v, side, ni, ci);
    let w = fill_step(v, side, ni, ci, now);
    let buyer = buyer_of(side, inc, c);
    let seller = seller_of(side, inc, c);
    let pay = fill * c.price;
    let refund = refund_of(side, inc, c, fill);
    let bid = match side { AskOrBid::Bid => inc, AskOrBid::Ask => c };
    let bi = match side { AskOrBid::Bid => ni, AskOrBid::Ask => ci };
    let ai = match side { AskOrBid::Bid => ci, AskOrBid::Ask => ni };
    let ask = v.asks[ai];
    assert(v.bids[bi] == bid);
    assert(order_well_formed(inc, v.users.len() as int, v.stocks.len() as int, v.next_order_id));
    assert(order_well_formed(c, v.users.len() as int, v.stocks.len() as int, v.next_order_id));
    assert(0 < fill <= bid.unfulfilled);
    assert(0 <= refund);
    assert(pay + refund == fill * bid.price) by (nonlinear_arith)
        requires
            pay == fill * c.price,
            refund == (if side == AskOrBid::Bid { fill * (inc.price - c.price) } else { 0 }),
            side == AskOrBid::Bid ==> bid == inc,
            side == AskOrBid::Ask ==> bid == c;
    assert(0 <= pay) by (nonlinear_arith)
        requires pay == fill * c.price, fill > 0, c.price > 0;
    assert(fill * bid.price <= bid.unfulfilled * bid.price) by (nonlinear_arith)
        requires 0 < fill <= bid.unfulfilled, bid.price > 0;
    let bid2 = Order { unfulfilled: (bid.unfulfilled - fill) as i64, updated_at: now, ..bid };
    assert(reserve_term()(bid2) == reserve_term()(bid) - fill * bid.price) by (nonlinear_arith)
        requires
            reserve_term()(bid2) == bid2.unfulfilled as int * bid2.price as int,
            reserve_term()(bid) == bid.unfulfilled as int * bid.price as int,
            bid2.unfulfilled == bid.unfulfilled - fill,
            bid2.price == bid.price;
    // cash
    lemma_sum_bounds_term(v.users, seller as int, balance_term());
    lemma_sum_bounds_term(v.bids, bi, reserve_term());
    lemma_sum_update(v.bids, bi, bid2, reserve_term());
    assert(w.bids == v.bids.update(bi, bid2));
    crate::ledger::lemma_credit_user_sum(v.users, seller as int, pay);
    let users1 = credit_user(v.users, seller as int, pay);
    assert forall|j: int| 0 <= j < users1.len() implies balance_term()(#[trigger] users1[j]) >= 0 by {}
    lemma_sum_bounds_term(users1, buyer as int, balance_term());
    crate::ledger::lemma_credit_user_sum(users1, buyer as int, refund);
    assert(w.cash_total() == v.cash_total());
    // shares
    let ask2 = Order { unfulfilled: (ask.unfulfilled - fill) as i64, updated_at: now, ..ask };
    assert(w.asks == v.asks.update(ai, ask2));
    assert(ask.stock_id == inc.stock_id);
    let hv = v.hold_of(buyer, inc.stock_id);
    assert(0 <= hv <= sum_of(v.holds, held_term(inc.stock_id))) by {
        if exists|i: int| #[trigger] holds_key(v.holds, i, buyer, inc.stock_id) {
            let i = choose|i: int| #[trigger] holds_key(v.holds, i, buyer, inc.stock_id);
            crate::ledger::lemma_hold_row_unique(v, i, buyer, inc.stock_id);
            assert forall|j: int| 0 <= j < v.holds.len() implies held_term(inc.stock_id)(#[trigger] v.holds[j]) >= 0 by {}
            lemma_sum_bounds_term(v.holds, i, held_term(inc.stock_id));
        } else {
            assert forall|j: int| 0 <= j < v.holds.len() implies held_term(inc.stock_id)(#[trigger] v.holds[j]) >= 0 by {}
            crate::sums::lemma_sum_nonneg(v.holds, held_term(inc.stock_id));
            assert(!exists|k: int| 0 <= k < v.holds.len() && #[trigger] v.holds[k].user_id == buyer && v.holds[k].stock_id == inc.stock_id) by {
                if exists|k: int| 0 <= k < v.holds.len() && #[trigger] v.holds[k].user_id == buyer && v.holds[k].stock_id == inc.stock_id {
                    let k = choose|k: int| 0 <= k < v.holds.len() && #[trigger] v.holds[k].user_id == buyer && v.holds[k].stock_id == inc.stock_id;
                    assert(holds_key(v.holds, k, buyer, inc.stock_id));
                }
            }
        }
    }
    assert forall|j: int| 0 <= j < v.asks.len() implies offered_term(inc.stock_id)(#[trigger] v.asks[j]) >= 0 by {
        assert(order_well_formed(v.asks[j], v.users.len() as int, v.stocks.len() as int, v.next_order_id));
    }
    lemma_sum_bounds_term(v.asks, ai, offered_term(inc.stock_id));
    assert(v.shares_total(inc.stock_id) == v.issued(inc.stock_id));
    assert(hv + fill <= i64::MAX);
    crate::ledger::lemma_credit_hold(v, buyer, inc.stock_id, fill, now);
    assert forall|t: usize| #[trigger] w.shares_total(t) == v.shares_total(t) by {
        lemma_sum_update(v.asks, ai, ask2, offered_term(t));
    }
    // books
    assert(book_well_formed(w.asks, w.users.len() as int, w.stocks.len() as int, w.next_order_id)) by {
        assert forall|i: int| 0 <= i < w.asks.len() implies order_well_formed(#[trigger] w.asks[i], w.users.len() as int, w.stocks.len() as int, w.next_order_id) by {
            assert(order_well_formed(v.asks[i], v.users.len() as int, v.stocks.len() as int, v.next_order_id));
        }
        assert forall|i: int, j: int| 0 <= i < j < w.asks.len() implies (#[trigger] w.asks[i]).id < (#[trigger] w.asks[j]).id by {
            assert(v.asks[i].id < v.asks[j].id);
        }
    }
    assert(book_well_formed(w.bids, w.users.len() as int, w.stocks.len() as int, w.next_order_id)) by {
        assert forall|i: int| 0 <= i < w.bids.len() implies order_well_formed(#[trigger] w.bids[i], w.users.len() as int, w.stocks.len() as int, w.next_order_id) by {
            assert(order_well_formed(v.bids[i], v.users.len() as int, v.stocks.len() as int, v.next_order_id));
        }
        assert forall|i: int, j: int| 0 <= i < j < w.bids.len() implies (#[trigger] w.bids[i]).id < (#[trigger] w.bids[j]).id by {
            assert(v.bids[i].id < v.bids[j].id);
        }
    }
    assert(w.users_wf());
    assert(w.stocks_wf());
    assert(fill * inc.price <= fill * bid.price) by (nonlinear_arith)
        requires
            fill > 0,
            side == AskOrBid::Bid ==> bid.price == inc.price,
            side == AskOrBid::Ask ==> bid.price >= inc.price;
    assert(refund <= fill * inc.price) by (nonlinear_arith)
        requires
            fill > 0, c.price > 0, inc.price > 0,
            refund == (if side == AskOrBid::Bid { fill * (inc.price - c.price) } else { 0 });
    assert(fill * bid.price <= sum_of(v.bids, reserve_term()));
    crate::ledger::lemma_book_in_time_update(v.asks, ai, ask2, v.clock);
    crate::ledger::lemma_book_in_time_update(v.bids, bi, bid2, v.clock);
    crate::ledger::lemma_deals_in_time_push(v.deals, w.deals.last(), v.clock);
    assert(w.deals == v.deals.push(w.deals.last()));
}

impl Ledger {
    /// Executes one trade between the incoming `book(side)[ni]` and the
    /// resting `book(side.opposite())[ci]`; returns the quantity traded.
    pub(crate) fn apply_fill(&mut self, side: AskOrBid, ni: usize, ci: usize, now: i64) -> (fill: i64)
        requires
            old(self).wf(),
            now == old(self)@.clock,
            step_ok(old(self)@, side, ni as int, ci as int),
        ensures
            final(self)@ == fill_step(old(self)@, side, ni as int, ci as int, now),
            fill == fill_of(old(self)@, side, ni as int, ci as int),
            final(self).wf(),
    {
        proof {
            lemma_fill_step(self@, side, ni as int, ci as int, now);
        }
        let ghost v = self@;
        let (inc, c) = match side {
            AskOrBid::Bid => (self.bids[ni], self.asks[ci]),
            AskOrBid::Ask => (self.asks[ni], self.bids[ci]),
        };
        let fill = if inc.unfulfilled < c.unfulfilled { inc.unfulfilled } else { c.unfulfilled };
        let inc2 = Order { unfulfilled: inc.unfulfilled - fill, updated_at: now, ..inc };
        let c2 = Order { unfulfilled: c.unfulfilled - fill, updated_at: now, ..c };
        let (buyer, seller) = match side {
            AskOrBid::Bid => {
                self.bids[ni] = inc2;
                self.asks[ci] = c2;
                (inc.user_id, c.user_id)
            },
            AskOrBid::Ask => {
                self.asks[ni] = inc2;
                self.bids[ci] = c2;
                (c.user_id, inc.user_id)
            },
        };
        let pay = fill * (c.price as i64);
        let refund = match side {
            AskOrBid::Bid => fill * ((inc.price - c.price) as i64),
            AskOrBid::Ask => 0,
        };
        self.credit_balance(seller, pay);
        self.credit_balance(buyer, refund);
        let id = self.deals.len() as u64;
        self.deals.push(
            Deal {
                id,
                buy_user_id: buyer,
                sell_user_id: Some(seller),
                stock_id: inc.stock_id,
                price: c.price,
                amount: fill,
                created_at: now,
            },
        );
        self.credit_holding(buyer, inc.stock_id, fill, now);
        assert(self@.asks =~= fill_step(v, side, ni as int, ci as int, now).asks);
        assert(self@.bids =~= fill_step(v, side, ni as int, ci as int, now).bids);
        assert(self@ == fill_step(v, side, ni as int, ci as int, now));
        fill
    }
}

/// Submits a limit order of user `user_id` at time `now`: the order is
/// admitted (its cash or shares reserved), rests on its book, and is matched
/// against the opposite book until it is filled or nothing crosses. Returns
/// the quantity traded. The order and its trades are stamped with `now`,
/// or with the ledger's clock when that is later, so that orders and trades
/// are recorded in time order. A refused order changes nothing.
pub fn new_order(ledger: &mut Ledger, user_id: usize, order: OrderModel, now: i64) -> (r: Result<i64, EngineError>)
    requires
        old(ledger).wf(),
    ensures
        final(ledger).wf(),
        match r {
            Ok(n) => order_refusal(old(ledger)@, user_id, order) is None
                && (final(ledger)@, n as int) == submit(old(ledger)@, user_id, order, now),
            Err(e) => order_refusal(old(ledger)@, user_id, order) == Some(e.refusal())
                && final(ledger)@ == old(ledger)@,
        },
        final(ledger)@.cash_total() == old(ledger)@.cash_total(),
        forall|s: usize| #[trigger] final(ledger)@.shares_total(s) == old(ledger)@.shares_total(s),
{
    if order.price <= 0 || order.volume <= 0 {
        return Err(EngineError::BadRequest("price and volume must be positive".to_owned()));
    }
    if order.stock_id >= ledger.stocks.len() || !ledger.stocks[order.stock_id].into_market {
        return Err(EngineError::BadRequest("the stock is not listed".to_owned()));
    }
    if user_id >= ledger.users.len() {
        return Err(EngineError::NotFound("no such user".to_owned()));
    }
    if ledger.next_order_id == u64::MAX {
        return Err(EngineError::InternalError("order ids are exhausted".to_owned()));
    }
    let side = order.entype;
    let t: i64 = if now < ledger.clock { ledger.clock } else { now };
    let o = Order {
        id: ledger.next_order_id,
        user_id,
        stock_id: order.stock_id,
        price: order.price,
        volume: order.volume,
        unfulfilled: order.volume,
        created_at: t,
        updated_at: t,
    };
    let ghost v0 = ledger@;
    match side {
        AskOrBid::Bid => {
            proof {
                assert(0 < order.price as int * order.volume as int <= i32::MAX as int * i64::MAX as int) by (nonlinear_arith)
                    requires 0 < order.price <= i32::MAX, 0 < order.volume <= i64::MAX;
            }
            let cost = order.price as i128 * order.volume as i128;
            let balance = ledger.users[user_id].balance as i128;
            if cost > balance {
                let lack = cost - balance;
                if lack > i64::MAX as i128 {
                    return Err(EngineError::InternalError("the deficit overflows".to_owned()));
                }
                return Err(insufficient(lack as i64, "the balance does not cover the order"));
            }
            proof {
                crate::ledger::lemma_advance(v0, now);
                lemma_reserve_and_rest(advance(v0, now), user_id, order, t);
            }
            ledger.clock = t;
            ledger.credit_balance(user_id, -(cost as i64));
            ledger.bids.push(o);
        },
        AskOrBid::Ask => {
            let held = ledger.holding(user_id, order.stock_id);
            if held < order.volume {
                return Err(insufficient(order.volume - held, "the holding does not cover the order"));
            }
            proof {
                crate::ledger::lemma_advance(v0, now);
                lemma_reserve_and_rest(advance(v0, now), user_id, order, t);
            }
            ledger.clock = t;
            ledger.credit_holding(user_id, order.stock_id, -order.volume, t);
            ledger.asks.push(o);
        },
    }
    ledger.next_order_id = ledger.next_order_id + 1;
    assert(ledger@ == reserve_and_rest(advance(v0, now), user_id, order, t));
    let ni: usize = match side {
        AskOrBid::Bid => ledger.bids.len() - 1,
        AskOrBid::Ask => ledger.asks.len() - 1,
    };
    let ghost a = ledger@;
    let ghost target = run_match(a, side, ni as int, t);
    let mut done: i64 = 0;
    loop
        invariant
            ledger.wf(),
            ledger@.clock == t,
            0 <= ni < ledger@.book(side).len(),
            run_match(ledger@, side, ni as int, t).0 == target.0,
            run_match(ledger@, side, ni as int, t).1 + done == target.1,
            0 <= done,
            done + ledger@.book(side)[ni as int].unfulfilled == order.volume,
            ledger@.cash_total() == v0.cash_total(),
            forall|s: usize| #[trigger] ledger@.shares_total(s) == v0.shares_total(s),
        ensures
            run_match(ledger@, side, ni as int, t) == (ledger@, 0int),
        decreases ledger@.book(side)[ni as int].unfulfilled,
    {
        let inc = match side {
            AskOrBid::Bid => ledger.bids[ni],
            AskOrBid::Ask => ledger.asks[ni],
        };
        if inc.unfulfilled == 0 {
            break;
        }
        let cand = match side {
            AskOrBid::Bid => best_candidate(&ledger.asks, side, inc.stock_id, inc.price),
            AskOrBid::Ask => best_candidate(&ledger.bids, side, inc.stock_id, inc.price),
        };
        match cand {
            None => {
                break;
            },
            Some(ci) => {
                assert(is_next(ledger@.book(side.opposite()), side, inc.stock_id, inc.price, ci as int));
                assert(step_ok(ledger@, side, ni as int, ci as int));
                let ghost before = ledger@;
                let fill = ledger.apply_fill(side, ni, ci, t);
                proof {
                    lemma_fill_step(before, side, ni as int, ci as int, t);
                }
                done = done + fill;
            },
        }
    }
    Ok(done)
}

/// Whether `book[i]` is the order `id` of user `user_id` and still rests:
/// some of it is unfilled. A filled order is final and cannot be cancelled.
pub open spec fn order_at(book: Seq<Order>, id: u64, user_id: usize, i: int) -> bool {
    0 <= i < book.len() && book[i].id == id && book[i].user_id == user_id && book[i].unfulfilled > 0
}

/// The ledger after the resting `book(side)[i]` is cancelled: a bid's
/// unfilled reserve `unfulfilled * price` returns to its owner's balance, an
/// ask's unfilled shares return to its owner's holding, and the order is gone.
pub open spec fn cancel(v: LedgerView, side: AskOrBid, i: int, now: i64) -> LedgerView {
    let o = v.book(side)[i];
    match side {
        AskOrBid::Bid => LedgerView {
            users: credit_user(v.users, o.user_id as int, o.unfulfilled * o.price),
            bids: v.bids.remove(i),
            ..v
        },
        AskOrBid::Ask => LedgerView {
            holds: credit_hold(v.holds, o.user_id, o.stock_id, o.unfulfilled as int, now),
            asks: v.asks.remove(i),
            ..v
        },
    }
}

pub proof fn lemma_book_remove(b: Seq<Order>, i: int, n_users: int, n_stocks: int, next_id: u64)
    requires
        book_well_formed(b, n_users, n_stocks, next_id),
        0 <= i < b.len(),
    ensures
        book_well_formed(b.remove(i), n_users, n_stocks, next_id),
{
    let c = b.remove(i);
    assert forall|k: int| 0 <= k < c.len() implies order_well_formed(#[trigger] c[k], n_users, n_stocks, next_id) by {
        if k < i {
            assert(c[k] == b[k]);
        } else {
            assert(c[k] == b[k + 1]);
        }
    }
    assert forall|k: int, j: int| 0 <= k < j < c.len() implies (#[trigger] c[k]).id < (#[trigger] c[j]).id by {
        let k2 = if k < i { k } else { k + 1 };
        let j2 = if j < i { j } else { j + 1 };
        assert(c[k] == b[k2]);
        assert(c[j] == b[j2]);
        assert(b[k2].id < b[j2].id);
    }
}

/// Cancellation keeps the invariants, the cash held for users and every
/// stock's share total.
pub proof fn lemma_cancel(v: LedgerView, side: AskOrBid, i: int, now: i64)
    requires
        v.wf(),
        0 <= i < v.book(side).len(),
    ensures
        ({
            let w = cancel(v, side, i, now);
            let o = v.book(side)[i];
            &&& w.wf()
            &&& w.cash_total() == v.cash_total()
            &&& forall|t: usize| #[trigger] w.shares_total(t) == v.shares_total(t)
            &&& 0 <= o.unfulfilled * o.price
            &&& side == AskOrBid::Bid ==> v.users[o.user_id as int].balance + o.unfulfilled * o.price <= i64::MAX
            &&& side == AskOrBid::Ask ==> 0 <= v.hold_of(o.user_id, o.stock_id) + o.unfulfilled <= i64::MAX
        }),
{
    let w = cancel(v, side, i, now);
    let o = v.book(side)[i];
    let n = v.users.len() as int;
    let m = v.stocks.len() as int;
    assert(order_well_formed(o, n, m, v.next_order_id));
    assert(0 <= o.unfulfilled * o.price) by (nonlinear_arith)
        requires o.unfulfilled >= 0, o.price > 0;
    match side {
        AskOrBid::Bid => {
            assert(v.bids[i] == o);
            assert forall|j: int| 0 <= j < v.bids.len() implies reserve_term()(#[trigger] v.bids[j]) >= 0 by {
                assert(order_well_formed(v.bids[j], n, m, v.next_order_id));
                assert(v.bids[j].unfulfilled as int * v.bids[j].price as int >= 0) by (nonlinear_arith)
                    requires v.bids[j].unfulfilled >= 0, v.bids[j].price > 0;
            }
            lemma_sum_bounds_term(v.bids, i, reserve_term());
            lemma_sum_bounds_term(v.users, o.user_id as int, balance_term());
            crate::sums::lemma_sum_remove(v.bids, i, reserve_term());
            crate::ledger::lemma_credit_user_sum(v.users, o.user_id as int, o.unfulfilled * o.price);
            lemma_book_remove(v.bids, i, n, m, v.next_order_id);
            assert forall|t: usize| #[trigger] w.shares_total(t) == v.shares_total(t) by {
                assert(w.holds == v.holds);
                assert(w.asks == v.asks);
            }
            assert(w.users_wf());
            assert(w.books_wf());
        },
        AskOrBid::Ask => {
            assert(v.asks[i] == o);
            let s = o.stock_id;
            let hv = v.hold_of(o.user_id, s);
            assert(0 <= hv <= sum_of(v.holds, held_term(s))) by {
                assert forall|j: int| 0 <= j < v.holds.len() implies held_term(s)(#[trigger] v.holds[j]) >= 0 by {}
                if exists|k: int| #[trigger] holds_key(v.holds, k, o.user_id, s) {
                    let k = choose|k: int| #[trigger] holds_key(v.holds, k, o.user_id, s);
                    crate::ledger::lemma_hold_row_unique(v, k, o.user_id, s);
                    lemma_sum_bounds_term(v.holds, k, held_term(s));
                } else {
                    crate::ledger::lemma_no_hold_row(v, o.user_id, s);
                    crate::sums::lemma_sum_nonneg(v.holds, held_term(s));
                }
            }
            assert forall|j: int| 0 <= j < v.asks.len() implies offered_term(s)(#[trigger] v.asks[j]) >= 0 by {
                assert(order_well_formed(v.asks[j], n, m, v.next_order_id));
            }
            lemma_sum_bounds_term(v.asks, i, offered_term(s));
            assert(v.shares_total(s) == v.issued(s));
            crate::ledger::lemma_credit_hold(v, o.user_id, s, o.unfulfilled as int, now);
            assert forall|t: usize| #[trigger] w.shares_total(t) == v.shares_total(t) by {
                crate::sums::lemma_sum_remove(v.asks, i, offered_term(t));
            }
            lemma_book_remove(v.asks, i, n, m, v.next_order_id);
            assert(w.books_wf());
            assert(w.holds_wf());
        },
    }
}

/// Cancels the resting order `id` of `side` that user `user_id` owns: its
/// unfilled reserve goes back to the owner and the order is removed. Not
/// found, with nothing changed, when no order of that side has this id and
/// owner and still has shares unfilled.
pub fn cancel_order(ledger: &mut Ledger, side: AskOrBid, id: u64, user_id: usize, now: i64) -> (r: Result<(), EngineError>)
    requires
        old(ledger).wf(),
    ensures
        final(ledger).wf(),
        match r {
            Ok(()) => exists|i: int| #[trigger] order_at(old(ledger)@.book(side), id, user_id, i)
                && final(ledger)@ == cancel(old(ledger)@, side, i, now),
            Err(e) => e.refusal() == Refusal::NotFound
                && (!exists|i: int| #[trigger] order_at(old(ledger)@.book(side), id, user_id, i))
                && final(ledger)@ == old(ledger)@,
        },
        final(ledger)@.cash_total() == old(ledger)@.cash_total(),
        forall|s: usize| #[trigger] final(ledger)@.shares_total(s) == old(ledger)@.shares_total(s),
{
    let ghost v = ledger@;
    let len = match side {
        AskOrBid::Ask => ledger.asks.len(),
        AskOrBid::Bid => ledger.bids.len(),
    };
    let mut i: usize = 0;
    while i < len
        invariant
            ledger@ == v,
            v == old(ledger)@,
            v.wf(),
            len == v.book(side).len(),
            i <= len,
            forall|j: int| 0 <= j < i ==> !#[trigger] order_at(v.book(side), id, user_id, j),
        decreases len - i,
    {
        let o = match side {
            AskOrBid::Ask => ledger.asks[i],
            AskOrBid::Bid => ledger.bids[i],
        };
        if o.id == id && o.user_id == user_id && o.unfulfilled > 0 {
            proof {
                lemma_cancel(v, side, i as int, now);
                assert(order_at(v.book(side), id, user_id, i as int));
            }
            match side {
                AskOrBid::Bid => {
                    let refund = o.unfulfilled * (o.price as i64);
                    ledger.credit_balance(user_id, refund);
                    ledger.bids.remove(i);
                },
                AskOrBid::Ask => {
                    ledger.credit_holding(user_id, o.stock_id, o.unfulfilled, now);
                    ledger.asks.remove(i);
                },
            }
            assert(ledger@ == cancel(v, side, i as int, now));
            return Ok(());
        }
        i = i + 1;
    }
    Err(EngineError::NotFound("no such order".to_owned()))
}

/// Cancels the resting ask `ask_id` of user `user_id`; its unfilled shares
/// return to the user's holding.
pub fn revoke_ask(ledger: &mut Ledger, ask_id: u64, user_id: usize, now: i64) -> (r: Result<(), EngineError>)
    requires
        old(ledger).wf(),
    ensures
        final(ledger).wf(),
        match r {
            Ok(()) => exists|i: int| #[trigger] order_at(old(ledger)@.asks, ask_id, user_id, i)
                && final(ledger)@ == cancel(old(ledger)@, AskOrBid::Ask, i, now),
            Err(e) => e.refusal() == Refusal::NotFound
                && (!exists|i: int| #[trigger] order_at(old(ledger)@.asks, ask_id, user_id, i))
                && final(ledger)@ == old(ledger)@,
        },
        final(ledger)@.cash_total() == old(ledger)@.cash_total(),
        forall|s: usize| #[trigger] final(ledger)@.shares_total(s) == old(ledger)@.shares_total(s),
{
    let ghost v = ledger@;
    let r = cancel_order(ledger, AskOrBid::Ask, ask_id, user_id, now);
    proof {
        assert(v.book(AskOrBid::Ask) == v.asks);
        if r is Ok {
            assert(exists|i: int| #[trigger] order_at(v.book(AskOrBid::Ask), ask_id, user_id, i)
                && ledger@ == cancel(v, AskOrBid::Ask, i, now));
            let i = choose|i: int| #[trigger] order_at(v.book(AskOrBid::Ask), ask_id, user_id, i)
                && ledger@ == cancel(v, AskOrBid::Ask, i, now);
            assert(order_at(v.asks, ask_id, user_id, i));
            assert(ledger@ == cancel(v, AskOrBid::Ask, i, now));
        }
    }
    r
}

/// Cancels the resting bid `bid_id` of user `user_id`; its unfilled reserve
/// `unfulfilled * price` returns to the user's balance.
pub fn revoke_bid(ledger: &mut Ledger, bid_id: u64, user_id: usize, now: i64) -> (r: Result<(), EngineError>)
    requires
        old(ledger).wf(),
    ensures
        final(ledger).wf(),
        match r {
            Ok(()) => exists|i: int| #[trigger] order_at(old(ledger)@.bids, bid_id, user_id, i)
                && final(ledger)@ == cancel(old(ledger)@, AskOrBid::Bid, i, now),
            Err(e) => e.refusal() == Refusal::NotFound
                && (!exists|i: int| #[trigger] order_at(old(ledger)@.bids, bid_id, user_id, i))
                && final(ledger)@ == old(ledger)@,
        },
        final(ledger)@.cash_total() == old(ledger)@.cash_total(),
        forall|s: usize| #[trigger] final(ledger)@.shares_total(s) == old(ledger)@.shares_total(s),
{
    let ghost v = ledger@;
    let r = cancel_order(ledger, AskOrBid::Bid, bid_id, user_id, now);
    proof {
        assert(v.book(AskOrBid::Bid) == v.bids);
        if r is Ok {
            assert(exists|i: int| #[trigger] order_at(v.book(AskOrBid::Bid), bid_id, user_id, i)
                && ledger@ == cancel(v, AskOrBid::Bid, i, now));
            let i = choose|i: int| #[trigger] order_at(v.book(AskOrBid::Bid), bid_id, user_id, i)
                && ledger@ == cancel(v, AskOrBid::Bid, i, now);
            assert(order_at(v.bids, bid_id, user_id, i));
            assert(ledger@ == cancel(v, AskOrBid::Bid, i, now));
        }
    }
    r
}

} // verus!
