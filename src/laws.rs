//! Laws of the matching engine that relate several operations.
use vstd::prelude::*;
use crate::ledger::{NewStock, credit_hold, stamp, advance, lemma_advance, AskOrBid, LedgerView, Order, UserStockRel, User, credit_user, holds_key, order_well_formed};
use crate::book::{crosses, is_next, next_candidate, ahead};
use crate::stocks::{ipo_buy_refusal, ipo_effective, ipo_settle};
use crate::orders::{OrderModel, order_refusal, reserve_and_rest, submit, cancel, order_at, placed, run_match, step_ok, fill_step, lemma_fill_step, lemma_cancel};

verus! {

/// In every valid ledger no balance and no holding is negative, and no
/// resting order has more unfilled than its volume or less than nothing.
pub proof fn lemma_ledger_bounds(v: LedgerView)
    requires
        v.wf(),
    ensures
        forall|i: int| 0 <= i < v.users.len() ==> (#[trigger] v.users[i]).balance >= 0,
        forall|i: int| 0 <= i < v.holds.len() ==> (#[trigger] v.holds[i]).hold >= 0,
        forall|i: int| 0 <= i < v.asks.len() ==> 0 <= (#[trigger] v.asks[i]).unfulfilled <= v.asks[i].volume,
        forall|i: int| 0 <= i < v.bids.len() ==> 0 <= (#[trigger] v.bids[i]).unfulfilled <= v.bids[i].volume,
{
    assert forall|i: int| 0 <= i < v.asks.len() implies 0 <= (#[trigger] v.asks[i]).unfulfilled <= v.asks[i].volume by {
        assert(order_well_formed(v.asks[i], v.users.len() as int, v.stocks.len() as int, v.next_order_id));
    }
    assert forall|i: int| 0 <= i < v.bids.len() implies 0 <= (#[trigger] v.bids[i]).unfulfilled <= v.bids[i].volume by {
        assert(order_well_formed(v.bids[i], v.users.len() as int, v.stocks.len() as int, v.next_order_id));
    }
}

/// Matching keeps the invariants, the cash held for users (balances plus
/// bids' reserves) and every stock's share total (holdings plus asks'
/// reserves), and trades no more than the incoming order's unfilled count.
pub proof fn lemma_run_match(v: LedgerView, side: AskOrBid, ni: int, now: i64)
    requires
        v.wf(),
        now == v.clock,
        0 <= ni < v.book(side).len(),
    ensures
        ({
            let (w, traded) = run_match(v, side, ni, now);
            &&& w.wf()
            &&& w.cash_total() == v.cash_total()
            &&& forall|t: usize| #[trigger] w.shares_total(t) == v.shares_total(t)
            &&& w.new_stocks == v.new_stocks
            &&& w.stocks == v.stocks
            &&& 0 <= traded <= v.book(side)[ni].unfulfilled
            &&& w.book(side)[ni].unfulfilled == v.book(side)[ni].unfulfilled - traded
        }),
    decreases v.book(side)[ni].unfulfilled,
{
    let own = v.book(side);
    if own[ni].unfulfilled > 0 {
        match next_candidate(v.book(side.opposite()), side, own[ni].stock_id, own[ni].price) {
            Some(ci) => {
                if step_ok(v, side, ni, ci) {
                    lemma_fill_step(v, side, ni, ci, now);
                    let n = fill_step(v, side, ni, ci, now);
                    lemma_run_match(n, side, ni, now);
                }
            },
            None => {},
        }
    } else {
        assert(order_well_formed(own[ni], v.users.len() as int, v.stocks.len() as int, v.next_order_id));
    }
}

/// Submitting an order, matched or not, keeps the cash held for users and
/// every stock's share total: trades move cash and shares between users and
/// reserves, never in or out. Stocks and their IPO pools stay as they were,
/// and so does the custody counter, which only deposits raise and IPO
/// purchases lower.
pub proof fn lemma_submit_conserves(v: LedgerView, user_id: usize, order: OrderModel, now: i64)
    requires
        v.wf(),
        order_refusal(v, user_id, order) is None,
    ensures
        ({
            let w = submit(v, user_id, order, now).0;
            &&& w.wf()
            &&& w.cash_total() == v.cash_total()
            &&& forall|t: usize| #[trigger] w.shares_total(t) == v.shares_total(t)
            &&& w.stocks == v.stocks
            &&& w.new_stocks == v.new_stocks
            &&& w.cash_in_custody == v.cash_in_custody
        }),
{
    let t = stamp(v, now);
    lemma_advance(v, now);
    assert(advance(v, now).holds == v.holds && advance(v, now).users == v.users);
    assert(order_refusal(advance(v, now), user_id, order) == order_refusal(v, user_id, order));
    crate::orders::lemma_reserve_and_rest(advance(v, now), user_id, order, t);
    let a = reserve_and_rest(advance(v, now), user_id, order, t);
    lemma_run_match(a, order.entype, a.book(order.entype).len() - 1, t);
}

/// Cancelling a resting order keeps the cash held for users and every
/// stock's share total: the reserve returns to its owner.
pub proof fn lemma_cancel_conserves(v: LedgerView, side: AskOrBid, i: int, now: i64)
    requires
        v.wf(),
        0 <= i < v.book(side).len(),
    ensures
        ({
            let w = cancel(v, side, i, now);
            &&& w.wf()
            &&& w.cash_total() == v.cash_total()
            &&& forall|t: usize| #[trigger] w.shares_total(t) == v.shares_total(t)
            &&& w.stocks == v.stocks
            &&& w.new_stocks == v.new_stocks
            &&& w.cash_in_custody == v.cash_in_custody
        }),
{
    lemma_cancel(v, side, i, now);
}

/// Time priority: of two crossing resting orders at one price, the one
/// created earlier (or, created at the same time, with the smaller id) is met
/// first, so the later one is never met while the earlier one still has
/// shares unfilled.
pub proof fn lemma_time_priority(book: Seq<Order>, side: AskOrBid, s: usize, limit: i32, earlier: int, later: int)
    requires
        0 <= earlier < book.len(),
        0 <= later < book.len(),
        book[earlier].price == book[later].price,
        book[earlier].created_at < book[later].created_at || (book[earlier].created_at
            == book[later].created_at && book[earlier].id < book[later].id),
        crosses(side, s, limit, book[earlier]),
    ensures
        next_candidate(book, side, s, limit) != Some(later),
{
    if next_candidate(book, side, s, limit) == Some(later) {
        assert(is_next(book, side, s, limit, later));
        assert(ahead(side, book[later], book[earlier]));
    }
}

/// Matching only lowers unfilled counts on the opposite book; it keeps its
/// length and every order's id, stock, price and creation time.
pub proof fn lemma_run_match_monotone(v: LedgerView, side: AskOrBid, ni: int, now: i64)
    requires
        v.wf(),
        now == v.clock,
        0 <= ni < v.book(side).len(),
    ensures
        ({
            let w = run_match(v, side, ni, now).0;
            let a = v.book(side.opposite());
            let b = w.book(side.opposite());
            &&& b.len() == a.len()
            &&& forall|j: int| 0 <= j < a.len() ==> (#[trigger] b[j]).unfulfilled <= a[j].unfulfilled
                && b[j].id == a[j].id && b[j].stock_id == a[j].stock_id && b[j].price == a[j].price
                && b[j].created_at == a[j].created_at
        }),
    decreases v.book(side)[ni].unfulfilled,
{
    let own = v.book(side);
    if own[ni].unfulfilled > 0 {
        match next_candidate(v.book(side.opposite()), side, own[ni].stock_id, own[ni].price) {
            Some(ci) => {
                if step_ok(v, side, ni, ci) {
                    lemma_fill_step(v, side, ni, ci, now);
                    let n = fill_step(v, side, ni, ci, now);
                    lemma_run_match_monotone(n, side, ni, now);
                    let a = v.book(side.opposite());
                    let m = n.book(side.opposite());
                    let b = run_match(v, side, ni, now).0.book(side.opposite());
                    assert forall|j: int| 0 <= j < a.len() implies (#[trigger] b[j]).unfulfilled <= a[j].unfulfilled
                        && b[j].id == a[j].id && b[j].stock_id == a[j].stock_id && b[j].price == a[j].price
                        && b[j].created_at == a[j].created_at by {
                        assert(m[j].unfulfilled <= a[j].unfulfilled);
                    }
                }
            },
            None => {},
        }
    }
}

/// Price-time priority over a whole match: of two resting orders at one
/// price on the same stock, the later one (by creation time, then id) is
/// only met once the earlier one is filled.
pub proof fn lemma_price_time_priority(v: LedgerView, side: AskOrBid, ni: int, now: i64, earlier: int, later: int)
    requires
        v.wf(),
        now == v.clock,
        0 <= ni < v.book(side).len(),
        0 <= earlier < v.book(side.opposite()).len(),
        0 <= later < v.book(side.opposite()).len(),
        v.book(side.opposite())[earlier].price == v.book(side.opposite())[later].price,
        v.book(side.opposite())[earlier].stock_id == v.book(side.opposite())[later].stock_id,
        v.book(side.opposite())[earlier].created_at < v.book(side.opposite())[later].created_at
            || (v.book(side.opposite())[earlier].created_at == v.book(side.opposite())[later].created_at
            && v.book(side.opposite())[earlier].id < v.book(side.opposite())[later].id),
    ensures
        ({
            let w = run_match(v, side, ni, now).0;
            w.book(side.opposite())[later].unfulfilled < v.book(side.opposite())[later].unfulfilled
                ==> w.book(side.opposite())[earlier].unfulfilled == 0
        }),
    decreases v.book(side)[ni].unfulfilled,
{
    let own = v.book(side);
    let a = v.book(side.opposite());
    if own[ni].unfulfilled > 0 {
        match next_candidate(a, side, own[ni].stock_id, own[ni].price) {
            Some(ci) => {
                if step_ok(v, side, ni, ci) {
                    lemma_fill_step(v, side, ni, ci, now);
                    let n = fill_step(v, side, ni, ci, now);
                    let m = n.book(side.opposite());
                    let w = run_match(v, side, ni, now).0;
                    assert(w == run_match(n, side, ni, now).0);
                    lemma_run_match_monotone(n, side, ni, now);
                    assert(m[earlier].price == a[earlier].price && m[later].price == a[later].price);
                    assert(m[earlier].stock_id == a[earlier].stock_id && m[later].stock_id == a[later].stock_id);
                    assert(m[earlier].id == a[earlier].id && m[later].id == a[later].id);
                    assert(m[earlier].created_at == a[earlier].created_at && m[later].created_at == a[later].created_at);
                    lemma_price_time_priority(n, side, ni, now, earlier, later);
                    if ci == later {
                        if a[earlier].unfulfilled > 0 {
                            assert(crosses(side, own[ni].stock_id, own[ni].price, a[earlier]));
                            lemma_time_priority(a, side, own[ni].stock_id, own[ni].price, earlier, later);
                        }
                        assert(order_well_formed(a[earlier], v.users.len() as int, v.stocks.len() as int, v.next_order_id)) by {
                            assert(v.books_wf());
                        }
                        assert(m[earlier] == a[earlier]);
                        let b = w.book(side.opposite());
                        assert(b[earlier].unfulfilled <= m[earlier].unfulfilled);
                        assert(order_well_formed(b[earlier], w.users.len() as int, w.stocks.len() as int, w.next_order_id)) by {
                            lemma_run_match(n, side, ni, now);
                            assert(w.books_wf());
                        }
                    } else {
                        assert(m[later] == a[later]);
                    }
                }
            },
            None => {},
        }
    }
}

/// Submitting an order that trades nothing and then cancelling it leaves
/// the ledger as it was, but for the order-id counter, the clock and the
/// time a holding row was last touched.
pub proof fn lemma_submit_then_cancel(v: LedgerView, user_id: usize, order: OrderModel, now: i64, later: i64)
    requires
        v.wf(),
        order_refusal(v, user_id, order) is None,
        submit(v, user_id, order, now).1 == 0,
    ensures
        ({
            let (a, traded) = submit(v, user_id, order, now);
            let i = a.book(order.entype).len() - 1;
            let w = cancel(a, order.entype, i, later);
            &&& order_at(a.book(order.entype), v.next_order_id, user_id, i)
            &&& w.users == v.users
            &&& w.asks == v.asks
            &&& w.bids == v.bids
            &&& w.deals == v.deals
            &&& w.stocks == v.stocks
            &&& w.new_stocks == v.new_stocks
            &&& w.cash_in_custody == v.cash_in_custody
            &&& w.next_order_id == v.next_order_id + 1
            &&& w.holds.len() == v.holds.len()
            &&& forall|k: int| 0 <= k < v.holds.len()
                ==> #[trigger] w.holds[k] == (UserStockRel { updated_at: w.holds[k].updated_at, ..v.holds[k] })
        }),
{
    let side = order.entype;
    let t = stamp(v, now);
    let v1 = advance(v, now);
    lemma_advance(v, now);
    let a = reserve_and_rest(v1, user_id, order, t);
    let o = placed(v1, user_id, order, t);
    crate::orders::lemma_reserve_and_rest(v1, user_id, order, t);
    let i = a.book(side).len() - 1;
    assert(a.book(side.opposite()) == v.book(side.opposite()));
    assert(a.book(side)[i] == o);
    if let Some(ci) = next_candidate(a.book(side.opposite()), side, o.stock_id, o.price) {
        assert(is_next(a.book(side.opposite()), side, o.stock_id, o.price, ci));
        assert(step_ok(a, side, i, ci));
        lemma_fill_step(a, side, i, ci, t);
        lemma_run_match(fill_step(a, side, i, ci, t), side, i, t);
        assert(false);
    }
    assert(submit(v, user_id, order, now) == (a, 0int));
    let w = cancel(a, side, i, later);
    let cost = order.price * order.volume;
    match side {
        AskOrBid::Bid => {
            let u = v.users[user_id as int];
            assert(credit_user(v.users, user_id as int, -cost)[user_id as int].balance == u.balance - cost);
            assert(o.unfulfilled * o.price == cost) by (nonlinear_arith)
                requires o.unfulfilled == order.volume, o.price == order.price, cost == order.price * order.volume;
            assert(w.users =~= v.users) by {
                assert(w.users[user_id as int] == (User { balance: u.balance, ..u }));
            }
            assert(w.bids =~= v.bids);
            assert(w.holds =~= v.holds);
        },
        AskOrBid::Ask => {
            let h0 = v.hold_of(user_id, order.stock_id);
            assert(h0 >= order.volume);
            if !exists|k: int| #[trigger] holds_key(v.holds, k, user_id, order.stock_id) {
                crate::ledger::lemma_no_hold_row(v, user_id, order.stock_id);
            }
            let k = choose|k: int| #[trigger] holds_key(v.holds, k, user_id, order.stock_id);
            crate::ledger::lemma_hold_row_unique(v, k, user_id, order.stock_id);
            let r0 = v.holds[k];
            let r1 = UserStockRel { hold: (r0.hold - order.volume) as i64, updated_at: t, ..r0 };
            assert(a.holds == v.holds.update(k, r1));
            assert(holds_key(a.holds, k, user_id, order.stock_id));
            crate::ledger::lemma_hold_row_unique(a, k, user_id, order.stock_id);
            let r2 = UserStockRel { hold: (r1.hold + order.volume) as i64, updated_at: later, ..r1 };
            assert(w.holds == a.holds.update(k, r2));
            assert(w.holds =~= v.holds.update(k, UserStockRel { updated_at: later, ..r0 }));
            assert(w.asks =~= v.asks);
        },
    }
}

/// Buying more than an IPO pool holds, with the cash to pay for what it
/// holds, succeeds with the rest of the pool: the pool empties, the holding
/// grows by what was left and the balance pays for it at the offer price.
pub proof fn lemma_ipo_buy_capped(v: LedgerView, user_id: usize, stock_id: usize, amount: u64, now: i64)
    requires
        v.wf(),
        user_id < v.users.len(),
        stock_id < v.stocks.len(),
        !v.stocks[stock_id as int].into_market,
        amount <= i64::MAX,
        amount > v.new_stocks[stock_id as int].offer_unfulfilled,
        v.users[user_id as int].balance >= v.new_stocks[stock_id as int].offer_price
            * v.new_stocks[stock_id as int].offer_unfulfilled,
    ensures
        ({
            let n = v.new_stocks[stock_id as int];
            let k = n.offer_unfulfilled as int;
            let w = ipo_settle(v, user_id, stock_id, k, now);
            &&& ipo_buy_refusal(v, user_id, stock_id, amount) is None
            &&& ipo_effective(v, stock_id, amount) == k
            &&& w.new_stocks[stock_id as int].offer_unfulfilled == 0
            &&& w.users[user_id as int].balance == v.users[user_id as int].balance - n.offer_price * k
            &&& w.hold_of(user_id, stock_id) == v.hold_of(user_id, stock_id) + k
        }),
{
    let n = v.new_stocks[stock_id as int];
    let k = n.offer_unfulfilled as int;
    let cost = n.offer_price * k;
    assert(0 <= cost <= v.users[user_id as int].balance) by (nonlinear_arith)
        requires cost == n.offer_price * k, n.offer_price > 0, k >= 0, v.users[user_id as int].balance >= n.offer_price * k;
    assert(ipo_effective(v, stock_id, amount) == k);
    assert(ipo_buy_refusal(v, user_id, stock_id, amount) is None);
    let t = stamp(v, now);
    let w0 = LedgerView {
        users: credit_user(v.users, user_id as int, -cost),
        new_stocks: v.new_stocks.update(stock_id as int, NewStock { offer_unfulfilled: (n.offer_unfulfilled - k) as i64, ..n }),
        cash_in_custody: (v.cash_in_custody - cost) as i64,
        clock: t,
        ..v
    };
    assert(w0.holds == v.holds);
    assert(w0.hold_of(user_id, stock_id) == v.hold_of(user_id, stock_id));
    if k > 0 {
        crate::stocks::lemma_hold_room(v, user_id, stock_id, k);
        crate::ledger::lemma_credit_hold(w0, user_id, stock_id, k, t);
        let w = ipo_settle(v, user_id, stock_id, k, now);
        let h = LedgerView { holds: credit_hold(w0.holds, user_id, stock_id, k, t), ..w0 };
        assert(w.holds == h.holds);
        assert(w.hold_of(user_id, stock_id) == h.hold_of(user_id, stock_id));
        assert(w.users == w0.users);
        assert(w.new_stocks == w0.new_stocks);
    } else {
        assert(ipo_settle(v, user_id, stock_id, k, now) == w0);
    }
}

} // verus!
