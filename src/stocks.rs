//! Issuing stocks through an IPO pool, buying from the pool, and listing.
use vstd::prelude::*;
use crate::sums::{sum_of, lemma_sum_bounds_term, lemma_sum_zero};
use crate::ledger::{
    stamp,
    Deal, Ledger, LedgerView, NewStock, Stock, credit_hold, credit_user, balance_term, held_term,
    offered_term, holds_key, order_well_formed,
};
use crate::errors::{EngineError, Refusal, insufficient};
use crate::orders::min_int;

verus! {

/// A stock offered for issue: its unique name, the shares offered and the
/// offer price in cents.
#[derive(Debug)]
pub struct IPOModel {
    pub name: String,
    pub offer_circ: i64,
    pub offer_price: i32,
}

pub open spec fn stock_name_taken(stocks: Seq<Stock>, name: Seq<char>) -> bool {
    exists|i: int| 0 <= i < stocks.len() && (#[trigger] stocks[i]).name@ == name
}

/// Why issuing `ipo` for user `user_id` is refused, or `None`: a negative
/// number of offered shares, a price that is not positive (prices are
/// positive cents), and a name already taken, are bad requests; an unknown
/// user is not found.
pub open spec fn ipo_refusal(v: LedgerView, user_id: usize, ipo: IPOModel) -> Option<Refusal> {
    if ipo.offer_circ < 0 || ipo.offer_price <= 0 {
        Some(Refusal::BadRequest)
    } else if user_id >= v.users.len() {
        Some(Refusal::NotFound)
    } else if stock_name_taken(v.stocks, ipo.name@) {
        Some(Refusal::BadRequest)
    } else {
        None
    }
}

/// The ledger after user `user_id` issues `ipo` at `now`: a new unlisted
/// stock, and an IPO pool holding all offered shares.
pub open spec fn issue(v: LedgerView, user_id: usize, ipo: IPOModel, now: i64) -> LedgerView {
    let id = v.stocks.len() as usize;
    LedgerView {
        stocks: v.stocks.push(Stock { id, name: ipo.name, into_market: false, into_market_at: None }),
        new_stocks: v.new_stocks.push(
            NewStock {
                id,
                issuer_id: user_id,
                offer_circ: ipo.offer_circ,
                offer_price: ipo.offer_price,
                offer_unfulfilled: ipo.offer_circ,
                created_at: now,
            },
        ),
        ..v
    }
}

/// Issues a new stock for user `user_id`; returns its id. The stock is not
/// listed, and its whole offer waits in its IPO pool.
pub fn ipo_stock(ledger: &mut Ledger, user_id: usize, ipo: IPOModel, now: i64) -> (r: Result<usize, EngineError>)
    requires
        old(ledger).wf(),
    ensures
        final(ledger).wf(),
        match r {
            Ok(id) => ipo_refusal(old(ledger)@, user_id, ipo) is None
                && id == old(ledger)@.stocks.len()
                && final(ledger)@ == issue(old(ledger)@, user_id, ipo, now),
            Err(e) => ipo_refusal(old(ledger)@, user_id, ipo) == Some(e.refusal())
                && final(ledger)@ == old(ledger)@,
        },
{
    if ipo.offer_circ < 0 || ipo.offer_price <= 0 {
        return Err(EngineError::BadRequest("offered shares must not be negative, the price must be positive".to_owned()));
    }
    if user_id >= ledger.users.len() {
        return Err(EngineError::NotFound("no such user".to_owned()));
    }
    let mut i: usize = 0;
    while i < ledger.stocks.len()
        invariant
            ledger@ == old(ledger)@,
            ledger.wf(),
            ipo.offer_circ >= 0 && ipo.offer_price > 0,
            user_id < ledger@.users.len(),
            i <= ledger@.stocks.len(),
            forall|j: int| 0 <= j < i ==> (#[trigger] ledger@.stocks[j]).name@ != ipo.name@,
        decreases ledger@.stocks.len() - i,
    {
        if ledger.stocks[i].name == ipo.name {
            assert((ledger@.stocks[i as int]).name@ == ipo.name@);
            assert(stock_name_taken(old(ledger)@.stocks, ipo.name@));
            return Err(EngineError::BadRequest("a stock of that name exists".to_owned()));
        }
        i = i + 1;
    }
    let ghost v = ledger@;
    let id = ledger.stocks.len();
    ledger.stocks.push(Stock { id, name: ipo.name, into_market: false, into_market_at: None });
    ledger.new_stocks.push(
        NewStock {
            id,
            issuer_id: user_id,
            offer_circ: ipo.offer_circ,
            offer_price: ipo.offer_price,
            offer_unfulfilled: ipo.offer_circ,
            created_at: now,
        },
    );
    proof {
        let w = ledger@;
        assert(w == issue(v, user_id, ipo, now));
        assert forall|t: usize| t < w.stocks.len() implies #[trigger] w.shares_total(t) == w.issued(t) by {
            if t < v.stocks.len() {
                assert(v.shares_total(t) == v.issued(t));
                assert(w.new_stocks[t as int] == v.new_stocks[t as int]);
            } else {
                assert forall|j: int| 0 <= j < w.holds.len() implies held_term(t)(#[trigger] w.holds[j]) == 0 by {}
                assert forall|j: int| 0 <= j < w.asks.len() implies offered_term(t)(#[trigger] w.asks[j]) == 0 by {
                    assert(order_well_formed(v.asks[j], v.users.len() as int, v.stocks.len() as int, v.next_order_id));
                }
                lemma_sum_zero(w.holds, held_term(t));
                lemma_sum_zero(w.asks, offered_term(t));
            }
        }
        assert forall|j: int| 0 <= j < w.asks.len() implies order_well_formed(#[trigger] w.asks[j], w.users.len() as int, w.stocks.len() as int, w.next_order_id) by {
            assert(order_well_formed(v.asks[j], v.users.len() as int, v.stocks.len() as int, v.next_order_id));
        }
        assert forall|j: int| 0 <= j < w.bids.len() implies order_well_formed(#[trigger] w.bids[j], w.users.len() as int, w.stocks.len() as int, w.next_order_id) by {
            assert(order_well_formed(v.bids[j], v.users.len() as int, v.stocks.len() as int, v.next_order_id));
        }
        assert(w.holds_wf());
        assert(w.stocks_wf());
    }
    Ok(id)
}

/// Why listing stock `stock_id` by user `user_id` is refused, or `None`: the
/// stock must exist, be issued by that user and not be listed yet.
pub open spec fn list_refusal(v: LedgerView, user_id: usize, stock_id: usize) -> Option<Refusal> {
    if stock_id >= v.stocks.len() || v.new_stocks[stock_id as int].issuer_id != user_id
        || v.stocks[stock_id as int].into_market {
        Some(Refusal::BadRequest)
    } else {
        None
    }
}

/// Lists stock `stock_id` at `now`: from then on it trades on the books and
/// its IPO pool is closed. Only its issuer may list it, and only once.
pub fn list_stock(ledger: &mut Ledger, user_id: usize, stock_id: usize, now: i64) -> (r: Result<(), EngineError>)
    requires
        old(ledger).wf(),
    ensures
        final(ledger).wf(),
        match r {
            Ok(()) => list_refusal(old(ledger)@, user_id, stock_id) is None
                && final(ledger)@ == (LedgerView {
                    stocks: old(ledger)@.stocks.update(
                        stock_id as int,
                        Stock { into_market: true, into_market_at: Some(now), ..old(ledger)@.stocks[stock_id as int] },
                    ),
                    ..old(ledger)@
                }),
            Err(e) => list_refusal(old(ledger)@, user_id, stock_id) == Some(e.refusal())
                && final(ledger)@ == old(ledger)@,
        },
{
    if stock_id >= ledger.stocks.len() || ledger.new_stocks[stock_id].issuer_id != user_id
        || ledger.stocks[stock_id].into_market {
        return Err(EngineError::BadRequest("no such unlisted stock of this issuer".to_owned()));
    }
    let ghost v = ledger@;
    ledger.stocks[stock_id].into_market = true;
    ledger.stocks[stock_id].into_market_at = Some(now);
    proof {
        let w = ledger@;
        assert(w.stocks =~= v.stocks.update(
            stock_id as int,
            Stock { into_market: true, into_market_at: Some(now), ..v.stocks[stock_id as int] },
        ));
        assert forall|t: usize| t < w.stocks.len() implies #[trigger] w.shares_total(t) == w.issued(t) by {
            assert(v.shares_total(t) == v.issued(t));
        }
        assert(w.stocks_wf());
    }
    Ok(())
}

/// The shares a purchase of `amount` from the pool of `stock_id` gets: all it
/// asks for, or what is left in the pool.
pub open spec fn ipo_effective(v: LedgerView, stock_id: usize, amount: u64) -> int {
    min_int(v.new_stocks[stock_id as int].offer_unfulfilled as int, amount as int)
}

/// Why an IPO purchase is refused, or `None`: an amount beyond `i64` is an
/// internal error; a stock that does not exist or is already listed is a bad
/// request; an unknown user is not found; a cost `offer_price * effective`
/// beyond the balance lacks the difference.
pub open spec fn ipo_buy_refusal(v: LedgerView, user_id: usize, stock_id: usize, amount: u64) -> Option<Refusal> {
    if amount > i64::MAX {
        Some(Refusal::Internal)
    } else if stock_id >= v.stocks.len() || v.stocks[stock_id as int].into_market {
        Some(Refusal::BadRequest)
    } else if user_id >= v.users.len() {
        Some(Refusal::NotFound)
    } else {
        let lack = v.new_stocks[stock_id as int].offer_price * ipo_effective(v, stock_id, amount)
            - v.users[user_id as int].balance;
        if lack <= 0 {
            None
        } else if lack <= i64::MAX {
            Some(Refusal::Insufficient(lack))
        } else {
            Some(Refusal::Internal)
        }
    }
}

/// The ledger after user `user_id` buys `eff` shares from the pool of
/// `stock_id`: the pool shrinks by `eff`, the cost `offer_price * eff` leaves
/// the balance and the exchange, and, when `eff > 0`, a trade without seller
/// is recorded and the holding grows by `eff`. The trade is stamped with
/// `now`, or with the ledger's clock when that is later.
pub open spec fn ipo_settle(v: LedgerView, user_id: usize, stock_id: usize, eff: int, now: i64) -> LedgerView {
    let n = v.new_stocks[stock_id as int];
    let cost = n.offer_price * eff;
    let t = stamp(v, now);
    let w = LedgerView {
        users: credit_user(v.users, user_id as int, -cost),
        new_stocks: v.new_stocks.update(stock_id as int, NewStock { offer_unfulfilled: (n.offer_unfulfilled - eff) as i64, ..n }),
        cash_in_custody: (v.cash_in_custody - cost) as i64,
        clock: t,
        ..v
    };
    if eff > 0 {
        LedgerView {
            holds: credit_hold(w.holds, user_id, stock_id, eff, t),
            deals: w.deals.push(
                Deal {
                    id: w.deals.len() as u64,
                    buy_user_id: user_id,
                    sell_user_id: None,
                    stock_id,
                    price: n.offer_price,
                    amount: eff as i64,
                    created_at: t,
                },
            ),
            ..w
        }
    } else {
        w
    }
}

/// A purchase request from an IPO pool.
#[derive(Clone, Copy, Debug)]
pub struct IPOBuyModel {
    pub amount: u64,
}

/// A holding of an issued stock has room for what is left in its pool: it
/// holds no more than was sold.
pub proof fn lemma_hold_room(v: LedgerView, u: usize, s: usize, eff: int)
    requires
        v.wf(),
        s < v.stocks.len(),
        0 <= eff <= v.new_stocks[s as int].offer_unfulfilled,
    ensures
        0 <= v.hold_of(u, s),
        v.hold_of(u, s) + eff <= i64::MAX,
{
    let hv = v.hold_of(u, s);
    assert(0 <= hv <= sum_of(v.holds, held_term(s))) by {
        assert forall|j: int| 0 <= j < v.holds.len() implies held_term(s)(#[trigger] v.holds[j]) >= 0 by {}
        if exists|k: int| #[trigger] holds_key(v.holds, k, u, s) {
            let k = choose|k: int| #[trigger] holds_key(v.holds, k, u, s);
            crate::ledger::lemma_hold_row_unique(v, k, u, s);
            lemma_sum_bounds_term(v.holds, k, held_term(s));
        } else {
            crate::ledger::lemma_no_hold_row(v, u, s);
            crate::sums::lemma_sum_nonneg(v.holds, held_term(s));
        }
    }
    assert forall|j: int| 0 <= j < v.asks.len() implies offered_term(s)(#[trigger] v.asks[j]) >= 0 by {
        assert(order_well_formed(v.asks[j], v.users.len() as int, v.stocks.len() as int, v.next_order_id));
    }
    crate::sums::lemma_sum_nonneg(v.asks, offered_term(s));
    assert(v.shares_total(s) == v.issued(s));
}

/// Buys up to `ipobuy.amount` shares of the unlisted `stock_id` from its IPO
/// pool for user `user_id`; returns the shares bought.
pub fn ipo_buy(ledger: &mut Ledger, user_id: usize, stock_id: usize, ipobuy: IPOBuyModel, now: i64) -> (r: Result<i64, EngineError>)
    requires
        old(ledger).wf(),
    ensures
        final(ledger).wf(),
        match r {
            Ok(n) => ipo_buy_refusal(old(ledger)@, user_id, stock_id, ipobuy.amount) is None
                && n == ipo_effective(old(ledger)@, stock_id, ipobuy.amount)
                && final(ledger)@ == ipo_settle(old(ledger)@, user_id, stock_id, n as int, now)
                && final(ledger)@.cash_total() == old(ledger)@.cash_total()
                    - old(ledger)@.new_stocks[stock_id as int].offer_price * n,
            Err(e) => ipo_buy_refusal(old(ledger)@, user_id, stock_id, ipobuy.amount) == Some(e.refusal())
                && final(ledger)@ == old(ledger)@,
        },
{
    let amount = ipobuy.amount;
    if amount > i64::MAX as u64 {
        return Err(EngineError::InternalError("the amount does not fit in i64".to_owned()));
    }
    if stock_id >= ledger.stocks.len() || ledger.stocks[stock_id].into_market {
        return Err(EngineError::BadRequest("no such stock in its IPO".to_owned()));
    }
    if user_id >= ledger.users.len() {
        return Err(EngineError::NotFound("no such user".to_owned()));
    }
    let ghost v = ledger@;
    let n = ledger.new_stocks[stock_id];
    assert(n == v.new_stocks[stock_id as int]);
    let amount = amount as i64;
    let eff = if n.offer_unfulfilled < amount { n.offer_unfulfilled } else { amount };
    proof {
        assert(0 <= n.offer_price as int * eff as int <= i32::MAX as int * i64::MAX as int) by (nonlinear_arith)
            requires 0 < n.offer_price <= i32::MAX, 0 <= eff <= i64::MAX;
    }
    let cost = n.offer_price as i128 * eff as i128;
    let balance = ledger.users[user_id].balance as i128;
    if cost > balance {
        let lack = cost - balance;
        if lack > i64::MAX as i128 {
            return Err(EngineError::InternalError("the deficit overflows".to_owned()));
        }
        return Err(insufficient(lack as i64, "the balance does not cover the purchase"));
    }
    let cost = cost as i64;
    proof {
        lemma_sum_bounds_term(v.users, user_id as int, balance_term());
        assert forall|j: int| 0 <= j < v.bids.len() implies crate::ledger::reserve_term()(#[trigger] v.bids[j]) >= 0 by {
            assert(order_well_formed(v.bids[j], v.users.len() as int, v.stocks.len() as int, v.next_order_id));
            assert(v.bids[j].unfulfilled as int * v.bids[j].price as int >= 0) by (nonlinear_arith)
                requires v.bids[j].unfulfilled >= 0, v.bids[j].price > 0;
        }
        crate::sums::lemma_sum_nonneg(v.bids, crate::ledger::reserve_term());
        crate::ledger::lemma_credit_user_sum(v.users, user_id as int, -cost);
    }
    let t: i64 = if now < ledger.clock { ledger.clock } else { now };
    proof {
        crate::ledger::lemma_advance(v, now);
    }
    ledger.clock = t;
    ledger.credit_balance(user_id, -cost);
    ledger.cash_in_custody = ledger.cash_in_custody - cost;
    ledger.new_stocks[stock_id].offer_unfulfilled = n.offer_unfulfilled - eff;
    let ghost w = ledger@;
    proof {
        assert(w.new_stocks =~= v.new_stocks.update(stock_id as int, NewStock { offer_unfulfilled: (n.offer_unfulfilled - eff) as i64, ..n }));
        assert(w == ipo_settle(v, user_id, stock_id, 0, now) || eff > 0);
    }
    if eff > 0 {
        proof {
            let s = stock_id;
            let hv = v.hold_of(user_id, s);
            lemma_hold_room(v, user_id, s, eff as int);
            assert(w.holds == v.holds);
            assert(w.hold_of(user_id, s) == hv);
            crate::ledger::lemma_credit_hold(w, user_id, s, eff as int, t);
        }
        let id = ledger.deals.len() as u64;
        ledger.deals.push(
            Deal {
                id,
                buy_user_id: user_id,
                sell_user_id: None,
                stock_id,
                price: n.offer_price,
                amount: eff,
                created_at: t,
            },
        );
        ledger.credit_holding(user_id, stock_id, eff, t);
    }
    proof {
        let f = ledger@;
        assert(f == ipo_settle(v, user_id, stock_id, eff as int, now));
        assert(f.users_wf());
        assert(f.stocks_wf());
        assert forall|t: usize| t < f.stocks.len() implies #[trigger] f.shares_total(t) == f.issued(t) by {
            assert(v.shares_total(t) == v.issued(t));
        }
        assert(f.books_wf());
    }
    Ok(eff)
}

} // verus!
