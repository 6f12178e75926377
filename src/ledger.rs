//! The ledger: every row the engine owns, its mathematical view and the
//! invariants that each committed transition keeps.
use vstd::prelude::*;
use crate::sums::sum_of;

verus! {

/// The side of a limit order: an ask sells, a bid buys.
#[derive(Clone, Copy, PartialEq, Eq, Structural, Debug)]
pub enum AskOrBid {
    Ask,
    Bid,
}

impl AskOrBid {
    pub open spec fn opposite(self) -> AskOrBid {
        match self {
            AskOrBid::Ask => AskOrBid::Bid,
            AskOrBid::Bid => AskOrBid::Ask,
        }
    }
}

/// A registered user; `balance` is in cents.
#[derive(Debug)]
pub struct User {
    pub id: usize,
    pub password_hashed: String,
    pub name: String,
    pub created_at: i64,
    pub balance: i64,
}

/// A stock; `into_market` turns true once, when the issuer lists it.
#[derive(Debug)]
pub struct Stock {
    pub id: usize,
    pub name: String,
    pub into_market: bool,
    pub into_market_at: Option<i64>,
}

/// The IPO record of a stock (same id): the pool the issuer offered.
#[derive(Clone, Copy, Debug)]
pub struct NewStock {
    pub id: usize,
    pub issuer_id: usize,
    pub offer_circ: i64,
    pub offer_price: i32,
    pub offer_unfulfilled: i64,
    pub created_at: i64,
}

/// A resting limit order, on the ask book or on the bid book.
#[derive(Clone, Copy, Debug)]
pub struct Order {
    pub id: u64,
    pub user_id: usize,
    pub stock_id: usize,
    pub price: i32,
    pub volume: i64,
    pub unfulfilled: i64,
    pub created_at: i64,
    pub updated_at: i64,
}

/// A resting sell order.
pub type AskOrder = Order;

/// A resting buy order.
pub type BidOrder = Order;

/// A trade; `sell_user_id` is `None` for a purchase from an IPO pool.
#[derive(Clone, Copy, Debug)]
pub struct Deal {
    pub id: u64,
    pub buy_user_id: usize,
    pub sell_user_id: Option<usize>,
    pub stock_id: usize,
    pub price: i32,
    pub amount: i64,
    pub created_at: i64,
}

/// How many shares of a stock a user holds.
#[derive(Clone, Copy, Debug)]
pub struct UserStockRel {
    pub user_id: usize,
    pub stock_id: usize,
    pub hold: i64,
    pub updated_at: i64,
}

/// Stock `stock_id` in the favorites of user `user_id` since `created_at`.
#[derive(Clone, Copy, Debug)]
pub struct Favorite {
    pub user_id: usize,
    pub stock_id: usize,
    pub created_at: i64,
}

/// The whole state of the exchange.
pub struct Ledger {
    pub(crate) users: Vec<User>,
    pub(crate) stocks: Vec<Stock>,
    pub(crate) new_stocks: Vec<NewStock>,
    pub(crate) holds: Vec<UserStockRel>,
    pub(crate) asks: Vec<Order>,
    pub(crate) bids: Vec<Order>,
    pub(crate) deals: Vec<Deal>,
    pub(crate) favorites: Vec<Favorite>,
    pub(crate) next_order_id: u64,
    pub(crate) clock: i64,
    pub(crate) cash_in_custody: i64,
}

/// The ledger as mathematical sequences.
pub struct LedgerView {
    pub users: Seq<User>,
    pub stocks: Seq<Stock>,
    pub new_stocks: Seq<NewStock>,
    pub holds: Seq<UserStockRel>,
    pub asks: Seq<Order>,
    pub bids: Seq<Order>,
    pub deals: Seq<Deal>,
    pub favorites: Seq<Favorite>,
    pub next_order_id: u64,
    /// The latest time an order or trade was stamped with.
    pub clock: i64,
    pub cash_in_custody: i64,
}

impl View for Ledger {
    type V = LedgerView;

    open(crate) spec fn view(&self) -> LedgerView {
        LedgerView {
            users: self.users@,
            stocks: self.stocks@,
            new_stocks: self.new_stocks@,
            holds: self.holds@,
            asks: self.asks@,
            bids: self.bids@,
            deals: self.deals@,
            favorites: self.favorites@,
            next_order_id: self.next_order_id,
            clock: self.clock,
            cash_in_custody: self.cash_in_custody,
        }
    }
}

/// A user's cash.
pub open spec fn balance_term() -> spec_fn(User) -> int {
    |u: User| u.balance as int
}

/// The cash a resting bid still holds in reserve.
pub open spec fn reserve_term() -> spec_fn(Order) -> int {
    |o: Order| o.unfulfilled as int * o.price as int
}

/// The shares of stock `s` in a holding row.
pub open spec fn held_term(s: usize) -> spec_fn(UserStockRel) -> int {
    |h: UserStockRel| if h.stock_id == s { h.hold as int } else { 0 }
}

/// The shares of stock `s` that a resting ask still holds in reserve.
pub open spec fn offered_term(s: usize) -> spec_fn(Order) -> int {
    |o: Order| if o.stock_id == s { o.unfulfilled as int } else { 0 }
}

pub open spec fn order_well_formed(o: Order, n_users: int, n_stocks: int, next_id: u64) -> bool {
    &&& o.user_id < n_users
    &&& o.stock_id < n_stocks
    &&& o.price > 0
    &&& o.volume > 0
    &&& 0 <= o.unfulfilled <= o.volume
    &&& o.id < next_id
}

pub open spec fn book_well_formed(b: Seq<Order>, n_users: int, n_stocks: int, next_id: u64) -> bool {
    &&& forall|i: int| 0 <= i < b.len() ==> order_well_formed(#[trigger] b[i], n_users, n_stocks, next_id)
    &&& forall|i: int, j: int| 0 <= i < j < b.len() ==> (#[trigger] b[i]).id < (#[trigger] b[j]).id
}

/// Orders along `b` were created in time order, none after `clock`.
pub open spec fn book_in_time(b: Seq<Order>, clock: i64) -> bool {
    &&& forall|i: int, j: int| 0 <= i < j < b.len() ==> (#[trigger] b[i]).created_at <= (#[trigger] b[j]).created_at
    &&& forall|i: int| 0 <= i < b.len() ==> (#[trigger] b[i]).created_at <= clock
}

/// Trades along `d` were made in time order, none after `clock`.
pub open spec fn deals_in_time(d: Seq<Deal>, clock: i64) -> bool {
    &&& forall|i: int, j: int| 0 <= i < j < d.len() ==> (#[trigger] d[i]).created_at <= (#[trigger] d[j]).created_at
    &&& forall|i: int| 0 <= i < d.len() ==> (#[trigger] d[i]).created_at <= clock
}

pub proof fn lemma_book_in_time_update(b: Seq<Order>, i: int, o: Order, clock: i64)
    requires
        book_in_time(b, clock),
        0 <= i < b.len(),
        o.created_at == b[i].created_at,
    ensures
        book_in_time(b.update(i, o), clock),
{
    let c = b.update(i, o);
    assert forall|k: int, j: int| 0 <= k < j < c.len() implies (#[trigger] c[k]).created_at <= (#[trigger] c[j]).created_at by {
        assert(b[k].created_at <= b[j].created_at);
    }
    assert forall|k: int| 0 <= k < c.len() implies (#[trigger] c[k]).created_at <= clock by {
        assert(b[k].created_at <= clock);
    }
}

pub proof fn lemma_book_in_time_push(b: Seq<Order>, o: Order, clock: i64)
    requires
        book_in_time(b, clock),
        o.created_at == clock,
    ensures
        book_in_time(b.push(o), clock),
{
    let c = b.push(o);
    assert forall|k: int, j: int| 0 <= k < j < c.len() implies (#[trigger] c[k]).created_at <= (#[trigger] c[j]).created_at by {
        assert(b[k].created_at <= clock);
        if j < b.len() {
            assert(b[k].created_at <= b[j].created_at);
        }
    }
    assert forall|k: int| 0 <= k < c.len() implies (#[trigger] c[k]).created_at <= clock by {
        if k < b.len() {
            assert(b[k].created_at <= clock);
        }
    }
}

pub proof fn lemma_book_in_time_remove(b: Seq<Order>, i: int, clock: i64)
    requires
        book_in_time(b, clock),
        0 <= i < b.len(),
    ensures
        book_in_time(b.remove(i), clock),
{
    let c = b.remove(i);
    assert forall|k: int, j: int| 0 <= k < j < c.len() implies (#[trigger] c[k]).created_at <= (#[trigger] c[j]).created_at by {
        let k2 = if k < i { k } else { k + 1 };
        let j2 = if j < i { j } else { j + 1 };
        assert(c[k] == b[k2]);
        assert(c[j] == b[j2]);
        assert(b[k2].created_at <= b[j2].created_at);
    }
    assert forall|k: int| 0 <= k < c.len() implies (#[trigger] c[k]).created_at <= clock by {
        let k2 = if k < i { k } else { k + 1 };
        assert(c[k] == b[k2]);
        assert(b[k2].created_at <= clock);
    }
}

pub proof fn lemma_deals_in_time_push(d: Seq<Deal>, x: Deal, clock: i64)
    requires
        deals_in_time(d, clock),
        x.created_at == clock,
    ensures
        deals_in_time(d.push(x), clock),
{
    let c = d.push(x);
    assert forall|k: int, j: int| 0 <= k < j < c.len() implies (#[trigger] c[k]).created_at <= (#[trigger] c[j]).created_at by {
        assert(d[k].created_at <= clock);
        if j < d.len() {
            assert(d[k].created_at <= d[j].created_at);
        }
    }
    assert forall|k: int| 0 <= k < c.len() implies (#[trigger] c[k]).created_at <= clock by {
        if k < d.len() {
            assert(d[k].created_at <= clock);
        }
    }
}

/// The time an operation at `now` is stamped with: never before the
/// ledger's clock, so that orders and trades are recorded in time order.
pub open spec fn stamp(v: LedgerView, now: i64) -> i64 {
    if now < v.clock { v.clock } else { now }
}

/// The ledger with its clock moved to `stamp(v, now)`.
pub open spec fn advance(v: LedgerView, now: i64) -> LedgerView {
    LedgerView { clock: stamp(v, now), ..v }
}

pub proof fn lemma_advance(v: LedgerView, now: i64)
    requires
        v.wf(),
    ensures
        advance(v, now).wf(),
        advance(v, now).clock == stamp(v, now),
        advance(v, now).cash_total() == v.cash_total(),
        forall|t: usize| #[trigger] advance(v, now).shares_total(t) == v.shares_total(t),
{
    let w = advance(v, now);
    assert forall|k: int| 0 <= k < w.asks.len() implies (#[trigger] w.asks[k]).created_at <= w.clock by {
        assert(v.asks[k].created_at <= v.clock);
    }
    assert forall|k: int| 0 <= k < w.bids.len() implies (#[trigger] w.bids[k]).created_at <= w.clock by {
        assert(v.bids[k].created_at <= v.clock);
    }
    assert forall|k: int| 0 <= k < w.deals.len() implies (#[trigger] w.deals[k]).created_at <= w.clock by {
        assert(v.deals[k].created_at <= v.clock);
    }
    assert forall|t: usize| t < w.stocks.len() implies #[trigger] w.shares_total(t) == w.issued(t) by {
        assert(v.shares_total(t) == v.issued(t));
    }
}

impl LedgerView {
    /// The book an order of `side` rests on.
    pub open spec fn book(self, side: AskOrBid) -> Seq<Order> {
        match side {
            AskOrBid::Ask => self.asks,
            AskOrBid::Bid => self.bids,
        }
    }

    /// All cash held for users: their balances and the reserves of their bids.
    pub open spec fn cash_total(self) -> int {
        sum_of(self.users, balance_term()) + sum_of(self.bids, reserve_term())
    }

    /// All shares of stock `s` held for users: in holdings and in asks' reserves.
    pub open spec fn shares_total(self, s: usize) -> int {
        sum_of(self.holds, held_term(s)) + sum_of(self.asks, offered_term(s))
    }

    /// The shares of stock `s` sold from its IPO pool so far.
    pub open spec fn issued(self, s: usize) -> int {
        self.new_stocks[s as int].offer_circ - self.new_stocks[s as int].offer_unfulfilled
    }

    /// The holding of user `u` in stock `s`: its row's count, or 0 with no row.
    pub open spec fn hold_of(self, u: usize, s: usize) -> int {
        if exists|i: int| 0 <= i < self.holds.len() && #[trigger] self.holds[i].user_id == u && self.holds[i].stock_id == s {
            let i = choose|i: int| 0 <= i < self.holds.len() && #[trigger] self.holds[i].user_id == u && self.holds[i].stock_id == s;
            self.holds[i].hold as int
        } else {
            0
        }
    }

    pub open spec fn users_wf(self) -> bool {
        forall|i: int| 0 <= i < self.users.len() ==> (#[trigger] self.users[i]).id == i && self.users[i].balance >= 0
    }

    pub open spec fn stocks_wf(self) -> bool {
        &&& self.stocks.len() == self.new_stocks.len()
        &&& forall|i: int| 0 <= i < self.stocks.len() ==> (#[trigger] self.stocks[i]).id == i
        &&& forall|i: int| 0 <= i < self.new_stocks.len() ==> {
            let n = #[trigger] self.new_stocks[i];
            &&& n.id == i
            &&& n.issuer_id < self.users.len()
            &&& n.offer_price > 0
            &&& 0 <= n.offer_unfulfilled <= n.offer_circ
        }
    }

    pub open spec fn holds_wf(self) -> bool {
        &&& forall|i: int| 0 <= i < self.holds.len() ==> {
            let h = #[trigger] self.holds[i];
            &&& h.user_id < self.users.len()
            &&& h.stock_id < self.stocks.len()
            &&& h.hold >= 0
        }
        &&& forall|i: int, j: int| 0 <= i < self.holds.len() && 0 <= j < self.holds.len() && i != j
            ==> !((#[trigger] self.holds[i]).user_id == (#[trigger] self.holds[j]).user_id
                && self.holds[i].stock_id == self.holds[j].stock_id)
    }

    pub open spec fn books_wf(self) -> bool {
        &&& book_well_formed(self.asks, self.users.len() as int, self.stocks.len() as int, self.next_order_id)
        &&& book_well_formed(self.bids, self.users.len() as int, self.stocks.len() as int, self.next_order_id)
    }

    pub open spec fn deals_wf(self) -> bool {
        forall|i: int| 0 <= i < self.deals.len() ==> {
            let d = #[trigger] self.deals[i];
            &&& d.buy_user_id < self.users.len()
            &&& d.stock_id < self.stocks.len()
            &&& (d.sell_user_id matches Some(s) ==> s < self.users.len())
        }
    }

    pub open spec fn favorites_wf(self) -> bool {
        forall|i: int| 0 <= i < self.favorites.len() ==> (#[trigger] self.favorites[i]).stock_id < self.stocks.len()
    }

    /// The invariants of the ledger: ids match positions, no balance, holding
    /// or unfulfilled count is negative, no order is filled beyond its volume,
    /// the cash held for users is the custody counter, and every share of a
    /// stock held for users was sold from its IPO pool.
    pub open spec fn wf(self) -> bool {
        &&& self.users_wf()
        &&& self.stocks_wf()
        &&& self.holds_wf()
        &&& self.books_wf()
        &&& self.favorites_wf()
        &&& self.deals_wf()
        &&& book_in_time(self.asks, self.clock)
        &&& book_in_time(self.bids, self.clock)
        &&& deals_in_time(self.deals, self.clock)
        &&& self.cash_total() == self.cash_in_custody
        &&& forall|s: usize| s < self.stocks.len() ==> #[trigger] self.shares_total(s) == self.issued(s)
    }
}

/// `users` with `amt` added to the balance of user `u`.
pub open spec fn credit_user(users: Seq<User>, u: int, amt: int) -> Seq<User> {
    users.update(u, User { balance: (users[u].balance + amt) as i64, ..users[u] })
}

pub open spec fn holds_key(holds: Seq<UserStockRel>, i: int, u: usize, s: usize) -> bool {
    0 <= i < holds.len() && holds[i].user_id == u && holds[i].stock_id == s
}

/// `holds` with `amt` shares of `s` added for user `u`: to its row if there
/// is one, else in a new row.
pub open spec fn credit_hold(holds: Seq<UserStockRel>, u: usize, s: usize, amt: int, now: i64) -> Seq<UserStockRel> {
    if exists|i: int| #[trigger] holds_key(holds, i, u, s) {
        let i = choose|i: int| #[trigger] holds_key(holds, i, u, s);
        holds.update(i, UserStockRel { hold: (holds[i].hold + amt) as i64, updated_at: now, ..holds[i] })
    } else {
        holds.push(UserStockRel { user_id: u, stock_id: s, hold: amt as i64, updated_at: now })
    }
}

pub proof fn lemma_credit_user_sum(users: Seq<User>, u: int, amt: int)
    requires
        0 <= u < users.len(),
        i64::MIN <= users[u].balance + amt <= i64::MAX,
    ensures
        sum_of(credit_user(users, u, amt), balance_term()) == sum_of(users, balance_term()) + amt,
{
    crate::sums::lemma_sum_update(users, u, User { balance: (users[u].balance + amt) as i64, ..users[u] }, balance_term());
}

/// The row of a key is unique, so `choose` finds the row a scan finds.
pub proof fn lemma_hold_row_unique(v: LedgerView, i: int, u: usize, s: usize)
    requires
        v.holds_wf(),
        holds_key(v.holds, i, u, s),
    ensures
        (choose|j: int| #[trigger] holds_key(v.holds, j, u, s)) == i,
        v.hold_of(u, s) == v.holds[i].hold,
{
    let j = choose|j: int| #[trigger] holds_key(v.holds, j, u, s);
    assert(holds_key(v.holds, j, u, s));
    if j != i {
        assert(v.holds[i].user_id == v.holds[j].user_id);
    }
    let k = choose|k: int| 0 <= k < v.holds.len() && #[trigger] v.holds[k].user_id == u && v.holds[k].stock_id == s;
    assert(0 <= i < v.holds.len() && v.holds[i].user_id == u && v.holds[i].stock_id == s);
    if k != i {
        assert(v.holds[i].user_id == v.holds[k].user_id);
    }
}

pub proof fn lemma_no_hold_row(v: LedgerView, u: usize, s: usize)
    requires
        !exists|i: int| #[trigger] holds_key(v.holds, i, u, s),
    ensures
        v.hold_of(u, s) == 0,
{
    assert(!exists|k: int| 0 <= k < v.holds.len() && #[trigger] v.holds[k].user_id == u && v.holds[k].stock_id == s) by {
        if exists|k: int| 0 <= k < v.holds.len() && #[trigger] v.holds[k].user_id == u && v.holds[k].stock_id == s {
            let k = choose|k: int| 0 <= k < v.holds.len() && #[trigger] v.holds[k].user_id == u && v.holds[k].stock_id == s;
            assert(holds_key(v.holds, k, u, s));
        }
    }
}

pub proof fn lemma_credit_hold(v: LedgerView, u: usize, s: usize, amt: int, now: i64)
    requires
        v.holds_wf(),
        u < v.users.len(),
        s < v.stocks.len(),
        0 <= v.hold_of(u, s) + amt <= i64::MAX,
    ensures
        ({
            let w = LedgerView { holds: credit_hold(v.holds, u, s, amt, now), ..v };
            &&& w.holds_wf()
            &&& w.hold_of(u, s) == v.hold_of(u, s) + amt
            &&& forall|t: usize| #[trigger] sum_of(w.holds, held_term(t))
                == sum_of(v.holds, held_term(t)) + if t == s { amt } else { 0 }
        }),
{
    let w = LedgerView { holds: credit_hold(v.holds, u, s, amt, now), ..v };
    if exists|i: int| #[trigger] holds_key(v.holds, i, u, s) {
        let i = choose|i: int| #[trigger] holds_key(v.holds, i, u, s);
        lemma_hold_row_unique(v, i, u, s);
        let x = UserStockRel { hold: (v.holds[i].hold + amt) as i64, updated_at: now, ..v.holds[i] };
        assert(w.holds == v.holds.update(i, x));
        assert forall|t: usize| #[trigger] sum_of(w.holds, held_term(t))
            == sum_of(v.holds, held_term(t)) + if t == s { amt } else { 0 } by {
            crate::sums::lemma_sum_update(v.holds, i, x, held_term(t));
        }
        assert(holds_key(w.holds, i, u, s));
        lemma_hold_row_unique(w, i, u, s);
    } else {
        let x = UserStockRel { user_id: u, stock_id: s, hold: amt as i64, updated_at: now };
        assert(w.holds == v.holds.push(x));
        assert forall|t: usize| #[trigger] sum_of(w.holds, held_term(t))
            == sum_of(v.holds, held_term(t)) + if t == s { amt } else { 0 } by {
            crate::sums::lemma_sum_push(v.holds, x, held_term(t));
        }
        assert(!exists|k: int| 0 <= k < v.holds.len() && #[trigger] v.holds[k].user_id == u && v.holds[k].stock_id == s) by {
            if exists|k: int| 0 <= k < v.holds.len() && #[trigger] v.holds[k].user_id == u && v.holds[k].stock_id == s {
                let k = choose|k: int| 0 <= k < v.holds.len() && #[trigger] v.holds[k].user_id == u && v.holds[k].stock_id == s;
                assert(holds_key(v.holds, k, u, s));
            }
        }
        assert(holds_key(w.holds, v.holds.len() as int, u, s));
        lemma_hold_row_unique(w, v.holds.len() as int, u, s);
    }
}

impl Ledger {
    pub open spec fn wf(&self) -> bool {
        self@.wf()
    }

    /// An empty exchange.
    pub fn new() -> (r: Ledger)
        ensures
            r.wf(),
            r@.users.len() == 0,
            r@.stocks.len() == 0,
            r@.holds.len() == 0,
            r@.asks.len() == 0,
            r@.bids.len() == 0,
            r@.deals.len() == 0,
    {
        let r = Ledger {
            users: Vec::new(),
            stocks: Vec::new(),
            new_stocks: Vec::new(),
            holds: Vec::new(),
            asks: Vec::new(),
            bids: Vec::new(),
            deals: Vec::new(),
            favorites: Vec::new(),
            next_order_id: 0,
            clock: i64::MIN,
            cash_in_custody: 0,
        };
        assert(r@.cash_total() == 0);
        r
    }

    /// The balance of user `user_id` in cents, if the user exists.
    pub fn balance(&self, user_id: usize) -> (r: Option<i64>)
        ensures
            r == if user_id < self@.users.len() { Some(self@.users[user_id as int].balance) } else { None },
    {
        if user_id < self.users.len() {
            Some(self.users[user_id].balance)
        } else {
            None
        }
    }

    /// The name of user `user_id`, if the user exists.
    pub fn user_name(&self, user_id: usize) -> (r: Option<String>)
        ensures
            match r {
                Some(n) => user_id < self@.users.len() && n@ == self@.users[user_id as int].name@,
                None => user_id >= self@.users.len(),
            },
    {
        if user_id < self.users.len() {
            Some(self.users[user_id].name.clone())
        } else {
            None
        }
    }

    /// The number of registered users; their ids are `0..user_count()`.
    pub fn user_count(&self) -> (r: usize)
        ensures
            r == self@.users.len(),
    {
        self.users.len()
    }

    /// The number of issued stocks; their ids are `0..stock_count()`.
    pub fn stock_count(&self) -> (r: usize)
        ensures
            r == self@.stocks.len(),
    {
        self.stocks.len()
    }

    /// Whether stock `stock_id` is listed, if it exists.
    pub fn is_listed(&self, stock_id: usize) -> (r: Option<bool>)
        ensures
            r == if stock_id < self@.stocks.len() { Some(self@.stocks[stock_id as int].into_market) } else { None },
    {
        if stock_id < self.stocks.len() {
            Some(self.stocks[stock_id].into_market)
        } else {
            None
        }
    }

    /// The IPO record of stock `stock_id`, if it exists.
    pub fn new_stock(&self, stock_id: usize) -> (r: Option<NewStock>)
        ensures
            r == if stock_id < self@.new_stocks.len() { Some(self@.new_stocks[stock_id as int]) } else { None },
    {
        if stock_id < self.new_stocks.len() {
            Some(self.new_stocks[stock_id])
        } else {
            None
        }
    }

    /// The resting asks, oldest first.
    pub fn asks(&self) -> (r: &Vec<Order>)
        ensures
            r@ == self@.asks,
    {
        &self.asks
    }

    /// The resting bids, oldest first.
    pub fn bids(&self) -> (r: &Vec<Order>)
        ensures
            r@ == self@.bids,
    {
        &self.bids
    }

    /// All trades, oldest first.
    pub fn deals(&self) -> (r: &Vec<Deal>)
        ensures
            r@ == self@.deals,
    {
        &self.deals
    }

    /// The id the next admitted order gets.
    pub fn next_order_id(&self) -> (r: u64)
        ensures
            r == self@.next_order_id,
    {
        self.next_order_id
    }

    /// All cash the exchange holds for its users: deposits less what IPO
    /// purchases spent.
    pub fn cash_in_custody(&self) -> (r: i64)
        ensures
            r == self@.cash_in_custody,
    {
        self.cash_in_custody
    }

    /// The position of the holding row of `(u, s)`, if there is one.
    pub(crate) fn find_hold(&self, u: usize, s: usize) -> (r: Option<usize>)
        ensures
            match r {
                Some(i) => holds_key(self@.holds, i as int, u, s),
                None => !exists|i: int| #[trigger] holds_key(self@.holds, i, u, s),
            },
    {
        let mut i: usize = 0;
        while i < self.holds.len()
            invariant
                i <= self.holds@.len(),
                forall|j: int| 0 <= j < i ==> !#[trigger] holds_key(self@.holds, j, u, s),
            decreases self.holds@.len() - i,
        {
            if self.holds[i].user_id == u && self.holds[i].stock_id == s {
                return Some(i);
            }
            i = i + 1;
        }
        None
    }

    /// The shares of stock `s` that user `u` holds.
    pub fn holding(&self, u: usize, s: usize) -> (r: i64)
        requires
            self.wf(),
        ensures
            r == self@.hold_of(u, s),
    {
        match self.find_hold(u, s) {
            Some(i) => {
                proof {
                    lemma_hold_row_unique(self@, i as int, u, s);
                }
                self.holds[i].hold
            },
            None => {
                proof {
                    lemma_no_hold_row(self@, u, s);
                }
                0
            },
        }
    }

    /// Adds `amt` to the balance of user `u`.
    pub(crate) fn credit_balance(&mut self, u: usize, amt: i64)
        requires
            u < old(self)@.users.len(),
            i64::MIN <= old(self)@.users[u as int].balance + amt <= i64::MAX,
        ensures
            final(self)@ == (LedgerView { users: credit_user(old(self)@.users, u as int, amt as int), ..old(self)@ }),
    {
        let b = self.users[u].balance + amt;
        self.users[u].balance = b;
        assert(self@.users =~= credit_user(old(self)@.users, u as int, amt as int));
    }

    /// Adds `amt` shares of `s` to the holding of user `u`, making its row if
    /// there is none.
    pub(crate) fn credit_holding(&mut self, u: usize, s: usize, amt: i64, now: i64)
        requires
            old(self)@.holds_wf(),
            0 <= old(self)@.hold_of(u, s) + amt <= i64::MAX,
        ensures
            final(self)@ == (LedgerView { holds: credit_hold(old(self)@.holds, u, s, amt as int, now), ..old(self)@ }),
    {
        match self.find_hold(u, s) {
            Some(i) => {
                proof {
                    lemma_hold_row_unique(self@, i as int, u, s);
                }
                let h = self.holds[i].hold + amt;
                self.holds[i].hold = h;
                self.holds[i].updated_at = now;
                assert(self@.holds =~= credit_hold(old(self)@.holds, u, s, amt as int, now));
            },
            None => {
                self.holds.push(UserStockRel { user_id: u, stock_id: s, hold: amt, updated_at: now });
            },
        }
    }
}

} // verus!
