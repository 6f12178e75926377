//! Read-only views of stocks and holdings.
use vstd::prelude::*;
use crate::ledger::{Ledger, LedgerView, UserStockRel};
use crate::errors::{EngineError, Refusal};
use crate::paging::{PagingModel, page, page_of, offset_of, limit_of, rank, is_ranking};

verus! {

/// A stock with its IPO record and the name of its issuer.
#[derive(Debug)]
pub struct GetNewStockModel {
    pub id: usize,
    pub name: String,
    pub issuer_id: Option<usize>,
    pub issuer_name: Option<String>,
    pub into_market: bool,
    pub into_market_at: Option<i64>,
    pub offer_circ: Option<i64>,
    pub offer_price: Option<i32>,
    pub offer_unfulfilled: Option<i64>,
    pub created_at: Option<i64>,
}

/// A user's holding of one stock.
#[derive(Clone, Copy, Debug)]
pub struct HoldingModel {
    pub hold: i64,
}

/// Which stocks a listing shows.
#[derive(Clone, Copy, Debug)]
pub enum StockFilter {
    Listed,
    InIpo,
    ListedBy(usize),
    InIpoBy(usize),
}

pub open spec fn selects(f: StockFilter, v: LedgerView, i: int) -> bool {
    match f {
        StockFilter::Listed => v.stocks[i].into_market,
        StockFilter::InIpo => !v.stocks[i].into_market,
        StockFilter::ListedBy(u) => v.stocks[i].into_market && v.new_stocks[i].issuer_id == u,
        StockFilter::InIpoBy(u) => !v.stocks[i].into_market && v.new_stocks[i].issuer_id == u,
    }
}

/// The time a listing of `f` orders stock `i` by: when it was listed for
/// listed stocks, when it was issued for stocks in their IPO.
pub open spec fn stock_key(f: StockFilter, v: LedgerView, i: int) -> i64 {
    match f {
        StockFilter::Listed | StockFilter::ListedBy(_) => match v.stocks[i].into_market_at {
            Some(t) => t,
            None => i64::MIN,
        },
        StockFilter::InIpo | StockFilter::InIpoBy(_) => v.new_stocks[i].created_at,
    }
}

/// The `(time, id)` items of the first `n` stocks that `f` selects, by id.
pub open spec fn stock_items(v: LedgerView, f: StockFilter, n: int) -> Seq<(i64, usize)>
    decreases n,
{
    if n <= 0 {
        Seq::empty()
    } else if selects(f, v, n - 1) {
        stock_items(v, f, n - 1).push((stock_key(f, v, n - 1), (n - 1) as usize))
    } else {
        stock_items(v, f, n - 1)
    }
}

/// `r` is the page `paging` asks for of the stocks that `f` selects, the
/// latest listed (or, in their IPO, the latest issued) first, and at one
/// time the larger id first.
pub open spec fn lists(v: LedgerView, f: StockFilter, paging: PagingModel, r: Seq<GetNewStockModel>) -> bool {
    exists|ranked: Seq<(i64, usize)>| #[trigger] is_ranking(stock_items(v, f, v.stocks.len() as int), ranked) && {
        let ids = page_of(ranked.map_values(|p: (i64, usize)| p.1), offset_of(paging), limit_of(paging));
        &&& r.len() == ids.len()
        &&& forall|k: int| 0 <= k < r.len() ==> describes(v, #[trigger] r[k], ids[k] as int)
    }
}

/// Whether `m` shows stock `i` of ledger `v`.
pub open spec fn describes(v: LedgerView, m: GetNewStockModel, i: int) -> bool {
    let s = v.stocks[i];
    let n = v.new_stocks[i];
    &&& m.id == i
    &&& m.name@ == s.name@
    &&& m.issuer_id == Some(n.issuer_id)
    &&& (m.issuer_name matches Some(x) && x@ == v.users[n.issuer_id as int].name@)
    &&& m.into_market == s.into_market
    &&& m.into_market_at == s.into_market_at
    &&& m.offer_circ == Some(n.offer_circ)
    &&& m.offer_price == Some(n.offer_price)
    &&& m.offer_unfulfilled == Some(n.offer_unfulfilled)
    &&& m.created_at == Some(n.created_at)
}

pub(crate) fn describe(ledger: &Ledger, i: usize) -> (m: GetNewStockModel)
    requires
        ledger.wf(),
        i < ledger@.stocks.len(),
    ensures
        describes(ledger@, m, i as int),
{
    let n = ledger.new_stocks[i];
    assert(n.issuer_id < ledger@.users.len());
    GetNewStockModel {
        id: i,
        name: ledger.stocks[i].name.clone(),
        issuer_id: Some(n.issuer_id),
        issuer_name: Some(ledger.users[n.issuer_id].name.clone()),
        into_market: ledger.stocks[i].into_market,
        into_market_at: ledger.stocks[i].into_market_at,
        offer_circ: Some(n.offer_circ),
        offer_price: Some(n.offer_price),
        offer_unfulfilled: Some(n.offer_unfulfilled),
        created_at: Some(n.created_at),
    }
}

fn describe_all(ledger: &Ledger, ids: &Vec<usize>) -> (r: Vec<GetNewStockModel>)
    requires
        ledger.wf(),
        forall|k: int| 0 <= k < ids@.len() ==> #[trigger] ids@[k] < ledger@.stocks.len(),
    ensures
        r@.len() == ids@.len(),
        forall|k: int| 0 <= k < r@.len() ==> describes(ledger@, #[trigger] r@[k], ids@[k] as int),
{
    let mut r: Vec<GetNewStockModel> = Vec::new();
    let mut k: usize = 0;
    while k < ids.len()
        invariant
            ledger.wf(),
            forall|j: int| 0 <= j < ids@.len() ==> #[trigger] ids@[j] < ledger@.stocks.len(),
            k <= ids@.len(),
            r@.len() == k,
            forall|j: int| 0 <= j < k ==> describes(ledger@, #[trigger] r@[j], ids@[j] as int),
        decreases ids@.len() - k,
    {
        let m = describe(ledger, ids[k]);
        r.push(m);
        k = k + 1;
    }
    r
}

fn stock_items_of(ledger: &Ledger, f: StockFilter) -> (r: Vec<(i64, usize)>)
    requires
        ledger.wf(),
    ensures
        r@ == stock_items(ledger@, f, ledger@.stocks.len() as int),
        forall|k: int| 0 <= k < r@.len() ==> (#[trigger] r@[k]).1 < ledger@.stocks.len(),
        forall|a: int, b: int| 0 <= a < b < r@.len() ==> (#[trigger] r@[a]).1 < (#[trigger] r@[b]).1,
{
    let mut r: Vec<(i64, usize)> = Vec::new();
    let mut i: usize = 0;
    while i < ledger.stocks.len()
        invariant
            ledger.wf(),
            i <= ledger@.stocks.len(),
            r@ == stock_items(ledger@, f, i as int),
            forall|k: int| 0 <= k < r@.len() ==> (#[trigger] r@[k]).1 < i,
            forall|a: int, b: int| 0 <= a < b < r@.len() ==> (#[trigger] r@[a]).1 < (#[trigger] r@[b]).1,
        decreases ledger@.stocks.len() - i,
    {
        let listed = ledger.stocks[i].into_market;
        let issuer = ledger.new_stocks[i].issuer_id;
        let (pick, key) = match f {
            StockFilter::Listed => (listed, match ledger.stocks[i].into_market_at {
                Some(t) => t,
                None => i64::MIN,
            }),
            StockFilter::ListedBy(u) => (listed && issuer == u, match ledger.stocks[i].into_market_at {
                Some(t) => t,
                None => i64::MIN,
            }),
            StockFilter::InIpo => (!listed, ledger.new_stocks[i].created_at),
            StockFilter::InIpoBy(u) => (!listed && issuer == u, ledger.new_stocks[i].created_at),
        };
        if pick {
            r.push((key, i));
        }
        i = i + 1;
    }
    r
}

/// The tags of `ranked`, in order.
fn tags_of(ranked: &Vec<(i64, usize)>) -> (r: Vec<usize>)
    ensures
        r@ == ranked@.map_values(|p: (i64, usize)| p.1),
{
    let mut r: Vec<usize> = Vec::new();
    let mut k: usize = 0;
    while k < ranked.len()
        invariant
            k <= ranked@.len(),
            r@ == ranked@.subrange(0, k as int).map_values(|p: (i64, usize)| p.1),
        decreases ranked@.len() - k,
    {
        r.push(ranked[k].1);
        k = k + 1;
        assert(r@ =~= ranked@.subrange(0, k as int).map_values(|p: (i64, usize)| p.1));
    }
    assert(ranked@.subrange(0, ranked@.len() as int) == ranked@);
    r
}

/// A page of the stocks that `f` selects, the latest listed (or, in their
/// IPO, the latest issued) first.
pub fn list_stocks(ledger: &Ledger, f: StockFilter, paging: PagingModel) -> (r: Vec<GetNewStockModel>)
    requires
        ledger.wf(),
    ensures
        lists(ledger@, f, paging, r@),
{
    let items = stock_items_of(ledger, f);
    let ranked = rank(&items);
    let all = tags_of(&ranked);
    let ids = page(&all, paging);
    proof {
        assert forall|k: int| 0 <= k < all@.len() implies #[trigger] all@[k] < ledger@.stocks.len() by {
            assert(all@[k] == ranked@[k].1);
            assert(items@.contains(ranked@[k]));
        }
        let o = if offset_of(paging) < all@.len() { offset_of(paging) } else { all@.len() as int };
        assert forall|k: int| 0 <= k < ids@.len() implies #[trigger] ids@[k] < ledger@.stocks.len() by {
            assert(ids@[k] == all@[o + k]);
        }
    }
    let r = describe_all(ledger, &ids);
    proof {
        assert(is_ranking(stock_items(ledger@, f, ledger@.stocks.len() as int), ranked@));
    }
    r
}

/// A page of the listed stocks, the latest listed first.
pub fn get_stocks(ledger: &Ledger, paging: PagingModel) -> (r: Vec<GetNewStockModel>)
    requires
        ledger.wf(),
    ensures
        lists(ledger@, StockFilter::Listed, paging, r@),
{
    list_stocks(ledger, StockFilter::Listed, paging)
}

/// A page of the stocks still in their IPO, the latest issued first.
pub fn get_ipo_stocks(ledger: &Ledger, paging: PagingModel) -> (r: Vec<GetNewStockModel>)
    requires
        ledger.wf(),
    ensures
        lists(ledger@, StockFilter::InIpo, paging, r@),
{
    list_stocks(ledger, StockFilter::InIpo, paging)
}

/// A page of the listed stocks that user `user_id` issued, the latest listed
/// first.
pub fn get_my_stocks(ledger: &Ledger, user_id: usize, paging: PagingModel) -> (r: Vec<GetNewStockModel>)
    requires
        ledger.wf(),
    ensures
        lists(ledger@, StockFilter::ListedBy(user_id), paging, r@),
{
    list_stocks(ledger, StockFilter::ListedBy(user_id), paging)
}

/// A page of the stocks that user `user_id` issued and has not listed yet,
/// the latest issued first.
pub fn get_my_ipo_stocks(ledger: &Ledger, user_id: usize, paging: PagingModel) -> (r: Vec<GetNewStockModel>)
    requires
        ledger.wf(),
    ensures
        lists(ledger@, StockFilter::InIpoBy(user_id), paging, r@),
{
    list_stocks(ledger, StockFilter::InIpoBy(user_id), paging)
}

/// Stock `stock_id`; not found when it does not exist.
pub fn get_stock(ledger: &Ledger, stock_id: usize) -> (r: Result<GetNewStockModel, EngineError>)
    requires
        ledger.wf(),
    ensures
        match r {
            Ok(m) => stock_id < ledger@.stocks.len() && describes(ledger@, m, stock_id as int),
            Err(e) => e.refusal() == Refusal::NotFound && stock_id >= ledger@.stocks.len(),
        },
{
    if stock_id < ledger.stocks.len() {
        Ok(describe(ledger, stock_id))
    } else {
        Err(EngineError::NotFound("no such stock".to_owned()))
    }
}

/// The stock named `name`; not found when there is none.
pub fn get_stock_by_name(ledger: &Ledger, name: &String) -> (r: Result<GetNewStockModel, EngineError>)
    requires
        ledger.wf(),
    ensures
        match r {
            Ok(m) => exists|i: int| 0 <= i < ledger@.stocks.len() && (#[trigger] ledger@.stocks[i]).name@ == name@
                && describes(ledger@, m, i),
            Err(e) => e.refusal() == Refusal::NotFound
                && forall|i: int| 0 <= i < ledger@.stocks.len() ==> (#[trigger] ledger@.stocks[i]).name@ != name@,
        },
{
    let mut i: usize = 0;
    while i < ledger.stocks.len()
        invariant
            ledger.wf(),
            i <= ledger@.stocks.len(),
            forall|j: int| 0 <= j < i ==> (#[trigger] ledger@.stocks[j]).name@ != name@,
        decreases ledger@.stocks.len() - i,
    {
        if ledger.stocks[i].name == *name {
            let m = describe(ledger, i);
            assert((ledger@.stocks[i as int]).name@ == name@);
            return Ok(m);
        }
        i = i + 1;
    }
    Err(EngineError::NotFound("no such stock".to_owned()))
}

/// The `(updated_at, row)` items of the first `n` holding rows of user
/// `user_id`, by row.
pub open spec fn hold_items(holds: Seq<UserStockRel>, user_id: usize, n: int) -> Seq<(i64, usize)>
    decreases n,
{
    if n <= 0 {
        Seq::empty()
    } else if holds[n - 1].user_id == user_id {
        hold_items(holds, user_id, n - 1).push((holds[n - 1].updated_at, (n - 1) as usize))
    } else {
        hold_items(holds, user_id, n - 1)
    }
}

/// `r` is the page `paging` asks for of the stocks user `user_id` has
/// holding rows of, the latest updated row first, and at one time the later
/// made row first.
pub open spec fn holds_lists(v: LedgerView, user_id: usize, paging: PagingModel, r: Seq<GetNewStockModel>) -> bool {
    exists|ranked: Seq<(i64, usize)>| #[trigger] is_ranking(hold_items(v.holds, user_id, v.holds.len() as int), ranked) && {
        let ids = page_of(
            ranked.map_values(|p: (i64, usize)| v.holds[p.1 as int].stock_id),
            offset_of(paging),
            limit_of(paging),
        );
        &&& r.len() == ids.len()
        &&& forall|k: int| 0 <= k < r.len() ==> describes(v, #[trigger] r[k], ids[k] as int)
    }
}

/// A page of the stocks user `user_id` has holding rows of, the latest
/// updated first.
pub fn get_my_holds(ledger: &Ledger, user_id: usize, paging: PagingModel) -> (r: Vec<GetNewStockModel>)
    requires
        ledger.wf(),
    ensures
        holds_lists(ledger@, user_id, paging, r@),
{
    let mut items: Vec<(i64, usize)> = Vec::new();
    let mut i: usize = 0;
    while i < ledger.holds.len()
        invariant
            i <= ledger@.holds.len(),
            items@ == hold_items(ledger@.holds, user_id, i as int),
            forall|k: int| 0 <= k < items@.len() ==> (#[trigger] items@[k]).1 < i,
            forall|a: int, b: int| 0 <= a < b < items@.len() ==> (#[trigger] items@[a]).1 < (#[trigger] items@[b]).1,
        decreases ledger@.holds.len() - i,
    {
        if ledger.holds[i].user_id == user_id {
            items.push((ledger.holds[i].updated_at, i));
        }
        i = i + 1;
    }
    let ranked = rank(&items);
    let mut all: Vec<usize> = Vec::new();
    let mut k: usize = 0;
    while k < ranked.len()
        invariant
            ledger.wf(),
            k <= ranked@.len(),
            forall|j: int| 0 <= j < ranked@.len() ==> items@.contains(#[trigger] ranked@[j]),
            forall|j: int| 0 <= j < items@.len() ==> (#[trigger] items@[j]).1 < ledger@.holds.len(),
            all@ == ranked@.subrange(0, k as int).map_values(|p: (i64, usize)| ledger@.holds[p.1 as int].stock_id),
            forall|j: int| 0 <= j < all@.len() ==> #[trigger] all@[j] < ledger@.stocks.len(),
        decreases ranked@.len() - k,
    {
        let row = ranked[k].1;
        assert(items@.contains(ranked@[k as int]));
        let sid = ledger.holds[row].stock_id;
        all.push(sid);
        k = k + 1;
        assert(all@ =~= ranked@.subrange(0, k as int).map_values(|p: (i64, usize)| ledger@.holds[p.1 as int].stock_id));
    }
    assert(ranked@.subrange(0, ranked@.len() as int) == ranked@);
    let ids = page(&all, paging);
    proof {
        let o = if offset_of(paging) < all@.len() { offset_of(paging) } else { all@.len() as int };
        assert forall|j: int| 0 <= j < ids@.len() implies #[trigger] ids@[j] < ledger@.stocks.len() by {
            assert(ids@[j] == all@[o + j]);
        }
    }
    let r = describe_all(ledger, &ids);
    proof {
        assert(is_ranking(hold_items(ledger@.holds, user_id, ledger@.holds.len() as int), ranked@));
    }
    r
}

/// The holdings of user `user_id` in each of `stock_ids`, in the same order.
pub fn get_stocks_holding(ledger: &Ledger, user_id: usize, stock_ids: &Vec<usize>) -> (r: Vec<HoldingModel>)
    requires
        ledger.wf(),
    ensures
        r@.len() == stock_ids@.len(),
        forall|k: int| 0 <= k < r@.len() ==> (#[trigger] r@[k]).hold == ledger@.hold_of(user_id, stock_ids@[k]),
{
    let mut r: Vec<HoldingModel> = Vec::new();
    let mut k: usize = 0;
    while k < stock_ids.len()
        invariant
            ledger.wf(),
            k <= stock_ids@.len(),
            r@.len() == k,
            forall|j: int| 0 <= j < k ==> (#[trigger] r@[j]).hold == ledger@.hold_of(user_id, stock_ids@[j]),
        decreases stock_ids@.len() - k,
    {
        let hold = ledger.holding(user_id, stock_ids[k]);
        r.push(HoldingModel { hold });
        k = k + 1;
    }
    r
}

} // verus!
