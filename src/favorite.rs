//! Users' favorite stocks.
use vstd::prelude::*;
use crate::ledger::{Favorite, Ledger, LedgerView};
use crate::errors::{EngineError, Refusal};
use crate::paging::{PagingModel, page, page_of, offset_of, limit_of};
use crate::stock_queries::{GetNewStockModel, describe, describes};

verus! {

/// A request to add a stock to one's favorites.
#[derive(Clone, Copy, Debug)]
pub struct AddFavoriteModel {
    pub stock_id: usize,
}

/// Whether a stock is among one's favorites.
#[derive(Clone, Copy, Debug)]
pub struct IsFavoritedModel {
    pub is_favorited: bool,
}

/// A favorite stock and since when it is one.
#[derive(Debug)]
pub struct FavoriteModel {
    pub stock: GetNewStockModel,
    pub favorited_at: i64,
}

pub open spec fn fav_at(favs: Seq<Favorite>, user_id: usize, stock_id: usize, i: int) -> bool {
    0 <= i < favs.len() && favs[i].user_id == user_id && favs[i].stock_id == stock_id
}

pub open spec fn is_favorite(v: LedgerView, user_id: usize, stock_id: usize) -> bool {
    exists|i: int| #[trigger] fav_at(v.favorites, user_id, stock_id, i)
}

fn find_favorite(ledger: &Ledger, user_id: usize, stock_id: usize) -> (r: Option<usize>)
    ensures
        match r {
            Some(i) => fav_at(ledger@.favorites, user_id, stock_id, i as int),
            None => !is_favorite(ledger@, user_id, stock_id),
        },
{
    let mut i: usize = 0;
    while i < ledger.favorites.len()
        invariant
            i <= ledger@.favorites.len(),
            forall|j: int| 0 <= j < i ==> !#[trigger] fav_at(ledger@.favorites, user_id, stock_id, j),
        decreases ledger@.favorites.len() - i,
    {
        let f = ledger.favorites[i];
        if f.user_id == user_id && f.stock_id == stock_id {
            return Some(i);
        }
        i = i + 1;
    }
    None
}

/// Adds stock `input.stock_id` to the favorites of user `user_id` at `now`.
/// An unknown stock is not found; a stock already among them is a bad request.
pub fn add_favorite(ledger: &mut Ledger, user_id: usize, input: AddFavoriteModel, now: i64) -> (r: Result<(), EngineError>)
    requires
        old(ledger).wf(),
    ensures
        final(ledger).wf(),
        match r {
            Ok(()) => input.stock_id < old(ledger)@.stocks.len() && !is_favorite(old(ledger)@, user_id, input.stock_id)
                && final(ledger)@ == (LedgerView {
                    favorites: old(ledger)@.favorites.push(Favorite { user_id, stock_id: input.stock_id, created_at: now }),
                    ..old(ledger)@
                }),
            Err(e) => final(ledger)@ == old(ledger)@ && if input.stock_id >= old(ledger)@.stocks.len() {
                e.refusal() == Refusal::NotFound
            } else {
                e.refusal() == Refusal::BadRequest && is_favorite(old(ledger)@, user_id, input.stock_id)
            },
        },
{
    if input.stock_id >= ledger.stocks.len() {
        return Err(EngineError::NotFound("no such stock".to_owned()));
    }
    if find_favorite(ledger, user_id, input.stock_id).is_some() {
        return Err(EngineError::BadRequest("the stock is a favorite already".to_owned()));
    }
    let ghost v = ledger@;
    ledger.favorites.push(Favorite { user_id, stock_id: input.stock_id, created_at: now });
    proof {
        let w = ledger@;
        assert forall|t: usize| t < w.stocks.len() implies #[trigger] w.shares_total(t) == w.issued(t) by {
            assert(v.shares_total(t) == v.issued(t));
        }
    }
    Ok(())
}

/// Removes stock `stock_id` from the favorites of user `user_id`; not found
/// when it is not among them.
pub fn delete_favorite(ledger: &mut Ledger, user_id: usize, stock_id: usize) -> (r: Result<(), EngineError>)
    requires
        old(ledger).wf(),
    ensures
        final(ledger).wf(),
        match r {
            Ok(()) => exists|i: int| #[trigger] fav_at(old(ledger)@.favorites, user_id, stock_id, i)
                && final(ledger)@ == (LedgerView { favorites: old(ledger)@.favorites.remove(i), ..old(ledger)@ }),
            Err(e) => e.refusal() == Refusal::NotFound && !is_favorite(old(ledger)@, user_id, stock_id)
                && final(ledger)@ == old(ledger)@,
        },
{
    match find_favorite(ledger, user_id, stock_id) {
        None => Err(EngineError::NotFound("the stock is not a favorite".to_owned())),
        Some(i) => {
            let ghost v = ledger@;
            ledger.favorites.remove(i);
            proof {
                let w = ledger@;
                assert(w == (LedgerView { favorites: v.favorites.remove(i as int), ..v }));
                assert forall|t: usize| t < w.stocks.len() implies #[trigger] w.shares_total(t) == w.issued(t) by {
                    assert(v.shares_total(t) == v.issued(t));
                }
            }
            Ok(())
        },
    }
}

/// Whether stock `stock_id` is among the favorites of user `user_id`.
pub fn get_is_favorited(ledger: &Ledger, user_id: usize, stock_id: usize) -> (r: IsFavoritedModel)
    ensures
        r.is_favorited == is_favorite(ledger@, user_id, stock_id),
{
    IsFavoritedModel { is_favorited: find_favorite(ledger, user_id, stock_id).is_some() }
}

/// The favorites of user `user_id`, the latest added first.
pub open spec fn newest_favorites_of(favs: Seq<Favorite>, user_id: usize) -> Seq<Favorite>
    decreases favs.len(),
{
    if favs.len() == 0 {
        Seq::empty()
    } else if favs.last().user_id == user_id {
        seq![favs.last()] + newest_favorites_of(favs.drop_last(), user_id)
    } else {
        newest_favorites_of(favs.drop_last(), user_id)
    }
}

/// A page of the favorite stocks of user `user_id`, the latest added first.
pub fn get_favorites(ledger: &Ledger, user_id: usize, paging: PagingModel) -> (r: Vec<FavoriteModel>)
    requires
        ledger.wf(),
    ensures
        ({
            let favs = page_of(newest_favorites_of(ledger@.favorites, user_id), offset_of(paging), limit_of(paging));
            &&& r@.len() == favs.len()
            &&& forall|k: int| 0 <= k < r@.len() ==> describes(ledger@, (#[trigger] r@[k]).stock, favs[k].stock_id as int)
                && r@[k].favorited_at == favs[k].created_at
        }),
{
    let mut all: Vec<Favorite> = Vec::new();
    let mut i: usize = 0;
    while i < ledger.favorites.len()
        invariant
            ledger.wf(),
            i <= ledger@.favorites.len(),
            all@ == newest_favorites_of(ledger@.favorites.subrange(0, i as int), user_id),
            forall|j: int| 0 <= j < all@.len() ==> (#[trigger] all@[j]).stock_id < ledger@.stocks.len(),
        decreases ledger@.favorites.len() - i,
    {
        let f = ledger.favorites[i];
        assert(ledger@.favorites.subrange(0, i + 1).drop_last() == ledger@.favorites.subrange(0, i as int));
        if f.user_id == user_id {
            let ghost old_all = all@;
            all.insert(0, f);
            assert(all@ =~= seq![f] + old_all);
            assert forall|j: int| 0 <= j < all@.len() implies (#[trigger] all@[j]).stock_id < ledger@.stocks.len() by {
                if j > 0 {
                    assert(all@[j] == old_all[j - 1]);
                }
            }
        }
        i = i + 1;
    }
    assert(ledger@.favorites.subrange(0, ledger@.favorites.len() as int) == ledger@.favorites);
    let favs = page(&all, paging);
    proof {
        let o = if offset_of(paging) < all@.len() { offset_of(paging) } else { all@.len() as int };
        assert forall|j: int| 0 <= j < favs@.len() implies (#[trigger] favs@[j]).stock_id < ledger@.stocks.len() by {
            assert(favs@[j] == all@[o + j]);
        }
    }
    let mut r: Vec<FavoriteModel> = Vec::new();
    let mut k: usize = 0;
    while k < favs.len()
        invariant
            ledger.wf(),
            forall|j: int| 0 <= j < favs@.len() ==> (#[trigger] favs@[j]).stock_id < ledger@.stocks.len(),
            k <= favs@.len(),
            r@.len() == k,
            forall|m: int| 0 <= m < k ==> describes(ledger@, (#[trigger] r@[m]).stock, favs@[m].stock_id as int)
                && r@[m].favorited_at == favs@[m].created_at,
        decreases favs@.len() - k,
    {
        let f = favs[k];
        let stock = describe(ledger, f.stock_id);
        r.push(FavoriteModel { stock, favorited_at: f.created_at });
        k = k + 1;
    }
    r
}

} // verus!
