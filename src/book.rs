//! The order book view: which resting order an incoming order meets next.
//!
//! An incoming bid meets the cheapest crossing ask first, an incoming ask the
//! dearest crossing bid; at one price the order created first goes first, and
//! at one creation time the smaller id.
use vstd::prelude::*;
use crate::ledger::{AskOrBid, Order};

verus! {

/// Whether resting order `c` can trade with an incoming order of `side` on
/// stock `s` limited at `limit`.
pub open spec fn crosses(side: AskOrBid, s: usize, limit: i32, c: Order) -> bool {
    &&& c.stock_id == s
    &&& c.unfulfilled > 0
    &&& match side {
        AskOrBid::Bid => c.price <= limit,
        AskOrBid::Ask => c.price >= limit,
    }
}

/// Whether resting order `a` is met before resting order `b` by an incoming
/// order of `side`.
pub open spec fn ahead(side: AskOrBid, a: Order, b: Order) -> bool {
    ||| match side {
        AskOrBid::Bid => a.price < b.price,
        AskOrBid::Ask => a.price > b.price,
    }
    ||| (a.price == b.price && a.created_at < b.created_at)
    ||| (a.price == b.price && a.created_at == b.created_at && a.id < b.id)
}

/// Whether `book[i]` is the first of the crossing orders.
pub open spec fn is_next(book: Seq<Order>, side: AskOrBid, s: usize, limit: i32, i: int) -> bool {
    &&& 0 <= i < book.len()
    &&& crosses(side, s, limit, book[i])
    &&& forall|j: int| 0 <= j < book.len() && j != i && crosses(side, s, limit, #[trigger] book[j])
        ==> ahead(side, book[i], book[j])
}

/// The position of the order that an incoming order of `side` on stock `s`
/// at `limit` meets next, or `None` when no resting order crosses.
pub open spec fn next_candidate(book: Seq<Order>, side: AskOrBid, s: usize, limit: i32) -> Option<int> {
    if exists|i: int| #[trigger] is_next(book, side, s, limit, i) {
        Some(choose|i: int| #[trigger] is_next(book, side, s, limit, i))
    } else {
        None
    }
}

/// Ids increase along the book, so no two orders share one.
pub open spec fn ids_increase(book: Seq<Order>) -> bool {
    forall|i: int, j: int| 0 <= i < j < book.len() ==> (#[trigger] book[i]).id < (#[trigger] book[j]).id
}

/// At most one position is first.
pub proof fn lemma_next_unique(book: Seq<Order>, side: AskOrBid, s: usize, limit: i32, i: int, k: int)
    requires
        is_next(book, side, s, limit, i),
        is_next(book, side, s, limit, k),
    ensures
        i == k,
{
    if i != k {
        assert(ahead(side, book[i], book[k]));
        assert(ahead(side, book[k], book[i]));
    }
}

fn crosses_exec(side: AskOrBid, s: usize, limit: i32, c: &Order) -> (r: bool)
    ensures
        r == crosses(side, s, limit, *c),
{
    c.stock_id == s && c.unfulfilled > 0 && match side {
        AskOrBid::Bid => c.price <= limit,
        AskOrBid::Ask => c.price >= limit,
    }
}

fn ahead_exec(side: AskOrBid, a: &Order, b: &Order) -> (r: bool)
    ensures
        r == ahead(side, *a, *b),
{
    let better = match side {
        AskOrBid::Bid => a.price < b.price,
        AskOrBid::Ask => a.price > b.price,
    };
    better || (a.price == b.price && a.created_at < b.created_at) || (a.price == b.price
        && a.created_at == b.created_at && a.id < b.id)
}

/// The order that an incoming order of `side` on stock `s` at `limit` meets
/// next, by price and then time priority.
pub fn best_candidate(book: &Vec<Order>, side: AskOrBid, s: usize, limit: i32) -> (r: Option<usize>)
    requires
        ids_increase(book@),
    ensures
        match r {
            Some(i) => next_candidate(book@, side, s, limit) == Some(i as int),
            None => next_candidate(book@, side, s, limit) is None,
        },
{
    let mut best: Option<usize> = None;
    let mut i: usize = 0;
    while i < book.len()
        invariant
            i <= book@.len(),
            ids_increase(book@),
            match best {
                Some(b) => {
                    &&& b < i
                    &&& crosses(side, s, limit, book@[b as int])
                    &&& forall|j: int| 0 <= j < i && j != b && crosses(side, s, limit, #[trigger] book@[j])
                        ==> ahead(side, book@[b as int], book@[j])
                },
                None => forall|j: int| 0 <= j < i ==> !crosses(side, s, limit, #[trigger] book@[j]),
            },
        decreases book@.len() - i,
    {
        if crosses_exec(side, s, limit, &book[i]) {
            match best {
                None => {
                    best = Some(i);
                },
                Some(b) => {
                    if ahead_exec(side, &book[i], &book[b]) {
                        best = Some(i);
                    } else {
                        assert(book@[b as int].id < book@[i as int].id);
                    }
                },
            }
        }
        i = i + 1;
    }
    match best {
        Some(b) => {
            assert(is_next(book@, side, s, limit, b as int));
            let ghost k = choose|k: int| #[trigger] is_next(book@, side, s, limit, k);
            proof {
                lemma_next_unique(book@, side, s, limit, b as int, k);
            }
        },
        None => {
            assert(!exists|k: int| #[trigger] is_next(book@, side, s, limit, k));
        },
    }
    best
}

} // verus!
