//! Pages of query results.
use vstd::prelude::*;

verus! {

/// How a listing of stocks is ordered.
#[derive(Clone, Copy, Debug)]
pub enum PagingOrder {
    Alphabetical,
    Latest,
}

/// Which page of a listing to return: `limit` items (10 by default) after
/// skipping `offset` (0 by default).
#[derive(Clone, Copy, Debug)]
pub struct PagingModel {
    pub offset: Option<u64>,
    pub limit: Option<u64>,
    pub order: Option<PagingOrder>,
}

pub open spec fn offset_of(p: PagingModel) -> int {
    match p.offset {
        Some(o) => o as int,
        None => 0,
    }
}

pub open spec fn limit_of(p: PagingModel) -> int {
    match p.limit {
        Some(l) => l as int,
        None => 10,
    }
}

/// The items of `s` from position `offset`, at most `limit` of them.
pub open spec fn page_of<T>(s: Seq<T>, offset: int, limit: int) -> Seq<T> {
    let start = if offset < s.len() { offset } else { s.len() as int };
    let end = if limit < s.len() - start { start + limit } else { s.len() as int };
    s.subrange(start, end)
}

/// The page of `v` that `p` asks for.
pub fn page<T: Copy>(v: &Vec<T>, p: PagingModel) -> (r: Vec<T>)
    ensures
        r@ == page_of(v@, offset_of(p), limit_of(p)),
{
    let offset: u64 = match p.offset {
        Some(o) => o,
        None => 0,
    };
    let limit: u64 = match p.limit {
        Some(l) => l,
        None => 10,
    };
    let len = v.len();
    let start: usize = if offset < len as u64 { offset as usize } else { len };
    let end: usize = if limit < (len - start) as u64 { start + limit as usize } else { len };
    let mut r: Vec<T> = Vec::new();
    let mut i: usize = start;
    while i < end
        invariant
            start <= i <= end <= len == v@.len(),
            r@ == v@.subrange(start as int, i as int),
        decreases end - i,
    {
        r.push(v[i]);
        assert(v@.subrange(start as int, i + 1) == v@.subrange(start as int, i as int).push(v@[i as int]));
        i = i + 1;
    }
    r
}

/// Whether item `a` is listed before item `b`: a later time first, and at
/// one time the larger tag first.
pub open spec fn pair_before(a: (i64, usize), b: (i64, usize)) -> bool {
    a.0 > b.0 || (a.0 == b.0 && a.1 > b.1)
}

/// `r` lists exactly the items of `items`, newest first.
pub open spec fn is_ranking(items: Seq<(i64, usize)>, r: Seq<(i64, usize)>) -> bool {
    &&& forall|i: int, j: int| 0 <= i < j < r.len() ==> pair_before(#[trigger] r[i], #[trigger] r[j])
    &&& forall|k: int| 0 <= k < r.len() ==> items.contains(#[trigger] r[k])
    &&& forall|k: int| 0 <= k < items.len() ==> r.contains(#[trigger] items[k])
}

/// Orders `(time, tag)` items newest first; the tags must increase along
/// `items`.
pub fn rank(items: &Vec<(i64, usize)>) -> (r: Vec<(i64, usize)>)
    requires
        forall|i: int, j: int| 0 <= i < j < items@.len() ==> (#[trigger] items@[i]).1 < (#[trigger] items@[j]).1,
    ensures
        is_ranking(items@, r@),
{
    let mut r: Vec<(i64, usize)> = Vec::new();
    let mut i: usize = 0;
    while i < items.len()
        invariant
            i <= items@.len(),
            forall|a: int, b: int| 0 <= a < b < items@.len() ==> (#[trigger] items@[a]).1 < (#[trigger] items@[b]).1,
            forall|a: int, b: int| 0 <= a < b < r@.len() ==> pair_before(#[trigger] r@[a], #[trigger] r@[b]),
            forall|k: int| 0 <= k < r@.len() ==> exists|a: int| 0 <= a < i && #[trigger] r@[k] == items@[a],
            forall|k: int| 0 <= k < i ==> r@.contains(#[trigger] items@[k]),
        decreases items@.len() - i,
    {
        let x = items[i];
        let mut p: usize = 0;
        while p < r.len() && !(x.0 > r[p].0 || (x.0 == r[p].0 && x.1 > r[p].1))
            invariant
                p <= r@.len(),
                forall|q: int| 0 <= q < p ==> !pair_before(x, #[trigger] r@[q]),
            decreases r@.len() - p,
        {
            p = p + 1;
        }
        let ghost old_r = r@;
        proof {
            assert forall|q: int| 0 <= q < old_r.len() implies (#[trigger] old_r[q]).1 < x.1 by {
                let a = choose|a: int| 0 <= a < i && #[trigger] old_r[q] == items@[a];
                assert(items@[a].1 < items@[i as int].1);
            }
        }
        r.insert(p, x);
        proof {
            assert(r@ == old_r.insert(p as int, x));
            assert forall|a: int, b: int| 0 <= a < b < r@.len() implies pair_before(#[trigger] r@[a], #[trigger] r@[b]) by {
                if b < p {
                    assert(r@[a] == old_r[a] && r@[b] == old_r[b]);
                } else if b == p {
                    assert(r@[a] == old_r[a]);
                    assert(!pair_before(x, old_r[a]));
                    assert(old_r[a].1 < x.1);
                } else if a == p {
                    assert(r@[b] == old_r[b - 1]);
                    assert(pair_before(x, old_r[p as int]));
                    if b - 1 > p {
                        assert(pair_before(old_r[p as int], old_r[b - 1]));
                    }
                } else if a < p {
                    assert(r@[a] == old_r[a] && r@[b] == old_r[b - 1]);
                } else {
                    assert(r@[a] == old_r[a - 1] && r@[b] == old_r[b - 1]);
                }
            }
            assert forall|k: int| 0 <= k < r@.len() implies exists|a: int| 0 <= a < i + 1 && #[trigger] r@[k] == items@[a] by {
                if k < p {
                    assert(r@[k] == old_r[k]);
                } else if k == p {
                    assert(r@[k] == items@[i as int]);
                } else {
                    assert(r@[k] == old_r[k - 1]);
                }
            }
            assert forall|k: int| 0 <= k < i + 1 implies r@.contains(#[trigger] items@[k]) by {
                if k < i {
                    assert(old_r.contains(items@[k]));
                    let q = choose|q: int| 0 <= q < old_r.len() && old_r[q] == items@[k];
                    if q < p {
                        assert(r@[q] == old_r[q]);
                    } else {
                        assert(r@[q + 1] == old_r[q]);
                    }
                } else {
                    assert(r@[p as int] == items@[k]);
                }
            }
        }
        i = i + 1;
    }
    proof {
        assert forall|k: int| 0 <= k < r@.len() implies items@.contains(#[trigger] r@[k]) by {
            let a = choose|a: int| 0 <= a < i && #[trigger] r@[k] == items@[a];
        }
    }
    r
}

} // verus!
