//! The order of the client's scoreboard: most kills first, and among equal
//! kills fewest deaths first; rows that tie keep the order they came in.

use vstd::prelude::*;

verus! {

/// Row `a` (kills, deaths) ranks strictly above row `b`.
pub open spec fn ranks_above(a: (i32, i32), b: (i32, i32)) -> bool {
    a.0 > b.0 || (a.0 == b.0 && a.1 < b.1)
}

/// `order` lists every row index once, best rank first, and rows that tie
/// in the order of their indices.
pub open spec fn in_scoreboard_order(rows: Seq<(i32, i32)>, order: Seq<usize>) -> bool {
    &&& order.len() == rows.len()
    &&& forall|i: int| 0 <= i < order.len() ==> #[trigger] order[i] < rows.len()
    &&& forall|i: int, j: int| 0 <= i < j < order.len() ==> #[trigger] order[i] != #[trigger] order[j]
    &&& forall|i: int, j: int|
        0 <= i < j < order.len() ==> !ranks_above(rows[#[trigger] order[j] as int], rows[#[trigger] order[i] as int])
    &&& forall|i: int, j: int|
        0 <= i < j < order.len() && rows[#[trigger] order[i] as int] == rows[#[trigger] order[j] as int] ==> order[i]
            < order[j]
}

/// The invariant of the insertion: the first `k` rows in scoreboard order.
spec fn sorted_prefix(rows: Seq<(i32, i32)>, order: Seq<usize>, k: int) -> bool {
    &&& order.len() == k
    &&& forall|i: int| 0 <= i < order.len() ==> #[trigger] order[i] < k
    &&& forall|i: int, j: int| 0 <= i < j < order.len() ==> #[trigger] order[i] != #[trigger] order[j]
    &&& forall|i: int, j: int|
        0 <= i < j < order.len() ==> !ranks_above(rows[#[trigger] order[j] as int], rows[#[trigger] order[i] as int])
    &&& forall|i: int, j: int|
        0 <= i < j < order.len() && rows[#[trigger] order[i] as int] == rows[#[trigger] order[j] as int] ==> order[i]
            < order[j]
}

/// The row indices in scoreboard order; see `in_scoreboard_order`.
pub fn scoreboard_order(rows: &Vec<(i32, i32)>) -> (order: Vec<usize>)
    ensures
        in_scoreboard_order(rows@, order@),
{
    let mut order: Vec<usize> = Vec::new();
    let mut k: usize = 0;
    while k < rows.len()
        invariant
            k <= rows@.len(),
            sorted_prefix(rows@, order@, k as int),
        decreases rows@.len() - k,
    {
        let row = rows[k];
        let mut p: usize = 0;
        while p < order.len() && !(row.0 > rows[order[p]].0 || (row.0 == rows[order[p]].0 && row.1 < rows[order[p]].1))
            invariant
                k < rows@.len(),
                row == rows@[k as int],
                sorted_prefix(rows@, order@, k as int),
                p <= order@.len(),
                forall|q: int| 0 <= q < p ==> !ranks_above(row, rows@[#[trigger] order@[q] as int]),
            decreases order@.len() - p,
        {
            p = p + 1;
        }
        let ghost old_order = order@;
        order.insert(p, k);
        proof {
            let o = order@;
            assert(o == old_order.insert(p as int, k));
            assert forall|i: int| 0 <= i < o.len() implies #[trigger] o[i] < k + 1 by {
                if i < p {
                    assert(o[i] == old_order[i]);
                } else if i > p {
                    assert(o[i] == old_order[i - 1]);
                }
            }
            assert forall|i: int, j: int| 0 <= i < j < o.len() implies #[trigger] o[i] != #[trigger] o[j] by {
                if i != p && j != p {
                    let i0 = if i < p { i } else { i - 1 };
                    let j0 = if j < p { j } else { j - 1 };
                    assert(o[i] == old_order[i0] && o[j] == old_order[j0]);
                } else if i == p {
                    assert(o[j] == old_order[j - 1]);
                } else {
                    assert(o[i] == old_order[i]);
                }
            }
            assert forall|i: int, j: int| 0 <= i < j < o.len() implies !ranks_above(
                rows@[#[trigger] o[j] as int],
                rows@[#[trigger] o[i] as int],
            ) && (rows@[o[i] as int] == rows@[o[j] as int] ==> o[i] < o[j]) by {
                if i != p && j != p {
                    let i0 = if i < p { i } else { i - 1 };
                    let j0 = if j < p { j } else { j - 1 };
                    assert(o[i] == old_order[i0] && o[j] == old_order[j0]);
                } else if i == p {
                    let j0 = j - 1;
                    assert(o[j] == old_order[j0]);
                    assert(p < old_order.len());
                    assert(ranks_above(row, rows@[old_order[p as int] as int]));
                    if j0 > p {
                        assert(!ranks_above(rows@[old_order[j0] as int], rows@[old_order[p as int] as int]));
                    }
                } else {
                    assert(o[i] == old_order[i]);
                    assert(o[j] == k);
                    assert(!ranks_above(row, rows@[old_order[i] as int]));
                }
            }
        }
        k = k + 1;
    }
    order
}

} // verus!
