//! The host's map editor: painting walls inside a grid whose border stays
//! as it is, and clearing the grid to a walled border.

use vstd::prelude::*;

use crate::levels::lemma_cell_index;

verus! {

/// The cell lies on the border of a `w` x `h` grid.
pub open spec fn is_outer(r: int, c: int, w: int, h: int) -> bool {
    r == 0 || r == h - 1 || c == 0 || c == w - 1
}

/// The cells with the one at row `r`, column `c` made a wall or opened,
/// unless it lies on the border.
pub open spec fn painted(cells: Seq<bool>, w: int, h: int, r: int, c: int, wall: bool) -> Seq<bool> {
    if is_outer(r, c, w, h) {
        cells
    } else {
        cells.update(r * w + c, wall)
    }
}

/// Makes the cell at row `r`, column `c` a wall or opens it; the border
/// of the grid is left alone.
pub fn paint_cell(cells: &mut Vec<bool>, w: usize, h: usize, r: usize, c: usize, wall: bool)
    requires
        old(cells)@.len() >= w * h,
        r < h,
        c < w,
    ensures
        final(cells)@ == painted(old(cells)@, w as int, h as int, r as int, c as int, wall),
{
    let len = cells.len();
    proof {
        lemma_cell_index(c as int, r as int, w as int, h as int);
    }
    let outer = r == 0 || r == h - 1 || c == 0 || c == w - 1;
    if !outer {
        cells.set(r * w + c, wall);
    }
}

/// Clears the grid: walls on the border, open cells inside; cells past
/// the grid keep their value.
pub fn clear_grid(cells: &mut Vec<bool>, w: usize, h: usize)
    requires
        old(cells)@.len() >= w * h,
    ensures
        final(cells)@.len() == old(cells)@.len(),
        forall|i: int| 0 <= i < w * h ==> #[trigger] final(cells)@[i] == is_outer(i / w as int, i % w as int, w as int, h as int),
        forall|i: int| w * h <= i < old(cells)@.len() ==> #[trigger] final(cells)@[i] == old(cells)@[i],
{
    let len = cells.len();
    let n = w * h;
    let mut i: usize = 0;
    while i < n
        invariant
            n == w * h,
            i <= n,
            cells@.len() == old(cells)@.len(),
            old(cells)@.len() >= n,
            forall|j: int| 0 <= j < i ==> #[trigger] cells@[j] == is_outer(j / w as int, j % w as int, w as int, h as int),
            forall|j: int| n <= j < old(cells)@.len() ==> #[trigger] cells@[j] == old(cells)@[j],
        decreases n - i,
    {
        assert(w > 0 && h > 0) by (nonlinear_arith)
            requires
                i < w * h,
                i >= 0,
        ;
        let r = i / w;
        let c = i % w;
        let outer = r == 0 || r == h - 1 || c == 0 || c == w - 1;
        cells.set(i, outer);
        i = i + 1;
    }
}

} // verus!
