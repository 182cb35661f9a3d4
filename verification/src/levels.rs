//! Level grids: the built-in maps, the text format they are written in,
//! and the depth-first maze generator.

use vstd::prelude::*;
use vstd::string::*;

use crate::rng::choose_cell;

verus! {

/// A rectangular grid of cells; `cells[r * width + c]` is `true` where the
/// cell at column `c`, row `r` is a wall.
#[derive(Clone)]
pub struct Level {
    pub width: usize,
    pub height: usize,
    pub cells: Vec<bool>,
}

impl Level {
    /// The cell vector covers the whole grid.
    pub open spec fn wf(&self) -> bool {
        self.cells@.len() == self.width * self.height
    }

    /// Whether the cell at column `c`, row `r` is a wall.
    pub open spec fn wall(&self, c: int, r: int) -> bool {
        self.cells@[r * self.width + c]
    }
}

// ---------------------------------------------------------------------------
// The text format: one line per row, `#` is a wall, anything else is open.
// Lines are split as `str::lines` splits them: at `\n`, with a `\r` right
// before the `\n` removed; a final line ending is optional.

/// Position of the first `\n` at or after `p`, or the length when there is none.
pub open spec fn next_newline(s: Seq<char>, p: int) -> int
    decreases s.len() - p,
{
    if p >= s.len() {
        s.len() as int
    } else if s[p] == '\n' {
        p
    } else {
        next_newline(s, p + 1)
    }
}

/// Position where the `r`-th line starts; the line exists when this is
/// below the length.
pub open spec fn line_start(s: Seq<char>, r: nat) -> int
    decreases r,
{
    if r == 0 {
        0
    } else {
        next_newline(s, line_start(s, (r - 1) as nat)) + 1
    }
}

/// End (exclusive) of the content of the line that starts at `p`.
pub open spec fn line_end(s: Seq<char>, p: int) -> int {
    let j = next_newline(s, p);
    if j < s.len() && j > p && s[j - 1] == '\r' {
        j - 1
    } else {
        j
    }
}

/// Whether the map text makes the cell at row `r`, column `c` a wall:
/// a `#` makes a wall, a line shorter than the row is padded with walls,
/// and rows past the last line are open.
pub open spec fn map_cell(s: Seq<char>, r: nat, c: nat) -> bool {
    let p = line_start(s, r);
    if p < s.len() {
        if c < line_end(s, p) - p {
            s[p + c] == '#'
        } else {
            true
        }
    } else {
        false
    }
}

/// The cells of a `width` x `height` level read from the map text.
pub open spec fn map_cells(width: nat, height: nat, s: Seq<char>) -> Seq<bool> {
    Seq::new(width * height, |i: int| map_cell(s, (i / width as int) as nat, (i % width as int) as nat))
}

pub proof fn lemma_next_newline_bounds(s: Seq<char>, p: int)
    requires
        0 <= p,
    ensures
        p <= next_newline(s, p) || p > s.len(),
        next_newline(s, p) <= s.len(),
        next_newline(s, p) < s.len() ==> s[next_newline(s, p)] == '\n',
    decreases s.len() - p,
{
    if p < s.len() && s[p] != '\n' {
        lemma_next_newline_bounds(s, p + 1);
    }
}

proof fn lemma_line_start_nonneg(s: Seq<char>, r: nat)
    ensures
        0 <= line_start(s, r) <= s.len() + 1,
    decreases r,
{
    if r > 0 {
        lemma_line_start_nonneg(s, (r - 1) as nat);
        lemma_next_newline_bounds(s, line_start(s, (r - 1) as nat));
    }
}

proof fn lemma_line_start_monotone(s: Seq<char>, r1: nat, r2: nat)
    requires
        r1 <= r2,
    ensures
        line_start(s, r1) <= line_start(s, r2),
    decreases r2,
{
    if r2 > r1 {
        lemma_line_start_monotone(s, r1, (r2 - 1) as nat);
        lemma_line_start_nonneg(s, (r2 - 1) as nat);
        let p = line_start(s, (r2 - 1) as nat);
        lemma_next_newline_bounds(s, p);
    }
}

pub(crate) fn str_to_chars(s: &str) -> (out: Vec<char>)
    ensures
        out@ == s@,
{
    let n = s.unicode_len();
    let mut out: Vec<char> = Vec::new();
    let mut i: usize = 0;
    while i < n
        invariant
            n == s@.len(),
            i <= n,
            out@ == s@.subrange(0, i as int),
        decreases n - i,
    {
        out.push(s.get_char(i));
        i = i + 1;
    }
    out
}

/// The first built-in map, 12 x 12.
pub const SIMPLE_MAP: &'static str = "############\n\
             #          #\n\
             # ##  ##   #\n\
             #          #\n\
             #   ####   #\n\
             #   ####   #\n\
             #          #\n\
             #  ##  ##  #\n\
             #          #\n\
             #   ####   #\n\
             #          #\n\
             ############";

/// The second built-in map, 16 x 16.
pub const MEDIUM_MAP: &'static str = "################\n\
             #              #\n\
             #  #####  ###  #\n\
             #  #   #    #  #\n\
             #  # # #  # #  #\n\
             #  # # #  # #  #\n\
             #  ###    ###  #\n\
             #              #\n\
             #  ###    ###  #\n\
             #  # #    # #  #\n\
             #  # #    # #  #\n\
             #  # #    # #  #\n\
             #  ###    ###  #\n\
             #              #\n\
             #              #\n\
             ################";

/// The third built-in map, a 21 x 21 labyrinth.
pub const LABYRINTH_MAP: &'static str = "#####################\n\
             #                   #\n\
             # ######### ####### #\n\
             # #       # #     # #\n\
             # # ##### # # ### # #\n\
             # # #   # # # # # # #\n\
             # # ### # # # ### # #\n\
             # #   #   # #     # #\n\
             # ### ##### ####### #\n\
             #   # #             #\n\
             ### # # ######### ###\n\
             #   # # #       # #\n\
             # ### # # ##### # #\n\
             # #   # # #   # # #\n\
             # # ### # ### # # #\n\
             # # #   #     # # #\n\
             # # # ######### # #\n\
             # # #             #\n\
             # # ###############\n\
             #                  #\n\
             #####################";

/// The level is the built-in one with index `idx`.
pub open spec fn is_static_level(level: Level, idx: int) -> bool {
    &&& level.wf()
    &&& idx == 0 ==> level.width == 12 && level.height == 12 && level.cells@ == map_cells(
        12,
        12,
        SIMPLE_MAP@,
    )
    &&& idx == 1 ==> level.width == 16 && level.height == 16 && level.cells@ == map_cells(
        16,
        16,
        MEDIUM_MAP@,
    )
    &&& idx >= 2 ==> level.width == 21 && level.height == 21 && level.cells@ == map_cells(
        21,
        21,
        LABYRINTH_MAP@,
    )
}

/// The built-in level with index `idx`; every index past the second gives
/// the labyrinth.
pub fn get_static_level(idx: usize) -> (level: Level)
    ensures
        is_static_level(level, idx as int),
{
    match idx {
        0 => parse_map_str(12, 12, SIMPLE_MAP),
        1 => parse_map_str(16, 16, MEDIUM_MAP),
        _ => parse_map_str(21, 21, LABYRINTH_MAP),
    }
}

/// Reads a `width` x `height` level from its map text.
pub fn parse_map_str(width: usize, height: usize, map_str: &str) -> (level: Level)
    requires
        width * height <= usize::MAX,
    ensures
        level.width == width,
        level.height == height,
        level.wf(),
        level.cells@ == map_cells(width as nat, height as nat, map_str@),
{
    let chars = str_to_chars(map_str);
    let len = chars.len();
    let ghost s = map_str@;
    let total = width * height;
    let mut cells: Vec<bool> = vec![false; total];
    let mut r: usize = 0;
    let mut p: usize = 0;
    while r < height && p < len
        invariant
            chars@ == s,
            len == s.len(),
            total == width * height,
            cells@.len() == total,
            r <= height,
            p <= len,
            p < len ==> p as int == line_start(s, r as nat),
            p == len ==> line_start(s, r as nat) >= len,
            forall|i: int|
                0 <= i < r * width ==> #[trigger] cells@[i] == map_cell(
                    s,
                    (i / width as int) as nat,
                    (i % width as int) as nat,
                ),
            forall|i: int| r * width <= i < total ==> !#[trigger] cells@[i],
        decreases height - r,
    {
        proof {
            lemma_next_newline_bounds(s, p as int);
        }
        let mut j: usize = p;
        while j < len && chars[j] != '\n'
            invariant
                chars@ == s,
                len == s.len(),
                p <= j <= len,
                next_newline(s, p as int) == next_newline(s, j as int),
            decreases len - j,
        {
            j = j + 1;
        }
        assert(j as int == next_newline(s, j as int));
        let e: usize = if j < len && j > p && chars[j - 1] == '\r' {
            j - 1
        } else {
            j
        };
        assert(e as int == line_end(s, p as int));
        let mut c: usize = 0;
        while c < width
            invariant
                chars@ == s,
                len == s.len(),
                total == width * height,
                cells@.len() == total,
                r < height,
                p < len,
                p as int == line_start(s, r as nat),
                e as int == line_end(s, p as int),
                p <= e <= len,
                c <= width,
                forall|i: int|
                    0 <= i < r * width + c ==> #[trigger] cells@[i] == map_cell(
                        s,
                        (i / width as int) as nat,
                        (i % width as int) as nat,
                    ),
                forall|i: int| r * width + c <= i < total ==> !#[trigger] cells@[i],
            decreases width - c,
        {
            proof {
                vstd::arithmetic::mul::lemma_mul_is_distributive_add(width as int, r as int, 1);
                vstd::arithmetic::mul::lemma_mul_inequality(r as int + 1, height as int, width as int);
                vstd::arithmetic::mul::lemma_mul_is_commutative(width as int, r as int + 1);
                vstd::arithmetic::mul::lemma_mul_is_commutative(width as int, height as int);
            }
            let idx = r * width + c;
            let v = if c < e - p {
                chars[p + c] == '#'
            } else {
                true
            };
            cells.set(idx, v);
            proof {
                vstd::arithmetic::div_mod::lemma_fundamental_div_mod_converse(
                    idx as int,
                    width as int,
                    r as int,
                    c as int,
                );
            }
            c = c + 1;
        }
        proof {
            vstd::arithmetic::mul::lemma_mul_is_distributive_add_other_way(width as int, r as int, 1);
        }
        r = r + 1;
        if j >= len {
            p = len;
        } else {
            p = j + 1;
        }
    }
    proof {
        if p < len {
            vstd::arithmetic::mul::lemma_mul_is_commutative(width as int, height as int);
        }
        assert forall|i: int| r * width <= i < total implies !#[trigger] map_cell(
            s,
            (i / width as int) as nat,
            (i % width as int) as nat,
        ) by {
            if p < len {
                assert(r == height);
            }
            assert(width > 0) by {
                if width == 0 {
                    vstd::arithmetic::mul::lemma_mul_basics(height as int);
                }
            }
            vstd::arithmetic::div_mod::lemma_div_is_ordered(r * width as int, i, width as int);
            vstd::arithmetic::div_mod::lemma_div_multiples_vanish(r as int, width as int);
            vstd::arithmetic::mul::lemma_mul_is_commutative(r as int, width as int);
            vstd::arithmetic::div_mod::lemma_div_pos_is_pos(i, width as int);
            lemma_line_start_monotone(s, r as nat, (i / width as int) as nat);
        }
    }
    Level { width, height, cells }
}

} // verus!

verus! {

// ---------------------------------------------------------------------------
// Depth-first maze generation.

/// The next odd number at or above `n`.
pub open spec fn odd_up(n: int) -> int {
    if n % 2 == 0 {
        n + 1
    } else {
        n
    }
}

/// The value of the cell at column `x`, row `y` of a row-major grid of width `w`.
pub open spec fn cell_at(cells: Seq<bool>, w: int, x: int, y: int) -> bool {
    cells[y * w + x]
}

/// A maze room: both coordinates odd and strictly inside the border.
pub open spec fn is_room(w: int, h: int, x: int, y: int) -> bool {
    &&& x % 2 == 1
    &&& y % 2 == 1
    &&& 0 < x < w - 1
    &&& 0 < y < h - 1
}

/// Every room next to the room at `(x, y)` has been opened.
pub open spec fn rooms_around_open(cells: Seq<bool>, w: int, h: int, x: int, y: int) -> bool {
    &&& is_room(w, h, x - 2, y) ==> !cell_at(cells, w, x - 2, y)
    &&& is_room(w, h, x + 2, y) ==> !cell_at(cells, w, x + 2, y)
    &&& is_room(w, h, x, y - 2) ==> !cell_at(cells, w, x, y - 2)
    &&& is_room(w, h, x, y + 2) ==> !cell_at(cells, w, x, y + 2)
}

/// Number of walls in a grid.
pub open spec fn wall_count(cells: Seq<bool>) -> nat
    decreases cells.len(),
{
    if cells.len() == 0 {
        0
    } else {
        wall_count(cells.drop_last()) + if cells.last() {
            1nat
        } else {
            0nat
        }
    }
}

proof fn lemma_wall_count_open(cells: Seq<bool>, i: int)
    requires
        0 <= i < cells.len(),
    ensures
        wall_count(cells.update(i, false)) + (if cells[i] {
            1int
        } else {
            0int
        }) == wall_count(cells),
    decreases cells.len(),
{
    let u = cells.update(i, false);
    if i == cells.len() - 1 {
        assert(u.drop_last() =~= cells.drop_last());
    } else {
        assert(u.drop_last() =~= cells.drop_last().update(i, false));
        lemma_wall_count_open(cells.drop_last(), i);
    }
}

/// The row-major index of a cell in the grid lies in the cell vector.
pub proof fn lemma_cell_index(x: int, y: int, w: int, h: int)
    requires
        0 <= x < w,
        0 <= y < h,
    ensures
        0 <= y * w + x < w * h,
        y * w <= y * w + x,
{
    lemma_index_in_grid(x, y, w, h);
}

proof fn lemma_index_in_grid(x: int, y: int, w: int, h: int)
    requires
        0 <= x < w,
        0 <= y < h,
    ensures
        0 <= y * w + x < w * h,
{
    vstd::arithmetic::mul::lemma_mul_inequality(y + 1, h, w);
    vstd::arithmetic::mul::lemma_mul_is_distributive_add_other_way(w, y, 1);
    vstd::arithmetic::mul::lemma_mul_is_commutative(w, h);
    vstd::arithmetic::mul::lemma_mul_nonnegative(y, w);
}

proof fn lemma_index_unique(x1: int, y1: int, x2: int, y2: int, w: int)
    requires
        0 <= x1 < w,
        0 <= x2 < w,
        0 <= y1,
        0 <= y2,
        y1 * w + x1 == y2 * w + x2,
    ensures
        x1 == x2,
        y1 == y2,
{
    vstd::arithmetic::div_mod::lemma_fundamental_div_mod_converse(y1 * w + x1, w, y1, x1);
    vstd::arithmetic::div_mod::lemma_fundamental_div_mod_converse(y2 * w + x2, w, y2, x2);
}

/// With every opened room either still on the stack or surrounded by open
/// rooms, an empty stack and the start room open, every room is open.
proof fn lemma_all_rooms_open(cells: Seq<bool>, w: int, h: int, x: int, y: int)
    requires
        w >= 3,
        h >= 3,
        cells.len() == w * h,
        !cell_at(cells, w, 1, 1),
        forall|a: int, b: int|
            is_room(w, h, a, b) && !#[trigger] cell_at(cells, w, a, b) ==> rooms_around_open(
                cells,
                w,
                h,
                a,
                b,
            ),
        is_room(w, h, x, y),
    ensures
        !cell_at(cells, w, x, y),
    decreases x + y,
{
    if x > 1 {
        lemma_all_rooms_open(cells, w, h, x - 2, y);
    } else if y > 1 {
        lemma_all_rooms_open(cells, w, h, x, y - 2);
    }
}

/// The room two cells away from `(x, y)` in direction `dir`
/// (west, east, north, south).
pub open spec fn room_step(x: int, y: int, dir: int) -> (int, int) {
    if dir == 0 {
        (x - 2, y)
    } else if dir == 1 {
        (x + 2, y)
    } else if dir == 2 {
        (x, y - 2)
    } else {
        (x, y + 2)
    }
}

/// `(nx, ny)` is a room next to `(x, y)`, strictly inside the border, and
/// still a wall.
pub open spec fn closed_room_next_to(
    cells: Seq<bool>,
    w: int,
    h: int,
    x: int,
    y: int,
    nx: int,
    ny: int,
) -> bool {
    &&& (nx, ny) == room_step(x, y, 0) || (nx, ny) == room_step(x, y, 1) || (nx, ny) == room_step(
        x,
        y,
        2,
    ) || (nx, ny) == room_step(x, y, 3)
    &&& 0 < nx < w - 1
    &&& 0 < ny < h - 1
    &&& cell_at(cells, w, nx, ny)
}

proof fn lemma_rooms_around_open_mono(c0: Seq<bool>, c1: Seq<bool>, w: int, h: int, x: int, y: int)
    requires
        c0.len() == w * h,
        c1.len() == w * h,
        forall|i: int| 0 <= i < w * h && !c0[i] ==> !#[trigger] c1[i],
        rooms_around_open(c0, w, h, x, y),
    ensures
        rooms_around_open(c1, w, h, x, y),
{
    if is_room(w, h, x - 2, y) {
        lemma_index_in_grid(x - 2, y, w, h);
    }
    if is_room(w, h, x + 2, y) {
        lemma_index_in_grid(x + 2, y, w, h);
    }
    if is_room(w, h, x, y - 2) {
        lemma_index_in_grid(x, y - 2, w, h);
    }
    if is_room(w, h, x, y + 2) {
        lemma_index_in_grid(x, y + 2, w, h);
    }
}

/// Adds the room next to `(cx, cy)` in direction `dir` to `rooms` when it
/// lies strictly inside the border and is still a wall.
fn push_if_closed(
    cells: &Vec<bool>,
    w: usize,
    h: usize,
    cx: usize,
    cy: usize,
    dir: usize,
    rooms: &mut Vec<(usize, usize)>,
)
    requires
        cells@.len() == w * h,
        w * h <= usize::MAX,
        w <= i32::MAX,
        h <= i32::MAX,
        cx <= i32::MAX,
        cy <= i32::MAX,
        dir < 4,
    ensures
        ({
            let (nx, ny) = room_step(cx as int, cy as int, dir as int);
            if 0 < nx < w - 1 && 0 < ny < h - 1 && cell_at(cells@, w as int, nx, ny) {
                final(rooms)@ == old(rooms)@.push((nx as usize, ny as usize))
            } else {
                final(rooms)@ == old(rooms)@
            }
        }),
{
    let nx: i64 = if dir == 0 {
        cx as i64 - 2
    } else if dir == 1 {
        cx as i64 + 2
    } else {
        cx as i64
    };
    let ny: i64 = if dir == 2 {
        cy as i64 - 2
    } else if dir == 3 {
        cy as i64 + 2
    } else {
        cy as i64
    };
    if nx > 0 && nx < (w as i64) - 1 && ny > 0 && ny < (h as i64) - 1 {
        let ux = nx as usize;
        let uy = ny as usize;
        proof {
            lemma_index_in_grid(ux as int, uy as int, w as int, h as int);
        }
        if cells[uy * w + ux] {
            rooms.push((ux, uy));
        }
    }
}

/// Every open cell is the start cell or lies strictly inside the border
/// with at least one odd coordinate.
#[verifier::opaque]
spec fn carved_cells_ok(cells: Seq<bool>, w: int, h: int) -> bool {
    forall|x: int, y: int|
        0 <= x < w && 0 <= y < h && !#[trigger] cell_at(cells, w, x, y) ==> y * w + x == w + 1 || (0
            < x < w - 1 && 0 < y < h - 1 && (x % 2 == 1 || y % 2 == 1))
}

/// Every open room that is off the stack has all its neighbouring rooms open.
#[verifier::opaque]
spec fn frontier_ok(cells: Seq<bool>, w: int, h: int, stack: Seq<(usize, usize)>) -> bool {
    forall|x: int, y: int|
        is_room(w, h, x, y) && !#[trigger] cell_at(cells, w, x, y) && !stack.contains(
            (x as usize, y as usize),
        ) ==> rooms_around_open(cells, w, h, x, y)
}

/// Every stack entry is the start cell or a room.
spec fn stack_ok(stack: Seq<(usize, usize)>, w: int, h: int) -> bool {
    forall|k: int|
        0 <= k < stack.len() ==> {
            let (sx, sy) = #[trigger] stack[k];
            (sx == 1 && sy == 1) || is_room(w, h, sx as int, sy as int)
        }
}

proof fn lemma_pop_keeps_frontier(
    cells: Seq<bool>,
    w: int,
    h: int,
    before: Seq<(usize, usize)>,
    cx: usize,
    cy: usize,
)
    requires
        w <= i32::MAX,
        h <= i32::MAX,
        before.len() > 0,
        before.last() == (cx, cy),
        frontier_ok(cells, w, h, before),
        rooms_around_open(cells, w, h, cx as int, cy as int),
    ensures
        frontier_ok(cells, w, h, before.drop_last()),
{
    reveal(frontier_ok);
    let after = before.drop_last();
    assert forall|x: int, y: int|
        is_room(w, h, x, y) && !#[trigger] cell_at(cells, w, x, y) && !after.contains(
            (x as usize, y as usize),
        ) implies rooms_around_open(cells, w, h, x, y) by {
        if before.contains((x as usize, y as usize)) {
            let k = choose|k: int| 0 <= k < before.len() && before[k] == (x as usize, y as usize);
            if k < before.len() - 1 {
                assert(after[k] == before[k]);
            } else {
                assert(x == cx as int && y == cy as int);
            }
        }
    }
}

proof fn lemma_carve_keeps_invariants(
    c0: Seq<bool>,
    w: int,
    h: int,
    before: Seq<(usize, usize)>,
    cx: int,
    cy: int,
    nx: int,
    ny: int,
    mx: int,
    my: int,
)
    requires
        w % 2 == 1,
        h % 2 == 1,
        w <= i32::MAX,
        h <= i32::MAX,
        c0.len() == w * h,
        carved_cells_ok(c0, w, h),
        frontier_ok(c0, w, h, before),
        stack_ok(before, w, h),
        (cx == 1 && cy == 1) || is_room(w, h, cx, cy),
        closed_room_next_to(c0, w, h, cx, cy, nx, ny),
        mx == (cx + nx) / 2,
        my == (cy + ny) / 2,
    ensures
        0 <= mx < w,
        0 <= my < h,
        my * w + mx != ny * w + nx,
        is_room(w, h, nx, ny),
        carved_cells_ok(c0.update(my * w + mx, false).update(ny * w + nx, false), w, h),
        frontier_ok(
            c0.update(my * w + mx, false).update(ny * w + nx, false),
            w,
            h,
            before.push((nx as usize, ny as usize)),
        ),
        stack_ok(before.push((nx as usize, ny as usize)), w, h),
{
    reveal(carved_cells_ok);
    reveal(frontier_ok);
    let c1 = c0.update(my * w + mx, false).update(ny * w + nx, false);
    let after = before.push((nx as usize, ny as usize));
    lemma_index_in_grid(mx, my, w, h);
    lemma_index_in_grid(nx, ny, w, h);
    if my * w + mx == ny * w + nx {
        lemma_index_unique(mx, my, nx, ny, w);
    }
    assert forall|x: int, y: int|
        0 <= x < w && 0 <= y < h && !#[trigger] cell_at(c1, w, x, y) implies y * w + x == w + 1
        || (0 < x < w - 1 && 0 < y < h - 1 && (x % 2 == 1 || y % 2 == 1)) by {
        lemma_index_in_grid(x, y, w, h);
        if y * w + x == my * w + mx {
            lemma_index_unique(x, y, mx, my, w);
        } else if y * w + x == ny * w + nx {
            lemma_index_unique(x, y, nx, ny, w);
        } else {
            assert(!cell_at(c0, w, x, y));
        }
    }
    assert forall|x: int, y: int|
        is_room(w, h, x, y) && !#[trigger] cell_at(c1, w, x, y) && !after.contains(
            (x as usize, y as usize),
        ) implies rooms_around_open(c1, w, h, x, y) by {
        lemma_index_in_grid(x, y, w, h);
        assert(after[after.len() - 1] == (nx as usize, ny as usize));
        if y * w + x == ny * w + nx {
            lemma_index_unique(x, y, nx, ny, w);
        } else if y * w + x == my * w + mx {
            lemma_index_unique(x, y, mx, my, w);
        } else {
            assert(!cell_at(c0, w, x, y));
            if before.contains((x as usize, y as usize)) {
                let k = choose|k: int| 0 <= k < before.len() && before[k] == (x as usize, y as usize);
                assert(after[k] == before[k]);
            }
            lemma_rooms_around_open_mono(c0, c1, w, h, x, y);
        }
    }
    assert forall|k: int| 0 <= k < after.len() implies {
        let (sx, sy) = #[trigger] after[k];
        (sx == 1 && sy == 1) || is_room(w, h, sx as int, sy as int)
    } by {
        if k < before.len() {
            assert(after[k] == before[k]);
        } else {
            assert(after[k] == (nx as usize, ny as usize));
        }
    }
}

// ---------------------------------------------------------------------------
// The shape of a carved maze: a tree of passages

/// The cell at row-major index `i` of a `w`-wide grid is a room.
pub open spec fn room_at(w: int, h: int, i: int) -> bool {
    is_room(w, h, i % w, i / w)
}

/// Number of open cells among the first `n`.
pub open spec fn open_count(cells: Seq<bool>, n: int) -> nat
    decreases n,
{
    if n <= 0 {
        0
    } else {
        open_count(cells, n - 1) + if !cells[n - 1] {
            1nat
        } else {
            0nat
        }
    }
}

/// Number of open rooms among the first `n` cells.
pub open spec fn open_room_count(cells: Seq<bool>, w: int, h: int, n: int) -> nat
    decreases n,
{
    if n <= 0 {
        0
    } else {
        open_room_count(cells, w, h, n - 1) + if !cells[n - 1] && room_at(w, h, n - 1) {
            1nat
        } else {
            0nat
        }
    }
}

/// Number of rooms among the first `n` cells.
pub open spec fn room_count(w: int, h: int, n: int) -> nat
    decreases n,
{
    if n <= 0 {
        0
    } else {
        room_count(w, h, n - 1) + if room_at(w, h, n - 1) {
            1nat
        } else {
            0nat
        }
    }
}

/// Rooms `a` and `b` lie two cells apart in a row or a column, and the
/// cell between them is open.
pub open spec fn joined(cells: Seq<bool>, w: int, a: (int, int), b: (int, int)) -> bool {
    &&& (b == room_step(a.0, a.1, 0) || b == room_step(a.0, a.1, 1) || b == room_step(a.0, a.1, 2) || b
        == room_step(a.0, a.1, 3))
    &&& !cell_at(cells, w, (a.0 + b.0) / 2, (a.1 + b.1) / 2)
}

/// A walk from the start room `(1, 1)` over cells of the grid, each step
/// to a room joined to the one before.
pub open spec fn is_walk(cells: Seq<bool>, w: int, h: int, p: Seq<(int, int)>) -> bool {
    &&& p.len() > 0
    &&& p[0] == (1int, 1int)
    &&& forall|k: int| 0 <= k < p.len() ==> 0 <= (#[trigger] p[k]).0 < w && 0 <= p[k].1 < h
    &&& forall|k: int| 0 <= k < p.len() - 1 ==> #[trigger] joined(cells, w, p[k], p[k + 1])
}

/// The cell can be reached from the start room through open passages.
pub open spec fn reachable(cells: Seq<bool>, w: int, h: int, x: int, y: int) -> bool {
    exists|p: Seq<(int, int)>| #[trigger] is_walk(cells, w, h, p) && p.last() == (x, y)
}

/// Every open cell other than a room lies between two open rooms.
#[verifier::opaque]
spec fn passages_ok(cells: Seq<bool>, w: int, h: int) -> bool {
    forall|x: int, y: int|
        0 <= x < w && 0 <= y < h && !#[trigger] cell_at(cells, w, x, y) && !is_room(w, h, x, y) ==> {
            ||| x % 2 == 1 && 0 < y && y + 1 < h && !cell_at(cells, w, x, y - 1) && !cell_at(cells, w, x, y + 1)
            ||| y % 2 == 1 && 0 < x && x + 1 < w && !cell_at(cells, w, x - 1, y) && !cell_at(cells, w, x + 1, y)
        }
}

/// Every open room can be reached from the start room.
#[verifier::opaque]
spec fn rooms_reachable(cells: Seq<bool>, w: int, h: int) -> bool {
    forall|x: int, y: int| is_room(w, h, x, y) && !#[trigger] cell_at(cells, w, x, y) ==> reachable(cells, w, h, x, y)
}

proof fn lemma_room_at(x: int, y: int, w: int, h: int)
    requires
        0 <= x < w,
        0 <= y < h,
    ensures
        room_at(w, h, y * w + x) == is_room(w, h, x, y),
{
    vstd::arithmetic::div_mod::lemma_fundamental_div_mod_converse(y * w + x, w, y, x);
}

proof fn lemma_open_one(cells: Seq<bool>, w: int, h: int, i: int, n: int)
    requires
        0 <= i < cells.len(),
        0 <= n <= cells.len(),
        cells[i],
    ensures
        open_count(cells.update(i, false), n) == open_count(cells, n) + if i < n {
            1int
        } else {
            0int
        },
        open_room_count(cells.update(i, false), w, h, n) == open_room_count(cells, w, h, n) + if i < n
            && room_at(w, h, i) {
            1int
        } else {
            0int
        },
    decreases n,
{
    if n > 0 {
        lemma_open_one(cells, w, h, i, n - 1);
    }
}

proof fn lemma_all_rooms_counted(cells: Seq<bool>, w: int, h: int, n: int)
    requires
        0 <= n <= cells.len(),
        forall|i: int| 0 <= i < n && room_at(w, h, i) ==> !#[trigger] cells[i],
    ensures
        open_room_count(cells, w, h, n) == room_count(w, h, n),
    decreases n,
{
    if n > 0 {
        lemma_all_rooms_counted(cells, w, h, n - 1);
    }
}

proof fn lemma_walk_mono(c0: Seq<bool>, c1: Seq<bool>, w: int, h: int, p: Seq<(int, int)>)
    requires
        c0.len() == w * h,
        c1.len() == w * h,
        forall|i: int| 0 <= i < w * h && !c0[i] ==> !#[trigger] c1[i],
        is_walk(c0, w, h, p),
    ensures
        is_walk(c1, w, h, p),
{
    assert forall|k: int| 0 <= k < p.len() - 1 implies #[trigger] joined(c1, w, p[k], p[k + 1]) by {
        assert(joined(c0, w, p[k], p[k + 1]));
        let a = p[k];
        let b = p[k + 1];
        assert(0 <= a.0 < w && 0 <= a.1 < h);
        assert(0 <= b.0 < w && 0 <= b.1 < h);
        lemma_index_in_grid((a.0 + b.0) / 2, (a.1 + b.1) / 2, w, h);
    }
}

/// Before carving from the open room `(cx, cy)` to the closed room
/// `(nx, ny)`, the cell between them is still closed; it is no room, and
/// `(nx, ny)` is.
proof fn lemma_carve_opens_two(
    c0: Seq<bool>,
    w: int,
    h: int,
    cx: int,
    cy: int,
    nx: int,
    ny: int,
    mx: int,
    my: int,
)
    requires
        w >= 3,
        h >= 3,
        c0.len() == w * h,
        passages_ok(c0, w, h),
        is_room(w, h, cx, cy),
        closed_room_next_to(c0, w, h, cx, cy, nx, ny),
        is_room(w, h, nx, ny),
        mx == (cx + nx) / 2,
        my == (cy + ny) / 2,
        0 <= mx < w,
        0 <= my < h,
    ensures
        c0[my * w + mx],
        !room_at(w, h, my * w + mx),
        room_at(w, h, ny * w + nx),
{
    reveal(passages_ok);
    lemma_index_in_grid(mx, my, w, h);
    lemma_index_in_grid(nx, ny, w, h);
    lemma_room_at(mx, my, w, h);
    lemma_room_at(nx, ny, w, h);
    assert(!is_room(w, h, mx, my));
    if !c0[my * w + mx] {
        assert(!cell_at(c0, w, mx, my));
        assert(cell_at(c0, w, nx, ny));
        if mx != cx {
            assert(my % 2 == 1);
            assert(mx % 2 == 0);
        } else {
            assert(mx % 2 == 1);
            assert(my % 2 == 0);
        }
        assert(false);
    }
}

/// Carving keeps every open cell other than a room between two open rooms.
proof fn lemma_carve_keeps_passages(
    c0: Seq<bool>,
    w: int,
    h: int,
    cx: int,
    cy: int,
    nx: int,
    ny: int,
    mx: int,
    my: int,
)
    requires
        w >= 3,
        h >= 3,
        c0.len() == w * h,
        passages_ok(c0, w, h),
        is_room(w, h, cx, cy),
        !cell_at(c0, w, cx, cy),
        closed_room_next_to(c0, w, h, cx, cy, nx, ny),
        is_room(w, h, nx, ny),
        mx == (cx + nx) / 2,
        my == (cy + ny) / 2,
        0 <= mx < w,
        0 <= my < h,
    ensures
        passages_ok(c0.update(my * w + mx, false).update(ny * w + nx, false), w, h),
{
    reveal(passages_ok);
    let c1 = c0.update(my * w + mx, false).update(ny * w + nx, false);
    lemma_index_in_grid(mx, my, w, h);
    lemma_index_in_grid(nx, ny, w, h);
    lemma_index_in_grid(cx, cy, w, h);
    assert forall|x: int, y: int|
        0 <= x < w && 0 <= y < h && !#[trigger] cell_at(c1, w, x, y) && !is_room(w, h, x, y) implies {
        ||| x % 2 == 1 && 0 < y && y + 1 < h && !cell_at(c1, w, x, y - 1) && !cell_at(c1, w, x, y + 1)
        ||| y % 2 == 1 && 0 < x && x + 1 < w && !cell_at(c1, w, x - 1, y) && !cell_at(c1, w, x + 1, y)
    } by {
        lemma_index_in_grid(x, y, w, h);
        if y * w + x == my * w + mx {
            lemma_index_unique(x, y, mx, my, w);
            assert(!cell_at(c1, w, cx, cy));
            assert(!cell_at(c1, w, nx, ny));
        } else if y * w + x == ny * w + nx {
            lemma_index_unique(x, y, nx, ny, w);
        } else {
            assert(!cell_at(c0, w, x, y));
            if x % 2 == 1 && 0 < y && y + 1 < h && !cell_at(c0, w, x, y - 1) && !cell_at(c0, w, x, y + 1) {
                lemma_index_in_grid(x, y - 1, w, h);
                lemma_index_in_grid(x, y + 1, w, h);
            } else {
                lemma_index_in_grid(x - 1, y, w, h);
                lemma_index_in_grid(x + 1, y, w, h);
            }
        }
    }
}

/// Carving keeps every open room reachable from the start room.
proof fn lemma_carve_keeps_reach(
    c0: Seq<bool>,
    w: int,
    h: int,
    cx: int,
    cy: int,
    nx: int,
    ny: int,
    mx: int,
    my: int,
)
    requires
        w >= 3,
        h >= 3,
        c0.len() == w * h,
        rooms_reachable(c0, w, h),
        is_room(w, h, cx, cy),
        !cell_at(c0, w, cx, cy),
        closed_room_next_to(c0, w, h, cx, cy, nx, ny),
        is_room(w, h, nx, ny),
        mx == (cx + nx) / 2,
        my == (cy + ny) / 2,
        0 <= mx < w,
        0 <= my < h,
    ensures
        rooms_reachable(c0.update(my * w + mx, false).update(ny * w + nx, false), w, h),
{
    reveal(rooms_reachable);
    let c1 = c0.update(my * w + mx, false).update(ny * w + nx, false);
    lemma_index_in_grid(mx, my, w, h);
    lemma_index_in_grid(nx, ny, w, h);
    lemma_index_in_grid(cx, cy, w, h);
    assert forall|i: int| 0 <= i < w * h && !c0[i] implies !#[trigger] c1[i] by {}
    assert(reachable(c0, w, h, cx, cy));
    let pc = choose|p: Seq<(int, int)>| #[trigger] is_walk(c0, w, h, p) && p.last() == (cx, cy);
    lemma_walk_mono(c0, c1, w, h, pc);
    let pn = pc.push((nx, ny));
    assert(joined(c1, w, (cx, cy), (nx, ny)));
    assert forall|k: int| 0 <= k < pn.len() - 1 implies #[trigger] joined(c1, w, pn[k], pn[k + 1]) by {
        if k < pc.len() - 1 {
            assert(pn[k] == pc[k] && pn[k + 1] == pc[k + 1]);
            assert(joined(c1, w, pc[k], pc[k + 1]));
        } else {
            assert(pn[k] == (cx, cy));
        }
    }
    assert forall|k: int| 0 <= k < pn.len() implies 0 <= (#[trigger] pn[k]).0 < w && 0 <= pn[k].1 < h by {
        if k < pc.len() {
            assert(pn[k] == pc[k]);
        }
    }
    assert(is_walk(c1, w, h, pn));
    assert forall|x: int, y: int| is_room(w, h, x, y) && !#[trigger] cell_at(c1, w, x, y) implies reachable(
        c1,
        w,
        h,
        x,
        y,
    ) by {
        lemma_index_in_grid(x, y, w, h);
        if y * w + x == ny * w + nx {
            lemma_index_unique(x, y, nx, ny, w);
            assert(pn.last() == (x, y));
        } else if y * w + x == my * w + mx {
            lemma_index_unique(x, y, mx, my, w);
        } else {
            assert(!cell_at(c0, w, x, y));
            assert(reachable(c0, w, h, x, y));
            let p = choose|p: Seq<(int, int)>| #[trigger] is_walk(c0, w, h, p) && p.last() == (x, y);
            lemma_walk_mono(c0, c1, w, h, p);
        }
    }
}

/// A maze of at least 3 x 3 cells is a tree of passages: every room can
/// be reached from the start room through open passages, and the open
/// cells are the rooms and one passage fewer than there are rooms.
pub open spec fn maze_spans(level: Level) -> bool {
    let w = level.width as int;
    let h = level.height as int;
    let n = level.cells@.len() as int;
    &&& forall|x: int, y: int| is_room(w, h, x, y) ==> #[trigger] reachable(level.cells@, w, h, x, y)
    &&& open_count(level.cells@, n) + 1 == 2 * room_count(w, h, n)
}

/// What every maze of at least `width` x `height` cells from the generator
/// satisfies: each side is rounded up to an odd number; the start cell
/// (index `width + 1`, the room `(1, 1)` on a grid of at least 3 x 3) is
/// open; every other open cell lies strictly inside the border with an odd
/// coordinate; and every room (both coordinates odd, inside the border) is
/// open.
pub open spec fn is_random_maze(level: Level, width: int, height: int) -> bool {
    &&& level.width == odd_up(width)
    &&& level.height == odd_up(height)
    &&& level.wf()
    &&& !level.cells@[level.width + 1]
    &&& forall|x: int, y: int|
        0 <= x < level.width && 0 <= y < level.height && !#[trigger] cell_at(
            level.cells@,
            level.width as int,
            x,
            y,
        ) ==> y * level.width + x == level.width + 1 || (0 < x < level.width - 1 && 0 < y
            < level.height - 1 && (x % 2 == 1 || y % 2 == 1))
    &&& forall|x: int, y: int|
        is_room(level.width as int, level.height as int, x, y) ==> !#[trigger] cell_at(
            level.cells@,
            level.width as int,
            x,
            y,
        )
}

proof fn lemma_no_open(cells: Seq<bool>, w: int, h: int, n: int)
    requires
        0 <= n <= cells.len(),
        forall|i: int| 0 <= i < n ==> #[trigger] cells[i],
    ensures
        open_count(cells, n) == 0,
        open_room_count(cells, w, h, n) == 0,
    decreases n,
{
    if n > 0 {
        lemma_no_open(cells, w, h, n - 1);
    }
}

/// The grid with only the start room open satisfies the tree invariants.
proof fn lemma_maze_start(w: int, h: int)
    requires
        w >= 3,
        h >= 3,
    ensures
        ({
            let c = Seq::new((w * h) as nat, |i: int| true).update(w + 1, false);
            &&& passages_ok(c, w, h)
            &&& rooms_reachable(c, w, h)
            &&& open_count(c, w * h) + 1 == 2 * open_room_count(c, w, h, w * h)
        }),
{
    reveal(passages_ok);
    reveal(rooms_reachable);
    let all = Seq::new((w * h) as nat, |i: int| true);
    let c = all.update(w + 1, false);
    lemma_index_in_grid(1, 1, w, h);
    assert(1 * w + 1 == w + 1);
    lemma_no_open(all, w, h, w * h);
    lemma_open_one(all, w, h, w + 1, w * h);
    lemma_room_at(1, 1, w, h);
    assert forall|x: int, y: int|
        0 <= x < w && 0 <= y < h && !#[trigger] cell_at(c, w, x, y) && !is_room(w, h, x, y) implies {
        ||| x % 2 == 1 && 0 < y && y + 1 < h && !cell_at(c, w, x, y - 1) && !cell_at(c, w, x, y + 1)
        ||| y % 2 == 1 && 0 < x && x + 1 < w && !cell_at(c, w, x - 1, y) && !cell_at(c, w, x + 1, y)
    } by {
        lemma_index_in_grid(x, y, w, h);
        if y * w + x == w + 1 {
            lemma_index_unique(x, y, 1, 1, w);
        }
    }
    let p = seq![(1int, 1int)];
    assert(is_walk(c, w, h, p));
    assert forall|x: int, y: int| is_room(w, h, x, y) && !#[trigger] cell_at(c, w, x, y) implies reachable(
        c,
        w,
        h,
        x,
        y,
    ) by {
        lemma_index_in_grid(x, y, w, h);
        if y * w + x == w + 1 {
            lemma_index_unique(x, y, 1, 1, w);
            assert(p.last() == (x, y));
        }
    }
}

/// With every room open, the tree invariants give `maze_spans`.
proof fn lemma_maze_end(cells: Seq<bool>, w: int, h: int)
    requires
        w >= 3,
        h >= 3,
        cells.len() == w * h,
        forall|x: int, y: int| is_room(w, h, x, y) ==> !#[trigger] cell_at(cells, w, x, y),
        rooms_reachable(cells, w, h),
        open_count(cells, w * h) + 1 == 2 * open_room_count(cells, w, h, w * h),
    ensures
        forall|x: int, y: int| is_room(w, h, x, y) ==> #[trigger] reachable(cells, w, h, x, y),
        open_count(cells, w * h) + 1 == 2 * room_count(w, h, w * h),
{
    reveal(rooms_reachable);
    assert forall|x: int, y: int| is_room(w, h, x, y) implies #[trigger] reachable(cells, w, h, x, y) by {
        assert(!cell_at(cells, w, x, y));
    }
    assert forall|i: int| 0 <= i < w * h && room_at(w, h, i) implies !#[trigger] cells[i] by {
        vstd::arithmetic::div_mod::lemma_fundamental_div_mod(i, w);
        assert(!cell_at(cells, w, i % w, i / w));
        assert((i / w) * w + i % w == i) by (nonlinear_arith)
            requires
                i == w * (i / w) + i % w,
        ;
    }
    lemma_all_rooms_counted(cells, w, h, w * h);
}

/// A fresh maze of at least `width` x `height` cells (each side rounded up
/// to an odd number), carved by a randomised depth-first search from the
/// room at `(1, 1)`: rooms sit at odd coordinates, and each step of the
/// search opens an unvisited neighbouring room and the cell between. On a
/// grid of at least 3 x 3 cells the passages form a tree that reaches
/// every room (see `maze_spans`); which tree is left to chance.
pub fn generate_random_maze(width: usize, height: usize) -> (level: Level)
    requires
        odd_up(width as int) <= i32::MAX,
        odd_up(height as int) <= i32::MAX,
        odd_up(width as int) * odd_up(height as int) <= usize::MAX,
        odd_up(width as int) * odd_up(height as int) > odd_up(width as int) + 1,
    ensures
        is_random_maze(level, width as int, height as int),
        level.width >= 3 && level.height >= 3 ==> maze_spans(level),
{
    let w: usize = if width % 2 == 0 {
        width + 1
    } else {
        width
    };
    let h: usize = if height % 2 == 0 {
        height + 1
    } else {
        height
    };
    let ghost wi = w as int;
    let ghost hi = h as int;
    let mut cells: Vec<bool> = vec![true; w * h];
    let mut stack: Vec<(usize, usize)> = Vec::new();
    cells.set(1 * w + 1, false);
    stack.push((1, 1));
    proof {
        reveal(carved_cells_ok);
        reveal(frontier_ok);
        assert forall|x: int, y: int|
            0 <= x < w && 0 <= y < h && !#[trigger] cell_at(cells@, wi, x, y) implies y * wi + x
            == wi + 1 by {
            lemma_index_in_grid(x, y, wi, hi);
        }
        assert forall|x: int, y: int|
            is_room(wi, hi, x, y) && !#[trigger] cell_at(cells@, wi, x, y) implies stack@.contains(
            (x as usize, y as usize),
        ) by {
            lemma_index_in_grid(x, y, wi, hi);
            lemma_index_unique(x, y, 1, 1, wi);
            assert(stack@[0] == (1usize, 1usize));
        }
        if wi >= 3 && hi >= 3 {
            assert(cells@ =~= Seq::new((wi * hi) as nat, |i: int| true).update(wi + 1, false));
            lemma_maze_start(wi, hi);
        }
    }
    while stack.len() > 0
        invariant
            w == wi,
            h == hi,
            wi % 2 == 1,
            hi % 2 == 1,
            wi <= i32::MAX,
            hi <= i32::MAX,
            wi * hi > wi + 1,
            wi * hi <= usize::MAX,
            cells@.len() == wi * hi,
            !cells@[wi + 1],
            stack_ok(stack@, wi, hi),
            carved_cells_ok(cells@, wi, hi),
            frontier_ok(cells@, wi, hi, stack@),
            forall|k: int| 0 <= k < stack@.len() ==> !cell_at(cells@, wi, (#[trigger] stack@[k]).0 as int, stack@[k].1 as int),
            wi >= 3 && hi >= 3 ==> passages_ok(cells@, wi, hi),
            wi >= 3 && hi >= 3 ==> rooms_reachable(cells@, wi, hi),
            wi >= 3 && hi >= 3 ==> open_count(cells@, wi * hi) + 1 == 2 * open_room_count(cells@, wi, hi, wi * hi),
        decreases 2 * wall_count(cells@) + stack@.len(),
    {
        let top = stack.len() - 1;
        let (cx, cy) = stack[top];
        assert(stack@[top as int] == (cx, cy));
        let mut rooms: Vec<(usize, usize)> = Vec::new();
        push_if_closed(&cells, w, h, cx, cy, 0, &mut rooms);
        let ghost r1 = rooms@;
        push_if_closed(&cells, w, h, cx, cy, 1, &mut rooms);
        let ghost r2 = rooms@;
        push_if_closed(&cells, w, h, cx, cy, 2, &mut rooms);
        let ghost r3 = rooms@;
        push_if_closed(&cells, w, h, cx, cy, 3, &mut rooms);
        if rooms.len() == 0 {
            let ghost before = stack@;
            stack.pop();
            proof {
                lemma_pop_keeps_frontier(cells@, wi, hi, before, cx, cy);
                assert(stack_ok(stack@, wi, hi)) by {
                    assert forall|k: int| 0 <= k < stack@.len() implies {
                        let (sx, sy) = #[trigger] stack@[k];
                        (sx == 1 && sy == 1) || is_room(wi, hi, sx as int, sy as int)
                    } by {
                        assert(stack@[k] == before[k]);
                    }
                }
                assert forall|k: int| 0 <= k < stack@.len() implies !cell_at(
                    cells@,
                    wi,
                    (#[trigger] stack@[k]).0 as int,
                    stack@[k].1 as int,
                ) by {
                    assert(stack@[k] == before[k]);
                }
            }
        } else {
            let (nx, ny) = choose_cell(&rooms).unwrap();
            proof {
                let kk = choose|k: int| 0 <= k < rooms@.len() && rooms@[k] == (nx, ny);
                if kk >= r3.len() {
                } else if kk >= r2.len() {
                    assert(rooms@[kk] == r3[kk]);
                } else if kk >= r1.len() {
                    assert(rooms@[kk] == r3[kk]);
                    assert(r3[kk] == r2[kk]);
                } else {
                    assert(rooms@[kk] == r3[kk]);
                    assert(r3[kk] == r2[kk]);
                    assert(r2[kk] == r1[kk]);
                }
                assert(closed_room_next_to(
                    cells@,
                    wi,
                    hi,
                    cx as int,
                    cy as int,
                    nx as int,
                    ny as int,
                ));
            }
            let mx = (cx + nx) / 2;
            let my = (cy + ny) / 2;
            let ghost c0 = cells@;
            let ghost before = stack@;
            proof {
                lemma_carve_keeps_invariants(
                    c0,
                    wi,
                    hi,
                    before,
                    cx as int,
                    cy as int,
                    nx as int,
                    ny as int,
                    mx as int,
                    my as int,
                );
                lemma_index_in_grid(mx as int, my as int, wi, hi);
                lemma_index_in_grid(nx as int, ny as int, wi, hi);
                lemma_wall_count_open(c0, my * wi + mx);
                lemma_wall_count_open(c0.update(my * wi + mx, false), ny * wi + nx);
                assert(wi >= 3 && hi >= 3);
                assert(stack@[top as int] == (cx, cy));
                assert(!cell_at(c0, wi, cx as int, cy as int));
                let (ci, cj) = (cx as int, cy as int);
                assert(is_room(wi, hi, ci, cj)) by {
                    assert(before[top as int] == (cx, cy));
                }
                lemma_carve_opens_two(c0, wi, hi, ci, cj, nx as int, ny as int, mx as int, my as int);
                lemma_carve_keeps_passages(c0, wi, hi, ci, cj, nx as int, ny as int, mx as int, my as int);
                lemma_carve_keeps_reach(c0, wi, hi, ci, cj, nx as int, ny as int, mx as int, my as int);
                lemma_open_one(c0, wi, hi, my * wi + mx, wi * hi);
                lemma_open_one(c0.update(my * wi + mx, false), wi, hi, ny * wi + nx, wi * hi);
            }
            cells.set(my * w + mx, false);
            cells.set(ny * w + nx, false);
            stack.push((nx, ny));
            proof {
                assert forall|k: int| 0 <= k < stack@.len() implies !cell_at(
                    cells@,
                    wi,
                    (#[trigger] stack@[k]).0 as int,
                    stack@[k].1 as int,
                ) by {
                    if k < before.len() {
                        assert(stack@[k] == before[k]);
                        let (sx, sy) = before[k];
                        assert(!cell_at(c0, wi, sx as int, sy as int));
                        assert((sx == 1 && sy == 1) || is_room(wi, hi, sx as int, sy as int));
                        lemma_index_in_grid(sx as int, sy as int, wi, hi);
                    }
                }
            }
        }
    }
    proof {
        if wi >= 3 && hi >= 3 {
            reveal(frontier_ok);
            reveal(carved_cells_ok);
            assert forall|x: int, y: int| is_room(wi, hi, x, y) implies !#[trigger] cell_at(
                cells@,
                wi,
                x,
                y,
            ) by {
                lemma_index_unique(1, 1, 1, 1, wi);
                lemma_all_rooms_open(cells@, wi, hi, x, y);
            }
            lemma_maze_end(cells@, wi, hi);
        }
        reveal(carved_cells_ok);
    }
    Level { width: w, height: h, cells }
}

} // verus!
