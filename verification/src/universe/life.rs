//! Conway's Game of Life (B3/S23) on the plane of `i32` coordinates, stated
//! over mathematical sets of cells.

use crate::collections::Cell;
use vstd::prelude::*;

verus! {

/// Whether the point `(x, y)` is an `i32` cell and is live in `s`.
pub open spec fn alive_at(s: Set<Cell>, x: int, y: int) -> bool {
    &&& i32::MIN <= x <= i32::MAX
    &&& i32::MIN <= y <= i32::MAX
    &&& s.contains((x as i32, y as i32))
}

/// 1 for `true`, 0 for `false`.
pub open spec fn one_if(b: bool) -> int {
    if b { 1 } else { 0 }
}

/// Number of live cells among the eight neighbours of `(x, y)`.
pub open spec fn live_neighbors(s: Set<Cell>, x: int, y: int) -> int {
    one_if(alive_at(s, x - 1, y - 1)) + one_if(alive_at(s, x - 1, y)) + one_if(
        alive_at(s, x - 1, y + 1),
    ) + one_if(alive_at(s, x, y - 1)) + one_if(alive_at(s, x, y + 1)) + one_if(
        alive_at(s, x + 1, y - 1),
    ) + one_if(alive_at(s, x + 1, y)) + one_if(alive_at(s, x + 1, y + 1))
}

/// Whether `c` is live in the generation after `s`: a live cell survives
/// with two or three live neighbours, a dead one is born with exactly three.
pub open spec fn lives_next(s: Set<Cell>, c: Cell) -> bool {
    let n = live_neighbors(s, c.0 as int, c.1 as int);
    ||| (s.contains(c) && (n == 2 || n == 3))
    ||| (!s.contains(c) && n == 3)
}

/// The generation after `s`.
pub open spec fn next_generation(s: Set<Cell>) -> Set<Cell> {
    Set::new(|c: Cell| lives_next(s, c))
}

/// Whether `c` lies in the 3x3 block centred on `a`.
pub open spec fn near(a: Cell, c: Cell) -> bool {
    &&& a.0 - 1 <= c.0 <= a.0 + 1
    &&& a.1 - 1 <= c.1 <= a.1 + 1
}

/// Every live cell stays two steps away from the edge of the `i32` plane, so
/// that its neighbours and theirs are `i32` cells too.
pub open spec fn away_from_edge(s: Set<Cell>) -> bool {
    forall|c: Cell|
        #[trigger] s.contains(c) ==> i32::MIN + 2 <= c.0 <= i32::MAX - 2 && i32::MIN + 2 <= c.1
            <= i32::MAX - 2
}

/// A cell can only be live next if it lies next to (or on) a live cell now.
pub proof fn lemma_lives_next_is_near_live(s: Set<Cell>, c: Cell)
    requires
        lives_next(s, c),
    ensures
        exists|a: Cell| s.contains(a) && #[trigger] near(a, c),
{
    let x = c.0 as int;
    let y = c.1 as int;
    if s.contains(c) {
        assert(near(c, c));
    } else if alive_at(s, x - 1, y - 1) {
        assert(near(((x - 1) as i32, (y - 1) as i32), c));
    } else if alive_at(s, x - 1, y) {
        assert(near(((x - 1) as i32, y as i32), c));
    } else if alive_at(s, x - 1, y + 1) {
        assert(near(((x - 1) as i32, (y + 1) as i32), c));
    } else if alive_at(s, x, y - 1) {
        assert(near((x as i32, (y - 1) as i32), c));
    } else if alive_at(s, x, y + 1) {
        assert(near((x as i32, (y + 1) as i32), c));
    } else if alive_at(s, x + 1, y - 1) {
        assert(near(((x + 1) as i32, (y - 1) as i32), c));
    } else if alive_at(s, x + 1, y) {
        assert(near(((x + 1) as i32, y as i32), c));
    } else {
        assert(alive_at(s, x + 1, y + 1));
        assert(near(((x + 1) as i32, (y + 1) as i32), c));
    }
}

} // verus!
