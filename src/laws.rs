//! Laws that relate several operations of a board.

use vstd::prelude::*;
use crate::board::Board;
use crate::geom::Point;
use crate::grid::{dead_grid, with_cell};

verus! {

/// Setting a cell on the board and reading it back gives the value set;
/// setting a cell off the board leaves every cell as it was.
pub proof fn lemma_set_then_get(before: &Board, after: &Board, p: Point, v: bool)
    requires
        before.wf(),
        after.spec_size() == before.spec_size(),
        after@ == with_cell(before@, p.0 as int, p.1 as int, v),
    ensures
        before.spec_contains(p.0 as int, p.1 as int) ==> after@[p.1 as int][p.0 as int] == v,
        !before.spec_contains(p.0 as int, p.1 as int) ==> after@ == before@,
{
    before.lemma_shape();
}

/// After clearing, every cell of the board is dead, and clearing a second
/// time changes nothing.
pub proof fn lemma_clear_idempotent(start: &Board, once: &Board, twice: &Board)
    requires
        start.wf(),
        once.spec_size() == start.spec_size(),
        once@ == dead_grid(start.spec_size().0 as nat, start.spec_size().1 as nat),
        twice.spec_size() == once.spec_size(),
        twice@ == dead_grid(once.spec_size().0 as nat, once.spec_size().1 as nat),
    ensures
        forall|x: int, y: int| once.spec_contains(x, y) ==> !#[trigger] once@[y][x],
        twice@ == once@,
{
}

} // verus!
