//! The mathematical model of a board: rows of cells, `g[y][x]` for column `x`
//! of row `y`, with every cell beyond the edges dead.

use vstd::prelude::*;
use crate::rule::{count_of, life_rule};

verus! {

/// `g` has `height` rows of `width` cells each.
pub open spec fn is_grid(g: Seq<Seq<bool>>, width: int, height: int) -> bool {
    &&& g.len() == height
    &&& forall|y: int| 0 <= y < height ==> (#[trigger] g[y]).len() == width
}

/// The cell at `(x, y)`, dead when it lies beyond the edges.
pub open spec fn alive_at(g: Seq<Seq<bool>>, x: int, y: int) -> bool {
    0 <= y < g.len() && 0 <= x < g[y].len() && g[y][x]
}

/// The number of live cells among the eight that surround `(x, y)`.
pub open spec fn live_neighbours(g: Seq<Seq<bool>>, x: int, y: int) -> int {
    count_of(alive_at(g, x - 1, y - 1)) + count_of(alive_at(g, x, y - 1)) + count_of(
        alive_at(g, x + 1, y - 1),
    ) + count_of(alive_at(g, x - 1, y)) + count_of(alive_at(g, x + 1, y)) + count_of(
        alive_at(g, x - 1, y + 1),
    ) + count_of(alive_at(g, x, y + 1)) + count_of(alive_at(g, x + 1, y + 1))
}

/// The state of `(x, y)` one generation after `g`.
pub open spec fn next_cell(g: Seq<Seq<bool>>, x: int, y: int) -> bool {
    life_rule(alive_at(g, x, y), live_neighbours(g, x, y))
}

/// The generation that follows `g`, cell by cell.
pub open spec fn life_step(g: Seq<Seq<bool>>) -> Seq<Seq<bool>> {
    Seq::new(g.len(), |y: int| Seq::new(g[y].len(), |x: int| next_cell(g, x, y)))
}

/// A grid of the given size with every cell dead.
pub open spec fn dead_grid(width: nat, height: nat) -> Seq<Seq<bool>> {
    Seq::new(height, |y: int| Seq::new(width, |x: int| false))
}

/// `g` with the cell at `(x, y)` set to `v`; `g` itself when `(x, y)` lies
/// beyond the edges.
pub open spec fn with_cell(g: Seq<Seq<bool>>, x: int, y: int, v: bool) -> Seq<Seq<bool>> {
    if 0 <= y < g.len() && 0 <= x < g[y].len() {
        g.update(y, g[y].update(x, v))
    } else {
        g
    }
}

/// The grid whose cell `(x, y)` is `bits[x * height + y]`: the bits fill the
/// board column by column, each column from the top down.
pub open spec fn grid_from_bits(bits: Seq<bool>, width: int, height: int) -> Seq<Seq<bool>> {
    Seq::new(height as nat, |y: int| Seq::new(width as nat, |x: int| bits[x * height + y]))
}

} // verus!
