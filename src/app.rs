//! What the simulation window decides: how cells map to pixels, how the
//! view pans and zooms, how strokes of the mouse paint cells, and when the
//! board advances. Drawing the pixels and reading events are left to the
//! program that owns the window.

use vstd::prelude::*;
use crate::board::{storage_len, Board, BoardError};
use crate::geom::{
    div_toward_zero, fits_i32, lemma_quotient_bounds, saturate_i32, trunc_div, Move,
    Point, Size,
};
use crate::grid::{dead_grid, grid_from_bits, is_grid, life_step};

verus! {

/// The largest zoom: pixels per cell side.
pub const MAX_RECT_SIZE: i32 = 32;

/// What a window starts with.
pub struct AppSettings {
    pub win_size: Size,
    pub board_size: Size,
    pub rect_size: i32,
}

impl Default for AppSettings {
    /// A 640 by 480 window of 4-pixel cells, filled by the board.
    fn default() -> (r: Self)
        ensures
            r.win_size == Size(640, 480),
            r.rect_size == 4,
            r.board_size == Size(160, 120),
    {
        let win_size = Size(640, 480);
        let rect_size: i32 = 4;
        let board_size = Size(
            ((win_size.0 as u32) / (rect_size as u32)) as i32,
            ((win_size.1 as u32) / (rect_size as u32)) as i32,
        );
        AppSettings { win_size, board_size, rect_size }
    }
}

/// `val` raised to `min`, then lowered to `max`.
pub open spec fn spec_clamp(val: int, min: int, max: int) -> int {
    let raised = if val >= min {
        val
    } else {
        min
    };
    if raised <= max {
        raised
    } else {
        max
    }
}

/// `val` raised to `min`, then lowered to `max`.
pub fn clamp(val: i32, min: i32, max: i32) -> (r: i32)
    ensures
        r == spec_clamp(val as int, min as int, max as int),
{
    let raised = if val >= min {
        val
    } else {
        min
    };
    if raised <= max {
        raised
    } else {
        max
    }
}

/// The state of the simulation window: the board, the view on it, and
/// what the mouse is doing.
pub struct App {
    /// The window size in pixels.
    pub win_size: Size,
    /// Pixels per cell side.
    pub rect_size: i32,
    /// Where the board's top left corner is drawn, in pixels.
    pub offset: Move,
    /// The direction the view slides in, one cell per update, while arrow
    /// keys are held.
    pub slide: Move,
    /// Whether the board advances on every update.
    pub running: bool,
    /// The last mouse position, in pixels.
    pub mouse_pos: Point,
    /// The cell under the mouse at its last position.
    pub onmouse_cell: Point,
    /// Whether strokes of the mouse bring cells to life.
    pub drawing: bool,
    /// Whether strokes of the mouse kill cells.
    pub erasing: bool,
    /// While the view is dragged: where the drag started, and the offset then.
    pub moving: Option<(Point, Move)>,
    /// Whether the picture no longer matches the state.
    pub invalidated: bool,
    pub board: Board,
}

/// What a stroke of the mouse writes: life while drawing, death while
/// erasing, nothing when both or neither is on.
pub open spec fn stroke_value(drawing: bool, erasing: bool) -> Option<bool> {
    if drawing && !erasing {
        Some(true)
    } else if erasing && !drawing {
        Some(false)
    } else {
        None
    }
}

/// Doubles a cell side of less than `MAX_RECT_SIZE` pixels, `k` times.
pub open spec fn zoom_in_rect(r: int, k: nat) -> int
    decreases k,
{
    if k == 0 {
        r
    } else {
        let p = zoom_in_rect(r, (k - 1) as nat);
        if p < MAX_RECT_SIZE {
            2 * p
        } else {
            p
        }
    }
}

/// Halves a cell side of more than one pixel, `k` times.
pub open spec fn zoom_out_rect(r: int, k: nat) -> int
    decreases k,
{
    if k == 0 {
        r
    } else {
        let p = zoom_out_rect(r, (k - 1) as nat);
        if p > 1 {
            p / 2
        } else {
            p
        }
    }
}

/// The cell side after zooming by `scale` steps: in for a positive scale,
/// out for a negative one.
pub open spec fn zoomed_rect(r: int, scale: int) -> int {
    if scale > 0 {
        zoom_in_rect(r, scale as nat)
    } else {
        zoom_out_rect(r, (-scale) as nat)
    }
}

/// The offset, along one axis, that keeps the point under the mouse in place
/// when the cell side goes from `r0` to `r1` pixels.
pub open spec fn zoomed_offset(mouse: int, offset: int, r0: int, r1: int) -> int {
    saturate_i32(trunc_div(mouse * r0 - (mouse - offset) * r1, r0))
}

/// The offset, along one axis, that centres a board of `board` pixels in a
/// window of `win` pixels, or keeps a larger board covering the window.
pub open spec fn fitted_offset(offset: int, win: int, board: int) -> int {
    if board < win {
        (win - board) / 2
    } else {
        spec_clamp(offset, win - board, 0)
    }
}

/// `v` without its sign.
pub open spec fn abs_int(v: int) -> int {
    if v >= 0 {
        v
    } else {
        -v
    }
}

/// The number of steps of a stroke from `from` to `to`: the longer of its
/// two extents.
pub open spec fn stroke_len(from: Point, to: Point) -> int {
    let d0 = abs_int(to.0 - from.0);
    let d1 = abs_int(to.1 - from.1);
    if d0 >= d1 {
        d0
    } else {
        d1
    }
}

/// Step `i` of the stroke from `from` to `to`: `i / stroke_len` of the way,
/// each coordinate rounded toward `from`.
pub open spec fn stroke_point(from: Point, to: Point, i: int) -> (int, int) {
    let a = stroke_len(from, to);
    (from.0 + trunc_div((to.0 - from.0) * i, a), from.1 + trunc_div((to.1 - from.1) * i, a))
}

/// One of the first `n` steps of the stroke lands on `(x, y)`.
pub open spec fn stroke_reaches(from: Point, to: Point, n: int, x: int, y: int) -> bool {
    exists|i: int| 0 <= i < n && #[trigger] stroke_point(from, to, i) == (x, y)
}

/// The cells a stroke paints: each of its steps, and its end.
pub open spec fn on_stroke(from: Point, to: Point, x: int, y: int) -> bool {
    stroke_reaches(from, to, stroke_len(from, to), x, y) || (x == to.0 && y == to.1)
}

/// `g` with every cell of the stroke from `from` to `to` set to `v`.
pub open spec fn painted(g: Seq<Seq<bool>>, from: Point, to: Point, v: bool) -> Seq<Seq<bool>> {
    Seq::new(
        g.len(),
        |y: int| Seq::new(g[y].len(), |x: int| if on_stroke(from, to, x, y) { v } else { g[y][x] }),
    )
}

/// The cells of an `old_w` by `old_h` grid `g` on a new `new_w` by `new_h`
/// grid: centred along an axis where the new grid is larger, kept from the
/// top left where it is smaller; the rest dead.
pub open spec fn fitted(g: Seq<Seq<bool>>, old_w: int, old_h: int, new_w: int, new_h: int) -> Seq<
    Seq<bool>,
> {
    let xo = if new_w > old_w {
        (new_w - old_w) / 2
    } else {
        0
    };
    let yo = if new_h > old_h {
        (new_h - old_h) / 2
    } else {
        0
    };
    Seq::new(
        new_h as nat,
        |y: int|
            Seq::new(
                new_w as nat,
                |x: int| 0 <= x - xo < old_w && 0 <= y - yo < old_h && g[y - yo][x - xo],
            ),
    )
}

/// A step of a stroke lies between its two ends along each axis.
proof fn lemma_stroke_coord(d: int, i: int, a: int)
    requires
        a > 0,
        0 <= i < a,
        -a <= d <= a,
    ensures
        d >= 0 ==> 0 <= trunc_div(d * i, a) <= d,
        d < 0 ==> d <= trunc_div(d * i, a) <= 0,
{
    let e = abs_int(d);
    assert(0 <= e * i <= e * a) by (nonlinear_arith)
        requires
            e >= 0,
            0 <= i < a,
    ;
    vstd::arithmetic::div_mod::lemma_div_is_ordered(e * i, e * a, a);
    vstd::arithmetic::div_mod::lemma_div_by_multiple(e, a);
    lemma_quotient_bounds(e * i, a);
    if d < 0 {
        assert(d * i == -(e * i)) by (nonlinear_arith)
            requires
                e == -d,
        ;
    }
}

/// The steps before `i + 1` are those before `i`, and step `i`.
proof fn lemma_reach_step(from: Point, to: Point, i: int, x: int, y: int)
    requires
        i >= 0,
    ensures
        stroke_reaches(from, to, i + 1, x, y) == (stroke_reaches(from, to, i, x, y) || stroke_point(
            from,
            to,
            i,
        ) == (x, y)),
{
    if stroke_reaches(from, to, i + 1, x, y) {
        let j = choose|j: int| 0 <= j < i + 1 && #[trigger] stroke_point(from, to, j) == (x, y);
        if j < i {
            assert(stroke_reaches(from, to, i, x, y));
        }
    }
    if stroke_reaches(from, to, i, x, y) {
        let j = choose|j: int| 0 <= j < i && #[trigger] stroke_point(from, to, j) == (x, y);
        assert(0 <= j < i + 1 && stroke_point(from, to, j) == (x, y));
    }
    if stroke_point(from, to, i) == (x, y) {
        assert(0 <= i < i + 1 && stroke_point(from, to, i) == (x, y));
    }
}

/// Sets every cell of the stroke from `from` to `to` that lies on the board
/// to `v`.
fn paint_stroke(board: &mut Board, from: Point, to: Point, v: bool)
    requires
        old(board).wf(),
    ensures
        final(board).wf(),
        final(board).spec_size() == old(board).spec_size(),
        final(board)@ == painted(old(board)@, from, to, v),
{
    let ghost g = board@;
    proof {
        board.lemma_shape();
    }
    let ghost w = board.spec_size().0 as int;
    let ghost h = board.spec_size().1 as int;
    let d0 = to.0 as i128 - from.0 as i128;
    let d1 = to.1 as i128 - from.1 as i128;
    let a0 = if d0 >= 0 {
        d0
    } else {
        -d0
    };
    let a1 = if d1 >= 0 {
        d1
    } else {
        -d1
    };
    let a = if a0 >= a1 {
        a0
    } else {
        a1
    };
    assert(a == stroke_len(from, to));
    let mut i: i128 = 0;
    while i < a
        invariant
            board.wf(),
            board.spec_size() == old(board).spec_size(),
            is_grid(g, w, h),
            w == board.spec_size().0,
            h == board.spec_size().1,
            0 <= i <= a,
            a == stroke_len(from, to),
            d0 == to.0 - from.0,
            d1 == to.1 - from.1,
            a <= 0x1_0000_0000,
            forall|x: int, y: int|
                0 <= y < h && 0 <= x < w ==> #[trigger] board@[y][x] == if stroke_reaches(
                    from,
                    to,
                    i as int,
                    x,
                    y,
                ) {
                    v
                } else {
                    g[y][x]
                },
        decreases a - i,
    {
        proof {
            lemma_stroke_coord(d0 as int, i as int, a as int);
            lemma_stroke_coord(d1 as int, i as int, a as int);
            assert(-0x1_0000_0000_0000_0000 <= d0 * i <= 0x1_0000_0000_0000_0000) by (
            nonlinear_arith)
                requires
                    -a <= d0 <= a,
                    0 <= i < a,
                    a <= 0x1_0000_0000,
            ;
            assert(-0x1_0000_0000_0000_0000 <= d1 * i <= 0x1_0000_0000_0000_0000) by (
            nonlinear_arith)
                requires
                    -a <= d1 <= a,
                    0 <= i < a,
                    a <= 0x1_0000_0000,
            ;
        }
        let q0 = div_toward_zero(d0 * i, a);
        let q1 = div_toward_zero(d1 * i, a);
        let p = Point((from.0 as i128 + q0) as i32, (from.1 as i128 + q1) as i32);
        assert((p.0 as int, p.1 as int) == stroke_point(from, to, i as int));
        let ghost before = board@;
        if board.contains(p) {
            board.set(p, v);
        }
        proof {
            board.lemma_shape();
            assert forall|x: int, y: int| 0 <= y < h && 0 <= x < w implies #[trigger] board@[y][x]
                == if stroke_reaches(from, to, i + 1, x, y) {
                v
            } else {
                g[y][x]
            } by {
                lemma_reach_step(from, to, i as int, x, y);
            }
        }
        i += 1;
    }
    if board.contains(to) {
        board.set(to, v);
    }
    proof {
        board.lemma_shape();
        let target = painted(g, from, to, v);
        assert forall|y: int| 0 <= y < h implies #[trigger] board@[y] =~= target[y] by {
            assert forall|x: int| 0 <= x < w implies #[trigger] board@[y][x] == target[y][x] by {}
        }
        assert(board@ =~= target);
    }
}

impl App {
    pub open spec fn wf(&self) -> bool {
        &&& self.board.wf()
        &&& self.rect_size >= 1
    }

    /// Every field but the board and the picture's staleness agrees.
    pub open spec fn same_controls(&self, other: &App) -> bool {
        &&& self.win_size == other.win_size
        &&& self.rect_size == other.rect_size
        &&& self.offset == other.offset
        &&& self.slide == other.slide
        &&& self.running == other.running
        &&& self.mouse_pos == other.mouse_pos
        &&& self.onmouse_cell == other.onmouse_cell
        &&& self.drawing == other.drawing
        &&& self.erasing == other.erasing
        &&& self.moving == other.moving
    }

    /// The cell under the pixel `pos`.
    pub open spec fn spec_pos2cell(&self, pos: Point) -> Point {
        Point(
            trunc_div(pos.0 - self.offset.0, self.rect_size as int) as i32,
            trunc_div(pos.1 - self.offset.1, self.rect_size as int) as i32,
        )
    }

    /// The pixel `pos` lies close enough to the board for its cell to be
    /// computed.
    pub open spec fn pos_in_range(&self, pos: Point) -> bool {
        fits_i32(pos.0 - self.offset.0) && fits_i32(pos.1 - self.offset.1)
    }

    /// A window in the state it opens with, over a dead board of the
    /// configured size.
    pub fn new(settings: &AppSettings) -> (r: Result<App, BoardError>)
        requires
            settings.rect_size >= 1,
        ensures
            r is Err <==> (settings.board_size.0 <= 0 || settings.board_size.1 <= 0 || storage_len(
                settings.board_size.0 as int,
                settings.board_size.1 as int,
            ) > usize::MAX),
            r matches Err(e) ==> e == BoardError::InvalidSize,
            r matches Ok(a) ==> {
                &&& a.wf()
                &&& a.win_size == settings.win_size
                &&& a.rect_size == settings.rect_size
                &&& a.offset == Move(0, 0)
                &&& a.slide == Move(0, 0)
                &&& a.running
                &&& a.mouse_pos == Point(0, 0)
                &&& a.onmouse_cell == Point(0, 0)
                &&& !a.drawing
                &&& !a.erasing
                &&& a.moving is None
                &&& a.invalidated
                &&& a.board.spec_size() == settings.board_size
                &&& a.board@ == dead_grid(
                    settings.board_size.0 as nat,
                    settings.board_size.1 as nat,
                )
            },
    {
        let board = match Board::new_empty(settings.board_size) {
            Ok(b) => b,
            Err(e) => {
                return Err(e);
            },
        };
        Ok(
            App {
                win_size: settings.win_size,
                rect_size: settings.rect_size,
                offset: Move(0, 0),
                slide: Move(0, 0),
                running: true,
                mouse_pos: Point(0, 0),
                onmouse_cell: Point(0, 0),
                drawing: false,
                erasing: false,
                moving: None,
                invalidated: true,
                board,
            },
        )
    }

    /// Fills the board from `bits`, column by column, as `Board::random_init`
    /// does.
    pub fn random_init(&mut self, bits: &Vec<bool>)
        requires
            old(self).wf(),
            bits@.len() == old(self).board.spec_size().0 * old(self).board.spec_size().1,
        ensures
            final(self).wf(),
            final(self).same_controls(&*old(self)),
            final(self).invalidated,
            final(self).board.spec_size() == old(self).board.spec_size(),
            final(self).board@ == grid_from_bits(
                bits@,
                old(self).board.spec_size().0 as int,
                old(self).board.spec_size().1 as int,
            ),
    {
        self.board.random_init(bits);
        self.invalidated = true;
    }

    /// Gives every cell a random state.
    pub fn randomize(&mut self)
        requires
            old(self).wf(),
        ensures
            final(self).wf(),
            final(self).same_controls(&*old(self)),
            final(self).invalidated,
            final(self).board.spec_size() == old(self).board.spec_size(),
    {
        self.board.randomize();
        self.invalidated = true;
    }

    /// Kills every cell.
    pub fn clear(&mut self)
        requires
            old(self).wf(),
        ensures
            final(self).wf(),
            final(self).same_controls(&*old(self)),
            final(self).invalidated,
            final(self).board.spec_size() == old(self).board.spec_size(),
            final(self).board@ == dead_grid(
                old(self).board.spec_size().0 as nat,
                old(self).board.spec_size().1 as nat,
            ),
    {
        self.board.clear();
        self.invalidated = true;
    }

    /// Advances the board by one generation while the simulation is paused;
    /// does nothing while it runs.
    pub fn step(&mut self)
        requires
            old(self).wf(),
        ensures
            final(self).wf(),
            final(self).same_controls(&*old(self)),
            final(self).board.spec_size() == old(self).board.spec_size(),
            old(self).running ==> final(self).board@ == old(self).board@ && final(self).invalidated
                == old(self).invalidated,
            !old(self).running ==> final(self).board@ == life_step(old(self).board@)
                && final(self).invalidated,
    {
        if !self.running {
            self.board.grow();
            self.invalidated = true;
        }
    }

    /// One tick: slides the view by one cell while a slide is under way, and
    /// advances the board while the simulation runs.
    pub fn update(&mut self)
        requires
            old(self).wf(),
            fits_i32(old(self).slide.0 * old(self).rect_size),
            fits_i32(old(self).slide.1 * old(self).rect_size),
            fits_i32(old(self).offset.0 - old(self).slide.0 * old(self).rect_size),
            fits_i32(old(self).offset.1 - old(self).slide.1 * old(self).rect_size),
        ensures
            final(self).wf(),
            final(self).win_size == old(self).win_size,
            final(self).rect_size == old(self).rect_size,
            final(self).slide == old(self).slide,
            final(self).running == old(self).running,
            final(self).mouse_pos == old(self).mouse_pos,
            final(self).onmouse_cell == old(self).onmouse_cell,
            final(self).drawing == old(self).drawing,
            final(self).erasing == old(self).erasing,
            final(self).moving == old(self).moving,
            final(self).offset == Move(
                (old(self).offset.0 - old(self).slide.0 * old(self).rect_size) as i32,
                (old(self).offset.1 - old(self).slide.1 * old(self).rect_size) as i32,
            ),
            final(self).board.spec_size() == old(self).board.spec_size(),
            final(self).board@ == if old(self).running {
                life_step(old(self).board@)
            } else {
                old(self).board@
            },
            final(self).invalidated == (old(self).invalidated || old(self).slide != Move(0, 0)
                || old(self).running),
    {
        if self.slide != Move(0, 0) {
            self.offset = Move(
                self.offset.0 - self.slide.0 * self.rect_size,
                self.offset.1 - self.slide.1 * self.rect_size,
            );
            self.invalidated = true;
        }
        if self.running {
            self.board.grow();
            self.invalidated = true;
        }
    }

    /// Records a new window size; returns whether it differs from the old
    /// one, in which case the picture must be made anew.
    pub fn set_win_size(&mut self, size: Size) -> (changed: bool)
        ensures
            changed == (old(self).win_size != size),
            final(self).win_size == size,
            final(self).rect_size == old(self).rect_size,
            final(self).offset == old(self).offset,
            final(self).slide == old(self).slide,
            final(self).running == old(self).running,
            final(self).mouse_pos == old(self).mouse_pos,
            final(self).onmouse_cell == old(self).onmouse_cell,
            final(self).drawing == old(self).drawing,
            final(self).erasing == old(self).erasing,
            final(self).moving == old(self).moving,
            final(self).board == old(self).board,
            final(self).invalidated == (old(self).invalidated || changed),
    {
        if self.win_size != size {
            self.win_size = size;
            self.invalidated = true;
            true
        } else {
            false
        }
    }

    /// Starts or pauses the simulation.
    pub fn toggle_running(&mut self)
        ensures
            final(self).running == !old(self).running,
            final(self).win_size == old(self).win_size,
            final(self).rect_size == old(self).rect_size,
            final(self).offset == old(self).offset,
            final(self).slide == old(self).slide,
            final(self).mouse_pos == old(self).mouse_pos,
            final(self).onmouse_cell == old(self).onmouse_cell,
            final(self).drawing == old(self).drawing,
            final(self).erasing == old(self).erasing,
            final(self).moving == old(self).moving,
            final(self).board == old(self).board,
            final(self).invalidated == old(self).invalidated,
    {
        self.running = !self.running;
    }

    /// Adds `mv` to the direction the view slides in.
    pub fn slide(&mut self, mv: Move)
        requires
            fits_i32(old(self).slide.0 + mv.0),
            fits_i32(old(self).slide.1 + mv.1),
        ensures
            final(self).slide == Move(
                (old(self).slide.0 + mv.0) as i32,
                (old(self).slide.1 + mv.1) as i32,
            ),
            final(self).win_size == old(self).win_size,
            final(self).rect_size == old(self).rect_size,
            final(self).offset == old(self).offset,
            final(self).running == old(self).running,
            final(self).mouse_pos == old(self).mouse_pos,
            final(self).onmouse_cell == old(self).onmouse_cell,
            final(self).drawing == old(self).drawing,
            final(self).erasing == old(self).erasing,
            final(self).moving == old(self).moving,
            final(self).board == old(self).board,
            final(self).invalidated == old(self).invalidated,
    {
        self.slide = Move(self.slide.0 + mv.0, self.slide.1 + mv.1);
    }

    /// Starts a drag of the view from the mouse position, or ends it.
    pub fn moving(&mut self, val: bool)
        ensures
            final(self).moving == if val {
                Some((old(self).mouse_pos, old(self).offset))
            } else {
                None
            },
            final(self).win_size == old(self).win_size,
            final(self).rect_size == old(self).rect_size,
            final(self).offset == old(self).offset,
            final(self).slide == old(self).slide,
            final(self).running == old(self).running,
            final(self).mouse_pos == old(self).mouse_pos,
            final(self).onmouse_cell == old(self).onmouse_cell,
            final(self).drawing == old(self).drawing,
            final(self).erasing == old(self).erasing,
            final(self).board == old(self).board,
            final(self).invalidated == old(self).invalidated,
    {
        if val {
            self.moving = Some((self.mouse_pos, self.offset));
        } else {
            self.moving = None;
        }
    }

    /// The cell under the pixel `pos`.
    fn pos2cell(&self, pos: Point) -> (r: Point)
        requires
            self.rect_size >= 1,
            self.pos_in_range(pos),
        ensures
            r == self.spec_pos2cell(pos),
    {
        let dx = pos.0 as i128 - self.offset.0 as i128;
        let dy = pos.1 as i128 - self.offset.1 as i128;
        let r = self.rect_size as i128;
        proof {
            if dx >= 0 {
                lemma_quotient_bounds(dx as int, r as int);
            } else {
                lemma_quotient_bounds(-dx, r as int);
            }
            if dy >= 0 {
                lemma_quotient_bounds(dy as int, r as int);
            } else {
                lemma_quotient_bounds(-dy, r as int);
            }
        }
        Point(div_toward_zero(dx, r) as i32, div_toward_zero(dy, r) as i32)
    }

    /// The board's size in pixels.
    fn board_size(&self) -> (r: Size)
        requires
            fits_i32(self.rect_size * self.board.spec_size().0),
            fits_i32(self.rect_size * self.board.spec_size().1),
        ensures
            r == Size(
                (self.rect_size * self.board.spec_size().0) as i32,
                (self.rect_size * self.board.spec_size().1) as i32,
            ),
    {
        let size = self.board.size();
        Size(self.rect_size * size.0, self.rect_size * size.1)
    }

    /// Centres a board smaller than the window along each axis; keeps a
    /// larger one covering the window.
    pub fn adjust_offset(&mut self)
        requires
            fits_i32(old(self).rect_size * old(self).board.spec_size().0),
            fits_i32(old(self).rect_size * old(self).board.spec_size().1),
            fits_i32(old(self).win_size.0 - old(self).rect_size * old(self).board.spec_size().0),
            fits_i32(old(self).win_size.1 - old(self).rect_size * old(self).board.spec_size().1),
        ensures
            final(self).offset == Move(
                fitted_offset(
                    old(self).offset.0 as int,
                    old(self).win_size.0 as int,
                    old(self).rect_size * old(self).board.spec_size().0,
                ) as i32,
                fitted_offset(
                    old(self).offset.1 as int,
                    old(self).win_size.1 as int,
                    old(self).rect_size * old(self).board.spec_size().1,
                ) as i32,
            ),
            final(self).win_size == old(self).win_size,
            final(self).rect_size == old(self).rect_size,
            final(self).slide == old(self).slide,
            final(self).running == old(self).running,
            final(self).mouse_pos == old(self).mouse_pos,
            final(self).onmouse_cell == old(self).onmouse_cell,
            final(self).drawing == old(self).drawing,
            final(self).erasing == old(self).erasing,
            final(self).moving == old(self).moving,
            final(self).board == old(self).board,
            final(self).invalidated == old(self).invalidated,
    {
        let board_size = self.board_size();
        let x = if board_size.0 < self.win_size.0 {
            (((self.win_size.0 - board_size.0) as u32) / 2) as i32
        } else {
            clamp(self.offset.0, self.win_size.0 - board_size.0, 0)
        };
        let y = if board_size.1 < self.win_size.1 {
            (((self.win_size.1 - board_size.1) as u32) / 2) as i32
        } else {
            clamp(self.offset.1, self.win_size.1 - board_size.1, 0)
        };
        self.offset = Move(x, y);
    }

    /// The colour of the pixel `pos`: grey off the board, white for a live
    /// cell, black for a dead one.
    pub fn pixel_color(&self, pos: Point) -> (r: [u8; 4])
        requires
            self.wf(),
            self.pos_in_range(pos),
        ensures
            r@ == if !self.board.spec_contains(
                self.spec_pos2cell(pos).0 as int,
                self.spec_pos2cell(pos).1 as int,
            ) {
                seq![128u8, 128u8, 128u8, 255u8]
            } else if self.board@[self.spec_pos2cell(pos).1 as int][self.spec_pos2cell(pos).0 as int] {
                seq![255u8, 255u8, 255u8, 255u8]
            } else {
                seq![0u8, 0u8, 0u8, 255u8]
            },
    {
        let p = self.pos2cell(pos);
        let color = if !self.board.contains(p) {
            [128u8, 128, 128, 255]
        } else if self.board.get(p) {
            [255u8, 255, 255, 255]
        } else {
            [0u8, 0, 0, 255]
        };
        assert(color@ =~= if !self.board.spec_contains(p.0 as int, p.1 as int) {
            seq![128u8, 128u8, 128u8, 255u8]
        } else if self.board@[p.1 as int][p.0 as int] {
            seq![255u8, 255u8, 255u8, 255u8]
        } else {
            seq![0u8, 0u8, 0u8, 255u8]
        });
        color
    }

    /// The offset that a drag of the view gives at the mouse position `pos`.
    pub open spec fn dragged_offset(&self, pos: Point) -> Move {
        match self.moving {
            Some((start, start_offset)) => Move(
                (start_offset.0 + (pos.0 - start.0)) as i32,
                (start_offset.1 + (pos.1 - start.1)) as i32,
            ),
            None => self.offset,
        }
    }

    /// What a move of the mouse to `pos` may demand of `i32` arithmetic.
    pub open spec fn mouse_move_in_range(&self, pos: Point) -> bool {
        &&& self.pos_in_range(pos)
        &&& (self.moving matches Some((start, start_offset)) ==> {
            &&& fits_i32(pos.0 - start.0)
            &&& fits_i32(pos.1 - start.1)
            &&& fits_i32(start_offset.0 + (pos.0 - start.0))
            &&& fits_i32(start_offset.1 + (pos.1 - start.1))
        })
    }

    /// The mouse moved to `pos`: a drag moves the view with it, and while
    /// drawing or erasing, the cells on the way from the cell under the
    /// mouse before to the cell under it now are painted.
    pub fn mouse_move(&mut self, mouse_pos: Point)
        requires
            old(self).wf(),
            old(self).mouse_move_in_range(mouse_pos),
        ensures
            final(self).wf(),
            final(self).mouse_pos == mouse_pos,
            final(self).onmouse_cell == old(self).spec_pos2cell(mouse_pos),
            final(self).offset == old(self).dragged_offset(mouse_pos),
            final(self).win_size == old(self).win_size,
            final(self).rect_size == old(self).rect_size,
            final(self).slide == old(self).slide,
            final(self).running == old(self).running,
            final(self).drawing == old(self).drawing,
            final(self).erasing == old(self).erasing,
            final(self).moving == old(self).moving,
            final(self).board.spec_size() == old(self).board.spec_size(),
            final(self).board@ == match stroke_value(old(self).drawing, old(self).erasing) {
                Some(v) => painted(
                    old(self).board@,
                    old(self).onmouse_cell,
                    old(self).spec_pos2cell(mouse_pos),
                    v,
                ),
                None => old(self).board@,
            },
            final(self).invalidated == (old(self).invalidated || stroke_value(
                old(self).drawing,
                old(self).erasing,
            ) is Some),
    {
        self.mouse_pos = mouse_pos;
        let onmouse_cell = self.pos2cell(mouse_pos);
        let old_cell = self.onmouse_cell;
        self.onmouse_cell = onmouse_cell;
        match self.moving {
            Some((start_pos, start_offset)) => {
                self.offset = Move(
                    start_offset.0 + (mouse_pos.0 - start_pos.0),
                    start_offset.1 + (mouse_pos.1 - start_pos.1),
                );
            },
            None => {},
        }
        let op = if self.drawing && !self.erasing {
            Some(true)
        } else if self.erasing && !self.drawing {
            Some(false)
        } else {
            None
        };
        match op {
            Some(val) => {
                paint_stroke(&mut self.board, old_cell, onmouse_cell, val);
                self.invalidated = true;
            },
            None => {},
        }
    }

    /// Turns drawing on or off, and paints under the mouse at once.
    pub fn drawing(&mut self, val: bool)
        requires
            old(self).wf(),
            old(self).mouse_move_in_range(old(self).mouse_pos),
        ensures
            final(self).wf(),
            final(self).drawing == val,
            final(self).erasing == old(self).erasing,
            final(self).onmouse_cell == old(self).spec_pos2cell(old(self).mouse_pos),
            final(self).offset == old(self).dragged_offset(old(self).mouse_pos),
            final(self).board.spec_size() == old(self).board.spec_size(),
            final(self).board@ == match stroke_value(val, old(self).erasing) {
                Some(v) => painted(
                    old(self).board@,
                    old(self).onmouse_cell,
                    old(self).spec_pos2cell(old(self).mouse_pos),
                    v,
                ),
                None => old(self).board@,
            },
    {
        self.drawing = val;
        let mouse_pos = self.mouse_pos;
        self.mouse_move(mouse_pos);
    }

    /// Turns erasing on or off, and erases under the mouse at once.
    pub fn erasing(&mut self, val: bool)
        requires
            old(self).wf(),
            old(self).mouse_move_in_range(old(self).mouse_pos),
        ensures
            final(self).wf(),
            final(self).erasing == val,
            final(self).drawing == old(self).drawing,
            final(self).onmouse_cell == old(self).spec_pos2cell(old(self).mouse_pos),
            final(self).offset == old(self).dragged_offset(old(self).mouse_pos),
            final(self).board.spec_size() == old(self).board.spec_size(),
            final(self).board@ == match stroke_value(old(self).drawing, val) {
                Some(v) => painted(
                    old(self).board@,
                    old(self).onmouse_cell,
                    old(self).spec_pos2cell(old(self).mouse_pos),
                    v,
                ),
                None => old(self).board@,
            },
    {
        self.erasing = val;
        let mouse_pos = self.mouse_pos;
        self.mouse_move(mouse_pos);
    }

    /// Zooms by `scale` steps, in for a positive scale and out for a negative
    /// one, each step doubling or halving the cell side within `1 ..=
    /// MAX_RECT_SIZE` pixels; the point under the mouse stays in place.
    pub fn zoom(&mut self, scale: i32)
        requires
            old(self).wf(),
        ensures
            final(self).wf(),
            final(self).rect_size == zoomed_rect(old(self).rect_size as int, scale as int),
            final(self).offset == Move(
                zoomed_offset(
                    old(self).mouse_pos.0 as int,
                    old(self).offset.0 as int,
                    old(self).rect_size as int,
                    final(self).rect_size as int,
                ) as i32,
                zoomed_offset(
                    old(self).mouse_pos.1 as int,
                    old(self).offset.1 as int,
                    old(self).rect_size as int,
                    final(self).rect_size as int,
                ) as i32,
            ),
            final(self).invalidated,
            final(self).win_size == old(self).win_size,
            final(self).slide == old(self).slide,
            final(self).running == old(self).running,
            final(self).mouse_pos == old(self).mouse_pos,
            final(self).onmouse_cell == old(self).onmouse_cell,
            final(self).drawing == old(self).drawing,
            final(self).erasing == old(self).erasing,
            final(self).moving == old(self).moving,
            final(self).board == old(self).board,
    {
        let r0 = self.rect_size;
        let n: i64 = if scale >= 0 {
            scale as i64
        } else {
            -(scale as i64)
        };
        let mut rect = r0;
        let mut k: i64 = 0;
        if scale > 0 {
            while k < n
                invariant
                    0 <= k <= n,
                    n == scale,
                    rect >= 1,
                    rect == zoom_in_rect(r0 as int, k as nat),
                decreases n - k,
            {
                if rect < MAX_RECT_SIZE {
                    rect = rect * 2;
                }
                k += 1;
            }
        } else {
            while k < n
                invariant
                    0 <= k <= n,
                    n == -scale,
                    rect >= 1,
                    rect == zoom_out_rect(r0 as int, k as nat),
                decreases n - k,
            {
                if rect > 1 {
                    rect = ((rect as u32) / 2) as i32;
                }
                k += 1;
            }
        }
        let ox = self.zoom_axis(self.mouse_pos.0, self.offset.0, r0, rect);
        let oy = self.zoom_axis(self.mouse_pos.1, self.offset.1, r0, rect);
        self.rect_size = rect;
        self.offset = Move(ox, oy);
        self.invalidated = true;
    }

    /// The offset along one axis after the cell side went from `r0` to `r1`.
    fn zoom_axis(&self, mouse: i32, offset: i32, r0: i32, r1: i32) -> (r: i32)
        requires
            r0 >= 1,
            r1 >= 1,
        ensures
            r == zoomed_offset(mouse as int, offset as int, r0 as int, r1 as int),
    {
        let m = mouse as i128;
        let d = m - offset as i128;
        assert(-0x1_0000_0000_0000_0000 <= m * r0 - d * r1 <= 0x1_0000_0000_0000_0000) by (
        nonlinear_arith)
            requires
                -0x8000_0000 <= m < 0x8000_0000,
                -0x1_0000_0000 <= d <= 0x1_0000_0000,
                1 <= r0 < 0x8000_0000,
                1 <= r1 < 0x8000_0000,
        ;
        assert(-0x1_0000_0000_0000_0000 <= m * r0 <= 0x1_0000_0000_0000_0000) by (nonlinear_arith)
            requires
                -0x8000_0000 <= m < 0x8000_0000,
                1 <= r0 < 0x8000_0000,
        ;
        assert(-0x1_0000_0000_0000_0000 <= d * r1 <= 0x1_0000_0000_0000_0000) by (nonlinear_arith)
            requires
                -0x1_0000_0000 <= d <= 0x1_0000_0000,
                1 <= r1 < 0x8000_0000,
        ;
        let q = div_toward_zero(m * (r0 as i128) - d * (r1 as i128), r0 as i128);
        if q > i32::MAX as i128 {
            i32::MAX
        } else if q < i32::MIN as i128 {
            i32::MIN
        } else {
            q as i32
        }
    }

    /// The board size that fills the window at the present zoom.
    pub open spec fn fit_size(&self) -> Size {
        Size(
            trunc_div(self.win_size.0 as int, self.rect_size as int) as i32,
            trunc_div(self.win_size.1 as int, self.rect_size as int) as i32,
        )
    }

    /// Replaces the board with one that fills the window, keeping the cells
    /// that fit (see `fitted`). A window too small for a single cell, or one
    /// whose board could not be addressed, is refused and nothing changes.
    pub fn fit_to_win_size(&mut self) -> (r: Result<(), BoardError>)
        requires
            old(self).wf(),
        ensures
            r is Err <==> (old(self).fit_size().0 <= 0 || old(self).fit_size().1 <= 0 || storage_len(
                old(self).fit_size().0 as int,
                old(self).fit_size().1 as int,
            ) > usize::MAX),
            r matches Err(e) ==> e == BoardError::InvalidSize && *final(self) == *old(self),
            r is Ok ==> {
                &&& final(self).wf()
                &&& final(self).same_controls(&*old(self))
                &&& final(self).invalidated
                &&& final(self).board.spec_size() == old(self).fit_size()
                &&& final(self).board@ == fitted(
                    old(self).board@,
                    old(self).board.spec_size().0 as int,
                    old(self).board.spec_size().1 as int,
                    old(self).fit_size().0 as int,
                    old(self).fit_size().1 as int,
                )
            },
    {
        let r = self.rect_size as i128;
        proof {
            let (a, b) = (self.win_size.0 as int, self.win_size.1 as int);
            lemma_quotient_bounds(if a >= 0 { a } else { -a }, r as int);
            lemma_quotient_bounds(if b >= 0 { b } else { -b }, r as int);
        }
        let new_size = Size(
            div_toward_zero(self.win_size.0 as i128, r) as i32,
            div_toward_zero(self.win_size.1 as i128, r) as i32,
        );
        let mut board = match Board::new_empty(new_size) {
            Ok(b) => b,
            Err(e) => {
                return Err(e);
            },
        };
        let old_size = self.board.size();
        proof {
            self.board.lemma_shape();
            board.lemma_shape();
        }
        let x_off = if new_size.0 > old_size.0 {
            (((new_size.0 - old_size.0) as u32) / 2) as i32
        } else {
            0
        };
        let y_off = if new_size.1 > old_size.1 {
            (((new_size.1 - old_size.1) as u32) / 2) as i32
        } else {
            0
        };
        let mw = if new_size.0 < old_size.0 {
            new_size.0
        } else {
            old_size.0
        };
        let mh = if new_size.1 < old_size.1 {
            new_size.1
        } else {
            old_size.1
        };
        let ghost g = self.board@;
        let ghost nw = new_size.0 as int;
        let ghost nh = new_size.1 as int;
        proof {
            self.board.lemma_shape();
            board.lemma_shape();
        }
        let mut x: i32 = 0;
        while x < mw
            invariant
                self.wf(),
                self.board@ == g,
                self.board.spec_size() == old_size,
                board.wf(),
                board.spec_size() == new_size,
                is_grid(g, old_size.0 as int, old_size.1 as int),
                nw == new_size.0,
                nh == new_size.1,
                nw > 0 && nh > 0 && old_size.0 > 0 && old_size.1 > 0,
                0 <= x <= mw,
                mw == if nw < old_size.0 { nw } else { old_size.0 as int },
                mh == if nh < old_size.1 { nh } else { old_size.1 as int },
                x_off == if nw > old_size.0 { (nw - old_size.0) / 2 } else { 0 },
                y_off == if nh > old_size.1 { (nh - old_size.1) / 2 } else { 0 },
                forall|xx: int, yy: int|
                    0 <= yy < nh && 0 <= xx < nw ==> #[trigger] board@[yy][xx] == (0 <= xx - x_off
                        < x && 0 <= yy - y_off < mh && g[yy - y_off][xx - x_off]),
            decreases mw - x,
        {
            let mut y: i32 = 0;
            while y < mh
                invariant
                    self.wf(),
                    self.board@ == g,
                    self.board.spec_size() == old_size,
                    board.wf(),
                    board.spec_size() == new_size,
                    is_grid(g, old_size.0 as int, old_size.1 as int),
                    nw == new_size.0,
                    nh == new_size.1,
                    nw > 0 && nh > 0 && old_size.0 > 0 && old_size.1 > 0,
                    0 <= x < mw,
                    0 <= y <= mh,
                    mw == if nw < old_size.0 { nw } else { old_size.0 as int },
                    mh == if nh < old_size.1 { nh } else { old_size.1 as int },
                    x_off == if nw > old_size.0 { (nw - old_size.0) / 2 } else { 0 },
                    y_off == if nh > old_size.1 { (nh - old_size.1) / 2 } else { 0 },
                    forall|xx: int, yy: int|
                        0 <= yy < nh && 0 <= xx < nw ==> #[trigger] board@[yy][xx] == (0 <= xx
                            - x_off && 0 <= yy - y_off < mh && (xx - x_off < x || (xx - x_off == x
                            && yy - y_off < y)) && g[yy - y_off][xx - x_off]),
                decreases mh - y,
            {
                let v = self.board.get(Point(x, y));
                proof {
                    board.lemma_shape();
                }
                board.set(Point(x + x_off, y + y_off), v);
                proof {
                    board.lemma_shape();
                }
                y += 1;
            }
            x += 1;
        }
        self.board = board;
        self.invalidated = true;
        proof {
            self.board.lemma_shape();
            let target = fitted(g, old_size.0 as int, old_size.1 as int, nw, nh);
            assert forall|yy: int| 0 <= yy < nh implies #[trigger] self.board@[yy] =~= target[yy] by {
                assert forall|xx: int| 0 <= xx < nw implies #[trigger] self.board@[yy][xx]
                    == target[yy][xx] by {}
            }
            assert(self.board@ =~= target);
        }
        Ok(())
    }
}

} // verus!
