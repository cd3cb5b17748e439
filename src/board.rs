//! The board: cells packed 64 to a word, row after row, inside a frame of
//! words that always hold dead cells.
//!
//! Storage row `r` holds the cells of board row `r - 1`; rows `0` and
//! `height + 1` are the dead rows above and below the board. Word `0` of each
//! storage row is dead, and so serves as the dead word left of its row and
//! right of the row before; words `1 .. words_per_row` hold the cells, 64 to
//! a word, the leftmost cell in the most significant bit. One more dead word
//! closes the table, right of the last row below the board.

use vstd::prelude::*;
use crate::geom::{Point, Size};
use crate::grid::{alive_at, dead_grid, grid_from_bits, is_grid, life_step, next_cell, with_cell};
use crate::rule::{bit, lemma_rule_cell, lemma_rule_word_bit, rule_word};
use crate::word::{
    lead_mask, lemma_all_ones_allow, lemma_all_ones_bit, lemma_cell_ops, lemma_cell_ops_respect,
    lemma_clear_outside_bit, lemma_clear_outside_zero, lemma_lead_mask_bit, lemma_left_plane_bit,
    lemma_masked_bit, lemma_masked_respects, lemma_planes_of_zero, lemma_right_plane_bit,
    lemma_zero_bit, lemma_zero_respects, left_plane, right_plane, MSB,
};

verus! {

/// Why a board could not be made.
#[derive(Clone, Copy, Debug, PartialEq, Eq, Structural)]
pub enum BoardError {
    /// A width or a height that is not positive.
    InvalidSize,
}

/// Words in one storage row: enough for `width` cells, and one dead word.
pub open spec fn words_per_row(width: int) -> int {
    (width + 63) / 64 + 1
}

/// Words in the whole table of a board of this size.
pub open spec fn storage_len(width: int, height: int) -> int {
    words_per_row(width) * (height + 2) + 1
}

/// Word `c` of storage row `r`.
pub open spec fn word(t: Seq<u64>, hs: int, r: int, c: int) -> u64 {
    t[r * hs + c]
}

/// The bits that word `c` of storage row `r` may hold: none in the frame,
/// `last` in the last word of a row, all of them elsewhere.
pub open spec fn word_mask(hs: int, h: int, last: u64, r: int, c: int) -> u64 {
    if 1 <= r <= h && 1 <= c < hs {
        if c == hs - 1 {
            last
        } else {
            !0u64
        }
    } else {
        0
    }
}

/// Every word of the table stays within its mask.
pub open spec fn frame_clear(t: Seq<u64>, hs: int, h: int, last: u64) -> bool {
    &&& t.len() == hs * (h + 2) + 1
    &&& forall|r: int, c: int|
        0 <= r <= h + 1 && 0 <= c < hs ==> #[trigger] word(t, hs, r, c) & !word_mask(
            hs,
            h,
            last,
            r,
            c,
        ) == 0
    &&& word(t, hs, h + 2, 0) == 0
}

/// The neighbour planes of the dead rows above and below the board are dead.
pub open spec fn scratch_clear(s: Seq<u64>, hs: int, h: int) -> bool {
    &&& s.len() == hs * (h + 2) + 1
    &&& forall|c: int| 0 <= c < hs ==> #[trigger] word(s, hs, 0, c) == 0
    &&& forall|c: int| 0 <= c < hs ==> #[trigger] word(s, hs, h + 1, c) == 0
}

/// The state that the table records for `(x, y)`: a cell of the board, or
/// of the frame round it; false for a position the table does not cover.
pub open spec fn stored_cell(t: Seq<u64>, hs: int, h: int, x: int, y: int) -> bool {
    &&& -1 <= y <= h
    &&& -64 <= x < 64 * hs
    &&& bit(word(t, hs, y + 1, x / 64 + 1), (63 - x % 64) as u64)
}

/// The cells of a `width` by `height` board whose table is `t`.
pub open spec fn cells_of(t: Seq<u64>, hs: int, width: int, height: int) -> Seq<Seq<bool>> {
    Seq::new(
        height as nat,
        |y: int| Seq::new(width as nat, |x: int| stored_cell(t, hs, height, x, y)),
    )
}

/// Distinct (row, word) pairs name distinct words.
proof fn lemma_row_col_unique(hs: int, r1: int, c1: int, r2: int, c2: int)
    requires
        hs > 0,
        0 <= c1 < hs,
        0 <= c2 < hs,
        r1 * hs + c1 == r2 * hs + c2,
    ensures
        r1 == r2,
        c1 == c2,
{
    if r1 > r2 {
        assert((r1 - r2) * hs >= hs) by (nonlinear_arith)
            requires
                r1 - r2 >= 1,
                hs > 0,
        ;
        assert((r1 - r2) * hs == r1 * hs - r2 * hs) by (nonlinear_arith);
    } else if r2 > r1 {
        assert((r2 - r1) * hs >= hs) by (nonlinear_arith)
            requires
                r2 - r1 >= 1,
                hs > 0,
        ;
        assert((r2 - r1) * hs == r2 * hs - r1 * hs) by (nonlinear_arith);
    }
}

/// Writing one word leaves every other word as it was.
proof fn lemma_word_update(t: Seq<u64>, hs: int, r0: int, c0: int, v: u64)
    requires
        hs > 0,
        0 <= c0 < hs,
        0 <= r0 * hs + c0 < t.len(),
    ensures
        forall|r: int, c: int|
            0 <= c < hs && 0 <= r * hs + c < t.len() ==> #[trigger] word(
                t.update(r0 * hs + c0, v),
                hs,
                r,
                c,
            ) == if r == r0 && c == c0 {
                v
            } else {
                word(t, hs, r, c)
            },
{
    assert forall|r: int, c: int| 0 <= c < hs && 0 <= r * hs + c < t.len() implies #[trigger] word(
        t.update(r0 * hs + c0, v),
        hs,
        r,
        c,
    ) == if r == r0 && c == c0 {
        v
    } else {
        word(t, hs, r, c)
    } by {
        if r * hs + c == r0 * hs + c0 {
            lemma_row_col_unique(hs, r, c, r0, c0);
        }
    }
}

/// `r * hs` grows with `r`.
proof fn lemma_row_start_mono(hs: int, r1: int, r2: int)
    requires
        hs >= 0,
        r1 <= r2,
    ensures
        r1 * hs <= r2 * hs,
{
    assert(r1 * hs <= r2 * hs) by (nonlinear_arith)
        requires
            hs >= 0,
            r1 <= r2,
    ;
}

/// Words of the storage rows `0 ..= h + 1` lie inside a table of
/// `hs * (h + 2) + 1` words; the word after them closes the table.
proof fn lemma_in_table(hs: int, h: int, r: int, c: int)
    requires
        hs > 0,
        h >= 0,
        0 <= r <= h + 1,
        0 <= c < hs,
    ensures
        0 <= r * hs + c < hs * (h + 2),
        (h + 2) * hs == hs * (h + 2),
{
    assert(0 <= r * hs + c < hs * (h + 2)) by (nonlinear_arith)
        requires
            hs > 0,
            h >= 0,
            0 <= r <= h + 1,
            0 <= c < hs,
    ;
    assert((h + 2) * hs == hs * (h + 2)) by (nonlinear_arith);
}

/// The next storage row starts `hs` words later.
proof fn lemma_next_row(hs: int, r: int)
    ensures
        (r + 1) * hs == r * hs + hs,
        (r - 1) * hs == r * hs - hs,
{
    assert((r + 1) * hs == r * hs + hs) by (nonlinear_arith);
    assert((r - 1) * hs == r * hs - hs) by (nonlinear_arith);
}

/// Writing one word of a table leaves every other word of its storage rows,
/// and the closing word, as they were.
proof fn lemma_row_update(t: Seq<u64>, hs: int, h: int, r0: int, c0: int, v: u64)
    requires
        hs > 0,
        h >= 0,
        t.len() == hs * (h + 2) + 1,
        0 <= r0 <= h + 1,
        0 <= c0 < hs,
    ensures
        forall|r: int, c: int|
            0 <= r <= h + 1 && 0 <= c < hs ==> #[trigger] word(t.update(r0 * hs + c0, v), hs, r, c)
                == if r == r0 && c == c0 {
                v
            } else {
                word(t, hs, r, c)
            },
        word(t.update(r0 * hs + c0, v), hs, h + 2, 0) == word(t, hs, h + 2, 0),
{
    lemma_in_table(hs, h, r0, c0);
    lemma_word_update(t, hs, r0, c0, v);
    assert forall|r: int, c: int| 0 <= r <= h + 1 && 0 <= c < hs implies #[trigger] word(
        t.update(r0 * hs + c0, v),
        hs,
        r,
        c,
    ) == if r == r0 && c == c0 {
        v
    } else {
        word(t, hs, r, c)
    } by {
        lemma_in_table(hs, h, r, c);
    }
    lemma_in_table(hs, h, 0, 0);
    if (h + 2) * hs + 0 == r0 * hs + c0 {
        lemma_row_col_unique(hs, h + 2, 0, r0, c0);
    }
}

/// A word of the frame is zero.
proof fn lemma_frame_word_zero(t: Seq<u64>, hs: int, h: int, last: u64, r: int, c: int)
    requires
        hs >= 2,
        h >= 0,
        frame_clear(t, hs, h, last),
        0 <= r <= h + 1,
        0 <= c < hs,
        !(1 <= r <= h && 1 <= c < hs),
    ensures
        word(t, hs, r, c) == 0,
{
    assert(word(t, hs, r, c) & !word_mask(hs, h, last, r, c) == 0);
    lemma_clear_outside_zero(word(t, hs, r, c));
}

/// The word past the last one of storage row `r` is word `0` of row `r + 1`,
/// which is dead.
proof fn lemma_past_row_end(t: Seq<u64>, hs: int, h: int, last: u64, r: int)
    requires
        hs >= 2,
        h >= 0,
        frame_clear(t, hs, h, last),
        0 <= r <= h + 1,
    ensures
        word(t, hs, r, hs) == 0,
{
    lemma_next_row(hs, r);
    assert(word(t, hs, r, hs) == word(t, hs, r + 1, 0));
    if r + 1 <= h + 1 {
        lemma_frame_word_zero(t, hs, h, last, r + 1, 0);
    }
}

/// Within a table that respects its frame, the only live cells recorded
/// are on the board.
proof fn lemma_stored_on_board(t: Seq<u64>, hs: int, w: int, h: int, last: u64, x: int, y: int)
    requires
        w > 0,
        h > 0,
        hs == words_per_row(w),
        64 * (hs - 2) < w <= 64 * (hs - 1),
        last == lead_mask((w - 64 * (hs - 2)) as u64),
        frame_clear(t, hs, h, last),
        stored_cell(t, hs, h, x, y),
    ensures
        0 <= x < w,
        0 <= y < h,
{
    let r = y + 1;
    let c = x / 64 + 1;
    let b = (63 - x % 64) as u64;
    if c == hs {
        lemma_past_row_end(t, hs, h, last, r);
        lemma_zero_bit(b);
    } else if !(1 <= r <= h && 1 <= c < hs) {
        lemma_frame_word_zero(t, hs, h, last, r, c);
        lemma_zero_bit(b);
    } else if x >= w {
        assert(c == hs - 1);
        assert(word(t, hs, r, c) & !word_mask(hs, h, last, r, c) == 0);
        lemma_lead_mask_bit((w - 64 * (hs - 2)) as u64, b);
        lemma_clear_outside_bit(word(t, hs, r, c), last, b);
    }
}

/// Within a table that respects its frame, a recorded cell next to the board
/// or on it is the cell of the board's view.
proof fn lemma_stored_alive(t: Seq<u64>, hs: int, w: int, h: int, last: u64, x: int, y: int)
    requires
        w > 0,
        h > 0,
        hs == words_per_row(w),
        64 * (hs - 2) < w <= 64 * (hs - 1),
        last == lead_mask((w - 64 * (hs - 2)) as u64),
        frame_clear(t, hs, h, last),
    ensures
        stored_cell(t, hs, h, x, y) == alive_at(cells_of(t, hs, w, h), x, y),
{
    if stored_cell(t, hs, h, x, y) {
        lemma_stored_on_board(t, hs, w, h, last, x, y);
    }
}

/// The neighbour planes of word `c` of storage row `r`.
spec fn planes_ok(t: Seq<u64>, ls: Seq<u64>, rs: Seq<u64>, hs: int, r: int, c: int) -> bool {
    &&& word(ls, hs, r, c) == left_plane(word(t, hs, r, c), word(t, hs, r, c - 1))
    &&& word(rs, hs, r, c) == right_plane(word(t, hs, r, c), word(t, hs, r, c + 1))
}

/// The next generation of word `c` of storage row `r`, before masking.
spec fn next_word(t: Seq<u64>, ls: Seq<u64>, rs: Seq<u64>, hs: int, r: int, c: int) -> u64 {
    rule_word(
        word(ls, hs, r - 1, c),
        word(ls, hs, r, c),
        word(ls, hs, r + 1, c),
        word(t, hs, r - 1, c),
        word(t, hs, r + 1, c),
        word(rs, hs, r - 1, c),
        word(rs, hs, r, c),
        word(rs, hs, r + 1, c),
        word(t, hs, r, c),
    )
}

/// The cell of a plane at the bit of `x` is the neighbour of `x` on that
/// side, in storage row `r`.
proof fn lemma_plane_cells(
    t: Seq<u64>,
    ls: Seq<u64>,
    rs: Seq<u64>,
    hs: int,
    w: int,
    h: int,
    last: u64,
    x: int,
    r: int,
)
    requires
        w > 0,
        h > 0,
        hs == words_per_row(w),
        64 * (hs - 2) < w <= 64 * (hs - 1),
        last == lead_mask((w - 64 * (hs - 2)) as u64),
        frame_clear(t, hs, h, last),
        0 <= x < w,
        0 <= r <= h + 1,
        planes_ok(t, ls, rs, hs, r, x / 64 + 1),
    ensures
        bit(word(t, hs, r, x / 64 + 1), (63 - x % 64) as u64) == alive_at(
            cells_of(t, hs, w, h),
            x,
            r - 1,
        ),
        bit(word(ls, hs, r, x / 64 + 1), (63 - x % 64) as u64) == alive_at(
            cells_of(t, hs, w, h),
            x - 1,
            r - 1,
        ),
        bit(word(rs, hs, r, x / 64 + 1), (63 - x % 64) as u64) == alive_at(
            cells_of(t, hs, w, h),
            x + 1,
            r - 1,
        ),
{
    let c = x / 64 + 1;
    let b = (63 - x % 64) as u64;
    lemma_left_plane_bit(word(t, hs, r, c), word(t, hs, r, c - 1), b);
    lemma_right_plane_bit(word(t, hs, r, c), word(t, hs, r, c + 1), b);
    lemma_stored_alive(t, hs, w, h, last, x, r - 1);
    lemma_stored_alive(t, hs, w, h, last, x - 1, r - 1);
    lemma_stored_alive(t, hs, w, h, last, x + 1, r - 1);
    if x % 64 == 0 {
        assert((x - 1) / 64 == x / 64 - 1);
    } else {
        assert((x - 1) / 64 == x / 64);
    }
    if x % 64 == 63 {
        assert((x + 1) / 64 == x / 64 + 1);
    } else {
        assert((x + 1) / 64 == x / 64);
    }
}

/// A word of the new table, cell by cell, is the Life rule applied to the
/// old one.
proof fn lemma_next_cell(
    t: Seq<u64>,
    ls: Seq<u64>,
    rs: Seq<u64>,
    buf: Seq<u64>,
    hs: int,
    w: int,
    h: int,
    last: u64,
    x: int,
    y: int,
)
    requires
        w > 0,
        h > 0,
        hs == words_per_row(w),
        64 * (hs - 2) < w <= 64 * (hs - 1),
        last == lead_mask((w - 64 * (hs - 2)) as u64),
        frame_clear(t, hs, h, last),
        0 <= x < w,
        0 <= y < h,
        forall|r: int, c: int|
            0 <= r <= h + 1 && 1 <= c < hs ==> #[trigger] planes_ok(t, ls, rs, hs, r, c),
        word(buf, hs, y + 1, x / 64 + 1) == next_word(t, ls, rs, hs, y + 1, x / 64 + 1) & word_mask(
            hs,
            h,
            last,
            y + 1,
            x / 64 + 1,
        ),
    ensures
        stored_cell(buf, hs, h, x, y) == next_cell(cells_of(t, hs, w, h), x, y),
{
    let g = cells_of(t, hs, w, h);
    let r = y + 1;
    let c = x / 64 + 1;
    let b = (63 - x % 64) as u64;
    let m = word_mask(hs, h, last, r, c);
    assert(planes_ok(t, ls, rs, hs, r - 1, c));
    assert(planes_ok(t, ls, rs, hs, r, c));
    assert(planes_ok(t, ls, rs, hs, r + 1, c));
    lemma_plane_cells(t, ls, rs, hs, w, h, last, x, r - 1);
    lemma_plane_cells(t, ls, rs, hs, w, h, last, x, r);
    lemma_plane_cells(t, ls, rs, hs, w, h, last, x, r + 1);
    lemma_masked_bit(next_word(t, ls, rs, hs, r, c), m, b);
    if c == hs - 1 {
        lemma_lead_mask_bit((w - 64 * (hs - 2)) as u64, b);
    } else {
        lemma_all_ones_bit(b);
    }
    lemma_rule_word_bit(
        word(ls, hs, r - 1, c),
        word(ls, hs, r, c),
        word(ls, hs, r + 1, c),
        word(t, hs, r - 1, c),
        word(t, hs, r + 1, c),
        word(rs, hs, r - 1, c),
        word(rs, hs, r, c),
        word(rs, hs, r + 1, c),
        word(t, hs, r, c),
        b,
    );
    lemma_rule_cell(
        alive_at(g, x - 1, y - 1),
        alive_at(g, x - 1, y),
        alive_at(g, x - 1, y + 1),
        alive_at(g, x, y - 1),
        alive_at(g, x, y + 1),
        alive_at(g, x + 1, y - 1),
        alive_at(g, x + 1, y),
        alive_at(g, x + 1, y + 1),
        alive_at(g, x, y),
    );
}

/// Applies the carry chain to the eight neighbour planes of a word and to
/// the word itself.
fn next_generation_word(
    t0: u64,
    t1: u64,
    t2: u64,
    t3: u64,
    t4: u64,
    t5: u64,
    t6: u64,
    t7: u64,
    center: u64,
) -> (r: u64)
    ensures
        r == rule_word(t0, t1, t2, t3, t4, t5, t6, t7, center),
{
    // c0..c3: the cell has seen 0, 1, 2 or 3 live neighbours so far; a count
    // past 3 leaves them all clear, and rule_cell shows it never matters.
    let mut c0 = !(t0 | t1);
    let mut c1 = t0 ^ t1;
    let mut c2 = t0 & t1;

    let mut c3 = c2 & t2;
    c2 = (c2 & !t2) | (c1 & t2);
    c1 = (c1 & !t2) | (c0 & t2);
    c0 = c0 & !t2;

    // a count of 4 drops out of c3 here and at each step below
    c3 = (c3 & !t3) | (c2 & t3);
    c2 = (c2 & !t3) | (c1 & t3);
    c1 = (c1 & !t3) | (c0 & t3);
    c0 = c0 & !t3;

    c3 = (c3 & !t4) | (c2 & t4);
    c2 = (c2 & !t4) | (c1 & t4);
    c1 = (c1 & !t4) | (c0 & t4);
    c0 = c0 & !t4;

    c3 = (c3 & !t5) | (c2 & t5);
    c2 = (c2 & !t5) | (c1 & t5);
    c1 = (c1 & !t5) | (c0 & t5);
    c0 = c0 & !t5;

    // with two planes left, c0 can no longer reach 2 or 3
    c3 = (c3 & !t6) | (c2 & t6);
    c2 = (c2 & !t6) | (c1 & t6);
    c1 = (c1 & !t6) | (c0 & t6);

    // with one plane left, only c2 and c3 matter
    c3 = (c3 & !t7) | (c2 & t7);
    c2 = (c2 & !t7) | (c1 & t7);

    c3 | (center & c2)
}

/// Cell `(x, y)` comes at `x * height + y` in a column-by-column order.
proof fn lemma_column_order(x: int, y: int, w: int, h: int)
    requires
        0 <= x < w,
        0 <= y < h,
    ensures
        0 <= x * h + y < w * h,
        (x + 1) * h == x * h + h,
{
    assert(0 <= x * h + y < w * h) by (nonlinear_arith)
        requires
            0 <= x < w,
            0 <= y < h,
    ;
    assert((x + 1) * h == x * h + h) by (nonlinear_arith);
}

/// Relies on rand::random: one bool drawn from the thread-local generator.
#[verifier::external_body]
fn random_bit() -> bool {
    rand::random::<bool>()
}

/// A Life board of fixed size.
#[derive(Clone, Debug)]
pub struct Board {
    size: Size,
    hsize: usize,
    last_mask: u64,
    table: Vec<u64>,
    ls: Vec<u64>,
    rs: Vec<u64>,
    buffer: Vec<u64>,
}

impl View for Board {
    type V = Seq<Seq<bool>>;

    /// Row `y`, column `x`: whether that cell is alive.
    closed spec fn view(&self) -> Seq<Seq<bool>> {
        cells_of(self.table@, self.hsize as int, self.size.0 as int, self.size.1 as int)
    }
}

impl Board {
    /// The size the board was made with.
    pub closed spec fn spec_size(&self) -> Size {
        self.size
    }

    /// Whether `(x, y)` lies on the board.
    pub open spec fn spec_contains(&self, x: int, y: int) -> bool {
        0 <= x < self.spec_size().0 && 0 <= y < self.spec_size().1
    }

    /// The state that the table records for `(x, y)`, on the board or in the
    /// frame of dead cells round it.
    pub closed spec fn stored(&self, x: int, y: int) -> bool {
        stored_cell(self.table@, self.hsize as int, self.size.1 as int, x, y)
    }

    /// The layout invariant: sizes agree, and every word of the frame, the
    /// cells past the right edge in the last word of each row, and the
    /// neighbour planes of the dead rows are dead.
    pub closed spec fn wf(&self) -> bool {
        let w = self.size.0 as int;
        let h = self.size.1 as int;
        let hs = self.hsize as int;
        &&& w > 0
        &&& h > 0
        &&& hs == words_per_row(w)
        &&& 64 * (hs - 2) < w <= 64 * (hs - 1)
        &&& self.last_mask == lead_mask((w - 64 * (hs - 2)) as u64)
        &&& storage_len(w, h) <= usize::MAX
        &&& frame_clear(self.table@, hs, h, self.last_mask)
        &&& frame_clear(self.buffer@, hs, h, self.last_mask)
        &&& scratch_clear(self.ls@, hs, h)
        &&& scratch_clear(self.rs@, hs, h)
    }

    /// The view has one row per board row and one cell per board column.
    pub proof fn lemma_shape(&self)
        requires
            self.wf(),
        ensures
            self.spec_size().0 > 0,
            self.spec_size().1 > 0,
            is_grid(self@, self.spec_size().0 as int, self.spec_size().1 as int),
            forall|x: int, y: int|
                self.spec_contains(x, y) ==> self@[y][x] == #[trigger] self.stored(x, y),
    {
    }

    /// Makes a board of the given size with every cell dead. A size that is
    /// not positive both ways is refused, as is one whose table of words
    /// would not fit the address space.
    pub fn new_empty(size: Size) -> (r: Result<Board, BoardError>)
        ensures
            r is Err <==> (size.0 <= 0 || size.1 <= 0 || storage_len(size.0 as int, size.1 as int)
                > usize::MAX),
            r matches Err(e) ==> e == BoardError::InvalidSize,
            r matches Ok(b) ==> b.wf() && b.spec_size() == size && b@ == dead_grid(
                size.0 as nat,
                size.1 as nat,
            ),
    {
        if size.0 <= 0 || size.1 <= 0 {
            return Err(BoardError::InvalidSize);
        }
        let w = size.0 as usize;
        let h = size.1 as usize;
        let hsize = (w + 63) / 64 + 1;
        let words = match hsize.checked_mul(h + 2) {
            Some(n) => n,
            None => {
                return Err(BoardError::InvalidSize);
            },
        };
        if words == usize::MAX {
            return Err(BoardError::InvalidSize);
        }
        let len = words + 1;
        let rem = (w - 64 * (hsize - 2)) as u64;
        let last_mask = !0u64 << (64 - rem);
        let b = Board {
            size,
            hsize,
            last_mask,
            table: vec![0u64; len],
            ls: vec![0u64; len],
            rs: vec![0u64; len],
            buffer: vec![0u64; len],
        };
        proof {
            let hs = hsize as int;
            assert forall|r: int, c: int|
                0 <= r <= h + 1 && 0 <= c < hs implies #[trigger] word(b.table@, hs, r, c)
                & !word_mask(hs, h as int, last_mask, r, c) == 0 by {
                lemma_in_table(hs, h as int, r, c);
                lemma_zero_respects(word_mask(hs, h as int, last_mask, r, c));
            }
            assert forall|r: int, c: int|
                0 <= r <= h + 1 && 0 <= c < hs implies #[trigger] word(b.buffer@, hs, r, c)
                & !word_mask(hs, h as int, last_mask, r, c) == 0 by {
                lemma_in_table(hs, h as int, r, c);
                lemma_zero_respects(word_mask(hs, h as int, last_mask, r, c));
            }
            assert forall|c: int| 0 <= c < hs implies #[trigger] word(b.ls@, hs, h + 1, c) == 0 by {
                lemma_in_table(hs, h as int, h as int + 1, c);
            }
            assert forall|c: int| 0 <= c < hs implies #[trigger] word(b.ls@, hs, 0, c) == 0 by {
                lemma_in_table(hs, h as int, 0, c);
            }
            assert forall|c: int| 0 <= c < hs implies #[trigger] word(b.rs@, hs, h + 1, c) == 0 by {
                lemma_in_table(hs, h as int, h as int + 1, c);
            }
            assert forall|c: int| 0 <= c < hs implies #[trigger] word(b.rs@, hs, 0, c) == 0 by {
                lemma_in_table(hs, h as int, 0, c);
            }
            lemma_in_table(hs, h as int, 0, 0);
            assert forall|y: int| 0 <= y < h implies #[trigger] b@[y] =~= dead_grid(
                w as nat,
                h as nat,
            )[y] by {
                assert forall|x: int| 0 <= x < w implies !#[trigger] b@[y][x] by {
                    lemma_in_table(hs, h as int, y + 1, x / 64 + 1);
                    lemma_zero_bit((63 - x % 64) as u64);
                }
            }
            assert(b@ =~= dead_grid(w as nat, h as nat));
        }
        Ok(b)
    }

    /// The size the board was made with.
    pub fn size(&self) -> (r: Size)
        ensures
            r == self.spec_size(),
    {
        self.size
    }

    /// Whether `p` lies on the board.
    pub fn contains(&self, p: Point) -> (r: bool)
        ensures
            r == self.spec_contains(p.0 as int, p.1 as int),
    {
        0 <= p.0 && p.0 < self.size.0 && 0 <= p.1 && p.1 < self.size.1
    }

    /// The word that holds the cell at `p`, and the bit of that cell.
    fn locate(&self, p: Point) -> (r: (usize, u64))
        requires
            self.wf(),
            self.spec_contains(p.0 as int, p.1 as int),
        ensures
            r.0 == (p.1 + 1) * self.hsize + (p.0 / 64 + 1),
            r.0 < self.table@.len(),
            r.1 == MSB >> ((p.0 % 64) as u64),
    {
        let x = p.0 as usize;
        let y = p.1 as usize;
        proof {
            lemma_in_table(self.hsize as int, self.size.1 as int, y + 1, x / 64 + 1);
        }
        let offset = (y + 1) * self.hsize + x / 64 + 1;
        let mask = MSB >> ((x % 64) as u64);
        (offset, mask)
    }

    /// Whether the cell at `p` is alive.
    pub fn get(&self, p: Point) -> (r: bool)
        requires
            self.wf(),
            self.spec_contains(p.0 as int, p.1 as int),
        ensures
            r == self@[p.1 as int][p.0 as int],
    {
        let (offset, mask) = self.locate(p);
        proof {
            lemma_cell_ops(self.table@[offset as int], (p.0 % 64) as u64, 0);
        }
        (self.table[offset] & mask) != 0
    }

    /// Makes the cell at `p` alive or dead; a point off the board changes
    /// nothing.
    pub fn set(&mut self, p: Point, v: bool)
        requires
            old(self).wf(),
        ensures
            final(self).wf(),
            final(self).spec_size() == old(self).spec_size(),
            final(self)@ == with_cell(old(self)@, p.0 as int, p.1 as int, v),
    {
        proof {
            old(self).lemma_shape();
        }
        if !self.contains(p) {
            return;
        }
        let (offset, mask) = self.locate(p);
        let ghost t0 = self.table@;
        let ghost old_view = self@;
        if v {
            self.table[offset] = self.table[offset] | mask;
        } else {
            self.table[offset] = self.table[offset] & !mask;
        }
        proof {
            let w = self.size.0 as int;
            let h = self.size.1 as int;
            let hs = self.hsize as int;
            let x = p.0 as int;
            let y = p.1 as int;
            let s = (x % 64) as u64;
            let r0 = y + 1;
            let c0 = x / 64 + 1;
            let last = self.last_mask;
            lemma_word_update(t0, hs, r0, c0, self.table@[offset as int]);
            assert(self.table@ == t0.update(r0 * hs + c0, self.table@[offset as int]));
            // the written word stays within its mask
            if c0 == hs - 1 {
                lemma_lead_mask_bit((w - 64 * (hs - 2)) as u64, (63 - s) as u64);
                lemma_cell_ops_respect(word(t0, hs, r0, c0), s, last);
            } else {
                lemma_all_ones_allow(self.table@[offset as int]);
            }
            assert forall|r: int, c: int|
                0 <= r <= h + 1 && 0 <= c < hs implies #[trigger] word(self.table@, hs, r, c)
                & !word_mask(hs, h, last, r, c) == 0 by {
                lemma_in_table(hs, h, r, c);
            }
            lemma_in_table(hs, h, 0, 0);
            assert(word(self.table@, hs, h + 2, 0) == 0);
            // exactly the cell at p changed
            let target = with_cell(old_view, x, y, v);
            assert forall|yy: int| 0 <= yy < h implies #[trigger] self@[yy] =~= target[yy] by {
                assert forall|xx: int| 0 <= xx < w implies #[trigger] self@[yy][xx]
                    == target[yy][xx] by {
                    lemma_in_table(hs, h, yy + 1, xx / 64 + 1);
                    lemma_cell_ops(word(t0, hs, r0, c0), s, (63 - xx % 64) as u64);
                }
            }
            assert(self@ =~= target);
        }
    }

    /// Makes every cell dead.
    pub fn clear(&mut self)
        requires
            old(self).wf(),
        ensures
            final(self).wf(),
            final(self).spec_size() == old(self).spec_size(),
            final(self)@ == dead_grid(
                old(self).spec_size().0 as nat,
                old(self).spec_size().1 as nat,
            ),
    {
        let n = self.table.len();
        let mut i: usize = 0;
        while i < n
            invariant
                n == self.table@.len(),
                0 <= i <= n,
                forall|j: int| 0 <= j < i ==> self.table@[j] == 0,
                self.size == old(self).size,
                self.hsize == old(self).hsize,
                self.last_mask == old(self).last_mask,
                self.buffer@ == old(self).buffer@,
                self.ls@ == old(self).ls@,
                self.rs@ == old(self).rs@,
            decreases n - i,
        {
            self.table[i] = 0;
            i += 1;
        }
        proof {
            let w = self.size.0 as int;
            let h = self.size.1 as int;
            let hs = self.hsize as int;
            let last = self.last_mask;
            assert forall|r: int, c: int|
                0 <= r <= h + 1 && 0 <= c < hs implies #[trigger] word(self.table@, hs, r, c)
                & !word_mask(hs, h, last, r, c) == 0 by {
                lemma_in_table(hs, h, r, c);
                lemma_zero_respects(word_mask(hs, h, last, r, c));
            }
            lemma_in_table(hs, h, 0, 0);
            assert forall|y: int| 0 <= y < h implies #[trigger] self@[y] =~= dead_grid(
                w as nat,
                h as nat,
            )[y] by {
                assert forall|x: int| 0 <= x < w implies !#[trigger] self@[y][x] by {
                    lemma_in_table(hs, h, y + 1, x / 64 + 1);
                    lemma_zero_bit((63 - x % 64) as u64);
                }
            }
            assert(self@ =~= dead_grid(w as nat, h as nat));
        }
    }

    /// The layout fields agree.
    spec fn same_layout(&self, other: &Board) -> bool {
        &&& self.size == other.size
        &&& self.hsize == other.hsize
        &&& self.last_mask == other.last_mask
    }

    /// Fills the neighbour planes of every word of the board from the table.
    fn fill_planes(&mut self)
        requires
            old(self).wf(),
        ensures
            final(self).wf(),
            final(self).same_layout(&*old(self)),
            final(self).table@ == old(self).table@,
            final(self).buffer@ == old(self).buffer@,
            forall|r: int, c: int|
                0 <= r <= old(self).size.1 + 1 && 1 <= c < old(self).hsize ==> #[trigger] planes_ok(
                    final(self).table@,
                    final(self).ls@,
                    final(self).rs@,
                    old(self).hsize as int,
                    r,
                    c,
                ),
    {
        let h = self.size.1 as usize;
        let hsize = self.hsize;
        let ghost hs = hsize as int;
        let ghost t = self.table@;
        proof {
            lemma_in_table(hs, h as int, h as int + 1, hs - 1);
        }
        let mut r: usize = 1;
        let mut row: usize = hsize;
        while r <= h
            invariant
                self.wf(),
                self.same_layout(&*old(self)),
                self.table@ == t,
                self.buffer@ == old(self).buffer@,
                h == self.size.1,
                hsize == self.hsize,
                hs == hsize,
                1 <= r <= h + 1,
                row == r * hs,
                forall|rr: int, cc: int|
                    1 <= rr < r && 1 <= cc < hs ==> #[trigger] planes_ok(
                        t,
                        self.ls@,
                        self.rs@,
                        hs,
                        rr,
                        cc,
                    ),
            decreases h + 1 - r,
        {
            let mut c: usize = 1;
            while c < hsize
                invariant
                    self.wf(),
                    self.same_layout(&*old(self)),
                    self.table@ == t,
                    self.buffer@ == old(self).buffer@,
                    h == self.size.1,
                    hsize == self.hsize,
                    hs == hsize,
                    1 <= r <= h,
                    row == r * hs,
                    1 <= c <= hs,
                    forall|rr: int, cc: int|
                        (1 <= rr < r && 1 <= cc < hs) || (rr == r && 1 <= cc < c)
                            ==> #[trigger] planes_ok(t, self.ls@, self.rs@, hs, rr, cc),
                decreases hs - c,
            {
                proof {
                    lemma_in_table(hs, h as int, r as int, c as int);
                    lemma_row_start_mono(hs, r as int, h as int);
                    lemma_next_row(hs, h as int + 1);
                }
                let o = row + c;
                let tc = self.table[o];
                let tl = self.table[o - 1];
                let tr = self.table[o + 1];
                let ghost ls0 = self.ls@;
                let ghost rs0 = self.rs@;
                self.ls[o] = (tc >> 1u64) | ((tl & 1u64) << 63u64);
                self.rs[o] = (tc << 1u64) | ((tr & MSB) >> 63u64);
                proof {
                    lemma_row_update(ls0, hs, h as int, r as int, c as int, self.ls@[o as int]);
                    lemma_row_update(rs0, hs, h as int, r as int, c as int, self.rs@[o as int]);
                    assert(self.ls@ == ls0.update(r * hs + c, self.ls@[o as int]));
                    assert(self.rs@ == rs0.update(r * hs + c, self.rs@[o as int]));
                    assert forall|rr: int, cc: int|
                        (1 <= rr < r && 1 <= cc < hs) || (rr == r && 1 <= cc < c + 1)
                            implies #[trigger] planes_ok(t, self.ls@, self.rs@, hs, rr, cc) by {
                        if rr != r || cc != c {
                            assert(planes_ok(t, ls0, rs0, hs, rr, cc));
                        }
                    }
                    assert forall|cc: int| 0 <= cc < hs implies #[trigger] word(self.ls@, hs, 0, cc)
                        == 0 by {
                        assert(word(ls0, hs, 0, cc) == 0);
                    }
                    assert forall|cc: int| 0 <= cc < hs implies #[trigger] word(
                        self.ls@,
                        hs,
                        h + 1,
                        cc,
                    ) == 0 by {
                        assert(word(ls0, hs, h + 1, cc) == 0);
                    }
                    assert forall|cc: int| 0 <= cc < hs implies #[trigger] word(self.rs@, hs, 0, cc)
                        == 0 by {
                        assert(word(rs0, hs, 0, cc) == 0);
                    }
                    assert forall|cc: int| 0 <= cc < hs implies #[trigger] word(
                        self.rs@,
                        hs,
                        h + 1,
                        cc,
                    ) == 0 by {
                        assert(word(rs0, hs, h + 1, cc) == 0);
                    }
                }
                c += 1;
            }
            proof {
                lemma_next_row(hs, r as int);
                lemma_row_start_mono(hs, r as int + 1, h as int + 1);
                lemma_in_table(hs, h as int, h as int + 1, 0);
            }
            r += 1;
            row += hsize;
        }
        proof {
            let last = self.last_mask;
            lemma_planes_of_zero();
            assert forall|rr: int, cc: int|
                0 <= rr <= h + 1 && 1 <= cc < hs implies #[trigger] planes_ok(
                t,
                self.ls@,
                self.rs@,
                hs,
                rr,
                cc,
            ) by {
                if rr == 0 || rr == h + 1 {
                    lemma_frame_word_zero(t, hs, h as int, last, rr, cc);
                    lemma_frame_word_zero(t, hs, h as int, last, rr, cc - 1);
                    if cc + 1 < hs {
                        lemma_frame_word_zero(t, hs, h as int, last, rr, cc + 1);
                    } else {
                        lemma_past_row_end(t, hs, h as int, last, rr);
                    }
                    assert(word(self.ls@, hs, rr, cc) == 0);
                    assert(word(self.rs@, hs, rr, cc) == 0);
                }
            }
        }
    }

    /// Writes the next generation of every word of the board into the
    /// buffer, from the table and its neighbour planes.
    fn fill_buffer(&mut self)
        requires
            old(self).wf(),
            forall|r: int, c: int|
                0 <= r <= old(self).size.1 + 1 && 1 <= c < old(self).hsize ==> #[trigger] planes_ok(
                    old(self).table@,
                    old(self).ls@,
                    old(self).rs@,
                    old(self).hsize as int,
                    r,
                    c,
                ),
        ensures
            final(self).wf(),
            final(self).same_layout(&*old(self)),
            final(self).table@ == old(self).table@,
            final(self).ls@ == old(self).ls@,
            final(self).rs@ == old(self).rs@,
            forall|r: int, c: int|
                1 <= r <= old(self).size.1 && 1 <= c < old(self).hsize ==> #[trigger] word(
                    final(self).buffer@,
                    old(self).hsize as int,
                    r,
                    c,
                ) == next_word(
                    old(self).table@,
                    old(self).ls@,
                    old(self).rs@,
                    old(self).hsize as int,
                    r,
                    c,
                ) & word_mask(
                    old(self).hsize as int,
                    old(self).size.1 as int,
                    old(self).last_mask,
                    r,
                    c,
                ),
    {
        let h = self.size.1 as usize;
        let hsize = self.hsize;
        let ghost hs = hsize as int;
        let ghost t = self.table@;
        let ghost ls = self.ls@;
        let ghost rs = self.rs@;
        let ghost last = self.last_mask;
        let mut r: usize = 1;
        let mut row: usize = hsize;
        while r <= h
            invariant
                self.wf(),
                self.same_layout(&*old(self)),
                self.table@ == t,
                self.ls@ == ls,
                self.rs@ == rs,
                h == self.size.1,
                hsize == self.hsize,
                hs == hsize,
                last == self.last_mask,
                1 <= r <= h + 1,
                row == r * hs,
                forall|rr: int, cc: int|
                    1 <= rr < r && 1 <= cc < hs ==> #[trigger] word(self.buffer@, hs, rr, cc)
                        == next_word(t, ls, rs, hs, rr, cc) & word_mask(hs, h as int, last, rr, cc),
            decreases h + 1 - r,
        {
            let mut c: usize = 1;
            while c < hsize
                invariant
                    self.wf(),
                    self.same_layout(&*old(self)),
                    self.table@ == t,
                    self.ls@ == ls,
                    self.rs@ == rs,
                    h == self.size.1,
                    hsize == self.hsize,
                    hs == hsize,
                    last == self.last_mask,
                    1 <= r <= h,
                    row == r * hs,
                    1 <= c <= hs,
                    forall|rr: int, cc: int|
                        (1 <= rr < r && 1 <= cc < hs) || (rr == r && 1 <= cc < c) ==> #[trigger] word(
                            self.buffer@,
                            hs,
                            rr,
                            cc,
                        ) == next_word(t, ls, rs, hs, rr, cc) & word_mask(
                            hs,
                            h as int,
                            last,
                            rr,
                            cc,
                        ),
                decreases hs - c,
            {
                proof {
                    lemma_in_table(hs, h as int, r as int, c as int);
                    lemma_in_table(hs, h as int, r as int - 1, c as int);
                    lemma_in_table(hs, h as int, r as int + 1, c as int);
                    lemma_next_row(hs, r as int);
                }
                let o = row + c;
                let up = o - hsize;
                let down = o + hsize;
                let mask = if c == hsize - 1 {
                    self.last_mask
                } else {
                    !0u64
                };
                let v = next_generation_word(
                    self.ls[up],
                    self.ls[o],
                    self.ls[down],
                    self.table[up],
                    self.table[down],
                    self.rs[up],
                    self.rs[o],
                    self.rs[down],
                    self.table[o],
                ) & mask;
                let ghost buf0 = self.buffer@;
                self.buffer[o] = v;
                proof {
                    lemma_row_update(buf0, hs, h as int, r as int, c as int, v);
                    assert(self.buffer@ == buf0.update(r * hs + c, v));
                    assert(v == next_word(t, ls, rs, hs, r as int, c as int) & word_mask(
                        hs,
                        h as int,
                        last,
                        r as int,
                        c as int,
                    ));
                    lemma_masked_respects(
                        next_word(t, ls, rs, hs, r as int, c as int),
                        word_mask(hs, h as int, last, r as int, c as int),
                    );
                    assert forall|rr: int, cc: int|
                        0 <= rr <= h + 1 && 0 <= cc < hs implies #[trigger] word(
                        self.buffer@,
                        hs,
                        rr,
                        cc,
                    ) & !word_mask(hs, h as int, last, rr, cc) == 0 by {
                        if rr != r || cc != c {
                            assert(word(buf0, hs, rr, cc) & !word_mask(hs, h as int, last, rr, cc)
                                == 0);
                        }
                    }
                    assert forall|rr: int, cc: int|
                        (1 <= rr < r && 1 <= cc < hs) || (rr == r && 1 <= cc < c + 1)
                            implies #[trigger] word(self.buffer@, hs, rr, cc) == next_word(
                        t,
                        ls,
                        rs,
                        hs,
                        rr,
                        cc,
                    ) & word_mask(hs, h as int, last, rr, cc) by {
                        if rr != r || cc != c {
                            assert(word(buf0, hs, rr, cc) == next_word(t, ls, rs, hs, rr, cc)
                                & word_mask(hs, h as int, last, rr, cc));
                        }
                    }
                }
                c += 1;
            }
            proof {
                lemma_next_row(hs, r as int);
                lemma_row_start_mono(hs, r as int + 1, h as int + 1);
                lemma_in_table(hs, h as int, h as int + 1, 0);
            }
            r += 1;
            row += hsize;
        }
    }

    /// Advances the board by one generation: every cell takes the state that
    /// the Life rule gives it from the cell and its eight neighbours, cells
    /// beyond the edges counting as dead.
    pub fn grow(&mut self)
        requires
            old(self).wf(),
        ensures
            final(self).wf(),
            final(self).spec_size() == old(self).spec_size(),
            final(self)@ == life_step(old(self)@),
    {
        let ghost before = *self;
        self.fill_planes();
        self.fill_buffer();
        let ghost t = self.table@;
        let ghost ls = self.ls@;
        let ghost rs = self.rs@;
        let ghost buf = self.buffer@;
        std::mem::swap(&mut self.table, &mut self.buffer);
        proof {
            let w = self.size.0 as int;
            let h = self.size.1 as int;
            let hs = self.hsize as int;
            let last = self.last_mask;
            let g = before@;
            assert(g == cells_of(t, hs, w, h));
            assert forall|y: int| 0 <= y < h implies #[trigger] self@[y] =~= life_step(g)[y] by {
                assert forall|x: int| 0 <= x < w implies #[trigger] self@[y][x] == life_step(
                    g,
                )[y][x] by {
                    lemma_next_cell(t, ls, rs, buf, hs, w, h, last, x, y);
                }
            }
            assert(self@ =~= life_step(g));
        }
    }

    /// Sets every cell from `bits`, column by column, each column from the
    /// top down: cell `(x, y)` takes `bits[x * height + y]`.
    pub fn random_init(&mut self, bits: &Vec<bool>)
        requires
            old(self).wf(),
            bits@.len() == old(self).spec_size().0 * old(self).spec_size().1,
        ensures
            final(self).wf(),
            final(self).spec_size() == old(self).spec_size(),
            final(self)@ == grid_from_bits(
                bits@,
                old(self).spec_size().0 as int,
                old(self).spec_size().1 as int,
            ),
    {
        let ghost g = self@;
        proof {
            self.lemma_shape();
        }
        let w = self.size.0 as usize;
        let h = self.size.1 as usize;
        let n = bits.len();
        let mut i: usize = 0;
        let mut x: usize = 0;
        while x < w
            invariant
                self.wf(),
                self.size == old(self).size,
                w == self.size.0,
                h == self.size.1,
                bits@.len() == w * h,
                n == bits@.len(),
                is_grid(g, w as int, h as int),
                0 <= x <= w,
                i == x * h,
                forall|yy: int, xx: int|
                    0 <= yy < h && 0 <= xx < w ==> #[trigger] self@[yy][xx] == if xx < x {
                        bits@[xx * h + yy]
                    } else {
                        g[yy][xx]
                    },
            decreases w - x,
        {
            let mut y: usize = 0;
            while y < h
                invariant
                    self.wf(),
                    self.size == old(self).size,
                    w == self.size.0,
                    h == self.size.1,
                    bits@.len() == w * h,
                    n == bits@.len(),
                    is_grid(g, w as int, h as int),
                    0 <= x < w,
                    0 <= y <= h,
                    i == x * h + y,
                    forall|yy: int, xx: int|
                        0 <= yy < h && 0 <= xx < w ==> #[trigger] self@[yy][xx] == if xx < x || (xx
                            == x && yy < y) {
                            bits@[xx * h + yy]
                        } else {
                            g[yy][xx]
                        },
                decreases h - y,
            {
                proof {
                    lemma_column_order(x as int, y as int, w as int, h as int);
                    self.lemma_shape();
                }
                self.set(Point(x as i32, y as i32), bits[i]);
                proof {
                    self.lemma_shape();
                }
                i += 1;
                y += 1;
            }
            proof {
                lemma_column_order(x as int, 0, w as int, h as int);
            }
            x += 1;
        }
        proof {
            self.lemma_shape();
            let target = grid_from_bits(bits@, w as int, h as int);
            assert forall|yy: int| 0 <= yy < h implies #[trigger] self@[yy] =~= target[yy] by {
                assert forall|xx: int| 0 <= xx < w implies #[trigger] self@[yy][xx]
                    == target[yy][xx] by {}
            }
            assert(self@ =~= target);
        }
    }

    /// Sets every cell to a random state, drawn one cell at a time, column by
    /// column.
    pub fn randomize(&mut self)
        requires
            old(self).wf(),
        ensures
            final(self).wf(),
            final(self).spec_size() == old(self).spec_size(),
    {
        let w = self.size.0 as usize;
        let h = self.size.1 as usize;
        let mut bits: Vec<bool> = Vec::new();
        let mut x: usize = 0;
        while x < w
            invariant
                0 <= x <= w,
                bits@.len() == x * h,
            decreases w - x,
        {
            let mut y: usize = 0;
            while y < h
                invariant
                    0 <= x < w,
                    0 <= y <= h,
                    bits@.len() == x * h + y,
                decreases h - y,
            {
                bits.push(random_bit());
                y += 1;
            }
            proof {
                lemma_next_row(h as int, x as int);
            }
            x += 1;
        }
        self.random_init(&bits);
    }

    /// No live cell is ever recorded off the board: the frame of dead cells
    /// round it, and the cells past its right edge in the last word of each
    /// row, stay dead.
    pub proof fn lemma_border_dead(&self)
        requires
            self.wf(),
        ensures
            forall|x: int, y: int| #[trigger] self.stored(x, y) ==> self.spec_contains(x, y),
    {
        assert forall|x: int, y: int| #[trigger] self.stored(x, y) implies self.spec_contains(
            x,
            y,
        ) by {
            lemma_stored_on_board(
                self.table@,
                self.hsize as int,
                self.size.0 as int,
                self.size.1 as int,
                self.last_mask,
                x,
                y,
            );
        }
    }
}

} // verus!
