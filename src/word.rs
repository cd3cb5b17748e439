//! Facts about single 64-bit words of cells. The cell at offset `s` within a
//! word (counted from the left) lives at bit `63 - s`.

use vstd::prelude::*;
use crate::rule::bit;

verus! {

/// The bit of the leftmost cell of a word.
pub const MSB: u64 = 0x8000_0000_0000_0000;

/// The bits of the leftmost `n` cells of a word (`1 <= n <= 64`).
pub open spec fn lead_mask(n: u64) -> u64 {
    !0u64 << ((64 - n) as u64)
}

pub proof fn lemma_zero_bit(b: u64)
    ensures
        !bit(0u64, b),
{
    assert(!bit(0u64, b)) by (bit_vector);
}

/// A word with no bit outside the empty mask is zero.
pub proof fn lemma_clear_outside_zero(t: u64)
    requires
        t & !0u64 == 0,
    ensures
        t == 0,
{
    assert(t & !0u64 == 0 ==> t == 0) by (bit_vector);
}

/// A bit outside the mask of a word that respects it is clear.
pub proof fn lemma_clear_outside_bit(t: u64, m: u64, b: u64)
    requires
        t & !m == 0,
        b < 64,
        !bit(m, b),
    ensures
        !bit(t, b),
{
    assert(t & !m == 0 && b < 64 && !bit(m, b) ==> !bit(t, b)) by (bit_vector);
}

pub proof fn lemma_zero_respects(m: u64)
    ensures
        0u64 & !m == 0,
{
    assert(0u64 & !m == 0) by (bit_vector);
}

pub proof fn lemma_all_ones_allow(t: u64)
    ensures
        t & !!0u64 == 0,
{
    assert(t & !!0u64 == 0) by (bit_vector);
}

pub proof fn lemma_masked_respects(v: u64, m: u64)
    ensures
        (v & m) & !m == 0,
{
    assert((v & m) & !m == 0) by (bit_vector);
}

pub proof fn lemma_masked_bit(v: u64, m: u64, b: u64)
    requires
        b < 64,
    ensures
        bit(v & m, b) == (bit(v, b) && bit(m, b)),
{
    assert(b < 64 ==> bit(v & m, b) == (bit(v, b) && bit(m, b))) by (bit_vector);
}

pub proof fn lemma_all_ones_bit(b: u64)
    requires
        b < 64,
    ensures
        bit(!0u64, b),
{
    assert(b < 64 ==> bit(!0u64, b)) by (bit_vector);
}

/// `lead_mask(n)` holds exactly the bits of the leftmost `n` cells.
pub proof fn lemma_lead_mask_bit(n: u64, b: u64)
    requires
        1 <= n <= 64,
        b < 64,
    ensures
        bit(lead_mask(n), b) == (b >= 64 - n),
{
    assert(1 <= n <= 64 && b < 64 ==> bit(!0u64 << ((64 - n) as u64), b) == (b >= 64 - n))
        by (bit_vector);
}

/// Testing, setting and clearing the cell at offset `s`.
pub proof fn lemma_cell_ops(t: u64, s: u64, b: u64)
    requires
        s < 64,
        b < 64,
    ensures
        ((t & (MSB >> s)) != 0) == bit(t, (63 - s) as u64),
        bit(t | (MSB >> s), b) == (b == 63 - s || bit(t, b)),
        bit(t & !(MSB >> s), b) == (b != 63 - s && bit(t, b)),
{
    assert(s < 64 ==> ((t & (0x8000_0000_0000_0000u64 >> s)) != 0) == bit(t, (63 - s) as u64))
        by (bit_vector);
    assert(s < 64 && b < 64 ==> bit(t | (0x8000_0000_0000_0000u64 >> s), b) == (b == 63 - s
        || bit(t, b))) by (bit_vector);
    assert(s < 64 && b < 64 ==> bit(t & !(0x8000_0000_0000_0000u64 >> s), b) == (b != 63 - s
        && bit(t, b))) by (bit_vector);
}

/// Setting or clearing a cell inside the mask keeps a word within its mask.
pub proof fn lemma_cell_ops_respect(t: u64, s: u64, m: u64)
    requires
        s < 64,
        t & !m == 0,
        bit(m, (63 - s) as u64),
    ensures
        (t | (MSB >> s)) & !m == 0,
        (t & !(MSB >> s)) & !m == 0,
{
    assert(s < 64 && t & !m == 0 && bit(m, (63 - s) as u64) ==> (t | (0x8000_0000_0000_0000u64
        >> s)) & !m == 0) by (bit_vector);
    assert(t & !m == 0 ==> (t & !(0x8000_0000_0000_0000u64 >> s)) & !m == 0) by (bit_vector);
}

/// The plane of left neighbours: each cell takes the state of the cell to
/// its left, the leftmost one from the last cell of the word before.
pub open spec fn left_plane(center: u64, before: u64) -> u64 {
    (center >> 1u64) | ((before & 1u64) << 63u64)
}

/// The plane of right neighbours: each cell takes the state of the cell to
/// its right, the rightmost one from the first cell of the word after.
pub open spec fn right_plane(center: u64, after: u64) -> u64 {
    (center << 1u64) | ((after & MSB) >> 63u64)
}

pub proof fn lemma_left_plane_bit(center: u64, before: u64, b: u64)
    requires
        b < 64,
    ensures
        bit(left_plane(center, before), b) == if b == 63 {
            bit(before, 0)
        } else {
            bit(center, (b + 1) as u64)
        },
{
    assert(b < 64 ==> bit((center >> 1u64) | ((before & 1u64) << 63u64), b) == if b == 63 {
        bit(before, 0)
    } else {
        bit(center, (b + 1) as u64)
    }) by (bit_vector);
}

pub proof fn lemma_right_plane_bit(center: u64, after: u64, b: u64)
    requires
        b < 64,
    ensures
        bit(right_plane(center, after), b) == if b == 0 {
            bit(after, 63)
        } else {
            bit(center, (b - 1) as u64)
        },
{
    assert(b < 64 ==> bit(
        (center << 1u64) | ((after & 0x8000_0000_0000_0000u64) >> 63u64),
        b,
    ) == if b == 0 {
        bit(after, 63)
    } else {
        bit(center, (b - 1) as u64)
    }) by (bit_vector);
}

pub proof fn lemma_planes_of_zero()
    ensures
        left_plane(0, 0) == 0,
        right_plane(0, 0) == 0,
{
    assert((0u64 >> 1u64) | ((0u64 & 1u64) << 63u64) == 0) by (bit_vector);
    assert((0u64 << 1u64) | ((0u64 & 0x8000_0000_0000_0000u64) >> 63u64) == 0) by (bit_vector);
}

} // verus!
