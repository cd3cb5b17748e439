//! The Life rule, stated over cells and over packed words.
//!
//! A word holds 64 cells, one per bit. Eight neighbour planes (one word per
//! neighbour direction) are folded into a one-hot count of live neighbours by a
//! short chain of carry steps, and the rule is read off that count.

use vstd::prelude::*;

verus! {

/// The bit of `w` at position `b` (0 is the least significant).
pub open spec fn bit(w: u64, b: u64) -> bool {
    (w >> b) & 1u64 == 1u64
}

/// 1 for a live cell, 0 for a dead one.
pub open spec fn count_of(alive: bool) -> int {
    if alive {
        1
    } else {
        0
    }
}

/// B3/S23: a cell is alive in the next generation iff it has exactly three
/// live neighbours, or it is alive and has exactly two.
pub open spec fn life_rule(alive: bool, neighbours: int) -> bool {
    neighbours == 3 || (alive && neighbours == 2)
}

/// The carry chain on single cells: `c0..c3` is a one-hot count of the live
/// neighbours seen so far, and a count that passes 3 drops out of it.
pub open spec fn rule_cell(
    t0: bool,
    t1: bool,
    t2: bool,
    t3: bool,
    t4: bool,
    t5: bool,
    t6: bool,
    t7: bool,
    center: bool,
) -> bool {
    let c0 = !(t0 || t1);
    let c1 = t0 != t1;
    let c2 = t0 && t1;
    let c3 = c2 && t2;
    let c2 = (c2 && !t2) || (c1 && t2);
    let c1 = (c1 && !t2) || (c0 && t2);
    let c0 = c0 && !t2;
    let c3 = (c3 && !t3) || (c2 && t3);
    let c2 = (c2 && !t3) || (c1 && t3);
    let c1 = (c1 && !t3) || (c0 && t3);
    let c0 = c0 && !t3;
    let c3 = (c3 && !t4) || (c2 && t4);
    let c2 = (c2 && !t4) || (c1 && t4);
    let c1 = (c1 && !t4) || (c0 && t4);
    let c0 = c0 && !t4;
    let c3 = (c3 && !t5) || (c2 && t5);
    let c2 = (c2 && !t5) || (c1 && t5);
    let c1 = (c1 && !t5) || (c0 && t5);
    let c0 = c0 && !t5;
    let c3 = (c3 && !t6) || (c2 && t6);
    let c2 = (c2 && !t6) || (c1 && t6);
    let c1 = (c1 && !t6) || (c0 && t6);
    let c3 = (c3 && !t7) || (c2 && t7);
    let c2 = (c2 && !t7) || (c1 && t7);
    c3 || (center && c2)
}

/// The same carry chain on whole words: bit `b` of the result is the next
/// state of the cell at bit `b`.
pub open spec fn rule_word(
    t0: u64,
    t1: u64,
    t2: u64,
    t3: u64,
    t4: u64,
    t5: u64,
    t6: u64,
    t7: u64,
    center: u64,
) -> u64 {
    let c0 = !(t0 | t1);
    let c1 = t0 ^ t1;
    let c2 = t0 & t1;
    let c3 = c2 & t2;
    let c2 = (c2 & !t2) | (c1 & t2);
    let c1 = (c1 & !t2) | (c0 & t2);
    let c0 = c0 & !t2;
    let c3 = (c3 & !t3) | (c2 & t3);
    let c2 = (c2 & !t3) | (c1 & t3);
    let c1 = (c1 & !t3) | (c0 & t3);
    let c0 = c0 & !t3;
    let c3 = (c3 & !t4) | (c2 & t4);
    let c2 = (c2 & !t4) | (c1 & t4);
    let c1 = (c1 & !t4) | (c0 & t4);
    let c0 = c0 & !t4;
    let c3 = (c3 & !t5) | (c2 & t5);
    let c2 = (c2 & !t5) | (c1 & t5);
    let c1 = (c1 & !t5) | (c0 & t5);
    let c0 = c0 & !t5;
    let c3 = (c3 & !t6) | (c2 & t6);
    let c2 = (c2 & !t6) | (c1 & t6);
    let c1 = (c1 & !t6) | (c0 & t6);
    let c3 = (c3 & !t7) | (c2 & t7);
    let c2 = (c2 & !t7) | (c1 & t7);
    c3 | (center & c2)
}

/// The carry chain counts exactly: it applies the Life rule to the number of
/// live neighbours.
pub proof fn lemma_rule_cell(
    t0: bool,
    t1: bool,
    t2: bool,
    t3: bool,
    t4: bool,
    t5: bool,
    t6: bool,
    t7: bool,
    center: bool,
)
    ensures
        rule_cell(t0, t1, t2, t3, t4, t5, t6, t7, center) == life_rule(
            center,
            count_of(t0) + count_of(t1) + count_of(t2) + count_of(t3) + count_of(t4) + count_of(t5)
                + count_of(t6) + count_of(t7),
        ),
{
}

/// Every operation of the word chain acts bit by bit, so each bit of the
/// result is the single-cell chain applied to that bit of each input.
pub proof fn lemma_rule_word_bit(
    t0: u64,
    t1: u64,
    t2: u64,
    t3: u64,
    t4: u64,
    t5: u64,
    t6: u64,
    t7: u64,
    center: u64,
    b: u64,
)
    requires
        b < 64,
    ensures
        bit(rule_word(t0, t1, t2, t3, t4, t5, t6, t7, center), b) == rule_cell(
            bit(t0, b),
            bit(t1, b),
            bit(t2, b),
            bit(t3, b),
            bit(t4, b),
            bit(t5, b),
            bit(t6, b),
            bit(t7, b),
            bit(center, b),
        ),
{
    assert(bit(rule_word(t0, t1, t2, t3, t4, t5, t6, t7, center), b) == rule_cell(
        bit(t0, b),
        bit(t1, b),
        bit(t2, b),
        bit(t3, b),
        bit(t4, b),
        bit(t5, b),
        bit(t6, b),
        bit(t7, b),
        bit(center, b),
    )) by (bit_vector)
        requires
            b < 64,
    ;
}

} // verus!
