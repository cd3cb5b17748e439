//! Plain integer coordinates on the board.

use vstd::prelude::*;

verus! {

/// A cell position: column, then row.
#[derive(Clone, Copy, Debug, PartialEq, Eq, Structural)]
pub struct Point(pub i32, pub i32);

/// A board size: number of columns, then number of rows.
#[derive(Clone, Copy, Debug, PartialEq, Eq, Structural)]
pub struct Size(pub i32, pub i32);

/// A displacement: columns, then rows.
#[derive(Clone, Copy, Debug, PartialEq, Eq, Structural)]
pub struct Move(pub i32, pub i32);

/// Whether `v` can be held in an `i32`.
pub open spec fn fits_i32(v: int) -> bool {
    i32::MIN <= v <= i32::MAX
}

/// Division of `a` by a positive `b`, rounding toward zero.
pub open spec fn trunc_div(a: int, b: int) -> int {
    if a >= 0 {
        a / b
    } else {
        -((-a) / b)
    }
}

/// `v` held to the range of an `i32`.
pub open spec fn saturate_i32(v: int) -> int {
    if v > i32::MAX {
        i32::MAX as int
    } else if v < i32::MIN {
        i32::MIN as int
    } else {
        v
    }
}

/// A quotient rounded toward zero is no larger than what was divided.
pub proof fn lemma_quotient_bounds(a: int, b: int)
    requires
        a >= 0,
        b >= 1,
    ensures
        0 <= a / b <= a,
{
    vstd::arithmetic::div_mod::lemma_fundamental_div_mod(a, b);
    let q = a / b;
    assert(0 <= q) by {
        vstd::arithmetic::div_mod::lemma_div_pos_is_pos(a, b);
    }
    assert(q <= b * q) by (nonlinear_arith)
        requires
            q >= 0,
            b >= 1,
    ;
}

/// Rounds `a / b` toward zero, for a positive `b`.
pub fn div_toward_zero(a: i128, b: i128) -> (r: i128)
    requires
        b > 0,
        a > i128::MIN,
    ensures
        r == trunc_div(a as int, b as int),
{
    if a >= 0 {
        ((a as u128) / (b as u128)) as i128
    } else {
        proof {
            lemma_quotient_bounds(-a, b as int);
        }
        -(((-a) as u128 / (b as u128)) as i128)
    }
}

} // verus!
