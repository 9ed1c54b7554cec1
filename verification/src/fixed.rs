//! Fixed-point arithmetic.
//!
//! World-space values are `i64` counts of `1 / 65536` of a world unit.
//! Rust's `/` on machine integers truncates toward zero, while the
//! mathematical `/` of specifications is Euclidean; `tdiv` is the
//! truncating quotient, stated over `int`, and the executable helpers
//! below are proved to compute it.

use vstd::prelude::*;

verus! {

use vstd::arithmetic::div_mod::lemma_div_is_ordered;
use vstd::arithmetic::div_mod::lemma_div_multiples_vanish;
use vstd::arithmetic::div_mod::lemma_div_nonincreasing;

/// One world unit in fixed-point representation units.
pub const FP_ONE: i64 = 65536;

/// Magnitude cap on the operands of the fixed-point helpers.
pub const FP_MAX: i64 = 0x4000_0000_0000_0000;

/// Absolute value over `int`.
pub open spec fn iabs(a: int) -> int {
    if a < 0 {
        -a
    } else {
        a
    }
}

/// The quotient of `a` by `b` rounded toward zero: what Rust's `/`
/// computes on machine integers.
pub open spec fn tdiv(a: int, b: int) -> int
    recommends
        b != 0,
{
    if (a < 0) == (b < 0) {
        iabs(a) / iabs(b)
    } else {
        -(iabs(a) / iabs(b))
    }
}

/// The magnitudes of a product multiply: `|a * b| == |a| * |b|`.
proof fn lemma_iabs_mul(a: int, b: int)
    ensures
        iabs(a * b) == iabs(a) * iabs(b),
        a * b < 0 <==> ((a < 0) != (b < 0)) && a != 0 && b != 0,
{
    if a == 0 || b == 0 {
        assert(a * b == 0) by (nonlinear_arith)
            requires
                a == 0 || b == 0,
        ;
        assert(iabs(a) * iabs(b) == 0) by (nonlinear_arith)
            requires
                iabs(a) == 0 || iabs(b) == 0,
        ;
    } else if a > 0 && b > 0 {
        assert(a * b > 0) by (nonlinear_arith)
            requires
                a > 0 && b > 0,
        ;
    } else if a < 0 && b < 0 {
        assert(a * b > 0 && a * b == (-a) * (-b)) by (nonlinear_arith)
            requires
                a < 0 && b < 0,
        ;
        assert(iabs(a * b) == iabs(a) * iabs(b));
    } else if a < 0 {
        assert(a * b < 0 && -(a * b) == (-a) * b) by (nonlinear_arith)
            requires
                a < 0 && b > 0,
        ;
        assert(iabs(a * b) == iabs(a) * iabs(b));
    } else {
        assert(a * b < 0 && -(a * b) == a * (-b)) by (nonlinear_arith)
            requires
                a > 0 && b < 0,
        ;
        assert(iabs(a * b) == iabs(a) * iabs(b));
    }
}

/// Scaling by a positive factor and then dividing it back out, with
/// truncation, is the identity; dividing by the negated factor negates.
pub proof fn lemma_tdiv_mul_cancel(a: int, b: int)
    requires
        b > 0,
    ensures
        tdiv(a * b, b) == a,
        tdiv(a * b, -b) == -a,
{
    lemma_iabs_mul(a, b);
    lemma_div_multiples_vanish(iabs(a), b);
    assert(iabs(a) * b == b * iabs(a)) by (nonlinear_arith);
}

/// Truncating division, the semantics of Rust's `/` on `i64`.
pub fn trunc_div(a: i64, b: i64) -> (q: i64)
    requires
        -FP_MAX <= a <= FP_MAX,
        -FP_MAX <= b <= FP_MAX,
        b != 0,
    ensures
        q == tdiv(a as int, b as int),
        iabs(q as int) <= iabs(a as int),
{
    let neg: bool = (a < 0) != (b < 0);
    let ma: u64 = if a < 0 {
        (-a) as u64
    } else {
        a as u64
    };
    let mb: u64 = if b < 0 {
        (-b) as u64
    } else {
        b as u64
    };
    let mq: u64 = ma / mb;
    proof {
        lemma_div_nonincreasing(ma as int, mb as int);
    }
    if neg {
        -(mq as i64)
    } else {
        mq as i64
    }
}

/// Fixed-point product: multiplies a direction component (at most one
/// in magnitude) by a fixed-point value and rescales, truncating toward
/// zero as the reference arithmetic does.
pub fn fp_mul(a: i64, b: i64) -> (r: i64)
    requires
        -FP_ONE <= a <= FP_ONE,
        -FP_MAX <= b <= FP_MAX,
    ensures
        r == tdiv(a * b, FP_ONE as int),
        iabs(r as int) <= iabs(b as int),
{
    let neg: bool = (a < 0) != (b < 0);
    let ma: u128 = if a < 0 {
        (-a) as u128
    } else {
        a as u128
    };
    let mb: u128 = if b < 0 {
        (-b) as u128
    } else {
        b as u128
    };
    proof {
        assert(ma * mb <= 65536 * (FP_MAX as int)) by (nonlinear_arith)
            requires
                0 <= ma <= 65536,
                0 <= mb <= FP_MAX as int,
        ;
    }
    let mp: u128 = ma * mb;
    let mq: u128 = mp / 65536;
    proof {
        lemma_iabs_mul(a as int, b as int);
        assert(mp <= 65536 * mb) by (nonlinear_arith)
            requires
                ma <= 65536,
                0 <= mb,
                mp == ma * mb,
        ;
        lemma_div_is_ordered(mp as int, 65536 * (mb as int), 65536);
        lemma_div_multiples_vanish(mb as int, 65536);
        assert(mq <= mb);
    }
    if neg {
        -(mq as i64)
    } else {
        mq as i64
    }
}

} // verus!
