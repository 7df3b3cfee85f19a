//! Small integer arithmetic shared by the planners.

use vstd::prelude::*;

verus! {

/// `a / b`, rounded up.
pub open spec fn ceil_div(a: int, b: int) -> int {
    (a + b - 1) / b
}

/// `x` brought into `lo..=hi`.
pub open spec fn clamped(x: int, lo: int, hi: int) -> int {
    if x < lo {
        lo
    } else if x > hi {
        hi
    } else {
        x
    }
}

/// Rounding up is the quotient, and one more when something is left over.
pub proof fn ceil_div_by_remainder(a: int, b: int)
    requires
        0 <= a,
        0 < b,
    ensures
        ceil_div(a, b) == a / b + if a % b == 0 {
            0int
        } else {
            1int
        },
        0 <= ceil_div(a, b),
        ceil_div(a, b) <= a,
        ceil_div(a, b) * b >= a,
        a > 0 ==> ceil_div(a, b) > 0,
{
    vstd::arithmetic::div_mod::lemma_fundamental_div_mod(a, b);
    vstd::arithmetic::div_mod::lemma_mod_bound(a, b);
    vstd::arithmetic::div_mod::lemma_div_pos_is_pos(a, b);
    let q = a / b;
    let r = a % b;
    assert(q * b == b * q) by (nonlinear_arith);
    assert((q + 1) * b == b * q + b) by (nonlinear_arith);
    assert(a == b * q + r);
    if r == 0 {
        if q == 0 {
            assert(b * q == 0) by (nonlinear_arith)
                requires
                    q == 0,
            ;
        }
        assert(a + b - 1 == b * q + (b - 1));
        vstd::arithmetic::div_mod::lemma_fundamental_div_mod_converse(a + b - 1, b, q, b - 1);
    } else {
        assert(a + b - 1 == b * (q + 1) + (r - 1)) by (nonlinear_arith)
            requires
                a == b * q + r,
        ;
        vstd::arithmetic::div_mod::lemma_fundamental_div_mod_converse(a + b - 1, b, q + 1, r - 1);
    }
    assert(b * q >= q) by (nonlinear_arith)
        requires
            b >= 1,
            q >= 0,
    ;
}

/// `a / b`, rounded up.
pub fn div_ceil(a: u64, b: u64) -> (r: u64)
    requires
        b > 0,
    ensures
        r == ceil_div(a as int, b as int),
{
    proof {
        ceil_div_by_remainder(a as int, b as int);
    }
    let q: u64 = a / b;
    if a % b == 0 {
        q
    } else {
        q + 1
    }
}

/// `a / b`, rounded up.
pub fn div_ceil_size(a: usize, b: usize) -> (r: usize)
    requires
        b > 0,
    ensures
        r == ceil_div(a as int, b as int),
{
    proof {
        ceil_div_by_remainder(a as int, b as int);
    }
    let q: usize = a / b;
    if a % b == 0 {
        q
    } else {
        q + 1
    }
}

/// `x` brought into `lo..=hi`.
pub fn clamp_size(x: usize, lo: usize, hi: usize) -> (r: usize)
    requires
        lo <= hi,
    ensures
        r == clamped(x as int, lo as int, hi as int),
{
    if x < lo {
        lo
    } else if x > hi {
        hi
    } else {
        x
    }
}

/// Rounding up gives the smallest number of parts of size `b` that hold `a`.
pub proof fn ceil_div_is_the_smallest(a: int, b: int, k: int)
    requires
        0 <= a,
        0 < b,
        k * b >= a,
    ensures
        k >= ceil_div(a, b),
        ceil_div(a, b) * b >= a,
        (ceil_div(a, b) - 1) * b < a || a == 0,
{
    let c = ceil_div(a, b);
    ceil_div_by_remainder(a, b);
    assert(b * ((a + b - 1) / b) <= a + b - 1) by (nonlinear_arith)
        requires
            0 < b,
    ;
    assert((c - 1) * b < a) by (nonlinear_arith)
        requires
            b * c <= a + b - 1,
    ;
    assert(k > c - 1) by (nonlinear_arith)
        requires
            k * b >= a,
            (c - 1) * b < a,
            0 < b,
    ;
}

/// Clamping stays inside the limits, changes nothing there, and keeps the order.
pub proof fn clamping_stays_inside(x: int, y: int, lo: int, hi: int)
    requires
        lo <= hi,
        x <= y,
    ensures
        lo <= clamped(x, lo, hi) <= hi,
        lo <= x <= hi ==> clamped(x, lo, hi) == x,
        clamped(x, lo, hi) <= clamped(y, lo, hi),
{
}

} // verus!
