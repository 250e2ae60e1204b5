//! Small arithmetic helpers shared by the allocators and the paging code.

use vstd::prelude::*;

verus! {

/// Division of `a` by `b`, rounded towards positive infinity.
pub open spec fn spec_ceil_div(a: int, b: int) -> int {
    a / b + if a % b == 0 { 0int } else { 1int }
}

/// The rounded-up quotient covers `a`, nothing smaller does, and it is the
/// plain quotient of `a + b - 1`.
pub proof fn lemma_ceil_div_bounds(a: int, b: int)
    requires
        a >= 0,
        b >= 1,
    ensures
        spec_ceil_div(a, b) * b >= a,
        (spec_ceil_div(a, b) - 1) * b < a,
        spec_ceil_div(a, b) >= 0,
        spec_ceil_div(a, b) == (a + b - 1) / b,
{
    vstd::arithmetic::div_mod::lemma_fundamental_div_mod(a, b);
    vstd::arithmetic::div_mod::lemma_mod_bound(a, b);
    vstd::arithmetic::div_mod::lemma_div_pos_is_pos(a, b);
    let q = a / b;
    let r = a % b;
    if r == 0 {
        assert(q * b == a && (q - 1) * b == a - b) by (nonlinear_arith)
            requires a == b * q;
        assert((a + b - 1) / b == q) by {
            vstd::arithmetic::div_mod::lemma_fundamental_div_mod_converse_div(a + b - 1, b, q, b - 1);
        }
    } else {
        assert((q + 1) * b == a - r + b && q * b == a - r) by (nonlinear_arith)
            requires a == b * q + r;
        assert((a + b - 1) / b == q + 1) by {
            vstd::arithmetic::div_mod::lemma_fundamental_div_mod_converse_div(a + b - 1, b, q + 1, r - 1);
        }
    }
}

/// Rounded-up division is monotone in the dividend.
pub proof fn lemma_ceil_div_mono(a: int, b: int, d: int)
    requires
        0 <= a <= b,
        d >= 1,
    ensures
        spec_ceil_div(a, d) <= spec_ceil_div(b, d),
{
    lemma_ceil_div_bounds(a, d);
    lemma_ceil_div_bounds(b, d);
    let ca = spec_ceil_div(a, d);
    let cb = spec_ceil_div(b, d);
    if ca > cb {
        assert(cb * d >= b);
        assert((ca - 1) * d < a);
        assert(cb <= ca - 1);
        assert(cb * d <= (ca - 1) * d) by (nonlinear_arith)
            requires cb <= ca - 1, d >= 1;
        assert(false);
    }
}

/// A whole number of divisor units shifts rounded-up division by that number.
pub proof fn lemma_ceil_div_shift(t: int, b: int, d: int)
    requires
        t >= 0,
        b >= 0,
        d >= 1,
    ensures
        spec_ceil_div(t * d + b, d) == t + spec_ceil_div(b, d),
{
    vstd::arithmetic::div_mod::lemma_hoist_over_denominator(b, t, d as nat);
    assert(t * d == d * t) by (nonlinear_arith);
    vstd::arithmetic::div_mod::lemma_mod_multiples_vanish(t, b, d);
}

/// `x` whole units of `f` fit into `end` exactly when `x` is at most the
/// quotient `end / f`.
pub proof fn lemma_mul_le_div(x: int, end: int, f: int)
    requires
        x >= 0,
        end >= 0,
        f >= 1,
    ensures
        (x * f <= end) <==> (x <= end / f),
{
    vstd::arithmetic::div_mod::lemma_fundamental_div_mod(end, f);
    vstd::arithmetic::div_mod::lemma_mod_bound(end, f);
    vstd::arithmetic::div_mod::lemma_div_pos_is_pos(end, f);
    let q = end / f;
    let r = end % f;
    if x <= q {
        assert(x * f <= end) by (nonlinear_arith)
            requires x <= q, f >= 1, end == f * q + r, r >= 0;
    } else {
        assert(x * f > end) by (nonlinear_arith)
            requires x >= q + 1, f >= 1, end == f * q + r, r < f;
    }
}

/// Cancelling a positive factor keeps a strict product inequality.
pub proof fn lemma_mul_lt_cancel(x: int, y: int, m: int)
    requires
        m >= 1,
        x * m < y * m,
    ensures
        x < y,
{
    assert(x < y) by (nonlinear_arith)
        requires m >= 1, x * m < y * m;
}

/// Division of `a` by `b`, rounded towards positive infinity.
pub fn ceil_div_usize(a: usize, b: usize) -> (r: usize)
    requires
        b >= 1,
    ensures
        r == spec_ceil_div(a as int, b as int),
{
    let q = a / b;
    let rem = a % b;
    if rem != 0 {
        proof {
            vstd::arithmetic::div_mod::lemma_fundamental_div_mod(a as int, b as int);
            vstd::arithmetic::div_mod::lemma_mod_bound(a as int, b as int);
            vstd::arithmetic::div_mod::lemma_div_pos_is_pos(a as int, b as int);
            assert(q < a) by (nonlinear_arith)
                requires a == b * q + rem, rem >= 1, b >= 2, q >= 0;
        }
        q + 1
    } else {
        q
    }
}

/// Whether the closed intervals `[a_start, a_end]` and `[b_start, b_end]`
/// share at least one point.
pub fn mem_regions_overlap(a_start: usize, a_end: usize, b_start: usize, b_end: usize) -> (r: bool)
    ensures
        r == spec_regions_overlap(a_start as int, a_end as int, b_start as int, b_end as int),
{
    let lo: usize = if a_start >= b_start { a_start } else { b_start };
    let hi: usize = if a_end <= b_end { a_end } else { b_end };
    lo <= hi
}

/// Two closed intervals overlap when the larger start is at or before the
/// smaller end.
pub open spec fn spec_regions_overlap(a_start: int, a_end: int, b_start: int, b_end: int) -> bool {
    vstd::math::max(a_start, b_start) <= vstd::math::min(a_end, b_end)
}

} // verus!
