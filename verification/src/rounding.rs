//! Facts about products and quotients that are rounded toward zero.

use crate::decimal::{trunc_quot, SCALE};
use vstd::prelude::*;

verus! {

/// For a dividend that is not negative and a positive divisor, rounding toward
/// zero is integer division.
pub proof fn lemma_trunc_quot_nonneg(n: int, d: int)
    by (nonlinear_arith)
    requires
        n >= 0,
        d > 0,
    ensures
        trunc_quot(n, d) == n / d,
        0 <= n / d,
        d * (n / d) <= n < d * (n / d) + d,
{
    assert(n == d * (n / d) + n % d && 0 <= n % d < d);
    if n / d < 0 {
        assert(d * (n / d) <= -d);
    }
}

/// A quotient lies between two integers when the dividend lies between their
/// multiples of the divisor.
pub proof fn lemma_quotient_between(n: int, d: int, low: int, high: int)
    by (nonlinear_arith)
    requires
        d > 0,
        low * d <= n,
        n < (high + 1) * d,
    ensures
        low <= n / d <= high,
{
    assert(n == d * (n / d) + n % d && 0 <= n % d < d);
    if n / d < low {
        assert(d * (n / d) <= d * (low - 1));
    }
    if n / d > high {
        assert(d * (n / d) >= d * (high + 1));
    }
}

/// Dividing a value that is not negative by a positive integer keeps it
/// between zero and itself.
pub proof fn lemma_quotient_bound(a: int, d: int)
    by (nonlinear_arith)
    requires
        0 <= a,
        d >= 1,
    ensures
        0 <= a / d <= a,
{
    assert(a == d * (a / d) + a % d && 0 <= a % d < d);
    if a / d > a {
        assert(d * (a / d) >= d * (a + 1));
    }
    if a / d < 0 {
        assert(d * (a / d) <= -d);
    }
}

/// A quotient is at least an integer whose multiple of the divisor the
/// dividend reaches.
pub proof fn lemma_quotient_at_least(n: int, d: int, low: int)
    by (nonlinear_arith)
    requires
        d > 0,
        low * d <= n,
    ensures
        low <= n / d,
{
    assert(n == d * (n / d) + n % d && 0 <= n % d < d);
    if n / d < low {
        assert(d * (n / d) <= d * (low - 1));
    }
}

/// Scaling a value that is not negative by a factor of at least one does not
/// shrink it.
pub proof fn lemma_scaled_product_grows(a: int, f: int)
    requires
        a >= 0,
        f >= SCALE,
    ensures
        trunc_quot(a * f, SCALE as int) == (a * f) / (SCALE as int),
        (a * f) / (SCALE as int) >= a,
{
    assert(a * f >= a * SCALE && a * f >= 0) by (nonlinear_arith)
        requires
            a >= 0,
            f >= SCALE,
            SCALE > 0,
    ;
    lemma_trunc_quot_nonneg(a * f, SCALE as int);
    assert((a * f) / (SCALE as int) >= a) by (nonlinear_arith)
        requires
            a * f >= a * SCALE,
            SCALE * ((a * f) / (SCALE as int)) <= a * f < SCALE * ((a * f) / (SCALE as int))
                + SCALE,
            SCALE > 0,
    ;
}

/// Scaling a value that is not negative by a factor between zero and one
/// keeps it between zero and itself.
pub proof fn lemma_scaled_product_shrinks(a: int, f: int)
    requires
        a >= 0,
        0 <= f <= SCALE,
    ensures
        trunc_quot(a * f, SCALE as int) == (a * f) / (SCALE as int),
        0 <= (a * f) / (SCALE as int) <= a,
{
    assert(0 <= a * f <= a * SCALE) by (nonlinear_arith)
        requires
            a >= 0,
            0 <= f <= SCALE,
    ;
    lemma_trunc_quot_nonneg(a * f, SCALE as int);
    assert((a * f) / (SCALE as int) <= a) by (nonlinear_arith)
        requires
            a * f <= a * SCALE,
            SCALE * ((a * f) / (SCALE as int)) <= a * f,
            SCALE > 0,
    ;
}

/// Scaled by a factor that is not negative, the larger of two values that are
/// not negative stays the larger.
pub proof fn lemma_scaled_product_monotone(a: int, c: int, f: int)
    requires
        0 <= a <= c,
        f >= 0,
    ensures
        0 <= (a * f) / (SCALE as int) <= (c * f) / (SCALE as int),
{
    assert(0 <= a * f <= c * f) by (nonlinear_arith)
        requires
            0 <= a <= c,
            f >= 0,
    ;
    lemma_trunc_quot_nonneg(a * f, SCALE as int);
    lemma_trunc_quot_nonneg(c * f, SCALE as int);
    let qa = (a * f) / (SCALE as int);
    let qc = (c * f) / (SCALE as int);
    assert(qa <= qc) by (nonlinear_arith)
        requires
            SCALE * qa <= a * f,
            a * f <= c * f,
            c * f < SCALE * qc + SCALE,
            SCALE > 0,
    ;
}

/// Scaled by a factor of at least one, two values that are not negative end
/// at least as far apart as they started.
pub proof fn lemma_scaled_product_gap(a: int, c: int, f: int)
    requires
        0 <= a <= c,
        f >= SCALE,
    ensures
        (c * f) / (SCALE as int) - (a * f) / (SCALE as int) >= c - a,
{
    assert(0 <= a * f && c * f >= a * f + (c - a) * SCALE) by (nonlinear_arith)
        requires
            0 <= a <= c,
            f >= SCALE,
            SCALE > 0,
    ;
    lemma_trunc_quot_nonneg(a * f, SCALE as int);
    lemma_trunc_quot_nonneg(c * f, SCALE as int);
    let qa = (a * f) / (SCALE as int);
    let qc = (c * f) / (SCALE as int);
    assert(qc - qa >= c - a) by (nonlinear_arith)
        requires
            SCALE * qa <= a * f,
            c * f >= a * f + (c - a) * SCALE,
            c * f < SCALE * qc + SCALE,
            SCALE > 0,
    ;
}

} // verus!
