//! Whole-number powers of a decimal.

use crate::decimal::{num_mul, Decimal, LIMIT, SCALE};
use crate::rounding::{
    lemma_quotient_at_least, lemma_quotient_between, lemma_scaled_product_grows,
    lemma_trunc_quot_nonneg,
};
use vstd::arithmetic::power::{
    lemma0_pow, lemma_pow0, lemma_pow1, lemma_pow_adds, lemma_pow_positive, pow,
};
use vstd::prelude::*;

verus! {

/// `base` raised to the whole power `exp` by repeated squaring, each product
/// rounded toward zero. The power zero is one for every base.
pub open spec fn num_powi(base: Option<int>, exp: nat) -> Option<int>
    decreases exp,
{
    if exp == 0 {
        Some(SCALE as int)
    } else {
        let half = num_powi(base, exp / 2);
        let square = num_mul(half, half);
        if exp % 2 == 0 {
            square
        } else {
            num_mul(square, base)
        }
    }
}

impl Decimal {
    /// `self` raised to the whole power `exp`.
    pub fn powi(self, exp: u64) -> (r: Decimal)
        ensures
            r@ == num_powi(self@, exp as nat),
        decreases exp,
    {
        if exp == 0 {
            Decimal::one()
        } else {
            let half = self.powi(exp / 2);
            let square = half.mul(half);
            if exp % 2 == 0 {
                square
            } else {
                square.mul(self)
            }
        }
    }
}

/// A whole power of a base of at least one is at least one, and from the
/// first power on at least the base.
pub proof fn lemma_powi_at_least_one(base: int, exp: nat)
    requires
        base >= SCALE,
    ensures
        num_powi(Some(base), exp) matches Some(v) ==> v >= SCALE && (exp >= 1 ==> v >= base),
    decreases exp,
{
    if exp > 0 {
        lemma_powi_at_least_one(base, exp / 2);
        if let Some(h) = num_powi(Some(base), exp / 2) {
            lemma_scaled_product_grows(h, h);
            if let Some(square) = num_mul(Some(h), Some(h)) {
                lemma_scaled_product_grows(square, base);
                if exp / 2 == 0 {
                    assert(exp == 1);
                    assert(h == SCALE);
                    assert(h * h == SCALE * SCALE) by (nonlinear_arith)
                        requires
                            h == SCALE,
                    ;
                    assert(square == SCALE);
                    assert(square * base == SCALE * base) by (nonlinear_arith)
                        requires
                            square == SCALE,
                    ;
                }
            }
        }
    }
}

/// Squares keep the order of values that are not negative.
proof fn lemma_square_order(a: int, b: int)
    by (nonlinear_arith)
    requires
        0 <= a <= b,
    ensures
        a * a <= b * b,
{
}

/// The step of the proof that rounding down never passes the exact power:
/// from `h <= b / a` in the scaled sense to `h^2 / s <= b^2 / a^2`.
proof fn lemma_rounded_square_below(h: int, square: int, a: int, b: int, s: int)
    by (nonlinear_arith)
    requires
        s > 0,
        a >= 1,
        0 <= h,
        0 <= b,
        h * a <= b * s,
        0 <= square,
        square * s <= h * h,
    ensures
        square * (a * a) <= (b * b) * s,
{
    lemma_square_order(h * a, b * s);
    assert((h * a) * (h * a) == (h * h) * (a * a));
    assert((b * s) * (b * s) == ((b * b) * s) * s);
    assert((square * s) * (a * a) <= (h * h) * (a * a));
    assert((square * (a * a)) * s <= ((b * b) * s) * s);
}

/// The step for one more factor: from `square <= b2 / a2` in the scaled
/// sense to `square * x / s <= b2 * x / (a2 * s)`.
proof fn lemma_rounded_product_below(square: int, v: int, x: int, a2: int, b2: int, s: int)
    by (nonlinear_arith)
    requires
        s > 0,
        a2 >= 1,
        0 <= x,
        0 <= square,
        0 <= v,
        square * a2 <= b2 * s,
        v * s <= square * x,
    ensures
        v * (s * a2) <= (x * b2) * s,
{
    assert((v * s) * a2 <= (square * x) * a2);
    assert((square * a2) * x <= (b2 * s) * x);
}

/// Rounding down never passes the exact power. For a base that is not
/// negative, the rounded power `v` of the base `x` satisfies
/// `v / 10^18 <= (x / 10^18)^exp`, stated without fractions.
pub proof fn lemma_powi_at_most_exact(base: int, exp: nat)
    requires
        base >= 0,
    ensures
        num_powi(Some(base), exp) matches Some(v) ==> 0 <= v && v * pow(SCALE as int, exp) <= pow(
            base,
            exp,
        ) * SCALE,
    decreases exp,
{
    let s = SCALE as int;
    if exp == 0 {
        lemma_pow0(s);
        lemma_pow0(base);
    } else {
        let m = exp / 2;
        lemma_powi_at_most_exact(base, m);
        if let Some(h) = num_powi(Some(base), m) {
            let a = pow(s, m);
            let b = pow(base, m);
            lemma_pow_positive(s, m);
            if base > 0 {
                lemma_pow_positive(base, m);
            } else if m > 0 {
                lemma0_pow(m);
            } else {
                lemma_pow0(base);
            }
            lemma_pow_adds(s, m, m);
            lemma_pow_adds(base, m, m);
            assert(h * h >= 0) by (nonlinear_arith);
            lemma_trunc_quot_nonneg(h * h, s);
            if let Some(square) = num_mul(Some(h), Some(h)) {
                assert(square * s <= h * h) by (nonlinear_arith)
                    requires
                        s * square <= h * h,
                ;
                lemma_rounded_square_below(h, square, a, b, s);
                if exp % 2 == 1 {
                    assert(square * base >= 0) by (nonlinear_arith)
                        requires
                            square >= 0,
                            base >= 0,
                    ;
                    lemma_trunc_quot_nonneg(square * base, s);
                    if let Some(v) = num_mul(Some(square), Some(base)) {
                        assert(v * s <= square * base) by (nonlinear_arith)
                            requires
                                s * v <= square * base,
                        ;
                        assert(a * a >= 1) by (nonlinear_arith)
                            requires
                                a >= 1,
                        ;
                        lemma_rounded_product_below(square, v, base, a * a, b * b, s);
                        lemma_pow_adds(s, 1, m + m);
                        lemma_pow_adds(base, 1, m + m);
                        lemma_pow1(s);
                        lemma_pow1(base);
                    }
                }
            }
        }
    }
}

/// The step of the proof that rounding down loses little: squaring.
proof fn lemma_rounded_square_above(h: int, square: int, a: int, b: int, s: int, m: int)
    by (nonlinear_arith)
    requires
        s > 0,
        1 <= a <= b,
        1 <= m <= s,
        0 <= h,
        h * a >= b * (s - (m - 1)),
        s * square <= h * h < s * square + s,
    ensures
        square * (a * a) >= (b * b) * (s - (2 * m - 1)),
{
    let low = b * (s - (m - 1));
    assert(low >= 0);
    lemma_square_order(low, h * a);
    assert((h * a) * (h * a) == (h * h) * (a * a));
    assert(low * low == (b * b) * ((s - (m - 1)) * (s - (m - 1))));
    assert((s - (m - 1)) * (s - (m - 1)) == s * (s - (2 * m - 1)) + s + (m - 1) * (m - 1));
    assert((b * b) * (s + (m - 1) * (m - 1)) >= (a * a) * s) by {
        lemma_square_order(a, b);
        assert((b * b) * s >= (a * a) * s);
        assert((b * b) * ((m - 1) * (m - 1)) >= 0);
    }
    assert((s * square) * (a * a) >= (h * h) * (a * a) - s * (a * a));
    assert((h * h) * (a * a) >= (b * b) * (s * (s - (2 * m - 1))) + (b * b) * (s + (m - 1) * (m
        - 1)));
    assert(s * (square * (a * a)) >= s * ((b * b) * (s - (2 * m - 1))));
}

/// The step of the proof that rounding down loses little: one more factor.
proof fn lemma_rounded_product_above(
    square: int,
    v: int,
    x: int,
    a2: int,
    b2: int,
    s: int,
    k: int,
)
    by (nonlinear_arith)
    requires
        s > 0,
        1 <= a2 <= b2,
        s <= x,
        0 <= square,
        square * a2 >= b2 * (s - (k - 1)),
        s * v <= square * x < s * v + s,
    ensures
        v * (s * a2) >= (x * b2) * (s - k),
{
    assert((square * a2) * x >= (b2 * (s - (k - 1))) * x);
    assert((s * v) * a2 >= (square * x) * a2 - s * a2);
    assert(x * b2 >= s * a2) by {
        assert(x * b2 >= s * b2);
        assert(s * b2 >= s * a2);
    }
    assert((b2 * (s - (k - 1))) * x == (x * b2) * (s - k) + x * b2);
}

/// Rounding down loses little. For a base of at least one and an exponent
/// from one to 10^18, the rounded power `v` is at least the exact power less
/// `exp - 1` parts in 10^18 of it:
/// `v / 10^18 >= (base / 10^18)^exp * (1 - (exp - 1) / 10^18)`, stated
/// without fractions.
pub proof fn lemma_powi_nearly_exact(base: int, exp: nat)
    requires
        base >= SCALE,
        1 <= exp <= SCALE,
    ensures
        num_powi(Some(base), exp) matches Some(v) ==> v * pow(SCALE as int, exp) >= pow(
            base,
            exp,
        ) * (SCALE - (exp - 1)),
    decreases exp,
{
    let s = SCALE as int;
    let m = exp / 2;
    lemma_pow1(s);
    lemma_pow1(base);
    if exp == 1 {
        lemma_powi_at_least_one(base, 0);
        assert(num_powi(Some(base), 1) == num_mul(
            num_mul(num_powi(Some(base), 0), num_powi(Some(base), 0)),
            Some(base),
        ));
        assert(s * s / s == s) by {
            lemma_quotient_between(s * s, s, s, s);
        }
        assert(s * base / s == base && s * base >= 0) by {
            assert(s * base == base * s && s * base >= 0) by (nonlinear_arith)
                requires
                    base >= s,
                    s > 0,
            ;
            lemma_quotient_between(s * base, s, base, base);
        }
        if let Some(v) = num_powi(Some(base), 1) {
            assert(v == base);
            assert(v * s >= base * (s - 0)) by (nonlinear_arith)
                requires
                    v == base,
            ;
        }
    } else {
        lemma_powi_nearly_exact(base, m);
        lemma_powi_at_least_one(base, m);
        if let Some(h) = num_powi(Some(base), m) {
            let a = pow(s, m);
            let b = pow(base, m);
            lemma_pow_base_order(s, base, m);
            lemma_pow_positive(s, m);
            lemma_pow_adds(s, m, m);
            lemma_pow_adds(base, m, m);
            assert(h * h >= 0) by (nonlinear_arith);
            lemma_trunc_quot_nonneg(h * h, s);
            if let Some(square) = num_mul(Some(h), Some(h)) {
                lemma_rounded_square_above(h, square, a, b, s, m as int);
                if exp % 2 == 1 {
                    assert(square * base >= 0) by (nonlinear_arith)
                        requires
                            square >= 0,
                            base >= 0,
                    ;
                    lemma_trunc_quot_nonneg(square * base, s);
                    if let Some(v) = num_mul(Some(square), Some(base)) {
                        lemma_square_order(a, b);
                        assert(a * a >= 1) by (nonlinear_arith)
                            requires
                                a >= 1,
                        ;
                        lemma_rounded_product_above(
                            square,
                            v,
                            base,
                            a * a,
                            b * b,
                            s,
                            2 * m as int,
                        );
                        lemma_pow_adds(s, 1, m + m);
                        lemma_pow_adds(base, 1, m + m);
                    }
                }
            }
        }
    }
}

/// A power grows with its base, for bases that are not negative.
proof fn lemma_pow_base_order(a: int, b: int, e: nat)
    requires
        0 <= a <= b,
    ensures
        0 <= pow(a, e) <= pow(b, e),
    decreases e,
{
    if e == 0 {
        lemma_pow0(a);
        lemma_pow0(b);
    } else {
        lemma_pow_base_order(a, b, (e - 1) as nat);
        lemma_pow_adds(a, 1, (e - 1) as nat);
        lemma_pow_adds(b, 1, (e - 1) as nat);
        lemma_pow1(a);
        lemma_pow1(b);
        assert(a * pow(a, (e - 1) as nat) <= b * pow(b, (e - 1) as nat)) by (nonlinear_arith)
            requires
                0 <= a <= b,
                0 <= pow(a, (e - 1) as nat) <= pow(b, (e - 1) as nat),
        ;
        assert(0 <= a * pow(a, (e - 1) as nat)) by (nonlinear_arith)
            requires
                0 <= a,
                0 <= pow(a, (e - 1) as nat),
        ;
    }
}

/// For a base of at least one, a lower power is the smaller one, in the
/// scaled sense: `(x / s)^low <= (x / s)^high`.
proof fn lemma_scaled_power_order(x: int, s: int, low: nat, high: nat)
    requires
        1 <= s <= x,
        low <= high,
    ensures
        pow(x, low) * pow(s, high) <= pow(x, high) * pow(s, low),
        pow(s, low) >= 1,
        pow(x, low) >= 1,
{
    let rest = (high - low) as nat;
    lemma_pow_adds(x, low, rest);
    lemma_pow_adds(s, low, rest);
    lemma_pow_base_order(s, x, rest);
    lemma_pow_positive(s, low);
    lemma_pow_positive(x, low);
    lemma_pow_positive(s, rest);
    let xl = pow(x, low);
    let sl = pow(s, low);
    let xr = pow(x, rest);
    let sr = pow(s, rest);
    assert(xl * (sl * sr) <= (xl * xr) * sl) by (nonlinear_arith)
        requires
            xl >= 1,
            sl >= 1,
            0 <= sr <= xr,
    ;
}

/// A whole power of a base of at least one is a number whenever the exact
/// power is within the range of a decimal:
/// `(base / 10^18)^exp <= 10^18`, stated without fractions.
pub proof fn lemma_powi_finite(base: int, exp: nat)
    requires
        base >= SCALE,
        pow(base, exp) * SCALE <= LIMIT * pow(SCALE as int, exp),
    ensures
        num_powi(Some(base), exp) is Some,
    decreases exp,
{
    let s = SCALE as int;
    if exp > 0 {
        let m = exp / 2;
        let full = pow(s, exp);
        let exact = pow(base, exp);
        // The halved power is within range, so it is a number.
        lemma_scaled_power_order(base, s, m, exp);
        lemma_pow_positive(s, exp);
        assert(pow(base, m) * SCALE <= LIMIT * pow(s, m)) by (nonlinear_arith)
            requires
                pow(base, m) * full <= exact * pow(s, m),
                exact * SCALE <= LIMIT * full,
                full >= 1,
                pow(s, m) >= 1,
                SCALE > 0,
        {
            assert((pow(base, m) * SCALE) * full <= (exact * SCALE) * pow(s, m));
            assert((exact * SCALE) * pow(s, m) <= (LIMIT * full) * pow(s, m));
            assert((pow(base, m) * SCALE) * full <= (LIMIT * pow(s, m)) * full);
        }
        lemma_powi_finite(base, m);
        lemma_powi_at_most_exact(base, m);
        lemma_powi_at_least_one(base, m);
        let h = num_powi(Some(base), m)->0;
        let a = pow(s, m);
        let b = pow(base, m);
        assert(h * h >= 0) by (nonlinear_arith);
        lemma_trunc_quot_nonneg(h * h, s);
        let square = (h * h) / s;
        assert(square * s <= h * h) by (nonlinear_arith)
            requires
                s * square <= h * h,
        ;
        lemma_rounded_square_below(h, square, a, b, s);
        lemma_pow_adds(s, m, m);
        lemma_pow_adds(base, m, m);
        lemma_scaled_power_order(base, s, m + m, exp);
        assert(square <= LIMIT) by (nonlinear_arith)
            requires
                square * (a * a) <= (b * b) * s,
                (b * b) * full <= exact * (a * a),
                exact * s <= LIMIT * full,
                a * a >= 1,
                full >= 1,
                s > 0,
                square >= 0,
        {
            assert((square * (a * a)) * full <= ((b * b) * s) * full);
            assert(((b * b) * full) * s <= (exact * (a * a)) * s);
            assert((exact * s) * (a * a) <= (LIMIT * full) * (a * a));
            assert((square * full) * (a * a) <= (LIMIT * full) * (a * a));
            assert(square * full <= LIMIT * full);
        }
        if exp % 2 == 1 {
            assert(square * base >= 0) by (nonlinear_arith)
                requires
                    square >= 0,
                    base >= 0,
            ;
            lemma_trunc_quot_nonneg(square * base, s);
            let v = (square * base) / s;
            assert(v * s <= square * base) by (nonlinear_arith)
                requires
                    s * v <= square * base,
            ;
            lemma_rounded_product_below(square, v, base, a * a, b * b, s);
            lemma_pow_adds(s, 1, m + m);
            lemma_pow_adds(base, 1, m + m);
            lemma_pow1(s);
            lemma_pow1(base);
            assert(v <= LIMIT) by (nonlinear_arith)
                requires
                    v * full <= exact * s,
                    exact * s <= LIMIT * full,
                    full >= 1,
            ;
        }
    }
}

/// Compounding beats simple interest: a whole power of one plus a rate that
/// is not negative is at least one plus the rate times the exponent, the
/// rounding of every product included.
pub proof fn lemma_powi_bernoulli(rate: int, exp: nat)
    requires
        rate >= 0,
    ensures
        num_powi(Some(SCALE + rate), exp) matches Some(v) ==> v >= SCALE + exp * rate,
    decreases exp,
{
    if exp == 0 {
        assert(exp * rate == 0) by (nonlinear_arith)
            requires
                exp == 0,
        ;
    } else {
        let base = SCALE + rate;
        let m = exp / 2;
        lemma_powi_bernoulli(rate, m);
        if let Some(h) = num_powi(Some(base), m) {
            let low = SCALE + 2 * m * rate;
            assert(h * h >= low * SCALE && h * h >= 0) by (nonlinear_arith)
                requires
                    h >= SCALE + m * rate,
                    low == SCALE + 2 * m * rate,
                    rate >= 0,
                    m >= 0,
                    SCALE > 0,
            ;
            lemma_trunc_quot_nonneg(h * h, SCALE as int);
            lemma_quotient_at_least(h * h, SCALE as int, low);
            if let Some(square) = num_mul(Some(h), Some(h)) {
                if exp % 2 == 1 {
                    assert(square * base >= (low + rate) * SCALE && square * base >= 0)
                        by (nonlinear_arith)
                        requires
                            square >= low,
                            low == SCALE + 2 * m * rate,
                            base == SCALE + rate,
                            rate >= 0,
                            m >= 0,
                            SCALE > 0,
                    ;
                    lemma_trunc_quot_nonneg(square * base, SCALE as int);
                    lemma_quotient_at_least(square * base, SCALE as int, low + rate);
                    assert(low + rate == SCALE + exp * rate) by (nonlinear_arith)
                        requires
                            low == SCALE + 2 * m * rate,
                            exp == 2 * m + 1,
                    ;
                } else {
                    assert(low == SCALE + exp * rate) by (nonlinear_arith)
                        requires
                            low == SCALE + 2 * m * rate,
                            exp == 2 * m,
                    ;
                }
            }
        }
    }
}

/// Every power of not-a-number but the power zero is not a number.
pub proof fn lemma_powi_of_nan(exp: nat)
    requires
        exp >= 1,
    ensures
        num_powi(None, exp) is None,
    decreases exp,
{
    if exp >= 2 {
        lemma_powi_of_nan(exp / 2);
    }
}

} // verus!
