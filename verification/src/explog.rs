//! Natural logarithm, exponential and real powers of a decimal.
//!
//! Both functions reduce their argument by powers of two and sum a fixed
//! number of terms of a power series in integer arithmetic, each quotient
//! rounded down. The model functions below say which integer comes out.

use crate::decimal::{
    checked, magnitude, num_div, num_int, num_mul, Decimal, LIMIT, SCALE,
};
use crate::power::{lemma_powi_at_least_one, lemma_powi_of_nan, num_powi};
use crate::rounding::{
    lemma_quotient_at_least, lemma_quotient_between, lemma_quotient_bound,
    lemma_scaled_product_grows, lemma_trunc_quot_nonneg,
};
use vstd::prelude::*;

verus! {

/// The natural logarithm of two, rounded down to eighteen places.
pub const LN2: i128 = 693_147_180_559_945_309;

/// Terms summed of the series of the inverse hyperbolic tangent.
pub const LN_TERMS: u32 = 20;

/// Terms summed of the exponential series.
pub const EXP_TERMS: u32 = 24;

/// `v` halved, rounding down, until it is below two.
pub open spec fn halved(v: int) -> int
    decreases v,
{
    if v >= 2 * SCALE {
        halved(v / 2)
    } else {
        v
    }
}

/// How often `v` is halved until it is below two.
pub open spec fn halvings(v: int) -> int
    decreases v,
{
    if v >= 2 * SCALE {
        1 + halvings(v / 2)
    } else {
        0
    }
}

/// A positive `v` doubled until it is at least one.
pub open spec fn doubled(v: int) -> int
    decreases 2 * SCALE - v,
{
    if 0 < v < SCALE {
        doubled(2 * v)
    } else {
        v
    }
}

/// How often a positive `v` is doubled until it is at least one.
pub open spec fn doublings(v: int) -> int
    decreases 2 * SCALE - v,
{
    if 0 < v < SCALE {
        1 + doublings(2 * v)
    } else {
        0
    }
}

/// The terms `index..terms` of `z + z^3/3 + z^5/5 + ..`, where `power` is
/// `z^(2 index + 1)` and `square` is `z^2`.
pub open spec fn atanh_sum(power: int, square: int, index: nat, terms: nat) -> int
    decreases terms - index,
{
    if index >= terms {
        0
    } else {
        power / (2 * index + 1) as int + atanh_sum(
            power * square / (SCALE as int),
            square,
            index + 1,
            terms,
        )
    }
}

/// Raw logarithm of the raw value `v > 0`: with `v = m * 2^k` and `m` in
/// `[1, 2)`, it is `k ln 2 + 2 atanh((m - 1) / (m + 1))`.
pub open spec fn ln_raw(v: int) -> int {
    let m = if v >= SCALE {
        halved(v)
    } else {
        doubled(v)
    };
    let k = if v >= SCALE {
        halvings(v)
    } else {
        -doublings(v)
    };
    let z = (m - SCALE) * SCALE / (m + SCALE);
    k * LN2 + 2 * atanh_sum(z, z * z / (SCALE as int), 0, LN_TERMS as nat)
}

/// Natural logarithm; not a number for zero, a negative value or not-a-number.
pub open spec fn num_ln(x: Option<int>) -> Option<int> {
    match x {
        Some(v) => if v > 0 {
            checked(ln_raw(v))
        } else {
            None
        },
        None => None,
    }
}

/// The terms `index..terms` of `1 + f + f^2/2! + ..`, where `term` is
/// `f^index / index!`.
pub open spec fn exp_sum(term: int, f: int, index: nat, terms: nat) -> int
    decreases terms - index,
{
    if index >= terms {
        0
    } else {
        term + exp_sum(term * f / (SCALE as int) / (index + 1) as int, f, index + 1, terms)
    }
}

/// `v` doubled `k` times, or not a number once it passes the limit.
pub open spec fn scale_up(v: int, k: nat) -> Option<int>
    decreases k,
{
    if k == 0 {
        Some(v)
    } else if 2 * v > LIMIT {
        None
    } else {
        scale_up(2 * v, (k - 1) as nat)
    }
}

/// `v` halved `k` times, rounding down.
pub open spec fn scale_down(v: int, k: nat) -> int
    decreases k,
{
    if k == 0 || v == 0 {
        v
    } else {
        scale_down(v / 2, (k - 1) as nat)
    }
}

/// Raw exponential of the raw value `y`: with `y = k ln 2 + f` and `f` in
/// `[0, ln 2)`, it is `2^k` times the series of `e^f`.
pub open spec fn exp_raw(y: int) -> Option<int> {
    let k = y / (LN2 as int);
    let f = y % (LN2 as int);
    let series = exp_sum(SCALE as int, f, 0, EXP_TERMS as nat);
    if k >= 0 {
        scale_up(series, k as nat)
    } else {
        Some(scale_down(series, (-k) as nat))
    }
}

/// Exponential function; not a number when the result passes the limit.
pub open spec fn num_exp(y: Option<int>) -> Option<int> {
    match y {
        Some(v) => exp_raw(v),
        None => None,
    }
}

/// `base` raised to a power `exp >= 0`: the whole part of the exponent by
/// repeated squaring, times `e^(fraction * ln base)` where the exponent has a
/// fraction. Zero to a power with a fraction is zero.
pub open spec fn pow_nonneg(base: Option<int>, exp: int) -> Option<int> {
    let whole = num_powi(base, (exp / (SCALE as int)) as nat);
    let fraction = exp % (SCALE as int);
    if fraction == 0 {
        whole
    } else if base == Some(0int) {
        Some(0)
    } else {
        num_mul(whole, num_exp(num_mul(Some(fraction), num_ln(base))))
    }
}

/// `base` raised to the power `exp`; a negative power is the reciprocal of
/// the positive one.
pub open spec fn num_pow(base: Option<int>, exp: Option<int>) -> Option<int> {
    match exp {
        Some(e) => if e >= 0 {
            pow_nonneg(base, e)
        } else {
            num_div(Some(SCALE as int), pow_nonneg(base, -e))
        },
        None => None,
    }
}

impl Decimal {
    /// Natural logarithm.
    pub fn ln(self) -> (r: Decimal)
        ensures
            r@ == num_ln(self@),
    {
        match self.raw() {
            Some(v) => {
                if v <= 0 {
                    return Decimal::nan();
                }
                let (m, k) = if v >= SCALE {
                    proof {
                        lemma_halved_bounds(v as int);
                    }
                    reduce_down(v)
                } else {
                    proof {
                        lemma_doubled_bounds(v as int);
                    }
                    let (m, k) = reduce_up(v);
                    (m, -k)
                };
                proof {
                    lemma_scaled_product_bound(m - SCALE, SCALE as int, SCALE as int);
                }
                let z: i128 = (m - SCALE) * SCALE / (m + SCALE);
                proof {
                    assert(0 <= z <= SCALE) by (nonlinear_arith)
                        requires
                            z == ((m - SCALE) * SCALE) / (m + SCALE),
                            SCALE <= m < 2 * SCALE,
                            SCALE > 0,
                    {
                        let n = (m - SCALE) * SCALE;
                        let d = m + SCALE;
                        assert(n == d * (n / d) + n % d && 0 <= n % d < d);
                        assert(n <= d * SCALE);
                        if n / d > SCALE {
                            assert(d * (n / d) >= d * (SCALE + 1));
                        }
                        if n / d < 0 {
                            assert(d * (n / d) <= -d);
                        }
                    }
                    lemma_scaled_product_bound(z as int, z as int, SCALE as int);
                    assert(-SCALE * LN2 <= k * LN2 <= SCALE * LN2) by (nonlinear_arith)
                        requires
                            -SCALE <= k <= SCALE,
                            LN2 > 0,
                    ;
                }
                let square: i128 = z * z / SCALE;
                let sum: i128 = atanh_series(z, square, 0);
                Decimal::from_raw(k * LN2 + 2 * sum)
            },
            None => Decimal::nan(),
        }
    }

    /// Exponential function.
    pub fn exp(self) -> (r: Decimal)
        ensures
            r@ == num_exp(self@),
    {
        match self.raw() {
            Some(y) => {
                let (k, f) = if y >= 0 {
                    (y / LN2, y % LN2)
                } else {
                    let q: i128 = (-y) / LN2;
                    let rest: i128 = (-y) % LN2;
                    if rest == 0 {
                        (-q, 0)
                    } else {
                        (-q - 1, LN2 - rest)
                    }
                };
                proof {
                    vstd::arithmetic::div_mod::lemma_fundamental_div_mod(
                        magnitude(y as int),
                        LN2 as int,
                    );
                    assert(y == k * LN2 + f) by (nonlinear_arith)
                        requires
                            magnitude(y as int) == LN2 * (magnitude(y as int) / (LN2 as int))
                                + magnitude(y as int) % (LN2 as int),
                            y >= 0 ==> k == y / LN2 && f == y % LN2,
                            y < 0 && (-y) % (LN2 as int) == 0 ==> k == -((-y) / (LN2 as int)) && f
                                == 0,
                            y < 0 && (-y) % (LN2 as int) != 0 ==> k == -((-y) / (LN2 as int)) - 1
                                && f == LN2 - (-y) % (LN2 as int),
                    ;
                    vstd::arithmetic::div_mod::lemma_fundamental_div_mod_converse(
                        y as int,
                        LN2 as int,
                        k as int,
                        f as int,
                    );
                }
                let series: i128 = exp_series(SCALE, f, 0);
                if k >= 0 {
                    match double_times(series, k) {
                        Some(w) => Decimal::from_raw(w),
                        None => Decimal::nan(),
                    }
                } else {
                    Decimal::from_raw(halve_times(series, -k))
                }
            },
            None => Decimal::nan(),
        }
    }

    /// `self` raised to the power `exp >= 0`, given as a raw value.
    fn pow_raw(self, exp: i128) -> (r: Decimal)
        requires
            0 <= exp <= LIMIT,
        ensures
            r@ == pow_nonneg(self@, exp as int),
    {
        let whole = self.powi((exp / SCALE) as u64);
        let fraction: i128 = exp % SCALE;
        if fraction == 0 {
            whole
        } else {
            let is_zero = match self.raw() {
                Some(v) => v == 0,
                None => false,
            };
            if is_zero {
                Decimal::zero()
            } else {
                whole.mul(Decimal::from_raw(fraction).mul(self.ln()).exp())
            }
        }
    }

    /// `self` raised to the power `exp`.
    pub fn pow(self, exp: Decimal) -> (r: Decimal)
        ensures
            r@ == num_pow(self@, exp@),
    {
        match exp.raw() {
            Some(e) => {
                if e >= 0 {
                    self.pow_raw(e)
                } else {
                    Decimal::one().div(self.pow_raw(-e))
                }
            },
            None => Decimal::nan(),
        }
    }
}

/// Halves `v` until it is below two and counts the halvings.
fn reduce_down(v: i128) -> (r: (i128, i128))
    requires
        SCALE <= v <= LIMIT,
    ensures
        r.0 == halved(v as int),
        r.1 == halvings(v as int),
    decreases v,
{
    if v >= 2 * SCALE {
        proof {
            lemma_halved_bounds(v as int / 2);
        }
        let (m, k) = reduce_down(v / 2);
        (m, k + 1)
    } else {
        (v, 0)
    }
}

/// Doubles `v` until it is at least one and counts the doublings.
fn reduce_up(v: i128) -> (r: (i128, i128))
    requires
        0 < v < SCALE,
    ensures
        r.0 == doubled(v as int),
        r.1 == doublings(v as int),
    decreases 2 * SCALE - v,
{
    if 2 * v < SCALE {
        proof {
            lemma_doubled_bounds(2 * v as int);
        }
        let (m, k) = reduce_up(2 * v);
        (m, k + 1)
    } else {
        assert(doubled(2 * v as int) == 2 * v);
        assert(doublings(2 * v as int) == 0);
        (2 * v, 1)
    }
}

proof fn lemma_scaled_product_bound(a: int, b: int, s: int)
    by (nonlinear_arith)
    requires
        0 <= a <= s,
        0 <= b <= s,
        s > 0,
    ensures
        0 <= a * b <= s * s,
        0 <= a * b / s <= a,
        a * b / s <= b,
{
    assert(a * b <= a * s);
    assert(a * b <= s * b);
    let p = a * b;
    assert(p == s * (p / s) + p % s && 0 <= p % s < s);
    if p / s > a {
        assert(s * (p / s) >= s * (a + 1));
    }
    if p / s > b {
        assert(s * (p / s) >= s * (b + 1));
    }
    if p / s < 0 {
        assert(s * (p / s) <= -s);
    }
}

/// Sums the terms `index..LN_TERMS` of the inverse hyperbolic tangent.
fn atanh_series(power: i128, square: i128, index: u32) -> (r: i128)
    requires
        0 <= power <= SCALE,
        0 <= square <= SCALE,
        index <= LN_TERMS,
    ensures
        r == atanh_sum(power as int, square as int, index as nat, LN_TERMS as nat),
        0 <= r <= (LN_TERMS - index) * SCALE,
    decreases LN_TERMS - index,
{
    if index >= LN_TERMS {
        0
    } else {
        proof {
            lemma_scaled_product_bound(power as int, square as int, SCALE as int);
            lemma_quotient_bound(power as int, (2 * index + 1) as int);
        }
        let next: i128 = power * square / SCALE;
        let term: i128 = power / ((2 * index + 1) as i128);
        term + atanh_series(next, square, index + 1)
    }
}

/// Sums the terms `index..EXP_TERMS` of the exponential series.
fn exp_series(term: i128, f: i128, index: u32) -> (r: i128)
    requires
        0 <= term <= SCALE,
        0 <= f <= SCALE,
        index <= EXP_TERMS,
    ensures
        r == exp_sum(term as int, f as int, index as nat, EXP_TERMS as nat),
        0 <= r <= (EXP_TERMS - index) * SCALE,
        index < EXP_TERMS ==> r >= term,
    decreases EXP_TERMS - index,
{
    if index >= EXP_TERMS {
        0
    } else {
        proof {
            lemma_scaled_product_bound(term as int, f as int, SCALE as int);
            lemma_quotient_bound(term * f / (SCALE as int), (index + 1) as int);
        }
        let next: i128 = term * f / SCALE / ((index + 1) as i128);
        term + exp_series(next, f, index + 1)
    }
}

/// Doubles `v` up to `k` times, stopping once it passes the limit.
fn double_times(v: i128, k: i128) -> (r: Option<i128>)
    requires
        0 < v <= LIMIT,
        k >= 0,
    ensures
        match r {
            Some(w) => scale_up(v as int, k as nat) == Some(w as int) && 0 < w <= LIMIT,
            None => scale_up(v as int, k as nat) is None,
        },
    decreases k,
{
    if k == 0 {
        Some(v)
    } else if 2 * v > LIMIT {
        None
    } else {
        double_times(2 * v, k - 1)
    }
}

/// Halves `v` up to `k` times, stopping at zero.
fn halve_times(v: i128, k: i128) -> (r: i128)
    requires
        0 <= v <= LIMIT,
        k >= 0,
    ensures
        r == scale_down(v as int, k as nat),
        0 <= r <= v,
    decreases k,
{
    if k == 0 || v == 0 {
        v
    } else {
        halve_times(v / 2, k - 1)
    }
}

/// A series of terms that are not negative is not negative, and at least
/// its first term.
proof fn lemma_exp_sum_lower(term: int, f: int, index: nat, terms: nat)
    requires
        term >= 0,
        f >= 0,
    ensures
        exp_sum(term, f, index, terms) >= 0,
        index < terms ==> exp_sum(term, f, index, terms) >= term,
    decreases terms - index,
{
    if index < terms {
        let next = term * f / (SCALE as int) / (index + 1) as int;
        assert(term * f >= 0) by (nonlinear_arith)
            requires
                term >= 0,
                f >= 0,
        ;
        lemma_trunc_quot_nonneg(term * f, SCALE as int);
        lemma_trunc_quot_nonneg(term * f / (SCALE as int), (index + 1) as int);
        lemma_exp_sum_lower(next, f, index + 1, terms);
    }
}

/// Doubling does not shrink a value that is not negative.
proof fn lemma_scale_up_lower(v: int, k: nat)
    requires
        v >= 0,
    ensures
        scale_up(v, k) matches Some(w) ==> w >= v,
    decreases k,
{
    if k > 0 && 2 * v <= LIMIT {
        lemma_scale_up_lower(2 * v, (k - 1) as nat);
    }
}

/// The exponential of a value that is not negative is at least one.
pub proof fn lemma_exp_at_least_one(y: int)
    requires
        y >= 0,
    ensures
        num_exp(Some(y)) matches Some(v) ==> v >= SCALE,
{
    let k = y / (LN2 as int);
    let f = y % (LN2 as int);
    lemma_trunc_quot_nonneg(y, LN2 as int);
    lemma_exp_sum_lower(SCALE as int, f, 0, EXP_TERMS as nat);
    lemma_scale_up_lower(exp_sum(SCALE as int, f, 0, EXP_TERMS as nat), k as nat);
}

/// Doubling `k` times multiplies by at least `k + 1`.
proof fn lemma_scale_up_product(v: int, k: nat)
    requires
        v >= 0,
    ensures
        scale_up(v, k) matches Some(w) ==> w >= v * (k + 1),
    decreases k,
{
    if k == 0 {
        assert(v * 1 == v);
    } else if 2 * v <= LIMIT {
        lemma_scale_up_product(2 * v, (k - 1) as nat);
        assert((2 * v) * k >= v * (k + 1)) by (nonlinear_arith)
            requires
                v >= 0,
                k >= 1,
        ;
    }
}

/// The exponential lies above its tangent at zero: for `y` that is not
/// negative, `e^y >= 1 + y`.
pub proof fn lemma_exp_above_tangent(y: int)
    requires
        y >= 0,
    ensures
        num_exp(Some(y)) matches Some(v) ==> v >= SCALE + y,
{
    let k = y / (LN2 as int);
    let f = y % (LN2 as int);
    lemma_trunc_quot_nonneg(y, LN2 as int);
    vstd::arithmetic::div_mod::lemma_fundamental_div_mod(y, LN2 as int);
    let series = exp_sum(SCALE as int, f, 0, EXP_TERMS as nat);
    let second = SCALE * f / (SCALE as int) / 1;
    assert(second == f) by {
        assert(SCALE * f == f * SCALE) by (nonlinear_arith);
        lemma_quotient_between(SCALE * f, SCALE as int, f, f);
    }
    assert(series == SCALE + exp_sum(second, f, 1, EXP_TERMS as nat));
    lemma_exp_sum_lower(second, f, 1, EXP_TERMS as nat);
    lemma_scale_up_product(series, k as nat);
    if let Some(w) = scale_up(series, k as nat) {
        assert(w >= SCALE + y) by (nonlinear_arith)
            requires
                w >= series * (k + 1),
                series >= SCALE + f,
                y == LN2 * k + f,
                k >= 0,
                f >= 0,
                SCALE >= LN2,
        {
            assert(series * (k + 1) >= (SCALE + f) * (k + 1));
            assert((SCALE + f) * (k + 1) >= SCALE + f + SCALE * k);
            assert(SCALE * k >= LN2 * k);
        }
    }
}

/// The exponential of zero is one.
pub proof fn lemma_exp_zero()
    ensures
        num_exp(Some(0int)) == Some(SCALE as int),
{
    lemma_exp_sum_of_zero(0, 1, EXP_TERMS as nat);
    assert(exp_sum(SCALE as int, 0, 0, EXP_TERMS as nat) == SCALE + exp_sum(
        0,
        0,
        1,
        EXP_TERMS as nat,
    ));
}

proof fn lemma_exp_sum_of_zero(f: int, index: nat, terms: nat)
    ensures
        exp_sum(0, f, index, terms) == 0,
    decreases terms - index,
{
    if index < terms {
        lemma_exp_sum_of_zero(f, index + 1, terms);
    }
}

/// A series of terms that are not negative is not negative.
proof fn lemma_atanh_sum_nonneg(power: int, square: int, index: nat, terms: nat)
    requires
        power >= 0,
        square >= 0,
    ensures
        atanh_sum(power, square, index, terms) >= 0,
    decreases terms - index,
{
    if index < terms {
        assert(power * square >= 0) by (nonlinear_arith)
            requires
                power >= 0,
                square >= 0,
        ;
        lemma_trunc_quot_nonneg(power * square, SCALE as int);
        lemma_trunc_quot_nonneg(power, (2 * index + 1) as int);
        lemma_atanh_sum_nonneg(power * square / (SCALE as int), square, index + 1, terms);
    }
}

proof fn lemma_atanh_sum_of_zero(square: int, index: nat, terms: nat)
    ensures
        atanh_sum(0, square, index, terms) == 0,
    decreases terms - index,
{
    if index < terms {
        lemma_atanh_sum_of_zero(square, index + 1, terms);
    }
}

/// The logarithm of a value of at least one is not negative.
pub proof fn lemma_ln_nonneg(v: int)
    requires
        v >= SCALE,
    ensures
        ln_raw(v) >= 0,
{
    lemma_halved_bounds(v);
    let m = halved(v);
    assert((m - SCALE) * SCALE >= 0) by (nonlinear_arith)
        requires
            m >= SCALE,
            SCALE > 0,
    ;
    lemma_trunc_quot_nonneg((m - SCALE) * SCALE, m + SCALE);
    let z = (m - SCALE) * SCALE / (m + SCALE);
    assert(z * z >= 0) by (nonlinear_arith);
    lemma_trunc_quot_nonneg(z * z, SCALE as int);
    lemma_atanh_sum_nonneg(z, z * z / (SCALE as int), 0, LN_TERMS as nat);
    assert(halvings(v) * LN2 >= 0) by (nonlinear_arith)
        requires
            halvings(v) >= 0,
            LN2 > 0,
    ;
}

/// A series of terms each at most one is at most the number of its terms.
proof fn lemma_atanh_sum_bound(power: int, square: int, index: nat, terms: nat)
    requires
        0 <= power <= SCALE,
        0 <= square <= SCALE,
        index <= terms,
    ensures
        0 <= atanh_sum(power, square, index, terms) <= (terms - index) * SCALE,
    decreases terms - index,
{
    if index < terms {
        lemma_scaled_product_bound(power, square, SCALE as int);
        lemma_quotient_bound(power, (2 * index + 1) as int);
        lemma_atanh_sum_bound(power * square / (SCALE as int), square, index + 1, terms);
    }
}

/// Every positive decimal has a logarithm: the result is a number.
pub proof fn lemma_ln_finite(v: int)
    requires
        0 < v <= LIMIT,
    ensures
        num_ln(Some(v)) is Some,
{
    let m = if v >= SCALE {
        halved(v)
    } else {
        doubled(v)
    };
    let k = if v >= SCALE {
        halvings(v)
    } else {
        -doublings(v)
    };
    if v >= SCALE {
        lemma_halved_bounds(v);
        lemma_quotient_bound(v, SCALE as int);
        lemma_quotient_between(v, SCALE as int, 0, SCALE as int);
    } else {
        lemma_doubled_bounds(v);
    }
    assert(0 <= (m - SCALE) * SCALE && (m - SCALE) * SCALE <= (m + SCALE) * SCALE)
        by (nonlinear_arith)
        requires
            SCALE <= m < 2 * SCALE,
            SCALE > 0,
    ;
    lemma_quotient_between((m - SCALE) * SCALE, m + SCALE, 0, SCALE as int);
    let z = (m - SCALE) * SCALE / (m + SCALE);
    lemma_scaled_product_bound(z, z, SCALE as int);
    lemma_atanh_sum_bound(z, z * z / (SCALE as int), 0, LN_TERMS as nat);
    assert(-SCALE * LN2 <= k * LN2 <= SCALE * LN2) by (nonlinear_arith)
        requires
            -SCALE <= k <= SCALE,
            LN2 > 0,
    ;
}

/// Halving `k` times divides by at least `k + 1`.
proof fn lemma_halved_product(v: int)
    requires
        v >= SCALE,
    ensures
        halved(v) * (halvings(v) + 1) <= v,
        halved(v) <= v,
    decreases v,
{
    if v >= 2 * SCALE {
        lemma_halved_product(v / 2);
        lemma_halved_bounds(v / 2);
        let m = halved(v / 2);
        let k = halvings(v / 2);
        assert(m * (k + 2) <= v) by (nonlinear_arith)
            requires
                m * (k + 1) <= v / 2,
                m <= v / 2,
                2 * (v / 2) <= v,
        ;
    } else {
        assert(v * 1 == v);
    }
}

/// The rest of the series from any term on is at most that term divided by
/// `1 - z^2`: the terms fall at least as fast as a geometric sequence.
proof fn lemma_atanh_sum_geometric(power: int, square: int, index: nat, terms: nat)
    requires
        0 <= power,
        0 <= square < SCALE,
    ensures
        atanh_sum(power, square, index, terms) * (SCALE - square) <= power * SCALE,
    decreases terms - index,
{
    if index >= terms {
        assert(power * SCALE >= 0) by (nonlinear_arith)
            requires
                power >= 0,
                SCALE > 0,
        ;
    } else {
        let next = power * square / (SCALE as int);
        let term = power / (2 * index + 1) as int;
        let rest = atanh_sum(next, square, index + 1, terms);
        assert(power * square >= 0) by (nonlinear_arith)
            requires
                power >= 0,
                square >= 0,
        ;
        lemma_trunc_quot_nonneg(power * square, SCALE as int);
        lemma_quotient_bound(power, (2 * index + 1) as int);
        lemma_atanh_sum_geometric(next, square, index + 1, terms);
        assert((term + rest) * (SCALE - square) <= power * SCALE) by (nonlinear_arith)
            requires
                rest * (SCALE - square) <= next * SCALE,
                SCALE * next <= power * square,
                0 <= term <= power,
                0 <= square < SCALE,
        {
            assert(term * (SCALE - square) <= power * (SCALE - square));
        }
    }
}

/// The logarithm lies below its tangent at one: for `v` of at least one,
/// `ln v <= v - 1`.
pub proof fn lemma_ln_below_tangent(v: int)
    requires
        v >= SCALE,
    ensures
        0 <= ln_raw(v) <= v - SCALE,
{
    lemma_ln_nonneg(v);
    lemma_halved_bounds(v);
    lemma_halved_product(v);
    let m = halved(v);
    let k = halvings(v);
    let d = m - SCALE;
    assert(d * SCALE >= 0) by (nonlinear_arith)
        requires
            d >= 0,
            SCALE > 0,
    ;
    lemma_trunc_quot_nonneg(d * SCALE, m + SCALE);
    let z = d * SCALE / (m + SCALE);
    assert(z <= SCALE) by {
        assert(d * SCALE < (SCALE + 1) * (m + SCALE)) by (nonlinear_arith)
            requires
                0 <= d,
                d == m - SCALE,
                SCALE > 0,
        ;
        lemma_quotient_between(d * SCALE, m + SCALE, 0, SCALE as int);
    }
    assert(z * z >= 0) by (nonlinear_arith);
    lemma_trunc_quot_nonneg(z * z, SCALE as int);
    let square = z * z / (SCALE as int);
    assert(square < SCALE) by {
        // z is below a half, so its square is below a quarter.
        assert(2 * z <= SCALE) by (nonlinear_arith)
            requires
                (m + SCALE) * z <= d * SCALE,
                d == m - SCALE,
                SCALE <= m < 2 * SCALE,
                z >= 0,
        {
            assert((m + SCALE) * z <= (m - SCALE) * SCALE);
            if 2 * z > SCALE {
                assert((m + SCALE) * (2 * z) > (m + SCALE) * SCALE);
            }
        }
        assert(z * z < SCALE * SCALE) by (nonlinear_arith)
            requires
                0 <= z,
                2 * z <= SCALE,
                SCALE > 0,
        ;
        if square >= SCALE {
            assert(SCALE * square >= SCALE * SCALE) by (nonlinear_arith)
                requires
                    square >= SCALE,
                    SCALE > 0,
            ;
        }
    }
    let sum = atanh_sum(z, square, 0, LN_TERMS as nat);
    lemma_atanh_sum_geometric(z, square, 0, LN_TERMS as nat);
    lemma_atanh_sum_nonneg(z, square, 0, LN_TERMS as nat);
    assert(2 * sum <= d) by (nonlinear_arith)
        requires
            sum * (SCALE - square) <= z * SCALE,
            (m + SCALE) * z <= d * SCALE,
            d == m - SCALE,
            SCALE * square <= z * z,
            0 <= z <= SCALE,
            0 <= square < SCALE,
            0 <= d,
            0 <= sum,
            SCALE > 0,
    {
        // 2 z S^2 + d z^2 <= 2 z S^2 + z d S <= d S^2
        assert((d + 2 * SCALE) * z <= d * SCALE);
        assert(d * (z * z) <= d * (z * SCALE));
        assert(d * (SCALE * square) <= d * (z * z));
        assert((d * (SCALE - square)) * SCALE >= (2 * (z * SCALE)) * SCALE) by {
            assert((d * SCALE) * SCALE - d * (SCALE * square) >= 2 * (z * SCALE) * SCALE) by {
                assert(((d + 2 * SCALE) * z) * SCALE <= (d * SCALE) * SCALE);
            }
        }
        assert(d * (SCALE - square) >= 2 * (z * SCALE));
        assert((2 * sum) * (SCALE - square) <= d * (SCALE - square));
    }
    assert(k * LN2 + d <= v - SCALE) by (nonlinear_arith)
        requires
            m * (k + 1) <= v,
            d == m - SCALE,
            m >= SCALE,
            k >= 0,
            SCALE >= LN2,
            LN2 > 0,
    {
        assert(m * k >= SCALE * k);
        assert(SCALE * k >= LN2 * k);
    }
}

/// The logarithm of one is zero.
pub proof fn lemma_ln_one()
    ensures
        num_ln(Some(SCALE as int)) == Some(0int),
{
    lemma_atanh_sum_of_zero(0, 0, LN_TERMS as nat);
}

/// A power of a base of at least one with an exponent that is not negative is
/// at least one.
pub proof fn lemma_pow_at_least_one(base: int, exp: int)
    requires
        base >= SCALE,
        exp >= 0,
    ensures
        pow_nonneg(Some(base), exp) matches Some(v) ==> v >= SCALE,
        num_pow(Some(base), Some(exp)) matches Some(v) ==> v >= SCALE,
{
    let whole_exp = (exp / (SCALE as int)) as nat;
    let fraction = exp % (SCALE as int);
    lemma_powi_at_least_one(base, whole_exp);
    if fraction != 0 {
        if let Some(whole) = num_powi(Some(base), whole_exp) {
            lemma_ln_nonneg(base);
            if let Some(l) = num_ln(Some(base)) {
                assert(fraction * l >= 0) by (nonlinear_arith)
                    requires
                        fraction >= 0,
                        l >= 0,
                ;
                lemma_trunc_quot_nonneg(fraction * l, SCALE as int);
                if let Some(t) = num_mul(Some(fraction), Some(l)) {
                    lemma_exp_at_least_one(t);
                    if let Some(e) = num_exp(Some(t)) {
                        lemma_scaled_product_grows(whole, e);
                    }
                }
            }
        }
    }
}

/// A power of a base of at least one with an exponent of at least one is at
/// least the base.
pub proof fn lemma_pow_at_least_base(base: int, exp: int)
    requires
        base >= SCALE,
        exp >= SCALE,
    ensures
        num_pow(Some(base), Some(exp)) matches Some(v) ==> v >= base,
{
    let whole_exp = (exp / (SCALE as int)) as nat;
    let fraction = exp % (SCALE as int);
    lemma_quotient_at_least(exp, SCALE as int, 1);
    lemma_powi_at_least_one(base, whole_exp);
    if fraction != 0 {
        if let Some(whole) = num_powi(Some(base), whole_exp) {
            lemma_ln_nonneg(base);
            if let Some(l) = num_ln(Some(base)) {
                assert(fraction * l >= 0) by (nonlinear_arith)
                    requires
                        fraction >= 0,
                        l >= 0,
                ;
                lemma_trunc_quot_nonneg(fraction * l, SCALE as int);
                if let Some(t) = num_mul(Some(fraction), Some(l)) {
                    lemma_exp_at_least_one(t);
                    if let Some(e) = num_exp(Some(t)) {
                        lemma_scaled_product_grows(whole, e);
                    }
                }
            }
        }
    }
}

/// Every positive power of not-a-number is not a number.
pub proof fn lemma_pow_of_nan(exp: int)
    requires
        exp > 0,
    ensures
        num_pow(None, Some(exp)) is None,
{
    if exp >= SCALE {
        lemma_powi_of_nan((exp / (SCALE as int)) as nat);
    }
}

/// At a whole exponent the power is the repeated product.
pub proof fn lemma_pow_whole(base: Option<int>, exp: nat)
    requires
        exp * SCALE <= LIMIT,
    ensures
        num_pow(base, num_int(exp as int)) == num_powi(base, exp),
{
    assert((exp * SCALE) / (SCALE as int) == exp && (exp * SCALE) % (SCALE as int) == 0) by {
        vstd::arithmetic::div_mod::lemma_fundamental_div_mod_converse(
            exp * SCALE,
            SCALE as int,
            exp as int,
            0,
        );
    }
}

proof fn lemma_halved_bounds(v: int)
    requires
        v >= SCALE,
    ensures
        SCALE <= halved(v) < 2 * SCALE,
        0 <= halvings(v) <= v / (SCALE as int),
    decreases v,
{
    if v >= 2 * SCALE {
        lemma_halved_bounds(v / 2);
    }
}

proof fn lemma_doubled_bounds(v: int)
    requires
        0 < v < SCALE,
    ensures
        SCALE <= doubled(v) < 2 * SCALE,
        1 <= doublings(v) <= SCALE - v,
    decreases 2 * SCALE - v,
{
    if 2 * v < SCALE {
        lemma_doubled_bounds(2 * v);
    } else {
        assert(doubled(2 * v) == 2 * v);
        assert(doublings(2 * v) == 0);
    }
}

} // verus!
