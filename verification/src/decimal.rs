//! Fixed-point decimals and their arithmetic model.
//!
//! A finite value is an integer count of units of 10^-18, of magnitude at most
//! 10^36. In contracts a value is an `Option<int>`: `Some(raw)` for the finite
//! value `raw / 10^18`, `None` for "not a number". Each operation rounds
//! toward zero and yields `None` when an operand is `None` or the rounded
//! result leaves the range.

use vstd::prelude::*;

verus! {

/// Raw units in the value one: 10^18.
pub const SCALE: i128 = 1_000_000_000_000_000_000;

/// Largest magnitude of a finite raw value: 10^36.
pub const LIMIT: i128 = 1_000_000_000_000_000_000_000_000_000_000_000_000;

/// Whether `raw` is the raw value of a finite decimal.
pub open spec fn in_range(raw: int) -> bool {
    -LIMIT <= raw <= LIMIT
}

/// The finite decimal with raw value `raw`, or not-a-number outside the range.
pub open spec fn checked(raw: int) -> Option<int> {
    if in_range(raw) {
        Some(raw)
    } else {
        None
    }
}

/// Magnitude of an integer.
pub open spec fn magnitude(x: int) -> int {
    if x < 0 {
        -x
    } else {
        x
    }
}

/// Quotient of `n` by `d` rounded toward zero, for `d != 0`.
pub open spec fn trunc_quot(n: int, d: int) -> int {
    let q = magnitude(n) / magnitude(d);
    if (n < 0) != (d < 0) {
        -q
    } else {
        q
    }
}

/// Sum of two decimals.
pub open spec fn num_add(a: Option<int>, b: Option<int>) -> Option<int> {
    match (a, b) {
        (Some(x), Some(y)) => checked(x + y),
        _ => None,
    }
}

/// Difference of two decimals.
pub open spec fn num_sub(a: Option<int>, b: Option<int>) -> Option<int> {
    match (a, b) {
        (Some(x), Some(y)) => checked(x - y),
        _ => None,
    }
}

/// Negation of a decimal.
pub open spec fn num_neg(a: Option<int>) -> Option<int> {
    match a {
        Some(x) => checked(-x),
        None => None,
    }
}

/// Product of two decimals, rounded toward zero.
pub open spec fn num_mul(a: Option<int>, b: Option<int>) -> Option<int> {
    match (a, b) {
        (Some(x), Some(y)) => checked(trunc_quot(x * y, SCALE as int)),
        _ => None,
    }
}

/// Quotient of two decimals, rounded toward zero; not a number for a zero divisor.
pub open spec fn num_div(a: Option<int>, b: Option<int>) -> Option<int> {
    match (a, b) {
        (Some(x), Some(y)) => if y == 0 {
            None
        } else {
            checked(trunc_quot(x * SCALE, y))
        },
        _ => None,
    }
}

/// The decimal that stands for the whole number `n`.
pub open spec fn num_int(n: int) -> Option<int> {
    checked(n * SCALE)
}

/// `a < b`, false when either side is not a number.
pub open spec fn num_lt(a: Option<int>, b: Option<int>) -> bool {
    match (a, b) {
        (Some(x), Some(y)) => x < y,
        _ => false,
    }
}

/// `a <= b`, false when either side is not a number.
pub open spec fn num_le(a: Option<int>, b: Option<int>) -> bool {
    match (a, b) {
        (Some(x), Some(y)) => x <= y,
        _ => false,
    }
}

/// The whole part of a decimal as an unsigned 32-bit count: zero for a
/// negative value or not-a-number, `u32::MAX` for anything larger.
pub open spec fn num_whole_u32(a: Option<int>) -> nat {
    match a {
        Some(x) => if x < 0 {
            0
        } else if x / (SCALE as int) > u32::MAX {
            u32::MAX as nat
        } else {
            (x / (SCALE as int)) as nat
        },
        None => 0,
    }
}

/// A fixed-point decimal with eighteen decimal places, or not-a-number.
#[derive(Clone, Copy, Debug, PartialEq, Eq)]
pub struct Decimal {
    raw: Option<i128>,
}

impl View for Decimal {
    type V = Option<int>;

    closed spec fn view(&self) -> Option<int> {
        match self.raw {
            Some(v) => Some(v as int),
            None => None,
        }
    }
}

impl Decimal {
    /// Every decimal that exists at run time is not-a-number or within the
    /// range.
    #[verifier::type_invariant]
    pub open spec fn within_limit(self) -> bool {
        self@ matches Some(v) ==> in_range(v)
    }

    /// The value not-a-number.
    pub fn nan() -> (r: Decimal)
        ensures
            r@ == None::<int>,
    {
        Decimal { raw: None }
    }

    /// The value zero.
    pub fn zero() -> (r: Decimal)
        ensures
            r@ == Some(0int),
    {
        Decimal { raw: Some(0) }
    }

    /// The value one.
    pub fn one() -> (r: Decimal)
        ensures
            r@ == Some(SCALE as int),
    {
        Decimal { raw: Some(SCALE) }
    }

    /// The decimal with the given count of 10^-18 units.
    pub fn from_raw(raw: i128) -> (r: Decimal)
        ensures
            r@ == checked(raw as int),
    {
        if -LIMIT <= raw && raw <= LIMIT {
            Decimal { raw: Some(raw) }
        } else {
            Decimal { raw: None }
        }
    }

    /// The count of 10^-18 units, or `None` for not-a-number.
    pub fn raw(&self) -> (r: Option<i128>)
        ensures
            match r {
                Some(v) => self@ == Some(v as int) && in_range(v as int),
                None => self@ is None,
            },
    {
        proof {
            use_type_invariant(self);
        }
        self.raw
    }

    /// Whether the value is a number.
    pub fn is_finite(&self) -> (r: bool)
        ensures
            r == self@ is Some,
    {
        self.raw.is_some()
    }

    /// The whole number `n` as a decimal.
    pub fn from_int(n: i64) -> (r: Decimal)
        ensures
            r@ == num_int(n as int),
    {
        let wide: i128 = n as i128;
        assert(-9_223_372_036_854_775_808 * SCALE <= wide * SCALE <= 9_223_372_036_854_775_807
            * SCALE) by (nonlinear_arith)
            requires
                -9_223_372_036_854_775_808 <= wide <= 9_223_372_036_854_775_807,
        ;
        Decimal::from_raw(wide * SCALE)
    }

    /// The whole number `n` as a decimal; always finite.
    pub fn from_u32(n: u32) -> (r: Decimal)
        ensures
            r@ == Some(n as int * SCALE),
            r@ == num_int(n as int),
    {
        let wide: i128 = n as i128;
        assert(0 <= wide * SCALE <= 4_294_967_295 * SCALE) by (nonlinear_arith)
            requires
                0 <= wide <= 4_294_967_295,
        ;
        Decimal::from_raw(wide * SCALE)
    }

    /// The whole part as a count that saturates at both ends of `u32`; zero
    /// for not-a-number.
    pub fn whole_u32(&self) -> (r: u32)
        ensures
            r == num_whole_u32(self@),
    {
        match self.raw {
            Some(x) => {
                if x < 0 {
                    0
                } else {
                    let whole: i128 = x / SCALE;
                    if whole > 4_294_967_295 {
                        u32::MAX
                    } else {
                        whole as u32
                    }
                }
            },
            None => 0,
        }
    }

    /// Sum: exact, or not-a-number when out of range.
    pub fn add(self, rhs: Decimal) -> (r: Decimal)
        ensures
            r@ == num_add(self@, rhs@),
    {
        proof {
            use_type_invariant(self);
            use_type_invariant(rhs);
        }
        match (self.raw, rhs.raw) {
            (Some(x), Some(y)) => Decimal::from_raw(x + y),
            _ => Decimal { raw: None },
        }
    }

    /// Difference: exact, or not-a-number when out of range.
    pub fn sub(self, rhs: Decimal) -> (r: Decimal)
        ensures
            r@ == num_sub(self@, rhs@),
    {
        proof {
            use_type_invariant(self);
            use_type_invariant(rhs);
        }
        match (self.raw, rhs.raw) {
            (Some(x), Some(y)) => Decimal::from_raw(x - y),
            _ => Decimal { raw: None },
        }
    }

    /// Negation.
    pub fn neg(self) -> (r: Decimal)
        ensures
            r@ == num_neg(self@),
    {
        proof {
            use_type_invariant(self);
        }
        match self.raw {
            Some(x) => Decimal::from_raw(-x),
            None => Decimal { raw: None },
        }
    }

    /// Product, rounded toward zero.
    pub fn mul(self, rhs: Decimal) -> (r: Decimal)
        ensures
            r@ == num_mul(self@, rhs@),
    {
        proof {
            use_type_invariant(self);
            use_type_invariant(rhs);
        }
        match (self.raw, rhs.raw) {
            (Some(x), Some(y)) => {
                let mx: i128 = if x < 0 {
                    -x
                } else {
                    x
                };
                let my: i128 = if y < 0 {
                    -y
                } else {
                    y
                };
                proof {
                    lemma_magnitude_product(x as int, y as int);
                }
                match mul_magnitudes(mx, my) {
                    Some(q) => {
                        if (x < 0) != (y < 0) {
                            Decimal { raw: Some(-q) }
                        } else {
                            Decimal { raw: Some(q) }
                        }
                    },
                    None => Decimal { raw: None },
                }
            },
            _ => Decimal { raw: None },
        }
    }

    /// Quotient, rounded toward zero; not-a-number for a zero divisor.
    pub fn div(self, rhs: Decimal) -> (r: Decimal)
        ensures
            r@ == num_div(self@, rhs@),
    {
        proof {
            use_type_invariant(self);
            use_type_invariant(rhs);
        }
        match (self.raw, rhs.raw) {
            (Some(x), Some(y)) => {
                if y == 0 {
                    return Decimal { raw: None };
                }
                let mx: i128 = if x < 0 {
                    -x
                } else {
                    x
                };
                let my: i128 = if y < 0 {
                    -y
                } else {
                    y
                };
                proof {
                    lemma_magnitude_product(x as int, SCALE as int);
                }
                match div_magnitudes(mx, my) {
                    Some(q) => {
                        if (x < 0) != (y < 0) {
                            Decimal { raw: Some(-q) }
                        } else {
                            Decimal { raw: Some(q) }
                        }
                    },
                    None => Decimal { raw: None },
                }
            },
            _ => Decimal { raw: None },
        }
    }

    /// `self < rhs`; false when either side is not a number.
    pub fn lt(&self, rhs: &Decimal) -> (r: bool)
        ensures
            r == num_lt(self@, rhs@),
    {
        match (self.raw, rhs.raw) {
            (Some(x), Some(y)) => x < y,
            _ => false,
        }
    }

    /// `self <= rhs`; false when either side is not a number.
    pub fn le(&self, rhs: &Decimal) -> (r: bool)
        ensures
            r == num_le(self@, rhs@),
    {
        match (self.raw, rhs.raw) {
            (Some(x), Some(y)) => x <= y,
            _ => false,
        }
    }

    /// `self > rhs`; false when either side is not a number.
    pub fn gt(&self, rhs: &Decimal) -> (r: bool)
        ensures
            r == num_lt(rhs@, self@),
    {
        match (self.raw, rhs.raw) {
            (Some(x), Some(y)) => x > y,
            _ => false,
        }
    }
}

/// The magnitude of a product is the product of the magnitudes.
proof fn lemma_magnitude_product(x: int, y: int)
    by (nonlinear_arith)
    ensures
        magnitude(x * y) == magnitude(x) * magnitude(y),
        (x * y < 0) == (x != 0 && y != 0 && ((x < 0) != (y < 0))),
{
}

/// Splitting both factors at the decimal point gives the scaled product.
proof fn lemma_split_product(ah: int, al: int, bh: int, bl: int, s: int)
    by (nonlinear_arith)
    requires
        s > 0,
        0 <= ah,
        0 <= bh,
        0 <= al < s,
        0 <= bl < s,
    ensures
        ((ah * s + al) * (bh * s + bl)) / s == ah * bh * s + ah * bl + al * bh + (al * bl) / s,
        ah * bh * s <= ((ah * s + al) * (bh * s + bl)) / s,
{
    let p = (ah * s + al) * (bh * s + bl);
    let hi = ah * bh * s + ah * bl + al * bh;
    assert(p == hi * s + al * bl);
    let lo = al * bl;
    assert(lo == s * (lo / s) + lo % s && 0 <= lo % s < s);
    assert(p == s * (hi + lo / s) + lo % s);
    assert(p == s * (p / s) + p % s && 0 <= p % s < s);
    assert(p / s == hi + lo / s);
    assert(0 <= lo / s);
}

/// Product of two magnitudes, scaled down and rounded toward zero.
fn mul_magnitudes(a: i128, b: i128) -> (r: Option<i128>)
    requires
        0 <= a <= LIMIT,
        0 <= b <= LIMIT,
    ensures
        r == (if (a * b) / (SCALE as int) <= LIMIT {
            Some(((a * b) / (SCALE as int)) as i128)
        } else {
            None
        }),
{
    let ah: i128 = a / SCALE;
    let al: i128 = a % SCALE;
    let bh: i128 = b / SCALE;
    let bl: i128 = b % SCALE;
    proof {
        lemma_split_product(ah as int, al as int, bh as int, bl as int, SCALE as int);
        assert(a == ah * SCALE + al);
        assert(b == bh * SCALE + bl);
        assert(0 <= ah * bh <= SCALE * SCALE) by (nonlinear_arith)
            requires
                0 <= ah <= SCALE,
                0 <= bh <= SCALE,
        ;
        assert(0 <= ah * bl <= SCALE * SCALE) by (nonlinear_arith)
            requires
                0 <= ah <= SCALE,
                0 <= bl <= SCALE,
        ;
        assert(0 <= al * bh <= SCALE * SCALE) by (nonlinear_arith)
            requires
                0 <= al <= SCALE,
                0 <= bh <= SCALE,
        ;
        assert(0 <= al * bl <= SCALE * SCALE) by (nonlinear_arith)
            requires
                0 <= al <= SCALE,
                0 <= bl <= SCALE,
        ;
    }
    let hh: i128 = ah * bh;
    if hh > SCALE {
        proof {
            assert(hh * SCALE > LIMIT) by (nonlinear_arith)
                requires
                    hh > SCALE,
                    SCALE == 1_000_000_000_000_000_000,
                    LIMIT == 1_000_000_000_000_000_000_000_000_000_000_000_000,
            ;
        }
        return None;
    }
    let low: i128 = (al * bl) / SCALE;
    assert(hh * SCALE <= LIMIT) by (nonlinear_arith)
        requires
            0 <= hh <= SCALE,
            SCALE == 1_000_000_000_000_000_000,
            LIMIT == 1_000_000_000_000_000_000_000_000_000_000_000_000,
    ;
    let total: i128 = hh * SCALE + ah * bl + al * bh + low;
    if total > LIMIT {
        None
    } else {
        Some(total)
    }
}

/// One step of long division: the next decimal digit of the quotient.
proof fn lemma_long_division_step(a: int, b: int, p: int, q: int, r: int)
    by (nonlinear_arith)
    requires
        b > 0,
        0 <= r < b,
        a * p == q * b + r,
    ensures
        a * (10 * p) == (q * 10 + (r * 10) / b) * b + (r * 10) % b,
        0 <= (r * 10) % b < b,
        0 <= (r * 10) / b <= 9,
{
    let t = r * 10;
    assert(t == b * (t / b) + t % b && 0 <= t % b < b);
    assert(t / b <= 9) by {
        if t / b >= 10 {
            assert(b * (t / b) >= b * 10);
        }
    }
    assert(t / b >= 0) by {
        if t / b <= -1 {
            assert(b * (t / b) <= -b);
        }
    }
}

/// A quotient and remainder found by hand are the quotient and remainder.
proof fn lemma_quotient_unique(n: int, d: int, q: int, r: int)
    by (nonlinear_arith)
    requires
        d > 0,
        0 <= r < d,
        n == q * d + r,
    ensures
        n / d == q,
{
    assert(n == d * (n / d) + n % d && 0 <= n % d < d);
    let k = n / d;
    assert((q - k) * d == n % d - r);
    if q > k {
        assert((q - k) * d >= d);
    }
    if q < k {
        assert((q - k) * d <= -d);
    }
}

/// A partial quotient above the limit keeps the final quotient above it.
proof fn lemma_quotient_grows(a: int, b: int, p: int, q: int, r: int, s: int)
    by (nonlinear_arith)
    requires
        b > 0,
        0 <= r < b,
        a * p == q * b + r,
        p >= 1,
        s >= p * 10,
        a >= 0,
        q >= 0,
    ensures
        (a * s) / b >= q * 10,
{
    let n = a * s;
    assert(n >= a * (p * 10));
    assert(a * (p * 10) == (q * 10) * b + r * 10);
    assert(n >= (q * 10) * b);
    assert(n == b * (n / b) + n % b && 0 <= n % b < b);
    if n / b < q * 10 {
        assert(b * (n / b) <= b * (q * 10 - 1));
    }
}

/// Powers of ten are positive and grow with the exponent.
proof fn lemma_pow10_grows(i: nat, j: nat)
    requires
        i <= j,
    ensures
        1 <= pow10(i) <= pow10(j),
    decreases j,
{
    if j == 0 {
    } else if i == j {
        lemma_pow10_grows(0, (j - 1) as nat);
    } else {
        lemma_pow10_grows(i, (j - 1) as nat);
    }
}

/// Quotient of two magnitudes, scaled up and rounded toward zero.
fn div_magnitudes(a: i128, b: i128) -> (r: Option<i128>)
    requires
        0 <= a <= LIMIT,
        1 <= b <= LIMIT,
    ensures
        r == (if (a * SCALE) / (b as int) <= LIMIT {
            Some(((a * SCALE) / (b as int)) as i128)
        } else {
            None
        }),
{
    let mut q: i128 = a / b;
    let mut rem: i128 = a % b;
    let mut i: u32 = 0;
    proof {
        vstd::arithmetic::div_mod::lemma_fundamental_div_mod(a as int, b as int);
        assert(a * pow10(0) == q * b + rem) by (nonlinear_arith)
            requires
                a == b * q + rem,
                pow10(0) == 1,
        ;
        lemma_pow10_scale();
    }
    while i < 18
        invariant
            0 <= a <= LIMIT,
            1 <= b <= LIMIT,
            i <= 18,
            0 <= rem < b,
            0 <= q <= LIMIT,
            a * pow10(i as nat) == q * b + rem,
            pow10(18) == SCALE,
        decreases 18 - i,
    {
        proof {
            lemma_long_division_step(a as int, b as int, pow10(i as nat), q as int, rem as int);
            lemma_pow10_grows(0, i as nat);
            lemma_pow10_grows((i + 1) as nat, 18);
        }
        if q > LIMIT / 10 {
            proof {
                lemma_quotient_grows(
                    a as int,
                    b as int,
                    pow10(i as nat),
                    q as int,
                    rem as int,
                    SCALE as int,
                );
            }
            return None;
        }
        let t: i128 = rem * 10;
        q = q * 10 + t / b;
        rem = t % b;
        i = i + 1;
        if q > LIMIT {
            proof {
                if i < 18 {
                    lemma_pow10_grows((i + 1) as nat, 18);
                    lemma_pow10_grows(0, i as nat);
                    lemma_quotient_grows(
                        a as int,
                        b as int,
                        pow10(i as nat),
                        q as int,
                        rem as int,
                        SCALE as int,
                    );
                } else {
                    lemma_quotient_unique(a * SCALE, b as int, q as int, rem as int);
                }
            }
            return None;
        }
    }
    proof {
        lemma_quotient_unique(a * SCALE, b as int, q as int, rem as int);
    }
    Some(q)
}

/// Ten to the power `n`.
pub open spec fn pow10(n: nat) -> int
    decreases n,
{
    if n == 0 {
        1
    } else {
        10 * pow10((n - 1) as nat)
    }
}

/// Ten to the eighteenth is one, in raw units.
pub proof fn lemma_pow10_scale()
    ensures
        pow10(18) == SCALE,
{
    reveal_with_fuel(pow10, 19);
}

/// Powers of ten are positive, and their exponents add.
pub proof fn lemma_pow10_adds(a: nat, b: nat)
    ensures
        pow10(a) >= 1,
        pow10(a) * pow10(b) == pow10(a + b),
    decreases a,
{
    if a > 0 {
        lemma_pow10_adds((a - 1) as nat, b);
        assert(10 * pow10((a - 1) as nat) * pow10(b) == 10 * pow10((a - 1 + b) as nat))
            by (nonlinear_arith)
            requires
                pow10((a - 1) as nat) * pow10(b) == pow10((a - 1 + b) as nat),
        ;
    }
}

/// Up to the eighteenth, a power of ten is at most one in raw units.
pub proof fn lemma_pow10_at_most_scale(n: nat)
    requires
        n <= 18,
    ensures
        1 <= pow10(n) <= SCALE,
        pow10(n) * pow10((18 - n) as nat) == SCALE,
{
    lemma_pow10_adds(n, (18 - n) as nat);
    lemma_pow10_adds((18 - n) as nat, 0);
    lemma_pow10_scale();
    assert(pow10(n) <= pow10(n) * pow10((18 - n) as nat)) by (nonlinear_arith)
        requires
            pow10(n) >= 1,
            pow10((18 - n) as nat) >= 1,
    ;
}

/// Ten to the power `n`, for `n <= 18`.
pub(crate) fn ten_to(n: u32) -> (r: i128)
    requires
        n <= 18,
    ensures
        r == pow10(n as nat),
        1 <= r <= SCALE,
{
    let mut r: i128 = 1;
    let mut i: u32 = 0;
    while i < n
        invariant
            i <= n <= 18,
            r == pow10(i as nat),
        decreases n - i,
    {
        proof {
            lemma_pow10_at_most_scale(i as nat);
            lemma_pow10_at_most_scale((i + 1) as nat);
        }
        r = r * 10;
        i = i + 1;
    }
    proof {
        lemma_pow10_at_most_scale(n as nat);
    }
    r
}

} // verus!
