//! What holds of the projections and of the two inverse questions, proved
//! from their models.
//!
//! Amounts in these statements are raw values: integer counts of 10^-18.

use crate::decimal::{
    checked, magnitude, num_add, num_div, num_int, num_lt, num_mul, LIMIT, SCALE,
};
use crate::explog::{
    lemma_ln_below_tangent, lemma_pow_at_least_base, lemma_pow_at_least_one, lemma_pow_of_nan,
    lemma_pow_whole, ln_raw, num_ln,
};
use crate::formulas::{annuity_value, growth_factor};
use crate::interest::{
    contribution_projection, effective_annual_rate, grown_contributions, grown_principal,
    growth_projection, period_count, period_rate, principal_for_target, years_to_target, Scenario,
    MONTHS_PER_YEAR,
};
use crate::power::{
    lemma_powi_at_most_exact, lemma_powi_bernoulli, lemma_powi_finite, lemma_powi_nearly_exact,
    num_powi,
};
use crate::rounding::{
    lemma_quotient_at_least, lemma_quotient_between, lemma_quotient_bound,
    lemma_scaled_product_grows, lemma_trunc_quot_nonneg,
};
use vstd::arithmetic::power::{lemma_pow_positive, pow};
use vstd::prelude::*;

verus! {

/// The principal named for a target grows back to the target, short of it by
/// the rounding of one quotient and one product at most. For a target that is
/// not negative, a positive rate and a positive horizon, whenever the
/// principal and its projection are numbers: the projection does not exceed
/// the target, and falls short of it by at most the whole part of the growth
/// factor plus one, counted in units of 10^-18. For a target of at least a
/// hundred times that many units it is within one per cent.
pub proof fn lemma_principal_round_trip(
    target: int,
    annual_rate: int,
    compounds_per_year: nat,
    years: int,
)
    requires
        target >= 0,
        annual_rate > 0,
        years > 0,
    ensures
        ({
            let principal = principal_for_target(
                Some(target),
                Some(annual_rate),
                compounds_per_year,
                Some(years),
            );
            let back = grown_principal(
                Scenario {
                    principal,
                    annual_rate: Some(annual_rate),
                    compounds_per_year,
                    years: Some(years),
                },
            );
            let growth = growth_factor(
                period_rate(Some(annual_rate), compounds_per_year),
                period_count(compounds_per_year, Some(years)),
            );
            (principal is Some && back is Some) ==> {
                &&& growth matches Some(g) && g >= SCALE
                &&& target - (growth->0 / (SCALE as int) + 1) <= back->0 <= target
                &&& target >= 100 * (growth->0 / (SCALE as int) + 1) ==> 100 * (target - back->0)
                    <= target
            }
        }),
{
    let rate = period_rate(Some(annual_rate), compounds_per_year);
    let count = period_count(compounds_per_year, Some(years));
    let growth = growth_factor(rate, count);
    let principal = principal_for_target(
        Some(target),
        Some(annual_rate),
        compounds_per_year,
        Some(years),
    );
    if principal is Some {
        let g = growth->0;
        let e = count->0;
        // The exponent is not negative.
        assert(num_int(compounds_per_year as int) is Some);
        assert(compounds_per_year * SCALE * years >= 0) by (nonlinear_arith)
            requires
                compounds_per_year >= 0,
                years > 0,
                SCALE > 0,
        ;
        lemma_trunc_quot_nonneg(compounds_per_year * SCALE * years, SCALE as int);
        assert(e >= 0);
        // The growth factor is at least one.
        assert(g >= SCALE) by {
            match num_add(Some(SCALE as int), rate) {
                Some(base) => {
                    assert(compounds_per_year != 0);
                    assert(annual_rate * SCALE >= 0) by (nonlinear_arith)
                        requires
                            annual_rate > 0,
                            SCALE > 0,
                    ;
                    lemma_trunc_quot_nonneg(annual_rate * SCALE, compounds_per_year * SCALE);
                    lemma_pow_at_least_one(base, e);
                },
                None => {
                    if e > 0 {
                        lemma_pow_of_nan(e);
                    }
                },
            }
        }
        assert(target * SCALE >= 0) by (nonlinear_arith)
            requires
                target >= 0,
                SCALE > 0,
        ;
        lemma_trunc_quot_nonneg(target * SCALE, g);
        let p = principal->0;
        assert(p == (target * SCALE) / g);
        assert(p * g >= 0) by (nonlinear_arith)
            requires
                p >= 0,
                g > 0,
        ;
        lemma_trunc_quot_nonneg(p * g, SCALE as int);
        let back = (p * g) / (SCALE as int);
        let whole = g / (SCALE as int);
        lemma_trunc_quot_nonneg(g, SCALE as int);
        assert(target - (whole + 1) <= back <= target) by (nonlinear_arith)
            requires
                g * p <= target * SCALE < g * p + g,
                SCALE * back <= p * g < SCALE * back + SCALE,
                SCALE * whole <= g < SCALE * whole + SCALE,
                SCALE > 0,
        ;
    }
}

/// Compounding in steps is no faster than compounding without pause. For a
/// positive principal, a target above it, a positive rate and a frequency of
/// at least one, whenever the time to the target is a number: it is not
/// negative, and it is at least `ln(target / principal) / annual_rate`, the
/// time that continuous compounding at the annual rate takes.
pub proof fn lemma_time_at_least_continuous(
    principal: int,
    target: int,
    annual_rate: int,
    compounds_per_year: nat,
)
    requires
        0 < principal < target,
        annual_rate > 0,
        compounds_per_year >= 1,
    ensures
        years_to_target(Some(principal), Some(target), Some(annual_rate), compounds_per_year)
            matches Some(t) ==> {
            &&& num_ln(num_div(Some(target), Some(principal))) matches Some(l) && l >= 0
            &&& t >= 0
            &&& t >= (num_ln(num_div(Some(target), Some(principal)))->0 * SCALE) / annual_rate
        },
{
    let n = compounds_per_year as int;
    let years = years_to_target(
        Some(principal),
        Some(target),
        Some(annual_rate),
        compounds_per_year,
    );
    if years is Some {
        // The logarithm of the ratio is not negative.
        assert(target * SCALE >= principal * SCALE && target * SCALE >= 0) by (nonlinear_arith)
            requires
                0 < principal < target,
                SCALE > 0,
        ;
        lemma_trunc_quot_nonneg(target * SCALE, principal);
        lemma_quotient_at_least(target * SCALE, principal, SCALE as int);
        let ratio = (target * SCALE) / principal;
        lemma_ln_below_tangent(ratio);
        let l = ln_raw(ratio);
        // The logarithm of the growth per period is at most the rate per period.
        let q = annual_rate / n;
        lemma_trunc_quot_nonneg(annual_rate, n);
        assert(annual_rate * SCALE >= 0 && q * (n * SCALE) <= annual_rate * SCALE < (q + 1) * (n
            * SCALE)) by (nonlinear_arith)
            requires
                annual_rate >= 0,
                n * q <= annual_rate < n * q + n,
                SCALE > 0,
        ;
        assert(n * SCALE >= 1) by (nonlinear_arith)
            requires
                n >= 1,
                SCALE >= 1,
        ;
        lemma_trunc_quot_nonneg(annual_rate * SCALE, n * SCALE);
        lemma_quotient_between(annual_rate * SCALE, n * SCALE, q, q);
        assert(period_rate(Some(annual_rate), compounds_per_year) == Some(q));
        lemma_ln_below_tangent(SCALE + q);
        let step = ln_raw(SCALE + q);
        assert((n * SCALE) * step == (n * step) * SCALE && 0 <= n * step <= annual_rate)
            by (nonlinear_arith)
            requires
                0 <= step <= q,
                n >= 1,
                n * q <= annual_rate,
        {
            assert(n * step <= n * q);
        }
        lemma_trunc_quot_nonneg((n * step) * SCALE, SCALE as int);
        lemma_quotient_between((n * step) * SCALE, SCALE as int, n * step, n * step);
        let divisor = n * step;
        assert(divisor >= 1);
        assert(l * SCALE >= 0) by (nonlinear_arith)
            requires
                l >= 0,
                SCALE > 0,
        ;
        lemma_trunc_quot_nonneg(l * SCALE, divisor);
        lemma_trunc_quot_nonneg(l * SCALE, annual_rate);
        vstd::arithmetic::div_mod::lemma_div_is_ordered_by_denominator(
            l * SCALE,
            divisor,
            annual_rate,
        );
    }
}

/// The rate per period and the number of periods of a scenario over whole
/// years, as the model computes them.
proof fn lemma_whole_periods(annual_rate: int, compounds_per_year: nat, years: nat)
    requires
        annual_rate >= 0,
        compounds_per_year >= 1,
        compounds_per_year * SCALE <= LIMIT,
        compounds_per_year * years * SCALE <= LIMIT,
    ensures
        period_rate(Some(annual_rate), compounds_per_year) == checked(
            annual_rate / (compounds_per_year as int),
        ),
        0 <= annual_rate / (compounds_per_year as int) <= annual_rate,
        period_count(compounds_per_year, num_int(years as int)) == num_int(
            (compounds_per_year * years) as int,
        ),
        num_int((compounds_per_year * years) as int) == Some(compounds_per_year * years * SCALE),
{
    let r = annual_rate;
    let n = compounds_per_year as int;
    let q = r / n;
    let k = compounds_per_year * years;
    lemma_trunc_quot_nonneg(r, n);
    lemma_quotient_bound(r, n);
    assert(years * SCALE <= LIMIT && 0 <= n * SCALE && 0 <= years * SCALE) by (nonlinear_arith)
        requires
            n >= 1,
            years >= 0,
            n * years * SCALE <= LIMIT,
            SCALE > 0,
            LIMIT >= 0,
    {
        if years >= 1 {
            assert(years * SCALE <= n * years * SCALE);
        }
    }
    assert(r * SCALE >= 0 && q * (n * SCALE) <= r * SCALE < (q + 1) * (n * SCALE))
        by (nonlinear_arith)
        requires
            r >= 0,
            n * q <= r < n * q + n,
            SCALE > 0,
    ;
    lemma_trunc_quot_nonneg(r * SCALE, n * SCALE);
    lemma_quotient_between(r * SCALE, n * SCALE, q, q);
    assert((n * SCALE) * (years * SCALE) == (k * SCALE) * SCALE && k * SCALE >= 0)
        by (nonlinear_arith)
        requires
            k == n * years,
            n >= 1,
            years >= 0,
            SCALE > 0,
    ;
    lemma_trunc_quot_nonneg((k * SCALE) * SCALE, SCALE as int);
    lemma_quotient_between((k * SCALE) * SCALE, SCALE as int, k * SCALE, k * SCALE);
}

/// Where the projection over whole years lies. For a principal and a rate
/// that are not negative, a frequency of at least one and a whole number of
/// years, write `q` for the rate per period and `k` for the number of
/// periods. The final amount is a number whenever the exact values
/// `(1 + q)^k` and `principal * (1 + q)^k` are within the range of a decimal.
/// When it is a number, it is at least what simple interest at `q` per
/// period gives, and at most the exact compound value: rounding only ever
/// takes away. It takes away little: with one unit of 10^-18 added, the final
/// amount is at least the exact compound value less `k - 1` parts in 10^18
/// of it. All are stated without fractions.
pub proof fn lemma_growth_bounds(
    principal: int,
    annual_rate: int,
    compounds_per_year: nat,
    years: nat,
)
    requires
        0 <= principal <= LIMIT,
        annual_rate >= 0,
        compounds_per_year >= 1,
        compounds_per_year * SCALE <= LIMIT,
        compounds_per_year * years * SCALE <= LIMIT,
        SCALE + annual_rate <= LIMIT,
    ensures
        ({
            let s = Scenario {
                principal: Some(principal),
                annual_rate: Some(annual_rate),
                compounds_per_year,
                years: num_int(years as int),
            };
            let q = annual_rate / (compounds_per_year as int);
            let k = compounds_per_year * years;
            let exact = pow(SCALE + q, k);
            let unit = pow(SCALE as int, k);
            &&& (exact * SCALE <= LIMIT * unit && principal * exact <= LIMIT * unit)
                ==> grown_principal(s) is Some
            &&& grown_principal(s) matches Some(a) ==> principal + (principal * (k * q)) / (
            SCALE as int) <= a && a * unit <= principal * exact
            &&& (grown_principal(s) matches Some(a) && 1 <= k <= SCALE) ==> ((grown_principal(
                s,
            )->0 + 1) * unit) * SCALE >= (principal * exact) * (SCALE - (k - 1))
        }),
{
    let n = compounds_per_year;
    let q = annual_rate / (n as int);
    let k = n * years;
    let base = SCALE + q;
    let exact = pow(base, k);
    let unit = pow(SCALE as int, k);
    let s = Scenario {
        principal: Some(principal),
        annual_rate: Some(annual_rate),
        compounds_per_year,
        years: num_int(years as int),
    };
    lemma_whole_periods(annual_rate, n, years);
    lemma_pow_whole(Some(base), k);
    lemma_pow_positive(SCALE as int, k);
    let factor = num_powi(Some(base), k);
    assert(growth_factor(period_rate(s.annual_rate, n), period_count(n, s.years)) == factor);
    if exact * SCALE <= LIMIT * unit {
        lemma_powi_finite(base, k);
    }
    if let Some(f) = factor {
        lemma_powi_at_most_exact(base, k);
        lemma_powi_bernoulli(q, k);
        assert(principal * f >= 0 && principal * f >= (principal + (principal * (k * q)) / (
        SCALE as int)) * SCALE) by (nonlinear_arith)
            requires
                principal >= 0,
                f >= SCALE + k * q,
                k * q >= 0,
                SCALE > 0,
                SCALE * ((principal * (k * q)) / (SCALE as int)) <= principal * (k * q),
        {
            assert(principal * f >= principal * (SCALE + k * q));
        }
        lemma_trunc_quot_nonneg(principal * f, SCALE as int);
        lemma_quotient_at_least(
            principal * f,
            SCALE as int,
            principal + (principal * (k * q)) / (SCALE as int),
        );
        let a = (principal * f) / (SCALE as int);
        assert(a * unit <= principal * exact) by (nonlinear_arith)
            requires
                SCALE * a <= principal * f,
                f * unit <= exact * SCALE,
                principal >= 0,
                unit >= 1,
                SCALE > 0,
                a >= 0,
        {
            assert((SCALE * a) * unit <= (principal * f) * unit);
            assert(principal * (f * unit) <= principal * (exact * SCALE));
            assert((a * unit) * SCALE <= (principal * exact) * SCALE);
        }
        if principal * exact <= LIMIT * unit {
            assert(a <= LIMIT) by (nonlinear_arith)
                requires
                    a * unit <= principal * exact,
                    principal * exact <= LIMIT * unit,
                    unit >= 1,
            ;
        }
        if 1 <= k <= SCALE {
            lemma_powi_nearly_exact(base, k);
            assert(((a + 1) * unit) * SCALE >= (principal * exact) * (SCALE - (k - 1)))
                by (nonlinear_arith)
                requires
                    principal * f < SCALE * a + SCALE,
                    f * unit >= exact * (SCALE - (k - 1)),
                    principal >= 0,
                    unit >= 1,
                    SCALE > 0,
            {
                assert(principal * (f * unit) >= principal * (exact * (SCALE - (k - 1))));
                assert((principal * f) * unit <= (SCALE * a + SCALE) * unit);
            }
        }
    }
}

/// Compounding within the year never yields less than the nominal rate: for
/// a rate that is not negative and a frequency of at least one, the effective
/// annual rate is at least the frequency times the rate per period, which is
/// the annual rate less at most `compounds_per_year - 1` units of 10^-18 of
/// rounding. Compounded once a year, the effective rate is the annual rate.
pub proof fn lemma_effective_rate_at_least_nominal(annual_rate: int, compounds_per_year: nat)
    requires
        annual_rate >= 0,
        compounds_per_year >= 1,
    ensures
        effective_annual_rate(Some(annual_rate), compounds_per_year) matches Some(e) ==> e
            >= compounds_per_year * (annual_rate / (compounds_per_year as int)) && e
            > annual_rate - compounds_per_year,
        compounds_per_year == 1 && annual_rate <= LIMIT - SCALE ==> effective_annual_rate(
            Some(annual_rate),
            compounds_per_year,
        ) == Some(annual_rate),
{
    let r = annual_rate;
    let n = compounds_per_year as int;
    let q = r / n;
    lemma_trunc_quot_nonneg(r, n);
    if n * SCALE <= LIMIT {
        assert(num_int(n) == Some(n * SCALE));
        assert(r * SCALE >= 0 && q * (n * SCALE) <= r * SCALE < (q + 1) * (n * SCALE))
            by (nonlinear_arith)
            requires
                r >= 0,
                n * q <= r < n * q + n,
                SCALE > 0,
        ;
        lemma_trunc_quot_nonneg(r * SCALE, n * SCALE);
        lemma_quotient_between(r * SCALE, n * SCALE, q, q);
        assert(period_rate(Some(r), compounds_per_year) == checked(q));
        lemma_pow_whole(Some(SCALE + q), compounds_per_year);
        lemma_pow_of_nan(n * SCALE);
        lemma_powi_bernoulli(q, compounds_per_year);
        if n == 1 && r <= LIMIT - SCALE {
            let base = SCALE + r;
            assert(num_powi(Some(base), 1) == num_mul(
                num_mul(num_powi(Some(base), 0), num_powi(Some(base), 0)),
                Some(base),
            ));
            assert(SCALE * SCALE / (SCALE as int) == SCALE) by {
                lemma_quotient_between(SCALE * SCALE, SCALE as int, SCALE as int, SCALE as int);
            }
            assert(SCALE * base / (SCALE as int) == base) by {
                assert(SCALE * base == base * SCALE) by (nonlinear_arith);
                lemma_quotient_between(SCALE * base, SCALE as int, base, base);
            }
            assert(SCALE * base >= 0) by (nonlinear_arith)
                requires
                    base >= 0,
                    SCALE > 0,
            ;
        }
    }
}

/// Twelve times a number of years that is not negative, as the model
/// computes it.
proof fn lemma_months(years: int)
    requires
        years >= 0,
    ensures
        num_mul(Some(years), num_int(MONTHS_PER_YEAR as int)) == checked(12 * years),
{
    assert(num_int(MONTHS_PER_YEAR as int) == Some(12 * SCALE));
    assert(years * (12 * SCALE) == (12 * years) * SCALE) by (nonlinear_arith);
    lemma_trunc_quot_nonneg((12 * years) * SCALE, SCALE as int);
    lemma_quotient_between((12 * years) * SCALE, SCALE as int, 12 * years, 12 * years);
}

/// A twelfth of an annual rate, as the model computes it: positive exactly
/// from twelve units of 10^-18 on.
proof fn lemma_monthly_rate(annual_rate: int)
    ensures
        annual_rate >= 0 ==> num_div(Some(annual_rate), num_int(MONTHS_PER_YEAR as int))
            == checked(annual_rate / 12),
        annual_rate < 12 ==> !num_lt(
            Some(0),
            num_div(Some(annual_rate), num_int(MONTHS_PER_YEAR as int)),
        ),
{
    let r = annual_rate;
    assert(num_int(MONTHS_PER_YEAR as int) == Some(12 * SCALE));
    if r >= 0 {
        let mr = r / 12;
        lemma_trunc_quot_nonneg(r, 12);
        assert(r * SCALE >= 0 && mr * (12 * SCALE) <= r * SCALE < (mr + 1) * (12 * SCALE))
            by (nonlinear_arith)
            requires
                r >= 0,
                12 * mr <= r < 12 * mr + 12,
                SCALE > 0,
        ;
        lemma_trunc_quot_nonneg(r * SCALE, 12 * SCALE);
        lemma_quotient_between(r * SCALE, 12 * SCALE, mr, mr);
    } else {
        assert((-r) * SCALE >= 0 && r * SCALE < 0 && magnitude(r * SCALE) == (-r) * SCALE)
            by (nonlinear_arith)
            requires
                r < 0,
                SCALE > 0,
        ;
        lemma_trunc_quot_nonneg((-r) * SCALE, 12 * SCALE);
    }
}

/// The future value of a positive contribution at a monthly rate that is not
/// positive is positive once a month has passed.
proof fn lemma_plain_sum_positive(contribution: int, monthly_rate: Option<int>, months: int)
    requires
        contribution > 0,
        months >= SCALE,
        !num_lt(Some(0), monthly_rate),
    ensures
        annuity_value(Some(contribution), monthly_rate, Some(months)) matches Some(v) ==> v > 0,
{
    lemma_scaled_product_grows(contribution, months);
}

/// The future value of a contribution at a positive monthly rate of at most
/// one is positive once a month has passed, if the product of contribution
/// and rate is at least 10^-18.
proof fn lemma_annuity_positive(contribution: int, monthly_rate: int, months: int)
    requires
        contribution > 0,
        months >= SCALE,
        0 < monthly_rate <= SCALE,
        contribution * monthly_rate >= SCALE,
    ensures
        annuity_value(Some(contribution), Some(monthly_rate), Some(months)) matches Some(v) ==> v
            > 0,
{
    let c = contribution;
    let mr = monthly_rate;
    let growth = growth_factor(Some(mr), Some(months));
    if annuity_value(Some(c), Some(mr), Some(months)) is Some {
        let f = growth->0;
        lemma_pow_at_least_base(SCALE + mr, months);
        assert(f >= SCALE + mr);
        assert(c * (f - SCALE) >= c * mr) by (nonlinear_arith)
            requires
                c > 0,
                f - SCALE >= mr,
        ;
        lemma_trunc_quot_nonneg(c * (f - SCALE), SCALE as int);
        let q = (c * (f - SCALE)) / (SCALE as int);
        lemma_quotient_at_least(c * (f - SCALE), SCALE as int, 1);
        assert(q * SCALE >= mr) by (nonlinear_arith)
            requires
                q >= 1,
                mr <= SCALE,
        ;
        lemma_trunc_quot_nonneg(q * SCALE, mr);
        lemma_quotient_at_least(q * SCALE, mr, 1);
    }
}

/// A monthly contribution raises the final amount by exactly its own future
/// value, and that is positive once a month has passed, for a positive
/// contribution that the arithmetic can tell from nothing: with a monthly
/// rate that is not positive, any; with a positive monthly rate of at most
/// one, a contribution whose product with that rate is at least 10^-18.
pub proof fn lemma_contributions_raise_final_amount(s: Scenario, monthly_contribution: int)
    requires
        monthly_contribution > 0,
        s.years matches Some(t) && 12 * t >= SCALE,
        s.annual_rate matches Some(r) && (r < 12 || (r / 12 <= SCALE && monthly_contribution * (r
            / 12) >= SCALE)),
    ensures
        ({
            let with = contribution_projection(s, Some(monthly_contribution)).final_amount;
            let without = growth_projection(s).final_amount;
            (with is Some && without is Some) ==> {
                &&& grown_contributions(s, Some(monthly_contribution)) matches Some(c) && c > 0
                &&& with->0 == without->0 + grown_contributions(s, Some(monthly_contribution))->0
                &&& with->0 > without->0
            }
        }),
{
    let t = s.years->0;
    let r = s.annual_rate->0;
    let months = num_mul(s.years, num_int(MONTHS_PER_YEAR as int));
    let monthly_rate = num_div(s.annual_rate, num_int(MONTHS_PER_YEAR as int));
    lemma_months(t);
    lemma_monthly_rate(r);
    if grown_contributions(s, Some(monthly_contribution)) is Some {
        if r < 12 {
            lemma_plain_sum_positive(monthly_contribution, monthly_rate, 12 * t);
        } else {
            lemma_trunc_quot_nonneg(r, 12);
            lemma_annuity_positive(monthly_contribution, r / 12, 12 * t);
        }
    }
}

} // verus!
