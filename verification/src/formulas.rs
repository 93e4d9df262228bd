//! The two closed formulas every projection is built from: growth of a lump
//! sum under compounding, and the future value of equal periodic payments.

use crate::decimal::{num_add, num_div, num_lt, num_mul, num_sub, Decimal, SCALE};
use crate::explog::num_pow;
use vstd::prelude::*;

verus! {

/// Growth of one unit over `periods` periods at `rate` per period:
/// `(1 + rate)^periods`.
pub open spec fn growth_factor(rate: Option<int>, periods: Option<int>) -> Option<int> {
    num_pow(num_add(Some(SCALE as int), rate), periods)
}

/// Value of `principal` after `periods` periods at `rate` per period:
/// `principal * (1 + rate)^periods`.
pub open spec fn compound_value(
    principal: Option<int>,
    rate: Option<int>,
    periods: Option<int>,
) -> Option<int> {
    num_mul(principal, growth_factor(rate, periods))
}

/// Future value of `contribution` paid once per period for `periods` periods:
/// `contribution * ((1 + rate)^periods - 1) / rate` for a positive rate,
/// `contribution * periods` otherwise.
pub open spec fn annuity_value(
    contribution: Option<int>,
    rate: Option<int>,
    periods: Option<int>,
) -> Option<int> {
    if num_lt(Some(0), rate) {
        num_div(
            num_mul(contribution, num_sub(growth_factor(rate, periods), Some(SCALE as int))),
            rate,
        )
    } else {
        num_mul(contribution, periods)
    }
}

/// Value of `principal` after `periods` periods of compounding at `rate` per
/// period.
pub fn compound_future_value(principal: Decimal, rate: Decimal, periods: Decimal) -> (r: Decimal)
    ensures
        r@ == compound_value(principal@, rate@, periods@),
{
    principal.mul(Decimal::one().add(rate).pow(periods))
}

/// Future value of a stream of equal contributions, one per period. A rate
/// that is not positive is never divided by.
pub fn annuity_future_value(contribution: Decimal, rate: Decimal, periods: Decimal) -> (r: Decimal)
    ensures
        r@ == annuity_value(contribution@, rate@, periods@),
{
    if rate.gt(&Decimal::zero()) {
        let growth = Decimal::one().add(rate).pow(periods);
        contribution.mul(growth.sub(Decimal::one())).div(rate)
    } else {
        contribution.mul(periods)
    }
}

} // verus!
