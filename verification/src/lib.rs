//! Compound-interest projections on fixed-point decimals, with proofs.
//!
//! The library projects a lump sum under compound interest, with or without
//! monthly contributions, answers how long a target takes and what principal
//! reaches it, tabulates a projection year by year, and runs weekly
//! compounding with weekly contributions under a tax on each year's gain.
//!
//! Every amount, rate and duration is a [`Decimal`]: a signed number with
//! eighteen decimal places and a magnitude of at most 10^18, or not-a-number.
//! Arithmetic rounds toward zero; a result that leaves the range, a division
//! by zero and a logarithm of nothing positive are not-a-number, which every
//! later operation hands on. No function fails or panics.
//!
//! In contracts a decimal is an `Option<int>`: its count of units of 10^-18,
//! or `None`. The module [`decimal`] defines the arithmetic on that model,
//! [`power`] and [`explog`] the powers, and each projection states its result
//! as one expression over them. [`interest_laws`] and [`tax_laws`] prove what
//! follows from those expressions.

pub mod breakdown;
pub mod decimal;
pub mod explog;
pub mod format;
pub mod formulas;
pub mod interest;
pub mod interest_laws;
pub mod parse;
pub mod power;
pub mod rounding;
pub mod tax;
pub mod tax_laws;

pub use breakdown::generate_breakdown;
pub use decimal::Decimal;
pub use format::{format_currency, format_decimal, format_percentage};
pub use interest::{
    calculate_compound_interest, calculate_compound_interest_with_contributions,
    calculate_principal_for_target, calculate_time_to_target, CompoundInterestParams,
    CompoundInterestResult,
};
pub use parse::parse_decimal;
pub use tax::calculate_weekly_with_yearly_tax;
