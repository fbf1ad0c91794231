//! A verified personal budget ledger.
//!
//! Money is held exactly, as a signed number of cents, so that totals and
//! two-decimal rendering carry proofs instead of floating-point rounding.

pub mod digits;
pub mod format;
pub mod ledger;
pub mod parse;
