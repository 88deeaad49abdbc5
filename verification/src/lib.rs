//! Conversion of an amount of money between its two forms: an integer count
//! of the smallest unit of its currency, and a binary64 number of major
//! units.
//!
//! `amount` holds the value type and the two conversions, `factor` the
//! currencies and how many subunits each has, `binary64` the arithmetic on
//! binary64 numbers that the conversions rest on, and `round_trip` what is
//! proved of converting an amount there and back.

pub mod amount;
pub mod arith;
pub mod binary64;
pub mod factor;
pub mod round_trip;
