//! A fixed-point currency amount: money held as a signed count of
//! hundredths of a unit, with verified parsing from decimal strings,
//! arithmetic, two-decimal rendering, and conversion from a bid amount.

pub mod amount;
pub mod bid;
pub mod decimal;
