//! Accrual calculation library for fixed-income coupon mathematics.
//!
//! Two independent components built on a proleptic-Gregorian [`date::Date`]:
//! business-day rolling conventions derived from a caller-supplied holiday
//! predicate, and day-count fraction functions used to scale an annualized
//! rate into a period accrual amount.

use vstd::prelude::*;

pub mod calendar;
pub mod date;
pub mod day_count_fraction;

verus! {

/// A `BusinessDayConvetion` represents the method of date rolling in case
/// it falls on a non-business day.
#[derive(Debug)]
#[non_exhaustive]
pub enum BusinessDayConvetion {
    /// The adjusted date will be the first business day following the unadjusted date.
    Following,
    /// The adjusted date will be the first business day following the unadjusted date,
    /// unless it falls in the next calendar month - then the first preceding business day
    /// is the adjusted date.
    ModifiedFollowiing,
    /// The adjusted date will be the first business day preceding the unadjusted date.
    Preceding,
    /// The adjusted date will be the first business day preceding the unadjusted date,
    /// unless it falls in the previous calendar month - then the first following business day
    /// is the adjusted date.
    ModifiedPreceding,
    /// No date adjustment is made.
    NoAdjustment,
}

} // verus!
