//! Business-day calendars and the standard date-rolling conventions.
//!
//! A calendar is anything that can answer "is this date a holiday?"; the
//! weekend test, the business-day test and the four rolling conventions are
//! derived from that one predicate. Each rolling convention is specified by a
//! recursive spec function that walks the calendar day by day, so a rolling
//! method's contract pins down the exact returned date.

use vstd::prelude::*;
use crate::date::{
    is_weekend_day, lemma_day_number_bounds, lemma_pred_date, lemma_succ_date, max_date, min_date,
    pred_date, succ_date, Date,
};

verus! {

/// A business day is one that is neither a holiday nor a weekend day.
pub open spec fn is_business_day<C: HolidaySource + ?Sized>(cal: &C, d: Date) -> bool {
    !cal.holiday_spec(d) && !is_weekend_day(d)
}

/// The first business day at or after `d`, or `None` if every date from `d`
/// through `max_date` is non-business.
pub open spec fn roll_forward<C: HolidaySource + ?Sized>(cal: &C, d: Date) -> Option<Date>
    decreases max_date().day_number() - d.day_number(),
    when d.wf()
    via roll_forward_dec::<C>
{
    if is_business_day(cal, d) {
        Some(d)
    } else if d == max_date() {
        None
    } else {
        roll_forward(cal, succ_date(d))
    }
}

#[via_fn]
proof fn roll_forward_dec<C: HolidaySource + ?Sized>(cal: &C, d: Date) {
    if !is_business_day(cal, d) && d != max_date() {
        lemma_succ_date(d);
        lemma_day_number_bounds(d);
        lemma_day_number_bounds(succ_date(d));
    }
}

/// The first business day at or before `d`, or `None` if every date from
/// `min_date` through `d` is non-business.
pub open spec fn roll_backward<C: HolidaySource + ?Sized>(cal: &C, d: Date) -> Option<Date>
    decreases d.day_number(),
    when d.wf()
    via roll_backward_dec::<C>
{
    if is_business_day(cal, d) {
        Some(d)
    } else if d == min_date() {
        None
    } else {
        roll_backward(cal, pred_date(d))
    }
}

#[via_fn]
proof fn roll_backward_dec<C: HolidaySource + ?Sized>(cal: &C, d: Date) {
    if !is_business_day(cal, d) && d != min_date() {
        lemma_pred_date(d);
        lemma_day_number_bounds(d);
        lemma_day_number_bounds(pred_date(d));
    }
}

/// The first business day at or after `d` that still lies in month `m` of
/// year `y`; `None` as soon as the scan leaves that month.
pub open spec fn roll_forward_in_month<C: HolidaySource + ?Sized>(
    cal: &C,
    d: Date,
    m: u8,
    y: i32,
) -> Option<Date>
    decreases max_date().day_number() - d.day_number(),
    when d.wf()
    via roll_forward_in_month_dec::<C>
{
    if d.month != m || d.year != y {
        None
    } else if is_business_day(cal, d) {
        Some(d)
    } else if d == max_date() {
        None
    } else {
        roll_forward_in_month(cal, succ_date(d), m, y)
    }
}

#[via_fn]
proof fn roll_forward_in_month_dec<C: HolidaySource + ?Sized>(cal: &C, d: Date, m: u8, y: i32) {
    if d.month == m && d.year == y && !is_business_day(cal, d) && d != max_date() {
        lemma_succ_date(d);
        lemma_day_number_bounds(d);
        lemma_day_number_bounds(succ_date(d));
    }
}

/// The first business day at or before `d` that still lies in month `m` of
/// year `y`; `None` as soon as the scan leaves that month.
pub open spec fn roll_backward_in_month<C: HolidaySource + ?Sized>(
    cal: &C,
    d: Date,
    m: u8,
    y: i32,
) -> Option<Date>
    decreases d.day_number(),
    when d.wf()
    via roll_backward_in_month_dec::<C>
{
    if d.month != m || d.year != y {
        None
    } else if is_business_day(cal, d) {
        Some(d)
    } else if d == min_date() {
        None
    } else {
        roll_backward_in_month(cal, pred_date(d), m, y)
    }
}

#[via_fn]
proof fn roll_backward_in_month_dec<C: HolidaySource + ?Sized>(cal: &C, d: Date, m: u8, y: i32) {
    if d.month == m && d.year == y && !is_business_day(cal, d) && d != min_date() {
        lemma_pred_date(d);
        lemma_day_number_bounds(d);
        lemma_day_number_bounds(pred_date(d));
    }
}

/// The modified-following convention: a business day is kept; otherwise the
/// forward scan is bounded to the starting month, and if it fails the
/// unbounded backward scan from the original date is used instead.
pub open spec fn modified_following_spec<C: HolidaySource + ?Sized>(cal: &C, d: Date) -> Option<Date> {
    if is_business_day(cal, d) {
        Some(d)
    } else {
        let fwd = if d == max_date() {
            None
        } else {
            roll_forward_in_month(cal, succ_date(d), d.month, d.year)
        };
        match fwd {
            Some(x) => Some(x),
            None => if d == min_date() {
                None
            } else {
                roll_backward(cal, pred_date(d))
            },
        }
    }
}

/// The modified-preceding convention: a business day is kept; otherwise the
/// backward scan is bounded to the starting month, and if it fails the
/// unbounded forward scan from the original date is used instead.
pub open spec fn modified_preceding_spec<C: HolidaySource + ?Sized>(cal: &C, d: Date) -> Option<Date> {
    if is_business_day(cal, d) {
        Some(d)
    } else {
        let bwd = if d == min_date() {
            None
        } else {
            roll_backward_in_month(cal, pred_date(d), d.month, d.year)
        };
        match bwd {
            Some(x) => Some(x),
            None => if d == max_date() {
                None
            } else {
                roll_forward(cal, succ_date(d))
            },
        }
    }
}

/// A found forward roll is a well-formed business day not before the start.
proof fn lemma_roll_forward_some<C: HolidaySource + ?Sized>(cal: &C, d: Date)
    requires
        d.wf(),
    ensures
        roll_forward(cal, d) matches Some(x) ==> x.wf() && is_business_day(cal, x)
            && x.day_number() >= d.day_number(),
    decreases max_date().day_number() - d.day_number(),
{
    if !is_business_day(cal, d) && d != max_date() {
        lemma_succ_date(d);
        lemma_day_number_bounds(d);
        lemma_day_number_bounds(succ_date(d));
        lemma_roll_forward_some(cal, succ_date(d));
    }
}

/// A found backward roll is a well-formed business day not after the start.
proof fn lemma_roll_backward_some<C: HolidaySource + ?Sized>(cal: &C, d: Date)
    requires
        d.wf(),
    ensures
        roll_backward(cal, d) matches Some(x) ==> x.wf() && is_business_day(cal, x)
            && x.day_number() <= d.day_number(),
    decreases d.day_number(),
{
    if !is_business_day(cal, d) && d != min_date() {
        lemma_pred_date(d);
        lemma_day_number_bounds(d);
        lemma_day_number_bounds(pred_date(d));
        lemma_roll_backward_some(cal, pred_date(d));
    }
}

/// A found month-bounded forward roll is a business day in the given month.
proof fn lemma_roll_forward_in_month_some<C: HolidaySource + ?Sized>(cal: &C, d: Date, m: u8, y: i32)
    requires
        d.wf(),
    ensures
        roll_forward_in_month(cal, d, m, y) matches Some(x) ==> x.wf() && is_business_day(cal, x)
            && x.month == m && x.year == y && x.day_number() >= d.day_number(),
    decreases max_date().day_number() - d.day_number(),
{
    if d.month == m && d.year == y && !is_business_day(cal, d) && d != max_date() {
        lemma_succ_date(d);
        lemma_day_number_bounds(d);
        lemma_day_number_bounds(succ_date(d));
        lemma_roll_forward_in_month_some(cal, succ_date(d), m, y);
    }
}

/// A found month-bounded backward roll is a business day in the given month.
proof fn lemma_roll_backward_in_month_some<C: HolidaySource + ?Sized>(cal: &C, d: Date, m: u8, y: i32)
    requires
        d.wf(),
    ensures
        roll_backward_in_month(cal, d, m, y) matches Some(x) ==> x.wf() && is_business_day(cal, x)
            && x.month == m && x.year == y && x.day_number() <= d.day_number(),
    decreases d.day_number(),
{
    if d.month == m && d.year == y && !is_business_day(cal, d) && d != min_date() {
        lemma_pred_date(d);
        lemma_day_number_bounds(d);
        lemma_day_number_bounds(pred_date(d));
        lemma_roll_backward_in_month_some(cal, pred_date(d), m, y);
    }
}

/// Executable business-day test over the one required primitive.
fn check_business<C: HolidaySource + ?Sized>(cal: &C, d: Date) -> (b: bool)
    requires
        d.wf(),
    ensures
        b == is_business_day(cal, d),
{
    !cal.is_holiday(d) && !(d.weekday() >= 5)
}

/// Linear forward scan realizing [`roll_forward`].
fn scan_forward<C: HolidaySource + ?Sized>(cal: &C, start: Date) -> (r: Option<Date>)
    requires
        start.wf(),
    ensures
        r == roll_forward(cal, start),
{
    let mut cur = start;
    proof {
        lemma_day_number_bounds(cur);
    }
    loop
        invariant
            cur.wf(),
            roll_forward(cal, cur) == roll_forward(cal, start),
        decreases max_date().day_number() - cur.day_number(),
    {
        if check_business(cal, cur) {
            return Some(cur);
        }
        match cur.next_day() {
            None => {
                return None;
            },
            Some(n) => {
                proof {
                    lemma_succ_date(cur);
                    lemma_day_number_bounds(n);
                }
                cur = n;
            },
        }
    }
}

/// Linear backward scan realizing [`roll_backward`].
fn scan_backward<C: HolidaySource + ?Sized>(cal: &C, start: Date) -> (r: Option<Date>)
    requires
        start.wf(),
    ensures
        r == roll_backward(cal, start),
{
    let mut cur = start;
    loop
        invariant
            cur.wf(),
            roll_backward(cal, cur) == roll_backward(cal, start),
        decreases cur.day_number(),
    {
        if check_business(cal, cur) {
            return Some(cur);
        }
        match cur.prev_day() {
            None => {
                return None;
            },
            Some(p) => {
                proof {
                    lemma_pred_date(cur);
                    lemma_day_number_bounds(p);
                }
                cur = p;
            },
        }
    }
}

/// Linear month-bounded forward scan realizing [`roll_forward_in_month`].
fn scan_forward_in_month<C: HolidaySource + ?Sized>(cal: &C, start: Date, m: u8, y: i32) -> (r: Option<
    Date,
>)
    requires
        start.wf(),
    ensures
        r == roll_forward_in_month(cal, start, m, y),
{
    let mut cur = start;
    loop
        invariant
            cur.wf(),
            roll_forward_in_month(cal, cur, m, y) == roll_forward_in_month(cal, start, m, y),
        decreases max_date().day_number() - cur.day_number(),
    {
        if cur.month != m || cur.year != y {
            return None;
        }
        if check_business(cal, cur) {
            return Some(cur);
        }
        match cur.next_day() {
            None => {
                return None;
            },
            Some(n) => {
                proof {
                    lemma_succ_date(cur);
                    lemma_day_number_bounds(n);
                }
                cur = n;
            },
        }
    }
}

/// Linear month-bounded backward scan realizing [`roll_backward_in_month`].
fn scan_backward_in_month<C: HolidaySource + ?Sized>(cal: &C, start: Date, m: u8, y: i32) -> (r: Option<
    Date,
>)
    requires
        start.wf(),
    ensures
        r == roll_backward_in_month(cal, start, m, y),
{
    let mut cur = start;
    loop
        invariant
            cur.wf(),
            roll_backward_in_month(cal, cur, m, y) == roll_backward_in_month(cal, start, m, y),
        decreases cur.day_number(),
    {
        if cur.month != m || cur.year != y {
            return None;
        }
        if check_business(cal, cur) {
            return Some(cur);
        }
        match cur.prev_day() {
            None => {
                return None;
            },
            Some(p) => {
                proof {
                    lemma_pred_date(cur);
                    lemma_day_number_bounds(p);
                }
                cur = p;
            },
        }
    }
}

/// The one primitive a holiday-data source must supply: its holiday set,
/// as an executable predicate `is_holiday` mirrored at the specification
/// level by `holiday_spec`.
pub trait HolidaySource {
    /// The holiday set of this calendar, at the specification level.
    spec fn holiday_spec(&self, day: Date) -> bool;

    /// Checks whether the date is a bank holiday.
    fn is_holiday(&self, day: Date) -> (b: bool)
        requires
            day.wf(),
        ensures
            b == self.holiday_spec(day),
    ;
}

/// `Business` allows implementation of bank holiday calendars, which are
/// used for accrual-calculation date rolling.
///
/// An implementor supplies the one primitive `is_holiday` through the
/// supertrait [`HolidaySource`]; the weekend test, the business-day test and
/// the four standard rolling conventions are derived from it.
///
/// The derived weekend is fixed to Saturday and Sunday. A calendar whose
/// weekend differs can fold the difference into its holiday predicate, which
/// the rolling contracts treat as the one source of non-business days
/// besides the weekend.
pub trait Business: HolidaySource {
    /// Checks whether the date falls on a weekend (Saturday or Sunday).
    fn is_weekend(&self, day: Date) -> (b: bool)
        requires
            day.wf(),
        ensures
            b == is_weekend_day(day),
    {
        day.weekday() >= 5
    }

    /// Checks whether the date is a business day: neither a bank holiday nor
    /// a weekend day.
    fn is_business(&self, day: Date) -> (b: bool)
        requires
            day.wf(),
        ensures
            b == is_business_day(self, day),
    {
        !self.is_holiday(day) && !self.is_weekend(day)
    }

    /// Calculates the adjusted date using the `following` convention.
    ///
    /// A business day is returned unchanged; otherwise the first business day
    /// after `day` is returned, and `None` only if the scan exhausts the
    /// representable date range.
    fn following(&self, day: Date) -> (r: Option<Date>)
        requires
            day.wf(),
        ensures
            r == roll_forward(self, day),
            is_business_day(self, day) ==> r == Some(day),
            r matches Some(x) ==> x.wf() && is_business_day(self, x) && x.day_number()
                >= day.day_number(),
    {
        let r = scan_forward(self, day);
        proof {
            lemma_roll_forward_some(self, day);
        }
        r
    }

    /// Calculates the adjusted date using the `modified following` convention.
    ///
    /// A business day is returned unchanged; otherwise the forward scan is
    /// bounded to `day`'s calendar month, and if it finds nothing there the
    /// first business day before `day` is returned instead (unbounded).
    /// `None` only if every scanned date is non-business.
    fn modified_following(&self, day: Date) -> (r: Option<Date>)
        requires
            day.wf(),
        ensures
            r == modified_following_spec(self, day),
            is_business_day(self, day) ==> r == Some(day),
            r matches Some(x) ==> x.wf() && is_business_day(self, x),
            r matches Some(x) ==> (x.day_number() > day.day_number() ==> x.month == day.month
                && x.year == day.year),
    {
        if self.is_business(day) {
            return Some(day);
        }
        let fwd = match day.next_day() {
            None => None,
            Some(n) => {
                proof {
                    lemma_succ_date(day);
                }
                scan_forward_in_month(self, n, day.month, day.year)
            },
        };
        match fwd {
            Some(x) => {
                proof {
                    if day != max_date() {
                        lemma_succ_date(day);
                        lemma_roll_forward_in_month_some(self, succ_date(day), day.month, day.year);
                    }
                }
                Some(x)
            },
            None => {
                match day.prev_day() {
                    None => None,
                    Some(p) => {
                        proof {
                            lemma_pred_date(day);
                        }
                        let r = scan_backward(self, p);
                        proof {
                            lemma_roll_backward_some(self, p);
                        }
                        r
                    },
                }
            },
        }
    }

    /// Calculates the adjusted date using the `preceding` convention.
    ///
    /// A business day is returned unchanged; otherwise the first business day
    /// before `day` is returned, and `None` only if the scan exhausts the
    /// representable date range.
    fn preceding(&self, day: Date) -> (r: Option<Date>)
        requires
            day.wf(),
        ensures
            r == roll_backward(self, day),
            is_business_day(self, day) ==> r == Some(day),
            r matches Some(x) ==> x.wf() && is_business_day(self, x) && x.day_number()
                <= day.day_number(),
    {
        let r = scan_backward(self, day);
        proof {
            lemma_roll_backward_some(self, day);
        }
        r
    }

    /// Calculates the adjusted date using the `modified preceding` convention.
    ///
    /// A business day is returned unchanged; otherwise the backward scan is
    /// bounded to `day`'s calendar month, and if it finds nothing there the
    /// first business day after `day` is returned instead (unbounded).
    /// `None` only if every scanned date is non-business.
    fn modified_preceding(&self, day: Date) -> (r: Option<Date>)
        requires
            day.wf(),
        ensures
            r == modified_preceding_spec(self, day),
            is_business_day(self, day) ==> r == Some(day),
            r matches Some(x) ==> x.wf() && is_business_day(self, x),
            r matches Some(x) ==> (x.day_number() < day.day_number() ==> x.month == day.month
                && x.year == day.year),
    {
        if self.is_business(day) {
            return Some(day);
        }
        let bwd = match day.prev_day() {
            None => None,
            Some(p) => {
                proof {
                    lemma_pred_date(day);
                }
                scan_backward_in_month(self, p, day.month, day.year)
            },
        };
        match bwd {
            Some(x) => {
                proof {
                    if day != min_date() {
                        lemma_pred_date(day);
                        lemma_roll_backward_in_month_some(
                            self,
                            pred_date(day),
                            day.month,
                            day.year,
                        );
                    }
                }
                Some(x)
            },
            None => {
                match day.next_day() {
                    None => None,
                    Some(n) => {
                        proof {
                            lemma_succ_date(day);
                        }
                        let r = scan_forward(self, n);
                        proof {
                            lemma_roll_forward_some(self, n);
                        }
                        r
                    },
                }
            },
        }
    }
}

/// A calendar with no holidays: only weekends are non-business days.
#[derive(Clone, Copy, Debug)]
pub struct WeekendOnlyCalendar;

impl HolidaySource for WeekendOnlyCalendar {
    open spec fn holiday_spec(&self, day: Date) -> bool {
        false
    }

    fn is_holiday(&self, day: Date) -> (b: bool) {
        false
    }
}

impl Business for WeekendOnlyCalendar {
}

/// A calendar whose holidays are the dates of an explicit list.
#[derive(Debug)]
pub struct HolidayListCalendar {
    /// The designated holidays.
    pub holidays: Vec<Date>,
}

impl Business for HolidayListCalendar {
}

impl HolidaySource for HolidayListCalendar {
    open spec fn holiday_spec(&self, day: Date) -> bool {
        self.holidays@.contains(day)
    }

    fn is_holiday(&self, day: Date) -> (b: bool) {
        let mut i: usize = 0;
        while i < self.holidays.len()
            invariant
                i <= self.holidays.len(),
                forall|j: int| 0 <= j < i ==> self.holidays@[j] != day,
            decreases self.holidays.len() - i,
        {
            if self.holidays[i] == day {
                return true;
            }
            i = i + 1;
        }
        false
    }
}

} // verus!
