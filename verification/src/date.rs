//! A proleptic-Gregorian calendar date with a verified day-number model.
//!
//! Every date is identified with its *day number*: the count of days from the
//! day before the minimum representable date (`0001-01-01` has day number 1,
//! `9999-12-31` has day number 3_652_059). All ordering, day arithmetic and
//! weekday reasoning in this crate is stated over that model.

use vstd::prelude::*;
use vstd::arithmetic::div_mod::{
    lemma_div_is_ordered_by_denominator, lemma_fundamental_div_mod,
    lemma_fundamental_div_mod_converse, lemma_mod_bound, lemma_mod_multiples_basic,
};

verus! {

/// First representable year.
pub const MIN_YEAR: i32 = 1;

/// Last representable year.
pub const MAX_YEAR: i32 = 9999;

/// An immutable calendar date: year, month and day in the proleptic
/// Gregorian calendar, with no time-of-day or timezone component.
#[derive(Clone, Copy, Debug, PartialEq, Eq, Structural)]
pub struct Date {
    /// Calendar year, between `MIN_YEAR` and `MAX_YEAR`.
    pub year: i32,
    /// Calendar month, 1 through 12.
    pub month: u8,
    /// Day of the month, 1 through the month's length.
    pub day: u8,
}

/// Whether `y` is a leap year: divisible by 4, and either not divisible
/// by 100 or divisible by 400.
pub open spec fn is_leap_year(y: int) -> bool {
    y % 4 == 0 && (y % 100 != 0 || y % 400 == 0)
}

/// Number of days of month `m` in year `y` (29 for February of a leap year).
pub open spec fn days_in_month(y: int, m: int) -> int {
    if m == 2 {
        if is_leap_year(y) {
            29
        } else {
            28
        }
    } else if m == 4 || m == 6 || m == 9 || m == 11 {
        30
    } else {
        31
    }
}

/// Number of days of year `y`: 366 for a leap year, else 365.
pub open spec fn year_length(y: int) -> int {
    if is_leap_year(y) {
        366
    } else {
        365
    }
}

/// Days of year `y` that precede the first day of month `m`.
pub open spec fn days_before_month(y: int, m: int) -> int
    decreases m,
{
    if m <= 1 {
        0
    } else {
        days_before_month(y, m - 1) + days_in_month(y, m - 1)
    }
}

/// Number of leap years among `1..=n`.
pub open spec fn leap_count(n: int) -> int {
    n / 4 - n / 100 + n / 400
}

/// Days that precede January 1 of year `y`, counted from `0001-01-01`
/// (so `days_before_year(1) == 0`).
pub open spec fn days_before_year(y: int) -> int {
    365 * (y - 1) + leap_count(y - 1)
}

/// The smallest representable date, `0001-01-01`.
pub open spec fn min_date() -> Date {
    Date { year: MIN_YEAR, month: 1, day: 1 }
}

/// The largest representable date, `9999-12-31`.
pub open spec fn max_date() -> Date {
    Date { year: MAX_YEAR, month: 12, day: 31 }
}

/// The calendar successor of `d` (meaningful while `d` is below `max_date`).
pub open spec fn succ_date(d: Date) -> Date {
    if d.day < days_in_month(d.year as int, d.month as int) {
        Date { year: d.year, month: d.month, day: (d.day + 1) as u8 }
    } else if d.month < 12 {
        Date { year: d.year, month: (d.month + 1) as u8, day: 1 }
    } else {
        Date { year: (d.year + 1) as i32, month: 1, day: 1 }
    }
}

/// The calendar predecessor of `d` (meaningful while `d` is above `min_date`).
pub open spec fn pred_date(d: Date) -> Date {
    if d.day > 1 {
        Date { year: d.year, month: d.month, day: (d.day - 1) as u8 }
    } else if d.month > 1 {
        Date {
            year: d.year,
            month: (d.month - 1) as u8,
            day: days_in_month(d.year as int, d.month as int - 1) as u8,
        }
    } else {
        Date { year: (d.year - 1) as i32, month: 12, day: 31 }
    }
}

/// Weekday of `d` as an index: 0 is Monday through 6 is Sunday
/// (`0001-01-01` of the proleptic Gregorian calendar is a Monday).
pub open spec fn weekday_index(d: Date) -> int {
    (d.day_number() - 1) % 7
}

/// Whether `d` falls on a Saturday or a Sunday.
pub open spec fn is_weekend_day(d: Date) -> bool {
    weekday_index(d) >= 5
}

impl Date {
    /// Validity: month and day lie within the calendar's bounds for the year.
    pub open spec fn wf(self) -> bool {
        &&& MIN_YEAR <= self.year <= MAX_YEAR
        &&& 1 <= self.month <= 12
        &&& 1 <= self.day <= days_in_month(self.year as int, self.month as int)
    }

    /// Ordinal day within the year: `1` for January 1, up to the year length.
    pub open spec fn ordinal(self) -> int {
        days_before_month(self.year as int, self.month as int) + self.day
    }

    /// The day-number model of this date: days elapsed since the day before
    /// `0001-01-01`. Strictly monotone in the calendar order.
    pub open spec fn day_number(self) -> int {
        days_before_year(self.year as int) + self.ordinal()
    }

    /// Builds a date after validating the month and day against the calendar;
    /// returns `None` exactly on invalid inputs.
    pub fn new(year: i32, month: u8, day: u8) -> (r: Option<Date>)
        ensures
            ({
                let d = Date { year, month, day };
                if d.wf() {
                    r == Some(d)
                } else {
                    r is None
                }
            }),
    {
        if year < MIN_YEAR || year > MAX_YEAR || month < 1 || month > 12 {
            return None;
        }
        let dim = days_in_month_exec(year, month);
        if day < 1 || day > dim {
            return None;
        }
        Some(Date { year, month, day })
    }

    /// Day number as a machine integer.
    pub fn to_day_number(self) -> (n: u32)
        requires
            self.wf(),
        ensures
            n as int == self.day_number(),
    {
        proof {
            lemma_div_is_ordered_by_denominator(self.year as int - 1, 4, 100);
            lemma_leap_count_mono(0, self.year as int - 1);
            lemma_day_number_bounds(self);
        }
        let ym1: u32 = (self.year - 1) as u32;
        let leaps: u32 = ym1 / 4 - ym1 / 100 + ym1 / 400;
        let dby: u32 = 365 * ym1 + leaps;
        let dbm: u32 = days_before_month_exec(self.year, self.month) as u32;
        dby + dbm + (self.day as u32)
    }

    /// Ordinal-day-within-year accessor.
    pub fn ordinal_day(self) -> (n: u16)
        requires
            self.wf(),
        ensures
            n as int == self.ordinal(),
    {
        proof {
            lemma_ordinal_bounds(self);
        }
        days_before_month_exec(self.year, self.month) + (self.day as u16)
    }

    /// Weekday accessor: 0 is Monday through 6 is Sunday.
    pub fn weekday(self) -> (w: u8)
        requires
            self.wf(),
        ensures
            w as int == weekday_index(self),
            w < 7,
    {
        proof {
            lemma_day_number_bounds(self);
            lemma_mod_bound(self.day_number() - 1, 7);
        }
        let n = self.to_day_number();
        ((n - 1) % 7) as u8
    }

    /// Whole-day ordering of dates, equal to the day-number order.
    pub fn le(self, other: Date) -> (b: bool)
        requires
            self.wf(),
            other.wf(),
        ensures
            b == (self.day_number() <= other.day_number()),
    {
        self.to_day_number() <= other.to_day_number()
    }

    /// The next calendar day; `None` exactly at the maximum representable date.
    pub fn next_day(self) -> (r: Option<Date>)
        requires
            self.wf(),
        ensures
            self == max_date() ==> r is None,
            self != max_date() ==> r == Some(succ_date(self)),
    {
        if self.year == MAX_YEAR && self.month == 12 && self.day == 31 {
            return None;
        }
        let dim = days_in_month_exec(self.year, self.month);
        if self.day < dim {
            Some(Date { year: self.year, month: self.month, day: self.day + 1 })
        } else if self.month < 12 {
            Some(Date { year: self.year, month: self.month + 1, day: 1 })
        } else {
            Some(Date { year: self.year + 1, month: 1, day: 1 })
        }
    }

    /// The previous calendar day; `None` exactly at the minimum representable date.
    pub fn prev_day(self) -> (r: Option<Date>)
        requires
            self.wf(),
        ensures
            self == min_date() ==> r is None,
            self != min_date() ==> r == Some(pred_date(self)),
    {
        if self.year == MIN_YEAR && self.month == 1 && self.day == 1 {
            return None;
        }
        if self.day > 1 {
            Some(Date { year: self.year, month: self.month, day: self.day - 1 })
        } else if self.month > 1 {
            let dim = days_in_month_exec(self.year, self.month - 1);
            Some(Date { year: self.year, month: self.month - 1, day: dim })
        } else {
            Some(Date { year: self.year - 1, month: 12, day: 31 })
        }
    }
}

/// Executable leap-year test, equal to [`is_leap_year`].
pub fn is_leap_year_exec(y: i32) -> (b: bool)
    requires
        y >= 1,
    ensures
        b == is_leap_year(y as int),
{
    let yu: u32 = y as u32;
    yu % 4 == 0 && (yu % 100 != 0 || yu % 400 == 0)
}

/// Executable month length, equal to [`days_in_month`].
pub fn days_in_month_exec(y: i32, m: u8) -> (n: u8)
    requires
        y >= 1,
        1 <= m <= 12,
    ensures
        n == days_in_month(y as int, m as int),
{
    if m == 2 {
        if is_leap_year_exec(y) {
            29
        } else {
            28
        }
    } else if m == 4 || m == 6 || m == 9 || m == 11 {
        30
    } else {
        31
    }
}

/// Executable days-before-month, equal to [`days_before_month`].
pub fn days_before_month_exec(y: i32, m: u8) -> (n: u16)
    requires
        y >= 1,
        1 <= m <= 12,
    ensures
        n == days_before_month(y as int, m as int),
{
    proof {
        reveal_with_fuel(days_before_month, 13);
    }
    let base: u16 = if m == 1 {
        0
    } else if m == 2 {
        31
    } else if m == 3 {
        59
    } else if m == 4 {
        90
    } else if m == 5 {
        120
    } else if m == 6 {
        151
    } else if m == 7 {
        181
    } else if m == 8 {
        212
    } else if m == 9 {
        243
    } else if m == 10 {
        273
    } else if m == 11 {
        304
    } else {
        334
    };
    if m > 2 && is_leap_year_exec(y) {
        base + 1
    } else {
        base
    }
}

/// One step of integer division: going from `n - 1` to `n` raises `n / d`
/// exactly when `d` divides `n`.
proof fn lemma_div_step(n: int, d: int)
    requires
        n >= 1,
        d >= 1,
    ensures
        n / d == (n - 1) / d + if n % d == 0 { 1int } else { 0int },
{
    lemma_fundamental_div_mod(n, d);
    lemma_mod_bound(n, d);
    let q = n / d;
    let r = n % d;
    if r == 0 {
        assert(n - 1 == (q - 1) * d + (d - 1)) by (nonlinear_arith)
            requires
                n == d * q + r,
                r == 0,
        ;
        lemma_fundamental_div_mod_converse(n - 1, d, q - 1, d - 1);
    } else {
        assert(n - 1 == q * d + (r - 1)) by (nonlinear_arith)
            requires
                n == d * q + r,
        ;
        lemma_fundamental_div_mod_converse(n - 1, d, q, r - 1);
    }
}

/// The leap-year count grows by one exactly at leap years.
pub proof fn lemma_leap_count_step(n: int)
    requires
        n >= 1,
    ensures
        leap_count(n) == leap_count(n - 1) + if is_leap_year(n) { 1int } else { 0int },
{
    lemma_div_step(n, 4);
    lemma_div_step(n, 100);
    lemma_div_step(n, 400);
    if n % 400 == 0 {
        lemma_fundamental_div_mod(n, 400);
        let q = n / 400;
        assert(n == (4 * q) * 100);
        lemma_mod_multiples_basic(4 * q, 100);
    }
    if n % 100 == 0 {
        lemma_fundamental_div_mod(n, 100);
        let q = n / 100;
        assert(n == (25 * q) * 4);
        lemma_mod_multiples_basic(25 * q, 4);
    }
}

/// The leap-year count is monotone and grows at most one per year.
pub proof fn lemma_leap_count_mono(a: int, b: int)
    requires
        0 <= a <= b,
    ensures
        leap_count(a) <= leap_count(b) <= leap_count(a) + (b - a),
    decreases b - a,
{
    if a < b {
        lemma_leap_count_mono(a, b - 1);
        lemma_leap_count_step(b);
    }
}

/// Crossing from year `y` to year `y + 1` adds exactly one year length.
pub proof fn lemma_year_start_step(y: int)
    requires
        y >= 1,
    ensures
        days_before_year(y + 1) == days_before_year(y) + year_length(y),
{
    lemma_leap_count_step(y);
}

/// `days_before_year` is monotone, with at least 365 days per year.
pub proof fn lemma_dby_mono(a: int, b: int)
    requires
        1 <= a <= b,
    ensures
        days_before_year(b) - days_before_year(a) >= 365 * (b - a),
{
    lemma_leap_count_mono(a - 1, b - 1);
}

/// `days_before_month` is monotone in the month.
pub proof fn lemma_dbm_mono(y: int, m1: int, m2: int)
    requires
        m1 <= m2,
    ensures
        days_before_month(y, m1) <= days_before_month(y, m2),
    decreases m2 - m1,
{
    if m1 < m2 {
        lemma_dbm_mono(y, m1, m2 - 1);
        assert(days_in_month(y, m2 - 1) >= 28);
    }
}

/// The days of the twelve months sum to the year length.
pub proof fn lemma_dbm_year(y: int)
    ensures
        days_before_month(y, 13) == year_length(y),
{
    reveal_with_fuel(days_before_month, 14);
}

/// An ordinal day lies between 1 and the year length.
pub proof fn lemma_ordinal_bounds(d: Date)
    requires
        d.wf(),
    ensures
        1 <= d.ordinal() <= year_length(d.year as int),
{
    let y = d.year as int;
    let m = d.month as int;
    lemma_dbm_mono(y, 1, m);
    lemma_dbm_mono(y, m + 1, 13);
    lemma_dbm_year(y);
    assert(days_before_month(y, m + 1) == days_before_month(y, m) + days_in_month(y, m));
}

/// Day numbers of well-formed dates lie between 1 and the maximum date's.
pub proof fn lemma_day_number_bounds(d: Date)
    requires
        d.wf(),
    ensures
        1 <= d.day_number() <= max_date().day_number(),
        max_date().day_number() == 3652059,
{
    let y = d.year as int;
    lemma_ordinal_bounds(d);
    lemma_dby_mono(1, y);
    lemma_year_start_step(y);
    lemma_dby_mono(y + 1, 10000);
    lemma_dbm_year(9999);
    assert(days_before_month(9999, 13) == days_before_month(9999, 12) + days_in_month(9999, 12));
    lemma_year_start_step(9999);
    assert(leap_count(9999) == 9999int / 4 - 9999int / 100 + 9999int / 400);
}

/// A date strictly below another in the calendar (lexicographic) order has a
/// strictly smaller day number.
pub proof fn lemma_day_number_lt(a: Date, b: Date)
    requires
        a.wf(),
        b.wf(),
        a.year < b.year || (a.year == b.year && a.month < b.month) || (a.year == b.year
            && a.month == b.month && a.day < b.day),
    ensures
        a.day_number() < b.day_number(),
{
    let ay = a.year as int;
    let by = b.year as int;
    if a.year < b.year {
        lemma_ordinal_bounds(a);
        lemma_ordinal_bounds(b);
        lemma_year_start_step(ay);
        lemma_dby_mono(ay + 1, by);
    } else if a.month < b.month {
        lemma_dbm_mono(ay, a.month as int + 1, b.month as int);
        assert(days_before_month(ay, a.month as int + 1) == days_before_month(ay, a.month as int)
            + days_in_month(ay, a.month as int));
    }
}

/// The day-number order coincides with the calendar (lexicographic) order.
pub proof fn lemma_day_number_order(a: Date, b: Date)
    requires
        a.wf(),
        b.wf(),
    ensures
        (a.day_number() <= b.day_number()) <==> (a.year < b.year || (a.year == b.year && (a.month
            < b.month || (a.month == b.month && a.day <= b.day)))),
{
    if a.year < b.year || (a.year == b.year && a.month < b.month) || (a.year == b.year && a.month
        == b.month && a.day < b.day) {
        lemma_day_number_lt(a, b);
    } else if !(a.year == b.year && a.month == b.month && a.day == b.day) {
        lemma_day_number_lt(b, a);
    }
}

/// The calendar successor of a well-formed date below the maximum is
/// well-formed and advances the day number by exactly one.
pub proof fn lemma_succ_date(d: Date)
    requires
        d.wf(),
        d != max_date(),
    ensures
        succ_date(d).wf(),
        succ_date(d).day_number() == d.day_number() + 1,
{
    let y = d.year as int;
    let m = d.month as int;
    if d.day < days_in_month(y, m) {
        // same month: ordinal rises by one
    } else if d.month < 12 {
        assert(days_before_month(y, m + 1) == days_before_month(y, m) + days_in_month(y, m));
        assert(days_in_month(y, m + 1) >= 28);
    } else {
        lemma_dbm_year(y);
        assert(days_before_month(y, 13) == days_before_month(y, 12) + days_in_month(y, 12));
        lemma_year_start_step(y);
        assert(days_before_month(y + 1, 1) == 0);
    }
}

/// The calendar predecessor of a well-formed date above the minimum is
/// well-formed, is undone by `succ_date`, and lowers the day number by one.
pub proof fn lemma_pred_date(d: Date)
    requires
        d.wf(),
        d != min_date(),
    ensures
        pred_date(d).wf(),
        succ_date(pred_date(d)) == d,
        pred_date(d).day_number() == d.day_number() - 1,
{
    let y = d.year as int;
    let m = d.month as int;
    let p = pred_date(d);
    if d.day > 1 {
        assert(p.wf());
        assert(succ_date(p) == d);
    } else if d.month > 1 {
        assert(days_in_month(y, m - 1) >= 28);
        assert(p.wf());
        assert(succ_date(p) == d);
    } else {
        assert(p.wf());
        assert(succ_date(p) == d);
    }
    assert(p != max_date());
    lemma_succ_date(p);
}

} // verus!
