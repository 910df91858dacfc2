//! Day-count fraction calculation.
//!
//! Each function takes an ordered date pair and returns the fraction of a
//! year it spans under one market convention, as a `rust_decimal::Decimal`,
//! or `None` when `start > end`. The day and year-length counting is
//! verified exactly over the [`crate::date`] day-number model; only the final
//! integer-ratio-to-decimal conversion is delegated to `rust_decimal`.

use vstd::prelude::*;
use crate::date::{
    is_leap_year_exec, lemma_day_number_order, lemma_ordinal_bounds, year_length, Date,
};

verus! {

/// rust_decimal's fixed-point decimal number; the crate uses it opaquely as
/// the result type of the day-count fractions.
#[verifier::external_type_specification]
#[verifier::external_body]
pub struct ExDecimal(rust_decimal::Decimal);

/// The decimal that rust_decimal assigns to the integer ratio `num / den`:
/// the exact rational rounded to the decimal's working precision.
pub uninterp spec fn decimal_ratio(num: int, den: int) -> rust_decimal::Decimal;

/// Relies on rust_decimal: `Decimal::new(n, 0)` cannot fail at scale 0, and
/// `Div for Decimal` panics only on a zero divisor or an overflowing
/// quotient; a quotient of two integer-valued decimals is bounded by its
/// dividend, so with `den > 0` the division always returns. The result is a
/// function of `num` and `den` alone, named [`decimal_ratio`].
#[verifier::external_body]
fn decimal_of_ratio(num: i64, den: i64) -> (r: rust_decimal::Decimal)
    requires
        den > 0,
    ensures
        r == decimal_ratio(num as int, den as int),
{
    rust_decimal::Decimal::new(num, 0) / rust_decimal::Decimal::new(den, 0)
}

/// Numerator of the actual-day-count conventions: whole days between the dates.
pub open spec fn act_num(start: Date, end: Date) -> int {
    end.day_number() - start.day_number()
}

/// Denominator of the ACT/ACT-ISDA fraction: the start year's length, or the
/// product of both year lengths when the interval spans a year boundary.
pub open spec fn isda_den(start: Date, end: Date) -> int {
    if start.year == end.year {
        year_length(start.year as int)
    } else {
        year_length(start.year as int) * year_length(end.year as int)
    }
}

/// Numerator of the ACT/ACT-ISDA fraction over [`isda_den`]: the days of
/// `[start, end)` falling in each calendar year, over that year's length.
/// Within one year that is the actual days; across years, the start year
/// keeps its days from `start` through December 31 (`length - ordinal + 1`),
/// each full intervening year contributes exactly one, and the end year
/// holds the days before `end` (`ordinal - 1`), brought to the common
/// denominator.
pub open spec fn isda_num(start: Date, end: Date) -> int {
    if start.year == end.year {
        end.day_number() - start.day_number()
    } else {
        let l1 = year_length(start.year as int);
        let l2 = year_length(end.year as int);
        let n1 = l1 - start.ordinal() + 1;
        let k = end.year - start.year - 1;
        n1 * l2 + k * (l1 * l2) + (end.ordinal() - 1) * l1
    }
}

/// Numerator of the 30/360 (bond basis) fraction, after day-of-month
/// clamping: a start day of 31 counts as 30, and an end day of 31 counts as
/// 30 when the clamped start day is 30.
pub open spec fn d30_360_num(start: Date, end: Date) -> int {
    let sd: int = if start.day == 31 {
        30
    } else {
        start.day as int
    };
    let ed: int = if end.day == 31 && sd == 30 {
        30
    } else {
        end.day as int
    };
    360 * (end.year - start.year) + 30 * (end.month - start.month) + (ed - sd)
}

/// Returns an `ACT/360` day count fraction for the dates provided:
/// whole days between the dates over 360. `None` exactly when `start > end`.
pub fn act_360(start: Date, end: Date) -> (r: Option<rust_decimal::Decimal>)
    requires
        start.wf(),
        end.wf(),
    ensures
        r is Some <==> start.day_number() <= end.day_number(),
        start.day_number() <= end.day_number() ==> r == Some(
            decimal_ratio(act_num(start, end), 360),
        ),
{
    let s = start.to_day_number();
    let e = end.to_day_number();
    if s > e {
        return None;
    }
    Some(decimal_of_ratio((e - s) as i64, 360))
}

/// Returns an `ACT/365 (Fixed)` day count fraction for the dates provided:
/// whole days between the dates over 365, irrespective of leap years.
/// `None` exactly when `start > end`.
pub fn act_365f(start: Date, end: Date) -> (r: Option<rust_decimal::Decimal>)
    requires
        start.wf(),
        end.wf(),
    ensures
        r is Some <==> start.day_number() <= end.day_number(),
        start.day_number() <= end.day_number() ==> r == Some(
            decimal_ratio(act_num(start, end), 365),
        ),
{
    let s = start.to_day_number();
    let e = end.to_day_number();
    if s > e {
        return None;
    }
    Some(decimal_of_ratio((e - s) as i64, 365))
}

/// Returns an `ACT/ACT (ISDA)` day count fraction: the interval is split at
/// calendar-year boundaries and each piece is divided by the actual length
/// of its year. `None` exactly when `start > end`.
pub fn act_act_isda(start: Date, end: Date) -> (r: Option<rust_decimal::Decimal>)
    requires
        start.wf(),
        end.wf(),
    ensures
        r is Some <==> start.day_number() <= end.day_number(),
        start.day_number() <= end.day_number() ==> r == Some(
            decimal_ratio(isda_num(start, end), isda_den(start, end)),
        ),
{
    let s = start.to_day_number();
    let e = end.to_day_number();
    if s > e {
        return None;
    }
    if start.year == end.year {
        let len: i64 = if is_leap_year_exec(start.year) {
            366
        } else {
            365
        };
        Some(decimal_of_ratio((e - s) as i64, len))
    } else {
        proof {
            lemma_day_number_order(start, end);
            lemma_ordinal_bounds(start);
            lemma_ordinal_bounds(end);
            assert(1 <= start.ordinal() <= 366);
            assert(1 <= end.ordinal() <= 366);
        }
        let l1: i64 = if is_leap_year_exec(start.year) {
            366
        } else {
            365
        };
        let l2: i64 = if is_leap_year_exec(end.year) {
            366
        } else {
            365
        };
        let n1: i64 = l1 - (start.ordinal_day() as i64) + 1;
        let n2: i64 = (end.ordinal_day() as i64) - 1;
        let k: i64 = (end.year - start.year) as i64 - 1;
        proof {
            assert(0 <= n1 * l2 <= 366 * 366 && 0 <= n2 * l1 <= 366 * 366 && 365 * 365 <= l1 * l2
                <= 366 * 366 && 0 <= k * (l1 * l2) <= 9998 * (366 * 366)) by (nonlinear_arith)
                requires
                    1 <= n1 <= 366,
                    0 <= n2 <= 365,
                    365 <= l1 <= 366,
                    365 <= l2 <= 366,
                    0 <= k <= 9998,
            ;
        }
        let num: i64 = n1 * l2 + k * (l1 * l2) + n2 * l1;
        Some(decimal_of_ratio(num, l1 * l2))
    }
}

/// Calculates `ACT/ACT (ICMA)` day count fraction for the given dates.
///
/// The ICMA rule cannot be determined by the two accrual dates alone: it
/// also needs the reference coupon period bounding the accrual and the
/// coupon frequency per year, and equals the days between the dates over
/// the reference period's days times the frequency. `None` exactly when
/// `start > end`, when the reference period is empty or inverted, or when
/// the frequency is zero.
pub fn act_act_isma(
    start: Date,
    end: Date,
    ref_start: Date,
    ref_end: Date,
    freq: u32,
) -> (r: Option<rust_decimal::Decimal>)
    requires
        start.wf(),
        end.wf(),
        ref_start.wf(),
        ref_end.wf(),
    ensures
        r is Some <==> (start.day_number() <= end.day_number() && ref_start.day_number()
            < ref_end.day_number() && freq > 0),
        (start.day_number() <= end.day_number() && ref_start.day_number()
            < ref_end.day_number() && freq > 0) ==> r == Some(
            decimal_ratio(
                act_num(start, end),
                (ref_end.day_number() - ref_start.day_number()) * freq,
            ),
        ),
{
    let s = start.to_day_number();
    let e = end.to_day_number();
    let rs = ref_start.to_day_number();
    let re = ref_end.to_day_number();
    if s > e || rs >= re || freq == 0 {
        return None;
    }
    proof {
        crate::date::lemma_day_number_bounds(ref_start);
        crate::date::lemma_day_number_bounds(ref_end);
        assert(((re - rs) as i64) * (freq as i64) >= 1 && ((re - rs) as i64) * (freq as i64)
            <= 3652059i64 * 0xffff_ffffi64) by (nonlinear_arith)
            requires
                1 <= (re - rs) as i64 <= 3652059,
                1 <= freq as i64 <= 0xffff_ffffi64,
        ;
    }
    let den: i64 = ((re - rs) as i64) * (freq as i64);
    Some(decimal_of_ratio((e - s) as i64, den))
}

/// Returns a `30/360` (bond basis) day count fraction for the given dates,
/// with the standard day-of-month clamping of [`d30_360_num`]. `None`
/// exactly when `start > end`.
pub fn d30_360(start: Date, end: Date) -> (r: Option<rust_decimal::Decimal>)
    requires
        start.wf(),
        end.wf(),
    ensures
        r is Some <==> start.day_number() <= end.day_number(),
        start.day_number() <= end.day_number() ==> r == Some(
            decimal_ratio(d30_360_num(start, end), 360),
        ),
{
    let s = start.to_day_number();
    let e = end.to_day_number();
    if s > e {
        return None;
    }
    let start_day: i64 = if start.day == 31 {
        30
    } else {
        start.day as i64
    };
    let end_day: i64 = if end.day == 31 && start_day == 30 {
        30
    } else {
        end.day as i64
    };
    let years: i64 = (end.year as i64) - (start.year as i64);
    let months: i64 = (end.month as i64) - (start.month as i64);
    let days: i64 = end_day - start_day;
    Some(decimal_of_ratio(years * 360 + months * 30 + days, 360))
}

/// ACT/ACT-ISDA partition law: splitting the interval at a calendar-year
/// boundary (a January 1 strictly between the endpoints) is exact. Stated by
/// cross-multiplication over the fraction's numerator and denominator:
/// `num(start, end) / den(start, end)` equals
/// `num(start, mid) / den(start, mid) + num(mid, end) / den(mid, end)`.
#[verifier::rlimit(100)]
pub proof fn lemma_act_act_isda_partition(start: Date, mid: Date, end: Date)
    requires
        start.wf(),
        mid.wf(),
        end.wf(),
        start.day_number() < mid.day_number(),
        mid.day_number() < end.day_number(),
        mid.month == 1,
        mid.day == 1,
    ensures
        isda_num(start, end) * (isda_den(start, mid) * isda_den(mid, end)) == (isda_num(start, mid)
            * isda_den(mid, end) + isda_num(mid, end) * isda_den(start, mid)) * isda_den(
            start,
            end,
        ),
{
    lemma_day_number_order(start, mid);
    lemma_day_number_order(mid, end);
    let a = start.year as int;
    let yy = mid.year as int;
    let b = end.year as int;
    // a January 1 strictly after `start` lies in a strictly later year,
    // and strictly before `end` lies in the same year as `end` or earlier
    assert(a < yy);
    assert(yy <= b);
    let la = year_length(a);
    let ly = year_length(yy);
    let lb = year_length(b);
    let n1 = la - start.ordinal() + 1;
    let oe1 = end.ordinal() - 1;
    let k1 = yy - a - 1;
    assert(mid.ordinal() == 1);
    let s_num = isda_num(start, mid);
    let e_num = isda_num(start, end);
    if b == yy {
        let m_num = isda_num(mid, end);
        assert(m_num == oe1);
        assert(s_num == n1 * ly + k1 * (la * ly));
        assert(s_num * ly + m_num * (la * ly) == ly * e_num) by (nonlinear_arith)
            requires
                s_num == n1 * ly + k1 * (la * ly),
                m_num == oe1,
                e_num == n1 * ly + k1 * (la * ly) + oe1 * la,
        ;
        assert(e_num * ((la * ly) * ly) == (s_num * ly + m_num * (la * ly)) * (la * ly))
            by (nonlinear_arith)
            requires
                s_num * ly + m_num * (la * ly) == ly * e_num,
        ;
    } else {
        let k2 = b - yy - 1;
        let m_num = isda_num(mid, end);
        let p_ab = la * lb;
        let p_yb = ly * lb;
        let p_ay = la * ly;
        let p_ayb = la * (ly * lb);
        assert(m_num == ly * lb + k2 * p_yb + oe1 * ly);
        let kk = k1 + k2 + 1;
        assert(e_num == n1 * lb + kk * p_ab + oe1 * la);
        assert(s_num == n1 * ly + k1 * (la * ly));
        assert(s_num * lb == n1 * p_yb + k1 * p_ayb) by (nonlinear_arith)
            requires
                s_num == n1 * ly + k1 * (la * ly),
                p_yb == ly * lb,
                p_ayb == la * (ly * lb),
        ;
        assert(m_num * la == p_ayb + k2 * p_ayb + oe1 * (la * ly)) by (nonlinear_arith)
            requires
                m_num == ly * lb + k2 * (ly * lb) + oe1 * ly,
                p_ayb == la * (ly * lb),
        ;
        assert(ly * e_num == n1 * p_yb + kk * p_ayb + oe1 * (la * ly)) by (nonlinear_arith)
            requires
                e_num == n1 * lb + kk * (la * lb) + oe1 * la,
                p_yb == ly * lb,
                p_ayb == la * (ly * lb),
        ;
        assert(s_num * lb + m_num * la == ly * e_num) by (nonlinear_arith)
            requires
                s_num * lb == n1 * p_yb + k1 * p_ayb,
                m_num * la == p_ayb + k2 * p_ayb + oe1 * (la * ly),
                ly * e_num == n1 * p_yb + kk * p_ayb + oe1 * (la * ly),
                kk == k1 + k2 + 1,
        ;
        assert(s_num * p_yb + m_num * p_ay == ly * (s_num * lb + m_num * la)) by (nonlinear_arith)
            requires
                p_yb == ly * lb,
                p_ay == la * ly,
        ;
        assert((ly * (ly * e_num)) * p_ab == e_num * (p_ay * p_yb)) by (nonlinear_arith)
            requires
                p_ay == la * ly,
                p_yb == ly * lb,
                p_ab == la * lb,
        ;
        assert(s_num * p_yb + m_num * p_ay == ly * (ly * e_num));
        assert((s_num * p_yb + m_num * p_ay) * p_ab == (ly * (ly * e_num)) * p_ab)
            by (nonlinear_arith)
            requires
                s_num * p_yb + m_num * p_ay == ly * (ly * e_num),
        ;
        assert(e_num * (p_ay * p_yb) == (s_num * p_yb + m_num * p_ay) * p_ab);
    }
}

/// Day-count monotonicity of the actual-day conventions: with the start
/// fixed, the ACT/360 and ACT/365F numerator never decreases as the end
/// moves later (their denominators are the constants 360 and 365).
pub proof fn lemma_act_monotonic(start: Date, end1: Date, end2: Date)
    requires
        start.wf(),
        end1.wf(),
        end2.wf(),
        end1.day_number() <= end2.day_number(),
    ensures
        act_num(start, end1) <= act_num(start, end2),
{
}

/// Day-count monotonicity of 30/360: with the start fixed, the clamped
/// numerator never decreases as the end moves later (the denominator is the
/// constant 360).
pub proof fn lemma_d30_360_monotonic(start: Date, end1: Date, end2: Date)
    requires
        start.wf(),
        end1.wf(),
        end2.wf(),
        end1.day_number() <= end2.day_number(),
    ensures
        d30_360_num(start, end1) <= d30_360_num(start, end2),
{
    lemma_day_number_order(end1, end2);
}

} // verus!

