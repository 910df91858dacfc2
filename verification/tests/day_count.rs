use accrua_rs::date::Date;
use accrua_rs::day_count_fraction::{act_360, act_365f, act_act_isda, act_act_isma, d30_360};
use rust_decimal::Decimal;

fn d(y: i32, m: u8, day: u8) -> Date {
    Date::new(y, m, day).unwrap()
}

fn ratio(num: i64, den: i64) -> Decimal {
    Decimal::new(num, 0) / Decimal::new(den, 0)
}

#[test]
fn act_360_half_year() {
    // 182 whole days from 2024-01-01 to 2024-07-01
    let f = act_360(d(2024, 1, 1), d(2024, 7, 1)).unwrap();
    assert_eq!(f, ratio(182, 360));
    assert!(f > Decimal::new(505, 3) && f < Decimal::new(506, 3));
}

#[test]
fn act_365f_full_year_is_one() {
    let f = act_365f(d(2023, 1, 1), d(2024, 1, 1)).unwrap();
    assert_eq!(f, Decimal::ONE);
}

#[test]
fn act_act_isda_spans_leap_year() {
    // 31 days of [start, end) fall in 2023 and 31 in 2024: the pieces
    // 31/365 and 31/366 over the common denominator 365 * 366
    let f = act_act_isda(d(2023, 12, 1), d(2024, 2, 1)).unwrap();
    assert_eq!(f, ratio(31 * 366 + 31 * 365, 365 * 366));
}

#[test]
fn act_act_isda_within_one_year() {
    let f = act_act_isda(d(2024, 1, 1), d(2024, 7, 1)).unwrap();
    assert_eq!(f, ratio(182, 366));
    let g = act_act_isda(d(2023, 1, 1), d(2023, 7, 1)).unwrap();
    assert_eq!(g, ratio(181, 365));
}

#[test]
fn act_act_isda_partition_at_year_boundary() {
    // splitting at January 1 changes the result only by decimal rounding
    let whole = act_act_isda(d(2023, 12, 1), d(2024, 2, 1)).unwrap();
    let first = act_act_isda(d(2023, 12, 1), d(2024, 1, 1)).unwrap();
    let second = act_act_isda(d(2024, 1, 1), d(2024, 2, 1)).unwrap();
    let diff = (whole - (first + second)).abs();
    assert!(diff < Decimal::new(1, 20));
}

#[test]
fn d30_360_clamps_start_day() {
    // start day 31 clamps to 30; end day 28 is used literally
    let f = d30_360(d(2024, 1, 31), d(2024, 2, 28)).unwrap();
    assert_eq!(f, ratio(28, 360));
}

#[test]
fn d30_360_clamps_end_day_after_start() {
    // start clamps 31 -> 30, so the end day 31 clamps too: two even months
    let f = d30_360(d(2024, 1, 31), d(2024, 3, 31)).unwrap();
    assert_eq!(f, ratio(60, 360));
    // end day 31 with an unclamped start stays literal
    let g = d30_360(d(2024, 1, 15), d(2024, 1, 31)).unwrap();
    assert_eq!(g, ratio(16, 360));
}

#[test]
fn act_act_isma_quarter() {
    // 91 days over a 91-day reference period at frequency 4: exactly 1/4
    let f = act_act_isma(d(2024, 1, 1), d(2024, 4, 1), d(2024, 1, 1), d(2024, 4, 1), 4).unwrap();
    assert_eq!(f, ratio(91, 364));
    assert_eq!(f, Decimal::new(25, 2));
}

#[test]
fn inverted_ranges_yield_no_result() {
    let a = d(2024, 7, 1);
    let b = d(2024, 1, 1);
    assert_eq!(act_360(a, b), None);
    assert_eq!(act_365f(a, b), None);
    assert_eq!(act_act_isda(a, b), None);
    assert_eq!(d30_360(a, b), None);
    assert_eq!(act_act_isma(a, b, b, a, 4), None);
    // a degenerate or inverted reference period, or zero frequency
    assert_eq!(act_act_isma(b, a, b, b, 4), None);
    assert_eq!(act_act_isma(b, a, a, b, 4), None);
    assert_eq!(act_act_isma(b, a, b, a, 0), None);
}

#[test]
fn zero_length_periods_are_zero_not_none() {
    let a = d(2024, 1, 1);
    assert_eq!(act_360(a, a).unwrap(), Decimal::ZERO);
    assert_eq!(act_365f(a, a).unwrap(), Decimal::ZERO);
    assert_eq!(act_act_isda(a, a).unwrap(), Decimal::ZERO);
    assert_eq!(d30_360(a, a).unwrap(), Decimal::ZERO);
}

#[test]
fn fractions_grow_with_the_end_date() {
    let start = d(2024, 1, 15);
    let ends = [d(2024, 1, 15), d(2024, 1, 31), d(2024, 2, 1), d(2024, 2, 29), d(2024, 12, 31)];
    for pair in ends.windows(2) {
        assert!(act_360(start, pair[0]).unwrap() <= act_360(start, pair[1]).unwrap());
        assert!(act_365f(start, pair[0]).unwrap() <= act_365f(start, pair[1]).unwrap());
        assert!(d30_360(start, pair[0]).unwrap() <= d30_360(start, pair[1]).unwrap());
    }
}
