use accrua_rs::calendar::{Business, HolidayListCalendar, HolidaySource, WeekendOnlyCalendar};
use accrua_rs::date::Date;

fn d(y: i32, m: u8, day: u8) -> Date {
    Date::new(y, m, day).unwrap()
}

#[test]
fn weekend_only_calendar_predicates() {
    let cal = WeekendOnlyCalendar;
    let saturday = d(2024, 6, 1);
    let sunday = d(2024, 6, 2);
    let monday = d(2024, 6, 3);
    assert!(!cal.is_holiday(saturday));
    assert!(cal.is_weekend(saturday));
    assert!(cal.is_weekend(sunday));
    assert!(!cal.is_weekend(monday));
    assert!(!cal.is_business(saturday));
    assert!(cal.is_business(monday));
}

#[test]
fn business_days_are_returned_unchanged() {
    let cal = WeekendOnlyCalendar;
    let monday = d(2024, 6, 3);
    assert_eq!(cal.following(monday), Some(monday));
    assert_eq!(cal.modified_following(monday), Some(monday));
    assert_eq!(cal.preceding(monday), Some(monday));
    assert_eq!(cal.modified_preceding(monday), Some(monday));
}

#[test]
fn following_saturday_returns_monday() {
    let cal = WeekendOnlyCalendar;
    assert_eq!(cal.following(d(2024, 6, 1)), Some(d(2024, 6, 3)));
    assert_eq!(cal.following(d(2024, 6, 2)), Some(d(2024, 6, 3)));
}

#[test]
fn preceding_weekend_returns_friday() {
    let cal = WeekendOnlyCalendar;
    assert_eq!(cal.preceding(d(2024, 6, 2)), Some(d(2024, 5, 31)));
    assert_eq!(cal.preceding(d(2024, 6, 1)), Some(d(2024, 5, 31)));
}

#[test]
fn modified_following_stays_in_month_by_falling_back() {
    let cal = WeekendOnlyCalendar;
    // 2024-03-30 is a Saturday; the next business day (Monday April 1) is in
    // the next month, so the roll falls back to Friday 2024-03-29.
    assert_eq!(cal.modified_following(d(2024, 3, 30)), Some(d(2024, 3, 29)));
    assert_eq!(cal.modified_following(d(2024, 3, 31)), Some(d(2024, 3, 29)));
    // mid-month there is no cross-month risk: Saturday rolls to Monday
    assert_eq!(cal.modified_following(d(2024, 6, 15)), Some(d(2024, 6, 17)));
}

#[test]
fn modified_preceding_stays_in_month_by_rolling_forward() {
    let cal = WeekendOnlyCalendar;
    // 2024-06-01 is a Saturday at the start of the month; the previous
    // business day (Friday May 31) is in the previous month, so the roll
    // goes forward to Monday 2024-06-03.
    assert_eq!(cal.modified_preceding(d(2024, 6, 1)), Some(d(2024, 6, 3)));
    assert_eq!(cal.modified_preceding(d(2024, 6, 2)), Some(d(2024, 6, 3)));
    // mid-month the backward leg succeeds: Saturday rolls back to Friday
    assert_eq!(cal.modified_preceding(d(2024, 6, 15)), Some(d(2024, 6, 14)));
}

#[test]
fn holiday_list_calendar_skips_holidays() {
    // Monday 2024-06-03 is a holiday: rolls skip it in both directions.
    let cal = HolidayListCalendar { holidays: vec![d(2024, 6, 3)] };
    assert!(cal.is_holiday(d(2024, 6, 3)));
    assert!(!cal.is_business(d(2024, 6, 3)));
    assert_eq!(cal.following(d(2024, 6, 1)), Some(d(2024, 6, 4)));
    assert_eq!(cal.following(d(2024, 6, 3)), Some(d(2024, 6, 4)));
    assert_eq!(cal.preceding(d(2024, 6, 3)), Some(d(2024, 5, 31)));
}

#[test]
fn range_exhaustion_reports_no_result() {
    // 9999-12-30 and 9999-12-31 fall on Thursday and Friday; declaring both
    // holidays leaves no business day at or after 9999-12-30.
    let cal = HolidayListCalendar { holidays: vec![d(9999, 12, 30), d(9999, 12, 31)] };
    assert_eq!(cal.following(d(9999, 12, 30)), None);
    // 0001-01-01 and 0001-01-02 fall on Monday and Tuesday; declaring both
    // holidays leaves no business day at or before 0001-01-02.
    let cal = HolidayListCalendar { holidays: vec![d(1, 1, 1), d(1, 1, 2)] };
    assert_eq!(cal.preceding(d(1, 1, 2)), None);
}
