use accrua_rs::date::Date;
use chrono::Datelike;

fn d(y: i32, m: u8, day: u8) -> Date {
    Date::new(y, m, day).unwrap()
}

fn c(y: i32, m: u8, day: u8) -> chrono::NaiveDate {
    chrono::NaiveDate::from_ymd_opt(y, m as u32, day as u32).unwrap()
}

#[test]
fn new_accepts_valid_dates() {
    assert_eq!(d(2024, 2, 29), Date { year: 2024, month: 2, day: 29 });
    assert_eq!(d(1, 1, 1), Date { year: 1, month: 1, day: 1 });
    assert_eq!(d(9999, 12, 31), Date { year: 9999, month: 12, day: 31 });
    assert_eq!(d(1900, 2, 28), Date { year: 1900, month: 2, day: 28 });
    assert_eq!(d(2000, 2, 29), Date { year: 2000, month: 2, day: 29 });
}

#[test]
fn new_rejects_invalid_dates() {
    assert_eq!(Date::new(2023, 2, 29), None);
    assert_eq!(Date::new(1900, 2, 29), None);
    assert_eq!(Date::new(2024, 13, 1), None);
    assert_eq!(Date::new(2024, 0, 1), None);
    assert_eq!(Date::new(2024, 4, 31), None);
    assert_eq!(Date::new(2024, 1, 0), None);
    assert_eq!(Date::new(0, 1, 1), None);
    assert_eq!(Date::new(10000, 1, 1), None);
}

#[test]
fn day_number_differences_match_chrono() {
    let samples: [(i32, u8, u8); 10] = [
        (2024, 2, 28),
        (2024, 2, 29),
        (2024, 3, 1),
        (2000, 2, 29),
        (1900, 2, 28),
        (1999, 12, 31),
        (2023, 1, 1),
        (1582, 10, 15),
        (1, 1, 2),
        (9999, 12, 31),
    ];
    let base = d(2000, 1, 1).to_day_number() as i64;
    let base_c = c(2000, 1, 1);
    for (y, m, day) in samples {
        let ours = d(y, m, day).to_day_number() as i64 - base;
        let chronos = (c(y, m, day) - base_c).num_days();
        assert_eq!(ours, chronos);
    }
}

#[test]
fn weekday_and_ordinal_match_chrono() {
    let samples: [(i32, u8, u8); 8] = [
        (2024, 1, 1),
        (2024, 6, 1),
        (2024, 6, 2),
        (2024, 12, 31),
        (2023, 12, 1),
        (2000, 2, 29),
        (1970, 1, 1),
        (1850, 7, 4),
    ];
    for (y, m, day) in samples {
        let ours = d(y, m, day);
        let chronos = c(y, m, day);
        assert_eq!(ours.weekday() as u32, chronos.weekday().num_days_from_monday());
        assert_eq!(ours.ordinal_day() as u32, chronos.ordinal());
    }
}

#[test]
fn next_day_walks_the_calendar() {
    assert_eq!(d(2024, 2, 28).next_day(), Some(d(2024, 2, 29)));
    assert_eq!(d(2023, 2, 28).next_day(), Some(d(2023, 3, 1)));
    assert_eq!(d(2023, 12, 31).next_day(), Some(d(2024, 1, 1)));
    assert_eq!(d(2024, 6, 30).next_day(), Some(d(2024, 7, 1)));
    assert_eq!(d(9999, 12, 31).next_day(), None);
}

#[test]
fn prev_day_walks_the_calendar() {
    assert_eq!(d(2024, 3, 1).prev_day(), Some(d(2024, 2, 29)));
    assert_eq!(d(2023, 3, 1).prev_day(), Some(d(2023, 2, 28)));
    assert_eq!(d(2024, 1, 1).prev_day(), Some(d(2023, 12, 31)));
    assert_eq!(d(1, 1, 1).prev_day(), None);
}

#[test]
fn le_is_the_calendar_order() {
    assert!(d(2023, 12, 31).le(d(2024, 1, 1)));
    assert!(d(2024, 1, 1).le(d(2024, 1, 1)));
    assert!(!d(2024, 1, 2).le(d(2024, 1, 1)));
    assert!(d(2024, 1, 31).le(d(2024, 2, 1)));
}
