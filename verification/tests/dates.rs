use maestro::date::{month_length, Date};

fn d(y: i32, m: u32, day: u32) -> Date {
    Date::from_ymd_opt(y, m, day).unwrap()
}

#[test]
fn only_days_that_exist_are_dates() {
    assert!(Date::from_ymd_opt(2026, 2, 29).is_none());
    assert!(Date::from_ymd_opt(2028, 2, 29).is_some());
    assert!(Date::from_ymd_opt(2026, 13, 1).is_none());
    assert!(Date::from_ymd_opt(262143, 1, 1).is_none());
    assert!(Date::from_ymd_opt(-262144, 12, 31).is_none());
    assert!(Date::from_ymd_opt(262142, 12, 31).is_some());
    assert!(Date::from_ymd_opt(-262143, 1, 1).is_some());
}

#[test]
fn day_numbers_count_from_the_year_one() {
    assert_eq!(d(1, 1, 1).number(), 1);
    assert_eq!(d(1970, 1, 1).number(), 719163);
    assert_eq!(d(2026, 5, 1).ymd(), (2026, 5, 1));
    assert_eq!(d(262142, 12, 31).number(), 95745399);
    assert_eq!(d(-262143, 1, 1).number(), -95746129);
}

#[test]
fn weekdays_follow_the_calendar() {
    assert_eq!(d(2026, 5, 1).weekday(), 4); // a Friday
    assert_eq!(d(2026, 5, 4).weekday(), 0); // a Monday
    assert_eq!(d(2026, 5, 3).weekday(), 6); // a Sunday
}

#[test]
fn months_move_and_clamp() {
    assert_eq!(d(2026, 1, 31).checked_add_months(1), Some(d(2026, 2, 28)));
    assert_eq!(d(2026, 8, 26).checked_add_months(6), Some(d(2027, 2, 26)));
    assert_eq!(d(2026, 3, 31).checked_sub_months(1), Some(d(2026, 2, 28)));
    assert_eq!(d(262142, 12, 1).checked_add_months(1), None);
    assert_eq!(d(-262143, 1, 1).checked_sub_months(1), None);
    assert_eq!(d(2026, 12, 31).plus_days(1), d(2027, 1, 1));
}

#[test]
fn dates_are_read_and_written() {
    assert_eq!(Date::parse_from_str("2026-08-26", "%Y-%m-%d"), Some(d(2026, 8, 26)));
    assert_eq!(Date::parse_from_str("2026-02-30", "%Y-%m-%d"), None);
    assert_eq!(Date::parse_from_str("soon", "%Y-%m-%d"), None);
    assert_eq!(d(2026, 8, 26).text(), "2026-08-26");
}

#[test]
fn month_lengths() {
    assert_eq!(month_length(2026, 2), 28);
    assert_eq!(month_length(2000, 2), 29);
    assert_eq!(month_length(1900, 2), 28);
    assert_eq!(month_length(2026, 4), 30);
    assert_eq!(month_length(2026, 12), 31);
}

#[test]
fn days_are_read_and_written_alike() {
    for (y, m, d) in [(0, 1, 1), (1999, 12, 31), (2024, 2, 29), (2026, 5, 1), (9999, 12, 31)] {
        let day = Date::from_ymd_opt(y, m, d).unwrap();
        assert_eq!(Date::parse_from_str(&day.text(), "%Y-%m-%d"), Some(day));
    }
    assert_eq!(Date::from_ymd_opt(-1, 1, 1).unwrap().text(), "-0001-01-01");
    assert_eq!(Date::from_ymd_opt(10000, 12, 31).unwrap().text(), "+10000-12-31");
    assert_eq!(Date::from_ymd_opt(-262143, 1, 1).unwrap().text(), "-262143-01-01");
    assert_eq!(Date::parse_from_str("2026-02-29", "%Y-%m-%d"), None);
    assert_eq!(Date::parse_from_str("2026-13-01", "%Y-%m-%d"), None);
    assert_eq!(Date::parse_from_str("2026-00-10", "%Y-%m-%d"), None);
    // chrono also takes fewer digits
    assert_eq!(Date::parse_from_str("2026-5-1", "%Y-%m-%d"), Date::from_ymd_opt(2026, 5, 1));
}
