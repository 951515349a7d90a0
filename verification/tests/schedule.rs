use maestro::date::{Date, Weekday};
use maestro::schedule::{last_day_of_month, most_recent_due, resolve_month_day, shift_for_weekend, PaySchedule};

fn d(y: i32, m: u32, day: u32) -> Date {
    Date::from_ymd_opt(y, m, day).unwrap()
}

fn semi() -> PaySchedule {
    PaySchedule::SemiMonthly { days: vec![15, -1] }
}

#[test]
fn last_day_handles_month_lengths() {
    assert_eq!(last_day_of_month(2026, 2), d(2026, 2, 28));
    assert_eq!(last_day_of_month(2026, 4), d(2026, 4, 30));
    assert_eq!(last_day_of_month(2026, 12), d(2026, 12, 31));
}

#[test]
fn semi_monthly_weekend_paydays_shift_to_friday() {
    // 2026-08-15 Sat -> Fri the 14th
    let aug = semi().paydays_in(d(2026, 8, 1), d(2026, 8, 31));
    assert_eq!(aug[0], d(2026, 8, 14));
    // 2026-05-31 Sun -> Fri the 29th
    let may = semi().paydays_in(d(2026, 5, 1), d(2026, 5, 31));
    assert_eq!(may[1], d(2026, 5, 29));
}

#[test]
fn two_paydays_before_a_due_date() {
    // due June 10th: two prior paydays are May 29 (shifted from Sun 31) and May 15
    let before = semi().paydays_before(d(2026, 6, 10), 2);
    assert_eq!(before, vec![d(2026, 5, 29), d(2026, 5, 15)]);
}

#[test]
fn semi_monthly_counts_two_per_month() {
    assert_eq!(semi().paydays_through(d(2026, 1, 1), d(2026, 12, 31)), 24);
}

#[test]
fn biweekly_steps_fourteen_days() {
    let s = PaySchedule::Biweekly {
        anchor: d(2026, 1, 2), // a Friday
    };
    let jan = s.paydays_in(d(2026, 1, 1), d(2026, 1, 31));
    assert_eq!(jan, vec![d(2026, 1, 2), d(2026, 1, 16), d(2026, 1, 30)]);
}

#[test]
fn weekly_hits_one_weekday() {
    let s = PaySchedule::Weekly {
        weekday: Weekday::Fri,
    };
    let count = s.paydays_through(d(2026, 1, 1), d(2026, 1, 31));
    assert_eq!(count, 5); // five Fridays in Jan 2026
}

#[test]
fn irregular_has_no_paydays() {
    assert_eq!(
        PaySchedule::Irregular.paydays_through(d(2026, 1, 1), d(2026, 12, 31)),
        0
    );
}

#[test]
fn a_first_on_a_weekend_is_paid_in_the_month_before() {
    // 2026-08-01 is a Saturday: its paycheck lands on Friday, July 31
    let s = PaySchedule::Monthly { day: 1 };
    assert_eq!(s.paydays_in(d(2026, 7, 10), d(2026, 7, 31)), vec![d(2026, 7, 31)]);
    assert!(s.paydays_in(d(2026, 8, 1), d(2026, 8, 31)).is_empty());
}

#[test]
fn weekend_biweekly_paydays_stay_in_the_range_asked_for() {
    // every other Saturday from 2026-01-03: paid on Fridays, none before the range
    let s = PaySchedule::Biweekly { anchor: d(2026, 1, 3) };
    assert!(s.paydays_in(d(2026, 1, 3), d(2026, 1, 15)).is_empty());
    assert_eq!(s.paydays_in(d(2026, 1, 2), d(2026, 1, 16)), vec![d(2026, 1, 2), d(2026, 1, 16)]);
}

#[test]
fn adjoining_ranges_lose_no_payday() {
    let s = semi();
    let first = s.paydays_in(d(2026, 1, 1), d(2026, 5, 30));
    let second = s.paydays_in(d(2026, 5, 31), d(2026, 12, 31));
    let all = s.paydays_in(d(2026, 1, 1), d(2026, 12, 31));
    let mut joined = first.clone();
    joined.extend(second);
    assert_eq!(joined, all);
}

#[test]
fn days_clamp_to_the_month() {
    assert_eq!(resolve_month_day(2026, 2, 30), d(2026, 2, 28));
    assert_eq!(resolve_month_day(2028, 2, -1), d(2028, 2, 29));
    assert_eq!(resolve_month_day(2026, 3, 15), d(2026, 3, 15));
    assert_eq!(shift_for_weekend(d(2026, 8, 16)), d(2026, 8, 14));
    assert_eq!(shift_for_weekend(d(2026, 8, 14)), d(2026, 8, 14));
}

#[test]
fn the_last_due_date_can_be_in_the_month_before() {
    assert_eq!(most_recent_due(28, d(2026, 5, 10)), d(2026, 4, 28));
    assert_eq!(most_recent_due(31, d(2026, 3, 1)), d(2026, 2, 28));
    assert_eq!(most_recent_due(10, d(2026, 5, 10)), d(2026, 5, 10));
    assert_eq!(most_recent_due(5, d(2026, 1, 2)), d(2025, 12, 5));
}

#[test]
fn a_schedule_without_day_zero_is_well_formed() {
    assert!(semi().is_well_formed());
    assert!(!PaySchedule::SemiMonthly { days: vec![15, 0] }.is_well_formed());
    assert!(!PaySchedule::Monthly { day: 0 }.is_well_formed());
    assert_eq!(PaySchedule::default(), semi());
    assert_eq!(semi().clone(), semi());
}

#[test]
fn paydays_are_found_however_far_back() {
    let s = PaySchedule::Monthly { day: 15 };
    let before = s.paydays_before(d(2026, 6, 10), 20);
    assert_eq!(before.len(), 20);
    assert_eq!(before[0], d(2026, 5, 15));
    assert_eq!(before[19], d(2024, 10, 15));
    assert!(PaySchedule::Irregular.paydays_before(d(2026, 6, 10), 3).is_empty());
    assert!(PaySchedule::SemiMonthly { days: vec![] }.paydays_before(d(2026, 6, 10), 3).is_empty());
}
