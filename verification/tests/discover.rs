use maestro::allocator::FundingStrategy;
use maestro::api::{AccountSummary, AccountType, Participant, Transfer, TransferDirection, TransferStatus};
use maestro::date::{Date, Weekday};
use maestro::discover::{
    cluster_days, detect, median, mode, month_day_token, rank_pools, reclaim_pod, source, strategy_choice, survey,
    survey_text, weekday_from, write_schedule, Income,
};
use maestro::schedule::PaySchedule;
use maestro::state::Classification;

fn d(y: i32, m: u32, day: u32) -> Date {
    Date::from_ymd_opt(y, m, day).unwrap()
}

#[test]
fn medians() {
    assert_eq!(median(vec![]), 0);
    assert_eq!(median(vec![5, 1, 3]), 3);
    assert_eq!(median(vec![4, 1, 3, 2]), 2); // (2 + 3) / 2
    assert_eq!(median(vec![-3, -2]), -2);
    assert_eq!(median(vec![i64::MAX, i64::MAX]), i64::MAX);
}

#[test]
fn a_median_splits_the_amounts_in_half_in_any_order() {
    let xs = vec![700, -20, 90, 90, 3];
    let m = median(xs.clone());
    assert_eq!(m, 90);
    assert!(xs.contains(&m));
    assert_eq!(xs.iter().filter(|x| **x <= m).count(), 4);
    assert_eq!(xs.iter().filter(|x| **x >= m).count(), 3);
    assert_eq!(median(vec![90, 3, 700, 90, -20]), m);
    assert_eq!(median(vec![3, 2, 1, 4]), median(vec![1, 2, 3, 4]));
}

#[test]
fn the_first_seen_wins_a_tie() {
    assert_eq!(mode(&[]), None);
    assert_eq!(mode(&[2, 1, 1, 2]), Some(2));
    assert_eq!(mode(&[2, 1, 1]), Some(1));
}

#[test]
fn the_last_three_days_are_the_last_day() {
    assert_eq!(month_day_token(d(2026, 5, 29)), -1);
    assert_eq!(month_day_token(d(2026, 5, 28)), 28);
    assert_eq!(month_day_token(d(2026, 2, 26)), -1);
}

#[test]
fn days_cluster_around_anchors() {
    assert_eq!(cluster_days(&[15, -1, 13, -1, 15, -1]), vec![(-1, 3), (15, 3)]);
    assert_eq!(cluster_days(&[14, 15, 15, 15, -1]), vec![(15, 4), (-1, 1)]);
    assert_eq!(cluster_days(&[1, 5, 9, 20]), vec![(9, 3), (20, 1)]);
    assert_eq!(cluster_days(&[]), vec![]);
}

#[test]
fn weekdays_by_number() {
    assert_eq!(weekday_from(0), Weekday::Mon);
    assert_eq!(weekday_from(4), Weekday::Fri);
    assert_eq!(weekday_from(9), Weekday::Sun);
}

#[test]
fn a_weekly_rhythm_is_found() {
    let dates: Vec<Date> = (0..6).map(|i| d(2026, 5, 1).plus_days(7 * i)).collect();
    assert_eq!(detect(&dates), (Some(PaySchedule::Weekly { weekday: Weekday::Fri }), Classification::Regular));
}

#[test]
fn a_semi_monthly_rhythm_is_found() {
    let sched = PaySchedule::SemiMonthly { days: vec![15, -1] };
    let dates = sched.paydays_in(d(2026, 1, 1), d(2026, 6, 30));
    assert_eq!(detect(&dates), (Some(PaySchedule::SemiMonthly { days: vec![-1, 15] }), Classification::Regular));
}

#[test]
fn a_biweekly_rhythm_is_found() {
    // 2nd, 16th and month-end: no two anchors hold seven tenths of the deposits
    let dates = [d(2026, 1, 2), d(2026, 1, 16), d(2026, 1, 30)];
    let last = dates[2];
    assert_eq!(detect(&dates), (Some(PaySchedule::Biweekly { anchor: last }), Classification::Regular));
}

#[test]
fn a_monthly_rhythm_is_found() {
    let dates: Vec<Date> = (1..7).map(|m| d(2026, m, 5)).collect();
    assert_eq!(detect(&dates), (Some(PaySchedule::Monthly { day: 5 }), Classification::Regular));
}

#[test]
fn no_rhythm_is_irregular() {
    let irregular = (None, Classification::Irregular);
    assert_eq!(detect(&[]), irregular);
    assert_eq!(detect(&[d(2026, 1, 1), d(2026, 1, 8)]), irregular);
    assert_eq!(detect(&[d(2026, 1, 1), d(2026, 1, 1), d(2026, 1, 1)]), irregular);
    // gaps of 1 and 60 days
    assert_eq!(detect(&[d(2026, 1, 1), d(2026, 1, 2), d(2026, 3, 3)]), irregular);
    // every 60 days
    assert_eq!(detect(&[d(2026, 1, 1), d(2026, 3, 2), d(2026, 5, 1)]), irregular);
    // gaps of 4 and 16 days deviate by just six tenths: still a rhythm
    assert_eq!(
        detect(&[d(2026, 1, 1), d(2026, 1, 5), d(2026, 1, 21)]),
        (Some(PaySchedule::SemiMonthly { days: vec![5, 21] }), Classification::Regular)
    );
}

fn transfer(amount: i64, dir: TransferDirection, at: String, to: Option<(&str, bool)>) -> Transfer {
    Transfer {
        amount_in_cents: amount,
        direction: dir,
        source: None,
        destination: to.map(|(id, is_pod)| Participant { id: Some(id.into()), name: format!("name-{id}"), is_pod }),
        status: TransferStatus::Complete,
        created_at: at,
    }
}

fn employer() -> Income {
    let mut transfers = Vec::new();
    // newest first, as the API lists them
    for m in (1..7).rev() {
        transfers.push(transfer(100_000 + m as i64, TransferDirection::MoneyIn, format!("2026-0{m}-05T00:00:00Z"), None));
        transfers.push(transfer(90_000, TransferDirection::MoneyOut, format!("2026-0{m}-05T01:00:00Z"), Some(("pool", true))));
    }
    transfers.push(transfer(1, TransferDirection::Internal, "2026-01-05T01:00:00Z".into(), Some(("other", true))));
    transfers.push(transfer(1, TransferDirection::MoneyOut, "2026-01-05T01:00:00Z".into(), Some(("bank", false))));
    transfers.push(transfer(5, TransferDirection::MoneyIn, "2020-01-05T01:00:00Z".into(), None)); // too old
    let mut bounced = transfer(7, TransferDirection::MoneyIn, "2026-06-06T01:00:00Z".into(), None);
    bounced.status = TransferStatus::Error;
    transfers.push(bounced);
    Income { name: "Employer".into(), transfers }
}

fn gift() -> Income {
    Income {
        name: "A gift from someone far away".into(),
        transfers: vec![transfer(500, TransferDirection::MoneyIn, "2026-03-01T00:00:00Z".into(), None)],
    }
}

#[test]
fn a_source_is_described_by_its_deposits() {
    let (found, seen) = source(&employer(), d(2024, 7, 1));
    assert_eq!(seen, 6);
    assert_eq!(found.classification, Classification::Regular);
    assert_eq!(found.schedule, Some(PaySchedule::Monthly { day: 5 }));
    assert_eq!(found.typical_amount_cents, Some(100_003)); // (100_003 + 100_004) / 2
    let (found, seen) = source(&gift(), d(2024, 7, 1));
    assert_eq!((seen, found.classification), (1, Classification::Irregular));
    assert!(found.schedule.is_none() && found.typical_amount_cents.is_none());
}

#[test]
fn pools_are_ranked_by_deposits() {
    let pools = rank_pools(&vec![gift(), employer()]);
    let seen: Vec<(&str, &str, u32)> =
        pools.iter().map(|p| (p.pod_id.as_str(), p.name.as_str(), p.deposits_seen)).collect();
    assert_eq!(seen, vec![("pool", "name-pool", 6), ("other", "name-other", 1)]);
}

#[test]
fn a_survey_finds_schedule_and_pools() {
    let found = survey(&vec![gift(), employer()], d(2026, 7, 1));
    assert!(found.regular);
    assert_eq!(found.pay_schedule, PaySchedule::Monthly { day: 5 });
    assert_eq!(found.deposits, vec![1, 6]);
    assert_eq!(
        survey_text(&found),
        "\
A gift from someone far    1 deposits  ->  IRREGULAR  —
Employer                   6 deposits  ->  Monthly { day: 5 }  $1000.03

income pool(s) — where your paychecks land:
    name-pool                (6 deposits)
    name-other               (1 deposits)
"
    );
    let none = survey(&vec![gift()], d(2026, 7, 1));
    assert!(!none.regular);
    assert_eq!(none.pay_schedule, PaySchedule::default());
    assert_eq!(
        survey_text(&none),
        "\
A gift from someone far    1 deposits  ->  IRREGULAR  —

[!] no regular income detected — defaulting the pay schedule

income pool(s) — where your paychecks land:
    [!] none detected — income may flow to an external account
"
    );
}

#[test]
fn schedules_are_written_out() {
    assert_eq!(write_schedule(&PaySchedule::default()), "SemiMonthly { days: [15, -1] }");
    assert_eq!(write_schedule(&PaySchedule::Biweekly { anchor: d(2026, 5, 1) }), "Biweekly { anchor: 2026-05-01 }");
    assert_eq!(write_schedule(&PaySchedule::Weekly { weekday: Weekday::Fri }), "Weekly { weekday: Fri }");
    assert_eq!(write_schedule(&PaySchedule::Irregular), "Irregular");
}

fn account(name: &str) -> AccountSummary {
    AccountSummary { id: name.into(), name: name.into(), account_type: AccountType::Pod }
}

#[test]
fn the_reclaim_pod_is_found_by_name() {
    let list = vec![account("My SAVINGS"), account("Emergency Fund"), account("Old emergency")];
    assert_eq!(reclaim_pod(&list), Some("Emergency Fund".to_string()));
    assert_eq!(reclaim_pod(&list[..1].to_vec()), Some("My SAVINGS".to_string()));
    assert_eq!(reclaim_pod(&vec![account("Rent")]), None);
}

#[test]
fn answers_choose_a_strategy() {
    assert_eq!(strategy_choice("2\n"), FundingStrategy::StrictEnvelope);
    assert_eq!(strategy_choice(" 3 "), FundingStrategy::Proportional);
    assert_eq!(strategy_choice("\n"), FundingStrategy::SoonestDue);
    assert_eq!(strategy_choice("four"), FundingStrategy::SoonestDue);
}
