use maestro::allocator::FundingStrategy;
use maestro::api::{AccountSummary, AccountType, Participant, Transfer, TransferDirection, TransferStatus};
use maestro::assess::{
    assess, assess_with, contributed_since, contribution_pods, day_start, debits_are_ready, pending_debits,
    period_start, pod_ids, OutOfRange, Readings, SimInput,
};
use maestro::budget::{assemble, declared_cents};
use maestro::date::Date;
use maestro::engine::{LineKind, Report};
use maestro::ledger::PodAmounts;
use maestro::schedule::PaySchedule;
use maestro::state::{PoolRef, State};

fn d(y: i32, m: u32, day: u32) -> Date {
    Date::from_ymd_opt(y, m, day).unwrap()
}

fn semi() -> PaySchedule {
    PaySchedule::SemiMonthly { days: vec![15, -1] }
}

fn pod(id: &str, name: &str) -> AccountSummary {
    AccountSummary { id: id.into(), name: name.into(), account_type: AccountType::Pod }
}

fn accounts() -> Vec<AccountSummary> {
    vec![
        pod("pool", "Income Fund"),
        pod("home", "G: Home"),
        pod("rent", "Home / Rent / 1000 / 28"),
        pod("fun", "Fun / 50 / topup"),
        pod("vet", "Vet / 800 / drawdown / 2026-08-26 / 6mo"),
        pod("float", "Float / 25 / keep"),
    ]
}

fn state() -> State {
    State {
        discovered_at: d(2026, 5, 1),
        pay_schedule: semi(),
        funding_strategy: FundingStrategy::SoonestDue,
        pools: vec![PoolRef { pod_id: "pool".into(), name: "Income Fund".into(), deposits_seen: 3 }],
        reclaim_pod: None,
        income_sources: vec![],
    }
}

fn assembled(accounts: &Vec<AccountSummary>) -> maestro::budget::Assembled {
    let cushioned: Vec<i64> = accounts.iter().map(|a| declared_cents(&a.name).unwrap_or(0)).collect();
    assemble(accounts, Some(&state()), &cushioned)
}

fn readings(pool: i64, rent: i64, outflows: Vec<Option<i64>>) -> Readings {
    let mut balances = PodAmounts::new();
    balances.insert("pool".to_string(), pool);
    balances.insert("rent".to_string(), rent);
    balances.insert("vet".to_string(), 1_000);
    balances.insert("fun".to_string(), 9_900);
    balances.insert("float".to_string(), 2_000);
    let mut contributed = PodAmounts::new();
    contributed.insert("fun".to_string(), 2_000);
    contributed.insert("vet".to_string(), 0);
    Readings { accounts: accounts(), balances, rules: Err("timeout".to_string()), contributed, outflows }
}

fn line<'a>(report: &'a Report, pod: &str) -> &'a maestro::engine::BillLine {
    report.lines.iter().find(|l| l.pod_id == pod).unwrap()
}

#[test]
fn a_cycle_is_assessed_end_to_end() {
    // June 1: rent was due on May 28 (within a week) and its debit has not gone out
    let list = accounts();
    let parts = assembled(&list);
    let today = d(2026, 6, 1);
    assert!(debits_are_ready(&parts.budget, today, &semi()));
    let debits = pending_debits(&parts.budget, today);
    assert_eq!(debits.len(), 1);
    assert_eq!(debits[0].pod_id, "rent");
    assert_eq!(debits[0].from, "2026-05-16T00:00:00Z");
    assert_eq!(contribution_pods(&parts.budget), vec!["fun", "vet"]);
    assert_eq!(pod_ids(&list), vec!["pool", "home", "rent", "fun", "vet", "float"]);

    let report = assess(today, &semi(), FundingStrategy::SoonestDue, parts, readings(200_000, 100_000, vec![Some(0)])).unwrap();
    assert!(!report.executed);
    assert_eq!(report.pool_balance, 200_000);
    assert_eq!(report.warnings, vec!["rules unreadable — config drift not checked (timeout)"]);
    // one of the two paydays of June's window has come (May 29): half of the rent
    let rent = line(&report, "rent");
    assert_eq!((rent.kind, rent.target, rent.reserved), (LineKind::Sinking, 50_000, 50_000));
    // half of the balance is set aside for the pending debit, the rest is on pace
    assert_eq!((rent.current, rent.need, rent.give), (100_000, 0, 0));
    let fun = line(&report, "fun");
    assert_eq!((fun.kind, fun.target, fun.need, fun.give), (LineKind::Topup, 5_000, 3_000, 3_000));
    let float = line(&report, "float");
    assert_eq!((float.kind, float.target, float.need, float.give), (LineKind::Hold, 2_500, 500, 500));
    let vet = line(&report, "vet");
    // seven of twelve paychecks have come; the slice stays what it is
    assert_eq!((vet.kind, vet.target, vet.need, vet.give), (LineKind::Drawdown, 46_666, 45_666, 6_666));
    assert_eq!(
        report.notes,
        vec!["Vet: $10.00 saved toward $800.00 by 2026-08-26 — ~$456.66 behind pace (top up to catch up, optional)"]
    );
    let from_pool: i64 = report.transfers.iter().filter(|t| t.from_pod == "pool").map(|t| t.amount_cents).sum();
    assert_eq!(from_pool, 3_000 + 500 + 6_666);
    assert_eq!(report.names.get("rent"), Some("Home / Rent / 1000 / 28".to_string()));
}

#[test]
fn an_unread_outflow_reserves_nothing() {
    let list = accounts();
    let report = assess(
        d(2026, 6, 1),
        &semi(),
        FundingStrategy::SoonestDue,
        assembled(&list),
        readings(200_000, 100_000, vec![None]),
    )
    .unwrap();
    assert_eq!(line(&report, "rent").reserved, 0);
    // a debit that has gone out does not either
    let report = assess(
        d(2026, 6, 1),
        &semi(),
        FundingStrategy::SoonestDue,
        assembled(&list),
        readings(200_000, 100_000, vec![Some(100_000)]),
    )
    .unwrap();
    assert_eq!(line(&report, "rent").reserved, 0);
}

#[test]
fn a_simulation_pretends_a_date_and_a_deposit() {
    let list = accounts();
    let sim = SimInput { today: Some(d(2026, 5, 1)), deposit_cents: 150_000 };
    assert!(sim.is_sim());
    assert!(!SimInput::default().is_sim());
    let report = assess_with(
        sim,
        d(2026, 6, 1),
        &semi(),
        FundingStrategy::SoonestDue,
        assembled(&list),
        readings(10_000, 0, vec![]),
    )
    .unwrap();
    assert_eq!(report.today, d(2026, 5, 1));
    assert_eq!(report.pool_balance, 160_000);
    assert!(report.warnings.is_empty());
    assert_eq!(line(&report, "rent").give, 50_000);
}

#[test]
fn names_and_rules_are_compared() {
    let list = accounts();
    let mut read = readings(200_000, 100_000, vec![Some(0)]);
    read.rules = Ok(vec![]);
    let report = assess(d(2026, 6, 1), &semi(), FundingStrategy::SoonestDue, assembled(&list), read).unwrap();
    assert_eq!(report.warnings.len(), 4);
    assert!(report.warnings[0].contains("Rent: no enabled rule funds this pod"));
}

#[test]
fn what_cannot_be_represented_is_out_of_range() {
    let list = accounts();
    let day_zero = PaySchedule::Monthly { day: 0 };
    let found = assess(
        d(2026, 6, 1),
        &day_zero,
        FundingStrategy::SoonestDue,
        assembled(&list),
        readings(200_000, 100_000, vec![Some(0)]),
    );
    assert_eq!(found.err(), Some(OutOfRange));
    let sim = SimInput { today: None, deposit_cents: i64::MAX };
    let found = assess_with(
        sim,
        d(2026, 6, 1),
        &semi(),
        FundingStrategy::SoonestDue,
        assembled(&list),
        readings(1, 0, vec![]),
    );
    assert_eq!(found.err(), Some(OutOfRange));
}

fn landed(amount: i64, to: Option<&str>, status: TransferStatus, at: &str) -> Transfer {
    Transfer {
        amount_in_cents: amount,
        direction: TransferDirection::Internal,
        source: None,
        destination: to.map(|id| Participant { id: Some(id.to_string()), name: "Pod".into(), is_pod: true }),
        status,
        created_at: at.into(),
    }
}

#[test]
fn only_settled_money_that_reached_the_pod_is_contributed() {
    let since = d(2026, 5, 29);
    let transfers = vec![
        landed(100, Some("p"), TransferStatus::Complete, "2026-05-29T08:00:00Z"),
        landed(200, Some("p"), TransferStatus::Complete, "2026-05-28T23:59:59Z"), // before
        landed(400, Some("q"), TransferStatus::Complete, "2026-05-30T00:00:00Z"), // elsewhere
        landed(800, Some("p"), TransferStatus::Pending, "2026-05-30T00:00:00Z"), // not settled
        landed(1600, None, TransferStatus::Complete, "2026-05-30T00:00:00Z"),
        landed(3200, Some("p"), TransferStatus::Complete, "someday"),
        landed(6400, Some("p"), TransferStatus::Complete, "2026-06-30T00:00:00Z"),
    ];
    assert_eq!(contributed_since(&transfers, "p", since), Some(6500));
    let huge = vec![
        landed(i64::MAX, Some("p"), TransferStatus::Complete, "2026-05-29T08:00:00Z"),
        landed(1, Some("p"), TransferStatus::Complete, "2026-05-29T08:00:00Z"),
    ];
    assert_eq!(contributed_since(&huge, "p", since), None);
}

#[test]
fn the_pay_period_starts_on_the_last_payday() {
    assert_eq!(period_start(&semi(), d(2026, 6, 5)), d(2026, 5, 29));
    assert_eq!(period_start(&semi(), d(2026, 6, 15)), d(2026, 6, 15));
    assert_eq!(period_start(&PaySchedule::Irregular, d(2026, 6, 15)), d(2026, 6, 15));
    assert_eq!(day_start(d(2026, 6, 5)), "2026-06-05T00:00:00Z");
}
