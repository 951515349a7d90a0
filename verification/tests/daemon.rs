use maestro::allocator::PlannedTransfer;
use maestro::api::{AccountSummary, AccountType, Transfer, TransferDirection, TransferStatus};
use maestro::assess::OutOfRange;
use maestro::daemon::{income_sources, latest_deposit, poll_interval_secs, summarize, Monitor, Poll};
use maestro::date::Date;
use maestro::engine::{BillLine, LineKind, Report};
use maestro::ledger::Names;

fn line(need: i64) -> BillLine {
    BillLine {
        group: "g".into(),
        name: "n".into(),
        pod_id: "p".into(),
        current: 0,
        target: need,
        need,
        give: 0,
        reserved: 0,
        kind: LineKind::Sinking,
    }
}

fn report(needs: Vec<i64>) -> Report {
    Report {
        today: Date::from_ymd_opt(2026, 5, 30).unwrap(),
        pool_pod_id: "pool".into(),
        pool_balance: 900,
        transfers: vec![
            PlannedTransfer { from_pod: "pool".into(), to_pod: "g".into(), amount_cents: 300, reason: "r".into() },
            PlannedTransfer { from_pod: "g".into(), to_pod: "p".into(), amount_cents: 300, reason: "r".into() },
        ],
        lines: needs.into_iter().map(line).collect(),
        not_funded: vec![],
        migrate: vec![],
        ignored: vec![],
        notes: vec![],
        warnings: vec!["w".into()],
        executed: true,
        names: Names::new(),
    }
}

#[test]
fn a_cycle_is_summarized() {
    let s = summarize(&report(vec![100, 250]), "now".to_string()).unwrap();
    assert_eq!(s.ran_at, "now");
    assert!(s.executed);
    assert_eq!((s.pool_balance_cents, s.total_need_cents, s.total_funded_cents, s.transfers), (900, 350, 300, 2));
    assert_eq!(s.warnings, vec!["w"]);
    assert_eq!(summarize(&report(vec![i64::MAX, 1]), "now".to_string()).err(), Some(OutOfRange));
}

fn poll(monitor: &mut Monitor, latest: &[(&str, &str)]) -> Poll {
    let list: Vec<(String, String)> = latest.iter().map(|(a, b)| (a.to_string(), b.to_string())).collect();
    monitor.poll(&list)
}

#[test]
fn a_deposit_sets_off_one_cycle() {
    let mut monitor = Monitor::new();
    // the first poll only shows where things stand
    assert_eq!(poll(&mut monitor, &[("a", "2026-05-01T00:00:00Z")]), Poll::Baseline);
    assert_eq!(poll(&mut monitor, &[("a", "2026-05-01T00:00:00Z")]), Poll::Quiet);
    assert_eq!(poll(&mut monitor, &[("a", "2026-05-02T00:00:00Z")]), Poll::NewDeposit);
    assert_eq!(poll(&mut monitor, &[("a", "2026-05-02T00:00:00Z")]), Poll::Quiet);
    // an older timestamp is no news, a source seen for the first time is
    assert_eq!(poll(&mut monitor, &[("a", "2026-05-01T00:00:00Z")]), Poll::Quiet);
    assert_eq!(poll(&mut monitor, &[("b", "2026-01-01T00:00:00Z")]), Poll::NewDeposit);
    assert_eq!(poll(&mut monitor, &[]), Poll::Quiet);
    assert_eq!(monitor.seen.get("a"), Some("2026-05-02T00:00:00Z".to_string()));
}

fn transfer(dir: TransferDirection, at: &str) -> Transfer {
    Transfer {
        amount_in_cents: 1,
        direction: dir,
        source: None,
        destination: None,
        status: TransferStatus::Pending,
        created_at: at.into(),
    }
}

#[test]
fn the_newest_money_in_counts() {
    assert_eq!(latest_deposit(&[]), None);
    assert_eq!(
        latest_deposit(&[
            transfer(TransferDirection::MoneyIn, "2026-05-01"),
            transfer(TransferDirection::MoneyIn, "2026-05-09"),
            transfer(TransferDirection::MoneyIn, "2026-05-03"),
            transfer(TransferDirection::MoneyOut, "2026-06-01"),
        ]),
        Some("2026-05-09".to_string())
    );
}

#[test]
fn income_sources_are_watched() {
    let account = |id: &str, account_type| AccountSummary { id: id.into(), name: format!("n-{id}"), account_type };
    let list = vec![account("a", AccountType::Pod), account("b", AccountType::IncomeSource), account("c", AccountType::Other)];
    assert_eq!(income_sources(&list), vec![("b".to_string(), "n-b".to_string())]);
}

#[test]
fn polling_is_at_most_once_a_minute() {
    assert_eq!(poll_interval_secs(5), 60);
    assert_eq!(poll_interval_secs(60), 60);
    assert_eq!(poll_interval_secs(3600), 3600);
}
