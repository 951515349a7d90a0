use maestro::allocator::FundingStrategy;
use maestro::api::{AccountType, Participant, Transfer, TransferDirection, TransferStatus};
use maestro::commands::{
    account_text, cycle_header, destination, income_line, pods_total_text, rebalance_steps, rebalance_text,
    recent_transfers_text, simulation_header, Snapshot,
};
use maestro::config::Phase;
use maestro::date::Date;
use maestro::engine::{RebalancePlan, Report};
use maestro::ledger::Names;
use maestro::money::dollars;
use maestro::schedule::PaySchedule;
use maestro::state::State;
use maestro::style::{Span, Style};

fn names() -> Names {
    let mut names = Names::new();
    names.insert("pool".to_string(), "Income".to_string());
    names.insert("hub".to_string(), "Emergency".to_string());
    names
}

fn report(executed: bool) -> Report {
    Report {
        today: Date::from_ymd_opt(2026, 5, 30).unwrap(),
        pool_pod_id: "pool".into(),
        pool_balance: 123_456,
        transfers: vec![],
        lines: vec![],
        not_funded: vec![],
        migrate: vec![],
        ignored: vec![],
        notes: vec![],
        warnings: vec![],
        executed,
        names: names(),
    }
}

fn plain(spans: &[Span]) -> String {
    spans.iter().map(|s| s.text.as_str()).collect()
}

#[test]
fn dollars_and_cents() {
    assert_eq!(dollars(0), "$0.00");
    assert_eq!(dollars(5), "$0.05");
    assert_eq!(dollars(123_456), "$1234.56");
    assert_eq!(dollars(-150), "-$1.50");
    assert_eq!(dollars(i64::MIN), "-$92233720368547758.08");
}

#[test]
fn a_run_says_what_it_planned_by() {
    let header = cycle_header(
        &report(false),
        &PaySchedule::default(),
        FundingStrategy::SoonestDue,
        false,
        "2.5",
        Phase::Shadow,
    );
    assert_eq!(
        plain(&header),
        "\
MAESTRO — 2026-05-30  [DRY RUN — moves nothing]
pay schedule: SemiMonthly { days: [15, -1] }   strategy: SoonestDue   [!] no state file — run `discover`
pool: Income = $1234.56   buffer: 2.5%   phase: Shadow

"
    );
    let moved = cycle_header(
        &report(true),
        &PaySchedule::Irregular,
        FundingStrategy::Proportional,
        true,
        "0",
        Phase::Full,
    );
    assert_eq!(moved[2], Span { text: "EXECUTED — money moved".into(), style: Style::RedBold });
    assert!(plain(&moved).contains("strategy: Proportional\npool:"));
}

#[test]
fn a_simulation_says_what_it_pretends() {
    let header = simulation_header(&report(false), 100_000, &PaySchedule::default(), FundingStrategy::StrictEnvelope, "2.5");
    assert_eq!(
        plain(&header),
        "\
SIMULATION — deposit $1000.00 on 2026-05-30  [WHAT-IF — moves nothing]
pay schedule: SemiMonthly { days: [15, -1] }   strategy: StrictEnvelope
pool Income after deposit: $1234.56   buffer: 2.5%

"
    );
}

fn state(reclaim: Option<&str>) -> State {
    State {
        discovered_at: Date::from_ymd_opt(2026, 5, 1).unwrap(),
        pay_schedule: PaySchedule::default(),
        funding_strategy: FundingStrategy::SoonestDue,
        pools: vec![],
        reclaim_pod: reclaim.map(|s| s.to_string()),
        income_sources: vec![],
    }
}

#[test]
fn the_net_is_parked_in_a_known_pod() {
    let n = names();
    let file = state(Some("Emergency"));
    let found = Ok(("Emergency".to_string(), "hub".to_string()));
    assert_eq!(destination(None, Some(&file), &n), found);
    assert_eq!(destination(Some("Income"), Some(&file), &n), Ok(("Income".to_string(), "pool".to_string())));
    assert_eq!(destination(Some("Nowhere"), None, &n), Err("destination pod 'Nowhere' not found".to_string()));
    let unset = Err("no reclaim pod set — run `discover` or pass --to <pod>".to_string());
    assert_eq!(destination(None, None, &n), unset);
    assert_eq!(destination(None, Some(&state(None)), &n), unset);
}

fn plan() -> RebalancePlan {
    RebalancePlan {
        skims: vec![("ahead".into(), "pod-a".into(), 500)],
        fills: vec![("behind".into(), "pod-b".into(), 300)],
        boundary: 1,
    }
}

#[test]
fn a_rebalance_is_written_out() {
    assert_eq!(
        rebalance_text(&plan(), "Emergency", false),
        "\
REBALANCE → Emergency   [DRY RUN — moves nothing]

skim ahead → Emergency:
  ahead                      $5.00
  ── total skim $5.00

fill behind ← Emergency:
  behind                     $3.00
  ── total fill $3.00

net into Emergency: $2.00
(1 pod(s) skipped — at a cycle boundary, holding for a just-due bill)
"
    );
    assert!(rebalance_text(&plan(), "E", true).contains("[EXECUTING — moves money]"));
}

#[test]
fn a_rebalance_moves_through_the_hub() {
    assert!(rebalance_steps(&plan(), "hub", false).is_empty());
    let steps = rebalance_steps(&plan(), "hub", true);
    let seen: Vec<(&str, &str, i64, &str)> = steps
        .iter()
        .map(|s| (s.from_pod.as_str(), s.to_pod.as_str(), s.amount_cents, s.done.as_str()))
        .collect();
    assert_eq!(
        seen,
        vec![
            ("pod-a", "hub", 500, "  skimmed $5.00 from ahead"),
            ("hub", "pod-b", 300, "  filled $3.00 into behind"),
        ]
    );
}

#[test]
fn recent_transfers_are_listed() {
    let end = |name: &str| Some(Participant { id: None, name: name.into(), is_pod: true });
    let t = |dir, source, destination| Transfer {
        amount_in_cents: 1_250,
        direction: dir,
        source,
        destination,
        status: TransferStatus::Complete,
        created_at: "2026-05-01T10:00:00Z".into(),
    };
    let list = vec![
        t(TransferDirection::MoneyIn, end("Employer"), None),
        t(TransferDirection::MoneyOut, None, end("Landlord")),
        t(TransferDirection::Internal, None, end("x")),
    ];
    assert_eq!(
        recent_transfers_text("Rent", 5_000, &Ok(list)),
        "
=== Rent  (balance $50.00) ===
  2026-05-01  IN  ←    $12.50  Employer
  2026-05-01  OUT →    $12.50  Landlord
  2026-05-01  in  ←    $12.50  —
"
    );
    assert_eq!(
        recent_transfers_text("Rent", 0, &Err("timeout".to_string())),
        "\n=== Rent  (balance $0.00) ===\n  (transfers error: timeout)\n"
    );
}

fn snapshot(account_type: AccountType, balance: Option<i64>) -> Snapshot {
    Snapshot {
        name: "Card".into(),
        account_type,
        kind: "LiabilityAccount".into(),
        balance_in_cents: balance,
        apr: None,
        minimum_in_cents: None,
        due_date: None,
    }
}

#[test]
fn accounts_are_listed() {
    let mut a = snapshot(AccountType::Other, None);
    assert_eq!(account_text(&a), "  [LiabilityAccount] Card  =>  —\n");
    a.balance_in_cents = Some(5_000);
    a.apr = Some("24.99".into());
    a.minimum_in_cents = Some(2_500);
    assert_eq!(account_text(&a), "  [LiabilityAccount] Card  =>  $50.00  APR 24.99%  min $25.00\n");
    a.due_date = Some("2026-06-01T00:00:00Z".into());
    assert_eq!(account_text(&a), "  [LiabilityAccount] Card  =>  $50.00  APR 24.99%  min $25.00 due 2026-06-01\n");
    let list = vec![
        snapshot(AccountType::Pod, Some(100)),
        snapshot(AccountType::Pod, None),
        snapshot(AccountType::Other, Some(7)),
        snapshot(AccountType::Pod, Some(i64::MAX)),
    ];
    assert_eq!(pods_total_text(&list), "\nTotal across pods: $92233720368547759.07\n");
}

#[test]
fn income_history_is_listed() {
    let t = Transfer {
        amount_in_cents: 99,
        direction: TransferDirection::MoneyIn,
        source: None,
        destination: None,
        status: TransferStatus::Complete,
        created_at: "2026-05-01T10:00:00Z".into(),
    };
    assert_eq!(income_line(&t), "   2026-05-01T10:00:00Z  MoneyIn  $0.99\n");
}
