use maestro::api::{AccountSummary, AccountType, Participant, Transaction, Transfer, TransferDirection, TransferStatus};
use maestro::assess::OutOfRange;
use maestro::date::Date;
use maestro::schedule::PaySchedule;
use maestro::spend::{
    biggest_first, build, checked_report_vs_budget, matching_pods, paydays_per_month, report_spend, report_vs_budget,
    rows_in_range, spends_in_range, Channel, PodSpend,
};
use maestro::style::{Span, Style};

fn txn(amount: i64, is_refund: bool, at: &str, description: &str) -> Transaction {
    Transaction {
        amount_in_cents: amount,
        direction: if is_refund { TransferDirection::MoneyIn } else { TransferDirection::MoneyOut },
        is_refund,
        status: TransferStatus::Complete,
        description: description.into(),
        created_at: at.into(),
    }
}

fn ach(amount: i64, at: &str, to: Option<&str>) -> Transfer {
    Transfer {
        amount_in_cents: amount,
        direction: TransferDirection::MoneyOut,
        source: None,
        destination: to.map(|n| Participant { id: None, name: n.into(), is_pod: false }),
        status: TransferStatus::Complete,
        created_at: at.into(),
    }
}

fn plain(spans: &[Span]) -> String {
    spans.iter().map(|s| s.text.as_str()).collect()
}

fn groceries() -> PodSpend {
    let card = vec![
        txn(5_000, false, "2026-05-02T10:00:00Z", "Grocer | Town"),
        txn(1_000, true, "2026-05-04T10:00:00Z", "Grocer"),
    ];
    let mut pending = ach(700, "2026-05-04T09:00:00Z", None);
    pending.status = TransferStatus::Pending;
    let mut inside = ach(9, "2026-05-05T09:00:00Z", Some("Other pod"));
    inside.direction = TransferDirection::Internal;
    let out = vec![ach(3_000, "2026-05-03T10:00:00Z", Some("Utility | Acct 7")), pending, inside];
    assert!(rows_in_range(&card, &out));
    build("Food / 20 / 5", &card, &out)
}

#[test]
fn rows_are_combined_newest_first() {
    let s = groceries();
    assert_eq!((s.card_cents, s.ach_cents, s.total()), (4_000, 3_000, 7_000));
    let seen: Vec<(&str, i64, &str, Channel)> =
        s.entries.iter().map(|e| (e.date.as_str(), e.cents, e.label.as_str(), e.channel)).collect();
    assert_eq!(
        seen,
        vec![
            ("2026-05-04", -1_000, "Grocer", Channel::Card),
            ("2026-05-04", 700, "—", Channel::Ach),
            ("2026-05-03", 3_000, "Utility", Channel::Ach),
            ("2026-05-02", 5_000, "Grocer", Channel::Card),
        ]
    );
}

#[test]
fn spend_is_reported_row_by_row() {
    let spans = report_spend(&vec![groceries()], 30);
    assert_eq!(
        plain(&spans),
        "
=== Food / 20 / 5  ·  spend (30d): $70.00   (card $40.00 · ACH $30.00) ===
  2026-05-04  refund    $10.00  Grocer
  2026-05-04  ACH        $7.00  —  [Pending — not counted]
  2026-05-03  ACH       $30.00  Utility
  2026-05-02  card      $50.00  Grocer
"
    );
    assert!(spans.iter().any(|s| s.text == "refund" && s.style == Style::Green));
    assert!(spans.iter().any(|s| s.text == "  [Pending — not counted]" && s.style == Style::Red));
}

#[test]
fn long_lists_are_cut() {
    let card: Vec<Transaction> = (0..20).map(|i| txn(i, false, "2026-05-02T10:00:00Z", "x")).collect();
    let text = plain(&report_spend(&vec![build("p", &card, &vec![])], 30));
    assert!(text.ends_with("  … 5 more\n"));
    assert_eq!(text.matches("card  ").count(), 15);
}

#[test]
fn spend_is_compared_with_the_budget() {
    // $70 in 30 days is $71.02 a month; the name declares $20
    let food = groceries();
    let mut other = build("Savings", &vec![txn(100, false, "2026-05-02T10:00:00Z", "x")], &vec![]);
    other.pod_name = "Savings".into();
    let cap = build("Fun / 50 / topup", &vec![txn(100, false, "2026-05-02T10:00:00Z", "x")], &vec![]);
    let near = build("Web / 71 / 5", &vec![txn(7_000, false, "2026-05-02T10:00:00Z", "x")], &vec![]);
    let under = build("Club / 240 / annual", &vec![txn(100, false, "2026-05-02T10:00:00Z", "x")], &vec![]);
    let spends = vec![food, other, cap, near, under];
    assert!(spends_in_range(&spends));
    assert_eq!(
        plain(&report_vs_budget(&spends, 30, 2)),
        "\
spend vs. declared budget (monthly, from a 30d window):

  Food                 budgeted     $20.00/mo   actual     $71.02/mo   drift     $51.02  <-- spends more than budgeted
      → set the pod amount to ~$72.00 (currently $20.00)
  Savings              actual      $1.01/mo   (not a budgeted bill)
  Fun                  cap         $100.00/mo   actual      $1.01/mo   drift    -$98.99
  Web                  budgeted     $71.00/mo   actual     $71.02/mo   drift      $0.02
  Club                 budgeted     $20.00/mo   actual      $1.01/mo   drift    -$18.99  <-- budgeted more than spent
      → set the pod amount to ~$13.00 (currently $240.00)

(card + ACH spend; rates projected from a 30d window — use `--days 90` for a steadier figure)
"
    );
    let over = build("Fun / 1 / keep", &vec![txn(9_000, false, "2026-05-02T10:00:00Z", "x")], &vec![]);
    let text = plain(&report_vs_budget(&vec![over], 90, 2));
    assert!(text.contains("  <-- over the cap\n"));
    assert!(text.ends_with("\n(card + ACH spend; rates projected from a 90d window)\n"));
    assert_eq!(
        plain(&checked_report_vs_budget(&spends, 30, 2).unwrap()),
        plain(&report_vs_budget(&spends, 30, 2))
    );
    let large = build("Car / 999999999999999999 / 10", &vec![], &vec![]);
    assert_eq!(checked_report_vs_budget(&vec![large], 30, 2).err(), Some(OutOfRange));
}

#[test]
fn the_biggest_spender_comes_first() {
    let small = build("small", &vec![txn(100, false, "2026-05-02T10:00:00Z", "x")], &vec![]);
    let none = build("none", &vec![], &vec![]);
    let big = build("big", &vec![txn(900, false, "2026-05-02T10:00:00Z", "x")], &vec![]);
    let names: Vec<String> = biggest_first(&vec![small, none, big]).into_iter().map(|s| s.pod_name).collect();
    assert_eq!(names, vec!["big", "small"]);
}

#[test]
fn rows_out_of_range_are_noticed() {
    assert!(!rows_in_range(&vec![txn(i64::MIN, true, "", "x")], &vec![]));
    assert!(!rows_in_range(&vec![], &vec![ach(i64::MAX, "", None), ach(1, "", None)]));
}

#[test]
fn pods_are_picked_by_name() {
    let account = |name: &str, account_type| AccountSummary { id: format!("id-{name}"), name: name.into(), account_type };
    let list = vec![
        account("Auto Pay", AccountType::Pod),
        account("AUTO Bank", AccountType::Other),
        account("Home", AccountType::Pod),
    ];
    assert_eq!(matching_pods(&list, "auTO"), vec![("id-Auto Pay".to_string(), "Auto Pay".to_string())]);
    assert_eq!(matching_pods(&list, "").len(), 2);
}

#[test]
fn paydays_a_month_are_one_at_least() {
    let today = Date::from_ymd_opt(2026, 5, 31).unwrap();
    assert_eq!(paydays_per_month(&PaySchedule::default(), today), 2);
    assert_eq!(paydays_per_month(&PaySchedule::Irregular, today), 1);
}
