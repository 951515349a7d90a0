use maestro::allocator::FundingStrategy;
use maestro::api::{
    AccountNode, AccountSummary, AccountType, Rule, RuleAction, RuleActionKind, RuleStep, TransferCap,
    TransferCapPeriod, Trigger,
};
use maestro::assess::OutOfRange;
use maestro::budget::{
    assemble, buffered, checked_assembly, declared_amounts, declared_cents, drift_names_in_range, drift_warnings,
    flows_from_rules, pod_names_in_range, Flow,
};
use maestro::date::Date;
use maestro::derive::Frequency;
use maestro::schedule::PaySchedule;
use maestro::state::{PoolRef, State};

/// The amount with a buffer on it, rounded up to the cent.
fn cushion(amount: i64, pct: f64) -> i64 {
    (amount as f64 * (1.0 + pct / 100.0)).ceil() as i64
}

// Amounts use dollar_cents grouping (`100_00` = $100.00) for readability.
#[allow(clippy::inconsistent_digit_grouping)]
#[test]
fn buffer_adds_pct_and_always_rounds_up_to_the_cent() {
    // $100.00 at 2.5% -> exactly $102.50.
    assert_eq!(buffered(100_00, &Frequency::Month, cushion(100_00, 2.5)), 102_50);
    // $33.33 * 1.025 = $34.16325 -> rounds UP to $34.17 (never under-funds).
    assert_eq!(buffered(33_33, &Frequency::Month, cushion(33_33, 2.5)), 34_17);
}

#[test]
fn contributions_get_no_buffer() {
    // A per-paycheck contribution is a chosen amount, not a bill to over-cover.
    assert_eq!(buffered(50_000, &Frequency::Paycheck, cushion(50_000, 2.5)), 50_000);
}

#[test]
fn kept_levels_get_no_buffer() {
    assert_eq!(buffered(50_000, &Frequency::Keep, 51_250), 50_000);
    assert_eq!(buffered(50_000, &Frequency::Year, 51_250), 51_250);
}

fn pod(id: &str, name: &str) -> AccountSummary {
    AccountSummary {
        id: id.into(),
        name: name.into(),
        account_type: AccountType::Pod,
    }
}

fn flow(src: &str, dst: &str, target: Option<i64>, cap: Option<i64>) -> Flow {
    Flow {
        src: src.into(),
        dst: dst.into(),
        target_cents: target,
        cap_cents: cap,
    }
}

// Amounts use dollar_cents grouping (`50_00` = $50.00) for readability.
#[allow(clippy::inconsistent_digit_grouping)]
#[test]
fn drift_flags_underfunding_rule_orphan_bill_and_starved_group() {
    let accounts = vec![
        pod("g1", "G: Home"),
        pod("p1", "Home / Web / 40 / 24"), // rule below declared
        pod("p2", "Home / Water / 30 / 5"), // no rule at all
    ];
    let flows = vec![
        flow("pool", "g1", Some(50_00), None),      // group pulls $50…
        flow("g1", "p1", Some(39_00), Some(20_00)), // …bill can draw cap $20
        flow("g1", "px", Some(45_00), Some(45_00)), // …other bill draws $45 -> demand $65
    ];
    let w = drift_warnings(&accounts, &flows);
    assert_eq!(w.len(), 3, "{w:?}");
    assert!(w.iter().any(|s| s.contains("starved by $15.00")), "{w:?}");
    assert!(
        w.iter()
            .any(|s| s.contains("Web") && s.contains("underfund")),
        "{w:?}"
    );
    assert!(
        w.iter()
            .any(|s| s.contains("Water") && s.contains("no enabled rule funds")),
        "{w:?}"
    );
}

#[allow(clippy::inconsistent_digit_grouping)]
#[test]
fn drift_is_silent_when_names_and_rules_agree() {
    let accounts = vec![
        pod("g1", "G: Home"),
        pod("p1", "Home / Web / 40 / 24"),
        pod("p3", "Home / Cell / 25 / paycheck"), // cap semantics: presence is enough
    ];
    let flows = vec![
        flow("pool", "g1", Some(60_00), None),
        flow("g1", "p1", Some(40_00), Some(20_00)),
        flow("g1", "p3", Some(100_00), Some(40_00)),
    ];
    assert!(drift_warnings(&accounts, &flows).is_empty());
}

#[test]
fn drift_warnings_say_what_is_wrong() {
    let accounts = vec![pod("g1", "G: Home"), pod("p1", "Home / Web / 40 / 24"), pod("p2", "Home / Water / 30 / 5")];
    let flows = vec![flow("g1", "p1", Some(3900), Some(2000))];
    assert_eq!(
        drift_warnings(&accounts, &flows),
        vec![
            "G: Home: no enabled rule pulls into this group — its bills won't fund",
            "Web: rule tops up to $39.00 but the pod declares $40.00 — the rule will underfund it",
            "Water: no enabled rule funds this pod — it will sit empty",
        ]
    );
    let flows = vec![flow("pool", "g1", Some(1000), None), flow("g1", "p1", Some(4000), None), flow("g1", "p2", None, None)];
    assert_eq!(
        drift_warnings(&accounts, &flows),
        vec!["G: Home: pulls $10.00 from income, but its bills can draw up to $40.00 per cycle — starved by $30.00"]
    );
}

fn state(pool: &str) -> State {
    State {
        discovered_at: Date::from_ymd_opt(2026, 5, 1).unwrap(),
        pay_schedule: PaySchedule::default(),
        funding_strategy: FundingStrategy::SoonestDue,
        pools: vec![PoolRef { pod_id: pool.into(), name: "Income".into(), deposits_seen: 3 }],
        reclaim_pod: None,
        income_sources: vec![],
    }
}

#[test]
fn every_pod_finds_its_place() {
    let mut income = pod("src", "Employer");
    income.account_type = AccountType::IncomeSource;
    let accounts = vec![
        pod("pool", "Income Fund"),
        pod("g1", "G: Home"),
        pod("g2", "Auto (600/300)"),
        pod("p1", "Home / Web / 40 / 24"),
        pod("p2", "Auto / Car / 300 / 10"),
        pod("p3", "Phone Bill ($80) - 16th"),
        pod("p4", "Alarm (50)"),
        pod("p5", "Home / Club / 120 / 10 / yearly"),
        pod("p6", "Savings"),
        pod("p7", "Zoo / Pass / 60 / annual"),
        pod("p8", "Home / Float / 25 / keep"),
        income,
    ];
    assert!(pod_names_in_range(&accounts, "pool"));
    // every bill with a tenth on it
    let cushioned: Vec<i64> = accounts
        .iter()
        .map(|a| declared_cents(&a.name).map_or(0, |c| c + c / 10))
        .collect();
    let file = state("pool");
    let found = assemble(&accounts, Some(&file), &cushioned);
    assert_eq!(found.budget.pool_pod_id, "pool");
    let shape: Vec<(&str, &str, Vec<(&str, i64)>)> = found
        .budget
        .categories
        .iter()
        .map(|c| {
            (
                c.name.as_str(),
                c.pod_id.as_str(),
                c.bills.iter().map(|b| (b.name.as_str(), b.amount_cents)).collect(),
            )
        })
        .collect();
    assert_eq!(
        shape,
        vec![
            ("(ungrouped)", "pool", vec![("Phone Bill", 8800)]),
            ("Auto", "g2", vec![("Car", 33000)]),
            ("Home", "g1", vec![("Web", 4400), ("Float", 2500)]),
            ("Zoo", "pool", vec![("Pass", 6600)]),
        ]
    );
    assert_eq!(
        found.not_funded,
        vec![
            "Alarm (50) — no due day (add a day, or a frequency)",
            "Home / Club / 120 / 10 / yearly — due day + Year (drop the day for a sinking fund, or use a date)",
        ]
    );
    assert_eq!(
        found.migrate,
        vec!["Auto (600/300) (group pod — rename to `G: …`)", "Phone Bill ($80) - 16th"]
    );
    assert_eq!(found.ignored, vec!["Income Fund", "Savings"]);
    assert_eq!(found.warnings, vec!["no group pod for 'Zoo' — funding its bills from the pool"]);
}

#[test]
fn without_onboarding_there_is_no_pool() {
    let accounts = vec![pod("p1", "Rent / 900 / 1")];
    let found = assemble(&accounts, None, &vec![90_000]);
    assert_eq!(found.budget.pool_pod_id, "");
    assert_eq!(found.warnings, vec!["no income pool detected — run `discover` first"]);
    assert_eq!(found.budget.categories.len(), 1);
    assert_eq!(found.budget.categories[0].bills[0].due_day, Some(1));
}

#[test]
fn the_first_group_pod_of_a_name_counts() {
    let accounts = vec![pod("a", "G: Home"), pod("b", "Home (10/5)"), pod("p", "Home / Web / 40 / last")];
    let file = state("pool");
    let found = assemble(&accounts, Some(&file), &vec![0, 0, 4000]);
    assert_eq!(found.budget.categories[0].pod_id, "a");
    assert_eq!(found.budget.categories[0].bills[0].due_day, Some(31));
}

fn action(src: &str, dst: &str, kind: RuleActionKind, cap: Option<i64>) -> RuleAction {
    RuleAction {
        source: AccountNode { id: src.into(), name: None },
        destination: AccountNode { id: dst.into(), name: None },
        limit: cap.map(|c| TransferCap { amount_in_cents: c, period: TransferCapPeriod::PerMonth }),
        kind,
    }
}

#[test]
fn only_enabled_rules_flow() {
    let rule = |enabled: bool, actions: Vec<RuleAction>| Rule {
        name: None,
        enabled,
        status: "x".into(),
        trigger: Trigger::Manual,
        steps: vec![RuleStep { is_conditional: false, actions }],
    };
    let rules = vec![
        rule(true, vec![action("pool", "a", RuleActionKind::Fixed { amount_in_cents: 500 }, None)]),
        rule(false, vec![action("pool", "b", RuleActionKind::Fixed { amount_in_cents: 500 }, None)]),
        rule(
            true,
            vec![
                action("a", "c", RuleActionKind::TopUp { amount_in_cents: Some(700) }, Some(300)),
                action("a", "d", RuleActionKind::TopUp { amount_in_cents: None }, None),
                action("a", "e", RuleActionKind::Dynamic, None),
            ],
        ),
    ];
    let flows = flows_from_rules(&rules);
    let seen: Vec<(&str, &str, Option<i64>, Option<i64>)> = flows
        .iter()
        .map(|f| (f.src.as_str(), f.dst.as_str(), f.target_cents, f.cap_cents))
        .collect();
    assert_eq!(
        seen,
        vec![
            ("pool", "a", Some(500), None),
            ("a", "c", Some(700), Some(300)),
            ("a", "d", None, None),
            ("a", "e", None, None),
        ]
    );
}

#[test]
fn numbers_out_of_range_are_refused_only_where_they_are_read() {
    let large = "Car / 999999999999999999 / 10";
    let accounts = vec![pod("pool", large), pod("g", "G: Home (999999999999999999)"), pod("p", "Web / 40 / 24")];
    // the pool's own name and a marked group are not read as bills
    assert!(pod_names_in_range(&accounts, "pool"));
    assert!(!pod_names_in_range(&accounts, "other"));
    let file = state("pool");
    let found = checked_assembly(&accounts, Some(&file), &vec![0, 0, 4000]).unwrap();
    assert_eq!(found.budget.categories[0].bills[0].amount_cents, 4000);
    assert_eq!(checked_assembly(&accounts, None, &vec![0, 0, 4000]).err(), Some(OutOfRange));
    assert!(!drift_names_in_range(&accounts));
    assert!(drift_names_in_range(&vec![pod("g", "G: Home (999999999999999999)")]));
}

#[test]
fn only_pods_declare_an_amount() {
    let mut income = pod("src", "Web / 40 / 24");
    income.account_type = AccountType::IncomeSource;
    let accounts = vec![pod("p", "Web / 40 / 24"), income, pod("q", "Savings"), pod("r", "Phone ($80) - 16th")];
    assert_eq!(declared_amounts(&accounts).unwrap(), vec![Some(4000), None, None, Some(8000)]);
    assert_eq!(
        declared_amounts(&vec![pod("p", "Car / 999999999999999999 / 10")]).err(),
        Some(OutOfRange)
    );
}
