use maestro::allocator::PlannedTransfer;
use maestro::config::{funding_strategy, pay_schedule, Phase};
use maestro::date::Date;
use maestro::engine::{
    lines_in_range, phase_executes, rebalance_plan, render, render_spans, run_cycle, BillLine, Leg, LineKind, Report,
};
use maestro::ledger::Names;
use maestro::schedule::PaySchedule;
use maestro::style::{show, Span, Style};

fn line(name: &str, current: i64, target: i64, kind: LineKind) -> BillLine {
    BillLine {
        group: "g".into(),
        name: name.into(),
        pod_id: format!("pod-{name}"),
        current,
        target,
        need: (target - current).max(0),
        give: 0,
        reserved: 0,
        kind,
    }
}

fn report_with(lines: Vec<BillLine>) -> Report {
    Report {
        today: Date::from_ymd_opt(2026, 5, 30).unwrap(),
        pool_pod_id: "pool".into(),
        pool_balance: 0,
        transfers: vec![],
        lines,
        not_funded: vec![],
        migrate: vec![],
        ignored: vec![],
        notes: vec![],
        warnings: vec![],
        executed: false,
        names: Names::new(),
    }
}

#[test]
fn rebalance_never_touches_hold_pods() {
    let plan = rebalance_plan(&report_with(vec![
        line("stash", 5_500, 5_000, LineKind::Hold), // above level — NOT skimmed
        line("spent", 1_000, 5_000, LineKind::Hold), // below level — funding refills it, not rebalance
    ]));
    assert!(plan.skims.is_empty() && plan.fills.is_empty());
}

#[test]
fn rebalance_skips_a_pod_whose_debit_hasnt_cleared() {
    // New-cycle pace is low ($50) and the pod looks overfunded ($600), but that
    // $600 is last cycle's debit not yet cleared (reserved) → must NOT be skimmed.
    let mut l = line("carpay", 60_000, 5_000, LineKind::Sinking);
    l.reserved = 60_000;
    let plan = rebalance_plan(&report_with(vec![l]));
    assert!(plan.skims.is_empty(), "reserved pod must not be skimmed");
}

#[test]
fn rebalance_skims_ahead_fills_behind_holds_boundary_skips_contributions() {
    let plan = rebalance_plan(&report_with(vec![
        line("ahead", 10_500, 10_000, LineKind::Sinking), // $5 over -> skim $5
        line("behind", 9_700, 10_000, LineKind::Sinking), // $3 under -> fill $3
        line("justdue", 5_000, 0, LineKind::Sinking),     // target $0, holding -> boundary
        line("contrib", 0, 20_000, LineKind::Topup),      // contribution -> never touched
    ]));
    assert_eq!(plan.skims, vec![("ahead".into(), "pod-ahead".into(), 500)]);
    assert_eq!(
        plan.fills,
        vec![("behind".into(), "pod-behind".into(), 300)]
    );
    assert_eq!(plan.boundary, 1); // just-due pod left alone, not drained
}

#[test]
fn rebalance_respects_the_one_dollar_floor() {
    let plan = rebalance_plan(&report_with(vec![
        line("tiny_over", 10_050, 10_000, LineKind::Sinking), // $0.50 over -> ignored
        line("tiny_under", 9_950, 10_000, LineKind::Sinking), // $0.50 under -> filled to $1
    ]));
    assert!(plan.skims.is_empty()); // sub-dollar surplus is left alone
    assert_eq!(
        plan.fills,
        vec![("tiny_under".into(), "pod-tiny_under".into(), 100)] // floored up to $1.00
    );
}

#[test]
fn rebalance_never_touches_a_contribution_even_when_ahead() {
    // have is the real balance now, so a contribution can show current > target — still never skimmed
    let plan = rebalance_plan(&report_with(vec![
        line("saved_ahead", 10_000, 4_000, LineKind::Drawdown), // $60 over pace
        line("topup_full", 75_000, 1_000, LineKind::Topup),     // big real balance
    ]));
    assert!(plan.skims.is_empty());
    assert!(plan.fills.is_empty());
}

#[test]
fn phase_gates_which_legs_execute() {
    // shadow moves nothing
    assert!(!phase_executes(Phase::Shadow, Leg::TopLevel));
    assert!(!phase_executes(Phase::Shadow, Leg::WithinGroup));
    // groups: top-level only (maestro fills groups; Sequence distributes)
    assert!(phase_executes(Phase::Groups, Leg::TopLevel));
    assert!(!phase_executes(Phase::Groups, Leg::WithinGroup));
    // full: everything
    assert!(phase_executes(Phase::Full, Leg::TopLevel));
    assert!(phase_executes(Phase::Full, Leg::WithinGroup));
}

#[test]
fn phase_parses_from_env_strings() {
    assert_eq!(Phase::from_str("shadow").unwrap(), Phase::Shadow);
    assert_eq!(Phase::from_str("GROUPS").unwrap(), Phase::Groups);
    assert_eq!(Phase::from_str("full").unwrap(), Phase::Full);
    assert!(Phase::from_str("nonsense").is_err());
    assert_eq!(Phase::default(), Phase::Shadow); // safe default
}

#[test]
fn an_unknown_phase_is_named_in_the_error() {
    assert_eq!(
        Phase::from_str("  Half "),
        Err("unknown MAESTRO_PHASE 'half' (use shadow|groups|full)".to_string())
    );
    assert_eq!(Phase::from_str(" group\n"), Ok(Phase::Groups));
}

#[test]
fn settings_fall_back_without_a_state_file() {
    let (sched, onboarded) = pay_schedule(None);
    assert_eq!(sched, PaySchedule::SemiMonthly { days: vec![15, -1] });
    assert!(!onboarded);
    assert_eq!(funding_strategy(None), maestro::allocator::FundingStrategy::SoonestDue);
}

#[test]
fn totals_and_net_add_up() {
    let plan = rebalance_plan(&report_with(vec![
        line("a", 10_500, 10_000, LineKind::Sinking),
        line("b", 20_000, 10_000, LineKind::Sinking),
        line("c", 9_000, 10_000, LineKind::Sinking),
    ]));
    assert!(plan.totals_in_range());
    assert_eq!(plan.skim_total(), 10_500);
    assert_eq!(plan.fill_total(), 1_000);
    assert_eq!(plan.net(), 9_500);
}

#[test]
fn lines_out_of_range_are_noticed() {
    assert!(lines_in_range(&vec![line("a", i64::MAX, 1, LineKind::Sinking)]));
    let mut far = line("a", 0, 0, LineKind::Sinking);
    far.current = i64::MAX;
    far.target = -1;
    assert!(!lines_in_range(&vec![far]));
}

fn plain(spans: &[Span]) -> String {
    spans.iter().map(|s| s.text.as_str()).collect()
}

fn sample() -> Report {
    let mut short = line("rent", 40_000, 50_000, LineKind::Sinking);
    short.group = "Home".into();
    short.give = 5_000;
    let mut ahead = line("a very long name that is cut off", 60_000, 50_000, LineKind::Sinking);
    ahead.group = "Home".into();
    let mut held = line("car", 60_000, 5_000, LineKind::Sinking);
    held.group = "Auto".into();
    held.reserved = 55_000;
    let mut topup = line("fun", 0, 2_000, LineKind::Topup);
    topup.group = "Auto".into();
    topup.give = 2_000;
    let mut report = report_with(vec![short, ahead, held, topup]);
    report.not_funded = vec!["Alarm (50)".into()];
    report.migrate = vec!["Old (1)".into()];
    report.notes = vec!["a note".into()];
    report.warnings = vec!["a warning".into()];
    report.ignored = vec!["Savings".into(), "Spending".into()];
    report
}

#[test]
fn the_report_shows_every_section() {
    let spans = render_spans(&sample());
    let text = plain(&spans);
    let want = "\
=== Home ===
  rent                   have   $400.00  target   $500.00  need   $100.00  fund    $50.00  <-- short
  a very long name that  have   $600.00  target   $500.00  need     $0.00  fund     $0.00  ahead $100.00
=== Auto ===
  car                    have   $600.00  target    $50.00  need     $0.00  fund     $0.00  [debit due — $550.00 not yet cleared]
  fun                    have     $0.00  target    $20.00  need    $20.00  fund    $20.00  [top-up — owes this pay]

ahead of pace $100.00  ·  behind $100.00

[!] NOT funded — fix the name:
    Alarm (50)

still on old naming (1):
    Old (1)

notes:
    a note

[!] warnings:
    a warning

ignored — not bills (2): Savings, Spending
";
    assert_eq!(text, want);
    assert_eq!(spans[0], Span { text: "=== Home ===".into(), style: Style::CyanBold });
    assert_eq!(spans[3], Span { text: "  $400.00".into(), style: Style::Red });
    assert_eq!(spans[5], Span { text: "  $100.00".into(), style: Style::RedBold });
}

#[test]
fn the_net_says_what_to_do() {
    let surplus = plain(&render_spans(&report_with(vec![
        line("a", 10_500, 10_000, LineKind::Sinking),
        line("b", 5_000, 0, LineKind::Sinking),
    ])));
    assert!(surplus.contains("net $5.00 reclaimable → reclaim pod (run `maestro rebalance`)\n"));
    assert!(surplus.contains("(1 pod(s) at a cycle boundary, holding for a just-due bill)\n"));
    let lack = plain(&render_spans(&report_with(vec![line("a", 9_500, 10_000, LineKind::Sinking)])));
    assert!(lack.contains("net -$5.00 short — needs $5.00 from income to level up\n"));
}

#[test]
fn kinds_have_their_remarks() {
    let text = plain(&render_spans(&report_with(vec![
        line("a", 10, 10, LineKind::Topup),
        line("b", 10, 20, LineKind::Drawdown),
        line("c", 10, 10, LineKind::Drawdown),
        line("d", 10, 20, LineKind::Hold),
        line("e", 10, 10, LineKind::Hold),
    ])));
    for remark in [
        "[top-up — met this pay]",
        "[drawdown — behind pace, no catch-up]",
        "[drawdown — on pace]",
        "[hold — below level, refilling]",
        "[hold — at level]",
    ] {
        assert!(text.contains(remark), "{remark}");
    }
}

#[test]
fn colors_follow_the_switch() {
    let spans = vec![
        Span { text: "plain ".into(), style: Style::Plain },
        Span { text: "red".into(), style: Style::Red },
        Span { text: "loud".into(), style: Style::RedBold },
        Span { text: "dim".into(), style: Style::Dimmed },
    ];
    colored::control::set_override(true);
    assert_eq!(show(&spans), "plain \u{1b}[31mred\u{1b}[0m\u{1b}[1;31mloud\u{1b}[0m\u{1b}[2mdim\u{1b}[0m");
    // a reset inside the text starts the style again
    assert_eq!(
        show(&vec![Span { text: "a\u{1b}[0mb".into(), style: Style::Red }]),
        "\u{1b}[31ma\u{1b}[0m\u{1b}[31mb\u{1b}[0m"
    );
    assert_eq!(show(&vec![Span { text: "a\u{1b}[0mb".into(), style: Style::Plain }]), "a\u{1b}[0mb");
    let mut all: Vec<String> = Vec::new();
    for style in [Style::Bold, Style::Green, Style::Yellow, Style::Blue, Style::Cyan, Style::YellowBold, Style::CyanBold] {
        all.push(show(&vec![Span { text: "x".into(), style }]));
    }
    assert_eq!(
        all,
        vec![
            "\u{1b}[1mx\u{1b}[0m",
            "\u{1b}[32mx\u{1b}[0m",
            "\u{1b}[33mx\u{1b}[0m",
            "\u{1b}[34mx\u{1b}[0m",
            "\u{1b}[36mx\u{1b}[0m",
            "\u{1b}[1;33mx\u{1b}[0m",
            "\u{1b}[1;36mx\u{1b}[0m",
        ]
    );
    colored::control::set_override(false);
    assert_eq!(show(&spans), "plain redlouddim");
    assert_eq!(render(&sample()), plain(&render_spans(&sample())));
}

fn transfer(from: &str, to: &str, cents: i64) -> PlannedTransfer {
    PlannedTransfer { from_pod: from.into(), to_pod: to.into(), amount_cents: cents, reason: "r".into() }
}

fn cycle() -> Report {
    let mut report = report_with(vec![]);
    report.transfers = vec![transfer("pool", "g", 500), transfer("g", "p", 500), transfer("pool", "q", 99)];
    report.names.insert("pool".to_string(), "Income".to_string());
    report
}

#[test]
fn a_cycle_moves_what_the_phase_covers() {
    let mut report = cycle();
    let steps = run_cycle(&mut report, false, Phase::Groups);
    // dust below a dollar stays where it is
    let seen: Vec<(&str, &str, Leg, bool)> =
        steps.iter().map(|s| (s.from_name.as_str(), s.to_name.as_str(), s.leg, s.execute)).collect();
    assert_eq!(
        seen,
        vec![
            ("Income", "g", Leg::TopLevel, true),
            ("g", "p", Leg::WithinGroup, false),
            ("Income", "q", Leg::TopLevel, false),
        ]
    );
    assert!(report.executed);
}

#[test]
fn a_dry_run_and_the_shadow_phase_move_nothing() {
    let mut report = cycle();
    assert!(run_cycle(&mut report, true, Phase::Full).iter().all(|s| !s.execute));
    assert!(!report.executed);
    assert!(run_cycle(&mut report, false, Phase::Shadow).iter().all(|s| !s.execute));
    assert!(!report.executed);
    assert!(run_cycle(&mut report, false, Phase::Full).iter().all(|s| s.execute == (s.amount_cents >= 100)));
    assert!(report.executed);
}
