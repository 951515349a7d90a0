use maestro::api::{
    AccountNode, PercentageTarget, Rule, RuleAction, RuleActionKind, RuleStep, TransferCap, TransferCapPeriod, Trigger,
};
use maestro::ledger::Names;
use maestro::rules::{cap_period, describe, node, shows_rule, write_rule};

fn names() -> Names {
    let mut names = Names::new();
    names.insert("a1".to_string(), "Income".to_string());
    names.insert("b1".to_string(), "Straße".to_string());
    names
}

fn action(kind: RuleActionKind, limit: Option<TransferCap>) -> RuleAction {
    RuleAction {
        source: AccountNode { id: "a1".into(), name: None },
        destination: AccountNode { id: "zz".into(), name: Some("Auto".into()) },
        limit,
        kind,
    }
}

fn rule(actions: Vec<RuleAction>, is_conditional: bool) -> Rule {
    Rule {
        name: Some("Payday".into()),
        enabled: true,
        status: "Enabled".into(),
        trigger: Trigger::OnFundsTransferred { account_id: "a1".into() },
        steps: vec![RuleStep { is_conditional, actions }],
    }
}

#[test]
fn actions_say_what_they_move() {
    let n = names();
    let cap = Some(TransferCap { amount_in_cents: 20_000, period: TransferCapPeriod::PerMonth });
    assert_eq!(describe(&action(RuleActionKind::Fixed { amount_in_cents: 1250 }, None), &n), "Income → Auto   $12.50");
    assert_eq!(
        describe(&action(RuleActionKind::TopUp { amount_in_cents: Some(500) }, cap), &n),
        "Income → Auto   top up to $5.00   [≤ $200.00 / month]"
    );
    assert_eq!(
        describe(&action(RuleActionKind::TopUp { amount_in_cents: None }, None), &n),
        "Income → Auto   top up (dynamic)"
    );
    assert_eq!(
        describe(
            &action(
                RuleActionKind::Percentage { percentage: "12.5".into(), target: PercentageTarget::IncomingAmount },
                None
            ),
            &n
        ),
        "Income → Auto   12.5% of incoming"
    );
    assert_eq!(
        describe(
            &action(
                RuleActionKind::Percentage { percentage: "50".into(), target: PercentageTarget::SourceAccount },
                None
            ),
            &n
        ),
        "Income → Auto   50% of balance"
    );
    assert_eq!(
        describe(&action(RuleActionKind::RoundDown { amount_in_cents: 100 }, None), &n),
        "Income → Auto   round down $1.00"
    );
    assert_eq!(describe(&action(RuleActionKind::Dynamic, None), &n), "Income → Auto   dynamic");
}

#[test]
fn nodes_go_by_name() {
    let n = names();
    assert_eq!(node(&AccountNode { id: "a1".into(), name: Some("Given".into()) }, &n), "Given");
    assert_eq!(node(&AccountNode { id: "a1".into(), name: None }, &n), "Income");
    assert_eq!(node(&AccountNode { id: "xx".into(), name: None }, &n), "xx");
    assert_eq!(cap_period(&TransferCapPeriod::PerTransfer), "transfer");
    assert_eq!(cap_period(&TransferCapPeriod::PerWeek), "week");
    assert_eq!(cap_period(&TransferCapPeriod::PerYear), "year");
}

#[test]
fn a_filter_looks_at_names_and_ends() {
    let n = names();
    let r = rule(vec![action(RuleActionKind::Dynamic, None)], false);
    let listed = Some("Payday".to_string());
    assert!(shows_rule(&listed, &r, &n, None));
    assert!(shows_rule(&listed, &r, &n, Some("PAY")));
    assert!(shows_rule(&None, &r, &n, Some("inCOME")));
    assert!(shows_rule(&None, &r, &n, Some("auto")));
    assert!(!shows_rule(&None, &r, &n, Some("payday")));
    assert!(!shows_rule(&listed, &r, &n, Some("rent")));
}

#[test]
fn rules_are_written_out() {
    let n = names();
    let r = rule(vec![action(RuleActionKind::Fixed { amount_in_cents: 100 }, None)], false);
    assert_eq!(write_rule(&r, &n), "\n● Payday  [Enabled]  (on deposit → Income)\n   Income → Auto   $1.00\n");
    let mut other = rule(vec![action(RuleActionKind::Dynamic, None)], true);
    other.name = None;
    other.trigger = Trigger::Scheduled { schedule: "Monthly".into() };
    assert_eq!(
        write_rule(&other, &n),
        "\n● (unnamed)  [Enabled]  (scheduled Monthly)\n   Income → Auto   dynamic\n   (conditional/multi-step — run with --json for the full rule)\n"
    );
    other.trigger = Trigger::Manual;
    assert!(write_rule(&other, &n).contains("(manual)"));
}
