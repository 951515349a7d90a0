use maestro::api::{AccountNode, AccountSummary, AccountType, Rule, RuleAction, RuleActionKind, RuleStep, Trigger};
use maestro::commands::{permission_hint, says_no_permission};
use maestro::discover::reclaim_pod_among;
use maestro::ledger::Names;
use maestro::matching::{any_holds, find_holding, pick_pods};
use maestro::rules::names_looked_at;

fn account(name: &str, account_type: AccountType) -> AccountSummary {
    AccountSummary { id: format!("id-{name}"), name: name.into(), account_type }
}

fn texts(names: &[&str]) -> Vec<String> {
    names.iter().map(|n| n.to_string()).collect()
}

#[test]
fn words_are_found_in_the_forms_given() {
    let accounts = vec![
        account("AUTO Bank", AccountType::Other),
        account("Auto Pay", AccountType::Pod),
        account("Home", AccountType::Pod),
    ];
    let lower = texts(&["auto bank", "auto pay", "home"]);
    assert_eq!(find_holding(&accounts, &lower, "auto"), Some("AUTO Bank".to_string()));
    assert_eq!(find_holding(&accounts, &lower, "Auto"), None);
    assert_eq!(pick_pods(&accounts, &lower, "auto"), vec![("id-Auto Pay".to_string(), "Auto Pay".to_string())]);
    assert!(any_holds(&lower, "ban"));
    assert!(!any_holds(&lower, "Ban"));
    assert!(any_holds(&lower, ""));
    assert!(!any_holds(&vec![], ""));
}

#[test]
fn savings_stand_in_for_an_emergency_fund() {
    let accounts = vec![account("A", AccountType::Pod), account("B", AccountType::Pod)];
    assert_eq!(reclaim_pod_among(&accounts, &texts(&["savings", "emergency"])), Some("B".to_string()));
    assert_eq!(reclaim_pod_among(&accounts, &texts(&["savings", "savings"])), Some("A".to_string()));
    assert_eq!(reclaim_pod_among(&accounts, &texts(&["Savings", "x"])), None);
}

#[test]
fn a_filter_looks_at_every_end() {
    let end = |id: &str, name: Option<&str>| AccountNode { id: id.into(), name: name.map(|n| n.to_string()) };
    let action = RuleAction {
        source: end("a", None),
        destination: end("b", Some("Auto")),
        limit: None,
        kind: RuleActionKind::Dynamic,
    };
    let step = RuleStep { is_conditional: false, actions: vec![action] };
    let rule = Rule {
        name: Some("Inner".into()),
        enabled: true,
        status: "x".into(),
        trigger: Trigger::Manual,
        steps: vec![step.clone(), step],
    };
    let mut names = Names::new();
    names.insert("a".to_string(), "Income".to_string());
    assert_eq!(
        names_looked_at(&Some("Payday".to_string()), &rule, &names),
        vec!["Payday", "Income", "Auto", "Income", "Auto"]
    );
    assert_eq!(names_looked_at(&None, &rule, &names).len(), 4);
}

#[test]
fn a_refused_key_gets_a_hint() {
    let hint = Some("hint: this API key can read but can't move money — use a key with transfer/write permission.");
    assert_eq!(permission_hint("Api { code: ACCESS_DENIED }"), hint);
    assert_eq!(permission_hint("insufficient PerMission"), hint);
    assert_eq!(permission_hint("access_denied"), None);
    assert!(!says_no_permission("timeout", "timeout"));
}
