//! Sequence rules and the amounts they move, written out, so that rule edits can be
//! verified without waiting for the next payday.

use crate::api::{AccountNode, PercentageTarget, Rule, RuleAction, RuleActionKind, RuleStep, TransferCapPeriod, Trigger};
use crate::ledger::{name_of, Names};
use crate::matching::{any_holds, lower_all, lowercase_all, one_holds};
use crate::model::texts;
use crate::money::{dollars, dollars_text};
use crate::text::{contains_text, lowercase, to_lowercase};
use vstd::prelude::*;
use vstd::string::StringExecFns;

verus! {

pub open spec fn period_name(p: TransferCapPeriod) -> Seq<char> {
    match p {
        TransferCapPeriod::PerTransfer => "transfer"@,
        TransferCapPeriod::PerWeek => "week"@,
        TransferCapPeriod::PerMonth => "month"@,
        TransferCapPeriod::PerYear => "year"@,
    }
}

pub fn cap_period(p: &TransferCapPeriod) -> (name: &'static str)
    ensures
        name@ == period_name(*p),
{
    match p {
        TransferCapPeriod::PerTransfer => "transfer",
        TransferCapPeriod::PerWeek => "week",
        TransferCapPeriod::PerMonth => "month",
        TransferCapPeriod::PerYear => "year",
    }
}

/// An account's name: as the rule gives it, else as the account is known, else its id.
pub open spec fn node_name(n: AccountNode, names: Map<Seq<char>, Seq<char>>) -> Seq<char> {
    match n.name {
        Some(name) => name@,
        None => name_of(names, n.id@),
    }
}

pub fn node(n: &AccountNode, names: &Names) -> (name: String)
    ensures
        name@ == node_name(*n, names@),
{
    match &n.name {
        Some(name) => name.clone(),
        None => names.name(n.id.as_str()),
    }
}

/// What an action moves.
pub open spec fn amount_text(kind: RuleActionKind) -> Seq<char> {
    match kind {
        RuleActionKind::Fixed { amount_in_cents } => dollars_text(amount_in_cents as int),
        RuleActionKind::Percentage { percentage, target } => percentage@ + "% "@ + match target {
            PercentageTarget::IncomingAmount => "of incoming"@,
            PercentageTarget::SourceAccount => "of balance"@,
        },
        RuleActionKind::TopUp { amount_in_cents } => match amount_in_cents {
            Some(cents) => "top up to "@ + dollars_text(cents as int),
            None => "top up (dynamic)"@,
        },
        RuleActionKind::RoundDown { amount_in_cents } => "round down "@ + dollars_text(amount_in_cents as int),
        RuleActionKind::Dynamic => "dynamic"@,
    }
}

fn write_amount(kind: &RuleActionKind) -> (text: String)
    ensures
        text@ == amount_text(*kind),
{
    match kind {
        RuleActionKind::Fixed { amount_in_cents } => dollars(*amount_in_cents),
        RuleActionKind::Percentage { percentage, target } => {
            let mut text = percentage.clone();
            text.append("% ");
            match target {
                PercentageTarget::IncomingAmount => {
                    text.append("of incoming");
                },
                PercentageTarget::SourceAccount => {
                    text.append("of balance");
                },
            }
            text
        },
        RuleActionKind::TopUp { amount_in_cents } => match amount_in_cents {
            Some(cents) => {
                let mut text = "top up to ".to_owned();
                text.append(dollars(*cents).as_str());
                text
            },
            None => "top up (dynamic)".to_owned(),
        },
        RuleActionKind::RoundDown { amount_in_cents } => {
            let mut text = "round down ".to_owned();
            text.append(dollars(*amount_in_cents).as_str());
            text
        },
        RuleActionKind::Dynamic => "dynamic".to_owned(),
    }
}

/// An action written out: from where to where, what, and the cap.
pub open spec fn action_text(a: RuleAction, names: Map<Seq<char>, Seq<char>>) -> Seq<char> {
    let moved = node_name(a.source, names) + " → "@ + node_name(a.destination, names) + "   "@ + amount_text(a.kind);
    match a.limit {
        Some(c) => moved + "   [≤ "@ + dollars_text(c.amount_in_cents as int) + " / "@ + period_name(c.period) + "]"@,
        None => moved,
    }
}

pub fn describe(a: &RuleAction, names: &Names) -> (text: String)
    ensures
        text@ == action_text(*a, names@),
{
    let mut text = node(&a.source, names);
    text.append(" → ");
    text.append(node(&a.destination, names).as_str());
    text.append("   ");
    text.append(write_amount(&a.kind).as_str());
    if let Some(c) = &a.limit {
        text.append("   [≤ ");
        text.append(dollars(c.amount_in_cents).as_str());
        text.append(" / ");
        text.append(cap_period(&c.period));
        text.append("]");
    }
    text
}

// ---- Filtering ----

/// The names of the two ends of each action.
pub open spec fn ends_of_actions(actions: Seq<RuleAction>, names: Map<Seq<char>, Seq<char>>) -> Seq<Seq<char>>
    decreases actions.len(),
{
    if actions.len() == 0 {
        Seq::empty()
    } else {
        ends_of_actions(actions.drop_last(), names).push(node_name(actions.last().source, names)).push(
            node_name(actions.last().destination, names),
        )
    }
}

pub open spec fn ends_of_steps(steps: Seq<RuleStep>, names: Map<Seq<char>, Seq<char>>) -> Seq<Seq<char>>
    decreases steps.len(),
{
    if steps.len() == 0 {
        Seq::empty()
    } else {
        ends_of_steps(steps.drop_last(), names) + ends_of_actions(steps.last().actions@, names)
    }
}

/// The names that a filter looks at: the rule's listed name, and every source and
/// destination.
pub open spec fn looked_at(
    listed_name: Option<String>,
    rule: Rule,
    names: Map<Seq<char>, Seq<char>>,
) -> Seq<Seq<char>> {
    (match listed_name {
        Some(n) => seq![n@],
        None => Seq::empty(),
    }) + ends_of_steps(rule.steps@, names)
}

fn push_ends(found: &mut Vec<String>, actions: &Vec<RuleAction>, names: &Names)
    ensures
        texts(final(found)@) == texts(old(found)@) + ends_of_actions(actions@, names@),
{
    let ghost first = texts(found@);
    let mut i: usize = 0;
    assert(ends_of_actions(actions@.take(0), names@) == Seq::<Seq<char>>::empty());
    while i < actions.len()
        invariant
            i <= actions@.len(),
            texts(found@) == first + ends_of_actions(actions@.take(i as int), names@),
        decreases actions@.len() - i,
    {
        assert(actions@.take(i + 1).drop_last() == actions@.take(i as int));
        let a = &actions[i];
        let ghost held = found@;
        found.push(node(&a.source, names));
        found.push(node(&a.destination, names));
        assert(texts(found@) == texts(held).push(node_name(a.source, names@)).push(node_name(a.destination, names@)));
        i += 1;
        assert(texts(found@) == first + ends_of_actions(actions@.take(i as int), names@));
    }
    assert(actions@.take(i as int) == actions@);
}

/// The names that a filter looks at: the rule's listed name, and every source and
/// destination.
pub fn names_looked_at(listed_name: &Option<String>, rule: &Rule, names: &Names) -> (found: Vec<String>)
    ensures
        texts(found@) == looked_at(*listed_name, *rule, names@),
{
    let mut found: Vec<String> = Vec::new();
    if let Some(n) = listed_name {
        found.push(n.clone());
    }
    let ghost first = texts(found@);
    assert(looked_at(*listed_name, *rule, names@) == first + ends_of_steps(rule.steps@, names@));
    let mut i: usize = 0;
    assert(first == first + ends_of_steps(rule.steps@.take(0), names@));
    while i < rule.steps.len()
        invariant
            i <= rule.steps@.len(),
            texts(found@) == first + ends_of_steps(rule.steps@.take(i as int), names@),
        decreases rule.steps@.len() - i,
    {
        assert(rule.steps@.take(i + 1).drop_last() == rule.steps@.take(i as int));
        push_ends(&mut found, &rule.steps[i].actions, names);
        i += 1;
        assert(texts(found@) == first + ends_of_steps(rule.steps@.take(i as int), names@));
    }
    assert(rule.steps@.take(i as int) == rule.steps@);
    found
}

/// A rule is shown without a filter, or where its listed name or any source or
/// destination matches, in any case.
pub open spec fn is_shown(
    listed_name: Option<String>,
    rule: Rule,
    names: Map<Seq<char>, Seq<char>>,
    filter: Option<Seq<char>>,
) -> bool {
    match filter {
        None => true,
        Some(f) => one_holds(lowercase_all(looked_at(listed_name, rule, names)), lowercase(f)),
    }
}

/// Whether a rule passes the filter: with one, only rules whose name or any
/// source/destination matches.
pub fn shows_rule(listed_name: &Option<String>, rule: &Rule, names: &Names, filter: Option<&str>) -> (shown: bool)
    ensures
        shown == is_shown(
            *listed_name,
            *rule,
            names@,
            match filter {
                Some(f) => Some(f@),
                None => None,
            },
        ),
{
    match filter {
        Some(f) => any_holds(&lower_all(&names_looked_at(listed_name, rule, names)), to_lowercase(f).as_str()),
        None => true,
    }
}

// ---- A rule written out ----

pub open spec fn trigger_text(t: Trigger, names: Map<Seq<char>, Seq<char>>) -> Seq<char> {
    match t {
        Trigger::OnFundsTransferred { account_id } => "on deposit → "@ + name_of(names, account_id@),
        Trigger::Scheduled { schedule } => "scheduled "@ + schedule@,
        Trigger::Manual => "manual"@,
    }
}

pub open spec fn action_lines(actions: Seq<RuleAction>, names: Map<Seq<char>, Seq<char>>) -> Seq<char>
    decreases actions.len(),
{
    if actions.len() == 0 {
        Seq::empty()
    } else {
        action_lines(actions.drop_last(), names) + "   "@ + action_text(actions.last(), names) + "\n"@
    }
}

pub open spec fn step_lines(steps: Seq<RuleStep>, names: Map<Seq<char>, Seq<char>>) -> Seq<char>
    decreases steps.len(),
{
    if steps.len() == 0 {
        Seq::empty()
    } else {
        step_lines(steps.drop_last(), names) + action_lines(steps.last().actions@, names)
    }
}

/// The flat summary can't represent the rule faithfully.
pub open spec fn is_conditional(rule: Rule) -> bool {
    rule.steps@.len() > 1 || exists|i: int| 0 <= i < rule.steps@.len() && (#[trigger] rule.steps@[i]).is_conditional
}

/// A rule written out: its name, status and trigger, and a line for each action.
pub open spec fn rule_text(rule: Rule, names: Map<Seq<char>, Seq<char>>) -> Seq<char> {
    let head = "\n● "@ + (match rule.name {
        Some(name) => name@,
        None => "(unnamed)"@,
    }) + "  ["@ + rule.status@ + "]  ("@ + trigger_text(rule.trigger, names) + ")\n"@;
    let all = head + step_lines(rule.steps@, names);
    if is_conditional(rule) {
        all + "   (conditional/multi-step — run with --json for the full rule)\n"@
    } else {
        all
    }
}

fn push_actions(text: &mut String, actions: &Vec<RuleAction>, names: &Names)
    ensures
        final(text)@ == old(text)@ + action_lines(actions@, names@),
{
    let ghost before = text@;
    let mut i: usize = 0;
    assert(before + action_lines(actions@.take(0), names@) == before);
    while i < actions.len()
        invariant
            i <= actions@.len(),
            text@ == before + action_lines(actions@.take(i as int), names@),
        decreases actions@.len() - i,
    {
        assert(actions@.take(i + 1).drop_last() == actions@.take(i as int));
        text.append("   ");
        text.append(describe(&actions[i], names).as_str());
        text.append("\n");
        i += 1;
        assert(text@ == before + action_lines(actions@.take(i as int), names@));
    }
    assert(actions@.take(i as int) == actions@);
}

/// A rule written out: its name, status and trigger, and a line for each action.
pub fn write_rule(rule: &Rule, names: &Names) -> (text: String)
    ensures
        text@ == rule_text(*rule, names@),
{
    let mut text = "\n● ".to_owned();
    match &rule.name {
        Some(name) => {
            text.append(name.as_str());
        },
        None => {
            text.append("(unnamed)");
        },
    }
    text.append("  [");
    text.append(rule.status.as_str());
    text.append("]  (");
    match &rule.trigger {
        Trigger::OnFundsTransferred { account_id } => {
            let mut trigger = "on deposit → ".to_owned();
            trigger.append(names.name(account_id.as_str()).as_str());
            text.append(trigger.as_str());
        },
        Trigger::Scheduled { schedule } => {
            let mut trigger = "scheduled ".to_owned();
            trigger.append(schedule.as_str());
            text.append(trigger.as_str());
        },
        Trigger::Manual => {
            text.append("manual");
        },
    }
    text.append(")\n");
    let ghost head = text@;
    let mut conditional = rule.steps.len() > 1;
    let mut i: usize = 0;
    assert(head + step_lines(rule.steps@.take(0), names@) == head);
    while i < rule.steps.len()
        invariant
            i <= rule.steps@.len(),
            text@ == head + step_lines(rule.steps@.take(i as int), names@),
            conditional == (rule.steps@.len() > 1 || exists|j: int|
                0 <= j < i && (#[trigger] rule.steps@[j]).is_conditional),
        decreases rule.steps@.len() - i,
    {
        assert(rule.steps@.take(i + 1).drop_last() == rule.steps@.take(i as int));
        push_actions(&mut text, &rule.steps[i].actions, names);
        if rule.steps[i].is_conditional {
            assert(rule.steps@[i as int].is_conditional);
            conditional = true;
        }
        i += 1;
        assert(text@ == head + step_lines(rule.steps@.take(i as int), names@));
    }
    assert(rule.steps@.take(i as int) == rule.steps@);
    if conditional {
        text.append("   (conditional/multi-step — run with --json for the full rule)\n");
    }
    text
}

// ---- What a filter finds ----

/// A name is an end of an action of the steps.
pub open spec fn is_end(steps: Seq<RuleStep>, names: Map<Seq<char>, Seq<char>>, s: int, a: int, name: Seq<char>) -> bool {
    &&& 0 <= s < steps.len()
    &&& 0 <= a < steps[s].actions@.len()
    &&& name == node_name(steps[s].actions@[a].source, names) || name == node_name(
        steps[s].actions@[a].destination,
        names,
    )
}

proof fn lemma_ends_of_actions(actions: Seq<RuleAction>, names: Map<Seq<char>, Seq<char>>, name: Seq<char>)
    ensures
        ends_of_actions(actions, names).contains(name) <==> exists|a: int|
            0 <= a < actions.len() && (name == node_name((#[trigger] actions[a]).source, names) || name == node_name(
                actions[a].destination,
                names,
            )),
    decreases actions.len(),
{
    let all = ends_of_actions(actions, names);
    if actions.len() > 0 {
        let rest = actions.drop_last();
        let last = actions.len() - 1;
        let before = ends_of_actions(rest, names);
        lemma_ends_of_actions(rest, names, name);
        assert(actions[last] == actions.last());
        assert(all[before.len() as int] == node_name(actions[last].source, names));
        assert(all[before.len() as int + 1] == node_name(actions[last].destination, names));
        assert forall|k: int| 0 <= k < before.len() implies #[trigger] all[k] == before[k] by {}
        if before.contains(name) {
            let k = choose|k: int| 0 <= k < before.len() && before[k] == name;
            assert(all[k] == name);
            let a = choose|a: int|
                0 <= a < rest.len() && (name == node_name((#[trigger] rest[a]).source, names) || name == node_name(
                    rest[a].destination,
                    names,
                ));
            assert(actions[a] == rest[a]);
        }
        if all.contains(name) && !before.contains(name) {
            let k = choose|k: int| 0 <= k < all.len() && all[k] == name;
            if k < before.len() {
                assert(before[k] == name);
            }
            assert(k >= before.len());
        }
        if exists|a: int|
            0 <= a < actions.len() && (name == node_name((#[trigger] actions[a]).source, names) || name == node_name(
                actions[a].destination,
                names,
            )) {
            let a = choose|a: int|
                0 <= a < actions.len() && (name == node_name((#[trigger] actions[a]).source, names) || name
                    == node_name(actions[a].destination, names));
            if a < last {
                assert(rest[a] == actions[a]);
            }
        }
    }
}

proof fn lemma_ends_of_steps(steps: Seq<RuleStep>, names: Map<Seq<char>, Seq<char>>, name: Seq<char>)
    ensures
        ends_of_steps(steps, names).contains(name) <==> exists|s: int, a: int|
            #[trigger] is_end(steps, names, s, a, name),
    decreases steps.len(),
{
    let all = ends_of_steps(steps, names);
    if steps.len() > 0 {
        let rest = steps.drop_last();
        let last = steps.len() - 1;
        let before = ends_of_steps(rest, names);
        let own = ends_of_actions(steps.last().actions@, names);
        lemma_ends_of_steps(rest, names, name);
        lemma_ends_of_actions(steps.last().actions@, names, name);
        assert(steps[last] == steps.last());
        if before.contains(name) {
            let k = choose|k: int| 0 <= k < before.len() && before[k] == name;
            assert(all[k] == name);
            let (s, a) = choose|s: int, a: int| #[trigger] is_end(rest, names, s, a, name);
            assert(is_end(steps, names, s, a, name));
        }
        if own.contains(name) {
            let k = choose|k: int| 0 <= k < own.len() && own[k] == name;
            assert(all[before.len() + k] == name);
            let actions = steps.last().actions@;
            let a = choose|a: int|
                0 <= a < actions.len() && (name == node_name((#[trigger] actions[a]).source, names) || name
                    == node_name(actions[a].destination, names));
            assert(is_end(steps, names, last, a, name));
        }
        if all.contains(name) {
            let k = choose|k: int| 0 <= k < all.len() && all[k] == name;
            if k < before.len() {
                assert(before[k] == name);
            } else {
                assert(own[k - before.len()] == name);
            }
        }
        if exists|s: int, a: int| #[trigger] is_end(steps, names, s, a, name) {
            let (s, a) = choose|s: int, a: int| #[trigger] is_end(steps, names, s, a, name);
            if s < last {
                assert(is_end(rest, names, s, a, name));
            } else {
                assert(steps.last().actions@[a] == steps[s].actions@[a]);
            }
        }
    } else {
        assert(!all.contains(name));
    }
}

/// Without a filter every rule is shown; with one, a rule is shown if and only if its
/// listed name, or the source or destination of any action of any step, holds the
/// filter in lower case.
pub proof fn lemma_a_filter_looks_at_every_name(
    listed_name: Option<String>,
    rule: Rule,
    names: Map<Seq<char>, Seq<char>>,
    filter: Option<Seq<char>>,
)
    ensures
        filter is None ==> is_shown(listed_name, rule, names, filter),
        filter matches Some(f) ==> (is_shown(listed_name, rule, names, filter) <==> (listed_name matches Some(n)
            && contains_text(lowercase(n@), lowercase(f))) || exists|s: int, a: int, name: Seq<char>|
            #[trigger] is_end(rule.steps@, names, s, a, name) && contains_text(lowercase(name), lowercase(f))),
{
    if let Some(f) = filter {
        let all = looked_at(listed_name, rule, names);
        let ends = ends_of_steps(rule.steps@, names);
        let lower = lowercase_all(all);
        let h = if listed_name is Some { 1int } else { 0 };
        if is_shown(listed_name, rule, names, filter) {
            let i = choose|i: int| 0 <= i < lower.len() && contains_text(#[trigger] lower[i], lowercase(f));
            assert(lower[i] == lowercase(all[i]));
            if i >= h {
                let name = ends[i - h];
                assert(all[i] == name);
                assert(ends.contains(name));
                lemma_ends_of_steps(rule.steps@, names, name);
                let (s, a) = choose|s: int, a: int| #[trigger] is_end(rule.steps@, names, s, a, name);
                assert(is_end(rule.steps@, names, s, a, name) && contains_text(lowercase(name), lowercase(f)));
            }
        }
        if listed_name is Some {
            assert(lower[0] == lowercase(listed_name->0@));
        }
        if exists|s: int, a: int, name: Seq<char>|
            #[trigger] is_end(rule.steps@, names, s, a, name) && contains_text(lowercase(name), lowercase(f)) {
            let (s, a, name) = choose|s: int, a: int, name: Seq<char>|
                #[trigger] is_end(rule.steps@, names, s, a, name) && contains_text(lowercase(name), lowercase(f));
            lemma_ends_of_steps(rule.steps@, names, name);
            let k = choose|k: int| 0 <= k < ends.len() && ends[k] == name;
            assert(all[k + h] == name);
            assert(lower[k + h] == lowercase(name));
        }
    }
}

/// A rule's actions are written one below the other, step by step, in order.
pub proof fn lemma_actions_are_written_one_by_one(
    a: Seq<RuleAction>,
    b: Seq<RuleAction>,
    names: Map<Seq<char>, Seq<char>>,
)
    ensures
        action_lines(a + b, names) == action_lines(a, names) + action_lines(b, names),
        a.len() == 0 ==> action_lines(a, names).len() == 0,
        a.len() == 1 ==> action_lines(a, names) == "   "@ + action_text(a[0], names) + "\n"@,
    decreases b.len(),
{
    reveal_with_fuel(action_lines, 2);
    if a.len() == 1 {
        assert(action_lines(a.drop_last(), names) == Seq::<char>::empty());
        assert(action_lines(a, names) == "   "@ + action_text(a[0], names) + "\n"@);
    }
    if b.len() == 0 {
        assert(a + b == a);
        assert(action_lines(a, names) + action_lines(b, names) == action_lines(a, names));
    } else {
        let rest = b.drop_last();
        assert((a + b).drop_last() == a + rest);
        lemma_actions_are_written_one_by_one(a, rest, names);
        assert(action_lines(a + b, names) == action_lines(a, names) + action_lines(b, names));
    }
}

/// The steps of a rule are written one after the other, each with its actions.
pub proof fn lemma_steps_are_written_one_by_one(a: Seq<RuleStep>, b: Seq<RuleStep>, names: Map<Seq<char>, Seq<char>>)
    ensures
        step_lines(a + b, names) == step_lines(a, names) + step_lines(b, names),
        a.len() == 0 ==> step_lines(a, names).len() == 0,
        a.len() == 1 ==> step_lines(a, names) == action_lines(a[0].actions@, names),
    decreases b.len(),
{
    reveal_with_fuel(step_lines, 2);
    if a.len() == 1 {
        assert(step_lines(a.drop_last(), names) == Seq::<char>::empty());
        assert(step_lines(a, names) == action_lines(a[0].actions@, names));
    }
    if b.len() == 0 {
        assert(a + b == a);
        assert(step_lines(a, names) + step_lines(b, names) == step_lines(a, names));
    } else {
        let rest = b.drop_last();
        assert((a + b).drop_last() == a + rest);
        lemma_steps_are_written_one_by_one(a, rest, names);
        assert(step_lines(a + b, names) == step_lines(a, names) + step_lines(b, names));
    }
}

// ---- What a rule is written as ----

/// An account goes by the name that the rule gives it, else by the one it is known by,
/// else by its id.
pub proof fn lemma_accounts_go_by_their_names(n: AccountNode, names: Map<Seq<char>, Seq<char>>)
    ensures
        n.name matches Some(name) ==> node_name(n, names) == name@,
        n.name is None && names.dom().contains(n.id@) ==> node_name(n, names) == names[n.id@],
        n.name is None && !names.dom().contains(n.id@) ==> node_name(n, names) == n.id@,
{
}

/// A capped action is written as the same action without the cap, and then the cap with
/// its period; the action itself as its source, its destination and what it moves.
pub proof fn lemma_caps_are_written_behind_their_action(a: RuleAction, names: Map<Seq<char>, Seq<char>>)
    ensures
        a.limit is None ==> action_text(a, names) == node_name(a.source, names) + " → "@ + node_name(
            a.destination,
            names,
        ) + "   "@ + amount_text(a.kind),
        a.limit matches Some(cap) ==> action_text(a, names) == action_text(RuleAction { limit: None, ..a }, names)
            + "   [≤ "@ + dollars_text(cap.amount_in_cents as int) + " / "@ + period_name(cap.period) + "]"@,
{
}

/// The amount of an action says how it moves: a fixed one and one to round down to by
/// themselves, a top-up by its level where it has one, a percentage by what it is of.
pub proof fn lemma_amounts_say_how_they_move(kind: RuleActionKind)
    ensures
        match kind {
            RuleActionKind::Fixed { amount_in_cents } => amount_text(kind) == dollars_text(amount_in_cents as int),
            RuleActionKind::RoundDown { amount_in_cents } => amount_text(kind) == "round down "@ + dollars_text(
                amount_in_cents as int,
            ),
            RuleActionKind::TopUp { amount_in_cents } => if amount_in_cents is Some {
                amount_text(kind) == "top up to "@ + dollars_text(amount_in_cents->0 as int)
            } else {
                amount_text(kind) == "top up (dynamic)"@
            },
            RuleActionKind::Percentage { percentage, target } => amount_text(kind) == percentage@ + "% "@ + (
            if target is IncomingAmount {
                "of incoming"@
            } else {
                "of balance"@
            }),
            RuleActionKind::Dynamic => amount_text(kind) == "dynamic"@,
        },
{
}

/// A rule is written with its name, status, trigger and all its actions; that they are
/// not all there is to it is said where it has more than one step, or a condition.
pub proof fn lemma_a_rule_is_written_whole(rule: Rule, names: Map<Seq<char>, Seq<char>>)
    ensures
        ({
            let more = rule.steps@.len() > 1 || exists|i: int|
                0 <= i < rule.steps@.len() && (#[trigger] rule.steps@[i]).is_conditional;
            rule_text(rule, names) == "\n● "@ + (if rule.name is Some {
                rule.name->0@
            } else {
                "(unnamed)"@
            }) + "  ["@ + rule.status@ + "]  ("@ + trigger_text(rule.trigger, names) + ")\n"@ + step_lines(
                rule.steps@,
                names,
            ) + (if more {
                "   (conditional/multi-step — run with --json for the full rule)\n"@
            } else {
                Seq::empty()
            })
        }),
{
    let head = "\n● "@ + (if rule.name is Some {
        rule.name->0@
    } else {
        "(unnamed)"@
    }) + "  ["@ + rule.status@ + "]  ("@ + trigger_text(rule.trigger, names) + ")\n"@;
    let all = head + step_lines(rule.steps@, names);
    assert(all + Seq::<char>::empty() == all);
}

} // verus!
