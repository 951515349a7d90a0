//! What the subcommands say, and where `rebalance` moves money.

use crate::allocator::FundingStrategy;
use crate::api::{AccountType, Transfer, TransferDirection};
use crate::cards::fits;
use crate::config::Phase;
use crate::date::date_text;
use crate::discover::{schedule_text, write_schedule};
use crate::engine::{moves, total, RebalancePlan, Report, ReportView};
use crate::fetch::{show_day, shown_day};
use crate::ledger::{name_of, Names};
use crate::model::views;
use crate::money::{dollars, dollars_text, dollars_wide};
use crate::schedule::{PaySchedule, PayScheduleView};
use crate::state::State;
use crate::style::{put, put_plain, spans, Span, Style};
use crate::text::{
    at_most, contains_text, decimal, holds, joined, left, lemma_a_search_finds_the_first_place, lowercase, occurs_at,
    push_decimal, right, take_at_most, to_left, to_lowercase, to_right,
};
use vstd::prelude::*;
use vstd::string::StringExecFns;

verus! {

// ---- `run` and `simulate` ----

pub open spec fn strategy_name(strategy: FundingStrategy) -> Seq<char> {
    match strategy {
        FundingStrategy::SoonestDue => "SoonestDue"@,
        FundingStrategy::StrictEnvelope => "StrictEnvelope"@,
        FundingStrategy::Proportional => "Proportional"@,
    }
}

pub fn write_strategy(strategy: FundingStrategy) -> (name: &'static str)
    ensures
        name@ == strategy_name(strategy),
{
    match strategy {
        FundingStrategy::SoonestDue => "SoonestDue",
        FundingStrategy::StrictEnvelope => "StrictEnvelope",
        FundingStrategy::Proportional => "Proportional",
    }
}

pub open spec fn phase_name(phase: Phase) -> Seq<char> {
    match phase {
        Phase::Shadow => "Shadow"@,
        Phase::Groups => "Groups"@,
        Phase::Full => "Full"@,
    }
}

pub fn write_phase(phase: Phase) -> (name: &'static str)
    ensures
        name@ == phase_name(phase),
{
    match phase {
        Phase::Shadow => "Shadow",
        Phase::Groups => "Groups",
        Phase::Full => "Full",
    }
}

/// What `run` says before the accounting: whether money moved, and what it planned by.
pub open spec fn cycle_header_spans(
    report: ReportView,
    sched: PayScheduleView,
    strategy: FundingStrategy,
    onboarded: bool,
    buffer: Seq<char>,
    phase: Phase,
) -> Seq<(Seq<char>, Style)> {
    seq![
        ("MAESTRO — "@ + date_text(report.today as i32), Style::Bold),
        ("  ["@, Style::Plain),
        if report.executed {
            ("EXECUTED — money moved"@, Style::RedBold)
        } else {
            ("DRY RUN — moves nothing"@, Style::Green)
        },
        ("]\n"@, Style::Plain),
        (
            "pay schedule: "@ + schedule_text(sched) + "   strategy: "@ + strategy_name(strategy) + (if onboarded {
                Seq::empty()
            } else {
                "   [!] no state file — run `discover`"@
            }) + "\n"@,
            Style::Plain,
        ),
        (
            "pool: "@ + name_of(report.names, report.pool_pod_id) + " = "@ + dollars_text(report.pool_balance)
                + "   buffer: "@ + buffer + "%   phase: "@ + phase_name(phase) + "\n\n"@,
            Style::Plain,
        ),
    ]
}

/// What `run` says before the accounting. `buffer` is the buffer's percentage, written out.
pub fn cycle_header(
    report: &Report,
    sched: &PaySchedule,
    strategy: FundingStrategy,
    onboarded: bool,
    buffer: &str,
    phase: Phase,
) -> (out: Vec<Span>)
    ensures
        spans(out@) == cycle_header_spans(report@, sched@, strategy, onboarded, buffer@, phase),
{
    let mut out: Vec<Span> = Vec::new();
    put(&mut out, Style::Bold, joined("MAESTRO — ", report.today.text().as_str()));
    put_plain(&mut out, "  [");
    if report.executed {
        put(&mut out, Style::RedBold, "EXECUTED — money moved".to_owned());
    } else {
        put(&mut out, Style::Green, "DRY RUN — moves nothing".to_owned());
    }
    put_plain(&mut out, "]\n");
    let mut plan = "pay schedule: ".to_owned();
    plan.append(write_schedule(sched).as_str());
    plan.append("   strategy: ");
    plan.append(write_strategy(strategy));
    if !onboarded {
        plan.append("   [!] no state file — run `discover`");
    } else {
        assert(plan@ + Seq::<char>::empty() == plan@);
    }
    plan.append("\n");
    put(&mut out, Style::Plain, plan);
    let mut pool = "pool: ".to_owned();
    pool.append(report.names.name(report.pool_pod_id.as_str()).as_str());
    pool.append(" = ");
    pool.append(dollars(report.pool_balance).as_str());
    pool.append("   buffer: ");
    pool.append(buffer);
    pool.append("%   phase: ");
    pool.append(write_phase(phase));
    pool.append("\n\n");
    put(&mut out, Style::Plain, pool);
    assert(spans(out@) == cycle_header_spans(report@, sched@, strategy, onboarded, buffer@, phase));
    out
}

/// What `simulate` says before the accounting.
pub open spec fn simulation_header_spans(
    report: ReportView,
    deposit: int,
    sched: PayScheduleView,
    strategy: FundingStrategy,
    buffer: Seq<char>,
) -> Seq<(Seq<char>, Style)> {
    seq![
        ("SIMULATION — deposit "@ + dollars_text(deposit) + " on "@ + date_text(report.today as i32), Style::Bold),
        ("  ["@, Style::Plain),
        ("WHAT-IF — moves nothing"@, Style::Green),
        ("]\n"@, Style::Plain),
        (
            "pay schedule: "@ + schedule_text(sched) + "   strategy: "@ + strategy_name(strategy) + "\n"@,
            Style::Plain,
        ),
        (
            "pool "@ + name_of(report.names, report.pool_pod_id) + " after deposit: "@ + dollars_text(
                report.pool_balance,
            ) + "   buffer: "@ + buffer + "%\n\n"@,
            Style::Plain,
        ),
    ]
}

/// What `simulate` says before the accounting: the date that is pretended is the report's.
pub fn simulation_header(
    report: &Report,
    deposit_cents: i64,
    sched: &PaySchedule,
    strategy: FundingStrategy,
    buffer: &str,
) -> (out: Vec<Span>)
    ensures
        spans(out@) == simulation_header_spans(report@, deposit_cents as int, sched@, strategy, buffer@),
{
    let mut out: Vec<Span> = Vec::new();
    let mut title = "SIMULATION — deposit ".to_owned();
    title.append(dollars(deposit_cents).as_str());
    title.append(" on ");
    title.append(report.today.text().as_str());
    put(&mut out, Style::Bold, title);
    put_plain(&mut out, "  [");
    put(&mut out, Style::Green, "WHAT-IF — moves nothing".to_owned());
    put_plain(&mut out, "]\n");
    let mut plan = "pay schedule: ".to_owned();
    plan.append(write_schedule(sched).as_str());
    plan.append("   strategy: ");
    plan.append(write_strategy(strategy));
    plan.append("\n");
    put(&mut out, Style::Plain, plan);
    let mut pool = "pool ".to_owned();
    pool.append(report.names.name(report.pool_pod_id.as_str()).as_str());
    pool.append(" after deposit: ");
    pool.append(dollars(report.pool_balance).as_str());
    pool.append("   buffer: ");
    pool.append(buffer);
    pool.append("%\n\n");
    put(&mut out, Style::Plain, pool);
    assert(spans(out@) == simulation_header_spans(report@, deposit_cents as int, sched@, strategy, buffer@));
    out
}

// ---- `rebalance` ----

/// The name of the pod to park the net in: the one asked for, or the discovered reclaim pod.
pub open spec fn destination_name(to: Option<Seq<char>>, file: Option<&State>) -> Option<Seq<char>> {
    match to {
        Some(name) => Some(name),
        None => match file {
            Some(f) => match f.reclaim_pod {
                Some(name) => Some(name@),
                None => None,
            },
            None => None,
        },
    }
}

/// Where a rebalance parks the net: the pod's name and its id, or why there is none.
pub fn destination(to: Option<&str>, file: Option<&State>, names: &Names) -> (found: Result<(String, String), String>)
    ensures
        ({
            let name = destination_name(
                match to {
                    Some(t) => Some(t@),
                    None => None,
                },
                file,
            );
            match found {
                Ok((n, id)) => name == Some(n@) && names@.dom().contains(id@) && names@[id@] == n@,
                Err(e) => match name {
                    None => e@ == "no reclaim pod set — run `discover` or pass --to <pod>"@,
                    Some(n) => e@ == "destination pod '"@ + n + "' not found"@ && forall|id: Seq<char>|
                        names@.dom().contains(id) ==> #[trigger] names@[id] != n,
                },
            }
        }),
{
    let chosen = match to {
        Some(t) => Some(t.to_owned()),
        None => match file {
            Some(f) => match &f.reclaim_pod {
                Some(name) => Some(name.clone()),
                None => None,
            },
            None => None,
        },
    };
    match chosen {
        None => Err("no reclaim pod set — run `discover` or pass --to <pod>".to_owned()),
        Some(name) => match names.find(name.as_str()) {
            Some(id) => Ok((name, id)),
            None => {
                let mut text = "destination pod '".to_owned();
                text.append(name.as_str());
                text.append("' not found");
                Err(text)
            },
        },
    }
}

pub open spec fn move_lines(m: Seq<(Seq<char>, Seq<char>, int)>) -> Seq<char>
    decreases m.len(),
{
    if m.len() == 0 {
        Seq::empty()
    } else {
        move_lines(m.drop_last()) + "  "@ + left(at_most(m.last().0, 22), 22) + " "@ + right(
            dollars_text(m.last().2),
            9,
        ) + "\n"@
    }
}

/// What `rebalance` prints of a plan.
pub open spec fn rebalance_lines(
    skims: Seq<(Seq<char>, Seq<char>, int)>,
    fills: Seq<(Seq<char>, Seq<char>, int)>,
    boundary: int,
    to: Seq<char>,
    execute: bool,
) -> Seq<char> {
    let ahead = total(skims);
    let behind = total(fills);
    let text = "REBALANCE → "@ + to + "   ["@ + (if execute {
        "EXECUTING — moves money"@
    } else {
        "DRY RUN — moves nothing"@
    }) + "]\n"@ + "\nskim ahead → "@ + to + ":\n"@ + move_lines(skims) + "  ── total skim "@ + dollars_text(ahead)
        + "\n"@ + "\nfill behind ← "@ + to + ":\n"@ + move_lines(fills) + "  ── total fill "@ + dollars_text(behind)
        + "\n"@ + "\nnet into "@ + to + ": "@ + dollars_text(ahead - behind) + "\n"@;
    if boundary > 0 {
        text + "("@ + decimal(boundary as nat)
            + " pod(s) skipped — at a cycle boundary, holding for a just-due bill)\n"@
    } else {
        text
    }
}

fn push_moves(text: &mut String, list: &Vec<(String, String, i64)>)
    ensures
        final(text)@ == old(text)@ + move_lines(moves(list@)),
{
    let ghost before = text@;
    let ghost all = moves(list@);
    let mut i: usize = 0;
    assert(before + move_lines(all.take(0)) == before);
    while i < list.len()
        invariant
            i <= list@.len(),
            all == moves(list@),
            text@ == before + move_lines(all.take(i as int)),
        decreases list@.len() - i,
    {
        assert(all.take(i + 1).drop_last() == all.take(i as int));
        text.append("  ");
        text.append(to_left(take_at_most(list[i].0.as_str(), 22).as_str(), 22).as_str());
        text.append(" ");
        text.append(to_right(dollars(list[i].2).as_str(), 9).as_str());
        text.append("\n");
        i += 1;
        assert(text@ == before + move_lines(all.take(i as int)));
    }
    assert(all.take(i as int) == all);
}

/// What `rebalance` prints of a plan.
pub fn rebalance_text(plan: &RebalancePlan, to: &str, execute: bool) -> (text: String)
    requires
        fits(total(moves(plan.skims@))),
        fits(total(moves(plan.fills@))),
        fits(total(moves(plan.skims@)) - total(moves(plan.fills@))),
    ensures
        text@ == rebalance_lines(moves(plan.skims@), moves(plan.fills@), plan.boundary as int, to@, execute),
{
    let total_skim = plan.skim_total();
    let total_fill = plan.fill_total();
    let mut text = "REBALANCE → ".to_owned();
    text.append(to);
    text.append("   [");
    if execute {
        text.append("EXECUTING — moves money");
    } else {
        text.append("DRY RUN — moves nothing");
    }
    text.append("]\n");
    text.append("\nskim ahead → ");
    text.append(to);
    text.append(":\n");
    push_moves(&mut text, &plan.skims);
    text.append("  ── total skim ");
    text.append(dollars(total_skim).as_str());
    text.append("\n");
    text.append("\nfill behind ← ");
    text.append(to);
    text.append(":\n");
    push_moves(&mut text, &plan.fills);
    text.append("  ── total fill ");
    text.append(dollars(total_fill).as_str());
    text.append("\n");
    text.append("\nnet into ");
    text.append(to);
    text.append(": ");
    text.append(dollars(plan.net()).as_str());
    text.append("\n");
    if plan.boundary > 0 {
        text.append("(");
        push_decimal(&mut text, plan.boundary as u128);
        text.append(" pod(s) skipped — at a cycle boundary, holding for a just-due bill)\n");
    }
    text
}

/// One transfer of a rebalance.
#[derive(Debug, Clone)]
pub struct Rebalancing {
    pub from_pod: String,
    pub to_pod: String,
    pub amount_cents: i64,
    /// What to say once it is done.
    pub done: String,
}

pub ghost struct RebalancingView {
    pub from_pod: Seq<char>,
    pub to_pod: Seq<char>,
    pub amount_cents: int,
    pub done: Seq<char>,
}

impl View for Rebalancing {
    type V = RebalancingView;

    open spec fn view(&self) -> RebalancingView {
        RebalancingView {
            from_pod: self.from_pod@,
            to_pod: self.to_pod@,
            amount_cents: self.amount_cents as int,
            done: self.done@,
        }
    }
}

/// The transfers of a rebalance: every skim into the hub, then every fill out of it.
pub open spec fn rebalance_transfers(
    skims: Seq<(Seq<char>, Seq<char>, int)>,
    fills: Seq<(Seq<char>, Seq<char>, int)>,
    hub: Seq<char>,
) -> Seq<RebalancingView> {
    Seq::new(
        skims.len(),
        |i: int|
            RebalancingView {
                from_pod: skims[i].1,
                to_pod: hub,
                amount_cents: skims[i].2,
                done: "  skimmed "@ + dollars_text(skims[i].2) + " from "@ + skims[i].0,
            },
    ) + Seq::new(
        fills.len(),
        |i: int|
            RebalancingView {
                from_pod: hub,
                to_pod: fills[i].1,
                amount_cents: fills[i].2,
                done: "  filled "@ + dollars_text(fills[i].2) + " into "@ + fills[i].0,
            },
    )
}

/// What to transfer for a rebalance: level sinking-fund pods to pace — skim those
/// ahead into the hub, fill those behind out of it. Nothing unless `execute`.
pub fn rebalance_steps(plan: &RebalancePlan, hub: &str, execute: bool) -> (steps: Vec<Rebalancing>)
    ensures
        execute ==> views(steps@) == rebalance_transfers(moves(plan.skims@), moves(plan.fills@), hub@),
        !execute ==> steps@.len() == 0,
{
    let ghost skims = moves(plan.skims@);
    let ghost fills = moves(plan.fills@);
    let ghost all = rebalance_transfers(skims, fills, hub@);
    let mut steps: Vec<Rebalancing> = Vec::new();
    if !execute {
        return steps;
    }
    let mut i: usize = 0;
    assert(views(steps@) == all.take(0));
    while i < plan.skims.len()
        invariant
            i <= plan.skims@.len(),
            skims == moves(plan.skims@),
            all == rebalance_transfers(skims, fills, hub@),
            views(steps@) == all.take(i as int),
        decreases plan.skims@.len() - i,
    {
        let m = &plan.skims[i];
        let mut done = "  skimmed ".to_owned();
        done.append(dollars(m.2).as_str());
        done.append(" from ");
        done.append(m.0.as_str());
        let step = Rebalancing { from_pod: m.1.clone(), to_pod: hub.to_owned(), amount_cents: m.2, done };
        let ghost held = steps@;
        steps.push(step);
        assert(views(steps@) == views(held).push(step@));
        assert(step@ == all[i as int]);
        i += 1;
        assert(views(steps@) == all.take(i as int));
    }
    let n: usize = plan.skims.len();
    let mut i: usize = 0;
    while i < plan.fills.len()
        invariant
            i <= plan.fills@.len(),
            n == skims.len(),
            fills == moves(plan.fills@),
            all == rebalance_transfers(skims, fills, hub@),
            views(steps@) == all.take(n + i),
        decreases plan.fills@.len() - i,
    {
        let m = &plan.fills[i];
        let mut done = "  filled ".to_owned();
        done.append(dollars(m.2).as_str());
        done.append(" into ");
        done.append(m.0.as_str());
        let step = Rebalancing { from_pod: hub.to_owned(), to_pod: m.1.clone(), amount_cents: m.2, done };
        let ghost held = steps@;
        steps.push(step);
        assert(views(steps@) == views(held).push(step@));
        assert(step@ == all[n + i]);
        i += 1;
        assert(views(steps@) == all.take(n + i));
    }
    assert(all.take(n + i) == all);
    steps
}

// ---- `tx` ----

pub open spec fn arrow(direction: TransferDirection) -> Seq<char> {
    match direction {
        TransferDirection::MoneyIn => "IN  ←"@,
        TransferDirection::MoneyOut => "OUT →"@,
        TransferDirection::Internal => "in  ←"@,
    }
}

/// The other end of a transfer, as a pod sees it.
pub open spec fn other_end(t: Transfer) -> Seq<char> {
    let end = if t.direction == TransferDirection::MoneyOut {
        t.destination
    } else {
        t.source
    };
    match end {
        Some(p) => p.name@,
        None => "—"@,
    }
}

/// The line of a transfer: its day, direction, amount and other end.
pub open spec fn transfer_line(t: Transfer) -> Seq<char> {
    "  "@ + shown_day(t.created_at@) + "  "@ + arrow(t.direction) + " "@ + right(
        dollars_text(t.amount_in_cents as int),
        9,
    ) + "  "@ + other_end(t) + "\n"@
}

pub open spec fn transfer_lines(transfers: Seq<Transfer>) -> Seq<char>
    decreases transfers.len(),
{
    if transfers.len() == 0 {
        Seq::empty()
    } else {
        transfer_lines(transfers.drop_last()) + transfer_line(transfers.last())
    }
}

/// A pod's recent transfers: what's actually flowing in vs. what the engine thinks
/// should, or why they could not be read.
pub fn recent_transfers_text(pod_name: &str, balance_cents: i64, transfers: &Result<Vec<Transfer>, String>) -> (text: String)
    ensures
        text@ == "\n=== "@ + pod_name@ + "  (balance "@ + dollars_text(balance_cents as int) + ") ===\n"@ + (
        match *transfers {
            Ok(list) => transfer_lines(list@),
            Err(e) => "  (transfers error: "@ + e@ + ")\n"@,
        }),
{
    let mut text = "\n=== ".to_owned();
    text.append(pod_name);
    text.append("  (balance ");
    text.append(dollars(balance_cents).as_str());
    text.append(") ===\n");
    match transfers {
        Ok(list) => {
            let ghost head = text@;
            let mut i: usize = 0;
            assert(head + transfer_lines(list@.take(0)) == head);
            while i < list.len()
                invariant
                    i <= list@.len(),
                    text@ == head + transfer_lines(list@.take(i as int)),
                decreases list@.len() - i,
            {
                assert(list@.take(i + 1).drop_last() == list@.take(i as int));
                text.append(write_transfer(&list[i]).as_str());
                i += 1;
                assert(text@ == head + transfer_lines(list@.take(i as int)));
            }
            assert(list@.take(i as int) == list@);
        },
        Err(e) => {
            let mut line = "  (transfers error: ".to_owned();
            line.append(e.as_str());
            line.append(")\n");
            text.append(line.as_str());
        },
    }
    text
}

fn write_transfer(t: &Transfer) -> (text: String)
    ensures
        text@ == transfer_line(*t),
{
    let mut text = "  ".to_owned();
    text.append(show_day(t.created_at.as_str()).as_str());
    text.append("  ");
    match t.direction {
        TransferDirection::MoneyIn => {
            text.append("IN  ←");
        },
        TransferDirection::MoneyOut => {
            text.append("OUT →");
        },
        TransferDirection::Internal => {
            text.append("in  ←");
        },
    }
    text.append(" ");
    text.append(to_right(dollars(t.amount_in_cents).as_str(), 9).as_str());
    text.append("  ");
    let end = if t.direction == TransferDirection::MoneyOut {
        &t.destination
    } else {
        &t.source
    };
    match end {
        Some(p) => {
            text.append(p.name.as_str());
        },
        None => {
            text.append("—");
        },
    }
    text.append("\n");
    text
}

// ---- `accounts` ----

/// An account as the snapshot shows it.
#[derive(Debug, Clone)]
pub struct Snapshot {
    pub name: String,
    pub account_type: AccountType,
    /// The account's type, by its name.
    pub kind: String,
    pub balance_in_cents: Option<i64>,
    /// The interest rate, written out.
    pub apr: Option<String>,
    pub minimum_in_cents: Option<i64>,
    pub due_date: Option<String>,
}

/// The minimum payment of an account, and when it is due.
pub open spec fn minimum_text(minimum: Option<i64>, due: Option<String>) -> Seq<char> {
    match minimum {
        Some(m) => match due {
            Some(d) => "  min "@ + dollars_text(m as int) + " due "@ + shown_day(d@),
            None => "  min "@ + dollars_text(m as int),
        },
        None => Seq::empty(),
    }
}

/// The line of an account: its type, name, balance, interest and minimum payment.
pub open spec fn account_line(a: Snapshot) -> Seq<char> {
    "  ["@ + a.kind@ + "] "@ + a.name@ + "  =>  "@ + (match a.balance_in_cents {
        Some(cents) => dollars_text(cents as int),
        None => "—"@,
    }) + (match a.apr {
        Some(apr) => "  APR "@ + apr@ + "%"@,
        None => Seq::empty(),
    }) + minimum_text(a.minimum_in_cents, a.due_date) + "\n"@
}

pub fn account_text(a: &Snapshot) -> (text: String)
    ensures
        text@ == account_line(*a),
{
    let mut text = "  [".to_owned();
    text.append(a.kind.as_str());
    text.append("] ");
    text.append(a.name.as_str());
    text.append("  =>  ");
    match a.balance_in_cents {
        Some(cents) => {
            text.append(dollars(cents).as_str());
        },
        None => {
            text.append("—");
        },
    }
    match &a.apr {
        Some(apr) => {
            let mut rate = "  APR ".to_owned();
            rate.append(apr.as_str());
            rate.append("%");
            text.append(rate.as_str());
        },
        None => {
            assert(text@ + Seq::<char>::empty() == text@);
        },
    }
    match a.minimum_in_cents {
        Some(m) => {
            let mut minimum = "  min ".to_owned();
            minimum.append(dollars(m).as_str());
            if let Some(d) = &a.due_date {
                minimum.append(" due ");
                minimum.append(show_day(d.as_str()).as_str());
            }
            text.append(minimum.as_str());
        },
        None => {
            assert(text@ + Seq::<char>::empty() == text@);
        },
    }
    text.append("\n");
    text
}

/// What the pods hold together; a missing balance is nothing.
pub open spec fn pods_total(accounts: Seq<Snapshot>) -> int
    decreases accounts.len(),
{
    if accounts.len() == 0 {
        0
    } else {
        let a = accounts.last();
        pods_total(accounts.drop_last()) + if a.account_type == AccountType::Pod && a.balance_in_cents is Some {
            a.balance_in_cents->0 as int
        } else {
            0
        }
    }
}

/// What the pods hold together, written out.
pub fn pods_total_text(accounts: &Vec<Snapshot>) -> (text: String)
    ensures
        text@ == "\nTotal across pods: "@ + dollars_text(pods_total(accounts@)) + "\n"@,
{
    let mut sum: i128 = 0;
    let mut i: usize = 0;
    while i < accounts.len()
        invariant
            i <= accounts.len(),
            sum == pods_total(accounts@.take(i as int)),
            -0x8000_0000_0000_0000 * i <= sum <= 0x7fff_ffff_ffff_ffff * i,
        decreases accounts.len() - i,
    {
        let a = &accounts[i];
        assert(accounts@.take(i + 1).drop_last() == accounts@.take(i as int));
        if a.account_type == AccountType::Pod {
            if let Some(cents) = a.balance_in_cents {
                sum = sum + cents as i128;
            }
        }
        i += 1;
    }
    assert(accounts@.take(i as int) == accounts@);
    let mut text = "\nTotal across pods: ".to_owned();
    text.append(dollars_wide(sum).as_str());
    text.append("\n");
    text
}

pub open spec fn direction_name(direction: TransferDirection) -> Seq<char> {
    match direction {
        TransferDirection::MoneyIn => "MoneyIn"@,
        TransferDirection::MoneyOut => "MoneyOut"@,
        TransferDirection::Internal => "Internal"@,
    }
}

/// The line of a transfer in an income source's history.
pub fn income_line(t: &Transfer) -> (text: String)
    ensures
        text@ == "   "@ + t.created_at@ + "  "@ + direction_name(t.direction) + "  "@ + dollars_text(
            t.amount_in_cents as int,
        ) + "\n"@,
{
    let mut text = "   ".to_owned();
    text.append(t.created_at.as_str());
    text.append("  ");
    match t.direction {
        TransferDirection::MoneyIn => {
            text.append("MoneyIn");
        },
        TransferDirection::MoneyOut => {
            text.append("MoneyOut");
        },
        TransferDirection::Internal => {
            text.append("Internal");
        },
    }
    text.append("  ");
    text.append(dollars(t.amount_in_cents).as_str());
    text.append("\n");
    text
}

// ---- When a command fails ----

/// An error's detail, as written and in lower case, says that the key may not move money.
pub open spec fn lacks_permission(detail: Seq<char>, lower: Seq<char>) -> bool {
    contains_text(detail, "ACCESS_DENIED"@) || contains_text(lower, "permission"@)
}

/// Whether an error's detail, given as written and in lower case, says that the key
/// may not move money.
pub fn says_no_permission(detail: &str, lower: &str) -> (denied: bool)
    ensures
        denied == lacks_permission(detail@, lower@),
{
    holds(detail, "ACCESS_DENIED") || holds(lower, "permission")
}

/// The hint to give on an error: the API's code or message in its detail tells when
/// the key lacks write permission.
pub fn permission_hint(detail: &str) -> (hint: Option<&'static str>)
    ensures
        match hint {
            Some(text) => lacks_permission(detail@, lowercase(detail@)) && text@
                == "hint: this API key can read but can't move money — use a key with transfer/write permission."@,
            None => !lacks_permission(detail@, lowercase(detail@)),
        },
{
    if says_no_permission(detail, to_lowercase(detail).as_str()) {
        Some("hint: this API key can read but can't move money — use a key with transfer/write permission.")
    } else {
        None
    }
}

// ---- What a rebalance transfers ----

/// Every skim goes from its pod into the hub and every fill from the hub into its pod,
/// each of its own amount; all skims come first, in order, then all fills.
pub proof fn lemma_skims_go_in_and_fills_come_out(
    skims: Seq<(Seq<char>, Seq<char>, int)>,
    fills: Seq<(Seq<char>, Seq<char>, int)>,
    hub: Seq<char>,
)
    ensures
        ({
            let all = rebalance_transfers(skims, fills, hub);
            &&& all.len() == skims.len() + fills.len()
            &&& forall|i: int|
                0 <= i < skims.len() ==> (#[trigger] all[i]).from_pod == skims[i].1 && all[i].to_pod == hub
                    && all[i].amount_cents == skims[i].2
            &&& forall|i: int|
                skims.len() <= i < all.len() ==> (#[trigger] all[i]).from_pod == hub && all[i].to_pod == fills[i
                    - skims.len()].1 && all[i].amount_cents == fills[i - skims.len()].2
        }),
{
}

/// What transfers add to a pod (take from it where negative).
pub open spec fn gain(transfers: Seq<RebalancingView>, pod: Seq<char>) -> int
    decreases transfers.len(),
{
    if transfers.len() == 0 {
        0
    } else {
        let t = transfers.last();
        gain(transfers.drop_last(), pod) + (if t.to_pod == pod { t.amount_cents } else { 0 }) - (if t.from_pod == pod {
            t.amount_cents
        } else {
            0
        })
    }
}

/// The hub gains the net of a rebalance: what is skimmed less what is filled. (It is
/// not itself a pod that is skimmed or filled.)
pub proof fn lemma_the_hub_gains_the_net(
    skims: Seq<(Seq<char>, Seq<char>, int)>,
    fills: Seq<(Seq<char>, Seq<char>, int)>,
    hub: Seq<char>,
)
    requires
        forall|i: int| 0 <= i < skims.len() ==> (#[trigger] skims[i]).1 != hub,
        forall|i: int| 0 <= i < fills.len() ==> (#[trigger] fills[i]).1 != hub,
    ensures
        gain(rebalance_transfers(skims, fills, hub), hub) == total(skims) - total(fills),
    decreases skims.len() + fills.len(),
{
    let all = rebalance_transfers(skims, fills, hub);
    if fills.len() > 0 {
        let rest = fills.drop_last();
        assert(all.drop_last() == rebalance_transfers(skims, rest, hub));
        assert forall|i: int| 0 <= i < rest.len() implies (#[trigger] rest[i]).1 != hub by {
            assert(rest[i] == fills[i]);
        }
        lemma_the_hub_gains_the_net(skims, rest, hub);
        assert(fills[fills.len() - 1].1 != hub);
    } else if skims.len() > 0 {
        let rest = skims.drop_last();
        assert(all.drop_last() == rebalance_transfers(rest, fills, hub));
        assert forall|i: int| 0 <= i < rest.len() implies (#[trigger] rest[i]).1 != hub by {
            assert(rest[i] == skims[i]);
        }
        lemma_the_hub_gains_the_net(rest, fills, hub);
        assert(skims[skims.len() - 1].1 != hub);
    }
}

// ---- What is listed ----

/// The line of a move: the pod's name and the amount.
pub open spec fn move_line(m: (Seq<char>, Seq<char>, int)) -> Seq<char> {
    "  "@ + left(at_most(m.0, 22), 22) + " "@ + right(dollars_text(m.2), 9) + "\n"@
}

proof fn lemma_last_move_is_listed_last(m: Seq<(Seq<char>, Seq<char>, int)>)
    requires
        m.len() > 0,
    ensures
        move_lines(m) == move_lines(m.drop_last()) + move_line(m.last()),
{
    let before = move_lines(m.drop_last());
    let name = left(at_most(m.last().0, 22), 22);
    let amount = right(dollars_text(m.last().2), 9);
    assert(before + "  "@ + name + " "@ + amount + "\n"@ == before + ("  "@ + name + " "@ + amount + "\n"@));
}

/// Moves are listed one below the other, in order, each with its name and amount.
pub proof fn lemma_moves_are_listed_one_by_one(
    a: Seq<(Seq<char>, Seq<char>, int)>,
    b: Seq<(Seq<char>, Seq<char>, int)>,
)
    ensures
        move_lines(a + b) == move_lines(a) + move_lines(b),
        a.len() == 0 ==> move_lines(a).len() == 0,
        a.len() == 1 ==> move_lines(a) == move_line(a[0]),
    decreases b.len(),
{
    if a.len() == 1 {
        lemma_last_move_is_listed_last(a);
        assert(Seq::<char>::empty() + move_line(a[0]) == move_line(a[0]));
    }
    if b.len() == 0 {
        assert(a + b == a);
        assert(move_lines(a) + move_lines(b) == move_lines(a));
    } else {
        let rest = b.drop_last();
        assert((a + b).drop_last() == a + rest);
        lemma_moves_are_listed_one_by_one(a, rest);
        lemma_last_move_is_listed_last(a + b);
        lemma_last_move_is_listed_last(b);
        let line = move_line(b.last());
        assert((move_lines(a) + move_lines(rest)) + line == move_lines(a) + (move_lines(rest) + line));
    }
}

/// Transfers are listed one below the other, in order.
pub proof fn lemma_transfers_are_listed_one_by_one(a: Seq<Transfer>, b: Seq<Transfer>)
    ensures
        transfer_lines(a + b) == transfer_lines(a) + transfer_lines(b),
        a.len() == 0 ==> transfer_lines(a).len() == 0,
        a.len() == 1 ==> transfer_lines(a) == transfer_line(a[0]),
    decreases b.len(),
{
    if a.len() == 1 {
        let line = transfer_line(a[0]);
        assert(transfer_lines(a.drop_last()) == Seq::<char>::empty());
        assert(Seq::<char>::empty() + line == line);
    }
    if b.len() == 0 {
        assert(a + b == a);
        assert(transfer_lines(a) + transfer_lines(b) == transfer_lines(a));
    } else {
        let rest = b.drop_last();
        assert((a + b).drop_last() == a + rest);
        lemma_transfers_are_listed_one_by_one(a, rest);
        lemma_texts_are_joined(transfer_lines(a), transfer_lines(rest), transfer_line(b.last()));
    }
}

proof fn lemma_texts_are_joined(a: Seq<char>, b: Seq<char>, c: Seq<char>)
    ensures
        (a + b) + c == a + (b + c),
{
}

/// What the pods hold is added up account by account: the balance of a pod, nothing
/// where it is missing, and nothing of any other account.
pub proof fn lemma_pod_balances_add_up(a: Seq<Snapshot>, b: Seq<Snapshot>)
    ensures
        pods_total(a + b) == pods_total(a) + pods_total(b),
        a.len() == 0 ==> pods_total(a) == 0,
        a.len() == 1 && a[0].account_type is Pod ==> (a[0].balance_in_cents matches Some(cents) ==> pods_total(a) == cents),
        a.len() == 1 && a[0].balance_in_cents is None ==> pods_total(a) == 0,
        a.len() == 1 && !(a[0].account_type is Pod) ==> pods_total(a) == 0,
    decreases b.len(),
{
    reveal_with_fuel(pods_total, 2);
    if b.len() == 0 {
        assert(a + b == a);
    } else {
        assert((a + b).drop_last() == a + b.drop_last());
        lemma_pod_balances_add_up(a, b.drop_last());
    }
}

// ---- What the lines say ----

/// A cycle's heading names the day, whether money moved, the schedule, the strategy, the
/// pool with its balance, the buffer and the phase; nothing but what became of the money
/// changes with its being moved.
pub proof fn lemma_a_heading_says_whether_money_moved(
    report: ReportView,
    sched: PayScheduleView,
    strategy: FundingStrategy,
    onboarded: bool,
    buffer: Seq<char>,
    phase: Phase,
)
    ensures
        ({
            let heading = cycle_header_spans(report, sched, strategy, onboarded, buffer, phase);
            let other = cycle_header_spans(
                ReportView { executed: !report.executed, ..report },
                sched,
                strategy,
                onboarded,
                buffer,
                phase,
            );
            &&& heading.len() == 6 && other.len() == 6
            &&& forall|i: int| 0 <= i < 6 && i != 2 ==> #[trigger] heading[i] == other[i]
            &&& heading[2] == if report.executed {
                ("EXECUTED — money moved"@, Style::RedBold)
            } else {
                ("DRY RUN — moves nothing"@, Style::Green)
            }
            &&& heading[0].0 == "MAESTRO — "@ + date_text(report.today as i32)
            &&& onboarded ==> heading[4].0 == "pay schedule: "@ + schedule_text(sched) + "   strategy: "@
                + strategy_name(strategy) + "\n"@
            &&& !onboarded ==> heading[4].0 == "pay schedule: "@ + schedule_text(sched) + "   strategy: "@
                + strategy_name(strategy) + "   [!] no state file — run `discover`"@ + "\n"@
            &&& heading[5].0 == "pool: "@ + name_of(report.names, report.pool_pod_id) + " = "@ + dollars_text(
                report.pool_balance,
            ) + "   buffer: "@ + buffer + "%   phase: "@ + phase_name(phase) + "\n\n"@
        }),
{
    let line = "pay schedule: "@ + schedule_text(sched) + "   strategy: "@ + strategy_name(strategy);
    assert(line + Seq::<char>::empty() == line);
}

/// A simulation's heading never says that money moved: it names the deposit, its day,
/// the schedule, the strategy and the pool's balance with the deposit in it.
pub proof fn lemma_a_simulation_is_headed_by_its_deposit(
    report: ReportView,
    deposit: int,
    sched: PayScheduleView,
    strategy: FundingStrategy,
    buffer: Seq<char>,
)
    ensures
        ({
            let heading = simulation_header_spans(report, deposit, sched, strategy, buffer);
            &&& heading.len() == 6
            &&& heading[0].0 == "SIMULATION — deposit "@ + dollars_text(deposit) + " on "@ + date_text(
                report.today as i32,
            )
            &&& heading[2] == ("WHAT-IF — moves nothing"@, Style::Green)
            &&& heading[4].0 == "pay schedule: "@ + schedule_text(sched) + "   strategy: "@ + strategy_name(strategy)
                + "\n"@
            &&& heading[5].0 == "pool "@ + name_of(report.names, report.pool_pod_id) + " after deposit: "@
                + dollars_text(report.pool_balance) + "   buffer: "@ + buffer + "%\n\n"@
        }),
{
}

/// Strategies, phases and directions go by their names.
pub proof fn lemma_choices_go_by_their_names(strategy: FundingStrategy, phase: Phase, direction: TransferDirection)
    ensures
        strategy is SoonestDue ==> strategy_name(strategy) == "SoonestDue"@,
        strategy is StrictEnvelope ==> strategy_name(strategy) == "StrictEnvelope"@,
        strategy is Proportional ==> strategy_name(strategy) == "Proportional"@,
        phase is Shadow ==> phase_name(phase) == "Shadow"@,
        phase is Groups ==> phase_name(phase) == "Groups"@,
        phase is Full ==> phase_name(phase) == "Full"@,
        direction is MoneyIn ==> direction_name(direction) == "MoneyIn"@ && arrow(direction) == "IN  ←"@,
        direction is MoneyOut ==> direction_name(direction) == "MoneyOut"@ && arrow(direction) == "OUT →"@,
        direction is Internal ==> direction_name(direction) == "Internal"@ && arrow(direction) == "in  ←"@,
{
}

/// Only a transfer out of a pod shows where it goes; any other shows where it came from.
pub proof fn lemma_transfers_show_their_other_end(t: Transfer)
    ensures
        t.direction is MoneyOut && t.destination is Some ==> other_end(t) == t.destination->0.name@,
        !(t.direction is MoneyOut) && t.source is Some ==> other_end(t) == t.source->0.name@,
        t.direction is MoneyOut && t.destination is None || !(t.direction is MoneyOut) && t.source is None
            ==> other_end(t) == "—"@,
{
}

/// A pod that is named takes the rebalanced money, whatever is on file; the one on file
/// takes it where none is named, and without either there is none.
pub proof fn lemma_a_named_pod_takes_the_money(name: Seq<char>, file: State)
    ensures
        destination_name(Some(name), None) == Some(name),
        destination_name(Some(name), Some(&file)) == Some(name),
        file.reclaim_pod matches Some(pod) ==> destination_name(None, Some(&file)) == Some(pod@),
        file.reclaim_pod is None ==> destination_name(None, Some(&file)) is None,
        destination_name(None, None) is None,
{
}

/// What is read of an account is written out: its kind, name and balance, then the rate
/// where it has one, and the minimum where there is one, with its day where that is known.
pub proof fn lemma_an_account_is_written_with_what_is_known(a: Snapshot)
    ensures
        ({
            let head = "  ["@ + a.kind@ + "] "@ + a.name@ + "  =>  "@ + (if a.balance_in_cents is Some {
                dollars_text(a.balance_in_cents->0 as int)
            } else {
                "—"@
            });
            let rated = if a.apr is Some {
                head + ("  APR "@ + a.apr->0@ + "%"@)
            } else {
                head
            };
            &&& a.minimum_in_cents is None ==> account_line(a) == rated + "\n"@
            &&& a.minimum_in_cents is Some && a.due_date is None ==> account_line(a) == rated + ("  min "@
                + dollars_text(a.minimum_in_cents->0 as int)) + "\n"@
            &&& a.minimum_in_cents is Some && a.due_date is Some ==> account_line(a) == rated + ("  min "@
                + dollars_text(a.minimum_in_cents->0 as int) + " due "@ + shown_day(a.due_date->0@)) + "\n"@
        }),
{
    let head = "  ["@ + a.kind@ + "] "@ + a.name@ + "  =>  "@ + (if a.balance_in_cents is Some {
        dollars_text(a.balance_in_cents->0 as int)
    } else {
        "—"@
    });
    assert(head + Seq::<char>::empty() == head);
    let rated = if a.apr is Some {
        head + ("  APR "@ + a.apr->0@ + "%"@)
    } else {
        head
    };
    assert(rated + Seq::<char>::empty() == rated);
}

/// A rebalance is announced with what it skims, what it fills and what the hub gains, and
/// with a note only where pods are held at a boundary; nothing but the mark in its first
/// line changes with its being carried out.
pub proof fn lemma_a_rebalance_is_announced_whole(
    skims: Seq<(Seq<char>, Seq<char>, int)>,
    fills: Seq<(Seq<char>, Seq<char>, int)>,
    boundary: int,
    to: Seq<char>,
    execute: bool,
)
    ensures
        boundary > 0 ==> rebalance_lines(skims, fills, boundary, to, execute) == rebalance_lines(
            skims,
            fills,
            0,
            to,
            execute,
        ) + "("@ + decimal(boundary as nat)
            + " pod(s) skipped — at a cycle boundary, holding for a just-due bill)\n"@,
        boundary <= 0 ==> rebalance_lines(skims, fills, boundary, to, execute) == "REBALANCE → "@ + to + "   ["@ + (
        if execute {
            "EXECUTING — moves money"@
        } else {
            "DRY RUN — moves nothing"@
        }) + "]\n"@ + "\nskim ahead → "@ + to + ":\n"@ + move_lines(skims) + "  ── total skim "@ + dollars_text(
            total(skims),
        ) + "\n"@ + "\nfill behind ← "@ + to + ":\n"@ + move_lines(fills) + "  ── total fill "@ + dollars_text(
            total(fills),
        ) + "\n"@ + "\nnet into "@ + to + ": "@ + dollars_text(total(skims) - total(fills)) + "\n"@,
{
}

/// An error that speaks of a denied access or, in any case of letters, of a permission is
/// one for want of permission; no other is.
pub proof fn lemma_denials_are_recognised(detail: Seq<char>, lower: Seq<char>)
    ensures
        lacks_permission(detail, lower) <==> (exists|i: int| occurs_at(detail, "ACCESS_DENIED"@, i)) || (exists|i: int|
            occurs_at(lower, "permission"@, i)),
{
    lemma_a_search_finds_the_first_place(detail, "ACCESS_DENIED"@, 0);
    lemma_a_search_finds_the_first_place(lower, "permission"@, 0);
}

} // verus!
