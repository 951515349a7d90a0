//! The assessment of a cycle: from what was read of the live pods to balances,
//! targets, plan and lines — nothing moved. `run`, `rebalance` and `simulate`
//! share it, so they see identical numbers.

use crate::allocator::{
    bills_of, budget_is_ready, budget_ready, drawdown_is_ready, drawdown_on_track, drawdown_ready, drawdown_slice,
    due_after, inflow, is_due, item_of, lemma_bills_of_take, lemma_due_after_is_next, lemma_last_due_is_latest,
    lemma_plan_never_overdraws, lemma_target_is_within_the_amount, monthly_ready, on_track, outflow, plan, planned,
    slice, target_cents, target_of, to_give, want, FundingStrategy, PlannedTransfer, PlannedTransferView,
};
use crate::api::{AccountSummary, AccountType, Rule, Transfer};
use crate::budget::{
    drift_names_fit, drift_names_in_range, drift_warnings, drifts, flows_from_rules, rule_flows, Assembled, AssembledView,
};
use crate::cards::{fits, reserved, reserved_wide};
use crate::date::{date_text, on_calendar, year_of, Date, FIRST_DAY, LAST_DAY};
use crate::derive::{Frequency, FrequencyView};
use crate::engine::{BillLine, BillLineView, LineKind, Report, ReportView};
use crate::fetch::{leading_date, lemma_timestamps_fall_on_their_day, parse_date, settled};
use crate::ledger::{after_reserving, amount_of, Names, PodAmounts};
use crate::model::{texts, views, Bill, BillView, Budget, BudgetView, CategoryView};
use crate::money::{dollars, dollars_text, dollars_wide};
use crate::schedule::{last_due, most_recent_due, numbers, PaySchedule};
use crate::text::same_text;
use vstd::prelude::*;
use vstd::string::StringExecFns;

verus! {

// ---- Simulation ----

/// Simulation overrides for an assessment: pretend it's `today` and add `deposit_cents`
/// to the pool — see what a paycheck would do on a date, moving nothing.
#[derive(Debug, Clone, Copy)]
pub struct SimInput {
    pub today: Option<Date>,
    pub deposit_cents: i64,
}

impl Default for SimInput {
    fn default() -> (sim: Self)
        ensures
            sim.today is None,
            sim.deposit_cents == 0,
    {
        SimInput { today: None, deposit_cents: 0 }
    }
}

impl SimInput {
    /// True when any override is set. A simulation skips the pending-debit
    /// reservation (real outflow history against a pretend date produces phantom
    /// holds) and the config-drift checks (noise inside a what-if) — it answers
    /// one question: given balances now and this deposit, what does the allocator do?
    pub open spec fn is_simulation(&self) -> bool {
        self.today is Some || self.deposit_cents != 0
    }

    /// The day to plan for.
    pub open spec fn day(&self, now: int) -> int {
        match self.today {
            Some(d) => d@,
            None => now,
        }
    }

    pub fn is_sim(&self) -> (simulated: bool)
        ensures
            simulated == self.is_simulation(),
    {
        self.today.is_some() || self.deposit_cents != 0
    }

    /// The day to plan for: the pretend date, or today.
    pub fn planning_day(&self, now: Date) -> (day: Date)
        ensures
            day@ == self.day(now@),
    {
        match self.today {
            Some(d) => d,
            None => now,
        }
    }
}

// ---- Accounts ----

/// The display names of the accounts.
pub open spec fn names_of(accounts: Seq<AccountSummary>) -> Map<Seq<char>, Seq<char>>
    decreases accounts.len(),
{
    if accounts.len() == 0 {
        Map::empty()
    } else {
        names_of(accounts.drop_last()).insert(accounts.last().id@, accounts.last().name@)
    }
}

pub fn account_names(accounts: &Vec<AccountSummary>) -> (names: Names)
    ensures
        names@ == names_of(accounts@),
{
    let mut names = Names::new();
    let mut i: usize = 0;
    while i < accounts.len()
        invariant
            i <= accounts@.len(),
            names@ == names_of(accounts@.take(i as int)),
        decreases accounts@.len() - i,
    {
        assert(accounts@.take(i + 1).drop_last() == accounts@.take(i as int));
        names.insert(accounts[i].id.clone(), accounts[i].name.clone());
        i += 1;
    }
    assert(accounts@.take(i as int) == accounts@);
    names
}

/// The ids of the pods.
pub open spec fn pod_ids_of(accounts: Seq<AccountSummary>) -> Seq<Seq<char>>
    decreases accounts.len(),
{
    if accounts.len() == 0 {
        Seq::empty()
    } else if accounts.last().account_type == AccountType::Pod {
        pod_ids_of(accounts.drop_last()).push(accounts.last().id@)
    } else {
        pod_ids_of(accounts.drop_last())
    }
}

/// The pods to read balances of: the account list omits them, so each pod needs its own read.
pub fn pod_ids(accounts: &Vec<AccountSummary>) -> (ids: Vec<String>)
    ensures
        texts(ids@) == pod_ids_of(accounts@),
{
    let mut ids: Vec<String> = Vec::new();
    let mut i: usize = 0;
    assert(texts(ids@) == pod_ids_of(accounts@.take(0)));
    while i < accounts.len()
        invariant
            i <= accounts@.len(),
            texts(ids@) == pod_ids_of(accounts@.take(i as int)),
        decreases accounts@.len() - i,
    {
        assert(accounts@.take(i + 1).drop_last() == accounts@.take(i as int));
        if accounts[i].account_type == AccountType::Pod {
            let ghost held = ids@;
            ids.push(accounts[i].id.clone());
            assert(texts(ids@) == texts(held).push(accounts@[i as int].id@));
        }
        i += 1;
    }
    assert(accounts@.take(i as int) == accounts@);
    ids
}

// ---- Contributions ----

/// The start of the current pay period: the last payday in the past forty days, or
/// today where there was none.
pub open spec fn period_start_of(sched: PaySchedule, today: int) -> int {
    let recent = sched.paydays(today - 40, today);
    if recent.len() == 0 {
        today
    } else {
        recent.last()
    }
}

/// The start of the current pay period: top-ups and drawdowns are funded off the
/// LEDGER (deposits since the last payday), not the running balance.
pub fn period_start(sched: &PaySchedule, today: Date) -> (start: Date)
    requires
        sched.well_formed(),
        on_calendar(today@ - 40),
        sched is Irregular || today@ + 2 <= LAST_DAY,
    ensures
        start@ == period_start_of(*sched, today@),
{
    let recent = sched.paydays_in(today.plus_days(-40), today);
    let n: usize = recent.len();
    assert(numbers(recent@).len() == n);
    if n == 0 {
        today
    } else {
        assert(numbers(recent@).last() == recent@[n - 1]@);
        recent[n - 1]
    }
}

/// The start of a pay period is no later than today.
pub proof fn lemma_period_starts_by_today(sched: PaySchedule, today: int)
    ensures
        today - 40 <= period_start_of(sched, today) <= today,
{
    let recent = sched.paydays(today - 40, today);
    sched.lemma_paydays_are_workdays_in_range(today - 40, today);
    if recent.len() > 0 {
        assert(recent[recent.len() - 1] == recent.last());
    }
}

/// A timestamp at the start of a day.
pub open spec fn day_start_text(day: int) -> Seq<char> {
    date_text(day as i32) + "T00:00:00Z"@
}

/// The timestamp to list rows from, for a day.
pub fn day_start(day: Date) -> (text: String)
    ensures
        text@ == day_start_text(day@),
{
    let mut text = day.text();
    text.append("T00:00:00Z");
    text
}

/// A bill that is funded per paycheck.
pub open spec fn is_per_paycheck(bill: BillView) -> bool {
    bill.frequency is Paycheck || bill.frequency is Drawdown
}

/// The pods of the bills that are funded per paycheck.
pub open spec fn contribution_pods_of(bills: Seq<BillView>) -> Seq<Seq<char>>
    decreases bills.len(),
{
    if bills.len() == 0 {
        Seq::empty()
    } else if is_per_paycheck(bills.last()) {
        contribution_pods_of(bills.drop_last()).push(bills.last().pod_id)
    } else {
        contribution_pods_of(bills.drop_last())
    }
}

/// What a transfer adds to a pod's contributions since a day: settled money that
/// went to the pod on that day or later.
pub open spec fn landed(t: Transfer, pod: Seq<char>, since: int) -> int {
    if t.status is Complete && (t.destination matches Some(d) && d.id matches Some(id) && id@ == pod) && (leading_date(
        t.created_at@,
    ) matches Some(day) && day >= since) {
        t.amount_in_cents as int
    } else {
        0
    }
}

/// What landed in a pod since a day.
pub open spec fn contributions(transfers: Seq<Transfer>, pod: Seq<char>, since: int) -> int
    decreases transfers.len(),
{
    if transfers.len() == 0 {
        0
    } else {
        contributions(transfers.drop_last(), pod, since) + landed(transfers.last(), pod, since)
    }
}

fn is_destination(t: &Transfer, pod_id: &str) -> (is: bool)
    ensures
        is == (t.destination matches Some(d) && d.id matches Some(id) && id@ == pod_id@),
{
    match &t.destination {
        Some(d) => match &d.id {
            Some(id) => same_text(id.as_str(), pod_id),
            None => false,
        },
        None => false,
    }
}

/// Total money that actually landed in `pod_id` (settled transfers only) on or
/// after `since` — tells whether a per-paycheck contribution was already made this
/// period. `None` where the total is out of range.
pub fn contributed_since(transfers: &[Transfer], pod_id: &str, since: Date) -> (cents: Option<i64>)
    ensures
        match cents {
            Some(c) => c == contributions(transfers@, pod_id@, since@),
            None => !fits(contributions(transfers@, pod_id@, since@)),
        },
{
    let mut total: i128 = 0;
    let mut i: usize = 0;
    while i < transfers.len()
        invariant
            i <= transfers@.len(),
            total == contributions(transfers@.take(i as int), pod_id@, since@),
            -0x8000_0000_0000_0000 * i <= total <= 0x7fff_ffff_ffff_ffff * i,
        decreases transfers@.len() - i,
    {
        let t = &transfers[i];
        assert(transfers@.take(i + 1).drop_last() == transfers@.take(i as int));
        if settled(t) && is_destination(t, pod_id) {
            if let Some(day) = parse_date(t.created_at.as_str()) {
                if day.number() >= since.number() {
                    total = total + t.amount_in_cents as i128;
                }
            }
        }
        i += 1;
    }
    assert(transfers@.take(i as int) == transfers@);
    if i64::MIN as i128 <= total && total <= i64::MAX as i128 {
        Some(total as i64)
    } else {
        None
    }
}

// ---- The bills of a budget ----

spec fn seen(bills: Seq<&Bill>) -> Seq<BillView> {
    Seq::new(bills.len(), |i: int| bills[i]@)
}

/// The bills of all categories, in order.
fn all_bills<'a>(budget: &'a Budget) -> (bills: Vec<&'a Bill>)
    ensures
        seen(bills@) == bills_of(budget@.categories),
{
    let ghost all = budget@.categories;
    let mut bills: Vec<&'a Bill> = Vec::new();
    let mut c: usize = 0;
    assert(all.take(0) == Seq::<CategoryView>::empty());
    assert(seen(bills@) == bills_of(all.take(0)));
    while c < budget.categories.len()
        invariant
            c <= budget.categories@.len(),
            all == budget@.categories,
            seen(bills@) == bills_of(all.take(c as int)),
        decreases budget.categories@.len() - c,
    {
        let category = &budget.categories[c];
        assert(all[c as int] == category@);
        let ghost before = seen(bills@);
        let mut b: usize = 0;
        assert(before + category@.bills.take(0) == before);
        while b < category.bills.len()
            invariant
                b <= category.bills@.len(),
                seen(bills@) == before + category@.bills.take(b as int),
            decreases category.bills@.len() - b,
        {
            let ghost held = bills@;
            bills.push(&category.bills[b]);
            assert(category@.bills[b as int] == category.bills@[b as int]@);
            assert(seen(bills@) == seen(held).push(category@.bills[b as int]));
            b += 1;
            assert(seen(bills@) == before + category@.bills.take(b as int));
        }
        proof {
            lemma_bills_of_take(all, c as int);
            assert(category@.bills.take(b as int) == category@.bills);
        }
        c += 1;
    }
    assert(all.take(c as int) == all);
    bills
}

/// The pods whose contributions since the last payday have to be read.
pub fn contribution_pods(budget: &Budget) -> (pods: Vec<String>)
    ensures
        texts(pods@) == contribution_pods_of(bills_of(budget@.categories)),
{
    let bills = all_bills(budget);
    let ghost all = seen(bills@);
    let mut pods: Vec<String> = Vec::new();
    let mut i: usize = 0;
    assert(texts(pods@) == contribution_pods_of(all.take(0)));
    while i < bills.len()
        invariant
            i <= bills@.len(),
            all == seen(bills@),
            texts(pods@) == contribution_pods_of(all.take(i as int)),
        decreases bills@.len() - i,
    {
        let bill = bills[i];
        assert(all[i as int] == bill@);
        assert(all.take(i + 1).drop_last() == all.take(i as int));
        let per_paycheck = match bill.frequency {
            Frequency::Paycheck | Frequency::Drawdown { .. } => true,
            _ => false,
        };
        if per_paycheck {
            let ghost held = pods@;
            pods.push(bill.pod_id.clone());
            assert(texts(pods@) == texts(held).push(bill@.pod_id));
        }
        i += 1;
    }
    assert(all.take(i as int) == all);
    pods
}

// ---- Drawdown notes ----

/// The note on a drawdown pod that even this paycheck's slice does not bring back on pace.
pub open spec fn note_on(bill: BillView, balances: Map<Seq<char>, i64>, today: int, sched: PaySchedule) -> Option<
    Seq<char>,
> {
    match bill.frequency {
        FrequencyView::Drawdown { target, period_months } => {
            let saved = amount_of(balances, bill.pod_id) as int;
            let pace = on_track(bill.amount_cents, target, period_months, today, sched);
            if saved + slice(bill.amount_cents, target, period_months, today, sched) < pace {
                Some(
                    bill.name + ": "@ + dollars_text(saved) + " saved toward "@ + dollars_text(bill.amount_cents)
                        + " by "@ + date_text(target as i32) + " — ~"@ + dollars_text(pace - saved)
                        + " behind pace (top up to catch up, optional)"@,
                )
            } else {
                None
            }
        },
        _ => None,
    }
}

/// The notes on all bills, in order.
pub open spec fn notes_on(
    bills: Seq<BillView>,
    balances: Map<Seq<char>, i64>,
    today: int,
    sched: PaySchedule,
) -> Seq<Seq<char>>
    decreases bills.len(),
{
    if bills.len() == 0 {
        Seq::empty()
    } else {
        let rest = notes_on(bills.drop_last(), balances, today, sched);
        match note_on(bills.last(), balances, today, sched) {
            Some(note) => rest.push(note),
            None => rest,
        }
    }
}

/// The dates of a bill's drawdown, where it is one, can be represented.
pub open spec fn drawdown_fits(bill: BillView, today: int, sched: PaySchedule) -> bool {
    bill.frequency matches FrequencyView::Drawdown { target, period_months } ==> sched.well_formed() && drawdown_ready(
        target,
        period_months,
        today,
        sched,
    )
}

/// The dates of the drawdowns among the bills can be represented.
pub open spec fn drawdowns_ready(bills: Seq<BillView>, today: int, sched: PaySchedule) -> bool {
    forall|i: int| 0 <= i < bills.len() ==> drawdown_fits(#[trigger] bills[i], today, sched)
}

fn drawdowns_are_ready(bills: &Vec<&Bill>, today: Date, sched: &PaySchedule) -> (ready: bool)
    ensures
        ready == drawdowns_ready(seen(bills@), today@, *sched),
{
    let ghost all = seen(bills@);
    let mut i: usize = 0;
    while i < bills.len()
        invariant
            i <= bills@.len(),
            all == seen(bills@),
            forall|j: int| 0 <= j < i ==> drawdown_fits(#[trigger] all[j], today@, *sched),
        decreases bills@.len() - i,
    {
        let bill = bills[i];
        assert(all[i as int] == bill@);
        if let Frequency::Drawdown { target, period_months } = &bill.frequency {
            if !sched.is_well_formed() || !drawdown_is_ready(*target, *period_months, today, sched) {
                assert(!drawdown_fits(all[i as int], today@, *sched));
                return false;
            }
        }
        i += 1;
    }
    true
}

fn drawdown_note(bill: &Bill, balances: &PodAmounts, today: Date, sched: &PaySchedule) -> (note: Option<String>)
    requires
        drawdown_fits(bill@, today@, *sched),
    ensures
        match note {
            Some(text) => note_on(bill@, balances@, today@, *sched) == Some(text@),
            None => note_on(bill@, balances@, today@, *sched) is None,
        },
{
    if let Frequency::Drawdown { target, period_months } = &bill.frequency {
        let saved = balances.amount(bill.pod_id.as_str());
        let pace = drawdown_on_track(bill.amount_cents, *target, *period_months, today, sched);
        let part = drawdown_slice(bill.amount_cents, *target, *period_months, today, sched);
        if (saved as i128 + part as i128) < pace as i128 {
            let mut text = bill.name.clone();
            text.append(": ");
            text.append(dollars(saved).as_str());
            text.append(" saved toward ");
            text.append(dollars(bill.amount_cents).as_str());
            text.append(" by ");
            text.append(target.text().as_str());
            text.append(" — ~");
            text.append(dollars_wide(pace as i128 - saved as i128).as_str());
            text.append(" behind pace (top up to catch up, optional)");
            return Some(text);
        }
    }
    None
}

fn drawdown_notes(bills: &Vec<&Bill>, balances: &PodAmounts, today: Date, sched: &PaySchedule) -> (notes: Vec<String>)
    requires
        drawdowns_ready(seen(bills@), today@, *sched),
    ensures
        texts(notes@) == notes_on(seen(bills@), balances@, today@, *sched),
{
    let ghost all = seen(bills@);
    let mut notes: Vec<String> = Vec::new();
    let mut i: usize = 0;
    assert(texts(notes@) == notes_on(all.take(0), balances@, today@, *sched));
    while i < bills.len()
        invariant
            i <= bills@.len(),
            all == seen(bills@),
            drawdowns_ready(all, today@, *sched),
            texts(notes@) == notes_on(all.take(i as int), balances@, today@, *sched),
        decreases bills@.len() - i,
    {
        let bill = bills[i];
        assert(all[i as int] == bill@);
        assert(all[i as int].frequency == bill@.frequency);
        assert(all.take(i + 1).drop_last() == all.take(i as int));
        if let Some(text) = drawdown_note(bill, balances, today, sched) {
            let ghost held = notes@;
            notes.push(text);
            assert(texts(notes@) == texts(held).push(text@));
        }
        i += 1;
    }
    assert(all.take(i as int) == all);
    notes
}

// ---- Pending debits ----

/// A due date is close for this many days.
pub const DANGER_DAYS: i32 = 7;

/// Look back this far from the due date for the debit, to catch autopays that
/// pull before the due date. Kept well under a cycle so the prior month's debit
/// isn't counted as this one's.
pub const DEBIT_LEAD_DAYS: i32 = 12;

/// The bill was due within the last days.
pub open spec fn is_at_risk(bill: BillView, today: int) -> bool {
    bill.due_day matches Some(d) && today - last_due(d, today) <= DANGER_DAYS
}

/// The bills that were due within the last days, in order.
pub open spec fn bills_at_risk(bills: Seq<BillView>, today: int) -> Seq<BillView>
    decreases bills.len(),
{
    if bills.len() == 0 {
        Seq::empty()
    } else if is_at_risk(bills.last(), today) {
        bills_at_risk(bills.drop_last(), today).push(bills.last())
    } else {
        bills_at_risk(bills.drop_last(), today)
    }
}

/// What is set aside for a bill, given what has gone out of its pod.
pub open spec fn reservation(
    bill: BillView,
    outflow: int,
    balances: Map<Seq<char>, i64>,
    today: int,
    sched: PaySchedule,
) -> int {
    reserved(
        bill.amount_cents,
        outflow,
        amount_of(balances, bill.pod_id) as int,
        target_of(bill, today, sched),
    )
}

/// The amounts set aside, by pod. Where an outflow could not be read nothing is.
pub open spec fn reservations(
    bills: Seq<BillView>,
    outflows: Seq<Option<i64>>,
    balances: Map<Seq<char>, i64>,
    today: int,
    sched: PaySchedule,
) -> Map<Seq<char>, i64>
    decreases bills.len(),
{
    if bills.len() == 0 {
        Map::empty()
    } else {
        let rest = reservations(bills.drop_last(), outflows, balances, today, sched);
        let bill = bills.last();
        match outflows[bills.len() - 1] {
            Some(seen) => {
                let cents = reservation(bill, seen as int, balances, today, sched);
                if cents > 0 {
                    rest.insert(bill.pod_id, cents as i64)
                } else {
                    rest
                }
            },
            None => rest,
        }
    }
}

/// Every amount to set aside fits in 64 bits.
pub open spec fn reservations_fit(
    bills: Seq<BillView>,
    outflows: Seq<Option<i64>>,
    balances: Map<Seq<char>, i64>,
    today: int,
    sched: PaySchedule,
) -> bool {
    forall|i: int|
        0 <= i < bills.len() ==> (outflows[i] matches Some(seen) ==> fits(
            reservation(#[trigger] bills[i], seen as int, balances, today, sched),
        ))
}

/// Where the due date before the next one can be represented, the last due date can.
proof fn lemma_last_due_is_ready(due_day: int, today: int, sched: PaySchedule)
    requires
        monthly_ready(due_day, today, sched),
        on_calendar(today),
    ensures
        on_calendar(last_due(due_day, today)),
{
    let due = due_after(today, due_day);
    let start = last_due(due_day, due - 1);
    lemma_last_due_is_latest(due_day, due - 1, due - 1);
    lemma_due_after_is_next(today, due_day, start);
    lemma_last_due_is_latest(due_day, today, start);
}

/// A debit to look for: the pod, and since when.
#[derive(Debug, Clone)]
pub struct PendingDebit {
    pub pod_id: String,
    pub from: String,
}

/// The debit to look for, for a bill.
pub open spec fn debit_of(bill: BillView, today: int) -> (Seq<char>, Seq<char>) {
    (bill.pod_id, day_start_text(last_due(bill.due_day->0, today) - DEBIT_LEAD_DAYS))
}

/// The last due dates, and the days from which their debits are looked for, can be represented.
pub open spec fn debits_ready(bills: Seq<BillView>, today: int) -> bool {
    forall|i: int|
        0 <= i < bills.len() ==> (#[trigger] bills[i].due_day matches Some(d) ==> 1 <= d && on_calendar(
            last_due(d, today) - DEBIT_LEAD_DAYS,
        ) && on_calendar(last_due(d, today)))
}

fn at_risk_on(bill: &Bill, today: Date) -> (since: Option<Date>)
    requires
        bill@.due_day matches Some(d) ==> 1 <= d && on_calendar(last_due(d, today@)),
    ensures
        match since {
            Some(due) => is_at_risk(bill@, today@) && due@ == last_due(bill@.due_day->0, today@),
            None => !is_at_risk(bill@, today@),
        },
{
    match bill.due_day {
        Some(d) => {
            let due = most_recent_due(d, today);
            if today.number() - due.number() <= DANGER_DAYS {
                Some(due)
            } else {
                None
            }
        },
        None => None,
    }
}

/// The debits to look for: a due-day bill's scheduled debit doesn't land
/// exactly on the due date — it can slip a few days late (slow ACH/weekend) or
/// pull several days early (some autopays debit ~5 days ahead). Only bills
/// near their due date get the extra outflow read, so it stays cheap.
pub fn pending_debits(budget: &Budget, today: Date) -> (debits: Vec<PendingDebit>)
    requires
        debits_ready(bills_of(budget@.categories), today@),
    ensures
        debits@.len() == bills_at_risk(bills_of(budget@.categories), today@).len(),
        forall|i: int|
            0 <= i < debits@.len() ==> (debits@[i].pod_id@, #[trigger] debits@[i].from@) == debit_of(
                bills_at_risk(bills_of(budget@.categories), today@)[i],
                today@,
            ),
{
    let bills = all_bills(budget);
    let ghost all = seen(bills@);
    let mut debits: Vec<PendingDebit> = Vec::new();
    let mut i: usize = 0;
    while i < bills.len()
        invariant
            i <= bills@.len(),
            all == seen(bills@),
            debits_ready(all, today@),
            debits@.len() == bills_at_risk(all.take(i as int), today@).len(),
            forall|j: int|
                0 <= j < debits@.len() ==> (debits@[j].pod_id@, #[trigger] debits@[j].from@) == debit_of(
                    bills_at_risk(all.take(i as int), today@)[j],
                    today@,
                ),
        decreases bills@.len() - i,
    {
        let bill = bills[i];
        assert(all[i as int] == bill@);
        assert(all[i as int].due_day == bill@.due_day);
        assert(all.take(i + 1).drop_last() == all.take(i as int));
        if let Some(due) = at_risk_on(bill, today) {
            let from = day_start(due.plus_days(-DEBIT_LEAD_DAYS));
            debits.push(PendingDebit { pod_id: bill.pod_id.clone(), from });
        }
        i += 1;
    }
    assert(all.take(i as int) == all);
    debits
}

/// Whether the last due dates, and the days from which their debits are looked
/// for, can be represented.
pub fn debits_are_ready(budget: &Budget, today: Date, sched: &PaySchedule) -> (ready: bool)
    requires
        budget_ready(budget@, today@, *sched),
    ensures
        ready == debits_ready(bills_of(budget@.categories), today@),
{
    let bills = all_bills(budget);
    let ghost all = seen(bills@);
    let _ = today.number();
    let mut i: usize = 0;
    while i < bills.len()
        invariant
            i <= bills@.len(),
            all == seen(bills@),
            all == bills_of(budget@.categories),
            budget_ready(budget@, today@, *sched),
            on_calendar(today@),
            forall|j: int|
                0 <= j < i ==> (#[trigger] all[j].due_day matches Some(d) ==> 1 <= d && on_calendar(
                    last_due(d, today@) - DEBIT_LEAD_DAYS,
                ) && on_calendar(last_due(d, today@))),
        decreases bills@.len() - i,
    {
        let bill = bills[i];
        assert(all[i as int] == bill@);
        proof {
            lemma_every_bill_is_ready(budget@, today@, *sched, i as int);
        }
        if let Some(d) = bill.due_day {
            proof {
                lemma_last_due_is_ready(d as int, today@, *sched);
            }
            let due = most_recent_due(d, today);
            if due.number() - DEBIT_LEAD_DAYS < FIRST_DAY {
                assert(!(all[i as int].due_day matches Some(d) ==> 1 <= d && on_calendar(
                    last_due(d, today@) - DEBIT_LEAD_DAYS,
                ) && on_calendar(last_due(d, today@))));
                return false;
            }
        }
        i += 1;
    }
    true
}

proof fn lemma_every_bill_is_ready(budget: BudgetView, today: int, sched: PaySchedule, i: int)
    requires
        budget_ready(budget, today, sched),
        0 <= i < bills_of(budget.categories).len(),
    ensures
        crate::allocator::bill_ready(bills_of(budget.categories)[i], today, sched),
{
    let (c, b) = lemma_bill_has_a_category(budget.categories, i);
    assert(budget.categories[c].bills[b] == bills_of(budget.categories)[i]);
}

proof fn lemma_bill_has_a_category(categories: Seq<CategoryView>, i: int) -> (place: (int, int))
    requires
        0 <= i < bills_of(categories).len(),
    ensures
        0 <= place.0 < categories.len(),
        0 <= place.1 < categories[place.0].bills.len(),
        categories[place.0].bills[place.1] == bills_of(categories)[i],
    decreases categories.len(),
{
    let rest = categories.drop_last();
    let n = bills_of(rest).len() as int;
    if i < n {
        lemma_bill_has_a_category(rest, i)
    } else {
        (categories.len() - 1, i - n)
    }
}

/// What becomes of the pending debits: if this cycle's debit hasn't gone out yet,
/// the pod still holds that money but it's committed — reserve it so funding/rebalance
/// don't mistake the pod for "full". `outflows` gives, for each pending debit, what went
/// out of the pod; where it could not be read we don't know, and nothing is reserved.
/// `None` where an amount is out of range.
fn pending_debit_reservations(
    budget: &Budget,
    outflows: &Vec<Option<i64>>,
    balances: &PodAmounts,
    today: Date,
    sched: &PaySchedule,
) -> (reserved: Option<PodAmounts>)
    requires
        budget_ready(budget@, today@, *sched),
        outflows@.len() == bills_at_risk(bills_of(budget@.categories), today@).len(),
    ensures
        match reserved {
            Some(held) => held@ == reservations(
                bills_at_risk(bills_of(budget@.categories), today@),
                outflows@,
                balances@,
                today@,
                *sched,
            ) && reservations_fit(
                bills_at_risk(bills_of(budget@.categories), today@),
                outflows@,
                balances@,
                today@,
                *sched,
            ),
            None => !reservations_fit(
                bills_at_risk(bills_of(budget@.categories), today@),
                outflows@,
                balances@,
                today@,
                *sched,
            ),
        },
{
    let bills = all_bills(budget);
    let ghost all = seen(bills@);
    let ghost risky = bills_at_risk(all, today@);
    let _ = today.number();
    let mut held = PodAmounts::new();
    let mut k: usize = 0;
    let mut i: usize = 0;
    while i < bills.len()
        invariant
            i <= bills@.len(),
            all == seen(bills@),
            all == bills_of(budget@.categories),
            risky == bills_at_risk(all, today@),
            budget_ready(budget@, today@, *sched),
            on_calendar(today@),
            outflows.len() == risky.len(),
            k == bills_at_risk(all.take(i as int), today@).len(),
            held@ == reservations(bills_at_risk(all.take(i as int), today@), outflows@, balances@, today@, *sched),
            reservations_fit(bills_at_risk(all.take(i as int), today@), outflows@, balances@, today@, *sched),
        decreases bills@.len() - i,
    {
        let bill = bills[i];
        let ghost before = bills_at_risk(all.take(i as int), today@);
        assert(all[i as int] == bill@);
        assert(all.take(i + 1).drop_last() == all.take(i as int));
        proof {
            lemma_every_bill_is_ready(budget@, today@, *sched, i as int);
            if let Some(d) = bill@.due_day {
                lemma_last_due_is_ready(d, today@, *sched);
            }
            lemma_risk_grows(all, today@, i + 1);
        }
        if at_risk_on(bill, today).is_some() {
            let ghost now = bills_at_risk(all.take(i + 1), today@);
            assert(now == before.push(bill@));
            assert(now.drop_last() == before);
            if let Some(gone) = outflows[k] {
                let current = balances.amount(bill.pod_id.as_str());
                let target = target_cents(bill, today, sched);
                let cents = reserved_wide(bill.amount_cents, gone, current, target);
                if cents > i64::MAX as i128 {
                    proof {
                        assert(risky[k as int] == now[k as int]);
                        assert(!fits(reservation(risky[k as int], gone as int, balances@, today@, *sched)));
                    }
                    return None;
                }
                if cents > 0 {
                    held.insert(bill.pod_id.clone(), cents as i64);
                }
            }
            assert forall|j: int| 0 <= j < now.len() implies (outflows@[j] matches Some(seen) ==> fits(
                reservation(#[trigger] now[j], seen as int, balances@, today@, *sched),
            )) by {
                if j < before.len() {
                    assert(now[j] == before[j]);
                }
            }
            k += 1;
        }
        i += 1;
    }
    assert(all.take(i as int) == all);
    Some(held)
}

proof fn lemma_risk_grows(bills: Seq<BillView>, today: int, n: int)
    requires
        0 <= n <= bills.len(),
    ensures
        bills_at_risk(bills.take(n), today).len() <= bills_at_risk(bills, today).len(),
        forall|j: int|
            0 <= j < bills_at_risk(bills.take(n), today).len() ==> #[trigger] bills_at_risk(bills.take(n), today)[j]
                == bills_at_risk(bills, today)[j],
    decreases bills.len() - n,
{
    if n < bills.len() {
        assert(bills.take(n + 1).drop_last() == bills.take(n));
        lemma_risk_grows(bills, today, n + 1);
        assert forall|j: int| 0 <= j < bills_at_risk(bills.take(n), today).len() implies #[trigger] bills_at_risk(
            bills.take(n),
            today,
        )[j] == bills_at_risk(bills, today)[j] by {
            assert(bills_at_risk(bills.take(n + 1), today)[j] == bills_at_risk(bills.take(n), today)[j]);
        }
    } else {
        assert(bills.take(n) == bills);
    }
}

// ---- Lines ----

pub open spec fn not_negative(cents: int) -> int {
    if cents < 0 {
        0
    } else {
        cents
    }
}

/// The amounts that a cycle's lines are drawn up from.
pub ghost struct Accounting {
    /// Real balances.
    pub balances: Map<Seq<char>, i64>,
    /// What landed in the contribution pods since the last payday.
    pub contributed: Map<Seq<char>, i64>,
    /// What is set aside for pending debits.
    pub reserved: Map<Seq<char>, i64>,
    pub transfers: Seq<PlannedTransferView>,
    pub today: int,
    pub sched: PaySchedule,
}

/// One bill's demand-vs-funded picture: have is the real balance; target and need
/// vary by kind.
pub open spec fn line_of(group: Seq<char>, bill: BillView, books: Accounting) -> BillLineView {
    let current = amount_of(books.balances, bill.pod_id) as int;
    let held = amount_of(books.reserved, bill.pod_id) as int;
    let (kind, target, need) = match bill.frequency {
        FrequencyView::Paycheck => (
            LineKind::Topup,
            bill.amount_cents,
            not_negative(bill.amount_cents - amount_of(books.contributed, bill.pod_id)),
        ),
        FrequencyView::Keep => (
            LineKind::Hold,
            bill.amount_cents,
            not_negative(bill.amount_cents - current),
        ),
        FrequencyView::Drawdown { target, period_months } => {
            let pace = on_track(bill.amount_cents, target, period_months, books.today, books.sched);
            (LineKind::Drawdown, pace, not_negative(pace - current))
        },
        _ => {
            let target = target_of(bill, books.today, books.sched);
            (LineKind::Sinking, target, not_negative(target - (current - held)))
        },
    };
    BillLineView {
        group,
        name: bill.name,
        pod_id: bill.pod_id,
        current,
        target,
        need,
        give: inflow(books.transfers, bill.pod_id),
        reserved: held,
        kind,
    }
}

pub open spec fn category_lines(category: CategoryView, books: Accounting) -> Seq<BillLineView> {
    Seq::new(category.bills.len(), |b: int| line_of(category.name, category.bills[b], books))
}

/// The lines of all bills, in order.
pub open spec fn lines_of(categories: Seq<CategoryView>, books: Accounting) -> Seq<BillLineView>
    decreases categories.len(),
{
    if categories.len() == 0 {
        Seq::empty()
    } else {
        lines_of(categories.drop_last(), books) + category_lines(categories.last(), books)
    }
}

/// What each line needs and is given fits in 64 bits.
pub open spec fn needs_fit(lines: Seq<BillLineView>) -> bool {
    forall|i: int| 0 <= i < lines.len() ==> fits((#[trigger] lines[i]).need) && fits(lines[i].give)
}

fn inflow_wide(transfers: &Vec<PlannedTransfer>, pod: &str) -> (cents: i128)
    ensures
        cents == inflow(views(transfers@), pod@),
{
    let ghost all = views(transfers@);
    let mut total: i128 = 0;
    let mut i: usize = 0;
    while i < transfers.len()
        invariant
            i <= transfers.len(),
            all == views(transfers@),
            total == inflow(all.take(i as int), pod@),
            -0x8000_0000_0000_0000 * i <= total <= 0x7fff_ffff_ffff_ffff * i,
        decreases transfers.len() - i,
    {
        assert(all.take(i + 1).drop_last() == all.take(i as int));
        assert(all[i as int] == transfers@[i as int]@);
        if same_text(transfers[i].to_pod.as_str(), pod) {
            total = total + transfers[i].amount_cents as i128;
        }
        i += 1;
    }
    assert(all.take(i as int) == all);
    total
}

fn lacking(target: i64, have: i128) -> (need: i128)
    requires
        -0x1_0000_0000_0000_0000 <= have <= 0x1_0000_0000_0000_0000,
    ensures
        need == not_negative(target - have),
{
    let need: i128 = target as i128 - have;
    if need < 0 {
        0
    } else {
        need
    }
}

/// One bill's line, none where an amount is out of range.
fn bill_line(
    group: &str,
    bill: &Bill,
    balances: &PodAmounts,
    contributed: &PodAmounts,
    reserved: &PodAmounts,
    transfers: &Vec<PlannedTransfer>,
    today: Date,
    sched: &PaySchedule,
    Ghost(books): Ghost<Accounting>,
) -> (line: Option<BillLine>)
    requires
        crate::allocator::bill_ready(bill@, today@, *sched),
        drawdown_fits(bill@, today@, *sched),
        books.balances == balances@,
        books.contributed == contributed@,
        books.reserved == reserved@,
        books.transfers == views(transfers@),
        books.today == today@,
        books.sched == *sched,
    ensures
        match line {
            Some(l) => l@ == line_of(group@, bill@, books),
            None => !fits(line_of(group@, bill@, books).need) || !fits(line_of(group@, bill@, books).give),
        },
{
    let pod = bill.pod_id.as_str();
    let current = balances.amount(pod);
    let held = reserved.amount(pod);
    let give = inflow_wide(transfers, pod);
    let (kind, target, need) = match &bill.frequency {
        Frequency::Paycheck => (
            LineKind::Topup,
            bill.amount_cents,
            lacking(bill.amount_cents, contributed.amount(pod) as i128),
        ),
        Frequency::Keep => (LineKind::Hold, bill.amount_cents, lacking(bill.amount_cents, current as i128)),
        Frequency::Drawdown { target, period_months } => {
            let pace = drawdown_on_track(bill.amount_cents, *target, *period_months, today, sched);
            (LineKind::Drawdown, pace, lacking(pace, current as i128))
        },
        _ => {
            let t = target_cents(bill, today, sched);
            (LineKind::Sinking, t, lacking(t, current as i128 - held as i128))
        },
    };
    if need > i64::MAX as i128 || give < i64::MIN as i128 || give > i64::MAX as i128 {
        return None;
    }
    Some(
        BillLine {
            group: group.to_owned(),
            name: bill.name.clone(),
            pod_id: bill.pod_id.clone(),
            current,
            target,
            need: need as i64,
            give: give as i64,
            reserved: held,
            kind,
        },
    )
}

proof fn lemma_lines_of_take(categories: Seq<CategoryView>, books: Accounting, c: int)
    requires
        0 <= c < categories.len(),
    ensures
        lines_of(categories.take(c + 1), books) == lines_of(categories.take(c), books) + category_lines(
            categories[c],
            books,
        ),
{
    assert(categories.take(c + 1).drop_last() == categories.take(c));
}

/// The line of a bill stands among the lines of all.
proof fn lemma_line_stands_among_all(categories: Seq<CategoryView>, books: Accounting, c: int, b: int)
    requires
        0 <= c < categories.len(),
        0 <= b < categories[c].bills.len(),
    ensures
        lines_of(categories, books).contains(line_of(categories[c].name, categories[c].bills[b], books)),
    decreases categories.len(),
{
    let all = lines_of(categories, books);
    let rest = lines_of(categories.drop_last(), books);
    let line = line_of(categories[c].name, categories[c].bills[b], books);
    if c == categories.len() - 1 {
        assert(all[rest.len() + b] == line);
    } else {
        lemma_line_stands_among_all(categories.drop_last(), books, c, b);
        let i = choose|i: int| 0 <= i < rest.len() && rest[i] == line;
        assert(all[i] == line);
    }
}

/// The lines of all bills, none where an amount is out of range.
fn bill_lines(
    budget: &Budget,
    balances: &PodAmounts,
    contributed: &PodAmounts,
    reserved: &PodAmounts,
    transfers: &Vec<PlannedTransfer>,
    today: Date,
    sched: &PaySchedule,
    Ghost(books): Ghost<Accounting>,
) -> (lines: Option<Vec<BillLine>>)
    requires
        budget_ready(budget@, today@, *sched),
        drawdowns_ready(bills_of(budget@.categories), today@, *sched),
        books.balances == balances@,
        books.contributed == contributed@,
        books.reserved == reserved@,
        books.transfers == views(transfers@),
        books.today == today@,
        books.sched == *sched,
    ensures
        match lines {
            Some(l) => views(l@) == lines_of(budget@.categories, books) && needs_fit(
                lines_of(budget@.categories, books),
            ),
            None => !needs_fit(lines_of(budget@.categories, books)),
        },
{
    let ghost all = budget@.categories;
    let mut lines: Vec<BillLine> = Vec::new();
    let mut c: usize = 0;
    assert(all.take(0) == Seq::<CategoryView>::empty());
    assert(views(lines@) == lines_of(all.take(0), books));
    while c < budget.categories.len()
        invariant
            c <= budget.categories@.len(),
            all == budget@.categories,
            budget_ready(budget@, today@, *sched),
            drawdowns_ready(bills_of(all), today@, *sched),
            books.balances == balances@,
            books.contributed == contributed@,
            books.reserved == reserved@,
            books.transfers == views(transfers@),
            books.today == today@,
            books.sched == *sched,
            views(lines@) == lines_of(all.take(c as int), books),
        decreases budget.categories@.len() - c,
    {
        let category = &budget.categories[c];
        assert(all[c as int] == category@);
        let ghost before = views(lines@);
        let ghost own = category_lines(category@, books);
        let mut b: usize = 0;
        assert(before + own.take(0) == before);
        while b < category.bills.len()
            invariant
                b <= category.bills@.len(),
                c < budget.categories@.len(),
                all == budget@.categories,
                all[c as int] == category@,
                own == category_lines(category@, books),
                budget_ready(budget@, today@, *sched),
                drawdowns_ready(bills_of(all), today@, *sched),
                books.balances == balances@,
                books.contributed == contributed@,
                books.reserved == reserved@,
                books.transfers == views(transfers@),
                books.today == today@,
                books.sched == *sched,
                views(lines@) == before + own.take(b as int),
            decreases category.bills@.len() - b,
        {
            let bill = &category.bills[b];
            assert(all[c as int].bills[b as int] == bill@);
            proof {
                lemma_category_bill_is_a_bill(all, c as int, b as int);
                let i = choose|i: int| 0 <= i < bills_of(all).len() && bills_of(all)[i] == bill@;
                assert(bills_of(all)[i].frequency == bill@.frequency);
            }
            match bill_line(
                category.name.as_str(),
                bill,
                balances,
                contributed,
                reserved,
                transfers,
                today,
                sched,
                Ghost(books),
            ) {
                Some(line) => {
                    let ghost held = lines@;
                    lines.push(line);
                    assert(views(lines@) == views(held).push(line@));
                    assert(own.take(b + 1) == own.take(b as int).push(own[b as int]));
                    assert(views(lines@) == before + own.take(b + 1));
                },
                None => {
                    proof {
                        lemma_line_stands_among_all(all, books, c as int, b as int);
                        let line = line_of(category@.name, bill@, books);
                        let i = choose|i: int| 0 <= i < lines_of(all, books).len() && lines_of(all, books)[i] == line;
                        assert(!fits(lines_of(all, books)[i].need) || !fits(lines_of(all, books)[i].give));
                    }
                    return None;
                },
            }
            b += 1;
        }
        proof {
            lemma_lines_of_take(all, books, c as int);
            assert(own.take(b as int) == own);
        }
        c += 1;
    }
    assert(all.take(c as int) == all);
    assert forall|i: int| 0 <= i < lines_of(all, books).len() implies fits((#[trigger] lines_of(all, books)[i]).need)
        && fits(lines_of(all, books)[i].give) by {
        assert(views(lines@)[i] == lines@[i]@);
    }
    Some(lines)
}

proof fn lemma_category_bill_is_a_bill(categories: Seq<CategoryView>, c: int, b: int)
    requires
        0 <= c < categories.len(),
        0 <= b < categories[c].bills.len(),
    ensures
        bills_of(categories).contains(categories[c].bills[b]),
    decreases categories.len(),
{
    let all = bills_of(categories);
    let rest = bills_of(categories.drop_last());
    if c == categories.len() - 1 {
        assert(all[rest.len() + b] == categories[c].bills[b]);
    } else {
        lemma_category_bill_is_a_bill(categories.drop_last(), c, b);
        let i = choose|i: int| 0 <= i < rest.len() && rest[i] == categories[c].bills[b];
        assert(all[i] == rest[i]);
    }
}

// ---- The assessment ----

/// What was read of the API for a cycle.
pub struct Readings {
    pub accounts: Vec<AccountSummary>,
    /// The balance of each pod.
    pub balances: PodAmounts,
    /// The rules, or why they could not be read.
    pub rules: Result<Vec<Rule>, String>,
    /// What landed in each contribution pod since the start of the pay period.
    pub contributed: PodAmounts,
    /// What went out of the pod of each pending debit, where it could be read.
    pub outflows: Vec<Option<i64>>,
}

/// A date or an amount of the cycle is out of range.
#[derive(Debug, Clone, Copy, PartialEq, Eq, Structural)]
pub struct OutOfRange;

/// The balances with the pretend paycheck in the pool.
pub open spec fn with_deposit(balances: Map<Seq<char>, i64>, pool: Seq<char>, deposit: i64) -> Map<Seq<char>, i64> {
    if deposit != 0 {
        balances.insert(pool, (amount_of(balances, pool) + deposit) as i64)
    } else {
        balances
    }
}

/// The balances to fund against: contribution pods at what has landed this pay
/// period, and pending debits set aside.
pub open spec fn funding_of(
    balances: Map<Seq<char>, i64>,
    contributed: Map<Seq<char>, i64>,
    reserved: Map<Seq<char>, i64>,
) -> Map<Seq<char>, i64> {
    after_reserving(balances.union_prefer_right(contributed), reserved)
}

/// The books of a cycle.
pub open spec fn books_of(
    sim: SimInput,
    now: int,
    sched: PaySchedule,
    strategy: FundingStrategy,
    budget: BudgetView,
    read: Readings,
) -> Accounting {
    let today = sim.day(now);
    let balances = with_deposit(read.balances@, budget.pool_pod_id, sim.deposit_cents);
    let reserved = if sim.is_simulation() {
        Map::empty()
    } else {
        reservations(bills_at_risk(bills_of(budget.categories), today), read.outflows@, balances, today, sched)
    };
    Accounting {
        balances,
        contributed: read.contributed@,
        reserved,
        transfers: planned(
            budget,
            funding_of(balances, read.contributed@, reserved),
            today,
            sched,
            strategy,
        ),
        today,
        sched,
    }
}

/// The warnings of a cycle: those of the assembly, and where names, rules and money
/// disagree. A simulation does not look for drift.
pub open spec fn warnings_of(sim: SimInput, assembly: Seq<Seq<char>>, read: Readings) -> Seq<Seq<char>> {
    if sim.is_simulation() {
        assembly
    } else {
        match read.rules {
            Ok(rules) => assembly + drifts(read.accounts@, rule_flows(rules@)),
            Err(e) => assembly.push("rules unreadable — config drift not checked ("@ + e@ + ")"@),
        }
    }
}

/// The report of a cycle before anything is executed.
pub open spec fn assessment(
    sim: SimInput,
    now: int,
    sched: PaySchedule,
    strategy: FundingStrategy,
    assembly: AssembledView,
    read: Readings,
) -> ReportView {
    let books = books_of(sim, now, sched, strategy, assembly.budget, read);
    ReportView {
        today: books.today,
        pool_pod_id: assembly.budget.pool_pod_id,
        pool_balance: amount_of(books.balances, assembly.budget.pool_pod_id) as int,
        transfers: books.transfers,
        lines: lines_of(assembly.budget.categories, books),
        not_funded: assembly.not_funded,
        migrate: assembly.migrate,
        ignored: assembly.ignored,
        notes: notes_on(bills_of(assembly.budget.categories), read.balances@, books.today, sched),
        warnings: warnings_of(sim, assembly.warnings, read),
        executed: false,
        names: names_of(read.accounts@),
    }
}

/// Every date and every amount of the cycle can be represented.
pub open spec fn in_range(
    sim: SimInput,
    now: int,
    sched: PaySchedule,
    strategy: FundingStrategy,
    budget: BudgetView,
    read: Readings,
) -> bool {
    let books = books_of(sim, now, sched, strategy, budget, read);
    &&& budget_ready(budget, sim.day(now), sched)
    &&& drawdowns_ready(bills_of(budget.categories), sim.day(now), sched)
    &&& fits(amount_of(read.balances@, budget.pool_pod_id) + sim.deposit_cents)
    &&& !sim.is_simulation() ==> reservations_fit(
        bills_at_risk(bills_of(budget.categories), sim.day(now)),
        read.outflows@,
        books.balances,
        sim.day(now),
        sched,
    )
    &&& !sim.is_simulation() && read.rules is Ok ==> drift_names_fit(read.accounts@)
    &&& needs_fit(lines_of(budget.categories, books))
}

proof fn lemma_reservations_are_positive(
    bills: Seq<BillView>,
    outflows: Seq<Option<i64>>,
    balances: Map<Seq<char>, i64>,
    today: int,
    sched: PaySchedule,
)
    requires
        reservations_fit(bills, outflows, balances, today, sched),
    ensures
        forall|pod: Seq<char>|
            reservations(bills, outflows, balances, today, sched).dom().contains(pod) ==> 0 < #[trigger] reservations(
                bills,
                outflows,
                balances,
                today,
                sched,
            )[pod],
    decreases bills.len(),
{
    if bills.len() > 0 {
        let rest = bills.drop_last();
        assert forall|i: int| 0 <= i < rest.len() implies (outflows[i] matches Some(seen) ==> fits(
            reservation(#[trigger] rest[i], seen as int, balances, today, sched),
        )) by {
            assert(rest[i] == bills[i]);
        }
        lemma_reservations_are_positive(rest, outflows, balances, today, sched);
        let all = reservations(bills, outflows, balances, today, sched);
        let old = reservations(rest, outflows, balances, today, sched);
        if let Some(seen) = outflows[bills.len() - 1] {
            assert(fits(reservation(bills[bills.len() - 1], seen as int, balances, today, sched)));
        }
        assert forall|pod: Seq<char>| all.dom().contains(pod) implies 0 < #[trigger] all[pod] by {
            if old.dom().contains(pod) {
                assert(0 < old[pod]);
            }
        }
    }
}

fn append_texts(list: &mut Vec<String>, more: Vec<String>)
    ensures
        texts(final(list)@) == texts(old(list)@) + texts(more@),
{
    let ghost before = texts(list@);
    let ghost all = texts(more@);
    let mut i: usize = 0;
    assert(before + all.take(0) == before);
    while i < more.len()
        invariant
            i <= more@.len(),
            all == texts(more@),
            texts(list@) == before + all.take(i as int),
        decreases more@.len() - i,
    {
        let ghost held = list@;
        list.push(more[i].clone());
        assert(texts(list@) == texts(held).push(all[i as int]));
        i += 1;
        assert(texts(list@) == before + all.take(i as int));
    }
    assert(all.take(i as int) == all);
}

/// The warnings of a cycle, none where a pod's name is out of range.
fn cycle_warnings(sim: SimInput, assembly: Vec<String>, read: &Readings) -> (warnings: Option<Vec<String>>)
    ensures
        match warnings {
            Some(w) => texts(w@) == warnings_of(sim, texts(assembly@), *read) && (!sim.is_simulation() && read.rules is Ok
                ==> drift_names_fit(read.accounts@)),
            None => !sim.is_simulation() && read.rules is Ok && !drift_names_fit(read.accounts@),
        },
{
    let ghost first = texts(assembly@);
    let mut warnings = assembly;
    if sim.is_sim() {
        return Some(warnings);
    }
    // Config drift: the engine reads names, rules, and money every cycle — it
    // notices when they disagree instead of waiting for a human to cross-check.
    // (Every class of drift here has caused a real bounce.) A failed rules read
    // degrades to a warning; funding still runs on the declared model.
    match &read.rules {
        Ok(rules) => {
            if !drift_names_in_range(&read.accounts) {
                return None;
            }
            let flows = flows_from_rules(rules.as_slice());
            append_texts(&mut warnings, drift_warnings(&read.accounts, flows.as_slice()));
        },
        Err(e) => {
            let mut text = "rules unreadable — config drift not checked (".to_owned();
            text.append(e.as_str());
            text.append(")");
            warnings.push(text);
            assert(texts(warnings@) == first.push(text@));
        },
    }
    Some(warnings)
}

/// Read-only assessment of a cycle, from what was read of the API: balances,
/// targets, plan, lines — nothing moved. With a default `SimInput` it is the
/// assessment of the day; `sim` can pretend another date and a deposit.
pub fn assess_with(
    sim: SimInput,
    now: Date,
    sched: &PaySchedule,
    strategy: FundingStrategy,
    assembly: Assembled,
    read: Readings,
) -> (report: Result<Report, OutOfRange>)
    requires
        !sim.is_simulation() ==> read.outflows@.len() == bills_at_risk(
            bills_of(assembly@.budget.categories),
            sim.day(now@),
        ).len(),
    ensures
        match report {
            Ok(r) => in_range(sim, now@, *sched, strategy, assembly@.budget, read) && r@ == assessment(
                sim,
                now@,
                *sched,
                strategy,
                assembly@,
                read,
            ),
            Err(_) => !in_range(sim, now@, *sched, strategy, assembly@.budget, read),
        },
{
    let ghost view = assembly@;
    let ghost books = books_of(sim, now@, *sched, strategy, assembly@.budget, read);
    let today = sim.planning_day(now);
    if !budget_is_ready(&assembly.budget, today, sched) {
        return Err(OutOfRange);
    }
    let bills = all_bills(&assembly.budget);
    if !drawdowns_are_ready(&bills, today, sched) {
        return Err(OutOfRange);
    }
    let pool = assembly.budget.pool_pod_id.as_str();
    let deposited: i128 = read.balances.amount(pool) as i128 + sim.deposit_cents as i128;
    if deposited < i64::MIN as i128 || deposited > i64::MAX as i128 {
        return Err(OutOfRange);
    }
    // Drawdown notes: how far behind pace each drawdown pod is — never auto-catches-up
    let notes = drawdown_notes(&bills, &read.balances, today, sched);

    // sim: inject the pretend paycheck into the pool (shown + planned against)
    let mut balances = read.balances.copy();
    if sim.deposit_cents != 0 {
        balances.insert(assembly.budget.pool_pod_id.clone(), deposited as i64);
    }
    assert(balances@ == books.balances);

    // A simulation skips the reservation — see `SimInput::is_sim`.
    let reserved = if sim.is_sim() {
        PodAmounts::new()
    } else {
        match pending_debit_reservations(&assembly.budget, &read.outflows, &balances, today, sched) {
            Some(reserved) => reserved,
            None => {
                return Err(OutOfRange);
            },
        }
    };
    proof {
        assert(reserved@ == books.reserved);
        if !sim.is_simulation() {
            lemma_reservations_are_positive(
                bills_at_risk(bills_of(view.budget.categories), today@),
                read.outflows@,
                balances@,
                today@,
                *sched,
            );
        }
    }

    // funding map: real balances, contribution pods swapped to their ledger value,
    // and any uncleared scheduled debit reserved out (so the plan funds to cover it).
    let mut ledger = balances.copy();
    ledger.merge(&read.contributed);
    let funding = ledger.reserving(&reserved);
    let transfers = plan(&assembly.budget, &funding, today, sched, strategy);

    let lines = match bill_lines(
        &assembly.budget,
        &balances,
        &read.contributed,
        &reserved,
        &transfers,
        today,
        sched,
        Ghost(books),
    ) {
        Some(lines) => lines,
        None => {
            return Err(OutOfRange);
        },
    };
    let pool_balance = balances.amount(pool);
    let warnings = match cycle_warnings(sim, assembly.warnings, &read) {
        Some(warnings) => warnings,
        None => {
            return Err(OutOfRange);
        },
    };
    let names = account_names(&read.accounts);
    Ok(
        Report {
            today,
            pool_pod_id: assembly.budget.pool_pod_id,
            pool_balance,
            transfers,
            lines,
            not_funded: assembly.not_funded,
            migrate: assembly.migrate,
            ignored: assembly.ignored,
            notes,
            warnings,
            executed: false,
            names,
        },
    )
}

/// Read-only assessment of the day.
pub fn assess(
    now: Date,
    sched: &PaySchedule,
    strategy: FundingStrategy,
    assembly: Assembled,
    read: Readings,
) -> (report: Result<Report, OutOfRange>)
    requires
        read.outflows@.len() == bills_at_risk(bills_of(assembly@.budget.categories), now@).len(),
    ensures
        ({
            let sim = SimInput { today: None, deposit_cents: 0 };
            match report {
                Ok(r) => in_range(sim, now@, *sched, strategy, assembly@.budget, read) && r@ == assessment(
                    sim,
                    now@,
                    *sched,
                    strategy,
                    assembly@,
                    read,
                ),
                Err(_) => !in_range(sim, now@, *sched, strategy, assembly@.budget, read),
            }
        }),
{
    assess_with(SimInput::default(), now, sched, strategy, assembly, read)
}

// ---- Laws ----

/// A simulation holds nothing back, looks for no drift and, like any assessment,
/// has moved nothing.
pub proof fn lemma_simulation_only_asks_what_if(
    sim: SimInput,
    now: int,
    sched: PaySchedule,
    strategy: FundingStrategy,
    assembly: AssembledView,
    read: Readings,
)
    ensures
        !assessment(sim, now, sched, strategy, assembly, read).executed,
        sim.is_simulation() ==> books_of(sim, now, sched, strategy, assembly.budget, read).reserved == Map::<
            Seq<char>,
            i64,
        >::empty(),
        sim.is_simulation() ==> assessment(sim, now, sched, strategy, assembly, read).warnings == assembly.warnings,
        sim.deposit_cents == 0 ==> books_of(sim, now, sched, strategy, assembly.budget, read).balances
            == read.balances@,
{
}

/// The plan never takes more out of the pool than its balance, and nothing where it
/// is overdrawn. (The pool is not itself a pod that contributions are read of.)
pub proof fn lemma_cycle_never_overdraws_the_pool(
    sim: SimInput,
    now: int,
    sched: PaySchedule,
    strategy: FundingStrategy,
    assembly: AssembledView,
    read: Readings,
)
    requires
        !sim.is_simulation() ==> reservations_fit(
            bills_at_risk(bills_of(assembly.budget.categories), sim.day(now)),
            read.outflows@,
            books_of(sim, now, sched, strategy, assembly.budget, read).balances,
            sim.day(now),
            sched,
        ),
        !read.contributed@.dom().contains(assembly.budget.pool_pod_id),
    ensures
        outflow(
            assessment(sim, now, sched, strategy, assembly, read).transfers,
            assembly.budget.pool_pod_id,
        ) <= to_give(assessment(sim, now, sched, strategy, assembly, read).pool_balance),
{
    let pool = assembly.budget.pool_pod_id;
    let books = books_of(sim, now, sched, strategy, assembly.budget, read);
    let funding = funding_of(books.balances, books.contributed, books.reserved);
    if !sim.is_simulation() {
        lemma_reservations_are_positive(
            bills_at_risk(bills_of(assembly.budget.categories), books.today),
            read.outflows@,
            books.balances,
            books.today,
            sched,
        );
    }
    assert(amount_of(funding, pool) <= to_give(amount_of(books.balances, pool) as int));
    lemma_plan_never_overdraws(assembly.budget, funding, books.today, sched, strategy);
}

/// A top-up that has had its amount this pay period is not funded again, whatever
/// the strategy.
pub proof fn lemma_met_top_up_is_not_funded_again(bill: BillView, books: Accounting, strategy: FundingStrategy)
    requires
        bill.frequency is Paycheck,
        bill.amount_cents >= 0,
        books.contributed.dom().contains(bill.pod_id),
        !books.reserved.dom().contains(bill.pod_id),
        books.contributed[bill.pod_id] >= bill.amount_cents,
    ensures
        want(
            item_of(bill, funding_of(books.balances, books.contributed, books.reserved), books.today, books.sched),
            strategy,
        ) == 0,
{
    lemma_target_is_within_the_amount(bill, books.today, books.sched);
}

/// Where no bill has a negative amount, no pod has more set aside than it holds.
pub proof fn lemma_reservations_are_held(
    bills: Seq<BillView>,
    outflows: Seq<Option<i64>>,
    balances: Map<Seq<char>, i64>,
    today: int,
    sched: PaySchedule,
    pod: Seq<char>,
)
    requires
        reservations_fit(bills, outflows, balances, today, sched),
        forall|i: int| 0 <= i < bills.len() ==> (#[trigger] bills[i]).amount_cents >= 0,
        reservations(bills, outflows, balances, today, sched).dom().contains(pod),
    ensures
        0 < reservations(bills, outflows, balances, today, sched)[pod] <= amount_of(balances, pod),
    decreases bills.len(),
{
    let rest = bills.drop_last();
    let bill = bills.last();
    let old = reservations(rest, outflows, balances, today, sched);
    assert forall|i: int| 0 <= i < rest.len() implies (outflows[i] matches Some(seen) ==> fits(
        reservation(#[trigger] rest[i], seen as int, balances, today, sched),
    )) by {
        assert(rest[i] == bills[i]);
    }
    assert(bills[bills.len() - 1] == bill);
    lemma_target_is_within_the_amount(bill, today, sched);
    if bill.pod_id != pod || !(outflows[bills.len() - 1] is Some) || reservation(
        bill,
        outflows[bills.len() - 1]->0 as int,
        balances,
        today,
        sched,
    ) <= 0 {
        lemma_reservations_are_held(rest, outflows, balances, today, sched, pod);
    }
}

proof fn lemma_risks_are_bills(bills: Seq<BillView>, today: int)
    requires
        forall|i: int| 0 <= i < bills.len() ==> (#[trigger] bills[i]).amount_cents >= 0,
    ensures
        forall|i: int|
            0 <= i < bills_at_risk(bills, today).len() ==> (#[trigger] bills_at_risk(bills, today)[i]).amount_cents >= 0,
    decreases bills.len(),
{
    if bills.len() > 0 {
        assert(bills[bills.len() - 1].amount_cents >= 0);
        assert forall|i: int| 0 <= i < bills.drop_last().len() implies (
        #[trigger] bills.drop_last()[i]).amount_cents >= 0 by {
            assert(bills.drop_last()[i] == bills[i]);
        }
        lemma_risks_are_bills(bills.drop_last(), today);
    }
}

/// What a line says a bill needs is what a plan to pace funds it by: for a sinking
/// fund the pace with any pending debit set aside, for a top-up what has not landed
/// this pay period, for a kept level what it is short of. (A drawdown's line shows
/// the pace, and the plan funds its constant slice; a top-up or a kept level has no
/// due day and so nothing set aside; contributions are read of top-ups alone.)
pub proof fn lemma_plan_funds_what_the_line_needs(
    sim: SimInput,
    now: int,
    sched: PaySchedule,
    strategy: FundingStrategy,
    budget: BudgetView,
    read: Readings,
    group: Seq<char>,
    bill: BillView,
)
    requires
        !sim.is_simulation() ==> reservations_fit(
            bills_at_risk(bills_of(budget.categories), sim.day(now)),
            read.outflows@,
            books_of(sim, now, sched, strategy, budget, read).balances,
            sim.day(now),
            sched,
        ),
        forall|i: int|
            0 <= i < bills_of(budget.categories).len() ==> (#[trigger] bills_of(budget.categories)[i]).amount_cents >= 0,
        strategy != FundingStrategy::StrictEnvelope,
        !(bill.frequency is Drawdown),
        bill.frequency is Paycheck == read.contributed@.dom().contains(bill.pod_id),
        bill.frequency is Paycheck || bill.frequency is Keep ==> bill.due_day is None && !books_of(
            sim,
            now,
            sched,
            strategy,
            budget,
            read,
        ).reserved.dom().contains(bill.pod_id),
    ensures
        ({
            let books = books_of(sim, now, sched, strategy, budget, read);
            let funding = funding_of(books.balances, books.contributed, books.reserved);
            want(item_of(bill, funding, books.today, sched), strategy) == line_of(group, bill, books).need
        }),
{
    let books = books_of(sim, now, sched, strategy, budget, read);
    let all = bills_of(budget.categories);
    if books.reserved.dom().contains(bill.pod_id) {
        lemma_risks_are_bills(all, books.today);
        lemma_reservations_are_held(
            bills_at_risk(all, books.today),
            read.outflows@,
            books.balances,
            books.today,
            sched,
            bill.pod_id,
        );
    }
}

/// An outflow that could not be read sets nothing aside.
pub proof fn lemma_unread_outflow_reserves_nothing(
    bills: Seq<BillView>,
    balances: Map<Seq<char>, i64>,
    today: int,
    sched: PaySchedule,
    outflows: Seq<Option<i64>>,
)
    requires
        forall|i: int| 0 <= i < bills.len() ==> #[trigger] outflows[i] is None,
    ensures
        reservations(bills, outflows, balances, today, sched) == Map::<Seq<char>, i64>::empty(),
    decreases bills.len(),
{
    if bills.len() > 0 {
        assert(outflows[bills.len() - 1] is None);
        lemma_unread_outflow_reserves_nothing(bills.drop_last(), balances, today, sched, outflows);
    }
}

/// The pay period started on the last payday: a paycheck landed on its first day, and
/// none between it and today. Without a payday in the last forty days it starts today.
pub proof fn lemma_the_period_starts_on_the_last_payday(sched: PaySchedule, today: int)
    ensures
        ({
            let start = period_start_of(sched, today);
            &&& forall|n: int| start < n <= today ==> #[trigger] sched.paid_on(n) == 0
            &&& sched.paid_on(start) == 0 ==> start == today && forall|n: int|
                today - 40 <= n <= today ==> #[trigger] sched.paid_on(n) == 0
        }),
{
    broadcast use vstd::seq_lib::group_to_multiset_ensures;

    let recent = sched.paydays(today - 40, today);
    let start = period_start_of(sched, today);
    sched.lemma_paydays_are_workdays_in_range(today - 40, today);
    assert forall|n: int| today - 40 <= n <= today && #[trigger] sched.paid_on(n) > 0 implies n <= start && recent.len()
        > 0 by {
        sched.lemma_every_payday_is_counted(today - 40, today, n);
        assert(recent.contains(n));
        let i = choose|i: int| 0 <= i < recent.len() && recent[i] == n;
        assert(recent[i] <= recent[recent.len() - 1]);
    }
    if recent.len() > 0 {
        sched.lemma_every_payday_is_counted(today - 40, today, start);
        assert(recent.contains(start)) by {
            assert(recent[recent.len() - 1] == start);
        }
    }
    assert forall|n: int| start < n <= today implies #[trigger] sched.paid_on(n) == 0 by {
        lemma_period_starts_by_today(sched, today);
    }
}

/// What landed in a pod is added up transfer by transfer: settled money whose
/// destination is the pod, on a readable day that is not before the start.
pub proof fn lemma_contributions_add_up(a: Seq<Transfer>, b: Seq<Transfer>, pod: Seq<char>, since: int)
    ensures
        contributions(a + b, pod, since) == contributions(a, pod, since) + contributions(b, pod, since),
        a.len() == 0 ==> contributions(a, pod, since) == 0,
        a.len() == 1 ==> contributions(a, pod, since) == if a[0].status is Complete && (a[0].destination matches Some(d)
            && d.id matches Some(id) && id@ == pod) && (leading_date(a[0].created_at@) matches Some(day) && since <= day) {
            a[0].amount_in_cents as int
        } else {
            0
        },
    decreases b.len(),
{
    reveal_with_fuel(contributions, 2);
    if b.len() == 0 {
        assert(a + b == a);
    } else {
        assert((a + b).drop_last() == a + b.drop_last());
        lemma_contributions_add_up(a, b.drop_last(), pod, since);
    }
}

/// The pods to read are all accounts of that type, in order and one by one.
pub proof fn lemma_pods_are_picked_one_by_one(a: Seq<AccountSummary>, b: Seq<AccountSummary>)
    ensures
        pod_ids_of(a + b) == pod_ids_of(a) + pod_ids_of(b),
        a.len() == 0 ==> pod_ids_of(a).len() == 0,
        a.len() == 1 ==> pod_ids_of(a) == if a[0].account_type is Pod {
            seq![a[0].id@]
        } else {
            Seq::empty()
        },
    decreases b.len(),
{
    reveal_with_fuel(pod_ids_of, 2);
    if b.len() == 0 {
        assert(a + b == a);
    } else {
        assert((a + b).drop_last() == a + b.drop_last());
        lemma_pods_are_picked_one_by_one(a, b.drop_last());
    }
}

/// Every account is known by its name; of two accounts with one id by the later one's.
pub proof fn lemma_accounts_are_known_by_name(accounts: Seq<AccountSummary>, i: int)
    requires
        0 <= i < accounts.len(),
        forall|j: int| i < j < accounts.len() ==> (#[trigger] accounts[j]).id@ != accounts[i].id@,
    ensures
        names_of(accounts).dom().contains(accounts[i].id@),
        names_of(accounts)[accounts[i].id@] == accounts[i].name@,
    decreases accounts.len(),
{
    let last = accounts.len() - 1;
    if i < last {
        assert(accounts[last].id@ != accounts[i].id@);
        lemma_accounts_are_known_by_name(accounts.drop_last(), i);
    }
}

/// Contributions are read of the top-ups and the drawdowns, in order and one by one.
pub proof fn lemma_contribution_pods_are_picked_one_by_one(a: Seq<BillView>, b: Seq<BillView>)
    ensures
        contribution_pods_of(a + b) == contribution_pods_of(a) + contribution_pods_of(b),
        a.len() == 0 ==> contribution_pods_of(a).len() == 0,
        a.len() == 1 ==> contribution_pods_of(a) == if a[0].frequency is Paycheck || a[0].frequency is Drawdown {
            seq![a[0].pod_id]
        } else {
            Seq::empty()
        },
    decreases b.len(),
{
    reveal_with_fuel(contribution_pods_of, 2);
    if b.len() == 0 {
        assert(a + b == a);
    } else {
        assert((a + b).drop_last() == a + b.drop_last());
        lemma_contribution_pods_are_picked_one_by_one(a, b.drop_last());
    }
}

/// Notes are made bill by bill: only on drawdowns, and on those whose pod even this
/// paycheck's slice does not bring back on pace.
pub proof fn lemma_notes_are_made_bill_by_bill(
    a: Seq<BillView>,
    b: Seq<BillView>,
    balances: Map<Seq<char>, i64>,
    today: int,
    sched: PaySchedule,
)
    ensures
        notes_on(a + b, balances, today, sched) == notes_on(a, balances, today, sched) + notes_on(
            b,
            balances,
            today,
            sched,
        ),
        a.len() == 0 ==> notes_on(a, balances, today, sched).len() == 0,
        a.len() == 1 ==> (notes_on(a, balances, today, sched).len() == 1 <==> match a[0].frequency {
            FrequencyView::Drawdown { target, period_months } => amount_of(balances, a[0].pod_id) + slice(
                a[0].amount_cents,
                target,
                period_months,
                today,
                sched,
            ) < on_track(a[0].amount_cents, target, period_months, today, sched),
            _ => false,
        }),
        a.len() == 1 ==> notes_on(a, balances, today, sched).len() <= 1,
        a.len() == 1 && notes_on(a, balances, today, sched).len() == 1 ==> {
            let (target, months) = (a[0].frequency->target, a[0].frequency->period_months);
            let saved = amount_of(balances, a[0].pod_id) as int;
            notes_on(a, balances, today, sched)[0] == a[0].name + ": "@ + dollars_text(saved) + " saved toward "@
                + dollars_text(a[0].amount_cents) + " by "@ + date_text(target as i32) + " — ~"@ + dollars_text(
                on_track(a[0].amount_cents, target, months, today, sched) - saved,
            ) + " behind pace (top up to catch up, optional)"@
        },
    decreases b.len(),
{
    reveal_with_fuel(notes_on, 2);
    if b.len() == 0 {
        assert(a + b == a);
    } else {
        assert((a + b).drop_last() == a + b.drop_last());
        lemma_notes_are_made_bill_by_bill(a, b.drop_last(), balances, today, sched);
    }
}

/// A day is read from its first instant on.
pub proof fn lemma_days_start_at_midnight(day: int)
    requires
        0 <= year_of(day) <= 9999,
        i32::MIN <= day <= i32::MAX,
    ensures
        leading_date(day_start_text(day)) == Some(day as i32),
        day_start_text(day) == date_text(day as i32) + "T00:00:00Z"@,
{
    lemma_timestamps_fall_on_their_day(day as i32, "T00:00:00Z"@);
}

/// A debit may be pending where the bill was due today or in the seven days before.
pub proof fn lemma_debits_pend_for_a_week(bill: BillView, due_day: int, today: int)
    requires
        bill.due_day == Some(due_day),
        1 <= due_day,
    ensures
        is_at_risk(bill, today) <==> exists|n: int| today - 7 <= n <= today && #[trigger] is_due(due_day, n),
        is_at_risk(bill, today) ==> exists|n: int|
            today - 7 <= n <= today && #[trigger] is_due(due_day, n) && debit_of(bill, today) == (
                bill.pod_id,
                day_start_text(n - 12),
            ) && forall|m: int| n < m <= today ==> !#[trigger] is_due(due_day, m),
{
    let last = last_due(due_day, today);
    lemma_last_due_is_latest(due_day, today, today);
    assert(is_due(due_day, last));
    assert forall|m: int| last < m <= today implies !#[trigger] is_due(due_day, m) by {
        lemma_last_due_is_latest(due_day, today, m);
    }
    if exists|n: int| today - 7 <= n <= today && #[trigger] is_due(due_day, n) {
        let n = choose|n: int| today - 7 <= n <= today && #[trigger] is_due(due_day, n);
        lemma_last_due_is_latest(due_day, today, n);
    }
}

/// The debits to look for are those of all bills that may have one pending, in order
/// and one by one; a bill without a due day has none.
pub proof fn lemma_debits_are_looked_for_bill_by_bill(a: Seq<BillView>, b: Seq<BillView>, today: int)
    ensures
        bills_at_risk(a + b, today) == bills_at_risk(a, today) + bills_at_risk(b, today),
        a.len() == 0 ==> bills_at_risk(a, today).len() == 0,
        a.len() == 1 ==> bills_at_risk(a, today) == if is_at_risk(a[0], today) {
            a
        } else {
            Seq::empty()
        },
        a.len() == 1 && a[0].due_day is None ==> bills_at_risk(a, today).len() == 0,
    decreases b.len(),
{
    reveal_with_fuel(bills_at_risk, 2);
    if a.len() == 1 {
        assert(a.drop_last().push(a[0]) == a);
        assert(bills_at_risk(a.drop_last(), today) == Seq::<BillView>::empty());
        assert(Seq::<BillView>::empty().push(a[0]) == a);
    }
    if b.len() == 0 {
        assert(a + b == a);
    } else {
        assert((a + b).drop_last() == a + b.drop_last());
        lemma_debits_are_looked_for_bill_by_bill(a, b.drop_last(), today);
    }
}

/// Where every bill has a pod of its own, what is set aside in a pod is what its bill's
/// uncleared debit calls for, given what was seen going out, the pod's balance and what
/// the bill should hold; and only where that is something and the outflow was read.
pub proof fn lemma_each_bill_sets_aside_its_own(
    bills: Seq<BillView>,
    outflows: Seq<Option<i64>>,
    balances: Map<Seq<char>, i64>,
    today: int,
    sched: PaySchedule,
    i: int,
)
    requires
        0 <= i < bills.len(),
        forall|a: int, b: int| 0 <= a < b < bills.len() ==> (#[trigger] bills[a]).pod_id != (#[trigger] bills[b]).pod_id,
        reservations_fit(bills, outflows, balances, today, sched),
    ensures
        ({
            let held = reservations(bills, outflows, balances, today, sched);
            let pod = bills[i].pod_id;
            match outflows[i] {
                Some(gone) => {
                    let due = reserved(
                        bills[i].amount_cents,
                        gone as int,
                        amount_of(balances, pod) as int,
                        target_of(bills[i], today, sched),
                    );
                    amount_of(held, pod) == if due > 0 {
                        due
                    } else {
                        0
                    }
                },
                None => amount_of(held, pod) == 0,
            }
        }),
    decreases bills.len(),
{
    let rest = bills.drop_last();
    let last = bills.len() - 1;
    let pod = bills[i].pod_id;
    assert forall|k: int| 0 <= k < rest.len() implies (outflows[k] matches Some(seen) ==> fits(
        reservation(#[trigger] rest[k], seen as int, balances, today, sched),
    )) by {
        assert(rest[k] == bills[k]);
    }
    assert forall|a: int, b: int| 0 <= a < b < rest.len() implies (#[trigger] rest[a]).pod_id != (
    #[trigger] rest[b]).pod_id by {
        assert(bills[a].pod_id != bills[b].pod_id);
    }
    if i < last {
        lemma_each_bill_sets_aside_its_own(rest, outflows, balances, today, sched, i);
        assert(bills[i].pod_id != bills[last].pod_id);
    } else {
        lemma_only_pods_of_bills(rest, outflows, balances, today, sched, pod);
        if outflows[last] is Some {
            assert(fits(reservation(bills[last], outflows[last]->0 as int, balances, today, sched)));
        }
    }
}

proof fn lemma_only_pods_of_bills(
    bills: Seq<BillView>,
    outflows: Seq<Option<i64>>,
    balances: Map<Seq<char>, i64>,
    today: int,
    sched: PaySchedule,
    pod: Seq<char>,
)
    requires
        forall|i: int| 0 <= i < bills.len() ==> (#[trigger] bills[i]).pod_id != pod,
    ensures
        !reservations(bills, outflows, balances, today, sched).dom().contains(pod),
    decreases bills.len(),
{
    if bills.len() > 0 {
        let rest = bills.drop_last();
        assert forall|i: int| 0 <= i < rest.len() implies (#[trigger] rest[i]).pod_id != pod by {
            assert(rest[i] == bills[i]);
        }
        lemma_only_pods_of_bills(rest, outflows, balances, today, sched, pod);
        assert(bills[bills.len() - 1].pod_id != pod);
    }
}

/// The pretend paycheck goes into the pool and nowhere else.
pub proof fn lemma_a_pretend_deposit_goes_into_the_pool(
    balances: Map<Seq<char>, i64>,
    pool: Seq<char>,
    deposit: i64,
    pod: Seq<char>,
)
    requires
        fits(amount_of(balances, pool) + deposit),
    ensures
        amount_of(with_deposit(balances, pool, deposit), pod) == amount_of(balances, pod) + if pod == pool {
            deposit as int
        } else {
            0
        },
{
}

/// Funding goes by what has landed in a contribution pod this pay period and by the
/// balance of any other, less what is set aside, never below nothing by that.
pub proof fn lemma_what_funding_goes_by(
    balances: Map<Seq<char>, i64>,
    contributed: Map<Seq<char>, i64>,
    held: Map<Seq<char>, i64>,
    pod: Seq<char>,
)
    requires
        forall|p: Seq<char>| held.dom().contains(p) ==> 0 <= #[trigger] held[p],
    ensures
        ({
            let have = if contributed.dom().contains(pod) {
                contributed[pod]
            } else {
                amount_of(balances, pod)
            };
            let left = amount_of(funding_of(balances, contributed, held), pod);
            &&& !held.dom().contains(pod) ==> left == have
            &&& held.dom().contains(pod) && held[pod] <= have ==> left == have - held[pod]
            &&& held.dom().contains(pod) && held[pod] > have ==> left == 0
        }),
{
}

/// A line shows its bill: the group, the name, the pod's real balance, what is set
/// aside in it, and what the transfers bring into it. A top-up and a kept level target
/// their amount, a drawdown its pace, a sinking fund what the bill should hold; each
/// needs what it lacks of that, nothing at the least: a top-up of what has landed this
/// pay period, a sinking fund of the balance that is not set aside, any other of the
/// balance.
pub proof fn lemma_a_line_shows_its_bill(group: Seq<char>, bill: BillView, books: Accounting)
    ensures
        ({
            let line = line_of(group, bill, books);
            let current = amount_of(books.balances, bill.pod_id) as int;
            let held = amount_of(books.reserved, bill.pod_id) as int;
            let (kind, target, have) = match bill.frequency {
                FrequencyView::Paycheck => (
                    LineKind::Topup,
                    bill.amount_cents,
                    amount_of(books.contributed, bill.pod_id) as int,
                ),
                FrequencyView::Keep => (LineKind::Hold, bill.amount_cents, current),
                FrequencyView::Drawdown { target, period_months } => (
                    LineKind::Drawdown,
                    on_track(bill.amount_cents, target, period_months, books.today, books.sched),
                    current,
                ),
                _ => (LineKind::Sinking, target_of(bill, books.today, books.sched), current - held),
            };
            &&& line.group == group && line.name == bill.name && line.pod_id == bill.pod_id
            &&& line.current == current && line.reserved == held
            &&& line.give == inflow(books.transfers, bill.pod_id)
            &&& line.kind == kind && line.target == target
            &&& target > have ==> have + line.need == target
            &&& target <= have ==> line.need == 0
        }),
{
}

/// Every bill has its line, in the order of the categories and their bills, under the
/// name of its category.
pub proof fn lemma_every_bill_has_its_line(categories: Seq<CategoryView>, books: Accounting, c: int, b: int)
    requires
        0 <= c < categories.len(),
        0 <= b < categories[c].bills.len(),
    ensures
        lines_of(categories, books).len() == bills_of(categories).len(),
        ({
            let at = bills_of(categories.take(c)).len() + b;
            &&& at < lines_of(categories, books).len()
            &&& lines_of(categories, books)[at] == line_of(categories[c].name, categories[c].bills[b], books)
        }),
    decreases categories.len(),
{
    let rest = categories.drop_last();
    lemma_lines_count(categories, books);
    lemma_lines_count(rest, books);
    if c < rest.len() {
        lemma_every_bill_has_its_line(rest, books, c, b);
        assert(rest.take(c) == categories.take(c));
        assert(rest[c] == categories[c]);
    } else {
        assert(categories.take(c) == rest);
    }
}

proof fn lemma_lines_count(categories: Seq<CategoryView>, books: Accounting)
    ensures
        lines_of(categories, books).len() == bills_of(categories).len(),
    decreases categories.len(),
{
    if categories.len() > 0 {
        lemma_lines_count(categories.drop_last(), books);
    }
}

/// An assessment hands on what was read and assembled: the day planned for, the pool
/// and its balance with any pretend deposit, the names, and what could not be funded.
/// Its transfers are the plan for that day, made on the balances to fund by, and its
/// lines and notes are those of the budget's bills.
pub proof fn lemma_an_assessment_is_of_what_was_read(
    sim: SimInput,
    now: int,
    sched: PaySchedule,
    strategy: FundingStrategy,
    assembly: AssembledView,
    read: Readings,
)
    requires
        fits(amount_of(read.balances@, assembly.budget.pool_pod_id) + sim.deposit_cents),
    ensures
        ({
            let report = assessment(sim, now, sched, strategy, assembly, read);
            let books = books_of(sim, now, sched, strategy, assembly.budget, read);
            &&& report.today == (match sim.today {
                Some(d) => d@,
                None => now,
            })
            &&& report.pool_pod_id == assembly.budget.pool_pod_id
            &&& report.pool_balance == amount_of(read.balances@, assembly.budget.pool_pod_id) + sim.deposit_cents
            &&& report.not_funded == assembly.not_funded && report.migrate == assembly.migrate
            &&& report.ignored == assembly.ignored
            &&& report.transfers == planned(
                assembly.budget,
                funding_of(books.balances, read.contributed@, books.reserved),
                report.today,
                sched,
                strategy,
            )
            &&& report.lines.len() == bills_of(assembly.budget.categories).len()
            &&& report.notes == notes_on(bills_of(assembly.budget.categories), read.balances@, report.today, sched)
            &&& report.names == names_of(read.accounts@)
        }),
{
    lemma_lines_count(
        assembly.budget.categories,
        books_of(sim, now, sched, strategy, assembly.budget, read),
    );
}

/// To pretend a paycheck is to plan as if it had landed: a simulated deposit gives the
/// transfers that the pool's balance with it would give in the same simulation.
pub proof fn lemma_a_simulated_deposit_plans_as_a_real_one(
    day: Date,
    deposit: i64,
    now: int,
    sched: PaySchedule,
    strategy: FundingStrategy,
    budget: BudgetView,
    read: Readings,
    landed: Readings,
)
    requires
        fits(amount_of(read.balances@, budget.pool_pod_id) + deposit),
        landed.balances@ == read.balances@.insert(
            budget.pool_pod_id,
            (amount_of(read.balances@, budget.pool_pod_id) + deposit) as i64,
        ),
        landed.contributed@ == read.contributed@,
        deposit != 0,
    ensures
        books_of(SimInput { today: Some(day), deposit_cents: deposit }, now, sched, strategy, budget, read).transfers
            == books_of(SimInput { today: Some(day), deposit_cents: 0 }, now, sched, strategy, budget, landed).transfers,
{
}

/// A cycle warns of what the assembly warns of, first; then, unless it is a simulation,
/// of the drift, or that it could not be looked for.
pub proof fn lemma_warnings_keep_those_of_the_assembly(sim: SimInput, assembly: Seq<Seq<char>>, read: Readings)
    ensures
        ({
            let all = warnings_of(sim, assembly, read);
            &&& all.len() >= assembly.len()
            &&& all.take(assembly.len() as int) == assembly
            &&& !sim.is_simulation() && read.rules is Err ==> all.len() == assembly.len() + 1
            &&& !sim.is_simulation() ==> (read.rules matches Ok(rules) ==> all.skip(assembly.len() as int) == drifts(
                read.accounts@,
                rule_flows(rules@),
            ))
            &&& sim.is_simulation() ==> all == assembly
        }),
{
    let all = warnings_of(sim, assembly, read);
    assert(all.take(assembly.len() as int) == assembly);
    if !sim.is_simulation() {
        if let Ok(rules) = read.rules {
            assert(all.skip(assembly.len() as int) == drifts(read.accounts@, rule_flows(rules@)));
        }
    }
}

} // verus!
