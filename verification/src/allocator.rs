//! Pure, stateless funding: transfers bringing each bill pod to its point-in-cycle
//! target. A bill accrues evenly across the paydays in its window (count from the
//! declared `PaySchedule`, never hardcoded), 100% by due; `need = target−current`
//! (≥ 0). Per category: one pool→category transfer, then category→bills (nets to 0).

use crate::date::{
    day_number, day_of, is_ymd, lemma_calendar_bounds, lemma_numbers_follow_the_calendar, lemma_ymd_exists,
    lemma_ymd_is_unique, month_len, month_length, month_of, on_calendar, representable, shift_months, year_of, ymd,
    Date, FIRST_DAY, LAST_DAY, MAX_YEAR,
};
use crate::derive::{Frequency, FrequencyView};
use crate::ledger::{amount_of, PodAmounts};
use crate::model::{views, Bill, BillView, Budget, BudgetView, Category, CategoryView};
use crate::money::{lemma_share_bounds, lemma_share_grows, share, share_of};
use crate::schedule::{
    due_date, due_in_month, has_last_due, last_due, lemma_month_end, month_after, month_end, most_recent_due,
    next_month, numbers, PaySchedule,
};
use crate::sums::{
    lemma_sum_add, lemma_sum_at_most, lemma_sum_bounds, lemma_sum_nonnegative, lemma_sum_of_nothing,
    lemma_sum_remove, sum,
};
use crate::text::{joined, same_text};
use vstd::prelude::*;

verus! {

#[derive(Debug, Clone, PartialEq, Eq)]
pub struct PlannedTransfer {
    pub from_pod: String,
    pub to_pod: String,
    pub amount_cents: i64,
    pub reason: String,
}

pub ghost struct PlannedTransferView {
    pub from_pod: Seq<char>,
    pub to_pod: Seq<char>,
    pub amount_cents: int,
    pub reason: Seq<char>,
}

impl View for PlannedTransfer {
    type V = PlannedTransferView;

    open spec fn view(&self) -> PlannedTransferView {
        PlannedTransferView {
            from_pod: self.from_pod@,
            to_pod: self.to_pod@,
            amount_cents: self.amount_cents as int,
            reason: self.reason@,
        }
    }
}

/// How to distribute the pool (chosen once at onboarding). Differ on target
/// level — `SoonestDue`/`Proportional` fund to *pace*, `StrictEnvelope` to
/// *100%* — and, when the pool falls short, who gets rationed first.
#[derive(Debug, Clone, Copy, PartialEq, Eq, Structural)]
pub enum FundingStrategy {
    /// Protect due dates: in due order, catch every bill up to where it should
    /// be today (its paced target), and no further. Surplus stays in the pool.
    /// The safe default.
    SoonestDue,
    /// Hard priority: in due order, fully fund each bill to 100% before the next
    /// gets a cent. Starves later bills to protect earlier ones.
    StrictEnvelope,
    /// Split the available pool across bills in proportion to each one's need.
    Proportional,
}

impl Default for FundingStrategy {
    fn default() -> (strategy: Self)
        ensures
            strategy == FundingStrategy::SoonestDue,
    {
        FundingStrategy::SoonestDue
    }
}

// ---- Due dates ----

/// The day `n` is a due date of a bill due on `due_day`.
pub open spec fn is_due(due_day: int, n: int) -> bool {
    n == due_in_month(year_of(n), month_of(n), due_day)
}

/// The earliest due date on or after `today`.
pub open spec fn due_after(today: int, due_day: int) -> int {
    let this = due_in_month(year_of(today), month_of(today), due_day);
    if this >= today {
        this
    } else {
        let next = month_after(year_of(today), month_of(today));
        due_in_month(next.0, next.1, due_day)
    }
}

proof fn lemma_due_in_month(year: int, month: int, due_day: int)
    requires
        1 <= month <= 12,
        1 <= due_day,
    ensures
        is_ymd(
            due_in_month(year, month, due_day),
            year,
            month,
            if due_day <= month_len(year, month) {
                due_day
            } else {
                month_len(year, month)
            },
        ),
        year_of(due_in_month(year, month, due_day)) == year,
        month_of(due_in_month(year, month, due_day)) == month,
{
    let len = month_len(year, month);
    let day = if due_day <= len {
        due_day
    } else {
        len
    };
    lemma_ymd_is_unique(due_in_month(year, month, due_day), year, month, day);
}

/// The next due date is a due date, on or after today, and no due date lies between.
pub proof fn lemma_due_after_is_next(today: int, due_day: int, other: int)
    requires
        1 <= due_day,
    ensures
        is_due(due_day, due_after(today, due_day)),
        today <= due_after(today, due_day),
        is_due(due_day, other) && today <= other ==> due_after(today, due_day) <= other,
{
    lemma_ymd_exists(today);
    lemma_ymd_exists(other);
    let (y, m, d) = ymd(today);
    let (oy, om, od) = ymd(other);
    let next = month_after(y, m);
    lemma_due_in_month(y, m, due_day);
    lemma_due_in_month(next.0, next.1, due_day);
    lemma_due_in_month(oy, om, due_day);
    let this = due_in_month(y, m, due_day);
    let then = due_in_month(next.0, next.1, due_day);
    lemma_ymd_exists(this);
    lemma_ymd_exists(then);
    lemma_numbers_follow_the_calendar(y, m, d, next.0, next.1, day_of(then));
    lemma_numbers_follow_the_calendar(oy, om, od, y, m, d);
    lemma_numbers_follow_the_calendar(oy, om, od, y, m, day_of(this));
    lemma_numbers_follow_the_calendar(oy, om, od, next.0, next.1, day_of(then));
}

/// The last due date is a due date, on or before today, and no due date lies between.
pub proof fn lemma_last_due_is_latest(due_day: int, today: int, other: int)
    requires
        1 <= due_day,
    ensures
        is_due(due_day, last_due(due_day, today)),
        last_due(due_day, today) <= today,
        is_due(due_day, other) && other <= today ==> other <= last_due(due_day, today),
{
    lemma_ymd_exists(today);
    lemma_ymd_exists(other);
    let (y, m, d) = ymd(today);
    let (oy, om, od) = ymd(other);
    let prev = if m == 1 {
        (y - 1, 12)
    } else {
        (y, m - 1)
    };
    lemma_due_in_month(y, m, due_day);
    lemma_due_in_month(prev.0, prev.1, due_day);
    lemma_due_in_month(oy, om, due_day);
    let this = due_in_month(y, m, due_day);
    let then = due_in_month(prev.0, prev.1, due_day);
    lemma_ymd_exists(this);
    lemma_ymd_exists(then);
    lemma_numbers_follow_the_calendar(prev.0, prev.1, day_of(then), y, m, d);
    lemma_numbers_follow_the_calendar(y, m, d, oy, om, od);
    lemma_numbers_follow_the_calendar(y, m, day_of(this), oy, om, od);
    lemma_numbers_follow_the_calendar(prev.0, prev.1, day_of(then), oy, om, od);
}

/// Next occurrence of `due_day` on or after `today` (clamped to month length).
pub fn next_due(today: Date, due_day: u32) -> (due: Date)
    requires
        1 <= due_day,
        on_calendar(due_after(today@, due_day as int)),
    ensures
        due@ == due_after(today@, due_day as int),
{
    let (y, m, d) = today.ymd();
    let this = due_date(y, m, due_day);
    if this.number() >= today.number() {
        return this;
    }
    let (ny, nm) = next_month(y, m);
    proof {
        lemma_due_in_month(ny as int, nm as int, due_day as int);
        let len = month_len(ny as int, nm as int);
        lemma_calendar_bounds(ny as int, nm as int, if due_day <= len { due_day as int } else { len });
    }
    due_date(ny, nm, due_day)
}

/// The due date before `due`: the same due day one month earlier (clamped to month
/// length). The start of a monthly bill's accrual window — the previous time it was due.
pub fn minus_one_month(due: Date, due_day: u32) -> (earlier: Date)
    requires
        1 <= due_day,
        on_calendar(last_due(due_day as int, due@ - 1)),
    ensures
        earlier@ == last_due(due_day as int, due@ - 1),
{
    let _ = due.number();
    proof {
        lemma_last_due_is_latest(due_day as int, due@ - 1, due@ - 1);
    }
    most_recent_due(due_day, due.plus_days(-1))
}

// ---- Targets ----

/// How much of `amount` has accrued by `today`: an equal share on each payday from
/// `start` to `end`, all of it where there is no payday.
pub open spec fn accrued(amount: int, sched: PaySchedule, start: int, end: int, today: int) -> int {
    let total = sched.paydays(start, end).len();
    if total == 0 {
        amount
    } else {
        share_of(amount, sched.paydays(start, if today <= end { today } else { end }).len() as int, total as int)
    }
}

proof fn lemma_fewer_paydays(sched: PaySchedule, start: int, part: int, end: int)
    requires
        part <= end,
    ensures
        sched.paydays(start, part).len() <= sched.paydays(start, end).len(),
{
    if start <= part + 1 {
        sched.lemma_adjoining_ranges(start, part, end);
    }
}

/// What a bill accrues reaches all of its amount at the end of its window.
pub proof fn lemma_all_accrued_at_the_end(amount: int, sched: PaySchedule, start: int, end: int, today: int)
    requires
        end <= today,
    ensures
        accrued(amount, sched, start, end, today) == amount,
{
    let total = sched.paydays(start, end).len();
    if total > 0 {
        lemma_share_bounds(amount, total as int, total as int);
    }
}

/// What a bill accrues never falls as the days pass, and is never more than its amount.
pub proof fn lemma_accrual_grows(amount: int, sched: PaySchedule, start: int, end: int, today: int, later: int)
    requires
        amount >= 0,
        today <= later,
    ensures
        0 <= accrued(amount, sched, start, end, today) <= accrued(amount, sched, start, end, later) <= amount,
{
    let total = sched.paydays(start, end).len() as int;
    if total > 0 {
        let a = if today <= end { today } else { end };
        let b = if later <= end { later } else { end };
        lemma_fewer_paydays(sched, start, a, b);
        lemma_fewer_paydays(sched, start, b, end);
        let x = sched.paydays(start, a).len() as int;
        let y = sched.paydays(start, b).len() as int;
        lemma_share_grows(amount, x, y, total);
        lemma_share_bounds(amount, x, total);
        lemma_share_bounds(amount, y, total);
    }
}

/// The paydays from `start` to `end`, and how many of them have come by `today`.
fn count_paydays(sched: &PaySchedule, start: Date, end: Date, today: Date) -> (counts: (usize, usize))
    requires
        sched.well_formed(),
        sched is Irregular || end@ + 2 <= LAST_DAY,
    ensures
        counts.0 == sched.paydays(start@, end@).len(),
        counts.1 == sched.paydays(start@, if today@ <= end@ { today@ } else { end@ }).len(),
        counts.1 <= counts.0,
{
    let all = sched.paydays_in(start, end);
    assert(numbers(all@).len() == all@.len());
    if today.number() < end.number() {
        let past = sched.paydays_in(start, today);
        assert(numbers(past@).len() == past@.len());
        proof {
            lemma_fewer_paydays(*sched, start@, today@, end@);
        }
        (all.len(), past.len())
    } else {
        (all.len(), all.len())
    }
}

/// What a due-day bill should hold: accrued from the day after its previous due date
/// to its next one.
pub open spec fn monthly_target(amount: int, due_day: int, today: int, sched: PaySchedule) -> int {
    let due = due_after(today, due_day);
    accrued(amount, sched, last_due(due_day, due - 1) + 1, due, today)
}

/// The dates that a due-day bill is planned by can be represented.
pub open spec fn monthly_ready(due_day: int, today: int, sched: PaySchedule) -> bool {
    let due = due_after(today, due_day);
    &&& 1 <= due_day
    &&& on_calendar(last_due(due_day, due - 1))
    &&& on_calendar(due)
    &&& sched is Irregular || due + 2 <= LAST_DAY
}

/// How much a monthly due-day bill *should* hold as of `today`: it accrues an
/// equal share on each payday in its window (previous due → this due), reaching
/// 100% by the due date.
pub fn target_for(amount_cents: i64, due_day: u32, today: Date, sched: &PaySchedule) -> (target: i64)
    requires
        sched.well_formed(),
        monthly_ready(due_day as int, today@, *sched),
    ensures
        target == monthly_target(amount_cents as int, due_day as int, today@, *sched),
{
    let due = next_due(today, due_day);
    let window_start = minus_one_month(due, due_day);
    proof {
        lemma_last_due_is_latest(due_day as int, due@ - 1, due@ - 1);
    }
    let (total, occurred) = count_paydays(sched, window_start.plus_days(1), due, today);
    if total == 0 {
        return amount_cents;  // no paydays to spread across — fund it fully
    }
    share(amount_cents, occurred, total)
}

/// The windows of one due date and the next adjoin: no payday falls between them and
/// none counts for both.
pub proof fn lemma_windows_adjoin(due_day: int, today: int)
    requires
        1 <= due_day,
    ensures
        ({
            let due = due_after(today, due_day);
            last_due(due_day, due_after(due + 1, due_day) - 1) == due
        }),
{
    let due = due_after(today, due_day);
    let then = due_after(due + 1, due_day);
    let start = last_due(due_day, then - 1);
    lemma_due_after_is_next(today, due_day, today);
    lemma_due_after_is_next(due + 1, due_day, start);
    lemma_last_due_is_latest(due_day, then - 1, due);
}

/// A bill due today should hold all of its amount.
pub proof fn lemma_full_on_the_due_date(amount: int, due_day: int, today: int, sched: PaySchedule)
    requires
        1 <= due_day,
        is_due(due_day, today),
    ensures
        monthly_target(amount, due_day, today, sched) == amount,
{
    let due = due_after(today, due_day);
    lemma_all_accrued_at_the_end(amount, sched, last_due(due_day, due - 1) + 1, due, today);
}

/// As the days pass toward a due date, what the bill should hold never falls and
/// never exceeds its amount.
pub proof fn lemma_monthly_target_grows(amount: int, due_day: int, today: int, later: int, sched: PaySchedule)
    requires
        amount >= 0,
        today <= later,
        due_after(today, due_day) == due_after(later, due_day),
    ensures
        0 <= monthly_target(amount, due_day, today, sched) <= monthly_target(amount, due_day, later, sched) <= amount,
{
    let due = due_after(today, due_day);
    lemma_accrual_grows(amount, sched, last_due(due_day, due - 1) + 1, due, today, later);
}

/// Moving by whole months keeps the day's order: a later month is a later day.
pub proof fn lemma_months_move_forward(n: int, months: int)
    requires
        months > 0,
    ensures
        shift_months(n, months) > n,
{
    lemma_ymd_exists(n);
    let (y, m, d) = ymd(n);
    let index = y * 12 + (m - 1) + months;
    let year = index / 12;
    let month = index % 12 + 1;
    let len = month_len(year, month);
    let day = if d <= len {
        d
    } else {
        len
    };
    lemma_numbers_follow_the_calendar(y, m, d, year, month, day);
}

// ---- Drawdowns ----

/// The first of the dates `anchor`, `anchor` moved on by the period, and so on,
/// that is on or after `today`; with no period, the anchor.
pub open spec fn drawdown_next(anchor: int, period: int, today: int) -> int
    decreases (if anchor < today { today - anchor } else { 0 }),
{
    if period <= 0 || anchor >= today {
        anchor
    } else {
        proof {
            lemma_months_move_forward(anchor, period);
        }
        drawdown_next(shift_months(anchor, period), period, today)
    }
}

/// The start of the drawdown period that ends on `next`, as far as the calendar goes back.
pub open spec fn drawdown_prev(next: int, period: int) -> int {
    let prev = shift_months(next, -period);
    if on_calendar(prev) {
        prev
    } else {
        next
    }
}

/// A drawdown's next date is never before its anchor, and never before today
/// where it recurs.
pub proof fn lemma_drawdown_next(anchor: int, period: int, today: int)
    ensures
        anchor <= drawdown_next(anchor, period, today),
        period > 0 ==> today <= drawdown_next(anchor, period, today),
    decreases (if anchor < today { today - anchor } else { 0 }),
{
    if period > 0 && anchor < today {
        lemma_months_move_forward(anchor, period);
        lemma_drawdown_next(shift_months(anchor, period), period, today);
    }
}

/// Next drawdown occurrence on/after `today` (rolling the anchor forward by period).
pub fn next_drawdown(anchor: Date, period_months: u32, today: Date) -> (next: Date)
    requires
        on_calendar(drawdown_next(anchor@, period_months as int, today@)),
    ensures
        next@ == drawdown_next(anchor@, period_months as int, today@),
{
    if period_months == 0 {
        return anchor;
    }
    let mut d = anchor;
    let _ = anchor.number();
    while d.number() < today.number()
        invariant
            on_calendar(d@),
            period_months > 0,
            on_calendar(drawdown_next(d@, period_months as int, today@)),
            drawdown_next(d@, period_months as int, today@) == drawdown_next(
                anchor@,
                period_months as int,
                today@,
            ),
        decreases (if d@ < today@ { today@ - d@ } else { 0 }),
    {
        proof {
            lemma_months_move_forward(d@, period_months as int);
            lemma_drawdown_next(shift_months(d@, period_months as int), period_months as int, today@);
        }
        d = d.checked_add_months(period_months).unwrap();
    }
    d
}

/// The dates of a drawdown's current period can be represented.
pub open spec fn drawdown_ready(anchor: int, period: int, today: int, sched: PaySchedule) -> bool {
    let next = drawdown_next(anchor, period, today);
    &&& on_calendar(next)
    &&& on_calendar(drawdown_prev(next, period) + 1)
    &&& sched is Irregular || next + 2 <= LAST_DAY
}

/// The paychecks in the current drawdown window: (total in the period, how many
/// have occurred by `today`).
pub fn drawdown_window(anchor: Date, period_months: u32, today: Date, sched: &PaySchedule) -> (counts: (
    usize,
    usize,
))
    requires
        sched.well_formed(),
        drawdown_ready(anchor@, period_months as int, today@, *sched),
    ensures
        ({
            let next = drawdown_next(anchor@, period_months as int, today@);
            let start = drawdown_prev(next, period_months as int) + 1;
            &&& counts.0 == sched.paydays(start, next).len()
            &&& counts.1 == sched.paydays(start, if today@ <= next { today@ } else { next }).len()
        }),
        counts.1 <= counts.0,
{
    let next = next_drawdown(anchor, period_months, today);
    let prev = match next.checked_sub_months(period_months) {
        Some(prev) => prev,
        None => next,
    };
    count_paydays(sched, prev.plus_days(1), next, today)
}

/// A drawdown's contribution per paycheck: an equal share of the amount for each
/// paycheck of the current period, all of it where there is none.
pub open spec fn slice(amount: int, anchor: int, period: int, today: int, sched: PaySchedule) -> int {
    let next = drawdown_next(anchor, period, today);
    let total = sched.paydays(drawdown_prev(next, period) + 1, next).len();
    if total == 0 {
        amount
    } else {
        share_of(amount, 1, total as int)
    }
}

/// A drawdown's flat per-paycheck contribution: `amount` spread evenly over the
/// paychecks in one period. **Constant** — it does not catch up if the pod falls
/// behind; the engine notes a shortfall instead and the user can top up.
pub fn drawdown_slice(amount: i64, anchor: Date, period_months: u32, today: Date, sched: &PaySchedule) -> (cents:
    i64)
    requires
        sched.well_formed(),
        drawdown_ready(anchor@, period_months as int, today@, *sched),
    ensures
        cents == slice(amount as int, anchor@, period_months as int, today@, *sched),
{
    let (total, _) = drawdown_window(anchor, period_months, today, sched);
    if total == 0 {
        amount
    } else {
        share(amount, 1, total)
    }
}

/// A drawdown's contribution is the same on every day of one period.
pub proof fn lemma_slice_is_constant(amount: int, anchor: int, period: int, today: int, later: int, sched: PaySchedule)
    requires
        drawdown_next(anchor, period, today) == drawdown_next(anchor, period, later),
    ensures
        slice(amount, anchor, period, today, sched) == slice(amount, anchor, period, later, sched),
{
}

/// As long as its next date lies ahead, that date stays a drawdown's next date.
pub proof fn lemma_drawdown_date_stays(anchor: int, period: int, today: int, later: int)
    requires
        today <= later <= drawdown_next(anchor, period, today),
    ensures
        drawdown_next(anchor, period, later) == drawdown_next(anchor, period, today),
    decreases (if anchor < later { later - anchor } else { 0 }),
{
    if period > 0 && anchor < later {
        lemma_months_move_forward(anchor, period);
        if anchor < today {
            lemma_drawdown_date_stays(shift_months(anchor, period), period, today, later);
        }
    }
}

/// Where a drawdown pod would be if it had been funded evenly from the period's start.
pub open spec fn on_track(amount: int, anchor: int, period: int, today: int, sched: PaySchedule) -> int {
    let next = drawdown_next(anchor, period, today);
    accrued(amount, sched, drawdown_prev(next, period) + 1, next, today)
}

/// Where a drawdown pod *would* be by `today` if funded evenly from the period's
/// start — used only to report how far behind/ahead the pod is (not to fund it).
pub fn drawdown_on_track(amount: i64, anchor: Date, period_months: u32, today: Date, sched: &PaySchedule) -> (cents:
    i64)
    requires
        sched.well_formed(),
        drawdown_ready(anchor@, period_months as int, today@, *sched),
    ensures
        cents == on_track(amount as int, anchor@, period_months as int, today@, *sched),
{
    let (total, elapsed) = drawdown_window(anchor, period_months, today, sched);
    if total == 0 {
        return amount;
    }
    share(amount, elapsed, total)
}

/// On a drawdown's date the pod is on track only with all of the amount.
pub proof fn lemma_on_track_at_the_date(amount: int, anchor: int, period: int, today: int, sched: PaySchedule)
    requires
        drawdown_next(anchor, period, today) <= today,
    ensures
        on_track(amount, anchor, period, today, sched) == amount,
{
    let next = drawdown_next(anchor, period, today);
    lemma_all_accrued_at_the_end(amount, sched, drawdown_prev(next, period) + 1, next, today);
}

// ---- Calendar periods ----

/// The first and last day of the frequency's period that `today` lies in.
pub open spec fn period(freq: FrequencyView, today: int) -> (int, int) {
    let y = year_of(today);
    let m = month_of(today);
    match freq {
        FrequencyView::Month => (day_number(y, m, 1), month_end(y, m)),
        FrequencyView::Quarter => {
            let first = (m - 1) / 3 * 3 + 1;
            (day_number(y, first, 1), month_end(y, first + 2))
        },
        FrequencyView::Year => (day_number(y, 1, 1), day_number(y, 12, 31)),
        _ => (today, today),
    }
}

/// Today lies in the current period.
pub proof fn lemma_today_is_in_its_period(freq: FrequencyView, today: int)
    ensures
        period(freq, today).0 <= today <= period(freq, today).1,
{
    lemma_ymd_exists(today);
    let (y, m, d) = ymd(today);
    let first = (m - 1) / 3 * 3 + 1;
    lemma_month_end(y, m);
    lemma_month_end(y, first + 2);
    lemma_numbers_follow_the_calendar(y, m, 1, y, m, d);
    lemma_numbers_follow_the_calendar(y, m, d, y, m, month_len(y, m));
    lemma_numbers_follow_the_calendar(y, first, 1, y, m, d);
    lemma_numbers_follow_the_calendar(y, m, d, y, first + 2, month_len(y, first + 2));
    lemma_numbers_follow_the_calendar(y, 1, 1, y, m, d);
    lemma_numbers_follow_the_calendar(y, m, d, y, 12, 31);
}

fn month_bounds(year: i32, first: u32, last: u32) -> (bounds: (Date, Date))
    requires
        representable(year as int, first as int, 1),
        representable(year as int, last as int, 1),
    ensures
        bounds.0@ == day_number(year as int, first as int, 1),
        bounds.1@ == month_end(year as int, last as int),
{
    let start = Date::from_ymd_opt(year, first, 1).unwrap();
    let end = Date::from_ymd_opt(year, last, month_length(year, last)).unwrap();
    proof {
        lemma_month_end(year as int, last as int);
    }
    (start, end)
}

/// Calendar bounds of the current frequency period containing `today`.
pub fn period_bounds(freq: &Frequency, today: Date) -> (bounds: (Date, Date))
    ensures
        (bounds.0@, bounds.1@) == period(freq@, today@),
{
    let (y, m, _) = today.ymd();
    match freq {
        Frequency::Month => month_bounds(y, m, m),
        Frequency::Quarter => {
            let qm: u32 = ((m - 1) / 3) * 3 + 1;
            month_bounds(y, qm, qm + 2)
        },
        Frequency::Year => {
            proof {
                lemma_month_end(y as int, 12);
            }
            month_bounds(y, 1, 12)
        },
        // Handled directly in bill_target/sort_due, not via calendar periods.
        Frequency::Paycheck | Frequency::Drawdown { .. } | Frequency::Keep => (today, today),
    }
}

/// What a bill with no due date should hold: accrued over its calendar period.
pub open spec fn accumulated(amount: int, freq: FrequencyView, today: int, sched: PaySchedule) -> int {
    accrued(amount, sched, period(freq, today).0, period(freq, today).1, today)
}

/// The paydays of the current period can be counted.
pub open spec fn period_ready(freq: FrequencyView, today: int, sched: PaySchedule) -> bool {
    sched is Irregular || period(freq, today).1 + 2 <= LAST_DAY
}

/// Target for a bill with no due date: accumulate `amount` evenly across the
/// paydays of its frequency period (calendar-anchored), per the schedule.
pub fn target_accumulate(amount_cents: i64, freq: &Frequency, today: Date, sched: &PaySchedule) -> (target: i64)
    requires
        sched.well_formed(),
        period_ready(freq@, today@, *sched),
    ensures
        target == accumulated(amount_cents as int, freq@, today@, *sched),
{
    let (start, end) = period_bounds(freq, today);
    let (per_period, elapsed) = count_paydays(sched, start, end, today);
    if per_period == 0 {
        return amount_cents;
    }
    share(amount_cents, elapsed, per_period)
}

// ---- One bill ----

/// What a bill should hold today.
pub open spec fn target_of(bill: BillView, today: int, sched: PaySchedule) -> int {
    match bill.due_day {
        Some(d) => monthly_target(bill.amount_cents, d, today, sched),
        None => match bill.frequency {
            FrequencyView::Paycheck => bill.amount_cents,
            FrequencyView::Keep => bill.amount_cents,
            FrequencyView::Drawdown { target, period_months } => slice(
                bill.amount_cents,
                target,
                period_months,
                today,
                sched,
            ),
            _ => accumulated(bill.amount_cents, bill.frequency, today, sched),
        },
    }
}

/// The dates that a bill is planned by can be represented, by a schedule that names
/// only days that exist. (A top-up and a kept level are planned by no date.)
pub open spec fn bill_ready(bill: BillView, today: int, sched: PaySchedule) -> bool {
    match bill.due_day {
        Some(d) => sched.well_formed() && monthly_ready(d, today, sched),
        None => match bill.frequency {
            FrequencyView::Paycheck => true,
            FrequencyView::Keep => true,
            FrequencyView::Drawdown { target, period_months } => sched.well_formed() && drawdown_ready(
                target,
                period_months,
                today,
                sched,
            ),
            _ => sched.well_formed() && period_ready(bill.frequency, today, sched),
        },
    }
}

/// What a bill should hold today — due-day bills accrue toward their date, no-due
/// bills accumulate evenly over their frequency period. The one funding rule.
pub fn bill_target(bill: &Bill, today: Date, sched: &PaySchedule) -> (target: i64)
    requires
        bill_ready(bill@, today@, *sched),
    ensures
        target == target_of(bill@, today@, *sched),
{
    match bill.due_day {
        Some(d) => target_for(bill.amount_cents, d, today, sched),
        None => match &bill.frequency {
            // flat per-paycheck amount; satisfied-ness comes from the ledger
            Frequency::Paycheck => bill.amount_cents,
            // a level to keep on hand, whatever the date
            Frequency::Keep => bill.amount_cents,
            Frequency::Drawdown { target, period_months } => drawdown_slice(
                bill.amount_cents,
                *target,
                *period_months,
                today,
                sched,
            ),
            _ => target_accumulate(bill.amount_cents, &bill.frequency, today, sched),
        },
    }
}

/// What a bill's pod is brought to this cycle.
pub fn target_cents(bill: &Bill, today: Date, sched: &PaySchedule) -> (target: i64)
    requires
        bill_ready(bill@, today@, *sched),
    ensures
        target == target_of(bill@, today@, *sched),
{
    bill_target(bill, today, sched)
}

/// A bill never targets more than its amount, nor less than nothing.
pub proof fn lemma_target_is_within_the_amount(bill: BillView, today: int, sched: PaySchedule)
    requires
        bill.amount_cents >= 0,
    ensures
        0 <= target_of(bill, today, sched) <= bill.amount_cents,
{
    match bill.due_day {
        Some(d) => {
            lemma_monthly_target_grows(bill.amount_cents, d, today, today, sched);
        },
        None => match bill.frequency {
            FrequencyView::Drawdown { target, period_months } => {
                let next = drawdown_next(target, period_months, today);
                let total = sched.paydays(drawdown_prev(next, period_months) + 1, next).len() as int;
                if total > 0 {
                    lemma_share_bounds(bill.amount_cents, 1, total);
                }
            },
            _ => {
                let (start, end) = period(bill.frequency, today);
                lemma_accrual_grows(bill.amount_cents, sched, start, end, today, today);
            },
        },
    }
}

/// The date a bill is ordered by when rationing.
pub open spec fn ordered_by(bill: BillView, today: int) -> int {
    match bill.due_day {
        Some(d) => due_after(today, d),
        None => match bill.frequency {
            FrequencyView::Drawdown { target, period_months } => drawdown_next(target, period_months, today),
            _ => period(bill.frequency, today).1,
        },
    }
}

/// The date a bill is ordered by when rationing: its next due date, or the end of
/// its frequency period for no-due bills.
pub fn sort_due(bill: &Bill, today: Date) -> (due: Date)
    requires
        bill@.due_day matches Some(d) ==> 1 <= d,
        on_calendar(ordered_by(bill@, today@)),
    ensures
        due@ == ordered_by(bill@, today@),
{
    match bill.due_day {
        Some(d) => next_due(today, d),
        None => match &bill.frequency {
            Frequency::Paycheck => today,  // due now — fund it this payday
            Frequency::Drawdown { target, period_months } => next_drawdown(*target, *period_months, today),
            _ => period_bounds(&bill.frequency, today).1,
        },
    }
}

// ---- Rationing ----

/// Adds up wants below 2^64: as many as a list can hold stay below 2^128.
fn add_up(wants: &Vec<u128>) -> (total: u128)
    requires
        forall|i: int| 0 <= i < wants@.len() ==> #[trigger] wants@[i] <= 0xffff_ffff_ffff_ffff,
    ensures
        total == sum(as_ints(wants@)),
{
    let mut total: u128 = 0;
    let mut i: usize = 0;
    let ghost all = as_ints(wants@);
    while i < wants.len()
        invariant
            i <= wants@.len(),
            all == as_ints(wants@),
            forall|j: int| 0 <= j < wants@.len() ==> #[trigger] wants@[j] <= 0xffff_ffff_ffff_ffff,
            total == sum(all.take(i as int)),
            total <= 0xffff_ffff_ffff_ffff * i,
        decreases wants@.len() - i,
    {
        assert(all.take(i + 1).drop_last() == all.take(i as int));
        let w: u128 = wants[i];
        assert(total + w <= 0xffff_ffff_ffff_ffff * (i + 1));
        total = total + w;
        i += 1;
    }
    assert(all.take(i as int) == all);
    total
}

spec fn as_ints(s: Seq<u128>) -> Seq<int> {
    Seq::new(s.len(), |i: int| s[i] as int)
}

/// Item `j` is served before item `i`: its due date is earlier, or the same and
/// it stands earlier in the list.
pub open spec fn ahead(dues: Seq<int>, j: int, i: int) -> bool {
    dues[j] < dues[i] || dues[j] == dues[i] && j < i
}

/// What the items served before item `i` want.
pub open spec fn wants_ahead(wants: Seq<int>, dues: Seq<int>, i: int) -> Seq<int> {
    Seq::new(wants.len(), |j: int| if ahead(dues, j, i) { wants[j] } else { 0 })
}

/// What is left of `available` when it is item `i`'s turn: what the items before it
/// do not take.
pub open spec fn left_for(wants: Seq<int>, dues: Seq<int>, available: int, i: int) -> int {
    let left = available - sum(wants_ahead(wants, dues, i));
    if left > 0 {
        left
    } else {
        0
    }
}

/// Serving in due order, each item takes what it wants of what is left.
pub open spec fn in_turn(wants: Seq<int>, dues: Seq<int>, available: int) -> Seq<int> {
    Seq::new(
        wants.len(),
        |i: int|
            {
                let left = left_for(wants, dues, available, i);
                if wants[i] <= left {
                    wants[i]
                } else {
                    left
                }
            },
    )
}

/// Splitting by need: everything wanted where there is enough, else each item's
/// share of what is available, rounded toward nothing.
pub open spec fn by_need(wants: Seq<int>, available: int) -> Seq<int> {
    let total = sum(wants);
    Seq::new(
        wants.len(),
        |i: int|
            if total == 0 {
                0
            } else if total <= available {
                wants[i]
            } else {
                share_of(available, wants[i], total)
            },
    )
}

proof fn lemma_last_served(dues: Seq<int>) -> (k: int)
    requires
        dues.len() > 0,
    ensures
        0 <= k < dues.len(),
        forall|j: int| 0 <= j < dues.len() && j != k ==> #[trigger] ahead(dues, j, k),
    decreases dues.len(),
{
    let n = dues.len() - 1;
    if n == 0 {
        0
    } else {
        let k = lemma_last_served(dues.drop_last());
        assert forall|j: int| 0 <= j < n && j != k implies #[trigger] ahead(dues, j, k) by {
            assert(ahead(dues.drop_last(), j, k));
        }
        if ahead(dues, n, k) {
            k
        } else {
            assert forall|j: int| 0 <= j < dues.len() && j != n implies #[trigger] ahead(dues, j, n) by {
                assert(j != k ==> ahead(dues, j, k));
            }
            n
        }
    }
}

/// Leaving out the item served last changes nothing for the others.
proof fn lemma_without_last_served(wants: Seq<int>, dues: Seq<int>, available: int, k: int)
    requires
        wants.len() == dues.len(),
        0 <= k < dues.len(),
        forall|j: int| 0 <= j < dues.len() && j != k ==> #[trigger] ahead(dues, j, k),
    ensures
        in_turn(wants.remove(k), dues.remove(k), available) == in_turn(wants, dues, available).remove(k),
{
    let w = wants.remove(k);
    let d = dues.remove(k);
    assert forall|i: int| 0 <= i < w.len() implies in_turn(w, d, available)[i] == in_turn(
        wants,
        dues,
        available,
    ).remove(k)[i] by {
        let old_i = if i < k {
            i
        } else {
            i + 1
        };
        assert(ahead(dues, old_i, k));
        let masked = wants_ahead(wants, dues, old_i);
        assert(masked[k] == 0);
        lemma_sum_remove(masked, k);
        assert(masked.remove(k) == wants_ahead(w, d, i));
    }
    assert(in_turn(w, d, available) == in_turn(wants, dues, available).remove(k));
}

/// Served in due order, the items together take all that they want or all that
/// is available, whichever is less.
pub proof fn lemma_in_turn_takes_what_there_is(wants: Seq<int>, dues: Seq<int>, available: int)
    requires
        wants.len() == dues.len(),
        forall|i: int| 0 <= i < wants.len() ==> 0 <= #[trigger] wants[i],
        available >= 0,
    ensures
        sum(in_turn(wants, dues, available)) == if sum(wants) <= available {
            sum(wants)
        } else {
            available
        },
    decreases wants.len(),
{
    if wants.len() > 0 {
        let k = lemma_last_served(dues);
        let w = wants.remove(k);
        let d = dues.remove(k);
        lemma_without_last_served(wants, dues, available, k);
        lemma_in_turn_takes_what_there_is(w, d, available);
        lemma_sum_remove(wants, k);
        lemma_sum_nonnegative(w);
        lemma_sum_remove(in_turn(wants, dues, available), k);
        let masked = wants_ahead(wants, dues, k);
        lemma_sum_remove(masked, k);
        assert(!ahead(dues, k, k));
        assert(masked.remove(k) == w) by {
            assert forall|j: int| 0 <= j < w.len() implies masked.remove(k)[j] == w[j] by {
                assert(ahead(dues, if j < k { j } else { j + 1 }, k));
            }
        }
    }
}

/// Served in due order, no item takes more than it wants, and none takes a negative amount.
pub proof fn lemma_in_turn_is_bounded(wants: Seq<int>, dues: Seq<int>, available: int, i: int)
    requires
        0 <= i < wants.len(),
        0 <= wants[i],
    ensures
        0 <= in_turn(wants, dues, available)[i] <= wants[i],
{
}

/// Nearer due dates come first: where an item goes short, the items served after
/// it get nothing.
pub proof fn lemma_in_turn_protects_the_nearer(wants: Seq<int>, dues: Seq<int>, available: int, i: int, later: int)
    requires
        wants.len() == dues.len(),
        forall|j: int| 0 <= j < wants.len() ==> 0 <= #[trigger] wants[j],
        0 <= i < wants.len(),
        0 <= later < wants.len(),
        ahead(dues, i, later),
        in_turn(wants, dues, available)[i] < wants[i],
    ensures
        in_turn(wants, dues, available)[later] == 0,
{
    let before_i = wants_ahead(wants, dues, i);
    let before_later = wants_ahead(wants, dues, later);
    let with_i = before_i.update(i, wants[i]);
    lemma_sum_remove(before_i, i);
    lemma_sum_remove(with_i, i);
    assert(before_i.remove(i) == with_i.remove(i));
    assert(before_i[i] == 0);
    assert forall|j: int| 0 <= j < with_i.len() implies #[trigger] with_i[j] <= before_later[j] by {
        if ahead(dues, j, i) {
            assert(ahead(dues, j, later));
        }
    }
    lemma_sum_at_most(with_i, before_later);
}

/// Split by need, the items never take more than is available together, and each
/// takes no more than it wants.
pub proof fn lemma_by_need_is_bounded(wants: Seq<int>, available: int)
    requires
        forall|i: int| 0 <= i < wants.len() ==> 0 <= #[trigger] wants[i],
        available >= 0,
    ensures
        sum(by_need(wants, available)) <= available,
        forall|i: int| 0 <= i < wants.len() ==> 0 <= #[trigger] by_need(wants, available)[i] <= wants[i],
{
    let total = sum(wants);
    let gives = by_need(wants, available);
    lemma_sum_nonnegative(wants);
    if total == 0 {
        lemma_sum_bounds(gives, 0, 0);
    } else if total <= available {
        assert(gives == wants);
    } else {
        lemma_shares_sum(wants, available, total, wants.len());
        assert(gives == shares(wants, available, total, wants.len()));
        assert(wants.take(wants.len() as int) == wants);
        assert(sum(gives) <= available) by (nonlinear_arith)
            requires
                total * sum(gives) <= available * total,
                total > 0,
        ;
        assert forall|i: int| 0 <= i < wants.len() implies 0 <= #[trigger] gives[i] <= wants[i] by {
            let w = wants[i];
            assert(0 <= available * w / total <= w) by (nonlinear_arith)
                requires
                    0 <= available < total,
                    0 <= w,
            ;
        }
    }
}

spec fn shares(wants: Seq<int>, available: int, total: int, n: nat) -> Seq<int> {
    Seq::new(n, |i: int| share_of(available, wants[i], total))
}

proof fn lemma_shares_sum(wants: Seq<int>, available: int, total: int, n: nat)
    requires
        n <= wants.len(),
        forall|i: int| 0 <= i < wants.len() ==> 0 <= #[trigger] wants[i],
        available >= 0,
        total > 0,
    ensures
        total * sum(shares(wants, available, total, n)) <= available * sum(wants.take(n as int)),
        forall|i: int| 0 <= i < n ==> 0 <= #[trigger] shares(wants, available, total, n)[i],
    decreases n,
{
    let s = shares(wants, available, total, n);
    if n > 0 {
        let m = (n - 1) as nat;
        lemma_shares_sum(wants, available, total, m);
        let before = shares(wants, available, total, m);
        assert(s.drop_last() == before);
        assert(wants.take(n as int).drop_last() == wants.take(m as int));
        let w = wants[m as int];
        let a = sum(before);
        let b = sum(wants.take(m as int));
        let q = available * w / total;
        assert(0 <= q && total * q <= available * w) by (nonlinear_arith)
            requires
                q == available * w / total,
                0 <= available,
                0 <= w,
                0 < total,
        ;
        assert(total * (a + q) <= available * (b + w)) by (nonlinear_arith)
            requires
                total * a <= available * b,
                total * q <= available * w,
        ;
        assert forall|i: int| 0 <= i < n implies 0 <= #[trigger] s[i] by {
            if i < m {
                assert(before[i] == s[i]);
            }
        }
    } else {
        assert(total * sum(s) == 0 && available * sum(wants.take(0)) == 0) by (nonlinear_arith)
            requires
                sum(s) == 0,
                sum(wants.take(0)) == 0,
        ;
    }
}

/// One bill's funding facts for this cycle.
#[derive(Debug, Clone, Copy)]
pub struct Item {
    pub current: i64,
    pub today_target: i64,
    pub full: i64,
    pub due: Date,
}

pub ghost struct ItemView {
    pub current: int,
    pub today_target: int,
    pub full: int,
    pub due: int,
}

impl View for Item {
    type V = ItemView;

    open spec fn view(&self) -> ItemView {
        ItemView {
            current: self.current as int,
            today_target: self.today_target as int,
            full: self.full as int,
            due: self.due@,
        }
    }
}

/// What an item lacks of the level that the strategy funds to.
pub open spec fn want(item: ItemView, strategy: FundingStrategy) -> int {
    let level = if strategy == FundingStrategy::StrictEnvelope {
        item.full
    } else {
        item.today_target
    };
    if level > item.current {
        level - item.current
    } else {
        0
    }
}

pub open spec fn wants(items: Seq<ItemView>, strategy: FundingStrategy) -> Seq<int> {
    Seq::new(items.len(), |i: int| want(items[i], strategy))
}

pub open spec fn dues(items: Seq<ItemView>) -> Seq<int> {
    Seq::new(items.len(), |i: int| items[i].due)
}

/// What there is to give of a balance: nothing of a debt.
pub open spec fn to_give(available: int) -> int {
    if available > 0 {
        available
    } else {
        0
    }
}

/// What each item is given of `available`.
pub open spec fn allocated(items: Seq<ItemView>, available: int, strategy: FundingStrategy) -> Seq<int> {
    if strategy == FundingStrategy::Proportional {
        by_need(wants(items, strategy), to_give(available))
    } else {
        in_turn(wants(items, strategy), dues(items), to_give(available))
    }
}

pub open spec fn cents(s: Seq<i64>) -> Seq<int> {
    Seq::new(s.len(), |i: int| s[i] as int)
}

/// Nobody is given a negative amount, nor are all together given more than is
/// available: of an overdrawn pool, nobody is given anything.
pub proof fn lemma_allocation_is_bounded(items: Seq<ItemView>, available: int, strategy: FundingStrategy)
    ensures
        0 <= sum(allocated(items, available, strategy)) <= to_give(available),
        forall|i: int| 0 <= i < items.len() ==> 0 <= #[trigger] allocated(items, available, strategy)[i],
        available <= 0 ==> forall|i: int|
            0 <= i < items.len() ==> #[trigger] allocated(items, available, strategy)[i] == 0,
{
    let w = wants(items, strategy);
    let gives = allocated(items, available, strategy);
    if strategy == FundingStrategy::Proportional {
        lemma_by_need_is_bounded(w, to_give(available));
    } else {
        lemma_in_turn_takes_what_there_is(w, dues(items), to_give(available));
        lemma_sum_nonnegative(w);
    }
    lemma_sum_nonnegative(gives);
    if available <= 0 {
        assert forall|i: int| 0 <= i < items.len() implies #[trigger] gives[i] == 0 by {
            lemma_sum_of_nothing(gives, i);
        }
    }
}

/// Nobody is given more than brings it to the level that the strategy funds to:
/// today's pace, or the full amount under the strict envelope.
pub proof fn lemma_allocation_stops_at_the_level(items: Seq<ItemView>, available: int, strategy: FundingStrategy, i: int)
    requires
        0 <= i < items.len(),
    ensures
        0 <= allocated(items, available, strategy)[i] <= want(items[i], strategy),
{
    let w = wants(items, strategy);
    if strategy == FundingStrategy::Proportional {
        lemma_by_need_is_bounded(w, to_give(available));
        assert(by_need(w, to_give(available))[i] <= w[i]);
    }
}

/// Where there is enough for all, everybody is given what they lack.
pub proof fn lemma_enough_for_all(items: Seq<ItemView>, available: int, strategy: FundingStrategy)
    requires
        sum(wants(items, strategy)) <= available,
    ensures
        allocated(items, available, strategy) == wants(items, strategy),
{
    let w = wants(items, strategy);
    let d = dues(items);
    let gives = allocated(items, available, strategy);
    lemma_sum_nonnegative(w);
    assert forall|i: int| 0 <= i < w.len() implies gives[i] == w[i] by {
        if strategy == FundingStrategy::Proportional {
            if sum(w) == 0 {
                lemma_sum_of_nothing(w, i);
            }
        } else {
            lemma_in_turn_takes_what_there_is(w, d, available);
            let lacking = Seq::new(w.len(), |j: int| w[j] - gives[j]);
            lemma_sum_difference(w, gives);
            lemma_sum_of_nothing(lacking, i);
        }
    }
    assert(gives == w);
}

proof fn lemma_sum_difference(a: Seq<int>, b: Seq<int>)
    requires
        a.len() == b.len(),
    ensures
        sum(Seq::new(a.len(), |j: int| a[j] - b[j])) == sum(a) - sum(b),
    decreases a.len(),
{
    let d = Seq::new(a.len(), |j: int| a[j] - b[j]);
    if a.len() > 0 {
        lemma_sum_difference(a.drop_last(), b.drop_last());
        assert(d.drop_last() == Seq::new(
            a.drop_last().len(),
            |j: int| a.drop_last()[j] - b.drop_last()[j],
        ));
    }
}

/// What is left of `available` for item `i`.
fn leftover(items: &Vec<Item>, wanted: &Vec<u128>, available: i64, i: usize) -> (left: i64)
    requires
        wanted@.len() == items@.len(),
        i < items@.len(),
        available >= 0,
        forall|j: int| 0 <= j < wanted@.len() ==> #[trigger] wanted@[j] <= 0xffff_ffff_ffff_ffff,
    ensures
        left == left_for(as_ints(wanted@), dues(views(items@)), available as int, i as int),
{
    let ghost d = dues(views(items@));
    let ghost w = as_ints(wanted@);
    let mut total: u128 = 0;
    let mut j: usize = 0;
    let due = items[i].due.number();
    while j < items.len()
        invariant
            j <= items@.len(),
            i < items@.len(),
            wanted@.len() == items@.len(),
            d == dues(views(items@)),
            w == as_ints(wanted@),
            due == items@[i as int].due@,
            forall|j: int| 0 <= j < wanted@.len() ==> #[trigger] wanted@[j] <= 0xffff_ffff_ffff_ffff,
            total == sum(wants_ahead(w, d, i as int).take(j as int)),
            total <= 0xffff_ffff_ffff_ffff * j,
        decreases items@.len() - j,
    {
        let ghost masked = wants_ahead(w, d, i as int);
        assert(masked.take(j + 1).drop_last() == masked.take(j as int));
        let other = items[j].due.number();
        assert(d[j as int] == other && d[i as int] == due);
        if other < due || (other == due && j < i) {
            assert(ahead(d, j as int, i as int));
            let more: u128 = wanted[j];
            assert(total + more <= 0xffff_ffff_ffff_ffff * (j + 1));
            total = total + more;
        }
        j += 1;
    }
    assert(wants_ahead(w, d, i as int).take(j as int) == wants_ahead(w, d, i as int));
    if total >= available as u128 {
        0
    } else {
        available - total as i64
    }
}

/// What each item is given of `available`, per the chosen strategy.
pub fn allocate(items: &Vec<Item>, available: i64, strategy: FundingStrategy) -> (gives: Vec<i64>)
    ensures
        cents(gives@) == allocated(views(items@), available as int, strategy),
{
    let ghost seen = views(items@);
    // an overdrawn pool has nothing to give
    let pot: i64 = if available > 0 {
        available
    } else {
        0
    };
    let mut wanted: Vec<u128> = Vec::new();
    let mut i: usize = 0;
    while i < items.len()
        invariant
            i <= items@.len(),
            seen == views(items@),
            wanted@.len() == i,
            forall|j: int| 0 <= j < i ==> #[trigger] wanted@[j] == want(seen[j], strategy),
            forall|j: int| 0 <= j < i ==> #[trigger] wanted@[j] <= 0xffff_ffff_ffff_ffff,
        decreases items@.len() - i,
    {
        let level: i64 = if strategy == FundingStrategy::StrictEnvelope {
            items[i].full
        } else {
            items[i].today_target
        };
        let current: i64 = items[i].current;
        assert(seen[i as int] == items@[i as int]@);
        if level > current {
            wanted.push((level as i128 - current as i128) as u128);
        } else {
            wanted.push(0);
        }
        i += 1;
    }
    assert(as_ints(wanted@) == wants(seen, strategy));
    let mut gives: Vec<i64> = Vec::new();
    let total = if strategy == FundingStrategy::Proportional {
        add_up(&wanted)
    } else {
        0
    };
    let mut i: usize = 0;
    while i < items.len()
        invariant
            i <= items@.len(),
            seen == views(items@),
            pot == to_give(available as int),
            wanted@.len() == items@.len(),
            as_ints(wanted@) == wants(seen, strategy),
            forall|j: int| 0 <= j < wanted@.len() ==> #[trigger] wanted@[j] <= 0xffff_ffff_ffff_ffff,
            strategy == FundingStrategy::Proportional ==> total == sum(as_ints(wanted@)),
            gives@.len() == i,
            forall|j: int|
                0 <= j < i ==> #[trigger] gives@[j] == allocated(seen, available as int, strategy)[j],
        decreases items@.len() - i,
    {
        let want: u128 = wanted[i];
        assert(wants(seen, strategy)[i as int] == want);
        let give: i64 = if strategy == FundingStrategy::Proportional {
            portion(&wanted, i, total, pot)
        } else {
            let left = leftover(items, &wanted, pot, i);
            if want > left as u128 {
                left
            } else {
                want as i64
            }
        };
        gives.push(give);
        i += 1;
    }
    assert(cents(gives@) == allocated(seen, available as int, strategy));
    gives
}

/// Item `i`'s part where `available` is split by need.
fn portion(wanted: &Vec<u128>, i: usize, total: u128, available: i64) -> (give: i64)
    requires
        i < wanted@.len(),
        available >= 0,
        total == sum(as_ints(wanted@)),
        forall|j: int| 0 <= j < wanted@.len() ==> #[trigger] wanted@[j] <= 0xffff_ffff_ffff_ffff,
    ensures
        give == by_need(as_ints(wanted@), available as int)[i as int],
{
    let want: u128 = wanted[i];
    proof {
        let w = as_ints(wanted@);
        lemma_sum_remove(w, i as int);
        lemma_sum_nonnegative(w.remove(i as int));
        assert(w[i as int] == want);
    }
    if total == 0 {
        return 0;
    }
    if total <= available as u128 {
        return want as i64;
    }
    proof {
        lemma_share_bounds(available as int, want as int, total as int);
    }
    let pot: u128 = available as u128;
    assert(pot * want <= 0x8000_0000_0000_0000 * 0xffff_ffff_ffff_ffff) by (nonlinear_arith)
        requires
            pot <= 0x8000_0000_0000_0000,
            want <= 0xffff_ffff_ffff_ffff,
    ;
    (pot * want / total) as i64
}

// ---- The plan ----

/// The bills of all categories, in order.
pub open spec fn bills_of(categories: Seq<CategoryView>) -> Seq<BillView>
    decreases categories.len(),
{
    if categories.len() == 0 {
        Seq::empty()
    } else {
        bills_of(categories.drop_last()) + categories.last().bills
    }
}

/// One bill's funding facts.
pub open spec fn item_of(bill: BillView, balances: Map<Seq<char>, i64>, today: int, sched: PaySchedule) -> ItemView {
    ItemView {
        current: amount_of(balances, bill.pod_id) as int,
        today_target: target_of(bill, today, sched),
        full: bill.amount_cents,
        due: ordered_by(bill, today),
    }
}

pub open spec fn items_of(
    bills: Seq<BillView>,
    balances: Map<Seq<char>, i64>,
    today: int,
    sched: PaySchedule,
) -> Seq<ItemView> {
    Seq::new(bills.len(), |i: int| item_of(bills[i], balances, today, sched))
}

/// The transfers from a category to those of its bills that are given something.
pub open spec fn bill_legs(category: CategoryView, gives: Seq<int>) -> Seq<PlannedTransferView>
    decreases gives.len(),
{
    if gives.len() == 0 {
        Seq::empty()
    } else {
        let rest = bill_legs(category, gives.drop_last());
        let bill = category.bills[gives.len() - 1];
        if gives.last() > 0 {
            rest.push(
                PlannedTransferView {
                    from_pod: category.pod_id,
                    to_pod: bill.pod_id,
                    amount_cents: gives.last(),
                    reason: "fund bill "@ + bill.name,
                },
            )
        } else {
            rest
        }
    }
}

/// A category's transfers: its bills' total from the pool (not where the
/// category's pod is the pool), then on to the bills.
pub open spec fn category_legs(category: CategoryView, gives: Seq<int>, pool: Seq<char>) -> Seq<PlannedTransferView> {
    if sum(gives) == 0 {
        Seq::empty()
    } else if category.pod_id == pool {
        bill_legs(category, gives)
    } else {
        seq![
            PlannedTransferView {
                from_pod: pool,
                to_pod: category.pod_id,
                amount_cents: sum(gives),
                reason: "fund category "@ + category.name,
            },
        ] + bill_legs(category, gives)
    }
}

/// The transfers of all categories, in order.
pub open spec fn legs(categories: Seq<CategoryView>, gives: Seq<int>, pool: Seq<char>) -> Seq<PlannedTransferView>
    decreases categories.len(),
{
    if categories.len() == 0 {
        Seq::empty()
    } else {
        let n = bills_of(categories.drop_last()).len() as int;
        legs(categories.drop_last(), gives.take(n), pool) + category_legs(categories.last(), gives.skip(n), pool)
    }
}

/// What each of the budget's bills is given.
pub open spec fn plan_gives(
    budget: BudgetView,
    balances: Map<Seq<char>, i64>,
    today: int,
    sched: PaySchedule,
    strategy: FundingStrategy,
) -> Seq<int> {
    allocated(
        items_of(bills_of(budget.categories), balances, today, sched),
        amount_of(balances, budget.pool_pod_id) as int,
        strategy,
    )
}

/// The funding plan.
pub open spec fn planned(
    budget: BudgetView,
    balances: Map<Seq<char>, i64>,
    today: int,
    sched: PaySchedule,
    strategy: FundingStrategy,
) -> Seq<PlannedTransferView> {
    legs(budget.categories, plan_gives(budget, balances, today, sched, strategy), budget.pool_pod_id)
}

/// The dates that a budget's bills are planned by can be represented.
pub open spec fn budget_ready(budget: BudgetView, today: int, sched: PaySchedule) -> bool {
    forall|c: int, b: int|
        0 <= c < budget.categories.len() && 0 <= b < budget.categories[c].bills.len() ==> bill_ready(
            #[trigger] budget.categories[c].bills[b],
            today,
            sched,
        )
}

/// What the transfers take out of a pod.
pub open spec fn outflow(legs: Seq<PlannedTransferView>, pod: Seq<char>) -> int
    decreases legs.len(),
{
    if legs.len() == 0 {
        0
    } else {
        outflow(legs.drop_last(), pod) + if legs.last().from_pod == pod {
            legs.last().amount_cents
        } else {
            0
        }
    }
}

/// What the transfers bring into a pod.
pub open spec fn inflow(transfers: Seq<PlannedTransferView>, pod: Seq<char>) -> int
    decreases transfers.len(),
{
    if transfers.len() == 0 {
        0
    } else {
        inflow(transfers.drop_last(), pod) + if transfers.last().to_pod == pod {
            transfers.last().amount_cents
        } else {
            0
        }
    }
}

proof fn lemma_outflow_add(a: Seq<PlannedTransferView>, b: Seq<PlannedTransferView>, pod: Seq<char>)
    ensures
        outflow(a + b, pod) == outflow(a, pod) + outflow(b, pod),
    decreases b.len(),
{
    if b.len() == 0 {
        assert(a + b == a);
    } else {
        lemma_outflow_add(a, b.drop_last(), pod);
        assert((a + b).drop_last() == a + b.drop_last());
    }
}

proof fn lemma_bill_legs_outflow(category: CategoryView, gives: Seq<int>, pod: Seq<char>)
    requires
        forall|i: int| 0 <= i < gives.len() ==> 0 <= #[trigger] gives[i],
    ensures
        outflow(bill_legs(category, gives), pod) == if category.pod_id == pod {
            sum(gives)
        } else {
            0
        },
        forall|i: int|
            0 <= i < bill_legs(category, gives).len() ==> 0 < #[trigger] bill_legs(category, gives)[i].amount_cents,
    decreases gives.len(),
{
    if gives.len() > 0 {
        lemma_bill_legs_outflow(category, gives.drop_last(), pod);
        let rest = bill_legs(category, gives.drop_last());
        let all = bill_legs(category, gives);
        if gives.last() > 0 {
            assert(all.drop_last() == rest);
        }
    }
}

/// What a category gets from the pool it sends on to its bills, to the cent.
pub proof fn lemma_category_nets_to_zero(category: CategoryView, gives: Seq<int>, pool: Seq<char>)
    requires
        forall|i: int| 0 <= i < gives.len() ==> 0 <= #[trigger] gives[i],
    ensures
        outflow(category_legs(category, gives, pool), pool) == sum(gives),
        outflow(category_legs(category, gives, pool), category.pod_id) == sum(gives),
        forall|i: int|
            0 <= i < category_legs(category, gives, pool).len() ==> 0 < #[trigger] category_legs(
                category,
                gives,
                pool,
            )[i].amount_cents,
{
    lemma_sum_nonnegative(gives);
    lemma_bill_legs_outflow(category, gives, pool);
    lemma_bill_legs_outflow(category, gives, category.pod_id);
    if sum(gives) != 0 && category.pod_id != pool {
        let hop = PlannedTransferView {
            from_pod: pool,
            to_pod: category.pod_id,
            amount_cents: sum(gives),
            reason: "fund category "@ + category.name,
        };
        lemma_outflow_add(seq![hop], bill_legs(category, gives), pool);
        lemma_outflow_add(seq![hop], bill_legs(category, gives), category.pod_id);
        reveal_with_fuel(outflow, 2);
    }
}

proof fn lemma_legs_outflow(categories: Seq<CategoryView>, gives: Seq<int>, pool: Seq<char>)
    requires
        gives.len() == bills_of(categories).len(),
        forall|i: int| 0 <= i < gives.len() ==> 0 <= #[trigger] gives[i],
    ensures
        outflow(legs(categories, gives, pool), pool) == sum(gives),
        forall|i: int|
            0 <= i < legs(categories, gives, pool).len() ==> 0 < #[trigger] legs(categories, gives, pool)[i].amount_cents,
    decreases categories.len(),
{
    if categories.len() > 0 {
        let n = bills_of(categories.drop_last()).len() as int;
        let a = legs(categories.drop_last(), gives.take(n), pool);
        let b = category_legs(categories.last(), gives.skip(n), pool);
        lemma_legs_outflow(categories.drop_last(), gives.take(n), pool);
        lemma_category_nets_to_zero(categories.last(), gives.skip(n), pool);
        lemma_outflow_add(a, b, pool);
        lemma_sum_add(gives.take(n), gives.skip(n));
        assert(gives.take(n) + gives.skip(n) == gives);
        assert forall|i: int| 0 <= i < (a + b).len() implies 0 < #[trigger] (a + b)[i].amount_cents by {
            if i < a.len() {
                assert((a + b)[i] == a[i]);
            } else {
                assert((a + b)[i] == b[i - a.len()]);
            }
        }
    }
}

/// The plan never takes more out of the pool than its balance (of an overdrawn pool
/// nothing), and moves a positive amount with every transfer.
pub proof fn lemma_plan_never_overdraws(
    budget: BudgetView,
    balances: Map<Seq<char>, i64>,
    today: int,
    sched: PaySchedule,
    strategy: FundingStrategy,
)
    ensures
        outflow(planned(budget, balances, today, sched, strategy), budget.pool_pod_id) <= to_give(
            amount_of(balances, budget.pool_pod_id) as int,
        ),
        outflow(planned(budget, balances, today, sched, strategy), budget.pool_pod_id) == sum(
            plan_gives(budget, balances, today, sched, strategy),
        ),
        forall|i: int|
            0 <= i < planned(budget, balances, today, sched, strategy).len() ==> 0 < #[trigger] planned(
                budget,
                balances,
                today,
                sched,
                strategy,
            )[i].amount_cents,
{
    let items = items_of(bills_of(budget.categories), balances, today, sched);
    lemma_allocation_is_bounded(items, amount_of(balances, budget.pool_pod_id) as int, strategy);
    lemma_legs_outflow(
        budget.categories,
        plan_gives(budget, balances, today, sched, strategy),
        budget.pool_pod_id,
    );
}

/// Where nobody is given anything, nothing is moved.
proof fn lemma_no_gives_no_legs(categories: Seq<CategoryView>, gives: Seq<int>, pool: Seq<char>)
    requires
        gives.len() == bills_of(categories).len(),
        forall|i: int| 0 <= i < gives.len() ==> #[trigger] gives[i] == 0,
    ensures
        legs(categories, gives, pool) == Seq::<PlannedTransferView>::empty(),
    decreases categories.len(),
{
    if categories.len() > 0 {
        let n = bills_of(categories.drop_last()).len() as int;
        lemma_no_gives_no_legs(categories.drop_last(), gives.take(n), pool);
        let own = gives.skip(n);
        lemma_sum_bounds(own, 0, 0);
        assert(0 * own.len() == 0);
    }
}

/// An overdrawn or empty pool funds nothing: the plan is empty.
pub proof fn lemma_nothing_of_a_debt(
    budget: BudgetView,
    balances: Map<Seq<char>, i64>,
    today: int,
    sched: PaySchedule,
    strategy: FundingStrategy,
)
    requires
        amount_of(balances, budget.pool_pod_id) <= 0,
    ensures
        planned(budget, balances, today, sched, strategy) == Seq::<PlannedTransferView>::empty(),
{
    let items = items_of(bills_of(budget.categories), balances, today, sched);
    lemma_allocation_is_bounded(items, amount_of(balances, budget.pool_pod_id) as int, strategy);
    lemma_no_gives_no_legs(
        budget.categories,
        plan_gives(budget, balances, today, sched, strategy),
        budget.pool_pod_id,
    );
}

// ---- Where the money goes ----

/// What the transfers add to a pod (take from it where negative).
pub open spec fn net(legs: Seq<PlannedTransferView>, pod: Seq<char>) -> int {
    inflow(legs, pod) - outflow(legs, pod)
}

/// What the bills with this pod are given.
pub open spec fn received(bills: Seq<BillView>, gives: Seq<int>, pod: Seq<char>) -> int
    decreases gives.len(),
{
    if gives.len() == 0 {
        0
    } else {
        received(bills, gives.drop_last(), pod) + if bills[gives.len() - 1].pod_id == pod {
            gives.last()
        } else {
            0
        }
    }
}

proof fn lemma_inflow_add(a: Seq<PlannedTransferView>, b: Seq<PlannedTransferView>, pod: Seq<char>)
    ensures
        inflow(a + b, pod) == inflow(a, pod) + inflow(b, pod),
    decreases b.len(),
{
    if b.len() == 0 {
        assert(a + b == a);
    } else {
        lemma_inflow_add(a, b.drop_last(), pod);
        assert((a + b).drop_last() == a + b.drop_last());
    }
}

proof fn lemma_received_add(a: Seq<BillView>, b: Seq<BillView>, gives: Seq<int>, pod: Seq<char>)
    requires
        a.len() <= gives.len() <= a.len() + b.len(),
    ensures
        received(a + b, gives, pod) == received(a, gives.take(a.len() as int), pod) + received(
            b,
            gives.skip(a.len() as int),
            pod,
        ),
    decreases gives.len(),
{
    let n = a.len() as int;
    if gives.len() == n {
        assert(gives.take(n) == gives);
        lemma_received_of_some(a + b, a, gives, pod);
    } else {
        lemma_received_add(a, b, gives.drop_last(), pod);
        assert(gives.drop_last().take(n) == gives.take(n));
        assert(gives.drop_last().skip(n) == gives.skip(n).drop_last());
    }
}

proof fn lemma_received_of_some(all: Seq<BillView>, some: Seq<BillView>, gives: Seq<int>, pod: Seq<char>)
    requires
        gives.len() <= some.len() <= all.len(),
        forall|i: int| 0 <= i < some.len() ==> #[trigger] all[i] == some[i],
    ensures
        received(all, gives, pod) == received(some, gives, pod),
    decreases gives.len(),
{
    if gives.len() > 0 {
        assert(all[gives.len() - 1] == some[gives.len() - 1]);
        lemma_received_of_some(all, some, gives.drop_last(), pod);
    }
}

proof fn lemma_received_nothing(bills: Seq<BillView>, gives: Seq<int>, pod: Seq<char>)
    requires
        gives.len() <= bills.len(),
        forall|i: int| 0 <= i < gives.len() ==> #[trigger] gives[i] == 0 || bills[i].pod_id != pod,
    ensures
        received(bills, gives, pod) == 0,
    decreases gives.len(),
{
    if gives.len() > 0 {
        assert forall|i: int| 0 <= i < gives.drop_last().len() implies #[trigger] gives.drop_last()[i] == 0
            || bills[i].pod_id != pod by {
            assert(gives[i] == gives.drop_last()[i]);
        }
        assert(gives[gives.len() - 1] == gives.last());
        lemma_received_nothing(bills, gives.drop_last(), pod);
    }
}

/// A pod of one bill receives what that bill is given.
proof fn lemma_received_by_one(bills: Seq<BillView>, gives: Seq<int>, k: int)
    requires
        gives.len() <= bills.len(),
        0 <= k < gives.len(),
        forall|i: int| 0 <= i < bills.len() && i != k ==> (#[trigger] bills[i]).pod_id != bills[k].pod_id,
    ensures
        received(bills, gives, bills[k].pod_id) == gives[k],
    decreases gives.len(),
{
    let pod = bills[k].pod_id;
    let rest = gives.drop_last();
    if k == gives.len() - 1 {
        assert forall|i: int| 0 <= i < rest.len() implies #[trigger] rest[i] == 0 || bills[i].pod_id != pod by {
            assert(bills[i].pod_id != pod);
        }
        lemma_received_nothing(bills, rest, pod);
    } else {
        assert(bills[gives.len() - 1].pod_id != pod);
        lemma_received_by_one(bills, rest, k);
    }
}

proof fn lemma_bill_legs_inflow(category: CategoryView, gives: Seq<int>, pod: Seq<char>)
    requires
        forall|i: int| 0 <= i < gives.len() ==> 0 <= #[trigger] gives[i],
    ensures
        inflow(bill_legs(category, gives), pod) == received(category.bills, gives, pod),
    decreases gives.len(),
{
    if gives.len() > 0 {
        lemma_bill_legs_inflow(category, gives.drop_last(), pod);
        assert(0 <= gives[gives.len() - 1]);
        if gives.last() > 0 {
            assert(bill_legs(category, gives).drop_last() == bill_legs(category, gives.drop_last()));
        }
    }
}

proof fn lemma_category_net(category: CategoryView, gives: Seq<int>, pool: Seq<char>, pod: Seq<char>)
    requires
        gives.len() == category.bills.len(),
        forall|i: int| 0 <= i < gives.len() ==> 0 <= #[trigger] gives[i],
    ensures
        net(category_legs(category, gives, pool), pod) == received(category.bills, gives, pod) - if pod == pool {
            sum(gives)
        } else {
            0
        },
{
    lemma_bill_legs_inflow(category, gives, pod);
    lemma_bill_legs_outflow(category, gives, pod);
    if sum(gives) == 0 {
        assert forall|i: int| 0 <= i < gives.len() implies #[trigger] gives[i] == 0 || category.bills[i].pod_id != pod by {
            lemma_sum_of_nothing(gives, i);
        }
        lemma_received_nothing(category.bills, gives, pod);
    } else if category.pod_id != pool {
        let hop = PlannedTransferView {
            from_pod: pool,
            to_pod: category.pod_id,
            amount_cents: sum(gives),
            reason: "fund category "@ + category.name,
        };
        lemma_outflow_add(seq![hop], bill_legs(category, gives), pod);
        lemma_inflow_add(seq![hop], bill_legs(category, gives), pod);
        reveal_with_fuel(outflow, 2);
        reveal_with_fuel(inflow, 2);
    }
}

proof fn lemma_legs_net(categories: Seq<CategoryView>, gives: Seq<int>, pool: Seq<char>, pod: Seq<char>)
    requires
        gives.len() == bills_of(categories).len(),
        forall|i: int| 0 <= i < gives.len() ==> 0 <= #[trigger] gives[i],
    ensures
        net(legs(categories, gives, pool), pod) == received(bills_of(categories), gives, pod) - if pod == pool {
            sum(gives)
        } else {
            0
        },
    decreases categories.len(),
{
    if categories.len() > 0 {
        let before = bills_of(categories.drop_last());
        let n = before.len() as int;
        let a = legs(categories.drop_last(), gives.take(n), pool);
        let b = category_legs(categories.last(), gives.skip(n), pool);
        lemma_legs_net(categories.drop_last(), gives.take(n), pool, pod);
        lemma_category_net(categories.last(), gives.skip(n), pool, pod);
        lemma_inflow_add(a, b, pod);
        lemma_outflow_add(a, b, pod);
        lemma_received_add(before, categories.last().bills, gives, pod);
        lemma_sum_add(gives.take(n), gives.skip(n));
        assert(gives.take(n) + gives.skip(n) == gives);
    }
}

/// Over a whole plan, money only goes from the pool to the bills: every pod's balance
/// changes by what its bills are given, and the pool's by all that is given away.
pub proof fn lemma_money_goes_to_the_bills(
    budget: BudgetView,
    balances: Map<Seq<char>, i64>,
    today: int,
    sched: PaySchedule,
    strategy: FundingStrategy,
    pod: Seq<char>,
)
    ensures
        net(planned(budget, balances, today, sched, strategy), pod) == received(
            bills_of(budget.categories),
            plan_gives(budget, balances, today, sched, strategy),
            pod,
        ) - if pod == budget.pool_pod_id {
            sum(plan_gives(budget, balances, today, sched, strategy))
        } else {
            0
        },
{
    let gives = plan_gives(budget, balances, today, sched, strategy);
    let items = items_of(bills_of(budget.categories), balances, today, sched);
    lemma_allocation_is_bounded(items, amount_of(balances, budget.pool_pod_id) as int, strategy);
    lemma_legs_net(budget.categories, gives, budget.pool_pod_id, pod);
}

/// Every bill has a pod of its own, which is neither the pool nor a category's pod.
pub open spec fn distinct_pods(budget: BudgetView) -> bool {
    let bills = bills_of(budget.categories);
    &&& forall|i: int, j: int|
        0 <= i < bills.len() && 0 <= j < bills.len() && i != j ==> (#[trigger] bills[i]).pod_id != (
        #[trigger] bills[j]).pod_id
    &&& forall|i: int| 0 <= i < bills.len() ==> (#[trigger] bills[i]).pod_id != budget.pool_pod_id
    &&& forall|i: int, c: int|
        0 <= i < bills.len() && 0 <= c < budget.categories.len() ==> (#[trigger] bills[i]).pod_id != (
        #[trigger] budget.categories[c]).pod_id
}

proof fn lemma_legs_leave_bills_alone(categories: Seq<CategoryView>, gives: Seq<int>, pool: Seq<char>, pod: Seq<char>)
    requires
        gives.len() == bills_of(categories).len(),
        forall|i: int| 0 <= i < gives.len() ==> 0 <= #[trigger] gives[i],
        pod != pool,
        forall|c: int| 0 <= c < categories.len() ==> (#[trigger] categories[c]).pod_id != pod,
    ensures
        outflow(legs(categories, gives, pool), pod) == 0,
    decreases categories.len(),
{
    if categories.len() > 0 {
        let n = bills_of(categories.drop_last()).len() as int;
        let category = categories.last();
        let own = gives.skip(n);
        assert forall|c: int| 0 <= c < categories.drop_last().len() implies (
        #[trigger] categories.drop_last()[c]).pod_id != pod by {
            assert(categories[c].pod_id != pod);
        }
        assert(categories[categories.len() - 1].pod_id != pod);
        lemma_legs_leave_bills_alone(categories.drop_last(), gives.take(n), pool, pod);
        lemma_bill_legs_outflow(category, own, pod);
        let hop = PlannedTransferView {
            from_pod: pool,
            to_pod: category.pod_id,
            amount_cents: sum(own),
            reason: "fund category "@ + category.name,
        };
        lemma_outflow_add(seq![hop], bill_legs(category, own), pod);
        reveal_with_fuel(outflow, 2);
        lemma_outflow_add(
            legs(categories.drop_last(), gives.take(n), pool),
            category_legs(category, own, pool),
            pod,
        );
    }
}

/// Over a whole plan, where every bill has a pod of its own: what goes into a bill's
/// pod is its give and stays there, every category's pod nets to zero, and nothing
/// goes into the pool.
pub proof fn lemma_plan_nets_to_zero(
    budget: BudgetView,
    balances: Map<Seq<char>, i64>,
    today: int,
    sched: PaySchedule,
    strategy: FundingStrategy,
)
    requires
        distinct_pods(budget),
    ensures
        ({
            let legs = planned(budget, balances, today, sched, strategy);
            let gives = plan_gives(budget, balances, today, sched, strategy);
            let bills = bills_of(budget.categories);
            &&& forall|i: int|
                0 <= i < bills.len() ==> inflow(legs, (#[trigger] bills[i]).pod_id) == gives[i] && outflow(
                    legs,
                    bills[i].pod_id,
                ) == 0
            &&& forall|c: int|
                0 <= c < budget.categories.len() && budget.categories[c].pod_id != budget.pool_pod_id ==> net(
                    legs,
                    (#[trigger] budget.categories[c]).pod_id,
                ) == 0
            &&& inflow(legs, budget.pool_pod_id) == 0
        }),
{
    let pool = budget.pool_pod_id;
    let moved = planned(budget, balances, today, sched, strategy);
    let gives = plan_gives(budget, balances, today, sched, strategy);
    let bills = bills_of(budget.categories);
    let items = items_of(bills, balances, today, sched);
    lemma_allocation_is_bounded(items, amount_of(balances, pool) as int, strategy);
    assert forall|i: int| 0 <= i < bills.len() implies inflow(moved, (#[trigger] bills[i]).pod_id) == gives[i] && outflow(
        moved,
        bills[i].pod_id,
    ) == 0 by {
        lemma_money_goes_to_the_bills(budget, balances, today, sched, strategy, bills[i].pod_id);
        lemma_received_by_one(bills, gives, i);
        lemma_legs_leave_bills_alone(budget.categories, gives, pool, bills[i].pod_id);
    }
    assert forall|c: int|
        0 <= c < budget.categories.len() && budget.categories[c].pod_id != budget.pool_pod_id implies net(
        moved,
        (#[trigger] budget.categories[c]).pod_id,
    ) == 0 by {
        let pod = budget.categories[c].pod_id;
        lemma_money_goes_to_the_bills(budget, balances, today, sched, strategy, pod);
        assert forall|i: int| 0 <= i < gives.len() implies #[trigger] gives[i] == 0 || bills[i].pod_id != pod by {
            assert(bills[i].pod_id != budget.categories[c].pod_id);
        }
        lemma_received_nothing(bills, gives, pod);
    }
    lemma_money_goes_to_the_bills(budget, balances, today, sched, strategy, pool);
    assert forall|i: int| 0 <= i < gives.len() implies #[trigger] gives[i] == 0 || bills[i].pod_id != pool by {
        assert(bills[i].pod_id != pool);
    }
    lemma_received_nothing(bills, gives, pool);
    lemma_plan_never_overdraws(budget, balances, today, sched, strategy);
}

/// The balances `after` are those `before` with every transfer carried out.
pub open spec fn carried_out(
    before: Map<Seq<char>, i64>,
    after: Map<Seq<char>, i64>,
    legs: Seq<PlannedTransferView>,
) -> bool {
    forall|pod: Seq<char>| #[trigger] amount_of(after, pod) == amount_of(before, pod) + net(legs, pod)
}

/// A budget that has been funded by its plan is not funded again on the same day,
/// where every bill has a pod of its own. (Where a proportional split falls short, the
/// cents that it rounds off stay in the pool, and may be split again.)
pub proof fn lemma_funded_once_a_day(
    budget: BudgetView,
    before: Map<Seq<char>, i64>,
    after: Map<Seq<char>, i64>,
    today: int,
    sched: PaySchedule,
    strategy: FundingStrategy,
)
    requires
        strategy == FundingStrategy::Proportional ==> sum(
            wants(items_of(bills_of(budget.categories), before, today, sched), strategy),
        ) <= amount_of(before, budget.pool_pod_id),
        distinct_pods(budget),
        carried_out(before, after, planned(budget, before, today, sched, strategy)),
    ensures
        planned(budget, after, today, sched, strategy) == Seq::<PlannedTransferView>::empty(),
{
    let pool = budget.pool_pod_id;
    let bills = bills_of(budget.categories);
    let moved = planned(budget, before, today, sched, strategy);
    let gives = plan_gives(budget, before, today, sched, strategy);
    let items = items_of(bills, before, today, sched);
    let later = items_of(bills, after, today, sched);
    let available = amount_of(before, pool) as int;
    lemma_plan_nets_to_zero(budget, before, today, sched, strategy);
    lemma_plan_never_overdraws(budget, before, today, sched, strategy);
    assert(amount_of(after, pool) == available - sum(gives));
    lemma_allocation_is_bounded(items, available, strategy);
    let w = wants(items, strategy);
    lemma_sum_nonnegative(w);
    lemma_in_turn_takes_what_there_is(w, dues(items), to_give(available));
    if available <= 0 || sum(w) > available {
        lemma_nothing_of_a_debt(budget, after, today, sched, strategy);
    } else {
        lemma_enough_for_all(items, available, strategy);
        let again = plan_gives(budget, after, today, sched, strategy);
        assert forall|i: int| 0 <= i < bills.len() implies #[trigger] again[i] == 0 by {
            assert(inflow(moved, bills[i].pod_id) == gives[i]);
            assert(amount_of(after, bills[i].pod_id) == amount_of(before, bills[i].pod_id) + net(
                moved,
                bills[i].pod_id,
            ));
            assert(gives[i] == w[i] && w[i] == want(items[i], strategy));
            assert(want(later[i], strategy) == 0);
            lemma_allocation_stops_at_the_level(later, amount_of(after, pool) as int, strategy, i);
        }
        lemma_no_gives_no_legs(budget.categories, again, pool);
    }
}

proof fn lemma_part_of_a_sum(s: Seq<int>, from: int, to: int, bound: int)
    requires
        0 <= from <= to <= s.len(),
        sum(s) <= bound,
        forall|i: int| 0 <= i < s.len() ==> 0 <= #[trigger] s[i],
    ensures
        0 <= sum(s.subrange(from, to)) <= bound,
{
    let a = s.take(from);
    let b = s.subrange(from, to);
    let c = s.skip(to);
    assert(s == a + b + c);
    lemma_sum_add(a + b, c);
    lemma_sum_add(a, b);
    lemma_sum_nonnegative(a);
    lemma_sum_nonnegative(b);
    lemma_sum_nonnegative(c);
}

/// One bill's funding facts for this cycle.
fn item(bill: &Bill, balances: &PodAmounts, today: Date, sched: &PaySchedule) -> (item: Item)
    requires
        bill_ready(bill@, today@, *sched),
    ensures
        item@ == item_of(bill@, balances@, today@, *sched),
{
    let _ = today.number();
    proof {
        lemma_ready_bills_have_an_order(bill@, today@, *sched);
    }
    Item {
        current: balances.amount(bill.pod_id.as_str()),
        today_target: target_cents(bill, today, sched),
        full: bill.amount_cents,
        due: sort_due(bill, today),
    }
}

/// Appends a category's transfers, given what its bills get.
fn push_category(category: &Category, gives: &Vec<i64>, from: usize, pool: &str, transfers: &mut Vec<PlannedTransfer>)
    requires
        from + category.bills@.len() <= gives@.len(),
        i64::MIN <= sum(cents(gives@).subrange(from as int, from + category.bills@.len())) <= i64::MAX,
    ensures
        views(final(transfers)@) == views(old(transfers)@) + category_legs(
            category@,
            cents(gives@).subrange(from as int, from + category.bills@.len()),
            pool@,
        ),
{
    let ghost before = views(transfers@);
    let n: usize = category.bills.len();
    let ghost part = cents(gives@).subrange(from as int, from + n);
    let mut total: i128 = 0;
    let mut i: usize = 0;
    while i < n
        invariant
            i <= n,
            from + n <= gives.len(),
            part == cents(gives@).subrange(from as int, from + n),
            total == sum(part.take(i as int)),
            i64::MIN * i <= total <= i64::MAX * i,
        decreases n - i,
    {
        assert(part.take(i + 1).drop_last() == part.take(i as int));
        let give: i64 = gives[from + i];
        assert(part[i as int] == give);
        assert(i64::MIN * (i + 1) <= total + give <= i64::MAX * (i + 1));
        total = total + give as i128;
        i += 1;
    }
    assert(part.take(n as int) == part);
    if total == 0 {
        assert(views(transfers@) == before + category_legs(category@, part, pool@));
        return;
    }
    // ungrouped bills: category pod *is* the pool, so skip the pool→pool hop
    if !same_text(category.pod_id.as_str(), pool) {
        transfers.push(
            PlannedTransfer {
                from_pod: pool.to_owned(),
                to_pod: category.pod_id.clone(),
                amount_cents: total as i64,
                reason: joined("fund category ", category.name.as_str()),
            },
        );
    }
    let ghost hop = views(transfers@);
    assert(hop + bill_legs(category@, part) == before + category_legs(category@, part, pool@));
    assert(hop == hop + bill_legs(category@, part.take(0)));
    let mut i: usize = 0;
    while i < n
        invariant
            i <= n,
            n == category.bills@.len(),
            from + n <= gives.len(),
            part == cents(gives@).subrange(from as int, from + n),
            views(transfers@) == hop + bill_legs(category@, part.take(i as int)),
        decreases n - i,
    {
        assert(part.take(i + 1).drop_last() == part.take(i as int));
        let give: i64 = gives[from + i];
        assert(part[i as int] == give);
        let bill = &category.bills[i];
        assert(category@.bills[i as int] == bill@);
        if give > 0 {
            let ghost held = transfers@;
            let leg = PlannedTransfer {
                from_pod: category.pod_id.clone(),
                to_pod: bill.pod_id.clone(),
                amount_cents: give,
                reason: joined("fund bill ", bill.name.as_str()),
            };
            transfers.push(leg);
            assert(views(transfers@) == views(held).push(leg@));
        }
        i += 1;
        assert(views(transfers@) == hop + bill_legs(category@, part.take(i as int)));
    }
}

pub(crate) proof fn lemma_bills_of_take(categories: Seq<CategoryView>, c: int)
    requires
        0 <= c < categories.len(),
    ensures
        bills_of(categories.take(c + 1)) == bills_of(categories.take(c)) + categories[c].bills,
{
    assert(categories.take(c + 1).drop_last() == categories.take(c));
}

pub(crate) proof fn lemma_bills_of_grow(categories: Seq<CategoryView>, c: int)
    requires
        0 <= c <= categories.len(),
    ensures
        bills_of(categories.take(c)).len() <= bills_of(categories).len(),
    decreases categories.len() - c,
{
    if c < categories.len() {
        lemma_bills_of_take(categories, c);
        lemma_bills_of_grow(categories, c + 1);
    } else {
        assert(categories.take(c) == categories);
    }
}

/// The funding facts of all bills.
fn gather(budget: &Budget, balances: &PodAmounts, today: Date, sched: &PaySchedule) -> (items: Vec<Item>)
    requires
        budget_ready(budget@, today@, *sched),
    ensures
        views(items@) == items_of(bills_of(budget@.categories), balances@, today@, *sched),
{
    let ghost all = budget@.categories;
    let mut items: Vec<Item> = Vec::new();
    let mut c: usize = 0;
    assert(all.take(0) == Seq::<CategoryView>::empty());
    assert(views(items@) == items_of(bills_of(all.take(0)), balances@, today@, *sched));
    while c < budget.categories.len()
        invariant
            c <= budget.categories@.len(),
            all == budget@.categories,
            budget_ready(budget@, today@, *sched),
            views(items@) == items_of(bills_of(all.take(c as int)), balances@, today@, *sched),
        decreases budget.categories@.len() - c,
    {
        let cat = &budget.categories[c];
        let ghost before = bills_of(all.take(c as int));
        assert(all[c as int] == cat@);
        let mut b: usize = 0;
        assert(before + cat@.bills.take(0) == before);
        while b < cat.bills.len()
            invariant
                b <= cat.bills@.len(),
                c < budget.categories@.len(),
                all == budget@.categories,
                all[c as int] == cat@,
                budget_ready(budget@, today@, *sched),
                views(items@) == items_of(before + cat@.bills.take(b as int), balances@, today@, *sched),
            decreases cat.bills@.len() - b,
        {
            let bill = &cat.bills[b];
            assert(budget@.categories[c as int].bills[b as int] == bill@);
            let ghost held = items@;
            let it = item(bill, balances, today, sched);
            items.push(it);
            assert(views(items@) == views(held).push(it@));
            assert(before + cat@.bills.take(b + 1) == (before + cat@.bills.take(b as int)).push(bill@));
            assert(views(items@) == items_of(before + cat@.bills.take(b + 1), balances@, today@, *sched));
            b += 1;
        }
        proof {
            lemma_bills_of_take(all, c as int);
            assert(cat@.bills.take(b as int) == cat@.bills);
        }
        c += 1;
    }
    assert(all.take(c as int) == all);
    items
}

/// Compute the funding plan: pool → category → bills, bounded by the pool's
/// actual balance. When the pool can't cover every need, `strategy` decides who
/// gets funded. `balances` maps pod id → current cents (missing = 0), and must
/// include the pool pod.
pub fn plan(
    budget: &Budget,
    balances: &PodAmounts,
    today: Date,
    sched: &PaySchedule,
    strategy: FundingStrategy,
) -> (transfers: Vec<PlannedTransfer>)
    requires
        budget_ready(budget@, today@, *sched),
    ensures
        views(transfers@) == planned(budget@, balances@, today@, *sched, strategy),
{
    let items = gather(budget, balances, today, sched);
    let pool = budget.pool_pod_id.as_str();
    let available = balances.amount(pool);
    let gives = allocate(&items, available, strategy);
    let ghost all = budget@.categories;
    let ghost given = cents(gives@);
    proof {
        lemma_allocation_is_bounded(views(items@), available as int, strategy);
        assert(given == plan_gives(budget@, balances@, today@, *sched, strategy));
    }
    let mut transfers: Vec<PlannedTransfer> = Vec::new();
    let mut from: usize = 0;
    let mut c: usize = 0;
    assert(all.take(0) == Seq::<CategoryView>::empty());
    assert(views(transfers@) == legs(all.take(0), given.take(0), pool@));
    while c < budget.categories.len()
        invariant
            c <= budget.categories@.len(),
            all == budget@.categories,
            given == cents(gives@),
            gives.len() == bills_of(all).len(),
            from == bills_of(all.take(c as int)).len(),
            sum(given) <= to_give(available as int),
            forall|i: int| 0 <= i < given.len() ==> 0 <= #[trigger] given[i],
            views(transfers@) == legs(all.take(c as int), given.take(from as int), pool@),
        decreases budget.categories@.len() - c,
    {
        let cat = &budget.categories[c];
        let n: usize = cat.bills.len();
        proof {
            assert(all[c as int] == cat@);
            lemma_bills_of_take(all, c as int);
            lemma_bills_of_grow(all, c + 1);
            lemma_part_of_a_sum(given, from as int, from + n, to_give(available as int));
        }
        push_category(cat, &gives, from, pool, &mut transfers);
        proof {
            let taken = given.take(from + n);
            assert(all.take(c + 1).drop_last() == all.take(c as int));
            assert(taken.take(from as int) == given.take(from as int));
            assert(taken.skip(from as int) == given.subrange(from as int, from + n));
        }
        from = from + n;
        c += 1;
    }
    assert(all.take(c as int) == all);
    assert(given.take(from as int) == given);
    transfers
}

// ---- What can be planned ----

fn monthly_is_ready(due_day: u32, today: Date, sched: &PaySchedule) -> (ready: bool)
    ensures
        ready == monthly_ready(due_day as int, today@, *sched),
{
    if due_day == 0 {
        return false;
    }
    let (y, m, _) = today.ymd();
    let this = due_date(y, m, due_day);
    let due = if this.number() >= today.number() {
        this
    } else {
        let (ny, nm) = next_month(y, m);
        proof {
            let len = month_len(ny as int, nm as int);
            lemma_calendar_bounds(ny as int, nm as int, if due_day <= len { due_day as int } else { len });
        }
        if ny > MAX_YEAR {
            return false;
        }
        due_date(ny, nm, due_day)
    };
    let irregular = match sched {
        PaySchedule::Irregular => true,
        _ => false,
    };
    proof {
        lemma_last_due_is_latest(due_day as int, due@ - 1, due@ - 1);
    }
    due.number() > FIRST_DAY && has_last_due(due_day, due.plus_days(-1)) && (irregular || due.number() + 2 <= LAST_DAY)
}

pub(crate) fn drawdown_is_ready(anchor: Date, period_months: u32, today: Date, sched: &PaySchedule) -> (ready: bool)
    ensures
        ready == drawdown_ready(anchor@, period_months as int, today@, *sched),
{
    let mut next = anchor;
    let _ = anchor.number();
    if period_months > 0 {
        while next.number() < today.number()
            invariant
                on_calendar(next@),
                period_months > 0,
                drawdown_next(next@, period_months as int, today@) == drawdown_next(
                    anchor@,
                    period_months as int,
                    today@,
                ),
            decreases (if next@ < today@ { today@ - next@ } else { 0 }),
        {
            proof {
                lemma_months_move_forward(next@, period_months as int);
                lemma_drawdown_next(shift_months(next@, period_months as int), period_months as int, today@);
            }
            match next.checked_add_months(period_months) {
                Some(d) => {
                    next = d;
                },
                None => {
                    return false;
                },
            }
        }
    }
    let prev = match next.checked_sub_months(period_months) {
        Some(prev) => prev,
        None => next,
    };
    let irregular = match sched {
        PaySchedule::Irregular => true,
        _ => false,
    };
    prev.number() + 1 <= LAST_DAY && (irregular || next.number() + 2 <= LAST_DAY)
}

/// Whether the dates that a bill is planned by can be represented.
pub fn bill_is_ready(bill: &Bill, today: Date, sched: &PaySchedule) -> (ready: bool)
    ensures
        ready == bill_ready(bill@, today@, *sched),
{
    match bill.due_day {
        Some(d) => sched.is_well_formed() && monthly_is_ready(d, today, sched),
        None => match &bill.frequency {
            Frequency::Paycheck | Frequency::Keep => true,
            Frequency::Drawdown { target, period_months } => sched.is_well_formed() && drawdown_is_ready(
                *target,
                *period_months,
                today,
                sched,
            ),
            _ => {
                let irregular = match sched {
                    PaySchedule::Irregular => true,
                    _ => false,
                };
                sched.is_well_formed() && (irregular || period_bounds(&bill.frequency, today).1.number() + 2 <= LAST_DAY)
            },
        },
    }
}

/// Whether the dates that a budget's bills are planned by can be represented.
pub fn budget_is_ready(budget: &Budget, today: Date, sched: &PaySchedule) -> (ready: bool)
    ensures
        ready == budget_ready(budget@, today@, *sched),
{
    let mut c: usize = 0;
    while c < budget.categories.len()
        invariant
            c <= budget.categories@.len(),
            forall|i: int, b: int|
                0 <= i < c && 0 <= b < budget@.categories[i].bills.len() ==> bill_ready(
                    #[trigger] budget@.categories[i].bills[b],
                    today@,
                    *sched,
                ),
        decreases budget.categories@.len() - c,
    {
        let bills = &budget.categories[c].bills;
        assert(budget@.categories[c as int] == budget.categories@[c as int]@);
        let mut b: usize = 0;
        while b < bills.len()
            invariant
                b <= bills@.len(),
                c < budget.categories@.len(),
                *bills == budget.categories@[c as int].bills,
                budget@.categories[c as int].bills == views(bills@),
                forall|j: int|
                    0 <= j < b ==> bill_ready(#[trigger] budget@.categories[c as int].bills[j], today@, *sched),
            decreases bills@.len() - b,
        {
            assert(budget@.categories[c as int].bills[b as int] == bills@[b as int]@);
            if !bill_is_ready(&bills[b], today, sched) {
                return false;
            }
            b += 1;
        }
        c += 1;
    }
    true
}

/// A bill that can be planned has a date to be ordered by.
pub proof fn lemma_ready_bills_have_an_order(bill: BillView, today: int, sched: PaySchedule)
    requires
        bill_ready(bill, today, sched),
        on_calendar(today),
    ensures
        on_calendar(ordered_by(bill, today)),
{
    if bill.due_day is None {
        lemma_ymd_exists(today);
        let (y, m, d) = ymd(today);
        lemma_calendar_bounds(y, m, d);
        let last = (m - 1) / 3 * 3 + 3;
        lemma_month_end(y, m);
        lemma_month_end(y, last);
        lemma_calendar_bounds(y, m, month_len(y, m));
        lemma_calendar_bounds(y, last, month_len(y, last));
        lemma_calendar_bounds(y, 12, 31);
    }
}

// ---- When a bill's money is needed ----

/// The dates of a drawdown: the anchor, then each moved on by the period from the one before.
pub open spec fn occurrence(anchor: int, period: int, k: nat) -> int
    decreases k,
{
    if k == 0 {
        anchor
    } else {
        shift_months(occurrence(anchor, period, (k - 1) as nat), period)
    }
}

proof fn lemma_occurrence_from_the_next(anchor: int, period: int, k: nat)
    ensures
        occurrence(shift_months(anchor, period), period, k) == occurrence(anchor, period, k + 1),
    decreases k,
{
    reveal_with_fuel(occurrence, 2);
    if k > 0 {
        lemma_occurrence_from_the_next(anchor, period, (k - 1) as nat);
    }
}

proof fn lemma_occurrences_ascend(anchor: int, period: int, k: nat)
    requires
        period > 0,
    ensures
        anchor <= occurrence(anchor, period, k),
    decreases k,
{
    if k > 0 {
        lemma_occurrences_ascend(anchor, period, (k - 1) as nat);
        lemma_months_move_forward(occurrence(anchor, period, (k - 1) as nat), period);
    }
}

/// The next date of a drawdown that recurs is one of its dates, not before today, and
/// none of its dates that is not before today comes earlier.
pub proof fn lemma_drawdown_next_is_the_first_to_come(anchor: int, period: int, today: int)
    requires
        period > 0,
    ensures
        today <= drawdown_next(anchor, period, today),
        exists|k: nat| drawdown_next(anchor, period, today) == #[trigger] occurrence(anchor, period, k),
        forall|j: nat|
            today <= #[trigger] occurrence(anchor, period, j) ==> drawdown_next(anchor, period, today) <= occurrence(
                anchor,
                period,
                j,
            ),
    decreases (if anchor < today { today - anchor } else { 0 }),
{
    if anchor >= today {
        assert(occurrence(anchor, period, 0) == anchor);
        assert forall|j: nat| today <= #[trigger] occurrence(anchor, period, j) implies anchor <= occurrence(
            anchor,
            period,
            j,
        ) by {
            lemma_occurrences_ascend(anchor, period, j);
        }
    } else {
        lemma_months_move_forward(anchor, period);
        let then = shift_months(anchor, period);
        lemma_drawdown_next_is_the_first_to_come(then, period, today);
        let k = choose|k: nat| drawdown_next(then, period, today) == #[trigger] occurrence(then, period, k);
        lemma_occurrence_from_the_next(anchor, period, k);
        assert(drawdown_next(anchor, period, today) == occurrence(anchor, period, k + 1));
        assert forall|j: nat| today <= #[trigger] occurrence(anchor, period, j) implies drawdown_next(
            anchor,
            period,
            today,
        ) <= occurrence(anchor, period, j) by {
            assert(j > 0);
            lemma_occurrence_from_the_next(anchor, period, (j - 1) as nat);
        }
    }
}

/// A due date is the due day of its month or, where the month is shorter, its last day.
pub proof fn lemma_due_dates_are_clamped(due_day: int, n: int)
    requires
        1 <= due_day,
    ensures
        is_due(due_day, n) <==> day_of(n) == due_day || (day_of(n) == month_len(year_of(n), month_of(n)) && day_of(n)
            < due_day),
{
    lemma_ymd_exists(n);
    let (y, m, d) = ymd(n);
    let len = month_len(y, m);
    lemma_numbers_follow_the_calendar(y, m, d, y, m, if due_day <= len { due_day } else { len });
}

/// A bill is rationed by the date its money is next needed. With a due day: its first
/// due date from today on. A drawdown: the first of its dates from today on. A top-up
/// and a kept level: today. Any other: the last day of the month, quarter or year.
pub proof fn lemma_rationed_by_the_date_of_need(bill: BillView, today: int)
    requires
        bill.due_day matches Some(d) ==> 1 <= d,
    ensures
        bill.due_day matches Some(d) ==> {
            &&& today <= ordered_by(bill, today)
            &&& is_due(d, ordered_by(bill, today))
            &&& forall|n: int| today <= n && #[trigger] is_due(d, n) ==> ordered_by(bill, today) <= n
        },
        bill.due_day is None ==> match bill.frequency {
            FrequencyView::Drawdown { target, period_months } => if period_months > 0 {
                &&& today <= ordered_by(bill, today)
                &&& exists|k: nat| ordered_by(bill, today) == #[trigger] occurrence(target, period_months, k)
                &&& forall|j: nat|
                    today <= #[trigger] occurrence(target, period_months, j) ==> ordered_by(bill, today) <= occurrence(
                        target,
                        period_months,
                        j,
                    )
            } else {
                ordered_by(bill, today) == target
            },
            FrequencyView::Paycheck => ordered_by(bill, today) == today,
            FrequencyView::Keep => ordered_by(bill, today) == today,
            FrequencyView::Month => ends_period(today, ordered_by(bill, today), 1),
            FrequencyView::Quarter => ends_period(today, ordered_by(bill, today), 3),
            FrequencyView::Year => ends_period(today, ordered_by(bill, today), 12),
        },
{
    match bill.due_day {
        Some(d) => {
            lemma_due_after_is_next(today, d, today);
            assert forall|n: int| today <= n && #[trigger] is_due(d, n) implies ordered_by(bill, today) <= n by {
                lemma_due_after_is_next(today, d, n);
            }
        },
        None => {
            if let FrequencyView::Drawdown { target, period_months } = bill.frequency {
                if period_months > 0 {
                    lemma_drawdown_next_is_the_first_to_come(target, period_months, today);
                }
            } else {
                lemma_periods_end(bill.frequency, today);
            }
        },
    }
}

/// `last` is the last day of the stretch of `months` months of the year that `today` lies in.
pub open spec fn ends_period(today: int, last: int, months: int) -> bool {
    &&& year_of(last) == year_of(today)
    &&& month_of(last) % months == 0
    &&& month_of(last) - months < month_of(today) <= month_of(last)
    &&& day_of(last) == month_len(year_of(last), month_of(last))
}

/// `first` is the first day of the stretch of `months` months of the year that `today` lies in.
pub open spec fn starts_period(today: int, first: int, months: int) -> bool {
    &&& year_of(first) == year_of(today)
    &&& (month_of(first) - 1) % months == 0
    &&& month_of(first) <= month_of(today) < month_of(first) + months
    &&& day_of(first) == 1
}

/// A month's period is that month, a quarter's its three months, a year's all twelve:
/// from the first of the first month to the end of the last.
pub proof fn lemma_periods_end(freq: FrequencyView, today: int)
    ensures
        freq is Month ==> starts_period(today, period(freq, today).0, 1) && ends_period(today, period(freq, today).1, 1),
        freq is Quarter ==> starts_period(today, period(freq, today).0, 3) && ends_period(
            today,
            period(freq, today).1,
            3,
        ),
        freq is Year ==> starts_period(today, period(freq, today).0, 12) && ends_period(today, period(freq, today).1, 12),
{
    lemma_ymd_exists(today);
    let (y, m, d) = ymd(today);
    let first = (m - 1) / 3 * 3 + 1;
    lemma_month_end(y, m);
    lemma_month_end(y, first + 2);
    lemma_ymd_is_unique(day_number(y, m, 1), y, m, 1);
    lemma_ymd_is_unique(day_number(y, first, 1), y, first, 1);
    lemma_ymd_is_unique(day_number(y, 1, 1), y, 1, 1);
    lemma_ymd_is_unique(month_end(y, m), y, m, month_len(y, m));
    lemma_ymd_is_unique(month_end(y, first + 2), y, first + 2, month_len(y, first + 2));
    lemma_ymd_is_unique(day_number(y, 12, 31), y, 12, 31);
}

// ---- What a bill should hold ----

/// `part` is what `come` of `all` equal shares of `amount` make, rounded down; all of
/// the amount where there is no share to wait for.
pub open spec fn evenly(part: int, amount: int, come: int, all: int) -> bool {
    if all == 0 {
        part == amount
    } else {
        part * all <= amount * come < (part + 1) * all
    }
}

proof fn lemma_share_is_even(amount: int, come: int, all: int)
    requires
        amount >= 0,
        all > 0,
    ensures
        evenly(share_of(amount, come, all), amount, come, all),
{
    let x = amount * come;
    assert((x / all) * all <= x < (x / all + 1) * all) by (nonlinear_arith)
        requires
            all > 0,
    ;
}

/// What accrues by a day is an equal share of the amount for each payday that has come.
pub proof fn lemma_accrual_is_even(amount: int, sched: PaySchedule, start: int, end: int, today: int)
    requires
        amount >= 0,
        today <= end,
    ensures
        evenly(
            accrued(amount, sched, start, end, today),
            amount,
            sched.paydays(start, today).len() as int,
            sched.paydays(start, end).len() as int,
        ),
{
    if sched.paydays(start, end).len() > 0 {
        lemma_share_is_even(
            amount,
            sched.paydays(start, today).len() as int,
            sched.paydays(start, end).len() as int,
        );
    }
}

/// Between two due dates, a bill with a due day should hold an equal share for each
/// payday that has come since the first, of all those up to the second.
pub proof fn lemma_due_bills_accrue_between_due_dates(
    bill: BillView,
    due_day: int,
    today: int,
    sched: PaySchedule,
    last: int,
    next: int,
)
    requires
        bill.due_day == Some(due_day),
        1 <= due_day,
        bill.amount_cents >= 0,
        is_due(due_day, last),
        is_due(due_day, next),
        last < today <= next,
        forall|n: int| last < n < next ==> !#[trigger] is_due(due_day, n),
    ensures
        evenly(
            target_of(bill, today, sched),
            bill.amount_cents,
            sched.paydays(last + 1, today).len() as int,
            sched.paydays(last + 1, next).len() as int,
        ),
{
    let due = due_after(today, due_day);
    lemma_due_after_is_next(today, due_day, next);
    assert(due == next) by {
        assert(!(last < due < next) || !is_due(due_day, due));
    }
    let before = last_due(due_day, due - 1);
    lemma_last_due_is_latest(due_day, due - 1, last);
    assert(before == last) by {
        assert(!(last < before < next) || !is_due(due_day, before));
    }
    lemma_accrual_is_even(bill.amount_cents, sched, last + 1, next, today);
}

/// A bill without a due day that is not income-funded should hold an equal share for
/// each payday that has come of its month, quarter or year.
pub proof fn lemma_other_bills_accrue_over_their_period(
    bill: BillView,
    today: int,
    sched: PaySchedule,
    months: int,
    first: int,
    last: int,
)
    requires
        bill.due_day is None,
        bill.amount_cents >= 0,
        bill.frequency is Month && months == 1 || bill.frequency is Quarter && months == 3 || bill.frequency is Year
            && months == 12,
        starts_period(today, first, months),
        ends_period(today, last, months),
    ensures
        evenly(
            target_of(bill, today, sched),
            bill.amount_cents,
            sched.paydays(first, today).len() as int,
            sched.paydays(first, last).len() as int,
        ),
{
    let (start, end) = period(bill.frequency, today);
    lemma_periods_end(bill.frequency, today);
    lemma_today_is_in_its_period(bill.frequency, today);
    lemma_ymd_exists(first);
    lemma_ymd_exists(last);
    lemma_ymd_exists(start);
    lemma_ymd_exists(end);
    lemma_ymd_exists(today);
    assert(month_of(start) == month_of(first));
    assert(month_of(end) == month_of(last));
    lemma_accrual_is_even(bill.amount_cents, sched, first, last, today);
}

/// A top-up and a kept level are flat: all of the amount, on any day and any schedule.
pub proof fn lemma_flat_bills_target_their_amount(bill: BillView, today: int, sched: PaySchedule)
    requires
        bill.due_day is None,
        bill.frequency is Paycheck || bill.frequency is Keep,
    ensures
        target_of(bill, today, sched) == bill.amount_cents,
{
}

/// A drawdown targets one paycheck's equal share of its amount, over the paychecks of
/// the period that ends on its next date; and by that date as many shares have come as
/// there are paychecks, so that it is on track with an equal share for each.
pub proof fn lemma_drawdowns_are_spread_over_their_period(bill: BillView, today: int, sched: PaySchedule)
    requires
        bill.due_day is None,
        bill.amount_cents >= 0,
        bill.frequency is Drawdown,
        bill.frequency->period_months > 0,
        on_calendar(shift_months(ordered_by(bill, today), -bill.frequency->period_months)),
    ensures
        ({
            let next = ordered_by(bill, today);
            let start = shift_months(next, -bill.frequency->period_months) + 1;
            let all = sched.paydays(start, next).len() as int;
            &&& evenly(target_of(bill, today, sched), bill.amount_cents, 1, all)
            &&& evenly(
                on_track(bill.amount_cents, bill.frequency->target, bill.frequency->period_months, today, sched),
                bill.amount_cents,
                sched.paydays(start, today).len() as int,
                all,
            )
        }),
{
    let (anchor, period) = (bill.frequency->target, bill.frequency->period_months);
    let next = drawdown_next(anchor, period, today);
    lemma_drawdown_next(anchor, period, today);
    let start = drawdown_prev(next, period) + 1;
    if sched.paydays(start, next).len() > 0 {
        lemma_share_is_even(bill.amount_cents, 1, sched.paydays(start, next).len() as int);
    }
    lemma_accrual_is_even(bill.amount_cents, sched, start, next, today);
}

// ---- What a plan gives to whom ----

/// The level that a strategy brings a bill to: all of its amount under the strict
/// envelope, else what it should hold today.
pub open spec fn level_of(bill: BillView, today: int, sched: PaySchedule, strategy: FundingStrategy) -> int {
    if strategy == FundingStrategy::StrictEnvelope {
        bill.amount_cents
    } else {
        target_of(bill, today, sched)
    }
}

/// What each bill's pod lacks of that level.
pub open spec fn lacks(
    budget: BudgetView,
    balances: Map<Seq<char>, i64>,
    today: int,
    sched: PaySchedule,
    strategy: FundingStrategy,
) -> Seq<int> {
    let bills = bills_of(budget.categories);
    Seq::new(
        bills.len(),
        |i: int|
            {
                let lack = level_of(bills[i], today, sched, strategy) - amount_of(balances, bills[i].pod_id);
                if lack > 0 {
                    lack
                } else {
                    0
                }
            },
    )
}

/// A bill is never given a negative amount, nor more than brings its pod to the level
/// of the strategy; and a pod at its level is given nothing.
pub proof fn lemma_gives_stop_at_the_level(
    budget: BudgetView,
    balances: Map<Seq<char>, i64>,
    today: int,
    sched: PaySchedule,
    strategy: FundingStrategy,
    i: int,
)
    requires
        0 <= i < bills_of(budget.categories).len(),
    ensures
        ({
            let bill = bills_of(budget.categories)[i];
            let give = plan_gives(budget, balances, today, sched, strategy)[i];
            &&& 0 <= give
            &&& give > 0 ==> amount_of(balances, bill.pod_id) + give <= level_of(bill, today, sched, strategy)
        }),
{
    let items = items_of(bills_of(budget.categories), balances, today, sched);
    lemma_allocation_stops_at_the_level(items, amount_of(balances, budget.pool_pod_id) as int, strategy, i);
}

/// Where the pool holds all that the pods lack, every pod is brought to its level.
pub proof fn lemma_a_full_pool_levels_every_bill(
    budget: BudgetView,
    balances: Map<Seq<char>, i64>,
    today: int,
    sched: PaySchedule,
    strategy: FundingStrategy,
)
    requires
        sum(lacks(budget, balances, today, sched, strategy)) <= amount_of(balances, budget.pool_pod_id),
    ensures
        plan_gives(budget, balances, today, sched, strategy) == lacks(budget, balances, today, sched, strategy),
{
    let items = items_of(bills_of(budget.categories), balances, today, sched);
    assert(wants(items, strategy) == lacks(budget, balances, today, sched, strategy));
    lemma_enough_for_all(items, amount_of(balances, budget.pool_pod_id) as int, strategy);
}

/// Funded in due order, a bill whose money is needed earlier is served earlier (of
/// those needed on one day, the one that stands first): nothing goes to a later bill
/// before the earlier one's pod is at its level.
pub proof fn lemma_earlier_needs_are_served_first(
    budget: BudgetView,
    balances: Map<Seq<char>, i64>,
    today: int,
    sched: PaySchedule,
    strategy: FundingStrategy,
    earlier: int,
    later: int,
)
    requires
        strategy != FundingStrategy::Proportional,
        0 <= earlier < bills_of(budget.categories).len(),
        0 <= later < bills_of(budget.categories).len(),
        ({
            let a = ordered_by(bills_of(budget.categories)[earlier], today);
            let b = ordered_by(bills_of(budget.categories)[later], today);
            a < b || a == b && earlier < later
        }),
        plan_gives(budget, balances, today, sched, strategy)[later] > 0,
    ensures
        ({
            let bill = bills_of(budget.categories)[earlier];
            amount_of(balances, bill.pod_id) + plan_gives(budget, balances, today, sched, strategy)[earlier]
                >= level_of(bill, today, sched, strategy)
        }),
{
    let items = items_of(bills_of(budget.categories), balances, today, sched);
    let w = wants(items, strategy);
    let available = to_give(amount_of(balances, budget.pool_pod_id) as int);
    if in_turn(w, dues(items), available)[earlier] < w[earlier] {
        lemma_in_turn_protects_the_nearer(w, dues(items), available, earlier, later);
    }
}

/// Funded in due order, a bill goes short only where the pool is spent to the last cent.
pub proof fn lemma_short_only_where_the_pool_is_spent(
    budget: BudgetView,
    balances: Map<Seq<char>, i64>,
    today: int,
    sched: PaySchedule,
    strategy: FundingStrategy,
    i: int,
)
    requires
        strategy != FundingStrategy::Proportional,
        0 <= i < bills_of(budget.categories).len(),
        amount_of(balances, bills_of(budget.categories)[i].pod_id) + plan_gives(
            budget,
            balances,
            today,
            sched,
            strategy,
        )[i] < level_of(bills_of(budget.categories)[i], today, sched, strategy),
    ensures
        ({
            let pool = amount_of(balances, budget.pool_pod_id) as int;
            sum(plan_gives(budget, balances, today, sched, strategy)) == if pool > 0 {
                pool
            } else {
                0
            }
        }),
{
    let items = items_of(bills_of(budget.categories), balances, today, sched);
    let w = wants(items, strategy);
    let available = to_give(amount_of(balances, budget.pool_pod_id) as int);
    lemma_in_turn_takes_what_there_is(w, dues(items), available);
    if sum(w) <= available {
        lemma_sum_nonnegative(w);
        if amount_of(balances, budget.pool_pod_id) > 0 {
            lemma_enough_for_all(items, available, strategy);
            assert(plan_gives(budget, balances, today, sched, strategy)[i] == w[i]);
        } else {
            lemma_sum_of_nothing(w, i);
        }
    }
}

/// Where the pool falls short, a proportional split gives each bill the part of the
/// pool that its lack is of all that is lacking, rounded down to the cent.
pub proof fn lemma_a_short_pool_is_split_by_need(
    budget: BudgetView,
    balances: Map<Seq<char>, i64>,
    today: int,
    sched: PaySchedule,
    i: int,
)
    requires
        0 <= i < bills_of(budget.categories).len(),
        0 <= amount_of(balances, budget.pool_pod_id) < sum(
            lacks(budget, balances, today, sched, FundingStrategy::Proportional),
        ),
    ensures
        ({
            let lack = lacks(budget, balances, today, sched, FundingStrategy::Proportional);
            evenly(
                plan_gives(budget, balances, today, sched, FundingStrategy::Proportional)[i],
                amount_of(balances, budget.pool_pod_id) as int,
                lack[i],
                sum(lack),
            )
        }),
{
    let items = items_of(bills_of(budget.categories), balances, today, sched);
    let lack = lacks(budget, balances, today, sched, FundingStrategy::Proportional);
    assert(wants(items, FundingStrategy::Proportional) == lack);
    lemma_share_is_even(amount_of(balances, budget.pool_pod_id) as int, lack[i], sum(lack));
}

// ---- How the money travels ----

/// A transfer from the pool to a category's pod.
pub open spec fn funds_category(t: PlannedTransferView, category: CategoryView, pool: Seq<char>) -> bool {
    &&& t.from_pod == pool
    &&& t.to_pod == category.pod_id
    &&& t.reason == "fund category "@ + category.name
}

/// A transfer from a category's pod to the pod of one of its bills.
pub open spec fn funds_bill(t: PlannedTransferView, category: CategoryView, b: int) -> bool {
    &&& 0 <= b < category.bills.len()
    &&& t.from_pod == category.pod_id
    &&& t.to_pod == category.bills[b].pod_id
    &&& t.reason == "fund bill "@ + category.bills[b].name
}

proof fn lemma_bill_legs_fund_bills(category: CategoryView, gives: Seq<int>, k: int)
    requires
        gives.len() <= category.bills.len(),
        0 <= k < bill_legs(category, gives).len(),
    ensures
        exists|b: int| #[trigger] funds_bill(bill_legs(category, gives)[k], category, b),
    decreases gives.len(),
{
    if gives.len() > 0 {
        let rest = bill_legs(category, gives.drop_last());
        let t = bill_legs(category, gives)[k];
        if k < rest.len() {
            lemma_bill_legs_fund_bills(category, gives.drop_last(), k);
            assert(t == rest[k]);
        } else {
            assert(funds_bill(t, category, gives.len() - 1));
        }
    }
}

/// Every transfer of a plan goes from the pool to a category's pod, or from there on
/// to one of that category's bills, and says so.
pub proof fn lemma_every_transfer_funds_a_category_or_its_bill(
    budget: BudgetView,
    balances: Map<Seq<char>, i64>,
    today: int,
    sched: PaySchedule,
    strategy: FundingStrategy,
    k: int,
)
    requires
        0 <= k < planned(budget, balances, today, sched, strategy).len(),
    ensures
        ({
            let t = planned(budget, balances, today, sched, strategy)[k];
            exists|c: int|
                0 <= c < budget.categories.len() && (funds_category(
                    t,
                    #[trigger] budget.categories[c],
                    budget.pool_pod_id,
                ) || exists|b: int| #[trigger] funds_bill(t, budget.categories[c], b))
        }),
{
    lemma_legs_fund(budget.categories, plan_gives(budget, balances, today, sched, strategy), budget.pool_pod_id, k);
}

proof fn lemma_legs_fund(categories: Seq<CategoryView>, gives: Seq<int>, pool: Seq<char>, k: int)
    requires
        gives.len() == bills_of(categories).len(),
        0 <= k < legs(categories, gives, pool).len(),
    ensures
        exists|c: int|
            0 <= c < categories.len() && (funds_category(
                legs(categories, gives, pool)[k],
                #[trigger] categories[c],
                pool,
            ) || exists|b: int| #[trigger] funds_bill(legs(categories, gives, pool)[k], categories[c], b)),
    decreases categories.len(),
{
    let before = categories.drop_last();
    let category = categories.last();
    let n = bills_of(before).len() as int;
    let own = gives.skip(n);
    let rest = legs(before, gives.take(n), pool);
    let t = legs(categories, gives, pool)[k];
    let last = categories.len() - 1;
    if k < rest.len() {
        lemma_legs_fund(before, gives.take(n), pool, k);
        assert(t == rest[k]);
        let c = choose|c: int|
            0 <= c < before.len() && (funds_category(t, #[trigger] before[c], pool) || exists|b: int|
                #[trigger] funds_bill(t, before[c], b));
        assert(categories[c] == before[c]);
    } else {
        let j = k - rest.len();
        let straight = bill_legs(category, own);
        assert(t == category_legs(category, own, pool)[j]);
        assert(categories[last] == category);
        if category.pod_id == pool {
            lemma_bill_legs_fund_bills(category, own, j);
        } else if j == 0 {
            assert(funds_category(t, category, pool));
        } else {
            assert(t == straight[j - 1]);
            lemma_bill_legs_fund_bills(category, own, j - 1);
        }
    }
}

/// At every step of a plan, no category's pod has sent on more than it has got: the
/// money is there before it is passed on.
pub proof fn lemma_money_arrives_before_it_is_passed_on(
    budget: BudgetView,
    balances: Map<Seq<char>, i64>,
    today: int,
    sched: PaySchedule,
    strategy: FundingStrategy,
    pod: Seq<char>,
    k: int,
)
    requires
        pod != budget.pool_pod_id,
        0 <= k <= planned(budget, balances, today, sched, strategy).len(),
    ensures
        ({
            let sofar = planned(budget, balances, today, sched, strategy).take(k);
            outflow(sofar, pod) <= inflow(sofar, pod)
        }),
{
    let gives = plan_gives(budget, balances, today, sched, strategy);
    lemma_allocation_is_bounded(
        items_of(bills_of(budget.categories), balances, today, sched),
        amount_of(balances, budget.pool_pod_id) as int,
        strategy,
    );
    lemma_legs_arrive_first(budget.categories, gives, budget.pool_pod_id, pod, k);
}

proof fn lemma_flows_are_not_negative(legs: Seq<PlannedTransferView>, pod: Seq<char>, k: int)
    requires
        0 <= k <= legs.len(),
        forall|i: int| 0 <= i < legs.len() ==> 0 <= (#[trigger] legs[i]).amount_cents,
    ensures
        0 <= inflow(legs.take(k), pod) <= inflow(legs, pod),
        0 <= outflow(legs.take(k), pod) <= outflow(legs, pod),
    decreases legs.len(),
{
    if k == legs.len() {
        assert(legs.take(k) == legs);
        if k > 0 {
            lemma_flows_are_not_negative(legs.drop_last(), pod, k - 1);
            assert(legs.drop_last().take(k - 1) == legs.drop_last());
        }
    } else {
        lemma_flows_are_not_negative(legs.drop_last(), pod, k);
        assert(legs.drop_last().take(k) == legs.take(k));
    }
}

proof fn lemma_category_arrives_first(category: CategoryView, gives: Seq<int>, pool: Seq<char>, pod: Seq<char>, k: int)
    requires
        forall|i: int| 0 <= i < gives.len() ==> 0 <= #[trigger] gives[i],
        pod != pool,
        0 <= k <= category_legs(category, gives, pool).len(),
    ensures
        outflow(category_legs(category, gives, pool).take(k), pod) <= inflow(
            category_legs(category, gives, pool).take(k),
            pod,
        ),
{
    let all = category_legs(category, gives, pool);
    let bills = bill_legs(category, gives);
    lemma_bill_legs_outflow(category, gives, pod);
    lemma_category_nets_to_zero(category, gives, pool);
    lemma_flows_are_not_negative(all, pod, k);
    if sum(gives) != 0 && category.pod_id != pool && k > 0 {
        let head = all.take(1);
        let tail = bills.take(k - 1);
        assert(all.take(k) == head + tail);
        lemma_outflow_add(head, tail, pod);
        lemma_inflow_add(head, tail, pod);
        lemma_flows_are_not_negative(bills, pod, k - 1);
        assert(head.drop_last() == Seq::<PlannedTransferView>::empty());
        assert(outflow(head, pod) == 0) by {
            assert(outflow(head.drop_last(), pod) == 0);
        }
        assert(inflow(head, pod) == if category.pod_id == pod { sum(gives) } else { 0 }) by {
            assert(inflow(head.drop_last(), pod) == 0);
        }
    } else if sum(gives) != 0 && category.pod_id == pool {
        assert(all == bills);
    }
}

proof fn lemma_legs_arrive_first(
    categories: Seq<CategoryView>,
    gives: Seq<int>,
    pool: Seq<char>,
    pod: Seq<char>,
    k: int,
)
    requires
        gives.len() == bills_of(categories).len(),
        forall|i: int| 0 <= i < gives.len() ==> 0 <= #[trigger] gives[i],
        pod != pool,
        0 <= k <= legs(categories, gives, pool).len(),
    ensures
        outflow(legs(categories, gives, pool).take(k), pod) <= inflow(legs(categories, gives, pool).take(k), pod),
    decreases categories.len(),
{
    if categories.len() > 0 {
        let before = categories.drop_last();
        let n = bills_of(before).len() as int;
        let rest = legs(before, gives.take(n), pool);
        let own = category_legs(categories.last(), gives.skip(n), pool);
        let all = legs(categories, gives, pool);
        if k <= rest.len() {
            assert(all.take(k) == rest.take(k));
            lemma_legs_arrive_first(before, gives.take(n), pool, pod, k);
        } else {
            let j = k - rest.len();
            assert(all.take(k) == rest + own.take(j));
            lemma_legs_arrive_first(before, gives.take(n), pool, pod, rest.len() as int);
            assert(rest.take(rest.len() as int) == rest);
            lemma_category_arrives_first(categories.last(), gives.skip(n), pool, pod, j);
            lemma_outflow_add(rest, own.take(j), pod);
            lemma_inflow_add(rest, own.take(j), pod);
        }
    }
}

} // verus!
