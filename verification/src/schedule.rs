//! Pay schedule: when paychecks land. Cadence is *declared* (discovered once,
//! saved), never hardcoded; a `PaySchedule` enumerates real paydays in any range
//! so downstream counts actual paydays. Weekend paydays shift EARLIER to the
//! preceding Friday (paychecks never arrive later). Pure date math.

use crate::date::{
    day_number, day_of, is_ymd, lemma_calendar_bounds, lemma_numbers_follow_the_calendar, lemma_year_length,
    lemma_ymd_exists, month_len, month_length, month_of, on_calendar, representable, weekday_of, year_of, ymd, Date, Weekday, FIRST_DAY, LAST_DAY, MIN_YEAR,
};
use vstd::prelude::*;

verus! {

/// The day numbers of some dates.
pub open spec fn numbers(dates: Seq<Date>) -> Seq<int> {
    Seq::new(dates.len(), |i: int| dates[i]@)
}

/// The year and month that follow.
pub open spec fn month_after(year: int, month: int) -> (int, int) {
    if month == 12 {
        (year + 1, 1)
    } else {
        (year, month + 1)
    }
}

pub fn next_month(y: i32, m: u32) -> (next: (i32, u32))
    requires
        m == 12 ==> y < i32::MAX,
        m < u32::MAX,
    ensures
        (next.0 as int, next.1 as int) == month_after(y as int, m as int),
{
    if m == 12 {
        (y + 1, 1)
    } else {
        (y, m + 1)
    }
}

/// The last day of a month: the day before the first of the month that follows.
pub open spec fn month_end(year: int, month: int) -> int {
    day_number(month_after(year, month).0, month_after(year, month).1, 1) - 1
}

/// The last day of a month is the one numbered by the month's length.
pub proof fn lemma_month_end(year: int, month: int)
    requires
        1 <= month <= 12,
    ensures
        month_end(year, month) == day_number(year, month, month_len(year, month)),
{
    if month == 12 {
        lemma_year_length(year);
        assert(crate::date::days_before_month(year + 1, 1) == 0);
    } else {
        assert(crate::date::days_before_month(year, month + 1) == crate::date::days_before_month(
            year,
            month,
        ) + month_len(year, month));
    }
}

pub fn last_day_of_month(year: i32, month: u32) -> (last: Date)
    requires
        month <= 12,
        representable(month_after(year as int, month as int).0, month_after(year as int, month as int).1, 1),
        on_calendar(month_end(year as int, month as int)),
    ensures
        last@ == month_end(year as int, month as int),
{
    let (y, m) = next_month(year, month);
    Date::from_ymd_opt(y, m, 1).unwrap().plus_days(-1)
}

/// The Friday before a weekend day, any other day itself.
pub open spec fn shifted(n: int) -> int {
    if weekday_of(n) == 5 {
        n - 1
    } else if weekday_of(n) == 6 {
        n - 2
    } else {
        n
    }
}

/// Shift a weekend date back to the preceding Friday.
pub fn shift_for_weekend(d: Date) -> (paid: Date)
    requires
        on_calendar(shifted(d@)),
    ensures
        paid@ == shifted(d@),
{
    let weekday = d.weekday();
    if weekday == 5 {
        d.plus_days(-1)
    } else if weekday == 6 {
        d.plus_days(-2)
    } else {
        d
    }
}

/// A paycheck never comes later than it is scheduled: it lands on the day itself or,
/// for a weekend, on the Friday before.
pub proof fn lemma_paychecks_never_come_later(n: int)
    ensures
        n - 2 <= shifted(n) <= n,
        weekday_of(shifted(n)) < 5,
        weekday_of(n) < 5 ==> shifted(n) == n,
{
}

/// A day of the month where a negative one means "the last day" (clamped to month length).
pub open spec fn month_day(year: int, month: int, day: int) -> int {
    let len = month_len(year, month);
    day_number(year, month, if day < 0 || len < day { len } else { day })
}

/// A day of the month where `-1` means "the last day" (clamped to month length).
pub fn resolve_month_day(year: i32, month: u32, day: i32) -> (date: Date)
    requires
        day != 0,
        representable(year as int, month as int, 1),
    ensures
        date@ == month_day(year as int, month as int, day as int),
{
    let last = month_length(year, month);
    let d: u32 = if day < 0 || last < day as u32 {
        last
    } else {
        day as u32
    };
    Date::from_ymd_opt(year, month, d).unwrap()
}

/// How paychecks recur. Discovered from income history and saved; the engine
/// reads it back rather than assuming a cadence.
#[derive(Debug, PartialEq, Eq)]
pub enum PaySchedule {
    /// Fixed days of each month, e.g. `[15, -1]` for the 15th and last day.
    SemiMonthly { days: Vec<i32> },
    /// One fixed day of each month (`-1` = last day).
    Monthly { day: i32 },
    /// Every 14 days from an anchor payday.
    Biweekly { anchor: Date },
    /// A fixed weekday, every week.
    Weekly { weekday: Weekday },
    /// No detectable cadence — cannot be scheduled against.
    Irregular,
}

pub ghost enum PayScheduleView {
    SemiMonthly { days: Seq<i32> },
    Monthly { day: i32 },
    Biweekly { anchor: int },
    Weekly { weekday: Weekday },
    Irregular,
}

impl View for PaySchedule {
    type V = PayScheduleView;

    open spec fn view(&self) -> PayScheduleView {
        match self {
            PaySchedule::SemiMonthly { days } => PayScheduleView::SemiMonthly { days: days@ },
            PaySchedule::Monthly { day } => PayScheduleView::Monthly { day: *day },
            PaySchedule::Biweekly { anchor } => PayScheduleView::Biweekly { anchor: anchor@ },
            PaySchedule::Weekly { weekday } => PayScheduleView::Weekly { weekday: *weekday },
            PaySchedule::Irregular => PayScheduleView::Irregular,
        }
    }
}

/// The day `n` is the `day` of its month.
pub open spec fn falls_on(day: i32, n: int) -> bool {
    n == month_day(year_of(n), month_of(n), day as int)
}

/// How many of the month's pay days name the day `n`.
pub open spec fn times_named(days: Seq<i32>, n: int) -> nat
    decreases days.len(),
{
    if days.len() == 0 {
        0
    } else {
        times_named(days.drop_last(), n) + if falls_on(days.last(), n) { 1nat } else { 0nat }
    }
}

/// `n` copies of a day.
pub open spec fn copies(day: int, n: nat) -> Seq<int> {
    Seq::new(n, |i: int| day)
}

/// The last `n` days of an ascending list (all of them where there are fewer), newest first.
pub open spec fn newest(days: Seq<int>, n: nat) -> Seq<int> {
    Seq::new(
        if n <= days.len() {
            n
        } else {
            days.len()
        },
        |i: int| days[days.len() - 1 - i],
    )
}

impl PaySchedule {
    /// Every day of the month that the schedule names exists: none is 0.
    pub open spec fn well_formed(&self) -> bool {
        match self {
            PaySchedule::SemiMonthly { days } => forall|i: int| 0 <= i < days@.len() ==> #[trigger] days@[i] != 0,
            PaySchedule::Monthly { day } => *day != 0,
            _ => true,
        }
    }

    /// Whether every day of the month that the schedule names exists.
    pub fn is_well_formed(&self) -> (ok: bool)
        ensures
            ok == self.well_formed(),
    {
        match self {
            PaySchedule::SemiMonthly { days } => {
                let mut i: usize = 0;
                while i < days.len()
                    invariant
                        i <= days@.len(),
                        *self == (PaySchedule::SemiMonthly { days: *days }),
                        forall|j: int| 0 <= j < i ==> #[trigger] days@[j] != 0,
                    decreases days@.len() - i,
                {
                    if days[i] == 0 {
                        assert(self->SemiMonthly_days@[i as int] == 0);
                        return false;
                    }
                    i += 1;
                }
                true
            },
            PaySchedule::Monthly { day } => *day != 0,
            _ => true,
        }
    }

    /// How many paychecks are scheduled for the day `n`, before any weekend shift.
    pub open spec fn scheduled(&self, n: int) -> nat {
        match self {
            PaySchedule::SemiMonthly { days } => times_named(days@, n),
            PaySchedule::Monthly { day } => if falls_on(*day, n) { 1 } else { 0 },
            PaySchedule::Biweekly { anchor } => if (n - anchor@) % 14 == 0 { 1 } else { 0 },
            PaySchedule::Weekly { weekday } => if weekday_of(n) == weekday.index() { 1 } else { 0 },
            PaySchedule::Irregular => 0,
        }
    }

    /// How many of the paychecks scheduled for the day `n` land on the day `paid`.
    pub open spec fn landing(&self, n: int, paid: int) -> nat {
        if shifted(n) == paid { self.scheduled(n) } else { 0 }
    }

    /// How many paychecks land on the day `n`: those scheduled for it and those
    /// of the weekend after it.
    pub open spec fn paid_on(&self, n: int) -> nat {
        self.landing(n, n) + self.landing(n + 1, n) + self.landing(n + 2, n)
    }

    /// The days in `from..=to` on which paychecks land, ascending, each as often
    /// as paychecks land on it.
    pub open spec fn paydays(&self, from: int, to: int) -> Seq<int>
        decreases to - from + 1,
    {
        if to < from {
            Seq::empty()
        } else {
            self.paydays(from, to - 1) + copies(to, self.paid_on(to))
        }
    }

    /// Appends the day `paid` as often as a paycheck is scheduled for `n` and lands there.
    fn push_landing(&self, n: Date, paid: Date, out: &mut Vec<Date>)
        requires
            self.well_formed(),
        ensures
            numbers(final(out)@) == numbers(old(out)@) + copies(paid@, self.landing(n@, paid@)),
    {
        let ghost before = out@;
        let weekday = n.weekday();
        let back: i32 = if weekday == 5 { 1 } else if weekday == 6 { 2 } else { 0 };
        if n.number() - back != paid.number() {
            assert(numbers(out@) == numbers(before) + copies(paid@, 0));
            return;
        }
        let (y, m, d) = n.ymd();
        proof {
            lemma_calendar_bounds(y as int, m as int, d as int);
        }
        match self {
            PaySchedule::SemiMonthly { days } => {
                let mut i: usize = 0;
                assert(numbers(out@) == numbers(before) + copies(paid@, times_named(days@.take(0), n@)));
                while i < days.len()
                    invariant
                        i <= days@.len(),
                        forall|k: int| 0 <= k < days@.len() ==> #[trigger] days@[k] != 0,
                        is_ymd(n@, y as int, m as int, d as int),
                        ymd(n@) == (y as int, m as int, d as int),
                        representable(y as int, m as int, d as int),
                        numbers(out@) == numbers(before) + copies(paid@, times_named(days@.take(i as int), n@)),
                    decreases days@.len() - i,
                {
                    let ghost sofar = out@;
                    assert(days@.take(i + 1).drop_last() == days@.take(i as int));
                    if resolve_month_day(y, m, days[i]).number() == n.number() {
                        out.push(paid);
                        assert(numbers(out@) == numbers(sofar).push(paid@));
                    }
                    i += 1;
                    assert(numbers(out@) == numbers(before) + copies(paid@, times_named(days@.take(i as int), n@)));
                }
                assert(days@.take(days@.len() as int) == days@);
            },
            PaySchedule::Monthly { day } => {
                if resolve_month_day(y, m, *day).number() == n.number() {
                    out.push(paid);
                }
            },
            PaySchedule::Biweekly { anchor } => {
                if (n.number() - anchor.number()) % 14 == 0 {
                    out.push(paid);
                }
            },
            PaySchedule::Weekly { weekday } => {
                if n.weekday() == weekday.num_days_from_monday() {
                    out.push(paid);
                }
            },
            PaySchedule::Irregular => {},
        }
        assert(numbers(out@) == numbers(before) + copies(paid@, self.landing(n@, paid@)));
    }

    /// Every payday in the inclusive range `[from, to]`, weekend-shifted to
    /// Friday, ascending. `Irregular` yields none.
    pub fn paydays_in(&self, from: Date, to: Date) -> (paydays: Vec<Date>)
        requires
            from@ <= to@ ==> self.well_formed(),
            from@ <= to@ && !(self is Irregular) ==> to@ + 2 <= LAST_DAY,
        ensures
            numbers(paydays@) == self.paydays(from@, to@),
    {
        let mut out: Vec<Date> = Vec::new();
        if to.number() < from.number() {
            assert(numbers(out@) == self.paydays(from@, to@));
            return out;
        }
        if let PaySchedule::Irregular = self {
            proof {
                self.lemma_irregular_never_pays(from@, to@);
            }
            assert(numbers(out@) == self.paydays(from@, to@));
            return out;
        }
        let mut day = from;
        assert(numbers(out@) == self.paydays(from@, day@ - 1));
        while day.number() <= to.number()
            invariant
                self.well_formed(),
                from@ <= day@ <= to@ + 1,
                to@ + 2 <= LAST_DAY,
                numbers(out@) == self.paydays(from@, day@ - 1),
            decreases to@ + 1 - day@,
        {
            let ghost before = numbers(out@);
            let ghost n = day@;
            self.push_landing(day, day, &mut out);
            self.push_landing(day.plus_days(1), day, &mut out);
            self.push_landing(day.plus_days(2), day, &mut out);
            assert(numbers(out@) == before + copies(n, self.paid_on(n)));
            day = day.plus_days(1);
        }
        out
    }

    /// The `n` most recent paydays strictly before `before`, newest first: fewer only
    /// where the calendar, or the schedule, has no more.
    pub fn paydays_before(&self, before: Date, n: usize) -> (recent: Vec<Date>)
        requires
            self.well_formed(),
            !(self is Irregular) ==> before@ + 1 <= LAST_DAY,
        ensures
            numbers(recent@) == newest(self.paydays(FIRST_DAY as int, before@ - 1), n as nat),
    {
        let mut recent: Vec<Date> = Vec::new();
        let idle = match self {
            PaySchedule::Irregular => true,
            PaySchedule::SemiMonthly { days } => days.len() == 0,
            _ => false,
        };
        if idle {
            proof {
                self.lemma_never_pays(FIRST_DAY as int, before@ - 1);
            }
            assert(numbers(recent@) == newest(self.paydays(FIRST_DAY as int, before@ - 1), n as nat));
            return recent;
        }
        let _ = before.number();
        let mut day = before;
        assert(numbers(recent@) == newest(self.paydays(before@, before@ - 1), n as nat));
        while recent.len() < n && day.number() > FIRST_DAY
            invariant
                self.well_formed(),
                !(self is Irregular),
                FIRST_DAY <= day@ <= before@,
                before@ + 1 <= LAST_DAY,
                numbers(recent@) == newest(self.paydays(day@, before@ - 1), n as nat),
            decreases day@ - FIRST_DAY,
        {
            let ghost after = self.paydays(day@, before@ - 1);
            day = day.plus_days(-1);
            let here = self.paydays_in(day, day);
            let ghost all = self.paydays(day@, before@ - 1);
            proof {
                self.lemma_adjoining_ranges(day@, day@, before@ - 1);
                assert(self.paydays(day@, day@ - 1) == Seq::<int>::empty());
                assert(numbers(here@) == copies(day@, self.paid_on(day@)));
                assert(all == numbers(here@) + after);
                assert(recent@.len() == newest(after, n as nat).len());
            }
            let mut i: usize = 0;
            while i < here.len() && recent.len() < n
                invariant
                    i <= here@.len(),
                    recent@.len() <= n,
                    recent@.len() == after.len() + i,
                    all == numbers(here@) + after,
                    numbers(here@) == copies(day@, here@.len()),
                    numbers(recent@) == newest(all, recent@.len()),
                decreases here@.len() - i,
            {
                let ghost held = recent@;
                let k: usize = recent.len();
                recent.push(here[i]);
                assert(here@[i as int]@ == numbers(here@)[i as int]);
                assert(all[all.len() - 1 - k] == day@);
                assert(numbers(recent@) == numbers(held).push(all[all.len() - 1 - k]));
                assert(newest(all, (k + 1) as nat) == newest(all, k as nat).push(all[all.len() - 1 - k]));
                i += 1;
            }
            assert(newest(all, n as nat) == newest(all, recent@.len()));
        }
        proof {
            if day@ > FIRST_DAY {
                self.lemma_adjoining_ranges(FIRST_DAY as int, day@ - 1, before@ - 1);
                let whole = self.paydays(FIRST_DAY as int, before@ - 1);
                let seen = self.paydays(day@, before@ - 1);
                assert(recent@.len() == newest(seen, n as nat).len());
                assert(newest(whole, n as nat) == newest(seen, n as nat));
            }
        }
        recent
    }

    /// A schedule without a day to pay on never pays.
    proof fn lemma_never_pays(&self, from: int, to: int)
        requires
            self is Irregular || (self matches PaySchedule::SemiMonthly { days } && days@.len() == 0),
        ensures
            self.paydays(from, to) == Seq::<int>::empty(),
        decreases to - from + 1,
    {
        if from <= to {
            self.lemma_never_pays(from, to - 1);
        }
    }

    /// No paycheck of an irregular schedule can be expected.
    pub proof fn lemma_irregular_never_pays(&self, from: int, to: int)
        requires
            self is Irregular,
        ensures
            self.paydays(from, to) == Seq::<int>::empty(),
        decreases to - from + 1,
    {
        if from <= to {
            self.lemma_irregular_never_pays(from, to - 1);
            assert(self.paydays(from, to) == Seq::<int>::empty());
        }
    }

    /// Count scheduled paydays in the inclusive range `[from, to]`.
    pub fn paydays_through(&self, from: Date, to: Date) -> (count: u32)
        requires
            from@ <= to@ ==> self.well_formed(),
            from@ <= to@ && !(self is Irregular) ==> to@ + 2 <= LAST_DAY,
        ensures
            count == self.paydays(from@, to@).len() as u32,
    {
        self.paydays_in(from, to).len() as u32
    }

    /// Paydays lie in the range asked for, in ascending order, and never on a weekend.
    pub proof fn lemma_paydays_are_workdays_in_range(&self, from: int, to: int)
        ensures
            forall|i: int| 0 <= i < self.paydays(from, to).len() ==> from <= #[trigger] self.paydays(from, to)[i] <= to,
            forall|i: int| 0 <= i < self.paydays(from, to).len() ==> weekday_of(#[trigger] self.paydays(from, to)[i]) < 5,
            forall|i: int, j: int|
                0 <= i <= j < self.paydays(from, to).len() ==> #[trigger] self.paydays(from, to)[i]
                    <= #[trigger] self.paydays(from, to)[j],
        decreases to - from + 1,
    {
        if from <= to {
            self.lemma_paydays_are_workdays_in_range(from, to - 1);
            let earlier = self.paydays(from, to - 1);
            let all = self.paydays(from, to);
            assert forall|i: int| 0 <= i < all.len() implies from <= #[trigger] all[i] <= to && weekday_of(
                all[i],
            ) < 5 by {
                if i < earlier.len() {
                    assert(all[i] == earlier[i]);
                } else {
                    assert(all[i] == to);
                }
            }
            assert forall|i: int, j: int| 0 <= i <= j < all.len() implies #[trigger] all[i] <= #[trigger] all[j] by {
                if j < earlier.len() {
                    assert(all[i] == earlier[i] && all[j] == earlier[j]);
                } else {
                    assert(all[j] == to);
                }
            }
        }
    }

    /// Every day in the range on which a paycheck lands is among the paydays, as
    /// often as paychecks land on it, and no other day is.
    pub proof fn lemma_every_payday_is_counted(&self, from: int, to: int, day: int)
        ensures
            self.paydays(from, to).to_multiset().count(day) == if from <= day <= to { self.paid_on(day) } else { 0 },
        decreases to - from + 1,
    {
        broadcast use vstd::seq_lib::group_to_multiset_ensures;

        if from <= to {
            self.lemma_every_payday_is_counted(from, to - 1, day);
            vstd::seq_lib::lemma_multiset_commutative(self.paydays(from, to - 1), copies(to, self.paid_on(to)));
            lemma_copies_count(to, self.paid_on(to), day);
        }
    }

    /// Paydays of adjoining ranges make up those of the whole: no payday is lost
    /// at the seam and none is counted twice.
    pub proof fn lemma_adjoining_ranges(&self, from: int, middle: int, to: int)
        requires
            from <= middle + 1,
            middle <= to,
        ensures
            self.paydays(from, to) == self.paydays(from, middle) + self.paydays(middle + 1, to),
        decreases to - middle,
    {
        if middle < to {
            self.lemma_adjoining_ranges(from, middle, to - 1);
            assert(self.paydays(from, to) == self.paydays(from, middle) + self.paydays(middle + 1, to));
        } else {
            assert(self.paydays(from, to) == self.paydays(from, middle) + self.paydays(middle + 1, to));
        }
    }
}

proof fn lemma_copies_count(day: int, n: nat, other: int)
    ensures
        copies(day, n).to_multiset().count(other) == if day == other { n } else { 0 },
    decreases n,
{
    broadcast use vstd::seq_lib::group_to_multiset_ensures;

    if n > 0 {
        lemma_copies_count(day, (n - 1) as nat, other);
        assert(copies(day, n) == copies(day, (n - 1) as nat).push(day));
    } else {
        assert(copies(day, n) == Seq::<int>::empty());
    }
}

/// The same cadence pays on the same days.
pub proof fn lemma_same_cadence_pays_alike(a: PaySchedule, b: PaySchedule, from: int, to: int)
    requires
        a@ == b@,
    ensures
        a.paydays(from, to) == b.paydays(from, to),
        a.well_formed() == b.well_formed(),
    decreases to - from + 1,
{
    if from <= to {
        lemma_same_cadence_pays_alike(a, b, from, to - 1);
    }
}

impl Clone for PaySchedule {
    fn clone(&self) -> (copy: Self)
        ensures
            copy@ == self@,
            copy.well_formed() == self.well_formed(),
    {
        match self {
            PaySchedule::SemiMonthly { days } => {
                let mut copied: Vec<i32> = Vec::new();
                let mut i: usize = 0;
                while i < days.len()
                    invariant
                        i <= days@.len(),
                        copied@ == days@.take(i as int),
                    decreases days@.len() - i,
                {
                    copied.push(days[i]);
                    i += 1;
                    assert(days@.take(i as int) == days@.take(i - 1).push(days@[i - 1]));
                }
                assert(days@.take(i as int) == days@);
                let copy = PaySchedule::SemiMonthly { days: copied };
                proof {
                    lemma_same_cadence_pays_alike(*self, copy, 1, 0);
                }
                copy
            },
            PaySchedule::Monthly { day } => PaySchedule::Monthly { day: *day },
            PaySchedule::Biweekly { anchor } => PaySchedule::Biweekly { anchor: *anchor },
            PaySchedule::Weekly { weekday } => PaySchedule::Weekly { weekday: *weekday },
            PaySchedule::Irregular => PaySchedule::Irregular,
        }
    }
}

impl Default for PaySchedule {
    fn default() -> (schedule: Self)
        ensures
            schedule@ == (PayScheduleView::SemiMonthly { days: seq![15i32, -1i32] }),
            schedule.well_formed(),
    {
        let schedule = PaySchedule::SemiMonthly { days: vec![15, -1] };
        assert(schedule->SemiMonthly_days@ == seq![15i32, -1i32]);
        schedule
    }
}

/// The day a bill due on `due_day` is due in a month (clamped to month length).
pub open spec fn due_in_month(year: int, month: int, due_day: int) -> int {
    let len = month_len(year, month);
    day_number(year, month, if due_day <= len { due_day } else { len })
}

/// The latest due date on or before `today`.
pub open spec fn last_due(due_day: int, today: int) -> int {
    let this = due_in_month(year_of(today), month_of(today), due_day);
    if this <= today {
        this
    } else if month_of(today) == 1 {
        due_in_month(year_of(today) - 1, 12, due_day)
    } else {
        due_in_month(year_of(today), month_of(today) - 1, due_day)
    }
}

/// The most recent occurrence of `due_day` on or before `today` (clamped to month length).
pub fn most_recent_due(due_day: u32, today: Date) -> (due: Date)
    requires
        1 <= due_day,
        on_calendar(last_due(due_day as int, today@)),
    ensures
        due@ == last_due(due_day as int, today@),
{
    let (y, m, d) = today.ymd();
    proof {
        lemma_calendar_bounds(y as int, m as int, d as int);
    }
    let this = due_date(y, m, due_day);
    if this.number() <= today.number() {
        return this;
    }
    let (y, m) = if m == 1 {
        (y - 1, 12)
    } else {
        (y, m - 1)
    };
    proof {
        let len = month_len(y as int, m as int);
        lemma_calendar_bounds(y as int, m as int, if due_day <= len { due_day as int } else { len });
    }
    due_date(y, m, due_day)
}

/// Whether the most recent occurrence of `due_day` can be represented.
pub fn has_last_due(due_day: u32, today: Date) -> (found: bool)
    requires
        1 <= due_day,
    ensures
        found == on_calendar(last_due(due_day as int, today@)),
{
    let (y, m, d) = today.ymd();
    proof {
        lemma_calendar_bounds(y as int, m as int, d as int);
    }
    let this = due_date(y, m, due_day);
    if this.number() <= today.number() {
        return true;
    }
    let (y, m) = if m == 1 {
        (y - 1, 12)
    } else {
        (y, m - 1)
    };
    proof {
        let len = month_len(y as int, m as int);
        lemma_calendar_bounds(y as int, m as int, if due_day <= len { due_day as int } else { len });
    }
    y >= MIN_YEAR
}

/// The day a bill due on `due_day` is due in a month.
pub(crate) fn due_date(year: i32, month: u32, due_day: u32) -> (due: Date)
    requires
        1 <= due_day,
        representable(year as int, month as int, 1),
    ensures
        due@ == due_in_month(year as int, month as int, due_day as int),
{
    let len = month_length(year, month);
    let day = if due_day <= len {
        due_day
    } else {
        len
    };
    Date::from_ymd_opt(year, month, day).unwrap()
}

// ---- When paychecks are scheduled ----

/// A weekend paycheck lands on the Friday before, any other on its day.
pub proof fn lemma_weekend_paychecks_land_on_friday(n: int)
    ensures
        weekday_of(n) >= 5 ==> weekday_of(shifted(n)) == 4 && n - 2 <= shifted(n) < n,
        weekday_of(n) < 5 ==> shifted(n) == n,
{
}

/// A day of the month falls on that day or, where the month is shorter, on its last;
/// a negative one on the last day of every month.
pub proof fn lemma_days_of_the_month(day: i32, n: int)
    requires
        day != 0,
    ensures
        ({
            let len = month_len(year_of(n), month_of(n));
            falls_on(day, n) <==> day_of(n) == if day < 0 || day > len {
                len
            } else {
                day as int
            }
        }),
{
    lemma_ymd_exists(n);
    let (y, m, d) = ymd(n);
    let len = month_len(y, m);
    lemma_numbers_follow_the_calendar(y, m, d, y, m, if day < 0 || len < day { len } else { day as int });
}

/// Paychecks are scheduled as the schedule says. Monthly: on its day of the month, once.
/// Twice a month or more often: as often as its days name the day. Biweekly: on the
/// anchor and every fourteen days before and after. Weekly: on its weekday. Irregular:
/// never.
pub proof fn lemma_paychecks_are_scheduled_as_named(sched: PaySchedule, n: int)
    ensures
        match sched {
            PaySchedule::Monthly { day } => sched.scheduled(n) == if falls_on(day, n) { 1nat } else { 0nat },
            PaySchedule::SemiMonthly { days } => sched.scheduled(n) == times_named(days@, n),
            PaySchedule::Biweekly { anchor } => {
                &&& n == anchor@ ==> sched.scheduled(n) == 1
                &&& 0 < n - anchor@ < 14 ==> sched.scheduled(n) == 0
                &&& sched.scheduled(n + 14) == sched.scheduled(n)
            },
            PaySchedule::Weekly { weekday } => sched.scheduled(n) == if weekday_of(n) == weekday.index() {
                1nat
            } else {
                0nat
            },
            PaySchedule::Irregular => sched.scheduled(n) == 0,
        },
{
}

/// The days of a schedule are counted one by one.
pub proof fn lemma_named_days_add_up(a: Seq<i32>, b: Seq<i32>, n: int)
    ensures
        times_named(a + b, n) == times_named(a, n) + times_named(b, n),
        a.len() == 0 ==> times_named(a, n) == 0,
        a.len() == 1 ==> times_named(a, n) == if falls_on(a[0], n) { 1nat } else { 0nat },
    decreases b.len(),
{
    reveal_with_fuel(times_named, 2);
    if b.len() == 0 {
        assert(a + b == a);
    } else {
        assert((a + b).drop_last() == a + b.drop_last());
        lemma_named_days_add_up(a, b.drop_last(), n);
    }
}

/// What lands on a day was scheduled for it or, where it is a Friday, for the weekend
/// that follows; on a weekend nothing lands.
pub proof fn lemma_what_lands_on_a_day(sched: PaySchedule, n: int)
    ensures
        weekday_of(n) < 4 ==> sched.paid_on(n) == sched.scheduled(n),
        weekday_of(n) == 4 ==> sched.paid_on(n) == sched.scheduled(n) + sched.scheduled(n + 1) + sched.scheduled(n + 2),
        weekday_of(n) > 4 ==> sched.paid_on(n) == 0,
{
}

/// The newest of some days are the last of them, from the last back: each stands as far
/// from the end as it comes in the list.
pub proof fn lemma_newest_come_from_the_end(days: Seq<int>, day: int, n: nat)
    ensures
        newest(days, 0).len() == 0,
        newest(Seq::<int>::empty(), n).len() == 0,
        newest(days.push(day), n + 1) == seq![day] + newest(days, n),
{
    assert(newest(days.push(day), n + 1) == seq![day] + newest(days, n));
}

} // verus!
