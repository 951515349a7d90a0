//! Onboarding: detect each income source's pay cadence and typical amount from its
//! deposit history, plus the pool(s) income flows into.
//!
//! Detection is heuristic but conservative: it classifies a source as `regular`
//! only when its deposits land on a consistent rhythm, otherwise `irregular`
//! (you can't schedule against money that might not show up).

use crate::allocator::{cents, FundingStrategy};
use crate::api::{AccountSummary, Transfer, TransferDirection};
use crate::date::{
    date_text, day_of, lemma_ymd_exists, month_len, month_length, month_of, on_calendar, weekday_of, year_of, Date, Weekday,
};
use crate::derive::text_view;
use crate::money::{divide, dollars, dollars_text, quotient};
use crate::order::{
    arranged, lemma_arranged_are_the_items, lemma_arranged_ascends, lemma_arranged_inserts, lemma_arranged_keeps_all,
    lemma_ranking, lemma_sum_of_arranged, rank, ranking, slot, wide,
};
use crate::fetch::{leading_date, parse_date, settled};
use crate::matching::{
    find_holding, first_holding, lemma_the_first_name_counts, list_names, listed, lower_all, lowercase_all, one_holds,
};
use crate::model::{texts, views};
use crate::schedule::{newest, numbers, PaySchedule, PayScheduleView};
use crate::state::{Classification, IncomeSource, PoolRef};
use crate::sums::{lemma_sum_add, sum};
use crate::text::{
    at_most, chars_of, contains_text, decimal, joined_by, left, lemma_last_part_is_joined_last, push_decimal, right,
    same_text, spells, take_at_most, to_left, to_right, trim, trim_chars,
};
use vstd::prelude::*;
use vstd::string::StringExecFns;

verus! {

// ---- Median and mode ----

/// The middle of some amounts, or the mean of the two middle ones, rounded toward zero.
pub open spec fn median_of(xs: Seq<int>) -> int {
    let s = arranged(xs, xs);
    let n = xs.len() as int;
    if n == 0 {
        0
    } else if n % 2 == 1 {
        s[n / 2]
    } else {
        quotient(s[n / 2 - 1] + s[n / 2], 2)
    }
}

fn widened(xs: &[i64]) -> (keys: Vec<i128>)
    ensures
        wide(keys@) == cents(xs@),
        keys@.len() == xs@.len(),
{
    let mut keys: Vec<i128> = Vec::new();
    let mut i: usize = 0;
    while i < xs.len()
        invariant
            i <= xs@.len(),
            keys@.len() == i,
            wide(keys@) == cents(xs@).take(i as int),
        decreases xs@.len() - i,
    {
        let ghost held = keys@;
        keys.push(xs[i] as i128);
        assert(wide(keys@) == wide(held).push(xs@[i as int] as int));
        i += 1;
        assert(wide(keys@) == cents(xs@).take(i as int));
    }
    assert(cents(xs@).take(i as int) == cents(xs@));
    keys
}

pub fn median(xs: Vec<i64>) -> (middle: i64)
    ensures
        middle == median_of(cents(xs@)),
{
    let n: usize = xs.len();
    if n == 0 {
        return 0;
    }
    let ghost all = cents(xs@);
    let order = rank(&widened(xs.as_slice()));
    let high: i64 = xs[order[n / 2]];
    assert(arranged(all, all)[n as int / 2] == high);
    if n % 2 == 1 {
        return high;
    }
    let low: i64 = xs[order[n / 2 - 1]];
    assert(arranged(all, all)[n as int / 2 - 1] == low);
    divide(low as i128 + high as i128, 2) as i64
}

/// How many of the amounts are no more than `m`.
pub open spec fn no_more_than(xs: Seq<int>, m: int) -> int
    decreases xs.len(),
{
    if xs.len() == 0 {
        0
    } else {
        no_more_than(xs.drop_last(), m) + if xs.last() <= m { 1int } else { 0 }
    }
}

/// How many of the amounts are no less than `m`.
pub open spec fn no_less_than(xs: Seq<int>, m: int) -> int
    decreases xs.len(),
{
    if xs.len() == 0 {
        0
    } else {
        no_less_than(xs.drop_last(), m) + if xs.last() >= m { 1int } else { 0 }
    }
}

proof fn lemma_counts_of_an_insertion(xs: Seq<int>, k: int, x: int, m: int)
    requires
        0 <= k <= xs.len(),
    ensures
        no_more_than(xs.insert(k, x), m) == no_more_than(xs, m) + if x <= m { 1int } else { 0 },
        no_less_than(xs.insert(k, x), m) == no_less_than(xs, m) + if x >= m { 1int } else { 0 },
    decreases xs.len(),
{
    if k == xs.len() {
        assert(xs.insert(k, x).drop_last() == xs);
    } else {
        lemma_counts_of_an_insertion(xs.drop_last(), k, x, m);
        assert(xs.insert(k, x).drop_last() == xs.drop_last().insert(k, x));
        assert(xs.insert(k, x).last() == xs.last());
    }
}

proof fn lemma_counts_of_the_arranged(xs: Seq<int>, m: int)
    ensures
        no_more_than(arranged(xs, xs), m) == no_more_than(xs, m),
        no_less_than(arranged(xs, xs), m) == no_less_than(xs, m),
    decreases xs.len(),
{
    if xs.len() > 0 {
        lemma_arranged_inserts(xs, xs);
        lemma_counts_of_the_arranged(xs.drop_last(), m);
        let at = slot(ranking(xs.drop_last()), xs, xs.last());
        lemma_counts_of_an_insertion(arranged(xs.drop_last(), xs.drop_last()), at, xs.last(), m);
    } else {
        assert(arranged(xs, xs) == xs);
    }
}

proof fn lemma_counts_at_the_ends(s: Seq<int>, low: int, high: int, m: int)
    requires
        0 <= low <= s.len(),
        0 <= high <= s.len(),
        forall|i: int| 0 <= i < low ==> #[trigger] s[i] <= m,
        forall|i: int| high <= i < s.len() ==> #[trigger] s[i] >= m,
    ensures
        no_more_than(s, m) >= low,
        no_less_than(s, m) >= s.len() - high,
    decreases s.len(),
{
    if s.len() > 0 {
        let n = s.len() - 1;
        let rest = s.drop_last();
        lemma_counts_at_the_ends(rest, if low <= n { low } else { n }, if high <= n { high } else { n }, m);
        if low == s.len() {
            assert(s[n] <= m);
        }
        if high <= n {
            assert(s[n] >= m);
        }
    }
}

/// The median splits the amounts in half: at least half of them are no more, and at
/// least half no less. Of none it is nothing, and of an odd number one of them.
pub proof fn lemma_median_splits_in_half(xs: Seq<int>)
    ensures
        xs.len() == 0 ==> median_of(xs) == 0,
        2 * no_more_than(xs, median_of(xs)) >= xs.len(),
        2 * no_less_than(xs, median_of(xs)) >= xs.len(),
        xs.len() % 2 == 1 ==> xs.contains(median_of(xs)),
{
    let s = arranged(xs, xs);
    let n = xs.len() as int;
    let m = median_of(xs);
    lemma_counts_of_the_arranged(xs, m);
    lemma_arranged_ascends(xs);
    lemma_ranking(xs);
    if n > 0 {
        let h = n / 2;
        if n % 2 == 1 {
            assert(s[h] == xs[ranking(xs)[h]]);
            assert forall|i: int| 0 <= i < h + 1 implies #[trigger] s[i] <= m by {
                assert(s[i] <= s[h]);
            }
            assert forall|i: int| h <= i < s.len() implies #[trigger] s[i] >= m by {
                assert(s[h] <= s[i]);
            }
            lemma_counts_at_the_ends(s, h + 1, h, m);
        } else {
            assert(s[h - 1] <= s[h]);
            assert(s[h - 1] <= m <= s[h]);
            assert forall|i: int| 0 <= i < h implies #[trigger] s[i] <= m by {
                assert(s[i] <= s[h - 1]);
            }
            assert forall|i: int| h <= i < s.len() implies #[trigger] s[i] >= m by {
                assert(s[h] <= s[i]);
            }
            lemma_counts_at_the_ends(s, h, h, m);
        }
    }
}

/// The median does not depend on the order of the amounts.
pub proof fn lemma_median_of_any_order(xs: Seq<int>, ys: Seq<int>)
    requires
        xs.to_multiset() == ys.to_multiset(),
    ensures
        median_of(xs) == median_of(ys),
{
    broadcast use vstd::seq_lib::group_to_multiset_ensures;

    let leq = |a: int, b: int| a <= b;
    let s = arranged(xs, xs);
    let t = arranged(ys, ys);
    lemma_arranged_keeps_all(xs, xs);
    lemma_arranged_keeps_all(ys, ys);
    lemma_arranged_ascends(xs);
    lemma_arranged_ascends(ys);
    assert forall|i: int, j: int| 0 <= i < j < s.len() implies #[trigger] leq(s[i], s[j]) by {
        assert(s[i] <= s[j]);
    }
    assert forall|i: int, j: int| 0 <= i < j < t.len() implies #[trigger] leq(t[i], t[j]) by {
        assert(t[i] <= t[j]);
    }
    vstd::seq_lib::lemma_sorted_unique(s, t, leq);
    assert(xs.len() == ys.len());
}

/// How often a value occurs.
pub open spec fn times(xs: Seq<i64>, x: i64) -> nat
    decreases xs.len(),
{
    if xs.len() == 0 {
        0
    } else {
        times(xs.drop_last(), x) + if xs.last() == x { 1nat } else { 0nat }
    }
}

/// The value at `i` occurs at least as often as any, and more often than any before it.
pub open spec fn is_mode_at(xs: Seq<i64>, i: int) -> bool {
    &&& 0 <= i < xs.len()
    &&& forall|j: int| 0 <= j < xs.len() ==> times(xs, #[trigger] xs[j]) <= times(xs, xs[i])
    &&& forall|j: int| 0 <= j < i ==> times(xs, #[trigger] xs[j]) < times(xs, xs[i])
}

/// The most common value, the first of them where several are.
pub open spec fn mode_of(xs: Seq<i64>) -> Option<i64> {
    if xs.len() == 0 {
        None
    } else {
        Some(xs[choose|i: int| is_mode_at(xs, i)])
    }
}

fn count(xs: &[i64], x: i64) -> (n: usize)
    ensures
        n == times(xs@, x),
        n <= xs@.len(),
{
    let mut n: usize = 0;
    let mut i: usize = 0;
    while i < xs.len()
        invariant
            i <= xs@.len(),
            n <= i,
            n == times(xs@.take(i as int), x),
        decreases xs@.len() - i,
    {
        assert(xs@.take(i + 1).drop_last() == xs@.take(i as int));
        if xs[i] == x {
            n += 1;
        }
        i += 1;
    }
    assert(xs@.take(i as int) == xs@);
    n
}

proof fn lemma_occurs(xs: Seq<i64>, i: int)
    requires
        0 <= i < xs.len(),
    ensures
        times(xs, xs[i]) >= 1,
    decreases xs.len(),
{
    if i < xs.len() - 1 {
        lemma_occurs(xs.drop_last(), i);
    }
}

/// Most common value in `xs` (first-seen wins ties).
pub fn mode(xs: &[i64]) -> (best: Option<i64>)
    ensures
        best == mode_of(xs@),
        best matches Some(x) ==> exists|i: int| #[trigger] is_mode_at(xs@, i) && xs@[i] == x,
{
    let mut best: Option<i64> = None;
    let mut best_count: usize = 0;
    let mut i: usize = 0;
    let ghost mut at: int = 0;
    while i < xs.len()
        invariant
            i <= xs@.len(),
            best is None <==> i == 0,
            i == 0 ==> best_count == 0,
            i > 0 ==> 0 <= at < i && best == Some(xs@[at]) && best_count == times(xs@, xs@[at]),
            forall|j: int| 0 <= j < i ==> times(xs@, #[trigger] xs@[j]) <= best_count,
            forall|j: int| 0 <= j < at && i > 0 ==> times(xs@, #[trigger] xs@[j]) < best_count,
        decreases xs@.len() - i,
    {
        let x: i64 = xs[i];
        let c = count(xs, x);
        proof {
            lemma_occurs(xs@, i as int);
        }
        if c > best_count {
            best_count = c;
            best = Some(x);
            proof {
                at = i as int;
            }
        }
        i += 1;
    }
    proof {
        if i > 0 {
            assert(is_mode_at(xs@, at));
            let other = choose|i: int| is_mode_at(xs@, i);
            assert(at == other);
        }
    }
    best
}

// ---- Days of the month ----

/// A day of the month, with -1 for the last three days.
pub open spec fn day_token(n: int) -> int {
    if month_len(year_of(n), month_of(n)) - day_of(n) <= 2 {
        -1
    } else {
        day_of(n)
    }
}

/// A day in the last 3 days of its month is treated as "last day" (-1).
pub fn month_day_token(d: Date) -> (token: i64)
    ensures
        token == day_token(d@),
        token == -1 || 1 <= token <= 31,
{
    let (year, month, day) = d.ymd();
    if month_length(year, month) - day <= 2 {
        -1
    } else {
        day as i64
    }
}

pub open spec fn positives(tokens: Seq<int>) -> Seq<int>
    decreases tokens.len(),
{
    if tokens.len() == 0 {
        Seq::empty()
    } else if tokens.last() > 0 {
        positives(tokens.drop_last()).push(tokens.last())
    } else {
        positives(tokens.drop_last())
    }
}

/// How many of the leading days stand within four days of the one before.
pub open spec fn run_length(days: Seq<int>) -> int
    decreases days.len(),
{
    if days.len() <= 1 || days[1] - days[0] > 4 {
        1
    } else {
        1 + run_length(days.drop_first())
    }
}

/// Ascending days in runs: the last day of each, and how many it has.
pub open spec fn runs(days: Seq<int>) -> Seq<(i32, int)>
    decreases days.len(),
{
    if days.len() == 0 {
        Seq::empty()
    } else {
        proof {
            lemma_run_length(days);
        }
        let n = run_length(days);
        seq![(days[n - 1] as i32, n)] + runs(days.skip(n))
    }
}

/// A run has at least the first of the days.
pub proof fn lemma_run_length(days: Seq<int>)
    requires
        days.len() > 0,
    ensures
        1 <= run_length(days) <= days.len(),
    decreases days.len(),
{
    if days.len() > 1 && days[1] - days[0] <= 4 {
        lemma_run_length(days.drop_first());
    }
}

/// The pay anchors among the tokens, and how many tokens belong to each: the month's
/// end first, then the runs of days in ascending order.
pub open spec fn anchors(tokens: Seq<i64>) -> Seq<(i32, int)> {
    let days = positives(cents(tokens));
    let ends = times(tokens, -1i64);
    (if ends > 0 {
        seq![(-1i32, ends as int)]
    } else {
        Seq::empty()
    }) + runs(arranged(days, days))
}

/// By how many tokens they have, most first.
pub open spec fn by_count(a: Seq<(i32, int)>) -> Seq<(i32, int)> {
    arranged(a, Seq::new(a.len(), |i: int| -a[i].1))
}

pub open spec fn counted(s: Seq<(i32, usize)>) -> Seq<(i32, int)> {
    Seq::new(s.len(), |i: int| (s[i].0, s[i].1 as int))
}

fn positive_tokens(tokens: &[i64]) -> (pos: Vec<i64>)
    ensures
        cents(pos@) == positives(cents(tokens@)),
        forall|i: int| 0 <= i < pos@.len() ==> 0 < #[trigger] pos@[i] && tokens@.contains(pos@[i]),
{
    let ghost all = cents(tokens@);
    let mut pos: Vec<i64> = Vec::new();
    let mut i: usize = 0;
    assert(cents(pos@) == positives(all.take(0)));
    while i < tokens.len()
        invariant
            i <= tokens@.len(),
            all == cents(tokens@),
            cents(pos@) == positives(all.take(i as int)),
            forall|i: int| 0 <= i < pos@.len() ==> 0 < #[trigger] pos@[i] && tokens@.contains(pos@[i]),
        decreases tokens@.len() - i,
    {
        assert(all.take(i + 1).drop_last() == all.take(i as int));
        if tokens[i] > 0 {
            let ghost held = pos@;
            pos.push(tokens[i]);
            assert(cents(pos@) == cents(held).push(all[i as int]));
        }
        i += 1;
    }
    assert(all.take(i as int) == all);
    pos
}

fn sorted(xs: &Vec<i64>) -> (s: Vec<i64>)
    ensures
        cents(s@) == arranged(cents(xs@), cents(xs@)),
        forall|i: int| 0 <= i < s@.len() ==> xs@.contains(#[trigger] s@[i]),
{
    let ghost all = cents(xs@);
    let order = rank(&widened(xs.as_slice()));
    let mut s: Vec<i64> = Vec::new();
    let mut i: usize = 0;
    while i < order.len()
        invariant
            i <= order@.len(),
            all == cents(xs@),
            order@.len() == xs@.len(),
            forall|j: int| 0 <= j < order@.len() ==> #[trigger] order@[j] == ranking(all)[j],
            forall|j: int| 0 <= j < order@.len() ==> #[trigger] order@[j] < xs@.len(),
            cents(s@) == arranged(all, all).take(i as int),
            forall|j: int| 0 <= j < s@.len() ==> xs@.contains(#[trigger] s@[j]),
        decreases order@.len() - i,
    {
        let ghost held = s@;
        s.push(xs[order[i]]);
        assert(cents(s@) == cents(held).push(arranged(all, all)[i as int]));
        i += 1;
        assert(cents(s@) == arranged(all, all).take(i as int));
    }
    assert(arranged(all, all).take(i as int) == arranged(all, all));
    s
}

/// Cluster day tokens into pay anchors (`-1` = month-end, else grouped within 4
/// days). Anchor is the MAX day, since weekend-shifting only moves paydays
/// earlier. Returns `(anchor_day, count)` sorted by count descending.
pub fn cluster_days(tokens: &[i64]) -> (clusters: Vec<(i32, usize)>)
    ensures
        counted(clusters@) == by_count(anchors(tokens@)),
        (forall|i: int| 0 <= i < tokens@.len() ==> #[trigger] tokens@[i] <= i32::MAX) ==> forall|i: int|
            0 <= i < clusters@.len() ==> (#[trigger] clusters@[i]).0 != 0,
{
    let mut out: Vec<(i32, usize)> = Vec::new();
    let end = count(tokens, -1);
    if end > 0 {
        out.push((-1, end));
    }
    let ghost head = counted(out@);
    let pos = sorted(&positive_tokens(tokens));
    let ghost narrow = forall|i: int| 0 <= i < tokens@.len() ==> #[trigger] tokens@[i] <= i32::MAX;
    let ghost days = cents(pos@);
    let mut i: usize = 0;
    assert(head + runs(days.skip(0)) == head + runs(days)) by {
        assert(days.skip(0) == days);
    }
    let ghost found = head + runs(days);
    while i < pos.len()
        invariant
            i <= pos@.len(),
            days == cents(pos@),
            forall|j: int| 0 <= j < pos@.len() ==> 0 < #[trigger] pos@[j],
            narrow ==> forall|j: int| 0 <= j < pos@.len() ==> #[trigger] pos@[j] <= i32::MAX,
            narrow ==> forall|j: int| 0 <= j < out@.len() ==> (#[trigger] out@[j]).0 != 0,
            counted(out@) + runs(days.skip(i as int)) == found,
        decreases pos@.len() - i,
    {
        let start: usize = i;
        let ghost rest = days.skip(start as int);
        proof {
            lemma_run_length(rest);
        }
        while i + 1 < pos.len() && pos[i + 1] - pos[i] <= 4
            invariant
                start <= i < pos.len(),
                days == cents(pos@),
                rest == days.skip(start as int),
                forall|j: int| 0 <= j < pos@.len() ==> 0 < #[trigger] pos@[j],
                run_length(rest) == i - start + run_length(days.skip(i as int)),
            decreases pos@.len() - i,
        {
            assert(days.skip(i as int).drop_first() == days.skip(i + 1));
            assert(days.skip(i as int)[0] == pos@[i as int] && days.skip(i as int)[1] == pos@[i + 1]);
            i += 1;
        }
        proof {
            if i + 1 < pos.len() {
                assert(days.skip(i as int)[0] == pos@[i as int] && days.skip(i as int)[1] == pos@[i + 1]);
            }
            assert(run_length(rest) == i - start + 1);
            assert(rest[i - start] == pos@[i as int]);
            assert(rest.skip(i - start + 1) == days.skip(i + 1));
        }
        let ghost held = out@;
        let anchor: i32 = #[verifier::truncate] (pos[i] as i32);
        out.push((anchor, i - start + 1));  // anchor = max in cluster
        assert(counted(out@) == counted(held).push((days[i as int] as i32, i - start + 1)));
        i += 1;
        assert(counted(out@) + runs(days.skip(i as int)) == found);
    }
    assert(days.skip(i as int) == Seq::<int>::empty());
    let ghost all = counted(out@);
    assert(all == anchors(tokens@));
    let mut keys: Vec<i128> = Vec::new();
    let mut i: usize = 0;
    while i < out.len()
        invariant
            i <= out@.len(),
            all == counted(out@),
            keys@.len() == i,
            forall|j: int| 0 <= j < i ==> #[trigger] keys@[j] == -all[j].1,
        decreases out@.len() - i,
    {
        keys.push(-(out[i].1 as i128));
        i += 1;
    }
    let ghost order_keys = Seq::new(all.len(), |i: int| -all[i].1);
    assert(wide(keys@) == order_keys);
    let order = rank(&keys);
    let mut clusters: Vec<(i32, usize)> = Vec::new();
    let mut i: usize = 0;
    while i < order.len()
        invariant
            i <= order@.len(),
            all == counted(out@),
            order@.len() == out@.len(),
            order_keys == Seq::new(all.len(), |i: int| -all[i].1),
            forall|j: int| 0 <= j < order@.len() ==> #[trigger] order@[j] == ranking(order_keys)[j],
            forall|j: int| 0 <= j < order@.len() ==> #[trigger] order@[j] < out@.len(),
            counted(clusters@) == by_count(all).take(i as int),
            narrow ==> forall|j: int| 0 <= j < out@.len() ==> (#[trigger] out@[j]).0 != 0,
            narrow ==> forall|j: int| 0 <= j < clusters@.len() ==> (#[trigger] clusters@[j]).0 != 0,
        decreases order@.len() - i,
    {
        let ghost held = clusters@;
        clusters.push(out[order[i]]);
        assert(counted(clusters@) == counted(held).push(by_count(all)[i as int]));
        i += 1;
        assert(counted(clusters@) == by_count(all).take(i as int));
    }
    assert(by_count(all).take(i as int) == by_count(all));
    clusters
}

// ---- Cadence ----

/// The squares of the gaps between days, added up.
pub open spec fn gap_squares(days: Seq<int>) -> int
    decreases days.len(),
{
    if days.len() <= 1 {
        0
    } else {
        let gap = days.last() - days[days.len() - 2];
        gap_squares(days.drop_last()) + gap * gap
    }
}

/// The gaps vary too much to schedule against: their standard deviation is more
/// than 0.6 of their mean, or the mean is not positive. (With `k` gaps that add up
/// to `s`, whose squares add up to `q`, the squared ratio is `k * q / s^2 - 1`.)
pub open spec fn erratic(days: Seq<int>) -> bool {
    let k = days.len() - 1;
    let s = days.last() - days[0];
    s <= 0 || 25 * (k * gap_squares(days)) > 34 * (s * s)
}

pub open spec fn tokens_of(days: Seq<int>) -> Seq<i64> {
    Seq::new(days.len(), |i: int| day_token(days[i]) as i64)
}

pub open spec fn weekdays_of(days: Seq<int>) -> Seq<i64> {
    Seq::new(days.len(), |i: int| weekday_of(days[i]) as i64)
}

pub open spec fn weekday_numbered(n: i64) -> Weekday {
    if n == 0 {
        Weekday::Mon
    } else if n == 1 {
        Weekday::Tue
    } else if n == 2 {
        Weekday::Wed
    } else if n == 3 {
        Weekday::Thu
    } else if n == 4 {
        Weekday::Fri
    } else if n == 5 {
        Weekday::Sat
    } else {
        Weekday::Sun
    }
}

pub fn weekday_from(n: i64) -> (weekday: Weekday)
    ensures
        weekday == weekday_numbered(n),
{
    match n {
        0 => Weekday::Mon,
        1 => Weekday::Tue,
        2 => Weekday::Wed,
        3 => Weekday::Thu,
        4 => Weekday::Fri,
        5 => Weekday::Sat,
        _ => Weekday::Sun,
    }
}

/// The two anchors with the most deposits hold seven in ten of them.
pub open spec fn two_anchors_cover(found: Seq<(i32, int)>, n: int) -> bool {
    found.len() >= 2 && 10 * (found[0].1 + found[1].1) >= 7 * n
}

/// The cadence of deposits on some days, none where there is no clear rhythm. By the
/// mean gap: up to 9 days weekly, on the commonest weekday; up to 20 semi-monthly
/// where two anchors cover the deposits, else biweekly from the last; up to 45
/// monthly.
pub open spec fn cadence(days: Seq<int>) -> Option<PayScheduleView> {
    let n = days.len() as int;
    if n < 3 || erratic(days) {
        None
    } else {
        let k = n - 1;
        let s = days.last() - days[0];
        let found = by_count(anchors(tokens_of(days)));
        if s <= 9 * k {
            Some(
                PayScheduleView::Weekly {
                    weekday: weekday_numbered(
                        match mode_of(weekdays_of(days)) {
                            Some(w) => w,
                            None => 4,
                        },
                    ),
                },
            )
        } else if s <= 20 * k {
            if two_anchors_cover(found, n) {
                Some(
                    PayScheduleView::SemiMonthly {
                        days: if found[0].0 <= found[1].0 {
                            seq![found[0].0, found[1].0]
                        } else {
                            seq![found[1].0, found[0].0]
                        },
                    },
                )
            } else {
                Some(PayScheduleView::Biweekly { anchor: days.last() })
            }
        } else if s <= 45 * k {
            Some(PayScheduleView::Monthly { day: if found.len() > 0 { found[0].0 } else { 1 } })
        } else {
            None
        }
    }
}

fn squared_gaps(dates: &[Date]) -> (q: u128)
    requires
        dates@.len() > 0,
    ensures
        q == gap_squares(numbers(dates@)),
{
    let ghost days = numbers(dates@);
    let mut q: u128 = 0;
    let mut i: usize = 1;
    assert(gap_squares(days.take(1)) == 0);
    while i < dates.len()
        invariant
            1 <= i <= dates.len(),
            days == numbers(dates@),
            q == gap_squares(days.take(i as int)),
            q <= 0x1_0000_0000_0000_00 * i,
        decreases dates.len() - i,
    {
        let a = dates[i - 1].number();
        let b = dates[i].number();
        let gap: i64 = b as i64 - a as i64;
        let size: u128 = if gap < 0 {
            (-gap) as u128
        } else {
            gap as u128
        };
        assert(size * size == gap * gap && size * size <= 0x1_0000_0000_0000_00) by (nonlinear_arith)
            requires
                size == gap || size == -gap,
                0 <= size <= 191491528,
        ;
        assert(days.take(i + 1).drop_last() == days.take(i as int));
        assert(days.take(i + 1).last() == b && days.take(i + 1)[i - 1] == a);
        q = q + size * size;
        i += 1;
    }
    assert(days.take(i as int) == days);
    q
}

fn is_erratic(dates: &[Date]) -> (wild: bool)
    requires
        dates@.len() > 1,
    ensures
        wild == erratic(numbers(dates@)),
{
    let ghost days = numbers(dates@);
    let n: usize = dates.len();
    let k: u128 = (n - 1) as u128;
    let s: i64 = dates[n - 1].number() as i64 - dates[0].number() as i64;
    assert(days.last() == dates@[n - 1]@ && days[0] == dates@[0]@);
    if s <= 0 {
        return true;
    }
    let q = squared_gaps(dates);
    assert(s * s <= 191491528 * 191491528) by (nonlinear_arith)
        requires
            0 < s <= 191491528,
    ;
    let square: u128 = s as u128 * s as u128;
    let bound: u128 = 34 * square;
    // k is positive: a large sum of squares, or many of any, decide at once
    if q > bound {
        assert(k * q >= q) by (nonlinear_arith)
            requires
                k >= 1,
                q >= 0,
        ;
        return true;
    }
    if q >= 1 && k > bound {
        assert(k * q >= k) by (nonlinear_arith)
            requires
                q >= 1,
                k >= 0,
        ;
        return true;
    }
    if q == 0 {
        assert(k * q == 0) by (nonlinear_arith)
            requires
                q == 0,
        ;
        assert(s * s > 0) by (nonlinear_arith)
            requires
                s > 0,
        ;
        return false;
    }
    assert(k * q <= 1300000000000000000 * 1300000000000000000) by (nonlinear_arith)
        requires
            0 <= k <= 1300000000000000000,
            0 <= q <= 1300000000000000000,
    ;
    25 * (k * q) > bound
}

fn day_tokens(dates: &[Date]) -> (tokens: Vec<i64>)
    ensures
        tokens@ == tokens_of(numbers(dates@)),
        forall|i: int| 0 <= i < tokens@.len() ==> #[trigger] tokens@[i] <= 31,
{
    let ghost days = numbers(dates@);
    let mut tokens: Vec<i64> = Vec::new();
    let mut i: usize = 0;
    while i < dates.len()
        invariant
            i <= dates@.len(),
            days == numbers(dates@),
            tokens@ == tokens_of(days).take(i as int),
            forall|j: int| 0 <= j < tokens@.len() ==> #[trigger] tokens@[j] <= 31,
        decreases dates@.len() - i,
    {
        tokens.push(month_day_token(dates[i]));
        i += 1;
        assert(tokens@ == tokens_of(days).take(i as int));
    }
    assert(tokens_of(days).take(i as int) == tokens_of(days));
    tokens
}

fn weekday_numbers(dates: &[Date]) -> (weekdays: Vec<i64>)
    ensures
        weekdays@ == weekdays_of(numbers(dates@)),
{
    let ghost days = numbers(dates@);
    let mut weekdays: Vec<i64> = Vec::new();
    let mut i: usize = 0;
    while i < dates.len()
        invariant
            i <= dates@.len(),
            days == numbers(dates@),
            weekdays@ == weekdays_of(days).take(i as int),
        decreases dates@.len() - i,
    {
        weekdays.push(dates[i].weekday() as i64);
        i += 1;
        assert(weekdays@ == weekdays_of(days).take(i as int));
    }
    assert(weekdays_of(days).take(i as int) == weekdays_of(days));
    weekdays
}

pub open spec fn schedule_view(s: Option<PaySchedule>) -> Option<PayScheduleView> {
    match s {
        Some(s) => Some(s@),
        None => None,
    }
}

/// Detect a cadence from deposit dates (ascending). Returns the schedule and
/// classification; `None`/`Irregular` when there's no clear rhythm.
pub fn detect(dates: &[Date]) -> (found: (Option<PaySchedule>, Classification))
    ensures
        schedule_view(found.0) == cadence(numbers(dates@)),
        found.1 == if found.0 is Some {
            Classification::Regular
        } else {
            Classification::Irregular
        },
        found.0 matches Some(s) ==> s.well_formed(),
{
    let ghost days = numbers(dates@);
    let n: usize = dates.len();
    // Erratic gaps -> can't schedule against it.
    if n < 3 || is_erratic(dates) {
        return (None, Classification::Irregular);
    }
    let k: i128 = (n - 1) as i128;
    let s: i128 = dates[n - 1].number() as i128 - dates[0].number() as i128;
    assert(days.last() == dates@[n - 1]@ && days[0] == dates@[0]@);
    let clusters = cluster_days(day_tokens(dates).as_slice());
    let ghost found = by_count(anchors(tokens_of(days)));
    assert(found == counted(clusters@));
    let sched = if s <= 9 * k {
        let wd = match mode(weekday_numbers(dates).as_slice()) {
            Some(w) => w,
            None => 4,
        };
        PaySchedule::Weekly { weekday: weekday_from(wd) }
    } else if s <= 20 * k {
        // Semi-monthly sticks to <=2 day-anchors; biweekly drifts through the month
        let covers = clusters.len() >= 2 && 10 * (clusters[0].1 as u128 + clusters[1].1 as u128) >= 7 * (n as u128);
        if covers {
            let (a, b) = (clusters[0].0, clusters[1].0);
            let pair = if a <= b {
                vec![a, b]
            } else {
                vec![b, a]
            };
            assert(found[0].0 == a && found[1].0 == b);
            assert(pair@ == if a <= b { seq![a, b] } else { seq![b, a] });
            PaySchedule::SemiMonthly { days: pair }
        } else {
            PaySchedule::Biweekly { anchor: dates[n - 1] }
        }
    } else if s <= 45 * k {
        if clusters.len() > 0 {
            assert(found[0].0 == clusters@[0].0);
            PaySchedule::Monthly { day: clusters[0].0 }
        } else {
            PaySchedule::Monthly { day: 1 }
        }
    } else {
        return (None, Classification::Irregular);
    };
    (Some(sched), Classification::Regular)
}

/// Too few deposits, or deposits all on one day, are never a cadence.
pub proof fn lemma_no_rhythm_no_cadence(days: Seq<int>)
    requires
        days.len() < 3 || days.last() <= days[0],
    ensures
        cadence(days) is None,
{
}

/// Evenly spaced deposits are never erratic.
pub proof fn lemma_even_gaps_are_a_rhythm(days: Seq<int>, gap: int)
    requires
        days.len() >= 3,
        0 < gap <= 45,
        forall|i: int| 0 < i < days.len() ==> #[trigger] days[i] == days[0] + i * gap,
    ensures
        !erratic(days),
        cadence(days) is Some,
{
    let k = days.len() - 1;
    lemma_even_squares(days, gap);
    assert(days.last() == days[0] + k * gap);
    let s = k * gap;
    assert(k * gap > 0) by (nonlinear_arith)
        requires
            k > 0,
            gap > 0,
    ;
    assert(k * (k * (gap * gap)) == s * s) by (nonlinear_arith)
        requires
            s == k * gap,
    ;
    assert(s * s > 0) by (nonlinear_arith)
        requires
            s > 0,
    ;
    assert(s <= 45 * k) by (nonlinear_arith)
        requires
            s == k * gap,
            gap <= 45,
            k > 0,
    ;
}

proof fn lemma_even_squares(days: Seq<int>, gap: int)
    requires
        days.len() >= 1,
        forall|i: int| 0 < i < days.len() ==> #[trigger] days[i] == days[0] + i * gap,
    ensures
        gap_squares(days) == (days.len() - 1) * (gap * gap),
    decreases days.len(),
{
    let n = days.len() as int;
    if n > 1 {
        let rest = days.drop_last();
        assert forall|i: int| 0 < i < rest.len() implies #[trigger] rest[i] == rest[0] + i * gap by {
            assert(rest[i] == days[i]);
        }
        lemma_even_squares(rest, gap);
        assert(days[n - 1] - days[n - 2] == gap) by {
            assert(days[n - 1] == days[0] + (n - 1) * gap);
            if n > 2 {
                assert(days[n - 2] == days[0] + (n - 2) * gap);
            }
            assert((n - 1) * gap - (n - 2) * gap == gap) by (nonlinear_arith);
        }
        assert((n - 2) * (gap * gap) + gap * gap == (n - 1) * (gap * gap)) by (nonlinear_arith);
    } else {
        assert(0 * (gap * gap) == 0);
    }
}

// ---- Deposits ----

/// A deposit: its day and its amount. Only a settled one counts, on a day that can
/// be read and is not before the cutoff.
pub open spec fn deposit_of(t: Transfer, cutoff: int) -> Option<(int, int)> {
    if t.direction == TransferDirection::MoneyIn && t.status is Complete {
        match leading_date(t.created_at@) {
            Some(day) => if day >= cutoff { Some((day as int, t.amount_in_cents as int)) } else { None },
            None => None,
        }
    } else {
        None
    }
}

pub open spec fn deposits_of(transfers: Seq<Transfer>, cutoff: int) -> Seq<(int, int)>
    decreases transfers.len(),
{
    if transfers.len() == 0 {
        Seq::empty()
    } else {
        let rest = deposits_of(transfers.drop_last(), cutoff);
        match deposit_of(transfers.last(), cutoff) {
            Some(deposit) => rest.push(deposit),
            None => rest,
        }
    }
}

pub open spec fn days_in(deposits: Seq<(int, int)>) -> Seq<int> {
    Seq::new(deposits.len(), |i: int| deposits[i].0)
}

pub open spec fn amounts_in(deposits: Seq<(int, int)>) -> Seq<int> {
    Seq::new(deposits.len(), |i: int| deposits[i].1)
}

/// The deposits in the order of their days.
pub open spec fn deposits_by_day(transfers: Seq<Transfer>, cutoff: int) -> Seq<(int, int)> {
    let found = deposits_of(transfers, cutoff);
    arranged(found, days_in(found))
}

spec fn deposit_views(s: Seq<(Date, i64)>) -> Seq<(int, int)> {
    Seq::new(s.len(), |i: int| (s[i].0@, s[i].1 as int))
}

fn deposits(transfers: &[Transfer], cutoff: Date) -> (found: Vec<(Date, i64)>)
    ensures
        deposit_views(found@) == deposits_by_day(transfers@, cutoff@),
{
    let mut found: Vec<(Date, i64)> = Vec::new();
    let mut keys: Vec<i128> = Vec::new();
    let mut i: usize = 0;
    assert(deposit_views(found@) == deposits_of(transfers@.take(0), cutoff@));
    while i < transfers.len()
        invariant
            i <= transfers@.len(),
            deposit_views(found@) == deposits_of(transfers@.take(i as int), cutoff@),
            wide(keys@) == days_in(deposit_views(found@)),
            keys@.len() == found@.len(),
        decreases transfers@.len() - i,
    {
        let t = &transfers[i];
        assert(transfers@.take(i + 1).drop_last() == transfers@.take(i as int));
        if t.direction == TransferDirection::MoneyIn && settled(t) {
            if let Some(day) = parse_date(t.created_at.as_str()) {
                let number = day.number();
                if number >= cutoff.number() {
                    let ghost held = found@;
                    let ghost held_keys = keys@;
                    found.push((day, t.amount_in_cents));
                    keys.push(number as i128);
                    assert(deposit_views(found@) == deposit_views(held).push((day@, t.amount_in_cents as int)));
                    assert(wide(keys@) == wide(held_keys).push(day@));
                    assert(wide(keys@) == days_in(deposit_views(found@)));
                }
            }
        }
        i += 1;
    }
    assert(transfers@.take(i as int) == transfers@);
    let ghost all = deposit_views(found@);
    let order = rank(&keys);
    let mut sorted: Vec<(Date, i64)> = Vec::new();
    let mut i: usize = 0;
    let ghost want = arranged(all, days_in(all));
    while i < order.len()
        invariant
            i <= order@.len(),
            all == deposit_views(found@),
            order@.len() == found@.len(),
            want == arranged(all, days_in(all)),
            forall|j: int| 0 <= j < order@.len() ==> #[trigger] order@[j] == ranking(days_in(all))[j],
            forall|j: int| 0 <= j < order@.len() ==> #[trigger] order@[j] < found@.len(),
            deposit_views(sorted@) == want.take(i as int),
        decreases order@.len() - i,
    {
        let ghost held = sorted@;
        sorted.push(found[order[i]]);
        assert(deposit_views(sorted@) == deposit_views(held).push(want[i as int]));
        i += 1;
        assert(deposit_views(sorted@) == want.take(i as int));
    }
    assert(want.take(i as int) == want);
    sorted
}

// ---- Income sources ----

/// An income source with its transfers.
pub struct Income {
    pub name: String,
    pub transfers: Vec<Transfer>,
}

pub ghost struct IncomeSourceView {
    pub name: Seq<char>,
    pub classification: Classification,
    pub schedule: Option<PayScheduleView>,
    pub typical_amount_cents: Option<int>,
}

impl View for IncomeSource {
    type V = IncomeSourceView;

    open spec fn view(&self) -> IncomeSourceView {
        IncomeSourceView {
            name: self.name@,
            classification: self.classification,
            schedule: schedule_view(self.schedule),
            typical_amount_cents: match self.typical_amount_cents {
                Some(c) => Some(c as int),
                None => None,
            },
        }
    }
}

/// What a source's deposits show: its cadence, and where it has one the median of
/// the most recent twelve (which reflects raises).
pub open spec fn source_of(income: Income, cutoff: int) -> IncomeSourceView {
    let found = deposits_by_day(income.transfers@, cutoff);
    let schedule = cadence(days_in(found));
    IncomeSourceView {
        name: income.name@,
        classification: if schedule is Some {
            Classification::Regular
        } else {
            Classification::Irregular
        },
        schedule,
        typical_amount_cents: if schedule is Some {
            Some(median_of(newest(amounts_in(found), 12)))
        } else {
            None
        },
    }
}

/// What a source's deposits show, and how many there are.
pub fn source(income: &Income, cutoff: Date) -> (found: (IncomeSource, usize))
    ensures
        found.0@ == source_of(*income, cutoff@),
        found.1 == deposits_by_day(income.transfers@, cutoff@).len(),
        found.0.schedule matches Some(s) ==> s.well_formed(),
{
    let found = deposits(income.transfers.as_slice(), cutoff);
    let ghost all = deposit_views(found@);
    let mut dates: Vec<Date> = Vec::new();
    let mut i: usize = 0;
    while i < found.len()
        invariant
            i <= found@.len(),
            all == deposit_views(found@),
            numbers(dates@) == days_in(all).take(i as int),
        decreases found@.len() - i,
    {
        let ghost held = dates@;
        dates.push(found[i].0);
        assert(numbers(dates@) == numbers(held).push(days_in(all)[i as int]));
        i += 1;
        assert(numbers(dates@) == days_in(all).take(i as int));
    }
    assert(days_in(all).take(i as int) == days_in(all));
    let (schedule, classification) = detect(dates.as_slice());
    let typical = match classification {
        Classification::Regular => {
            let mut recent: Vec<i64> = Vec::new();
            let n: usize = found.len();
            let ghost amounts = amounts_in(all);
            assert(cents(recent@) == newest(amounts, 0));
            while recent.len() < 12 && recent.len() < n
                invariant
                    n == found@.len(),
                    all == deposit_views(found@),
                    amounts == amounts_in(all),
                    recent@.len() <= 12,
                    recent@.len() <= n,
                    cents(recent@) == newest(amounts, recent@.len()),
                decreases n - recent.len(),
            {
                let k: usize = recent.len();
                let ghost held = recent@;
                recent.push(found[n - 1 - k].1);
                assert(cents(recent@) == cents(held).push(amounts[n - 1 - k]));
                assert(newest(amounts, (k + 1) as nat) == newest(amounts, k as nat).push(amounts[n - 1 - k]));
            }
            assert(newest(amounts, 12) == newest(amounts, recent@.len()));
            Some(median(recent))
        },
        Classification::Irregular => None,
    };
    let seen: usize = dates.len();
    assert(numbers(dates@).len() == seen);
    (
        IncomeSource {
            name: income.name.clone(),
            classification,
            schedule,
            typical_amount_cents: typical,
        },
        seen,
    )
}

/// The regular source with the highest typical amount, the first of them.
pub open spec fn best_source(sources: Seq<IncomeSourceView>) -> Option<(int, PayScheduleView)>
    decreases sources.len(),
{
    if sources.len() == 0 {
        None
    } else {
        let rest = best_source(sources.drop_last());
        match (sources.last().schedule, sources.last().typical_amount_cents) {
            (Some(schedule), Some(typical)) => match rest {
                Some((best, _)) => if typical > best { Some((typical, schedule)) } else { rest },
                None => Some((typical, schedule)),
            },
            _ => rest,
        }
    }
}

// ---- Pools ----

pub ghost struct PoolRefView {
    pub pod_id: Seq<char>,
    pub name: Seq<char>,
    pub deposits_seen: int,
}

impl View for PoolRef {
    type V = PoolRefView;

    open spec fn view(&self) -> PoolRefView {
        PoolRefView { pod_id: self.pod_id@, name: self.name@, deposits_seen: self.deposits_seen as int }
    }
}

/// The pod that a transfer sends a source's money to: settled, not money in, and to
/// a pod (a pool is a pod, not an external account).
pub open spec fn pool_vote(t: Transfer) -> Option<(Seq<char>, Seq<char>)> {
    if t.direction == TransferDirection::MoneyIn || !(t.status is Complete) {
        None
    } else {
        match t.destination {
            Some(d) => match d.id {
                Some(id) => if d.is_pod { Some((id@, d.name@)) } else { None },
                None => None,
            },
            None => None,
        }
    }
}

/// Where the pod stands among the votes: their number where it has none yet.
pub open spec fn vote_index(votes: Seq<PoolRefView>, pod: Seq<char>) -> int
    decreases votes.len(),
{
    if votes.len() == 0 || votes[0].pod_id == pod {
        0
    } else {
        1 + vote_index(votes.drop_first(), pod)
    }
}

pub open spec fn with_vote(votes: Seq<PoolRefView>, pod: Seq<char>, name: Seq<char>) -> Seq<PoolRefView> {
    let i = vote_index(votes, pod);
    if i < votes.len() {
        votes.update(i, PoolRefView { deposits_seen: votes[i].deposits_seen + 1, ..votes[i] })
    } else {
        votes.push(PoolRefView { pod_id: pod, name, deposits_seen: 1 })
    }
}

/// How often money landed in each pod, in the order in which they were first seen.
pub open spec fn votes_with(votes: Seq<PoolRefView>, transfers: Seq<Transfer>) -> Seq<PoolRefView>
    decreases transfers.len(),
{
    if transfers.len() == 0 {
        votes
    } else {
        let rest = votes_with(votes, transfers.drop_last());
        match pool_vote(transfers.last()) {
            Some((pod, name)) => with_vote(rest, pod, name),
            None => rest,
        }
    }
}

pub open spec fn all_votes(incomes: Seq<Income>) -> Seq<PoolRefView>
    decreases incomes.len(),
{
    if incomes.len() == 0 {
        Seq::empty()
    } else {
        votes_with(all_votes(incomes.drop_last()), incomes.last().transfers@)
    }
}

/// The pods that income flowed into, most deposits first.
pub open spec fn pools_of(incomes: Seq<Income>) -> Seq<PoolRefView> {
    let votes = all_votes(incomes);
    arranged(votes, Seq::new(votes.len(), |i: int| -votes[i].deposits_seen))
}

/// No pod has been sent money more often than can be counted in 32 bits.
pub open spec fn votes_fit(votes: Seq<PoolRefView>) -> bool {
    forall|i: int| 0 <= i < votes.len() ==> (#[trigger] votes[i]).deposits_seen <= u32::MAX
}

proof fn lemma_vote_index(votes: Seq<PoolRefView>, pod: Seq<char>)
    ensures
        0 <= vote_index(votes, pod) <= votes.len(),
        vote_index(votes, pod) < votes.len() ==> votes[vote_index(votes, pod)].pod_id == pod,
        forall|i: int| 0 <= i < vote_index(votes, pod) ==> (#[trigger] votes[i]).pod_id != pod,
    decreases votes.len(),
{
    if votes.len() > 0 && votes[0].pod_id != pod {
        lemma_vote_index(votes.drop_first(), pod);
        assert forall|i: int| 0 <= i < vote_index(votes, pod) implies (#[trigger] votes[i]).pod_id != pod by {
            if i > 0 {
                assert(votes[i] == votes.drop_first()[i - 1]);
            }
        }
    }
}

/// The first votes hold no more than all.
spec fn grown(some: Seq<PoolRefView>, all: Seq<PoolRefView>) -> bool {
    &&& some.len() <= all.len()
    &&& forall|i: int| 0 <= i < some.len() ==> (#[trigger] some[i]).deposits_seen <= all[i].deposits_seen
}

proof fn lemma_votes_grow(votes: Seq<PoolRefView>, transfers: Seq<Transfer>, n: int)
    requires
        0 <= n <= transfers.len(),
    ensures
        grown(votes_with(votes, transfers.take(n)), votes_with(votes, transfers)),
    decreases transfers.len() - n,
{
    if n < transfers.len() {
        assert(transfers.take(n + 1).drop_last() == transfers.take(n));
        lemma_votes_grow(votes, transfers, n + 1);
        let a = votes_with(votes, transfers.take(n));
        let b = votes_with(votes, transfers.take(n + 1));
        let all = votes_with(votes, transfers);
        if let Some((pod, name)) = pool_vote(transfers[n]) {
            lemma_vote_index(a, pod);
        }
        assert forall|i: int| 0 <= i < a.len() implies (#[trigger] a[i]).deposits_seen <= all[i].deposits_seen by {
            assert(a[i].deposits_seen <= b[i].deposits_seen <= all[i].deposits_seen);
        }
    } else {
        assert(transfers.take(n) == transfers);
    }
}

proof fn lemma_all_votes_grow(incomes: Seq<Income>, n: int)
    requires
        0 <= n <= incomes.len(),
    ensures
        grown(all_votes(incomes.take(n)), all_votes(incomes)),
    decreases incomes.len() - n,
{
    if n < incomes.len() {
        assert(incomes.take(n + 1).drop_last() == incomes.take(n));
        lemma_all_votes_grow(incomes, n + 1);
        let a = all_votes(incomes.take(n));
        let b = all_votes(incomes.take(n + 1));
        let all = all_votes(incomes);
        lemma_votes_grow(a, incomes[n].transfers@, 0);
        assert(votes_with(a, incomes[n].transfers@.take(0)) == a);
        assert forall|i: int| 0 <= i < a.len() implies (#[trigger] a[i]).deposits_seen <= all[i].deposits_seen by {
            assert(a[i].deposits_seen <= b[i].deposits_seen <= all[i].deposits_seen);
        }
    } else {
        assert(incomes.take(n) == incomes);
    }
}

fn add_vote(votes: &mut Vec<PoolRef>, pod: &str, name: &str)
    requires
        votes_fit(with_vote(views(old(votes)@), pod@, name@)),
    ensures
        views(final(votes)@) == with_vote(views(old(votes)@), pod@, name@),
{
    let ghost all = views(votes@);
    let mut i: usize = 0;
    assert(all.skip(0) == all);
    while i < votes.len() && !same_text(votes[i].pod_id.as_str(), pod)
        invariant
            i <= votes@.len(),
            votes@ == old(votes)@,
            all == views(votes@),
            vote_index(all, pod@) == i + vote_index(all.skip(i as int), pod@),
        decreases votes@.len() - i,
    {
        assert(all.skip(i as int)[0] == votes@[i as int]@);
        assert(all.skip(i as int).drop_first() == all.skip(i + 1));
        i += 1;
    }
    proof {
        if i < all.len() {
            assert(all.skip(i as int)[0] == votes@[i as int]@);
        }
        assert(vote_index(all, pod@) == i);
    }
    if i < votes.len() {
        let seen: u32 = votes[i].deposits_seen;
        assert(with_vote(all, pod@, name@)[i as int].deposits_seen == seen + 1);
        let more = PoolRef {
            pod_id: votes[i].pod_id.clone(),
            name: votes[i].name.clone(),
            deposits_seen: seen + 1,
        };
        votes.set(i, more);
        assert(views(votes@) == all.update(i as int, more@));
    } else {
        let first = PoolRef { pod_id: pod.to_owned(), name: name.to_owned(), deposits_seen: 1 };
        votes.push(first);
        assert(views(votes@) == all.push(first@));
    }
}

/// Trace where a source sends its money — that pool is what the engine funds bills from.
fn add_votes(votes: &mut Vec<PoolRef>, transfers: &[Transfer])
    requires
        votes_fit(votes_with(views(old(votes)@), transfers@)),
    ensures
        views(final(votes)@) == votes_with(views(old(votes)@), transfers@),
{
    let ghost start = views(votes@);
    let mut i: usize = 0;
    while i < transfers.len()
        invariant
            i <= transfers@.len(),
            start == views(old(votes)@),
            votes_fit(votes_with(start, transfers@)),
            views(votes@) == votes_with(start, transfers@.take(i as int)),
        decreases transfers@.len() - i,
    {
        let t = &transfers[i];
        assert(transfers@.take(i + 1).drop_last() == transfers@.take(i as int));
        proof {
            lemma_votes_grow(start, transfers@, i + 1);
            let some = votes_with(start, transfers@.take(i + 1));
            let all = votes_with(start, transfers@);
            assert forall|j: int| 0 <= j < some.len() implies (#[trigger] some[j]).deposits_seen <= u32::MAX by {
                assert(some[j].deposits_seen <= all[j].deposits_seen);
            }
        }
        if t.direction != TransferDirection::MoneyIn && settled(t) {
            if let Some(d) = &t.destination {
                if let Some(id) = &d.id {
                    if d.is_pod {
                        add_vote(votes, id.as_str(), d.name.as_str());
                    }
                }
            }
        }
        i += 1;
    }
    assert(transfers@.take(i as int) == transfers@);
}

fn copy_pool(pool: &PoolRef) -> (copy: PoolRef)
    ensures
        copy@ == pool@,
{
    PoolRef { pod_id: pool.pod_id.clone(), name: pool.name.clone(), deposits_seen: pool.deposits_seen }
}

/// Rank the pods income flowed into; these are the pool(s).
pub fn rank_pools(incomes: &Vec<Income>) -> (pools: Vec<PoolRef>)
    requires
        votes_fit(all_votes(incomes@)),
    ensures
        views(pools@) == pools_of(incomes@),
{
    let mut votes: Vec<PoolRef> = Vec::new();
    let mut i: usize = 0;
    assert(views(votes@) == all_votes(incomes@.take(0)));
    while i < incomes.len()
        invariant
            i <= incomes@.len(),
            votes_fit(all_votes(incomes@)),
            views(votes@) == all_votes(incomes@.take(i as int)),
        decreases incomes@.len() - i,
    {
        assert(incomes@.take(i + 1).drop_last() == incomes@.take(i as int));
        proof {
            lemma_all_votes_grow(incomes@, i + 1);
            let some = all_votes(incomes@.take(i + 1));
            let all = all_votes(incomes@);
            assert forall|j: int| 0 <= j < some.len() implies (#[trigger] some[j]).deposits_seen <= u32::MAX by {
                assert(some[j].deposits_seen <= all[j].deposits_seen);
            }
        }
        add_votes(&mut votes, incomes[i].transfers.as_slice());
        i += 1;
    }
    assert(incomes@.take(i as int) == incomes@);
    let ghost all = views(votes@);
    let ghost order_keys = Seq::new(all.len(), |i: int| -all[i].deposits_seen);
    let mut keys: Vec<i128> = Vec::new();
    let mut i: usize = 0;
    while i < votes.len()
        invariant
            i <= votes@.len(),
            all == views(votes@),
            keys@.len() == i,
            forall|j: int| 0 <= j < i ==> #[trigger] keys@[j] == -all[j].deposits_seen,
        decreases votes@.len() - i,
    {
        keys.push(-(votes[i].deposits_seen as i128));
        i += 1;
    }
    assert(wide(keys@) == order_keys);
    let order = rank(&keys);
    let ghost want = arranged(all, order_keys);
    let mut pools: Vec<PoolRef> = Vec::new();
    let mut i: usize = 0;
    while i < order.len()
        invariant
            i <= order@.len(),
            all == views(votes@),
            order@.len() == votes@.len(),
            order_keys.len() == all.len(),
            want == arranged(all, order_keys),
            forall|j: int| 0 <= j < order@.len() ==> #[trigger] order@[j] == ranking(order_keys)[j],
            forall|j: int| 0 <= j < order@.len() ==> #[trigger] order@[j] < votes@.len(),
            views(pools@) == want.take(i as int),
        decreases order@.len() - i,
    {
        let ghost held = pools@;
        let pool = copy_pool(&votes[order[i]]);
        pools.push(pool);
        assert(views(pools@) == views(held).push(pool@));
        assert(pool@ == want[i as int]);
        i += 1;
        assert(views(pools@) == want.take(i as int));
    }
    assert(want.take(i as int) == want);
    pools
}

/// The pool comes first: no pod has had more deposits than the one before it.
pub proof fn lemma_pools_are_ranked(incomes: Seq<Income>, i: int, j: int)
    requires
        0 <= i < j < pools_of(incomes).len(),
    ensures
        pools_of(incomes)[i].deposits_seen >= pools_of(incomes)[j].deposits_seen,
{
    let votes = all_votes(incomes);
    let keys = Seq::new(votes.len(), |i: int| -votes[i].deposits_seen);
    lemma_ranking(keys);
    let (a, b) = (ranking(keys)[i], ranking(keys)[j]);
    assert(crate::order::stands_before(keys, a, b));
}

// ---- The survey ----

/// How far back deposits count: about two years, for the cadence.
pub const LOOK_BACK_DAYS: i32 = 730;

/// What onboarding finds.
pub struct Survey {
    pub sources: Vec<IncomeSource>,
    /// How many deposits of each source count.
    pub deposits: Vec<usize>,
    pub pay_schedule: PaySchedule,
    /// Whether the schedule is that of a regular source, and not the default.
    pub regular: bool,
    pub pools: Vec<PoolRef>,
}

pub open spec fn sources_of(incomes: Seq<Income>, cutoff: int) -> Seq<IncomeSourceView> {
    Seq::new(incomes.len(), |i: int| source_of(incomes[i], cutoff))
}

/// The schedule to fund by: that of the best source, or twice a month.
pub open spec fn schedule_of(sources: Seq<IncomeSourceView>) -> PayScheduleView {
    match best_source(sources) {
        Some((_, schedule)) => schedule,
        None => PayScheduleView::SemiMonthly { days: seq![15i32, -1i32] },
    }
}

pub open spec fn counts(deposits: Seq<usize>) -> Seq<int> {
    Seq::new(deposits.len(), |i: int| deposits[i] as int)
}

pub open spec fn deposit_counts(incomes: Seq<Income>, cutoff: int) -> Seq<int> {
    Seq::new(incomes.len(), |i: int| deposits_by_day(incomes[i].transfers@, cutoff).len() as int)
}

/// Detect each source's cadence and typical amount, the schedule to fund by, and the
/// pool(s) income flows into.
pub fn survey(incomes: &Vec<Income>, today: Date) -> (found: Survey)
    requires
        on_calendar(today@ - LOOK_BACK_DAYS),
        votes_fit(all_votes(incomes@)),
    ensures
        views(found.sources@) == sources_of(incomes@, today@ - LOOK_BACK_DAYS),
        counts(found.deposits@) == deposit_counts(incomes@, today@ - LOOK_BACK_DAYS),
        found.pay_schedule@ == schedule_of(sources_of(incomes@, today@ - LOOK_BACK_DAYS)),
        found.pay_schedule.well_formed(),
        found.regular == (best_source(sources_of(incomes@, today@ - LOOK_BACK_DAYS)) is Some),
        views(found.pools@) == pools_of(incomes@),
{
    let cutoff = today.plus_days(-LOOK_BACK_DAYS);
    let ghost all = sources_of(incomes@, cutoff@);
    let ghost all_counts = deposit_counts(incomes@, cutoff@);
    let mut sources: Vec<IncomeSource> = Vec::new();
    let mut deposits: Vec<usize> = Vec::new();
    let mut best: Option<(i64, PaySchedule)> = None;
    let mut i: usize = 0;
    while i < incomes.len()
        invariant
            i <= incomes@.len(),
            all == sources_of(incomes@, cutoff@),
            all_counts == deposit_counts(incomes@, cutoff@),
            views(sources@) == all.take(i as int),
            counts(deposits@) == all_counts.take(i as int),
            best is Some == best_source(all.take(i as int)) is Some,
            best matches Some(b) ==> best_source(all.take(i as int)) == Some((b.0 as int, b.1@)) && b.1.well_formed(),
        decreases incomes@.len() - i,
    {
        let (one, seen) = source(&incomes[i], cutoff);
        assert(one@ == all[i as int]);
        assert(all.take(i + 1).drop_last() == all.take(i as int));
        if let (Some(schedule), Some(typical)) = (&one.schedule, one.typical_amount_cents) {
            let better = match &best {
                Some((t, _)) => typical > *t,
                None => true,
            };
            if better {
                best = Some((typical, schedule.clone()));
            }
        }
        let ghost held = sources@;
        let ghost held_counts = deposits@;
        sources.push(one);
        deposits.push(seen);
        assert(views(sources@) == views(held).push(all[i as int]));
        assert(counts(deposits@) == counts(held_counts).push(all_counts[i as int]));
        i += 1;
        assert(views(sources@) == all.take(i as int));
        assert(counts(deposits@) == all_counts.take(i as int));
    }
    assert(all.take(i as int) == all);
    assert(all_counts.take(i as int) == all_counts);
    let pools = rank_pools(incomes);
    match best {
        Some((_, pay_schedule)) => Survey { sources, deposits, pay_schedule, regular: true, pools },
        None => Survey { sources, deposits, pay_schedule: PaySchedule::default(), regular: false, pools },
    }
}

// ---- Choices ----

/// The account to reclaim into, from the names and their lower-case forms.
pub open spec fn reclaimed(names: Seq<Seq<char>>, lower: Seq<Seq<char>>) -> Option<Seq<char>> {
    match first_holding(names, lower, "emergency"@) {
        Some(name) => Some(name),
        None => first_holding(names, lower, "savings"@),
    }
}

/// The rebalance target, from the lower-case form of each account's name: a pod
/// named like "emergency" (falls back to "savings").
pub fn reclaim_pod_among(accounts: &Vec<AccountSummary>, lower: &Vec<String>) -> (name: Option<String>)
    requires
        lower@.len() == accounts@.len(),
    ensures
        text_view(name) == reclaimed(listed(accounts@), texts(lower@)),
{
    match find_holding(accounts, lower, "emergency") {
        Some(name) => Some(name),
        None => find_holding(accounts, lower, "savings"),
    }
}

/// The rebalance target: a pod named like "emergency" (falls back to "savings").
pub fn reclaim_pod(accounts: &Vec<AccountSummary>) -> (name: Option<String>)
    ensures
        text_view(name) == reclaimed(listed(accounts@), lowercase_all(listed(accounts@))),
{
    let lower = lower_all(&list_names(accounts));
    assert(texts(lower@).len() == accounts@.len());
    reclaim_pod_among(accounts, &lower)
}

/// The strategy that an answer chooses.
pub open spec fn strategy_chosen(line: Seq<char>) -> FundingStrategy {
    if trim(line) == "2"@ {
        FundingStrategy::StrictEnvelope
    } else if trim(line) == "3"@ {
        FundingStrategy::Proportional
    } else {
        FundingStrategy::SoonestDue
    }
}

/// Which strategy to use when the pool is short, from the answer typed in: `2` strict
/// envelope, `3` proportional, anything else the safe default.
pub fn strategy_choice(line: &str) -> (strategy: FundingStrategy)
    ensures
        strategy == strategy_chosen(line@),
{
    let answer = trim_chars(&chars_of(line));
    if spells(&answer, "2") {
        FundingStrategy::StrictEnvelope
    } else if spells(&answer, "3") {
        FundingStrategy::Proportional
    } else {
        FundingStrategy::SoonestDue
    }
}

// ---- What onboarding prints ----

pub open spec fn signed(n: int) -> Seq<char> {
    if n < 0 {
        seq!['-'] + decimal((-n) as nat)
    } else {
        decimal(n as nat)
    }
}

pub open spec fn day_list(days: Seq<i32>) -> Seq<char>
    decreases days.len(),
{
    if days.len() == 0 {
        Seq::empty()
    } else if days.len() == 1 {
        signed(days[0] as int)
    } else {
        day_list(days.drop_last()) + ", "@ + signed(days.last() as int)
    }
}

pub open spec fn weekday_text(weekday: Weekday) -> Seq<char> {
    match weekday {
        Weekday::Mon => "Mon"@,
        Weekday::Tue => "Tue"@,
        Weekday::Wed => "Wed"@,
        Weekday::Thu => "Thu"@,
        Weekday::Fri => "Fri"@,
        Weekday::Sat => "Sat"@,
        Weekday::Sun => "Sun"@,
    }
}

/// A schedule written out.
pub open spec fn schedule_text(s: PayScheduleView) -> Seq<char> {
    match s {
        PayScheduleView::SemiMonthly { days } => "SemiMonthly { days: ["@ + day_list(days) + "] }"@,
        PayScheduleView::Monthly { day } => "Monthly { day: "@ + signed(day as int) + " }"@,
        PayScheduleView::Biweekly { anchor } => "Biweekly { anchor: "@ + date_text(anchor as i32) + " }"@,
        PayScheduleView::Weekly { weekday } => "Weekly { weekday: "@ + weekday_text(weekday) + " }"@,
        PayScheduleView::Irregular => "Irregular"@,
    }
}

fn push_signed(text: &mut String, n: i32)
    ensures
        final(text)@ == old(text)@ + signed(n as int),
{
    let ghost before = text@;
    if n < 0 {
        text.push('-');
        push_decimal(text, (-(n as i64)) as u128);
    } else {
        push_decimal(text, n as u128);
    }
    assert(text@ == before + signed(n as int));
}

/// A schedule written out.
pub fn write_schedule(s: &PaySchedule) -> (text: String)
    ensures
        text@ == schedule_text(s@),
{
    match s {
        PaySchedule::SemiMonthly { days } => {
            let mut list = String::new();
            let mut i: usize = 0;
            while i < days.len()
                invariant
                    i <= days@.len(),
                    list@ == day_list(days@.take(i as int)),
                decreases days@.len() - i,
            {
                assert(days@.take(i + 1).drop_last() == days@.take(i as int));
                if i > 0 {
                    list.append(", ");
                }
                push_signed(&mut list, days[i]);
                if i == 0 {
                    assert(list@ == signed(days@[0] as int));
                }
                i += 1;
            }
            assert(days@.take(i as int) == days@);
            let mut text = "SemiMonthly { days: [".to_owned();
            text.append(list.as_str());
            text.append("] }");
            text
        },
        PaySchedule::Monthly { day } => {
            let mut text = "Monthly { day: ".to_owned();
            push_signed(&mut text, *day);
            text.append(" }");
            text
        },
        PaySchedule::Biweekly { anchor } => {
            let mut text = "Biweekly { anchor: ".to_owned();
            text.append(anchor.text().as_str());
            text.append(" }");
            text
        },
        PaySchedule::Weekly { weekday } => {
            let mut text = "Weekly { weekday: ".to_owned();
            text.append(
                match weekday {
                    Weekday::Mon => "Mon",
                    Weekday::Tue => "Tue",
                    Weekday::Wed => "Wed",
                    Weekday::Thu => "Thu",
                    Weekday::Fri => "Fri",
                    Weekday::Sat => "Sat",
                    Weekday::Sun => "Sun",
                },
            );
            text.append(" }");
            text
        },
        PaySchedule::Irregular => "Irregular".to_owned(),
    }
}

/// The line on one source.
pub open spec fn source_line(s: IncomeSourceView, deposits: int) -> Seq<char> {
    left(at_most(s.name, 24), 24) + " "@ + right(decimal(deposits as nat), 3) + " deposits  ->  "@ + (match s.schedule {
        Some(schedule) => schedule_text(schedule),
        None => "IRREGULAR"@,
    }) + "  "@ + (match s.typical_amount_cents {
        Some(cents) => dollars_text(cents),
        None => "—"@,
    }) + "\n"@
}

pub open spec fn source_lines(sources: Seq<IncomeSourceView>, deposits: Seq<int>) -> Seq<char>
    decreases sources.len(),
{
    if sources.len() == 0 {
        Seq::empty()
    } else {
        source_lines(sources.drop_last(), deposits) + source_line(sources.last(), deposits[sources.len() - 1])
    }
}

pub open spec fn pool_lines(pools: Seq<PoolRefView>) -> Seq<char>
    decreases pools.len(),
{
    if pools.len() == 0 {
        Seq::empty()
    } else {
        pool_lines(pools.drop_last()) + "    "@ + left(pools.last().name, 24) + " ("@ + decimal(
            pools.last().deposits_seen as nat,
        ) + " deposits)\n"@
    }
}

/// What onboarding prints: the sources, and the pools.
pub open spec fn survey_lines(
    sources: Seq<IncomeSourceView>,
    deposits: Seq<int>,
    regular: bool,
    pools: Seq<PoolRefView>,
) -> Seq<char> {
    source_lines(sources, deposits) + (if regular {
        Seq::empty()
    } else {
        "\n[!] no regular income detected — defaulting the pay schedule\n"@
    }) + "\nincome pool(s) — where your paychecks land:\n"@ + (if pools.len() == 0 {
        "    [!] none detected — income may flow to an external account\n"@
    } else {
        Seq::empty()
    }) + pool_lines(pools)
}

fn write_source(s: &IncomeSource, deposits: usize) -> (text: String)
    ensures
        text@ == source_line(s@, deposits as int),
{
    let mut number = String::new();
    push_decimal(&mut number, deposits as u128);
    assert(number@ == decimal(deposits as nat));
    let mut text = to_left(take_at_most(s.name.as_str(), 24).as_str(), 24);
    text.append(" ");
    text.append(to_right(number.as_str(), 3).as_str());
    text.append(" deposits  ->  ");
    match &s.schedule {
        Some(schedule) => {
            text.append(write_schedule(schedule).as_str());
        },
        None => {
            text.append("IRREGULAR");
        },
    }
    text.append("  ");
    match s.typical_amount_cents {
        Some(cents) => {
            text.append(dollars(cents).as_str());
        },
        None => {
            text.append("—");
        },
    }
    text.append("\n");
    text
}

/// What onboarding prints: the sources, and the pools.
pub fn survey_text(found: &Survey) -> (text: String)
    requires
        found.sources@.len() == found.deposits@.len(),
    ensures
        text@ == survey_lines(views(found.sources@), counts(found.deposits@), found.regular, views(found.pools@)),
{
    let ghost sources = views(found.sources@);
    let ghost deposits = counts(found.deposits@);
    let ghost pools = views(found.pools@);
    let mut text = String::new();
    let mut i: usize = 0;
    assert(text@ == source_lines(sources.take(0), deposits));
    while i < found.sources.len()
        invariant
            i <= found.sources@.len(),
            found.sources@.len() == found.deposits@.len(),
            sources == views(found.sources@),
            deposits == counts(found.deposits@),
            text@ == source_lines(sources.take(i as int), deposits),
        decreases found.sources@.len() - i,
    {
        assert(sources.take(i + 1).drop_last() == sources.take(i as int));
        assert(sources[i as int] == found.sources@[i as int]@);
        text.append(write_source(&found.sources[i], found.deposits[i]).as_str());
        i += 1;
    }
    assert(sources.take(i as int) == sources);
    if !found.regular {
        text.append("\n[!] no regular income detected — defaulting the pay schedule\n");
    } else {
        assert(text@ + Seq::<char>::empty() == text@);
    }
    text.append("\nincome pool(s) — where your paychecks land:\n");
    if found.pools.len() == 0 {
        text.append("    [!] none detected — income may flow to an external account\n");
    } else {
        assert(text@ + Seq::<char>::empty() == text@);
    }
    let ghost head = text@;
    let mut i: usize = 0;
    assert(head + pool_lines(pools.take(0)) == head);
    while i < found.pools.len()
        invariant
            i <= found.pools@.len(),
            pools == views(found.pools@),
            text@ == head + pool_lines(pools.take(i as int)),
        decreases found.pools@.len() - i,
    {
        let pool = &found.pools[i];
        assert(pools.take(i + 1).drop_last() == pools.take(i as int));
        assert(pools[i as int] == pool@);
        text.append("    ");
        text.append(to_left(pool.name.as_str(), 24).as_str());
        text.append(" (");
        push_decimal(&mut text, pool.deposits_seen as u128);
        text.append(" deposits)\n");
        i += 1;
        assert(text@ == head + pool_lines(pools.take(i as int)));
    }
    assert(pools.take(i as int) == pools);
    text
}

// ---- What a rhythm is ----

/// The days between a deposit and the one before it.
pub open spec fn gap_before(days: Seq<int>, i: int) -> int {
    days[i] - days[i - 1]
}

proof fn lemma_squares_of_bounded_gaps(days: Seq<int>, lo: int, hi: int)
    requires
        days.len() >= 1,
        0 < lo <= hi,
        forall|i: int| 0 < i < days.len() ==> lo <= #[trigger] gap_before(days, i) <= hi,
    ensures
        lo * (days.len() - 1) <= days.last() - days[0] <= hi * (days.len() - 1),
        gap_squares(days) <= hi * (days.last() - days[0]),
    decreases days.len(),
{
    let n = days.len() as int;
    if n > 1 {
        let rest = days.drop_last();
        assert forall|i: int| 0 < i < rest.len() implies lo <= #[trigger] gap_before(rest, i) <= hi by {
            assert(gap_before(rest, i) == gap_before(days, i));
        }
        lemma_squares_of_bounded_gaps(rest, lo, hi);
        let g = gap_before(days, n - 1);
        let s = rest.last() - rest[0];
        assert(g * g <= hi * g && hi * s + hi * g == hi * (s + g)) by (nonlinear_arith)
            requires
                0 < g <= hi,
        ;
        assert(lo * (n - 2) + lo == lo * (n - 1) && hi * (n - 2) + hi == hi * (n - 1)) by (nonlinear_arith);
    } else {
        assert(lo * 0 == 0 && hi * 0 == 0) by (nonlinear_arith);
    }
}

/// Deposits whose gaps differ by no more than a third of the smallest are never erratic.
pub proof fn lemma_steady_gaps_are_a_rhythm(days: Seq<int>, lo: int, hi: int)
    requires
        days.len() >= 3,
        0 < lo <= hi,
        25 * hi <= 34 * lo,
        forall|i: int| 0 < i < days.len() ==> lo <= #[trigger] gap_before(days, i) <= hi,
    ensures
        !erratic(days),
        lo * (days.len() - 1) <= days.last() - days[0] <= hi * (days.len() - 1),
{
    lemma_squares_of_bounded_gaps(days, lo, hi);
    let k = days.len() - 1;
    let s = days.last() - days[0];
    let q = gap_squares(days);
    assert(s > 0) by (nonlinear_arith)
        requires
            lo * k <= s,
            lo > 0,
            k > 0,
    ;
    assert(25 * (k * q) <= 34 * (s * s)) by (nonlinear_arith)
        requires
            q <= hi * s,
            25 * hi <= 34 * lo,
            lo * k <= s,
            k > 0,
            s > 0,
            lo > 0,
    {
        assert(k * q <= k * (hi * s));
        assert(25 * (k * (hi * s)) == (25 * hi) * (k * s));
        assert((25 * hi) * (k * s) <= (34 * lo) * (k * s)) by {
            assert(k * s > 0);
        }
        assert((34 * lo) * (k * s) == 34 * ((lo * k) * s));
        assert((lo * k) * s <= s * s);
    }
}

proof fn lemma_one_gap_is_among_the_squares(days: Seq<int>, i: int)
    requires
        0 < i < days.len(),
    ensures
        gap_before(days, i) * gap_before(days, i) <= gap_squares(days),
        0 <= gap_squares(days.drop_last()),
    decreases days.len(),
{
    let n = days.len() as int;
    let rest = days.drop_last();
    let g = gap_before(days, n - 1);
    assert(g * g >= 0) by (nonlinear_arith);
    if i < rest.len() {
        lemma_one_gap_is_among_the_squares(rest, i);
        assert(gap_before(rest, i) == gap_before(days, i));
        assert(0 <= gap_before(rest, i) * gap_before(rest, i)) by (nonlinear_arith);
    } else if rest.len() > 1 {
        lemma_one_gap_is_among_the_squares(rest, rest.len() - 1);
        let h = gap_before(rest, rest.len() - 1);
        assert(h * h >= 0) by (nonlinear_arith);
    }
}

/// One gap that is out of all proportion to the others (its square times the number of
/// gaps more than 34 / 25 of the square of their sum) is enough for no cadence.
pub proof fn lemma_a_wild_gap_is_no_rhythm(days: Seq<int>, i: int)
    requires
        0 < i < days.len(),
        ({
            let (k, s, g) = (days.len() - 1, days.last() - days[0], gap_before(days, i));
            25 * (k * (g * g)) > 34 * (s * s)
        }),
    ensures
        cadence(days) is None,
{
    lemma_one_gap_is_among_the_squares(days, i);
    let (k, g, q) = (days.len() - 1, gap_before(days, i), gap_squares(days));
    assert(k * (g * g) <= k * q) by (nonlinear_arith)
        requires
            g * g <= q,
            k > 0,
    ;
}

// ---- What the anchors are ----

/// The days ascend.
pub open spec fn ascending(s: Seq<int>) -> bool {
    forall|i: int, j: int| 0 <= i <= j < s.len() ==> #[trigger] s[i] <= #[trigger] s[j]
}

/// How many tokens belong to each anchor.
pub open spec fn sizes(a: Seq<(i32, int)>) -> Seq<int> {
    Seq::new(a.len(), |i: int| a[i].1)
}

proof fn lemma_run_stops(days: Seq<int>)
    requires
        days.len() > 0,
    ensures
        run_length(days) < days.len() ==> days[run_length(days)] - days[run_length(days) - 1] > 4,
        forall|i: int| 0 < i < run_length(days) ==> #[trigger] gap_before(days, i) <= 4,
    decreases days.len(),
{
    lemma_run_length(days);
    if days.len() > 1 && days[1] - days[0] <= 4 {
        let rest = days.drop_first();
        lemma_run_stops(rest);
        lemma_run_length(rest);
        assert forall|i: int| 0 < i < run_length(days) implies #[trigger] gap_before(days, i) <= 4 by {
            if i > 1 {
                assert(gap_before(rest, i - 1) == gap_before(days, i));
            }
        }
    }
}

/// The day after the one at `i` is more than four days later, or there is none.
pub open spec fn ends_run(s: Seq<int>, i: int) -> bool {
    i + 1 < s.len() ==> s[i + 1] - s[i] > 4
}

#[verifier::spinoff_prover]
#[verifier::rlimit(50)]
proof fn lemma_runs(s: Seq<int>)
    requires
        ascending(s),
        forall|i: int| 0 <= i < s.len() ==> i32::MIN <= #[trigger] s[i] <= i32::MAX,
    ensures
        sum(sizes(runs(s))) == s.len(),
        forall|r: int| 0 <= r < runs(s).len() ==> (#[trigger] runs(s)[r]).1 >= 1 && s.contains(runs(s)[r].0 as int),
        forall|r: int, q: int|
            0 <= r < q < runs(s).len() ==> (#[trigger] runs(s)[r]).0 + 4 < (#[trigger] runs(s)[q]).0,
        forall|i: int|
            0 <= i < s.len() && #[trigger] ends_run(s, i) ==> exists|r: int|
                0 <= r < runs(s).len() && (#[trigger] runs(s)[r]).0 == s[i],
    decreases s.len(),
{
    if s.len() == 0 {
        assert(sizes(runs(s)) == Seq::<int>::empty());
    } else {
        lemma_run_length(s);
        lemma_run_stops(s);
        let n = run_length(s);
        let rest = s.skip(n);
        let head = (s[n - 1] as i32, n);
        let all = runs(s);
        assert forall|i: int, j: int| 0 <= i <= j < rest.len() implies #[trigger] rest[i] <= #[trigger] rest[j] by {
            assert(s[i + n] <= s[j + n]);
        }
        assert forall|i: int| 0 <= i < rest.len() implies i32::MIN <= #[trigger] rest[i] <= i32::MAX by {
            assert(rest[i] == s[i + n]);
        }
        lemma_runs(rest);
        assert(all == seq![head] + runs(rest));
        assert(sizes(all) == seq![n] + sizes(runs(rest)));
        lemma_sum_add(seq![n], sizes(runs(rest)));
        assert(sum(seq![n]) == n) by {
            reveal_with_fuel(sum, 2);
        }
        assert(s[n - 1] == head.0);
        assert forall|r: int| 0 <= r < all.len() implies (#[trigger] all[r]).1 >= 1 && s.contains(all[r].0 as int) by {
            if r > 0 {
                assert(all[r] == runs(rest)[r - 1]);
                let i = choose|i: int| 0 <= i < rest.len() && rest[i] == all[r].0;
                assert(s[i + n] == rest[i]);
            }
        }
        assert forall|r: int, q: int| 0 <= r < q < all.len() implies (#[trigger] all[r]).0 + 4 < (
        #[trigger] all[q]).0 by {
            assert(all[q] == runs(rest)[q - 1]);
            if r > 0 {
                assert(all[r] == runs(rest)[r - 1]);
            } else {
                assert(rest.contains(runs(rest)[q - 1].0 as int));
                let i = choose|i: int| 0 <= i < rest.len() && rest[i] == all[q].0;
                assert(s[n] <= s[i + n]);
            }
        }
        assert forall|i: int| 0 <= i < s.len() && #[trigger] ends_run(s, i) implies exists|r: int|
            0 <= r < all.len() && (#[trigger] all[r]).0 == s[i] by {
            if i < n {
                if i < n - 1 {
                    assert(gap_before(s, i + 1) <= 4);
                }
                assert(all[0].0 == s[i]);
            } else {
                assert(rest[i - n] == s[i]);
                assert(ends_run(rest, i - n));
                let r = choose|r: int| 0 <= r < runs(rest).len() && (#[trigger] runs(rest)[r]).0 == rest[i - n];
                assert(all[r + 1] == runs(rest)[r]);
            }
        }
    }
}

/// The tokens are days of the month: -1 or from 1 to 31.
pub open spec fn month_days(tokens: Seq<i64>) -> bool {
    forall|i: int| 0 <= i < tokens.len() ==> #[trigger] tokens[i] == -1 || 1 <= tokens[i] <= 31
}

#[verifier::spinoff_prover]
#[verifier::rlimit(50)]
proof fn lemma_positives(tokens: Seq<i64>)
    requires
        month_days(tokens),
    ensures
        positives(cents(tokens)).len() + times(tokens, -1i64) == tokens.len(),
        forall|i: int|
            0 <= i < positives(cents(tokens)).len() ==> 0 < #[trigger] positives(cents(tokens))[i] <= 31 && exists|j: int|
                0 <= j < tokens.len() && #[trigger] tokens[j] == positives(cents(tokens))[i],
        forall|j: int|
            0 <= j < tokens.len() && #[trigger] tokens[j] > 0 ==> positives(cents(tokens)).contains(tokens[j] as int),
        times(tokens, -1i64) > 0 <==> tokens.contains(-1i64),
    decreases tokens.len(),
{
    let all = positives(cents(tokens));
    if tokens.len() > 0 {
        let rest = tokens.drop_last();
        let before = positives(cents(rest));
        let last = tokens.len() - 1;
        assert(cents(tokens).drop_last() == cents(rest));
        assert forall|i: int| 0 <= i < rest.len() implies #[trigger] rest[i] == -1 || 1 <= rest[i] <= 31 by {
            assert(rest[i] == tokens[i]);
        }
        lemma_positives(rest);
        assert(tokens[last] == tokens.last());
        assert forall|i: int| 0 <= i < all.len() implies 0 < #[trigger] all[i] <= 31 && exists|j: int|
            0 <= j < tokens.len() && #[trigger] tokens[j] == all[i] by {
            if i < before.len() {
                assert(all[i] == before[i]);
                let j = choose|j: int| 0 <= j < rest.len() && #[trigger] rest[j] == before[i];
                assert(tokens[j] == rest[j]);
            } else {
                assert(tokens[last] == all[i]);
            }
        }
        assert forall|j: int| 0 <= j < tokens.len() && #[trigger] tokens[j] > 0 implies all.contains(
            tokens[j] as int,
        ) by {
            if j < rest.len() {
                assert(rest[j] == tokens[j]);
                let i = choose|i: int| 0 <= i < before.len() && before[i] == rest[j];
                assert(all[i] == before[i]);
            } else {
                assert(all[all.len() - 1] == tokens[j]);
            }
        }
        if tokens.contains(-1i64) {
            let j = choose|j: int| 0 <= j < tokens.len() && tokens[j] == -1i64;
            if j < rest.len() {
                assert(rest[j] == -1i64);
            }
        }
        if rest.contains(-1i64) {
            let j = choose|j: int| 0 <= j < rest.len() && rest[j] == -1i64;
            assert(tokens[j] == -1i64);
        }
    } else {
        assert(all.len() == 0);
    }
}

/// `found` holds the days of the month `tokens` in anchors: every anchor is one of the
/// days, the anchors lie more than four days apart (and the month's end by itself), they
/// hold all the days together, and a day with no other day in the four days after it is
/// an anchor.
pub open spec fn clusters(found: Seq<(i32, int)>, tokens: Seq<i64>) -> bool {
    &&& sum(sizes(found)) == tokens.len()
    &&& forall|r: int| 0 <= r < found.len() ==> (#[trigger] found[r]).1 >= 1 && tokens.contains(found[r].0 as i64)
    &&& forall|r: int, q: int|
        0 <= r < found.len() && 0 <= q < found.len() && r != q ==> far_apart(
            (#[trigger] found[r]).0 as int,
            (#[trigger] found[q]).0 as int,
        )
    &&& forall|i: int|
        0 <= i < tokens.len() && #[trigger] nothing_follows(tokens, i) ==> exists|r: int|
            0 <= r < found.len() && (#[trigger] found[r]).0 == tokens[i]
}

/// Two anchors are different and, where neither is the month's end, more than four
/// days apart.
pub open spec fn far_apart(a: int, b: int) -> bool {
    a != b && (a > 0 && b > 0 ==> a - b > 4 || b - a > 4)
}

/// The token at `i` is the month's end, or no other day lies in the four days after it.
pub open spec fn nothing_follows(tokens: Seq<i64>, i: int) -> bool {
    tokens[i] > 0 ==> forall|j: int| 0 <= j < tokens.len() ==> !(tokens[i] < #[trigger] tokens[j] <= tokens[i] + 4)
}

#[verifier::spinoff_prover]
#[verifier::rlimit(50)]
proof fn lemma_anchors_cluster(tokens: Seq<i64>)
    requires
        month_days(tokens),
    ensures
        clusters(anchors(tokens), tokens),
{
    let a = anchors(tokens);
    let days = positives(cents(tokens));
    let s = arranged(days, days);
    let ends = times(tokens, -1i64);
    let head = if ends > 0 {
        seq![(-1i32, ends as int)]
    } else {
        Seq::empty()
    };
    let h = head.len() as int;
    lemma_positives(tokens);
    lemma_arranged_ascends(days);
    lemma_arranged_are_the_items(days, days);
    assert forall|i: int| 0 <= i < s.len() implies 0 < #[trigger] s[i] <= 31 && exists|j: int|
        0 <= j < tokens.len() && #[trigger] tokens[j] == s[i] by {
        assert(days.contains(s[i]));
        let k = choose|k: int| 0 <= k < days.len() && days[k] == s[i];
        assert(0 < days[k] <= 31);
    }
    lemma_runs(s);
    assert(a == head + runs(s));
    assert(sizes(a) == sizes(head) + sizes(runs(s)));
    lemma_sum_add(sizes(head), sizes(runs(s)));
    assert(sum(sizes(head)) == ends) by {
        reveal_with_fuel(sum, 2);
    }
    assert forall|r: int| 0 <= r < a.len() implies (#[trigger] a[r]).1 >= 1 && tokens.contains(a[r].0 as i64) by {
        if r >= h {
            assert(a[r] == runs(s)[r - h]);
            let i = choose|i: int| 0 <= i < s.len() && s[i] == a[r].0;
            let j = choose|j: int| 0 <= j < tokens.len() && #[trigger] tokens[j] == s[i];
            assert(tokens[j] == a[r].0 as i64);
        } else {
            assert(tokens.contains(-1i64));
        }
    }
    assert forall|r: int, q: int| 0 <= r < a.len() && 0 <= q < a.len() && r != q implies far_apart(
        (#[trigger] a[r]).0 as int,
        (#[trigger] a[q]).0 as int,
    ) by {
        lemma_two_anchors(head, s, r, q);
    }
    assert forall|i: int| 0 <= i < tokens.len() && #[trigger] nothing_follows(tokens, i) implies exists|r: int|
        0 <= r < a.len() && (#[trigger] a[r]).0 == tokens[i] by {
        let t = tokens[i];
        if t == -1 {
            assert(tokens.contains(-1i64));
            assert(a[0].0 == t);
        } else {
            assert(days.contains(t as int));
            let k = choose|k: int| 0 <= k < days.len() && days[k] == t;
            assert(s.contains(days[k]));
            let m = lemma_last_of_its_kind(s, t as int);
            if m + 1 < s.len() {
                assert(s[m] <= s[m + 1]);
                let j = choose|j: int| 0 <= j < tokens.len() && #[trigger] tokens[j] == s[m + 1];
                assert(!(tokens[i] < tokens[j] <= tokens[i] + 4));
            }
            assert(ends_run(s, m));
            let r = choose|r: int| 0 <= r < runs(s).len() && (#[trigger] runs(s)[r]).0 == s[m];
            assert(a[r + h] == runs(s)[r]);
        }
    }
}

#[verifier::spinoff_prover]
#[verifier::rlimit(50)]
proof fn lemma_two_anchors(head: Seq<(i32, int)>, s: Seq<int>, r: int, q: int)
    requires
        head.len() <= 1,
        head.len() == 1 ==> head[0].0 == -1,
        ascending(s),
        forall|i: int| 0 <= i < s.len() ==> 0 < #[trigger] s[i] <= 31,
        0 <= r < head.len() + runs(s).len(),
        0 <= q < head.len() + runs(s).len(),
        r != q,
    ensures
        far_apart((head + runs(s))[r].0 as int, (head + runs(s))[q].0 as int),
{
    let h = head.len() as int;
    lemma_runs(s);
    let (low, high) = if r < q { (r, q) } else { (q, r) };
    assert((head + runs(s))[high] == runs(s)[high - h]);
    assert(s.contains(runs(s)[high - h].0 as int));
    let i = choose|i: int| 0 <= i < s.len() && s[i] == runs(s)[high - h].0;
    assert(0 < s[i]);
    if low >= h {
        assert((head + runs(s))[low] == runs(s)[low - h]);
    }
}

/// Days of the month cluster into anchors, those with the most days first.
#[verifier::spinoff_prover]
#[verifier::rlimit(50)]
pub proof fn lemma_days_cluster_into_anchors(tokens: Seq<i64>)
    requires
        month_days(tokens),
    ensures
        clusters(by_count(anchors(tokens)), tokens),
        forall|r: int, q: int|
            0 <= r < q < by_count(anchors(tokens)).len() ==> (#[trigger] by_count(anchors(tokens))[r]).1 >= (
            #[trigger] by_count(anchors(tokens))[q]).1,
{
    let found = by_count(anchors(tokens));
    let a = anchors(tokens);
    let keys = Seq::new(a.len(), |i: int| -a[i].1);
    lemma_anchors_cluster(tokens);
    lemma_ranking(keys);
    assert(sizes(found) == arranged(sizes(a), keys));
    lemma_sum_of_arranged(sizes(a), keys);
    lemma_arranged_are_the_items(a, keys);
    assert forall|r: int| 0 <= r < found.len() implies (#[trigger] found[r]).1 >= 1 && tokens.contains(
        found[r].0 as i64,
    ) by {
        assert(found[r] == a[ranking(keys)[r]]);
    }
    assert forall|r: int, q: int| 0 <= r < q < found.len() implies (#[trigger] found[r]).1 >= (#[trigger] found[q]).1 by {
        assert(crate::order::stands_before(keys, ranking(keys)[r], ranking(keys)[q]));
    }
    assert forall|r: int, q: int| 0 <= r < found.len() && 0 <= q < found.len() && r != q implies far_apart(
        (#[trigger] found[r]).0 as int,
        (#[trigger] found[q]).0 as int,
    ) by {
        let (x, y) = (ranking(keys)[r], ranking(keys)[q]);
        if r < q {
            assert(crate::order::stands_before(keys, x, y));
        } else {
            assert(crate::order::stands_before(keys, y, x));
        }
        assert(x != y);
        assert(found[r] == a[x] && found[q] == a[y]);
    }
    assert forall|i: int| 0 <= i < tokens.len() && #[trigger] nothing_follows(tokens, i) implies exists|r: int|
        0 <= r < found.len() && (#[trigger] found[r]).0 == tokens[i] by {
        let x = choose|x: int| 0 <= x < a.len() && (#[trigger] a[x]).0 == tokens[i];
        assert(found.contains(a[x]));
        let r = choose|r: int| 0 <= r < found.len() && found[r] == a[x];
        assert(found[r].0 == tokens[i]);
    }
}

proof fn lemma_last_of_its_kind(s: Seq<int>, t: int) -> (m: int)
    requires
        ascending(s),
        s.contains(t),
    ensures
        0 <= m < s.len(),
        s[m] == t,
        m + 1 < s.len() ==> s[m + 1] != t,
    decreases s.len(),
{
    let last = s.len() - 1;
    if s[last] == t {
        last
    } else {
        let k = choose|k: int| 0 <= k < s.len() && s[k] == t;
        let rest = s.drop_last();
        assert(rest[k] == t);
        let m = lemma_last_of_its_kind(rest, t);
        if m + 1 == last {
            assert(s[m + 1] == s[last]);
        }
        m
    }
}

// ---- What a schedule looks like in its deposits ----

/// A deposit lands on a day of the month: on that day, or for -1 on one of the last
/// three days of the month.
pub open spec fn lands_on(n: int, day: int) -> bool {
    let from_end = month_len(year_of(n), month_of(n)) - day_of(n);
    if day == -1 {
        from_end <= 2
    } else {
        day_of(n) == day && from_end > 2
    }
}

proof fn lemma_tokens(days: Seq<int>)
    ensures
        month_days(tokens_of(days)),
        forall|i: int, day: int|
            0 <= i < days.len() && -1 <= day <= 31 && day != 0 ==> (#[trigger] lands_on(days[i], day) <==> tokens_of(
                days,
            )[i] == day),
{
    let tokens = tokens_of(days);
    assert forall|i: int| 0 <= i < tokens.len() implies #[trigger] tokens[i] == -1 || 1 <= tokens[i] <= 31 by {
        lemma_ymd_exists(days[i]);
    }
    assert forall|i: int, day: int| 0 <= i < days.len() && -1 <= day <= 31 && day != 0 implies (#[trigger] lands_on(
        days[i],
        day,
    ) <==> tokens[i] == day) by {
        lemma_ymd_exists(days[i]);
    }
}

/// Deposits a month apart that all land on one day of the month, or all at its end,
/// are detected as monthly pay on that day.
pub proof fn lemma_monthly_pay_is_detected(days: Seq<int>, day: int)
    requires
        days.len() >= 3,
        day == -1 || 1 <= day <= 31,
        forall|i: int| 0 <= i < days.len() ==> lands_on(#[trigger] days[i], day),
        !erratic(days),
        20 * (days.len() - 1) < days.last() - days[0] <= 45 * (days.len() - 1),
    ensures
        cadence(days) == Some(PayScheduleView::Monthly { day: day as i32 }),
{
    let tokens = tokens_of(days);
    let found = by_count(anchors(tokens));
    lemma_tokens(days);
    assert forall|i: int| 0 <= i < tokens.len() implies #[trigger] tokens[i] == day by {
        assert(lands_on(days[i], day));
    }
    lemma_days_cluster_into_anchors(tokens);
    assert(nothing_follows(tokens, 0));
    let r = choose|r: int| 0 <= r < found.len() && (#[trigger] found[r]).0 == tokens[0];
    assert(tokens.contains(found[0].0 as i64));
}

/// Deposits from 26 to 35 days apart are never too erratic to be monthly pay: the end
/// of every month, or one day of every month, is detected for what it is.
pub proof fn lemma_a_monthly_payday_is_detected(days: Seq<int>, day: int)
    requires
        days.len() >= 3,
        day == -1 || 1 <= day <= 31,
        forall|i: int| 0 <= i < days.len() ==> lands_on(#[trigger] days[i], day),
        forall|i: int| 0 < i < days.len() ==> 26 <= #[trigger] gap_before(days, i) <= 35,
    ensures
        cadence(days) == Some(PayScheduleView::Monthly { day: day as i32 }),
{
    lemma_steady_gaps_are_a_rhythm(days, 26, 35);
    lemma_monthly_pay_is_detected(days, day);
}

/// Deposits half a month apart that land on two days of the month, more than four days
/// from each other or one of them its end, are detected as pay on those two days.
#[verifier::spinoff_prover]
#[verifier::rlimit(50)]
pub proof fn lemma_semi_monthly_pay_is_detected(days: Seq<int>, first: int, second: int)
    requires
        days.len() >= 3,
        first == -1 || 1 <= first,
        1 <= second <= 31,
        first == -1 || first + 4 < second,
        forall|i: int| 0 <= i < days.len() ==> lands_on(#[trigger] days[i], first) || lands_on(days[i], second),
        exists|i: int| 0 <= i < days.len() && lands_on(#[trigger] days[i], first),
        exists|i: int| 0 <= i < days.len() && lands_on(#[trigger] days[i], second),
        !erratic(days),
        9 * (days.len() - 1) < days.last() - days[0] <= 20 * (days.len() - 1),
    ensures
        cadence(days) == Some(PayScheduleView::SemiMonthly { days: seq![first as i32, second as i32] }),
{
    let tokens = tokens_of(days);
    let found = by_count(anchors(tokens));
    let n = days.len() as int;
    lemma_tokens(days);
    lemma_days_cluster_into_anchors(tokens);
    assert forall|i: int| 0 <= i < tokens.len() implies #[trigger] tokens[i] == first || tokens[i] == second by {
        assert(lands_on(days[i], first) || lands_on(days[i], second));
    }
    let i = choose|i: int| 0 <= i < days.len() && lands_on(#[trigger] days[i], first);
    let j = choose|j: int| 0 <= j < days.len() && lands_on(#[trigger] days[j], second);
    assert(lands_on(days[i], first) && lands_on(days[j], second));
    assert(tokens[i] == first && tokens[j] == second);
    assert(nothing_follows(tokens, i) && nothing_follows(tokens, j));
    let x = choose|x: int| 0 <= x < found.len() && (#[trigger] found[x]).0 == tokens[i];
    let y = choose|y: int| 0 <= y < found.len() && (#[trigger] found[y]).0 == tokens[j];
    assert(x != y);
    assert forall|r: int, q: int| 0 <= r < q < found.len() implies (#[trigger] found[r]).0 != (#[trigger] found[q]).0 by {
        assert(far_apart(found[r].0 as int, found[q].0 as int));
    }
    assert forall|r: int| 0 <= r < found.len() implies (#[trigger] found[r]).0 == first || found[r].0 == second by {
        assert(tokens.contains(found[r].0 as i64));
    }
    if found.len() > 2 {
        assert(found[0].0 != found[1].0 && found[1].0 != found[2].0 && found[0].0 != found[2].0);
    }
    assert(sizes(found) == seq![found[0].1, found[1].1]);
    assert(sum(sizes(found)) == found[0].1 + found[1].1) by {
        reveal_with_fuel(sum, 3);
    }
    assert(found[0].0 != found[1].0);
    let (a, b) = (first as i32, second as i32);
    if found[0].0 <= found[1].0 {
        assert(seq![found[0].0, found[1].0] == seq![a, b]);
    } else {
        assert(seq![found[1].0, found[0].0] == seq![a, b]);
    }
}

/// Deposits a week apart that all land on one weekday are detected as weekly pay on it.
pub proof fn lemma_weekly_pay_is_detected(days: Seq<int>, weekday: Weekday)
    requires
        days.len() >= 3,
        forall|i: int| 0 <= i < days.len() ==> weekday_of(#[trigger] days[i]) == weekday.index(),
        !erratic(days),
        days.last() - days[0] <= 9 * (days.len() - 1),
    ensures
        cadence(days) == Some(PayScheduleView::Weekly { weekday }),
{
    let w = weekdays_of(days);
    assert forall|i: int| 0 <= i < w.len() implies #[trigger] w[i] == weekday.index() by {
        assert(weekday_of(days[i]) == weekday.index());
    }
    assert(is_mode_at(w, 0));
    assert(mode_of(w) == Some(weekday.index() as i64));
}

/// The mean gap decides the kind of cadence: up to 9 days weekly; up to 20 twice a
/// month or, from the last deposit, every other week; up to 45 monthly; none beyond.
/// The days of the month that are found are days that deposits landed on.
#[verifier::spinoff_prover]
#[verifier::rlimit(50)]
pub proof fn lemma_the_mean_gap_decides(days: Seq<int>)
    requires
        days.len() >= 3,
        !erratic(days),
    ensures
        ({
            let (k, s) = (days.len() - 1, days.last() - days[0]);
            &&& s <= 9 * k ==> cadence(days) is Some && cadence(days)->0 is Weekly
            &&& 9 * k < s <= 20 * k ==> match cadence(days) {
                Some(PayScheduleView::Biweekly { anchor }) => anchor == days.last(),
                Some(PayScheduleView::SemiMonthly { days: d }) => {
                    &&& d.len() == 2
                    &&& d[0] < d[1]
                    &&& exists|i: int| 0 <= i < days.len() && #[trigger] lands_on(days[i], d[0] as int)
                    &&& exists|i: int| 0 <= i < days.len() && #[trigger] lands_on(days[i], d[1] as int)
                },
                _ => false,
            }
            &&& 20 * k < s <= 45 * k ==> match cadence(days) {
                Some(PayScheduleView::Monthly { day }) => exists|i: int|
                    0 <= i < days.len() && #[trigger] lands_on(days[i], day as int),
                _ => false,
            }
            &&& s > 45 * k ==> cadence(days) is None
        }),
{
    let tokens = tokens_of(days);
    let found = by_count(anchors(tokens));
    lemma_tokens(days);
    lemma_days_cluster_into_anchors(tokens);
    let (k, s) = (days.len() - 1, days.last() - days[0]);
    if found.len() == 0 {
        assert(sum(sizes(found)) == 0);
    }
    assert(tokens.contains(found[0].0 as i64));
    let i = choose|i: int| 0 <= i < tokens.len() && tokens[i] == found[0].0 as i64;
    assert(tokens[i] == -1 || 1 <= tokens[i] <= 31);
    assert(lands_on(days[i], found[0].0 as int));
    if found.len() >= 2 {
        assert(far_apart(found[0].0 as int, found[1].0 as int));
        assert(tokens.contains(found[1].0 as i64));
        let j = choose|j: int| 0 <= j < tokens.len() && tokens[j] == found[1].0 as i64;
        assert(tokens[j] == -1 || 1 <= tokens[j] <= 31);
        assert(lands_on(days[j], found[1].0 as int));
        if let Some(PayScheduleView::SemiMonthly { days: d }) = cadence(days) {
            if found[0].0 <= found[1].0 {
                assert(lands_on(days[i], d[0] as int) && lands_on(days[j], d[1] as int));
            } else {
                assert(lands_on(days[j], d[0] as int) && lands_on(days[i], d[1] as int));
            }
        }
    }
    if let Some(PayScheduleView::Monthly { day }) = cadence(days) {
        assert(lands_on(days[i], day as int));
    }
}

// ---- What the middle is ----

/// The median of two amounts is their mean, rounded toward zero.
pub proof fn lemma_median_of_two(a: int, b: int)
    ensures
        ({
            let m = median_of(seq![a, b]);
            &&& -1 <= 2 * m - (a + b) <= 1
            &&& a + b >= 0 ==> 0 <= 2 * m <= a + b
            &&& a + b <= 0 ==> a + b <= 2 * m <= 0
        }),
{
    let xs = seq![a, b];
    let s = arranged(xs, xs);
    lemma_sum_of_arranged(xs, xs);
    lemma_ranking(xs);
    assert(sum(xs) == a + b && sum(s) == s[0] + s[1]) by {
        reveal_with_fuel(sum, 3);
    }
}

/// An amount below all and one above all do not move the median.
pub proof fn lemma_extremes_do_not_move_the_median(xs: Seq<int>, low: int, high: int)
    requires
        xs.len() > 0,
        forall|i: int| 0 <= i < xs.len() ==> low <= #[trigger] xs[i] <= high,
    ensures
        median_of(seq![low] + xs + seq![high]) == median_of(xs),
{
    broadcast use vstd::seq_lib::group_to_multiset_ensures;

    let leq = |a: int, b: int| a <= b;
    let more = seq![low] + xs + seq![high];
    let s = arranged(xs, xs);
    let t = arranged(more, more);
    let framed = seq![low] + s + seq![high];
    lemma_arranged_keeps_all(xs, xs);
    lemma_arranged_keeps_all(more, more);
    lemma_arranged_ascends(xs);
    lemma_arranged_ascends(more);
    lemma_arranged_are_the_items(xs, xs);
    vstd::seq_lib::lemma_multiset_commutative(seq![low], xs);
    vstd::seq_lib::lemma_multiset_commutative(seq![low], s);
    vstd::seq_lib::lemma_multiset_commutative(seq![low] + xs, seq![high]);
    vstd::seq_lib::lemma_multiset_commutative(seq![low] + s, seq![high]);
    assert(framed.to_multiset() == t.to_multiset());
    assert forall|i: int| 0 <= i < s.len() implies low <= #[trigger] s[i] <= high by {
        assert(xs.contains(s[i]));
    }
    assert forall|i: int, j: int| 0 <= i < j < framed.len() implies #[trigger] leq(framed[i], framed[j]) by {
        if 0 < i && j < framed.len() - 1 {
            assert(s[i - 1] <= s[j - 1]);
        } else if i == 0 && j < framed.len() - 1 {
            assert(low <= s[j - 1]);
        } else if i > 0 {
            assert(s[i - 1] <= high);
        } else {
            assert(low <= xs[0] <= high);
        }
    }
    assert forall|i: int, j: int| 0 <= i < j < t.len() implies #[trigger] leq(t[i], t[j]) by {
        assert(t[i] <= t[j]);
    }
    vstd::seq_lib::lemma_sorted_unique(framed, t, leq);
    let n = xs.len() as int;
    assert(t[(n + 2) / 2] == s[n / 2]);
    if n % 2 == 0 {
        assert(t[(n + 2) / 2 - 1] == s[n / 2 - 1]);
    }
}

proof fn lemma_median_of_equals(xs: Seq<int>, c: int)
    requires
        xs.len() > 0,
        forall|i: int| 0 <= i < xs.len() ==> #[trigger] xs[i] == c,
    ensures
        median_of(xs) == c,
{
    lemma_ranking(xs);
    let s = arranged(xs, xs);
    let n = xs.len() as int;
    assert(s[n / 2] == c);
    if n % 2 == 0 {
        assert(s[n / 2 - 1] == c);
    }
}

// ---- What counts as a deposit ----

/// The deposits are picked one by one, in order: settled money that came in, on a day
/// that can be read and is not before the cutoff.
pub proof fn lemma_deposits_are_picked_one_by_one(a: Seq<Transfer>, b: Seq<Transfer>, cutoff: int)
    ensures
        deposits_of(a + b, cutoff) == deposits_of(a, cutoff) + deposits_of(b, cutoff),
        a.len() == 0 ==> deposits_of(a, cutoff).len() == 0,
        a.len() == 1 ==> deposits_of(a, cutoff) == if a[0].direction is MoneyIn && a[0].status is Complete && leading_date(
            a[0].created_at@,
        ) is Some && leading_date(a[0].created_at@)->0 >= cutoff {
            seq![(leading_date(a[0].created_at@)->0 as int, a[0].amount_in_cents as int)]
        } else {
            Seq::empty()
        },
    decreases b.len(),
{
    reveal_with_fuel(deposits_of, 2);
    if b.len() == 0 {
        assert(a + b == a);
    } else {
        assert((a + b).drop_last() == a + b.drop_last());
        lemma_deposits_are_picked_one_by_one(a, b.drop_last(), cutoff);
    }
}

/// Cadence and amounts are read off all the deposits, in the order of their days.
pub proof fn lemma_deposits_stand_by_day(transfers: Seq<Transfer>, cutoff: int, i: int, j: int)
    requires
        0 <= i < j < deposits_by_day(transfers, cutoff).len(),
    ensures
        deposits_by_day(transfers, cutoff).to_multiset() == deposits_of(transfers, cutoff).to_multiset(),
        deposits_by_day(transfers, cutoff)[i].0 <= deposits_by_day(transfers, cutoff)[j].0,
{
    let found = deposits_of(transfers, cutoff);
    lemma_arranged_keeps_all(found, days_in(found));
    lemma_ranking(days_in(found));
    assert(crate::order::stands_before(days_in(found), ranking(days_in(found))[i], ranking(days_in(found))[j]));
}

/// A source is regular if and only if its deposits have a cadence, and only then has it
/// a typical amount. That reflects raises: where the last twelve deposits (or all, where
/// there are fewer) are of one amount, it is the typical one, whatever came before.
pub proof fn lemma_typical_amounts_reflect_raises(income: Income, cutoff: int, amount: int)
    ensures
        ({
            let found = deposits_by_day(income.transfers@, cutoff);
            let source = source_of(income, cutoff);
            let n = found.len() as int;
            &&& source.name == income.name@
            &&& source.schedule == cadence(days_in(found))
            &&& source.classification is Regular <==> source.schedule is Some
            &&& source.typical_amount_cents is Some <==> source.schedule is Some
            &&& source.schedule is Some && (forall|i: int|
                0 <= i < n && n - 12 <= i ==> (#[trigger] found[i]).1 == amount) ==> source.typical_amount_cents == Some(
                amount,
            )
        }),
{
    let found = deposits_by_day(income.transfers@, cutoff);
    let last = newest(amounts_in(found), 12);
    let n = found.len() as int;
    if source_of(income, cutoff).schedule is Some && forall|i: int|
        0 <= i < n && n - 12 <= i ==> (#[trigger] found[i]).1 == amount {
        assert forall|i: int| 0 <= i < last.len() implies #[trigger] last[i] == amount by {
            assert(found[n - 1 - i].1 == amount);
        }
        lemma_median_of_equals(last, amount);
    }
}

// ---- Which schedule and pool are chosen ----

/// A source to schedule by: it has a cadence and a typical amount.
pub open spec fn is_regular(source: IncomeSourceView) -> bool {
    source.schedule is Some && source.typical_amount_cents is Some
}

/// The schedule to fund by is that of a regular source that no other out-earns, the
/// first of them; it is the default only where no source is regular.
pub proof fn lemma_the_best_paid_source_is_followed(sources: Seq<IncomeSourceView>)
    ensures
        best_source(sources) is None <==> forall|i: int| 0 <= i < sources.len() ==> !is_regular(#[trigger] sources[i]),
        best_source(sources) is None ==> schedule_of(sources) == (PayScheduleView::SemiMonthly { days: seq![15i32, -1i32] }),
        best_source(sources) matches Some((typical, schedule)) ==> schedule_of(sources) == schedule && exists|i: int|
            {
                &&& 0 <= i < sources.len()
                &&& (#[trigger] sources[i]).schedule == Some(schedule)
                &&& sources[i].typical_amount_cents == Some(typical)
                &&& forall|j: int|
                    0 <= j < sources.len() && is_regular(#[trigger] sources[j]) ==> sources[j].typical_amount_cents->0
                        <= typical && (j < i ==> sources[j].typical_amount_cents->0 < typical)
            },
    decreases sources.len(),
{
    if sources.len() > 0 {
        let rest = sources.drop_last();
        let last = sources.len() - 1;
        lemma_the_best_paid_source_is_followed(rest);
        assert(sources[last] == sources.last());
        assert forall|i: int| 0 <= i < rest.len() implies #[trigger] sources[i] == rest[i] by {}
        if best_source(rest) is None {
            if is_regular(sources.last()) {
                let (typical, schedule) = best_source(sources)->0;
                assert(sources[last].schedule == Some(schedule));
                assert forall|j: int| 0 <= j < last implies !is_regular(#[trigger] sources[j]) by {
                    assert(!is_regular(rest[j]));
                }
            } else {
                assert forall|i: int| 0 <= i < sources.len() implies !is_regular(#[trigger] sources[i]) by {
                    if i < last {
                        assert(!is_regular(rest[i]));
                    }
                }
            }
        } else {
            let (best, chosen) = best_source(rest)->0;
            let i = choose|i: int|
                {
                    &&& 0 <= i < rest.len()
                    &&& (#[trigger] rest[i]).schedule == Some(chosen)
                    &&& rest[i].typical_amount_cents == Some(best)
                    &&& forall|j: int|
                        0 <= j < rest.len() && is_regular(#[trigger] rest[j]) ==> rest[j].typical_amount_cents->0 <= best
                            && (j < i ==> rest[j].typical_amount_cents->0 < best)
                };
            assert(is_regular(sources[i]));
            assert forall|j: int| 0 <= j < last && is_regular(#[trigger] sources[j]) implies sources[j].typical_amount_cents->0
                <= best && (j < i ==> sources[j].typical_amount_cents->0 < best) by {
                assert(is_regular(rest[j]));
            }
            if is_regular(sources.last()) && sources.last().typical_amount_cents->0 > best {
                assert(sources[last].schedule == Some((best_source(sources)->0).1));
            } else {
                assert(sources[i].schedule == Some(chosen));
            }
        }
    }
}

/// A settled transfer that sends money on to a pod.
pub open spec fn lands_in(t: Transfer, pod: Seq<char>) -> bool {
    &&& !(t.direction is MoneyIn)
    &&& t.status is Complete
    &&& t.destination matches Some(d) && d.is_pod && (d.id matches Some(id) && id@ == pod)
}

pub open spec fn landings(transfers: Seq<Transfer>, pod: Seq<char>) -> nat
    decreases transfers.len(),
{
    if transfers.len() == 0 {
        0
    } else {
        landings(transfers.drop_last(), pod) + if lands_in(transfers.last(), pod) { 1nat } else { 0nat }
    }
}

/// How often the sources' money landed in a pod.
pub open spec fn all_landings(incomes: Seq<Income>, pod: Seq<char>) -> nat
    decreases incomes.len(),
{
    if incomes.len() == 0 {
        0
    } else {
        all_landings(incomes.drop_last(), pod) + landings(incomes.last().transfers@, pod)
    }
}

/// Every pod stands once, and has been sent money.
spec fn each_pod_once(votes: Seq<PoolRefView>) -> bool {
    &&& forall|i: int, j: int| 0 <= i < j < votes.len() ==> (#[trigger] votes[i]).pod_id != (#[trigger] votes[j]).pod_id
    &&& forall|i: int| 0 <= i < votes.len() ==> (#[trigger] votes[i]).deposits_seen > 0
}

spec fn tally(votes: Seq<PoolRefView>, pod: Seq<char>) -> int {
    let i = vote_index(votes, pod);
    if i < votes.len() {
        votes[i].deposits_seen
    } else {
        0
    }
}

proof fn lemma_vote_index_of(votes: Seq<PoolRefView>, i: int)
    requires
        each_pod_once(votes),
        0 <= i < votes.len(),
    ensures
        vote_index(votes, votes[i].pod_id) == i,
{
    let k = vote_index(votes, votes[i].pod_id);
    lemma_vote_index(votes, votes[i].pod_id);
    if k < i {
        assert(votes[k].pod_id != votes[i].pod_id);
    } else if i < k {
        assert(votes[i].pod_id != votes[i].pod_id);
    }
}

proof fn lemma_one_vote(votes: Seq<PoolRefView>, pod: Seq<char>, name: Seq<char>, other: Seq<char>)
    requires
        each_pod_once(votes),
    ensures
        each_pod_once(with_vote(votes, pod, name)),
        tally(with_vote(votes, pod, name), other) == tally(votes, other) + if pod == other { 1int } else { 0 },
{
    let after = with_vote(votes, pod, name);
    let k = vote_index(votes, pod);
    lemma_vote_index(votes, pod);
    lemma_vote_index(votes, other);
    lemma_vote_index(after, other);
    assert forall|i: int, j: int| 0 <= i < j < after.len() implies (#[trigger] after[i]).pod_id != (
    #[trigger] after[j]).pod_id by {
        if j < votes.len() {
            assert(votes[i].pod_id != votes[j].pod_id);
        } else {
            assert(votes[i].pod_id != pod);
        }
    }
    let before = vote_index(votes, other);
    if before < votes.len() {
        assert(after[before].pod_id == other);
        lemma_vote_index_of(after, before);
    } else if pod == other {
        assert(after[votes.len() as int].pod_id == other);
        lemma_vote_index_of(after, votes.len() as int);
    } else if vote_index(after, other) < after.len() {
        let i = vote_index(after, other);
        assert(i < votes.len());
        assert(votes[i].pod_id == other);
        lemma_vote_index_of(votes, i);
    }
}

proof fn lemma_votes_tally(votes: Seq<PoolRefView>, transfers: Seq<Transfer>, pod: Seq<char>)
    requires
        each_pod_once(votes),
    ensures
        each_pod_once(votes_with(votes, transfers)),
        tally(votes_with(votes, transfers), pod) == tally(votes, pod) + landings(transfers, pod),
    decreases transfers.len(),
{
    if transfers.len() > 0 {
        lemma_votes_tally(votes, transfers.drop_last(), pod);
        if let Some((p, name)) = pool_vote(transfers.last()) {
            lemma_one_vote(votes_with(votes, transfers.drop_last()), p, name, pod);
        }
    }
}

proof fn lemma_all_votes_tally(incomes: Seq<Income>, pod: Seq<char>)
    ensures
        each_pod_once(all_votes(incomes)),
        tally(all_votes(incomes), pod) == all_landings(incomes, pod),
    decreases incomes.len(),
{
    if incomes.len() > 0 {
        lemma_all_votes_tally(incomes.drop_last(), pod);
        lemma_votes_tally(all_votes(incomes.drop_last()), incomes.last().transfers@, pod);
    } else {
        assert(vote_index(all_votes(incomes), pod) == 0);
    }
}

/// The pools are the pods that income was sent on to, each once, with how often money
/// landed there.
pub proof fn lemma_pools_are_where_income_lands(incomes: Seq<Income>, pod: Seq<char>)
    ensures
        all_landings(incomes, pod) > 0 <==> exists|i: int|
            0 <= i < pools_of(incomes).len() && (#[trigger] pools_of(incomes)[i]).pod_id == pod,
        forall|i: int|
            0 <= i < pools_of(incomes).len() && (#[trigger] pools_of(incomes)[i]).pod_id == pod
                ==> pools_of(incomes)[i].deposits_seen == all_landings(incomes, pod),
        forall|i: int, j: int|
            0 <= i < j < pools_of(incomes).len() ==> (#[trigger] pools_of(incomes)[i]).pod_id != (
            #[trigger] pools_of(incomes)[j]).pod_id,
{
    let votes = all_votes(incomes);
    let keys = Seq::new(votes.len(), |i: int| -votes[i].deposits_seen);
    let pools = pools_of(incomes);
    lemma_all_votes_tally(incomes, pod);
    lemma_vote_index(votes, pod);
    lemma_ranking(keys);
    lemma_arranged_are_the_items(votes, keys);
    let k = vote_index(votes, pod);
    if k < votes.len() {
        assert(pools.contains(votes[k]));
        let i = choose|i: int| 0 <= i < pools.len() && pools[i] == votes[k];
        assert(pools[i].pod_id == pod);
    }
    assert forall|i: int| 0 <= i < pools.len() && (#[trigger] pools[i]).pod_id == pod implies pools[i].deposits_seen
        == all_landings(incomes, pod) by {
        let x = ranking(keys)[i];
        assert(pools[i] == votes[x]);
        lemma_vote_index_of(votes, x);
    }
    assert forall|i: int, j: int| 0 <= i < j < pools.len() implies (#[trigger] pools[i]).pod_id != (
    #[trigger] pools[j]).pod_id by {
        let (x, y) = (ranking(keys)[i], ranking(keys)[j]);
        assert(crate::order::stands_before(keys, x, y));
        assert(pools[i] == votes[x] && pools[j] == votes[y]);
        if x < y {
            assert(votes[x].pod_id != votes[y].pod_id);
        } else {
            assert(votes[y].pod_id != votes[x].pod_id);
        }
    }
}

/// Seven in ten deposits on the two anchors that have the most decide for twice a
/// month, fewer for every other week, where the mean gap is half a month.
pub proof fn lemma_seven_in_ten_decide(days: Seq<int>)
    requires
        days.len() >= 3,
        !erratic(days),
        9 * (days.len() - 1) < days.last() - days[0] <= 20 * (days.len() - 1),
    ensures
        exists|found: Seq<(i32, int)>|
            {
                &&& #[trigger] clusters(found, tokens_of(days))
                &&& forall|r: int, q: int| 0 <= r < q < found.len() ==> (#[trigger] found[r]).1 >= (#[trigger] found[q]).1
                &&& cadence(days)->0 is SemiMonthly <==> found.len() >= 2 && 10 * (found[0].1 + found[1].1) >= 7
                    * days.len()
            },
{
    let tokens = tokens_of(days);
    let found = by_count(anchors(tokens));
    lemma_tokens(days);
    lemma_days_cluster_into_anchors(tokens);
    assert(clusters(found, tokens));
}

/// Money is reclaimed into a pod named like "emergency" where there is one, and into one
/// named like "savings" only where there is none.
pub proof fn lemma_emergency_comes_before_savings(names: Seq<Seq<char>>, lower: Seq<Seq<char>>)
    requires
        names.len() == lower.len(),
    ensures
        one_holds(lower, "emergency"@) ==> exists|i: int|
            0 <= i < names.len() && reclaimed(names, lower) == Some(names[i]) && contains_text(
                #[trigger] lower[i],
                "emergency"@,
            ),
        !one_holds(lower, "emergency"@) && one_holds(lower, "savings"@) ==> exists|i: int|
            0 <= i < names.len() && reclaimed(names, lower) == Some(names[i]) && contains_text(
                #[trigger] lower[i],
                "savings"@,
            ),
        !one_holds(lower, "emergency"@) && !one_holds(lower, "savings"@) ==> reclaimed(names, lower) is None,
{
    lemma_the_first_name_counts(names, lower, "emergency"@);
    lemma_the_first_name_counts(names, lower, "savings"@);
    if one_holds(lower, "emergency"@) {
        let i = choose|i: int| 0 <= i < lower.len() && contains_text(#[trigger] lower[i], "emergency"@);
        assert(contains_text(lower[i], "emergency"@));
    } else if one_holds(lower, "savings"@) {
        let i = choose|i: int| 0 <= i < lower.len() && contains_text(#[trigger] lower[i], "savings"@);
        assert(contains_text(lower[i], "savings"@));
    }
}

/// The survey looks back about two years, and at every source.
pub proof fn lemma_every_source_is_surveyed(incomes: Seq<Income>, today: int, i: int)
    requires
        0 <= i < incomes.len(),
    ensures
        sources_of(incomes, today - LOOK_BACK_DAYS).len() == incomes.len(),
        sources_of(incomes, today - LOOK_BACK_DAYS)[i] == source_of(incomes[i], today - 730),
        deposit_counts(incomes, today - LOOK_BACK_DAYS).len() == incomes.len(),
        deposit_counts(incomes, today - LOOK_BACK_DAYS)[i] == deposits_of(incomes[i].transfers@, today - 730).len(),
{
    let found = deposits_of(incomes[i].transfers@, today - 730);
    lemma_arranged_are_the_items(found, days_in(found));
}

/// The strategy is chosen by its number, with any white space around it; anything else
/// is the safe default.
pub proof fn lemma_strategies_by_their_numbers(line: Seq<char>)
    ensures
        strategy_chosen(line) is StrictEnvelope <==> trim(line) == "2"@,
        strategy_chosen(line) is Proportional <==> trim(line) == "3"@,
        strategy_chosen(line) is SoonestDue <==> trim(line) != "2"@ && trim(line) != "3"@,
{
    reveal_strlit("2");
    reveal_strlit("3");
    assert("2"@[0] == '2' && "3"@[0] == '3');
}

/// A transfer sends money on to a pod under a name.
pub open spec fn lands_under(t: Transfer, pod: Seq<char>, name: Seq<char>) -> bool {
    lands_in(t, pod) && t.destination->0.name@ == name
}

spec fn named_in(transfers: Seq<Transfer>, vote: PoolRefView) -> bool {
    exists|j: int| 0 <= j < transfers.len() && #[trigger] lands_under(transfers[j], vote.pod_id, vote.name)
}

spec fn named_somewhere(incomes: Seq<Income>, vote: PoolRefView) -> bool {
    exists|i: int| 0 <= i < incomes.len() && named_in(#[trigger] incomes[i].transfers@, vote)
}

proof fn lemma_votes_are_named(votes: Seq<PoolRefView>, transfers: Seq<Transfer>, k: int)
    requires
        0 <= k < votes_with(votes, transfers).len(),
    ensures
        ({
            let vote = votes_with(votes, transfers)[k];
            ||| k < votes.len() && votes[k].pod_id == vote.pod_id && votes[k].name == vote.name
            ||| named_in(transfers, vote)
        }),
    decreases transfers.len(),
{
    if transfers.len() > 0 {
        let rest = transfers.drop_last();
        let before = votes_with(votes, rest);
        let vote = votes_with(votes, transfers)[k];
        let last = transfers.len() - 1;
        if let Some((pod, _)) = pool_vote(transfers.last()) {
            lemma_vote_index(before, pod);
        }
        if k < before.len() {
            lemma_votes_are_named(votes, rest, k);
            assert(before[k].pod_id == vote.pod_id && before[k].name == vote.name);
            if named_in(rest, before[k]) {
                let j = choose|j: int|
                    0 <= j < rest.len() && #[trigger] lands_under(rest[j], before[k].pod_id, before[k].name);
                assert(lands_under(transfers[j], vote.pod_id, vote.name));
            }
        } else {
            assert(lands_under(transfers[last], vote.pod_id, vote.name));
        }
    }
}

proof fn lemma_all_votes_are_named(incomes: Seq<Income>, k: int)
    requires
        0 <= k < all_votes(incomes).len(),
    ensures
        named_somewhere(incomes, all_votes(incomes)[k]),
    decreases incomes.len(),
{
    let rest = incomes.drop_last();
    let last = incomes.len() - 1;
    let vote = all_votes(incomes)[k];
    lemma_votes_are_named(all_votes(rest), incomes.last().transfers@, k);
    if named_in(incomes.last().transfers@, vote) {
        assert(named_in(incomes[last].transfers@, vote));
    } else {
        lemma_all_votes_are_named(rest, k);
        let i = choose|i: int| 0 <= i < rest.len() && named_in(#[trigger] rest[i].transfers@, all_votes(rest)[k]);
        let j = choose|j: int|
            0 <= j < rest[i].transfers@.len() && #[trigger] lands_under(
                rest[i].transfers@[j],
                all_votes(rest)[k].pod_id,
                all_votes(rest)[k].name,
            );
        assert(lands_under(incomes[i].transfers@[j], vote.pod_id, vote.name));
        assert(named_in(incomes[i].transfers@, vote));
    }
}

/// A pool goes by a name that a source's transfers into it give.
pub proof fn lemma_pools_go_by_their_names(incomes: Seq<Income>, k: int)
    requires
        0 <= k < pools_of(incomes).len(),
    ensures
        exists|i: int, j: int|
            0 <= i < incomes.len() && 0 <= j < incomes[i].transfers@.len() && #[trigger] lands_under(
                incomes[i].transfers@[j],
                pools_of(incomes)[k].pod_id,
                pools_of(incomes)[k].name,
            ),
{
    let votes = all_votes(incomes);
    let keys = Seq::new(votes.len(), |i: int| -votes[i].deposits_seen);
    lemma_ranking(keys);
    let x = ranking(keys)[k];
    let vote = votes[x];
    assert(pools_of(incomes)[k] == vote);
    lemma_all_votes_are_named(incomes, x);
    let i = choose|i: int| 0 <= i < incomes.len() && named_in(#[trigger] incomes[i].transfers@, vote);
    let j = choose|j: int|
        0 <= j < incomes[i].transfers@.len() && #[trigger] lands_under(
            incomes[i].transfers@[j],
            vote.pod_id,
            vote.name,
        );
    assert(lands_under(incomes[i].transfers@[j], pools_of(incomes)[k].pod_id, pools_of(incomes)[k].name));
}

// ---- What comes most often ----

/// The mode is one of the values, none comes more often, and one that comes as often is
/// first seen no earlier.
pub proof fn lemma_the_mode_comes_most_often(xs: Seq<i64>)
    ensures
        xs.len() == 0 ==> mode_of(xs) is None,
        xs.len() > 0 ==> mode_of(xs) is Some && exists|i: int|
            {
                &&& 0 <= i < xs.len()
                &&& #[trigger] xs[i] == mode_of(xs)->0
                &&& forall|j: int|
                    0 <= j < xs.len() ==> comes_up(xs, #[trigger] xs[j]) <= comes_up(xs, mode_of(xs)->0)
                &&& forall|j: int| 0 <= j < i ==> comes_up(xs, #[trigger] xs[j]) < comes_up(xs, mode_of(xs)->0)
            },
{
    if xs.len() > 0 {
        let best = lemma_some_value_is_the_mode(xs, xs.len() as int);
        let i = choose|i: int| is_mode_at(xs, i);
        assert(is_mode_at(xs, best));
        assert forall|j: int| 0 <= j < xs.len() implies comes_up(xs, #[trigger] xs[j]) == times(xs, xs[j]) by {
            lemma_times_are_counted(xs, xs[j]);
        }
        assert(xs[i] == mode_of(xs)->0);
    }
}

/// How often a value comes up.
pub open spec fn comes_up(xs: Seq<i64>, x: i64) -> nat {
    xs.filter(|y: i64| y == x).len()
}

proof fn lemma_times_are_counted(xs: Seq<i64>, x: i64)
    ensures
        times(xs, x) == comes_up(xs, x),
    decreases xs.len(),
{
    reveal(Seq::filter);
    if xs.len() > 0 {
        lemma_times_are_counted(xs.drop_last(), x);
    }
}

proof fn lemma_some_value_is_the_mode(xs: Seq<i64>, n: int) -> (at: int)
    requires
        0 < n <= xs.len(),
    ensures
        0 <= at < n,
        forall|j: int| 0 <= j < n ==> times(xs, #[trigger] xs[j]) <= times(xs, xs[at]),
        forall|j: int| 0 <= j < at ==> times(xs, #[trigger] xs[j]) < times(xs, xs[at]),
    decreases n,
{
    if n == 1 {
        0
    } else {
        let before = lemma_some_value_is_the_mode(xs, n - 1);
        if times(xs, xs[n - 1]) > times(xs, xs[before]) {
            n - 1
        } else {
            before
        }
    }
}

/// How many days fall on a weekday.
pub open spec fn falling_on(days: Seq<int>, weekday: Weekday) -> nat {
    days.filter(|n: int| weekday_of(n) == weekday.index()).len()
}

/// Weekly pay is on the weekday that most of the deposits fall on.
pub proof fn lemma_the_usual_weekday_is_the_payday(days: Seq<int>, other: Weekday)
    requires
        days.len() >= 3,
        !erratic(days),
        days.last() - days[0] <= 9 * (days.len() - 1),
    ensures
        cadence(days) matches Some(PayScheduleView::Weekly { weekday }) && falling_on(days, other) <= falling_on(
            days,
            weekday,
        ),
{
    let w = weekdays_of(days);
    let best = lemma_some_value_is_the_mode(w, w.len() as int);
    assert(is_mode_at(w, best));
    let i = choose|i: int| is_mode_at(w, i);
    assert(is_mode_at(w, i));
    let weekday = weekday_numbered(w[i]);
    assert(0 <= weekday_of(days[i]) <= 6);
    assert(weekday.index() == w[i]);
    lemma_weekdays_are_counted(days, weekday);
    lemma_weekdays_are_counted(days, other);
    if times(w, other.index() as i64) > 0 {
        let j = lemma_what_comes_up_stands_there(w, other.index() as i64);
        assert(times(w, w[j]) <= times(w, w[i]));
    }
}

proof fn lemma_what_comes_up_stands_there(xs: Seq<i64>, x: i64) -> (at: int)
    requires
        times(xs, x) > 0,
    ensures
        0 <= at < xs.len(),
        xs[at] == x,
    decreases xs.len(),
{
    if xs.last() == x {
        xs.len() - 1
    } else {
        lemma_what_comes_up_stands_there(xs.drop_last(), x)
    }
}

proof fn lemma_weekdays_are_counted(days: Seq<int>, weekday: Weekday)
    ensures
        falling_on(days, weekday) == times(weekdays_of(days), weekday.index() as i64),
    decreases days.len(),
{
    reveal(Seq::filter);
    if days.len() > 0 {
        assert(weekdays_of(days).drop_last() == weekdays_of(days.drop_last()));
        assert(0 <= weekday_of(days.last()) <= 6);
        lemma_weekdays_are_counted(days.drop_last(), weekday);
    }
}

// ---- What a survey says ----

/// A schedule is written with its kind and its days.
pub proof fn lemma_schedules_are_written_with_their_days(s: PayScheduleView)
    ensures
        match s {
            PayScheduleView::SemiMonthly { days } => schedule_text(s) == "SemiMonthly { days: ["@ + joined_by(
                Seq::new(days.len(), |i: int| signed(days[i] as int)),
                ", "@,
            ) + "] }"@,
            PayScheduleView::Monthly { day } => schedule_text(s) == "Monthly { day: "@ + signed(day as int) + " }"@,
            PayScheduleView::Biweekly { anchor } => schedule_text(s) == "Biweekly { anchor: "@ + date_text(
                anchor as i32,
            ) + " }"@,
            PayScheduleView::Weekly { weekday } => {
                &&& schedule_text(s) == "Weekly { weekday: "@ + weekday_text(weekday) + " }"@
                &&& weekday is Mon ==> weekday_text(weekday) == "Mon"@
                &&& weekday is Tue ==> weekday_text(weekday) == "Tue"@
                &&& weekday is Wed ==> weekday_text(weekday) == "Wed"@
                &&& weekday is Thu ==> weekday_text(weekday) == "Thu"@
                &&& weekday is Fri ==> weekday_text(weekday) == "Fri"@
                &&& weekday is Sat ==> weekday_text(weekday) == "Sat"@
                &&& weekday is Sun ==> weekday_text(weekday) == "Sun"@
            },
            PayScheduleView::Irregular => schedule_text(s) == "Irregular"@,
        },
{
    if let PayScheduleView::SemiMonthly { days } = s {
        lemma_days_are_joined(days);
    }
}

proof fn lemma_days_are_joined(days: Seq<i32>)
    ensures
        day_list(days) == joined_by(Seq::new(days.len(), |i: int| signed(days[i] as int)), ", "@),
    decreases days.len(),
{
    let texts = Seq::new(days.len(), |i: int| signed(days[i] as int));
    if days.len() > 1 {
        lemma_days_are_joined(days.drop_last());
        lemma_last_part_is_joined_last(texts, ", "@);
        assert(texts.drop_last() == Seq::new(
            days.drop_last().len(),
            |i: int| signed(days.drop_last()[i] as int),
        ));
    }
}

/// A number is written with its digits, behind a sign where it is below zero.
pub proof fn lemma_signs_are_written(n: nat)
    ensures
        signed(n as int) == decimal(n),
        n > 0 ==> signed(-n) == seq!['-'] + decimal(n),
{
}

/// A survey lists every source with its name, deposits, schedule and usual amount, and
/// every pool with its name and deposits, each list in its order; it says so where no
/// income is regular, and where no pool was found.
pub proof fn lemma_a_survey_lists_what_was_found(
    sources: Seq<IncomeSourceView>,
    more: IncomeSourceView,
    deposits: Seq<int>,
    pools: Seq<PoolRefView>,
    pool: PoolRefView,
)
    requires
        deposits.len() == sources.len() + 1,
    ensures
        source_lines(sources.push(more), deposits) == source_lines(sources, deposits.drop_last()) + (left(
            at_most(more.name, 24),
            24,
        ) + " "@ + right(decimal(deposits.last() as nat), 3) + " deposits  ->  "@ + (if more.schedule is Some {
            schedule_text(more.schedule->0)
        } else {
            "IRREGULAR"@
        }) + "  "@ + (if more.typical_amount_cents is Some {
            dollars_text(more.typical_amount_cents->0)
        } else {
            "—"@
        }) + "\n"@),
        pool_lines(pools.push(pool)) == pool_lines(pools) + "    "@ + left(pool.name, 24) + " ("@ + decimal(
            pool.deposits_seen as nat,
        ) + " deposits)\n"@,
        source_lines(Seq::empty(), deposits).len() == 0,
        pool_lines(Seq::empty()).len() == 0,
{
    assert(sources.push(more).drop_last() == sources);
    assert(pools.push(pool).drop_last() == pools);
    lemma_sources_go_by_their_own_deposits(sources, deposits, deposits.drop_last());
}

proof fn lemma_sources_go_by_their_own_deposits(sources: Seq<IncomeSourceView>, a: Seq<int>, b: Seq<int>)
    requires
        forall|i: int| 0 <= i < sources.len() ==> #[trigger] a[i] == b[i],
    ensures
        source_lines(sources, a) == source_lines(sources, b),
    decreases sources.len(),
{
    if sources.len() > 0 {
        assert(a[sources.len() - 1] == b[sources.len() - 1]);
        lemma_sources_go_by_their_own_deposits(sources.drop_last(), a, b);
    }
}

/// Only a survey without regular income says so, and only one without a pool says that.
pub proof fn lemma_a_survey_says_what_is_missing(
    sources: Seq<IncomeSourceView>,
    deposits: Seq<int>,
    pools: Seq<PoolRefView>,
)
    ensures
        survey_lines(sources, deposits, true, pools) == source_lines(sources, deposits)
            + "\nincome pool(s) — where your paychecks land:\n"@ + (if pools.len() > 0 {
            pool_lines(pools)
        } else {
            "    [!] none detected — income may flow to an external account\n"@
        }),
        survey_lines(sources, deposits, false, pools) == source_lines(sources, deposits)
            + "\n[!] no regular income detected — defaulting the pay schedule\n"@
            + "\nincome pool(s) — where your paychecks land:\n"@ + (if pools.len() > 0 {
            pool_lines(pools)
        } else {
            "    [!] none detected — income may flow to an external account\n"@
        }),
{
    let found = source_lines(sources, deposits);
    let none = Seq::<char>::empty();
    let heading = "\nincome pool(s) — where your paychecks land:\n"@;
    assert(found + none == found);
    let warned = found + "\n[!] no regular income detected — defaulting the pay schedule\n"@;
    assert(found + heading + none == found + heading);
    assert(warned + heading + none == warned + heading);
    let empty = "    [!] none detected — income may flow to an external account\n"@;
    assert(found + heading + empty + none == found + heading + empty);
    assert(warned + heading + empty + none == warned + heading + empty);
}

} // verus!
