//! The long-running engine's decisions: when a new deposit sets off a funding cycle,
//! and what is remembered of a cycle.

use crate::allocator::outflow;
use crate::api::{AccountSummary, AccountType, Transfer, TransferDirection};
use crate::assess::OutOfRange;
use crate::cards::fits;
use crate::derive::text_view;
use crate::engine::{BillLineView, Report};
use crate::ledger::Names;
use crate::model::{texts, views};
use crate::text::{is_before, lemma_text_order, same_text, text_before};
use vstd::prelude::*;

verus! {

// ---- Summaries ----

/// A summary of one cycle, for `/status` and logs.
#[derive(Debug)]
pub struct CycleSummary {
    pub ran_at: String,
    pub executed: bool,
    pub pool_balance_cents: i64,
    pub total_need_cents: i64,
    pub total_funded_cents: i64,
    pub transfers: usize,
    pub warnings: Vec<String>,
}

/// What all lines need together.
pub open spec fn total_need(lines: Seq<BillLineView>) -> int
    decreases lines.len(),
{
    if lines.len() == 0 {
        0
    } else {
        total_need(lines.drop_last()) + lines.last().need
    }
}

fn copy_texts(list: &Vec<String>) -> (copy: Vec<String>)
    ensures
        texts(copy@) == texts(list@),
{
    let ghost all = texts(list@);
    let mut copy: Vec<String> = Vec::new();
    let mut i: usize = 0;
    assert(texts(copy@) == all.take(0));
    while i < list.len()
        invariant
            i <= list@.len(),
            all == texts(list@),
            texts(copy@) == all.take(i as int),
        decreases list@.len() - i,
    {
        let ghost held = copy@;
        copy.push(list[i].clone());
        assert(texts(copy@) == texts(held).push(all[i as int]));
        i += 1;
        assert(texts(copy@) == all.take(i as int));
    }
    assert(all.take(i as int) == all);
    copy
}

/// Summarize a cycle that ran at a time: what its bills need together, and what the
/// plan takes out of the pool.
pub fn summarize(report: &Report, ran_at: String) -> (summary: Result<CycleSummary, OutOfRange>)
    ensures
        match summary {
            Ok(s) => {
                &&& s.ran_at@ == ran_at@
                &&& s.executed == report@.executed
                &&& s.pool_balance_cents == report@.pool_balance
                &&& s.total_need_cents == total_need(report@.lines)
                &&& s.total_funded_cents == outflow(report@.transfers, report@.pool_pod_id)
                &&& s.transfers == report@.transfers.len()
                &&& texts(s.warnings@) == report@.warnings
            },
            Err(_) => !fits(total_need(report@.lines)) || !fits(outflow(report@.transfers, report@.pool_pod_id)),
        },
{
    let ghost lines = report@.lines;
    let mut need: i128 = 0;
    let mut i: usize = 0;
    while i < report.lines.len()
        invariant
            i <= report.lines.len(),
            lines == views(report.lines@),
            need == total_need(lines.take(i as int)),
            -0x8000_0000_0000_0000 * i <= need <= 0x7fff_ffff_ffff_ffff * i,
        decreases report.lines.len() - i,
    {
        assert(lines.take(i + 1).drop_last() == lines.take(i as int));
        assert(lines[i as int] == report.lines@[i as int]@);
        need = need + report.lines[i].need as i128;
        i += 1;
    }
    assert(lines.take(i as int) == lines);
    let ghost transfers = report@.transfers;
    let pool = report.pool_pod_id.as_str();
    let mut funded: i128 = 0;
    let mut i: usize = 0;
    while i < report.transfers.len()
        invariant
            i <= report.transfers.len(),
            transfers == views(report.transfers@),
            funded == outflow(transfers.take(i as int), pool@),
            -0x8000_0000_0000_0000 * i <= funded <= 0x7fff_ffff_ffff_ffff * i,
        decreases report.transfers.len() - i,
    {
        assert(transfers.take(i + 1).drop_last() == transfers.take(i as int));
        assert(transfers[i as int] == report.transfers@[i as int]@);
        if same_text(report.transfers[i].from_pod.as_str(), pool) {
            funded = funded + report.transfers[i].amount_cents as i128;
        }
        i += 1;
    }
    assert(transfers.take(i as int) == transfers);
    let low: i128 = i64::MIN as i128;
    let high: i128 = i64::MAX as i128;
    if need < low || need > high || funded < low || funded > high {
        return Err(OutOfRange);
    }
    Ok(
        CycleSummary {
            ran_at,
            executed: report.executed,
            pool_balance_cents: report.pool_balance,
            total_need_cents: need as i64,
            total_funded_cents: funded as i64,
            transfers: report.transfers.len(),
            warnings: copy_texts(&report.warnings),
        },
    )
}

// ---- Watching for deposits ----

/// The accounts that income comes from: id and name, in order.
pub open spec fn income_accounts(accounts: Seq<AccountSummary>) -> Seq<(Seq<char>, Seq<char>)>
    decreases accounts.len(),
{
    if accounts.len() == 0 {
        Seq::empty()
    } else if accounts.last().account_type == AccountType::IncomeSource {
        income_accounts(accounts.drop_last()).push((accounts.last().id@, accounts.last().name@))
    } else {
        income_accounts(accounts.drop_last())
    }
}

pub open spec fn pairs(s: Seq<(String, String)>) -> Seq<(Seq<char>, Seq<char>)> {
    Seq::new(s.len(), |i: int| (s[i].0@, s[i].1@))
}

/// The income sources to read.
pub fn income_sources(accounts: &Vec<AccountSummary>) -> (found: Vec<(String, String)>)
    ensures
        pairs(found@) == income_accounts(accounts@),
{
    let mut found: Vec<(String, String)> = Vec::new();
    let mut i: usize = 0;
    assert(pairs(found@) == income_accounts(accounts@.take(0)));
    while i < accounts.len()
        invariant
            i <= accounts@.len(),
            pairs(found@) == income_accounts(accounts@.take(i as int)),
        decreases accounts@.len() - i,
    {
        let a = &accounts[i];
        assert(accounts@.take(i + 1).drop_last() == accounts@.take(i as int));
        if a.account_type == AccountType::IncomeSource {
            let ghost held = found@;
            found.push((a.id.clone(), a.name.clone()));
            assert(pairs(found@) == pairs(held).push((a.id@, a.name@)));
        }
        i += 1;
    }
    assert(accounts@.take(i as int) == accounts@);
    found
}

/// The newest timestamp of money coming in.
pub open spec fn newest_money_in(transfers: Seq<Transfer>) -> Option<Seq<char>>
    decreases transfers.len(),
{
    if transfers.len() == 0 {
        None
    } else {
        let rest = newest_money_in(transfers.drop_last());
        let t = transfers.last();
        if t.direction != TransferDirection::MoneyIn {
            rest
        } else {
            match rest {
                Some(newest) => if text_before(newest, t.created_at@) { Some(t.created_at@) } else { rest },
                None => Some(t.created_at@),
            }
        }
    }
}

/// Newest `MoneyIn` timestamp of an income source (ISO strings sort lexically).
pub fn latest_deposit(transfers: &[Transfer]) -> (newest: Option<String>)
    ensures
        text_view(newest) == newest_money_in(transfers@),
{
    let mut newest: Option<String> = None;
    let mut i: usize = 0;
    while i < transfers.len()
        invariant
            i <= transfers@.len(),
            text_view(newest) == newest_money_in(transfers@.take(i as int)),
        decreases transfers@.len() - i,
    {
        let t = &transfers[i];
        assert(transfers@.take(i + 1).drop_last() == transfers@.take(i as int));
        if t.direction == TransferDirection::MoneyIn {
            let later = match &newest {
                Some(n) => is_before(n.as_str(), t.created_at.as_str()),
                None => true,
            };
            if later {
                newest = Some(t.created_at.clone());
            }
        }
        i += 1;
    }
    assert(transfers@.take(i as int) == transfers@);
    newest
}

/// No money came in later than the newest.
pub proof fn lemma_newest_is_newest(transfers: Seq<Transfer>, i: int)
    requires
        0 <= i < transfers.len(),
        transfers[i].direction == TransferDirection::MoneyIn,
    ensures
        newest_money_in(transfers) matches Some(newest) && !text_before(newest, transfers[i].created_at@),
    decreases transfers.len(),
{
    let rest = transfers.drop_last();
    if i < rest.len() {
        lemma_newest_is_newest(rest, i);
        let old = newest_money_in(rest)->0;
        let last = transfers.last().created_at@;
        let this = transfers[i].created_at@;
        lemma_text_order(old, last, this);
        lemma_text_order(last, this, old);
        lemma_text_order(this, old, last);
    } else {
        let last = transfers.last().created_at@;
        lemma_text_order(last, last, last);
    }
}

/// A source's newest deposit is news: the source was not seen before, or an earlier
/// deposit was.
pub open spec fn is_news(seen: Map<Seq<char>, Seq<char>>, source: Seq<char>, at: Seq<char>) -> bool {
    !seen.dom().contains(source) || text_before(seen[source], at)
}

/// What has been seen after a poll.
pub open spec fn seen_after(seen: Map<Seq<char>, Seq<char>>, latest: Seq<(Seq<char>, Seq<char>)>) -> Map<
    Seq<char>,
    Seq<char>,
>
    decreases latest.len(),
{
    if latest.len() == 0 {
        seen
    } else {
        let before = seen_after(seen, latest.drop_last());
        let (source, at) = latest.last();
        if is_news(before, source, at) {
            before.insert(source, at)
        } else {
            before
        }
    }
}

/// Something in a poll is news.
pub open spec fn has_news(seen: Map<Seq<char>, Seq<char>>, latest: Seq<(Seq<char>, Seq<char>)>) -> bool
    decreases latest.len(),
{
    latest.len() > 0 && (has_news(seen, latest.drop_last()) || is_news(
        seen_after(seen, latest.drop_last()),
        latest.last().0,
        latest.last().1,
    ))
}

/// What to make of a poll.
#[derive(Debug, Clone, Copy, PartialEq, Eq, Structural)]
pub enum Poll {
    /// The first: it only shows where things stand.
    Baseline,
    /// A new deposit: run a funding cycle.
    NewDeposit,
    Quiet,
}

/// What a poll is to be made of.
pub open spec fn poll_of(
    first: bool,
    seen: Map<Seq<char>, Seq<char>>,
    latest: Seq<(Seq<char>, Seq<char>)>,
) -> Poll {
    if first {
        Poll::Baseline
    } else if has_news(seen, latest) {
        Poll::NewDeposit
    } else {
        Poll::Quiet
    }
}

/// Watches the income sources.
#[derive(Debug)]
pub struct Monitor {
    /// The newest deposit seen of each source.
    pub seen: Names,
    /// Nothing has been polled yet.
    pub first: bool,
}

impl Monitor {
    pub fn new() -> (monitor: Monitor)
        ensures
            monitor.seen@ == Map::<Seq<char>, Seq<char>>::empty(),
            monitor.first,
    {
        Monitor { seen: Names::new(), first: true }
    }

    /// Takes in a poll: the newest deposit of each income source. When a new deposit
    /// appears, a funding cycle is due — but not on the first poll.
    pub fn poll(&mut self, latest: &Vec<(String, String)>) -> (outcome: Poll)
        ensures
            final(self).seen@ == seen_after(old(self).seen@, pairs(latest@)),
            !final(self).first,
            outcome == poll_of(old(self).first, old(self).seen@, pairs(latest@)),
    {
        let ghost all = pairs(latest@);
        let ghost start = self.seen@;
        let was_first = self.first;
        let mut news = false;
        let mut i: usize = 0;
        while i < latest.len()
            invariant
                i <= latest@.len(),
                all == pairs(latest@),
                self.seen@ == seen_after(start, all.take(i as int)),
                news == has_news(start, all.take(i as int)),
            decreases latest@.len() - i,
        {
            assert(all.take(i + 1).drop_last() == all.take(i as int));
            let fresh = match self.seen.get(latest[i].0.as_str()) {
                Some(prev) => is_before(prev.as_str(), latest[i].1.as_str()),
                None => true,
            };
            if fresh {
                self.seen.insert(latest[i].0.clone(), latest[i].1.clone());
                news = true;
            }
            i += 1;
        }
        assert(all.take(i as int) == all);
        self.first = false;
        if was_first {
            Poll::Baseline
        } else if news {
            Poll::NewDeposit
        } else {
            Poll::Quiet
        }
    }
}

/// What has been seen of a source never goes back in time.
pub proof fn lemma_seen_never_goes_back(
    seen: Map<Seq<char>, Seq<char>>,
    latest: Seq<(Seq<char>, Seq<char>)>,
    source: Seq<char>,
)
    requires
        seen.dom().contains(source),
    ensures
        seen_after(seen, latest).dom().contains(source),
        !text_before(seen_after(seen, latest)[source], seen[source]),
    decreases latest.len(),
{
    if latest.len() > 0 {
        lemma_seen_never_goes_back(seen, latest.drop_last(), source);
        let before = seen_after(seen, latest.drop_last());
        let (s, at) = latest.last();
        lemma_text_order(at, seen[source], before[source]);
        lemma_text_order(seen[source], before[source], at);
        lemma_text_order(before[source], at, seen[source]);
    } else {
        lemma_text_order(seen[source], seen[source], seen[source]);
    }
}

proof fn lemma_seen_is_no_news(seen: Map<Seq<char>, Seq<char>>, latest: Seq<(Seq<char>, Seq<char>)>, i: int)
    requires
        0 <= i < latest.len(),
    ensures
        !is_news(seen_after(seen, latest), latest[i].0, latest[i].1),
    decreases latest.len(),
{
    let rest = latest.drop_last();
    let before = seen_after(seen, rest);
    let (s, at) = latest.last();
    if i < rest.len() {
        lemma_seen_is_no_news(seen, rest, i);
        let (source, then) = latest[i];
        lemma_text_order(before[source], at, then);
        lemma_text_order(at, then, before[source]);
        lemma_text_order(then, before[source], at);
    } else {
        lemma_text_order(at, at, at);
    }
}

/// A deposit sets off one cycle: polling the same again is quiet, and changes nothing.
pub proof fn lemma_a_deposit_triggers_once(
    seen: Map<Seq<char>, Seq<char>>,
    latest: Seq<(Seq<char>, Seq<char>)>,
)
    ensures
        !has_news(seen_after(seen, latest), latest),
        seen_after(seen_after(seen, latest), latest) == seen_after(seen, latest),
{
    let after = seen_after(seen, latest);
    assert forall|i: int| 0 <= i < latest.len() implies !is_news(
        after,
        (#[trigger] latest[i]).0,
        latest[i].1,
    ) by {
        lemma_seen_is_no_news(seen, latest, i);
    }
    lemma_no_news_changes_nothing(after, latest);
}

proof fn lemma_no_news_changes_nothing(seen: Map<Seq<char>, Seq<char>>, latest: Seq<(Seq<char>, Seq<char>)>)
    requires
        forall|i: int| 0 <= i < latest.len() ==> !is_news(seen, (#[trigger] latest[i]).0, latest[i].1),
    ensures
        !has_news(seen, latest),
        seen_after(seen, latest) == seen,
    decreases latest.len(),
{
    if latest.len() > 0 {
        let rest = latest.drop_last();
        assert forall|i: int| 0 <= i < rest.len() implies !is_news(seen, (#[trigger] rest[i]).0, rest[i].1) by {
            assert(rest[i] == latest[i]);
        }
        lemma_no_news_changes_nothing(seen, rest);
        assert(!is_news(seen, latest[latest.len() - 1].0, latest[latest.len() - 1].1));
    }
}

/// The seconds between polls: those asked for, a minute at least.
pub open spec fn poll_every(interval_secs: int) -> int {
    if interval_secs < 60 {
        60
    } else {
        interval_secs
    }
}

/// Polls are a minute apart at the least and as far apart as asked for, and no farther
/// than either calls for.
pub proof fn lemma_polls_are_a_minute_apart(interval_secs: int)
    ensures
        60 <= poll_every(interval_secs),
        interval_secs <= poll_every(interval_secs),
        poll_every(interval_secs) == 60 || poll_every(interval_secs) == interval_secs,
{
}

/// How often to poll: not more than once a minute.
pub fn poll_interval_secs(interval_secs: u64) -> (secs: u64)
    ensures
        secs == poll_every(interval_secs as int),
{
    if interval_secs < 60 {
        60
    } else {
        interval_secs
    }
}

// ---- What sets off a cycle ----

proof fn lemma_quiet_is_no_news(seen: Map<Seq<char>, Seq<char>>, latest: Seq<(Seq<char>, Seq<char>)>)
    requires
        !has_news(seen, latest),
    ensures
        seen_after(seen, latest) == seen,
        forall|i: int| 0 <= i < latest.len() ==> !is_news(seen, (#[trigger] latest[i]).0, latest[i].1),
    decreases latest.len(),
{
    if latest.len() > 0 {
        let rest = latest.drop_last();
        lemma_quiet_is_no_news(seen, rest);
        assert forall|i: int| 0 <= i < latest.len() implies !is_news(seen, (#[trigger] latest[i]).0, latest[i].1) by {
            if i < rest.len() {
                assert(rest[i] == latest[i]);
            }
        }
    }
}

/// After the first poll, a poll sets off a cycle if and only if some source in it was
/// not seen before or has a later deposit than the one seen, wherever in the list it
/// stands. The first poll never does.
pub proof fn lemma_any_newer_deposit_sets_off_a_cycle(
    first: bool,
    seen: Map<Seq<char>, Seq<char>>,
    latest: Seq<(Seq<char>, Seq<char>)>,
)
    ensures
        poll_of(first, seen, latest) is NewDeposit <==> !first && exists|i: int|
            0 <= i < latest.len() && (!seen.dom().contains((#[trigger] latest[i]).0) || text_before(
                seen[latest[i].0],
                latest[i].1,
            )),
        poll_of(first, seen, latest) is Baseline <==> first,
{
    if has_news(seen, latest) {
        if forall|i: int| 0 <= i < latest.len() ==> !is_news(seen, (#[trigger] latest[i]).0, latest[i].1) {
            lemma_no_news_changes_nothing(seen, latest);
        }
    } else {
        lemma_quiet_is_no_news(seen, latest);
        assert forall|i: int| 0 <= i < latest.len() implies !(!seen.dom().contains((#[trigger] latest[i]).0)
            || text_before(seen[latest[i].0], latest[i].1)) by {
            assert(!is_news(seen, latest[i].0, latest[i].1));
        }
    }
}

/// A poll is quiet if and only if it leaves what has been seen unchanged: no deposit
/// is remembered as seen without setting off its cycle.
pub proof fn lemma_only_a_quiet_poll_changes_nothing(
    seen: Map<Seq<char>, Seq<char>>,
    latest: Seq<(Seq<char>, Seq<char>)>,
)
    ensures
        poll_of(false, seen, latest) is Quiet <==> seen_after(seen, latest) == seen,
{
    if has_news(seen, latest) {
        lemma_any_newer_deposit_sets_off_a_cycle(false, seen, latest);
        let i = choose|i: int|
            0 <= i < latest.len() && (!seen.dom().contains((#[trigger] latest[i]).0) || text_before(
                seen[latest[i].0],
                latest[i].1,
            ));
        lemma_seen_is_no_news(seen, latest, i);
        assert(is_news(seen, latest[i].0, latest[i].1));
    } else {
        lemma_quiet_is_no_news(seen, latest);
    }
}

/// After a poll, what has been seen of a source is the latest of what had been seen of
/// it and of its deposits in the poll; of a source in neither, nothing.
pub proof fn lemma_the_latest_deposit_is_remembered(
    seen: Map<Seq<char>, Seq<char>>,
    latest: Seq<(Seq<char>, Seq<char>)>,
    source: Seq<char>,
)
    ensures
        ({
            let after = seen_after(seen, latest);
            &&& after.dom().contains(source) <==> seen.dom().contains(source) || exists|i: int|
                0 <= i < latest.len() && (#[trigger] latest[i]).0 == source
            &&& after.dom().contains(source) ==> (seen.dom().contains(source) && after[source] == seen[source])
                || exists|i: int|
                0 <= i < latest.len() && #[trigger] latest[i] == (source, after[source])
            &&& seen.dom().contains(source) ==> !text_before(after[source], seen[source])
            &&& forall|i: int|
                0 <= i < latest.len() && (#[trigger] latest[i]).0 == source ==> !text_before(after[source], latest[i].1)
        }),
    decreases latest.len(),
{
    let after = seen_after(seen, latest);
    if seen.dom().contains(source) {
        lemma_seen_never_goes_back(seen, latest, source);
    }
    assert forall|i: int| 0 <= i < latest.len() && (#[trigger] latest[i]).0 == source implies !text_before(
        after[source],
        latest[i].1,
    ) && after.dom().contains(source) by {
        lemma_seen_is_no_news(seen, latest, i);
    }
    if latest.len() > 0 {
        let rest = latest.drop_last();
        let before = seen_after(seen, rest);
        lemma_the_latest_deposit_is_remembered(seen, rest, source);
        let last = latest.len() - 1;
        assert(latest[last] == latest.last());
        if after.dom().contains(source) {
            if latest.last().0 == source && is_news(before, source, latest.last().1) {
                assert(latest[last] == (source, after[source]));
            } else {
                assert(before.dom().contains(source) && after[source] == before[source]);
                if !(seen.dom().contains(source) && before[source] == seen[source]) {
                    let i = choose|i: int| 0 <= i < rest.len() && #[trigger] rest[i] == (source, before[source]);
                    assert(latest[i] == (source, after[source]));
                }
            }
            if !seen.dom().contains(source) && latest.last().0 != source {
                let i = choose|i: int| 0 <= i < rest.len() && (#[trigger] rest[i]).0 == source;
                assert(latest[i].0 == source);
            }
        }
    }
}

/// The newest deposit is one of the deposits; there is none only where no money came in.
pub proof fn lemma_newest_is_a_deposit(transfers: Seq<Transfer>)
    ensures
        newest_money_in(transfers) is Some <==> exists|i: int|
            0 <= i < transfers.len() && (#[trigger] transfers[i]).direction == TransferDirection::MoneyIn,
        newest_money_in(transfers) matches Some(newest) ==> exists|i: int|
            0 <= i < transfers.len() && (#[trigger] transfers[i]).direction == TransferDirection::MoneyIn
                && transfers[i].created_at@ == newest,
    decreases transfers.len(),
{
    if transfers.len() > 0 {
        let rest = transfers.drop_last();
        let last = transfers.len() - 1;
        lemma_newest_is_a_deposit(rest);
        assert(transfers[last] == transfers.last());
        if newest_money_in(rest) is Some {
            let i = choose|i: int|
                0 <= i < rest.len() && (#[trigger] rest[i]).direction == TransferDirection::MoneyIn
                    && rest[i].created_at@ == newest_money_in(rest)->0;
            assert(transfers[i] == rest[i]);
        } else {
            assert forall|i: int| 0 <= i < rest.len() implies (#[trigger] transfers[i]).direction
                != TransferDirection::MoneyIn by {
                assert(rest[i] == transfers[i]);
            }
        }
    }
}

/// The income sources are the accounts of that type, all of them and in order: those
/// of two lists are those of the one and then of the other, and an account by itself
/// is one if and only if income comes from it.
pub proof fn lemma_income_accounts_are_picked_one_by_one(a: Seq<AccountSummary>, b: Seq<AccountSummary>)
    ensures
        income_accounts(a + b) == income_accounts(a) + income_accounts(b),
        a.len() == 1 ==> income_accounts(a) == if a[0].account_type is IncomeSource {
            seq![(a[0].id@, a[0].name@)]
        } else {
            Seq::empty()
        },
        a.len() == 0 ==> income_accounts(a).len() == 0,
    decreases b.len(),
{
    reveal_with_fuel(income_accounts, 2);
    if b.len() == 0 {
        assert(a + b == a);
    } else {
        assert((a + b).drop_last() == a + b.drop_last());
        lemma_income_accounts_are_picked_one_by_one(a, b.drop_last());
    }
}

/// What the lines need together is added up line by line.
pub proof fn lemma_needs_add_up(a: Seq<BillLineView>, b: Seq<BillLineView>)
    ensures
        total_need(a + b) == total_need(a) + total_need(b),
        a.len() == 1 ==> total_need(a) == a[0].need,
        a.len() == 0 ==> total_need(a) == 0,
    decreases b.len(),
{
    reveal_with_fuel(total_need, 2);
    if b.len() == 0 {
        assert(a + b == a);
    } else {
        assert((a + b).drop_last() == a + b.drop_last());
        lemma_needs_add_up(a, b.drop_last());
    }
}

} // verus!
