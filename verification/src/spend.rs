//! What a pod actually spends: its money OUT, which the API reports through two
//! functions — card transactions (debit) and outgoing transfers (ACH). Inter-pod
//! moves don't count; that's money staying in your pods, not spend. Against the
//! budget: real monthly spend compared with the pod's declared amount (from its name).

use crate::api::{AccountSummary, Transaction, Transfer, TransferDirection, TransferStatus};
use crate::assess::OutOfRange;
use crate::cards::{
    ach_outflow, ach_outflow_cents, at_least_one, declared_monthly, declared_monthly_wide, fits,
    lemma_rounding_never_under_budgets, lemma_run_rate_is_a_month_of_the_window, monthly_run_rate_cents,
    native_from_monthly, native_from_monthly_wide, net_spend, net_spend_cents, outflow_in_range, rounded_up,
    run_rate,
};
use crate::date::{on_calendar, Date, LAST_DAY};
use crate::derive::{derive_bill, derived, name_fits, DerivedBill, DerivedBillView, Frequency, FrequencyView};
use crate::daemon::pairs;
use crate::fetch::{show_day, shown_day};
use crate::matching::{list_names, listed, lower_all, lowercase_all, pick_pods, pods_holding};
use crate::model::{texts, views};
use crate::money::{divide, dollars, dollars_text, dollars_wide, magnitude};
use crate::order::{arranged, lemma_arranged_keeps_all, lemma_ranking, rank, ranking, stands_before, wide};
use crate::schedule::{numbers, PaySchedule};
use crate::style::{put, put_plain, spans, Span, Style};
use crate::text::{
    at_most, chars_of, contains_text, decimal, first_at, is_before, left, lemma_a_search_finds_the_first_place,
    lemma_pieces_make_up_the_text, lemma_text_order, lowercase, occurs_at, pieces, push_decimal,
    right, split, split_chars, string_of, take_at_most, text_before, to_left, to_lowercase, to_right,
};
use vstd::prelude::*;
use vstd::string::StringExecFns;

verus! {

// ---- Which pods ----

/// The pods whose name contains `filter` (case-insensitive): id and name.
pub fn matching_pods(accounts: &Vec<AccountSummary>, filter: &str) -> (found: Vec<(String, String)>)
    ensures
        pairs(found@) == pods_holding(accounts@, lowercase_all(listed(accounts@)), lowercase(filter@)),
{
    let lower = lower_all(&list_names(accounts));
    assert(texts(lower@).len() == accounts@.len());
    pick_pods(accounts, &lower, to_lowercase(filter).as_str())
}

// ---- Entries ----

/// The function that the API reports an outflow through.
#[derive(Debug, Clone, Copy, PartialEq, Eq, Structural)]
pub enum Channel {
    Card,
    Ach,
}

/// One outflow row, normalized across card + ACH for display.
#[derive(Debug)]
pub struct Entry {
    pub date: String,
    /// Positive = money out; negative = a card refund.
    pub cents: i64,
    pub label: String,
    pub channel: Channel,
    /// How far it has come, by name; only `Complete` rows count toward the totals,
    /// others are shown but flagged.
    pub status: String,
    pub counted: bool,
}

pub ghost struct EntryView {
    pub date: Seq<char>,
    pub cents: int,
    pub label: Seq<char>,
    pub channel: Channel,
    pub status: Seq<char>,
    pub counted: bool,
}

impl View for Entry {
    type V = EntryView;

    open spec fn view(&self) -> EntryView {
        EntryView {
            date: self.date@,
            cents: self.cents as int,
            label: self.label@,
            channel: self.channel,
            status: self.status@,
            counted: self.counted,
        }
    }
}

pub open spec fn status_text(status: TransferStatus) -> Seq<char> {
    match status {
        TransferStatus::Complete => "Complete"@,
        TransferStatus::Pending => "Pending"@,
        TransferStatus::Error => "Error"@,
        TransferStatus::Other { label } => label@,
    }
}

fn write_status(status: &TransferStatus) -> (text: String)
    ensures
        text@ == status_text(*status),
{
    match status {
        TransferStatus::Complete => "Complete".to_owned(),
        TransferStatus::Pending => "Pending".to_owned(),
        TransferStatus::Error => "Error".to_owned(),
        TransferStatus::Other { label } => label.clone(),
    }
}

fn is_complete(status: &TransferStatus) -> (complete: bool)
    ensures
        complete == (*status is Complete),
{
    match status {
        TransferStatus::Complete => true,
        _ => false,
    }
}

/// A description up to its first separator.
pub open spec fn short_label(description: Seq<char>) -> Seq<char> {
    split(description, " | "@)[0]
}

fn shorten(description: &str) -> (label: String)
    ensures
        label@ == short_label(description@),
{
    proof {
        reveal_strlit(" | ");
    }
    let parts = split_chars(&chars_of(description), &chars_of(" | "));
    assert(split(description@, " | "@).len() > 0);
    assert(pieces(parts@)[0] == parts@[0]@);
    string_of(&parts[0])
}

/// The row of a card transaction.
pub open spec fn card_entry(t: Transaction) -> EntryView {
    EntryView {
        date: shown_day(t.created_at@),
        cents: if t.is_refund {
            -t.amount_in_cents
        } else {
            t.amount_in_cents as int
        },
        label: short_label(t.description@),
        channel: Channel::Card,
        status: status_text(t.status),
        counted: t.status is Complete,
    }
}

/// The row of a transfer out.
pub open spec fn ach_entry(t: Transfer) -> EntryView {
    EntryView {
        date: shown_day(t.created_at@),
        cents: t.amount_in_cents as int,
        label: short_label(
            match t.destination {
                Some(d) => d.name@,
                None => "—"@,
            },
        ),
        channel: Channel::Ach,
        status: status_text(t.status),
        counted: t.status is Complete,
    }
}

pub open spec fn card_entries(txns: Seq<Transaction>) -> Seq<EntryView> {
    Seq::new(txns.len(), |i: int| card_entry(txns[i]))
}

pub open spec fn ach_entries(transfers: Seq<Transfer>) -> Seq<EntryView>
    decreases transfers.len(),
{
    if transfers.len() == 0 {
        Seq::empty()
    } else if transfers.last().direction == TransferDirection::MoneyOut {
        ach_entries(transfers.drop_last()).push(ach_entry(transfers.last()))
    } else {
        ach_entries(transfers.drop_last())
    }
}

/// How many of the entries are later than the day.
pub open spec fn later(entries: Seq<EntryView>, day: Seq<char>) -> nat
    decreases entries.len(),
{
    if entries.len() == 0 {
        0
    } else {
        later(entries.drop_last(), day) + if text_before(day, entries.last().date) { 1nat } else { 0nat }
    }
}

/// The newest first, entries of a day as they stand.
pub open spec fn newest_first(entries: Seq<EntryView>) -> Seq<EntryView> {
    arranged(entries, Seq::new(entries.len(), |i: int| later(entries, entries[i].date) as int))
}

proof fn lemma_later_days_have_fewer_later(entries: Seq<EntryView>, a: Seq<char>, b: Seq<char>)
    requires
        text_before(a, b),
    ensures
        later(entries, b) <= later(entries, a),
        forall|i: int| 0 <= i < entries.len() && (#[trigger] entries[i]).date == b ==> later(entries, b) < later(entries, a),
    decreases entries.len(),
{
    if entries.len() > 0 {
        let rest = entries.drop_last();
        lemma_later_days_have_fewer_later(rest, a, b);
        lemma_text_order(a, b, entries.last().date);
        lemma_text_order(b, b, b);
        assert forall|i: int| 0 <= i < entries.len() && (#[trigger] entries[i]).date == b implies later(entries, b) < later(
            entries,
            a,
        ) by {
            if i < rest.len() {
                assert(rest[i] == entries[i]);
            }
        }
    }
}

/// No entry stands behind an older one.
pub proof fn lemma_newest_first(entries: Seq<EntryView>, i: int, j: int)
    requires
        0 <= i < j < entries.len(),
    ensures
        !text_before(newest_first(entries)[i].date, newest_first(entries)[j].date),
{
    let keys = Seq::new(entries.len(), |i: int| later(entries, entries[i].date) as int);
    lemma_ranking(keys);
    let (a, b) = (ranking(keys)[i], ranking(keys)[j]);
    assert(stands_before(keys, a, b));
    if text_before(entries[a].date, entries[b].date) {
        lemma_later_days_have_fewer_later(entries, entries[a].date, entries[b].date);
        assert(entries[b].date == entries[b].date);
    }
}

/// A pod's spend over the window, split by channel.
#[derive(Debug)]
pub struct PodSpend {
    pub pod_name: String,
    pub card_cents: i64,
    pub ach_cents: i64,
    pub entries: Vec<Entry>,
}

pub ghost struct PodSpendView {
    pub pod_name: Seq<char>,
    pub card_cents: int,
    pub ach_cents: int,
    pub entries: Seq<EntryView>,
}

impl View for PodSpend {
    type V = PodSpendView;

    open spec fn view(&self) -> PodSpendView {
        PodSpendView {
            pod_name: self.pod_name@,
            card_cents: self.card_cents as int,
            ach_cents: self.ach_cents as int,
            entries: views(self.entries@),
        }
    }
}

impl PodSpend {
    pub fn total(&self) -> (cents: i64)
        requires
            fits(self.card_cents + self.ach_cents),
        ensures
            cents == self.card_cents + self.ach_cents,
    {
        self.card_cents + self.ach_cents
    }
}

/// The amounts of a pod's rows, and their totals, fit in 64 bits.
pub open spec fn rows_fit(card: Seq<Transaction>, ach: Seq<Transfer>) -> bool {
    &&& fits(net_spend(card))
    &&& fits(ach_outflow(ach))
    &&& fits(net_spend(card) + ach_outflow(ach))
    &&& forall|i: int| 0 <= i < card.len() && (#[trigger] card[i]).is_refund ==> card[i].amount_in_cents > i64::MIN
}

/// Whether the amounts of a pod's rows, and their totals, fit in 64 bits.
pub fn rows_in_range(card: &Vec<Transaction>, ach: &Vec<Transfer>) -> (in_range: bool)
    ensures
        in_range == rows_fit(card@, ach@),
{
    let mut i: usize = 0;
    while i < card.len()
        invariant
            i <= card@.len(),
            forall|j: int| 0 <= j < i && (#[trigger] card@[j]).is_refund ==> card@[j].amount_in_cents > i64::MIN,
        decreases card@.len() - i,
    {
        if card[i].is_refund && card[i].amount_in_cents == i64::MIN {
            return false;
        }
        i += 1;
    }
    outflow_in_range(card.as_slice(), ach.as_slice())
}

fn copy_entry(e: &Entry) -> (copy: Entry)
    ensures
        copy@ == e@,
{
    Entry {
        date: e.date.clone(),
        cents: e.cents,
        label: e.label.clone(),
        channel: e.channel,
        status: e.status.clone(),
        counted: e.counted,
    }
}

fn count_later(entries: &Vec<Entry>, day: &str) -> (n: usize)
    ensures
        n == later(views(entries@), day@),
{
    let ghost all = views(entries@);
    let mut n: usize = 0;
    let mut i: usize = 0;
    while i < entries.len()
        invariant
            i <= entries.len(),
            n <= i,
            all == views(entries@),
            n == later(all.take(i as int), day@),
        decreases entries.len() - i,
    {
        assert(all.take(i + 1).drop_last() == all.take(i as int));
        assert(all[i as int] == entries@[i as int]@);
        if is_before(day, entries[i].date.as_str()) {
            n += 1;
        }
        i += 1;
    }
    assert(all.take(i as int) == all);
    n
}

fn sort_entries(entries: &Vec<Entry>) -> (sorted: Vec<Entry>)
    ensures
        views(sorted@) == newest_first(views(entries@)),
{
    let ghost all = views(entries@);
    let ghost order_keys = Seq::new(all.len(), |i: int| later(all, all[i].date) as int);
    let mut keys: Vec<i128> = Vec::new();
    let mut i: usize = 0;
    while i < entries.len()
        invariant
            i <= entries@.len(),
            all == views(entries@),
            keys@.len() == i,
            forall|j: int| 0 <= j < i ==> #[trigger] keys@[j] == later(all, all[j].date),
        decreases entries@.len() - i,
    {
        assert(all[i as int] == entries@[i as int]@);
        keys.push(count_later(entries, entries[i].date.as_str()) as i128);
        i += 1;
    }
    assert(wide(keys@) == order_keys);
    let order = rank(&keys);
    let ghost want = newest_first(all);
    let mut sorted: Vec<Entry> = Vec::new();
    let mut i: usize = 0;
    while i < order.len()
        invariant
            i <= order@.len(),
            all == views(entries@),
            order@.len() == entries@.len(),
            order_keys.len() == all.len(),
            want == arranged(all, order_keys),
            forall|j: int| 0 <= j < order@.len() ==> #[trigger] order@[j] == ranking(order_keys)[j],
            forall|j: int| 0 <= j < order@.len() ==> #[trigger] order@[j] < entries@.len(),
            views(sorted@) == want.take(i as int),
        decreases order@.len() - i,
    {
        let ghost held = sorted@;
        let e = copy_entry(&entries[order[i]]);
        sorted.push(e);
        assert(views(sorted@) == views(held).push(e@));
        assert(e@ == want[i as int]);
        i += 1;
        assert(views(sorted@) == want.take(i as int));
    }
    assert(want.take(i as int) == want);
    sorted
}

/// A pod's spend picture.
pub open spec fn spend_of(pod_name: Seq<char>, card: Seq<Transaction>, ach: Seq<Transfer>) -> PodSpendView {
    PodSpendView {
        pod_name,
        card_cents: net_spend(card),
        ach_cents: ach_outflow(ach),
        entries: newest_first(card_entries(card) + ach_entries(ach)),
    }
}

/// Combine a pod's card + ACH rows into one channel-tagged spend picture.
pub fn build(pod_name: &str, card: &Vec<Transaction>, ach: &Vec<Transfer>) -> (found: PodSpend)
    requires
        rows_fit(card@, ach@),
    ensures
        found@ == spend_of(pod_name@, card@, ach@),
{
    let card_cents = net_spend_cents(card.as_slice());
    let ach_cents = ach_outflow_cents(ach.as_slice());
    let ghost cards = card_entries(card@);
    let mut entries: Vec<Entry> = Vec::new();
    let mut i: usize = 0;
    while i < card.len()
        invariant
            i <= card@.len(),
            rows_fit(card@, ach@),
            cards == card_entries(card@),
            views(entries@) == cards.take(i as int),
        decreases card@.len() - i,
    {
        let t = &card[i];
        assert(card@[i as int].is_refund ==> card@[i as int].amount_in_cents > i64::MIN);
        let e = Entry {
            date: show_day(t.created_at.as_str()),
            cents: if t.is_refund {
                -t.amount_in_cents
            } else {
                t.amount_in_cents
            },
            label: shorten(t.description.as_str()),
            channel: Channel::Card,
            status: write_status(&t.status),
            counted: is_complete(&t.status),
        };
        let ghost held = entries@;
        entries.push(e);
        assert(views(entries@) == views(held).push(e@));
        assert(e@ == cards[i as int]);
        i += 1;
        assert(views(entries@) == cards.take(i as int));
    }
    assert(cards.take(i as int) == cards);
    let mut i: usize = 0;
    assert(views(entries@) == cards + ach_entries(ach@.take(0)));
    while i < ach.len()
        invariant
            i <= ach@.len(),
            views(entries@) == cards + ach_entries(ach@.take(i as int)),
        decreases ach@.len() - i,
    {
        let t = &ach[i];
        assert(ach@.take(i + 1).drop_last() == ach@.take(i as int));
        if t.direction == TransferDirection::MoneyOut {
            let label = match &t.destination {
                Some(d) => shorten(d.name.as_str()),
                None => shorten("—"),
            };
            let e = Entry {
                date: show_day(t.created_at.as_str()),
                cents: t.amount_in_cents,
                label,
                channel: Channel::Ach,
                status: write_status(&t.status),
                counted: is_complete(&t.status),
            };
            let ghost held = entries@;
            entries.push(e);
            assert(views(entries@) == views(held).push(e@));
        }
        i += 1;
        assert(views(entries@) == cards + ach_entries(ach@.take(i as int)));
    }
    assert(ach@.take(i as int) == ach@);
    PodSpend { pod_name: pod_name.to_owned(), card_cents, ach_cents, entries: sort_entries(&entries) }
}

fn copy_spend(s: &PodSpend) -> (copy: PodSpend)
    ensures
        copy@ == s@,
{
    let ghost all = views(s.entries@);
    let mut entries: Vec<Entry> = Vec::new();
    let mut i: usize = 0;
    while i < s.entries.len()
        invariant
            i <= s.entries@.len(),
            all == views(s.entries@),
            views(entries@) == all.take(i as int),
        decreases s.entries@.len() - i,
    {
        let ghost held = entries@;
        let e = copy_entry(&s.entries[i]);
        entries.push(e);
        assert(views(entries@) == views(held).push(e@));
        i += 1;
        assert(views(entries@) == all.take(i as int));
    }
    assert(all.take(i as int) == all);
    PodSpend {
        pod_name: s.pod_name.clone(),
        card_cents: s.card_cents,
        ach_cents: s.ach_cents,
        entries,
    }
}

pub open spec fn total_of(s: PodSpendView) -> int {
    s.card_cents + s.ach_cents
}

/// The biggest spenders first.
pub open spec fn biggest(spends: Seq<PodSpendView>) -> Seq<PodSpendView> {
    arranged(spends, Seq::new(spends.len(), |i: int| -total_of(spends[i])))
}

/// The pods that had any rows.
pub open spec fn with_rows(spends: Seq<PodSpendView>) -> Seq<PodSpendView>
    decreases spends.len(),
{
    if spends.len() == 0 {
        Seq::empty()
    } else if spends.last().entries.len() > 0 {
        with_rows(spends.drop_last()).push(spends.last())
    } else {
        with_rows(spends.drop_last())
    }
}

/// The pods that had any rows, the biggest spenders first.
pub fn biggest_first(spends: &Vec<PodSpend>) -> (sorted: Vec<PodSpend>)
    ensures
        views(sorted@) == biggest(with_rows(views(spends@))),
{
    let ghost given = views(spends@);
    let mut kept: Vec<PodSpend> = Vec::new();
    let mut keys: Vec<i128> = Vec::new();
    let mut i: usize = 0;
    assert(views(kept@) == with_rows(given.take(0)));
    while i < spends.len()
        invariant
            i <= spends@.len(),
            given == views(spends@),
            views(kept@) == with_rows(given.take(i as int)),
            keys@.len() == kept@.len(),
            forall|j: int| 0 <= j < keys@.len() ==> #[trigger] keys@[j] == -total_of(kept@[j]@),
        decreases spends@.len() - i,
    {
        let s = &spends[i];
        assert(given.take(i + 1).drop_last() == given.take(i as int));
        assert(given[i as int] == s@);
        if s.entries.len() > 0 {
            let ghost held = kept@;
            keys.push(-(s.card_cents as i128 + s.ach_cents as i128));
            let copy = copy_spend(s);
            kept.push(copy);
            assert(views(kept@) == views(held).push(s@));
        }
        i += 1;
    }
    assert(given.take(i as int) == given);
    let ghost all = views(kept@);
    let ghost order_keys = Seq::new(all.len(), |i: int| -total_of(all[i]));
    assert(wide(keys@) == order_keys);
    let order = rank(&keys);
    let ghost want = biggest(all);
    let mut sorted: Vec<PodSpend> = Vec::new();
    let mut i: usize = 0;
    while i < order.len()
        invariant
            i <= order@.len(),
            all == views(kept@),
            order@.len() == kept@.len(),
            order_keys.len() == all.len(),
            want == arranged(all, order_keys),
            forall|j: int| 0 <= j < order@.len() ==> #[trigger] order@[j] == ranking(order_keys)[j],
            forall|j: int| 0 <= j < order@.len() ==> #[trigger] order@[j] < kept@.len(),
            views(sorted@) == want.take(i as int),
        decreases order@.len() - i,
    {
        let ghost held = sorted@;
        let s = copy_spend(&kept[order[i]]);
        sorted.push(s);
        assert(views(sorted@) == views(held).push(s@));
        assert(s@ == want[i as int]);
        i += 1;
        assert(views(sorted@) == want.take(i as int));
    }
    assert(want.take(i as int) == want);
    sorted
}

/// No pod stands behind one that spent less.
pub proof fn lemma_biggest_come_first(spends: Seq<PodSpendView>, i: int, j: int)
    requires
        0 <= i < j < spends.len(),
    ensures
        total_of(biggest(spends)[i]) >= total_of(biggest(spends)[j]),
{
    let keys = Seq::new(spends.len(), |i: int| -total_of(spends[i]));
    lemma_ranking(keys);
    assert(stands_before(keys, ranking(keys)[i], ranking(keys)[j]));
}

// ---- What was spent ----

/// The rows shown of each pod.
pub const ROWS_SHOWN: usize = 15;

/// The line of an entry: its day, channel, amount and label, flagged where it does not count.
pub open spec fn entry_spans(e: EntryView) -> Seq<(Seq<char>, Style)> {
    let (tag, tag_style, amount_style) = if e.cents < 0 {
        ("refund"@, Style::Green, Style::Green)
    } else if e.channel == Channel::Ach {
        ("ACH   "@, Style::Yellow, Style::Plain)
    } else {
        ("card  "@, Style::Plain, Style::Plain)
    };
    let row = seq![
        ("  "@, Style::Plain),
        (e.date, Style::Dimmed),
        ("  "@, Style::Plain),
        (tag, tag_style),
        (" "@, Style::Plain),
        (right(dollars_text(magnitude(e.cents) as int), 9), amount_style),
        ("  "@ + e.label, Style::Plain),
    ];
    (if e.counted {
        row
    } else {
        row.push(("  ["@ + e.status + " — not counted]"@, Style::Red))
    }).push(("\n"@, Style::Plain))
}

pub open spec fn entries_spans(entries: Seq<EntryView>) -> Seq<(Seq<char>, Style)>
    decreases entries.len(),
{
    if entries.len() == 0 {
        Seq::empty()
    } else {
        entries_spans(entries.drop_last()) + entry_spans(entries.last())
    }
}

/// A pod's spend: the totals, and the newest rows.
pub open spec fn pod_spans(s: PodSpendView, days: int) -> Seq<(Seq<char>, Style)> {
    let head = seq![
        ("\n"@, Style::Plain),
        (
            "=== "@ + s.pod_name + "  ·  spend ("@ + decimal(days as nat) + "d): "@ + dollars_text(total_of(s))
                + "   (card "@ + dollars_text(s.card_cents) + " · ACH "@ + dollars_text(s.ach_cents) + ") ==="@,
            Style::CyanBold,
        ),
        ("\n"@, Style::Plain),
    ];
    if s.entries.len() > ROWS_SHOWN {
        (head + entries_spans(s.entries.take(ROWS_SHOWN as int))).push(
            ("  … "@ + decimal((s.entries.len() - ROWS_SHOWN) as nat) + " more\n"@, Style::Plain),
        )
    } else {
        head + entries_spans(s.entries)
    }
}

pub open spec fn spend_report(spends: Seq<PodSpendView>, days: int) -> Seq<(Seq<char>, Style)>
    decreases spends.len(),
{
    if spends.len() == 0 {
        Seq::empty()
    } else {
        spend_report(spends.drop_last(), days) + pod_spans(spends.last(), days)
    }
}

fn put_entry(e: &Entry, out: &mut Vec<Span>)
    ensures
        spans(final(out)@) == spans(old(out)@) + entry_spans(e@),
{
    let ghost before = spans(out@);
    put_plain(out, "  ");
    put(out, Style::Dimmed, e.date.clone());
    put_plain(out, "  ");
    let size: i128 = if e.cents < 0 {
        -(e.cents as i128)
    } else {
        e.cents as i128
    };
    let amount = to_right(dollars_wide(size).as_str(), 9);
    if e.cents < 0 {
        put(out, Style::Green, "refund".to_owned());
        put_plain(out, " ");
        put(out, Style::Green, amount);
    } else {
        match e.channel {
            Channel::Ach => {
                put(out, Style::Yellow, "ACH   ".to_owned());
            },
            Channel::Card => {
                put_plain(out, "card  ");
            },
        }
        put_plain(out, " ");
        put(out, Style::Plain, amount);
    }
    let mut label = "  ".to_owned();
    label.append(e.label.as_str());
    put(out, Style::Plain, label);
    if !e.counted {
        let mut flag = "  [".to_owned();
        flag.append(e.status.as_str());
        flag.append(" — not counted]");
        put(out, Style::Red, flag);
    }
    put_plain(out, "\n");
    assert(spans(out@) == before + entry_spans(e@));
}

fn put_pod(s: &PodSpend, days: u32, out: &mut Vec<Span>)
    ensures
        spans(final(out)@) == spans(old(out)@) + pod_spans(s@, days as int),
{
    let ghost before = spans(out@);
    let ghost all = s@.entries;
    put_plain(out, "\n");
    let mut head = "=== ".to_owned();
    head.append(s.pod_name.as_str());
    head.append("  ·  spend (");
    push_decimal(&mut head, days as u128);
    head.append("d): ");
    head.append(dollars_wide(s.card_cents as i128 + s.ach_cents as i128).as_str());
    head.append("   (card ");
    head.append(dollars(s.card_cents).as_str());
    head.append(" · ACH ");
    head.append(dollars(s.ach_cents).as_str());
    head.append(") ===");
    put(out, Style::CyanBold, head);
    put_plain(out, "\n");
    let ghost headed = spans(out@);
    let n: usize = s.entries.len();
    let shown: usize = if n > ROWS_SHOWN {
        ROWS_SHOWN
    } else {
        n
    };
    let mut i: usize = 0;
    assert(headed + entries_spans(all.take(0)) == headed);
    while i < shown
        invariant
            i <= shown <= n,
            n == s.entries@.len(),
            all == views(s.entries@),
            spans(out@) == headed + entries_spans(all.take(i as int)),
        decreases shown - i,
    {
        assert(all.take(i + 1).drop_last() == all.take(i as int));
        assert(all[i as int] == s.entries@[i as int]@);
        put_entry(&s.entries[i], out);
        i += 1;
        assert(spans(out@) == headed + entries_spans(all.take(i as int)));
    }
    if n > ROWS_SHOWN {
        let mut more = "  … ".to_owned();
        push_decimal(&mut more, (n - ROWS_SHOWN) as u128);
        more.append(" more\n");
        put(out, Style::Plain, more);
    } else {
        assert(all.take(shown as int) == all);
    }
    assert(spans(out@) == before + pod_spans(s@, days as int));
}

/// What the pods spent in the window, row by row.
pub fn report_spend(spends: &Vec<PodSpend>, days: u32) -> (out: Vec<Span>)
    ensures
        spans(out@) == spend_report(views(spends@), days as int),
{
    let ghost all = views(spends@);
    let mut out: Vec<Span> = Vec::new();
    let mut i: usize = 0;
    assert(spans(out@) == spend_report(all.take(0), days as int));
    while i < spends.len()
        invariant
            i <= spends@.len(),
            all == views(spends@),
            spans(out@) == spend_report(all.take(i as int), days as int),
        decreases spends@.len() - i,
    {
        assert(all.take(i + 1).drop_last() == all.take(i as int));
        assert(all[i as int] == spends@[i as int]@);
        put_pod(&spends[i], days, &mut out);
        i += 1;
    }
    assert(all.take(i as int) == all);
    out
}

// ---- Against the budget ----

/// The paydays of the month that ends today, one at least.
pub open spec fn paydays_a_month(sched: PaySchedule, today: int) -> int {
    at_least_one(sched.paydays(today - 30, today).len() as int)
}

/// A month's paydays are those of the 31 days up to today, counted day by day, and one
/// where there is none.
pub proof fn lemma_a_months_paydays_are_counted(sched: PaySchedule, today: int, middle: int)
    requires
        today - 31 <= middle <= today,
    ensures
        ({
            let n = sched.paydays(today - 30, middle).len() + sched.paydays(middle + 1, today).len();
            paydays_a_month(sched, today) == if n == 0 {
                1
            } else {
                n as int
            }
        }),
{
    sched.lemma_adjoining_ranges(today - 30, middle, today);
}

/// Paydays per month, from the discovered schedule (per-paycheck top-ups need it).
pub fn paydays_per_month(sched: &PaySchedule, today: Date) -> (n: i64)
    requires
        sched.well_formed(),
        on_calendar(today@ - 30),
        sched is Irregular || today@ + 2 <= LAST_DAY,
    ensures
        n == paydays_a_month(*sched, today@) as i64,
{
    let found = sched.paydays_in(today.plus_days(-30), today);
    let n: usize = found.len();
    assert(numbers(found@).len() == n);
    if n < 1 {
        1
    } else {
        #[verifier::truncate]
        (n as i64)
    }
}

/// A `topup` pod's amount is a per-paycheck CAP and a `keep` pod's is a level to
/// refill to — not fixed bills.
pub open spec fn is_cap(freq: FrequencyView) -> bool {
    freq is Paycheck || freq is Keep
}

/// What a pod spends a month.
pub open spec fn actual_monthly(s: PodSpendView, days: int) -> int {
    run_rate(total_of(s), days) as i64 as int
}

/// A budgeted pod's lines: declared, actual and drift a month, and for a real bill
/// that drifts the amount that would fit.
pub open spec fn budget_spans(bill: DerivedBillView, actual: int, ppm: int) -> Seq<(Seq<char>, Style)> {
    let cap = is_cap(bill.frequency);
    let declared = declared_monthly(bill.amount_cents, bill.frequency, ppm);
    let drift = actual - declared;
    let shown = right(dollars_text(drift), 10);
    let row = seq![
        (
            "  "@ + left(at_most(bill.name, 20), 20) + " "@ + (if cap { "cap     "@ } else { "budgeted"@ }) + " "@ + right(
                dollars_text(declared),
                10,
            ) + "/mo   actual "@ + right(dollars_text(actual), 10) + "/mo   drift "@,
            Style::Plain,
        ),
    ];
    let line = (if magnitude(drift) < 500 {
        row.push((shown, Style::Green))
    } else if drift > 0 {
        row.push((shown, Style::RedBold)).push(
            (
                if cap {
                    "  <-- over the cap"@
                } else {
                    "  <-- spends more than budgeted"@
                },
                Style::Red,
            ),
        )
    } else if cap {
        row.push((shown, Style::Dimmed))
    } else {
        row.push((shown, Style::Blue)).push(("  <-- budgeted more than spent"@, Style::Blue))
    }).push(("\n"@, Style::Plain));
    if !cap && magnitude(drift) >= 500 {
        line.push(
            (
                "      → set the pod amount to ~"@ + dollars_text(
                    rounded_up(native_from_monthly(actual, bill.frequency, ppm)),
                ) + " (currently "@ + dollars_text(bill.amount_cents) + ")"@,
                Style::Dimmed,
            ),
        ).push(("\n"@, Style::Plain))
    } else {
        line
    }
}

/// A pod's lines.
pub open spec fn compare_spans(s: PodSpendView, days: int, ppm: int) -> Seq<(Seq<char>, Style)> {
    let actual = actual_monthly(s, days);
    match derived(s.pod_name) {
        Some(bill) => budget_spans(bill, actual, ppm),
        None => seq![
            (
                "  "@ + left(at_most(s.pod_name, 20), 20) + " actual "@ + right(dollars_text(actual), 10)
                    + "/mo   (not a budgeted bill)"@,
                Style::Dimmed,
            ),
            ("\n"@, Style::Plain),
        ],
    }
}

pub open spec fn comparisons(spends: Seq<PodSpendView>, days: int, ppm: int) -> Seq<(Seq<char>, Style)>
    decreases spends.len(),
{
    if spends.len() == 0 {
        Seq::empty()
    } else {
        comparisons(spends.drop_last(), days, ppm) + compare_spans(spends.last(), days, ppm)
    }
}

/// Spend against the declared budget.
pub open spec fn budget_report(spends: Seq<PodSpendView>, days: int, ppm: int) -> Seq<(Seq<char>, Style)> {
    let head = seq![
        (
            "spend vs. declared budget (monthly, from a "@ + decimal(days as nat) + "d window):"@,
            Style::Bold,
        ),
        ("\n\n"@, Style::Plain),
    ];
    let footer = "(card + ACH spend; rates projected from a "@ + decimal(days as nat) + (if days < 90 {
        "d window — use `--days 90` for a steadier figure)"@
    } else {
        "d window)"@
    });
    (head + comparisons(spends, days, ppm)).push(("\n"@, Style::Plain)).push((footer, Style::Dimmed)).push(
        ("\n"@, Style::Plain),
    )
}

fn put_budgeted(bill: &DerivedBill, actual: i64, ppm: i64, out: &mut Vec<Span>)
    ensures
        spans(final(out)@) == spans(old(out)@) + budget_spans(bill@, actual as int, ppm as int),
{
    let ghost before = spans(out@);
    // A `topup` pod's amount is a per-paycheck CAP and a `keep` pod's is
    // a level to refill to — not fixed bills, so spending under them is
    // normal headroom, and "set the amount to X" doesn't apply.
    let cap = match bill.frequency {
        Frequency::Paycheck | Frequency::Keep => true,
        _ => false,
    };
    let declared = declared_monthly_wide(bill.amount_cents, &bill.frequency, ppm);
    let drift: i128 = actual as i128 - declared;
    let small = -500 < drift && drift < 500;
    let mut row = "  ".to_owned();
    row.append(to_left(take_at_most(bill.name.as_str(), 20).as_str(), 20).as_str());
    row.append(" ");
    if cap {
        row.append("cap     ");
    } else {
        row.append("budgeted");
    }
    row.append(" ");
    row.append(to_right(dollars_wide(declared).as_str(), 10).as_str());
    row.append("/mo   actual ");
    row.append(to_right(dollars(actual).as_str(), 10).as_str());
    row.append("/mo   drift ");
    put(out, Style::Plain, row);
    let shown = to_right(dollars_wide(drift).as_str(), 10);
    if small {
        put(out, Style::Green, shown);
    } else if drift > 0 {
        put(out, Style::RedBold, shown);
        if cap {
            put(out, Style::Red, "  <-- over the cap".to_owned());
        } else {
            put(out, Style::Red, "  <-- spends more than budgeted".to_owned());
        }
    } else if cap {
        put(out, Style::Dimmed, shown);  // under a cap is benign headroom
    } else {
        put(out, Style::Blue, shown);
        put(out, Style::Blue, "  <-- budgeted more than spent".to_owned());
    }
    put_plain(out, "\n");
    // The "set the amount to X" suggestion fits a real bill, not a cap.
    if !cap && !small {
        let native = native_from_monthly_wide(actual, &bill.frequency, ppm);
        let suggest: i128 = divide(native + 99, 100) * 100;
        let mut text = "      → set the pod amount to ~".to_owned();
        text.append(dollars_wide(suggest).as_str());
        text.append(" (currently ");
        text.append(dollars(bill.amount_cents).as_str());
        text.append(")");
        put(out, Style::Dimmed, text);
        put_plain(out, "\n");
    }
    assert(spans(out@) == before + budget_spans(bill@, actual as int, ppm as int));
}

fn put_comparison(s: &PodSpend, days: u32, ppm: i64, out: &mut Vec<Span>)
    requires
        fits(total_of(s@)),
        name_fits(s@.pod_name),
    ensures
        spans(final(out)@) == spans(old(out)@) + compare_spans(s@, days as int, ppm as int),
{
    let ghost before = spans(out@);
    let actual = monthly_run_rate_cents(s.total(), days as i64);
    match derive_bill(s.pod_name.as_str()) {
        Some(bill) => {
            put_budgeted(&bill, actual, ppm, out);
        },
        None => {
            let mut text = "  ".to_owned();
            text.append(to_left(take_at_most(s.pod_name.as_str(), 20).as_str(), 20).as_str());
            text.append(" actual ");
            text.append(to_right(dollars(actual).as_str(), 10).as_str());
            text.append("/mo   (not a budgeted bill)");
            put(out, Style::Dimmed, text);
            put_plain(out, "\n");
            assert(spans(out@) == before + compare_spans(s@, days as int, ppm as int));
        },
    }
}

/// Every total fits in 64 bits, and every pod's name can be read.
pub open spec fn spends_fit(spends: Seq<PodSpendView>) -> bool {
    forall|i: int| 0 <= i < spends.len() ==> fits(total_of(#[trigger] spends[i])) && name_fits(spends[i].pod_name)
}

/// Whether every total fits in 64 bits, and every pod's name can be read.
pub fn spends_in_range(spends: &Vec<PodSpend>) -> (in_range: bool)
    ensures
        in_range == spends_fit(views(spends@)),
{
    let ghost all = views(spends@);
    let mut i: usize = 0;
    while i < spends.len()
        invariant
            i <= spends@.len(),
            all == views(spends@),
            forall|j: int| 0 <= j < i ==> fits(total_of(#[trigger] all[j])) && name_fits(all[j].pod_name),
        decreases spends@.len() - i,
    {
        let s = &spends[i];
        assert(all[i as int] == s@);
        let total: i128 = s.card_cents as i128 + s.ach_cents as i128;
        if total < i64::MIN as i128 || total > i64::MAX as i128 || !crate::derive::name_in_range(s.pod_name.as_str()) {
            return false;
        }
        i += 1;
    }
    true
}

/// What the pods spend a month against what their names declare, or a total or a
/// number in a name is out of range.
pub fn checked_report_vs_budget(spends: &Vec<PodSpend>, days: u32, ppm: i64) -> (out: Result<Vec<Span>, OutOfRange>)
    ensures
        match out {
            Ok(text) => spends_fit(views(spends@)) && spans(text@) == budget_report(
                views(spends@),
                days as int,
                ppm as int,
            ),
            Err(_) => !spends_fit(views(spends@)),
        },
{
    if spends_in_range(spends) {
        Ok(report_vs_budget(spends, days, ppm))
    } else {
        Err(OutOfRange)
    }
}

/// What the pods spend a month against what their names declare.
pub fn report_vs_budget(spends: &Vec<PodSpend>, days: u32, ppm: i64) -> (out: Vec<Span>)
    requires
        spends_fit(views(spends@)),
    ensures
        spans(out@) == budget_report(views(spends@), days as int, ppm as int),
{
    let ghost all = views(spends@);
    let mut out: Vec<Span> = Vec::new();
    let mut title = "spend vs. declared budget (monthly, from a ".to_owned();
    push_decimal(&mut title, days as u128);
    title.append("d window):");
    put(&mut out, Style::Bold, title);
    put_plain(&mut out, "\n\n");
    let ghost head = spans(out@);
    let mut i: usize = 0;
    assert(head + comparisons(all.take(0), days as int, ppm as int) == head);
    while i < spends.len()
        invariant
            i <= spends@.len(),
            all == views(spends@),
            spends_fit(all),
            spans(out@) == head + comparisons(all.take(i as int), days as int, ppm as int),
        decreases spends@.len() - i,
    {
        assert(all.take(i + 1).drop_last() == all.take(i as int));
        assert(all[i as int] == spends@[i as int]@);
        put_comparison(&spends[i], days, ppm, &mut out);
        i += 1;
        assert(spans(out@) == head + comparisons(all.take(i as int), days as int, ppm as int));
    }
    assert(all.take(i as int) == all);
    put_plain(&mut out, "\n");
    let mut footer = "(card + ACH spend; rates projected from a ".to_owned();
    push_decimal(&mut footer, days as u128);
    if days < 90 {
        footer.append("d window — use `--days 90` for a steadier figure)");
    } else {
        footer.append("d window)");
    }
    put(&mut out, Style::Dimmed, footer);
    put_plain(&mut out, "\n");
    assert(spans(out@) == budget_report(all, days as int, ppm as int));
    out
}

// ---- What is shown of a pod's spend ----

/// What the rows of one channel that count amount to.
pub open spec fn counted_cents(entries: Seq<EntryView>, channel: Channel) -> int
    decreases entries.len(),
{
    if entries.len() == 0 {
        0
    } else {
        let e = entries.last();
        counted_cents(entries.drop_last(), channel) + if e.counted && e.channel == channel {
            e.cents
        } else {
            0
        }
    }
}

/// The rows of the transfers out are made one by one, in order: none of money that came
/// in or stayed inside, every other with its amount, counted where it is complete.
pub proof fn lemma_transfer_rows_are_made_one_by_one(a: Seq<Transfer>, b: Seq<Transfer>)
    ensures
        ach_entries(a + b) == ach_entries(a) + ach_entries(b),
        a.len() == 0 ==> ach_entries(a).len() == 0,
        a.len() == 1 && !(a[0].direction is MoneyOut) ==> ach_entries(a).len() == 0,
        a.len() == 1 && a[0].direction is MoneyOut ==> {
            let rows = ach_entries(a);
            &&& rows.len() == 1
            &&& rows[0].cents == a[0].amount_in_cents && rows[0].channel is Ach
            &&& rows[0].counted <==> a[0].status is Complete
            &&& rows[0].date == shown_day(a[0].created_at@)
        },
    decreases b.len(),
{
    reveal_with_fuel(ach_entries, 2);
    if b.len() == 0 {
        assert(a + b == a);
    } else {
        assert((a + b).drop_last() == a + b.drop_last());
        lemma_transfer_rows_are_made_one_by_one(a, b.drop_last());
    }
}

/// Every card transaction has its row: a refund negative, counted where it is complete.
pub proof fn lemma_every_card_row_is_shown(txns: Seq<Transaction>, i: int)
    requires
        0 <= i < txns.len(),
    ensures
        card_entries(txns).len() == txns.len(),
        card_entries(txns)[i].cents == if txns[i].is_refund {
            -txns[i].amount_in_cents
        } else {
            txns[i].amount_in_cents as int
        },
        card_entries(txns)[i].channel is Card,
        card_entries(txns)[i].counted <==> txns[i].status is Complete,
        card_entries(txns)[i].date == shown_day(txns[i].created_at@),
{
}

/// The rows that count add up to what was sent out.
pub proof fn lemma_transfer_rows_add_up(transfers: Seq<Transfer>)
    ensures
        counted_cents(ach_entries(transfers), Channel::Ach) == ach_outflow(transfers),
        counted_cents(ach_entries(transfers), Channel::Card) == 0,
    decreases transfers.len(),
{
    if transfers.len() > 0 {
        let rest = transfers.drop_last();
        lemma_transfer_rows_add_up(rest);
        if transfers.last().direction == TransferDirection::MoneyOut {
            assert(ach_entries(transfers).drop_last() == ach_entries(rest));
        }
    }
}

/// The rows that count add up to the net card spend, where the refunds are what did not
/// go out.
pub proof fn lemma_card_rows_add_up(txns: Seq<Transaction>)
    requires
        forall|i: int| 0 <= i < txns.len() ==> ((#[trigger] txns[i]).is_refund <==> !(txns[i].direction is MoneyOut)),
    ensures
        counted_cents(card_entries(txns), Channel::Card) == net_spend(txns),
        counted_cents(card_entries(txns), Channel::Ach) == 0,
    decreases txns.len(),
{
    if txns.len() > 0 {
        let rest = txns.drop_last();
        assert forall|i: int| 0 <= i < rest.len() implies ((#[trigger] rest[i]).is_refund <==> !(
        rest[i].direction is MoneyOut)) by {
            assert(rest[i] == txns[i]);
        }
        lemma_card_rows_add_up(rest);
        assert(card_entries(txns).drop_last() == card_entries(rest));
        assert(txns[txns.len() - 1] == txns.last());
    }
}

/// A pod's spend shows all its rows, of both channels, and none but them.
pub proof fn lemma_no_row_is_lost(pod_name: Seq<char>, card: Seq<Transaction>, ach: Seq<Transfer>)
    ensures
        ({
            let found = spend_of(pod_name, card, ach);
            &&& found.pod_name == pod_name
            &&& found.card_cents == net_spend(card)
            &&& found.ach_cents == ach_outflow(ach)
            &&& found.entries.to_multiset() == (card_entries(card) + ach_entries(ach)).to_multiset()
        }),
{
    let rows = card_entries(card) + ach_entries(ach);
    lemma_arranged_keeps_all(rows, Seq::new(rows.len(), |i: int| later(rows, rows[i].date) as int));
}

/// The pods with rows are picked one by one, in order.
pub proof fn lemma_pods_with_rows_are_picked_one_by_one(a: Seq<PodSpendView>, b: Seq<PodSpendView>)
    ensures
        with_rows(a + b) == with_rows(a) + with_rows(b),
        a.len() == 0 ==> with_rows(a).len() == 0,
        a.len() == 1 ==> with_rows(a) == if a[0].entries.len() > 0 {
            a
        } else {
            Seq::empty()
        },
    decreases b.len(),
{
    reveal_with_fuel(with_rows, 2);
    if a.len() == 1 {
        assert(with_rows(a.drop_last()) == Seq::<PodSpendView>::empty());
        assert(Seq::<PodSpendView>::empty().push(a[0]) == a);
    }
    if b.len() == 0 {
        assert(a + b == a);
    } else {
        assert((a + b).drop_last() == a + b.drop_last());
        lemma_pods_with_rows_are_picked_one_by_one(a, b.drop_last());
    }
}

/// Ranking the spenders drops none.
pub proof fn lemma_ranking_spenders_drops_none(spends: Seq<PodSpendView>)
    ensures
        biggest(spends).to_multiset() == spends.to_multiset(),
{
    lemma_arranged_keeps_all(spends, Seq::new(spends.len(), |i: int| -total_of(spends[i])));
}

/// Rows are shown one below the other, in order.
pub proof fn lemma_rows_are_shown_one_by_one(a: Seq<EntryView>, b: Seq<EntryView>)
    ensures
        entries_spans(a + b) == entries_spans(a) + entries_spans(b),
        a.len() == 0 ==> entries_spans(a).len() == 0,
        a.len() == 1 ==> entries_spans(a) == entry_spans(a[0]),
    decreases b.len(),
{
    reveal_with_fuel(entries_spans, 2);
    if a.len() == 1 {
        assert(entries_spans(a.drop_last()) == Seq::<(Seq<char>, Style)>::empty());
        assert(entries_spans(a) == entry_spans(a[0]));
    }
    if b.len() == 0 {
        assert(a + b == a);
        assert(entries_spans(a) + entries_spans(b) == entries_spans(a));
    } else {
        let rest = b.drop_last();
        assert((a + b).drop_last() == a + rest);
        lemma_rows_are_shown_one_by_one(a, rest);
        assert(entries_spans(a + b) == entries_spans(a) + entries_spans(b));
    }
}

proof fn lemma_spans_are_joined(a: Seq<(Seq<char>, Style)>, b: Seq<(Seq<char>, Style)>, c: Seq<(Seq<char>, Style)>)
    ensures
        (a + b) + c == a + (b + c),
{
}

/// Pods are reported one after the other, in order.
pub proof fn lemma_pods_are_reported_one_by_one(a: Seq<PodSpendView>, b: Seq<PodSpendView>, days: int)
    ensures
        spend_report(a + b, days) == spend_report(a, days) + spend_report(b, days),
        a.len() == 0 ==> spend_report(a, days).len() == 0,
        a.len() == 1 ==> spend_report(a, days) == pod_spans(a[0], days),
    decreases b.len(),
{
    if a.len() == 1 {
        let own = pod_spans(a[0], days);
        assert(spend_report(a.drop_last(), days) == Seq::<(Seq<char>, Style)>::empty());
        assert(Seq::<(Seq<char>, Style)>::empty() + own == own);
    }
    if b.len() == 0 {
        assert(a + b == a);
        assert(spend_report(a, days) + spend_report(b, days) == spend_report(a, days));
    } else {
        let rest = b.drop_last();
        assert((a + b).drop_last() == a + rest);
        lemma_pods_are_reported_one_by_one(a, rest, days);
        lemma_spans_are_joined(spend_report(a, days), spend_report(rest, days), pod_spans(b.last(), days));
    }
}

/// Pods are compared with the budget one after the other, in order.
pub proof fn lemma_pods_are_compared_one_by_one(a: Seq<PodSpendView>, b: Seq<PodSpendView>, days: int, ppm: int)
    ensures
        comparisons(a + b, days, ppm) == comparisons(a, days, ppm) + comparisons(b, days, ppm),
        a.len() == 0 ==> comparisons(a, days, ppm).len() == 0,
        a.len() == 1 ==> comparisons(a, days, ppm) == compare_spans(a[0], days, ppm),
    decreases b.len(),
{
    if a.len() == 1 {
        let own = compare_spans(a[0], days, ppm);
        assert(comparisons(a.drop_last(), days, ppm) == Seq::<(Seq<char>, Style)>::empty());
        assert(Seq::<(Seq<char>, Style)>::empty() + own == own);
    }
    if b.len() == 0 {
        assert(a + b == a);
        assert(comparisons(a, days, ppm) + comparisons(b, days, ppm) == comparisons(a, days, ppm));
    } else {
        let rest = b.drop_last();
        assert((a + b).drop_last() == a + rest);
        lemma_pods_are_compared_one_by_one(a, rest, days, ppm);
        lemma_spans_are_joined(comparisons(a, days, ppm), comparisons(rest, days, ppm), compare_spans(b.last(), days, ppm));
    }
}

/// Drift of five dollars or more is remarked on, less is not: a bill with the amount to
/// set, a cap only where it is exceeded.
pub proof fn lemma_drift_is_remarked_on(bill: DerivedBillView, actual: int, ppm: int)
    ensures
        ({
            let shown = budget_spans(bill, actual, ppm);
            let drift = actual - declared_monthly(bill.amount_cents, bill.frequency, ppm);
            let cap = bill.frequency is Paycheck || bill.frequency is Keep;
            &&& -500 < drift < 500 ==> shown.len() == 3 && shown[1].1 is Green
            &&& drift >= 500 && cap ==> shown.len() == 4 && shown[2].0 == "  <-- over the cap"@
            &&& drift <= -500 && cap ==> shown.len() == 3 && shown[1].1 is Dimmed
            &&& drift >= 500 && !cap ==> shown.len() == 6 && shown[2].0 == "  <-- spends more than budgeted"@
            &&& drift <= -500 && !cap ==> shown.len() == 6 && shown[2].0 == "  <-- budgeted more than spent"@
            &&& shown[1].0 == right(dollars_text(drift), 10)
        }),
{
}

/// The amount that is suggested for a bill covers what it costs: its monthly share is
/// no less than the spend, and a dollar less would not do.
pub proof fn lemma_the_suggested_amount_covers_the_spend(actual: int, freq: FrequencyView, ppm: int)
    requires
        actual >= 0,
        !(freq is Paycheck),
    ensures
        ({
            let amount = rounded_up(native_from_monthly(actual, freq, ppm));
            &&& declared_monthly(amount, freq, ppm) >= actual
            &&& amount % 100 == 0
            &&& amount < native_from_monthly(actual, freq, ppm) + 100
        }),
{
    let native = native_from_monthly(actual, freq, ppm);
    let k = match freq {
        FrequencyView::Quarter => 3,
        FrequencyView::Year => 12,
        FrequencyView::Drawdown { period_months, .. } => if period_months > 0 { period_months } else { 1 },
        _ => 1,
    };
    assert(native == actual * k && native >= 0) by (nonlinear_arith)
        requires
            native == actual * k || (k == 1 && native == actual),
            actual >= 0,
            k > 0,
    ;
    lemma_rounding_never_under_budgets(native);
    let amount = rounded_up(native);
    assert(amount / k >= actual) by (nonlinear_arith)
        requires
            amount >= actual * k,
            k > 0,
            actual >= 0,
    ;
}

/// The newest fifteen rows of a pod are shown; of more it is said how many more.
pub proof fn lemma_the_newest_rows_are_shown(s: PodSpendView, days: int)
    ensures
        ({
            let shown = pod_spans(s, days);
            let n = shown.len() as int;
            &&& s.entries.len() <= 15 ==> shown.skip(3) == entries_spans(s.entries)
            &&& s.entries.len() > 15 ==> shown.subrange(3, n - 1) == entries_spans(s.entries.take(15)) && shown[n - 1].0
                == "  … "@ + decimal((s.entries.len() - 15) as nat) + " more\n"@
            &&& shown[1].0 == "=== "@ + s.pod_name + "  ·  spend ("@ + decimal(days as nat) + "d): "@ + dollars_text(
                s.card_cents + s.ach_cents,
            ) + "   (card "@ + dollars_text(s.card_cents) + " · ACH "@ + dollars_text(s.ach_cents) + ") ==="@
        }),
{
    let shown = pod_spans(s, days);
    let n = shown.len() as int;
    if s.entries.len() <= 15 {
        assert(shown.skip(3) == entries_spans(s.entries));
    } else {
        assert(shown.subrange(3, n - 1) == entries_spans(s.entries.take(15)));
    }
}

/// A steadier figure is advised where the window is shorter than ninety days.
pub proof fn lemma_short_windows_are_advised_against(spends: Seq<PodSpendView>, days: int, ppm: int)
    ensures
        ({
            let shown = budget_report(spends, days, ppm);
            let n = shown.len() as int;
            &&& n == comparisons(spends, days, ppm).len() + 5
            &&& shown.subrange(2, n - 3) == comparisons(spends, days, ppm)
            &&& shown[n - 2].0 == "(card + ACH spend; rates projected from a "@ + decimal(days as nat) + (if days >= 90 {
                "d window)"@
            } else {
                "d window — use `--days 90` for a steadier figure)"@
            })
        }),
{
    let shown = budget_report(spends, days, ppm);
    let n = shown.len() as int;
    assert(shown.subrange(2, n - 3) == comparisons(spends, days, ppm));
}

/// A row is labelled by what stands before the first ` | `: of a card row's
/// description, or of a transfer's destination.
pub proof fn lemma_rows_are_labelled_briefly(t: Transaction, u: Transfer, text: Seq<char>)
    ensures
        card_entry(t).label == short_label(t.description@),
        card_entry(t).status == status_text(t.status),
        u.destination matches Some(d) ==> ach_entry(u).label == short_label(d.name@),
        ach_entry(u).status == status_text(u.status),
        short_label(text).len() <= text.len(),
        text.take(short_label(text).len() as int) == short_label(text),
        !contains_text(short_label(text), " | "@),
        short_label(text) == text || occurs_at(text, " | "@, short_label(text).len() as int),
{
    reveal_strlit(" | ");
    lemma_pieces_make_up_the_text(text, " | "@);
    lemma_a_search_finds_the_first_place(text, " | "@, 0);
    let first = split(text, " | "@)[0];
    if first_at(text, " | "@, 0) is None {
        assert(first == text);
    }
    assert(text.take(first.len() as int) == first);
}

/// A pod is compared at a month of what it spent in the window: the window's spend a day
/// times 30.44 days, to the cent and rounded toward zero. One that is no bill shows just
/// that.
pub proof fn lemma_pods_are_compared_by_the_month(s: PodSpendView, days: int, ppm: int)
    requires
        days > 0,
        total_of(s) >= 0,
        run_rate(total_of(s), days) <= i64::MAX,
    ensures
        actual_monthly(s, days) * (days * 100) <= total_of(s) * 3044 < (actual_monthly(s, days) + 1) * (days * 100),
        derived(s.pod_name) matches Some(bill) ==> compare_spans(s, days, ppm) == budget_spans(
            bill,
            actual_monthly(s, days),
            ppm,
        ),
        derived(s.pod_name) is None ==> compare_spans(s, days, ppm)[0].0 == "  "@ + left(at_most(s.pod_name, 20), 20)
            + " actual "@ + right(dollars_text(actual_monthly(s, days)), 10) + "/mo   (not a budgeted bill)"@,
{
    let rate = run_rate(total_of(s), days);
    lemma_run_rate_is_a_month_of_the_window(total_of(s), days);
    assert(0 <= rate) by (nonlinear_arith)
        requires
            days > 0,
            total_of(s) >= 0,
            total_of(s) * 3044 < (rate + 1) * (days * 100),
    ;
}

} // verus!
