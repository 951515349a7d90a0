//! What a read of the API means: which dates, statuses and balances count, decided once.

use crate::api::{Transaction, Transfer, TransferStatus};
use crate::cards::{ach_outflow, ach_outflow_cents, fits, net_spend, net_spend_cents};
use crate::date::{date_named, date_text, lemma_written_days_are_read_back, year_of, Date};
use crate::ledger::PodAmounts;
use crate::text::{byte_prefix, first_bytes, is_digit};
use vstd::prelude::*;

verus! {

/// The day that an API timestamp starts with.
pub open spec fn leading_date(s: Seq<char>) -> Option<i32> {
    match byte_prefix(s, 10) {
        Some(day) => date_named(day, "%Y-%m-%d"@),
        None => None,
    }
}

/// Parse the leading `YYYY-MM-DD` of an API timestamp.
pub fn parse_date(s: &str) -> (date: Option<Date>)
    ensures
        match date {
            Some(d) => leading_date(s@) is Some && leading_date(s@)->0 == d@,
            None => leading_date(s@) is None,
        },
{
    match first_bytes(s, 10) {
        Some(day) => Date::parse_from_str(day.as_str(), "%Y-%m-%d"),
        None => None,
    }
}

/// The day of a timestamp as it is shown: its first ten bytes.
pub open spec fn shown_day(s: Seq<char>) -> Seq<char> {
    match byte_prefix(s, 10) {
        Some(day) => day,
        None => Seq::empty(),
    }
}

pub(crate) fn show_day(s: &str) -> (day: String)
    ensures
        day@ == shown_day(s@),
{
    match first_bytes(s, 10) {
        Some(day) => day,
        None => String::new(),
    }
}

/// A transfer that actually moved money. Everything else — pending, failed,
/// bounced, cancelled — is an intention, not spend or income.
pub fn settled(t: &Transfer) -> (moved: bool)
    ensures
        moved == (t.status is Complete),
{
    match t.status {
        TransferStatus::Complete => true,
        _ => false,
    }
}

/// The balances of some accounts: a missing one is nothing.
pub open spec fn balances_map(ids: Seq<String>, cents: Seq<Option<i64>>) -> Map<Seq<char>, i64>
    decreases ids.len(),
{
    if ids.len() == 0 {
        Map::empty()
    } else {
        balances_map(ids.drop_last(), cents.drop_last()).insert(
            ids.last()@,
            match cents.last() {
                Some(c) => c,
                None => 0,
            },
        )
    }
}

/// Per-account balances in cents, from the balance fields read in order. A missing
/// balance field is $0 (an empty pod).
pub fn balances(ids: &Vec<String>, cents: &Vec<Option<i64>>) -> (amounts: PodAmounts)
    requires
        ids@.len() == cents@.len(),
    ensures
        amounts@ == balances_map(ids@, cents@),
{
    let mut amounts = PodAmounts::new();
    let mut i: usize = 0;
    while i < ids.len()
        invariant
            i <= ids@.len(),
            ids@.len() == cents@.len(),
            amounts@ == balances_map(ids@.take(i as int), cents@.take(i as int)),
        decreases ids@.len() - i,
    {
        assert(ids@.take(i + 1).drop_last() == ids@.take(i as int));
        assert(cents@.take(i + 1).drop_last() == cents@.take(i as int));
        let balance: i64 = match cents[i] {
            Some(c) => c,
            None => 0,
        };
        amounts.insert(ids[i].clone(), balance);
        i += 1;
    }
    assert(ids@.take(i as int) == ids@);
    assert(cents@.take(i as int) == cents@);
    amounts
}

/// The page after one.
pub open spec fn page_after(page: int, has_next_page: bool, items: int) -> Option<int> {
    if has_next_page && items > 0 {
        Some(page + 1)
    } else {
        None
    }
}

/// Pages are read one by one, none skipped, until one is the last or empty.
pub proof fn lemma_pages_are_read_one_by_one(page: int, has_next_page: bool, items: int)
    requires
        items >= 0,
    ensures
        page_after(page, has_next_page, items) is None <==> !has_next_page || items == 0,
        page_after(page, has_next_page, items) matches Some(next) ==> next - page == 1,
{
}

/// The page to ask for after one, none where it was the last: the listing says that
/// there are more and this one was not empty.
pub fn next_page(page: u32, has_next_page: bool, items: usize) -> (next: Option<u32>)
    requires
        page < u32::MAX,
    ensures
        match next {
            Some(n) => page_after(page as int, has_next_page, items as int) == Some(n as int),
            None => page_after(page as int, has_next_page, items as int) is None,
        },
{
    if has_next_page && items > 0 {
        Some(page + 1)
    } else {
        None
    }
}

/// Total money OUT of a pod: net card spend + settled ACH.
/// (The summers in `cards` count only COMPLETE rows.)
pub fn outflow_cents(txns: &[Transaction], transfers: &[Transfer]) -> (cents: i64)
    requires
        fits(net_spend(txns@)),
        fits(ach_outflow(transfers@)),
        fits(net_spend(txns@) + ach_outflow(transfers@)),
    ensures
        cents == net_spend(txns@) + ach_outflow(transfers@),
{
    net_spend_cents(txns) + ach_outflow_cents(transfers)
}

/// Every account that was asked for has its balance, a missing one nothing; of an
/// account asked for twice the later reading counts; and no other account has one.
pub proof fn lemma_balances_are_those_read(ids: Seq<String>, cents: Seq<Option<i64>>, i: int)
    requires
        ids.len() == cents.len(),
        0 <= i < ids.len(),
        forall|j: int| i < j < ids.len() ==> (#[trigger] ids[j])@ != ids[i]@,
    ensures
        balances_map(ids, cents).dom().contains(ids[i]@),
        cents[i] matches Some(c) ==> balances_map(ids, cents)[ids[i]@] == c,
        cents[i] is None ==> balances_map(ids, cents)[ids[i]@] == 0,
        forall|id: Seq<char>|
            #[trigger] balances_map(ids, cents).dom().contains(id) ==> exists|j: int|
                0 <= j < ids.len() && (#[trigger] ids[j])@ == id,
    decreases ids.len(),
{
    lemma_only_read_balances(ids, cents);
    let last = ids.len() - 1;
    if i < last {
        assert(ids[last]@ != ids[i]@);
        lemma_balances_are_those_read(ids.drop_last(), cents.drop_last(), i);
    }
}

proof fn lemma_only_read_balances(ids: Seq<String>, cents: Seq<Option<i64>>)
    requires
        ids.len() == cents.len(),
    ensures
        forall|id: Seq<char>|
            #[trigger] balances_map(ids, cents).dom().contains(id) ==> exists|j: int|
                0 <= j < ids.len() && (#[trigger] ids[j])@ == id,
    decreases ids.len(),
{
    if ids.len() > 0 {
        let rest = ids.drop_last();
        lemma_only_read_balances(rest, cents.drop_last());
        assert forall|id: Seq<char>| #[trigger] balances_map(ids, cents).dom().contains(id) implies exists|j: int|
            0 <= j < ids.len() && (#[trigger] ids[j])@ == id by {
            if id == ids.last()@ {
                assert(ids[ids.len() - 1]@ == id);
            } else {
                assert(balances_map(rest, cents.drop_last()).dom().contains(id));
                let j = choose|j: int| 0 <= j < rest.len() && (#[trigger] rest[j])@ == id;
                assert(ids[j]@ == id);
            }
        }
    }
}

proof fn lemma_prefix_of_ascii(a: Seq<char>, b: Seq<char>)
    requires
        forall|i: int| 0 <= i < a.len() ==> (#[trigger] a[i] as u32) < 0x80,
    ensures
        byte_prefix(a + b, a.len() as int) == Some(a),
    decreases a.len(),
{
    if a.len() > 0 {
        let s = a + b;
        assert((a[0] as u32) < 0x80);
        assert forall|i: int| 0 <= i < a.drop_first().len() implies (#[trigger] a.drop_first()[i] as u32) < 0x80 by {
            assert((a[i + 1] as u32) < 0x80);
        }
        lemma_prefix_of_ascii(a.drop_first(), b);
        assert(s.drop_first() == a.drop_first() + b);
        assert(seq![a[0]] + a.drop_first() == a);
    }
}

/// A timestamp falls on the day that it starts with, whatever follows.
pub proof fn lemma_timestamps_fall_on_their_day(number: i32, rest: Seq<char>)
    requires
        0 <= year_of(number as int) <= 9999,
    ensures
        leading_date(date_text(number) + rest) == Some(number),
        shown_day(date_text(number) + rest) == date_text(number),
{
    let day = date_text(number);
    lemma_written_days_are_read_back(number);
    assert forall|i: int| 0 <= i < day.len() implies (#[trigger] day[i] as u32) < 0x80 by {
        assert(if i == 4 || i == 7 { day[i] == '-' } else { is_digit(day[i]) });
    }
    lemma_prefix_of_ascii(day, rest);
}

} // verus!
