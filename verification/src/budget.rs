//! Assemble the live budget and account for *every* pod: turn Sequence pods +
//! the onboarding file into the `Budget` the allocator plans against, classifying
//! the rest (unschedulable bills, old-naming pods, non-bills) so nothing is dropped.

use crate::api::{AccountSummary, AccountType, Rule, RuleAction, RuleActionKind, RuleStep};
use crate::assess::OutOfRange;
use crate::date::date_text;
use crate::derive::{
    day_in_month, derive_bill, derived, due_day_number, group_marker, is_group_marker, name_fits, name_in_range, parens_fit,
    parens_in_range, parse, parse_scheme, scheme_fits, scheme_in_range,
    parsed, scheme, text_view, DerivedBillView, Frequency, FrequencyView, Parsed, ParsedView,
};
use crate::model::{texts, views, Bill, BillView, Budget, BudgetView, Category, CategoryView};
use crate::money::{dollars, dollars_text, dollars_wide};
use crate::state::State;
use crate::text::{decimal, is_before, joined, lemma_text_order, push_decimal, same_text, text_before};
use vstd::prelude::*;
use vstd::string::StringExecFns;

verus! {

// ---- The buffer ----

/// What a bill is funded to: with the cushion, but for per-paycheck contributions
/// and kept levels.
pub open spec fn buffered_amount(amount: int, freq: FrequencyView, cushioned: int) -> int {
    if freq is Paycheck || freq is Keep {
        amount
    } else {
        cushioned
    }
}

/// Add the safety buffer to a bill's amount — except per-paycheck contributions
/// and kept levels, which are chosen amounts, not bills to over-cover. `cushioned`
/// is the amount with the buffer on it, rounded up to the cent.
pub fn buffered(amount: i64, freq: &Frequency, cushioned: i64) -> (cents: i64)
    ensures
        cents == buffered_amount(amount as int, freq@, cushioned as int),
{
    match freq {
        Frequency::Paycheck | Frequency::Keep => amount,
        _ => cushioned,
    }
}

/// The amount that a pod's name declares, where the pod is funded as a bill.
pub open spec fn declared(name: Seq<char>) -> Option<int> {
    match scheme(name) {
        Some(b) => Some(b.amount_cents),
        None => match parsed(name) {
            ParsedView::Bill { amount_cents, .. } => Some(amount_cents),
            _ => None,
        },
    }
}

/// What each account declares, where it is a pod: what the buffer is added to. Or a
/// number in a pod's name is out of range.
pub fn declared_amounts(accounts: &Vec<AccountSummary>) -> (found: Result<Vec<Option<i64>>, OutOfRange>)
    ensures
        match found {
            Ok(amounts) => pods_are_readable(accounts@) && amounts@.len() == accounts@.len() && forall|i: int|
                0 <= i < accounts@.len() ==> optional_cents(#[trigger] amounts@[i]) == declared_by(accounts@[i]),
            Err(_) => !pods_are_readable(accounts@),
        },
{
    let mut amounts: Vec<Option<i64>> = Vec::new();
    let mut i: usize = 0;
    while i < accounts.len()
        invariant
            i <= accounts@.len(),
            amounts@.len() == i,
            forall|j: int|
                0 <= j < i && accounts@[j].account_type == AccountType::Pod ==> name_fits(
                    (#[trigger] accounts@[j]).name@,
                ),
            forall|j: int| 0 <= j < i ==> optional_cents(#[trigger] amounts@[j]) == declared_by(accounts@[j]),
        decreases accounts@.len() - i,
    {
        let a = &accounts[i];
        if a.account_type == AccountType::Pod {
            if !name_in_range(a.name.as_str()) {
                assert(!name_fits(accounts@[i as int].name@));
                return Err(OutOfRange);
            }
            amounts.push(declared_cents(a.name.as_str()));
        } else {
            amounts.push(None);
        }
        i += 1;
    }
    Ok(amounts)
}

pub open spec fn optional_cents(cents: Option<i64>) -> Option<int> {
    match cents {
        Some(c) => Some(c as int),
        None => None,
    }
}

/// What an account declares, where it is a pod.
pub open spec fn declared_by(a: AccountSummary) -> Option<int> {
    if a.account_type == AccountType::Pod {
        declared(a.name@)
    } else {
        None
    }
}

/// The numbers in the names of all pods fit in machine numbers.
pub open spec fn pods_are_readable(accounts: Seq<AccountSummary>) -> bool {
    forall|i: int|
        0 <= i < accounts.len() && accounts[i].account_type == AccountType::Pod ==> name_fits(
            (#[trigger] accounts[i]).name@,
        )
}

/// The amount that a pod's name declares: what the buffer is added to.
pub fn declared_cents(name: &str) -> (cents: Option<i64>)
    requires
        name_fits(name@),
    ensures
        match cents {
            Some(c) => declared(name@) == Some(c as int),
            None => declared(name@) is None,
        },
{
    if let Some(b) = parse_scheme(name) {
        return Some(b.amount_cents);
    }
    match parse(name) {
        Parsed::Bill { amount_cents, .. } => Some(amount_cents),
        _ => None,
    }
}

// ---- One pod's place ----

/// A frequency written out.
pub open spec fn frequency_text(freq: FrequencyView) -> Seq<char> {
    match freq {
        FrequencyView::Month => "Month"@,
        FrequencyView::Quarter => "Quarter"@,
        FrequencyView::Year => "Year"@,
        FrequencyView::Paycheck => "Paycheck"@,
        FrequencyView::Drawdown { target, period_months } => "Drawdown { target: "@ + date_text(target as i32)
            + ", period_months: "@ + decimal(period_months as nat) + " }"@,
        FrequencyView::Keep => "Keep"@,
    }
}

fn write_frequency(freq: &Frequency) -> (text: String)
    ensures
        text@ == frequency_text(freq@),
{
    match freq {
        Frequency::Month => "Month".to_owned(),
        Frequency::Quarter => "Quarter".to_owned(),
        Frequency::Year => "Year".to_owned(),
        Frequency::Paycheck => "Paycheck".to_owned(),
        Frequency::Drawdown { target, period_months } => {
            let mut text = "Drawdown { target: ".to_owned();
            text.append(target.text().as_str());
            text.append(", period_months: ");
            push_decimal(&mut text, *period_months as u128);
            text.append(" }");
            text
        },
        Frequency::Keep => "Keep".to_owned(),
    }
}

/// What becomes of one account.
pub enum Place {
    /// No pod.
    Aside,
    /// A bill to fund.
    Funded { group: Option<String>, bill: Bill, old_name: bool },
    /// A bill that can't be scheduled, with the reason.
    NotFunded { line: String },
    /// A group pod.
    Group { marked: bool },
    /// Not a bill.
    Ignored,
}

pub ghost enum PlaceView {
    Aside,
    Funded { group: Option<Seq<char>>, bill: BillView, old_name: bool },
    NotFunded { line: Seq<char> },
    Group { marked: bool },
    Ignored,
}

impl View for Place {
    type V = PlaceView;

    open spec fn view(&self) -> PlaceView {
        match self {
            Place::Aside => PlaceView::Aside,
            Place::Funded { group, bill, old_name } => PlaceView::Funded {
                group: text_view(*group),
                bill: bill@,
                old_name: *old_name,
            },
            Place::NotFunded { line } => PlaceView::NotFunded { line: line@ },
            Place::Group { marked } => PlaceView::Group { marked: *marked },
            Place::Ignored => PlaceView::Ignored,
        }
    }
}

/// What becomes of an account: the pool is no bill, and of every other pod the name
/// decides, by the new scheme first, then by the old one.
pub open spec fn place(a: AccountSummary, cushioned: int, pool: Seq<char>) -> PlaceView {
    if a.account_type != AccountType::Pod {
        PlaceView::Aside
    } else if a.id@ == pool {
        PlaceView::Ignored
    } else {
        match scheme(a.name@) {
            Some(b) => {
                let due_day = day_in_month(b.due_day);
                if due_day is Some && !(b.frequency is Month) {
                    PlaceView::NotFunded {
                        line: a.name@ + " — due day + "@ + frequency_text(b.frequency)
                            + " (drop the day for a sinking fund, or use a date)"@,
                    }
                } else {
                    PlaceView::Funded {
                        group: b.group,
                        bill: BillView {
                            name: b.name,
                            pod_id: a.id@,
                            amount_cents: buffered_amount(b.amount_cents, b.frequency, cushioned),
                            due_day,
                            frequency: b.frequency,
                        },
                        old_name: false,
                    }
                }
            },
            None => match parsed(a.name@) {
                ParsedView::Bill { name, due_day, .. } => PlaceView::Funded {
                    group: None,
                    bill: BillView {
                        name,
                        pod_id: a.id@,
                        amount_cents: cushioned,
                        due_day: Some(due_day),
                        frequency: FrequencyView::Month,
                    },
                    old_name: true,
                },
                ParsedView::BillNoDueDay { .. } => PlaceView::NotFunded {
                    line: a.name@ + " — no due day (add a day, or a frequency)"@,
                },
                ParsedView::Category { .. } => PlaceView::Group { marked: group_marker(a.name@) },
                ParsedView::Skip => PlaceView::Ignored,
            },
        }
    }
}

fn place_account(a: &AccountSummary, cushioned: i64, pool: &str) -> (found: Place)
    requires
        a.account_type == AccountType::Pod ==> parens_fit(a.name@) && (a.id@ != pool@ ==> scheme_fits(a.name@)),
    ensures
        found@ == place(*a, cushioned as int, pool@),
{
    if a.account_type != AccountType::Pod {
        return Place::Aside;
    }
    // the pool funds the bills, whatever its name
    if same_text(a.id.as_str(), pool) {
        return Place::Ignored;
    }
    let name = a.name.as_str();
    // New scheme first.
    if let Some(b) = parse_scheme(name) {
        let due_day = due_day_number(b.due_day);
        let monthly = match b.frequency {
            Frequency::Month => true,
            _ => false,
        };
        if due_day.is_some() && !monthly {
            let mut line = a.name.clone();
            line.append(" — due day + ");
            line.append(write_frequency(&b.frequency).as_str());
            line.append(" (drop the day for a sinking fund, or use a date)");
            return Place::NotFunded { line };
        }
        return Place::Funded {
            group: b.group,
            bill: Bill {
                name: b.name,
                pod_id: a.id.clone(),
                amount_cents: buffered(b.amount_cents, &b.frequency, cushioned),
                due_day,
                frequency: b.frequency,
            },
            old_name: false,
        };
    }
    // Old scheme.
    match parse(name) {
        Parsed::Bill { name, amount_cents, due_day } => Place::Funded {
            group: None,
            bill: Bill {
                name,
                pod_id: a.id.clone(),
                amount_cents: buffered(amount_cents, &Frequency::Month, cushioned),
                due_day: Some(due_day),
                frequency: Frequency::Month,
            },
            old_name: true,
        },
        Parsed::BillNoDueDay { .. } => Place::NotFunded {
            line: joined(name, " — no due day (add a day, or a frequency)"),
        },
        Parsed::Category { .. } => Place::Group { marked: is_group_marker(name) },
        Parsed::Skip => Place::Ignored,
    }
}

// ---- Every pod's place ----

pub open spec fn places(accounts: Seq<AccountSummary>, cushioned: Seq<i64>, pool: Seq<char>) -> Seq<PlaceView> {
    Seq::new(accounts.len(), |i: int| place(accounts[i], cushioned[i] as int, pool))
}

/// The bills that can't be scheduled, each with the reason.
pub open spec fn not_funded_lines(places: Seq<PlaceView>) -> Seq<Seq<char>>
    decreases places.len(),
{
    if places.len() == 0 {
        Seq::empty()
    } else {
        let rest = not_funded_lines(places.drop_last());
        match places.last() {
            PlaceView::NotFunded { line } => rest.push(line),
            _ => rest,
        }
    }
}

/// The line that asks for a pod to be renamed, where one is due.
pub open spec fn rename_line(name: Seq<char>, place: PlaceView) -> Option<Seq<char>> {
    match place {
        PlaceView::Funded { old_name, .. } => if old_name { Some(name) } else { None },
        // `G:` is target naming; only old `(total/half)` needs migrating
        PlaceView::Group { marked } => if marked {
            None
        } else {
            Some(name + " (group pod — rename to `G: …`)"@)
        },
        _ => None,
    }
}

/// The pods that are funded, or group bills, under an old name.
pub open spec fn rename_lines(accounts: Seq<AccountSummary>, places: Seq<PlaceView>) -> Seq<Seq<char>>
    decreases places.len(),
{
    if places.len() == 0 {
        Seq::empty()
    } else {
        let rest = rename_lines(accounts, places.drop_last());
        match rename_line(accounts[places.len() - 1].name@, places.last()) {
            Some(line) => rest.push(line),
            None => rest,
        }
    }
}

/// The names of the pods that are not bills.
pub open spec fn ignored_names(accounts: Seq<AccountSummary>, places: Seq<PlaceView>) -> Seq<Seq<char>>
    decreases places.len(),
{
    if places.len() == 0 {
        Seq::empty()
    } else {
        let rest = ignored_names(accounts, places.drop_last());
        if places.last() is Ignored {
            rest.push(accounts[places.len() - 1].name@)
        } else {
            rest
        }
    }
}

/// The pod of a group: the first that is named for it.
pub open spec fn group_pod(accounts: Seq<AccountSummary>, group: Seq<char>) -> Option<Seq<char>>
    decreases accounts.len(),
{
    if accounts.len() == 0 {
        None
    } else {
        match group_pod(accounts.drop_last(), group) {
            Some(pod) => Some(pod),
            None => {
                let a = accounts.last();
                if a.account_type == AccountType::Pod && parsed(a.name@) == (ParsedView::Category { name: group }) {
                    Some(a.id@)
                } else {
                    None
                }
            },
        }
    }
}

// ---- Groups ----

/// Bills without a group come first, then the groups in the order of their names.
pub open spec fn key_before(a: Option<Seq<char>>, b: Option<Seq<char>>) -> bool {
    match (a, b) {
        (None, Some(_)) => true,
        (Some(x), Some(y)) => text_before(x, y),
        _ => false,
    }
}

/// How many of the leading keys stand before `key`.
pub open spec fn key_position(keys: Seq<Option<Seq<char>>>, key: Option<Seq<char>>) -> int
    decreases keys.len(),
{
    if keys.len() == 0 || !key_before(keys[0], key) {
        0
    } else {
        1 + key_position(keys.drop_first(), key)
    }
}

/// The keys with `key` among them, once, in its place.
pub open spec fn with_key(keys: Seq<Option<Seq<char>>>, key: Option<Seq<char>>) -> Seq<Option<Seq<char>>> {
    let p = key_position(keys, key);
    if p < keys.len() && keys[p] == key {
        keys
    } else {
        keys.insert(p, key)
    }
}

/// The groups of the funded bills, each once, in order.
pub open spec fn group_keys(places: Seq<PlaceView>) -> Seq<Option<Seq<char>>>
    decreases places.len(),
{
    if places.len() == 0 {
        Seq::empty()
    } else {
        let rest = group_keys(places.drop_last());
        match places.last() {
            PlaceView::Funded { group, .. } => with_key(rest, group),
            _ => rest,
        }
    }
}

/// The funded bills of one group, in order.
pub open spec fn bills_in(places: Seq<PlaceView>, key: Option<Seq<char>>) -> Seq<BillView>
    decreases places.len(),
{
    if places.len() == 0 {
        Seq::empty()
    } else {
        let rest = bills_in(places.drop_last(), key);
        match places.last() {
            PlaceView::Funded { group, bill, .. } => if group == key { rest.push(bill) } else { rest },
            _ => rest,
        }
    }
}

pub open spec fn group_name(key: Option<Seq<char>>) -> Seq<char> {
    match key {
        Some(group) => group,
        None => "(ungrouped)"@,
    }
}

/// A group's category: its bills route through the group's pod; bills without a
/// group, or whose group has no pod, are funded from the pool.
pub open spec fn category_of(
    key: Option<Seq<char>>,
    places: Seq<PlaceView>,
    accounts: Seq<AccountSummary>,
    pool: Seq<char>,
) -> CategoryView {
    CategoryView {
        name: group_name(key),
        pod_id: match key {
            Some(group) => match group_pod(accounts, group) {
                Some(pod) => pod,
                None => pool,
            },
            None => pool,
        },
        bills: bills_in(places, key),
    }
}

/// The groups whose bills are funded from the pool for want of a pod.
pub open spec fn group_warnings(keys: Seq<Option<Seq<char>>>, accounts: Seq<AccountSummary>) -> Seq<Seq<char>>
    decreases keys.len(),
{
    if keys.len() == 0 {
        Seq::empty()
    } else {
        let rest = group_warnings(keys.drop_last(), accounts);
        match keys.last() {
            Some(group) => if group_pod(accounts, group) is None {
                rest.push("no group pod for '"@ + group + "' — funding its bills from the pool"@)
            } else {
                rest
            },
            None => rest,
        }
    }
}

pub struct Assembled {
    pub budget: Budget,
    /// Recognized as a bill but not schedulable yet — name needs fixing.
    pub not_funded: Vec<String>,
    /// Funded, but still on the old naming (or a group pod to migrate).
    pub migrate: Vec<String>,
    /// Not a bill — savings, the pool, debt buffers, spending, etc.
    pub ignored: Vec<String>,
    /// Assembly issues (e.g. a group with no group pod).
    pub warnings: Vec<String>,
}

pub ghost struct AssembledView {
    pub budget: BudgetView,
    pub not_funded: Seq<Seq<char>>,
    pub migrate: Seq<Seq<char>>,
    pub ignored: Seq<Seq<char>>,
    pub warnings: Seq<Seq<char>>,
}

impl View for Assembled {
    type V = AssembledView;

    open spec fn view(&self) -> AssembledView {
        AssembledView {
            budget: self.budget@,
            not_funded: texts(self.not_funded@),
            migrate: texts(self.migrate@),
            ignored: texts(self.ignored@),
            warnings: texts(self.warnings@),
        }
    }
}

/// The pool that income flows into, where onboarding found one.
pub open spec fn pool_of(file: Option<&State>) -> Option<Seq<char>> {
    match file {
        Some(f) => if f.pools@.len() > 0 { Some(f.pools@[0].pod_id@) } else { None },
        None => None,
    }
}

/// The pod that bills are funded from: none has an empty id.
pub open spec fn pool_id(file: Option<&State>) -> Seq<char> {
    match pool_of(file) {
        Some(pool) => pool,
        None => Seq::empty(),
    }
}

/// The budget and the full accounting of pods.
pub open spec fn assembled(accounts: Seq<AccountSummary>, file: Option<&State>, cushioned: Seq<i64>) -> AssembledView {
    let pool = pool_id(file);
    let placed = places(accounts, cushioned, pool);
    let keys = group_keys(placed);
    AssembledView {
        budget: BudgetView {
            pool_pod_id: pool,
            categories: Seq::new(keys.len(), |i: int| category_of(keys[i], placed, accounts, pool)),
        },
        not_funded: not_funded_lines(placed),
        migrate: rename_lines(accounts, placed),
        ignored: ignored_names(accounts, placed),
        warnings: (if pool_of(file) is None {
            seq!["no income pool detected — run `discover` first"@]
        } else {
            Seq::empty()
        }) + group_warnings(keys, accounts),
    }
}

fn same_key(a: &Option<String>, b: &Option<String>) -> (same: bool)
    ensures
        same == (text_view(*a) == text_view(*b)),
{
    match (a, b) {
        (Some(x), Some(y)) => same_text(x.as_str(), y.as_str()),
        (None, None) => true,
        _ => false,
    }
}

fn is_key_before(a: &Option<String>, b: &Option<String>) -> (before: bool)
    ensures
        before == key_before(text_view(*a), text_view(*b)),
{
    match (a, b) {
        (None, Some(_)) => true,
        (Some(x), Some(y)) => is_before(x.as_str(), y.as_str()),
        _ => false,
    }
}

fn copy_key(key: &Option<String>) -> (copy: Option<String>)
    ensures
        text_view(copy) == text_view(*key),
{
    match key {
        Some(group) => Some(group.clone()),
        None => None,
    }
}

spec fn key_views(keys: Seq<Option<String>>) -> Seq<Option<Seq<char>>> {
    Seq::new(keys.len(), |i: int| text_view(keys[i]))
}

proof fn lemma_key_position_is_in_range(keys: Seq<Option<Seq<char>>>, key: Option<Seq<char>>)
    ensures
        0 <= key_position(keys, key) <= keys.len(),
        forall|i: int| 0 <= i < key_position(keys, key) ==> key_before(#[trigger] keys[i], key),
        key_position(keys, key) < keys.len() ==> !key_before(keys[key_position(keys, key)], key),
    decreases keys.len(),
{
    if keys.len() > 0 && key_before(keys[0], key) {
        lemma_key_position_is_in_range(keys.drop_first(), key);
        assert forall|i: int| 0 <= i < key_position(keys, key) implies key_before(#[trigger] keys[i], key) by {
            if i > 0 {
                assert(keys[i] == keys.drop_first()[i - 1]);
            }
        }
    }
}

fn add_key(keys: &mut Vec<Option<String>>, key: &Option<String>)
    ensures
        key_views(final(keys)@) == with_key(key_views(old(keys)@), text_view(*key)),
{
    let ghost all = key_views(keys@);
    let ghost k = text_view(*key);
    let mut p: usize = 0;
    assert(all.skip(0) == all);
    while p < keys.len() && is_key_before(&keys[p], key)
        invariant
            p <= keys@.len(),
            keys@ == old(keys)@,
            all == key_views(keys@),
            k == text_view(*key),
            key_position(all, k) == p + key_position(all.skip(p as int), k),
        decreases keys@.len() - p,
    {
        assert(all.skip(p as int)[0] == text_view(keys@[p as int]));
        assert(all.skip(p as int).drop_first() == all.skip(p + 1));
        p += 1;
    }
    proof {
        if p < all.len() {
            assert(all.skip(p as int)[0] == text_view(keys@[p as int]));
        }
        assert(key_position(all, k) == p);
    }
    if p < keys.len() && same_key(&keys[p], key) {
        return;
    }
    let copy = copy_key(key);
    keys.insert(p, copy);
    assert(key_views(keys@) == all.insert(p as int, k));
}

fn find_group_pod(accounts: &Vec<AccountSummary>, group: &str, Ghost(pool): Ghost<Seq<char>>) -> (pod: Option<String>)
    requires
        pod_names_fit(accounts@, pool),
    ensures
        text_view(pod) == group_pod(accounts@, group@),
{
    let mut i: usize = 0;
    while i < accounts.len()
        invariant
            i <= accounts@.len(),
            pod_names_fit(accounts@, pool),
            group_pod(accounts@.take(i as int), group@) is None,
        decreases accounts@.len() - i,
    {
        let a = &accounts[i];
        assert(accounts@.take(i + 1).drop_last() == accounts@.take(i as int));
        if a.account_type == AccountType::Pod {
            if let Parsed::Category { name } = parse(a.name.as_str()) {
                if same_text(name.as_str(), group) {
                    proof {
                        lemma_group_pod_stays(accounts@, group@, i + 1);
                    }
                    return Some(a.id.clone());
                }
            }
        }
        i += 1;
    }
    assert(accounts@.take(i as int) == accounts@);
    None
}

proof fn lemma_group_pod_stays(accounts: Seq<AccountSummary>, group: Seq<char>, n: int)
    requires
        0 <= n <= accounts.len(),
        group_pod(accounts.take(n), group) is Some,
    ensures
        group_pod(accounts, group) == group_pod(accounts.take(n), group),
    decreases accounts.len() - n,
{
    if n < accounts.len() {
        assert(accounts.take(n + 1).drop_last() == accounts.take(n));
        lemma_group_pod_stays(accounts, group, n + 1);
    } else {
        assert(accounts.take(n) == accounts);
    }
}

fn copy_bill(bill: &Bill) -> (copy: Bill)
    ensures
        copy@ == bill@,
{
    Bill {
        name: bill.name.clone(),
        pod_id: bill.pod_id.clone(),
        amount_cents: bill.amount_cents,
        due_day: bill.due_day,
        frequency: bill.frequency,
    }
}

fn collect_bills(placed: &Vec<Place>, key: &Option<String>) -> (bills: Vec<Bill>)
    ensures
        views(bills@) == bills_in(views(placed@), text_view(*key)),
{
    let ghost all = views(placed@);
    let ghost k = text_view(*key);
    let mut bills: Vec<Bill> = Vec::new();
    let mut i: usize = 0;
    assert(views(bills@) == bills_in(all.take(0), k));
    while i < placed.len()
        invariant
            i <= placed@.len(),
            all == views(placed@),
            k == text_view(*key),
            views(bills@) == bills_in(all.take(i as int), k),
        decreases placed@.len() - i,
    {
        assert(all.take(i + 1).drop_last() == all.take(i as int));
        assert(all[i as int] == placed@[i as int]@);
        if let Place::Funded { group, bill, .. } = &placed[i] {
            if same_key(group, key) {
                let ghost held = bills@;
                let copy = copy_bill(bill);
                bills.push(copy);
                assert(views(bills@) == views(held).push(copy@));
            }
        }
        i += 1;
    }
    assert(all.take(i as int) == all);
    bills
}

/// The numbers that assembly reads in the pods' names fit in machine numbers: every
/// name may be a group's by the old scheme, and every pod but the pool may be a bill.
pub open spec fn pod_names_fit(accounts: Seq<AccountSummary>, pool: Seq<char>) -> bool {
    forall|i: int|
        0 <= i < accounts.len() && accounts[i].account_type == AccountType::Pod ==> parens_fit(
            (#[trigger] accounts[i]).name@,
        ) && (accounts[i].id@ != pool ==> scheme_fits(accounts[i].name@))
}

/// Whether the numbers that assembly reads in the pods' names fit in machine numbers.
pub fn pod_names_in_range(accounts: &Vec<AccountSummary>, pool: &str) -> (in_range: bool)
    ensures
        in_range == pod_names_fit(accounts@, pool@),
{
    let mut i: usize = 0;
    while i < accounts.len()
        invariant
            i <= accounts@.len(),
            pod_names_fit(accounts@.take(i as int), pool@),
        decreases accounts@.len() - i,
    {
        let a = &accounts[i];
        assert(accounts@.take(i + 1)[i as int] == a);
        if a.account_type == AccountType::Pod {
            if !parens_in_range(a.name.as_str()) || (!same_text(a.id.as_str(), pool) && !scheme_in_range(
                a.name.as_str(),
            )) {
                assert(accounts@[i as int] == a);
                return false;
            }
        }
        assert forall|j: int|
            0 <= j < i + 1 && accounts@.take(i + 1)[j].account_type == AccountType::Pod implies parens_fit(
            (#[trigger] accounts@.take(i + 1)[j]).name@,
        ) && (accounts@.take(i + 1)[j].id@ != pool@ ==> scheme_fits(accounts@.take(i + 1)[j].name@)) by {
            if j < i {
                assert(accounts@.take(i as int)[j] == accounts@.take(i + 1)[j]);
            }
        }
        i += 1;
    }
    assert(accounts@.take(i as int) == accounts@);
    true
}

/// The pod that bills are funded from: none has an empty id.
fn pool_in(file: Option<&State>) -> (pool: String)
    ensures
        pool@ == pool_id(file),
{
    if let Some(f) = file {
        if f.pools.len() > 0 {
            return f.pools[0].pod_id.clone();
        }
    }
    String::new()
}

/// The budget and the full accounting of pods, or a number in a pod's name is out of range.
pub fn checked_assembly(accounts: &Vec<AccountSummary>, file: Option<&State>, cushioned: &Vec<i64>) -> (found: Result<
    Assembled,
    OutOfRange,
>)
    requires
        cushioned@.len() == accounts@.len(),
    ensures
        match found {
            Ok(parts) => pod_names_fit(accounts@, pool_id(file)) && parts@ == assembled(accounts@, file, cushioned@),
            Err(_) => !pod_names_fit(accounts@, pool_id(file)),
        },
{
    if pod_names_in_range(accounts, pool_in(file).as_str()) {
        Ok(assemble(accounts, file, cushioned))
    } else {
        Err(OutOfRange)
    }
}

fn push_text(list: &mut Vec<String>, text: String)
    ensures
        texts(final(list)@) == texts(old(list)@).push(text@),
{
    list.push(text);
    assert(texts(list@) == texts(old(list)@).push(text@));
}

/// Build the budget and full pod accounting from the account list + onboarding
/// file. `cushioned` gives for each account what its name declares with the safety
/// buffer on it: the funding target of its bill (contributions exempt).
pub fn assemble(accounts: &Vec<AccountSummary>, file: Option<&State>, cushioned: &Vec<i64>) -> (found: Assembled)
    requires
        cushioned@.len() == accounts@.len(),
        pod_names_fit(accounts@, pool_id(file)),
    ensures
        found@ == assembled(accounts@, file, cushioned@),
{
    let mut warnings: Vec<String> = Vec::new();
    let mut not_funded: Vec<String> = Vec::new();
    let mut migrate: Vec<String> = Vec::new();
    let mut ignored: Vec<String> = Vec::new();

    let mut pool_pod_id = String::new();
    let mut pooled = false;
    if let Some(f) = file {
        if f.pools.len() > 0 {
            pool_pod_id = f.pools[0].pod_id.clone();
            pooled = true;
        }
    }
    assert(texts(warnings@) == Seq::<Seq<char>>::empty());
    if !pooled {
        push_text(&mut warnings, "no income pool detected — run `discover` first".to_owned());
    }
    let ghost pool = pool_id(file);
    assert(pool_pod_id@ == pool);
    let ghost no_pool = texts(warnings@);

    // Classify every pod.
    let ghost placed_all = places(accounts@, cushioned@, pool);
    let mut placed: Vec<Place> = Vec::new();
    let mut keys: Vec<Option<String>> = Vec::new();
    let mut i: usize = 0;
    assert(views(placed@) == placed_all.take(0));
    assert(key_views(keys@) == group_keys(placed_all.take(0)));
    assert(texts(not_funded@) == not_funded_lines(placed_all.take(0)));
    assert(texts(migrate@) == rename_lines(accounts@, placed_all.take(0)));
    assert(texts(ignored@) == ignored_names(accounts@, placed_all.take(0)));
    while i < accounts.len()
        invariant
            i <= accounts@.len(),
            cushioned@.len() == accounts@.len(),
            pod_names_fit(accounts@, pool),
            pool_pod_id@ == pool,
            placed_all == places(accounts@, cushioned@, pool),
            views(placed@) == placed_all.take(i as int),
            key_views(keys@) == group_keys(placed_all.take(i as int)),
            texts(not_funded@) == not_funded_lines(placed_all.take(i as int)),
            texts(migrate@) == rename_lines(accounts@, placed_all.take(i as int)),
            texts(ignored@) == ignored_names(accounts@, placed_all.take(i as int)),
        decreases accounts@.len() - i,
    {
        let a = &accounts[i];
        let found = place_account(a, cushioned[i], pool_pod_id.as_str());
        assert(placed_all.take(i + 1).drop_last() == placed_all.take(i as int));
        assert(placed_all.take(i + 1).last() == found@);
        match &found {
            Place::Aside => {},
            Place::Funded { group, old_name, .. } => {
                add_key(&mut keys, group);
                if *old_name {
                    push_text(&mut migrate, a.name.clone());
                }
            },
            Place::NotFunded { line } => {
                push_text(&mut not_funded, line.clone());
            },
            Place::Group { marked } => {
                if !*marked {
                    push_text(&mut migrate, joined(a.name.as_str(), " (group pod — rename to `G: …`)"));
                }
            },
            Place::Ignored => {
                push_text(&mut ignored, a.name.clone());
            },
        }
        let ghost held = placed@;
        placed.push(found);
        assert(views(placed@) == views(held).push(found@));
        assert(views(placed@) == placed_all.take(i + 1));
        i += 1;
    }
    assert(placed_all.take(i as int) == placed_all);

    // grouped bills route through their group pod; ungrouped (or no group pod) from the pool
    let ghost all_keys = group_keys(placed_all);
    let mut categories: Vec<Category> = Vec::new();
    let mut i: usize = 0;
    assert(texts(warnings@) == no_pool + group_warnings(all_keys.take(0), accounts@));
    while i < keys.len()
        invariant
            i <= keys@.len(),
            key_views(keys@) == all_keys,
            pod_names_fit(accounts@, pool),
            pool_pod_id@ == pool,
            views(placed@) == placed_all,
            views(categories@) == Seq::new(
                i as nat,
                |j: int| category_of(all_keys[j], placed_all, accounts@, pool),
            ),
            texts(warnings@) == no_pool + group_warnings(all_keys.take(i as int), accounts@),
        decreases keys@.len() - i,
    {
        let key = &keys[i];
        assert(all_keys[i as int] == text_view(*key));
        assert(all_keys.take(i + 1).drop_last() == all_keys.take(i as int));
        let bills = collect_bills(&placed, key);
        let category = match key {
            None => Category { name: "(ungrouped)".to_owned(), pod_id: pool_pod_id.clone(), bills },
            Some(g) => match find_group_pod(accounts, g.as_str(), Ghost(pool)) {
                Some(pod) => Category { name: g.clone(), pod_id: pod, bills },
                None => {
                    let mut warning = "no group pod for '".to_owned();
                    warning.append(g.as_str());
                    warning.append("' — funding its bills from the pool");
                    push_text(&mut warnings, warning);
                    Category { name: g.clone(), pod_id: pool_pod_id.clone(), bills }
                },
            },
        };
        let ghost held = categories@;
        categories.push(category);
        assert(category@ == category_of(all_keys[i as int], placed_all, accounts@, pool));
        assert(views(categories@) == views(held).push(category@));
        i += 1;
        assert(texts(warnings@) == no_pool + group_warnings(all_keys.take(i as int), accounts@));
    }
    assert(all_keys.take(i as int) == all_keys);
    let found = Assembled {
        budget: Budget { pool_pod_id, categories },
        not_funded,
        migrate,
        ignored,
        warnings,
    };
    assert(found@.budget.categories == assembled(accounts@, file, cushioned@).budget.categories);
    assert(found@.warnings == assembled(accounts@, file, cushioned@).warnings);
    found
}

/// Group keys stand in ascending order, so none stands twice.
pub open spec fn ascending(keys: Seq<Option<Seq<char>>>) -> bool {
    forall|i: int, j: int| 0 <= i < j < keys.len() ==> key_before(#[trigger] keys[i], #[trigger] keys[j])
}

proof fn lemma_key_order(a: Option<Seq<char>>, b: Option<Seq<char>>, c: Option<Seq<char>>)
    ensures
        key_before(a, b) && key_before(b, c) ==> key_before(a, c),
        key_before(a, b) || key_before(b, a) || a == b,
        !key_before(a, a),
{
    if let Some(x) = a {
        if let Some(y) = b {
            lemma_text_order(x, y, if let Some(z) = c { z } else { x });
        }
        lemma_text_order(x, x, x);
    }
}

proof fn lemma_with_key(keys: Seq<Option<Seq<char>>>, key: Option<Seq<char>>)
    requires
        ascending(keys),
    ensures
        ascending(with_key(keys, key)),
        with_key(keys, key).contains(key),
        forall|k: Option<Seq<char>>| keys.contains(k) ==> #[trigger] with_key(keys, key).contains(k),
        forall|k: Option<Seq<char>>| #[trigger] with_key(keys, key).contains(k) ==> k == key || keys.contains(k),
{
    lemma_key_position_is_in_range(keys, key);
    let p = key_position(keys, key);
    let out = with_key(keys, key);
    if !(p < keys.len() && keys[p] == key) {
        assert(out == keys.insert(p, key));
        assert(out[p] == key);
        assert forall|i: int, j: int| 0 <= i < j < out.len() implies key_before(#[trigger] out[i], #[trigger] out[j]) by {
            if j == p {
            } else if i == p {
                lemma_key_order(key, keys[p], keys[j - 1]);
                lemma_key_order(keys[p], key, key);
            } else {
                let a = if i < p { i } else { i - 1 };
                let b = if j < p { j } else { j - 1 };
                assert(key_before(keys[a], keys[b]));
            }
        }
        assert forall|k: Option<Seq<char>>| keys.contains(k) implies #[trigger] out.contains(k) by {
            let i = choose|i: int| 0 <= i < keys.len() && keys[i] == k;
            assert(out[if i < p { i } else { i + 1 }] == k);
        }
        assert forall|k: Option<Seq<char>>| #[trigger] out.contains(k) implies k == key || keys.contains(k) by {
            let i = choose|i: int| 0 <= i < out.len() && out[i] == k;
            if i != p {
                assert(keys[if i < p { i } else { i - 1 }] == k);
            }
        }
    }
}

/// The categories are the groups of the funded bills, each once, ungrouped bills
/// first and the groups in the order of their names.
pub proof fn lemma_each_group_is_one_category(placed: Seq<PlaceView>)
    ensures
        ascending(group_keys(placed)),
        forall|i: int|
            0 <= i < placed.len() ==> (#[trigger] placed[i] matches PlaceView::Funded { group, .. } ==> group_keys(
                placed,
            ).contains(group)),
    decreases placed.len(),
{
    if placed.len() > 0 {
        let rest = placed.drop_last();
        lemma_each_group_is_one_category(rest);
        if let PlaceView::Funded { group, .. } = placed.last() {
            lemma_with_key(group_keys(rest), group);
        }
        assert forall|i: int| 0 <= i < placed.len() implies (#[trigger] placed[i] matches PlaceView::Funded {
            group,
            ..
        } ==> group_keys(placed).contains(group)) by {
            if i < rest.len() {
                assert(rest[i] == placed[i]);
            }
        }
    }
}

proof fn lemma_bill_is_in_its_group(placed: Seq<PlaceView>, i: int)
    requires
        0 <= i < placed.len(),
        placed[i] is Funded,
    ensures
        bills_in(placed, placed[i]->Funded_group).contains(placed[i]->bill),
    decreases placed.len(),
{
    let key = placed[i]->Funded_group;
    let rest = bills_in(placed.drop_last(), key);
    let all = bills_in(placed, key);
    if i < placed.len() - 1 {
        lemma_bill_is_in_its_group(placed.drop_last(), i);
        let j = choose|j: int| 0 <= j < rest.len() && rest[j] == placed[i]->bill;
        assert(all[j] == rest[j]);
    } else {
        assert(all[all.len() - 1] == placed[i]->bill);
    }
}

proof fn lemma_line_is_listed(accounts: Seq<AccountSummary>, placed: Seq<PlaceView>, i: int)
    requires
        0 <= i < placed.len(),
    ensures
        placed[i] matches PlaceView::NotFunded { line } ==> not_funded_lines(placed).contains(line),
        placed[i] is Ignored ==> ignored_names(accounts, placed).contains(accounts[i].name@),
        rename_line(accounts[i].name@, placed[i]) matches Some(line) ==> rename_lines(accounts, placed).contains(line),
    decreases placed.len(),
{
    let rest = placed.drop_last();
    let not_funded = not_funded_lines(placed);
    let ignored = ignored_names(accounts, placed);
    let renames = rename_lines(accounts, placed);
    if i < placed.len() - 1 {
        lemma_line_is_listed(accounts, rest, i);
        assert(rest[i] == placed[i]);
        if let PlaceView::NotFunded { line } = placed[i] {
            let j = choose|j: int| 0 <= j < not_funded_lines(rest).len() && not_funded_lines(rest)[j] == line;
            assert(not_funded[j] == line);
        }
        if placed[i] is Ignored {
            let old = ignored_names(accounts, rest);
            let j = choose|j: int| 0 <= j < old.len() && old[j] == accounts[i].name@;
            assert(ignored[j] == accounts[i].name@);
        }
        if let Some(line) = rename_line(accounts[i].name@, placed[i]) {
            let old = rename_lines(accounts, rest);
            let j = choose|j: int| 0 <= j < old.len() && old[j] == line;
            assert(renames[j] == line);
        }
    } else {
        if let PlaceView::NotFunded { line } = placed[i] {
            assert(not_funded[not_funded.len() - 1] == line);
        }
        if placed[i] is Ignored {
            assert(ignored[ignored.len() - 1] == accounts[i].name@);
        }
        if let Some(line) = rename_line(accounts[i].name@, placed[i]) {
            assert(renames[renames.len() - 1] == line);
        }
    }
}

/// Nothing is dropped: every pod is funded as a bill of its group's category, listed
/// with the reason why it can't be, listed as no bill (the pool among them), or is a
/// group pod — listed for renaming unless it is marked `G:`.
pub proof fn lemma_every_pod_is_accounted_for(
    accounts: Seq<AccountSummary>,
    file: Option<&State>,
    cushioned: Seq<i64>,
    i: int,
)
    requires
        0 <= i < accounts.len(),
        accounts[i].account_type == AccountType::Pod,
    ensures
        accounts[i].id@ == pool_id(file) ==> assembled(accounts, file, cushioned).ignored.contains(accounts[i].name@),
        ({
            let found = assembled(accounts, file, cushioned);
            let placed = place(accounts[i], cushioned[i] as int, pool_id(file));
            match placed {
                PlaceView::Aside => false,
                PlaceView::Funded { group, bill, old_name } => {
                    &&& exists|c: int|
                        0 <= c < found.budget.categories.len() && (#[trigger] found.budget.categories[c]).bills.contains(
                            bill,
                        ) && found.budget.categories[c].name == group_name(group)
                    &&& old_name ==> found.migrate.contains(accounts[i].name@)
                },
                PlaceView::NotFunded { line } => found.not_funded.contains(line),
                PlaceView::Group { marked } => marked || found.migrate.contains(
                    accounts[i].name@ + " (group pod — rename to `G: …`)"@,
                ),
                PlaceView::Ignored => found.ignored.contains(accounts[i].name@),
            }
        }),
{
    let found = assembled(accounts, file, cushioned);
    let placed = places(accounts, cushioned, pool_id(file));
    assert(placed[i] == place(accounts[i], cushioned[i] as int, pool_id(file)));
    lemma_line_is_listed(accounts, placed, i);
    if let PlaceView::Funded { group, bill, old_name } = placed[i] {
        lemma_each_group_is_one_category(placed);
        lemma_bill_is_in_its_group(placed, i);
        let keys = group_keys(placed);
        let c = choose|c: int| 0 <= c < keys.len() && keys[c] == group;
        assert(found.budget.categories[c] == category_of(group, placed, accounts, pool_id(file)));
        assert(found.budget.categories[c].bills.contains(bill));
    }
}

/// Contributions and kept levels are funded to the amount that the name declares,
/// every other bill to the cushioned one.
pub proof fn lemma_contributions_get_no_buffer(amount: int, freq: FrequencyView, cushioned: int)
    ensures
        freq is Paycheck || freq is Keep ==> buffered_amount(amount, freq, cushioned) == amount,
        !(freq is Paycheck) && !(freq is Keep) ==> buffered_amount(amount, freq, cushioned) == cushioned,
{
}

// ---- Drift ----

/// One money-moving edge extracted from an ENABLED Sequence rule: source pod →
/// destination pod, what it tops up to (or moves), and its per-transfer cap.
pub struct Flow {
    pub src: String,
    pub dst: String,
    /// The top-up target or fixed amount, when the action declares one.
    pub target_cents: Option<i64>,
    /// Per-transfer cap, when set.
    pub cap_cents: Option<i64>,
}

pub ghost struct FlowView {
    pub src: Seq<char>,
    pub dst: Seq<char>,
    pub target_cents: Option<i64>,
    pub cap_cents: Option<i64>,
}

impl View for Flow {
    type V = FlowView;

    open spec fn view(&self) -> FlowView {
        FlowView {
            src: self.src@,
            dst: self.dst@,
            target_cents: self.target_cents,
            cap_cents: self.cap_cents,
        }
    }
}

/// The flow of one action.
pub open spec fn flow_of(a: RuleAction) -> FlowView {
    FlowView {
        src: a.source.id@,
        dst: a.destination.id@,
        target_cents: match a.kind {
            RuleActionKind::Fixed { amount_in_cents } => Some(amount_in_cents),
            RuleActionKind::TopUp { amount_in_cents } => amount_in_cents,
            _ => None,
        },
        cap_cents: match a.limit {
            Some(cap) => Some(cap.amount_in_cents),
            None => None,
        },
    }
}

pub open spec fn action_flows(actions: Seq<RuleAction>) -> Seq<FlowView> {
    Seq::new(actions.len(), |i: int| flow_of(actions[i]))
}

pub open spec fn step_flows(steps: Seq<RuleStep>) -> Seq<FlowView>
    decreases steps.len(),
{
    if steps.len() == 0 {
        Seq::empty()
    } else {
        step_flows(steps.drop_last()) + action_flows(steps.last().actions@)
    }
}

/// The flows of the enabled rules, in order.
pub open spec fn rule_flows(rules: Seq<Rule>) -> Seq<FlowView>
    decreases rules.len(),
{
    if rules.len() == 0 {
        Seq::empty()
    } else if rules.last().enabled {
        rule_flows(rules.drop_last()) + step_flows(rules.last().steps@)
    } else {
        rule_flows(rules.drop_last())
    }
}

fn flow(a: &RuleAction) -> (found: Flow)
    ensures
        found@ == flow_of(*a),
{
    let target: Option<i64> = match &a.kind {
        RuleActionKind::Fixed { amount_in_cents } => Some(*amount_in_cents),
        RuleActionKind::TopUp { amount_in_cents } => *amount_in_cents,
        _ => None,
    };
    let cap: Option<i64> = match &a.limit {
        Some(c) => Some(c.amount_in_cents),
        None => None,
    };
    Flow {
        src: a.source.id.clone(),
        dst: a.destination.id.clone(),
        target_cents: target,
        cap_cents: cap,
    }
}

/// Flatten enabled rules into the flows the drift checks reason about.
pub fn flows_from_rules(rules: &[Rule]) -> (flows: Vec<Flow>)
    ensures
        views(flows@) == rule_flows(rules@),
{
    let mut out: Vec<Flow> = Vec::new();
    let mut r: usize = 0;
    assert(views(out@) == rule_flows(rules@.take(0)));
    while r < rules.len()
        invariant
            r <= rules@.len(),
            views(out@) == rule_flows(rules@.take(r as int)),
        decreases rules@.len() - r,
    {
        let rule = &rules[r];
        assert(rules@.take(r + 1).drop_last() == rules@.take(r as int));
        r += 1;
        if !rule.enabled {
            continue;
        }
        let ghost before = views(out@);
        let mut s: usize = 0;
        assert(before + step_flows(rule.steps@.take(0)) == before);
        while s < rule.steps.len()
            invariant
                s <= rule.steps@.len(),
                views(out@) == before + step_flows(rule.steps@.take(s as int)),
            decreases rule.steps@.len() - s,
        {
            let step = &rule.steps[s];
            assert(rule.steps@.take(s + 1).drop_last() == rule.steps@.take(s as int));
            let ghost so_far = views(out@);
            let mut a: usize = 0;
            assert(so_far + action_flows(step.actions@.take(0)) == so_far);
            while a < step.actions.len()
                invariant
                    a <= step.actions@.len(),
                    views(out@) == so_far + action_flows(step.actions@.take(a as int)),
                decreases step.actions@.len() - a,
            {
                let ghost held = out@;
                let found = flow(&step.actions[a]);
                out.push(found);
                assert(views(out@) == views(held).push(found@));
                a += 1;
                assert(views(out@) == so_far + action_flows(step.actions@.take(a as int)));
            }
            assert(step.actions@.take(a as int) == step.actions@);
            s += 1;
            assert(views(out@) == before + step_flows(rule.steps@.take(s as int)));
        }
        assert(rule.steps@.take(s as int) == rule.steps@);
    }
    assert(rules@.take(r as int) == rules@);
    out
}

/// What a group's bills can draw: the caps of its outgoing flows, or their targets
/// where there is no cap.
pub open spec fn demand(flows: Seq<FlowView>, pod: Seq<char>) -> int
    decreases flows.len(),
{
    if flows.len() == 0 {
        0
    } else {
        let f = flows.last();
        demand(flows.drop_last(), pod) + if f.src != pod {
            0
        } else if f.cap_cents is Some {
            f.cap_cents->0 as int
        } else if f.target_cents is Some {
            f.target_cents->0 as int
        } else {
            0
        }
    }
}

/// The highest target among the flows into a pod.
pub open spec fn highest_target(flows: Seq<FlowView>, pod: Seq<char>) -> Option<i64>
    decreases flows.len(),
{
    if flows.len() == 0 {
        None
    } else {
        let f = flows.last();
        let rest = highest_target(flows.drop_last(), pod);
        if f.dst != pod || f.target_cents is None {
            rest
        } else if rest is Some && rest->0 >= f.target_cents->0 {
            rest
        } else {
            f.target_cents
        }
    }
}

/// Some flow goes into the pod.
pub open spec fn is_fed(flows: Seq<FlowView>, pod: Seq<char>) -> bool {
    exists|i: int| 0 <= i < flows.len() && (#[trigger] flows[i]).dst == pod
}

/// A group pod drifts where income pulls less than its bills can draw.
pub open spec fn group_drift(name: Seq<char>, pod: Seq<char>, flows: Seq<FlowView>) -> Option<Seq<char>> {
    let drawn = demand(flows, pod);
    match highest_target(flows, pod) {
        None => if drawn > 0 {
            Some(name + ": no enabled rule pulls into this group — its bills won't fund"@)
        } else {
            None
        },
        Some(p) => if p < drawn {
            Some(
                name + ": pulls "@ + dollars_text(p as int) + " from income, but its bills can draw up to "@
                    + dollars_text(drawn) + " per cycle — starved by "@ + dollars_text(drawn - p),
            )
        } else {
            None
        },
    }
}

/// A bill pod drifts where nothing funds it, or a rule tops it up to less than it declares.
pub open spec fn bill_drift(bill: DerivedBillView, pod: Seq<char>, flows: Seq<FlowView>) -> Option<Seq<char>> {
    if !is_fed(flows, pod) {
        Some(bill.name + ": no enabled rule funds this pod — it will sit empty"@)
    } else if bill.frequency is Paycheck || bill.frequency is Drawdown {
        None
    } else {
        match highest_target(flows, pod) {
            Some(t) => if t < bill.amount_cents {
                Some(
                    bill.name + ": rule tops up to "@ + dollars_text(t as int) + " but the pod declares "@
                        + dollars_text(bill.amount_cents) + " — the rule will underfund it"@,
                )
            } else {
                None
            },
            None => None,
        }
    }
}

/// The warning that an account's name and the rules call for, where they disagree.
pub open spec fn drift(a: AccountSummary, flows: Seq<FlowView>) -> Option<Seq<char>> {
    if a.account_type != AccountType::Pod {
        None
    } else if group_marker(a.name@) {
        group_drift(a.name@, a.id@, flows)
    } else {
        match derived(a.name@) {
            Some(bill) => bill_drift(bill, a.id@, flows),
            None => None,
        }
    }
}

/// The warnings of all accounts, in order.
pub open spec fn drifts(accounts: Seq<AccountSummary>, flows: Seq<FlowView>) -> Seq<Seq<char>>
    decreases accounts.len(),
{
    if accounts.len() == 0 {
        Seq::empty()
    } else {
        let rest = drifts(accounts.drop_last(), flows);
        match drift(accounts.last(), flows) {
            Some(warning) => rest.push(warning),
            None => rest,
        }
    }
}

fn group_demand(flows: &[Flow], pod: &str) -> (cents: i128)
    ensures
        cents == demand(views(flows@), pod@),
        -0x8000_0000_0000_0000 * flows.len() <= cents <= 0x7fff_ffff_ffff_ffff * flows.len(),
{
    let ghost all = views(flows@);
    let mut total: i128 = 0;
    let mut i: usize = 0;
    while i < flows.len()
        invariant
            i <= flows.len(),
            all == views(flows@),
            total == demand(all.take(i as int), pod@),
            -0x8000_0000_0000_0000 * i <= total <= 0x7fff_ffff_ffff_ffff * i,
        decreases flows.len() - i,
    {
        let f = &flows[i];
        assert(all.take(i + 1).drop_last() == all.take(i as int));
        assert(all[i as int] == f@);
        if same_text(f.src.as_str(), pod) {
            let cents: i64 = match (f.cap_cents, f.target_cents) {
                (Some(c), _) => c,
                (None, Some(t)) => t,
                (None, None) => 0,
            };
            total = total + cents as i128;
        }
        i += 1;
    }
    assert(all.take(i as int) == all);
    total
}

fn top_target(flows: &[Flow], pod: &str) -> (cents: Option<i64>)
    ensures
        cents == highest_target(views(flows@), pod@),
{
    let ghost all = views(flows@);
    let mut best: Option<i64> = None;
    let mut i: usize = 0;
    while i < flows.len()
        invariant
            i <= flows@.len(),
            all == views(flows@),
            best == highest_target(all.take(i as int), pod@),
        decreases flows@.len() - i,
    {
        let f = &flows[i];
        assert(all.take(i + 1).drop_last() == all.take(i as int));
        assert(all[i as int] == f@);
        if same_text(f.dst.as_str(), pod) {
            if let Some(t) = f.target_cents {
                match best {
                    Some(b) => {
                        if t > b {
                            best = Some(t);
                        }
                    },
                    None => {
                        best = Some(t);
                    },
                }
            }
        }
        i += 1;
    }
    assert(all.take(i as int) == all);
    best
}

fn fed(flows: &[Flow], pod: &str) -> (found: bool)
    ensures
        found == is_fed(views(flows@), pod@),
{
    let ghost all = views(flows@);
    let mut i: usize = 0;
    while i < flows.len()
        invariant
            i <= flows@.len(),
            all == views(flows@),
            forall|j: int| 0 <= j < i ==> (#[trigger] all[j]).dst != pod@,
        decreases flows@.len() - i,
    {
        assert(all[i as int] == flows@[i as int]@);
        if same_text(flows[i].dst.as_str(), pod) {
            return true;
        }
        i += 1;
    }
    false
}

fn group_drift_warning(a: &AccountSummary, flows: &[Flow]) -> (warning: Option<String>)
    ensures
        text_view(warning) == group_drift(a.name@, a.id@, views(flows@)),
{
    let drawn = group_demand(flows, a.id.as_str());
    match top_target(flows, a.id.as_str()) {
        None => {
            if drawn > 0 {
                Some(joined(a.name.as_str(), ": no enabled rule pulls into this group — its bills won't fund"))
            } else {
                None
            }
        },
        Some(p) => {
            if (p as i128) < drawn {
                let mut text = a.name.clone();
                text.append(": pulls ");
                text.append(dollars(p).as_str());
                text.append(" from income, but its bills can draw up to ");
                text.append(dollars_wide(drawn).as_str());
                text.append(" per cycle — starved by ");
                text.append(dollars_wide(drawn - p as i128).as_str());
                Some(text)
            } else {
                None
            }
        },
    }
}

fn bill_drift_warning(a: &AccountSummary, flows: &[Flow]) -> (warning: Option<String>)
    requires
        name_fits(a.name@),
    ensures
        text_view(warning) == match derived(a.name@) {
            Some(bill) => bill_drift(bill, a.id@, views(flows@)),
            None => None,
        },
{
    // not a bill: pool, savings, spending, …
    let bill = match derive_bill(a.name.as_str()) {
        Some(bill) => bill,
        None => {
            return None;
        },
    };
    if !fed(flows, a.id.as_str()) {
        return Some(joined(bill.name.as_str(), ": no enabled rule funds this pod — it will sit empty"));
    }
    // Per-paycheck top-ups declare a cap (rule targets differ by design) and
    // drawdowns fund by fixed slice — fixed-amount bills and kept levels
    // compare against the rule target directly.
    match bill.frequency {
        Frequency::Paycheck | Frequency::Drawdown { .. } => {
            return None;
        },
        _ => {},
    }
    match top_target(flows, a.id.as_str()) {
        Some(t) => {
            if t < bill.amount_cents {
                let mut text = bill.name.clone();
                text.append(": rule tops up to ");
                text.append(dollars(t).as_str());
                text.append(" but the pod declares ");
                text.append(dollars(bill.amount_cents).as_str());
                text.append(" — the rule will underfund it");
                Some(text)
            } else {
                None
            }
        },
        None => None,
    }
}

/// The numbers in the names of the pods that may be bills fit in machine numbers.
pub open spec fn drift_names_fit(accounts: Seq<AccountSummary>) -> bool {
    forall|i: int|
        0 <= i < accounts.len() && accounts[i].account_type == AccountType::Pod && !group_marker(
            accounts[i].name@,
        ) ==> name_fits((#[trigger] accounts[i]).name@)
}

/// Whether the numbers in the names of the pods that may be bills fit in machine numbers.
pub fn drift_names_in_range(accounts: &Vec<AccountSummary>) -> (in_range: bool)
    ensures
        in_range == drift_names_fit(accounts@),
{
    let mut i: usize = 0;
    while i < accounts.len()
        invariant
            i <= accounts@.len(),
            forall|j: int|
                0 <= j < i && accounts@[j].account_type == AccountType::Pod && !group_marker(
                    accounts@[j].name@,
                ) ==> name_fits((#[trigger] accounts@[j]).name@),
        decreases accounts@.len() - i,
    {
        let a = &accounts[i];
        if a.account_type == AccountType::Pod && !is_group_marker(a.name.as_str()) && !name_in_range(a.name.as_str()) {
            assert(accounts@[i as int] == a);
            return false;
        }
        i += 1;
    }
    true
}

/// Config drift: where the pod names (the declared budget) and the enabled rules
/// (what actually moves money while maestro is in Shadow) disagree. Every drift
/// found here has caused a real bounce or an unfunded bill: a rule topping up
/// below the declared amount, a bill pod nothing funds, and a group whose income
/// pull is smaller than the sum its bills can draw.
pub fn drift_warnings(accounts: &Vec<AccountSummary>, flows: &[Flow]) -> (warnings: Vec<String>)
    requires
        drift_names_fit(accounts@),
    ensures
        texts(warnings@) == drifts(accounts@, views(flows@)),
{
    let mut out: Vec<String> = Vec::new();
    let mut i: usize = 0;
    assert(texts(out@) == drifts(accounts@.take(0), views(flows@)));
    while i < accounts.len()
        invariant
            i <= accounts@.len(),
            drift_names_fit(accounts@),
            texts(out@) == drifts(accounts@.take(i as int), views(flows@)),
        decreases accounts@.len() - i,
    {
        let a = &accounts[i];
        assert(accounts@.take(i + 1).drop_last() == accounts@.take(i as int));
        if a.account_type == AccountType::Pod {
            // Group pods: income must pull at least what the group's bills can draw.
            // Bill pods: something must fund them, and to at least the declared amount.
            let warning = if is_group_marker(a.name.as_str()) {
                group_drift_warning(a, flows)
            } else {
                bill_drift_warning(a, flows)
            };
            if let Some(text) = warning {
                push_text(&mut out, text);
            }
        }
        i += 1;
    }
    assert(accounts@.take(i as int) == accounts@);
    out
}

/// The checks stay silent exactly where every account's name and the rules agree.
pub proof fn lemma_silent_where_all_agree(accounts: Seq<AccountSummary>, flows: Seq<FlowView>)
    ensures
        drifts(accounts, flows).len() == 0 <==> forall|i: int|
            0 <= i < accounts.len() ==> drift(#[trigger] accounts[i], flows) is None,
    decreases accounts.len(),
{
    if accounts.len() > 0 {
        let rest = accounts.drop_last();
        lemma_silent_where_all_agree(rest, flows);
        if forall|i: int| 0 <= i < accounts.len() ==> drift(#[trigger] accounts[i], flows) is None {
            assert forall|i: int| 0 <= i < rest.len() implies drift(#[trigger] rest[i], flows) is None by {
                assert(rest[i] == accounts[i]);
            }
        }
        if drifts(accounts, flows).len() == 0 {
            assert forall|i: int| 0 <= i < accounts.len() implies drift(#[trigger] accounts[i], flows) is None by {
                if i < rest.len() {
                    assert(rest[i] == accounts[i]);
                }
            }
        }
    }
}

/// The highest target is one of a flow into the pod, and none is higher.
pub proof fn lemma_highest_target(flows: Seq<FlowView>, pod: Seq<char>)
    ensures
        highest_target(flows, pod) matches Some(t) ==> exists|i: int|
            0 <= i < flows.len() && (#[trigger] flows[i]).dst == pod && flows[i].target_cents == Some(t),
        forall|i: int|
            0 <= i < flows.len() && (#[trigger] flows[i]).dst == pod && flows[i].target_cents is Some ==> highest_target(
                flows,
                pod,
            ) is Some && flows[i].target_cents->0 <= highest_target(flows, pod)->0,
    decreases flows.len(),
{
    if flows.len() > 0 {
        let rest = flows.drop_last();
        lemma_highest_target(rest, pod);
        if highest_target(flows, pod) == highest_target(rest, pod) && highest_target(rest, pod) is Some {
            let i = choose|i: int|
                0 <= i < rest.len() && (#[trigger] rest[i]).dst == pod && rest[i].target_cents == Some(
                    highest_target(rest, pod)->0,
                );
            assert(flows[i] == rest[i]);
        }
        assert forall|i: int|
            0 <= i < flows.len() && (#[trigger] flows[i]).dst == pod && flows[i].target_cents is Some implies highest_target(
            flows,
            pod,
        ) is Some && flows[i].target_cents->0 <= highest_target(flows, pod)->0 by {
            if i < rest.len() {
                assert(rest[i] == flows[i]);
            }
        }
    }
}

// ---- What becomes of a name ----

/// A pod is funded as the bill that its name declares: under its name, in its group, by
/// its due day and frequency, through its own pod; to the amount that the name declares
/// where that is a top-up or a kept level, else to the cushioned one. The pool is never
/// a bill, nor is an account that is no pod.
pub proof fn lemma_a_bill_is_funded_as_it_is_named(a: AccountSummary, cushioned: int, pool: Seq<char>)
    ensures
        place(a, cushioned, pool) matches PlaceView::Funded { group, bill, old_name } ==> {
            &&& a.account_type is Pod && a.id@ != pool
            &&& derived(a.name@) is Some
            &&& {
                let named = derived(a.name@)->0;
                &&& group == named.group && bill.name == named.name && bill.pod_id == a.id@
                &&& bill.due_day == named.due_day && bill.frequency == named.frequency
                &&& bill.amount_cents == if named.frequency is Paycheck || named.frequency is Keep {
                    named.amount_cents
                } else {
                    cushioned
                }
            }
            &&& old_name <==> scheme(a.name@) is None
        },
        place(a, cushioned, pool) is Aside <==> !(a.account_type is Pod),
        a.account_type is Pod && a.id@ == pool ==> place(a, cushioned, pool) is Ignored,
{
}

/// A pod that declares a bill is funded where it can be scheduled: with a due day it
/// must be monthly, and under the old naming it must have one. Else it is listed with
/// the reason. A pod that declares none is a group's pod or ignored.
pub proof fn lemma_a_declared_bill_is_funded_or_listed(a: AccountSummary, cushioned: int, pool: Seq<char>)
    requires
        a.account_type is Pod,
        a.id@ != pool,
    ensures
        match derived(a.name@) {
            Some(named) => {
                let schedulable = if scheme(a.name@) is Some {
                    named.due_day is Some ==> named.frequency is Month
                } else {
                    named.due_day is Some
                };
                &&& schedulable ==> place(a, cushioned, pool) is Funded
                &&& !schedulable ==> place(a, cushioned, pool) is NotFunded
            },
            None => if parsed(a.name@) is Category {
                place(a, cushioned, pool) == (PlaceView::Group { marked: group_marker(a.name@) })
            } else {
                place(a, cushioned, pool) is Ignored
            },
        },
{
}

// ---- Who is in which category ----

/// The bills of a group are picked one by one, in order: those funded under it.
pub proof fn lemma_bills_are_grouped_one_by_one(a: Seq<PlaceView>, b: Seq<PlaceView>, key: Option<Seq<char>>)
    ensures
        bills_in(a + b, key) == bills_in(a, key) + bills_in(b, key),
        a.len() == 0 ==> bills_in(a, key).len() == 0,
        a.len() == 1 ==> match a[0] {
            PlaceView::Funded { group, bill, .. } => bills_in(a, key) == if group == key {
                seq![bill]
            } else {
                Seq::empty()
            },
            _ => bills_in(a, key).len() == 0,
        },
    decreases b.len(),
{
    reveal_with_fuel(bills_in, 2);
    if b.len() == 0 {
        assert(a + b == a);
    } else {
        assert((a + b).drop_last() == a + b.drop_last());
        lemma_bills_are_grouped_one_by_one(a, b.drop_last(), key);
    }
}

/// There is a category for a group if and only if some bill is funded under it.
pub proof fn lemma_no_category_is_empty(placed: Seq<PlaceView>, key: Option<Seq<char>>)
    ensures
        group_keys(placed).contains(key) <==> exists|i: int|
            0 <= i < placed.len() && (#[trigger] placed[i]) is Funded && placed[i]->Funded_group == key,
    decreases placed.len(),
{
    lemma_each_group_is_one_category(placed);
    if placed.len() > 0 {
        let rest = placed.drop_last();
        let last = placed.len() - 1;
        lemma_no_category_is_empty(rest, key);
        lemma_each_group_is_one_category(rest);
        assert(placed[last] == placed.last());
        if group_keys(rest).contains(key) {
            let i = choose|i: int| 0 <= i < rest.len() && (#[trigger] rest[i]) is Funded && rest[i]->Funded_group == key;
            assert(placed[i] == rest[i]);
        }
        if let PlaceView::Funded { group, .. } = placed.last() {
            lemma_with_key(group_keys(rest), group);
            if group_keys(placed).contains(key) && !group_keys(rest).contains(key) {
                assert(placed[last]->Funded_group == key);
            }
        }
        if exists|i: int| 0 <= i < placed.len() && (#[trigger] placed[i]) is Funded && placed[i]->Funded_group == key {
            let i = choose|i: int|
                0 <= i < placed.len() && (#[trigger] placed[i]) is Funded && placed[i]->Funded_group == key;
            assert(placed[i] is Funded);
        }
    }
}

/// A group's pod is the first pod that is named for it, and there is none only where
/// no pod is.
pub proof fn lemma_the_first_pod_of_a_group_counts(accounts: Seq<AccountSummary>, group: Seq<char>)
    ensures
        match group_pod(accounts, group) {
            Some(pod) => exists|i: int|
                {
                    &&& 0 <= i < accounts.len()
                    &&& #[trigger] is_group_pod(accounts[i], group)
                    &&& accounts[i].id@ == pod
                    &&& forall|j: int| 0 <= j < i ==> !#[trigger] is_group_pod(accounts[j], group)
                },
            None => forall|i: int| 0 <= i < accounts.len() ==> !#[trigger] is_group_pod(accounts[i], group),
        },
    decreases accounts.len(),
{
    if accounts.len() > 0 {
        let rest = accounts.drop_last();
        let last = accounts.len() - 1;
        lemma_the_first_pod_of_a_group_counts(rest, group);
        assert(accounts[last] == accounts.last());
        match group_pod(rest, group) {
            Some(pod) => {
                let i = choose|i: int|
                    {
                        &&& 0 <= i < rest.len()
                        &&& #[trigger] is_group_pod(rest[i], group)
                        &&& rest[i].id@ == pod
                        &&& forall|j: int| 0 <= j < i ==> !#[trigger] is_group_pod(rest[j], group)
                    };
                assert(is_group_pod(accounts[i], group));
                assert forall|j: int| 0 <= j < i implies !#[trigger] is_group_pod(accounts[j], group) by {
                    assert(!is_group_pod(rest[j], group));
                }
            },
            None => {
                assert forall|j: int| 0 <= j < last implies !#[trigger] is_group_pod(accounts[j], group) by {
                    assert(!is_group_pod(rest[j], group));
                }
                if is_group_pod(accounts[last], group) {
                    assert(group_pod(accounts, group) == Some(accounts[last].id@));
                }
            },
        }
    }
}

/// A pod that is named for a group, by its marker or the old naming.
pub open spec fn is_group_pod(a: AccountSummary, group: Seq<char>) -> bool {
    a.account_type is Pod && parsed(a.name@) == (ParsedView::Category { name: group })
}

/// The categories are funded from the pool that onboarding found first: that of a group
/// through the group's own pod, where it has one, any other straight from the pool. A
/// missing pool, and every group without a pod, is warned of.
pub proof fn lemma_categories_route_through_their_pods(
    accounts: Seq<AccountSummary>,
    file: Option<&State>,
    cushioned: Seq<i64>,
)
    ensures
        ({
            let found = assembled(accounts, file, cushioned);
            let keys = group_keys(places(accounts, cushioned, pool_id(file)));
            let missing = file is None || (file->0).pools@.len() == 0;
            &&& !missing ==> found.budget.pool_pod_id == (file->0).pools@[0].pod_id@
            &&& missing ==> found.budget.pool_pod_id.len() == 0
            &&& found.warnings == (if missing {
                seq!["no income pool detected — run `discover` first"@]
            } else {
                Seq::empty()
            }) + group_warnings(keys, accounts)
            &&& found.budget.categories.len() == keys.len()
            &&& forall|c: int|
                0 <= c < keys.len() ==> {
                    let category = #[trigger] found.budget.categories[c];
                    &&& category.bills == bills_in(places(accounts, cushioned, pool_id(file)), keys[c])
                    &&& keys[c] is None ==> category.pod_id == found.budget.pool_pod_id && category.name
                        == "(ungrouped)"@
                    &&& keys[c] matches Some(group) ==> category.name == group && category.pod_id == (match group_pod(
                        accounts,
                        group,
                    ) {
                        Some(pod) => pod,
                        None => found.budget.pool_pod_id,
                    })
                }
        }),
{
}

/// Groups are warned of one by one: those without a pod.
pub proof fn lemma_groups_are_warned_of_one_by_one(
    a: Seq<Option<Seq<char>>>,
    b: Seq<Option<Seq<char>>>,
    accounts: Seq<AccountSummary>,
)
    ensures
        group_warnings(a + b, accounts) == group_warnings(a, accounts) + group_warnings(b, accounts),
        a.len() == 0 ==> group_warnings(a, accounts).len() == 0,
        a.len() == 1 ==> group_warnings(a, accounts) == if a[0] is Some && group_pod(accounts, a[0]->0) is None {
            seq!["no group pod for '"@ + a[0]->0 + "' — funding its bills from the pool"@]
        } else {
            Seq::empty()
        },
    decreases b.len(),
{
    reveal_with_fuel(group_warnings, 2);
    if b.len() == 0 {
        assert(a + b == a);
    } else {
        assert((a + b).drop_last() == a + b.drop_last());
        lemma_groups_are_warned_of_one_by_one(a, b.drop_last(), accounts);
    }
}

/// How many places meet a condition.
pub open spec fn how_many(placed: Seq<PlaceView>, p: spec_fn(PlaceView) -> bool) -> nat
    decreases placed.len(),
{
    if placed.len() == 0 {
        0
    } else {
        how_many(placed.drop_last(), p) + if p(placed.last()) { 1nat } else { 0nat }
    }
}

/// As many lines are listed as pods they are listed for: each that can't be scheduled,
/// each that is no bill, and each bill or unmarked group under the old naming.
pub proof fn lemma_listed_pods_are_counted(accounts: Seq<AccountSummary>, placed: Seq<PlaceView>)
    ensures
        not_funded_lines(placed).len() == how_many(placed, |p: PlaceView| p is NotFunded),
        ignored_names(accounts, placed).len() == how_many(placed, |p: PlaceView| p is Ignored),
        rename_lines(accounts, placed).len() == how_many(
            placed,
            |p: PlaceView| p is Funded && p->old_name || p is Group && !p->marked,
        ),
    decreases placed.len(),
{
    if placed.len() > 0 {
        lemma_listed_pods_are_counted(accounts, placed.drop_last());
    }
}

// ---- What the rules move ----

/// The flows are those of the enabled rules, rule by rule, step by step and action by
/// action, in order.
pub proof fn lemma_rules_flow_one_by_one(a: Seq<Rule>, b: Seq<Rule>)
    ensures
        rule_flows(a + b) == rule_flows(a) + rule_flows(b),
        a.len() == 0 ==> rule_flows(a).len() == 0,
        a.len() == 1 ==> rule_flows(a) == if a[0].enabled {
            step_flows(a[0].steps@)
        } else {
            Seq::empty()
        },
    decreases b.len(),
{
    reveal_with_fuel(rule_flows, 2);
    if a.len() == 1 {
        assert(rule_flows(a.drop_last()) == Seq::<FlowView>::empty());
        assert(Seq::<FlowView>::empty() + step_flows(a[0].steps@) == step_flows(a[0].steps@));
    }
    if b.len() == 0 {
        assert(a + b == a);
    } else {
        assert((a + b).drop_last() == a + b.drop_last());
        lemma_rules_flow_one_by_one(a, b.drop_last());
        let rest = b.drop_last();
        if b.last().enabled {
            assert((rule_flows(a) + rule_flows(rest)) + step_flows(b.last().steps@) == rule_flows(a) + (rule_flows(rest)
                + step_flows(b.last().steps@)));
        }
    }
}

/// The actions of a rule flow step by step, in order, each with its own flow.
pub proof fn lemma_steps_flow_one_by_one(a: Seq<RuleStep>, b: Seq<RuleStep>)
    ensures
        step_flows(a + b) == step_flows(a) + step_flows(b),
        a.len() == 0 ==> step_flows(a).len() == 0,
        a.len() == 1 ==> step_flows(a).len() == a[0].actions@.len() && forall|i: int|
            0 <= i < a[0].actions@.len() ==> is_flow_of(#[trigger] step_flows(a)[i], a[0].actions@[i]),
    decreases b.len(),
{
    reveal_with_fuel(step_flows, 2);
    if a.len() == 1 {
        assert(step_flows(a.drop_last()) == Seq::<FlowView>::empty());
        assert(step_flows(a) == action_flows(a[0].actions@));
    }
    if b.len() == 0 {
        assert(a + b == a);
    } else {
        assert((a + b).drop_last() == a + b.drop_last());
        lemma_steps_flow_one_by_one(a, b.drop_last());
        let rest = b.drop_last();
        assert((step_flows(a) + step_flows(rest)) + action_flows(b.last().actions@) == step_flows(a) + (step_flows(rest)
            + action_flows(b.last().actions@)));
    }
}

/// The flow goes from the action's source to its destination, with the amount that a
/// fixed transfer or a top-up declares and the action's cap.
pub open spec fn is_flow_of(f: FlowView, action: RuleAction) -> bool {
    &&& f.src == action.source.id@
    &&& f.dst == action.destination.id@
    &&& action.kind matches RuleActionKind::Fixed { amount_in_cents } ==> f.target_cents == Some(amount_in_cents)
    &&& action.kind matches RuleActionKind::TopUp { amount_in_cents } ==> f.target_cents == amount_in_cents
    &&& !(action.kind is Fixed) && !(action.kind is TopUp) ==> f.target_cents is None
    &&& action.limit matches Some(cap) ==> f.cap_cents == Some(cap.amount_in_cents)
    &&& action.limit is None ==> f.cap_cents is None
}

/// What can be drawn from a pod is added up flow by flow: of a flow out of it the cap,
/// or the target where it has no cap.
pub proof fn lemma_demand_adds_up(a: Seq<FlowView>, b: Seq<FlowView>, pod: Seq<char>)
    ensures
        demand(a + b, pod) == demand(a, pod) + demand(b, pod),
        a.len() == 0 ==> demand(a, pod) == 0,
        a.len() == 1 && a[0].src != pod ==> demand(a, pod) == 0,
        a.len() == 1 && a[0].src == pod ==> {
            &&& a[0].cap_cents matches Some(cap) ==> demand(a, pod) == cap
            &&& a[0].cap_cents is None ==> (a[0].target_cents matches Some(target) ==> demand(a, pod) == target)
            &&& a[0].cap_cents is None && a[0].target_cents is None ==> demand(a, pod) == 0
        },
    decreases b.len(),
{
    reveal_with_fuel(demand, 2);
    if b.len() == 0 {
        assert(a + b == a);
    } else {
        assert((a + b).drop_last() == a + b.drop_last());
        lemma_demand_adds_up(a, b.drop_last(), pod);
    }
}

// ---- What drift is ----

/// A group is warned of if and only if its bills can draw more than any flow brings in:
/// something where no flow into it has a target, else more than every target.
pub proof fn lemma_a_starved_group_is_warned_of(name: Seq<char>, pod: Seq<char>, flows: Seq<FlowView>)
    ensures
        ({
            let untargeted = forall|i: int|
                0 <= i < flows.len() && (#[trigger] flows[i]).dst == pod ==> flows[i].target_cents is None;
            let short = forall|i: int|
                0 <= i < flows.len() && (#[trigger] flows[i]).dst == pod && flows[i].target_cents is Some
                    ==> flows[i].target_cents->0 < demand(flows, pod);
            group_drift(name, pod, flows) is Some <==> if untargeted {
                demand(flows, pod) > 0
            } else {
                short
            }
        }),
{
    lemma_highest_target(flows, pod);
    if highest_target(flows, pod) is Some {
        let i = choose|i: int|
            0 <= i < flows.len() && (#[trigger] flows[i]).dst == pod && flows[i].target_cents == Some(
                highest_target(flows, pod)->0,
            );
        assert(flows[i].target_cents is Some);
    }
}

/// A bill is warned of if and only if no flow goes into its pod or, unless it is funded
/// per paycheck, every target of the flows into it (and there is one) is below what the
/// name declares.
pub proof fn lemma_an_underfunded_bill_is_warned_of(bill: DerivedBillView, pod: Seq<char>, flows: Seq<FlowView>)
    ensures
        ({
            let orphan = forall|i: int| 0 <= i < flows.len() ==> (#[trigger] flows[i]).dst != pod;
            let targeted = exists|i: int|
                0 <= i < flows.len() && (#[trigger] flows[i]).dst == pod && flows[i].target_cents is Some;
            let short = forall|i: int|
                0 <= i < flows.len() && (#[trigger] flows[i]).dst == pod && flows[i].target_cents is Some
                    ==> flows[i].target_cents->0 < bill.amount_cents;
            bill_drift(bill, pod, flows) is Some <==> orphan || !(bill.frequency is Paycheck) && !(
            bill.frequency is Drawdown) && targeted && short
        }),
{
    lemma_highest_target(flows, pod);
    if highest_target(flows, pod) is Some {
        let i = choose|i: int|
            0 <= i < flows.len() && (#[trigger] flows[i]).dst == pod && flows[i].target_cents == Some(
                highest_target(flows, pod)->0,
            );
        assert(flows[i].target_cents is Some);
    }
    if exists|i: int| 0 <= i < flows.len() && (#[trigger] flows[i]).dst == pod && flows[i].target_cents is Some {
        let i = choose|i: int|
            0 <= i < flows.len() && (#[trigger] flows[i]).dst == pod && flows[i].target_cents is Some;
        assert(flows[i].dst == pod);
    }
}

/// Accounts are checked one by one, in order: only pods, a marked one as a group, any
/// other as the bill that its name declares.
pub proof fn lemma_accounts_are_checked_one_by_one(
    a: Seq<AccountSummary>,
    b: Seq<AccountSummary>,
    flows: Seq<FlowView>,
)
    ensures
        drifts(a + b, flows) == drifts(a, flows) + drifts(b, flows),
        a.len() == 0 ==> drifts(a, flows).len() == 0,
        a.len() == 1 ==> drifts(a, flows) == listed_warning(
            if !(a[0].account_type is Pod) {
                None
            } else if group_marker(a[0].name@) {
                group_drift(a[0].name@, a[0].id@, flows)
            } else if derived(a[0].name@) is Some {
                bill_drift(derived(a[0].name@)->0, a[0].id@, flows)
            } else {
                None
            },
        ),
    decreases b.len(),
{
    reveal_with_fuel(drifts, 2);
    if b.len() == 0 {
        assert(a + b == a);
    } else {
        assert((a + b).drop_last() == a + b.drop_last());
        lemma_accounts_are_checked_one_by_one(a, b.drop_last(), flows);
    }
}

pub open spec fn listed_warning(warning: Option<Seq<char>>) -> Seq<Seq<char>> {
    match warning {
        Some(w) => seq![w],
        None => Seq::empty(),
    }
}

/// What the buffer is added to is what the name declares: a pod that is funded declares
/// an amount, the one of its bill.
pub proof fn lemma_funded_pods_declare_their_amount(a: AccountSummary, cushioned: int, pool: Seq<char>)
    ensures
        place(a, cushioned, pool) is Funded ==> declared_by(a) is Some && declared_by(a) == Some(
            derived(a.name@)->0.amount_cents,
        ),
        declared_by(a) is Some ==> a.account_type is Pod && derived(a.name@) is Some,
{
}

/// Bills without a group come before all groups, and the groups stand in the order of
/// their names.
pub proof fn lemma_ungrouped_bills_come_first(placed: Seq<PlaceView>, i: int, j: int)
    requires
        0 <= i < j < group_keys(placed).len(),
    ensures
        group_keys(placed)[j] is Some,
        group_keys(placed)[i] is Some ==> text_before(group_keys(placed)[i]->0, group_keys(placed)[j]->0),
{
    lemma_each_group_is_one_category(placed);
    assert(key_before(group_keys(placed)[i], group_keys(placed)[j]));
}

} // verus!
