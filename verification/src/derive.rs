//! Derive the budget model from Sequence pod names — the single source of truth.
//! Convention: `Name (amount) - DueDay` (e.g. "Phone Bill ($80) - 16th"); categories
//! as `Name (monthly/half)`. Never turns a malformed bill into nothing — callers surface non-Bill results.

use crate::assess::OutOfRange;
use crate::date::{date_named, date_text, lemma_written_days_are_read_back, year_of, Date};
use crate::money::{dollars_text, lemma_every_cent_is_written};
use crate::text::{
    all_digits, ascii_lower, ascii_lower_chars, at_most, chars_of, decimal, decimal_value, digit_char,
    digit_value, find_char, first_at, first_index, is_digit, is_trimmed, joined_by, last_index,
    lemma_a_search_finds_the_first_place, lemma_characters_are_found, lemma_numbers_are_read_back,
    lower_char, occurs_at, part, pieces, rfind_char, spells, split, split_chars, string_of, trim, trim_chars,
    trim_end, trim_start, trim_start_chars, value_of_digits, white_space,
};
use vstd::prelude::*;

verus! {

// ---- Numbers in names ----

pub open spec fn is_money_char(c: char) -> bool {
    is_digit(c) || c == '.'
}

/// The digits and points of a text.
pub open spec fn money_chars(s: Seq<char>) -> Seq<char>
    decreases s.len(),
{
    if s.len() == 0 {
        s
    } else if is_money_char(s.last()) {
        money_chars(s.drop_last()).push(s.last())
    } else {
        money_chars(s.drop_last())
    }
}

/// The number that decimal digits write, where it is no more than `limit`.
pub open spec fn number_up_to(s: Seq<char>, limit: int) -> Option<int> {
    if all_digits(s) && decimal_value(s) <= limit {
        Some(decimal_value(s))
    } else {
        None
    }
}

/// Two digits of cents: what follows the point, cut or filled with zeros.
pub open spec fn cents_digits(s: Seq<char>) -> Seq<char> {
    let c = at_most(s, 2);
    c + Seq::new((2 - c.len()) as nat, |i: int| '0')
}

/// The cents that a text names: whole dollars, or dollars and cents around the
/// first point; anything but digits and points is passed over.
pub open spec fn money_value(s: Seq<char>) -> Option<int> {
    let t = money_chars(s);
    if t.len() == 0 {
        None
    } else {
        match first_index(t, '.') {
            None => match number_up_to(t, i64::MAX as int) {
                Some(dollars) => Some(dollars * 100),
                None => None,
            },
            Some(i) => match (
                number_up_to(t.take(i), i64::MAX as int),
                number_up_to(cents_digits(t.skip(i + 1)), i64::MAX as int),
            ) {
                (Some(dollars), Some(cents)) => Some(dollars * 100 + cents),
                _ => None,
            },
        }
    }
}

/// The cents that a text names fit in 64 bits.
pub open spec fn money_fits(s: Seq<char>) -> bool {
    money_value(s) is Some ==> money_value(s)->0 <= i64::MAX
}

/// What a text is worth.
enum Money {
    Nothing,
    Cents(i64),
    TooLarge,
}

fn filter_money(chars: &Vec<char>) -> (kept: Vec<char>)
    ensures
        kept@ == money_chars(chars@),
{
    let mut kept: Vec<char> = Vec::new();
    let mut i: usize = 0;
    assert(chars@.take(0) == Seq::<char>::empty());
    while i < chars.len()
        invariant
            i <= chars@.len(),
            kept@ == money_chars(chars@.take(i as int)),
        decreases chars@.len() - i,
    {
        let c = chars[i];
        assert(chars@.take(i + 1).drop_last() == chars@.take(i as int));
        if ('0' <= c && c <= '9') || c == '.' {
            kept.push(c);
        }
        i += 1;
    }
    assert(chars@.take(chars@.len() as int) == chars@);
    kept
}

fn are_digits(chars: &Vec<char>) -> (digits: bool)
    ensures
        digits == all_digits(chars@),
{
    let mut i: usize = 0;
    while i < chars.len()
        invariant
            i <= chars@.len(),
            forall|k: int| 0 <= k < i ==> is_digit(#[trigger] chars@[k]),
        decreases chars@.len() - i,
    {
        let c = chars[i];
        if !('0' <= c && c <= '9') {
            assert(!is_digit(chars@[i as int]));
            return false;
        }
        i += 1;
    }
    true
}

fn number(chars: &Vec<char>, limit: u64) -> (value: Option<u64>)
    ensures
        match value {
            Some(v) => number_up_to(chars@, limit as int) == Some(v as int) && v <= limit,
            None => number_up_to(chars@, limit as int) is None,
        },
{
    if are_digits(chars) {
        value_of_digits(chars, limit)
    } else {
        None
    }
}

fn money(chars: &Vec<char>) -> (worth: Money)
    ensures
        match worth {
            Money::Nothing => money_value(chars@) is None,
            Money::Cents(c) => money_value(chars@) == Some(c as int),
            Money::TooLarge => !money_fits(chars@),
        },
{
    let t = filter_money(chars);
    if t.len() == 0 {
        return Money::Nothing;
    }
    let total: u128 = match find_char(&t, '.') {
        None => match number(&t, i64::MAX as u64) {
            Some(dollars) => dollars as u128 * 100,
            None => return Money::Nothing,
        },
        Some(i) => {
            let whole = part(&t, 0, i);
            assert(whole@ == t@.take(i as int));
            let rest = part(&t, i + 1, t.len());
            assert(rest@ == t@.skip(i + 1));
            let mut frac = if rest.len() <= 2 {
                part(&rest, 0, rest.len())
            } else {
                part(&rest, 0, 2)
            };
            assert(frac@ == at_most(rest@, 2));
            while frac.len() < 2
                invariant
                    frac@.len() <= 2,
                    frac@ + Seq::new((2 - frac@.len()) as nat, |k: int| '0') == cents_digits(rest@),
                decreases 2 - frac.len(),
            {
                let ghost before = frac@;
                frac.push('0');
                assert(frac@ + Seq::new((2 - frac@.len()) as nat, |k: int| '0') == before + Seq::new(
                    (2 - before.len()) as nat,
                    |k: int| '0',
                ));
            }
            assert(frac@ == cents_digits(rest@));
            match (number(&whole, i64::MAX as u64), number(&frac, i64::MAX as u64)) {
                (Some(dollars), Some(cents)) => dollars as u128 * 100 + cents as u128,
                _ => return Money::Nothing,
            }
        },
    };
    if total <= i64::MAX as u128 {
        Money::Cents(total as i64)
    } else {
        Money::TooLarge
    }
}

fn money_cents(chars: &Vec<char>) -> (cents: Option<i64>)
    requires
        money_fits(chars@),
    ensures
        match cents {
            Some(c) => money_value(chars@) == Some(c as int),
            None => money_value(chars@) is None,
        },
{
    match money(chars) {
        Money::Cents(c) => Some(c),
        _ => None,
    }
}

/// The cents that a text names.
pub fn parse_money(s: &str) -> (cents: Option<i64>)
    requires
        money_fits(s@),
    ensures
        match cents {
            Some(c) => money_value(s@) == Some(c as int),
            None => money_value(s@) is None,
        },
{
    let chars = chars_of(s);
    money_cents(&chars)
}

/// The digits that a text begins with.
pub open spec fn leading_digits(s: Seq<char>) -> Seq<char>
    decreases s.len(),
{
    if s.len() > 0 && is_digit(s[0]) {
        seq![s[0]] + leading_digits(s.drop_first())
    } else {
        Seq::empty()
    }
}

proof fn lemma_leading_digits(s: Seq<char>)
    ensures
        all_digits(leading_digits(s)),
        leading_digits(s).len() <= s.len(),
        leading_digits(s) == s.take(leading_digits(s).len() as int),
        leading_digits(s).len() < s.len() ==> !is_digit(s[leading_digits(s).len() as int]),
    decreases s.len(),
{
    if s.len() > 0 && is_digit(s[0]) {
        lemma_leading_digits(s.drop_first());
        let rest = leading_digits(s.drop_first());
        let all = leading_digits(s);
        assert forall|i: int| 0 <= i < all.len() implies is_digit(#[trigger] all[i]) by {
            if i > 0 {
                assert(all[i] == rest[i - 1]);
            }
        }
        assert(all == s.take(all.len() as int));
    } else {
        assert(leading_digits(s) == s.take(0));
    }
}

fn digit_run(chars: &Vec<char>) -> (run: Vec<char>)
    ensures
        run@ == leading_digits(chars@),
        all_digits(run@),
        run@.len() <= chars@.len(),
{
    let mut n: usize = 0;
    assert(chars@.skip(0) == chars@);
    assert(chars@.take(0) + leading_digits(chars@.skip(0)) == leading_digits(chars@));
    while n < chars.len() && '0' <= chars[n] && chars[n] <= '9'
        invariant
            n <= chars@.len(),
            chars@.take(n as int) + leading_digits(chars@.skip(n as int)) == leading_digits(chars@),
        decreases chars@.len() - n,
    {
        assert(chars@.skip(n as int).drop_first() == chars@.skip(n + 1));
        assert(chars@.skip(n as int)[0] == chars@[n as int]);
        assert(chars@.take(n + 1) + leading_digits(chars@.skip(n + 1)) == chars@.take(n as int)
            + leading_digits(chars@.skip(n as int)));
        n += 1;
    }
    if n < chars.len() {
        assert(chars@.skip(n as int)[0] == chars@[n as int]);
    }
    assert(chars@.take(n as int) == leading_digits(chars@));
    assert(chars@.take(n as int) == chars@.subrange(0, n as int));
    proof {
        lemma_leading_digits(chars@);
    }
    part(chars, 0, n)
}

/// The number that a text begins with, where it has one that fits in 32 bits.
pub open spec fn leading_number(s: Seq<char>) -> Option<int> {
    let digits = leading_digits(trim(s));
    if digits.len() == 0 {
        None
    } else {
        number_up_to(digits, u32::MAX as int)
    }
}

fn leading_u32_chars(chars: &Vec<char>) -> (value: Option<u32>)
    ensures
        match value {
            Some(v) => leading_number(chars@) == Some(v as int),
            None => leading_number(chars@) is None,
        },
{
    let trimmed = trim_chars(chars);
    let run = digit_run(&trimmed);
    if run.len() == 0 {
        return None;
    }
    match value_of_digits(&run, u32::MAX as u64) {
        Some(v) => Some(v as u32),
        None => None,
    }
}

pub fn leading_u32(s: &str) -> (value: Option<u32>)
    ensures
        match value {
            Some(v) => leading_number(s@) == Some(v as int),
            None => leading_number(s@) is None,
        },
{
    let chars = chars_of(s);
    leading_u32_chars(&chars)
}

// ---- Old scheme: `Name (amount) - DueDay` ----

#[derive(Debug, Clone, PartialEq, Eq)]
pub enum Parsed {
    Bill { name: String, amount_cents: i64, due_day: u32 },
    /// Amount parsed but no due day — can't be scheduled; must be flagged.
    BillNoDueDay { name: String, amount_cents: i64 },
    /// A `(monthly/half)` category pod.
    Category { name: String },
    /// No recognizable bill/category pattern — ignored.
    Skip,
}

pub ghost enum ParsedView {
    Bill { name: Seq<char>, amount_cents: int, due_day: int },
    BillNoDueDay { name: Seq<char>, amount_cents: int },
    Category { name: Seq<char> },
    Skip,
}

impl View for Parsed {
    type V = ParsedView;

    open spec fn view(&self) -> ParsedView {
        match self {
            Parsed::Bill { name, amount_cents, due_day } => ParsedView::Bill {
                name: name@,
                amount_cents: *amount_cents as int,
                due_day: *due_day as int,
            },
            Parsed::BillNoDueDay { name, amount_cents } => ParsedView::BillNoDueDay {
                name: name@,
                amount_cents: *amount_cents as int,
            },
            Parsed::Category { name } => ParsedView::Category { name: name@ },
            Parsed::Skip => ParsedView::Skip,
        }
    }
}

/// The name begins with `G:`, in either case, after any white space.
pub open spec fn group_marker(name: Seq<char>) -> bool {
    let t = trim_start(name);
    t.len() >= 2 && lower_char(t[0]) == 'g' && t[1] == ':'
}

fn has_group_marker(chars: &Vec<char>) -> (marked: bool)
    ensures
        marked == group_marker(chars@),
{
    let t = trim_start_chars(chars);
    t.len() >= 2 && (t[0] == 'g' || t[0] == 'G') && t[1] == ':'
}

/// True for an explicit `G: Name` group pod — the one definition of the marker.
pub fn is_group_marker(name: &str) -> (marked: bool)
    ensures
        marked == group_marker(name@),
{
    let chars = chars_of(name);
    has_group_marker(&chars)
}

/// The group that a marked group pod stands for: what follows the marker, without
/// a leftover `(total/half)` suffix.
pub open spec fn marked_group(name: Seq<char>) -> Seq<char> {
    let g = trim(trim(name).skip(2));
    if g.len() > 0 && g.last() == ')' && last_index(g, '(') is Some {
        trim(g.take(last_index(g, '(')->0))
    } else {
        g
    }
}

/// The name ends in parentheses that are opened before they are closed.
pub open spec fn has_parens(name: Seq<char>) -> bool {
    last_index(name, '(') is Some && last_index(name, ')') is Some && last_index(name, '(')->0 < last_index(
        name,
        ')',
    )->0
}

/// What stands in the last parentheses.
pub open spec fn inside_parens(name: Seq<char>) -> Seq<char> {
    name.subrange(last_index(name, '(')->0 + 1, last_index(name, ')')->0)
}

/// The due day after the parentheses: the number that follows the first hyphen.
pub open spec fn due_day_after_parens(name: Seq<char>) -> Option<int> {
    let tail = name.skip(last_index(name, ')')->0 + 1);
    match first_index(tail, '-') {
        Some(i) => match leading_number(tail.skip(i + 1)) {
            Some(n) => if 1 <= n <= 31 { Some(n) } else { None },
            None => None,
        },
        None => None,
    }
}

/// What a name means in the old scheme.
pub open spec fn parsed(name: Seq<char>) -> ParsedView {
    if group_marker(trim(name)) {
        ParsedView::Category { name: marked_group(name) }
    } else if !has_parens(name) {
        ParsedView::Skip
    } else {
        let label = trim(name.take(last_index(name, '(')->0));
        let inside = inside_parens(name);
        if first_index(inside, '/') is Some {
            ParsedView::Category { name: label }
        } else {
            match money_value(inside) {
                None => ParsedView::Skip,
                Some(amount_cents) => match due_day_after_parens(name) {
                    Some(due_day) => ParsedView::Bill { name: label, amount_cents, due_day },
                    None => ParsedView::BillNoDueDay { name: label, amount_cents },
                },
            }
        }
    }
}

/// The amount in parentheses, where the old scheme reads one, fits in 64 bits. (It
/// reads none in a group pod: marked, or with a slash in the parentheses.)
pub open spec fn parens_fit(name: Seq<char>) -> bool {
    !group_marker(trim(name)) && has_parens(name) && first_index(inside_parens(name), '/') is None ==> money_fits(
        inside_parens(name),
    )
}

proof fn lemma_trim_start_shrinks(s: Seq<char>)
    ensures
        trim_start(s).len() <= s.len(),
    decreases s.len(),
{
    if s.len() > 0 {
        lemma_trim_start_shrinks(s.drop_first());
    }
}

fn parse_chars(chars: &Vec<char>) -> (meaning: Parsed)
    requires
        parens_fit(chars@),
    ensures
        meaning@ == parsed(chars@),
{
    // Explicit group marker: `G: Home` is the group pod for group "Home".
    let trimmed = trim_chars(chars);
    if has_group_marker(&trimmed) {
        proof {
            lemma_trim_start_shrinks(trimmed@);
        }
        let after = part(&trimmed, 2, trimmed.len());
        assert(after@ == trimmed@.skip(2));
        let g = trim_chars(&after);
        // Tolerate a leftover `(total/half)` suffix during migration.
        if g.len() > 0 && g[g.len() - 1] == ')' {
            if let Some(open) = rfind_char(&g, '(') {
                let stem = part(&g, 0, open);
                assert(stem@ == g@.take(open as int));
                let stem = trim_chars(&stem);
                return Parsed::Category { name: string_of(&stem) };
            }
        }
        return Parsed::Category { name: string_of(&g) };
    }
    let (open, close) = match (rfind_char(chars, '('), rfind_char(chars, ')')) {
        (Some(o), Some(c)) => {
            if c <= o {
                return Parsed::Skip;
            }
            (o, c)
        },
        _ => return Parsed::Skip,
    };
    let inside = part(chars, open + 1, close);
    let stem = part(chars, 0, open);
    assert(stem@ == chars@.take(open as int));
    let label = trim_chars(&stem);
    if find_char(&inside, '/').is_some() {
        return Parsed::Category { name: string_of(&label) };
    }
    let amount_cents = match money_cents(&inside) {
        Some(a) => a,
        None => return Parsed::Skip,
    };
    let n: usize = chars.len();
    let tail = part(chars, close + 1, n);
    assert(tail@ == chars@.skip(close + 1));
    let due_day: Option<u32> = match find_char(&tail, '-') {
        Some(i) => {
            let rest = part(&tail, i + 1, tail.len());
            assert(rest@ == tail@.skip(i + 1));
            leading_u32_chars(&rest)
        },
        None => None,
    };
    match due_day {
        Some(d) if 1 <= d && d <= 31 => Parsed::Bill { name: string_of(&label), amount_cents, due_day: d },
        _ => Parsed::BillNoDueDay { name: string_of(&label), amount_cents },
    }
}

pub fn parse(name: &str) -> (meaning: Parsed)
    requires
        parens_fit(name@),
    ensures
        meaning@ == parsed(name@),
{
    let chars = chars_of(name);
    parse_chars(&chars)
}

// ---- New scheme: `Group / Name / Amount / DueDay [/ Frequency]` ----

#[derive(Debug, Clone, Copy, PartialEq, Eq, Structural)]
pub enum DueDay {
    Day(u32),
    Last,
}

#[derive(Debug, Clone, Copy, PartialEq, Eq, Structural)]
pub enum Frequency {
    Month,
    Quarter,
    Year,
    /// Top up to `amount` each paycheck — not a sinking fund. Ignores the running
    /// balance; looks at how much has landed *since the last payday* (ledger) and
    /// funds only the gap up to `amount`. Keyword `topup` / `paycheck-topup`.
    Paycheck,
    /// Save toward a dated lump: accumulate `amount` across the paychecks leading
    /// up to `target`, then roll the target forward by `period_months` and repeat.
    /// For irregular-but-known bills (e.g. an $800 vet bill every 6 months).
    Drawdown { target: Date, period_months: u32 },
    /// Keep a flat level on hand: the pod targets `amount` at all times, and when
    /// spending dips it below, the next cycle refills the gap. Never skimmed, and
    /// no scheduled debit is expected — for prepaid balances and spend-and-refill
    /// pods. Keyword `keep` (aliases `refill` / `float`).
    Keep,
}

pub ghost enum FrequencyView {
    Month,
    Quarter,
    Year,
    Paycheck,
    Drawdown { target: int, period_months: int },
    Keep,
}

impl View for Frequency {
    type V = FrequencyView;

    open spec fn view(&self) -> FrequencyView {
        match self {
            Frequency::Month => FrequencyView::Month,
            Frequency::Quarter => FrequencyView::Quarter,
            Frequency::Year => FrequencyView::Year,
            Frequency::Paycheck => FrequencyView::Paycheck,
            Frequency::Drawdown { target, period_months } => FrequencyView::Drawdown {
                target: target@,
                period_months: *period_months as int,
            },
            Frequency::Keep => FrequencyView::Keep,
        }
    }
}

/// The months that groups of a number and a unit add up to: `y` is twelve,
/// `mo` or `m` is one. None where something else stands in the text.
pub open spec fn period_sum(s: Seq<char>) -> Option<int>
    decreases s.len(),
    via period_sum_shrinks
{
    if s.len() == 0 {
        Some(0)
    } else {
        let digits = leading_digits(s);
        let unit = s.skip(digits.len() as int);
        if unit.len() == 0 {
            None
        } else if unit[0] == 'y' {
            match period_sum(unit.skip(1)) {
                Some(rest) => Some(decimal_value(digits) * 12 + rest),
                None => None,
            }
        } else if unit[0] == 'm' {
            match period_sum(unit.skip(if unit.len() > 1 && unit[1] == 'o' { 2 } else { 1 })) {
                Some(rest) => Some(decimal_value(digits) + rest),
                None => None,
            }
        } else {
            None
        }
    }
}

#[via_fn]
proof fn period_sum_shrinks(s: Seq<char>) {
    lemma_leading_digits(s);
}

/// The total months of a period, where they are any.
pub open spec fn period_value(s: Seq<char>) -> Option<int> {
    match period_sum(ascii_lower(trim(s))) {
        Some(months) => if months > 0 { Some(months) } else { None },
        None => None,
    }
}

/// The total months of a period fit in 32 bits.
pub open spec fn period_fits(s: Seq<char>) -> bool {
    period_value(s) is Some ==> period_value(s)->0 <= u32::MAX
}

proof fn lemma_value_is_natural(s: Seq<char>)
    requires
        all_digits(s),
    ensures
        decimal_value(s) >= 0,
    decreases s.len(),
{
    if s.len() > 0 {
        assert(all_digits(s.drop_last()));
        lemma_value_is_natural(s.drop_last());
        assert(is_digit(s[s.len() - 1]));
    }
}

proof fn lemma_period_is_natural(s: Seq<char>)
    ensures
        period_sum(s) is Some ==> period_sum(s)->0 >= 0,
    decreases s.len(),
{
    if s.len() > 0 {
        lemma_leading_digits(s);
        lemma_value_is_natural(leading_digits(s));
        let unit = s.skip(leading_digits(s).len() as int);
        if unit.len() > 0 {
            lemma_period_is_natural(unit.skip(1));
            if unit.len() > 1 {
                lemma_period_is_natural(unit.skip(2));
            }
        }
    }
}

/// What a period comes to.
enum Period {
    Nothing,
    Months(u32),
    TooLong,
}

fn period(text: &Vec<char>) -> (length: Period)
    ensures
        match length {
            Period::Nothing => period_value(text@) is None,
            Period::Months(m) => period_value(text@) == Some(m as int),
            Period::TooLong => !period_fits(text@),
        },
{
    let trimmed = trim_chars(text);
    let mut rest = ascii_lower_chars(&trimmed);
    let ghost all = rest@;
    let mut total: u32 = 0;
    let mut over = false;
    while rest.len() > 0
        invariant
            all == ascii_lower(trim(text@)),
            match period_sum(all) {
                Some(t) => match period_sum(rest@) {
                    Some(r) => if over {
                        t > u32::MAX
                    } else {
                        t == total + r
                    },
                    None => false,
                },
                None => period_sum(rest@) is None,
            },
        decreases rest@.len(),
    {
        let run = digit_run(&rest);
        let k: usize = run.len();
        let n: usize = rest.len();
        let unit = part(&rest, k, n);
        assert(unit@ == rest@.skip(k as int));
        if unit.len() == 0 {
            return Period::Nothing;
        }
        let (years, used): (bool, usize) = if unit[0] == 'y' {
            (true, 1)
        } else if unit[0] == 'm' {
            if unit.len() > 1 && unit[1] == 'o' {
                (false, 2)
            } else {
                (false, 1)
            }
        } else {
            return Period::Nothing;  // unknown unit (days/weeks not allowed)
        };
        let m: usize = unit.len();
        let next = part(&unit, used, m);
        assert(next@ == unit@.skip(used as int));
        proof {
            lemma_leading_digits(rest@);
            lemma_value_is_natural(run@);
            lemma_period_is_natural(next@);
        }
        match value_of_digits(&run, u32::MAX as u64) {
            Some(v) => {
                let sum: u64 = if years {
                    total as u64 + v * 12
                } else {
                    total as u64 + v
                };
                if sum > u32::MAX as u64 {
                    over = true;
                } else {
                    total = sum as u32;
                }
            },
            None => {
                over = true;
            },
        }
        rest = next;
    }
    if over {
        Period::TooLong
    } else if total == 0 {
        Period::Nothing
    } else {
        Period::Months(total)
    }
}

fn period_months(text: &Vec<char>) -> (months: Option<u32>)
    requires
        period_fits(text@),
    ensures
        match months {
            Some(m) => period_value(text@) == Some(m as int),
            None => period_value(text@) is None,
        },
{
    match period(text) {
        Period::Months(m) => Some(m),
        _ => None,
    }
}

/// Parse a calendar period like `6mo`, `3m`, `1y`, `1y6mo` into total months.
/// Only `y` and `mo`/`m` are accepted — days/weeks are rejected so the period
/// stays calendar-clean.
pub fn parse_period_months(s: &str) -> (months: Option<u32>)
    requires
        period_fits(s@),
    ensures
        match months {
            Some(m) => period_value(s@) == Some(m as int),
            None => period_value(s@) is None,
        },
{
    let chars = chars_of(s);
    period_months(&chars)
}

/// A number written in decimal digits, with or without a plus sign, that fits in 32 bits.
pub open spec fn unsigned_value(s: Seq<char>) -> Option<int> {
    let t = if s.len() > 0 && s[0] == '+' { s.skip(1) } else { s };
    if t.len() == 0 {
        None
    } else {
        number_up_to(t, u32::MAX as int)
    }
}

/// The due day that a field names: `last`, or a day from 1 to 31.
pub open spec fn due_day_value(s: Seq<char>) -> Option<DueDay> {
    if ascii_lower(s) == "last"@ {
        Some(DueDay::Last)
    } else {
        match unsigned_value(ascii_lower(s)) {
            Some(n) => if 1 <= n <= 31 { Some(DueDay::Day(n as u32)) } else { None },
            None => None,
        }
    }
}

fn due_day_field(field: &Vec<char>) -> (day: Option<DueDay>)
    ensures
        day == due_day_value(field@),
{
    let lower = ascii_lower_chars(field);
    if spells(&lower, "last") {
        return Some(DueDay::Last);
    }
    let n: usize = lower.len();
    let digits = if n > 0 && lower[0] == '+' {
        part(&lower, 1, n)
    } else {
        part(&lower, 0, n)
    };
    assert(lower@.subrange(0, n as int) == lower@);
    assert(n > 0 ==> lower@.subrange(1, n as int) == lower@.skip(1));
    if digits.len() == 0 {
        return None;
    }
    match number(&digits, u32::MAX as u64) {
        Some(v) => if 1 <= v && v <= 31 {
            Some(DueDay::Day(v as u32))
        } else {
            None
        },
        None => None,
    }
}

pub fn parse_dueday(s: &str) -> (day: Option<DueDay>)
    ensures
        day == due_day_value(s@),
{
    let chars = chars_of(s);
    due_day_field(&chars)
}

/// The frequency that a word names.
pub open spec fn frequency_value(s: Seq<char>) -> Option<FrequencyView> {
    let w = ascii_lower(s);
    if w == "month"@ || w == "monthly"@ {
        Some(FrequencyView::Month)
    } else if w == "quarter"@ || w == "quarterly"@ {
        Some(FrequencyView::Quarter)
    } else if w == "year"@ || w == "yearly"@ || w == "annual"@ || w == "annually"@ {
        Some(FrequencyView::Year)
    } else if w == "topup"@ || w == "paycheck-topup"@ || w == "paycheck"@ || w == "payday"@ {
        Some(FrequencyView::Paycheck)
    } else if w == "keep"@ || w == "refill"@ || w == "float"@ {
        Some(FrequencyView::Keep)
    } else {
        None
    }
}

pub open spec fn frequency_views(f: Option<Frequency>) -> Option<FrequencyView> {
    match f {
        Some(f) => Some(f@),
        None => None,
    }
}

fn frequency_field(field: &Vec<char>) -> (frequency: Option<Frequency>)
    ensures
        frequency_views(frequency) == frequency_value(field@),
{
    let w = ascii_lower_chars(field);
    if spells(&w, "month") || spells(&w, "monthly") {
        Some(Frequency::Month)
    } else if spells(&w, "quarter") || spells(&w, "quarterly") {
        Some(Frequency::Quarter)
    } else if spells(&w, "year") || spells(&w, "yearly") || spells(&w, "annual") || spells(&w, "annually") {
        Some(Frequency::Year)
    } else if spells(&w, "topup") || spells(&w, "paycheck-topup") || spells(&w, "paycheck") || spells(
        &w,
        "payday",
    ) {
        Some(Frequency::Paycheck)
    } else if spells(&w, "keep") || spells(&w, "refill") || spells(&w, "float") {
        Some(Frequency::Keep)
    } else {
        None
    }
}

pub fn parse_freq(s: &str) -> (frequency: Option<Frequency>)
    ensures
        frequency_views(frequency) == frequency_value(s@),
{
    let chars = chars_of(s);
    frequency_field(&chars)
}

#[derive(Debug, Clone, PartialEq, Eq)]
pub struct BillName {
    /// `None` for a standalone (groupless) bill funded straight from the pool.
    pub group: Option<String>,
    pub name: String,
    pub amount_cents: i64,
    /// `None` when the name gives a frequency but no due day.
    pub due_day: Option<DueDay>,
    pub frequency: Frequency,
}

pub ghost struct BillNameView {
    pub group: Option<Seq<char>>,
    pub name: Seq<char>,
    pub amount_cents: int,
    pub due_day: Option<DueDay>,
    pub frequency: FrequencyView,
}

pub open spec fn text_view(s: Option<String>) -> Option<Seq<char>> {
    match s {
        Some(s) => Some(s@),
        None => None,
    }
}

impl View for BillName {
    type V = BillNameView;

    open spec fn view(&self) -> BillNameView {
        BillNameView {
            group: text_view(self.group),
            name: self.name@,
            amount_cents: self.amount_cents as int,
            due_day: self.due_day,
            frequency: self.frequency@,
        }
    }
}

/// The fields of a name: what stands between the separators, trimmed.
pub open spec fn fields(name: Seq<char>) -> Seq<Seq<char>> {
    Seq::new(split(name, " / "@).len(), |i: int| trim(split(name, " / "@)[i]))
}

/// The first field at or after `i` that says `drawdown`, in any case.
pub open spec fn drawdown_at(f: Seq<Seq<char>>, i: int) -> Option<int>
    decreases f.len() - i,
{
    if i >= f.len() {
        None
    } else if ascii_lower(f[i]) == "drawdown"@ {
        Some(i)
    } else {
        drawdown_at(f, i + 1)
    }
}

/// The form `[Group /] Name / Amount / drawdown / Date / Period`, with the word
/// `drawdown` in field `i`.
pub open spec fn drawdown_scheme(f: Seq<Seq<char>>, i: int) -> Option<BillNameView> {
    if i < 2 || f.len() <= i + 2 {
        None
    } else {
        match (money_value(f[i - 1]), date_named(f[i + 1], "%Y-%m-%d"@), period_value(f[i + 2])) {
            (Some(amount_cents), Some(target), Some(period_months)) => Some(
                BillNameView {
                    group: if i >= 3 { Some(f[i - 3]) } else { None },
                    name: f[i - 2],
                    amount_cents,
                    due_day: None,
                    frequency: FrequencyView::Drawdown { target: target as int, period_months },
                },
            ),
            _ => None,
        }
    }
}

/// The forms `Name / Amount / DueDay [/ Frequency]` and `Name / Amount / Frequency`.
pub open spec fn positional_scheme(group: Option<Seq<char>>, f: Seq<Seq<char>>) -> Option<BillNameView> {
    let due_day = due_day_value(f[2]);
    let frequency = if f.len() == 4 {
        if due_day is Some { frequency_value(f[3]) } else { None }
    } else if due_day is Some {
        Some(FrequencyView::Month)
    } else {
        frequency_value(f[2])
    };
    match (money_value(f[1]), frequency) {
        (Some(amount_cents), Some(frequency)) => Some(
            BillNameView { group, name: f[0], amount_cents, due_day, frequency },
        ),
        _ => None,
    }
}

/// What a name means in the new scheme.
pub open spec fn scheme(name: Seq<char>) -> Option<BillNameView> {
    let f = fields(name);
    match drawdown_at(f, 0) {
        Some(i) => drawdown_scheme(f, i),
        None => if f.len() == 3 {
            positional_scheme(None, f)
        } else if f.len() == 4 || f.len() == 5 {
            positional_scheme(Some(f[0]), f.skip(1))
        } else {
            None
        },
    }
}

/// The amount and the period that the new scheme reads in a name fit in a machine
/// number. (It reads a period only behind an amount and a date.)
pub open spec fn scheme_fits(name: Seq<char>) -> bool {
    let f = fields(name);
    match drawdown_at(f, 0) {
        Some(i) => 2 <= i && i + 2 < f.len() ==> money_fits(f[i - 1]) && (money_value(f[i - 1]) is Some && date_named(
            f[i + 1],
            "%Y-%m-%d"@,
        ) is Some ==> period_fits(f[i + 2])),
        None => {
            &&& f.len() == 3 ==> money_fits(f[1])
            &&& f.len() == 4 || f.len() == 5 ==> money_fits(f[2])
        },
    }
}

fn name_fields(name: &str) -> (out: Vec<Vec<char>>)
    ensures
        pieces(out@) == fields(name@),
{
    let chars = chars_of(name);
    let separator = chars_of(" / ");
    proof {
        reveal_strlit(" / ");
    }
    let raw = split_chars(&chars, &separator);
    let mut out: Vec<Vec<char>> = Vec::new();
    let mut i: usize = 0;
    while i < raw.len()
        invariant
            i <= raw@.len(),
            pieces(raw@) == split(name@, " / "@),
            pieces(out@) == fields(name@).take(i as int),
        decreases raw@.len() - i,
    {
        let ghost before = out@;
        let field = trim_chars(&raw[i]);
        out.push(field);
        assert(pieces(raw@)[i as int] == raw@[i as int]@);
        assert(pieces(out@) == pieces(before).push(field@));
        i += 1;
        assert(fields(name@).take(i as int) == fields(name@).take(i - 1).push(fields(name@)[i - 1]));
    }
    assert(fields(name@).take(raw@.len() as int) == fields(name@));
    out
}

fn find_drawdown(f: &Vec<Vec<char>>) -> (at: Option<usize>)
    ensures
        match at {
            Some(i) => drawdown_at(pieces(f@), 0) == Some(i as int) && i < f@.len(),
            None => drawdown_at(pieces(f@), 0) is None,
        },
{
    let mut i: usize = 0;
    while i < f.len()
        invariant
            i <= f@.len(),
            drawdown_at(pieces(f@), 0) == drawdown_at(pieces(f@), i as int),
        decreases f@.len() - i,
    {
        let word = ascii_lower_chars(&f[i]);
        assert(pieces(f@)[i as int] == f@[i as int]@);
        if spells(&word, "drawdown") {
            return Some(i);
        }
        i += 1;
    }
    None
}

pub open spec fn bill_name_view(b: Option<BillName>) -> Option<BillNameView> {
    match b {
        Some(b) => Some(b@),
        None => None,
    }
}

/// Parse the new positional scheme (None if not this scheme). Group optional (leading field):
/// `[Group /] Name / Amount / DueDay [/ Frequency]` (freq default month), `… / Amount / Frequency`
/// (no due day), or `… / Amount / drawdown / Date / Period` (dated sinking fund).
pub fn parse_scheme(pod_name: &str) -> (bill: Option<BillName>)
    requires
        scheme_fits(pod_name@),
    ensures
        bill_name_view(bill) == scheme(pod_name@),
{
    let f = name_fields(pod_name);
    let ghost v = pieces(f@);
    assert(forall|k: int| 0 <= k < v.len() ==> v[k] == f@[k]@);
    // Drawdown form: `[Group /] Name / Amount / drawdown / YYYY-MM-DD / Period`.
    if let Some(i) = find_drawdown(&f) {
        let n: usize = f.len();
        // need at least Name / Amount before `drawdown`, and Date / Period after it
        if i < 2 || n - i <= 2 {
            return None;
        }
        let amount_cents = match money_cents(&f[i - 1]) {
            Some(a) => a,
            None => return None,
        };
        let group = if i >= 3 {
            Some(string_of(&f[i - 3]))
        } else {
            None
        };
        let date = string_of(&f[i + 1]);
        let target = match Date::parse_from_str(date.as_str(), "%Y-%m-%d") {
            Some(d) => d,
            None => return None,
        };
        let period_months = match period_months(&f[i + 2]) {
            Some(p) => p,
            None => return None,
        };
        return Some(
            BillName {
                group,
                name: string_of(&f[i - 2]),
                amount_cents,
                due_day: None,
                frequency: Frequency::Drawdown { target, period_months },
            },
        );
    }
    let n: usize = f.len();
    let (group, at): (Option<String>, usize) = if n == 3 {
        (None, 0)
    } else if n == 4 || n == 5 {
        (Some(string_of(&f[0])), 1)
    } else {
        return None;
    };
    assert(n != 3 ==> forall|k: int| 0 <= k < v.len() - 1 ==> v.skip(1)[k] == v[k + 1]);
    // the rest is Name, Amount, DueDayOrFreq, (Frequency)
    let amount_cents = match money_cents(&f[at + 1]) {
        Some(a) => a,
        None => return None,
    };
    let day = due_day_field(&f[at + 2]);
    let frequency = if n - at == 4 {
        if day.is_none() {
            return None;
        }
        frequency_field(&f[at + 3])
    } else if day.is_some() {
        Some(Frequency::Month)
    } else {
        frequency_field(&f[at + 2])
    };
    match frequency {
        Some(frequency) => Some(
            BillName { group, name: string_of(&f[at]), amount_cents, due_day: day, frequency },
        ),
        None => None,
    }
}

/// A bill ready for the allocator, from either naming scheme. New-scheme pods
/// carry a group; old-scheme bills are ungrouped (`group: None`) during migration.
#[derive(Debug, Clone, PartialEq, Eq)]
pub struct DerivedBill {
    pub group: Option<String>,
    pub name: String,
    pub amount_cents: i64,
    /// `None` = no due date; fund by even accumulation over the frequency period.
    pub due_day: Option<u32>,
    pub frequency: Frequency,
}

pub ghost struct DerivedBillView {
    pub group: Option<Seq<char>>,
    pub name: Seq<char>,
    pub amount_cents: int,
    pub due_day: Option<int>,
    pub frequency: FrequencyView,
}

pub open spec fn day_view(d: Option<u32>) -> Option<int> {
    match d {
        Some(d) => Some(d as int),
        None => None,
    }
}

impl View for DerivedBill {
    type V = DerivedBillView;

    open spec fn view(&self) -> DerivedBillView {
        DerivedBillView {
            group: text_view(self.group),
            name: self.name@,
            amount_cents: self.amount_cents as int,
            due_day: day_view(self.due_day),
            frequency: self.frequency@,
        }
    }
}

/// The day of the month, with 31 for the last (clamped to the real month length downstream).
pub open spec fn day_in_month(d: Option<DueDay>) -> Option<int> {
    match d {
        Some(DueDay::Day(n)) => Some(n as int),
        Some(DueDay::Last) => Some(31),
        None => None,
    }
}

pub(crate) fn due_day_number(d: Option<DueDay>) -> (day: Option<u32>)
    ensures
        day_view(day) == day_in_month(d),
{
    match d {
        Some(DueDay::Day(n)) => Some(n),
        Some(DueDay::Last) => Some(31),
        None => None,
    }
}

/// The bill that a name declares, in either scheme.
pub open spec fn derived(name: Seq<char>) -> Option<DerivedBillView> {
    match scheme(name) {
        Some(b) => Some(
            DerivedBillView {
                group: b.group,
                name: b.name,
                amount_cents: b.amount_cents,
                due_day: day_in_month(b.due_day),
                frequency: b.frequency,
            },
        ),
        None => match parsed(name) {
            ParsedView::Bill { name, amount_cents, due_day } => Some(
                DerivedBillView {
                    group: None,
                    name,
                    amount_cents,
                    due_day: Some(due_day),
                    frequency: FrequencyView::Month,
                },
            ),
            ParsedView::BillNoDueDay { name, amount_cents } => Some(
                DerivedBillView {
                    group: None,
                    name,
                    amount_cents,
                    due_day: None,
                    frequency: FrequencyView::Month,
                },
            ),
            _ => None,
        },
    }
}

/// Every number that is read in a name fits in a machine number: by the new scheme
/// and, where that does not decide, by the old one.
pub open spec fn name_fits(name: Seq<char>) -> bool {
    scheme_fits(name) && (scheme(name) is None ==> parens_fit(name))
}

pub open spec fn derived_view(b: Option<DerivedBill>) -> Option<DerivedBillView> {
    match b {
        Some(b) => Some(b@),
        None => None,
    }
}

/// Unify both schemes into one bill, or None if the pod isn't a bill. The one
/// fallback chain every "what does this pod declare?" consumer shares. (An
/// old-scheme bill missing its due day derives with `due_day: None`.)
pub fn derive_bill(pod_name: &str) -> (bill: Option<DerivedBill>)
    requires
        name_fits(pod_name@),
    ensures
        derived_view(bill) == derived(pod_name@),
{
    if let Some(b) = parse_scheme(pod_name) {
        return Some(
            DerivedBill {
                group: b.group,
                name: b.name,
                amount_cents: b.amount_cents,
                due_day: due_day_number(b.due_day),
                frequency: b.frequency,
            },
        );
    }
    match parse(pod_name) {
        Parsed::Bill { name, amount_cents, due_day } => Some(
            DerivedBill {
                group: None,
                name,
                amount_cents,
                due_day: Some(due_day),
                frequency: Frequency::Month,
            },
        ),
        Parsed::BillNoDueDay { name, amount_cents } => Some(
            DerivedBill { group: None, name, amount_cents, due_day: None, frequency: Frequency::Month },
        ),
        _ => None,
    }
}

/// A declared due day is a day from 1 to 31, and a drawdown has none: it has a date.
pub proof fn lemma_declared_due_days(name: Seq<char>)
    ensures
        derived(name) matches Some(bill) ==> {
            &&& bill.due_day matches Some(d) ==> 1 <= d <= 31
            &&& bill.frequency is Drawdown ==> bill.due_day is None
        },
{
    if let Some(b) = scheme(name) {
        if let Some(i) = drawdown_at(fields(name), 0) {
            assert(b.due_day is None);
        } else {
            let f = fields(name);
            let g = if f.len() == 3 {
                f
            } else {
                f.skip(1)
            };
            assert(b.due_day == due_day_value(g[2]));
            assert(b.frequency is Drawdown ==> frequency_value(g[2]) is Some || frequency_value(g[3]) is Some);
        }
    }
}

fn money_in_range(chars: &Vec<char>) -> (fits: bool)
    ensures
        fits == money_fits(chars@),
{
    match money(chars) {
        Money::TooLarge => false,
        _ => true,
    }
}

fn period_in_range(chars: &Vec<char>) -> (fits: bool)
    ensures
        fits == period_fits(chars@),
{
    match period(chars) {
        Period::TooLong => false,
        _ => true,
    }
}

/// Whether the numbers that the new scheme reads in a name fit in machine numbers.
pub fn scheme_in_range(name: &str) -> (fits: bool)
    ensures
        fits == scheme_fits(name@),
{
    let f = name_fields(name);
    let ghost v = pieces(f@);
    assert(forall|k: int| 0 <= k < v.len() ==> v[k] == f@[k]@);
    let n: usize = f.len();
    match find_drawdown(&f) {
        Some(i) => {
            if i < 2 || n - i <= 2 {
                return true;
            }
            match money(&f[i - 1]) {
                Money::TooLarge => false,
                Money::Nothing => true,
                Money::Cents(_) => {
                    let date = string_of(&f[i + 1]);
                    Date::parse_from_str(date.as_str(), "%Y-%m-%d").is_none() || period_in_range(&f[i + 2])
                },
            }
        },
        None => if n == 3 {
            money_in_range(&f[1])
        } else if n == 4 || n == 5 {
            money_in_range(&f[2])
        } else {
            true
        },
    }
}

/// Whether the amount that the old scheme reads in a name fits in 64 bits.
pub fn parens_in_range(name: &str) -> (fits: bool)
    ensures
        fits == parens_fit(name@),
{
    let chars = chars_of(name);
    if has_group_marker(&trim_chars(&chars)) {
        return true;
    }
    match (rfind_char(&chars, '('), rfind_char(&chars, ')')) {
        (Some(o), Some(c)) => if o < c {
            let inside = part(&chars, o + 1, c);
            find_char(&inside, '/').is_some() || money_in_range(&inside)
        } else {
            true
        },
        _ => true,
    }
}

/// Whether every number that is read in a name fits in a machine number.
pub fn name_in_range(name: &str) -> (fits: bool)
    ensures
        fits == name_fits(name@),
{
    scheme_in_range(name) && (parse_scheme(name).is_some() || parens_in_range(name))
}

/// The bill that a name declares, or that a number in the name is out of range.
pub fn checked_bill(pod_name: &str) -> (bill: Result<Option<DerivedBill>, OutOfRange>)
    ensures
        match bill {
            Ok(b) => name_fits(pod_name@) && derived_view(b) == derived(pod_name@),
            Err(_) => !name_fits(pod_name@),
        },
{
    if name_in_range(pod_name) {
        Ok(derive_bill(pod_name))
    } else {
        Err(OutOfRange)
    }
}

proof fn lemma_trim_end_is_a_prefix(s: Seq<char>)
    ensures
        trim_end(s).len() <= s.len(),
        trim_end(s) == s.take(trim_end(s).len() as int),
        forall|i: int| 0 <= i < s.len() && !white_space(#[trigger] s[i]) ==> i < trim_end(s).len(),
    decreases s.len(),
{
    if s.len() > 0 && white_space(s.last()) {
        let rest = s.drop_last();
        lemma_trim_end_is_a_prefix(rest);
        assert(trim_end(s) == s.take(trim_end(s).len() as int));
        assert forall|i: int| 0 <= i < s.len() && !white_space(#[trigger] s[i]) implies i < trim_end(s).len() by {
            assert(rest[i] == s[i]);
        }
    } else {
        assert(s.take(s.len() as int) == s);
    }
}

proof fn lemma_trim_start_begins_with_text(s: Seq<char>)
    ensures
        trim_start(s).len() > 0 ==> !white_space(trim_start(s)[0]),
    decreases s.len(),
{
    if s.len() > 0 && white_space(s[0]) {
        lemma_trim_start_begins_with_text(s.drop_first());
    }
}

/// White space at the ends of a name does not matter for the marker.
proof fn lemma_trim_keeps_the_marker(name: Seq<char>)
    ensures
        group_marker(trim(name)) == group_marker(name),
{
    let t = trim_start(name);
    lemma_trim_start_begins_with_text(name);
    lemma_trim_end_is_a_prefix(t);
    if t.len() >= 2 && lower_char(t[0]) == 'g' && t[1] == ':' {
        assert(!white_space(t[1]));
    }
    if t.len() > 0 {
        assert(!white_space(t[0]));
        assert(trim_end(t)[0] == t[0]);
        assert(trim_start(trim_end(t)) == trim_end(t));
    }
}

/// A marked name is a category whatever stands in it; so is one with a slash in its
/// last parentheses, and no other is.
pub proof fn lemma_what_is_a_category(name: Seq<char>)
    ensures
        parsed(name) is Category <==> group_marker(name) || has_parens(name) && first_index(
            inside_parens(name),
            '/',
        ) is Some,
        group_marker(name) ==> parens_fit(name),
        parsed(name) is Category ==> parens_fit(name),
{
    lemma_trim_keeps_the_marker(name);
}

// ---- What is written is read back ----

proof fn lemma_money_chars_of_both(a: Seq<char>, b: Seq<char>)
    ensures
        money_chars(a + b) == money_chars(a) + money_chars(b),
    decreases b.len(),
{
    if b.len() == 0 {
        assert(a + b == a);
        assert(money_chars(a) + money_chars(b) == money_chars(a));
    } else {
        assert((a + b).drop_last() == a + b.drop_last());
        lemma_money_chars_of_both(a, b.drop_last());
    }
}

proof fn lemma_money_chars_are_kept(s: Seq<char>)
    requires
        forall|i: int| 0 <= i < s.len() ==> is_money_char(#[trigger] s[i]),
    ensures
        money_chars(s) == s,
    decreases s.len(),
{
    if s.len() > 0 {
        assert(is_money_char(s[s.len() - 1]));
        assert forall|i: int| 0 <= i < s.drop_last().len() implies is_money_char(#[trigger] s.drop_last()[i]) by {
            assert(is_money_char(s[i]));
        }
        lemma_money_chars_are_kept(s.drop_last());
        assert(s.drop_last().push(s.last()) == s);
    }
}

/// An amount that is written out is read back to the cent.
#[verifier::spinoff_prover]
#[verifier::rlimit(50)]
pub proof fn lemma_amounts_are_read_back(cents: int)
    requires
        0 <= cents <= i64::MAX,
    ensures
        money_value(dollars_text(cents)) == Some(cents),
{
    let c = cents as nat;
    let whole = decimal(c / 100);
    let (a, b) = (digit_char((c % 100 / 10) as int), digit_char((c % 10) as int));
    let t = whole + seq!['.', a, b];
    lemma_numbers_are_read_back(c / 100);
    assert(dollars_text(cents) == seq!['$'] + t);
    lemma_money_chars_of_both(seq!['$'], t);
    assert(money_chars(seq!['$']) == Seq::<char>::empty()) by {
        reveal_with_fuel(money_chars, 2);
        assert(seq!['$'].drop_last() == Seq::<char>::empty());
    }
    assert forall|i: int| 0 <= i < t.len() implies is_money_char(#[trigger] t[i]) by {
        if i < whole.len() {
            assert(is_digit(whole[i]));
        }
    }
    lemma_money_chars_are_kept(t);
    assert(money_chars(dollars_text(cents)) == t);
    let n = whole.len() as int;
    lemma_characters_are_found(t, '.');
    assert(t[n] == '.');
    let i = first_index(t, '.')->0;
    if i < n {
        assert(is_digit(whole[i]));
    }
    assert(t.take(n) == whole);
    let tail = t.skip(n + 1);
    assert(tail == seq![a, b]);
    assert(cents_digits(tail) == seq![a, b]);
    assert(seq![a, b].drop_last() == seq![a]);
    assert(seq![a].drop_last() == Seq::<char>::empty());
    assert(decimal_value(seq![a, b]) == c % 100) by {
        reveal_with_fuel(decimal_value, 3);
    }
    assert(all_digits(seq![a, b]));
}

/// Digits are dollars, and behind the first point cents: the first digit there is tenths
/// of a dollar, the second hundredths, and the rest are passed over.
#[verifier::spinoff_prover]
#[verifier::rlimit(50)]
pub proof fn lemma_cents_are_two_digits(whole: Seq<char>, fraction: Seq<char>)
    requires
        all_digits(whole),
        all_digits(fraction),
        decimal_value(whole) <= i64::MAX,
    ensures
        whole.len() > 0 ==> money_value(whole) == Some(100 * decimal_value(whole)),
        money_value(whole + seq!['.'] + fraction) == Some(
            100 * decimal_value(whole) + (if fraction.len() > 0 {
                10 * digit_value(fraction[0])
            } else {
                0
            }) + (if fraction.len() > 1 {
                digit_value(fraction[1])
            } else {
                0
            }),
        ),
{
    lemma_money_chars_are_kept(whole);
    lemma_characters_are_found(whole, '.');
    let t = whole + seq!['.'] + fraction;
    let n = whole.len() as int;
    assert forall|i: int| 0 <= i < t.len() implies is_money_char(#[trigger] t[i]) by {
        if i < n {
            assert(is_digit(whole[i]));
        } else if i > n {
            assert(is_digit(fraction[i - n - 1]));
        }
    }
    lemma_money_chars_are_kept(t);
    lemma_characters_are_found(t, '.');
    assert(t[n] == '.');
    let i = first_index(t, '.')->0;
    if i < n {
        assert(is_digit(whole[i]));
    }
    assert(t.take(n) == whole);
    assert(t.skip(n + 1) == fraction);
    let a = if fraction.len() > 0 {
        fraction[0]
    } else {
        '0'
    };
    let b = if fraction.len() > 1 {
        fraction[1]
    } else {
        '0'
    };
    assert(cents_digits(fraction) == seq![a, b]);
    assert(seq![a, b].drop_last() == seq![a]);
    assert(seq![a].drop_last() == Seq::<char>::empty());
    assert(decimal_value(seq![a, b]) == 10 * digit_value(a) + digit_value(b)) by {
        reveal_with_fuel(decimal_value, 3);
    }
    assert(all_digits(seq![a, b]));
}

/// Whatever is neither a digit nor a point is passed over wherever it stands in an
/// amount, and a text without any of them is no amount.
pub proof fn lemma_marks_in_an_amount_are_passed_over(before: Seq<char>, mark: Seq<char>, after: Seq<char>)
    requires
        forall|i: int| 0 <= i < mark.len() ==> !is_digit(#[trigger] mark[i]) && mark[i] != '.',
    ensures
        money_value(before + mark + after) == money_value(before + after),
        money_value(mark) is None,
{
    lemma_marks_are_no_money(mark);
    lemma_money_chars_of_both(before + mark, after);
    lemma_money_chars_of_both(before, mark);
    lemma_money_chars_of_both(before, after);
    assert(money_chars(before) + money_chars(mark) == money_chars(before));
}

proof fn lemma_marks_are_no_money(mark: Seq<char>)
    requires
        forall|i: int| 0 <= i < mark.len() ==> !is_digit(#[trigger] mark[i]) && mark[i] != '.',
    ensures
        money_chars(mark).len() == 0,
    decreases mark.len(),
{
    if mark.len() > 0 {
        assert(!is_money_char(mark[mark.len() - 1]));
        assert forall|i: int| 0 <= i < mark.drop_last().len() implies !is_digit(#[trigger] mark.drop_last()[i])
            && mark.drop_last()[i] != '.' by {
            assert(!is_digit(mark[i]));
        }
        lemma_marks_are_no_money(mark.drop_last());
    }
}

proof fn lemma_digits_are_plain(s: Seq<char>)
    requires
        all_digits(s),
    ensures
        ascii_lower(s) == s,
        is_trimmed(s),
        !s.contains('/'),
{
    assert forall|i: int| 0 <= i < s.len() implies #[trigger] ascii_lower(s)[i] == s[i] by {
        assert(is_digit(s[i]));
    }
    if s.len() > 0 {
        assert(is_digit(s[0]) && is_digit(s[s.len() - 1]));
    }
}

/// A due day that is written out is read back.
pub proof fn lemma_due_days_are_read_back(day: int)
    requires
        1 <= day <= 31,
    ensures
        due_day_value(decimal(day as nat)) == Some(DueDay::Day(day as u32)),
        due_day_value("last"@) == Some(DueDay::Last),
{
    let s = decimal(day as nat);
    reveal_strlit("last");
    lemma_numbers_are_read_back(day as nat);
    lemma_digits_are_plain(s);
    assert(is_digit(s[0]));
    assert("last"@[0] == 'l');
    assert(ascii_lower("last"@) == "last"@);
}

/// A plus before a due day changes nothing, and no day past the thirty-first or before
/// the first is a due day.
pub proof fn lemma_only_days_of_a_month_are_due_days(day: nat)
    requires
        day <= u32::MAX,
    ensures
        due_day_value(seq!['+'] + decimal(day)) == due_day_value(decimal(day)),
        due_day_value(decimal(day)) is Some <==> 1 <= day <= 31,
{
    let s = decimal(day);
    let signed = seq!['+'] + s;
    reveal_strlit("last");
    lemma_numbers_are_read_back(day);
    lemma_digits_are_plain(s);
    assert(is_digit(s[0]));
    assert(ascii_lower(signed) == signed) by {
        assert forall|i: int| 0 <= i < signed.len() implies lower_char(#[trigger] signed[i]) == signed[i] by {
            if i > 0 {
                assert(is_digit(s[i - 1]));
            }
        }
    }
    assert("last"@[0] == 'l');
    assert(signed[0] == '+');
    assert(signed.skip(1) == s);
}

proof fn lemma_leading_digits_end(digits: Seq<char>, rest: Seq<char>)
    requires
        all_digits(digits),
        rest.len() > 0 ==> !is_digit(rest[0]),
    ensures
        leading_digits(digits + rest) == digits,
    decreases digits.len(),
{
    let s = digits + rest;
    if digits.len() > 0 {
        assert(is_digit(digits[0]));
        assert forall|i: int| 0 <= i < digits.drop_first().len() implies is_digit(
            #[trigger] digits.drop_first()[i],
        ) by {
            assert(is_digit(digits[i + 1]));
        }
        lemma_leading_digits_end(digits.drop_first(), rest);
        assert(s.drop_first() == digits.drop_first() + rest);
        assert(seq![digits[0]] + digits.drop_first() == digits);
    } else {
        assert(s == rest);
    }
}

/// A period is added up part by part: so many years are twelve months each, so many
/// months themselves; and nothing comes to nothing.
#[verifier::spinoff_prover]
#[verifier::rlimit(50)]
pub proof fn lemma_periods_add_up(n: nat, rest: Seq<char>)
    ensures
        period_sum(Seq::empty()) == Some(0int),
        period_sum(decimal(n) + seq!['y'] + rest) == match period_sum(rest) {
            Some(months) => Some(12 * n + months),
            None => None,
        },
        period_sum(decimal(n) + seq!['m', 'o'] + rest) == match period_sum(rest) {
            Some(months) => Some(n + months),
            None => None,
        },
        rest.len() == 0 || rest[0] != 'o' ==> period_sum(decimal(n) + seq!['m'] + rest) == match period_sum(rest) {
            Some(months) => Some(n + months),
            None => None,
        },
        period_sum(decimal(n)) is None,
{
    let d = decimal(n);
    lemma_numbers_are_read_back(n);
    let years = seq!['y'] + rest;
    let months = seq!['m', 'o'] + rest;
    let short = seq!['m'] + rest;
    assert(d + seq!['y'] + rest == d + years);
    assert(d + seq!['m', 'o'] + rest == d + months);
    assert(d + seq!['m'] + rest == d + short);
    lemma_leading_digits_end(d, years);
    lemma_leading_digits_end(d, months);
    lemma_leading_digits_end(d, short);
    lemma_leading_digits_end(d, Seq::empty());
    assert(d + Seq::<char>::empty() == d);
    assert((d + years).skip(d.len() as int) == years && years.skip(1) == rest);
    assert((d + months).skip(d.len() as int) == months && months.skip(2) == rest);
    assert((d + short).skip(d.len() as int) == short && short.skip(1) == rest);
    assert(d.skip(d.len() as int).len() == 0);
}

/// A text that can stand in a name as one of its fields.
pub open spec fn is_field(s: Seq<char>) -> bool {
    s.len() > 0 && is_trimmed(s) && !s.contains('/')
}

proof fn lemma_separators_need_a_slash(s: Seq<char>, i: int)
    requires
        occurs_at(s, " / "@, i),
    ensures
        0 <= i,
        i + 2 < s.len(),
        s[i + 1] == '/',
{
    reveal_strlit(" / ");
    assert(s.subrange(i, i + 3)[1] == " / "@[1]);
}

proof fn lemma_trimmed_stays(s: Seq<char>)
    requires
        is_trimmed(s),
    ensures
        trim(s) == s,
{
}

/// Fields put together with ` / ` between them are the fields of the name.
pub proof fn lemma_fields_are_read_back(parts: Seq<Seq<char>>)
    requires
        parts.len() > 0,
        forall|i: int| 0 <= i < parts.len() ==> is_field(#[trigger] parts[i]),
    ensures
        fields(joined_by(parts, " / "@)) == parts,
{
    lemma_fields_are_split(parts);
    let s = joined_by(parts, " / "@);
    let f = fields(s);
    assert(split(s, " / "@) == parts);
    assert forall|i: int| 0 <= i < parts.len() implies #[trigger] f[i] == parts[i] by {
        assert(is_field(parts[i]));
        lemma_trimmed_stays(parts[i]);
    }
    assert(f == parts);
}

#[verifier::spinoff_prover]
#[verifier::rlimit(50)]
proof fn lemma_fields_are_split(parts: Seq<Seq<char>>)
    requires
        parts.len() > 0,
        forall|i: int| 0 <= i < parts.len() ==> is_field(#[trigger] parts[i]),
    ensures
        split(joined_by(parts, " / "@), " / "@) == parts,
    decreases parts.len(),
{
    reveal_strlit(" / ");
    let sep = " / "@;
    let s = joined_by(parts, sep);
    let head = parts[0];
    assert(is_field(head));
    lemma_a_search_finds_the_first_place(s, sep, 0);
    if parts.len() == 1 {
        if let Some(i) = first_at(s, sep, 0) {
            lemma_separators_need_a_slash(s, i);
            assert(head[i + 1] == '/');
        }
        assert(split(s, sep) == seq![s]);
        assert(parts == seq![head]);
    } else {
        let others = parts.drop_first();
        let rest = joined_by(others, sep);
        assert forall|i: int| 0 <= i < others.len() implies is_field(#[trigger] others[i]) by {
            assert(is_field(parts[i + 1]));
        }
        lemma_fields_are_split(others);
        let n = head.len() as int;
        assert(s == head + sep + rest);
        assert(s.subrange(n, n + 3) == sep);
        assert(occurs_at(s, sep, n));
        assert forall|j: int| 0 <= j < n implies !#[trigger] occurs_at(s, sep, j) by {
            if occurs_at(s, sep, j) {
                lemma_separators_need_a_slash(s, j);
                if j + 1 < n {
                    assert(head[j + 1] == '/');
                } else {
                    assert(s[n] == ' ');
                }
            }
        }
        assert(first_at(s, sep, 0) == Some(n));
        assert(s.take(n) == head);
        assert(s.skip(n + 3) == rest);
        assert(split(s, sep) == seq![head] + split(rest, sep));
        assert(seq![head] + others == parts);
    }
}

proof fn lemma_drawdown_at(f: Seq<Seq<char>>, i: int)
    requires
        0 <= i,
    ensures
        match drawdown_at(f, i) {
            Some(k) => i <= k < f.len() && ascii_lower(f[k]) == "drawdown"@ && forall|j: int|
                i <= j < k ==> ascii_lower(#[trigger] f[j]) != "drawdown"@,
            None => forall|j: int| i <= j < f.len() ==> ascii_lower(#[trigger] f[j]) != "drawdown"@,
        },
    decreases f.len() - i,
{
    if i < f.len() && ascii_lower(f[i]) != "drawdown"@ {
        lemma_drawdown_at(f, i + 1);
    }
}

/// Amounts and numbers can stand in a name, and say no `drawdown`.
proof fn lemma_numbers_are_fields(cents: int, n: nat)
    requires
        cents >= 0,
    ensures
        is_field(dollars_text(cents)),
        is_field(decimal(n)),
        ascii_lower(dollars_text(cents)) != "drawdown"@,
        ascii_lower(decimal(n)) != "drawdown"@,
{
    reveal_strlit("drawdown");
    let c = cents as nat;
    let text = dollars_text(cents);
    let whole = decimal(c / 100);
    let (a, b) = (digit_char((c % 100 / 10) as int), digit_char((c % 10) as int));
    lemma_numbers_are_read_back(c / 100);
    lemma_numbers_are_read_back(n);
    lemma_digits_are_plain(decimal(n));
    assert(text == seq!['$'] + whole + seq!['.', a, b]);
    assert forall|i: int| 0 <= i < text.len() implies #[trigger] text[i] != '/' by {
        if 1 <= i < 1 + whole.len() {
            assert(is_digit(whole[i - 1]));
        }
    }
    assert(ascii_lower(text)[0] == '$');
    assert(is_digit(decimal(n)[0]));
    assert("drawdown"@[0] == 'd');
}

/// The fields of a bill's name: its group, where it has one, its name and its amount.
pub open spec fn bill_fields(group: Option<Seq<char>>, name: Seq<char>, cents: int) -> Seq<Seq<char>> {
    match group {
        Some(g) => seq![g, name, dollars_text(cents)],
        None => seq![name, dollars_text(cents)],
    }
}

/// The group and the name can stand in a name, and neither says `drawdown`.
pub open spec fn can_be_named(group: Option<Seq<char>>, name: Seq<char>) -> bool {
    &&& is_field(name) && ascii_lower(name) != "drawdown"@
    &&& group matches Some(g) ==> is_field(g) && ascii_lower(g) != "drawdown"@
}

/// A bill named by `[Group /] Name / Amount / DueDay` is read back: monthly, on that
/// day of the month.
pub proof fn lemma_names_with_a_due_day_are_read_back(group: Option<Seq<char>>, name: Seq<char>, cents: int, day: int)
    requires
        can_be_named(group, name),
        0 <= cents <= i64::MAX,
        1 <= day <= 31,
    ensures
        scheme(joined_by(bill_fields(group, name, cents).push(decimal(day as nat)), " / "@)) == Some(
            BillNameView {
                group,
                name,
                amount_cents: cents,
                due_day: Some(DueDay::Day(day as u32)),
                frequency: FrequencyView::Month,
            },
        ),
{
    let f = bill_fields(group, name, cents).push(decimal(day as nat));
    lemma_numbers_are_fields(cents, day as nat);
    lemma_amounts_are_read_back(cents);
    lemma_due_days_are_read_back(day);
    lemma_fields_are_read_back(f);
    lemma_drawdown_at(f, 0);
    if group is Some {
        assert(f.skip(1) == seq![name, dollars_text(cents), decimal(day as nat)]);
    }
}

/// A bill named by `[Group /] Name / Amount / Frequency` is read back: without a due
/// day, at the frequency that the word names.
pub proof fn lemma_names_with_a_frequency_are_read_back(
    group: Option<Seq<char>>,
    name: Seq<char>,
    cents: int,
    word: Seq<char>,
)
    requires
        can_be_named(group, name),
        0 <= cents <= i64::MAX,
        is_field(word),
        ascii_lower(word) != "drawdown"@,
        due_day_value(word) is None,
        frequency_value(word) is Some,
    ensures
        scheme(joined_by(bill_fields(group, name, cents).push(word), " / "@)) == Some(
            BillNameView { group, name, amount_cents: cents, due_day: None, frequency: frequency_value(word)->0 },
        ),
{
    let f = bill_fields(group, name, cents).push(word);
    lemma_numbers_are_fields(cents, 0);
    lemma_amounts_are_read_back(cents);
    lemma_fields_are_read_back(f);
    lemma_drawdown_at(f, 0);
    if group is Some {
        assert(f.skip(1) == seq![name, dollars_text(cents), word]);
    }
}

/// A bill named by `Group / Name / Amount / DueDay / Frequency` is read back with both.
pub proof fn lemma_names_with_both_are_read_back(
    group: Seq<char>,
    name: Seq<char>,
    cents: int,
    day: int,
    word: Seq<char>,
)
    requires
        can_be_named(Some(group), name),
        0 <= cents <= i64::MAX,
        1 <= day <= 31,
        is_field(word),
        ascii_lower(word) != "drawdown"@,
        frequency_value(word) is Some,
    ensures
        scheme(joined_by(bill_fields(Some(group), name, cents).push(decimal(day as nat)).push(word), " / "@)) == Some(
            BillNameView {
                group: Some(group),
                name,
                amount_cents: cents,
                due_day: Some(DueDay::Day(day as u32)),
                frequency: frequency_value(word)->0,
            },
        ),
{
    let f = bill_fields(Some(group), name, cents).push(decimal(day as nat)).push(word);
    lemma_numbers_are_fields(cents, day as nat);
    lemma_amounts_are_read_back(cents);
    lemma_due_days_are_read_back(day);
    lemma_fields_are_read_back(f);
    lemma_drawdown_at(f, 0);
    assert(f.skip(1) == seq![name, dollars_text(cents), decimal(day as nat), word]);
}

/// A period in months, written out, is read back.
pub proof fn lemma_periods_are_read_back(months: nat)
    requires
        months > 0,
    ensures
        is_field(decimal(months) + seq!['m', 'o']),
        period_value(decimal(months) + seq!['m', 'o']) == Some(months as int),
{
    let d = decimal(months);
    let text = d + seq!['m', 'o'];
    lemma_numbers_are_read_back(months);
    assert(is_digit(d[0]));
    assert(text.last() == 'o');
    assert(text.len() == d.len() + 2);
    assert forall|i: int| 0 <= i < text.len() implies #[trigger] text[i] != '/' by {
        if i < d.len() {
            assert(is_digit(d[i]));
        }
    }
    assert(!text.contains('/'));
    lemma_trimmed_stays(text);
    assert(ascii_lower(text) == text) by {
        assert forall|i: int| 0 <= i < text.len() implies #[trigger] ascii_lower(text)[i] == text[i] by {
            if i < d.len() {
                assert(is_digit(d[i]));
            }
        }
    }
    lemma_periods_add_up(months, Seq::empty());
    assert(text + Seq::<char>::empty() == text);
}

/// Of a drawdown's name only the group, the name and the amount before the word count:
/// fields before them change nothing.
pub proof fn lemma_fields_before_a_drawdown_change_nothing(
    before: Seq<Seq<char>>,
    group: Seq<char>,
    name: Seq<char>,
    rest: Seq<Seq<char>>,
    cents: int,
)
    requires
        can_be_named(Some(group), name),
        0 <= cents <= i64::MAX,
        rest.len() > 0,
        ascii_lower(rest[0]) == "drawdown"@,
        forall|i: int| 0 <= i < before.len() ==> is_field(#[trigger] before[i]) && ascii_lower(before[i]) != "drawdown"@,
        forall|i: int| 0 <= i < rest.len() ==> is_field(#[trigger] rest[i]),
    ensures
        scheme(joined_by(before + (bill_fields(Some(group), name, cents) + rest), " / "@)) == scheme(
            joined_by(bill_fields(Some(group), name, cents) + rest, " / "@),
        ),
{
    let own = bill_fields(Some(group), name, cents) + rest;
    let all = before + own;
    let n = before.len() as int;
    lemma_numbers_are_fields(cents, 0);
    assert forall|i: int| 0 <= i < own.len() implies is_field(#[trigger] own[i]) by {
        if i >= 3 {
            assert(own[i] == rest[i - 3]);
        }
    }
    assert forall|i: int| 0 <= i < all.len() implies is_field(#[trigger] all[i]) by {
        if i < n {
            assert(all[i] == before[i]);
        } else {
            assert(all[i] == own[i - n]);
        }
    }
    lemma_fields_are_read_back(own);
    lemma_fields_are_read_back(all);
    lemma_drawdown_at(own, 0);
    lemma_drawdown_at(all, 0);
    assert(own[3] == rest[0] && all[n + 3] == rest[0]);
    assert(ascii_lower(own[0]) != "drawdown"@ && ascii_lower(own[1]) != "drawdown"@ && ascii_lower(own[2])
        != "drawdown"@);
    let k = drawdown_at(all, 0)->0;
    assert(k == n + 3) by {
        if k < n {
            assert(all[k] == before[k]);
        } else if k < n + 3 {
            assert(all[k] == own[k - n]);
        }
    }
    assert(drawdown_at(own, 0) == Some(3int));
    assert forall|i: int| 0 <= i < own.len() implies #[trigger] all[n + i] == own[i] by {}
    assert(all[k - 3] == own[0] && all[k - 2] == own[1] && all[k - 1] == own[2]);
    if own.len() > 5 {
        assert(all[k + 1] == own[4] && all[k + 2] == own[5]);
    }
}

/// A drawdown named by `[Group /] Name / Amount / drawdown / Date / Period` is read
/// back: without a due day, on its date and with its period.
#[verifier::spinoff_prover]
#[verifier::rlimit(50)]
pub proof fn lemma_drawdowns_are_read_back(
    group: Option<Seq<char>>,
    name: Seq<char>,
    cents: int,
    target: i32,
    months: nat,
)
    requires
        can_be_named(group, name),
        0 <= cents <= i64::MAX,
        0 <= year_of(target as int) <= 9999,
        months > 0,
    ensures
        scheme(
            joined_by(
                bill_fields(group, name, cents).push("drawdown"@).push(date_text(target)).push(
                    decimal(months) + seq!['m', 'o'],
                ),
                " / "@,
            ),
        ) == Some(
            BillNameView {
                group,
                name,
                amount_cents: cents,
                due_day: None,
                frequency: FrequencyView::Drawdown { target: target as int, period_months: months as int },
            },
        ),
{
    reveal_strlit("drawdown");
    let f = bill_fields(group, name, cents).push("drawdown"@).push(date_text(target)).push(
        decimal(months) + seq!['m', 'o'],
    );
    let at = bill_fields(group, name, cents).len() as int;
    lemma_numbers_are_fields(cents, 0);
    lemma_amounts_are_read_back(cents);
    lemma_periods_are_read_back(months);
    lemma_written_days_are_read_back(target);
    assert(is_field("drawdown"@));
    assert(ascii_lower("drawdown"@) == "drawdown"@);
    assert(is_field(date_text(target)));
    lemma_fields_are_read_back(f);
    lemma_drawdown_at(f, 0);
    assert(f[at] == "drawdown"@);
    assert(drawdown_at(f, 0) == Some(at)) by {
        let k = drawdown_at(f, 0)->0;
        if k < at {
            assert(ascii_lower(f[k]) != "drawdown"@);
        }
    }
}

/// A bill named the old way, `Name (Amount) - DueDay`, is read back.
#[verifier::spinoff_prover]
#[verifier::rlimit(50)]
pub proof fn lemma_old_names_are_read_back(name: Seq<char>, cents: int, day: int)
    requires
        name.len() > 0,
        is_trimmed(name),
        !group_marker(name),
        0 <= cents <= i64::MAX,
        1 <= day <= 31,
    ensures
        parsed(name + seq![' ', '('] + dollars_text(cents) + seq![')', ' ', '-', ' '] + decimal(day as nat)) == (
        ParsedView::Bill { name, amount_cents: cents, due_day: day }),
{
    let amount = dollars_text(cents);
    let d = decimal(day as nat);
    let head = name + seq![' ', '('];
    let tail = seq![')', ' ', '-', ' '] + d;
    let text = head + amount + tail;
    assert(name + seq![' ', '('] + amount + seq![')', ' ', '-', ' '] + d == text);
    lemma_amounts_are_read_back(cents);
    lemma_every_cent_is_written(cents);
    lemma_numbers_are_read_back(day as nat);
    lemma_numbers_are_fields(cents, day as nat);
    let open = name.len() as int + 1;
    let close = head.len() as int + amount.len();
    assert forall|i: int| 0 <= i < amount.len() implies #[trigger] amount[i] != '(' && amount[i] != ')' by {
        lemma_amount_characters(cents, i);
    }
    assert forall|i: int| open < i < text.len() implies #[trigger] text[i] != '(' by {
        if i < close {
            assert(text[i] == amount[i - head.len()]);
        } else if i >= close + 4 {
            assert(text[i] == d[i - close - 4]);
            assert(is_digit(d[i - close - 4]));
        }
    }
    assert forall|i: int| close < i < text.len() implies #[trigger] text[i] != ')' by {
        if i >= close + 4 {
            assert(text[i] == d[i - close - 4]);
            assert(is_digit(d[i - close - 4]));
        }
    }
    lemma_characters_are_found(text, '(');
    lemma_characters_are_found(text, ')');
    assert(text[open] == '(' && text[close] == ')');
    assert(last_index(text, '(') == Some(open));
    assert(last_index(text, ')') == Some(close));
    assert(text.take(open) == name + seq![' ']);
    lemma_trim_of_label(name);
    assert(inside_parens(text) == amount);
    lemma_characters_are_found(amount, '/');
    assert(first_index(amount, '/') is None);
    let after = text.skip(close + 1);
    assert(after == seq![' ', '-', ' '] + d);
    lemma_characters_are_found(after, '-');
    assert(after[1] == '-' && after[0] == ' ');
    assert(first_index(after, '-') == Some(1int));
    let number = after.skip(2);
    assert(number == seq![' '] + d);
    lemma_number_after_a_blank(d);
    lemma_old_name_is_unmarked(name, text);
}

proof fn lemma_amount_characters(cents: int, i: int)
    requires
        cents >= 0,
        0 <= i < dollars_text(cents).len(),
    ensures
        ({
            let c = dollars_text(cents)[i];
            is_digit(c) || c == '$' || c == '.'
        }),
{
    let n = cents as nat;
    let whole = decimal(n / 100);
    lemma_numbers_are_read_back(n / 100);
    if 1 <= i < 1 + whole.len() {
        assert(dollars_text(cents)[i] == whole[i - 1]);
        assert(is_digit(whole[i - 1]));
    }
}

proof fn lemma_trim_of_label(name: Seq<char>)
    requires
        is_trimmed(name),
    ensures
        trim(name + seq![' ']) == name,
{
    let s = name + seq![' '];
    reveal_with_fuel(trim_start, 2);
    reveal_with_fuel(trim_end, 2);
    if name.len() > 0 {
        assert(s[0] == name[0]);
        assert(trim_start(s) == s);
        assert(s.drop_last() == name);
        assert(trim_end(s) == trim_end(name));
        assert(trim_end(name) == name);
    } else {
        assert(s.drop_first() == Seq::<char>::empty());
        assert(trim_start(s) == Seq::<char>::empty());
    }
}

proof fn lemma_number_after_a_blank(digits: Seq<char>)
    requires
        all_digits(digits),
        digits.len() > 0,
        decimal_value(digits) <= 31,
    ensures
        leading_number(seq![' '] + digits) == Some(decimal_value(digits)),
{
    let s = seq![' '] + digits;
    reveal_with_fuel(trim_start, 2);
    assert(s.drop_first() == digits);
    assert(is_digit(digits[0]) && is_digit(digits[digits.len() - 1]));
    assert(trim_start(s) == digits);
    assert(trim(s) == digits);
    lemma_leading_digits_end(digits, Seq::empty());
    assert(digits + Seq::<char>::empty() == digits);
}

proof fn lemma_old_name_is_unmarked(name: Seq<char>, text: Seq<char>)
    requires
        name.len() > 0,
        is_trimmed(name),
        !group_marker(name),
        text.len() > name.len() + 1,
        text.take(name.len() as int + 1) == name + seq![' '],
    ensures
        !group_marker(trim(text)),
{
    assert(text[0] == text.take(name.len() as int + 1)[0]);
    assert(text[0] == name[0]);
    assert(trim_start(text) == text);
    assert(trim_start(name) == name);
    let t = trim(text);
    lemma_trim_end_is_a_prefix(text);
    if t.len() > 0 {
        assert(t[0] == text[0]);
        assert(trim_start(t) == t);
    }
    if t.len() >= 2 {
        assert(t[1] == text[1]);
        if name.len() >= 2 {
            assert(text[1] == text.take(name.len() as int + 1)[1]);
        } else {
            assert(text[1] == text.take(name.len() as int + 1)[1]);
            assert(text[1] == ' ');
        }
    }
}

/// A bill named the old way without a due day is read back as one that cannot be
/// scheduled, and a slash in the parentheses makes a group.
#[verifier::spinoff_prover]
#[verifier::rlimit(50)]
pub proof fn lemma_old_names_without_a_day_are_read_back(name: Seq<char>, cents: int, total: Seq<char>, half: Seq<char>)
    requires
        name.len() > 0,
        is_trimmed(name),
        !group_marker(name),
        0 <= cents <= i64::MAX,
        !total.contains('(') && !total.contains(')'),
        !half.contains('(') && !half.contains(')'),
    ensures
        parsed(name + seq![' ', '('] + dollars_text(cents) + seq![')']) == (ParsedView::BillNoDueDay {
            name,
            amount_cents: cents,
        }),
        parsed(name + seq![' ', '('] + (total + seq!['/'] + half) + seq![')']) == (ParsedView::Category { name }),
{
    let amount = dollars_text(cents);
    lemma_amounts_are_read_back(cents);
    lemma_numbers_are_fields(cents, 0);
    assert forall|i: int| 0 <= i < amount.len() implies #[trigger] amount[i] != '(' && amount[i] != ')' by {
        lemma_amount_characters(cents, i);
    }
    lemma_old_form(name, amount);
    lemma_characters_are_found(amount, '/');
    let text = name + seq![' ', '('] + amount + seq![')'];
    let after = text.skip(last_index(text, ')')->0 + 1);
    assert(after.len() == 0);
    lemma_characters_are_found(after, '-');
    assert(!after.contains('-'));
    let both = total + seq!['/'] + half;
    assert forall|i: int| 0 <= i < both.len() implies #[trigger] both[i] != '(' && both[i] != ')' by {
        if i < total.len() {
            assert(both[i] == total[i]);
            assert(total.contains(total[i]));
        } else if i > total.len() {
            assert(both[i] == half[i - total.len() - 1]);
            assert(half.contains(half[i - total.len() - 1]));
        }
    }
    lemma_old_form(name, both);
    lemma_characters_are_found(both, '/');
    assert(both[total.len() as int] == '/');
    assert(both.contains('/'));
}

#[verifier::spinoff_prover]
#[verifier::rlimit(50)]
proof fn lemma_old_form(name: Seq<char>, inside: Seq<char>)
    requires
        name.len() > 0,
        is_trimmed(name),
        !group_marker(name),
        forall|i: int| 0 <= i < inside.len() ==> #[trigger] inside[i] != '(' && inside[i] != ')',
    ensures
        ({
            let text = name + seq![' ', '('] + inside + seq![')'];
            &&& !group_marker(trim(text))
            &&& has_parens(text)
            &&& inside_parens(text) == inside
            &&& trim(text.take(last_index(text, '(')->0)) == name
            &&& last_index(text, ')') == Some(text.len() - 1)
        }),
{
    let text = name + seq![' ', '('] + inside + seq![')'];
    let open = name.len() as int + 1;
    let close = open + 1 + inside.len();
    assert forall|i: int| open < i < text.len() implies #[trigger] text[i] != '(' by {
        if i < close {
            assert(text[i] == inside[i - open - 1]);
        }
    }
    lemma_characters_are_found(text, '(');
    lemma_characters_are_found(text, ')');
    assert(text[open] == '(' && text[close] == ')');
    assert(last_index(text, '(') == Some(open));
    assert(last_index(text, ')') == Some(close));
    assert(text.take(open) == name + seq![' ']);
    lemma_trim_of_label(name);
    assert(inside_parens(text) == inside);
    lemma_old_name_is_unmarked(name, text);
}

/// A group marked `G:` is read back by its name, in either case and whatever white space
/// stands around it.
pub proof fn lemma_marked_groups_are_read_back(marker: char, name: Seq<char>)
    requires
        marker == 'G' || marker == 'g',
        name.len() > 0,
        is_trimmed(name),
        name.last() != ')',
    ensures
        parsed(seq![marker, ':', ' '] + name) == (ParsedView::Category { name }),
{
    let text = seq![marker, ':', ' '] + name;
    assert(text[0] == marker && text[1] == ':');
    assert(text.last() == name.last());
    assert(is_trimmed(text));
    lemma_trimmed_stays(text);
    assert(trim_start(text) == text);
    let after = text.skip(2);
    assert(after == seq![' '] + name);
    reveal_with_fuel(trim_start, 2);
    assert(after.drop_first() == name);
    assert(trim_start(after) == name);
    assert(trim(after) == name);
}

/// The words of a frequency, in any case, and no others name it.
pub proof fn lemma_frequencies_by_their_words(s: Seq<char>)
    ensures
        ({
            let w = ascii_lower(s);
            &&& frequency_value(s) == frequency_value(w)
            &&& frequency_value(s) is Some ==> !(frequency_value(s)->0 is Drawdown)
            &&& w == "month"@ || w == "monthly"@ ==> frequency_value(s) == Some(FrequencyView::Month)
            &&& w == "quarter"@ || w == "quarterly"@ ==> frequency_value(s) == Some(FrequencyView::Quarter)
            &&& w == "year"@ || w == "yearly"@ || w == "annual"@ || w == "annually"@ ==> frequency_value(s) == Some(
                FrequencyView::Year,
            )
            &&& w == "topup"@ || w == "paycheck-topup"@ || w == "paycheck"@ || w == "payday"@ ==> frequency_value(s)
                == Some(FrequencyView::Paycheck)
            &&& w == "keep"@ || w == "refill"@ || w == "float"@ ==> frequency_value(s) == Some(FrequencyView::Keep)
        }),
{
    reveal_strlit("month");
    reveal_strlit("monthly");
    reveal_strlit("quarter");
    reveal_strlit("quarterly");
    reveal_strlit("year");
    reveal_strlit("yearly");
    reveal_strlit("annual");
    reveal_strlit("annually");
    reveal_strlit("topup");
    reveal_strlit("paycheck-topup");
    reveal_strlit("paycheck");
    reveal_strlit("payday");
    reveal_strlit("keep");
    reveal_strlit("refill");
    reveal_strlit("float");
    let w = ascii_lower(s);
    assert(ascii_lower(w) == w) by {
        assert forall|i: int| 0 <= i < w.len() implies #[trigger] ascii_lower(w)[i] == w[i] by {
            lemma_lower_stays(s[i]);
        }
    }
    assert("month"@.len() == 5 && "monthly"@.len() == 7 && "quarter"@.len() == 7 && "quarterly"@.len() == 9);
    assert("year"@.len() == 4 && "yearly"@.len() == 6 && "annual"@.len() == 6 && "annually"@.len() == 8);
    assert("topup"@.len() == 5 && "paycheck-topup"@.len() == 14 && "paycheck"@.len() == 8 && "payday"@.len() == 6);
    assert("keep"@.len() == 4 && "refill"@.len() == 6 && "float"@.len() == 5);
    assert("month"@[0] == 'm' && "monthly"@[0] == 'm' && "quarter"@[0] == 'q' && "quarterly"@[0] == 'q');
    assert("year"@[0] == 'y' && "yearly"@[0] == 'y' && "annual"@[0] == 'a' && "annually"@[0] == 'a');
    assert("topup"@[0] == 't' && "paycheck-topup"@[0] == 'p' && "paycheck"@[0] == 'p' && "payday"@[0] == 'p');
    assert("keep"@[0] == 'k' && "refill"@[0] == 'r' && "float"@[0] == 'f');
}

proof fn lemma_lower_stays(c: char)
    ensures
        lower_char(lower_char(c)) == lower_char(c),
{
}

/// The bill that a name declares is the one of the new scheme where that reads the
/// name, and of the old scheme only where it does not.
pub proof fn lemma_the_new_scheme_comes_first(name: Seq<char>)
    ensures
        scheme(name) matches Some(b) ==> derived(name) is Some && {
            let bill = derived(name)->0;
            &&& bill.group == b.group && bill.name == b.name && bill.amount_cents == b.amount_cents
            &&& bill.frequency == b.frequency
            &&& b.due_day is None ==> bill.due_day is None
            &&& b.due_day matches Some(DueDay::Day(n)) ==> bill.due_day == Some(n as int)
            &&& b.due_day == Some(DueDay::Last) ==> bill.due_day == Some(31int)
        },
        scheme(name) is None ==> match parsed(name) {
            ParsedView::Bill { name: n, amount_cents, due_day } => derived(name) is Some && derived(name)->0.name == n
                && derived(name)->0.amount_cents == amount_cents && derived(name)->0.due_day == Some(due_day) && derived(
                name,
            )->0.group is None && derived(name)->0.frequency is Month,
            ParsedView::BillNoDueDay { name: n, amount_cents } => derived(name) is Some && derived(name)->0.name == n
                && derived(name)->0.amount_cents == amount_cents && derived(name)->0.due_day is None && derived(
                name,
            )->0.group is None && derived(name)->0.frequency is Month,
            _ => derived(name) is None,
        },
{
}

/// A leftover suffix in parentheses is no part of a marked group's name.
#[verifier::spinoff_prover]
#[verifier::rlimit(50)]
pub proof fn lemma_a_leftover_suffix_is_dropped(marker: char, name: Seq<char>, inside: Seq<char>)
    requires
        marker == 'G' || marker == 'g',
        name.len() > 0,
        is_trimmed(name),
        !inside.contains('('),
    ensures
        parsed(seq![marker, ':', ' '] + name + seq![' ', '('] + inside + seq![')']) == (ParsedView::Category { name }),
{
    let group = name + seq![' ', '('] + inside + seq![')'];
    let text = seq![marker, ':', ' '] + name + seq![' ', '('] + inside + seq![')'];
    assert(text == seq![marker, ':', ' '] + group);
    assert(text[0] == marker && text[1] == ':' && text.last() == ')');
    assert(is_trimmed(text));
    lemma_trimmed_stays(text);
    assert(trim_start(text) == text);
    let after = text.skip(2);
    assert(after == seq![' '] + group);
    assert(group[0] == name[0] && group.last() == ')');
    reveal_with_fuel(trim_start, 2);
    assert(after.drop_first() == group);
    assert(trim_start(after) == group);
    assert(trim(after) == group);
    let open = name.len() as int + 1;
    lemma_characters_are_found(group, '(');
    assert(group[open] == '(');
    let k = last_index(group, '(')->0;
    if k > open {
        if k < group.len() - 1 {
            assert(group[k] == inside[k - open - 1]);
            assert(inside.contains('('));
        }
    }
    assert(group.take(open) == name + seq![' ']);
    lemma_trim_of_label(name);
}

} // verus!
