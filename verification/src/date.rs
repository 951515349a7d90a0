//! Calendar days. A `Date` is a day of the proleptic Gregorian calendar, held as
//! its number counted from 1 January of year 1 (day 1); chrono does the
//! conversions between day numbers and years, months and days.

use crate::text::{decimal, digit_char, digit_value, is_digit};
use chrono::{Datelike, Months, NaiveDate};
use vstd::prelude::*;

verus! {

/// The first and last year that chrono can represent.
pub const MIN_YEAR: i32 = -262143;
pub const MAX_YEAR: i32 = 262142;

/// The day numbers of 1 January `MIN_YEAR` and 31 December `MAX_YEAR`.
pub const FIRST_DAY: i32 = -95746129;
pub const LAST_DAY: i32 = 95745399;

pub open spec fn is_leap(year: int) -> bool {
    year % 4 == 0 && (year % 100 != 0 || year % 400 == 0)
}

/// How many days the month has.
pub open spec fn month_len(year: int, month: int) -> int {
    if month == 2 {
        if is_leap(year) { 29 } else { 28 }
    } else if month == 4 || month == 6 || month == 9 || month == 11 {
        30
    } else {
        31
    }
}

/// The number of the last day before 1 January of `year`.
pub open spec fn days_before_year(year: int) -> int {
    365 * (year - 1) + (year - 1) / 4 - (year - 1) / 100 + (year - 1) / 400
}

/// How many days of `year` lie before the first of `month`.
pub open spec fn days_before_month(year: int, month: int) -> int
    decreases month,
{
    if month <= 1 {
        0
    } else {
        days_before_month(year, month - 1) + month_len(year, month - 1)
    }
}

/// The number of a calendar day.
pub open spec fn day_number(year: int, month: int, day: int) -> int {
    days_before_year(year) + days_before_month(year, month) + day
}

/// The calendar day exists.
pub open spec fn valid_ymd(year: int, month: int, day: int) -> bool {
    &&& 1 <= month <= 12
    &&& 1 <= day <= month_len(year, month)
}

/// The calendar day exists and chrono can represent it.
pub open spec fn representable(year: int, month: int, day: int) -> bool {
    valid_ymd(year, month, day) && MIN_YEAR <= year && year <= MAX_YEAR
}

/// `n` is the number of the calendar day `year`-`month`-`day`.
pub open spec fn is_ymd(n: int, year: int, month: int, day: int) -> bool {
    valid_ymd(year, month, day) && day_number(year, month, day) == n
}

/// The year, month and day whose number is `n`.
pub open spec fn ymd(n: int) -> (int, int, int) {
    choose|c: (int, int, int)| #[trigger] is_ymd(n, c.0, c.1, c.2)
}

pub open spec fn year_of(n: int) -> int {
    ymd(n).0
}

pub open spec fn month_of(n: int) -> int {
    ymd(n).1
}

pub open spec fn day_of(n: int) -> int {
    ymd(n).2
}

/// Days since Monday of the day's week: Monday is 0, Sunday is 6. (Day 1 is a Monday.)
pub open spec fn weekday_of(n: int) -> int {
    (n - 1) % 7
}

/// The day `months` months later (earlier where negative): the same day of the
/// month, or the month's last day where the month is too short.
pub open spec fn shift_months(n: int, months: int) -> int {
    let index = year_of(n) * 12 + (month_of(n) - 1) + months;
    let year = index / 12;
    let month = index % 12 + 1;
    let len = month_len(year, month);
    day_number(year, month, if day_of(n) <= len { day_of(n) } else { len })
}

/// chrono can represent the day.
pub open spec fn on_calendar(n: int) -> bool {
    FIRST_DAY <= n <= LAST_DAY
}

proof fn lemma_month_lengths_sum(year: int)
    ensures
        days_before_month(year, 1) == 0,
        days_before_month(year, 2) == 31,
        days_before_month(year, 3) == 31 + month_len(year, 2),
        days_before_month(year, 4) == 62 + month_len(year, 2),
        days_before_month(year, 5) == 92 + month_len(year, 2),
        days_before_month(year, 6) == 123 + month_len(year, 2),
        days_before_month(year, 7) == 153 + month_len(year, 2),
        days_before_month(year, 8) == 184 + month_len(year, 2),
        days_before_month(year, 9) == 215 + month_len(year, 2),
        days_before_month(year, 10) == 245 + month_len(year, 2),
        days_before_month(year, 11) == 276 + month_len(year, 2),
        days_before_month(year, 12) == 306 + month_len(year, 2),
{
    reveal_with_fuel(days_before_month, 13);
}

/// A year is 365 days long, a leap year 366.
pub proof fn lemma_year_length(year: int)
    ensures
        days_before_year(year + 1) - days_before_year(year) == if is_leap(year) { 366int } else { 365int },
        days_before_year(year + 1) == day_number(year, 12, 31),
{
    lemma_month_lengths_sum(year);
}

/// Days are numbered in calendar order.
pub proof fn lemma_numbers_follow_the_calendar(y1: int, m1: int, d1: int, y2: int, m2: int, d2: int)
    requires
        valid_ymd(y1, m1, d1),
        valid_ymd(y2, m2, d2),
    ensures
        day_number(y1, m1, d1) < day_number(y2, m2, d2) <==> (y1 < y2 || (y1 == y2 && (m1 < m2 || (m1 == m2 && d1 < d2)))),
        day_number(y1, m1, d1) == day_number(y2, m2, d2) <==> (y1 == y2 && m1 == m2 && d1 == d2),
{
    lemma_month_lengths_sum(y1);
    lemma_month_lengths_sum(y2);
    lemma_years_grow(y1, y2);
    lemma_years_grow(y2, y1);
}

proof fn lemma_years_grow(a: int, b: int)
    ensures
        a < b ==> days_before_year(a) + (if is_leap(a) { 366int } else { 365int }) <= days_before_year(b),
        a <= b ==> days_before_year(a) <= days_before_year(b),
    decreases b - a,
{
    if a < b {
        lemma_year_length(a);
        lemma_years_grow(a + 1, b);
    }
}

/// A day number stands for one calendar day.
pub proof fn lemma_ymd_is_unique(n: int, year: int, month: int, day: int)
    requires
        is_ymd(n, year, month, day),
    ensures
        ymd(n) == (year, month, day),
{
    let c = ymd(n);
    assert(is_ymd(n, (year, month, day).0, (year, month, day).1, (year, month, day).2));
    assert(is_ymd(n, c.0, c.1, c.2));
    lemma_numbers_follow_the_calendar(year, month, day, c.0, c.1, c.2);
}

/// Every day number stands for a calendar day.
pub proof fn lemma_ymd_exists(n: int)
    ensures
        is_ymd(n, year_of(n), month_of(n), day_of(n)),
    decreases if n >= 1 { n - 1 } else { 1 - n },
{
    if n == 1 {
        lemma_month_lengths_sum(1);
        assert(is_ymd(1, (1int, 1int, 1int).0, (1int, 1int, 1int).1, (1int, 1int, 1int).2));
    } else if n > 1 {
        lemma_ymd_exists(n - 1);
        let (y, m, d) = ymd(n - 1);
        lemma_month_lengths_sum(y);
        lemma_month_lengths_sum(y + 1);
        lemma_year_length(y);
        let c = if d < month_len(y, m) {
            (y, m, d + 1)
        } else if m < 12 {
            (y, m + 1, 1)
        } else {
            (y + 1, 1, 1)
        };
        assert(is_ymd(n, c.0, c.1, c.2));
    } else {
        lemma_ymd_exists(n + 1);
        let (y, m, d) = ymd(n + 1);
        lemma_month_lengths_sum(y);
        lemma_month_lengths_sum(y - 1);
        lemma_year_length(y - 1);
        let c = if d > 1 {
            (y, m, d - 1)
        } else if m > 1 {
            (y, m - 1, month_len(y, m - 1))
        } else {
            (y - 1, 12, 31)
        };
        assert(is_ymd(n, c.0, c.1, c.2));
    }
}

/// The bounds of chrono's calendar, in years and in day numbers.
pub proof fn lemma_calendar_bounds(year: int, month: int, day: int)
    requires
        valid_ymd(year, month, day),
    ensures
        MIN_YEAR <= year <= MAX_YEAR <==> on_calendar(day_number(year, month, day)),
{
    lemma_month_lengths_sum(MIN_YEAR as int);
    lemma_month_lengths_sum(MAX_YEAR as int);
    assert(day_number(MIN_YEAR as int, 1, 1) == FIRST_DAY);
    assert(day_number(MAX_YEAR as int, 12, 31) == LAST_DAY);
    lemma_numbers_follow_the_calendar(year, month, day, MIN_YEAR as int, 1, 1);
    lemma_numbers_follow_the_calendar(year, month, day, MAX_YEAR as int, 12, 31);
    lemma_numbers_follow_the_calendar(MAX_YEAR as int, 12, 31, year, month, day);
}

/// `NaiveDate::from_ymd_opt`: the number of a calendar day, none where the day
/// does not exist or its year is out of chrono's range.
#[verifier::external_body]
fn number_from_ymd(year: i32, month: u32, day: u32) -> (number: Option<i32>)
    ensures
        match number {
            Some(n) => representable(year as int, month as int, day as int) && n == day_number(
                year as int,
                month as int,
                day as int,
            ),
            None => !representable(year as int, month as int, day as int),
        },
{
    NaiveDate::from_ymd_opt(year, month, day).map(|d| d.num_days_from_ce())
}

/// `Datelike::year`, `month` and `day` of the `NaiveDate` with this number.
#[verifier::external_body]
fn ymd_from_number(number: i32) -> (date: (i32, u32, u32))
    requires
        on_calendar(number as int),
    ensures
        is_ymd(number as int, date.0 as int, date.1 as int, date.2 as int),
{
    let d = NaiveDate::from_num_days_from_ce_opt(number).unwrap();
    (d.year(), d.month(), d.day())
}

/// `Datelike::weekday` of the `NaiveDate` with this number, in days since Monday.
#[verifier::external_body]
fn weekday_from_number(number: i32) -> (weekday: u32)
    requires
        on_calendar(number as int),
    ensures
        weekday == weekday_of(number as int),
{
    NaiveDate::from_num_days_from_ce_opt(number).unwrap().weekday().num_days_from_monday()
}

/// `NaiveDate::checked_add_months`: the day that many months later, clamped to
/// the month's length; none where it leaves chrono's range.
#[verifier::external_body]
fn number_plus_months(number: i32, months: u32) -> (moved: Option<i32>)
    requires
        on_calendar(number as int),
    ensures
        match moved {
            Some(n) => n == shift_months(number as int, months as int) && on_calendar(n as int),
            None => !on_calendar(shift_months(number as int, months as int)),
        },
{
    NaiveDate::from_num_days_from_ce_opt(number).unwrap()
        .checked_add_months(Months::new(months)).map(|d| d.num_days_from_ce())
}

/// `NaiveDate::checked_sub_months`: the day that many months earlier, clamped to
/// the month's length; none where it leaves chrono's range.
#[verifier::external_body]
fn number_minus_months(number: i32, months: u32) -> (moved: Option<i32>)
    requires
        on_calendar(number as int),
    ensures
        match moved {
            Some(n) => n == shift_months(number as int, -(months as int)) && on_calendar(n as int),
            None => !on_calendar(shift_months(number as int, -(months as int))),
        },
{
    NaiveDate::from_num_days_from_ce_opt(number).unwrap()
        .checked_sub_months(Months::new(months)).map(|d| d.num_days_from_ce())
}


/// How many days the month has.
pub fn month_length(year: i32, month: u32) -> (days: u32)
    ensures
        days == month_len(year as int, month as int),
{
    if month == 2 {
        if year % 4 == 0 && (year % 100 != 0 || year % 400 == 0) {
            29
        } else {
            28
        }
    } else if month == 4 || month == 6 || month == 9 || month == 11 {
        30
    } else {
        31
    }
}

/// The number that the two decimal digits at `i` write.
pub open spec fn two_digits(s: Seq<char>, i: int) -> int {
    digit_value(s[i]) * 10 + digit_value(s[i + 1])
}

/// The text has the form `2026-05-01`: four, two and two digits between hyphens.
pub open spec fn is_iso_day(s: Seq<char>) -> bool {
    &&& s.len() == 10
    &&& forall|i: int| 0 <= i < 10 ==> if i == 4 || i == 7 { #[trigger] s[i] == '-' } else { is_digit(s[i]) }
}

/// The number of the day that such a text names, none where there is no such day.
pub open spec fn iso_day(s: Seq<char>) -> Option<i32> {
    let year = two_digits(s, 0) * 100 + two_digits(s, 2);
    let month = two_digits(s, 5);
    let day = two_digits(s, 8);
    if valid_ymd(year, month, day) {
        Some(day_number(year, month, day) as i32)
    } else {
        None
    }
}

/// What `NaiveDate::parse_from_str` makes of a text under a format, as a day number.
pub uninterp spec fn parsed_date(text: Seq<char>, format: Seq<char>) -> Option<i32>;

/// The number of the day that a text names under a format: what is said of texts
/// like `2026-05-01` under `%Y-%m-%d`, and what chrono makes of any other.
pub open spec fn date_named(text: Seq<char>, format: Seq<char>) -> Option<i32> {
    if is_iso_day(text) && format == "%Y-%m-%d"@ {
        iso_day(text)
    } else {
        parsed_date(text, format)
    }
}

/// `NaiveDate::parse_from_str`: the number of the day that the text names under
/// the strftime format, none where chrono rejects it. Four, two and two digits
/// between hyphens are under `%Y-%m-%d` the year, month and day, and rejected where
/// there is no such day; chrono accepts other texts too (blanks before a number, a
/// sign, fewer digits).
#[verifier::external_body]
fn number_from_text(text: &str, format: &str) -> (number: Option<i32>)
    ensures
        number == (if is_iso_day(text@) && format@ == "%Y-%m-%d"@ {
            iso_day(text@)
        } else {
            parsed_date(text@, format@)
        }),
        match number {
            Some(n) => on_calendar(n as int),
            None => true,
        },
{
    NaiveDate::parse_from_str(text, format).ok().map(|d| d.num_days_from_ce())
}

/// A number below a hundred in two decimal digits.
pub open spec fn digit_pair(n: int) -> Seq<char> {
    seq![digit_char(n / 10), digit_char(n % 10)]
}

/// A year in four decimal digits or more, with a sign where it lies outside 0 to 9999.
pub open spec fn year_text(year: int) -> Seq<char> {
    let size = if year < 0 { -year } else { year };
    let digits = if size <= 9999 {
        digit_pair(size / 100) + digit_pair(size % 100)
    } else {
        decimal(size as nat)
    };
    if year < 0 {
        "-"@ + digits
    } else if year > 9999 {
        "+"@ + digits
    } else {
        digits
    }
}

/// The day with this number written out (`2026-05-01`).
pub open spec fn date_text(number: i32) -> Seq<char> {
    let (year, month, day) = ymd(number as int);
    year_text(year) + "-"@ + digit_pair(month) + "-"@ + digit_pair(day)
}

/// `NaiveDate`'s `Display`: year, month and day between hyphens, in four, two and
/// two digits; a year before 0 or after 9999 has a sign, and as many digits as it needs.
#[verifier::external_body]
fn text_from_number(number: i32) -> (text: String)
    requires
        on_calendar(number as int),
    ensures
        text@ == date_text(number),
{
    NaiveDate::from_num_days_from_ce_opt(number).unwrap().to_string()
}

proof fn lemma_digit_pair(n: int)
    requires
        0 <= n < 100,
    ensures
        digit_pair(n).len() == 2,
        is_digit(digit_pair(n)[0]),
        is_digit(digit_pair(n)[1]),
        digit_value(digit_pair(n)[0]) * 10 + digit_value(digit_pair(n)[1]) == n,
{
}

/// A day of a year with four digits, written out, reads back as the same day.
pub proof fn lemma_written_days_are_read_back(number: i32)
    requires
        0 <= year_of(number as int) <= 9999,
    ensures
        is_iso_day(date_text(number)),
        date_named(date_text(number), "%Y-%m-%d"@) == Some(number),
{
    let (year, month, day) = ymd(number as int);
    let text = date_text(number);
    lemma_ymd_exists(number as int);
    lemma_digit_pair(year / 100);
    lemma_digit_pair(year % 100);
    lemma_digit_pair(month);
    lemma_digit_pair(day);
    reveal_strlit("-");
    assert(text == digit_pair(year / 100) + digit_pair(year % 100) + seq!['-'] + digit_pair(month) + seq!['-']
        + digit_pair(day));
    assert(two_digits(text, 0) == year / 100 && two_digits(text, 2) == year % 100);
    assert(two_digits(text, 5) == month && two_digits(text, 8) == day);
}

/// A day of the week.
#[derive(Debug, Clone, Copy, PartialEq, Eq, Hash, Structural)]
pub enum Weekday {
    Mon,
    Tue,
    Wed,
    Thu,
    Fri,
    Sat,
    Sun,
}

impl Weekday {
    /// Days since Monday.
    pub open spec fn index(self) -> int {
        match self {
            Weekday::Mon => 0,
            Weekday::Tue => 1,
            Weekday::Wed => 2,
            Weekday::Thu => 3,
            Weekday::Fri => 4,
            Weekday::Sat => 5,
            Weekday::Sun => 6,
        }
    }

    pub fn num_days_from_monday(self) -> (days: u32)
        ensures
            days == self.index(),
    {
        match self {
            Weekday::Mon => 0,
            Weekday::Tue => 1,
            Weekday::Wed => 2,
            Weekday::Thu => 3,
            Weekday::Fri => 4,
            Weekday::Sat => 5,
            Weekday::Sun => 6,
        }
    }
}

/// A calendar day.
#[derive(Debug, Clone, Copy, PartialEq, Eq, PartialOrd, Ord, Hash, Structural)]
pub struct Date {
    days: i32,
}

impl View for Date {
    type V = int;

    /// The day's number.
    closed spec fn view(&self) -> int {
        self.days as int
    }
}

impl Date {
    #[verifier::type_invariant]
    spec fn representable_day(self) -> bool {
        on_calendar(self.days as int)
    }

    /// The calendar day, none where it does not exist or chrono cannot represent it.
    pub fn from_ymd_opt(year: i32, month: u32, day: u32) -> (date: Option<Date>)
        ensures
            match date {
                Some(d) => representable(year as int, month as int, day as int) && d@ == day_number(
                    year as int,
                    month as int,
                    day as int,
                ),
                None => !representable(year as int, month as int, day as int),
            },
    {
        match number_from_ymd(year, month, day) {
            Some(days) => {
                proof {
                    lemma_calendar_bounds(year as int, month as int, day as int);
                }
                Some(Date { days })
            },
            None => None,
        }
    }

    /// The day that `text` names under a strftime `format`, none where chrono rejects it.
    pub fn parse_from_str(text: &str, format: &str) -> (date: Option<Date>)
        ensures
            match date {
                Some(d) => date_named(text@, format@) is Some && date_named(text@, format@)->0 == d@,
                None => date_named(text@, format@) is None,
            },
    {
        match number_from_text(text, format) {
            Some(days) => Some(Date { days }),
            None => None,
        }
    }

    /// The day's number.
    pub fn number(&self) -> (number: i32)
        ensures
            number == self@,
            on_calendar(number as int),
    {
        proof {
            use_type_invariant(self);
        }
        self.days
    }

    /// The year, month and day of the month.
    pub fn ymd(&self) -> (date: (i32, u32, u32))
        ensures
            is_ymd(self@, date.0 as int, date.1 as int, date.2 as int),
            ymd(self@) == (date.0 as int, date.1 as int, date.2 as int),
            MIN_YEAR <= date.0 <= MAX_YEAR,
    {
        proof {
            use_type_invariant(self);
        }
        let date = ymd_from_number(self.days);
        proof {
            lemma_ymd_is_unique(self@, date.0 as int, date.1 as int, date.2 as int);
            lemma_calendar_bounds(date.0 as int, date.1 as int, date.2 as int);
        }
        date
    }

    /// Days since Monday of the day's week.
    pub fn weekday(&self) -> (weekday: u32)
        ensures
            weekday == weekday_of(self@),
            weekday < 7,
    {
        proof {
            use_type_invariant(self);
        }
        weekday_from_number(self.days)
    }

    /// The day `days` days later (earlier where negative).
    pub fn plus_days(&self, days: i32) -> (date: Date)
        requires
            on_calendar(self@ + days),
        ensures
            date@ == self@ + days,
    {
        proof {
            use_type_invariant(self);
        }
        Date { days: self.days + days }
    }

    /// The same day of the month `months` months later, or the month's last day
    /// where the month is too short; none where chrono cannot represent it.
    pub fn checked_add_months(&self, months: u32) -> (date: Option<Date>)
        ensures
            match date {
                Some(d) => d@ == shift_months(self@, months as int) && on_calendar(d@),
                None => !on_calendar(shift_months(self@, months as int)),
            },
    {
        proof {
            use_type_invariant(self);
        }
        match number_plus_months(self.days, months) {
            Some(days) => Some(Date { days }),
            None => None,
        }
    }

    /// The same day of the month `months` months earlier, or the month's last day
    /// where the month is too short; none where chrono cannot represent it.
    pub fn checked_sub_months(&self, months: u32) -> (date: Option<Date>)
        ensures
            match date {
                Some(d) => d@ == shift_months(self@, -(months as int)) && on_calendar(d@),
                None => !on_calendar(shift_months(self@, -(months as int))),
            },
    {
        proof {
            use_type_invariant(self);
        }
        match number_minus_months(self.days, months) {
            Some(days) => Some(Date { days }),
            None => None,
        }
    }

    /// The day written out (`2026-05-01`).
    pub fn text(&self) -> (text: String)
        ensures
            text@ == date_text(self@ as i32),
    {
        proof {
            use_type_invariant(self);
        }
        text_from_number(self.days)
    }
}

/// Moving by months moves the month by as many and keeps the day, or takes the month's
/// last day where it is too short.
pub proof fn lemma_months_are_shifted(n: int, months: int)
    ensures
        ({
            let then = shift_months(n, months);
            let len = month_len(year_of(then), month_of(then));
            &&& year_of(then) * 12 + month_of(then) == year_of(n) * 12 + month_of(n) + months
            &&& day_of(then) == if day_of(n) <= len { day_of(n) } else { len }
        }),
{
    lemma_ymd_exists(n);
    let index = year_of(n) * 12 + (month_of(n) - 1) + months;
    let (year, month) = (index / 12, index % 12 + 1);
    let len = month_len(year, month);
    let day = if day_of(n) <= len { day_of(n) } else { len };
    lemma_ymd_is_unique(shift_months(n, months), year, month, day);
}

} // verus!
