//! Text: the string operations that the pod-name grammar and the reports are
//! written with, stated over sequences of characters.

use vstd::prelude::*;
use vstd::string::StringExecFns;

verus! {

/// `String::push` appends the character.
pub assume_specification[ String::push ](s: &mut String, c: char)
    ensures
        final(s)@ == old(s)@.push(c),
;

/// The characters with the Unicode property `White_Space`.
pub open spec fn white_space(c: char) -> bool {
    let n = c as u32;
    ||| 0x09 <= n <= 0x0d
    ||| n == 0x20
    ||| n == 0x85
    ||| n == 0xa0
    ||| n == 0x1680
    ||| 0x2000 <= n <= 0x200a
    ||| n == 0x2028
    ||| n == 0x2029
    ||| n == 0x202f
    ||| n == 0x205f
    ||| n == 0x3000
}

/// `char::is_whitespace`: whether the character has the property `White_Space`.
pub assume_specification[ char::is_whitespace ](c: char) -> (white: bool)
    ensures
        white == white_space(c),
;

/// What `str::to_lowercase` makes of a text.
pub uninterp spec fn lowercase(text: Seq<char>) -> Seq<char>;

/// `str::to_lowercase`: the text in lower case by the Unicode rules.
#[verifier::external_body]
pub(crate) fn to_lowercase(text: &str) -> (lower: String)
    ensures
        lower@ == lowercase(text@),
{
    text.to_lowercase()
}

/// The characters of a string.
pub(crate) fn chars_of(s: &str) -> (chars: Vec<char>)
    ensures
        chars@ == s@,
{
    let mut chars: Vec<char> = Vec::new();
    for c in it: s.chars()
        invariant
            chars@ == it.seq().take(it.index()),
            it.seq() == s@,
    {
        chars.push(c);
    }
    chars
}

/// The string of some characters.
pub(crate) fn string_of(chars: &Vec<char>) -> (s: String)
    ensures
        s@ == chars@,
{
    let mut s = String::new();
    let mut i: usize = 0;
    while i < chars.len()
        invariant
            i <= chars@.len(),
            s@ == chars@.take(i as int),
        decreases chars@.len() - i,
    {
        s.push(chars[i]);
        i += 1;
        assert(chars@.take(i as int) == chars@.take(i - 1).push(chars@[i - 1]));
    }
    assert(chars@.take(chars@.len() as int) == chars@);
    s
}

/// The characters from `from` up to `to`.
pub(crate) fn part(chars: &Vec<char>, from: usize, to: usize) -> (piece: Vec<char>)
    requires
        from <= to <= chars@.len(),
    ensures
        piece@ == chars@.subrange(from as int, to as int),
{
    let mut piece: Vec<char> = Vec::new();
    let mut i: usize = from;
    while i < to
        invariant
            from <= i <= to <= chars@.len(),
            piece@ == chars@.subrange(from as int, i as int),
        decreases to - i,
    {
        piece.push(chars[i]);
        i += 1;
        assert(piece@ == chars@.subrange(from as int, i as int));
    }
    piece
}

/// Whether the characters spell the string.
pub(crate) fn spells(chars: &Vec<char>, s: &str) -> (same: bool)
    ensures
        same == (chars@ == s@),
{
    let other = chars_of(s);
    same_chars(chars, &other)
}

pub(crate) fn same_chars(a: &Vec<char>, b: &Vec<char>) -> (same: bool)
    ensures
        same == (a@ == b@),
{
    if a.len() != b.len() {
        return false;
    }
    let mut i: usize = 0;
    while i < a.len()
        invariant
            i <= a@.len(),
            a@.len() == b@.len(),
            a@.take(i as int) == b@.take(i as int),
        decreases a@.len() - i,
    {
        if a[i] != b[i] {
            assert(a@[i as int] != b@[i as int]);
            return false;
        }
        assert(a@.take(i + 1) == a@.take(i as int).push(a@[i as int]));
        assert(b@.take(i + 1) == b@.take(i as int).push(b@[i as int]));
        i += 1;
    }
    assert(a@ == a@.take(a@.len() as int));
    assert(b@ == b@.take(b@.len() as int));
    true
}

/// Whether two strings are the same text.
pub(crate) fn same_text(a: &str, b: &str) -> (same: bool)
    ensures
        same == (a@ == b@),
{
    let x = chars_of(a);
    spells(&x, b)
}

// ---- Trimming ----

pub open spec fn trim_start(s: Seq<char>) -> Seq<char>
    decreases s.len(),
{
    if s.len() > 0 && white_space(s[0]) {
        trim_start(s.drop_first())
    } else {
        s
    }
}

pub open spec fn trim_end(s: Seq<char>) -> Seq<char>
    decreases s.len(),
{
    if s.len() > 0 && white_space(s.last()) {
        trim_end(s.drop_last())
    } else {
        s
    }
}

/// The text without the white space at its ends.
pub open spec fn trim(s: Seq<char>) -> Seq<char> {
    trim_end(trim_start(s))
}

pub(crate) fn trim_start_chars(chars: &Vec<char>) -> (rest: Vec<char>)
    ensures
        rest@ == trim_start(chars@),
{
    let mut i: usize = 0;
    assert(chars@.skip(0) == chars@);
    while i < chars.len() && chars[i].is_whitespace()
        invariant
            i <= chars@.len(),
            trim_start(chars@) == trim_start(chars@.skip(i as int)),
        decreases chars@.len() - i,
    {
        assert(chars@.skip(i as int).drop_first() == chars@.skip(i + 1));
        i += 1;
    }
    assert(chars@.skip(i as int) == chars@.subrange(i as int, chars@.len() as int));
    part(chars, i, chars.len())
}

pub(crate) fn trim_chars(chars: &Vec<char>) -> (rest: Vec<char>)
    ensures
        rest@ == trim(chars@),
{
    let begun = trim_start_chars(chars);
    let mut n: usize = begun.len();
    assert(begun@.take(n as int) == begun@);
    while n > 0 && begun[n - 1].is_whitespace()
        invariant
            n <= begun@.len(),
            trim_end(begun@) == trim_end(begun@.take(n as int)),
        decreases n,
    {
        assert(begun@.take(n as int).drop_last() == begun@.take(n - 1));
        n -= 1;
    }
    assert(begun@.take(n as int) == begun@.subrange(0, n as int));
    part(&begun, 0, n)
}

// ---- Letters and digits ----

pub open spec fn lower_char(c: char) -> char {
    if 'A' <= c && c <= 'Z' {
        (c as u8 + 32) as char
    } else {
        c
    }
}

/// The text with its ASCII capitals in lower case.
pub open spec fn ascii_lower(s: Seq<char>) -> Seq<char> {
    Seq::new(s.len(), |i: int| lower_char(s[i]))
}

pub(crate) fn ascii_lower_chars(chars: &Vec<char>) -> (lower: Vec<char>)
    ensures
        lower@ == ascii_lower(chars@),
{
    let mut lower: Vec<char> = Vec::new();
    let mut i: usize = 0;
    while i < chars.len()
        invariant
            i <= chars@.len(),
            lower@ == ascii_lower(chars@).take(i as int),
        decreases chars@.len() - i,
    {
        let c = chars[i];
        let l = if 'A' <= c && c <= 'Z' {
            (c as u8 + 32) as char
        } else {
            c
        };
        lower.push(l);
        i += 1;
        assert(lower@ == ascii_lower(chars@).take(i as int));
    }
    assert(ascii_lower(chars@).take(chars@.len() as int) == ascii_lower(chars@));
    lower
}

pub open spec fn is_digit(c: char) -> bool {
    '0' <= c && c <= '9'
}

pub open spec fn all_digits(s: Seq<char>) -> bool {
    forall|i: int| 0 <= i < s.len() ==> is_digit(#[trigger] s[i])
}

pub open spec fn digit_value(c: char) -> int {
    c as int - '0' as int
}

/// The number that decimal digits write.
pub open spec fn decimal_value(s: Seq<char>) -> int
    decreases s.len(),
{
    if s.len() == 0 {
        0
    } else {
        decimal_value(s.drop_last()) * 10 + digit_value(s.last())
    }
}

proof fn lemma_prefix_value(s: Seq<char>, k: int)
    requires
        all_digits(s),
        0 <= k <= s.len(),
    ensures
        0 <= decimal_value(s.take(k)) <= decimal_value(s),
    decreases s.len(),
{
    if k == s.len() {
        assert(s.take(k) == s);
        if s.len() > 0 {
            lemma_prefix_value(s.drop_last(), k - 1);
        }
    } else {
        lemma_prefix_value(s.drop_last(), k);
        assert(s.drop_last().take(k) == s.take(k));
    }
}

/// The number that decimal digits write, none where it is over `limit`.
pub(crate) fn value_of_digits(chars: &Vec<char>, limit: u64) -> (value: Option<u64>)
    requires
        all_digits(chars@),
    ensures
        match value {
            Some(v) => v == decimal_value(chars@) && v <= limit,
            None => decimal_value(chars@) > limit,
        },
{
    let mut value: u64 = 0;
    let mut i: usize = 0;
    while i < chars.len()
        invariant
            all_digits(chars@),
            i <= chars@.len(),
            value == decimal_value(chars@.take(i as int)),
            value <= limit,
        decreases chars@.len() - i,
    {
        assert(is_digit(chars@[i as int]));
        let digit: u64 = (chars[i] as u32 - '0' as u32) as u64;
        let next: u128 = value as u128 * 10 + digit as u128;
        proof {
            assert(chars@.take(i + 1).drop_last() == chars@.take(i as int));
            lemma_prefix_value(chars@, i + 1);
        }
        if next > limit as u128 {
            return None;
        }
        value = next as u64;
        i += 1;
    }
    assert(chars@.take(chars@.len() as int) == chars@);
    Some(value)
}

pub open spec fn digit_char(d: int) -> char {
    (d + '0' as int) as char
}

/// A number in decimal digits.
pub open spec fn decimal(n: nat) -> Seq<char>
    decreases n,
{
    if n < 10 {
        seq![digit_char(n as int)]
    } else {
        decimal(n / 10).push(digit_char((n % 10) as int))
    }
}

pub(crate) fn push_decimal(s: &mut String, n: u128)
    ensures
        final(s)@ == old(s)@ + decimal(n as nat),
    decreases n,
{
    if n >= 10 {
        push_decimal(s, n / 10);
    }
    let c = ((n % 10) as u8 + 48) as char;
    s.push(c);
    assert(s@ == old(s)@ + decimal(n as nat));
}

// ---- Searching and splitting ----

pub open spec fn occurs_at(s: Seq<char>, pattern: Seq<char>, i: int) -> bool {
    0 <= i && i + pattern.len() <= s.len() && s.subrange(i, i + pattern.len()) == pattern
}

/// Where the pattern first occurs at or after `from`.
pub open spec fn first_at(s: Seq<char>, pattern: Seq<char>, from: int) -> Option<int>
    decreases s.len() - from + 1,
{
    if from + pattern.len() > s.len() {
        None
    } else if occurs_at(s, pattern, from) {
        Some(from)
    } else {
        first_at(s, pattern, from + 1)
    }
}

/// The pattern occurs in the text.
pub open spec fn contains_text(s: Seq<char>, pattern: Seq<char>) -> bool {
    first_at(s, pattern, 0) is Some
}

/// The pieces of the text between the separators.
pub open spec fn split(s: Seq<char>, separator: Seq<char>) -> Seq<Seq<char>>
    decreases s.len(),
{
    match first_at(s, separator, 0) {
        Some(i) => if 0 <= i && 0 < separator.len() && i + separator.len() <= s.len() {
            seq![s.take(i)] + split(s.skip(i + separator.len()), separator)
        } else {
            seq![s]
        },
        None => seq![s],
    }
}

proof fn lemma_first_at_bounds(s: Seq<char>, pattern: Seq<char>, from: int)
    requires
        0 <= from,
    ensures
        match first_at(s, pattern, from) {
            Some(i) => from <= i && occurs_at(s, pattern, i),
            None => true,
        },
    decreases s.len() - from + 1,
{
    if from + pattern.len() <= s.len() && !occurs_at(s, pattern, from) {
        lemma_first_at_bounds(s, pattern, from + 1);
    }
}

pub(crate) fn find(chars: &Vec<char>, pattern: &Vec<char>) -> (at: Option<usize>)
    ensures
        match at {
            Some(i) => first_at(chars@, pattern@, 0) == Some(i as int) && occurs_at(chars@, pattern@, i as int),
            None => first_at(chars@, pattern@, 0) is None,
        },
{
    if pattern.len() > chars.len() {
        return None;
    }
    let last: usize = chars.len() - pattern.len();
    let mut i: usize = 0;
    while i <= last
        invariant
            last == chars.len() - pattern.len(),
            0 <= i <= last + 1,
            first_at(chars@, pattern@, 0) == first_at(chars@, pattern@, i as int),
        decreases last + 1 - i,
    {
        let here = part(chars, i, i + pattern.len());
        if same_chars(&here, pattern) {
            return Some(i);
        }
        if i == last {
            assert(first_at(chars@, pattern@, i + 1) is None);
            return None;
        }
        i += 1;
    }
    None
}

/// Whether the pattern occurs in the text.
pub(crate) fn holds(text: &str, pattern: &str) -> (found: bool)
    ensures
        found == contains_text(text@, pattern@),
{
    let t = chars_of(text);
    let p = chars_of(pattern);
    find(&t, &p).is_some()
}

pub(crate) open spec fn pieces(s: Seq<Vec<char>>) -> Seq<Seq<char>> {
    Seq::new(s.len(), |i: int| s[i]@)
}

pub(crate) fn split_chars(chars: &Vec<char>, separator: &Vec<char>) -> (out: Vec<Vec<char>>)
    requires
        separator@.len() > 0,
    ensures
        pieces(out@) == split(chars@, separator@),
{
    let mut out: Vec<Vec<char>> = Vec::new();
    let mut rest = part(chars, 0, chars.len());
    assert(rest@ == chars@);
    assert(pieces(out@) + split(rest@, separator@) == split(chars@, separator@));
    loop
        invariant
            separator@.len() > 0,
            pieces(out@) + split(rest@, separator@) == split(chars@, separator@),
        decreases rest@.len(),
    {
        let ghost before = out@;
        match find(&rest, separator) {
            Some(i) => {
                assert(i + separator.len() <= rest.len());
                let piece = part(&rest, 0, i);
                let tail = part(&rest, i + separator.len(), rest.len());
                assert(rest@.take(i as int) == piece@);
                assert(rest@.skip(i + separator@.len()) == tail@);
                out.push(piece);
                assert(pieces(out@) == pieces(before).push(piece@));
                assert(pieces(out@) + split(tail@, separator@) == pieces(before) + split(rest@, separator@));
                rest = tail;
            },
            None => {
                out.push(rest);
                assert(pieces(out@) == pieces(before) + split(rest@, separator@));
                return out;
            },
        }
    }
}

/// Where the character first occurs.
pub open spec fn first_index(s: Seq<char>, c: char) -> Option<int> {
    first_at(s, seq![c], 0)
}

/// Where the character last occurs.
pub open spec fn last_index(s: Seq<char>, c: char) -> Option<int>
    decreases s.len(),
{
    if s.len() == 0 {
        None
    } else if s.last() == c {
        Some(s.len() - 1)
    } else {
        last_index(s.drop_last(), c)
    }
}

pub(crate) fn find_char(chars: &Vec<char>, c: char) -> (at: Option<usize>)
    ensures
        match at {
            Some(i) => first_index(chars@, c) == Some(i as int) && i < chars@.len(),
            None => first_index(chars@, c) is None,
        },
{
    let mut pattern: Vec<char> = Vec::new();
    pattern.push(c);
    assert(pattern@ == seq![c]);
    find(chars, &pattern)
}

pub(crate) fn rfind_char(chars: &Vec<char>, c: char) -> (at: Option<usize>)
    ensures
        match at {
            Some(i) => last_index(chars@, c) == Some(i as int) && i < chars@.len() && chars@[i as int] == c,
            None => last_index(chars@, c) is None,
        },
{
    let mut n: usize = chars.len();
    assert(chars@.take(n as int) == chars@);
    while n > 0
        invariant
            n <= chars@.len(),
            last_index(chars@, c) == last_index(chars@.take(n as int), c),
        decreases n,
    {
        if chars[n - 1] == c {
            return Some(n - 1);
        }
        assert(chars@.take(n as int).drop_last() == chars@.take(n - 1));
        n -= 1;
    }
    None
}

// ---- Order ----

/// The first text stands before the second in the order of their characters.
pub open spec fn text_before(a: Seq<char>, b: Seq<char>) -> bool
    decreases a.len(),
{
    if b.len() == 0 {
        false
    } else if a.len() == 0 {
        true
    } else if a[0] == b[0] {
        text_before(a.drop_first(), b.drop_first())
    } else {
        a[0] < b[0]
    }
}

pub(crate) fn is_before(a: &str, b: &str) -> (before: bool)
    ensures
        before == text_before(a@, b@),
{
    let x = chars_of(a);
    let y = chars_of(b);
    let mut i: usize = 0;
    assert(x@.skip(0) == x@);
    assert(y@.skip(0) == y@);
    while i < x.len() && i < y.len()
        invariant
            i <= x@.len(),
            i <= y@.len(),
            x@ == a@,
            y@ == b@,
            text_before(x@, y@) == text_before(x@.skip(i as int), y@.skip(i as int)),
        decreases x@.len() - i,
    {
        assert(x@.skip(i as int)[0] == x@[i as int]);
        assert(y@.skip(i as int)[0] == y@[i as int]);
        let p: char = x[i];
        let q: char = y[i];
        if p != q {
            return p < q;
        }
        assert(x@.skip(i as int).drop_first() == x@.skip(i + 1));
        assert(y@.skip(i as int).drop_first() == y@.skip(i + 1));
        i += 1;
    }
    i < y.len()
}

/// The order of texts is strict and total.
pub proof fn lemma_text_order(a: Seq<char>, b: Seq<char>, c: Seq<char>)
    ensures
        !text_before(a, a),
        text_before(a, b) ==> !text_before(b, a),
        text_before(a, b) && text_before(b, c) ==> text_before(a, c),
        text_before(a, b) || text_before(b, a) || a == b,
    decreases a.len(),
{
    if a.len() > 0 && b.len() > 0 && c.len() > 0 {
        lemma_text_order(a.drop_first(), b.drop_first(), c.drop_first());
    } else if a.len() > 0 && b.len() > 0 {
        lemma_text_order(a.drop_first(), b.drop_first(), c);
    } else if a.len() > 0 {
        lemma_text_order(a.drop_first(), b, c);
    }
    if a.len() > 0 && b.len() > 0 && a[0] == b[0] && a.drop_first() == b.drop_first() {
        assert(a == seq![a[0]] + a.drop_first());
        assert(b == seq![b[0]] + b.drop_first());
    }
    if a.len() == 0 && b.len() == 0 {
        assert(a == b);
    }
}

// ---- Bytes ----

/// How many bytes a character takes in UTF-8.
pub open spec fn utf8_len(c: char) -> int {
    let n = c as u32;
    if n < 0x80 {
        1
    } else if n < 0x800 {
        2
    } else if n < 0x10000 {
        3
    } else {
        4
    }
}

/// The characters that make up the first `n` bytes: none where the text is
/// shorter or a character straddles the end.
pub open spec fn byte_prefix(s: Seq<char>, n: int) -> Option<Seq<char>>
    decreases s.len(),
{
    if n == 0 {
        Some(Seq::empty())
    } else if s.len() == 0 || utf8_len(s[0]) > n {
        None
    } else {
        match byte_prefix(s.drop_first(), n - utf8_len(s[0])) {
            Some(rest) => Some(seq![s[0]] + rest),
            None => None,
        }
    }
}

pub(crate) fn first_bytes(text: &str, n: usize) -> (prefix: Option<String>)
    ensures
        match prefix {
            Some(p) => byte_prefix(text@, n as int) == Some(p@),
            None => byte_prefix(text@, n as int) is None,
        },
{
    let chars = chars_of(text);
    let mut prefix = String::new();
    let mut left: usize = n;
    let mut i: usize = 0;
    assert(text@.skip(0) == text@);
    assert(byte_prefix(text@, n as int) is Some ==> prefix@ + byte_prefix(text@, n as int)->0 == byte_prefix(text@, n as int)->0);
    while left > 0
        invariant
            i <= chars@.len(),
            chars@ == text@,
            byte_prefix(text@, n as int) is None <==> byte_prefix(text@.skip(i as int), left as int) is None,
            byte_prefix(text@, n as int) is Some ==> byte_prefix(text@, n as int)->0 == prefix@ + byte_prefix(
                text@.skip(i as int),
                left as int,
            )->0,
        decreases chars@.len() - i,
    {
        if i >= chars.len() {
            return None;
        }
        let c = chars[i];
        let code: u32 = c as u32;
        let len: usize = if code < 0x80 {
            1
        } else if code < 0x800 {
            2
        } else if code < 0x10000 {
            3
        } else {
            4
        };
        if len > left {
            return None;
        }
        let ghost rest = text@.skip(i as int);
        let ghost before = prefix@;
        assert(rest.drop_first() == text@.skip(i + 1));
        prefix.push(c);
        proof {
            if let Some(r) = byte_prefix(rest.drop_first(), left - len) {
                assert(before + (seq![c] + r) == prefix@ + r);
            }
        }
        left = left - len;
        i += 1;
    }
    assert(prefix@ + Seq::<char>::empty() == prefix@);
    Some(prefix)
}

// ---- Putting texts together ----

/// A text and another behind it.
pub(crate) fn joined(a: &str, b: &str) -> (text: String)
    ensures
        text@ == a@ + b@,
{
    let mut text = a.to_owned();
    text.append(b);
    text
}

// ---- Padding ----

pub open spec fn blanks(n: int) -> Seq<char> {
    Seq::new(if n > 0 { n as nat } else { 0 }, |i: int| ' ')
}

/// The text moved to the right of a column.
pub open spec fn right(s: Seq<char>, width: int) -> Seq<char> {
    blanks(width - s.len()) + s
}

/// The text at the left of a column.
pub open spec fn left(s: Seq<char>, width: int) -> Seq<char> {
    s + blanks(width - s.len())
}

/// At most the first `n` characters.
pub open spec fn at_most(s: Seq<char>, n: int) -> Seq<char> {
    if s.len() <= n {
        s
    } else {
        s.take(n)
    }
}

pub(crate) fn push_blanks(s: &mut String, n: usize)
    ensures
        final(s)@ == old(s)@ + blanks(n as int),
{
    let mut i: usize = 0;
    assert(s@ + blanks(0) == s@);
    while i < n
        invariant
            i <= n,
            s@ == old(s)@ + blanks(i as int),
        decreases n - i,
    {
        s.push(' ');
        i += 1;
        assert(s@ == old(s)@ + blanks(i as int));
    }
}

pub(crate) fn to_right(text: &str, width: usize) -> (padded: String)
    ensures
        padded@ == right(text@, width as int),
{
    let chars = chars_of(text);
    let mut padded = String::new();
    if chars.len() < width {
        push_blanks(&mut padded, width - chars.len());
    }
    padded.append(text);
    assert(padded@ == right(text@, width as int));
    padded
}

pub(crate) fn to_left(text: &str, width: usize) -> (padded: String)
    ensures
        padded@ == left(text@, width as int),
{
    let chars = chars_of(text);
    let mut padded = String::new();
    padded.append(text);
    if chars.len() < width {
        push_blanks(&mut padded, width - chars.len());
    }
    assert(padded@ == left(text@, width as int));
    padded
}

pub(crate) fn take_at_most(text: &str, n: usize) -> (taken: String)
    ensures
        taken@ == at_most(text@, n as int),
{
    let chars = chars_of(text);
    if chars.len() <= n {
        return string_of(&chars);
    }
    assert(chars@.take(n as int) == chars@.subrange(0, n as int));
    let taken = part(&chars, 0, n);
    string_of(&taken)
}

/// The first character that differs decides which of two texts stands first, and a
/// text stands before every longer one that it begins.
pub proof fn lemma_first_difference_decides(a: Seq<char>, b: Seq<char>, i: int)
    requires
        0 <= i <= a.len(),
        i < b.len(),
        forall|j: int| 0 <= j < i ==> #[trigger] a[j] == b[j],
    ensures
        i == a.len() ==> text_before(a, b),
        i < a.len() && a[i] != b[i] ==> text_before(a, b) == (a[i] < b[i]),
    decreases i,
{
    if i > 0 {
        assert(a[0] == b[0]);
        assert forall|j: int| 0 <= j < i - 1 implies #[trigger] a.drop_first()[j] == b.drop_first()[j] by {
            assert(a[j + 1] == b[j + 1]);
        }
        lemma_first_difference_decides(a.drop_first(), b.drop_first(), i - 1);
    }
}

// ---- What is read back ----

/// A number written in decimal digits is read back as itself.
pub proof fn lemma_numbers_are_read_back(n: nat)
    ensures
        decimal(n).len() > 0,
        all_digits(decimal(n)),
        decimal_value(decimal(n)) == n,
    decreases n,
{
    if n < 10 {
        assert(decimal(n).drop_last() == Seq::<char>::empty());
        assert(decimal_value(decimal(n).drop_last()) == 0);
    } else {
        lemma_numbers_are_read_back(n / 10);
        let last = digit_char((n % 10) as int);
        assert(decimal(n).drop_last() == decimal(n / 10));
        assert(decimal(n).last() == last);
        assert forall|i: int| 0 <= i < decimal(n).len() implies is_digit(#[trigger] decimal(n)[i]) by {
            if i < decimal(n / 10).len() {
                assert(is_digit(decimal(n / 10)[i]));
            }
        }
    }
}

/// The text has no white space at its ends.
pub open spec fn is_trimmed(s: Seq<char>) -> bool {
    s.len() > 0 ==> !white_space(s[0]) && !white_space(s.last())
}

proof fn lemma_trim_start(s: Seq<char>)
    ensures
        ({
            let n = s.len() - trim_start(s).len();
            &&& 0 <= n
            &&& trim_start(s) == s.skip(n)
            &&& n < s.len() ==> !white_space(s[n])
            &&& forall|i: int| 0 <= i < n ==> white_space(#[trigger] s[i])
        }),
    decreases s.len(),
{
    if s.len() > 0 && white_space(s[0]) {
        let rest = s.drop_first();
        lemma_trim_start(rest);
        let n = s.len() - trim_start(s).len();
        assert(rest.skip(n - 1) == s.skip(n));
        assert forall|i: int| 0 <= i < n implies white_space(#[trigger] s[i]) by {
            if i > 0 {
                assert(white_space(rest[i - 1]));
            }
        }
    } else {
        assert(s.skip(0) == s);
    }
}

proof fn lemma_trim_end(s: Seq<char>)
    ensures
        ({
            let n = trim_end(s).len() as int;
            &&& n <= s.len()
            &&& trim_end(s) == s.take(n)
            &&& n > 0 ==> !white_space(s[n - 1])
            &&& forall|i: int| n <= i < s.len() ==> white_space(#[trigger] s[i])
        }),
    decreases s.len(),
{
    if s.len() > 0 && white_space(s.last()) {
        let rest = s.drop_last();
        lemma_trim_end(rest);
        let n = trim_end(s).len() as int;
        assert(rest.take(n) == s.take(n));
        assert forall|i: int| n <= i < s.len() implies white_space(#[trigger] s[i]) by {
            if i < rest.len() {
                assert(white_space(rest[i]));
            }
        }
    } else {
        assert(s.take(s.len() as int) == s);
    }
}

/// Trimming cuts the white space at the ends and nothing else.
pub proof fn lemma_trimming_cuts_white_space(s: Seq<char>)
    ensures
        is_trimmed(trim(s)),
        is_trimmed(s) ==> trim(s) == s,
        exists|from: int, to: int|
            0 <= from <= to <= s.len() && trim(s) == #[trigger] s.subrange(from, to) && (forall|i: int|
                0 <= i < from || to <= i < s.len() ==> white_space(#[trigger] s[i])),
{
    lemma_trim_start(s);
    let t = trim_start(s);
    lemma_trim_end(t);
    let from = s.len() - t.len();
    let to = from + trim(s).len();
    assert(trim(s) == s.subrange(from, to));
    assert forall|i: int| 0 <= i < from || to <= i < s.len() implies white_space(#[trigger] s[i]) by {
        if i >= to {
            assert(white_space(t[i - from]));
        }
    }
    if is_trimmed(s) && s.len() > 0 {
        if from > 0 {
            assert(white_space(s[0]));
        }
        assert(t == s);
        if trim(s).len() < s.len() {
            assert(white_space(s[s.len() - 1]));
        }
        assert(trim(s) == s);
    }
}

/// A search finds the first place where the pattern stands, and none only where it
/// stands nowhere.
pub proof fn lemma_a_search_finds_the_first_place(s: Seq<char>, pattern: Seq<char>, from: int)
    requires
        0 <= from,
    ensures
        match first_at(s, pattern, from) {
            Some(i) => from <= i && occurs_at(s, pattern, i) && forall|j: int|
                from <= j < i ==> !#[trigger] occurs_at(s, pattern, j),
            None => forall|j: int| from <= j ==> !#[trigger] occurs_at(s, pattern, j),
        },
    decreases s.len() - from + 1,
{
    if from + pattern.len() <= s.len() && !occurs_at(s, pattern, from) {
        lemma_a_search_finds_the_first_place(s, pattern, from + 1);
        match first_at(s, pattern, from) {
            Some(i) => {
                assert forall|j: int| from <= j < i implies !#[trigger] occurs_at(s, pattern, j) by {
                    if j > from {
                        assert(from + 1 <= j);
                    }
                }
            },
            None => {
                assert forall|j: int| from <= j implies !#[trigger] occurs_at(s, pattern, j) by {
                    if j > from {
                        assert(from + 1 <= j);
                    }
                }
            },
        }
    }
}

/// A text holds another where that stands somewhere in it.
pub proof fn lemma_a_text_holds_what_stands_in_it(s: Seq<char>, pattern: Seq<char>)
    ensures
        contains_text(s, pattern) <==> exists|i: int| #[trigger] occurs_at(s, pattern, i),
{
    lemma_a_search_finds_the_first_place(s, pattern, 0);
    if exists|i: int| #[trigger] occurs_at(s, pattern, i) {
        let i = choose|i: int| #[trigger] occurs_at(s, pattern, i);
        assert(0 <= i);
    }
}

/// A character is found where it first stands, or last.
pub proof fn lemma_characters_are_found(s: Seq<char>, c: char)
    ensures
        match first_index(s, c) {
            Some(i) => 0 <= i < s.len() && s[i] == c && forall|j: int| 0 <= j < i ==> #[trigger] s[j] != c,
            None => !s.contains(c),
        },
        match last_index(s, c) {
            Some(i) => 0 <= i < s.len() && s[i] == c && forall|j: int| i < j < s.len() ==> #[trigger] s[j] != c,
            None => !s.contains(c),
        },
{
    lemma_a_search_finds_the_first_place(s, seq![c], 0);
    lemma_last_index(s, c);
    assert forall|j: int| 0 <= j < s.len() implies (#[trigger] s[j] == c <==> occurs_at(s, seq![c], j)) by {
        assert(s.subrange(j, j + 1) == seq![s[j]]);
        if s[j] != c {
            assert(seq![s[j]][0] != seq![c][0]);
        }
    }
}

proof fn lemma_last_index(s: Seq<char>, c: char)
    ensures
        match last_index(s, c) {
            Some(i) => 0 <= i < s.len() && s[i] == c && forall|j: int| i < j < s.len() ==> #[trigger] s[j] != c,
            None => forall|j: int| 0 <= j < s.len() ==> #[trigger] s[j] != c,
        },
    decreases s.len(),
{
    if s.len() > 0 && s.last() != c {
        let rest = s.drop_last();
        lemma_last_index(rest, c);
        match last_index(s, c) {
            Some(i) => {
                assert forall|j: int| i < j < s.len() implies #[trigger] s[j] != c by {
                    if j < rest.len() {
                        assert(rest[j] != c);
                    }
                }
            },
            None => {
                assert forall|j: int| 0 <= j < s.len() implies #[trigger] s[j] != c by {
                    if j < rest.len() {
                        assert(rest[j] != c);
                    }
                }
            },
        }
    }
}

/// Texts put together with a separator between them.
pub open spec fn joined_by(parts: Seq<Seq<char>>, separator: Seq<char>) -> Seq<char>
    decreases parts.len(),
{
    if parts.len() == 0 {
        Seq::empty()
    } else if parts.len() == 1 {
        parts[0]
    } else {
        parts[0] + separator + joined_by(parts.drop_first(), separator)
    }
}

/// What is split can be put together again, and no piece holds the separator.
pub proof fn lemma_pieces_make_up_the_text(s: Seq<char>, separator: Seq<char>)
    requires
        separator.len() > 0,
    ensures
        split(s, separator).len() > 0,
        joined_by(split(s, separator), separator) == s,
        forall|k: int|
            0 <= k < split(s, separator).len() ==> !contains_text(#[trigger] split(s, separator)[k], separator),
    decreases s.len(),
{
    let all = split(s, separator);
    lemma_a_search_finds_the_first_place(s, separator, 0);
    match first_at(s, separator, 0) {
        Some(i) => {
            let rest = s.skip(i + separator.len());
            let head = s.take(i);
            lemma_pieces_make_up_the_text(rest, separator);
            assert(all == seq![head] + split(rest, separator));
            assert(all.drop_first() == split(rest, separator));
            assert(s == head + separator + rest) by {
                assert(s.subrange(i, i + separator.len()) == separator);
                assert forall|j: int| 0 <= j < s.len() implies s[j] == (head + separator + rest)[j] by {
                    if i <= j < i + separator.len() {
                        assert(s.subrange(i, i + separator.len())[j - i] == separator[j - i]);
                    }
                }
            }
            lemma_a_text_holds_what_stands_in_it(head, separator);
            assert(!contains_text(head, separator)) by {
                if contains_text(head, separator) {
                    let j = choose|j: int| #[trigger] occurs_at(head, separator, j);
                    assert(head.subrange(j, j + separator.len()) == s.subrange(j, j + separator.len()));
                    assert(occurs_at(s, separator, j));
                }
            }
            assert forall|k: int| 0 <= k < all.len() implies !contains_text(#[trigger] all[k], separator) by {
                if k > 0 {
                    assert(all[k] == split(rest, separator)[k - 1]);
                }
            }
        },
        None => {
            assert(all == seq![s]);
        },
    }
}

/// A text in a column is padded to the width with blanks, at the right or the left, and
/// otherwise kept as it is; cut to a length it is the beginning of itself.
pub proof fn lemma_columns_keep_their_text(s: Seq<char>, width: int)
    ensures
        left(s, width).take(s.len() as int) == s,
        right(s, width).skip(right(s, width).len() - s.len()) == s,
        left(s, width).len() == if s.len() < width { width } else { s.len() as int },
        right(s, width).len() == if s.len() < width { width } else { s.len() as int },
        0 <= width ==> at_most(s, width) == s.take(if s.len() < width { s.len() as int } else { width }),
{
    assert(left(s, width).take(s.len() as int) == s);
    assert(right(s, width).skip(right(s, width).len() - s.len()) == s);
    assert(s.take(s.len() as int) == s);
}

/// The last of several parts is put behind the rest and a separator.
pub proof fn lemma_last_part_is_joined_last(parts: Seq<Seq<char>>, separator: Seq<char>)
    requires
        parts.len() > 1,
    ensures
        joined_by(parts, separator) == joined_by(parts.drop_last(), separator) + separator + parts.last(),
    decreases parts.len(),
{
    reveal_with_fuel(joined_by, 2);
    let rest = parts.drop_first();
    if parts.len() > 2 {
        lemma_last_part_is_joined_last(rest, separator);
        assert(rest.drop_last() == parts.drop_last().drop_first());
        assert(parts[0] + separator + (joined_by(rest.drop_last(), separator) + separator + rest.last()) == parts[0]
            + separator + joined_by(rest.drop_last(), separator) + separator + rest.last());
    }
}

} // verus!
