//! Reports as spans of styled text: what they say is settled here; whether the
//! terminal gets colors, `colored` decides.

use crate::text::first_at;
use colored::Colorize;
use vstd::prelude::*;
use vstd::string::StringExecFns;

verus! {

/// How a span is set off.
#[derive(Debug, Clone, Copy, PartialEq, Eq, Structural)]
pub enum Style {
    Plain,
    Bold,
    Dimmed,
    Red,
    Green,
    Yellow,
    Blue,
    Cyan,
    RedBold,
    YellowBold,
    CyanBold,
}

/// The sequence that ends a style.
pub open spec fn reset() -> Seq<char> {
    seq!['\u{1b}', '[', '0', 'm']
}

/// The sequence that starts a style.
pub open spec fn start(style: Style) -> Seq<char> {
    match style {
        Style::Plain => Seq::empty(),
        Style::Bold => seq!['\u{1b}', '[', '1', 'm'],
        Style::Dimmed => seq!['\u{1b}', '[', '2', 'm'],
        Style::Red => seq!['\u{1b}', '[', '3', '1', 'm'],
        Style::Green => seq!['\u{1b}', '[', '3', '2', 'm'],
        Style::Yellow => seq!['\u{1b}', '[', '3', '3', 'm'],
        Style::Blue => seq!['\u{1b}', '[', '3', '4', 'm'],
        Style::Cyan => seq!['\u{1b}', '[', '3', '6', 'm'],
        Style::RedBold => seq!['\u{1b}', '[', '1', ';', '3', '1', 'm'],
        Style::YellowBold => seq!['\u{1b}', '[', '1', ';', '3', '3', 'm'],
        Style::CyanBold => seq!['\u{1b}', '[', '1', ';', '3', '6', 'm'],
    }
}

/// A text with the style started again behind every reset sequence in it.
pub open spec fn restyled(text: Seq<char>, style: Style) -> Seq<char>
    decreases text.len(),
{
    match first_at(text, reset(), 0) {
        Some(i) => if 0 <= i && i + 4 <= text.len() {
            text.take(i + 4) + start(style) + restyled(text.skip(i + 4), style)
        } else {
            text
        },
        None => text,
    }
}

/// What a span can come out as: itself, or where `colored` finds colors switched
/// on, between the style's sequences, with the style started again behind every
/// reset sequence in it. (The switch is read more than once, so it can be off for
/// one of these and on for another.)
pub open spec fn shows(text: Seq<char>, style: Style, shown: Seq<char>) -> bool {
    if style == Style::Plain {
        shown == text
    } else {
        ||| shown == text
        ||| shown == start(style) + text + reset()
        ||| shown == text + reset()
        ||| shown == start(style) + restyled(text, style) + reset()
        ||| shown == restyled(text, style) + reset()
    }
}

/// `Colorize::normal`, written out by `ColoredString`'s `Display`: the text.
#[verifier::external_body]
fn plain(text: &str) -> (shown: String)
    ensures
        shows(text@, Style::Plain, shown@),
{
    text.normal().to_string()
}

/// `Colorize::bold`, written out by `ColoredString`'s `Display`: the text, or the
/// text between the style's escape sequences (and the style started again behind
/// every reset sequence in it), as the terminal, the environment and
/// `colored::control` have it at the time.
#[verifier::external_body]
fn bold(text: &str) -> (shown: String)
    ensures
        shows(text@, Style::Bold, shown@),
{
    text.bold().to_string()
}

/// `Colorize::dimmed`, written out by `ColoredString`'s `Display`: the text, or the
/// text between the style's escape sequences (and the style started again behind
/// every reset sequence in it), as the terminal, the environment and
/// `colored::control` have it at the time.
#[verifier::external_body]
fn dimmed(text: &str) -> (shown: String)
    ensures
        shows(text@, Style::Dimmed, shown@),
{
    text.dimmed().to_string()
}

/// `Colorize::red`, written out by `ColoredString`'s `Display`: the text, or the
/// text between the style's escape sequences (and the style started again behind
/// every reset sequence in it), as the terminal, the environment and
/// `colored::control` have it at the time.
#[verifier::external_body]
fn red(text: &str) -> (shown: String)
    ensures
        shows(text@, Style::Red, shown@),
{
    text.red().to_string()
}

/// `Colorize::green`, written out by `ColoredString`'s `Display`: the text, or the
/// text between the style's escape sequences (and the style started again behind
/// every reset sequence in it), as the terminal, the environment and
/// `colored::control` have it at the time.
#[verifier::external_body]
fn green(text: &str) -> (shown: String)
    ensures
        shows(text@, Style::Green, shown@),
{
    text.green().to_string()
}

/// `Colorize::yellow`, written out by `ColoredString`'s `Display`: the text, or the
/// text between the style's escape sequences (and the style started again behind
/// every reset sequence in it), as the terminal, the environment and
/// `colored::control` have it at the time.
#[verifier::external_body]
fn yellow(text: &str) -> (shown: String)
    ensures
        shows(text@, Style::Yellow, shown@),
{
    text.yellow().to_string()
}

/// `Colorize::blue`, written out by `ColoredString`'s `Display`: the text, or the
/// text between the style's escape sequences (and the style started again behind
/// every reset sequence in it), as the terminal, the environment and
/// `colored::control` have it at the time.
#[verifier::external_body]
fn blue(text: &str) -> (shown: String)
    ensures
        shows(text@, Style::Blue, shown@),
{
    text.blue().to_string()
}

/// `Colorize::cyan`, written out by `ColoredString`'s `Display`: the text, or the
/// text between the style's escape sequences (and the style started again behind
/// every reset sequence in it), as the terminal, the environment and
/// `colored::control` have it at the time.
#[verifier::external_body]
fn cyan(text: &str) -> (shown: String)
    ensures
        shows(text@, Style::Cyan, shown@),
{
    text.cyan().to_string()
}

/// `Colorize::red`, then `bold`, written out by `ColoredString`'s `Display`: the text, or the
/// text between the style's escape sequences (and the style started again behind
/// every reset sequence in it), as the terminal, the environment and
/// `colored::control` have it at the time.
#[verifier::external_body]
fn red_bold(text: &str) -> (shown: String)
    ensures
        shows(text@, Style::RedBold, shown@),
{
    text.red().bold().to_string()
}

/// `Colorize::yellow`, then `bold`, written out by `ColoredString`'s `Display`: the text, or the
/// text between the style's escape sequences (and the style started again behind
/// every reset sequence in it), as the terminal, the environment and
/// `colored::control` have it at the time.
#[verifier::external_body]
fn yellow_bold(text: &str) -> (shown: String)
    ensures
        shows(text@, Style::YellowBold, shown@),
{
    text.yellow().bold().to_string()
}

/// `Colorize::cyan`, then `bold`, written out by `ColoredString`'s `Display`: the text, or the
/// text between the style's escape sequences (and the style started again behind
/// every reset sequence in it), as the terminal, the environment and
/// `colored::control` have it at the time.
#[verifier::external_body]
fn cyan_bold(text: &str) -> (shown: String)
    ensures
        shows(text@, Style::CyanBold, shown@),
{
    text.cyan().bold().to_string()
}

fn paint(text: &str, style: Style) -> (shown: String)
    ensures
        shows(text@, style, shown@),
{
    match style {
        Style::Plain => plain(text),
        Style::Bold => bold(text),
        Style::Dimmed => dimmed(text),
        Style::Red => red(text),
        Style::Green => green(text),
        Style::Yellow => yellow(text),
        Style::Blue => blue(text),
        Style::Cyan => cyan(text),
        Style::RedBold => red_bold(text),
        Style::YellowBold => yellow_bold(text),
        Style::CyanBold => cyan_bold(text),
    }
}

/// A piece of a report.
#[derive(Debug, Clone, PartialEq, Eq)]
pub struct Span {
    pub text: String,
    pub style: Style,
}

impl View for Span {
    type V = (Seq<char>, Style);

    open spec fn view(&self) -> (Seq<char>, Style) {
        (self.text@, self.style)
    }
}

/// The spans of a report.
pub open spec fn spans(s: Seq<Span>) -> Seq<(Seq<char>, Style)> {
    Seq::new(s.len(), |i: int| s[i]@)
}

/// Appends a span.
pub(crate) fn put(out: &mut Vec<Span>, style: Style, text: String)
    ensures
        spans(final(out)@) == spans(old(out)@).push((text@, style)),
{
    out.push(Span { text, style });
    assert(spans(out@) == spans(old(out)@).push((text@, style)));
}

/// Appends a span of unstyled text.
pub(crate) fn put_plain(out: &mut Vec<Span>, text: &str)
    ensures
        spans(final(out)@) == spans(old(out)@).push((text@, Style::Plain)),
{
    put(out, Style::Plain, text.to_owned());
}

/// The text is what the spans show, one after the other.
pub open spec fn shown_as(s: Seq<(Seq<char>, Style)>, text: Seq<char>) -> bool
    decreases s.len(),
{
    if s.len() == 0 {
        text == Seq::<char>::empty()
    } else {
        exists|n: int|
            0 <= n <= text.len() && shown_as(s.drop_last(), #[trigger] text.take(n)) && shows(
                s.last().0,
                s.last().1,
                text.skip(n),
            )
    }
}

/// What the spans say, without any style.
pub open spec fn plain_text(s: Seq<(Seq<char>, Style)>) -> Seq<char>
    decreases s.len(),
{
    if s.len() == 0 {
        Seq::empty()
    } else {
        plain_text(s.drop_last()) + s.last().0
    }
}

/// The spans in the colors that the terminal takes.
pub fn show(s: &Vec<Span>) -> (text: String)
    ensures
        shown_as(spans(s@), text@),
{
    let ghost all = spans(s@);
    let mut text = String::new();
    let mut i: usize = 0;
    while i < s.len()
        invariant
            i <= s@.len(),
            all == spans(s@),
            shown_as(all.take(i as int), text@),
        decreases s@.len() - i,
    {
        let ghost before = text@;
        let piece = paint(s[i].text.as_str(), s[i].style);
        text.append(piece.as_str());
        proof {
            let n = before.len() as int;
            assert(all.take(i + 1).drop_last() == all.take(i as int));
            assert(text@.take(n) == before);
            assert(text@.skip(n) == piece@);
            assert(all.take(i + 1).last() == s@[i as int]@);
        }
        i += 1;
    }
    assert(all.take(i as int) == all);
    text
}

/// Without colors a report shows just what its spans say.
pub proof fn lemma_plain_is_a_showing(s: Seq<(Seq<char>, Style)>)
    ensures
        shown_as(s, plain_text(s)),
    decreases s.len(),
{
    if s.len() > 0 {
        lemma_plain_is_a_showing(s.drop_last());
        let text = plain_text(s);
        let n = plain_text(s.drop_last()).len() as int;
        assert(text.take(n) == plain_text(s.drop_last()));
        assert(text.skip(n) == s.last().0);
    }
}

} // verus!
