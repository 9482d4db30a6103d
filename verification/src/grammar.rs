//! The grammar of SRT text, as functions from a text and a place in it to
//! what stands there.
//!
//! A text is a sequence of characters and a place is an index into it. Each
//! function answers with what it read and the place where it stopped, or
//! with the kind and place of the first fault.

use vstd::prelude::*;
use crate::subtitle::{SubtitleView, BYTE_ORDER_MARK};
use crate::text::{decimal_value, digit_value, is_digit};
use crate::time::PeriodView;

verus! {

/// What was wrong with a text.
#[derive(Clone, Copy, Debug, PartialEq, Eq)]
pub enum ParseErrorKind {
    /// The text does not follow the grammar.
    Syntax,
    /// A subtitle's number or a time is larger than the machine can hold.
    NumberTooLarge,
    /// A subtitle ends before it begins.
    InvalidPeriod,
}

/// The first fault of a text: its kind and its place, counted in characters
/// from the start of the text.
#[derive(Clone, Copy, Debug, PartialEq, Eq)]
pub struct ParseError {
    pub kind: ParseErrorKind,
    pub position: usize,
}

/// A fault as plain mathematical data.
pub struct ParseErrorView {
    pub kind: ParseErrorKind,
    pub position: int,
}

impl View for ParseError {
    type V = ParseErrorView;

    open spec fn view(&self) -> ParseErrorView {
        ParseErrorView { kind: self.kind, position: self.position as int }
    }
}

/// The classes of characters that are read in runs.
#[derive(Clone, Copy, Debug, PartialEq, Eq)]
pub enum CharClass {
    /// A decimal digit.
    Digit,
    /// Anything but a carriage return or a line feed.
    Text,
    /// The byte-order mark.
    Mark,
    /// Anything but the `>` that closes a tag of markup.
    Inside,
}

impl CharClass {
    /// Whether the character belongs to the class.
    pub open spec fn contains(self, c: char) -> bool {
        match self {
            CharClass::Digit => is_digit(c),
            CharClass::Text => c != '\n' && c != '\r',
            CharClass::Mark => c == BYTE_ORDER_MARK,
            CharClass::Inside => c != '>',
        }
    }
}

/// A fault of the given kind at the given place.
pub open spec fn fault<T>(kind: ParseErrorKind, position: int) -> Result<T, ParseErrorView> {
    Err(ParseErrorView { kind, position })
}

/// The character `c` stands at place `i`.
pub open spec fn has_char(s: Seq<char>, i: int, c: char) -> bool {
    0 <= i < s.len() && s[i] == c
}

/// The end of the longest run of characters of one class that starts at `i`.
pub open spec fn run_end(s: Seq<char>, i: int, class: CharClass) -> int
    decreases s.len() - i,
{
    if 0 <= i < s.len() && class.contains(s[i]) {
        run_end(s, i + 1, class)
    } else {
        i
    }
}

/// The place after the line break at `i`, a line feed or a carriage return
/// with a line feed; `i` itself where no line break stands.
pub open spec fn newline_end(s: Seq<char>, i: int) -> int {
    if has_char(s, i, '\n') {
        i + 1
    } else if has_char(s, i, '\r') && has_char(s, i + 1, '\n') {
        i + 2
    } else {
        i
    }
}

/// The place after all the line breaks that follow one another from `i`.
pub open spec fn blank_end(s: Seq<char>, i: int) -> int
    decreases s.len() - i,
{
    let j = newline_end(s, i);
    if j > i {
        blank_end(s, j)
    } else {
        i
    }
}

/// The arrow `" --> "` stands at place `i`.
pub open spec fn has_arrow(s: Seq<char>, i: int) -> bool {
    &&& has_char(s, i, ' ')
    &&& has_char(s, i + 1, '-')
    &&& has_char(s, i + 2, '-')
    &&& has_char(s, i + 3, '>')
    &&& has_char(s, i + 4, ' ')
}

/// The value of the digit at place `k` of a fraction, zero beyond its end.
pub open spec fn fraction_digit(digits: Seq<char>, k: int) -> nat {
    if 0 <= k < digits.len() {
        digit_value(digits[k])
    } else {
        0
    }
}

/// The milliseconds that the digits behind the comma stand for, rounded to
/// the nearest whole millisecond, a half upwards.
pub open spec fn fraction_millis(digits: Seq<char>) -> nat {
    fraction_digit(digits, 0) * 100 + fraction_digit(digits, 1) * 10 + fraction_digit(digits, 2)
        + if fraction_digit(digits, 3) >= 5 {
        1nat
    } else {
        0nat
    }
}

/// The time in milliseconds that the four numerals of a timestamp give.
/// Minutes and seconds may exceed fifty-nine.
pub open spec fn time_value(
    hours: Seq<char>,
    minutes: Seq<char>,
    seconds: Seq<char>,
    fraction: Seq<char>,
) -> nat {
    decimal_value(hours) * 3_600_000 + decimal_value(minutes) * 60_000 + decimal_value(seconds)
        * 1000 + fraction_millis(fraction)
}

/// The timestamp at `i`: digits, a colon, digits, a colon, digits, a comma,
/// digits. Gives the time in milliseconds and the place after the timestamp.
pub open spec fn time_at(s: Seq<char>, i: int) -> Result<(nat, int), ParseErrorView> {
    let a = run_end(s, i, CharClass::Digit);
    let b = run_end(s, a + 1, CharClass::Digit);
    let c = run_end(s, b + 1, CharClass::Digit);
    let d = run_end(s, c + 1, CharClass::Digit);
    if a == i || !has_char(s, a, ':') {
        fault(ParseErrorKind::Syntax, a)
    } else if b == a + 1 || !has_char(s, b, ':') {
        fault(ParseErrorKind::Syntax, b)
    } else if c == b + 1 || !has_char(s, c, ',') {
        fault(ParseErrorKind::Syntax, c)
    } else if d == c + 1 {
        fault(ParseErrorKind::Syntax, d)
    } else {
        let millis = time_value(
            s.subrange(i, a),
            s.subrange(a + 1, b),
            s.subrange(b + 1, c),
            s.subrange(c + 1, d),
        );
        if millis > u64::MAX {
            fault(ParseErrorKind::NumberTooLarge, i)
        } else {
            Ok((millis, d))
        }
    }
}

/// The end of a period as it is kept: a period written with no length gets
/// a length of one millisecond.
pub open spec fn corrected_end(begin: nat, end: nat) -> nat {
    if end == begin {
        begin + 1
    } else {
        end
    }
}

/// The period at `i`: two timestamps with the arrow between them. A period
/// that ends before it begins is a fault at `i`.
pub open spec fn period_at(s: Seq<char>, i: int) -> Result<(PeriodView, int), ParseErrorView> {
    match time_at(s, i) {
        Err(e) => Err(e),
        Ok((begin, a)) => if !has_arrow(s, a) {
            fault(ParseErrorKind::Syntax, a)
        } else {
            match time_at(s, a + 5) {
                Err(e) => Err(e),
                Ok((end, b)) => if end < begin {
                    fault(ParseErrorKind::InvalidPeriod, i)
                } else if corrected_end(begin, end) > u64::MAX {
                    fault(ParseErrorKind::NumberTooLarge, a + 5)
                } else {
                    Ok((PeriodView { begin, end: corrected_end(begin, end) }, b))
                },
            }
        },
    }
}

/// The lines of text that follow the line ending at `i`, each after one
/// line break and none of them empty, and the place where the last ends.
pub open spec fn more_lines(s: Seq<char>, i: int) -> (Seq<Seq<char>>, int)
    decreases s.len() - i,
    via more_lines_decreases
{
    let a = newline_end(s, i);
    let b = run_end(s, a, CharClass::Text);
    if a > i && b > a {
        let rest = more_lines(s, b);
        (seq![s.subrange(a, b)] + rest.0, rest.1)
    } else {
        (Seq::empty(), i)
    }
}

#[via_fn]
proof fn more_lines_decreases(s: Seq<char>, i: int) {
    let a = newline_end(s, i);
    if a > i {
        lemma_run_end(s, a, CharClass::Text);
    }
}

/// The subtitle at `i`: its number, a line break, its period, a line break,
/// and one line of text or more. Gives the subtitle and the place where its
/// last line ends.
pub open spec fn entry_at(s: Seq<char>, i: int) -> Result<(SubtitleView, int), ParseErrorView> {
    let a = run_end(s, i, CharClass::Digit);
    let b = newline_end(s, a);
    if a == i {
        fault(ParseErrorKind::Syntax, i)
    } else if decimal_value(s.subrange(i, a)) > usize::MAX {
        fault(ParseErrorKind::NumberTooLarge, i)
    } else if b == a {
        fault(ParseErrorKind::Syntax, a)
    } else {
        match period_at(s, b) {
            Err(e) => Err(e),
            Ok((period, c)) => {
                let d = newline_end(s, c);
                let e = run_end(s, d, CharClass::Text);
                if d == c {
                    fault(ParseErrorKind::Syntax, c)
                } else if e == d {
                    fault(ParseErrorKind::Syntax, d)
                } else {
                    let more = more_lines(s, e);
                    Ok(
                        (
                            SubtitleView {
                                index: decimal_value(s.subrange(i, a)),
                                period,
                                lines: seq![s.subrange(d, e)] + more.0,
                            },
                            more.1,
                        ),
                    )
                }
            },
        }
    }
}

/// The subtitles `front` before those that `rest` holds, or the fault of
/// `rest`.
pub open spec fn after(front: Seq<SubtitleView>, rest: Result<Seq<SubtitleView>, ParseErrorView>)
    -> Result<Seq<SubtitleView>, ParseErrorView> {
    match rest {
        Ok(subs) => Ok(front + subs),
        Err(e) => Err(e),
    }
}

/// The subtitles from `i` to the end of the text: at least one, with empty
/// lines between each two, and nothing but line breaks after the last.
pub open spec fn entries_at(s: Seq<char>, i: int) -> Result<Seq<SubtitleView>, ParseErrorView>
    decreases s.len() - i,
    via entries_at_decreases
{
    match entry_at(s, i) {
        Err(e) => Err(e),
        Ok((sub, a)) => {
            let b = blank_end(s, a);
            if b >= s.len() {
                Ok(seq![sub])
            } else if b == a {
                fault(ParseErrorKind::Syntax, a)
            } else {
                after(seq![sub], entries_at(s, b))
            }
        },
    }
}

#[via_fn]
proof fn entries_at_decreases(s: Seq<char>, i: int) {
    lemma_entry_bounds(s, i);
    if let Ok((sub, a)) = entry_at(s, i) {
        lemma_blank_end(s, a);
    }
}

/// What a whole text holds: after any byte-order marks and line breaks at
/// its start, the subtitles in their order, or the first fault.
pub open spec fn parse_text(s: Seq<char>) -> Result<Seq<SubtitleView>, ParseErrorView> {
    entries_at(s, blank_end(s, run_end(s, 0, CharClass::Mark)))
}

/// A run lies within the text, holds only characters of its class, and
/// stops at the end of the text or before a character of another class.
pub proof fn lemma_run_end(s: Seq<char>, i: int, class: CharClass)
    requires
        0 <= i <= s.len(),
    ensures
        i <= run_end(s, i, class) <= s.len(),
        forall|k: int| i <= k < run_end(s, i, class) ==> class.contains(#[trigger] s[k]),
        run_end(s, i, class) < s.len() ==> !class.contains(s[run_end(s, i, class)]),
    decreases s.len() - i,
{
    if i < s.len() && class.contains(s[i]) {
        lemma_run_end(s, i + 1, class);
    }
}

/// A run ends where its class ends: at `j`, if everything from `i` to `j`
/// belongs to the class and what stands at `j` does not.
pub proof fn lemma_run_end_is(s: Seq<char>, i: int, j: int, class: CharClass)
    requires
        0 <= i <= j <= s.len(),
        forall|k: int| i <= k < j ==> class.contains(#[trigger] s[k]),
        j < s.len() ==> !class.contains(s[j]),
    ensures
        run_end(s, i, class) == j,
    decreases j - i,
{
    if i < j {
        lemma_run_end_is(s, i + 1, j, class);
    }
}

/// Line breaks are skipped within the text, up to its end or to a
/// character that starts no line break.
pub proof fn lemma_blank_end(s: Seq<char>, i: int)
    requires
        0 <= i <= s.len(),
    ensures
        i <= blank_end(s, i) <= s.len(),
        newline_end(s, blank_end(s, i)) == blank_end(s, i),
    decreases s.len() - i,
{
    if newline_end(s, i) > i {
        lemma_blank_end(s, newline_end(s, i));
    }
}

/// A timestamp that was read is not empty and lies within the text.
pub proof fn lemma_time_bounds(s: Seq<char>, i: int)
    ensures
        time_at(s, i) matches Ok(r) ==> 0 <= i < r.1 <= s.len() && r.0 <= u64::MAX,
{
    let a = run_end(s, i, CharClass::Digit);
    let b = run_end(s, a + 1, CharClass::Digit);
    let c = run_end(s, b + 1, CharClass::Digit);
    if time_at(s, i) is Ok {
        lemma_run_end(s, i, CharClass::Digit);
        lemma_run_end(s, a + 1, CharClass::Digit);
        lemma_run_end(s, b + 1, CharClass::Digit);
        lemma_run_end(s, c + 1, CharClass::Digit);
    }
}

/// A period that was read is not empty and lies within the text; it begins
/// before it ends.
pub proof fn lemma_period_bounds(s: Seq<char>, i: int)
    ensures
        period_at(s, i) matches Ok(r) ==> 0 <= i < r.1 <= s.len() && r.0.begin < r.0.end
            <= u64::MAX,
{
    lemma_time_bounds(s, i);
    if let Ok((begin, a)) = time_at(s, i) {
        lemma_time_bounds(s, a + 5);
    }
}

/// The lines that follow a line end within the text.
pub proof fn lemma_more_lines_bounds(s: Seq<char>, i: int)
    requires
        0 <= i <= s.len(),
    ensures
        i <= more_lines(s, i).1 <= s.len(),
    decreases s.len() - i,
{
    let a = newline_end(s, i);
    let b = run_end(s, a, CharClass::Text);
    if a > i {
        lemma_run_end(s, a, CharClass::Text);
        if b > a {
            lemma_more_lines_bounds(s, b);
        }
    }
}

/// A subtitle that was read is not empty and lies within the text.
pub proof fn lemma_entry_bounds(s: Seq<char>, i: int)
    ensures
        entry_at(s, i) matches Ok(r) ==> 0 <= i < r.1 <= s.len(),
{
    let a = run_end(s, i, CharClass::Digit);
    let b = newline_end(s, a);
    if entry_at(s, i) is Ok {
        lemma_run_end(s, i, CharClass::Digit);
        lemma_period_bounds(s, b);
        if let Ok((period, c)) = period_at(s, b) {
            let d = newline_end(s, c);
            lemma_run_end(s, d, CharClass::Text);
            lemma_more_lines_bounds(s, run_end(s, d, CharClass::Text));
        }
    }
}

} // verus!
