//! The parser: SRT text to a file of subtitles, all or nothing.

use vstd::prelude::*;
use crate::grammar::{
    after, blank_end, entries_at, entry_at, fraction_millis, has_arrow, lemma_more_lines_bounds,
    lemma_run_end, more_lines, newline_end, parse_text, period_at, run_end, time_at, CharClass,
    ParseError, ParseErrorKind, ParseErrorView,
};
use crate::laws::lemma_parsed_is_well_formed;
use crate::subtitle::{
    file_wf, lines_view, Subtitle, SubtitleFile, SubtitleView, BYTE_ORDER_MARK,
};
use crate::text::{
    all_digits, decimal_value, digit_to_u64, is_digit_char, lemma_decimal_value_prefix,
    string_of_range, to_chars,
};
use crate::time::{Period, PeriodView};

verus! {

impl CharClass {
    /// Whether the character belongs to the class.
    pub fn holds(&self, c: char) -> (r: bool)
        ensures
            r == self.contains(c),
    {
        match self {
            CharClass::Digit => is_digit_char(c),
            CharClass::Text => c != '\n' && c != '\r',
            CharClass::Mark => c == BYTE_ORDER_MARK,
            CharClass::Inside => c != '>',
        }
    }
}

/// The views of the subtitles of a vector.
spec fn subtitle_views(subs: Seq<Subtitle>) -> Seq<SubtitleView> {
    Seq::new(subs.len(), |i: int| subs[i]@)
}

/// The end of the run of characters of `class` that starts at `i`.
pub(crate) fn scan_run(s: &Vec<char>, i: usize, class: CharClass) -> (end: usize)
    requires
        i <= s.len(),
    ensures
        end == run_end(s@, i as int, class),
        i <= end <= s.len(),
        forall|k: int| i <= k < end ==> class.contains(#[trigger] s@[k]),
{
    let mut j: usize = i;
    while j < s.len() && class.holds(s[j])
        invariant
            i <= j <= s.len(),
            run_end(s@, i as int, class) == run_end(s@, j as int, class),
        decreases s.len() - j,
    {
        j += 1;
    }
    proof {
        lemma_run_end(s@, i as int, class);
    }
    j
}

/// The place after the line break at `i`, or `i` where none stands.
fn newline_after(s: &Vec<char>, i: usize) -> (end: usize)
    requires
        i <= s.len(),
    ensures
        end == newline_end(s@, i as int),
        i <= end <= s.len(),
{
    if i < s.len() && s[i] == '\n' {
        i + 1
    } else if i < s.len() && s[i] == '\r' && i + 1 < s.len() && s[i + 1] == '\n' {
        i + 2
    } else {
        i
    }
}

/// The place after the line breaks that follow one another from `i`.
fn skip_blank(s: &Vec<char>, i: usize) -> (end: usize)
    requires
        i <= s.len(),
    ensures
        end == blank_end(s@, i as int),
        i <= end <= s.len(),
{
    let mut cur: usize = i;
    let mut next: usize = newline_after(s, cur);
    while next > cur
        invariant
            i <= cur <= next <= s.len(),
            next == newline_end(s@, cur as int),
            blank_end(s@, i as int) == blank_end(s@, cur as int),
        decreases s.len() - cur,
    {
        cur = next;
        next = newline_after(s, cur);
    }
    cur
}

/// The number that the digits `s[from..to]` denote, where it fits.
fn read_number(s: &Vec<char>, from: usize, to: usize) -> (r: Option<u64>)
    requires
        from <= to <= s.len(),
        all_digits(s@.subrange(from as int, to as int)),
    ensures
        match r {
            Some(v) => v == decimal_value(s@.subrange(from as int, to as int)),
            None => decimal_value(s@.subrange(from as int, to as int)) > u64::MAX,
        },
{
    let ghost digits = s@.subrange(from as int, to as int);
    let mut acc: u64 = 0;
    let mut k: usize = from;
    while k < to
        invariant
            from <= k <= to <= s.len(),
            digits == s@.subrange(from as int, to as int),
            all_digits(digits),
            acc == decimal_value(digits.take(k - from)),
        decreases to - k,
    {
        assert(digits[k - from] == s@[k as int]);
        let d = digit_to_u64(s[k]);
        proof {
            assert(digits.take(k + 1 - from).drop_last() =~= digits.take(k - from));
            lemma_decimal_value_prefix(digits, k + 1 - from);
        }
        if acc > (u64::MAX - d) / 10 {
            return None;
        }
        acc = acc * 10 + d;
        k += 1;
    }
    assert(digits.take(k - from) =~= digits);
    Some(acc)
}

/// The milliseconds that the digits `s[from..to]` behind a comma stand for.
fn read_fraction(s: &Vec<char>, from: usize, to: usize) -> (millis: u64)
    requires
        from < to <= s.len(),
        all_digits(s@.subrange(from as int, to as int)),
    ensures
        millis == fraction_millis(s@.subrange(from as int, to as int)),
        millis <= 1000,
{
    let ghost digits = s@.subrange(from as int, to as int);
    let count: usize = to - from;
    assert(digits[0] == s@[from as int]);
    let tenths: u64 = digit_to_u64(s[from]);
    let mut hundredths: u64 = 0;
    let mut thousandths: u64 = 0;
    let mut rest: u64 = 0;
    if count > 1 {
        assert(digits[1] == s@[from + 1]);
        hundredths = digit_to_u64(s[from + 1]);
    }
    if count > 2 {
        assert(digits[2] == s@[from + 2]);
        thousandths = digit_to_u64(s[from + 2]);
    }
    if count > 3 {
        assert(digits[3] == s@[from + 3]);
        rest = digit_to_u64(s[from + 3]);
    }
    let up: u64 = if rest >= 5 {
        1
    } else {
        0
    };
    tenths * 100 + hundredths * 10 + thousandths + up
}

/// Reads the timestamp at `i`.
fn parse_time(s: &Vec<char>, i: usize) -> (r: Result<(u64, usize), ParseError>)
    requires
        i <= s.len(),
    ensures
        match r {
            Ok((millis, end)) => time_at(s@, i as int) == Ok::<(nat, int), ParseErrorView>(
                (millis as nat, end as int),
            ) && i < end <= s.len(),
            Err(e) => time_at(s@, i as int) == Err::<(nat, int), ParseErrorView>(e@),
        },
{
    let a = scan_run(s, i, CharClass::Digit);
    if a == i || a >= s.len() || s[a] != ':' {
        return Err(ParseError { kind: ParseErrorKind::Syntax, position: a });
    }
    let b = scan_run(s, a + 1, CharClass::Digit);
    if b == a + 1 || b >= s.len() || s[b] != ':' {
        return Err(ParseError { kind: ParseErrorKind::Syntax, position: b });
    }
    let c = scan_run(s, b + 1, CharClass::Digit);
    if c == b + 1 || c >= s.len() || s[c] != ',' {
        return Err(ParseError { kind: ParseErrorKind::Syntax, position: c });
    }
    let d = scan_run(s, c + 1, CharClass::Digit);
    if d == c + 1 {
        return Err(ParseError { kind: ParseErrorKind::Syntax, position: d });
    }
    let hours = read_number(s, i, a);
    let minutes = read_number(s, a + 1, b);
    let seconds = read_number(s, b + 1, c);
    let fraction = read_fraction(s, c + 1, d);
    let too_large = Err(ParseError { kind: ParseErrorKind::NumberTooLarge, position: i });
    match hours {
        None => too_large,
        Some(h) => match minutes {
            None => too_large,
            Some(m) => match seconds {
                None => too_large,
                Some(sec) => {
                    let total: u128 = (h as u128) * 3_600_000 + (m as u128) * 60_000 + (
                    sec as u128) * 1000 + (fraction as u128);
                    if total > u64::MAX as u128 {
                        too_large
                    } else {
                        Ok((total as u64, d))
                    }
                },
            },
        },
    }
}

/// Whether the arrow `" --> "` stands at `i`.
fn arrow_at(s: &Vec<char>, i: usize) -> (r: bool)
    requires
        i <= s.len(),
    ensures
        r == has_arrow(s@, i as int),
        r ==> i + 5 <= s.len(),
{
    s.len() - i >= 5 && s[i] == ' ' && s[i + 1] == '-' && s[i + 2] == '-' && s[i + 3] == '>' && s[i
        + 4] == ' '
}

/// Reads the period at `i`: two timestamps and the arrow between them. A
/// period without length is given one millisecond.
fn parse_period(s: &Vec<char>, i: usize) -> (r: Result<(Period, usize), ParseError>)
    requires
        i <= s.len(),
    ensures
        match r {
            Ok((period, end)) => period_at(s@, i as int) == Ok::<(PeriodView, int), ParseErrorView>(
                (period@, end as int),
            ) && i < end <= s.len(),
            Err(e) => period_at(s@, i as int) == Err::<(PeriodView, int), ParseErrorView>(e@),
        },
{
    let (begin, a) = match parse_time(s, i) {
        Ok(read) => read,
        Err(e) => {
            return Err(e);
        },
    };
    if !arrow_at(s, a) {
        return Err(ParseError { kind: ParseErrorKind::Syntax, position: a });
    }
    let (end, b) = match parse_time(s, a + 5) {
        Ok(read) => read,
        Err(e) => {
            return Err(e);
        },
    };
    if end == begin && begin == u64::MAX {
        return Err(ParseError { kind: ParseErrorKind::NumberTooLarge, position: a + 5 });
    }
    let kept: u64 = if end == begin {
        begin + 1
    } else {
        end
    };
    match Period::new(begin, kept) {
        Ok(period) => Ok((period, b)),
        Err(_) => Err(ParseError { kind: ParseErrorKind::InvalidPeriod, position: i }),
    }
}

/// Reads the lines of text that follow the line ending at `i` and appends
/// them to `lines`.
fn parse_more_lines(s: &Vec<char>, i: usize, lines: &mut Vec<String>) -> (end: usize)
    requires
        i <= s.len(),
    ensures
        lines_view(final(lines)@) == lines_view(old(lines)@) + more_lines(s@, i as int).0,
        end == more_lines(s@, i as int).1,
        i <= end <= s.len(),
{
    let mut cur: usize = i;
    proof {
        lemma_more_lines_bounds(s@, i as int);
        assert(lines_view(lines@) + more_lines(s@, cur as int).0 =~= lines_view(old(lines)@)
            + more_lines(s@, i as int).0);
    }
    loop
        invariant
            i <= cur <= s.len(),
            i <= more_lines(s@, i as int).1 <= s.len(),
            more_lines(s@, cur as int).1 == more_lines(s@, i as int).1,
            lines_view(lines@) + more_lines(s@, cur as int).0 == lines_view(old(lines)@)
                + more_lines(s@, i as int).0,
        decreases s.len() - cur,
    {
        let a = newline_after(s, cur);
        if a == cur {
            return cur;
        }
        let b = scan_run(s, a, CharClass::Text);
        if b == a {
            return cur;
        }
        let line = string_of_range(s, a, b);
        let ghost before = lines_view(lines@);
        lines.push(line);
        proof {
            assert(lines_view(lines@) + more_lines(s@, b as int).0 =~= before + more_lines(
                s@,
                cur as int,
            ).0);
        }
        cur = b;
    }
}

/// Reads the subtitle at `i`.
fn parse_entry(s: &Vec<char>, i: usize) -> (r: Result<(Subtitle, usize), ParseError>)
    requires
        i <= s.len(),
    ensures
        match r {
            Ok((sub, end)) => entry_at(s@, i as int) == Ok::<(SubtitleView, int), ParseErrorView>(
                (sub@, end as int),
            ) && i < end <= s.len(),
            Err(e) => entry_at(s@, i as int) == Err::<(SubtitleView, int), ParseErrorView>(e@),
        },
{
    let a = scan_run(s, i, CharClass::Digit);
    if a == i {
        return Err(ParseError { kind: ParseErrorKind::Syntax, position: i });
    }
    let index: usize = match read_number(s, i, a) {
        None => {
            return Err(ParseError { kind: ParseErrorKind::NumberTooLarge, position: i });
        },
        Some(v) => {
            if v > usize::MAX as u64 {
                return Err(ParseError { kind: ParseErrorKind::NumberTooLarge, position: i });
            }
            v as usize
        },
    };
    let b = newline_after(s, a);
    if b == a {
        return Err(ParseError { kind: ParseErrorKind::Syntax, position: a });
    }
    let (period, c) = match parse_period(s, b) {
        Ok(read) => read,
        Err(e) => {
            return Err(e);
        },
    };
    let d = newline_after(s, c);
    if d == c {
        return Err(ParseError { kind: ParseErrorKind::Syntax, position: c });
    }
    let e = scan_run(s, d, CharClass::Text);
    if e == d {
        return Err(ParseError { kind: ParseErrorKind::Syntax, position: d });
    }
    let mut lines: Vec<String> = Vec::new();
    lines.push(string_of_range(s, d, e));
    let ghost first = lines_view(lines@);
    assert(first =~= seq![s@.subrange(d as int, e as int)]);
    let end = parse_more_lines(s, e, &mut lines);
    Ok((Subtitle { index, period, lines }, end))
}

/// Reading subtitles from `i` on, after `front` was read: what comes of it
/// once the subtitle at `i` is read.
proof fn lemma_entries_step(s: Seq<char>, i: int, front: Seq<SubtitleView>)
    requires
        entry_at(s, i) is Ok,
    ensures
        ({
            let sub = entry_at(s, i)->Ok_0.0;
            let a = entry_at(s, i)->Ok_0.1;
            let b = blank_end(s, a);
            after(front, entries_at(s, i)) == if b >= s.len() {
                Ok::<Seq<SubtitleView>, ParseErrorView>(front.push(sub))
            } else if b == a {
                Err::<Seq<SubtitleView>, ParseErrorView>(
                    ParseErrorView { kind: ParseErrorKind::Syntax, position: a },
                )
            } else {
                after(front.push(sub), entries_at(s, b))
            }
        }),
{
    let sub = entry_at(s, i)->Ok_0.0;
    let a = entry_at(s, i)->Ok_0.1;
    let b = blank_end(s, a);
    assert(front + seq![sub] =~= front.push(sub));
    if b < s.len() && b != a {
        if let Ok(rest) = entries_at(s, b) {
            assert(front + (seq![sub] + rest) =~= front.push(sub) + rest);
        }
    }
}

/// Reads the subtitles from `start` to the end of the text.
fn parse_entries(s: &Vec<char>, start: usize) -> (r: Result<Vec<Subtitle>, ParseError>)
    requires
        start <= s.len(),
    ensures
        match r {
            Ok(subs) => entries_at(s@, start as int) == Ok::<Seq<SubtitleView>, ParseErrorView>(
                subtitle_views(subs@),
            ),
            Err(e) => entries_at(s@, start as int) == Err::<Seq<SubtitleView>, ParseErrorView>(e@),
        },
{
    let mut subtitles: Vec<Subtitle> = Vec::new();
    let mut cur: usize = start;
    loop
        invariant
            start <= cur <= s.len(),
            after(subtitle_views(subtitles@), entries_at(s@, cur as int)) == entries_at(
                s@,
                start as int,
            ),
        decreases s.len() - cur,
    {
        let ghost front = subtitle_views(subtitles@);
        let (sub, a) = match parse_entry(s, cur) {
            Ok(read) => read,
            Err(e) => {
                return Err(e);
            },
        };
        proof {
            lemma_entries_step(s@, cur as int, front);
        }
        subtitles.push(sub);
        assert(subtitle_views(subtitles@) =~= front.push(sub@));
        let b = skip_blank(s, a);
        if b >= s.len() {
            return Ok(subtitles);
        }
        if b == a {
            return Err(ParseError { kind: ParseErrorKind::Syntax, position: a });
        }
        cur = b;
    }
}

impl SubtitleFile {
    /// Parses SRT text. Byte-order marks and empty lines at the start are
    /// passed over; then the whole text must be subtitles with empty lines
    /// between them, at least one, and nothing but line breaks after the
    /// last. The numbers of the subtitles are kept as they are written.
    /// Otherwise the first fault comes back with its place, and no subtitles.
    pub fn from_str(data: &str) -> (r: Result<SubtitleFile, ParseError>)
        ensures
            match r {
                Ok(file) => parse_text(data@) == Ok::<Seq<SubtitleView>, ParseErrorView>(file@)
                    && file_wf(file@),
                Err(e) => parse_text(data@) == Err::<Seq<SubtitleView>, ParseErrorView>(e@),
            },
    {
        let s = to_chars(data);
        let marks = scan_run(&s, 0, CharClass::Mark);
        let start = skip_blank(&s, marks);
        match parse_entries(&s, start) {
            Ok(subtitles) => {
                let file = SubtitleFile { subtitles };
                proof {
                    lemma_parsed_is_well_formed(data@);
                }
                Ok(file)
            },
            Err(e) => Err(e),
        }
    }
}

} // verus!
