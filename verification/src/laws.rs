//! What holds of the parser, the serializer and the merging together.

use vstd::prelude::*;
use crate::grammar::{
    after, blank_end, corrected_end, entries_at, entry_at, fault, fraction_millis,
    lemma_blank_end, lemma_entry_bounds, lemma_period_bounds, lemma_run_end, lemma_run_end_is,
    more_lines, newline_end, parse_text, period_at, run_end, time_at, time_value, CharClass,
    ParseErrorKind, ParseErrorView,
};
use crate::merge::appended;
use crate::subtitle::{
    arrow, entry_text, entry_texts, file_text, file_wf, join, line_wf, period_text, subtitle_wf,
    subtitle_writable, SubtitleView,
};
use crate::text::{
    all_digits, decimal_text, decimal_value, digit_char, is_digit, lemma_decimal_text_digits,
    lemma_decimal_value_of_text, lemma_digit_char_value,
};
use crate::time::{three_digits, time_text, two_digits, PeriodView};

verus! {

/// The characters of `part` stand in `s` from place `i` on.
pub open spec fn text_at(s: Seq<char>, i: int, part: Seq<char>) -> bool {
    &&& 0 <= i
    &&& i + part.len() <= s.len()
    &&& s.subrange(i, i + part.len()) == part
}

/// A text stands at a place where its two halves stand one behind the other.
proof fn lemma_text_at_split(s: Seq<char>, i: int, x: Seq<char>, y: Seq<char>)
    requires
        text_at(s, i, x + y),
    ensures
        text_at(s, i, x),
        text_at(s, i + x.len(), y),
{
    let whole = s.subrange(i, i + (x + y).len());
    assert forall|k: int| 0 <= k < x.len() implies s.subrange(i, i + x.len())[k] == x[k] by {
        assert(whole[k] == (x + y)[k]);
    }
    assert(s.subrange(i, i + x.len()) =~= x);
    assert forall|k: int| 0 <= k < y.len() implies s.subrange(
        i + x.len(),
        i + x.len() + y.len(),
    )[k] == y[k] by {
        assert(whole[k + x.len()] == (x + y)[k + x.len()]);
    }
    assert(s.subrange(i + x.len(), i + x.len() + y.len()) =~= y);
}

/// Where a text stands, each of its characters stands.
proof fn lemma_text_at_char(s: Seq<char>, i: int, part: Seq<char>, k: int)
    requires
        text_at(s, i, part),
        0 <= k < part.len(),
    ensures
        s[i + k] == part[k],
{
    assert(s.subrange(i, i + part.len())[k] == part[k]);
}

/// Digits that stand at `i`, with no digit behind them, are the run of
/// digits that starts at `i`.
proof fn lemma_digits_run(s: Seq<char>, i: int, digits: Seq<char>)
    requires
        text_at(s, i, digits),
        all_digits(digits),
        i + digits.len() < s.len() ==> !is_digit(s[i + digits.len()]),
    ensures
        run_end(s, i, CharClass::Digit) == i + digits.len(),
        s.subrange(i, run_end(s, i, CharClass::Digit)) == digits,
{
    assert forall|k: int| i <= k < i + digits.len() implies CharClass::Digit.contains(
        #[trigger] s[k],
    ) by {
        lemma_text_at_char(s, i, digits, k - i);
    }
    lemma_run_end_is(s, i, i + digits.len(), CharClass::Digit);
}

/// A zero in front of a numeral does not change its value.
proof fn lemma_leading_zero(digits: Seq<char>)
    ensures
        decimal_value(seq!['0'] + digits) == decimal_value(digits),
    decreases digits.len(),
{
    let padded = seq!['0'] + digits;
    if digits.len() == 0 {
        assert(decimal_value(padded.drop_last()) == 0);
    } else {
        lemma_leading_zero(digits.drop_last());
        assert(padded.drop_last() =~= seq!['0'] + digits.drop_last());
    }
}

/// Two digits or more: all of them digits, and worth the number written.
proof fn lemma_two_digits(n: nat)
    ensures
        two_digits(n).len() >= 2,
        all_digits(two_digits(n)),
        decimal_value(two_digits(n)) == n,
{
    lemma_decimal_text_digits(n);
    lemma_decimal_value_of_text(n);
    if n < 10 {
        lemma_leading_zero(decimal_text(n));
    } else {
        lemma_decimal_text_digits(n / 10);
    }
}

/// Three digits for a number below a thousand, read as thousandths, give
/// the number back.
proof fn lemma_three_digits(n: nat)
    requires
        n < 1000,
    ensures
        three_digits(n).len() == 3,
        all_digits(three_digits(n)),
        fraction_millis(three_digits(n)) == n,
{
    reveal_with_fuel(decimal_text, 3);
    lemma_digit_char_value(n % 10);
    lemma_digit_char_value(n / 10 % 10);
    lemma_digit_char_value(n / 100);
    lemma_digit_char_value(0);
    let d = three_digits(n);
    if n < 10 {
        assert(d =~= seq!['0', '0', digit_char(n)]);
    }
}

/// Hours, minutes, seconds and milliseconds make up the time they were
/// taken from.
proof fn lemma_time_parts(millis: nat)
    ensures
        (millis / 3_600_000) * 3_600_000 + (millis / 60_000 % 60) * 60_000 + (millis / 1000 % 60)
            * 1000 + millis % 1000 == millis,
{
}

/// The timestamp of a time, read back, gives that time and ends where the
/// timestamp ends, if no digit follows it.
pub proof fn lemma_time_at_text(s: Seq<char>, i: int, millis: nat)
    requires
        millis <= u64::MAX,
        text_at(s, i, time_text(millis)),
        i + time_text(millis).len() < s.len() ==> !is_digit(s[i + time_text(millis).len()]),
    ensures
        time_at(s, i) == Ok::<(nat, int), ParseErrorView>((millis, i + time_text(millis).len())),
{
    let hours = two_digits(millis / 3_600_000);
    let minutes = two_digits(millis / 60_000 % 60);
    let seconds = two_digits(millis / 1000 % 60);
    let fraction = three_digits(millis % 1000);
    lemma_two_digits(millis / 3_600_000);
    lemma_two_digits(millis / 60_000 % 60);
    lemma_two_digits(millis / 1000 % 60);
    lemma_three_digits(millis % 1000);
    let with_colon = hours + seq![':'];
    let with_minutes = with_colon + minutes;
    let with_colons = with_minutes + seq![':'];
    let with_seconds = with_colons + seconds;
    let with_comma = with_seconds + seq![','];
    assert(time_text(millis) == with_comma + fraction);
    lemma_text_at_split(s, i, with_comma, fraction);
    lemma_text_at_split(s, i, with_seconds, seq![',']);
    lemma_text_at_split(s, i, with_colons, seconds);
    lemma_text_at_split(s, i, with_minutes, seq![':']);
    lemma_text_at_split(s, i, with_colon, minutes);
    lemma_text_at_split(s, i, hours, seq![':']);
    let a = i + hours.len();
    let b = a + 1 + minutes.len();
    let c = b + 1 + seconds.len();
    let d = c + 1 + fraction.len();
    lemma_text_at_char(s, a, seq![':'], 0);
    lemma_text_at_char(s, b, seq![':'], 0);
    lemma_text_at_char(s, c, seq![','], 0);
    lemma_digits_run(s, i, hours);
    lemma_digits_run(s, a + 1, minutes);
    lemma_digits_run(s, b + 1, seconds);
    lemma_digits_run(s, c + 1, fraction);
    assert(time_value(hours, minutes, seconds, fraction) == millis) by {
        lemma_time_parts(millis);
    }
}

/// Lines that stand at `d`, each ended by a line feed and with no further
/// line behind the last, are read as they stand.
proof fn lemma_lines_at_text(s: Seq<char>, d: int, lines: Seq<Seq<char>>)
    requires
        lines.len() >= 1,
        forall|k: int| 0 <= k < lines.len() ==> line_wf(#[trigger] lines[k]),
        text_at(s, d, join(lines, '\n') + seq!['\n']),
        d + join(lines, '\n').len() + 1 < s.len() ==> !CharClass::Text.contains(
            s[d + join(lines, '\n').len() + 1],
        ),
    ensures
        run_end(s, d, CharClass::Text) == d + lines[0].len(),
        s.subrange(d, d + lines[0].len()) == lines[0],
        more_lines(s, d + lines[0].len()).0 == lines.skip(1),
        more_lines(s, d + lines[0].len()).1 == d + join(lines, '\n').len(),
    decreases lines.len(),
{
    let nl = seq!['\n'];
    let joined = join(lines, '\n');
    let first = lines[0];
    let e = d + first.len();
    if lines.len() == 1 {
        lemma_text_at_split(s, d, first, nl);
        lemma_text_at_char(s, e, nl, 0);
        assert forall|k: int| d <= k < e implies CharClass::Text.contains(#[trigger] s[k]) by {
            lemma_text_at_char(s, d, first, k - d);
        }
        lemma_run_end_is(s, d, e, CharClass::Text);
        lemma_run_end_is(s, e + 1, e + 1, CharClass::Text);
    } else {
        let rest = lines.skip(1);
        let rest_joined = join(rest, '\n');
        assert(joined + nl =~= (first + nl) + (rest_joined + nl));
        lemma_text_at_split(s, d, first + nl, rest_joined + nl);
        lemma_text_at_split(s, d, first, nl);
        lemma_text_at_char(s, e, nl, 0);
        assert forall|k: int| d <= k < e implies CharClass::Text.contains(#[trigger] s[k]) by {
            lemma_text_at_char(s, d, first, k - d);
        }
        lemma_run_end_is(s, d, e, CharClass::Text);
        assert forall|k: int| 0 <= k < rest.len() implies line_wf(#[trigger] rest[k]) by {
            assert(rest[k] == lines[k + 1]);
        }
        lemma_lines_at_text(s, e + 1, rest);
    }
}

/// What is read where two timestamps stand with the arrow between them
/// and no digit behind them: a fault if the second time is before the
/// first, and else the period from the first to the second, one
/// millisecond long if they are the same.
proof fn lemma_period_at_text(s: Seq<char>, i: int, begin: nat, end: nat)
    requires
        begin <= u64::MAX,
        end <= u64::MAX,
        text_at(s, i, time_text(begin) + arrow() + time_text(end)),
        i + time_text(begin).len() + 5 + time_text(end).len() < s.len() ==> !is_digit(
            s[i + time_text(begin).len() + 5 + time_text(end).len()],
        ),
    ensures
        end < begin ==> period_at(s, i) == fault::<(PeriodView, int)>(
            ParseErrorKind::InvalidPeriod,
            i,
        ),
        begin <= end && corrected_end(begin, end) <= u64::MAX ==> period_at(s, i) == Ok::<
            (PeriodView, int),
            ParseErrorView,
        >(
            (
                PeriodView { begin, end: corrected_end(begin, end) },
                i + time_text(begin).len() + 5 + time_text(end).len(),
            ),
        ),
{
    let t1 = time_text(begin);
    let t2 = time_text(end);
    let a = i + t1.len();
    lemma_text_at_split(s, i, t1 + arrow(), t2);
    lemma_text_at_split(s, i, t1, arrow());
    lemma_text_at_char(s, a, arrow(), 0);
    lemma_text_at_char(s, a, arrow(), 1);
    lemma_text_at_char(s, a, arrow(), 2);
    lemma_text_at_char(s, a, arrow(), 3);
    lemma_text_at_char(s, a, arrow(), 4);
    lemma_time_at_text(s, i, begin);
    lemma_time_at_text(s, a + 5, end);
}

/// The subtitle with its end as it is kept when read.
pub open spec fn kept(sub: SubtitleView) -> SubtitleView {
    SubtitleView {
        index: sub.index,
        period: PeriodView {
            begin: sub.period.begin,
            end: corrected_end(sub.period.begin, sub.period.end),
        },
        lines: sub.lines,
    }
}

/// The subtitles with their ends as they are kept when read.
pub open spec fn kept_all(subs: Seq<SubtitleView>) -> Seq<SubtitleView> {
    Seq::new(subs.len(), |i: int| kept(subs[i]))
}

/// A subtitle whose text is read without fault: it can be written, it
/// does not end before it begins, and where it has no length, there is
/// room for the millisecond it is given.
pub open spec fn reads_back(sub: SubtitleView) -> bool {
    &&& subtitle_writable(sub)
    &&& sub.period.begin <= sub.period.end
    &&& corrected_end(sub.period.begin, sub.period.end) <= u64::MAX
}

/// The parts of the text of a subtitle stand one behind the other where
/// the text stands: the number, the period, and the lines, each followed
/// by a line feed.
proof fn lemma_entry_parts(s: Seq<char>, i: int, sub: SubtitleView)
    requires
        text_at(s, i, entry_text(sub)),
    ensures
        ({
            let number = decimal_text(sub.index);
            let period = period_text(sub.period);
            let text = join(sub.lines, '\n');
            &&& entry_text(sub).len() == number.len() + 1 + period.len() + 1 + text.len() + 1
            &&& text_at(s, i, number)
            &&& s[i + number.len()] == '\n'
            &&& text_at(s, i + number.len() + 1, period)
            &&& s[i + number.len() + 1 + period.len()] == '\n'
            &&& text_at(s, i + number.len() + 1 + period.len() + 1, text + seq!['\n'])
        }),
{
    let nl = seq!['\n'];
    let number = decimal_text(sub.index);
    let period = period_text(sub.period);
    let text = join(sub.lines, '\n');
    lemma_text_at_split(s, i, (number + nl) + (period + nl), text + nl);
    lemma_text_at_split(s, i, number + nl, period + nl);
    lemma_text_at_split(s, i, number, nl);
    lemma_text_at_split(s, i + number.len() + 1, period, nl);
    lemma_text_at_char(s, i + number.len(), nl, 0);
    lemma_text_at_char(s, i + number.len() + 1 + period.len(), nl, 0);
}

/// What is read where the text of a subtitle stands, with a line break or
/// nothing behind it: a fault at its period if that ends before it begins;
/// otherwise the subtitle, with one millisecond of length if it was
/// written with none. Reading stops before the line feed that ends the
/// last line.
proof fn lemma_entry_at_text(s: Seq<char>, i: int, sub: SubtitleView)
    requires
        subtitle_writable(sub),
        text_at(s, i, entry_text(sub)),
        i + entry_text(sub).len() < s.len() ==> !CharClass::Text.contains(
            s[i + entry_text(sub).len()],
        ),
    ensures
        sub.period.end < sub.period.begin ==> entry_at(s, i) == fault::<(SubtitleView, int)>(
            ParseErrorKind::InvalidPeriod,
            i + decimal_text(sub.index).len() + 1,
        ),
        reads_back(sub) ==> entry_at(s, i) == Ok::<(SubtitleView, int), ParseErrorView>(
            (kept(sub), i + entry_text(sub).len() - 1),
        ),
{
    let number = decimal_text(sub.index);
    let period = period_text(sub.period);
    lemma_entry_parts(s, i, sub);
    let a = i + number.len();
    let b = a + 1;
    let c = b + period.len();
    let d = c + 1;
    lemma_decimal_text_digits(sub.index);
    lemma_decimal_value_of_text(sub.index);
    lemma_digits_run(s, i, number);
    assert(newline_end(s, a) == b);
    lemma_period_at_text(s, b, sub.period.begin, sub.period.end);
    if reads_back(sub) {
        assert(period_at(s, b) == Ok::<(PeriodView, int), ParseErrorView>(
            (kept(sub).period, c),
        ));
        lemma_lines_at_text(s, d, sub.lines);
        let e = d + sub.lines[0].len();
        assert(seq![s.subrange(d, e)] + more_lines(s, e).0 =~= sub.lines);
    }
}

/// What joined parts begin with: the first of them.
proof fn lemma_join_first(parts: Seq<Seq<char>>, sep: char)
    requires
        parts.len() >= 1,
        parts[0].len() >= 1,
    ensures
        join(parts, sep).len() >= 1,
        join(parts, sep)[0] == parts[0][0],
{
}

/// A part of a text that begins with a digit and ends with a line feed.
spec fn is_block(part: Seq<char>) -> bool {
    &&& part.len() >= 2
    &&& is_digit(part[0])
    &&& part.last() == '\n'
}

/// Where blocks joined by line feeds stand up to the end of a text, the
/// first of them stands first, with a line feed or nothing behind it. The
/// line breaks from its last character on lead to the end of the text if
/// it is the only one, and else to the place where the others stand.
proof fn lemma_first_block(s: Seq<char>, i: int, parts: Seq<Seq<char>>)
    requires
        parts.len() >= 1,
        forall|k: int| 0 <= k < parts.len() ==> is_block(#[trigger] parts[k]),
        text_at(s, i, join(parts, '\n')),
        i + join(parts, '\n').len() == s.len(),
    ensures
        text_at(s, i, parts[0]),
        i + parts[0].len() < s.len() ==> s[i + parts[0].len()] == '\n',
        blank_end(s, i + parts[0].len() - 1) == if parts.len() == 1 {
            s.len() as int
        } else {
            i + parts[0].len() + 1
        },
        parts.len() > 1 ==> text_at(s, i + parts[0].len() + 1, join(parts.skip(1), '\n')) && i
            + parts[0].len() + 1 + join(parts.skip(1), '\n').len() == s.len(),
{
    let nl = seq!['\n'];
    let first = parts[0];
    let last = i + first.len() - 1;
    if parts.len() == 1 {
        lemma_text_at_char(s, i, first, first.len() - 1);
        assert(blank_end(s, last + 1) == last + 1);
    } else {
        let others = parts.skip(1);
        let rest = join(others, '\n');
        lemma_text_at_split(s, i, first + nl, rest);
        lemma_text_at_split(s, i, first, nl);
        lemma_text_at_char(s, i, first, first.len() - 1);
        lemma_text_at_char(s, last + 1, nl, 0);
        lemma_join_first(others, '\n');
        lemma_text_at_char(s, last + 2, rest, 0);
        assert(blank_end(s, last + 2) == last + 2);
        assert(blank_end(s, last + 1) == last + 2);
    }
}

/// The text of a subtitle begins with a digit and ends with a line feed.
proof fn lemma_entry_text_is_block(sub: SubtitleView)
    ensures
        is_block(entry_text(sub)),
{
    lemma_decimal_text_digits(sub.index);
}

/// In the text of a file the first subtitle stands first, with a line feed
/// or nothing behind it. The line breaks behind its last line lead to the
/// end of the text if it is the only one, and else to the place where the
/// text of the other subtitles stands.
proof fn lemma_first_entry(s: Seq<char>, i: int, subs: Seq<SubtitleView>)
    requires
        subs.len() >= 1,
        text_at(s, i, join(entry_texts(subs), '\n')),
        i + join(entry_texts(subs), '\n').len() == s.len(),
    ensures
        text_at(s, i, entry_text(subs[0])),
        i + entry_text(subs[0]).len() < s.len() ==> s[i + entry_text(subs[0]).len()] == '\n',
        blank_end(s, i + entry_text(subs[0]).len() - 1) == if subs.len() == 1 {
            s.len() as int
        } else {
            i + entry_text(subs[0]).len() + 1
        },
        subs.len() > 1 ==> text_at(
            s,
            i + entry_text(subs[0]).len() + 1,
            join(entry_texts(subs.skip(1)), '\n'),
        ) && i + entry_text(subs[0]).len() + 1 + join(entry_texts(subs.skip(1)), '\n').len()
            == s.len(),
{
    let texts = entry_texts(subs);
    assert forall|k: int| 0 <= k < texts.len() implies is_block(#[trigger] texts[k]) by {
        lemma_entry_text_is_block(subs[k]);
    }
    lemma_first_block(s, i, texts);
    assert(texts.skip(1) =~= entry_texts(subs.skip(1)));
}

/// Where the text of subtitles stands up to the end of a text and the
/// first of them reads back, it is read, and the others are read from the
/// place where their text stands.
proof fn lemma_entries_at_first(s: Seq<char>, i: int, subs: Seq<SubtitleView>)
    requires
        subs.len() >= 1,
        reads_back(subs[0]),
        text_at(s, i, join(entry_texts(subs), '\n')),
        i + join(entry_texts(subs), '\n').len() == s.len(),
    ensures
        entries_at(s, i) == if subs.len() == 1 {
            Ok::<Seq<SubtitleView>, ParseErrorView>(seq![kept(subs[0])])
        } else {
            after(seq![kept(subs[0])], entries_at(s, i + entry_text(subs[0]).len() + 1))
        },
{
    lemma_first_entry(s, i, subs);
    lemma_entry_at_text(s, i, subs[0]);
}

/// Where the text of subtitles that read back stands up to the end of a
/// text, these subtitles are read, their ends as they are kept.
proof fn lemma_entries_at_text(s: Seq<char>, i: int, subs: Seq<SubtitleView>)
    requires
        subs.len() >= 1,
        forall|j: int| 0 <= j < subs.len() ==> reads_back(#[trigger] subs[j]),
        text_at(s, i, join(entry_texts(subs), '\n')),
        i + join(entry_texts(subs), '\n').len() == s.len(),
    ensures
        entries_at(s, i) == Ok::<Seq<SubtitleView>, ParseErrorView>(kept_all(subs)),
    decreases subs.len(),
{
    lemma_first_entry(s, i, subs);
    lemma_entries_at_first(s, i, subs);
    if subs.len() == 1 {
        assert(seq![kept(subs[0])] =~= kept_all(subs));
    } else {
        let rest = subs.skip(1);
        lemma_entries_at_text(s, i + entry_text(subs[0]).len() + 1, rest);
        assert(seq![kept(subs[0])] + kept_all(rest) =~= kept_all(subs));
    }
}

/// Where the text of subtitles stands up to the end of a text, and the
/// first of them that does not read back ends before it begins, reading
/// fails on an invalid period.
proof fn lemma_entries_refused(s: Seq<char>, i: int, subs: Seq<SubtitleView>, k: int)
    requires
        0 <= k < subs.len(),
        forall|j: int| 0 <= j < k ==> reads_back(#[trigger] subs[j]),
        subtitle_writable(subs[k]),
        subs[k].period.end < subs[k].period.begin,
        text_at(s, i, join(entry_texts(subs), '\n')),
        i + join(entry_texts(subs), '\n').len() == s.len(),
    ensures
        entries_at(s, i) matches Err(e) && e.kind == ParseErrorKind::InvalidPeriod,
    decreases k,
{
    lemma_first_entry(s, i, subs);
    if k == 0 {
        lemma_entry_at_text(s, i, subs[0]);
    } else {
        lemma_entries_at_first(s, i, subs);
        lemma_entries_refused(s, i + entry_text(subs[0]).len() + 1, subs.skip(1), k - 1);
    }
}

/// The text of a file starts right behind its byte-order mark with the
/// subtitles.
proof fn lemma_file_text_start(subs: Seq<SubtitleView>)
    requires
        subs.len() >= 1,
    ensures
        blank_end(file_text(subs), run_end(file_text(subs), 0, CharClass::Mark)) == 1,
        text_at(file_text(subs), 1, join(entry_texts(subs), '\n')),
        1 + join(entry_texts(subs), '\n').len() == file_text(subs).len(),
{
    let s = file_text(subs);
    let texts = entry_texts(subs);
    let body = join(texts, '\n');
    lemma_entry_text_is_block(subs[0]);
    lemma_join_first(texts, '\n');
    assert(s.subrange(1, 1 + body.len() as int) =~= body);
    lemma_run_end_is(s, 0, 1, CharClass::Mark);
}

/// Writing then reading, whatever the lengths of the periods: the text of
/// subtitles that can be written and that do not end before they begin is
/// read as these subtitles. A period written without length comes back one
/// millisecond long, and every other as it was; numbers and lines come
/// back as they were.
pub proof fn lemma_parse_of_written(subs: Seq<SubtitleView>)
    requires
        subs.len() >= 1,
        forall|j: int| 0 <= j < subs.len() ==> reads_back(#[trigger] subs[j]),
    ensures
        parse_text(file_text(subs)) == Ok::<Seq<SubtitleView>, ParseErrorView>(kept_all(subs)),
{
    lemma_file_text_start(subs);
    lemma_entries_at_text(file_text(subs), 1, subs);
}

/// Writing then reading: the text of a well-formed file is read as that
/// file, numbers, periods and lines as they were.
pub proof fn lemma_parse_of_file_text(subs: Seq<SubtitleView>)
    requires
        file_wf(subs),
    ensures
        parse_text(file_text(subs)) == Ok::<Seq<SubtitleView>, ParseErrorView>(subs),
{
    lemma_parse_of_written(subs);
    assert(kept_all(subs) =~= subs);
}

/// A text in the form in which files are written: the text of some
/// well-formed file.
pub open spec fn is_canonical(text: Seq<char>) -> bool {
    exists|subs: Seq<SubtitleView>| file_wf(subs) && text == #[trigger] file_text(subs)
}

/// Reading then writing: a text in the form in which files are written is
/// read without fault, and what was read is written as the same text.
pub proof fn lemma_round_trip(text: Seq<char>)
    requires
        is_canonical(text),
    ensures
        parse_text(text) matches Ok(subs) && file_text(subs) == text,
{
    let subs = choose|subs: Seq<SubtitleView>| file_wf(subs) && text == #[trigger] file_text(subs);
    lemma_parse_of_file_text(subs);
}

/// A subtitle written with an end before its beginning makes the whole
/// text fail on an invalid period, if the subtitles before it read back:
/// its times are neither exchanged nor moved.
pub proof fn lemma_reversed_period_refused(subs: Seq<SubtitleView>, k: int)
    requires
        0 <= k < subs.len(),
        forall|j: int| 0 <= j < k ==> reads_back(#[trigger] subs[j]),
        subtitle_writable(subs[k]),
        subs[k].period.end < subs[k].period.begin,
    ensures
        parse_text(file_text(subs)) matches Err(e) && e.kind == ParseErrorKind::InvalidPeriod,
{
    lemma_file_text_start(subs);
    lemma_entries_refused(file_text(subs), 1, subs, k);
}

/// The lines that are read behind a line are lines as the format can
/// hold them.
proof fn lemma_more_lines_wf(s: Seq<char>, i: int)
    requires
        0 <= i <= s.len(),
    ensures
        forall|k: int|
            0 <= k < more_lines(s, i).0.len() ==> line_wf(#[trigger] more_lines(s, i).0[k]),
    decreases s.len() - i,
{
    let a = newline_end(s, i);
    let b = run_end(s, a, CharClass::Text);
    if a > i {
        lemma_run_end(s, a, CharClass::Text);
        if b > a {
            lemma_more_lines_wf(s, b);
            let rest = more_lines(s, b).0;
            assert(line_wf(s.subrange(a, b)));
            assert forall|k: int| 0 <= k < more_lines(s, i).0.len() implies line_wf(
                #[trigger] more_lines(s, i).0[k],
            ) by {
                if k > 0 {
                    assert(more_lines(s, i).0[k] == rest[k - 1]);
                }
            }
        }
    }
}

/// A subtitle that is read is well formed.
proof fn lemma_entry_wf(s: Seq<char>, i: int)
    ensures
        entry_at(s, i) matches Ok(r) ==> subtitle_wf(r.0),
{
    let a = run_end(s, i, CharClass::Digit);
    let b = newline_end(s, a);
    if entry_at(s, i) is Ok {
        lemma_run_end(s, i, CharClass::Digit);
        lemma_period_bounds(s, b);
        if let Ok((period, c)) = period_at(s, b) {
            let d = newline_end(s, c);
            let e = run_end(s, d, CharClass::Text);
            lemma_run_end(s, d, CharClass::Text);
            lemma_more_lines_wf(s, e);
            assert(line_wf(s.subrange(d, e)));
        }
    }
}

/// The subtitles that are read from a place on are a well-formed file.
proof fn lemma_entries_wf(s: Seq<char>, i: int)
    ensures
        entries_at(s, i) matches Ok(subs) ==> file_wf(subs),
    decreases s.len() - i,
{
    lemma_entry_bounds(s, i);
    lemma_entry_wf(s, i);
    if let Ok((sub, a)) = entry_at(s, i) {
        lemma_blank_end(s, a);
        let b = blank_end(s, a);
        if b < s.len() && b != a {
            lemma_entries_wf(s, b);
        }
    }
}

/// Whatever text is read without fault gives a well-formed file: at least
/// one subtitle, each with a period that begins before it ends and with at
/// least one line, none of them empty. So no subtitle that ends before it
/// begins is ever read.
pub proof fn lemma_parsed_is_well_formed(text: Seq<char>)
    ensures
        parse_text(text) matches Ok(subs) ==> file_wf(subs),
{
    lemma_entries_wf(text, blank_end(text, run_end(text, 0, CharClass::Mark)));
}

/// What was read can be written and read again, and is then read as the
/// same subtitles: writing brings any text that is read without fault into
/// the form in which files are written.
pub proof fn lemma_written_again(text: Seq<char>)
    ensures
        parse_text(text) matches Ok(subs) ==> is_canonical(file_text(subs)) && parse_text(
            file_text(subs),
        ) == Ok::<Seq<SubtitleView>, ParseErrorView>(subs),
{
    lemma_parsed_is_well_formed(text);
    if let Ok(subs) = parse_text(text) {
        lemma_parse_of_file_text(subs);
    }
}

/// Appending keeps all the subtitles in their order and numbers them from
/// one. Those of the first file keep their periods; those of the second
/// have both ends of their periods later by the offset, so that each keeps
/// its length. The lines of all stay as they are.
pub proof fn lemma_appended(base: Seq<SubtitleView>, other: Seq<SubtitleView>, offset: nat)
    ensures
        appended(base, other, offset).len() == base.len() + other.len(),
        forall|i: int|
            0 <= i < base.len() + other.len() ==> (#[trigger] appended(
                base,
                other,
                offset,
            )[i]).index == i + 1,
        forall|i: int|
            0 <= i < base.len() ==> (#[trigger] appended(base, other, offset)[i]).period
                == base[i].period && appended(base, other, offset)[i].lines == base[i].lines,
        forall|j: int|
            0 <= j < other.len() ==> {
                let moved = appended(base, other, offset)[base.len() + j];
                &&& moved.period.begin == (#[trigger] other[j]).period.begin + offset
                &&& moved.period.end == other[j].period.end + offset
                &&& moved.period.end - moved.period.begin == other[j].period.end
                    - other[j].period.begin
                &&& moved.lines == other[j].lines
            },
{
}

/// Appending well-formed subtitles gives a well-formed file, where the
/// result fits the machine's integers and is not empty.
pub proof fn lemma_appended_wf(base: Seq<SubtitleView>, other: Seq<SubtitleView>, offset: nat)
    requires
        forall|i: int| 0 <= i < base.len() ==> subtitle_wf(#[trigger] base[i]),
        forall|j: int| 0 <= j < other.len() ==> subtitle_wf(#[trigger] other[j]),
        forall|j: int|
            0 <= j < other.len() ==> (#[trigger] other[j]).period.end + offset <= u64::MAX,
        0 < base.len() + other.len() <= usize::MAX,
    ensures
        file_wf(appended(base, other, offset)),
{
}

} // verus!
