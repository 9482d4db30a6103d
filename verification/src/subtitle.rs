//! The data model: one subtitle, a file of subtitles, and their SRT text.

use vstd::prelude::*;
use vstd::string::*;
use crate::text::{decimal_text, push_decimal};
use crate::time::{push_time, time_text, Period, PeriodView};

verus! {

/// The byte-order mark that opens a serialized file.
pub const BYTE_ORDER_MARK: char = '\u{FEFF}';

/// A subtitle as plain mathematical data.
pub struct SubtitleView {
    pub index: nat,
    pub period: PeriodView,
    pub lines: Seq<Seq<char>>,
}

/// A single subtitle: its number as the file gives it, the period during
/// which it is shown, and its lines of text.
#[derive(Clone, Debug, PartialEq)]
pub struct Subtitle {
    /// The number of this subtitle. Files are free to repeat or skip numbers.
    pub index: usize,
    /// The period during which this subtitle is shown.
    pub period: Period,
    /// The lines of text, markup included.
    pub lines: Vec<String>,
}

/// The subtitles of one file, in the order of the file.
#[derive(Clone, Debug, PartialEq)]
pub struct SubtitleFile {
    /// The subtitles in this file.
    pub subtitles: Vec<Subtitle>,
}

/// The lines of text as sequences of characters.
pub open spec fn lines_view(lines: Seq<String>) -> Seq<Seq<char>> {
    Seq::new(lines.len(), |i: int| lines[i]@)
}

impl View for Subtitle {
    type V = SubtitleView;

    open spec fn view(&self) -> SubtitleView {
        SubtitleView {
            index: self.index as nat,
            period: self.period@,
            lines: lines_view(self.lines@),
        }
    }
}

impl View for SubtitleFile {
    type V = Seq<SubtitleView>;

    open spec fn view(&self) -> Seq<SubtitleView> {
        Seq::new(self.subtitles@.len(), |i: int| self.subtitles@[i]@)
    }
}

/// The parts one after another with `sep` between each two of them.
pub open spec fn join(parts: Seq<Seq<char>>, sep: char) -> Seq<char>
    decreases parts.len(),
{
    if parts.len() == 0 {
        Seq::empty()
    } else if parts.len() == 1 {
        parts[0]
    } else {
        parts[0] + seq![sep] + join(parts.skip(1), sep)
    }
}

/// The arrow between the two timestamps of a subtitle.
pub open spec fn arrow() -> Seq<char> {
    seq![' ', '-', '-', '>', ' ']
}

/// The two timestamps of a period with the arrow between them.
pub open spec fn period_text(period: PeriodView) -> Seq<char> {
    time_text(period.begin) + arrow() + time_text(period.end)
}

/// The SRT text of one subtitle: its number, its period, and its lines,
/// each on a line of its own that ends in a line feed.
pub open spec fn entry_text(sub: SubtitleView) -> Seq<char> {
    (decimal_text(sub.index) + seq!['\n']) + (period_text(sub.period) + seq!['\n']) + (join(
        sub.lines,
        '\n',
    ) + seq!['\n'])
}

/// The SRT texts of the subtitles of a file.
pub open spec fn entry_texts(subs: Seq<SubtitleView>) -> Seq<Seq<char>> {
    Seq::new(subs.len(), |i: int| entry_text(subs[i]))
}

/// The SRT text of a file: a byte-order mark, then the subtitles with one
/// empty line between each two of them.
pub open spec fn file_text(subs: Seq<SubtitleView>) -> Seq<char> {
    seq![BYTE_ORDER_MARK] + join(entry_texts(subs), '\n')
}

/// A line as the format can hold it: not empty, and without a line break.
pub open spec fn line_wf(line: Seq<char>) -> bool {
    &&& line.len() > 0
    &&& forall|k: int| 0 <= k < line.len() ==> #[trigger] line[k] != '\n' && line[k] != '\r'
}

/// A subtitle that can be written so that it reads back: its number and
/// its times fit the machine's integers, and it has at least one line,
/// each of them as the format can hold it.
pub open spec fn subtitle_writable(sub: SubtitleView) -> bool {
    &&& sub.index <= usize::MAX
    &&& sub.period.begin <= u64::MAX
    &&& sub.period.end <= u64::MAX
    &&& sub.lines.len() > 0
    &&& forall|k: int| 0 <= k < sub.lines.len() ==> line_wf(#[trigger] sub.lines[k])
}

/// A subtitle as the parser gives it: writable, and begun before it ends.
pub open spec fn subtitle_wf(sub: SubtitleView) -> bool {
    &&& subtitle_writable(sub)
    &&& sub.period.begin < sub.period.end
}

/// A file as the parser gives it: at least one subtitle, each well formed.
pub open spec fn file_wf(subs: Seq<SubtitleView>) -> bool {
    &&& subs.len() > 0
    &&& forall|i: int| 0 <= i < subs.len() ==> subtitle_wf(#[trigger] subs[i])
}

/// `k` is the place of the first subtitle that carries the number `index`.
pub open spec fn is_first_with_index(subs: Seq<Subtitle>, index: usize, k: int) -> bool {
    &&& 0 <= k < subs.len()
    &&& subs[k].index == index
    &&& forall|j: int| 0 <= j < k ==> (#[trigger] subs[j]).index != index
}

/// Joining one part more puts the separator before it, unless it is the first.
pub proof fn lemma_join_push(parts: Seq<Seq<char>>, last: Seq<char>, sep: char)
    ensures
        join(parts.push(last), sep) == if parts.len() == 0 {
            last
        } else {
            join(parts, sep) + seq![sep] + last
        },
    decreases parts.len(),
{
    let all = parts.push(last);
    if parts.len() == 1 {
        assert(join(all.skip(1), sep) == last);
    } else if parts.len() > 1 {
        lemma_join_push(parts.skip(1), last, sep);
        assert(all.skip(1) =~= parts.skip(1).push(last));
    }
}

/// Appends the lines to `out`, with a line feed between each two of them.
fn push_lines(out: &mut String, lines: &Vec<String>)
    ensures
        final(out)@ == old(out)@ + join(lines_view(lines@), '\n'),
{
    let ghost all = lines_view(lines@);
    let mut i: usize = 0;
    while i < lines.len()
        invariant
            i <= lines.len(),
            all == lines_view(lines@),
            out@ == old(out)@ + join(all.take(i as int), '\n'),
        decreases lines.len() - i,
    {
        if i > 0 {
            out.push('\n');
        }
        out.append(lines[i].as_str());
        proof {
            lemma_join_push(all.take(i as int), all[i as int], '\n');
            assert(all.take(i as int + 1) =~= all.take(i as int).push(all[i as int]));
        }
        i += 1;
    }
    assert(all.take(i as int) =~= all);
}

/// Appends the two timestamps of the period to `out`, the arrow between them.
fn push_period(out: &mut String, period: &Period)
    ensures
        final(out)@ == old(out)@ + period_text(period@),
{
    push_time(out, period.begin());
    out.push(' ');
    out.push('-');
    out.push('-');
    out.push('>');
    out.push(' ');
    push_time(out, period.end());
}

impl Subtitle {
    /// Appends the SRT text of this subtitle to `out`.
    pub fn push_text(&self, out: &mut String)
        ensures
            final(out)@ == old(out)@ + entry_text(self@),
    {
        push_decimal(out, self.index as u64);
        out.push('\n');
        push_period(out, &self.period);
        out.push('\n');
        push_lines(out, &self.lines);
        out.push('\n');
    }

    /// The SRT text of this subtitle: the number, the timestamps with the
    /// arrow between them, and the lines, each ended by one line feed.
    pub fn to_string(&self) -> (text: String)
        ensures
            text@ == entry_text(self@),
    {
        let mut text = String::new();
        self.push_text(&mut text);
        text
    }
}

impl SubtitleFile {
    /// The SRT text of this file. It opens with a byte-order mark; the
    /// subtitles follow with one empty line between each two of them, their
    /// numbers as they are stored.
    pub fn to_string(&self) -> (text: String)
        ensures
            text@ == file_text(self@),
    {
        let ghost all = entry_texts(self@);
        let mut text = String::new();
        text.push(BYTE_ORDER_MARK);
        let mut i: usize = 0;
        while i < self.subtitles.len()
            invariant
                i <= self.subtitles.len(),
                all == entry_texts(self@),
                text@ == seq![BYTE_ORDER_MARK] + join(all.take(i as int), '\n'),
            decreases self.subtitles.len() - i,
        {
            if i > 0 {
                text.push('\n');
            }
            self.subtitles[i].push_text(&mut text);
            proof {
                lemma_join_push(all.take(i as int), all[i as int], '\n');
                assert(all.take(i as int + 1) =~= all.take(i as int).push(all[i as int]));
            }
            i += 1;
        }
        assert(all.take(i as int) =~= all);
        text
    }

    /// The first subtitle that carries the number `index`, whatever follows
    /// it, or nothing where no subtitle carries it.
    pub fn find(&self, index: usize) -> (found: Option<&Subtitle>)
        ensures
            match found {
                Some(sub) => exists|k: int|
                    is_first_with_index(self.subtitles@, index, k) && *sub == self.subtitles@[k],
                None => forall|k: int|
                    0 <= k < self.subtitles.len() ==> (#[trigger] self.subtitles@[k]).index
                        != index,
            },
    {
        let mut i: usize = 0;
        while i < self.subtitles.len()
            invariant
                i <= self.subtitles.len(),
                forall|k: int| 0 <= k < i ==> (#[trigger] self.subtitles@[k]).index != index,
            decreases self.subtitles.len() - i,
        {
            if self.subtitles[i].index == index {
                return Some(&self.subtitles[i]);
            }
            i += 1;
        }
        None
    }
}

} // verus!
