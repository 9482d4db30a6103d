//! Text without its markup.
//!
//! A tag of markup is a `<`, then a small letter or a slash, then anything
//! up to the next `>`, and that `>`. A `<` that no `>` follows, or that
//! something else follows, is text.

use vstd::prelude::*;
use crate::grammar::{has_char, lemma_run_end, run_end, CharClass};
use crate::parser::scan_run;
use crate::subtitle::{join, lemma_join_push, lines_view, Subtitle, SubtitleFile, SubtitleView};
use crate::text::{push_all, to_chars};

verus! {

/// A tag may start at `i`: a `<` stands there, and a small letter or a
/// slash behind it.
pub open spec fn opens_tag(s: Seq<char>, i: int) -> bool {
    &&& has_char(s, i, '<')
    &&& i + 1 < s.len()
    &&& (('a' <= s[i + 1] && s[i + 1] <= 'z') || s[i + 1] == '/')
}

/// The place after the tag that starts at `i`; `i` itself where none starts.
pub open spec fn tag_end(s: Seq<char>, i: int) -> int {
    let close = run_end(s, i + 2, CharClass::Inside);
    if opens_tag(s, i) && close < s.len() {
        close + 1
    } else {
        i
    }
}

/// The text from `i` on without its tags.
pub open spec fn stripped_from(s: Seq<char>, i: int) -> Seq<char>
    decreases s.len() - i,
    via stripped_from_decreases
{
    if i < 0 || i >= s.len() {
        Seq::empty()
    } else if tag_end(s, i) > i {
        stripped_from(s, tag_end(s, i))
    } else {
        seq![s[i]] + stripped_from(s, i + 1)
    }
}

#[via_fn]
proof fn stripped_from_decreases(s: Seq<char>, i: int) {
    if 0 <= i < s.len() && opens_tag(s, i) {
        lemma_run_end(s, i + 2, CharClass::Inside);
    }
}

/// The text without its tags.
pub open spec fn stripped(s: Seq<char>) -> Seq<char> {
    stripped_from(s, 0)
}

/// The words of a subtitle on one line, a space between its lines, without
/// markup.
pub open spec fn plain(sub: SubtitleView) -> Seq<char> {
    stripped(join(sub.lines, ' '))
}

/// The words of each subtitle of a file.
pub open spec fn plain_texts(subs: Seq<SubtitleView>) -> Seq<Seq<char>> {
    Seq::new(subs.len(), |i: int| plain(subs[i]))
}

/// The place after the tag that starts at `i`, or `i` where none starts.
fn tag_after(s: &Vec<char>, i: usize) -> (end: usize)
    requires
        i < s.len(),
    ensures
        end == tag_end(s@, i as int),
        i <= end <= s.len(),
{
    if s[i] == '<' && i + 1 < s.len() && (('a' <= s[i + 1] && s[i + 1] <= 'z') || s[i + 1]
        == '/') {
        let close = scan_run(s, i + 2, CharClass::Inside);
        if close < s.len() {
            close + 1
        } else {
            i
        }
    } else {
        i
    }
}

/// Appends the characters of `s` that belong to no tag to `out`.
fn push_stripped(out: &mut String, s: &Vec<char>)
    ensures
        final(out)@ == old(out)@ + stripped(s@),
{
    let mut i: usize = 0;
    while i < s.len()
        invariant
            i <= s.len(),
            out@ + stripped_from(s@, i as int) == old(out)@ + stripped(s@),
        decreases s.len() - i,
    {
        let end = tag_after(s, i);
        if end > i {
            i = end;
        } else {
            out.push(s[i]);
            i += 1;
        }
    }
}

/// The text without its tags of markup.
pub fn strip_formatting(text: &str) -> (plain: String)
    ensures
        plain@ == stripped(text@),
{
    let s = to_chars(text);
    let mut plain = String::new();
    push_stripped(&mut plain, &s);
    plain
}

impl Subtitle {
    /// Appends the words of this subtitle, without markup, to `out`.
    pub fn push_plain_text(&self, out: &mut String)
        ensures
            final(out)@ == old(out)@ + plain(self@),
    {
        let ghost all = lines_view(self.lines@);
        let mut joined: Vec<char> = Vec::new();
        let mut i: usize = 0;
        while i < self.lines.len()
            invariant
                i <= self.lines.len(),
                all == lines_view(self.lines@),
                joined@ == join(all.take(i as int), ' '),
            decreases self.lines.len() - i,
        {
            if i > 0 {
                joined.push(' ');
            }
            push_all(&mut joined, self.lines[i].as_str());
            proof {
                lemma_join_push(all.take(i as int), all[i as int], ' ');
                assert(all.take(i as int + 1) =~= all.take(i as int).push(all[i as int]));
            }
            i += 1;
        }
        assert(all.take(i as int) =~= all);
        push_stripped(out, &joined);
    }

    /// The words of this subtitle on one line: its lines with a space
    /// between each two of them, and the markup taken out.
    pub fn plain_text(&self) -> (text: String)
        ensures
            text@ == plain(self@),
    {
        let mut text = String::new();
        self.push_plain_text(&mut text);
        text
    }
}

impl SubtitleFile {
    /// The words of the whole file, one line for each subtitle: the text
    /// from which the language of a file is told.
    pub fn plain_text(&self) -> (text: String)
        ensures
            text@ == join(plain_texts(self@), '\n'),
    {
        let ghost all = plain_texts(self@);
        let mut text = String::new();
        let mut i: usize = 0;
        while i < self.subtitles.len()
            invariant
                i <= self.subtitles.len(),
                all == plain_texts(self@),
                text@ == join(all.take(i as int), '\n'),
            decreases self.subtitles.len() - i,
        {
            if i > 0 {
                text.push('\n');
            }
            self.subtitles[i].push_plain_text(&mut text);
            proof {
                lemma_join_push(all.take(i as int), all[i as int], '\n');
                assert(all.take(i as int + 1) =~= all.take(i as int).push(all[i as int]));
            }
            i += 1;
        }
        assert(all.take(i as int) =~= all);
        text
    }
}

} // verus!
