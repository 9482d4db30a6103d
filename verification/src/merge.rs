//! Appending one timeline to another, later in time.

use vstd::prelude::*;
use crate::subtitle::{SubtitleFile, SubtitleView};
use crate::time::PeriodView;

verus! {

/// Formats made of timed items that can be appended to one another, the
/// second moved later in time.
pub trait AppendWithOffset: Sized {
    /// The result of appending `other` to `self`, moved by `time_offset`,
    /// fits the machine's integers.
    spec fn append_fits(&self, other: &Self, time_offset: u64) -> bool;

    /// `self` is `base` followed by `other` moved by `time_offset`.
    spec fn is_appended(&self, base: &Self, other: &Self, time_offset: u64) -> bool;

    /// Appends `other`, moved later by `time_offset` milliseconds.
    fn append_with_offset(&mut self, other: Self, time_offset: u64)
        requires
            old(self).append_fits(&other, time_offset),
        ensures
            final(self).is_appended(old(self), &other, time_offset),
    ;
}

/// The subtitle at place `i` of `base` followed by `other`: numbered `i + 1`;
/// from `base` with its period as it is, from `other` with both ends of its
/// period `offset` later; its lines as they are.
pub open spec fn appended_at(
    base: Seq<SubtitleView>,
    other: Seq<SubtitleView>,
    offset: nat,
    i: int,
) -> SubtitleView {
    if i < base.len() {
        SubtitleView { index: (i + 1) as nat, period: base[i].period, lines: base[i].lines }
    } else {
        let sub = other[i - base.len()];
        SubtitleView {
            index: (i + 1) as nat,
            period: PeriodView { begin: sub.period.begin + offset, end: sub.period.end + offset },
            lines: sub.lines,
        }
    }
}

/// The subtitles of `base` followed by those of `other` moved `offset`
/// later, numbered from one in their order.
pub open spec fn appended(base: Seq<SubtitleView>, other: Seq<SubtitleView>, offset: nat) -> Seq<
    SubtitleView,
> {
    Seq::new(base.len() + other.len(), |i: int| appended_at(base, other, offset, i))
}

/// Two subtitles with the same period and the same lines.
spec fn same_but_index(one: SubtitleView, other: SubtitleView) -> bool {
    one.period == other.period && one.lines == other.lines
}

impl SubtitleFile {
    /// Whether `other`, moved later by `time_offset`, can be appended to
    /// this file within the machine's integers.
    pub fn can_append(&self, other: &SubtitleFile, time_offset: u64) -> (fits: bool)
        ensures
            fits == self.append_fits(other, time_offset),
    {
        let mut j: usize = 0;
        while j < other.subtitles.len()
            invariant
                j <= other.subtitles.len(),
                forall|k: int|
                    0 <= k < j ==> (#[trigger] other@[k]).period.end + time_offset <= u64::MAX,
            decreases other.subtitles.len() - j,
        {
            if other.subtitles[j].period.end() > u64::MAX - time_offset {
                assert(other@[j as int].period.end + time_offset > u64::MAX);
                return false;
            }
            j += 1;
        }
        true
    }
}

impl AppendWithOffset for SubtitleFile {
    /// No period of `other` ends later than `u64` holds once it is moved.
    open spec fn append_fits(&self, other: &Self, time_offset: u64) -> bool {
        forall|i: int|
            0 <= i < other@.len() ==> (#[trigger] other@[i]).period.end + time_offset <= u64::MAX
    }

    open spec fn is_appended(&self, base: &Self, other: &Self, time_offset: u64) -> bool {
        self@ == appended(base@, other@, time_offset as nat)
    }

    /// Moves each period of `other` later by `time_offset`, puts the
    /// subtitles of `other` behind those of `self`, and numbers them all
    /// from one in their order.
    fn append_with_offset(&mut self, other: SubtitleFile, time_offset: u64) {
        let mut other = other;
        let ghost first = self@;
        let ghost second = other@;
        let ghost offset = time_offset as nat;
        let n = self.subtitles.len();
        let m = other.subtitles.len();
        let mut j: usize = 0;
        while j < m
            invariant
                j <= m,
                other.subtitles.len() == m,
                second.len() == m,
                first.len() == n,
                offset == time_offset,
                forall|k: int|
                    0 <= k < m ==> (#[trigger] second[k]).period.end + time_offset <= u64::MAX,
                forall|k: int|
                    0 <= k < j ==> same_but_index(
                        (#[trigger] other.subtitles@[k])@,
                        appended_at(first, second, offset, n + k),
                    ),
                forall|k: int| j <= k < m ==> (#[trigger] other.subtitles@[k])@ == second[k],
            decreases m - j,
        {
            assert(other.subtitles@[j as int]@ == second[j as int]);
            let moved = other.subtitles[j].period.shift(time_offset);
            other.subtitles[j].period = moved;
            j += 1;
        }
        assert forall|k: int| 0 <= k < n implies same_but_index(
            (#[trigger] self.subtitles@[k])@,
            appended_at(first, second, offset, k),
        ) by {
            assert(self.subtitles@[k]@ == first[k]);
        }
        self.subtitles.append(&mut other.subtitles);
        let mut i: usize = 0;
        while i < self.subtitles.len()
            invariant
                i <= self.subtitles.len(),
                self.subtitles.len() == n + m,
                first.len() == n,
                second.len() == m,
                forall|k: int|
                    0 <= k < n + m ==> same_but_index(
                        (#[trigger] self.subtitles@[k])@,
                        appended_at(first, second, offset, k),
                    ),
                forall|k: int| 0 <= k < i ==> (#[trigger] self.subtitles@[k]).index == k + 1,
            decreases self.subtitles.len() - i,
        {
            self.subtitles[i].index = i + 1;
            i += 1;
        }
        assert(self@ =~= appended(first, second, offset));
    }
}

} // verus!
