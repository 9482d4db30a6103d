//! Points in time and periods, in whole milliseconds, and the SRT timestamp.

use vstd::prelude::*;
use crate::text::{decimal_text, push_decimal};

verus! {

/// A period `[begin, end)` as numbers of milliseconds.
pub struct PeriodView {
    pub begin: nat,
    pub end: nat,
}

/// A half-open period of time `[begin, end)` in milliseconds that is never
/// empty: its beginning lies strictly before its end.
#[derive(Clone, Copy, Debug, PartialEq, Eq)]
pub struct Period {
    begin: u64,
    end: u64,
}

/// The reason why no period was made: `begin` does not lie before `end`.
#[derive(Clone, Copy, Debug, PartialEq, Eq)]
pub struct InvalidPeriod {
    pub begin: u64,
    pub end: u64,
}

impl View for Period {
    type V = PeriodView;

    closed spec fn view(&self) -> PeriodView {
        PeriodView { begin: self.begin as nat, end: self.end as nat }
    }
}

impl Period {
    #[verifier::type_invariant]
    spec fn ordered(self) -> bool {
        self.begin < self.end
    }

    /// The period from `begin` to `end`, where `begin < end`; otherwise the
    /// two values come back in the error.
    pub fn new(begin: u64, end: u64) -> (r: Result<Period, InvalidPeriod>)
        ensures
            begin < end ==> (r matches Ok(p) && p@ == (PeriodView {
                begin: begin as nat,
                end: end as nat,
            })),
            begin >= end ==> r == Err::<Period, InvalidPeriod>(InvalidPeriod { begin, end }),
    {
        if begin < end {
            Ok(Period { begin, end })
        } else {
            Err(InvalidPeriod { begin, end })
        }
    }

    /// The first millisecond of the period.
    pub fn begin(&self) -> (b: u64)
        ensures
            b == self@.begin,
            self@.begin < self@.end,
    {
        proof {
            use_type_invariant(self);
        }
        self.begin
    }

    /// The millisecond at which the period is over.
    pub fn end(&self) -> (e: u64)
        ensures
            e == self@.end,
            self@.begin < self@.end,
    {
        proof {
            use_type_invariant(self);
        }
        self.end
    }

    /// The same period `time_offset` milliseconds later; its length is kept.
    pub fn shift(&self, time_offset: u64) -> (r: Period)
        requires
            self@.end + time_offset <= u64::MAX,
        ensures
            r@ == (PeriodView {
                begin: self@.begin + time_offset as nat,
                end: self@.end + time_offset as nat,
            }),
    {
        proof {
            use_type_invariant(self);
        }
        Period { begin: self.begin + time_offset, end: self.end + time_offset }
    }
}

/// The numeral of `n` with a zero in front where it has one digit only.
pub open spec fn two_digits(n: nat) -> Seq<char> {
    if n < 10 {
        seq!['0'] + decimal_text(n)
    } else {
        decimal_text(n)
    }
}

/// The numeral of `n` with zeros in front where it has fewer than three digits.
pub open spec fn three_digits(n: nat) -> Seq<char> {
    if n < 10 {
        seq!['0', '0'] + decimal_text(n)
    } else if n < 100 {
        seq!['0'] + decimal_text(n)
    } else {
        decimal_text(n)
    }
}

/// The timestamp `HH:MM:SS,mmm` of a time in milliseconds. Hours take two
/// digits or as many as they need; minutes and seconds stay below sixty.
pub open spec fn time_text(millis: nat) -> Seq<char> {
    two_digits(millis / 3_600_000) + seq![':'] + two_digits(millis / 60_000 % 60) + seq![':']
        + two_digits(millis / 1000 % 60) + seq![','] + three_digits(millis % 1000)
}

/// Appends `two_digits(n)` to `out`.
fn push_two_digits(out: &mut String, n: u64)
    ensures
        final(out)@ == old(out)@ + two_digits(n as nat),
{
    if n < 10 {
        out.push('0');
    }
    push_decimal(out, n);
}

/// Appends `three_digits(n)` to `out`.
fn push_three_digits(out: &mut String, n: u64)
    ensures
        final(out)@ == old(out)@ + three_digits(n as nat),
{
    if n < 100 {
        out.push('0');
    }
    if n < 10 {
        out.push('0');
    }
    push_decimal(out, n);
}

/// Appends the timestamp of `time` to `out`.
pub(crate) fn push_time(out: &mut String, time: u64)
    ensures
        final(out)@ == old(out)@ + time_text(time as nat),
{
    push_two_digits(out, time / 3_600_000);
    out.push(':');
    push_two_digits(out, time / 60_000 % 60);
    out.push(':');
    push_two_digits(out, time / 1000 % 60);
    out.push(',');
    push_three_digits(out, time % 1000);
}

/// The SRT timestamp of a time given in milliseconds: hours, minutes and
/// seconds, then a comma and the three digits of the milliseconds.
pub fn format_time(time: u64) -> (text: String)
    ensures
        text@ == time_text(time as nat),
{
    let mut text = String::new();
    push_time(&mut text, time);
    text
}

} // verus!
