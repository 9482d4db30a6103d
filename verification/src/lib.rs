//! Subtitles in the SRT text format: the data model, a parser, a serializer
//! that reproduces canonical text, and the merging of two timelines.
//!
//! Times are whole milliseconds. Every executable function carries a contract
//! over the views of its arguments, and the laws that relate the parser to the
//! serializer are proved in [`laws`].

pub mod grammar;
pub mod laws;
pub mod markup;
pub mod merge;
pub mod parser;
pub mod subtitle;
pub mod text;
pub mod time;

pub use crate::grammar::{ParseError, ParseErrorKind};
pub use crate::markup::strip_formatting;
pub use crate::merge::AppendWithOffset;
pub use crate::subtitle::{Subtitle, SubtitleFile};
pub use crate::time::{format_time, InvalidPeriod, Period};
