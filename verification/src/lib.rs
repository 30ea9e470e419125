//! Compile-ahead text formatting primitives.
//!
//! Two halves make up the library: fixed-size string-editing operations over
//! UTF-8 byte sequences (replace, repeat, index, splice), each split into an
//! exact length computation and a write step; and a format-string parser that
//! turns a template with `{..}` placeholders into a sequence of literal and
//! argument components, together with the flag types that describe how each
//! argument is rendered.

use vstd::prelude::*;

pub mod search;
pub mod replace;
pub mod repeat;
pub mod indexing;
pub mod format_str_parsing;
pub mod formatting;

verus! {

pub use crate::search::{bytes_find, is_char_boundary};
pub use crate::replace::{
    AsciiByte,
    ReplaceInput,
    ReplaceInputConv,
    str_replace,
    str_replace_length,
};
pub use crate::repeat::str_repeat;
pub use crate::indexing::{
    DecomposedString,
    IndexSpec,
    SplicedStr,
    decompose,
    resolve_index_spec,
    str_get,
    str_index,
    str_splice,
};
pub use crate::format_str_parsing::{
    FmtArg,
    FmtStrComponent,
    FormatStr,
    ParseError,
    ParseErrorKind,
    WhichArg,
    parse_format_str,
};
pub use crate::formatting::{FormattingFlags, FormattingMode, IsAlternate};

/// Failure of a string-editing operation, reported before any output byte is
/// produced.
#[derive(Clone, Copy, Debug, PartialEq, Eq, Structural)]
pub enum TextError {
    /// The resolved span lies outside the text or off a char boundary.
    InvalidSpan,
    /// The exact output length does not fit in `usize`.
    LengthOverflow,
}

} // verus!
