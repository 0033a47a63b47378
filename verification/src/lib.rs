//! A canonicalizing JSON formatter: parse a JSON text into a value tree and
//! render it back as deterministic, two-space-indented text.

use vstd::prelude::*;

pub mod formatter;
pub mod grammar;
pub mod laws;
pub mod nodes;
pub mod number;
pub mod parser;
pub mod reporter;
pub mod text;

verus! {

/// Whitespace that may stand between any two JSON tokens.
pub open spec fn is_ws_char(c: char) -> bool {
    c == ' ' || c == '\t' || c == '\r' || c == '\n'
}

/// Decimal digit check, shared by the grammar and the number canonicalizer.
pub open spec fn is_digit_char(c: char) -> bool {
    '0' <= c && c <= '9'
}

} // verus!
