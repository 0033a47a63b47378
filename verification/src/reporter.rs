//! Rendering of a positioned syntax error as human-readable text: a
//! marker pointing at the offending column of the offending source line,
//! followed by the expected construct.

use vstd::prelude::*;
use crate::grammar::Expect;
use crate::parser::ParseError;
use crate::text::{chars_to_string, push_chars, push_str_chars};

verus! {

/// The character of the decimal digit `d`.
pub open spec fn digit_char(d: int) -> char {
    if d == 0 {
        '0'
    } else if d == 1 {
        '1'
    } else if d == 2 {
        '2'
    } else if d == 3 {
        '3'
    } else if d == 4 {
        '4'
    } else if d == 5 {
        '5'
    } else if d == 6 {
        '6'
    } else if d == 7 {
        '7'
    } else if d == 8 {
        '8'
    } else {
        '9'
    }
}

/// The decimal digits of `n`.
pub open spec fn dec_seq(n: int) -> Seq<char>
    decreases n,
{
    if n < 10 {
        seq![digit_char(n)]
    } else {
        dec_seq(n / 10) + seq![digit_char(n % 10)]
    }
}

/// `n` spaces (none for a negative count).
pub open spec fn sp(n: int) -> Seq<char> {
    Seq::new(
        if n >= 0 {
            n as nat
        } else {
            0
        },
        |i: int| ' ',
    )
}

/// What the parser asked for, in words.
pub open spec fn desc_of(e: Expect) -> Seq<char> {
    match e {
        Expect::Value => "a value"@,
        Expect::KeyOrCloseBrace => "a key or '}'"@,
        Expect::Key => "a key"@,
        Expect::Colon => "':'"@,
        Expect::CommaOrCloseBrace => "',' or '}'"@,
        Expect::CommaOrCloseBracket => "',' or ']'"@,
        Expect::CloseQuote => "a closing '\"'"@,
        Expect::Escape => "a valid escape character"@,
        Expect::HexDigit => "a hexadecimal digit"@,
        Expect::Digit => "a digit"@,
        Expect::SmallerExponent => "an exponent within the supported range"@,
        Expect::EndOfText => "the end of the text"@,
    }
}

/// The display text of a positioned error.
pub open spec fn report_text(line: int, col: int, text: Seq<char>, what: Expect) -> Seq<char> {
    let ln = dec_seq(line);
    let w = sp(ln.len() as int + 1);
    " --> "@ + ln + ":"@ + dec_seq(col) + "\n"@ + w + "|\n"@ + ln + " | "@ + text + "\n"@ + w
        + "| "@ + sp(col - 1) + "^---\n"@ + w + "|\n"@ + w + "= expected "@ + desc_of(what)
}

impl Expect {
    /// What was expected, in words.
    pub fn description(&self) -> (r: &'static str)
        ensures
            r@ == desc_of(*self),
    {
        match self {
            Expect::Value => "a value",
            Expect::KeyOrCloseBrace => "a key or '}'",
            Expect::Key => "a key",
            Expect::Colon => "':'",
            Expect::CommaOrCloseBrace => "',' or '}'",
            Expect::CommaOrCloseBracket => "',' or ']'",
            Expect::CloseQuote => "a closing '\"'",
            Expect::Escape => "a valid escape character",
            Expect::HexDigit => "a hexadecimal digit",
            Expect::Digit => "a digit",
            Expect::SmallerExponent => "an exponent within the supported range",
            Expect::EndOfText => "the end of the text",
        }
    }
}

fn digit_char_of(d: usize) -> (c: char)
    requires
        d < 10,
    ensures
        c == digit_char(d as int),
{
    if d == 0 {
        '0'
    } else if d == 1 {
        '1'
    } else if d == 2 {
        '2'
    } else if d == 3 {
        '3'
    } else if d == 4 {
        '4'
    } else if d == 5 {
        '5'
    } else if d == 6 {
        '6'
    } else if d == 7 {
        '7'
    } else if d == 8 {
        '8'
    } else {
        '9'
    }
}

/// Append the decimal digits of `n` to `out`.
fn push_dec(out: &mut Vec<char>, n: usize)
    ensures
        final(out)@ == old(out)@ + dec_seq(n as int),
    decreases n,
{
    if n < 10 {
        out.push(digit_char_of(n));
        proof {
            assert(out@ =~= old(out)@ + seq![digit_char(n as int)]);
        }
    } else {
        push_dec(out, n / 10);
        out.push(digit_char_of(n % 10));
        proof {
            assert(out@ =~= old(out)@ + (dec_seq(n as int / 10) + seq![
                digit_char(n as int % 10),
            ]));
        }
    }
}

impl ParseError {
    /// Render the error as display text: the position, the source line,
    /// a caret under the offending column, and the expected construct.
    pub fn message(&self) -> (r: String)
        ensures
            r@ == report_text(
                self.line as int,
                self.column as int,
                self.line_text@,
                self.expected,
            ),
    {
        let mut ln: Vec<char> = Vec::new();
        push_dec(&mut ln, self.line);
        let mut w: Vec<char> = Vec::new();
        let mut i: usize = 0;
        let nl = ln.len();
        while i < nl
            invariant
                i <= nl,
                w@ == sp(i as int),
            decreases nl - i,
        {
            w.push(' ');
            proof {
                assert(sp(i as int).push(' ') =~= sp(i + 1));
            }
            i = i + 1;
        }
        w.push(' ');
        proof {
            assert(w@ =~= sp(nl as int + 1));
        }
        let mut out: Vec<char> = Vec::new();
        push_str_chars(&mut out, " --> ");
        push_chars(&mut out, &ln);
        push_str_chars(&mut out, ":");
        push_dec(&mut out, self.column);
        push_str_chars(&mut out, "\n");
        push_chars(&mut out, &w);
        push_str_chars(&mut out, "|\n");
        push_chars(&mut out, &ln);
        push_str_chars(&mut out, " | ");
        push_str_chars(&mut out, self.line_text.as_str());
        push_str_chars(&mut out, "\n");
        push_chars(&mut out, &w);
        push_str_chars(&mut out, "| ");
        let mut c: usize = 1;
        let ghost mark = out@;
        while c < self.column
            invariant
                1 <= c,
                self.column >= 1 ==> c <= self.column,
                self.column < 1 ==> c == 1,
                out@ == mark + sp(c - 1),
            decreases self.column - c,
        {
            out.push(' ');
            proof {
                assert(sp(c - 1).push(' ') =~= sp(c as int));
            }
            c = c + 1;
        }
        proof {
            assert(out@ =~= mark + sp(self.column as int - 1));
        }
        push_str_chars(&mut out, "^---\n");
        push_chars(&mut out, &w);
        push_str_chars(&mut out, "|\n");
        push_chars(&mut out, &w);
        push_str_chars(&mut out, "= expected ");
        push_str_chars(&mut out, self.expected.description());
        proof {
            assert(out@ =~= report_text(
                self.line as int,
                self.column as int,
                self.line_text@,
                self.expected,
            ));
        }
        chars_to_string(&out)
    }
}

} // verus!
