//! The JSON grammar, written as a total specification-level
//! recursive-descent parser over character sequences. The executable
//! parser is proved equal to these functions, so they are the single
//! definition of which texts the library accepts and what tree and what
//! error each text yields.
//!
//! Every function takes the suffix of the input that remains and hands
//! back the suffix after what it consumed. An error carries the length of
//! the suffix at the failing position (`rem`), so the absolute position in
//! the full text is its length minus `rem`.

use vstd::prelude::*;
use crate::{is_digit_char, is_ws_char};
use crate::nodes::{JsonVal, is_hex_char, is_simple_escape_char};
use crate::number::{canonical_number, exp_val, MAX_EXPONENT};

verus! {

/// What the parser expected at the point of a syntax error.
#[derive(Clone, Copy, Debug, PartialEq, Eq, Structural)]
pub enum Expect {
    /// A value: an object, array, string, number, boolean or null.
    Value,
    /// A string key or the closing brace of an empty object.
    KeyOrCloseBrace,
    /// A string key after a comma.
    Key,
    /// The colon between a key and its value.
    Colon,
    /// A comma before a further member, or the closing brace.
    CommaOrCloseBrace,
    /// A comma before a further element, or the closing bracket.
    CommaOrCloseBracket,
    /// The closing quote of a string.
    CloseQuote,
    /// A legal character after a backslash.
    Escape,
    /// A hexadecimal digit inside a `\u` escape.
    HexDigit,
    /// A decimal digit inside a number.
    Digit,
    /// A number exponent within the supported range.
    SmallerExponent,
    /// The end of the text after a complete value.
    EndOfText,
}

/// A syntax error at the position with `rem` characters left to the end
/// of the text, where `what` was expected.
pub struct SpecError {
    pub rem: int,
    pub what: Expect,
}

/// The error position `j` characters into the suffix `s`, as a
/// remaining-length count.
pub open spec fn rem_at(s: Seq<char>, j: int) -> int {
    if j < s.len() {
        s.len() - j
    } else {
        0
    }
}

/// `s` with its leading whitespace removed.
pub open spec fn skip_ws_s(s: Seq<char>) -> Seq<char>
    decreases s.len(),
{
    if s.len() > 0 && is_ws_char(s[0]) {
        skip_ws_s(s.skip(1))
    } else {
        s
    }
}

/// Split `s` into its longest digit prefix and the rest.
pub open spec fn scan_digits_s(s: Seq<char>) -> (Seq<char>, Seq<char>)
    decreases s.len(),
{
    if s.len() > 0 && is_digit_char(s[0]) {
        let p = scan_digits_s(s.skip(1));
        (seq![s[0]] + p.0, p.1)
    } else {
        (Seq::empty(), s)
    }
}

/// Scan a string interior, standing just after the opening quote: the raw
/// interior text and the suffix after the closing quote.
pub open spec fn scan_interior_s(s: Seq<char>) -> Result<(Seq<char>, Seq<char>), SpecError>
    decreases s.len(),
{
    if s.len() == 0 {
        Err(SpecError { rem: 0, what: Expect::CloseQuote })
    } else if s[0] == '"' {
        Ok((Seq::empty(), s.skip(1)))
    } else if s[0] == '\\' {
        if s.len() >= 2 && is_simple_escape_char(s[1]) {
            match scan_interior_s(s.skip(2)) {
                Ok(p) => Ok((seq![s[0], s[1]] + p.0, p.1)),
                Err(e) => Err(e),
            }
        } else if s.len() >= 2 && s[1] == 'u' {
            if s.len() < 3 || !is_hex_char(s[2]) {
                Err(SpecError { rem: rem_at(s, 2), what: Expect::HexDigit })
            } else if s.len() < 4 || !is_hex_char(s[3]) {
                Err(SpecError { rem: rem_at(s, 3), what: Expect::HexDigit })
            } else if s.len() < 5 || !is_hex_char(s[4]) {
                Err(SpecError { rem: rem_at(s, 4), what: Expect::HexDigit })
            } else if s.len() < 6 || !is_hex_char(s[5]) {
                Err(SpecError { rem: rem_at(s, 5), what: Expect::HexDigit })
            } else {
                match scan_interior_s(s.skip(6)) {
                    Ok(p) => Ok((s.take(6) + p.0, p.1)),
                    Err(e) => Err(e),
                }
            }
        } else {
            Err(SpecError { rem: rem_at(s, 1), what: Expect::Escape })
        }
    } else {
        match scan_interior_s(s.skip(1)) {
            Ok(p) => Ok((seq![s[0]] + p.0, p.1)),
            Err(e) => Err(e),
        }
    }
}

/// Scan a number literal at the head of `s` and canonicalize it: the
/// canonical text and the suffix after the literal.
pub open spec fn parse_number_s(s: Seq<char>) -> Result<(Seq<char>, Seq<char>), SpecError> {
    let neg = s.len() > 0 && s[0] == '-';
    let s1 = if neg {
        s.skip(1)
    } else {
        s
    };
    if s1.len() == 0 || !is_digit_char(s1[0]) {
        Err(SpecError { rem: s1.len() as int, what: Expect::Digit })
    } else {
        let ir = if s1[0] == '0' {
            (seq!['0'], s1.skip(1))
        } else {
            scan_digits_s(s1)
        };
        let s2 = ir.1;
        if s2.len() > 0 && s2[0] == '.' {
            let fr = scan_digits_s(s2.skip(1));
            if fr.0.len() == 0 {
                Err(SpecError { rem: rem_at(s2, 1), what: Expect::Digit })
            } else {
                finish_number_s(neg, ir.0, fr.0, fr.1)
            }
        } else {
            finish_number_s(neg, ir.0, Seq::empty(), s2)
        }
    }
}

/// Scan the optional exponent part at `s3` and build the canonical text
/// from the parts of the literal.
pub open spec fn finish_number_s(neg: bool, ipart: Seq<char>, fpart: Seq<char>, s3: Seq<char>) -> Result<
    (Seq<char>, Seq<char>),
    SpecError,
> {
    if s3.len() > 0 && (s3[0] == 'e' || s3[0] == 'E') {
        let eneg = s3.len() > 1 && s3[1] == '-';
        let s4 = if s3.len() > 1 && (s3[1] == '-' || s3[1] == '+') {
            s3.skip(2)
        } else {
            s3.skip(1)
        };
        let xr = scan_digits_s(s4);
        if xr.0.len() == 0 {
            Err(SpecError { rem: xr.1.len() as int, what: Expect::Digit })
        } else if exp_val(xr.0) > MAX_EXPONENT as int {
            Err(SpecError { rem: s3.len() as int, what: Expect::SmallerExponent })
        } else {
            let x = if eneg {
                -exp_val(xr.0)
            } else {
                exp_val(xr.0)
            };
            Ok((canonical_number(neg, ipart + fpart, x - fpart.len()), xr.1))
        }
    } else {
        Ok((canonical_number(neg, ipart + fpart, -(fpart.len() as int)), s3))
    }
}

/// Parse one value standing at its first character (no leading
/// whitespace).
pub open spec fn parse_value_s(s: Seq<char>) -> Result<(JsonVal, Seq<char>), SpecError>
    decreases s.len(), 2int,
{
    if s.len() == 0 {
        Err(SpecError { rem: 0, what: Expect::Value })
    } else if s[0] == '{' {
        parse_object_s(s)
    } else if s[0] == '[' {
        parse_array_s(s)
    } else if s[0] == '"' {
        match scan_interior_s(s.skip(1)) {
            Ok(p) => Ok((JsonVal::Text(p.0), p.1)),
            Err(e) => Err(e),
        }
    } else if s[0] == 't' {
        if s.len() >= 4 && s[1] == 'r' && s[2] == 'u' && s[3] == 'e' {
            Ok((JsonVal::Boolean(true), s.skip(4)))
        } else {
            Err(SpecError { rem: s.len() as int, what: Expect::Value })
        }
    } else if s[0] == 'f' {
        if s.len() >= 5 && s[1] == 'a' && s[2] == 'l' && s[3] == 's' && s[4] == 'e' {
            Ok((JsonVal::Boolean(false), s.skip(5)))
        } else {
            Err(SpecError { rem: s.len() as int, what: Expect::Value })
        }
    } else if s[0] == 'n' {
        if s.len() >= 4 && s[1] == 'u' && s[2] == 'l' && s[3] == 'l' {
            Ok((JsonVal::Null, s.skip(4)))
        } else {
            Err(SpecError { rem: s.len() as int, what: Expect::Value })
        }
    } else if s[0] == '-' || is_digit_char(s[0]) {
        match parse_number_s(s) {
            Ok(p) => Ok((JsonVal::Number(p.0), p.1)),
            Err(e) => Err(e),
        }
    } else {
        Err(SpecError { rem: s.len() as int, what: Expect::Value })
    }
}

/// Parse an object standing at its opening brace.
pub open spec fn parse_object_s(s: Seq<char>) -> Result<(JsonVal, Seq<char>), SpecError>
    decreases s.len(), 1int,
{
    if s.len() == 0 || s[0] != '{' {
        Err(SpecError { rem: s.len() as int, what: Expect::Value })
    } else {
        let s1 = skip_ws_s(s.skip(1));
        if s1.len() > 0 && s1[0] == '}' {
            Ok((JsonVal::Object(Seq::empty()), s1.skip(1)))
        } else if s1.len() == 0 || s1[0] != '"' {
            Err(SpecError { rem: s1.len() as int, what: Expect::KeyOrCloseBrace })
        } else if s1.len() >= s.len() {
            // never reached: the brace was consumed; keeps the recursion
            // visibly bounded
            Err(SpecError { rem: s1.len() as int, what: Expect::KeyOrCloseBrace })
        } else {
            match parse_members_s(s1) {
                Ok(mp) => Ok((JsonVal::Object(mp.0), mp.1)),
                Err(e) => Err(e),
            }
        }
    }
}

/// Parse an array standing at its opening bracket.
pub open spec fn parse_array_s(s: Seq<char>) -> Result<(JsonVal, Seq<char>), SpecError>
    decreases s.len(), 1int,
{
    if s.len() == 0 || s[0] != '[' {
        Err(SpecError { rem: s.len() as int, what: Expect::Value })
    } else {
        let s1 = skip_ws_s(s.skip(1));
        if s1.len() > 0 && s1[0] == ']' {
            Ok((JsonVal::Array(Seq::empty()), s1.skip(1)))
        } else if s1.len() >= s.len() {
            // never reached: the bracket was consumed; keeps the recursion
            // visibly bounded
            Err(SpecError { rem: s1.len() as int, what: Expect::Value })
        } else {
            match parse_elems_s(s1) {
                Ok(ep) => Ok((JsonVal::Array(ep.0), ep.1)),
                Err(e) => Err(e),
            }
        }
    }
}

/// Parse the members of a non-empty object, standing at the opening quote
/// of a key.
pub open spec fn parse_members_s(s: Seq<char>) -> Result<
    (Seq<(Seq<char>, JsonVal)>, Seq<char>),
    SpecError,
>
    decreases s.len(), 3int,
{
    if s.len() == 0 || s[0] != '"' {
        Err(SpecError { rem: s.len() as int, what: Expect::Key })
    } else {
        match scan_interior_s(s.skip(1)) {
            Err(e) => Err(e),
            Ok(kp) => {
                let s2 = skip_ws_s(kp.1);
                if s2.len() == 0 || s2[0] != ':' {
                    Err(SpecError { rem: s2.len() as int, what: Expect::Colon })
                } else {
                    let s3 = skip_ws_s(s2.skip(1));
                    if s3.len() >= s.len() {
                        // never reached: the key and colon were consumed;
                        // keeps the recursion visibly bounded
                        Err(SpecError { rem: s3.len() as int, what: Expect::Value })
                    } else {
                        match parse_value_s(s3) {
                            Err(e) => Err(e),
                            Ok(vp) => {
                                let s4 = skip_ws_s(vp.1);
                                if s4.len() > 0 && s4[0] == ',' {
                                    let s5 = skip_ws_s(s4.skip(1));
                                    if s5.len() >= s.len() {
                                        // never reached: the comma was
                                        // consumed
                                        Err(SpecError { rem: s5.len() as int, what: Expect::Key })
                                    } else {
                                        match parse_members_s(s5) {
                                            Ok(mp) => Ok(
                                                (seq![(kp.0, vp.0)] + mp.0, mp.1),
                                            ),
                                            Err(e) => Err(e),
                                        }
                                    }
                                } else if s4.len() > 0 && s4[0] == '}' {
                                    Ok((seq![(kp.0, vp.0)], s4.skip(1)))
                                } else {
                                    Err(
                                        SpecError {
                                            rem: s4.len() as int,
                                            what: Expect::CommaOrCloseBrace,
                                        },
                                    )
                                }
                            },
                        }
                    }
                }
            },
        }
    }
}

/// Parse the elements of a non-empty array, standing at the first
/// character of an element.
pub open spec fn parse_elems_s(s: Seq<char>) -> Result<(Seq<JsonVal>, Seq<char>), SpecError>
    decreases s.len(), 3int,
{
    match parse_value_s(s) {
        Err(e) => Err(e),
        Ok(vp) => {
            let s2 = skip_ws_s(vp.1);
            if s2.len() > 0 && s2[0] == ',' {
                let s3 = skip_ws_s(s2.skip(1));
                if s3.len() >= s.len() {
                    // never reached: the comma was consumed; keeps the
                    // recursion visibly bounded
                    Err(SpecError { rem: s3.len() as int, what: Expect::Value })
                } else {
                    match parse_elems_s(s3) {
                        Ok(ep) => Ok((seq![vp.0] + ep.0, ep.1)),
                        Err(e) => Err(e),
                    }
                }
            } else if s2.len() > 0 && s2[0] == ']' {
                Ok((seq![vp.0], s2.skip(1)))
            } else {
                Err(SpecError { rem: s2.len() as int, what: Expect::CommaOrCloseBracket })
            }
        },
    }
}

pub broadcast proof fn lemma_skip_ws_len(s: Seq<char>)
    ensures
        (#[trigger] skip_ws_s(s)).len() <= s.len(),
    decreases s.len(),
{
    if s.len() > 0 && is_ws_char(s[0]) {
        lemma_skip_ws_len(s.skip(1));
    }
}

pub broadcast proof fn lemma_scan_digits_len(s: Seq<char>)
    ensures
        (#[trigger] scan_digits_s(s)).0.len() + scan_digits_s(s).1.len() == s.len(),
        crate::number::all_digits(scan_digits_s(s).0),
    decreases s.len(),
{
    if s.len() > 0 && is_digit_char(s[0]) {
        lemma_scan_digits_len(s.skip(1));
    }
}

pub broadcast proof fn lemma_scan_interior_len(s: Seq<char>)
    ensures
        (#[trigger] scan_interior_s(s)) matches Ok(p) ==> p.1.len() < s.len(),
    decreases s.len(),
{
    if s.len() > 0 && s[0] != '"' {
        if s[0] == '\\' {
            if s.len() >= 2 && is_simple_escape_char(s[1]) {
                lemma_scan_interior_len(s.skip(2));
            } else if s.len() >= 6 && s[1] == 'u' {
                lemma_scan_interior_len(s.skip(6));
            }
        } else {
            lemma_scan_interior_len(s.skip(1));
        }
    }
}

pub proof fn lemma_finish_number_len(neg: bool, ipart: Seq<char>, fpart: Seq<char>, s3: Seq<char>)
    ensures
        finish_number_s(neg, ipart, fpart, s3) matches Ok(p) ==> p.1.len() <= s3.len(),
{
    broadcast use lemma_scan_digits_len;

}

pub broadcast proof fn lemma_parse_number_len(s: Seq<char>)
    ensures
        (#[trigger] parse_number_s(s)) matches Ok(p) ==> p.1.len() < s.len(),
{
    broadcast use lemma_scan_digits_len;

    let neg = s.len() > 0 && s[0] == '-';
    let s1 = if neg {
        s.skip(1)
    } else {
        s
    };
    if s1.len() > 0 && is_digit_char(s1[0]) {
        let ir = if s1[0] == '0' {
            (seq!['0'], s1.skip(1))
        } else {
            scan_digits_s(s1)
        };
        let s2 = ir.1;
        assert(s2.len() < s1.len());
        if s2.len() > 0 && s2[0] == '.' {
            let fr = scan_digits_s(s2.skip(1));
            if fr.0.len() > 0 {
                lemma_finish_number_len(neg, ir.0, fr.0, fr.1);
            }
        } else {
            lemma_finish_number_len(neg, ir.0, Seq::empty(), s2);
        }
    }
}

pub broadcast proof fn lemma_parse_value_len(s: Seq<char>)
    ensures
        (#[trigger] parse_value_s(s)) matches Ok(p) ==> p.1.len() < s.len(),
    decreases s.len(), 2int,
{
    broadcast use lemma_scan_interior_len, lemma_parse_number_len;

    if s.len() > 0 {
        if s[0] == '{' {
            lemma_parse_object_len(s);
        } else if s[0] == '[' {
            lemma_parse_array_len(s);
        }
    }
}

pub broadcast proof fn lemma_parse_object_len(s: Seq<char>)
    ensures
        (#[trigger] parse_object_s(s)) matches Ok(p) ==> p.1.len() < s.len(),
    decreases s.len(), 1int,
{
    broadcast use lemma_skip_ws_len;

    if s.len() > 0 && s[0] == '{' {
        let s1 = skip_ws_s(s.skip(1));
        if s1.len() > 0 && s1[0] == '"' && s1.len() < s.len() {
            lemma_parse_members_len(s1);
        }
    }
}

pub broadcast proof fn lemma_parse_array_len(s: Seq<char>)
    ensures
        (#[trigger] parse_array_s(s)) matches Ok(p) ==> p.1.len() < s.len(),
    decreases s.len(), 1int,
{
    broadcast use lemma_skip_ws_len;

    if s.len() > 0 && s[0] == '[' {
        let s1 = skip_ws_s(s.skip(1));
        if s1.len() < s.len() {
            lemma_parse_elems_len(s1);
        }
    }
}

pub broadcast proof fn lemma_parse_members_len(s: Seq<char>)
    ensures
        (#[trigger] parse_members_s(s)) matches Ok(p) ==> p.1.len() < s.len(),
    decreases s.len(), 3int,
{
    broadcast use lemma_skip_ws_len, lemma_scan_interior_len;

    if s.len() > 0 && s[0] == '"' {
        if let Ok(kp) = scan_interior_s(s.skip(1)) {
            let s2 = skip_ws_s(kp.1);
            if s2.len() > 0 && s2[0] == ':' {
                let s3 = skip_ws_s(s2.skip(1));
                if s3.len() < s.len() {
                    lemma_parse_value_len(s3);
                    if let Ok(vp) = parse_value_s(s3) {
                        let s4 = skip_ws_s(vp.1);
                        if s4.len() > 0 && s4[0] == ',' {
                            let s5 = skip_ws_s(s4.skip(1));
                            if s5.len() < s.len() {
                                lemma_parse_members_len(s5);
                            }
                        }
                    }
                }
            }
        }
    }
}

pub broadcast proof fn lemma_parse_elems_len(s: Seq<char>)
    ensures
        (#[trigger] parse_elems_s(s)) matches Ok(p) ==> p.1.len() < s.len(),
    decreases s.len(), 3int,
{
    broadcast use lemma_skip_ws_len;

    lemma_parse_value_len(s);
    if let Ok(vp) = parse_value_s(s) {
        let s2 = skip_ws_s(vp.1);
        if s2.len() > 0 && s2[0] == ',' {
            let s3 = skip_ws_s(s2.skip(1));
            if s3.len() < s.len() {
                lemma_parse_elems_len(s3);
            }
        }
    }
}

pub proof fn lemma_skip_ws_concat(w: Seq<char>, x: Seq<char>)
    requires
        forall|i: int| 0 <= i < w.len() ==> is_ws_char(#[trigger] w[i]),
        x.len() == 0 || !is_ws_char(x[0]),
    ensures
        skip_ws_s(w + x) == x,
    decreases w.len(),
{
    if w.len() == 0 {
        assert(w + x =~= x);
    } else {
        assert((w + x)[0] == w[0]);
        assert((w + x).skip(1) =~= w.skip(1) + x);
        lemma_skip_ws_concat(w.skip(1), x);
    }
}

pub proof fn lemma_scan_digits_concat(d: Seq<char>, r: Seq<char>)
    requires
        crate::number::all_digits(d),
        r.len() == 0 || !is_digit_char(r[0]),
    ensures
        scan_digits_s(d + r).0 == d,
        scan_digits_s(d + r).1 == r,
    decreases d.len(),
{
    let s = d + r;
    if d.len() == 0 {
        assert(s =~= r);
        assert(scan_digits_s(s).0 =~= d);
    } else {
        assert(s[0] == d[0]);
        assert(s.skip(1) =~= d.skip(1) + r);
        assert(crate::number::all_digits(d.skip(1)));
        lemma_scan_digits_concat(d.skip(1), r);
        assert(seq![s[0]] + d.skip(1) =~= d);
    }
}

pub proof fn lemma_scan_interior_concat(t: Seq<char>, r: Seq<char>)
    requires
        crate::nodes::wf_interior(t),
    ensures
        scan_interior_s(t + (seq!['"'] + r)) == Ok::<(Seq<char>, Seq<char>), SpecError>((t, r)),
    decreases t.len(),
{
    let s = t + (seq!['"'] + r);
    if t.len() == 0 {
        assert(s =~= seq!['"'] + r);
        assert(s[0] == '"');
        assert(s.skip(1) =~= r);
        assert(Seq::<char>::empty() =~= t);
    } else if t[0] == '\\' {
        assert(s[0] == '\\');
        if t.len() >= 2 && is_simple_escape_char(t[1]) {
            assert(s[1] == t[1]);
            assert(s.skip(2) =~= t.skip(2) + (seq!['"'] + r));
            lemma_scan_interior_concat(t.skip(2), r);
            assert(seq![s[0], s[1]] + t.skip(2) =~= t);
        } else {
            assert(t.len() >= 6 && t[1] == 'u' && is_hex_char(t[2]) && is_hex_char(t[3])
                && is_hex_char(t[4]) && is_hex_char(t[5]));
            assert(s[1] == 'u' && s[2] == t[2] && s[3] == t[3] && s[4] == t[4] && s[5] == t[5]);
            assert(s.skip(6) =~= t.skip(6) + (seq!['"'] + r));
            lemma_scan_interior_concat(t.skip(6), r);
            assert(s.take(6) + t.skip(6) =~= t);
        }
    } else {
        assert(s[0] == t[0]);
        assert(t[0] != '"' && t[0] != '\\');
        assert(s.skip(1) =~= t.skip(1) + (seq!['"'] + r));
        lemma_scan_interior_concat(t.skip(1), r);
        assert(seq![s[0]] + t.skip(1) =~= t);
    }
}

/// Parse a whole text: optional whitespace, one value, optional
/// whitespace, and nothing further.
pub open spec fn parse_text_s(s: Seq<char>) -> Result<JsonVal, SpecError> {
    match parse_value_s(skip_ws_s(s)) {
        Err(e) => Err(e),
        Ok(vp) => {
            let r = skip_ws_s(vp.1);
            if r.len() == 0 {
                Ok(vp.0)
            } else {
                Err(SpecError { rem: r.len() as int, what: Expect::EndOfText })
            }
        },
    }
}

} // verus!
