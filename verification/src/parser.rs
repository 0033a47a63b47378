//! The executable recursive-descent parser, proved equal to the grammar
//! of `crate::grammar` on every input.

use vstd::prelude::*;
use vstd::slice::{slice_index_get, slice_subrange};
use crate::{is_digit_char, is_ws_char};
use crate::grammar::{
    Expect, SpecError, finish_number_s, lemma_parse_number_len, lemma_parse_value_len,
    lemma_scan_digits_len, lemma_scan_interior_len, lemma_skip_ws_len, parse_array_s,
    parse_elems_s, parse_members_s, parse_number_s, parse_object_s, parse_text_s, parse_value_s,
    scan_digits_s, scan_interior_s, skip_ws_s,
};
use crate::nodes::{
    Array, Boolean, JsonVal, Null, Number, Object, StringNode, Value, is_hex_char,
    is_simple_escape_char, lemma_view_elems_index, lemma_view_elems_snoc,
    lemma_view_members_index, lemma_view_members_snoc, view_elems, view_members,
};
use crate::number::{MAX_EXPONENT, all_digits, digit_val, exp_val};
use crate::text::{chars_to_string, push_range, to_chars};

verus! {

broadcast use
    vstd::std_specs::vec::group_vec_axioms,
    vstd::seq::group_seq_axioms,
    lemma_skip_ws_len,
    lemma_scan_digits_len,
    lemma_scan_interior_len,
    lemma_parse_number_len,
    lemma_parse_value_len,
    lemma_view_members_index,
    lemma_view_elems_index;

/// A syntax error while scanning, at the position with `rem` characters
/// left to the end of the text.
#[derive(Clone, Copy, Debug, PartialEq, Eq, Structural)]
pub struct ScanError {
    pub rem: usize,
    pub what: Expect,
}

fn is_ws(c: char) -> (b: bool)
    ensures
        b == is_ws_char(c),
{
    c == ' ' || c == '\t' || c == '\r' || c == '\n'
}

fn is_digit(c: char) -> (b: bool)
    ensures
        b == is_digit_char(c),
{
    '0' <= c && c <= '9'
}

fn is_hex(c: char) -> (b: bool)
    ensures
        b == is_hex_char(c),
{
    ('0' <= c && c <= '9') || ('a' <= c && c <= 'f') || ('A' <= c && c <= 'F')
}

fn is_simple_escape(c: char) -> (b: bool)
    ensures
        b == is_simple_escape_char(c),
{
    c == '"' || c == '\\' || c == '/' || c == 'b' || c == 'f' || c == 'n' || c == 'r' || c == 't'
}

proof fn lemma_skip_ws_at(s: Seq<char>, i: int)
    requires
        0 <= i <= s.len(),
        forall|j: int| 0 <= j < i ==> is_ws_char(s[j]),
        i == s.len() || !is_ws_char(s[i]),
    ensures
        skip_ws_s(s) == s.skip(i),
    decreases i,
{
    if i == 0 {
        assert(s.skip(0) =~= s);
    } else {
        lemma_skip_ws_at(s.skip(1), i - 1);
        assert(s.skip(1).skip(i - 1) =~= s.skip(i));
    }
}

proof fn lemma_scan_digits_at(s: Seq<char>, i: int)
    requires
        0 <= i <= s.len(),
        forall|j: int| 0 <= j < i ==> is_digit_char(s[j]),
        i == s.len() || !is_digit_char(s[i]),
    ensures
        scan_digits_s(s).0 == s.take(i),
        scan_digits_s(s).1 == s.skip(i),
    decreases i,
{
    if i == 0 {
        assert(s.take(0) =~= Seq::<char>::empty());
        assert(s.skip(0) =~= s);
    } else {
        lemma_scan_digits_at(s.skip(1), i - 1);
        assert(seq![s[0]] + s.skip(1).take(i - 1) =~= s.take(i));
        assert(s.skip(1).skip(i - 1) =~= s.skip(i));
    }
}

/// The suffix of `s` after its leading whitespace.
fn skip_ws(s: &[char]) -> (r: &[char])
    ensures
        r@ == skip_ws_s(s@),
{
    let n = s.len();
    let mut i: usize = 0;
    while i < n && is_ws(*slice_index_get(s, i))
        invariant
            i <= n,
            n == s@.len(),
            forall|j: int| 0 <= j < i ==> is_ws_char(s@[j]),
        decreases n - i,
    {
        i = i + 1;
    }
    proof {
        lemma_skip_ws_at(s@, i as int);
    }
    slice_subrange(s, i, n)
}

/// The longest digit prefix of `s` and the suffix after it.
fn scan_digits(s: &[char]) -> (r: (Vec<char>, &[char]))
    ensures
        r.0@ == scan_digits_s(s@).0,
        r.1@ == scan_digits_s(s@).1,
{
    let n = s.len();
    let mut i: usize = 0;
    let mut digits: Vec<char> = Vec::new();
    while i < n && is_digit(*slice_index_get(s, i))
        invariant
            i <= n,
            n == s@.len(),
            digits@ == s@.take(i as int),
            forall|j: int| 0 <= j < i ==> is_digit_char(s@[j]),
        decreases n - i,
    {
        digits.push(*slice_index_get(s, i));
        proof {
            assert(s@.take(i as int).push(s@[i as int]) =~= s@.take(i + 1));
        }
        i = i + 1;
    }
    proof {
        lemma_scan_digits_at(s@, i as int);
    }
    (digits, slice_subrange(s, i, n))
}

fn digit_value(c: char) -> (d: u64)
    requires
        is_digit_char(c),
    ensures
        d as int == digit_val(c),
        d <= 9,
{
    ((c as u32) - ('0' as u32)) as u64
}

/// The value of a digit run, exact up to `MAX_EXPONENT` and saturated
/// just above it otherwise.
fn exp_value_capped(ds: &Vec<char>) -> (r: u64)
    requires
        all_digits(ds@),
    ensures
        (r > MAX_EXPONENT) == (exp_val(ds@) > MAX_EXPONENT as int),
        r <= MAX_EXPONENT ==> r as int == exp_val(ds@),
{
    let n = ds.len();
    let mut acc: u64 = 0;
    let mut i: usize = 0;
    while i < n
        invariant
            i <= n,
            n == ds@.len(),
            all_digits(ds@),
            acc <= MAX_EXPONENT + 1,
            (acc > MAX_EXPONENT) == (exp_val(ds@.take(i as int)) > MAX_EXPONENT as int),
            acc <= MAX_EXPONENT ==> acc as int == exp_val(ds@.take(i as int)),
        decreases n - i,
    {
        let dv = digit_value(ds[i]);
        proof {
            assert(ds@.take(i + 1).take(i as int) =~= ds@.take(i as int));
            assert(ds@.take(i + 1)[i as int] == ds@[i as int]);
            lemma_exp_val_nonneg(ds@.take(i as int));
        }
        if acc > MAX_EXPONENT {
            // already saturated: the value can only grow
        } else {
            let c = acc * 10 + dv;
            if c > MAX_EXPONENT {
                acc = MAX_EXPONENT + 1;
            } else {
                acc = c;
            }
        }
        i = i + 1;
    }
    proof {
        assert(ds@.take(n as int) =~= ds@);
    }
    acc
}

proof fn lemma_exp_val_nonneg(ds: Seq<char>)
    requires
        all_digits(ds),
    ensures
        exp_val(ds) >= 0,
    decreases ds.len(),
{
    if ds.len() > 0 {
        assert(all_digits(ds.take(ds.len() - 1)));
        lemma_exp_val_nonneg(ds.take(ds.len() - 1));
    }
}

/// Scan a string interior, standing just after the opening quote.
fn scan_interior(s: &[char]) -> (r: Result<(Vec<char>, &[char]), ScanError>)
    ensures
        match r {
            Ok(p) => scan_interior_s(s@) == Ok::<(Seq<char>, Seq<char>), SpecError>((p.0@, p.1@)),
            Err(e) => scan_interior_s(s@) matches Err(g) && g.rem == e.rem as int && g.what
                == e.what && e.rem <= s@.len(),
        },
{
    let n = s.len();
    let mut i: usize = 0;
    let mut acc: Vec<char> = Vec::new();
    proof {
        assert(s@.skip(0) =~= s@);
        if let Ok(p) = scan_interior_s(s@) {
            assert(Seq::<char>::empty() + p.0 =~= p.0);
        }
    }
    loop
        invariant
            i <= n,
            n == s@.len(),
            match scan_interior_s(s@.skip(i as int)) {
                Ok(p) => scan_interior_s(s@) == Ok::<(Seq<char>, Seq<char>), SpecError>(
                    (acc@ + p.0, p.1),
                ),
                Err(e) => scan_interior_s(s@) == Err::<(Seq<char>, Seq<char>), SpecError>(e),
            },
        decreases n - i,
    {
        let ghost cur = s@.skip(i as int);
        proof {
            assert(cur.len() == n - i);
        }
        if i == n {
            return Err(ScanError { rem: 0, what: Expect::CloseQuote });
        }
        let c = *slice_index_get(s, i);
        proof {
            assert(cur[0] == c);
        }
        if c == '"' {
            let rest = slice_subrange(s, i + 1, n);
            proof {
                assert(cur.skip(1) =~= s@.subrange(i + 1, n as int));
                assert(acc@ + Seq::<char>::empty() =~= acc@);
            }
            return Ok((acc, rest));
        } else if c == '\\' {
            if i + 1 == n {
                // a lone backslash at the end of the text
                return Err(ScanError { rem: 0, what: Expect::Escape });
            }
            let c2 = *slice_index_get(s, i + 1);
            proof {
                assert(cur[1] == c2);
            }
            if is_simple_escape(c2) {
                let ghost acc0 = acc@;
                acc.push(c);
                acc.push(c2);
                proof {
                    assert(cur.skip(2) =~= s@.skip(i + 2));
                    if let Ok(p) = scan_interior_s(s@.skip(i + 2)) {
                        assert(acc@ + p.0 =~= acc0 + (seq![c, c2] + p.0));
                    }
                }
                i = i + 2;
            } else if c2 == 'u' {
                if i + 2 == n || !is_hex(*slice_index_get(s, i + 2)) {
                    let rem = if i + 2 < n {
                        n - i - 2
                    } else {
                        0
                    };
                    return Err(ScanError { rem, what: Expect::HexDigit });
                }
                if i + 3 == n || !is_hex(*slice_index_get(s, i + 3)) {
                    let rem = if i + 3 < n {
                        n - i - 3
                    } else {
                        0
                    };
                    return Err(ScanError { rem, what: Expect::HexDigit });
                }
                if i + 4 == n || !is_hex(*slice_index_get(s, i + 4)) {
                    let rem = if i + 4 < n {
                        n - i - 4
                    } else {
                        0
                    };
                    return Err(ScanError { rem, what: Expect::HexDigit });
                }
                if i + 5 == n || !is_hex(*slice_index_get(s, i + 5)) {
                    let rem = if i + 5 < n {
                        n - i - 5
                    } else {
                        0
                    };
                    return Err(ScanError { rem, what: Expect::HexDigit });
                }
                let ghost acc0 = acc@;
                acc.push(c);
                acc.push(c2);
                acc.push(*slice_index_get(s, i + 2));
                acc.push(*slice_index_get(s, i + 3));
                acc.push(*slice_index_get(s, i + 4));
                acc.push(*slice_index_get(s, i + 5));
                proof {
                    assert(cur.skip(6) =~= s@.skip(i + 6));
                    assert(acc@ =~= acc0 + cur.take(6));
                    if let Ok(p) = scan_interior_s(s@.skip(i + 6)) {
                        assert(acc@ + p.0 =~= acc0 + (cur.take(6) + p.0));
                    }
                }
                i = i + 6;
            } else {
                return Err(ScanError { rem: n - i - 1, what: Expect::Escape });
            }
        } else {
            let ghost acc0 = acc@;
            acc.push(c);
            proof {
                assert(cur.skip(1) =~= s@.skip(i + 1));
                if let Ok(p) = scan_interior_s(s@.skip(i + 1)) {
                    assert(acc@ + p.0 =~= acc0 + (seq![c] + p.0));
                }
            }
            i = i + 1;
        }
    }
}


/// Scan the optional exponent part and build the canonical number text.
fn finish_number<'a>(neg: bool, ipart: Vec<char>, fpart: Vec<char>, s3: &'a [char]) -> (r: Result<
    (Vec<char>, &'a [char]),
    ScanError,
>)
    requires
        ipart@.len() > 0,
        all_digits(ipart@),
        all_digits(fpart@),
    ensures
        match r {
            Ok(p) => finish_number_s(neg, ipart@, fpart@, s3@) == Ok::<
                (Seq<char>, Seq<char>),
                SpecError,
            >((p.0@, p.1@)),
            Err(e) => finish_number_s(neg, ipart@, fpart@, s3@) matches Err(g) && g.rem
                == e.rem as int && g.what == e.what && e.rem <= s3@.len(),
        },
{
    let mut digits = ipart;
    crate::text::push_chars(&mut digits, &fpart);
    proof {
        assert(all_digits(digits@)) by {
            assert(forall|i: int|
                0 <= i < digits@.len() ==> #[trigger] digits@[i] == if i < ipart@.len() {
                    ipart@[i]
                } else {
                    fpart@[i - ipart@.len()]
                });
        }
    }
    let n3 = s3.len();
    if n3 > 0 {
        let c0 = *slice_index_get(s3, 0);
        if c0 == 'e' || c0 == 'E' {
            let mut eneg = false;
            let mut k: usize = 1;
            if n3 > 1 {
                let c1 = *slice_index_get(s3, 1);
                if c1 == '-' {
                    eneg = true;
                    k = 2;
                } else if c1 == '+' {
                    k = 2;
                }
            }
            let s4 = slice_subrange(s3, k, n3);
            proof {
                assert(s4@ =~= s3@.skip(k as int));
            }
            let xr = scan_digits(s4);
            if xr.0.len() == 0 {
                return Err(ScanError { rem: xr.1.len(), what: Expect::Digit });
            }
            let xv = exp_value_capped(&xr.0);
            if xv > MAX_EXPONENT {
                return Err(ScanError { rem: n3, what: Expect::SmallerExponent });
            }
            let e: i128 = (if eneg {
                -(xv as i128)
            } else {
                xv as i128
            }) - (fpart.len() as i128);
            let canon = crate::number::canonicalize(neg, &digits, e);
            return Ok((canon, xr.1));
        }
    }
    let e: i128 = -(fpart.len() as i128);
    let canon = crate::number::canonicalize(neg, &digits, e);
    Ok((canon, s3))
}

/// Scan a number literal at the head of `s` and canonicalize it.
fn parse_number<'a>(s: &'a [char]) -> (r: Result<(Vec<char>, &'a [char]), ScanError>)
    ensures
        match r {
            Ok(p) => parse_number_s(s@) == Ok::<(Seq<char>, Seq<char>), SpecError>((p.0@, p.1@)),
            Err(e) => parse_number_s(s@) matches Err(g) && g.rem == e.rem as int && g.what
                == e.what && e.rem <= s@.len(),
        },
{
    let n = s.len();
    let neg = n > 0 && *slice_index_get(s, 0) == '-';
    let s1: &[char] = if neg {
        slice_subrange(s, 1, n)
    } else {
        s
    };
    proof {
        if neg {
            assert(s1@ =~= s@.skip(1));
        }
    }
    let n1 = s1.len();
    if n1 == 0 || !is_digit(*slice_index_get(s1, 0)) {
        return Err(ScanError { rem: n1, what: Expect::Digit });
    }
    let (ipart, s2): (Vec<char>, &[char]) = if *slice_index_get(s1, 0) == '0' {
        let mut v: Vec<char> = Vec::new();
        v.push('0');
        proof {
            assert(v@ =~= seq!['0']);
            assert(s1@.subrange(1, n1 as int) =~= s1@.skip(1));
        }
        (v, slice_subrange(s1, 1, n1))
    } else {
        let p = scan_digits(s1);
        proof {
            assert(scan_digits_s(s1@).0.len() > 0);
        }
        p
    };
    let n2 = s2.len();
    if n2 > 0 && *slice_index_get(s2, 0) == '.' {
        let frs = slice_subrange(s2, 1, n2);
        proof {
            assert(frs@ =~= s2@.skip(1));
        }
        let fr = scan_digits(frs);
        if fr.0.len() == 0 {
            let rem = if 1 < n2 {
                n2 - 1
            } else {
                0
            };
            return Err(ScanError { rem, what: Expect::Digit });
        }
        finish_number(neg, ipart, fr.0, fr.1)
    } else {
        let fpart: Vec<char> = Vec::new();
        proof {
            assert(fpart@ =~= Seq::<char>::empty());
        }
        finish_number(neg, ipart, fpart, s2)
    }
}

/// Parse one JSON value standing at its first character; hands back the
/// value and the suffix after it.
pub fn parse_value<'a>(s: &'a [char]) -> (r: Result<(Value, &'a [char]), ScanError>)
    ensures
        match r {
            Ok(p) => parse_value_s(s@) == Ok::<(JsonVal, Seq<char>), SpecError>((p.0@, p.1@)),
            Err(e) => parse_value_s(s@) matches Err(g) && g.rem == e.rem as int && g.what
                == e.what && e.rem <= s@.len(),
        },
    decreases s@.len(), 2int,
{
    let n = s.len();
    if n == 0 {
        return Err(ScanError { rem: 0, what: Expect::Value });
    }
    let c = *slice_index_get(s, 0);
    if c == '{' {
        parse_object(s)
    } else if c == '[' {
        parse_array(s)
    } else if c == '"' {
        let inner = slice_subrange(s, 1, n);
        proof {
            assert(inner@ =~= s@.skip(1));
        }
        match scan_interior(inner) {
            Ok(p) => Ok((Value::Text(StringNode { value: p.0 }), p.1)),
            Err(e) => Err(e),
        }
    } else if c == 't' {
        if n >= 4 && *slice_index_get(s, 1) == 'r' && *slice_index_get(s, 2) == 'u'
            && *slice_index_get(s, 3) == 'e' {
            let rest = slice_subrange(s, 4, n);
            proof {
                assert(rest@ =~= s@.skip(4));
            }
            Ok((Value::Boolean(Boolean { value: true }), rest))
        } else {
            Err(ScanError { rem: n, what: Expect::Value })
        }
    } else if c == 'f' {
        if n >= 5 && *slice_index_get(s, 1) == 'a' && *slice_index_get(s, 2) == 'l'
            && *slice_index_get(s, 3) == 's' && *slice_index_get(s, 4) == 'e' {
            let rest = slice_subrange(s, 5, n);
            proof {
                assert(rest@ =~= s@.skip(5));
            }
            Ok((Value::Boolean(Boolean { value: false }), rest))
        } else {
            Err(ScanError { rem: n, what: Expect::Value })
        }
    } else if c == 'n' {
        if n >= 4 && *slice_index_get(s, 1) == 'u' && *slice_index_get(s, 2) == 'l'
            && *slice_index_get(s, 3) == 'l' {
            let rest = slice_subrange(s, 4, n);
            proof {
                assert(rest@ =~= s@.skip(4));
            }
            Ok((Value::Null(Null {}), rest))
        } else {
            Err(ScanError { rem: n, what: Expect::Value })
        }
    } else if c == '-' || is_digit(c) {
        match parse_number(s) {
            Ok(p) => Ok((Value::Number(Number { value: p.0 }), p.1)),
            Err(e) => Err(e),
        }
    } else {
        Err(ScanError { rem: n, what: Expect::Value })
    }
}

/// Parse an object standing at its opening brace.
fn parse_object<'a>(s: &'a [char]) -> (r: Result<(Value, &'a [char]), ScanError>)
    requires
        s@.len() > 0,
        s@[0] == '{',
    ensures
        match r {
            Ok(p) => parse_object_s(s@) == Ok::<(JsonVal, Seq<char>), SpecError>((p.0@, p.1@)),
            Err(e) => parse_object_s(s@) matches Err(g) && g.rem == e.rem as int && g.what
                == e.what && e.rem <= s@.len(),
        },
    decreases s@.len(), 1int,
{
    let n = s.len();
    let after = slice_subrange(s, 1, n);
    proof {
        assert(after@ =~= s@.skip(1));
    }
    let s1 = skip_ws(after);
    if s1.len() > 0 && *slice_index_get(s1, 0) == '}' {
        let rest = slice_subrange(s1, 1, s1.len());
        let members: Vec<(Vec<char>, Value)> = Vec::new();
        proof {
            assert(rest@ =~= s1@.skip(1));
            assert(view_members(members@, 0) =~= Seq::<(Seq<char>, JsonVal)>::empty());
        }
        Ok((Value::Object(Object { members }), rest))
    } else if s1.len() == 0 || *slice_index_get(s1, 0) != '"' {
        Err(ScanError { rem: s1.len(), what: Expect::KeyOrCloseBrace })
    } else {
        proof {
            assert(s1@.len() < s@.len());
        }
        match parse_members(s1) {
            Ok(p) => Ok((Value::Object(Object { members: p.0 }), p.1)),
            Err(e) => Err(e),
        }
    }
}

/// Parse an array standing at its opening bracket.
fn parse_array<'a>(s: &'a [char]) -> (r: Result<(Value, &'a [char]), ScanError>)
    requires
        s@.len() > 0,
        s@[0] == '[',
    ensures
        match r {
            Ok(p) => parse_array_s(s@) == Ok::<(JsonVal, Seq<char>), SpecError>((p.0@, p.1@)),
            Err(e) => parse_array_s(s@) matches Err(g) && g.rem == e.rem as int && g.what
                == e.what && e.rem <= s@.len(),
        },
    decreases s@.len(), 1int,
{
    let n = s.len();
    let after = slice_subrange(s, 1, n);
    proof {
        assert(after@ =~= s@.skip(1));
    }
    let s1 = skip_ws(after);
    if s1.len() > 0 && *slice_index_get(s1, 0) == ']' {
        let rest = slice_subrange(s1, 1, s1.len());
        let values: Vec<Value> = Vec::new();
        proof {
            assert(rest@ =~= s1@.skip(1));
            assert(view_elems(values@, 0) =~= Seq::<JsonVal>::empty());
        }
        Ok((Value::Array(Array { values }), rest))
    } else {
        proof {
            assert(s1@.len() < s@.len());
        }
        match parse_elems(s1) {
            Ok(p) => Ok((Value::Array(Array { values: p.0 }), p.1)),
            Err(e) => Err(e),
        }
    }
}

/// Parse the members of a non-empty object, standing at the opening quote
/// of the first key.
fn parse_members<'a>(s: &'a [char]) -> (r: Result<(Vec<(Vec<char>, Value)>, &'a [char]), ScanError>)
    ensures
        match r {
            Ok(p) => parse_members_s(s@) == Ok::<
                (Seq<(Seq<char>, JsonVal)>, Seq<char>),
                SpecError,
            >((view_members(p.0@, 0), p.1@)),
            Err(e) => parse_members_s(s@) matches Err(g) && g.rem == e.rem as int && g.what
                == e.what && e.rem <= s@.len(),
        },
    decreases s@.len(), 3int,
{
    let mut acc: Vec<(Vec<char>, Value)> = Vec::new();
    let mut cur: &'a [char] = s;
    proof {
        if let Ok(p) = parse_members_s(s@) {
            assert(Seq::<(Seq<char>, JsonVal)>::empty() + p.0 =~= p.0);
        }
        assert(view_members(acc@, 0) =~= Seq::<(Seq<char>, JsonVal)>::empty());
    }
    loop
        invariant
            cur@.len() <= s@.len(),
            match parse_members_s(cur@) {
                Ok(p) => parse_members_s(s@) == Ok::<
                    (Seq<(Seq<char>, JsonVal)>, Seq<char>),
                    SpecError,
                >((view_members(acc@, 0) + p.0, p.1)),
                Err(e) => parse_members_s(s@) == Err::<
                    (Seq<(Seq<char>, JsonVal)>, Seq<char>),
                    SpecError,
                >(e),
            },
        decreases cur@.len(),
    {
        let nc = cur.len();
        if nc == 0 || *slice_index_get(cur, 0) != '"' {
            return Err(ScanError { rem: nc, what: Expect::Key });
        }
        let inner = slice_subrange(cur, 1, nc);
        proof {
            assert(inner@ =~= cur@.skip(1));
        }
        let (key, r1) = match scan_interior(inner) {
            Ok(p) => p,
            Err(e) => {
                return Err(e);
            },
        };
        let s2 = skip_ws(r1);
        let n2 = s2.len();
        if n2 == 0 || *slice_index_get(s2, 0) != ':' {
            return Err(ScanError { rem: n2, what: Expect::Colon });
        }
        let after_colon = slice_subrange(s2, 1, n2);
        proof {
            assert(after_colon@ =~= s2@.skip(1));
        }
        let s3 = skip_ws(after_colon);
        proof {
            assert(s3@.len() < cur@.len());
        }
        let (val, r2) = match parse_value(s3) {
            Ok(p) => p,
            Err(e) => {
                return Err(e);
            },
        };
        let s4 = skip_ws(r2);
        let n4 = s4.len();
        let ghost gkey = key@;
        let ghost gval = val@;
        if n4 > 0 && *slice_index_get(s4, 0) == ',' {
            let after_comma = slice_subrange(s4, 1, n4);
            proof {
                assert(after_comma@ =~= s4@.skip(1));
            }
            let s5 = skip_ws(after_comma);
            proof {
                assert(s5@.len() < cur@.len());
            }
            let ghost acc0 = acc@;
            acc.push((key, val));
            proof {
                lemma_view_members_snoc(acc0, acc@[acc0.len() as int]);
                if let Ok(mp) = parse_members_s(s5@) {
                    assert(view_members(acc0, 0) + (seq![(gkey, gval)] + mp.0) =~= view_members(
                        acc@,
                        0,
                    ) + mp.0);
                }
            }
            cur = s5;
        } else if n4 > 0 && *slice_index_get(s4, 0) == '}' {
            let rest = slice_subrange(s4, 1, n4);
            let ghost acc0 = acc@;
            acc.push((key, val));
            proof {
                assert(rest@ =~= s4@.skip(1));
                lemma_view_members_snoc(acc0, acc@[acc0.len() as int]);
                assert(view_members(acc0, 0) + seq![(gkey, gval)] =~= view_members(acc@, 0));
            }
            return Ok((acc, rest));
        } else {
            return Err(ScanError { rem: n4, what: Expect::CommaOrCloseBrace });
        }
    }
}

/// Parse the elements of a non-empty array, standing at the first
/// character of the first element.
fn parse_elems<'a>(s: &'a [char]) -> (r: Result<(Vec<Value>, &'a [char]), ScanError>)
    ensures
        match r {
            Ok(p) => parse_elems_s(s@) == Ok::<(Seq<JsonVal>, Seq<char>), SpecError>(
                (view_elems(p.0@, 0), p.1@),
            ),
            Err(e) => parse_elems_s(s@) matches Err(g) && g.rem == e.rem as int && g.what
                == e.what && e.rem <= s@.len(),
        },
    decreases s@.len(), 3int,
{
    let mut acc: Vec<Value> = Vec::new();
    let mut cur: &'a [char] = s;
    proof {
        if let Ok(p) = parse_elems_s(s@) {
            assert(Seq::<JsonVal>::empty() + p.0 =~= p.0);
        }
        assert(view_elems(acc@, 0) =~= Seq::<JsonVal>::empty());
    }
    loop
        invariant
            cur@.len() <= s@.len(),
            match parse_elems_s(cur@) {
                Ok(p) => parse_elems_s(s@) == Ok::<(Seq<JsonVal>, Seq<char>), SpecError>(
                    (view_elems(acc@, 0) + p.0, p.1),
                ),
                Err(e) => parse_elems_s(s@) == Err::<(Seq<JsonVal>, Seq<char>), SpecError>(e),
            },
        decreases cur@.len(),
    {
        let (val, r2) = match parse_value(cur) {
            Ok(p) => p,
            Err(e) => {
                return Err(e);
            },
        };
        let s2 = skip_ws(r2);
        let n2 = s2.len();
        let ghost gval = val@;
        if n2 > 0 && *slice_index_get(s2, 0) == ',' {
            let after_comma = slice_subrange(s2, 1, n2);
            proof {
                assert(after_comma@ =~= s2@.skip(1));
            }
            let s3 = skip_ws(after_comma);
            proof {
                assert(s3@.len() < cur@.len());
            }
            let ghost acc0 = acc@;
            acc.push(val);
            proof {
                lemma_view_elems_snoc(acc0, acc@[acc0.len() as int]);
                if let Ok(ep) = parse_elems_s(s3@) {
                    assert(view_elems(acc0, 0) + (seq![gval] + ep.0) =~= view_elems(acc@, 0)
                        + ep.0);
                }
            }
            cur = s3;
        } else if n2 > 0 && *slice_index_get(s2, 0) == ']' {
            let rest = slice_subrange(s2, 1, n2);
            let ghost acc0 = acc@;
            acc.push(val);
            proof {
                assert(rest@ =~= s2@.skip(1));
                lemma_view_elems_snoc(acc0, acc@[acc0.len() as int]);
                assert(view_elems(acc0, 0) + seq![gval] =~= view_elems(acc@, 0));
            }
            return Ok((acc, rest));
        } else {
            return Err(ScanError { rem: n2, what: Expect::CommaOrCloseBracket });
        }
    }
}


/// The 1-based line number of position `pos` in `s`: one more than the
/// newlines before it.
pub open spec fn line_of(s: Seq<char>, pos: int) -> int
    decreases pos,
{
    if pos <= 0 {
        1
    } else {
        line_of(s, pos - 1) + if s[pos - 1] == '\n' {
            1int
        } else {
            0int
        }
    }
}

/// The index of the first character of the line holding position `pos`.
pub open spec fn line_start_of(s: Seq<char>, pos: int) -> int
    decreases pos,
{
    if pos <= 0 {
        0
    } else if s[pos - 1] == '\n' {
        pos
    } else {
        line_start_of(s, pos - 1)
    }
}

/// The index just after the last character of the line holding `pos`.
pub open spec fn line_end_of(s: Seq<char>, pos: int) -> int
    decreases s.len() - pos,
{
    if pos >= s.len() {
        s.len() as int
    } else if s[pos] == '\n' {
        pos
    } else {
        line_end_of(s, pos + 1)
    }
}

/// The 1-based column of position `pos` within its line.
pub open spec fn column_of(s: Seq<char>, pos: int) -> int {
    pos - line_start_of(s, pos) + 1
}

/// The source line holding position `pos`.
pub open spec fn line_text_of(s: Seq<char>, pos: int) -> Seq<char> {
    s.subrange(line_start_of(s, pos), line_end_of(s, pos))
}

/// A positioned syntax error: the 1-based line and column of the failing
/// position, the source line it sits on, and what was expected there.
#[derive(Debug)]
pub struct ParseError {
    pub line: usize,
    pub column: usize,
    pub line_text: String,
    pub expected: Expect,
}

/// Build the positioned error for the place with `rem` characters left.
fn make_error(chars: &Vec<char>, rem: usize, what: Expect) -> (r: ParseError)
    requires
        rem <= chars@.len(),
        chars@.len() < usize::MAX,
    ensures
        r.line as int == line_of(chars@, chars@.len() - rem),
        r.column as int == column_of(chars@, chars@.len() - rem),
        r.line_text@ == line_text_of(chars@, chars@.len() - rem),
        r.expected == what,
{
    let pos = chars.len() - rem;
    let mut line: usize = 1;
    let mut start: usize = 0;
    let mut i: usize = 0;
    while i < pos
        invariant
            i <= pos,
            pos <= chars@.len(),
            chars@.len() < usize::MAX,
            line as int == line_of(chars@, i as int),
            start as int == line_start_of(chars@, i as int),
            line <= i + 1,
            start <= i,
        decreases pos - i,
    {
        if chars[i] == '\n' {
            line = line + 1;
            start = i + 1;
        }
        i = i + 1;
    }
    let n = chars.len();
    let mut e: usize = pos;
    while e < n && chars[e] != '\n'
        invariant
            pos <= e <= n,
            n == chars@.len(),
            line_end_of(chars@, pos as int) == line_end_of(chars@, e as int),
        decreases n - e,
    {
        e = e + 1;
    }
    let mut snip: Vec<char> = Vec::new();
    push_range(&mut snip, chars, start, e);
    let text = chars_to_string(&snip);
    ParseError { line, column: pos - start + 1, line_text: text, expected: what }
}

/// Parse a JSON text into a value tree. The whole text must be one value
/// surrounded by nothing but whitespace; the first failure is reported as
/// a positioned error and no partial tree is returned. The text must be
/// shorter than `usize::MAX` characters so that 1-based positions fit the
/// machine word.
pub fn parse(json: &str) -> (r: Result<Value, ParseError>)
    requires
        json@.len() < usize::MAX,
    ensures
        match r {
            Ok(v) => parse_text_s(json@) == Ok::<JsonVal, SpecError>(v@),
            Err(e) => parse_text_s(json@) matches Err(g) && ({
                let pos = json@.len() - g.rem;
                &&& e.line as int == line_of(json@, pos)
                &&& e.column as int == column_of(json@, pos)
                &&& e.line_text@ == line_text_of(json@, pos)
                &&& e.expected == g.what
            }),
        },
{
    let chars = to_chars(json);
    let sl: &[char] = chars.as_slice();
    let s0 = skip_ws(sl);
    match parse_value(s0) {
        Err(e) => Err(make_error(&chars, e.rem, e.what)),
        Ok(p) => {
            let r2 = skip_ws(p.1);
            if r2.len() == 0 {
                Ok(p.0)
            } else {
                Err(make_error(&chars, r2.len(), Expect::EndOfText))
            }
        },
    }
}

/// Parse the contents of a JSON document; the same operation as `parse`.
pub fn parse_json_file(file: &str) -> (r: Result<Value, ParseError>)
    requires
        file@.len() < usize::MAX,
    ensures
        match r {
            Ok(v) => parse_text_s(file@) == Ok::<JsonVal, SpecError>(v@),
            Err(e) => parse_text_s(file@) matches Err(g) && ({
                let pos = file@.len() - g.rem;
                &&& e.line as int == line_of(file@, pos)
                &&& e.column as int == column_of(file@, pos)
                &&& e.line_text@ == line_text_of(file@, pos)
                &&& e.expected == g.what
            }),
        },
{
    parse(file)
}

impl Number {
    /// Build a number from the text of a single literal: `None` unless the
    /// whole text is one grammar-valid number literal within the supported
    /// exponent range.
    pub fn new(literal: &str) -> (r: Option<Number>)
        ensures
            match r {
                Some(n) => parse_number_s(literal@) matches Ok(p) && p.1.len() == 0 && n@ == p.0,
                None => !(parse_number_s(literal@) matches Ok(p) && p.1.len() == 0),
            },
    {
        let chars = to_chars(literal);
        match parse_number(chars.as_slice()) {
            Ok(p) => {
                if p.1.len() == 0 {
                    Some(Number { value: p.0 })
                } else {
                    None
                }
            },
            Err(_) => None,
        }
    }
}

impl StringNode {
    /// Build a string node holding `value` as its raw interior text.
    pub fn new(value: &str) -> (r: StringNode)
        ensures
            r@ == value@,
    {
        StringNode { value: to_chars(value) }
    }
}

} // verus!
