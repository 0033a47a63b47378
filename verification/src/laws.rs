//! The laws of the library: parsing inverts rendering on well-formed
//! values, so canonical text is a fixed point of formatting.

use vstd::prelude::*;
use crate::{is_digit_char, is_ws_char};
use crate::formatter::{indent_unit, render_elems, render_members, render_value, spec_format};
use crate::grammar::{
    SpecError, finish_number_s, lemma_scan_digits_concat, lemma_scan_interior_concat,
    lemma_skip_ws_concat, parse_array_s, parse_elems_s, parse_members_s, parse_number_s,
    parse_object_s, parse_text_s, parse_value_s, scan_digits_s, scan_interior_s, skip_ws_s,
};
use crate::nodes::{JsonVal, wf_elems_seq, wf_interior, wf_members_seq, wf_val};
use crate::number::{
    all_digits, canonical_magnitude, canonical_magnitude_shape, canonical_number, int_part_shape,
    is_canonical_number, lemma_strip_leading_split, lemma_trailing_split, strip_leading_zeros,
    trailing_zeros, zeros,
};

verus! {

broadcast use vstd::seq::group_seq_axioms;

/// Every character is a space.
pub open spec fn is_spaces(s: Seq<char>) -> bool {
    forall|i: int| 0 <= i < s.len() ==> #[trigger] s[i] == ' '
}

/// A character that could extend a number literal to its left.
pub open spec fn is_number_cont(c: char) -> bool {
    is_digit_char(c) || c == '.' || c == 'e' || c == 'E'
}

/// What may follow a rendered value without changing how it parses:
/// nothing, or anything that cannot extend a number literal.
pub open spec fn ok_follow(r: Seq<char>) -> bool {
    r.len() == 0 || !is_number_cont(r[0])
}

/// A canonical number text begins with a minus sign or a digit.
proof fn lemma_canonical_head(c: Seq<char>)
    requires
        is_canonical_number(c),
    ensures
        c.len() > 0,
        c[0] == '-' || is_digit_char(c[0]),
{
    let m = if c.len() > 0 && c[0] == '-' {
        c.skip(1)
    } else {
        c
    };
    lemma_magnitude_head(m);
    if c.len() > 0 && c[0] == '-' {
    } else {
        assert(c[0] == m[0]);
    }
}

/// A canonical magnitude is nonempty and begins with a digit.
proof fn lemma_magnitude_head(m: Seq<char>)
    requires
        canonical_magnitude_shape(m),
    ensures
        m.len() > 0,
        is_digit_char(m[0]),
{
    if int_part_shape(m) {
    } else {
        let k = choose|k: int|
            {
                &&& 0 < k < m.len() - 1
                &&& #[trigger] m[k] == '.'
                &&& int_part_shape(m.take(k))
                &&& all_digits(m.skip(k + 1))
                &&& m[m.len() - 1] != '0'
            };
        assert(m.take(k)[0] == m[0]);
    }
}

/// An integer-shaped magnitude is already canonical for exponent zero.
proof fn lemma_canon_mag_int(m: Seq<char>)
    requires
        int_part_shape(m),
    ensures
        canonical_magnitude(m, 0) == m,
{
    if m[0] == '0' {
        assert(m =~= seq!['0']);
        assert(m.skip(1) =~= Seq::<char>::empty());
        assert(strip_leading_zeros(m) == strip_leading_zeros(m.skip(1)));
        assert(strip_leading_zeros(Seq::<char>::empty()) =~= Seq::<char>::empty());
        assert(strip_leading_zeros(m).len() == 0);
        assert(canonical_magnitude(m, 0) =~= m);
    } else {
        assert(strip_leading_zeros(m) == m);
        lemma_trailing_split(m);
        let t = trailing_zeros(m) as int;
        assert(t < m.len()) by {
            if t == m.len() {
                assert(m[0] == '0');
            }
        }
        assert(canonical_magnitude(m, 0) == m.take(m.len() - t) + zeros(t as nat));
    }
}

/// An integer part, a point and a fraction with no trailing zero are
/// already canonical for the exponent their split implies.
proof fn lemma_canon_mag_dec(ipart: Seq<char>, fpart: Seq<char>)
    requires
        int_part_shape(ipart),
        all_digits(fpart),
        fpart.len() > 0,
        fpart[fpart.len() - 1] != '0',
    ensures
        canonical_magnitude(ipart + fpart, -(fpart.len() as int)) == ipart + seq!['.'] + fpart,
{
    let digits = ipart + fpart;
    let e = -(fpart.len() as int);
    if ipart[0] == '0' {
        assert(ipart =~= seq!['0']);
        assert(digits.skip(1) =~= fpart);
        assert(strip_leading_zeros(digits) == strip_leading_zeros(fpart));
        lemma_strip_leading_split(fpart);
        let fs = strip_leading_zeros(fpart);
        assert(fs.len() > 0) by {
            if fs.len() == 0 {
                assert(fpart[fpart.len() - 1] == '0');
            }
        }
        assert(fs[fs.len() - 1] == fpart[fpart.len() - 1]);
        assert(trailing_zeros(fs) == 0);
        assert(fs.take(fs.len() - 0) =~= fs);
        let e2 = e + 0;
        assert(!(e2 >= 0));
        assert(!(-e2 < fs.len()));
        assert(canonical_magnitude(digits, e) == seq!['0', '.'] + zeros(
            (-e2 - fs.len()) as nat,
        ) + fs);
        assert(seq!['0', '.'] + zeros((fpart.len() - fs.len()) as nat) + fs =~= ipart + seq!['.']
            + fpart);
    } else {
        assert(digits[0] == ipart[0]);
        assert(strip_leading_zeros(digits) == digits);
        assert(digits[digits.len() - 1] == fpart[fpart.len() - 1]);
        assert(trailing_zeros(digits) == 0);
        assert(digits.take(digits.len() - 0) =~= digits);
        let e2 = e + 0;
        assert(!(e2 >= 0));
        assert(-e2 < digits.len());
        assert(canonical_magnitude(digits, e) == digits.take(digits.len() + e2) + seq!['.']
            + digits.skip(digits.len() + e2));
        assert(digits.take(digits.len() + e2) =~= ipart);
        assert(digits.skip(digits.len() + e2) =~= fpart);
    }
}

/// Scanning a canonical number text followed by a non-number character
/// gives back exactly that text.
proof fn lemma_parse_number_canonical(c: Seq<char>, rest: Seq<char>)
    requires
        is_canonical_number(c),
        ok_follow(rest),
    ensures
        parse_number_s(c + rest) == Ok::<(Seq<char>, Seq<char>), SpecError>((c, rest)),
{
    let m = if c.len() > 0 && c[0] == '-' {
        c.skip(1)
    } else {
        c
    };
    if int_part_shape(m) {
        lemma_pnc_int(c, rest);
    } else {
        lemma_pnc_dec(c, rest);
    }
}

#[verifier::spinoff_prover]
#[verifier::rlimit(100)]
proof fn lemma_pnc_int(c: Seq<char>, rest: Seq<char>)
    requires
        is_canonical_number(c),
        ok_follow(rest),
        int_part_shape(
            if c.len() > 0 && c[0] == '-' {
                c.skip(1)
            } else {
                c
            },
        ),
    ensures
        parse_number_s(c + rest) == Ok::<(Seq<char>, Seq<char>), SpecError>((c, rest)),
{
    lemma_canonical_head(c);
    let s = c + rest;
    assert(s[0] == c[0]);
    let neg = c[0] == '-';
    let m = if neg {
        c.skip(1)
    } else {
        c
    };
    lemma_magnitude_head(m);
    let s1 = if neg {
        s.skip(1)
    } else {
        s
    };
    assert(s1 =~= m + rest);
    assert(s1[0] == m[0]);
    assert(is_digit_char(s1[0]));
    if m[0] == '0' {
        assert(m =~= seq!['0']);
        assert(s1.skip(1) =~= rest);
        assert(!(rest.len() > 0 && rest[0] == '.'));
        assert(!(rest.len() > 0 && (rest[0] == 'e' || rest[0] == 'E')));
        assert(finish_number_s(neg, seq!['0'], Seq::empty(), s1.skip(1)) == Ok::<
            (Seq<char>, Seq<char>),
            SpecError,
        >((canonical_number(neg, seq!['0'] + Seq::empty(), 0), s1.skip(1))));
        assert(seq!['0'] + Seq::<char>::empty() =~= m);
        lemma_canon_mag_int(m);
        if neg {
            assert(seq!['-'] + m =~= c);
        }
    } else {
        lemma_scan_digits_concat(m, rest);
        assert(!(rest.len() > 0 && rest[0] == '.'));
        assert(!(rest.len() > 0 && (rest[0] == 'e' || rest[0] == 'E')));
        assert(m + Seq::<char>::empty() =~= m);
        lemma_canon_mag_int(m);
        if neg {
            assert(seq!['-'] + m =~= c);
        }
    }
}

#[verifier::spinoff_prover]
#[verifier::rlimit(100)]
proof fn lemma_pnc_dec(c: Seq<char>, rest: Seq<char>)
    requires
        is_canonical_number(c),
        ok_follow(rest),
        !int_part_shape(
            if c.len() > 0 && c[0] == '-' {
                c.skip(1)
            } else {
                c
            },
        ),
    ensures
        parse_number_s(c + rest) == Ok::<(Seq<char>, Seq<char>), SpecError>((c, rest)),
{
    lemma_canonical_head(c);
    let s = c + rest;
    assert(s[0] == c[0]);
    let neg = c[0] == '-';
    let m = if neg {
        c.skip(1)
    } else {
        c
    };
    lemma_magnitude_head(m);
    let s1 = if neg {
        s.skip(1)
    } else {
        s
    };
    assert(s1 =~= m + rest);
    assert(s1[0] == m[0]);
    assert(is_digit_char(s1[0]));
    let k = choose|k: int|
        {
            &&& 0 < k < m.len() - 1
            &&& #[trigger] m[k] == '.'
            &&& int_part_shape(m.take(k))
            &&& all_digits(m.skip(k + 1))
            &&& m[m.len() - 1] != '0'
        };
    let ipart = m.take(k);
    let fpart = m.skip(k + 1);
    assert(fpart.len() > 0);
    assert(fpart[fpart.len() - 1] == m[m.len() - 1]);
    assert(m =~= ipart + seq!['.'] + fpart);
    if m[0] == '0' {
        assert(ipart[0] == m[0]);
        assert(k == 1);
        assert(s1.skip(1) =~= seq!['.'] + (fpart + rest));
        assert(s1.skip(1)[0] == '.');
        assert(s1.skip(1).skip(1) =~= fpart + rest);
        lemma_scan_digits_concat(fpart, rest);
        assert(ipart =~= seq!['0']);
        assert(finish_number_s(neg, seq!['0'], fpart, rest) == Ok::<
            (Seq<char>, Seq<char>),
            SpecError,
        >((canonical_number(neg, seq!['0'] + fpart, -(fpart.len() as int)), rest)));
        lemma_canon_mag_dec(ipart, fpart);
        assert(seq!['0'] + fpart =~= ipart + fpart);
        if neg {
            assert(seq!['-'] + m =~= c);
        }
    } else {
        assert(ipart[0] == m[0]);
        let tail = seq!['.'] + fpart + rest;
        assert(s1 =~= ipart + tail);
        assert(tail[0] == '.');
        lemma_scan_digits_concat(ipart, tail);
        assert(tail.skip(1) =~= fpart + rest);
        lemma_scan_digits_concat(fpart, rest);
        lemma_canon_mag_dec(ipart, fpart);
        if neg {
            assert(seq!['-'] + m =~= c);
        }
    }
}

/// The text a parser standing at the first key of member `i` still sees:
/// the members from `i` on, then the closing line, then `rest`.
pub open spec fn members_suffix(
    ms: Seq<(Seq<char>, JsonVal)>,
    i: int,
    ind: Seq<char>,
    ind2: Seq<char>,
    rest: Seq<char>,
) -> Seq<char>
    decreases ms.len() - i,
{
    if i < 0 || i >= ms.len() {
        Seq::empty()
    } else {
        seq!['"'] + ms[i].0 + seq!['"', ':', ' '] + render_value(ms[i].1, ind2) + (if i == ms.len()
            - 1 {
            seq!['\n'] + ind + seq!['}'] + rest
        } else {
            seq![',', '\n'] + ind2 + members_suffix(ms, i + 1, ind, ind2, rest)
        })
    }
}

/// The text a parser standing at element `i` still sees: the elements
/// from `i` on, then the closing line, then `rest`.
pub open spec fn elems_suffix(
    es: Seq<JsonVal>,
    i: int,
    ind: Seq<char>,
    ind2: Seq<char>,
    rest: Seq<char>,
) -> Seq<char>
    decreases es.len() - i,
{
    if i < 0 || i >= es.len() {
        Seq::empty()
    } else {
        render_value(es[i], ind2) + (if i == es.len() - 1 {
            seq!['\n'] + ind + seq![']'] + rest
        } else {
            seq![',', '\n'] + ind2 + elems_suffix(es, i + 1, ind, ind2, rest)
        })
    }
}

proof fn lemma_members_suffix(
    ms: Seq<(Seq<char>, JsonVal)>,
    i: int,
    ind: Seq<char>,
    ind2: Seq<char>,
    rest: Seq<char>,
)
    requires
        0 <= i < ms.len(),
    ensures
        render_members(ms, i, ind2) + seq!['\n'] + ind + seq!['}'] + rest == ind2
            + members_suffix(ms, i, ind, ind2, rest),
    decreases ms.len() - i,
{
    if i == ms.len() - 1 {
        assert(render_members(ms, i, ind2) + seq!['\n'] + ind + seq!['}'] + rest =~= ind2
            + members_suffix(ms, i, ind, ind2, rest));
    } else {
        lemma_members_suffix(ms, i + 1, ind, ind2, rest);
        let item = ind2 + seq!['"'] + ms[i].0 + seq!['"', ':', ' '] + render_value(ms[i].1, ind2);
        let below = render_members(ms, i + 1, ind2) + seq!['\n'] + ind + seq!['}'] + rest;
        assert(render_members(ms, i, ind2) + seq!['\n'] + ind + seq!['}'] + rest =~= item + seq![
            ',',
            '\n',
        ] + below);
        assert(item + seq![',', '\n'] + (ind2 + members_suffix(ms, i + 1, ind, ind2, rest)) =~=
            ind2 + members_suffix(ms, i, ind, ind2, rest));
    }
}

proof fn lemma_elems_suffix(
    es: Seq<JsonVal>,
    i: int,
    ind: Seq<char>,
    ind2: Seq<char>,
    rest: Seq<char>,
)
    requires
        0 <= i < es.len(),
    ensures
        render_elems(es, i, ind2) + seq!['\n'] + ind + seq![']'] + rest == ind2 + elems_suffix(
            es,
            i,
            ind,
            ind2,
            rest,
        ),
    decreases es.len() - i,
{
    if i == es.len() - 1 {
        assert(render_elems(es, i, ind2) + seq!['\n'] + ind + seq![']'] + rest =~= ind2
            + elems_suffix(es, i, ind, ind2, rest));
    } else {
        lemma_elems_suffix(es, i + 1, ind, ind2, rest);
        let item = ind2 + render_value(es[i], ind2);
        let below = render_elems(es, i + 1, ind2) + seq!['\n'] + ind + seq![']'] + rest;
        assert(render_elems(es, i, ind2) + seq!['\n'] + ind + seq![']'] + rest =~= item + seq![
            ',',
            '\n',
        ] + below);
        assert(item + seq![',', '\n'] + (ind2 + elems_suffix(es, i + 1, ind, ind2, rest)) =~= ind2
            + elems_suffix(es, i, ind, ind2, rest));
    }
}

/// A rendered value is nonempty and starts with a character that is
/// neither whitespace nor a closing bracket.
proof fn lemma_render_head(j: JsonVal, ind: Seq<char>)
    requires
        wf_val(j),
    ensures
        render_value(j, ind).len() > 0,
        !is_ws_char(render_value(j, ind)[0]),
        render_value(j, ind)[0] != ']',
        render_value(j, ind)[0] != '}',
{
    match j {
        JsonVal::Number(t) => {
            lemma_canonical_head(t);
        },
        _ => {},
    }
}

#[verifier::spinoff_prover]
#[verifier::rlimit(100)]
proof fn lemma_value_round(j: JsonVal, ind: Seq<char>, rest: Seq<char>)
    requires
        wf_val(j),
        is_spaces(ind),
        ok_follow(rest),
    ensures
        parse_value_s(render_value(j, ind) + rest) == Ok::<(JsonVal, Seq<char>), SpecError>(
            (j, rest),
        ),
    decreases j, 0int,
{
    let s = render_value(j, ind) + rest;
    match j {
        JsonVal::Null => {
            assert(s[0] == 'n' && s[1] == 'u' && s[2] == 'l' && s[3] == 'l');
            assert(s.skip(4) =~= rest);
        },
        JsonVal::Boolean(b) => {
            if b {
                assert(s[0] == 't' && s[1] == 'r' && s[2] == 'u' && s[3] == 'e');
                assert(s.skip(4) =~= rest);
            } else {
                assert(s[0] == 'f' && s[1] == 'a' && s[2] == 'l' && s[3] == 's' && s[4] == 'e');
                assert(s.skip(5) =~= rest);
            }
        },
        JsonVal::Number(t) => {
            lemma_canonical_head(t);
            assert(s[0] == t[0]);
            lemma_parse_number_canonical(t, rest);
        },
        JsonVal::Text(t) => {
            assert(s[0] == '"');
            assert(s.skip(1) =~= t + (seq!['"'] + rest));
            lemma_scan_interior_concat(t, rest);
        },
        JsonVal::Array(es) => {
            if es.len() == 0 {
                assert(s[0] == '[');
                assert(s.skip(1) =~= seq![']'] + rest);
                assert(s.skip(1)[0] == ']');
                assert(skip_ws_s(s.skip(1)) == s.skip(1));
                assert(s.skip(1).skip(1) =~= rest);
                assert(es =~= Seq::<JsonVal>::empty());
            } else {
                let ind2 = ind + indent_unit();
                assert(is_spaces(ind2)) by {
                    assert(forall|l: int|
                        0 <= l < ind2.len() ==> #[trigger] ind2[l] == if l < ind.len() {
                            ind[l]
                        } else {
                            indent_unit()[l - ind.len()]
                        });
                }
                assert(s[0] == '[');
                lemma_elems_suffix(es, 0, ind, ind2, rest);
                let sfx = elems_suffix(es, 0, ind, ind2, rest);
                let below = render_elems(es, 0, ind2) + seq!['\n'] + ind + seq![']'] + rest;
                assert(s.skip(1) =~= seq!['\n'] + below);
                assert(seq!['\n'] + (ind2 + sfx) =~= (seq!['\n'] + ind2) + sfx);
                assert(s.skip(1) == (seq!['\n'] + ind2) + sfx);
                lemma_render_head(es[0], ind2);
                assert(sfx[0] == render_value(es[0], ind2)[0]);
                assert(forall|l: int|
                    0 <= l < (seq!['\n'] + ind2).len() ==> is_ws_char(
                        #[trigger] (seq!['\n'] + ind2)[l],
                    ));
                lemma_skip_ws_concat(seq!['\n'] + ind2, sfx);
                let s1 = skip_ws_s(s.skip(1));
                assert(s1 == sfx);
                assert(s1[0] != ']' && s1[0] != '}' && s1.len() > 0);
                assert(s1.len() < s.len());
                lemma_elems_round(es, 0, ind, ind2, rest);
                assert(es.subrange(0, es.len() as int) =~= es);
            }
        },
        JsonVal::Object(ms) => {
            if ms.len() == 0 {
                assert(s[0] == '{');
                assert(s.skip(1) =~= seq!['}'] + rest);
                assert(s.skip(1)[0] == '}');
                assert(skip_ws_s(s.skip(1)) == s.skip(1));
                assert(s.skip(1).skip(1) =~= rest);
                assert(ms =~= Seq::<(Seq<char>, JsonVal)>::empty());
            } else {
                let ind2 = ind + indent_unit();
                assert(is_spaces(ind2)) by {
                    assert(forall|l: int|
                        0 <= l < ind2.len() ==> #[trigger] ind2[l] == if l < ind.len() {
                            ind[l]
                        } else {
                            indent_unit()[l - ind.len()]
                        });
                }
                assert(s[0] == '{');
                lemma_members_suffix(ms, 0, ind, ind2, rest);
                let sfx = members_suffix(ms, 0, ind, ind2, rest);
                let below = render_members(ms, 0, ind2) + seq!['\n'] + ind + seq!['}'] + rest;
                assert(s.skip(1) =~= seq!['\n'] + below);
                assert(seq!['\n'] + (ind2 + sfx) =~= (seq!['\n'] + ind2) + sfx);
                assert(s.skip(1) == (seq!['\n'] + ind2) + sfx);
                assert(sfx[0] == '"');
                assert(forall|l: int|
                    0 <= l < (seq!['\n'] + ind2).len() ==> is_ws_char(
                        #[trigger] (seq!['\n'] + ind2)[l],
                    ));
                lemma_skip_ws_concat(seq!['\n'] + ind2, sfx);
                let s1 = skip_ws_s(s.skip(1));
                assert(s1 == sfx);
                assert(s1[0] != '}' && s1.len() > 0);
                assert(s1.len() < s.len());
                lemma_members_round(ms, 0, ind, ind2, rest);
                assert(ms.subrange(0, ms.len() as int) =~= ms);
            }
        },
    }
}

#[verifier::spinoff_prover]
#[verifier::rlimit(100)]
proof fn lemma_members_round(
    ms: Seq<(Seq<char>, JsonVal)>,
    i: int,
    ind: Seq<char>,
    ind2: Seq<char>,
    rest: Seq<char>,
)
    requires
        0 <= i < ms.len(),
        wf_members_seq(ms),
        is_spaces(ind),
        ind2 == ind + indent_unit(),
    ensures
        parse_members_s(members_suffix(ms, i, ind, ind2, rest)) == Ok::<
            (Seq<(Seq<char>, JsonVal)>, Seq<char>),
            SpecError,
        >((ms.subrange(i, ms.len() as int), rest)),
    decreases ms, ms.len() - i,
{
    let sfx = members_suffix(ms, i, ind, ind2, rest);
    let key = ms[i].0;
    let rv = render_value(ms[i].1, ind2);
    assert(is_spaces(ind2)) by {
        assert(forall|l: int|
            0 <= l < ind2.len() ==> #[trigger] ind2[l] == if l < ind.len() {
                ind[l]
            } else {
                indent_unit()[l - ind.len()]
            });
    }
    lemma_render_head(ms[i].1, ind2);
    let tail = if i == ms.len() - 1 {
        seq!['\n'] + ind + seq!['}'] + rest
    } else {
        seq![',', '\n'] + ind2 + members_suffix(ms, i + 1, ind, ind2, rest)
    };
    assert(sfx =~= seq!['"'] + key + (seq!['"'] + (seq![':', ' '] + (rv + tail))));
    assert(sfx[0] == '"');
    assert(sfx.skip(1) =~= key + (seq!['"'] + (seq![':', ' '] + (rv + tail))));
    lemma_scan_interior_concat(key, seq![':', ' '] + (rv + tail));
    let r1 = seq![':', ' '] + (rv + tail);
    assert(r1[0] == ':');
    assert(skip_ws_s(r1) == r1);
    assert(r1.skip(1) =~= seq![' '] + (rv + tail));
    assert((rv + tail)[0] == rv[0]);
    lemma_skip_ws_concat(seq![' '], rv + tail);
    let s3 = skip_ws_s(r1.skip(1));
    assert(s3 == rv + tail);
    assert(s3.len() < sfx.len());
    assert(ok_follow(tail)) by {
        assert(tail[0] == '\n' || tail[0] == ',');
    }
    lemma_value_round(ms[i].1, ind2, tail);
    if i == ms.len() - 1 {
        assert(tail =~= (seq!['\n'] + ind) + (seq!['}'] + rest));
        assert(forall|l: int|
            0 <= l < (seq!['\n'] + ind).len() ==> is_ws_char(#[trigger] (seq!['\n'] + ind)[l]));
        assert((seq!['}'] + rest)[0] == '}');
        lemma_skip_ws_concat(seq!['\n'] + ind, seq!['}'] + rest);
        let s4 = skip_ws_s(tail);
        assert(s4 == seq!['}'] + rest);
        assert(s4[0] == '}');
        assert(s4.skip(1) =~= rest);
        assert(seq![(key, ms[i].1)] =~= ms.subrange(i, ms.len() as int));
    } else {
        let sfx2 = members_suffix(ms, i + 1, ind, ind2, rest);
        assert(tail[0] == ',');
        assert(skip_ws_s(tail) == tail);
        assert(tail.skip(1) =~= (seq!['\n'] + ind2) + sfx2);
        assert(sfx2[0] == '"');
        assert(forall|l: int|
            0 <= l < (seq!['\n'] + ind2).len() ==> is_ws_char(#[trigger] (seq!['\n'] + ind2)[l]));
        lemma_skip_ws_concat(seq!['\n'] + ind2, sfx2);
        let s5 = skip_ws_s(tail.skip(1));
        assert(s5 == sfx2);
        assert(s5.len() < sfx.len());
        lemma_members_round(ms, i + 1, ind, ind2, rest);
        assert(seq![(key, ms[i].1)] + ms.subrange(i + 1, ms.len() as int) =~= ms.subrange(
            i,
            ms.len() as int,
        ));
    }
}

#[verifier::spinoff_prover]
#[verifier::rlimit(100)]
proof fn lemma_elems_round(
    es: Seq<JsonVal>,
    i: int,
    ind: Seq<char>,
    ind2: Seq<char>,
    rest: Seq<char>,
)
    requires
        0 <= i < es.len(),
        wf_elems_seq(es),
        is_spaces(ind),
        ind2 == ind + indent_unit(),
    ensures
        parse_elems_s(elems_suffix(es, i, ind, ind2, rest)) == Ok::<
            (Seq<JsonVal>, Seq<char>),
            SpecError,
        >((es.subrange(i, es.len() as int), rest)),
    decreases es, es.len() - i,
{
    let sfx = elems_suffix(es, i, ind, ind2, rest);
    let rv = render_value(es[i], ind2);
    assert(is_spaces(ind2)) by {
        assert(forall|l: int|
            0 <= l < ind2.len() ==> #[trigger] ind2[l] == if l < ind.len() {
                ind[l]
            } else {
                indent_unit()[l - ind.len()]
            });
    }
    lemma_render_head(es[i], ind2);
    let tail = if i == es.len() - 1 {
        seq!['\n'] + ind + seq![']'] + rest
    } else {
        seq![',', '\n'] + ind2 + elems_suffix(es, i + 1, ind, ind2, rest)
    };
    assert(sfx =~= rv + tail);
    assert(ok_follow(tail)) by {
        assert(tail[0] == '\n' || tail[0] == ',');
    }
    lemma_value_round(es[i], ind2, tail);
    if i == es.len() - 1 {
        assert(tail =~= (seq!['\n'] + ind) + (seq![']'] + rest));
        assert(forall|l: int|
            0 <= l < (seq!['\n'] + ind).len() ==> is_ws_char(#[trigger] (seq!['\n'] + ind)[l]));
        assert((seq![']'] + rest)[0] == ']');
        lemma_skip_ws_concat(seq!['\n'] + ind, seq![']'] + rest);
        let s2 = skip_ws_s(tail);
        assert(s2 == seq![']'] + rest);
        assert(s2[0] == ']');
        assert(s2.skip(1) =~= rest);
        assert(seq![es[i]] =~= es.subrange(i, es.len() as int));
    } else {
        let sfx2 = elems_suffix(es, i + 1, ind, ind2, rest);
        assert(tail[0] == ',');
        assert(skip_ws_s(tail) == tail);
        assert(tail.skip(1) =~= (seq!['\n'] + ind2) + sfx2);
        lemma_render_head(es[i + 1], ind2);
        assert(sfx2[0] == render_value(es[i + 1], ind2)[0]);
        assert(forall|l: int|
            0 <= l < (seq!['\n'] + ind2).len() ==> is_ws_char(#[trigger] (seq!['\n'] + ind2)[l]));
        lemma_skip_ws_concat(seq!['\n'] + ind2, sfx2);
        let s3 = skip_ws_s(tail.skip(1));
        assert(s3 == sfx2);
        assert(s3.len() < sfx.len());
        lemma_elems_round(es, i + 1, ind, ind2, rest);
        assert(seq![es[i]] + es.subrange(i + 1, es.len() as int) =~= es.subrange(
            i,
            es.len() as int,
        ));
    }
}


proof fn lemma_scan_interior_wf(s: Seq<char>)
    ensures
        scan_interior_s(s) matches Ok(p) ==> wf_interior(p.0),
    decreases s.len(),
{
    if s.len() > 0 && s[0] != '"' {
        if s[0] == '\\' {
            if s.len() >= 2 && crate::nodes::is_simple_escape_char(s[1]) {
                lemma_scan_interior_wf(s.skip(2));
                if let Ok(p) = scan_interior_s(s.skip(2)) {
                    let t = seq![s[0], s[1]] + p.0;
                    assert(t[0] == '\\' && t[1] == s[1]);
                    assert(t.skip(2) =~= p.0);
                }
            } else if s.len() >= 6 && s[1] == 'u' && crate::nodes::is_hex_char(s[2])
                && crate::nodes::is_hex_char(s[3]) && crate::nodes::is_hex_char(s[4])
                && crate::nodes::is_hex_char(s[5]) {
                lemma_scan_interior_wf(s.skip(6));
                if let Ok(p) = scan_interior_s(s.skip(6)) {
                    let t = s.take(6) + p.0;
                    assert(t[0] == '\\' && t[1] == 'u' && t[2] == s[2] && t[3] == s[3] && t[4]
                        == s[4] && t[5] == s[5]);
                    assert(t.skip(6) =~= p.0);
                    assert(!crate::nodes::is_simple_escape_char('u'));
                }
            }
        } else {
            lemma_scan_interior_wf(s.skip(1));
            if let Ok(p) = scan_interior_s(s.skip(1)) {
                let t = seq![s[0]] + p.0;
                assert(t[0] == s[0]);
                assert(t.skip(1) =~= p.0);
            }
        }
    }
}

proof fn lemma_finish_number_wf(neg: bool, ipart: Seq<char>, fpart: Seq<char>, s3: Seq<char>)
    requires
        ipart.len() > 0,
        all_digits(ipart),
        all_digits(fpart),
    ensures
        finish_number_s(neg, ipart, fpart, s3) matches Ok(p) ==> is_canonical_number(p.0),
{
    let digits = ipart + fpart;
    assert(all_digits(digits)) by {
        assert(forall|l: int|
            0 <= l < digits.len() ==> #[trigger] digits[l] == if l < ipart.len() {
                ipart[l]
            } else {
                fpart[l - ipart.len()]
            });
    }
    if s3.len() > 0 && (s3[0] == 'e' || s3[0] == 'E') {
        let s4 = if s3.len() > 1 && (s3[1] == '-' || s3[1] == '+') {
            s3.skip(2)
        } else {
            s3.skip(1)
        };
        let xr = scan_digits_s(s4);
        if xr.0.len() > 0 && !(crate::number::exp_val(xr.0) > crate::number::MAX_EXPONENT as int) {
            let eneg = s3.len() > 1 && s3[1] == '-';
            let x = if eneg {
                -crate::number::exp_val(xr.0)
            } else {
                crate::number::exp_val(xr.0)
            };
            crate::number::lemma_canonical_shape(neg, digits, x - fpart.len());
        }
    } else {
        crate::number::lemma_canonical_shape(neg, digits, -(fpart.len() as int));
    }
}

proof fn lemma_parse_number_wf(s: Seq<char>)
    ensures
        parse_number_s(s) matches Ok(p) ==> is_canonical_number(p.0),
{
    broadcast use crate::grammar::lemma_scan_digits_len;

    let neg = s.len() > 0 && s[0] == '-';
    let s1 = if neg {
        s.skip(1)
    } else {
        s
    };
    if s1.len() > 0 && is_digit_char(s1[0]) {
        let ir = if s1[0] == '0' {
            (seq!['0'], s1.skip(1))
        } else {
            scan_digits_s(s1)
        };
        assert(all_digits(ir.0)) by {
            if s1[0] == '0' {
                assert(forall|l: int|
                    0 <= l < seq!['0'].len() ==> is_digit_char(#[trigger] seq!['0'][l]));
            }
        }
        assert(ir.0.len() > 0);
        let s2 = ir.1;
        if s2.len() > 0 && s2[0] == '.' {
            let fr = scan_digits_s(s2.skip(1));
            if fr.0.len() > 0 {
                lemma_finish_number_wf(neg, ir.0, fr.0, fr.1);
            }
        } else {
            assert(all_digits(Seq::<char>::empty()));
            lemma_finish_number_wf(neg, ir.0, Seq::empty(), s2);
        }
    }
}

proof fn lemma_parse_value_wf(s: Seq<char>)
    ensures
        parse_value_s(s) matches Ok(p) ==> wf_val(p.0),
    decreases s.len(), 2int,
{
    if s.len() > 0 {
        if s[0] == '{' {
            lemma_parse_object_wf(s);
        } else if s[0] == '[' {
            lemma_parse_array_wf(s);
        } else if s[0] == '"' {
            lemma_scan_interior_wf(s.skip(1));
        } else if s[0] == '-' || is_digit_char(s[0]) {
            lemma_parse_number_wf(s);
        }
    }
}

proof fn lemma_parse_object_wf(s: Seq<char>)
    ensures
        parse_object_s(s) matches Ok(p) ==> wf_val(p.0),
    decreases s.len(), 1int,
{
    if s.len() > 0 && s[0] == '{' {
        let s1 = skip_ws_s(s.skip(1));
        if !(s1.len() > 0 && s1[0] == '}') && s1.len() > 0 && s1[0] == '"' && s1.len() < s.len() {
            lemma_parse_members_wf(s1);
        }
    }
}

proof fn lemma_parse_array_wf(s: Seq<char>)
    ensures
        parse_array_s(s) matches Ok(p) ==> wf_val(p.0),
    decreases s.len(), 1int,
{
    if s.len() > 0 && s[0] == '[' {
        let s1 = skip_ws_s(s.skip(1));
        if !(s1.len() > 0 && s1[0] == ']') && s1.len() < s.len() {
            lemma_parse_elems_wf(s1);
        }
    }
}


#[verifier::spinoff_prover]
#[verifier::rlimit(100)]
proof fn lemma_parse_members_wf(s: Seq<char>)
    ensures
        parse_members_s(s) matches Ok(p) ==> wf_members_seq(p.0),
    decreases s.len(), 3int,
{
    if s.len() > 0 && s[0] == '"' {
        lemma_scan_interior_wf(s.skip(1));
        if let Ok(kp) = scan_interior_s(s.skip(1)) {
            let s2 = skip_ws_s(kp.1);
            if s2.len() > 0 && s2[0] == ':' {
                let s3 = skip_ws_s(s2.skip(1));
                if s3.len() < s.len() {
                    lemma_parse_value_wf(s3);
                    if let Ok(vp) = parse_value_s(s3) {
                        let s4 = skip_ws_s(vp.1);
                        if s4.len() > 0 && s4[0] == ',' {
                            let s5 = skip_ws_s(s4.skip(1));
                            if s5.len() < s.len() {
                                lemma_parse_members_wf(s5);
                                if let Ok(mp) = parse_members_s(s5) {
                                    let whole = seq![(kp.0, vp.0)] + mp.0;
                                    assert(wf_members_seq(whole)) by {
                                        assert forall|l: int|
                                            0 <= l < whole.len() implies wf_interior(
                                            #[trigger] whole[l].0,
                                        ) && wf_val(whole[l].1) by {
                                            if l == 0 {
                                                assert(whole[0] == (kp.0, vp.0));
                                            } else {
                                                assert(whole[l] == mp.0[l - 1]);
                                                assert(wf_interior(mp.0[l - 1].0) && wf_val(
                                                    mp.0[l - 1].1,
                                                ));
                                            }
                                        }
                                    }
                                }
                            }
                        } else if s4.len() > 0 && s4[0] == '}' {
                            let whole = seq![(kp.0, vp.0)];
                            assert(wf_members_seq(whole)) by {
                                assert forall|l: int| 0 <= l < whole.len() implies wf_interior(
                                    #[trigger] whole[l].0,
                                ) && wf_val(whole[l].1) by {
                                    assert(whole[l] == (kp.0, vp.0));
                                }
                            }
                        }
                    }
                }
            }
        }
    }
}

#[verifier::spinoff_prover]
#[verifier::rlimit(100)]
proof fn lemma_parse_elems_wf(s: Seq<char>)
    ensures
        parse_elems_s(s) matches Ok(p) ==> wf_elems_seq(p.0),
    decreases s.len(), 3int,
{
    lemma_parse_value_wf(s);
    if let Ok(vp) = parse_value_s(s) {
        let s2 = skip_ws_s(vp.1);
        if s2.len() > 0 && s2[0] == ',' {
            let s3 = skip_ws_s(s2.skip(1));
            if s3.len() < s.len() {
                lemma_parse_elems_wf(s3);
                if let Ok(ep) = parse_elems_s(s3) {
                    let whole = seq![vp.0] + ep.0;
                    assert(wf_elems_seq(whole)) by {
                        assert forall|l: int| 0 <= l < whole.len() implies wf_val(
                            #[trigger] whole[l],
                        ) by {
                            if l == 0 {
                                assert(whole[0] == vp.0);
                            } else {
                                assert(whole[l] == ep.0[l - 1]);
                                assert(wf_val(ep.0[l - 1]));
                            }
                        }
                    }
                }
            }
        } else if s2.len() > 0 && s2[0] == ']' {
            let whole = seq![vp.0];
            assert(wf_elems_seq(whole)) by {
                assert forall|l: int| 0 <= l < whole.len() implies wf_val(
                    #[trigger] whole[l],
                ) by {
                    assert(whole[l] == vp.0);
                }
            }
        }
    }
}

/// Parsing only ever builds well-formed values: every string interior is
/// a legal interior and every number text is canonical.
pub proof fn lemma_parse_text_wf(s: Seq<char>)
    ensures
        parse_text_s(s) matches Ok(j) ==> wf_val(j),
{
    lemma_parse_value_wf(skip_ws_s(s));
}

/// Structural round-trip: parsing the canonical rendering of a
/// well-formed value always succeeds and yields exactly that value, with
/// its structure, key order and scalar values intact.
pub proof fn lemma_render_parses_back(j: JsonVal)
    requires
        wf_val(j),
    ensures
        parse_text_s(render_value(j, Seq::empty())) == Ok::<JsonVal, SpecError>(j),
{
    lemma_render_head(j, Seq::empty());
    let r = render_value(j, Seq::empty());
    assert(skip_ws_s(r) == r);
    assert(r + Seq::<char>::empty() =~= r);
    assert(is_spaces(Seq::<char>::empty()));
    assert(ok_follow(Seq::<char>::empty()));
    lemma_value_round(j, Seq::empty(), Seq::empty());
}

/// Idempotence: formatting a text that formats successfully is a fixed
/// point, so formatting the output again reproduces it unchanged.
pub proof fn lemma_format_idempotent(t: Seq<char>)
    ensures
        spec_format(t) matches Ok(o) ==> spec_format(o) == Ok::<Seq<char>, SpecError>(o),
{
    if let Ok(o) = spec_format(t) {
        if let Ok(j) = parse_text_s(t) {
            lemma_parse_text_wf(t);
            lemma_render_parses_back(j);
        }
    }
}

/// Empty containers render as the two-character literals at every
/// nesting level.
pub proof fn lemma_empty_containers(ind: Seq<char>)
    ensures
        render_value(JsonVal::Object(Seq::empty()), ind) == seq!['{', '}'],
        render_value(JsonVal::Array(Seq::empty()), ind) == seq!['[', ']'],
{
}


/// A canonical number text ends in a digit.
proof fn lemma_canonical_last(c: Seq<char>)
    requires
        is_canonical_number(c),
    ensures
        c.len() > 0,
        is_digit_char(c[c.len() - 1]),
{
    lemma_canonical_head(c);
    let m = if c.len() > 0 && c[0] == '-' {
        c.skip(1)
    } else {
        c
    };
    lemma_magnitude_head(m);
    assert(c[c.len() - 1] == m[m.len() - 1]);
    if int_part_shape(m) {
    } else {
        let k = choose|k: int|
            {
                &&& 0 < k < m.len() - 1
                &&& #[trigger] m[k] == '.'
                &&& int_part_shape(m.take(k))
                &&& all_digits(m.skip(k + 1))
                &&& m[m.len() - 1] != '0'
            };
        assert(m.skip(k + 1)[m.len() - k - 2] == m[m.len() - 1]);
    }
}

/// The rendering of a well-formed value never ends in a newline (nor in
/// any whitespace).
pub proof fn lemma_render_ends_without_newline(j: JsonVal, ind: Seq<char>)
    requires
        wf_val(j),
    ensures
        render_value(j, ind).len() > 0,
        !is_ws_char(render_value(j, ind)[render_value(j, ind).len() - 1]),
{
    let r = render_value(j, ind);
    match j {
        JsonVal::Number(t) => {
            lemma_canonical_last(t);
        },
        JsonVal::Array(es) => {
            assert(r[r.len() - 1] == ']');
        },
        JsonVal::Object(ms) => {
            assert(r[r.len() - 1] == '}');
        },
        _ => {},
    }
}

} // verus!
