//! Canonical decimal text for JSON number literals.
//!
//! A literal `sign? int frac? exp?` denotes the exact decimal value
//! `sign * digits * 10^e`, where `digits` are the integer and fraction
//! digits run together and `e` is the written exponent minus the number of
//! fraction digits. The canonical text writes that value out in full, with
//! no exponent, no leading zeros, and no trailing fraction zeros, keeping a
//! written minus sign (so `-0` stays `-0`). `5e3` becomes `5000`, `1.50`
//! becomes `1.5`, `12.34e-4` becomes `0.001234`.

use vstd::prelude::*;
use crate::is_digit_char;
use crate::text::push_range;

verus! {

broadcast use vstd::std_specs::vec::group_vec_axioms, vstd::seq::group_seq_axioms;

/// The largest exponent magnitude a number literal may carry. Larger
/// exponents would ask for canonical texts of unbounded length, so the
/// parser rejects them with a positioned error.
pub const MAX_EXPONENT: u64 = 1000000;

/// The value of a decimal digit character.
pub open spec fn digit_val(c: char) -> int {
    c as int - '0' as int
}

/// The value of a sequence of decimal digits read in base ten.
pub open spec fn exp_val(ds: Seq<char>) -> int
    decreases ds.len(),
{
    if ds.len() == 0 {
        0
    } else {
        exp_val(ds.take(ds.len() - 1)) * 10 + digit_val(ds[ds.len() - 1])
    }
}

/// Every character of `s` is a decimal digit.
pub open spec fn all_digits(s: Seq<char>) -> bool {
    forall|i: int| 0 <= i < s.len() ==> is_digit_char(#[trigger] s[i])
}

/// `n` zero characters.
pub open spec fn zeros(n: nat) -> Seq<char> {
    Seq::new(n, |i: int| '0')
}

/// `s` with every leading zero removed (possibly empty).
pub open spec fn strip_leading_zeros(s: Seq<char>) -> Seq<char>
    decreases s.len(),
{
    if s.len() > 0 && s[0] == '0' {
        strip_leading_zeros(s.skip(1))
    } else {
        s
    }
}

/// How many zeros end `s`.
pub open spec fn trailing_zeros(s: Seq<char>) -> nat
    decreases s.len(),
{
    if s.len() > 0 && s[s.len() - 1] == '0' {
        1 + trailing_zeros(s.take(s.len() - 1))
    } else {
        0
    }
}

/// The canonical text of the magnitude `digits * 10^e`.
pub open spec fn canonical_magnitude(digits: Seq<char>, e: int) -> Seq<char> {
    let d0 = strip_leading_zeros(digits);
    if d0.len() == 0 {
        seq!['0']
    } else {
        let t = trailing_zeros(d0) as int;
        let d = d0.take(d0.len() - t);
        let e2 = e + t;
        if e2 >= 0 {
            d + zeros(e2 as nat)
        } else if -e2 < d.len() {
            d.take(d.len() + e2) + seq!['.'] + d.skip(d.len() + e2)
        } else {
            seq!['0', '.'] + zeros((-e2 - d.len()) as nat) + d
        }
    }
}

/// The canonical text of a number: the canonical magnitude, behind a minus
/// sign when the literal had one.
pub open spec fn canonical_number(neg: bool, digits: Seq<char>, e: int) -> Seq<char> {
    if neg {
        seq!['-'] + canonical_magnitude(digits, e)
    } else {
        canonical_magnitude(digits, e)
    }
}

/// An integer-part shape: one or more digits, with no leading zero unless
/// the part is the single digit `0`.
pub open spec fn int_part_shape(s: Seq<char>) -> bool {
    s.len() > 0 && all_digits(s) && (s[0] != '0' || s.len() == 1)
}

/// The shapes a canonical magnitude can take: a plain integer, or an
/// integer part, a point, and a fraction that does not end in zero.
pub open spec fn canonical_magnitude_shape(m: Seq<char>) -> bool {
    ||| int_part_shape(m)
    ||| exists|k: int|
        {
            &&& 0 < k < m.len() - 1
            &&& #[trigger] m[k] == '.'
            &&& int_part_shape(m.take(k))
            &&& all_digits(m.skip(k + 1))
            &&& m[m.len() - 1] != '0'
        }
}

/// Canonical number text: an optional minus sign before a canonical
/// magnitude. Exactly the texts `canonical_number` can produce.
pub open spec fn is_canonical_number(c: Seq<char>) -> bool {
    if c.len() > 0 && c[0] == '-' {
        canonical_magnitude_shape(c.skip(1))
    } else {
        canonical_magnitude_shape(c)
    }
}

pub proof fn lemma_strip_leading_split(s: Seq<char>)
    ensures
        strip_leading_zeros(s).len() <= s.len(),
        strip_leading_zeros(s) == s.skip(s.len() - strip_leading_zeros(s).len()),
        forall|j: int| 0 <= j < s.len() - strip_leading_zeros(s).len() ==> #[trigger] s[j] == '0',
        strip_leading_zeros(s).len() > 0 ==> strip_leading_zeros(s)[0] != '0',
    decreases s.len(),
{
    if s.len() > 0 && s[0] == '0' {
        lemma_strip_leading_split(s.skip(1));
        assert(s.skip(1).skip(s.skip(1).len() - strip_leading_zeros(s.skip(1)).len()) =~= s.skip(
            s.len() - strip_leading_zeros(s).len(),
        ));
        assert forall|j: int|
            0 <= j < s.len() - strip_leading_zeros(s).len() implies #[trigger] s[j] == '0' by {
            if j > 0 {
                assert(s.skip(1)[j - 1] == '0');
            }
        }
    } else {
        assert(s.skip(0) =~= s);
    }
}

pub proof fn lemma_trailing_split(s: Seq<char>)
    ensures
        trailing_zeros(s) <= s.len(),
        forall|j: int| s.len() - trailing_zeros(s) <= j < s.len() ==> #[trigger] s[j] == '0',
        trailing_zeros(s) < s.len() ==> s[s.len() - trailing_zeros(s) - 1] != '0',
        s == s.take(s.len() - trailing_zeros(s)) + zeros(trailing_zeros(s)),
    decreases s.len(),
{
    if s.len() > 0 && s[s.len() - 1] == '0' {
        lemma_trailing_split(s.take(s.len() - 1));
        assert forall|j: int|
            s.len() - trailing_zeros(s) <= j < s.len() implies #[trigger] s[j] == '0' by {
            if j < s.len() - 1 {
                assert(s.take(s.len() - 1)[j] == '0');
            }
        }
        assert(s =~= s.take(s.len() - trailing_zeros(s)) + zeros(trailing_zeros(s)));
    } else {
        assert(s =~= s.take(s.len() - trailing_zeros(s)) + zeros(trailing_zeros(s)));
    }
}

/// Everything `canonical_number` produces has a canonical shape.
pub proof fn lemma_canonical_shape(neg: bool, digits: Seq<char>, e: int)
    requires
        digits.len() > 0,
        all_digits(digits),
    ensures
        is_canonical_number(canonical_number(neg, digits, e)),
        canonical_magnitude_shape(canonical_magnitude(digits, e)),
        canonical_magnitude(digits, e).len() > 0,
        is_digit_char(canonical_magnitude(digits, e)[0]),
{
    let d0 = strip_leading_zeros(digits);
    lemma_strip_leading_split(digits);
    let m = canonical_magnitude(digits, e);
    if d0.len() == 0 {
        assert(m == seq!['0']);
        assert(int_part_shape(m));
    } else {
        lemma_trailing_split(d0);
        let t = trailing_zeros(d0) as int;
        let d = d0.take(d0.len() - t);
        let e2 = e + t;
        assert(d0[0] != '0');
        assert(all_digits(d0));
        assert(t < d0.len()) by {
            if t == d0.len() {
                assert(d0[0] == '0');
            }
        }
        assert(d.len() > 0);
        assert(d[0] == d0[0]);
        assert(d[d.len() - 1] == d0[d0.len() - t - 1]);
        assert(d[d.len() - 1] != '0');
        assert(all_digits(d));
        if e2 >= 0 {
            assert(m == d + zeros(e2 as nat));
            assert(m[0] == d[0]);
            assert(all_digits(m)) by {
                assert(forall|j: int|
                    0 <= j < m.len() ==> #[trigger] m[j] == if j < d.len() {
                        d[j]
                    } else {
                        '0'
                    });
            }
            assert(int_part_shape(m));
        } else if -e2 < d.len() {
            let k = d.len() + e2;
            assert(m == d.take(k) + seq!['.'] + d.skip(k));
            assert(m[k] == '.');
            assert(m.take(k) =~= d.take(k));
            assert(m.skip(k + 1) =~= d.skip(k));
            assert(int_part_shape(m.take(k))) by {
                assert(d.take(k)[0] == d[0]);
            }
            assert(all_digits(m.skip(k + 1)));
            assert(m[m.len() - 1] == d[d.len() - 1]);
            assert(canonical_magnitude_shape(m)) by {
                assert(0 < k < m.len() - 1 && m[k] == '.');
            }
        } else {
            let z = -e2 - d.len();
            assert(m == seq!['0', '.'] + zeros(z as nat) + d);
            assert(m[1] == '.');
            assert(m.take(1) =~= seq!['0']);
            assert(int_part_shape(m.take(1)));
            assert(m.skip(2) =~= zeros(z as nat) + d);
            assert(all_digits(m.skip(2))) by {
                assert(forall|j: int|
                    0 <= j < m.skip(2).len() ==> #[trigger] m.skip(2)[j] == if j < z {
                        '0'
                    } else {
                        d[j - z]
                    });
            }
            assert(m[m.len() - 1] == d[d.len() - 1]);
            assert(canonical_magnitude_shape(m)) by {
                assert(0 < 1 < m.len() - 1 && m[1] == '.');
            }
        }
    }
    if neg {
        assert(canonical_number(true, digits, e) == seq!['-'] + m);
        assert((seq!['-'] + m)[0] == '-');
        assert((seq!['-'] + m).skip(1) =~= m);
    } else {
        assert(m[0] != '-') by {
            if int_part_shape(m) {
            } else {
                let k = choose|k: int|
                    {
                        &&& 0 < k < m.len() - 1
                        &&& #[trigger] m[k] == '.'
                        &&& int_part_shape(m.take(k))
                        &&& all_digits(m.skip(k + 1))
                        &&& m[m.len() - 1] != '0'
                    };
                assert(m.take(k)[0] == m[0]);
            }
        }
    }
}

pub proof fn lemma_strip_leading_at(s: Seq<char>, a: int)
    requires
        0 <= a <= s.len(),
        forall|j: int| 0 <= j < a ==> s[j] == '0',
        a == s.len() || s[a] != '0',
    ensures
        strip_leading_zeros(s) == s.skip(a),
    decreases a,
{
    if a == 0 {
        assert(s.skip(0) =~= s);
    } else {
        lemma_strip_leading_at(s.skip(1), a - 1);
        assert(s.skip(1).skip(a - 1) =~= s.skip(a));
    }
}

pub proof fn lemma_trailing_at(s: Seq<char>, t: int)
    requires
        0 <= t <= s.len(),
        forall|j: int| s.len() - t <= j < s.len() ==> s[j] == '0',
        t == s.len() || s[s.len() - t - 1] != '0',
    ensures
        trailing_zeros(s) == t,
    decreases t,
{
    if t > 0 {
        lemma_trailing_at(s.take(s.len() - 1), t - 1);
    }
}

/// Build the canonical text of the value `digits * 10^e`, negated when
/// `neg` holds.
pub fn canonicalize(neg: bool, digits: &Vec<char>, e: i128) -> (r: Vec<char>)
    requires
        digits@.len() > 0,
        all_digits(digits@),
        -0x30000000000000000 <= e <= 0x1000000000000000,
    ensures
        r@ == canonical_number(neg, digits@, e as int),
{
    let n = digits.len();
    let mut a: usize = 0;
    while a < n && digits[a] == '0'
        invariant
            a <= n,
            n == digits@.len(),
            forall|j: int| 0 <= j < a ==> digits@[j] == '0',
        decreases n - a,
    {
        a = a + 1;
    }
    proof {
        lemma_strip_leading_at(digits@, a as int);
    }
    if a == n {
        // the digits are all zeros
        let mut r: Vec<char> = Vec::new();
        if neg {
            r.push('-');
        }
        r.push('0');
        proof {
            assert(strip_leading_zeros(digits@).len() == 0);
            if neg {
                assert(r@ =~= seq!['-'] + seq!['0']);
            } else {
                assert(r@ =~= seq!['0']);
            }
        }
        return r;
    }
    let ghost d0 = digits@.skip(a as int);
    let mut t: usize = 0;
    while t < n - a && digits[n - 1 - t] == '0'
        invariant
            a < n,
            t <= n - a,
            n == digits@.len(),
            forall|j: int| n - t <= j < n ==> digits@[j] == '0',
        decreases n - a - t,
    {
        t = t + 1;
    }
    proof {
        assert(digits@[a as int] != '0');
        assert(t < n - a);
        lemma_trailing_at(d0, t as int);
    }
    let m = n - t;
    let e2: i128 = e + (t as i128);
    let ghost d = digits@.subrange(a as int, m as int);
    proof {
        assert(d0.take(d0.len() - t) =~= d);
    }
    let mut r: Vec<char> = Vec::new();
    if neg {
        r.push('-');
    }
    let ghost sign = r@;
    if e2 >= 0 {
        push_range(&mut r, digits, a, m);
        let mut k: i128 = 0;
        while k < e2
            invariant
                0 <= k <= e2,
                r@ == sign + d + zeros(k as nat),
            decreases e2 - k,
        {
            r.push('0');
            proof {
                assert(sign + d + zeros(k as nat) + seq!['0'] =~= sign + d + zeros((k + 1) as nat));
            }
            k = k + 1;
        }
        proof {
            assert(r@ =~= canonical_number(neg, digits@, e as int));
        }
    } else if ((m - a) as i128) > -e2 {
        let k = (-e2) as usize;
        let split = m - k;
        push_range(&mut r, digits, a, split);
        r.push('.');
        push_range(&mut r, digits, split, m);
        proof {
            assert(d.take(d.len() + e2 as int) =~= digits@.subrange(a as int, split as int));
            assert(d.skip(d.len() + e2 as int) =~= digits@.subrange(split as int, m as int));
            assert(r@ =~= sign + (d.take(d.len() + e2 as int) + seq!['.'] + d.skip(
                d.len() + e2 as int,
            )));
            assert(r@ =~= canonical_number(neg, digits@, e as int));
        }
    } else {
        r.push('0');
        r.push('.');
        let ghost head = r@;
        let zcount: i128 = -e2 - ((m - a) as i128);
        let mut k: i128 = 0;
        while k < zcount
            invariant
                0 <= k <= zcount,
                r@ == head + zeros(k as nat),
            decreases zcount - k,
        {
            r.push('0');
            proof {
                assert(head + zeros(k as nat) + seq!['0'] =~= head + zeros((k + 1) as nat));
            }
            k = k + 1;
        }
        push_range(&mut r, digits, a, m);
        proof {
            assert(head =~= sign + seq!['0', '.']);
            assert(r@ =~= sign + (seq!['0', '.'] + zeros((-e2 as int - d.len()) as nat) + d));
            assert(r@ =~= canonical_number(neg, digits@, e as int));
        }
    }
    r
}

} // verus!
