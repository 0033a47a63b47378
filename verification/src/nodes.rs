//! The value tree that a parsed JSON document becomes, together with its
//! mathematical model and well-formedness conditions.

use vstd::prelude::*;
use crate::number::is_canonical_number;

verus! {

broadcast use vstd::std_specs::vec::group_vec_axioms, vstd::seq::group_seq_axioms;

/// The mathematical model of a JSON value: what contracts and laws speak of.
/// Text is modelled as sequences of characters; an object is the ordered
/// sequence of its (key, value) pairs, duplicates and all.
pub enum JsonVal {
    Object(Seq<(Seq<char>, JsonVal)>),
    Array(Seq<JsonVal>),
    Text(Seq<char>),
    Number(Seq<char>),
    Boolean(bool),
    Null,
}

/// An object: the ordered members it was written with. Order is textual
/// order and duplicate keys stay as separate entries.
#[derive(Debug)]
pub struct Object {
    pub members: Vec<(Vec<char>, Value)>,
}

/// An array: the ordered sequence of its elements.
#[derive(Debug)]
pub struct Array {
    pub values: Vec<Value>,
}

/// A string scalar: the raw interior text between the two quotes, with
/// escape sequences kept as written, not expanded.
#[derive(Debug)]
pub struct StringNode {
    pub value: Vec<char>,
}

/// A number scalar: the canonical decimal text of the literal it was
/// parsed from (see `crate::number::canonical_number`).
#[derive(Debug)]
pub struct Number {
    pub value: Vec<char>,
}

/// A boolean scalar.
#[derive(Debug)]
pub struct Boolean {
    pub value: bool,
}

/// The null scalar.
#[derive(Debug)]
pub struct Null {}

/// A JSON value of any of the six kinds.
#[derive(Debug)]
pub enum Value {
    Object(Object),
    Array(Array),
    Text(StringNode),
    Number(Number),
    Boolean(Boolean),
    Null(Null),
}

/// The model of an exec value.
pub open spec fn view_value(v: Value) -> JsonVal
    decreases v, 0int,
{
    match v {
        Value::Object(o) => JsonVal::Object(view_members(o.members@, 0)),
        Value::Array(a) => JsonVal::Array(view_elems(a.values@, 0)),
        Value::Text(s) => JsonVal::Text(s.value@),
        Value::Number(n) => JsonVal::Number(n.value@),
        Value::Boolean(b) => JsonVal::Boolean(b.value),
        Value::Null(_) => JsonVal::Null,
    }
}

/// The model of the members of an object, from index `i` on.
pub open spec fn view_members(ms: Seq<(Vec<char>, Value)>, i: int) -> Seq<(Seq<char>, JsonVal)>
    decreases ms, ms.len() - i,
{
    if i < 0 || i >= ms.len() {
        Seq::empty()
    } else {
        seq![(ms[i].0@, view_value(ms[i].1))] + view_members(ms, i + 1)
    }
}

/// The model of the elements of an array, from index `i` on.
pub open spec fn view_elems(es: Seq<Value>, i: int) -> Seq<JsonVal>
    decreases es, es.len() - i,
{
    if i < 0 || i >= es.len() {
        Seq::empty()
    } else {
        seq![view_value(es[i])] + view_elems(es, i + 1)
    }
}

pub broadcast proof fn lemma_view_members_index(ms: Seq<(Vec<char>, Value)>, i: int)
    requires
        0 <= i,
    ensures
        (#[trigger] view_members(ms, i)).len() == if i <= ms.len() { ms.len() - i } else { 0 },
        forall|j: int|
            i <= j < ms.len() ==> view_members(ms, i)[j - i] == (ms[j].0@, view_value(ms[j].1)),
    decreases ms.len() - i,
{
    if i < ms.len() {
        lemma_view_members_index(ms, i + 1);
    }
}

pub broadcast proof fn lemma_view_elems_index(es: Seq<Value>, i: int)
    requires
        0 <= i,
    ensures
        (#[trigger] view_elems(es, i)).len() == if i <= es.len() { es.len() - i } else { 0 },
        forall|j: int| i <= j < es.len() ==> view_elems(es, i)[j - i] == view_value(es[j]),
    decreases es.len() - i,
{
    if i < es.len() {
        lemma_view_elems_index(es, i + 1);
    }
}

pub proof fn lemma_view_members_snoc(ms: Seq<(Vec<char>, Value)>, m: (Vec<char>, Value))
    ensures
        view_members(ms.push(m), 0) == view_members(ms, 0) + seq![(m.0@, view_value(m.1))],
{
    lemma_view_members_index(ms.push(m), 0);
    lemma_view_members_index(ms, 0);
    assert forall|j: int| 0 <= j < ms.len() + 1 implies view_members(ms.push(m), 0)[j]
        == (view_members(ms, 0) + seq![(m.0@, view_value(m.1))])[j] by {
        assert(view_members(ms.push(m), 0)[j - 0] == (ms.push(m)[j].0@, view_value(
            ms.push(m)[j].1,
        )));
        if j < ms.len() {
            assert(view_members(ms, 0)[j - 0] == (ms[j].0@, view_value(ms[j].1)));
            assert(ms.push(m)[j] == ms[j]);
        } else {
            assert(ms.push(m)[j] == m);
        }
    }
    assert(view_members(ms.push(m), 0) =~= view_members(ms, 0) + seq![(m.0@, view_value(m.1))]);
}

pub proof fn lemma_view_elems_snoc(es: Seq<Value>, v: Value)
    ensures
        view_elems(es.push(v), 0) == view_elems(es, 0) + seq![view_value(v)],
{
    lemma_view_elems_index(es.push(v), 0);
    lemma_view_elems_index(es, 0);
    assert forall|j: int| 0 <= j < es.len() + 1 implies view_elems(es.push(v), 0)[j]
        == (view_elems(es, 0) + seq![view_value(v)])[j] by {
        assert(view_elems(es.push(v), 0)[j - 0] == view_value(es.push(v)[j]));
        if j < es.len() {
            assert(view_elems(es, 0)[j - 0] == view_value(es[j]));
            assert(es.push(v)[j] == es[j]);
        } else {
            assert(es.push(v)[j] == v);
        }
    }
    assert(view_elems(es.push(v), 0) =~= view_elems(es, 0) + seq![view_value(v)]);
}

impl View for Value {
    type V = JsonVal;

    open spec fn view(&self) -> JsonVal {
        view_value(*self)
    }
}

impl View for Object {
    type V = Seq<(Seq<char>, JsonVal)>;

    open spec fn view(&self) -> Seq<(Seq<char>, JsonVal)> {
        view_members(self.members@, 0)
    }
}

impl View for Array {
    type V = Seq<JsonVal>;

    open spec fn view(&self) -> Seq<JsonVal> {
        view_elems(self.values@, 0)
    }
}

impl View for StringNode {
    type V = Seq<char>;

    open spec fn view(&self) -> Seq<char> {
        self.value@
    }
}

impl View for Number {
    type V = Seq<char>;

    open spec fn view(&self) -> Seq<char> {
        self.value@
    }
}

/// One character of a string interior that stands for itself: anything but
/// the closing quote and the escape introducer.
pub open spec fn is_plain_string_char(c: char) -> bool {
    c != '"' && c != '\\'
}

/// The single characters that may follow a backslash in a string.
pub open spec fn is_simple_escape_char(c: char) -> bool {
    c == '"' || c == '\\' || c == '/' || c == 'b' || c == 'f' || c == 'n' || c == 'r' || c == 't'
}

/// A hexadecimal digit, as the `\uXXXX` escape form uses.
pub open spec fn is_hex_char(c: char) -> bool {
    ('0' <= c && c <= '9') || ('a' <= c && c <= 'f') || ('A' <= c && c <= 'F')
}

/// The interior of a string literal: a sequence of plain characters and
/// complete escape sequences. This is exactly what the parser accepts
/// between two quotes.
pub open spec fn wf_interior(s: Seq<char>) -> bool
    decreases s.len(),
{
    if s.len() == 0 {
        true
    } else if s[0] == '\\' {
        if s.len() >= 2 && is_simple_escape_char(s[1]) {
            wf_interior(s.skip(2))
        } else if s.len() >= 6 && s[1] == 'u' && is_hex_char(s[2]) && is_hex_char(s[3])
            && is_hex_char(s[4]) && is_hex_char(s[5]) {
            wf_interior(s.skip(6))
        } else {
            false
        }
    } else {
        is_plain_string_char(s[0]) && wf_interior(s.skip(1))
    }
}

/// Well-formedness of a modelled value: every string interior is a legal
/// interior and every number text is in canonical form. Parsing only ever
/// builds well-formed values, and the round-trip law holds of them.
pub open spec fn wf_val(j: JsonVal) -> bool
    decreases j, 1int,
{
    match j {
        JsonVal::Object(ms) => wf_members_seq(ms),
        JsonVal::Array(es) => wf_elems_seq(es),
        JsonVal::Text(t) => wf_interior(t),
        JsonVal::Number(t) => is_canonical_number(t),
        JsonVal::Boolean(_) => true,
        JsonVal::Null => true,
    }
}

/// Well-formedness of an object's members: every key a legal interior,
/// every value well-formed.
pub open spec fn wf_members_seq(ms: Seq<(Seq<char>, JsonVal)>) -> bool
    decreases ms, 0int,
{
    forall|i: int| 0 <= i < ms.len() ==> wf_interior(#[trigger] ms[i].0) && wf_val(ms[i].1)
}

/// Well-formedness of an array's elements.
pub open spec fn wf_elems_seq(es: Seq<JsonVal>) -> bool
    decreases es, 0int,
{
    forall|i: int| 0 <= i < es.len() ==> wf_val(#[trigger] es[i])
}

impl Null {
    /// The one null value.
    pub fn new() -> (r: Null)
        ensures
            r@ == JsonVal::Null,
    {
        Null {}
    }
}

impl View for Null {
    type V = JsonVal;

    open spec fn view(&self) -> JsonVal {
        JsonVal::Null
    }
}

} // verus!
