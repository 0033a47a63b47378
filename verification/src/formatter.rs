//! The canonical renderer: turns a value tree into deterministic,
//! two-space-indented text with collapsed empty containers and no trailing
//! newline.

use vstd::prelude::*;
use crate::nodes::{
    Array, Boolean, JsonVal, Null, Number, Object, StringNode, Value, lemma_view_elems_index,
    lemma_view_members_index, view_elems, view_members,
};
use crate::text::{chars_to_string, push_chars};
use crate::grammar::{SpecError, parse_text_s};
use crate::parser::{column_of, line_of, line_text_of, parse};
use crate::reporter::report_text;

verus! {

broadcast use
    vstd::std_specs::vec::group_vec_axioms,
    vstd::seq::group_seq_axioms,
    lemma_view_members_index,
    lemma_view_elems_index;

/// The two spaces one nesting level adds.
pub open spec fn indent_unit() -> Seq<char> {
    seq![' ', ' ']
}

/// The indentation written at nesting level `tabs`.
pub open spec fn indent_of(tabs: nat) -> Seq<char> {
    Seq::new(2 * tabs, |i: int| ' ')
}

/// The canonical text of a value rendered with surrounding indentation
/// `ind` (the indentation its own closing bracket sits at).
pub open spec fn render_value(j: JsonVal, ind: Seq<char>) -> Seq<char>
    decreases j, 0int,
{
    match j {
        JsonVal::Null => seq!['n', 'u', 'l', 'l'],
        JsonVal::Boolean(b) => if b {
            seq!['t', 'r', 'u', 'e']
        } else {
            seq!['f', 'a', 'l', 's', 'e']
        },
        JsonVal::Number(t) => t,
        JsonVal::Text(t) => seq!['"'] + t + seq!['"'],
        JsonVal::Array(es) => if es.len() == 0 {
            seq!['[', ']']
        } else {
            seq!['[', '\n'] + render_elems(es, 0, ind + indent_unit()) + seq!['\n'] + ind
                + seq![']']
        },
        JsonVal::Object(ms) => if ms.len() == 0 {
            seq!['{', '}']
        } else {
            seq!['{', '\n'] + render_members(ms, 0, ind + indent_unit()) + seq!['\n'] + ind
                + seq!['}']
        },
    }
}

/// The members of an object from index `i` on, one per line at
/// indentation `ind`, joined by `,\n`.
pub open spec fn render_members(ms: Seq<(Seq<char>, JsonVal)>, i: int, ind: Seq<char>) -> Seq<char>
    decreases ms, ms.len() - i,
{
    if i < 0 || i >= ms.len() {
        Seq::empty()
    } else {
        let item = ind + seq!['"'] + ms[i].0 + seq!['"', ':', ' '] + render_value(ms[i].1, ind);
        if i == ms.len() - 1 {
            item
        } else {
            item + seq![',', '\n'] + render_members(ms, i + 1, ind)
        }
    }
}

/// The elements of an array from index `i` on, one per line at
/// indentation `ind`, joined by `,\n`.
pub open spec fn render_elems(es: Seq<JsonVal>, i: int, ind: Seq<char>) -> Seq<char>
    decreases es, es.len() - i,
{
    if i < 0 || i >= es.len() {
        Seq::empty()
    } else {
        let item = ind + render_value(es[i], ind);
        if i == es.len() - 1 {
            item
        } else {
            item + seq![',', '\n'] + render_elems(es, i + 1, ind)
        }
    }
}

/// The indentation vector for nesting level `tabs`.
fn make_indent(tabs: usize) -> (v: Vec<char>)
    ensures
        v@ == indent_of(tabs as nat),
{
    let mut v: Vec<char> = Vec::new();
    let mut t: usize = 0;
    while t < tabs
        invariant
            t <= tabs,
            v@ == indent_of(t as nat),
        decreases tabs - t,
    {
        v.push(' ');
        v.push(' ');
        proof {
            assert(indent_of(t as nat).push(' ').push(' ') =~= indent_of((t + 1) as nat));
        }
        t = t + 1;
    }
    v
}

/// Write `v` onto `out`, rendered against the current indentation.
fn write_value(v: &Value, indent: &mut Vec<char>, out: &mut Vec<char>)
    ensures
        final(indent)@ == old(indent)@,
        final(out)@ == old(out)@ + render_value(v@, old(indent)@),
    decreases v, 2int,
{
    match v {
        Value::Null(_) => {
            out.push('n');
            out.push('u');
            out.push('l');
            out.push('l');
            proof {
                assert(out@ =~= old(out)@ + seq!['n', 'u', 'l', 'l']);
            }
        },
        Value::Boolean(b) => {
            if b.value {
                out.push('t');
                out.push('r');
                out.push('u');
                out.push('e');
                proof {
                    assert(out@ =~= old(out)@ + seq!['t', 'r', 'u', 'e']);
                }
            } else {
                out.push('f');
                out.push('a');
                out.push('l');
                out.push('s');
                out.push('e');
                proof {
                    assert(out@ =~= old(out)@ + seq!['f', 'a', 'l', 's', 'e']);
                }
            }
        },
        Value::Number(n) => {
            push_chars(out, &n.value);
        },
        Value::Text(s) => {
            out.push('"');
            push_chars(out, &s.value);
            out.push('"');
            proof {
                assert(out@ =~= old(out)@ + (seq!['"'] + s.value@ + seq!['"']));
            }
        },
        Value::Object(o) => {
            write_object(o, indent, out);
        },
        Value::Array(a) => {
            write_array(a, indent, out);
        },
    }
}

/// Write an object onto `out`: `{}` when empty, else one member per line
/// one level deeper, closed at the current indentation.
fn write_object(o: &Object, indent: &mut Vec<char>, out: &mut Vec<char>)
    ensures
        final(indent)@ == old(indent)@,
        final(out)@ == old(out)@ + render_value(JsonVal::Object(view_members(o.members@, 0)), old(
            indent,
        )@),
    decreases o, 1int,
{
    if o.members.len() == 0 {
        out.push('{');
        out.push('}');
        proof {
            assert(out@ =~= old(out)@ + seq!['{', '}']);
        }
    } else {
        out.push('{');
        out.push('\n');
        indent.push(' ');
        indent.push(' ');
        proof {
            assert(indent@ =~= old(indent)@ + indent_unit());
        }
        write_members(&o.members, 0, indent, out);
        indent.pop();
        indent.pop();
        proof {
            assert(indent@ =~= old(indent)@);
        }
        out.push('\n');
        push_chars(out, indent);
        out.push('}');
        proof {
            assert(out@ =~= old(out)@ + (seq!['{', '\n'] + render_members(
                view_members(o.members@, 0),
                0,
                old(indent)@ + indent_unit(),
            ) + seq!['\n'] + old(indent)@ + seq!['}']));
        }
    }
}

/// Write an array onto `out`: `[]` when empty, else one element per line
/// one level deeper, closed at the current indentation.
fn write_array(a: &Array, indent: &mut Vec<char>, out: &mut Vec<char>)
    ensures
        final(indent)@ == old(indent)@,
        final(out)@ == old(out)@ + render_value(JsonVal::Array(view_elems(a.values@, 0)), old(indent)@),
    decreases a, 1int,
{
    if a.values.len() == 0 {
        out.push('[');
        out.push(']');
        proof {
            assert(out@ =~= old(out)@ + seq!['[', ']']);
        }
    } else {
        out.push('[');
        out.push('\n');
        indent.push(' ');
        indent.push(' ');
        proof {
            assert(indent@ =~= old(indent)@ + indent_unit());
        }
        write_elems(&a.values, 0, indent, out);
        indent.pop();
        indent.pop();
        proof {
            assert(indent@ =~= old(indent)@);
        }
        out.push('\n');
        push_chars(out, indent);
        out.push(']');
        proof {
            assert(out@ =~= old(out)@ + (seq!['[', '\n'] + render_elems(
                view_elems(a.values@, 0),
                0,
                old(indent)@ + indent_unit(),
            ) + seq!['\n'] + old(indent)@ + seq![']']));
        }
    }
}

/// Write the members from index `i` on, each on its own indented line.
fn write_members(ms: &Vec<(Vec<char>, Value)>, i: usize, indent: &mut Vec<char>, out: &mut Vec<
    char,
>)
    requires
        i < ms@.len(),
    ensures
        final(indent)@ == old(indent)@,
        final(out)@ == old(out)@ + render_members(view_members(ms@, 0), i as int, old(indent)@),
    decreases ms, ms@.len() - i,
{
    push_chars(out, indent);
    out.push('"');
    push_chars(out, &ms[i].0);
    out.push('"');
    out.push(':');
    out.push(' ');
    write_value(&ms[i].1, indent, out);
    let n = ms.len();
    if i < n - 1 {
        out.push(',');
        out.push('\n');
        write_members(ms, i + 1, indent, out);
        proof {
            assert(out@ =~= old(out)@ + render_members(view_members(ms@, 0), i as int, old(
                indent,
            )@));
        }
    } else {
        proof {
            assert(out@ =~= old(out)@ + render_members(view_members(ms@, 0), i as int, old(
                indent,
            )@));
        }
    }
}

/// Write the elements from index `i` on, each on its own indented line.
fn write_elems(es: &Vec<Value>, i: usize, indent: &mut Vec<char>, out: &mut Vec<char>)
    requires
        i < es@.len(),
    ensures
        final(indent)@ == old(indent)@,
        final(out)@ == old(out)@ + render_elems(view_elems(es@, 0), i as int, old(indent)@),
    decreases es, es@.len() - i,
{
    push_chars(out, indent);
    write_value(&es[i], indent, out);
    let n = es.len();
    if i < n - 1 {
        out.push(',');
        out.push('\n');
        write_elems(es, i + 1, indent, out);
        proof {
            assert(out@ =~= old(out)@ + render_elems(view_elems(es@, 0), i as int, old(indent)@));
        }
    } else {
        proof {
            assert(out@ =~= old(out)@ + render_elems(view_elems(es@, 0), i as int, old(indent)@));
        }
    }
}

impl Value {
    /// Render this value as a whole document, at nesting level zero.
    pub fn format_as_root(&self) -> (r: String)
        ensures
            r@ == render_value(self@, Seq::empty()),
    {
        let mut indent: Vec<char> = Vec::new();
        let mut out: Vec<char> = Vec::new();
        write_value(self, &mut indent, &mut out);
        chars_to_string(&out)
    }

    /// Render this value as it appears inside a container at nesting
    /// level `tabs`.
    pub fn format_as_child(&self, tabs: usize) -> (r: String)
        ensures
            r@ == render_value(self@, indent_of(tabs as nat)),
    {
        let mut indent = make_indent(tabs);
        let mut out: Vec<char> = Vec::new();
        write_value(self, &mut indent, &mut out);
        chars_to_string(&out)
    }
}

impl Object {
    /// Whether the object has no members.
    pub fn is_empty(&self) -> (r: bool)
        ensures
            r == (self@.len() == 0),
    {
        self.members.len() == 0
    }

    /// Render the member lines at nesting level `tabs`, joined by `,\n`,
    /// with no surrounding braces.
    pub fn format_children(&self, tabs: usize) -> (r: String)
        ensures
            r@ == render_members(self@, 0, indent_of(tabs as nat)),
    {
        if self.members.len() == 0 {
            String::new()
        } else {
            let mut indent = make_indent(tabs);
            let mut out: Vec<char> = Vec::new();
            write_members(&self.members, 0, &mut indent, &mut out);
            chars_to_string(&out)
        }
    }

    /// Render the object as it appears at nesting level `tabs`.
    pub fn format_as_child(&self, tabs: usize) -> (r: String)
        ensures
            r@ == render_value(JsonVal::Object(self@), indent_of(tabs as nat)),
    {
        let mut indent = make_indent(tabs);
        let mut out: Vec<char> = Vec::new();
        write_object(self, &mut indent, &mut out);
        chars_to_string(&out)
    }

    /// Render the object as a whole document.
    pub fn format_as_root(&self) -> (r: String)
        ensures
            r@ == render_value(JsonVal::Object(self@), Seq::empty()),
    {
        let mut indent: Vec<char> = Vec::new();
        let mut out: Vec<char> = Vec::new();
        write_object(self, &mut indent, &mut out);
        chars_to_string(&out)
    }
}

impl Array {
    /// Whether the array has no elements.
    pub fn is_empty(&self) -> (r: bool)
        ensures
            r == (self@.len() == 0),
    {
        self.values.len() == 0
    }

    /// Render the element lines at nesting level `tabs`, joined by `,\n`,
    /// with no surrounding brackets.
    pub fn format_children(&self, tabs: usize) -> (r: String)
        ensures
            r@ == render_elems(self@, 0, indent_of(tabs as nat)),
    {
        if self.values.len() == 0 {
            String::new()
        } else {
            let mut indent = make_indent(tabs);
            let mut out: Vec<char> = Vec::new();
            write_elems(&self.values, 0, &mut indent, &mut out);
            chars_to_string(&out)
        }
    }

    /// Render the array as it appears at nesting level `tabs`.
    pub fn format_as_child(&self, tabs: usize) -> (r: String)
        ensures
            r@ == render_value(JsonVal::Array(self@), indent_of(tabs as nat)),
    {
        let mut indent = make_indent(tabs);
        let mut out: Vec<char> = Vec::new();
        write_array(self, &mut indent, &mut out);
        chars_to_string(&out)
    }

    /// Render the array at nesting level zero.
    pub fn format(&self) -> (r: String)
        ensures
            r@ == render_value(JsonVal::Array(self@), Seq::empty()),
    {
        self.format_root()
    }

    /// Render the array as a whole document.
    pub fn format_root(&self) -> (r: String)
        ensures
            r@ == render_value(JsonVal::Array(self@), Seq::empty()),
    {
        let mut indent: Vec<char> = Vec::new();
        let mut out: Vec<char> = Vec::new();
        write_array(self, &mut indent, &mut out);
        chars_to_string(&out)
    }
}

impl StringNode {
    /// Render the string: its interior wrapped in quotes, unmodified.
    pub fn format(&self) -> (r: String)
        ensures
            r@ == render_value(JsonVal::Text(self@), Seq::empty()),
    {
        let mut out: Vec<char> = Vec::new();
        out.push('"');
        push_chars(&mut out, &self.value);
        out.push('"');
        proof {
            assert(out@ =~= seq!['"'] + self.value@ + seq!['"']);
        }
        chars_to_string(&out)
    }

    /// Strings render the same at every nesting level.
    pub fn format_as_child(&self, _tabs: usize) -> (r: String)
        ensures
            r@ == render_value(JsonVal::Text(self@), Seq::empty()),
    {
        self.format()
    }

    /// Render the string as a whole document.
    pub fn format_as_root(&self) -> (r: String)
        ensures
            r@ == render_value(JsonVal::Text(self@), Seq::empty()),
    {
        self.format()
    }
}

impl Number {
    /// Render the number: its canonical decimal text.
    pub fn format(&self) -> (r: String)
        ensures
            r@ == render_value(JsonVal::Number(self@), Seq::empty()),
    {
        chars_to_string(&self.value)
    }

    /// Numbers render the same at every nesting level.
    pub fn format_as_child(&self, _tabs: usize) -> (r: String)
        ensures
            r@ == render_value(JsonVal::Number(self@), Seq::empty()),
    {
        self.format()
    }

    /// Render the number as a whole document.
    pub fn format_root(&self) -> (r: String)
        ensures
            r@ == render_value(JsonVal::Number(self@), Seq::empty()),
    {
        self.format()
    }
}

impl Boolean {
    /// Booleans render as the lowercase literal at every nesting level.
    pub fn format_as_child(&self, _tabs: usize) -> (r: String)
        ensures
            r@ == render_value(JsonVal::Boolean(self.value), Seq::empty()),
    {
        let mut out: Vec<char> = Vec::new();
        if self.value {
            out.push('t');
            out.push('r');
            out.push('u');
            out.push('e');
            proof {
                assert(out@ =~= seq!['t', 'r', 'u', 'e']);
            }
        } else {
            out.push('f');
            out.push('a');
            out.push('l');
            out.push('s');
            out.push('e');
            proof {
                assert(out@ =~= seq!['f', 'a', 'l', 's', 'e']);
            }
        }
        chars_to_string(&out)
    }

    /// Render the boolean as a whole document.
    pub fn format_as_root(&self) -> (r: String)
        ensures
            r@ == render_value(JsonVal::Boolean(self.value), Seq::empty()),
    {
        self.format_as_child(0)
    }
}

impl Null {
    /// Null renders as `null` at every nesting level.
    pub fn format_as_child(&self, _tabs: usize) -> (r: String)
        ensures
            r@ == render_value(JsonVal::Null, Seq::empty()),
    {
        let mut out: Vec<char> = Vec::new();
        out.push('n');
        out.push('u');
        out.push('l');
        out.push('l');
        proof {
            assert(out@ =~= seq!['n', 'u', 'l', 'l']);
        }
        chars_to_string(&out)
    }

    /// Render the null as a whole document.
    pub fn format_as_root(&self) -> (r: String)
        ensures
            r@ == render_value(JsonVal::Null, Seq::empty()),
    {
        self.format_as_child(0)
    }
}


/// A failed formatting: the positioned parse error, rendered as text.
#[derive(Debug)]
pub struct FormatError {
    pub message: String,
}

/// The canonical formatting of a whole text, at the specification level:
/// the rendering of its parse, or the parse's error.
pub open spec fn spec_format(s: Seq<char>) -> Result<Seq<char>, SpecError> {
    match parse_text_s(s) {
        Ok(j) => Ok(render_value(j, Seq::empty())),
        Err(e) => Err(e),
    }
}

/// Parse `json` and render it canonically. A text the grammar refuses
/// yields a `FormatError` wrapping the positioned error text instead. The
/// text must be shorter than `usize::MAX` characters so that the error
/// positions fit the machine word.
pub fn format(json: &str) -> (r: Result<String, FormatError>)
    requires
        json@.len() < usize::MAX,
    ensures
        match r {
            Ok(t) => spec_format(json@) matches Ok(o) && t@ == o,
            Err(e) => spec_format(json@) matches Err(g) && e.message@ == report_text(
                line_of(json@, json@.len() - g.rem),
                column_of(json@, json@.len() - g.rem),
                line_text_of(json@, json@.len() - g.rem),
                g.what,
            ),
        },
{
    match parse(json) {
        Ok(v) => Ok(v.format_as_root()),
        Err(e) => Err(FormatError { message: e.message() }),
    }
}

} // verus!
