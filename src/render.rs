//! The canonical compact text of a value.
use crate::chars::{chars_of, string_from_chars};
use crate::grammar::{false_text, null_text, true_text};
use crate::value::{Decimal, JSONObject, Json, Numeral};
use vstd::prelude::*;

verus! {

broadcast use vstd::std_specs::vec::group_vec_axioms, vstd::seq::group_seq_axioms;

/// The character of a decimal digit value; a value above 9 shows its last decimal digit.
pub open spec fn digit_char(d: u8) -> char {
    ((d % 10) as u32 + ('0' as u32)) as char
}

pub open spec fn digits_text(t: Seq<u8>) -> Seq<char> {
    t.map_values(|d: u8| digit_char(d))
}

/// A decimal: `-` if negative, the integer digits, `.` and the fraction digits if there
/// are any, and `e`, `-` if negative, and the exponent digits if there are any.
pub open spec fn number_text(d: Decimal) -> Seq<char> {
    (if d.negative {
        seq!['-']
    } else {
        Seq::empty()
    }) + digits_text(d.integer) + (if d.fraction.len() > 0 {
        seq!['.'] + digits_text(d.fraction)
    } else {
        Seq::empty()
    }) + (if d.exponent.len() > 0 {
        seq!['e'] + (if d.exp_negative {
            seq!['-']
        } else {
            Seq::empty()
        }) + digits_text(d.exponent)
    } else {
        Seq::empty()
    })
}

/// The text of a value: literals as written, a number by `number_text`, a string between
/// quotes as it stands (nothing is escaped), an array and an object between their
/// brackets with their parts joined by `, `, each entry as `"key": value`.
pub open spec fn render(v: Json) -> Seq<char>
    decreases v,
{
    match v {
        Json::Null => null_text(),
        Json::Bool(b) => if b {
            true_text()
        } else {
            false_text()
        },
        Json::Number(d) => number_text(d),
        Json::Str(t) => seq!['"'] + t + seq!['"'],
        Json::Array(items) => seq!['['] + render_items(items) + seq![']'],
        Json::Object(entries) => seq!['{'] + render_entries(entries) + seq!['}'],
    }
}

/// Rendered items joined by `, `.
pub open spec fn render_items(items: Seq<Json>) -> Seq<char>
    decreases items,
{
    if items.len() == 0 {
        Seq::empty()
    } else if items.len() == 1 {
        render(items[0])
    } else {
        render_items(items.drop_last()) + seq![',', ' '] + render(items.last())
    }
}

/// Rendered entries `"key": value` joined by `, `.
pub open spec fn render_entries(entries: Seq<(Seq<char>, Json)>) -> Seq<char>
    decreases entries,
{
    if entries.len() == 0 {
        Seq::empty()
    } else if entries.len() == 1 {
        seq!['"'] + entries[0].0 + seq!['"', ':', ' '] + render(entries[0].1)
    } else {
        render_entries(entries.drop_last()) + seq![',', ' ', '"'] + entries.last().0 + seq![
            '"',
            ':',
            ' ',
        ] + render(entries.last().1)
    }
}

fn push_digits(out: &mut Vec<char>, t: &Vec<u8>)
    ensures
        final(out)@ == old(out)@ + digits_text(t@),
{
    let mut i: usize = 0;
    while i < t.len()
        invariant
            i <= t.len(),
            out@ == old(out)@ + digits_text(t@.take(i as int)),
        decreases t.len() - i,
    {
        let d = t[i];
        let c = (d % 10 + 48u8) as char;
        assert(c == digit_char(d));
        let ghost before = out@;
        out.push(c);
        assert(digits_text(t@.take(i + 1)) =~= digits_text(t@.take(i as int)).push(c));
        i = i + 1;
    }
    assert(t@.take(t.len() as int) =~= t@);
}

fn push_chars(out: &mut Vec<char>, t: &Vec<char>)
    ensures
        final(out)@ == old(out)@ + t@,
{
    let mut i: usize = 0;
    while i < t.len()
        invariant
            i <= t.len(),
            out@ == old(out)@ + t@.take(i as int),
        decreases t.len() - i,
    {
        out.push(t[i]);
        assert(t@.take(i + 1) =~= t@.take(i as int).push(t@[i as int]));
        i = i + 1;
    }
    assert(t@.take(t.len() as int) =~= t@);
}

impl Numeral {
    /// The canonical text of the number.
    pub fn text(&self) -> (r: String)
        ensures
            r@ == number_text(self@),
    {
        let mut out: Vec<char> = Vec::new();
        self.write_into(&mut out);
        string_from_chars(&out)
    }

    fn write_into(&self, out: &mut Vec<char>)
        ensures
            final(out)@ == old(out)@ + number_text(self@),
    {
        let ghost start = out@;
        if self.negative {
            out.push('-');
        }
        push_digits(out, &self.integer);
        if self.fraction.len() > 0 {
            out.push('.');
            push_digits(out, &self.fraction);
        }
        if self.exponent.len() > 0 {
            out.push('e');
            if self.exp_negative {
                out.push('-');
            }
            push_digits(out, &self.exponent);
        }
        assert(out@ =~= start + number_text(self@));
    }
}

impl JSONObject {
    /// The canonical compact text of the value (see `render`).
    pub fn render(&self) -> (r: String)
        ensures
            r@ == render(self@),
    {
        let mut out: Vec<char> = Vec::new();
        self.write_into(&mut out);
        string_from_chars(&out)
    }

    fn write_into(&self, out: &mut Vec<char>)
        ensures
            final(out)@ == old(out)@ + render(self@),
        decreases self,
    {
        let ghost start = out@;
        match self {
            JSONObject::Null => {
                push_chars(out, &vec!['n', 'u', 'l', 'l']);
            },
            JSONObject::Bool(b) => {
                if *b {
                    push_chars(out, &vec!['t', 'r', 'u', 'e']);
                } else {
                    push_chars(out, &vec!['f', 'a', 'l', 's', 'e']);
                }
            },
            JSONObject::Number(n) => {
                n.write_into(out);
            },
            JSONObject::String(t) => {
                out.push('"');
                push_chars(out, &chars_of(t.as_str()));
                out.push('"');
            },
            JSONObject::Array(v) => {
                let ghost items = self@.view_array();
                out.push('[');
                let mut i: usize = 0;
                while i < v.len()
                    invariant
                        i <= v.len(),
                        items.len() == v.len(),
                        forall|j: int| 0 <= j < v.len() ==> #[trigger] items[j] == v@[j]@,
                        forall|j: int| 0 <= j < v.len() ==> decreases_to!(*self => #[trigger] v@[j]),
                        out@ == start + seq!['['] + render_items(items.take(i as int)),
                    decreases v.len() - i,
                {
                    let ghost before = out@;
                    if i > 0 {
                        out.push(',');
                        out.push(' ');
                    }
                    assert(items[i as int] == v@[i as int]@);
                    v[i].write_into(out);
                    assert(items.take(i + 1).drop_last() =~= items.take(i as int));
                    assert(out@ =~= start + seq!['['] + render_items(items.take(i + 1)));
                    i = i + 1;
                }
                out.push(']');
                assert(items.take(v.len() as int) =~= items);
            },
            JSONObject::Object(v) => {
                let ghost entries = self@.view_object();
                out.push('{');
                let mut i: usize = 0;
                while i < v.len()
                    invariant
                        i <= v.len(),
                        entries.len() == v.len(),
                        forall|j: int| 0 <= j < v.len() ==> #[trigger] entries[j] == (v@[j].0@, v@[j].1@),
                        forall|j: int| 0 <= j < v.len() ==> decreases_to!(*self => #[trigger] v@[j].1),
                        out@ == start + seq!['{'] + render_entries(entries.take(i as int)),
                    decreases v.len() - i,
                {
                    let ghost before = out@;
                    if i > 0 {
                        out.push(',');
                        out.push(' ');
                    }
                    out.push('"');
                    push_chars(out, &chars_of(v[i].0.as_str()));
                    out.push('"');
                    out.push(':');
                    out.push(' ');
                    assert(entries[i as int] == (v@[i as int].0@, v@[i as int].1@));
                    v[i].1.write_into(out);
                    assert(entries.take(i + 1).drop_last() =~= entries.take(i as int));
                    assert(out@ =~= start + seq!['{'] + render_entries(entries.take(i + 1)));
                    i = i + 1;
                }
                out.push('}');
                assert(entries.take(v.len() as int) =~= entries);
            },
        }
        assert(out@ =~= start + render(self@));
    }
}

} // verus!
