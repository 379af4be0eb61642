//! Laws that relate the grammar to itself and to the renderer, proved over the spec
//! functions that the parser's and renderer's contracts use.
use crate::grammar::{
    digit_count, digit_values, elements_at, entries_at, escape_at, exponent_digits_at,
    exponent_len, fraction_len, is_digit, item_at, null_at, null_text, number_at, occurs_at,
    string_at, string_body_at, true_text, unicode_escape_at, value_at, ws_count, hex4_value, hex_value,
};
use crate::render::{digits_text, number_text, render, render_entries, render_items};
use crate::value::{decimal_wf, digits_ok, Decimal, Json, ParseError};
use vstd::prelude::*;

verus! {

broadcast use vstd::seq::group_seq_axioms;

proof fn lemma_digit_count_before(l: Seq<char>, g: Seq<char>, p: int)
    requires
        0 <= p <= l.len(),
        g.len() == 0 || !is_digit(g[0]),
    ensures
        digit_count(l + g, p) == digit_count(l, p),
    decreases l.len() - p,
{
    if p < l.len() {
        lemma_digit_count_before(l, g, p + 1);
        assert((l + g)[p] == l[p]);
    } else if g.len() > 0 {
        assert((l + g)[p] == g[0]);
    }
}

/// A complete number followed by text that no number continues with (nothing, or a first
/// character that is not a digit, `.`, `e` or `E`) is read exactly up to its end, with the
/// same value as the number alone.
pub proof fn number_stops_before_garbage(lexeme: Seq<char>, garbage: Seq<char>)
    requires
        number_at(lexeme, 0) is Ok,
        number_at(lexeme, 0)->Ok_0.0 == lexeme.len(),
        garbage.len() == 0 || !(is_digit(garbage[0]) || garbage[0] == '.' || garbage[0] == 'e'
            || garbage[0] == 'E'),
    ensures
        number_at(lexeme + garbage, 0) == number_at(lexeme, 0),
{
    let l = lexeme;
    let s = lexeme + garbage;
    let n = l.len() as int;
    assert(n > 0);
    assert(s[0] == l[0]);
    let q: int = if l[0] == '-' {
        1
    } else {
        0
    };
    lemma_digit_count_before(l, garbage, q);
    let i = q + digit_count(l, q);
    assert(i <= n) by {
        lemma_digit_count_bound(l, q);
    }
    if i < n {
        assert(s[i] == l[i]);
        lemma_digit_count_before(l, garbage, i + 1);
    } else if garbage.len() > 0 {
        assert(s[i] == garbage[0]);
    }
    assert(fraction_len(s, i) == fraction_len(l, i));
    let f = i + fraction_len(l, i);
    assert(f <= n) by {
        lemma_digit_count_bound(l, i + 1);
    }
    if f < n {
        assert(s[f] == l[f]);
        if f + 1 < n {
            assert(s[f + 1] == l[f + 1]);
        }
        let k = exponent_digits_at(l, f);
        if k <= n {
            lemma_digit_count_before(l, garbage, k);
            lemma_digit_count_bound(l, k);
        }
        if f + 2 < n {
            assert(s[f + 2] == l[f + 2]);
        }
        assert(exponent_len(s, f) == exponent_len(l, f));
    } else if garbage.len() > 0 {
        assert(s[f] == garbage[0]);
    }
    let e = f + exponent_len(l, f);
    let k = exponent_digits_at(l, f);
    assert(s.subrange(q, i) =~= l.subrange(q, i));
    if f > i {
        assert(s.subrange(i + 1, f) =~= l.subrange(i + 1, f));
    }
    if e > f {
        assert(s[f + 1] == l[f + 1]);
        assert(s.subrange(k, e) =~= l.subrange(k, e));
    }
}

proof fn lemma_digit_count_bound(s: Seq<char>, p: int)
    ensures
        0 <= p <= s.len() ==> p + digit_count(s, p) <= s.len(),
        forall|j: int| p <= j < p + digit_count(s, p) ==> is_digit(#[trigger] s[j]),
    decreases s.len() - p,
{
    if 0 <= p < s.len() && is_digit(s[p]) {
        lemma_digit_count_bound(s, p + 1);
    }
}

/// The lower-case hexadecimal digit of a value below 16.
pub open spec fn hex_char(h: int) -> char {
    if h < 10 {
        (h + '0' as int) as char
    } else {
        (h - 10 + 'a' as int) as char
    }
}

proof fn lemma_hex_char(h: int)
    requires
        0 <= h < 16,
    ensures
        hex_value(hex_char(h)) == h,
{
}

/// How a character is written inside quotes: `"`, `\`, backspace, form feed, line feed,
/// carriage return and tab as their two-character escapes, any other character below
/// U+0020 as `\u00XX`, anything else as itself.
pub open spec fn escape_char(c: char) -> Seq<char> {
    if c == '"' {
        seq!['\\', '"']
    } else if c == '\\' {
        seq!['\\', '\\']
    } else if c == '\x08' {
        seq!['\\', 'b']
    } else if c == '\x0c' {
        seq!['\\', 'f']
    } else if c == '\n' {
        seq!['\\', 'n']
    } else if c == '\r' {
        seq!['\\', 'r']
    } else if c == '\t' {
        seq!['\\', 't']
    } else if (c as u32) < 0x20 {
        seq!['\\', 'u', '0', '0', hex_char(c as u32 as int / 16), hex_char(c as u32 as int % 16)]
    } else {
        seq![c]
    }
}

/// `t` with each character written as `escape_char` gives.
pub open spec fn escaped(t: Seq<char>) -> Seq<char>
    decreases t.len(),
{
    if t.len() == 0 {
        Seq::empty()
    } else {
        escape_char(t[0]) + escaped(t.drop_first())
    }
}

proof fn lemma_body_of_escaped(s: Seq<char>, p: int, t: Seq<char>)
    requires
        0 <= p,
        p + escaped(t).len() + 1 <= s.len(),
        s.subrange(p, p + escaped(t).len()) == escaped(t),
        s[p + escaped(t).len()] == '"',
    ensures
        string_body_at(s, p) == Ok::<(nat, Seq<char>), crate::value::ParseError>(
            ((escaped(t).len() + 1) as nat, t),
        ),
    decreases t.len(),
{
    if t.len() == 0 {
        assert(t =~= Seq::<char>::empty());
    } else {
        let c = t[0];
        let rest = t.drop_first();
        let w = escape_char(c);
        let m = w.len() as int;
        assert(escaped(t) == w + escaped(rest));
        assert(s.subrange(p, p + m) =~= w) by {
            assert(s.subrange(p, p + m) =~= escaped(t).subrange(0, m));
        }
        assert(s.subrange(p + m, p + m + escaped(rest).len()) =~= escaped(rest)) by {
            assert(s.subrange(p + m, p + m + escaped(rest).len()) =~= escaped(t).subrange(
                m,
                escaped(t).len() as int,
            ));
        }
        lemma_body_of_escaped(s, p + m, rest);
        assert(s[p] == w[0]);
        if m == 2 {
            assert(s[p + 1] == w[1]);
            reveal(escape_at);
            assert(escape_at(s, p) == Ok::<(nat, char), crate::value::ParseError>((2, c)));
        } else if m == 6 {
            assert(s[p + 1] == w[1]);
            assert(s[p + 2] == w[2]);
            assert(s[p + 3] == w[3]);
            assert(s[p + 4] == w[4]);
            assert(s[p + 5] == w[5]);
            reveal(escape_at);
            reveal(unicode_escape_at);
            let x = c as u32 as int;
            assert(0 <= x / 16 < 16 && 0 <= x % 16 < 16 && (x / 16) * 16 + x % 16 == x) by (
            nonlinear_arith)
                requires
                    0 <= x < 0x20,
            ;
            lemma_hex_char(x / 16);
            lemma_hex_char(x % 16);
            assert(hex4_value(s, p + 2) == x);
            vstd::utf8::char_u32_cast(c, c as u32);
            assert(crate::grammar::char_of(x) == c);
            assert(unicode_escape_at(s, p) == Ok::<(nat, char), crate::value::ParseError>((6, c)));
            assert(escape_at(s, p) == Ok::<(nat, char), crate::value::ParseError>((6, c)));
        }
        assert(seq![c] + rest =~= t);
    }
}

/// Text written with `escaped` between quotes reads back as exactly the same
/// characters, whatever follows the closing quote.
pub proof fn escaped_string_reads_back(t: Seq<char>, rest: Seq<char>)
    ensures
        string_at(seq!['"'] + escaped(t) + seq!['"'] + rest, 0) == Ok::<
            (nat, Json),
            crate::value::ParseError,
        >(((escaped(t).len() + 2) as nat, Json::Str(t))),
{
    let s = seq!['"'] + escaped(t) + seq!['"'] + rest;
    let n = escaped(t).len() as int;
    assert(s.subrange(1, 1 + n) =~= escaped(t));
    assert(s[1 + n] == '"');
    lemma_body_of_escaped(s, 1, t);
}

/// Text that the renderer writes as it stands and the parser reads back as itself: no
/// quote and no backslash.
pub open spec fn plain_text(t: Seq<char>) -> bool {
    forall|i: int| 0 <= i < t.len() ==> #[trigger] t[i] != '"' && t[i] != '\\'
}

/// A decimal that its text reads back as: digits in `0..=9`, at least one integer digit,
/// and no exponent sign without exponent digits.
pub open spec fn decimal_valid(d: Decimal) -> bool {
    decimal_wf(d) && d.integer.len() > 0 && (d.exponent.len() == 0 ==> !d.exp_negative)
}

/// Every number in `v` is `decimal_valid` and every string and key is `plain_text`.
pub open spec fn round_trips(v: Json) -> bool
    decreases v,
{
    match v {
        Json::Number(d) => decimal_valid(d),
        Json::Str(t) => plain_text(t),
        Json::Array(items) => forall|i: int| 0 <= i < items.len() ==> round_trips(#[trigger] items[i]),
        Json::Object(entries) => forall|i: int|
            0 <= i < entries.len() ==> plain_text(#[trigger] entries[i].0) && round_trips(
                entries[i].1,
            ),
        _ => true,
    }
}

/// What may follow a rendered value: the end of the text, a comma or a closing bracket.
pub open spec fn value_boundary(s: Seq<char>, e: int) -> bool {
    e == s.len() || (0 <= e < s.len() && (s[e] == ',' || s[e] == ']' || s[e] == '}'))
}

/// `"key": value`.
pub open spec fn entry_text(e: (Seq<char>, Json)) -> Seq<char> {
    seq!['"'] + e.0 + seq!['"', ':', ' '] + render(e.1)
}

proof fn lemma_occurs_split(s: Seq<char>, p: int, a: Seq<char>, b: Seq<char>)
    requires
        occurs_at(s, p, a + b),
    ensures
        occurs_at(s, p, a),
        occurs_at(s, p + a.len(), b),
{
    let ab = a + b;
    assert forall|j: int| 0 <= j < a.len() implies #[trigger] s.subrange(p, p + a.len())[j]
        == a[j] by {
        assert(s.subrange(p, p + ab.len())[j] == ab[j]);
    }
    assert forall|j: int| 0 <= j < b.len() implies #[trigger] s.subrange(
        p + a.len(),
        p + a.len() + b.len(),
    )[j] == b[j] by {
        assert(s.subrange(p, p + ab.len())[a.len() + j] == ab[a.len() + j]);
    }
    assert(s.subrange(p, p + a.len()) =~= a);
    assert(s.subrange(p + a.len(), p + a.len() + b.len()) =~= b);
}

proof fn lemma_occurs_index(s: Seq<char>, p: int, a: Seq<char>, j: int)
    requires
        occurs_at(s, p, a),
        0 <= j < a.len(),
    ensures
        s[p + j] == a[j],
{
    assert(s.subrange(p, p + a.len())[j] == s[p + j]);
}

proof fn lemma_digits_text(t: Seq<u8>)
    requires
        digits_ok(t),
    ensures
        digits_text(t).len() == t.len(),
        forall|j: int| 0 <= j < t.len() ==> is_digit(#[trigger] digits_text(t)[j]),
        digit_values(digits_text(t)) =~= t,
{
}

proof fn lemma_digit_run(s: Seq<char>, p: int, n: int)
    requires
        0 <= p,
        0 <= n,
        p + n <= s.len(),
        forall|j: int| p <= j < p + n ==> is_digit(#[trigger] s[j]),
        p + n == s.len() || !is_digit(s[p + n]),
    ensures
        digit_count(s, p) == n,
    decreases n,
{
    if n > 0 {
        lemma_digit_run(s, p + 1, n - 1);
    }
}

/// The digits of `t` stand in `s` at `p`, and no further digit follows.
proof fn lemma_digits_at(s: Seq<char>, p: int, t: Seq<u8>)
    requires
        digits_ok(t),
        occurs_at(s, p, digits_text(t)),
        p + t.len() == s.len() || !is_digit(s[p + t.len()]),
    ensures
        digit_count(s, p) == t.len(),
        digit_values(s.subrange(p, p + t.len())) == t,
{
    lemma_digits_text(t);
    assert forall|j: int| p <= j < p + t.len() implies is_digit(#[trigger] s[j]) by {
        lemma_occurs_index(s, p, digits_text(t), j - p);
    }
    lemma_digit_run(s, p, t.len() as int);
}

proof fn lemma_number_of_render(d: Decimal, s: Seq<char>, p: int)
    requires
        decimal_valid(d),
        occurs_at(s, p, number_text(d)),
        value_boundary(s, p + number_text(d).len()),
    ensures
        number_at(s, p) == Ok::<(nat, Json), ParseError>(
            (number_text(d).len(), Json::Number(d)),
        ),
{
    let ns: Seq<char> = if d.negative {
        seq!['-']
    } else {
        Seq::empty()
    };
    let it = digits_text(d.integer);
    let fs: Seq<char> = if d.fraction.len() > 0 {
        seq!['.'] + digits_text(d.fraction)
    } else {
        Seq::empty()
    };
    let sg: Seq<char> = if d.exp_negative {
        seq!['-']
    } else {
        Seq::empty()
    };
    let es: Seq<char> = if d.exponent.len() > 0 {
        seq!['e'] + sg + digits_text(d.exponent)
    } else {
        Seq::empty()
    };
    assert(number_text(d) == ns + it + fs + es);
    let end = p + number_text(d).len();
    lemma_occurs_split(s, p, ns + it + fs, es);
    lemma_occurs_split(s, p, ns + it, fs);
    lemma_occurs_split(s, p, ns, it);
    lemma_digits_text(d.integer);
    lemma_digits_text(d.fraction);
    lemma_digits_text(d.exponent);
    let q = p + ns.len();
    let i = q + it.len();
    let f = i + fs.len();
    // the character after the integer digits
    if fs.len() > 0 {
        lemma_occurs_index(s, i, fs, 0);
    } else if es.len() > 0 {
        lemma_occurs_index(s, f, es, 0);
    }
    if d.negative {
        lemma_occurs_index(s, p, ns, 0);
    } else {
        lemma_occurs_index(s, p, it, 0);
    }
    lemma_digits_at(s, q, d.integer);
    if fs.len() > 0 {
        lemma_occurs_split(s, i, seq!['.'], digits_text(d.fraction));
        if es.len() > 0 {
            lemma_occurs_index(s, f, es, 0);
        }
        lemma_digits_at(s, i + 1, d.fraction);
    }
    assert(fraction_len(s, i) == fs.len());
    if es.len() > 0 {
        lemma_occurs_split(s, f, seq!['e'] + sg, digits_text(d.exponent));
        lemma_occurs_split(s, f, seq!['e'], sg);
        lemma_occurs_index(s, f, es, 0);
        lemma_occurs_index(s, f, es, 1);
        let k = f + 1 + sg.len();
        assert(exponent_digits_at(s, f) == k);
        lemma_digits_at(s, k, d.exponent);
        assert(exponent_len(s, f) == es.len());
    }
    assert(exponent_len(s, f) == es.len());
    if d.fraction.len() == 0 {
        assert(d.fraction =~= Seq::<u8>::empty());
    }
    if d.exponent.len() == 0 {
        assert(d.exponent =~= Seq::<u8>::empty());
    }
}

proof fn lemma_body_of_plain(s: Seq<char>, p: int, t: Seq<char>)
    requires
        plain_text(t),
        occurs_at(s, p, t + seq!['"']),
    ensures
        string_body_at(s, p) == Ok::<(nat, Seq<char>), ParseError>(((t.len() + 1) as nat, t)),
    decreases t.len(),
{
    lemma_occurs_index(s, p, t + seq!['"'], 0);
    if t.len() == 0 {
        assert(t =~= Seq::<char>::empty());
    } else {
        let rest = t.drop_first();
        assert(t + seq!['"'] =~= seq![t[0]] + (rest + seq!['"']));
        lemma_occurs_split(s, p, seq![t[0]], rest + seq!['"']);
        lemma_body_of_plain(s, p + 1, rest);
        assert(seq![t[0]] + rest =~= t);
    }
}

proof fn lemma_render_items_head(items: Seq<Json>)
    requires
        items.len() >= 2,
    ensures
        render_items(items) == render(items[0]) + seq![',', ' '] + render_items(items.drop_first()),
    decreases items.len(),
{
    let dl = items.drop_last();
    let df = items.drop_first();
    assert(dl[0] == items[0]);
    assert(df.last() == items.last());
    if items.len() > 2 {
        lemma_render_items_head(dl);
        assert(dl.drop_first() =~= df.drop_last());
        assert(render_items(df) == render_items(df.drop_last()) + seq![',', ' '] + render(df.last()));
        assert(render_items(items) =~= render(items[0]) + seq![',', ' '] + render_items(df));
    } else {
        assert(render_items(dl) == render(items[0]));
        assert(render_items(df) == render(items.last()));
    }
}

proof fn lemma_render_entries_head(entries: Seq<(Seq<char>, Json)>)
    requires
        entries.len() >= 2,
    ensures
        render_entries(entries) == entry_text(entries[0]) + seq![',', ' '] + render_entries(
            entries.drop_first(),
        ),
    decreases entries.len(),
{
    let dl = entries.drop_last();
    let df = entries.drop_first();
    assert(dl[0] == entries[0]);
    assert(df.last() == entries.last());
    if entries.len() > 2 {
        lemma_render_entries_head(dl);
        assert(dl.drop_first() =~= df.drop_last());
        assert(render_entries(df) =~= render_entries(df.drop_last()) + seq![',', ' '] + entry_text(df.last()));
        assert(render_entries(entries) =~= render_entries(dl) + seq![',', ' '] + entry_text(entries.last()));
        assert(render_entries(entries) =~= entry_text(entries[0]) + seq![',', ' '] + render_entries(df));
    } else {
        assert(render_entries(dl) =~= entry_text(entries[0]));
        assert(render_entries(df) =~= entry_text(entries.last()));
        assert(render_entries(entries) =~= render_entries(dl) + seq![',', ' '] + entry_text(entries.last()));
    }
}

/// The first character of a rendered value, which tells its kind.
proof fn lemma_render_head(v: Json)
    requires
        round_trips(v),
    ensures
        render(v).len() > 0,
        match v {
            Json::Null => render(v)[0] == 'n',
            Json::Bool(b) => render(v)[0] == (if b {
                't'
            } else {
                'f'
            }),
            Json::Number(d) => render(v)[0] == '-' || is_digit(render(v)[0]),
            Json::Str(_) => render(v)[0] == '"',
            Json::Array(_) => render(v)[0] == '[',
            Json::Object(_) => render(v)[0] == '{',
        },
{
    match v {
        Json::Number(d) => {
            lemma_digits_text(d.integer);
            if !d.negative {
                assert(render(v)[0] == digits_text(d.integer)[0]);
            }
        },
        _ => {},
    }
}

proof fn lemma_value_of_render(v: Json, s: Seq<char>, p: int, w: int)
    requires
        round_trips(v),
        0 <= w <= 1,
        occurs_at(s, p, Seq::new(w as nat, |j: int| ' ') + render(v)),
        value_boundary(s, p + w + render(v).len()),
    ensures
        value_at(s, p) == Ok::<(nat, Json), ParseError>(((w + render(v).len()) as nat, v)),
    decreases v, 1nat,
{
    let sp = Seq::new(w as nat, |j: int| ' ');
    lemma_occurs_split(s, p, sp, render(v));
    lemma_render_head(v);
    lemma_occurs_index(s, p + w, render(v), 0);
    if w == 1 {
        lemma_occurs_index(s, p, sp, 0);
    }
    assert(ws_count(s, p + w) == 0);
    assert(ws_count(s, p) == w);
    lemma_item_of_render(v, s, p + w);
    let e = p + w + render(v).len();
    assert(ws_count(s, e) == 0);
}

proof fn lemma_item_of_render(v: Json, s: Seq<char>, p: int)
    requires
        round_trips(v),
        0 <= p,
        occurs_at(s, p, render(v)),
        value_boundary(s, p + render(v).len()),
    ensures
        item_at(s, p) == Ok::<(nat, Json), ParseError>((render(v).len(), v)),
    decreases v, 0nat,
{
    lemma_render_head(v);
    lemma_occurs_index(s, p, render(v), 0);
    let e = p + render(v).len();
    match v {
        Json::Null => {
            assert(render(v) == null_text());
            assert(item_at(s, p) == null_at(s, p));
        },
        Json::Bool(b) => {
            if !b {
                lemma_occurs_index(s, p, render(v), 1);
                assert(!occurs_at(s, p, true_text())) by {
                    if occurs_at(s, p, true_text()) {
                        lemma_occurs_index(s, p, true_text(), 1);
                    }
                }
            }
        },
        Json::Number(d) => {
            lemma_number_of_render(d, s, p);
        },
        Json::Str(t) => {
            assert(render(v) =~= seq!['"'] + (t + seq!['"']));
            lemma_occurs_split(s, p, seq!['"'], t + seq!['"']);
            lemma_body_of_plain(s, p + 1, t);
        },
        Json::Array(items) => {
            let inner = render_items(items) + seq![']'];
            assert(render(v) =~= seq!['['] + inner);
            assert(ws_count(s, p) == 0);
            lemma_occurs_split(s, p, seq!['['], inner);
            if items.len() == 0 {
                assert(items =~= Seq::<Json>::empty());
                lemma_occurs_index(s, p + 1, inner, 0);
                assert(ws_count(s, p + 1) == 0);
                assert(ws_count(s, e) == 0);
            } else {
                lemma_render_head(items[0]);
                if items.len() >= 2 {
                    lemma_render_items_head(items);
                }
                assert(render_items(items)[0] == render(items[0])[0]);
                lemma_occurs_index(s, p + 1, inner, 0);
                assert(ws_count(s, p + 1) == 0);
                lemma_elements_of_render(items, s, p + 1, 0);
                assert(ws_count(s, e) == 0);
            }
        },
        Json::Object(entries) => {
            let inner = render_entries(entries) + seq!['}'];
            assert(render(v) =~= seq!['{'] + inner);
            assert(ws_count(s, p) == 0);
            lemma_occurs_split(s, p, seq!['{'], inner);
            if entries.len() == 0 {
                assert(entries =~= Seq::<(Seq<char>, Json)>::empty());
                lemma_occurs_index(s, p + 1, inner, 0);
                assert(ws_count(s, p + 1) == 0);
                assert(ws_count(s, e) == 0);
            } else {
                if entries.len() >= 2 {
                    lemma_render_entries_head(entries);
                }
                assert(render_entries(entries)[0] == '"');
                lemma_occurs_index(s, p + 1, inner, 0);
                assert(ws_count(s, p + 1) == 0);
                lemma_entries_of_render(entries, s, p + 1, 0);
                assert(ws_count(s, e) == 0);
            }
        },
    }
}

proof fn lemma_elements_of_render(items: Seq<Json>, s: Seq<char>, q: int, w: int)
    requires
        items.len() > 0,
        forall|i: int| 0 <= i < items.len() ==> round_trips(#[trigger] items[i]),
        0 <= q,
        0 <= w <= 1,
        occurs_at(s, q, Seq::new(w as nat, |j: int| ' ') + render_items(items) + seq![']']),
    ensures
        elements_at(s, q) == Ok::<(nat, Seq<Json>), ParseError>(
            ((w + render_items(items).len() + 1) as nat, items),
        ),
    decreases items, 0nat,
{
    let sp = Seq::new(w as nat, |j: int| ' ');
    let first = render(items[0]);
    if items.len() == 1 {
        assert(sp + render_items(items) + seq![']'] =~= (sp + first) + seq![']']);
        lemma_occurs_split(s, q, sp + first, seq![']']);
        lemma_occurs_index(s, q + w + first.len(), seq![']'], 0);
        lemma_value_of_render(items[0], s, q, w);
        assert(seq![items[0]] =~= items);
    } else {
        let rest = items.drop_first();
        lemma_render_items_head(items);
        let tail = seq![' '] + render_items(rest) + seq![']'];
        assert(sp + render_items(items) + seq![']'] =~= (sp + first) + (seq![','] + tail));
        lemma_occurs_split(s, q, sp + first, seq![','] + tail);
        lemma_occurs_split(s, q + w + first.len(), seq![','], tail);
        lemma_occurs_index(s, q + w + first.len(), seq![','] + tail, 0);
        lemma_value_of_render(items[0], s, q, w);
        assert(Seq::new(1, |j: int| ' ') =~= seq![' ']);
        lemma_elements_of_render(rest, s, q + w + first.len() + 1, 1);
        assert(seq![items[0]] + rest =~= items);
    }
}

/// One rendered entry `"key": value` at `a`, followed by a comma or a closing brace.
proof fn lemma_entry_of_render(e: (Seq<char>, Json), s: Seq<char>, a: int, after: Seq<char>)
    requires
        plain_text(e.0),
        round_trips(e.1),
        0 <= a,
        after.len() > 0,
        after[0] == ',' || after[0] == '}',
        occurs_at(s, a, entry_text(e) + after),
    ensures
        ws_count(s, a) == 0,
        string_at(s, a) == Ok::<(nat, Json), ParseError>(((e.0.len() + 2) as nat, Json::Str(e.0))),
        ws_count(s, a + e.0.len() + 2) == 0,
        s[a + e.0.len() + 2] == ':',
        value_at(s, a + e.0.len() + 3) == Ok::<(nat, Json), ParseError>(
            ((1 + render(e.1).len()) as nat, e.1),
        ),
        s[a + entry_text(e).len()] == after[0],
    decreases e.1, 2nat,
{
    let key_text = seq!['"'] + e.0 + seq!['"'];
    let val = seq![' '] + render(e.1);
    assert(entry_text(e) + after =~= key_text + (seq![':'] + (val + after)));
    lemma_occurs_split(s, a, key_text, seq![':'] + (val + after));
    let b = a + key_text.len();
    lemma_occurs_split(s, b, seq![':'], val + after);
    lemma_occurs_split(s, b + 1, val, after);
    lemma_occurs_index(s, a, key_text, 0);
    assert(ws_count(s, a) == 0);
    assert(key_text =~= seq!['"'] + (e.0 + seq!['"']));
    lemma_occurs_split(s, a, seq!['"'], e.0 + seq!['"']);
    lemma_body_of_plain(s, a + 1, e.0);
    lemma_occurs_index(s, b, seq![':'], 0);
    assert(ws_count(s, b) == 0);
    lemma_occurs_index(s, b + 1 + val.len(), after, 0);
    assert(Seq::new(1, |j: int| ' ') =~= seq![' ']);
    lemma_value_of_render(e.1, s, b + 1, 1);
}

#[verifier::spinoff_prover]
#[verifier::rlimit(100)]
proof fn lemma_entries_of_render(entries: Seq<(Seq<char>, Json)>, s: Seq<char>, q: int, w: int)
    requires
        entries.len() > 0,
        forall|i: int|
            0 <= i < entries.len() ==> plain_text(#[trigger] entries[i].0) && round_trips(
                entries[i].1,
            ),
        0 <= q,
        0 <= w <= 1,
        occurs_at(s, q, Seq::new(w as nat, |j: int| ' ') + render_entries(entries) + seq!['}']),
    ensures
        entries_at(s, q) == Ok::<(nat, Seq<(Seq<char>, Json)>), ParseError>(
            ((w + render_entries(entries).len() + 1) as nat, entries),
        ),
    decreases entries, 0nat,
{
    let sp = Seq::new(w as nat, |j: int| ' ');
    let e0 = entries[0];
    assert(plain_text(e0.0) && round_trips(e0.1));
    let first = entry_text(e0);
    let tail: Seq<char> = if entries.len() == 1 {
        Seq::empty()
    } else {
        seq![' '] + render_entries(entries.drop_first())
    };
    let after: Seq<char> = if entries.len() == 1 {
        seq!['}']
    } else {
        seq![','] + tail + seq!['}']
    };
    if entries.len() == 1 {
        assert(render_entries(entries) == first);
    } else {
        lemma_render_entries_head(entries);
    }
    assert(sp + render_entries(entries) + seq!['}'] =~= sp + (first + after));
    lemma_occurs_split(s, q, sp, first + after);
    let a = q + w;
    lemma_entry_of_render(e0, s, a, after);
    if w == 1 {
        lemma_occurs_index(s, q, sp, 0);
    }
    assert(ws_count(s, q) == w);
    let c = a + first.len();
    if entries.len() == 1 {
        assert(seq![e0] =~= entries);
    } else {
        let rest = entries.drop_first();
        lemma_occurs_split(s, a, first, after);
        assert(after =~= seq![','] + (Seq::new(1, |j: int| ' ') + render_entries(rest) + seq!['}']));
        lemma_occurs_split(s, c, seq![','], Seq::new(1, |j: int| ' ') + render_entries(rest) + seq!['}']);
        lemma_entries_of_render(rest, s, c + 1, 1);
        assert(seq![e0] + rest =~= entries);
    }
}

/// Rendering a value whose numbers are valid decimals and whose strings and keys hold no
/// quote or backslash, then parsing the text, gives back the same value, with arrays and
/// objects in the same order, and consumes the whole text.
pub proof fn render_then_parse(v: Json)
    requires
        round_trips(v),
    ensures
        value_at(render(v), 0) == Ok::<(nat, Json), ParseError>((render(v).len(), v)),
{
    let s = render(v);
    assert(s.subrange(0, s.len() as int) =~= s);
    assert(Seq::new(0, |j: int| ' ') + s =~= s);
    lemma_value_of_render(v, s, 0, 0);
}

/// Every number that the grammar reads is a valid decimal: digits in `0..=9`, at least one
/// integer digit, and an exponent sign only with exponent digits.
pub proof fn number_reads_valid_decimal(s: Seq<char>, p: int)
    requires
        number_at(s, p) is Ok,
    ensures
        number_at(s, p)->Ok_0.1 matches Json::Number(d) && decimal_valid(d),
{
    let q = if 0 <= p < s.len() && s[p] == '-' {
        p + 1
    } else {
        p
    };
    lemma_digit_count_bound(s, q);
    let i = q + digit_count(s, q);
    lemma_digit_count_bound(s, i + 1);
    let f = i + fraction_len(s, i);
    let k = exponent_digits_at(s, f);
    lemma_digit_count_bound(s, k);
}

} // verus!
