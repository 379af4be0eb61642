//! The parser: each rule reads a character buffer from a position and returns the position
//! after what it consumed together with the value, or the error; the public functions take
//! text and return the text that is left.
use crate::grammar::{
    array_at, bool_at, char_of, digit_count, digit_values, elements_at, entries_at, escape_at,
    exponent_digits_at, exponent_len, false_text, fraction_len, hex4_at, hex4_value, hex_value,
    is_digit, is_ws, item_at, null_at, null_text, number_at, object_at, occurs_at, string_at,
    string_body_at, true_text, unicode_escape_at, value_at, ws_count,
};
use crate::chars::{chars_of, string_from_chars};
pub use crate::value::{Decimal, ErrorKind, Json, JSONObject, Numeral, ParseError};
use vstd::prelude::*;
use vstd::string::StrSliceExecFns;

verus! {

broadcast use vstd::std_specs::vec::group_vec_axioms;

/// An exec result at `p` (end position and value) is the grammar's result `g` (length and model).
pub open spec fn agrees(
    r: Result<(usize, JSONObject), ParseError>,
    p: int,
    g: Result<(nat, Json), ParseError>,
) -> bool {
    match (r, g) {
        (Ok((e, v)), Ok((n, j))) => e == p + n && v@ == j,
        (Err(x), Err(y)) => x == y,
        _ => false,
    }
}

/// On success the end position lies after `p` and within the input.
pub open spec fn ends_within(r: Result<(usize, JSONObject), ParseError>, p: int, len: int) -> bool {
    match r {
        Ok((e, _)) => p < e <= len,
        Err(_) => true,
    }
}

/// What a public parse returns for input `s`, given the grammar's result `g`: the text after
/// the consumed prefix and the value, or the same error.
pub open spec fn parsed(
    r: Result<(&str, JSONObject), ParseError>,
    s: Seq<char>,
    g: Result<(nat, Json), ParseError>,
) -> bool {
    match (r, g) {
        (Ok((rest, v)), Ok((n, j))) => n <= s.len() && rest@ == s.skip(n as int) && v@ == j,
        (Err(x), Err(y)) => x == y,
        _ => false,
    }
}

fn is_ws_char(c: char) -> (r: bool)
    ensures
        r == is_ws(c),
{
    c == ' ' || c == '\t' || c == '\n' || c == '\r'
}

fn skip_ws(s: &Vec<char>, p: usize) -> (r: usize)
    requires
        p <= s.len(),
    ensures
        r == p + ws_count(s@, p as int),
        r <= s.len(),
{
    let mut i: usize = p;
    while i < s.len() && is_ws_char(s[i])
        invariant
            p <= i <= s.len(),
            ws_count(s@, p as int) == (i - p) + ws_count(s@, i as int),
        decreases s.len() - i,
    {
        i = i + 1;
    }
    i
}


/// `t` stands in `s` at `p`.
fn occurs(s: &Vec<char>, p: usize, t: &Vec<char>) -> (r: bool)
    requires
        p <= s.len(),
    ensures
        r == occurs_at(s@, p as int, t@),
{
    if t.len() > s.len() - p {
        return false;
    }
    let mut i: usize = 0;
    while i < t.len()
        invariant
            i <= t.len(),
            p + t.len() <= s.len(),
            forall|j: int| 0 <= j < i ==> s@[p + j] == t@[j],
        decreases t.len() - i,
    {
        if s[p + i] != t[i] {
            proof {
                if occurs_at(s@, p as int, t@) {
                    assert(s@.subrange(p as int, p + t.len())[i as int] == t@[i as int]);
                }
            }
            return false;
        }
        i = i + 1;
    }
    assert(s@.subrange(p as int, p + t.len()) =~= t@);
    true
}

fn null_exec(s: &Vec<char>, p: usize) -> (r: Result<(usize, JSONObject), ParseError>)
    requires
        p <= s.len(),
    ensures
        agrees(r, p as int, null_at(s@, p as int)),
        ends_within(r, p as int, s.len() as int),
{
    let t = vec!['n', 'u', 'l', 'l'];
    assert(t@ == null_text());
    if occurs(s, p, &t) {
        Ok((p + 4, JSONObject::Null))
    } else {
        Err(ParseError { kind: ErrorKind::Literal, pos: p })
    }
}

fn bool_exec(s: &Vec<char>, p: usize) -> (r: Result<(usize, JSONObject), ParseError>)
    requires
        p <= s.len(),
    ensures
        agrees(r, p as int, bool_at(s@, p as int)),
        ends_within(r, p as int, s.len() as int),
{
    let t = vec!['t', 'r', 'u', 'e'];
    let f = vec!['f', 'a', 'l', 's', 'e'];
    assert(t@ == true_text());
    assert(f@ == false_text());
    if occurs(s, p, &t) {
        Ok((p + 4, JSONObject::Bool(true)))
    } else if occurs(s, p, &f) {
        Ok((p + 5, JSONObject::Bool(false)))
    } else {
        Err(ParseError { kind: ErrorKind::Literal, pos: p })
    }
}

fn is_digit_char(c: char) -> (r: bool)
    ensures
        r == is_digit(c),
{
    '0' <= c && c <= '9'
}

/// The end of the run of digits that starts at `p`.
fn digits_end(s: &Vec<char>, p: usize) -> (r: usize)
    requires
        p <= s.len(),
    ensures
        r == p + digit_count(s@, p as int),
        r <= s.len(),
        forall|j: int| p <= j < r ==> is_digit(#[trigger] s@[j]),
{
    let mut i: usize = p;
    while i < s.len() && is_digit_char(s[i])
        invariant
            p <= i <= s.len(),
            digit_count(s@, p as int) == (i - p) + digit_count(s@, i as int),
            forall|j: int| p <= j < i ==> is_digit(#[trigger] s@[j]),
        decreases s.len() - i,
    {
        i = i + 1;
    }
    i
}

/// The digit values of `s[a..b]`, which holds digits only.
fn digit_vec(s: &Vec<char>, a: usize, b: usize) -> (r: Vec<u8>)
    requires
        a <= b <= s.len(),
        forall|j: int| a <= j < b ==> is_digit(#[trigger] s@[j]),
    ensures
        r@ == digit_values(s@.subrange(a as int, b as int)),
{
    let mut r: Vec<u8> = Vec::new();
    let mut i: usize = a;
    while i < b
        invariant
            a <= i <= b <= s.len(),
            forall|j: int| a <= j < b ==> is_digit(#[trigger] s@[j]),
            r@ == digit_values(s@.subrange(a as int, i as int)),
        decreases b - i,
    {
        let c = s[i];
        assert(is_digit(s@[i as int]));
        let d = (c as u32 - '0' as u32) as u8;
        r.push(d);
        assert(s@.subrange(a as int, i + 1) =~= s@.subrange(a as int, i as int).push(c));
        i = i + 1;
        assert(r@ =~= digit_values(s@.subrange(a as int, i as int)));
    }
    r
}

fn number_exec(s: &Vec<char>, p: usize) -> (r: Result<(usize, JSONObject), ParseError>)
    requires
        p <= s.len(),
    ensures
        agrees(r, p as int, number_at(s@, p as int)),
        ends_within(r, p as int, s.len() as int),
{
    let q = if p < s.len() && s[p] == '-' {
        p + 1
    } else {
        p
    };
    let i = digits_end(s, q);
    if i == q {
        return Err(ParseError { kind: ErrorKind::Number, pos: p });
    }
    let f = if i < s.len() && s[i] == '.' {
        let d = digits_end(s, i + 1);
        if d > i + 1 {
            d
        } else {
            i
        }
    } else {
        i
    };
    assert(f == i + fraction_len(s@, i as int));
    let mut e = f;
    let mut k = f;
    let mut exp_negative = false;
    if f < s.len() && (s[f] == 'e' || s[f] == 'E') {
        k = if f + 1 < s.len() && (s[f + 1] == '+' || s[f + 1] == '-') {
            f + 2
        } else {
            f + 1
        };
        let d = digits_end(s, k);
        if d > k {
            e = d;
            exp_negative = s[f + 1] == '-';
        }
    }
    assert(k == exponent_digits_at(s@, f as int) || e == f);
    assert(e == f + exponent_len(s@, f as int));
    let integer = digit_vec(s, q, i);
    let fraction = if f > i {
        digit_vec(s, i + 1, f)
    } else {
        Vec::new()
    };
    let exponent = if e > f {
        digit_vec(s, k, e)
    } else {
        Vec::new()
    };
    let n = Numeral { negative: q == p + 1, integer, fraction, exp_negative, exponent };
    let ghost g = number_at(s@, p as int);
    assert(g is Ok);
    assert(JSONObject::Number(n)@ == g->Ok_0.1);
    Ok((e, JSONObject::Number(n)))
}

/// Relies on `char::from_u32`: `Some` exactly when `cp` is a Unicode scalar value (below
/// 0x110000 and outside the surrogates 0xD800..0xE000), holding the char with that value.
#[verifier::external_body]
fn char_from_u32(cp: u32) -> (r: Option<char>)
    ensures
        r == (if cp < 0xD800 || (0xE000 <= cp && cp < 0x110000) {
            Some(char_of(cp as int))
        } else {
            None
        }),
{
    char::from_u32(cp)
}

fn hex_digit(c: char) -> (r: i32)
    ensures
        r == hex_value(c),
{
    if '0' <= c && c <= '9' {
        (c as u32 - '0' as u32) as i32
    } else if 'a' <= c && c <= 'f' {
        (c as u32 - 'a' as u32 + 10) as i32
    } else if 'A' <= c && c <= 'F' {
        (c as u32 - 'A' as u32 + 10) as i32
    } else {
        -1
    }
}

/// The value of the four hex digits at `i`, if four stand there.
fn hex4(s: &Vec<char>, i: usize) -> (r: Option<u32>)
    requires
        i <= s.len(),
    ensures
        r is Some <==> hex4_at(s@, i as int),
        r is Some ==> r->0 == hex4_value(s@, i as int),
{
    if s.len() - i < 4 {
        return None;
    }
    let a = hex_digit(s[i]);
    let b = hex_digit(s[i + 1]);
    let c = hex_digit(s[i + 2]);
    let d = hex_digit(s[i + 3]);
    if a < 0 || b < 0 || c < 0 || d < 0 {
        return None;
    }
    Some((a * 4096 + b * 256 + c * 16 + d) as u32)
}

/// The escape outcome `r` is the grammar's outcome `g`.
pub open spec fn escape_agrees(
    r: Result<(usize, char), ParseError>,
    g: Result<(nat, char), ParseError>,
) -> bool {
    match (r, g) {
        (Ok((n, c)), Ok((m, d))) => n == m && c == d,
        (Err(x), Err(y)) => x == y,
        _ => false,
    }
}

fn unicode_escape_exec(s: &Vec<char>, p: usize) -> (r: Result<(usize, char), ParseError>)
    requires
        p + 2 <= s.len(),
    ensures
        escape_agrees(r, unicode_escape_at(s@, p as int)),
        r is Ok ==> 0 < r->Ok_0.0 && p + r->Ok_0.0 <= s.len(),
{
    reveal(unicode_escape_at);
    let err = ParseError { kind: ErrorKind::InvalidEscape, pos: p };
    let v = match hex4(s, p + 2) {
        Some(v) => v,
        None => return Err(err),
    };
    if 0xD800 <= v && v < 0xDC00 {
        if s.len() - p >= 8 && s[p + 6] == '\\' && s[p + 7] == 'u' {
            match hex4(s, p + 8) {
                Some(w) => {
                    if 0xDC00 <= w && w < 0xE000 {
                        let cp = 0x10000 + (v - 0xD800) * 0x400 + (w - 0xDC00);
                        match char_from_u32(cp) {
                            Some(c) => Ok((12, c)),
                            None => Err(err),
                        }
                    } else {
                        Err(err)
                    }
                },
                None => Err(err),
            }
        } else {
            Err(err)
        }
    } else if 0xDC00 <= v && v < 0xE000 {
        Err(err)
    } else {
        match char_from_u32(v) {
            Some(c) => Ok((6, c)),
            None => Err(err),
        }
    }
}

fn escape_exec(s: &Vec<char>, p: usize) -> (r: Result<(usize, char), ParseError>)
    requires
        p < s.len(),
    ensures
        escape_agrees(r, escape_at(s@, p as int)),
        r is Ok ==> 0 < r->Ok_0.0 && p + r->Ok_0.0 <= s.len(),
{
    reveal(escape_at);
    let err = ParseError { kind: ErrorKind::InvalidEscape, pos: p };
    if p + 1 >= s.len() {
        return Err(err);
    }
    let c = s[p + 1];
    if c == 'u' {
        return unicode_escape_exec(s, p);
    }
    let d = if c == '"' {
        '"'
    } else if c == '\\' {
        '\\'
    } else if c == '/' {
        '/'
    } else if c == 'b' {
        '\x08'
    } else if c == 'f' {
        '\x0c'
    } else if c == 'n' {
        '\n'
    } else if c == 'r' {
        '\r'
    } else if c == 't' {
        '\t'
    } else {
        return Err(err);
    };
    Ok((2, d))
}

/// `g` with `k` more characters consumed and `acc` in front of what it decoded.
pub open spec fn after_prefix<T>(acc: Seq<T>, k: int, g: Result<(nat, Seq<T>), ParseError>) -> Result<
    (nat, Seq<T>),
    ParseError,
> {
    match g {
        Ok((m, t)) => Ok(((k + m) as nat, acc + t)),
        Err(e) => Err(e),
    }
}

proof fn lemma_after_prefix_twice<T>(
    a: Seq<T>,
    b: Seq<T>,
    k: int,
    l: int,
    g: Result<(nat, Seq<T>), ParseError>,
)
    requires
        k >= 0,
        l >= 0,
    ensures
        after_prefix(a, k, after_prefix(b, l, g)) == after_prefix(a + b, k + l, g),
{
    match g {
        Ok((m, t)) => {
            assert(a + (b + t) =~= (a + b) + t);
        },
        Err(_) => {},
    }
}

/// A string at `p`: the position after its closing quote and its decoded text.
fn string_text(s: &Vec<char>, p: usize) -> (r: Result<(usize, String), ParseError>)
    requires
        p <= s.len(),
    ensures
        match (r, string_at(s@, p as int)) {
            (Ok((e, t)), Ok((n, j))) => e == p + n && j == Json::Str(t@),
            (Err(x), Err(y)) => x == y,
            _ => false,
        },
        r is Ok ==> p < r->Ok_0.0 <= s.len(),
{
    if !(p < s.len() && s[p] == '"') {
        return Err(ParseError { kind: ErrorKind::Literal, pos: p });
    }
    let mut out: Vec<char> = Vec::new();
    let mut i: usize = p + 1;
    loop
        invariant
            p + 1 <= i <= s.len(),
            s@[p as int] == '"',
            string_body_at(s@, p + 1) == after_prefix(out@, i - (p + 1), string_body_at(s@, i as int)),
        decreases s.len() - i,
    {
        if i >= s.len() {
            assert(string_body_at(s@, i as int) == Err::<(nat, Seq<char>), ParseError>(
                ParseError { kind: ErrorKind::UnterminatedString, pos: s.len() },
            ));
            return Err(ParseError { kind: ErrorKind::UnterminatedString, pos: s.len() });
        }
        let c = s[i];
        if c == '"' {
            assert(string_body_at(s@, i as int) == Ok::<(nat, Seq<char>), ParseError>(
                (1, Seq::empty()),
            ));
            assert(out@ + Seq::<char>::empty() =~= out@);
            assert(string_body_at(s@, p + 1) == Ok::<(nat, Seq<char>), ParseError>(
                ((i + 1 - (p + 1)) as nat, out@),
            ));
            return Ok((i + 1, string_from_chars(&out)));
        } else if c == '\\' {
            match escape_exec(s, i) {
                Err(e) => {
                    assert(string_body_at(s@, i as int) == Err::<(nat, Seq<char>), ParseError>(e));
                    return Err(e);
                },
                Ok((n, d)) => {
                    proof {
                        assert(string_body_at(s@, i as int) == after_prefix(
                            seq![d],
                            n as int,
                            string_body_at(s@, i + n),
                        ));
                        lemma_after_prefix_twice(out@, seq![d], i - (p + 1), n as int, string_body_at(s@, i + n));
                    }
                    let ghost old_out = out@;
                    out.push(d);
                    assert(out@ =~= old_out + seq![d]);
                    i = i + n;
                },
            }
        } else {
            proof {
                assert(string_body_at(s@, i as int) == after_prefix(seq![c], 1, string_body_at(s@, i + 1)));
                lemma_after_prefix_twice(out@, seq![c], i - (p + 1), 1, string_body_at(s@, i + 1));
            }
            let ghost old_out = out@;
            out.push(c);
            assert(out@ =~= old_out + seq![c]);
            i = i + 1;
        }
    }
}

fn string_exec(s: &Vec<char>, p: usize) -> (r: Result<(usize, JSONObject), ParseError>)
    requires
        p <= s.len(),
    ensures
        agrees(r, p as int, string_at(s@, p as int)),
        ends_within(r, p as int, s.len() as int),
{
    match string_text(s, p) {
        Ok((e, t)) => Ok((e, JSONObject::String(t))),
        Err(x) => Err(x),
    }
}

/// The models of a vector of values.
pub open spec fn views(v: Seq<JSONObject>) -> Seq<Json> {
    v.map_values(|x: JSONObject| x@)
}

/// The models of a vector of object entries.
pub open spec fn entry_views(v: Seq<(String, JSONObject)>) -> Seq<(Seq<char>, Json)> {
    v.map_values(|x: (String, JSONObject)| (x.0@, x.1@))
}

fn value_exec(s: &Vec<char>, p: usize) -> (r: Result<(usize, JSONObject), ParseError>)
    requires
        p <= s.len(),
    ensures
        agrees(r, p as int, value_at(s@, p as int)),
        ends_within(r, p as int, s.len() as int),
    decreases s.len() - p, 3nat,
{
    let a = skip_ws(s, p);
    match item_exec(s, a) {
        Ok((e, v)) => Ok((skip_ws(s, e), v)),
        Err(x) => Err(x),
    }
}

fn item_exec(s: &Vec<char>, p: usize) -> (r: Result<(usize, JSONObject), ParseError>)
    requires
        p <= s.len(),
    ensures
        agrees(r, p as int, item_at(s@, p as int)),
        ends_within(r, p as int, s.len() as int),
    decreases s.len() - p, 2nat,
{
    if p >= s.len() {
        return Err(ParseError { kind: ErrorKind::NoValue, pos: p });
    }
    let c = s[p];
    if c == 'n' {
        null_exec(s, p)
    } else if c == 't' || c == 'f' {
        bool_exec(s, p)
    } else if c == '-' || is_digit_char(c) {
        number_exec(s, p)
    } else if c == '"' {
        string_exec(s, p)
    } else if c == '[' {
        array_exec(s, p)
    } else if c == '{' {
        object_exec(s, p)
    } else {
        Err(ParseError { kind: ErrorKind::NoValue, pos: p })
    }
}

fn array_exec(s: &Vec<char>, p: usize) -> (r: Result<(usize, JSONObject), ParseError>)
    requires
        p <= s.len(),
    ensures
        agrees(r, p as int, array_at(s@, p as int)),
        ends_within(r, p as int, s.len() as int),
    decreases s.len() - p, 1nat,
{
    let a = skip_ws(s, p);
    if !(a < s.len() && s[a] == '[') {
        return Err(ParseError { kind: ErrorKind::Literal, pos: a });
    }
    let b = skip_ws(s, a + 1);
    if b < s.len() && s[b] == ']' {
        let e = skip_ws(s, b + 1);
        let v = JSONObject::Array(Vec::new());
        assert(v@.view_array() =~= Seq::<Json>::empty());
        return Ok((e, v));
    }
    let mut items: Vec<JSONObject> = Vec::new();
    let mut q: usize = b;
    loop
        invariant
            p <= a < b <= q <= s.len(),
            a == p + ws_count(s@, p as int),
            s@[a as int] == '[',
            b == a + 1 + ws_count(s@, a + 1),
            !(b < s.len() && s@[b as int] == ']'),
            elements_at(s@, b as int) == after_prefix(views(items@), q - b, elements_at(s@, q as int)),
        decreases s.len() - q,
    {
        match value_exec(s, q) {
            Err(x) => {
                assert(elements_at(s@, q as int) == Err::<(nat, Seq<Json>), ParseError>(x));
                return Err(x);
            },
            Ok((c, v)) => {
                let ghost vv = v@;
                if c < s.len() && s[c] == ']' {
                    assert(elements_at(s@, q as int) == Ok::<(nat, Seq<Json>), ParseError>(((c + 1 - q) as nat, seq![vv])));
                    let ghost old_items = items@;
                    items.push(v);
                    assert(views(items@) =~= views(old_items) + seq![vv]);
                    let e = skip_ws(s, c + 1);
                    let r = JSONObject::Array(items);
                    assert(r@.view_array() =~= views(items@));
                    return Ok((e, r));
                } else if c < s.len() && s[c] == ',' {
                    assert(elements_at(s@, q as int) == after_prefix(seq![vv], c + 1 - q, elements_at(s@, c + 1)));
                    proof {
                        lemma_after_prefix_twice(views(items@), seq![vv], q - b, c + 1 - q, elements_at(s@, c + 1));
                    }
                    let ghost old_items = items@;
                    items.push(v);
                    assert(views(items@) =~= views(old_items) + seq![vv]);
                    q = c + 1;
                } else {
                    let x = ParseError { kind: ErrorKind::Collection, pos: c };
                    assert(elements_at(s@, q as int) == Err::<(nat, Seq<Json>), ParseError>(x));
                    return Err(x);
                }
            },
        }
    }
}

fn object_exec(s: &Vec<char>, p: usize) -> (r: Result<(usize, JSONObject), ParseError>)
    requires
        p <= s.len(),
    ensures
        agrees(r, p as int, object_at(s@, p as int)),
        ends_within(r, p as int, s.len() as int),
    decreases s.len() - p, 1nat,
{
    let a = skip_ws(s, p);
    if !(a < s.len() && s[a] == '{') {
        return Err(ParseError { kind: ErrorKind::Literal, pos: a });
    }
    let b = skip_ws(s, a + 1);
    if b < s.len() && s[b] == '}' {
        let e = skip_ws(s, b + 1);
        let v = JSONObject::Object(Vec::new());
        assert(v@.view_object() =~= Seq::<(Seq<char>, Json)>::empty());
        return Ok((e, v));
    }
    let mut entries: Vec<(String, JSONObject)> = Vec::new();
    let mut q: usize = b;
    loop
        invariant
            p <= a < b <= q <= s.len(),
            a == p + ws_count(s@, p as int),
            s@[a as int] == '{',
            b == a + 1 + ws_count(s@, a + 1),
            !(b < s.len() && s@[b as int] == '}'),
            entries_at(s@, b as int) == after_prefix(entry_views(entries@), q - b, entries_at(s@, q as int)),
        decreases s.len() - q,
    {
        let a = skip_ws(s, q);
        let (ke, key) = match string_text(s, a) {
            Ok(x) => x,
            Err(x) => {
                let y = ParseError { kind: ErrorKind::Collection, pos: x.pos };
                assert(entries_at(s@, q as int) == Err::<(nat, Seq<(Seq<char>, Json)>), ParseError>(y));
                return Err(y);
            },
        };
        let k = skip_ws(s, ke);
        if !(k < s.len() && s[k] == ':') {
            let x = ParseError { kind: ErrorKind::Collection, pos: k };
            assert(entries_at(s@, q as int) == Err::<(nat, Seq<(Seq<char>, Json)>), ParseError>(x));
            return Err(x);
        }
        match value_exec(s, k + 1) {
            Err(x) => {
                assert(entries_at(s@, q as int) == Err::<(nat, Seq<(Seq<char>, Json)>), ParseError>(x));
                return Err(x);
            },
            Ok((c, v)) => {
                let ghost ev = (key@, v@);
                if c < s.len() && s[c] == '}' {
                    assert(entries_at(s@, q as int) == Ok::<(nat, Seq<(Seq<char>, Json)>), ParseError>(((c + 1 - q) as nat, seq![ev])));
                    let ghost old_entries = entries@;
                    entries.push((key, v));
                    assert(entry_views(entries@) =~= entry_views(old_entries) + seq![ev]);
                    let e = skip_ws(s, c + 1);
                    let r = JSONObject::Object(entries);
                    assert(r@.view_object() =~= entry_views(entries@));
                    return Ok((e, r));
                } else if c < s.len() && s[c] == ',' {
                    assert(entries_at(s@, q as int) == after_prefix(seq![ev], c + 1 - q, entries_at(s@, c + 1)));
                    proof {
                        lemma_after_prefix_twice(entry_views(entries@), seq![ev], q - b, c + 1 - q, entries_at(s@, c + 1));
                    }
                    let ghost old_entries = entries@;
                    entries.push((key, v));
                    assert(entry_views(entries@) =~= entry_views(old_entries) + seq![ev]);
                    q = c + 1;
                } else {
                    let x = ParseError { kind: ErrorKind::Collection, pos: c };
                    assert(entries_at(s@, q as int) == Err::<(nat, Seq<(Seq<char>, Json)>), ParseError>(x));
                    return Err(x);
                }
            },
        }
    }
}

/// Runs a rule from the start of `input`, and hands back the text after what it consumed.
fn run<'a>(input: &'a str, s: &Vec<char>, r: Result<(usize, JSONObject), ParseError>) -> (out:
    Result<(&'a str, JSONObject), ParseError>)
    requires
        s@ == input@,
        ends_within(r, 0, s.len() as int),
    ensures
        match (out, r) {
            (Ok((rest, v)), Ok((e, w))) => rest@ == input@.skip(e as int) && v == w,
            (Err(x), Err(y)) => x == y,
            _ => false,
        },
{
    match r {
        Ok((e, v)) => {
            let rest = input.substring_char(e, s.len());
            assert(rest@ =~= input@.skip(e as int));
            Ok((rest, v))
        },
        Err(x) => Err(x),
    }
}

/// Matches the literal `null` at the start of `input`.
pub fn parse_json_null(input: &str) -> (r: Result<(&str, JSONObject), ParseError>)
    ensures
        parsed(r, input@, null_at(input@, 0)),
{
    let s = chars_of(input);
    run(input, &s, null_exec(&s, 0))
}

/// Matches the literal `true` or `false` at the start of `input`.
pub fn parse_json_bool(input: &str) -> (r: Result<(&str, JSONObject), ParseError>)
    ensures
        parsed(r, input@, bool_at(input@, 0)),
{
    let s = chars_of(input);
    run(input, &s, bool_exec(&s, 0))
}

/// Reads the longest number at the start of `input`.
pub fn parse_json_number(input: &str) -> (r: Result<(&str, JSONObject), ParseError>)
    ensures
        parsed(r, input@, number_at(input@, 0)),
{
    let s = chars_of(input);
    run(input, &s, number_exec(&s, 0))
}

/// Reads a quoted string at the start of `input`, decoding its escapes.
pub fn parse_json_string(input: &str) -> (r: Result<(&str, JSONObject), ParseError>)
    ensures
        parsed(r, input@, string_at(input@, 0)),
{
    let s = chars_of(input);
    run(input, &s, string_exec(&s, 0))
}

/// Reads an array at the start of `input`, with the whitespace around it.
pub fn parse_json_array(input: &str) -> (r: Result<(&str, JSONObject), ParseError>)
    ensures
        parsed(r, input@, array_at(input@, 0)),
{
    let s = chars_of(input);
    run(input, &s, array_exec(&s, 0))
}

/// Reads an object at the start of `input`, with the whitespace around it.
pub fn parse_json_map(input: &str) -> (r: Result<(&str, JSONObject), ParseError>)
    ensures
        parsed(r, input@, object_at(input@, 0)),
{
    let s = chars_of(input);
    run(input, &s, object_exec(&s, 0))
}

/// Reads one value at the start of `input`, with the whitespace around it.
pub fn parse_json_value(input: &str) -> (r: Result<(&str, JSONObject), ParseError>)
    ensures
        parsed(r, input@, value_at(input@, 0)),
{
    let s = chars_of(input);
    run(input, &s, value_exec(&s, 0))
}

} // verus!
