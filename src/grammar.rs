//! The grammar, as spec functions over the input characters. Each rule reads the input
//! from a position and yields either the number of characters it consumed and what it
//! recognised, or the error that stops it.
use crate::value::{Decimal, ErrorKind, Json, ParseError};
use vstd::prelude::*;

verus! {

pub open spec fn fail<T>(kind: ErrorKind, p: int) -> Result<T, ParseError> {
    Err(ParseError { kind, pos: p as usize })
}

/// Whitespace between tokens: space, tab, line feed, carriage return.
pub open spec fn is_ws(c: char) -> bool {
    c == ' ' || c == '\t' || c == '\n' || c == '\r'
}

pub open spec fn is_digit(c: char) -> bool {
    '0' <= c <= '9'
}

/// How many whitespace characters start at `p`.
pub open spec fn ws_count(s: Seq<char>, p: int) -> nat
    decreases s.len() - p,
{
    if 0 <= p < s.len() && is_ws(s[p]) {
        1 + ws_count(s, p + 1)
    } else {
        0
    }
}

pub proof fn lemma_ws_count(s: Seq<char>, p: int)
    ensures
        ws_count(s, p) > 0 ==> 0 <= p < s.len(),
        0 <= p <= s.len() ==> p + ws_count(s, p) <= s.len(),
        forall|i: int| p <= i < p + ws_count(s, p) ==> is_ws(#[trigger] s[i]),
        0 <= p + ws_count(s, p) < s.len() ==> !is_ws(s[p + ws_count(s, p)]),
    decreases s.len() - p,
{
    if 0 <= p < s.len() && is_ws(s[p]) {
        lemma_ws_count(s, p + 1);
    }
}

/// How many decimal digits start at `p`.
pub open spec fn digit_count(s: Seq<char>, p: int) -> nat
    decreases s.len() - p,
{
    if 0 <= p < s.len() && is_digit(s[p]) {
        1 + digit_count(s, p + 1)
    } else {
        0
    }
}

/// `t` stands in `s` at `p`.
pub open spec fn occurs_at(s: Seq<char>, p: int, t: Seq<char>) -> bool {
    0 <= p && p + t.len() <= s.len() && s.subrange(p, p + t.len()) == t
}

pub open spec fn null_text() -> Seq<char> {
    seq!['n', 'u', 'l', 'l']
}

pub open spec fn true_text() -> Seq<char> {
    seq!['t', 'r', 'u', 'e']
}

pub open spec fn false_text() -> Seq<char> {
    seq!['f', 'a', 'l', 's', 'e']
}

/// The literal `null`.
pub open spec fn null_at(s: Seq<char>, p: int) -> Result<(nat, Json), ParseError> {
    if occurs_at(s, p, null_text()) {
        Ok((4, Json::Null))
    } else {
        fail(ErrorKind::Literal, p)
    }
}

/// The literals `true` and `false`.
pub open spec fn bool_at(s: Seq<char>, p: int) -> Result<(nat, Json), ParseError> {
    if occurs_at(s, p, true_text()) {
        Ok((4, Json::Bool(true)))
    } else if occurs_at(s, p, false_text()) {
        Ok((5, Json::Bool(false)))
    } else {
        fail(ErrorKind::Literal, p)
    }
}

/// The value of a decimal digit character.
pub open spec fn digit_value(c: char) -> u8 {
    (c as u32 - '0' as u32) as u8
}

pub open spec fn digit_values(t: Seq<char>) -> Seq<u8> {
    t.map_values(|c: char| digit_value(c))
}

/// Where the digits of an exponent whose `e` stands at `f` begin: after its sign, if any.
pub open spec fn exponent_digits_at(s: Seq<char>, f: int) -> int {
    if f + 1 < s.len() && (s[f + 1] == '+' || s[f + 1] == '-') {
        f + 2
    } else {
        f + 1
    }
}

/// The optional fraction `.digits` at `i`: its length, zero where there is none.
pub open spec fn fraction_len(s: Seq<char>, i: int) -> nat {
    if 0 <= i < s.len() && s[i] == '.' && digit_count(s, i + 1) > 0 {
        1 + digit_count(s, i + 1)
    } else {
        0
    }
}

/// The optional exponent `(e|E)[+|-]digits` at `f`: its length, zero where there is none.
pub open spec fn exponent_len(s: Seq<char>, f: int) -> nat {
    let k = exponent_digits_at(s, f);
    if 0 <= f < s.len() && (s[f] == 'e' || s[f] == 'E') && digit_count(s, k) > 0 {
        (k - f + digit_count(s, k)) as nat
    } else {
        0
    }
}

/// The longest prefix at `p` of the form `[-]digits[.digits][(e|E)[+|-]digits]`, with
/// its digits as a `Decimal`.
pub open spec fn number_at(s: Seq<char>, p: int) -> Result<(nat, Json), ParseError> {
    let q = if 0 <= p < s.len() && s[p] == '-' {
        p + 1
    } else {
        p
    };
    let i = q + digit_count(s, q);
    let f = i + fraction_len(s, i);
    let e = f + exponent_len(s, f);
    let k = exponent_digits_at(s, f);
    if i == q {
        fail(ErrorKind::Number, p)
    } else {
        Ok(
            (
                (e - p) as nat,
                Json::Number(
                    Decimal {
                        negative: q == p + 1,
                        integer: digit_values(s.subrange(q, i)),
                        fraction: if f > i {
                            digit_values(s.subrange(i + 1, f))
                        } else {
                            Seq::empty()
                        },
                        exp_negative: e > f && s[f + 1] == '-',
                        exponent: if e > f {
                            digit_values(s.subrange(k, e))
                        } else {
                            Seq::empty()
                        },
                    },
                ),
            ),
        )
    }
}

/// The value of a hexadecimal digit, either case; -1 for any other character.
pub open spec fn hex_value(c: char) -> int {
    if '0' <= c <= '9' {
        c as int - '0' as int
    } else if 'a' <= c <= 'f' {
        c as int - 'a' as int + 10
    } else if 'A' <= c <= 'F' {
        c as int - 'A' as int + 10
    } else {
        -1
    }
}

/// Four hexadecimal digits stand at `i`.
pub open spec fn hex4_at(s: Seq<char>, i: int) -> bool {
    0 <= i && i + 4 <= s.len() && hex_value(s[i]) >= 0 && hex_value(s[i + 1]) >= 0
        && hex_value(s[i + 2]) >= 0 && hex_value(s[i + 3]) >= 0
}

pub open spec fn hex4_value(s: Seq<char>, i: int) -> int {
    hex_value(s[i]) * 4096 + hex_value(s[i + 1]) * 256 + hex_value(s[i + 2]) * 16 + hex_value(
        s[i + 3],
    )
}

/// The character whose Unicode scalar value is `cp`.
pub open spec fn char_of(cp: int) -> char {
    (cp as u32) as char
}

/// A `\uXXXX` escape whose backslash stands at `p`; a high surrogate must be followed by
/// a `\uXXXX` low surrogate, and the two make one character.
#[verifier::opaque]
pub open spec fn unicode_escape_at(s: Seq<char>, p: int) -> Result<(nat, char), ParseError> {
    if !hex4_at(s, p + 2) {
        fail(ErrorKind::InvalidEscape, p)
    } else {
        let v = hex4_value(s, p + 2);
        if 0xD800 <= v < 0xDC00 {
            if p + 8 <= s.len() && s[p + 6] == '\\' && s[p + 7] == 'u' && hex4_at(s, p + 8)
                && 0xDC00 <= hex4_value(s, p + 8) < 0xE000 {
                Ok((12, char_of(0x10000 + (v - 0xD800) * 0x400 + (hex4_value(s, p + 8) - 0xDC00))))
            } else {
                fail(ErrorKind::InvalidEscape, p)
            }
        } else if 0xDC00 <= v < 0xE000 {
            fail(ErrorKind::InvalidEscape, p)
        } else {
            Ok((6, char_of(v)))
        }
    }
}

/// The character that a one-letter escape `\c` stands for.
pub open spec fn simple_escape(c: char) -> Option<char> {
    if c == '"' {
        Some('"')
    } else if c == '\\' {
        Some('\\')
    } else if c == '/' {
        Some('/')
    } else if c == 'b' {
        Some('\x08')
    } else if c == 'f' {
        Some('\x0c')
    } else if c == 'n' {
        Some('\n')
    } else if c == 'r' {
        Some('\r')
    } else if c == 't' {
        Some('\t')
    } else {
        None
    }
}

/// An escape sequence whose backslash stands at `p`: its length and the character it
/// decodes to.
#[verifier::opaque]
pub open spec fn escape_at(s: Seq<char>, p: int) -> Result<(nat, char), ParseError> {
    if p + 1 >= s.len() {
        fail(ErrorKind::InvalidEscape, p)
    } else if s[p + 1] == 'u' {
        unicode_escape_at(s, p)
    } else {
        match simple_escape(s[p + 1]) {
            Some(c) => Ok((2, c)),
            None => fail(ErrorKind::InvalidEscape, p),
        }
    }
}

/// The body of a string from `p` on, up to and including the closing quote: its length
/// and the decoded characters.
pub open spec fn string_body_at(s: Seq<char>, p: int) -> Result<(nat, Seq<char>), ParseError>
    decreases s.len() - p,
{
    if p < 0 || p >= s.len() {
        fail(ErrorKind::UnterminatedString, s.len() as int)
    } else if s[p] == '"' {
        Ok((1, Seq::empty()))
    } else if s[p] == '\\' {
        match escape_at(s, p) {
            Err(e) => Err(e),
            Ok((n, c)) => if 0 < n && p + n <= s.len() {
                match string_body_at(s, p + n) {
                    Ok((m, t)) => Ok((n + m, seq![c] + t)),
                    Err(e) => Err(e),
                }
            } else {
                fail(ErrorKind::InvalidEscape, p)
            },
        }
    } else {
        match string_body_at(s, p + 1) {
            Ok((m, t)) => Ok((1 + m, seq![s[p]] + t)),
            Err(e) => Err(e),
        }
    }
}

/// A string: `"` then its body.
pub open spec fn string_at(s: Seq<char>, p: int) -> Result<(nat, Json), ParseError> {
    if 0 <= p < s.len() && s[p] == '"' {
        match string_body_at(s, p + 1) {
            Ok((m, t)) => Ok((1 + m, Json::Str(t))),
            Err(e) => Err(e),
        }
    } else {
        fail(ErrorKind::Literal, p)
    }
}

/// A value with the whitespace around it.
pub open spec fn value_at(s: Seq<char>, p: int) -> Result<(nat, Json), ParseError>
    decreases s.len() - p, 3nat
    via value_at_decreases
{
    let w = ws_count(s, p);
    match item_at(s, p + w) {
        Ok((n, v)) => Ok((w + n + ws_count(s, p + w + n), v)),
        Err(e) => Err(e),
    }
}

/// A value, chosen by its first character: `n` null, `t` or `f` a boolean, `-` or a
/// digit a number, `"` a string, `[` an array, `{` an object.
pub open spec fn item_at(s: Seq<char>, p: int) -> Result<(nat, Json), ParseError>
    decreases s.len() - p, 2nat,
{
    if p < 0 || p >= s.len() {
        fail(ErrorKind::NoValue, p)
    } else {
        let c = s[p];
        if c == 'n' {
            null_at(s, p)
        } else if c == 't' || c == 'f' {
            bool_at(s, p)
        } else if c == '-' || is_digit(c) {
            number_at(s, p)
        } else if c == '"' {
            string_at(s, p)
        } else if c == '[' {
            array_at(s, p)
        } else if c == '{' {
            object_at(s, p)
        } else {
            fail(ErrorKind::NoValue, p)
        }
    }
}

/// Elements of an array from `p` on, after `[` or after a comma, up to and including the
/// closing `]`.
pub open spec fn elements_at(s: Seq<char>, p: int) -> Result<(nat, Seq<Json>), ParseError>
    decreases s.len() - p, 4nat,
{
    match value_at(s, p) {
        Err(e) => Err(e),
        Ok((n, v)) => {
            let c = p + n;
            if 0 <= c < s.len() && s[c] == ']' {
                Ok((n + 1, seq![v]))
            } else if 0 <= c < s.len() && s[c] == ',' {
                match elements_at(s, c + 1) {
                    Ok((m, t)) => Ok((n + 1 + m, seq![v] + t)),
                    Err(e) => Err(e),
                }
            } else {
                fail(ErrorKind::Collection, c)
            }
        },
    }
}

/// An array: whitespace, `[`, whitespace, then `]` or its elements, then whitespace.
pub open spec fn array_at(s: Seq<char>, p: int) -> Result<(nat, Json), ParseError>
    decreases s.len() - p, 1nat
    via array_at_decreases
{
    let a = p + ws_count(s, p);
    if 0 <= a < s.len() && s[a] == '[' {
        let b = a + 1 + ws_count(s, a + 1);
        if 0 <= b < s.len() && s[b] == ']' {
            Ok(((b + 1 - p + ws_count(s, b + 1)) as nat, Json::Array(Seq::empty())))
        } else {
            match elements_at(s, b) {
                Ok((m, t)) => Ok(((b + m - p + ws_count(s, b + m)) as nat, Json::Array(t))),
                Err(e) => Err(e),
            }
        }
    } else {
        fail(ErrorKind::Literal, a)
    }
}

/// Entries of an object from `p` on, after `{` or after a comma, up to and including the
/// closing `}`; each is a string, `:` and a value, with whitespace around each part.
pub open spec fn entries_at(s: Seq<char>, p: int) -> Result<(nat, Seq<(Seq<char>, Json)>), ParseError>
    decreases s.len() - p, 4nat,
{
    let a = p + ws_count(s, p);
    match string_at(s, a) {
        Err(e) => Err(ParseError { kind: ErrorKind::Collection, pos: e.pos }),
        Ok((kn, key)) => {
            let b = a + kn + ws_count(s, a + kn);
            if 0 <= b < s.len() && s[b] == ':' {
                match value_at(s, b + 1) {
                    Err(e) => Err(e),
                    Ok((n, v)) => {
                        let c = b + 1 + n;
                        let k = match key {
                            Json::Str(t) => t,
                            _ => Seq::empty(),
                        };
                        if 0 <= c < s.len() && s[c] == '}' {
                            Ok(((c + 1 - p) as nat, seq![(k, v)]))
                        } else if 0 <= c < s.len() && s[c] == ',' {
                            match entries_at(s, c + 1) {
                                Ok((m, t)) => Ok(((c + 1 + m - p) as nat, seq![(k, v)] + t)),
                                Err(e) => Err(e),
                            }
                        } else {
                            fail(ErrorKind::Collection, c)
                        }
                    },
                }
            } else {
                fail(ErrorKind::Collection, b)
            }
        },
    }
}

/// An object: whitespace, `{`, whitespace, then `}` or its entries, then whitespace.
pub open spec fn object_at(s: Seq<char>, p: int) -> Result<(nat, Json), ParseError>
    decreases s.len() - p, 1nat
    via object_at_decreases
{
    let a = p + ws_count(s, p);
    if 0 <= a < s.len() && s[a] == '{' {
        let b = a + 1 + ws_count(s, a + 1);
        if 0 <= b < s.len() && s[b] == '}' {
            Ok(((b + 1 - p + ws_count(s, b + 1)) as nat, Json::Object(Seq::empty())))
        } else {
            match entries_at(s, b) {
                Ok((m, t)) => Ok(((b + m - p + ws_count(s, b + m)) as nat, Json::Object(t))),
                Err(e) => Err(e),
            }
        }
    } else {
        fail(ErrorKind::Literal, a)
    }
}

#[via_fn]
proof fn value_at_decreases(s: Seq<char>, p: int) {
    lemma_ws_count(s, p);
}

#[via_fn]
proof fn array_at_decreases(s: Seq<char>, p: int) {
    lemma_ws_count(s, p);
    lemma_ws_count(s, p + ws_count(s, p) + 1);
}

#[via_fn]
proof fn object_at_decreases(s: Seq<char>, p: int) {
    lemma_ws_count(s, p);
    lemma_ws_count(s, p + ws_count(s, p) + 1);
}

} // verus!
