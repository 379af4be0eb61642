//! The value tree, its mathematical model, and parse errors.
use vstd::prelude::*;

verus! {

broadcast use vstd::std_specs::vec::group_vec_axioms;

/// A decimal numeral as plain values: a sign, the digits before and after the decimal
/// point, and a signed decimal exponent. Digits are values in `0..=9` (`decimal_wf`); an
/// empty `fraction` means there is no fractional part, an empty `exponent` no exponent.
pub struct Decimal {
    pub negative: bool,
    pub integer: Seq<u8>,
    pub fraction: Seq<u8>,
    pub exp_negative: bool,
    pub exponent: Seq<u8>,
}

/// Each value is a decimal digit.
pub open spec fn digits_ok(t: Seq<u8>) -> bool {
    forall|j: int| 0 <= j < t.len() ==> #[trigger] t[j] <= 9
}

/// Every digit of the numeral is a value in `0..=9`.
pub open spec fn decimal_wf(d: Decimal) -> bool {
    digits_ok(d.integer) && digits_ok(d.fraction) && digits_ok(d.exponent)
}

/// The mathematical model of a JSON value.
pub enum Json {
    Null,
    Bool(bool),
    Number(Decimal),
    Str(Seq<char>),
    Array(Seq<Json>),
    Object(Seq<(Seq<char>, Json)>),
}

/// A number, held exactly as the decimal digits it was written with (see `Decimal`);
/// its value is `(-1)^negative * integer.fraction * 10^((-1)^exp_negative * exponent)`.
#[derive(Debug, Clone, PartialEq)]
pub struct Numeral {
    pub negative: bool,
    pub integer: Vec<u8>,
    pub fraction: Vec<u8>,
    pub exp_negative: bool,
    pub exponent: Vec<u8>,
}

impl Numeral {
    pub open spec fn view(&self) -> Decimal {
        Decimal {
            negative: self.negative,
            integer: self.integer@,
            fraction: self.fraction@,
            exp_negative: self.exp_negative,
            exponent: self.exponent@,
        }
    }
}

/// A JSON value. Arrays keep their elements and objects their entries in source order;
/// an object may hold the same key more than once.
#[derive(Debug, PartialEq)]
pub enum JSONObject {
    Null,
    Bool(bool),
    Number(Numeral),
    String(String),
    Array(Vec<JSONObject>),
    Object(Vec<(String, JSONObject)>),
}

impl JSONObject {
    pub open spec fn view(&self) -> Json
        decreases self,
    {
        match self {
            JSONObject::Null => Json::Null,
            JSONObject::Bool(b) => Json::Bool(*b),
            JSONObject::Number(n) => Json::Number(n.view()),
            JSONObject::String(t) => Json::Str(t@),
            JSONObject::Array(v) => Json::Array(
                Seq::new(
                    v.len() as nat,
                    |i: int|
                        if 0 <= i < v.len() {
                            v[i].view()
                        } else {
                            Json::Null
                        },
                ),
            ),
            JSONObject::Object(v) => Json::Object(
                Seq::new(
                    v.len() as nat,
                    |i: int|
                        if 0 <= i < v.len() {
                            (v[i].0@, v[i].1.view())
                        } else {
                            (Seq::empty(), Json::Null)
                        },
                ),
            ),
        }
    }
}

impl Json {
    /// The elements of an array; empty for any other value.
    pub open spec fn view_array(self) -> Seq<Json> {
        match self {
            Json::Array(t) => t,
            _ => Seq::empty(),
        }
    }

    /// The entries of an object; empty for any other value.
    pub open spec fn view_object(self) -> Seq<(Seq<char>, Json)> {
        match self {
            Json::Object(t) => t,
            _ => Seq::empty(),
        }
    }
}

/// What went wrong in a parse.
#[derive(Debug, Clone, Copy, PartialEq, Eq, Structural)]
pub enum ErrorKind {
    /// The text at the position is not the expected token (`null`, `true`, `false`,
    /// an opening quote or bracket).
    Literal,
    /// No number starts at the position.
    Number,
    /// The input ends before the closing quote of a string.
    UnterminatedString,
    /// A backslash is followed by something that is not a known escape.
    InvalidEscape,
    /// An array or object is not closed, or a separator or key is missing.
    Collection,
    /// No kind of value starts at the position.
    NoValue,
}

/// A failed parse: what went wrong, and at which character of the input.
#[derive(Debug, Clone, Copy, PartialEq, Eq, Structural)]
pub struct ParseError {
    pub kind: ErrorKind,
    pub pos: usize,
}

} // verus!
