//! Generated values: booleans, integers, floating-point numbers and strings,
//! kept apart so that equality never mixes kinds.

use rand_chacha::ChaCha20Rng;
use vstd::prelude::*;

use crate::error::Error;
use crate::json::{JsonNumber, JsonValue};
use crate::text::{decimal, decimal_spec};

verus! {

/// What a generator produces.
#[derive(Debug, Hash)]
pub enum OutputData {
    /// Output for `Bool`.
    Bool(bool),
    /// Output for `Float` and floating-point ranges: the IEEE 754 bit pattern.
    Float(u64),
    /// Output for `Int` and integer ranges.
    Int(u64),
    /// Output for all other data types.
    String(String),
}

/// The mathematical value of an [`OutputData`].
pub enum DataView {
    Bool(bool),
    Float(u64),
    Int(u64),
    Text(Seq<char>),
}

impl View for OutputData {
    type V = DataView;

    open spec fn view(&self) -> DataView {
        match self {
            OutputData::Bool(b) => DataView::Bool(*b),
            OutputData::Float(f) => DataView::Float(*f),
            OutputData::Int(n) => DataView::Int(*n),
            OutputData::String(s) => DataView::Text(s@),
        }
    }
}

impl PartialEq for OutputData {
    fn eq(&self, other: &OutputData) -> (r: bool)
        ensures
            r == (self@ == other@),
    {
        match (self, other) {
            (OutputData::Bool(a), OutputData::Bool(b)) => *a == *b,
            (OutputData::Float(a), OutputData::Float(b)) => *a == *b,
            (OutputData::Int(a), OutputData::Int(b)) => *a == *b,
            (OutputData::String(a), OutputData::String(b)) => *a == *b,
            _ => false,
        }
    }
}

impl vstd::std_specs::cmp::PartialEqSpecImpl for OutputData {
    open spec fn obeys_eq_spec() -> bool {
        true
    }

    open spec fn eq_spec(&self, other: &OutputData) -> bool {
        self@ == other@
    }
}

impl Eq for OutputData {

}

/// Whether an IEEE 754 double with these bits is finite: its exponent field
/// is not all ones.
pub open spec fn finite_bits(bits: u64) -> bool {
    (bits >> 52u64) & 0x7ffu64 != 0x7ffu64
}

/// Whether a generated value is finite: a floating-point value must be.
pub open spec fn finite_value(v: DataView) -> bool {
    v matches DataView::Float(b) ==> finite_bits(b)
}

/// Tests whether the IEEE 754 double with these bits is finite.
pub fn is_finite_bits(bits: u64) -> (r: bool)
    ensures
        r == finite_bits(bits),
{
    (bits >> 52u64) & 0x7ffu64 != 0x7ffu64
}

/// The text of a generated value, where it does not depend on floating point.
pub open spec fn display_spec(v: DataView) -> Seq<char> {
    match v {
        DataView::Bool(true) => seq!['T', 'r', 'u', 'e'],
        DataView::Bool(false) => seq!['F', 'a', 'l', 's', 'e'],
        DataView::Int(n) => decimal_spec(n as nat),
        DataView::Text(t) => t,
        DataView::Float(_) => Seq::empty(),
    }
}

/// Whether `j` is the JSON form of the generated value `v`.
pub open spec fn is_json_of(j: JsonValue, v: DataView) -> bool {
    match v {
        DataView::Bool(b) => j == JsonValue::Bool(b),
        DataView::Int(n) => j == JsonValue::Number(JsonNumber::PosInt(n)),
        DataView::Float(f) => j == JsonValue::Number(JsonNumber::Float(f)),
        DataView::Text(t) => j matches JsonValue::String(s) && s@ == t,
    }
}

/// The floating-point work of a session, which callers supply: floating-point
/// numbers are read, drawn and written through it. Values travel as IEEE 754
/// bit patterns.
pub trait FloatSource {
    /// Reads a range bound as a floating-point number.
    fn parse_float(&self, token: &str) -> Option<u64>;

    /// Draws a number in `[min, max)` with `rng`, `max` defaulting to the
    /// largest finite double; `None` when that range is empty or not finite.
    fn float_in(&self, rng: &mut ChaCha20Rng, min: u64, max: Option<u64>) -> Option<u64>;

    /// Draws a number between zero and the largest finite double with `rng`.
    fn any_float(&self, rng: &mut ChaCha20Rng) -> u64;

    /// Writes a floating-point number in decimal.
    fn float_text(&self, bits: u64) -> String;
}

impl OutputData {
    /// A copy of the value.
    pub fn duplicate(&self) -> (r: OutputData)
        ensures
            r@ == self@,
    {
        match self {
            OutputData::Bool(b) => OutputData::Bool(*b),
            OutputData::Float(f) => OutputData::Float(*f),
            OutputData::Int(n) => OutputData::Int(*n),
            OutputData::String(s) => OutputData::String(s.clone()),
        }
    }

    /// The value as text: `True` or `False`, an integer in decimal, a string as
    /// it is, and a floating-point number as `floats` writes it.
    pub fn into_string<F: FloatSource>(self, floats: &F) -> (r: String)
        ensures
            !(self@ is Float) ==> r@ == display_spec(self@),
    {
        match self {
            OutputData::Bool(true) => {
                proof {
                    reveal_strlit("True");
                }
                "True".to_owned()
            },
            OutputData::Bool(false) => {
                proof {
                    reveal_strlit("False");
                }
                "False".to_owned()
            },
            OutputData::Float(bits) => floats.float_text(bits),
            OutputData::Int(n) => decimal(n),
            OutputData::String(s) => s,
        }
    }

    /// The value as a JSON value; a floating-point number that is not finite
    /// has no JSON form.
    pub fn into_json(self) -> (r: Result<JsonValue, Error>)
        ensures
            match self@ {
                DataView::Float(bits) if !finite_bits(bits) => r matches Err(
                    Error::InfinityNotSupported,
                ),
                _ => r matches Ok(j) && is_json_of(j, self@),
            },
    {
        match self {
            OutputData::String(s) => Ok(JsonValue::String(s)),
            OutputData::Float(bits) => {
                if is_finite_bits(bits) {
                    Ok(JsonValue::Number(JsonNumber::Float(bits)))
                } else {
                    Err(Error::InfinityNotSupported)
                }
            },
            OutputData::Int(n) => Ok(JsonValue::Number(JsonNumber::PosInt(n))),
            OutputData::Bool(b) => Ok(JsonValue::Bool(b)),
        }
    }
}

} // verus!
