//! The tree that schemas and generated documents share: the shape of a JSON
//! value, with numbers kept as the integers that JSON text reads into.

use vstd::prelude::*;

verus! {

/// A JSON number: a non-negative integer, a negative integer, or a
/// floating-point number held as its IEEE 754 bit pattern.
#[derive(Clone, Copy, Debug, PartialEq, Eq, Structural)]
pub enum JsonNumber {
    PosInt(u64),
    NegInt(i64),
    Float(u64),
}

impl JsonNumber {
    /// The number as an unsigned integer, where it is one.
    pub open spec fn as_u64_spec(self) -> Option<u64> {
        match self {
            JsonNumber::PosInt(n) => Some(n),
            JsonNumber::NegInt(n) => if n >= 0 {
                Some(n as u64)
            } else {
                None
            },
            JsonNumber::Float(_) => None,
        }
    }

    /// The number as an unsigned integer: a non-negative integer of either
    /// kind; a floating-point number is none.
    pub fn as_u64(&self) -> (r: Option<u64>)
        ensures
            r == self.as_u64_spec(),
    {
        match self {
            JsonNumber::PosInt(n) => Some(*n),
            JsonNumber::NegInt(n) => if *n >= 0 {
                Some(*n as u64)
            } else {
                None
            },
            JsonNumber::Float(_) => None,
        }
    }
}

/// A JSON value: the shape of a schema, and of what is generated from it.
/// An object is a list of entries; the ones generated here have distinct keys.
#[derive(Debug)]
pub enum JsonValue {
    Null,
    Bool(bool),
    Number(JsonNumber),
    String(String),
    Array(Vec<JsonValue>),
    Object(Vec<(String, JsonValue)>),
}

impl JsonValue {
    /// A deep copy of the value.
    pub fn duplicate(&self) -> (r: JsonValue)
        ensures
            same_json(r, *self),
        decreases self,
    {
        match self {
            JsonValue::Null => JsonValue::Null,
            JsonValue::Bool(b) => JsonValue::Bool(*b),
            JsonValue::Number(n) => JsonValue::Number(*n),
            JsonValue::String(s) => JsonValue::String(s.clone()),
            JsonValue::Array(items) => {
                let mut out: Vec<JsonValue> = Vec::new();
                let mut i: usize = 0;
                proof {
                    assert forall|k: int| 0 <= k < items.len() implies decreases_to!(self => items[k]) by {
                        broadcast use vstd::std_specs::vec::axiom_vec_index_decreases;
                    }
                }
                while i < items.len()
                    invariant
                        i <= items.len(),
                        out@.len() == i,
                        forall|k: int| 0 <= k < i ==> same_json(#[trigger] out@[k], items@[k]),
                        forall|k: int| 0 <= k < items.len() ==> decreases_to!(self => items[k]),
                    decreases items.len() - i,
                {
                    out.push(items[i].duplicate());
                    i = i + 1;
                }
                let r = JsonValue::Array(out);
                assert(same_json(r, *self));
                r
            },
            JsonValue::Object(entries) => {
                let mut out: Vec<(String, JsonValue)> = Vec::new();
                let mut i: usize = 0;
                proof {
                    assert forall|k: int| 0 <= k < entries.len() implies decreases_to!(self => entries[k].1) by {
                        broadcast use vstd::std_specs::vec::axiom_vec_index_decreases;
                    }
                }
                while i < entries.len()
                    invariant
                        i <= entries.len(),
                        out@.len() == i,
                        forall|k: int|
                            0 <= k < i ==> (#[trigger] out@[k]).0@ == entries@[k].0@ && same_json(
                                out@[k].1,
                                entries@[k].1,
                            ),
                        forall|k: int| 0 <= k < entries.len() ==> decreases_to!(self => entries[k].1),
                    decreases entries.len() - i,
                {
                    let key = entries[i].0.clone();
                    let value = entries[i].1.duplicate();
                    assert(key@ == entries@[i as int].0@);
                    assert(same_json(value, entries@[i as int].1));
                    out.push((key, value));
                    i = i + 1;
                }
                let r = JsonValue::Object(out);
                assert(same_json(r, *self));
                r
            },
        }
    }
}

/// Whether two JSON values are equal: the same shape, strings with the same
/// characters, numbers equal.
pub open spec fn same_json(a: JsonValue, b: JsonValue) -> bool
    decreases a,
{
    match (a, b) {
        (JsonValue::Null, JsonValue::Null) => true,
        (JsonValue::Bool(x), JsonValue::Bool(y)) => x == y,
        (JsonValue::Number(x), JsonValue::Number(y)) => x == y,
        (JsonValue::String(x), JsonValue::String(y)) => x@ == y@,
        (JsonValue::Array(xs), JsonValue::Array(ys)) => xs@.len() == ys@.len() && forall|i: int|
            0 <= i < xs@.len() ==> #[trigger] same_json(xs@[i], ys@[i]),
        (JsonValue::Object(xs), JsonValue::Object(ys)) => xs@.len() == ys@.len() && forall|i: int|
            0 <= i < xs@.len() ==> xs@[i].0@ == ys@[i].0@ && #[trigger] same_json(xs@[i].1, ys@[i].1),
        _ => false,
    }
}

} // verus!
