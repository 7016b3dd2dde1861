//! The errors of the library.

use vstd::prelude::*;

use crate::json::{JsonNumber, JsonValue};

verus! {

/// Why generation, or the construction of a session, failed.
#[derive(Debug)]
pub enum Error {
    /// An array length that does not fit in memory.
    ArrayInvalidLength { original: u64 },
    /// An array directive without its item type.
    ArrayMissingDataType,
    /// An array directive whose lower length bound is not below its upper one.
    ArrayEmptyRange { min: usize, max: usize },
    /// Two command-line options that cannot be given together.
    ConflictingArgs(&'static str, &'static str),
    /// A user-defined data type declared twice; holds the second declaration.
    DuplicateDataType(String),
    /// A range whose lower bound is not below its upper bound; holds the descriptor.
    EmptyRange(String),
    /// An array bound that is not a number.
    ExpectedInteger(JsonValue),
    /// A user-defined data type without values.
    FakerDefEmpty,
    /// A user-defined data type declared without `:`.
    FakerDefMissingColon,
    /// A user-defined data type declared with more than one `:`.
    FakerDefTooManyColons,
    /// A floating-point value that is not finite, which JSON cannot hold.
    InfinityNotSupported,
    /// A range bound that is no number; holds the bound.
    InvalidBounds(String),
    /// A data type that is neither user-defined, built in, nor in the catalog.
    InvalidDataType(String),
    /// A schema node that is a `null`, a boolean or a number.
    InvalidSchemaType(JsonValue),
    /// An enumeration whose choices are all empty.
    MissingValueBeforePipe,
    /// A data type whose values cannot be listed.
    NonEnumerableDataType(String),
    /// An array bound that is a number but not an unsigned integer.
    NumberNotAnInteger(JsonNumber),
    /// No new value found for a unique data type within the attempt budget.
    UniqueFetchFailed { data_type: String, already_produced: usize },
}

} // verus!
