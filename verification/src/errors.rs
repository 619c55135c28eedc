//! Errors of reading values back from Arrow data.

use vstd::prelude::*;

verus! {

/// Why Arrow data could not be read as values of a type.
#[derive(Clone, Copy, Debug, PartialEq, Eq, Structural)]
pub enum DeserializationError {
    /// A slot is null, or an array is absent, where a value is required.
    MissingData,
    /// A list reaches beyond the end of the values it points into.
    OffsetSliceOutOfBounds { start: usize, end: usize, len: usize },
}

} // verus!
