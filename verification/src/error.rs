//! Errors reported by the memory operations.

use vstd::prelude::*;

verus! {

/// Why an operation refused its input.
#[derive(Debug)]
pub enum MemoryError {
    /// The input breaks a rule of the memory (a duplicate id, a missing item, ...).
    ValidationError(String),
    /// A value could not be converted (an unknown type name, an empty id, ...).
    ConversionError(String),
}

impl MemoryError {
    /// The human-readable message carried by the error.
    pub fn message(&self) -> (r: &String)
        ensures
            r == match self {
                MemoryError::ValidationError(m) => m,
                MemoryError::ConversionError(m) => m,
            },
    {
        match self {
            MemoryError::ValidationError(m) => m,
            MemoryError::ConversionError(m) => m,
        }
    }
}

} // verus!
