//! Errors raised while constructing tensors and layouts.
use vstd::prelude::*;

verus! {

/// Error in a tensor operation if the dimension count is incorrect.
#[derive(Debug, PartialEq)]
pub struct DimensionError {}

impl DimensionError {
    /// A short description of the error.
    pub fn message(&self) -> (r: &'static str)
        ensures
            r@ == "dim count is incorrect"@,
    {
        "dim count is incorrect"
    }
}

/// Errors that can occur when constructing a tensor from existing data.
#[derive(Debug, PartialEq)]
pub enum FromDataError {
    /// Some indices will map to offsets that are beyond the end of the storage.
    StorageTooShort,
    /// Some indices will map to the same offset within the storage.
    ///
    /// This error can only occur when the storage is mutable.
    MayOverlap,
}

impl FromDataError {
    /// A short description of the error.
    pub fn message(&self) -> (r: &'static str)
        ensures
            *self is StorageTooShort ==> r@ == "Data too short"@,
            *self is MayOverlap ==> r@ == "May have internal overlap"@,
    {
        match self {
            FromDataError::StorageTooShort => "Data too short",
            FromDataError::MayOverlap => "May have internal overlap",
        }
    }
}

} // verus!
