//! The error kinds that the store's operations return.

use vstd::prelude::*;

verus! {

/// Why an operation on the store was refused.
#[derive(Clone, Copy, Debug, PartialEq, Eq, Structural)]
pub enum Error {
    /// A collection (or content entry, or record id) with this name already exists.
    UniqueViolation,
    /// The named collection (or content entry) does not exist.
    NotFound,
    /// A vector's length does not match the collection's dimension, or the
    /// parallel key/value arrays of a batch differ in length.
    DimensionMismatch,
    /// The caller is not allowed to perform the operation.
    Unauthorized,
}

impl Error {
    /// The human-readable description of this error.
    pub open spec fn message_spec(self) -> Seq<char> {
        match self {
            Error::UniqueViolation => "Collection already exists"@,
            Error::NotFound => "Collection doesn't exist"@,
            Error::DimensionMismatch => "The dimension of the vector doesn't match the dimension of the collection"@,
            Error::Unauthorized => "User not authorized"@,
        }
    }

    /// Renders the error as an owned string.
    pub fn message(&self) -> (r: String)
        ensures
            r@ == self.message_spec(),
    {
        match self {
            Error::UniqueViolation => "Collection already exists".to_owned(),
            Error::NotFound => "Collection doesn't exist".to_owned(),
            Error::DimensionMismatch => "The dimension of the vector doesn't match the dimension of the collection".to_owned(),
            Error::Unauthorized => "User not authorized".to_owned(),
        }
    }
}

} // verus!
