//! The error type of the library.
use vstd::prelude::*;
use crate::field::{FieldIdent, FieldType};

verus! {

/// The errors that fallible operations of the library return.
#[derive(Debug, Clone, PartialEq)]
pub enum AgnesError {
    /// A field was not found.
    FieldNotFound(FieldIdent),
    /// Fields collide: they exist already, or on both sides of a merge or join.
    FieldCollision(Vec<FieldIdent>),
    /// The dimensions of two structures do not agree.
    DimensionMismatch(String),
    /// An index lies past the end of a data vector.
    IndexError {
        /// The requested index.
        index: usize,
        /// The length of the data vector.
        len: usize,
    },
    /// A field holds another kind of data than the one requested.
    IncompatibleTypes {
        /// The kind requested.
        expected: FieldType,
        /// The kind the field holds.
        actual: FieldType,
    },
    /// A value could not be parsed.
    Parse(String),
}

} // verus!
