//! The error taxonomy of the persistence layer.
//!
//! Exactly two kinds cross the boundary: a validation failure, which carries
//! field-level detail and is always recoverable by the caller, and an opaque
//! "unknown" failure covering I/O, locking and decode trouble.  Absence of a
//! record is never an error.

use vstd::prelude::*;

verus! {

/// An error of the persistence layer.
#[derive(Debug)]
pub enum Error {
    /// Caller input failed a declared rule; carries the offending field and a
    /// human-readable message.
    Validation { field: String, message: String },
    /// An opaque failure: file open, lock, read, write or decode trouble.
    Unknown { message: String },
}

impl Error {
    /// Whether this error is a validation failure (as opposed to an opaque
    /// storage failure).
    pub open spec fn spec_is_validation(&self) -> bool {
        self is Validation
    }

    /// Whether this error is a validation failure.
    pub fn is_validation(&self) -> (r: bool)
        ensures
            r == self.spec_is_validation(),
    {
        match self {
            Error::Validation { .. } => true,
            Error::Unknown { .. } => false,
        }
    }

    /// A validation failure for `field` with the given message.
    pub fn validation(field: &str, message: &str) -> (r: Error)
        ensures
            r is Validation,
            r->Validation_field@ == field@,
            r->Validation_message@ == message@,
    {
        Error::Validation { field: field.to_owned(), message: message.to_owned() }
    }

    /// An opaque failure with the given message.
    pub fn unknown(message: &str) -> (r: Error)
        ensures
            r is Unknown,
            r->Unknown_message@ == message@,
    {
        Error::Unknown { message: message.to_owned() }
    }

    /// The human-readable message carried by the error.
    pub fn message(&self) -> (r: &String)
        ensures
            self is Validation ==> r@ == self->Validation_message@,
            self is Unknown ==> r@ == self->Unknown_message@,
    {
        match self {
            Error::Validation { message, .. } => message,
            Error::Unknown { message } => message,
        }
    }
}

} // verus!
