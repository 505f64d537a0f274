//! The errors that operations report.
use vstd::prelude::*;

verus! {

/// Why the record store refused a request.
#[derive(Clone, Copy, Debug, PartialEq, Eq)]
pub enum BackendError {
    /// A create request held no entry.
    EmptyRequest,
    /// No identifier is left for a new entry.
    IdExhausted,
    /// An entry to be replaced has no identifier, or none that is stored.
    NoSuchEntry,
}

/// Why the schema refused an entry.
#[derive(Clone, Copy, Debug, PartialEq, Eq)]
pub enum SchemaError {
    /// The entry names no class, or one that the schema does not define.
    InvalidClass,
    /// The entry holds an attribute that the schema does not define, or that
    /// none of its classes permits.
    InvalidAttribute,
    /// A value is not of the kind that its attribute takes.
    InvalidAttributeSyntax,
    /// The entry lacks an attribute that one of its classes requires.
    MissingMustAttribute,
}

/// Why an operation of the query server failed.
#[derive(Clone, Copy, Debug, PartialEq, Eq)]
pub enum OperationError {
    EmptyRequest,
    Backend,
    SchemaViolation,
    Plugin,
    FilterGeneration,
}

} // verus!
