//! The ways in which a call can fail.
use vstd::prelude::*;

verus! {

/// Why a call failed.
#[derive(Clone, Copy, Debug, PartialEq, Eq, Structural)]
pub enum Error {
    /// A query or a JSON value does not have the shape that is asked for.
    MalformedQuery,
    /// A query names a base or an attribute that the schema does not have.
    UnknownSchemaNode,
    /// A file could not be read or written.
    IoFailure,
    /// An edge file holds a row that cannot be read.
    CsvFormatError,
    /// A value of a query is used as a pattern and is not a regular expression.
    RegexCompileError,
    /// A value was to be written on a node that holds another value already.
    ConflictingValue,
    /// A step of a plan was handed a state that its kind of step cannot take.
    BrokenPlan,
}

} // verus!
