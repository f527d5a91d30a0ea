//! Errors of the relational store.

use vstd::prelude::*;

verus! {

/// Why an operation on the relational store failed.
#[derive(Debug, PartialEq, Eq)]
pub enum DatabaseError {
    /// There is no such record.
    NotFound(String),
    /// A query failed, or what it was to write could not be prepared.
    QueryError(String),
}

}
