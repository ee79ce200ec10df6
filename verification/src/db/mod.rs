//! The storage layer: its error type, the merge policy and the empty store.
use vstd::prelude::*;
use crate::parser::{parse_error_message, ParseError};
use crate::repository::{empty_store, Database};
use crate::text::concat;

pub mod merge;

verus! {

/// Everything that can go wrong while reading or writing the store.
#[derive(Debug, Clone, PartialEq, Eq)]
pub enum DbError {
    /// The store refused the operation (a constraint, or a value it cannot
    /// hand back); the message says which.
    Storage(String),
    /// The text to import could not be parsed.
    Parse(ParseError),
    /// Two records could not be merged.
    Merge(String),
    /// A record broke a validation rule.
    Validation(String),
}

/// The text of a storage error.
pub open spec fn db_error_message(e: DbError) -> Seq<char> {
    match e {
        DbError::Storage(m) => "database error: "@ + m@,
        DbError::Parse(p) => "parse error: "@ + parse_error_message(p),
        DbError::Merge(m) => "merge error: "@ + m@,
        DbError::Validation(m) => "validation error: "@ + m@,
    }
}

impl DbError {
    /// The human-readable text of this error.
    pub fn to_string(&self) -> (r: String)
        ensures
            r@ == db_error_message(*self),
    {
        match self {
            DbError::Storage(m) => concat("database error: ", m.as_str()),
            DbError::Parse(p) => {
                let inner = p.to_string();
                concat("parse error: ", inner.as_str())
            },
            DbError::Merge(m) => concat("merge error: ", m.as_str()),
            DbError::Validation(m) => concat("validation error: ", m.as_str()),
        }
    }
}

/// A new, empty store, ready for a repository.
pub fn init_memory_db() -> (r: Result<Database, DbError>)
    ensures
        r matches Ok(d) && d.wf() && d@ == empty_store(),
{
    Ok(Database::new())
}

} // verus!
