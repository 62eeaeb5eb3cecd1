//! Errors and warnings that operators raise.

use vstd::prelude::*;
use vstd::string::*;

verus! {

/// An operator error.
#[derive(Debug)]
pub enum BqliteError {
    /// A storage failure.
    Io(String),
    /// A failure inside Arrow.
    Arrow(String),
    /// A schema that does not fit.
    Schema(String),
    /// A failure while executing.
    Execution(String),
    /// The query was cancelled.
    Cancelled,
}

impl BqliteError {
    /// The text of the error.
    pub open spec fn text(&self) -> Seq<char> {
        match self {
            BqliteError::Io(m) => m@,
            BqliteError::Arrow(m) => m@,
            BqliteError::Schema(m) => m@,
            BqliteError::Execution(m) => m@,
            BqliteError::Cancelled => "query cancelled"@,
        }
    }

    /// The text of the error.
    pub fn message(&self) -> (r: String)
        ensures
            r@ == self.text(),
    {
        match self {
            BqliteError::Io(m) => m.clone(),
            BqliteError::Arrow(m) => m.clone(),
            BqliteError::Schema(m) => m.clone(),
            BqliteError::Execution(m) => m.clone(),
            BqliteError::Cancelled => "query cancelled".to_owned(),
        }
    }
}

/// A diagnostic that does not fail a query.
#[derive(Debug)]
pub enum QueryWarning {
    /// A matcher refused tracks of an entity over its limit.
    ActiveStateLimitExceeded { entity_id: String, active_states: u64, cap: u64 },
    /// A session of an entity had more events than allowed.
    SessionEventCapExceeded { entity_id: String, event_count: u64, cap: u64 },
}

} // verus!
