//! The records of the cast log: what each cast attempt wrote, and what a
//! lookup of the last successful cast gives back. The log itself is an
//! SQLite file kept by the program around the library.
use vstd::prelude::*;

verus! {

/// One cast attempt, as the log records it.
#[derive(Debug, Clone)]
pub struct CastEvent {
    pub spell: String,
    pub channel: String,
    pub exit_code: i32,
    pub version_before: Option<String>,
    pub version_after: Option<String>,
    pub error: Option<String>,
}

/// The most recent successful cast of a spell.
#[derive(Debug, Clone)]
pub struct CastRecord {
    pub ts: i64,
    pub channel: String,
    pub version: Option<String>,
}

} // verus!
