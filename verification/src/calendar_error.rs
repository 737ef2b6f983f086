//! The store's caller-visible errors.

use vstd::prelude::*;

verus! {

/// What a calendar operation can report. Only `EventNotFound` is raised by
/// the store itself (on removing or fetching an unknown fingerprint); the
/// rest belong to the surrounding calendar management.
#[derive(Debug, Clone)]
pub enum CalendarError {
    CalendarNotFound(String),
    CalendarAlreadyExists(String),
    EventNotFound(u64),
    IcsParsingFailed(String),
    Unknown(String),
}

} // verus!
