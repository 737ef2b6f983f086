//! A personal event store: events (one-off or recurring) are deduplicated by a
//! content fingerprint, checked for overlaps on insert, and queried by time
//! window or tag, with recurring events projected into concrete occurrences.

pub mod calendar;
pub mod casefold;
pub mod calendar_error;
pub mod date;
pub mod event;
pub mod timeio;

pub use date::Date;
pub use date::DateTime;
pub use date::Time;
