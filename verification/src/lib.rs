//! Natural language calendar event parsing.
//!
//! Text such as "John's birthday 18.11." or "Meeting about new duck quotas
//! tomorrow 11:00 @ A769" is scanned for a date expression and an optional
//! time expression. The date is resolved against a reference date supplied by
//! the caller, and the byte range that the expression occupies is reported so
//! that the surrounding text can be split into a summary and a location.
//!
//! Every function states its behaviour in a contract over byte sequences and
//! calendar values, and the contracts are machine checked.

pub mod calendar;
pub mod error;
pub mod event;
pub mod number;
pub mod temporal;
pub mod text;
pub mod words;

pub use error::EventParseError;
pub use event::NewEvent;
pub use temporal::find_datetime;
