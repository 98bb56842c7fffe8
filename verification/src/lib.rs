//! A verified reminder manager: an in-memory list of id/text reminders,
//! operations to add, view and delete them, and a codec for the
//! comma-delimited file that persists the list between runs.

pub mod codec;
pub mod command;
pub mod digits;
pub mod errors;
pub mod ops;
pub mod reminder;
pub mod strutil;
