//! A personal collection of links to learning resources, kept as one small
//! key-value text file per link.
//!
//! The library holds the logic: turning a title into a file-system-safe
//! identifier, normalising raw field input into a record, writing a record as
//! text and reading it back, and checking records for missing fields.

pub mod codec;
pub mod date;
pub mod meta;
pub mod record;
pub mod text;
pub mod sanitize;
pub mod validate;
