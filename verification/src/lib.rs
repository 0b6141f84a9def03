//! Statement-execution engine of a small field-mapping language.
//!
//! A [`mapping::Mapping`] is an ordered program of statements (assign a
//! field, delete fields, keep only a field-set, branch on a condition,
//! merge two map fields, emit a diagnostic line) applied in order to one
//! nested key/value record at a time, stopping at the first failure.

pub mod value;
pub mod path;
pub mod record;
pub mod merge;
pub mod project;
pub mod text;
pub mod error;
pub mod query;
pub mod statement;
pub mod mapping;
