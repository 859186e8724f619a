//! Matching places incoming records against a pool of candidates.

pub mod statement_line;

pub use statement_line::{Available, Consumption, Match, Record, StatementLineMode};
