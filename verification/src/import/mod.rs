//! What the importers decide, apart from reading and writing.

pub mod bank;
pub mod broker;
pub mod counted;
pub mod fates;
pub mod tiantian;
