//! A double-entry ledger kept honest by its statements.

pub mod accounts;
pub mod amount;
pub mod assertion;
pub mod bounds;
pub mod corrected;
pub mod currency;
pub mod daily;
pub mod date;
pub mod db;
pub mod import;
pub mod interim;
pub mod journal;
pub mod keyed;
pub mod manual;
pub mod matcher;
pub mod model;
pub mod names;
pub mod pairing;
pub mod plan;
pub mod refusal;
pub mod rows;
pub mod sort;
pub mod statements;
pub mod summary;
pub mod text;
pub mod valuation;
