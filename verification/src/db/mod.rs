//! The ledger as the database holds it.

pub mod account_status;
pub mod agreement;
pub mod assertions;
pub mod broker;
pub mod check;
pub mod events;
pub mod hledger;
pub mod holdings;
pub mod import_batch;
pub mod journal;
pub mod like;
pub mod load;
pub mod pairing;
pub mod periods;
pub mod query;
pub mod rates;
pub mod reports;
pub mod review;
pub mod sums;
