//! Bank statements, one module per institution, each yielding the shared
//! [`bank::BankStatement`].

pub mod bank;
pub mod cathay;
pub mod figures;
pub mod line_bank;
pub mod refs;
