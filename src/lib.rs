//! A toy payments engine: per-client ledgers that apply deposits,
//! withdrawals and the dispute protocol, with fixed-point amounts.

pub mod amount;
pub mod dto;
pub mod errors;
pub mod laws;
pub mod ledger;
pub mod repo;
pub mod transaction;
