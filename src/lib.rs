//! Replays a log of deposits, withdrawals, disputes, resolves and chargebacks
//! against per-client accounts and reports the final balance of each account.
//!
//! Amounts are fixed-point decimals with four fractional digits, held as a
//! count of ten-thousandths of the currency unit.

pub mod account;
pub mod bank;
pub mod transaction;
pub mod transactions;
