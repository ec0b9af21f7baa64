//! A verified ledger engine for fixed-point payment accounting.
//!
//! Transactions (deposits, withdrawals, disputes, resolves, chargebacks)
//! are applied in arrival order to a table of client accounts; invalid
//! transactions are rejected without mutating balances. All monetary
//! arithmetic is exact, on a signed fixed-point decimal with four
//! fractional digits.

pub mod balance;
pub mod client;
pub mod decimal;
pub mod engine;
pub mod transaction;
pub mod transaction_type;

pub use client::Client;
pub use decimal::Decimal;
pub use engine::process;
pub use transaction::{InputTransaction, Transaction};
pub use transaction_type::TransactionType;
