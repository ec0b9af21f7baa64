//! The five kinds of input transaction.

use vstd::prelude::*;

verus! {

/// Kind tag of a raw input record.
#[derive(Debug, Clone, Copy, PartialEq, Eq, Structural)]
pub enum TransactionType {
    Deposit,
    Withdrawal,
    Dispute,
    Resolve,
    Chargeback,
}

} // verus!
