//! Validated, typed transaction records, and their construction from raw
//! input rows.

use vstd::prelude::*;

use crate::decimal::Decimal;
use crate::transaction_type::TransactionType;

verus! {

/// A single validated transaction to be applied to the ledger.
#[derive(Debug, Clone, Copy, PartialEq, Eq, Structural)]
pub enum Transaction {
    Deposit { cid: u16, tx: u32, amount: Decimal },
    Withdrawal { cid: u16, tx: u32, amount: Decimal },
    Dispute { cid: u16, tx: u32 },
    Resolve { cid: u16, tx: u32 },
    Chargeback { cid: u16, tx: u32 },
}

/// A raw input row: kind, client id, transaction id, and an amount field
/// that may be absent (it is meaningful only for deposits and
/// withdrawals).
#[derive(Debug, Clone, Copy, PartialEq, Eq, Structural)]
pub struct InputTransaction {
    pub ttype: TransactionType,
    pub cid: u16,
    pub tx: u32,
    pub amount: Option<Decimal>,
}

/// Why a raw input row is rejected before reaching the engine.
#[derive(Debug, Clone, Copy, PartialEq, Eq, Structural)]
pub enum RecordError {
    /// A deposit or withdrawal row without an amount.
    MissingAmount,
}

/// The transaction a raw row validates to, if any: deposits and
/// withdrawals must carry an amount; the other kinds ignore it.
pub open spec fn spec_validate(input: InputTransaction) -> Result<Transaction, RecordError> {
    match input.ttype {
        TransactionType::Deposit => match input.amount {
            Some(amount) => Ok(Transaction::Deposit { cid: input.cid, tx: input.tx, amount }),
            None => Err(RecordError::MissingAmount),
        },
        TransactionType::Withdrawal => match input.amount {
            Some(amount) => Ok(Transaction::Withdrawal { cid: input.cid, tx: input.tx, amount }),
            None => Err(RecordError::MissingAmount),
        },
        TransactionType::Dispute => Ok(Transaction::Dispute { cid: input.cid, tx: input.tx }),
        TransactionType::Resolve => Ok(Transaction::Resolve { cid: input.cid, tx: input.tx }),
        TransactionType::Chargeback => Ok(
            Transaction::Chargeback { cid: input.cid, tx: input.tx },
        ),
    }
}

impl Transaction {
    /// Validates a raw input row into a typed transaction, rejecting a
    /// deposit or withdrawal whose amount field is absent.
    pub fn try_from(input: InputTransaction) -> (r: Result<Transaction, RecordError>)
        ensures
            r == spec_validate(input),
    {
        match input.ttype {
            TransactionType::Deposit => {
                if let Some(amount) = input.amount {
                    Ok(Transaction::Deposit { cid: input.cid, tx: input.tx, amount })
                } else {
                    Err(RecordError::MissingAmount)
                }
            },
            TransactionType::Withdrawal => {
                if let Some(amount) = input.amount {
                    Ok(Transaction::Withdrawal { cid: input.cid, tx: input.tx, amount })
                } else {
                    Err(RecordError::MissingAmount)
                }
            },
            TransactionType::Dispute => Ok(Transaction::Dispute { cid: input.cid, tx: input.tx }),
            TransactionType::Resolve => Ok(Transaction::Resolve { cid: input.cid, tx: input.tx }),
            TransactionType::Chargeback => Ok(
                Transaction::Chargeback { cid: input.cid, tx: input.tx },
            ),
        }
    }
}

} // verus!
