use ledger::decimal::Decimal;
use ledger::engine::{Engine, Rejection};
use ledger::transaction::{InputTransaction, RecordError, Transaction};
use ledger::transaction_type::TransactionType;

#[test]
fn validate_rows() {
    let deposit = InputTransaction {
        ttype: TransactionType::Deposit,
        cid: 1,
        tx: 1,
        amount: Some(Decimal::new(1, 0)),
    };
    assert_eq!(
        Transaction::try_from(deposit),
        Ok(Transaction::Deposit {
            cid: 1,
            tx: 1,
            amount: Decimal::new(1, 0),
        })
    );
    let withdrawal = InputTransaction {
        ttype: TransactionType::Withdrawal,
        cid: 1,
        tx: 4,
        amount: Some(Decimal::new(1, 5000)),
    };
    assert_eq!(
        Transaction::try_from(withdrawal),
        Ok(Transaction::Withdrawal {
            cid: 1,
            tx: 4,
            amount: Decimal::new(1, 5000),
        })
    );
    let dispute = InputTransaction {
        ttype: TransactionType::Dispute,
        cid: 1,
        tx: 5,
        amount: None,
    };
    assert_eq!(
        Transaction::try_from(dispute),
        Ok(Transaction::Dispute { cid: 1, tx: 5 })
    );
    let resolve = InputTransaction {
        ttype: TransactionType::Resolve,
        cid: 1,
        tx: 5,
        amount: None,
    };
    assert_eq!(
        Transaction::try_from(resolve),
        Ok(Transaction::Resolve { cid: 1, tx: 5 })
    );
    let chargeback = InputTransaction {
        ttype: TransactionType::Chargeback,
        cid: 1,
        tx: 6,
        amount: None,
    };
    assert_eq!(
        Transaction::try_from(chargeback),
        Ok(Transaction::Chargeback { cid: 1, tx: 6 })
    );
}

#[test]
fn missing_amount_is_rejected() {
    let deposit = InputTransaction {
        ttype: TransactionType::Deposit,
        cid: 1,
        tx: 1,
        amount: None,
    };
    assert_eq!(Transaction::try_from(deposit), Err(RecordError::MissingAmount));
    let withdrawal = InputTransaction {
        ttype: TransactionType::Withdrawal,
        cid: 1,
        tx: 2,
        amount: None,
    };
    assert_eq!(
        Transaction::try_from(withdrawal),
        Err(RecordError::MissingAmount)
    );
}

#[test]
fn deposit_overflow_is_rejected() {
    let mut engine = Engine::new();
    let near_max = Decimal::parse("922337203685477.5807").unwrap();
    engine
        .process_transaction(Transaction::Deposit {
            cid: 1,
            tx: 1,
            amount: near_max,
        })
        .unwrap();
    let rejected = engine.process_transaction(Transaction::Deposit {
        cid: 1,
        tx: 2,
        amount: Decimal::new(0, 1),
    });
    assert_eq!(rejected, Err(Rejection::OutOfRange));
    assert_eq!(engine.client(1).available, near_max);
}
