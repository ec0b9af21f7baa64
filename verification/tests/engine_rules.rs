use ledger::client::Client;
use ledger::decimal::Decimal;
use ledger::engine::{Engine, Rejection};
use ledger::transaction::Transaction;

fn transactions_test(transactions: Vec<Transaction>) -> Engine {
    let mut engine = Engine::new();
    for transaction in transactions {
        engine.process_transaction(transaction).ok();
    }
    engine
}

#[test]
fn dispute_siple() {
    let transactions = vec![
        Transaction::Deposit {
            cid: 1,
            tx: 1,
            amount: Decimal::new(100, 0),
        },
        Transaction::Withdrawal {
            cid: 1,
            tx: 2,
            amount: Decimal::new(50, 0),
        },
        Transaction::Deposit {
            cid: 1,
            tx: 3,
            amount: Decimal::new(200, 0),
        },
        Transaction::Dispute { cid: 1, tx: 1 },
    ];

    let mut engine = transactions_test(transactions);
    assert_eq!(
        *engine.client(1),
        Client {
            cid: 1,
            available: Decimal::new(150, 0),
            held: Decimal::new(100, 0),
            locked: false,
        }
    );
}

#[test]
fn dispute_into_dept() {
    let transactions = vec![
        Transaction::Deposit {
            cid: 1,
            tx: 1,
            amount: Decimal::new(100, 0),
        },
        Transaction::Withdrawal {
            cid: 1,
            tx: 2,
            amount: Decimal::new(50, 0),
        },
        Transaction::Deposit {
            cid: 1,
            tx: 3,
            amount: Decimal::new(200, 0),
        },
        Transaction::Withdrawal {
            cid: 1,
            tx: 4,
            amount: Decimal::new(200, 0),
        },
        Transaction::Dispute { cid: 1, tx: 1 },
    ];

    let mut engine = transactions_test(transactions);
    assert_eq!(
        *engine.client(1),
        Client {
            cid: 1,
            available: Decimal::new(-50, 0),
            held: Decimal::new(100, 0),
            locked: false,
        }
    );
}

#[test]
fn deposit_then_equal_withdrawal_cancels() {
    let mut engine = transactions_test(vec![
        Transaction::Deposit {
            cid: 3,
            tx: 1,
            amount: Decimal::new(7, 2500),
        },
        Transaction::Withdrawal {
            cid: 3,
            tx: 2,
            amount: Decimal::new(7, 2500),
        },
    ]);
    assert_eq!(
        *engine.client(3),
        Client {
            cid: 3,
            available: Decimal::new(0, 0),
            held: Decimal::new(0, 0),
            locked: false,
        }
    );
}

#[test]
fn dispute_keeps_total() {
    let mut engine = transactions_test(vec![
        Transaction::Deposit {
            cid: 1,
            tx: 1,
            amount: Decimal::new(30, 0),
        },
        Transaction::Deposit {
            cid: 1,
            tx: 2,
            amount: Decimal::new(12, 0),
        },
        Transaction::Dispute { cid: 1, tx: 2 },
    ]);
    let client = *engine.client(1);
    assert_eq!(client.available, Decimal::new(30, 0));
    assert_eq!(client.held, Decimal::new(12, 0));
    assert_eq!(client.total(), Some(Decimal::new(42, 0)));
}

#[test]
fn dispute_twice_only_counts_once() {
    let mut engine = Engine::new();
    engine
        .process_transaction(Transaction::Deposit {
            cid: 1,
            tx: 1,
            amount: Decimal::new(100, 0),
        })
        .unwrap();
    engine
        .process_transaction(Transaction::Dispute { cid: 1, tx: 1 })
        .unwrap();
    let after_first = *engine.client(1);
    let second = engine.process_transaction(Transaction::Dispute { cid: 1, tx: 1 });
    assert_eq!(second, Err(Rejection::AlreadyDisputed));
    assert_eq!(*engine.client(1), after_first);
}

#[test]
fn withdrawal_tx_cannot_be_disputed() {
    let mut engine = transactions_test(vec![
        Transaction::Deposit {
            cid: 1,
            tx: 1,
            amount: Decimal::new(100, 0),
        },
        Transaction::Withdrawal {
            cid: 1,
            tx: 2,
            amount: Decimal::new(40, 0),
        },
    ]);
    let before = *engine.client(1);
    let rejected = engine.process_transaction(Transaction::Dispute { cid: 1, tx: 2 });
    assert_eq!(rejected, Err(Rejection::NotDisputable));
    assert_eq!(*engine.client(1), before);
}

#[test]
fn chargeback_locks_account() {
    let mut engine = transactions_test(vec![
        Transaction::Deposit {
            cid: 1,
            tx: 1,
            amount: Decimal::new(100, 0),
        },
        Transaction::Dispute { cid: 1, tx: 1 },
        Transaction::Chargeback { cid: 1, tx: 1 },
    ]);
    assert_eq!(
        *engine.client(1),
        Client {
            cid: 1,
            available: Decimal::new(0, 0),
            held: Decimal::new(0, 0),
            locked: true,
        }
    );
    let rejected = engine.process_transaction(Transaction::Deposit {
        cid: 1,
        tx: 2,
        amount: Decimal::new(50, 0),
    });
    assert_eq!(rejected, Err(Rejection::Locked));
    assert_eq!(
        *engine.client(1),
        Client {
            cid: 1,
            available: Decimal::new(0, 0),
            held: Decimal::new(0, 0),
            locked: true,
        }
    );
}

#[test]
fn overdraw_is_rejected_and_balance_kept() {
    let mut engine = transactions_test(vec![Transaction::Deposit {
        cid: 1,
        tx: 1,
        amount: Decimal::new(10, 0),
    }]);
    let before = *engine.client(1);
    let rejected = engine.process_transaction(Transaction::Withdrawal {
        cid: 1,
        tx: 2,
        amount: Decimal::new(10, 1),
    });
    assert_eq!(rejected, Err(Rejection::InsufficientFunds));
    assert_eq!(*engine.client(1), before);
}

#[test]
fn duplicate_tx_is_rejected() {
    let mut engine = transactions_test(vec![Transaction::Deposit {
        cid: 1,
        tx: 1,
        amount: Decimal::new(10, 0),
    }]);
    let rejected = engine.process_transaction(Transaction::Deposit {
        cid: 1,
        tx: 1,
        amount: Decimal::new(10, 0),
    });
    assert_eq!(rejected, Err(Rejection::DuplicateTx));
    assert_eq!(engine.client(1).available, Decimal::new(10, 0));
}

#[test]
fn unknown_tx_and_client_mismatch_are_rejected() {
    let mut engine = transactions_test(vec![Transaction::Deposit {
        cid: 1,
        tx: 1,
        amount: Decimal::new(10, 0),
    }]);
    assert_eq!(
        engine.process_transaction(Transaction::Dispute { cid: 1, tx: 9 }),
        Err(Rejection::UnknownTx)
    );
    assert_eq!(
        engine.process_transaction(Transaction::Dispute { cid: 2, tx: 1 }),
        Err(Rejection::ClientMismatch)
    );
    assert_eq!(
        engine.process_transaction(Transaction::Resolve { cid: 1, tx: 1 }),
        Err(Rejection::NotDisputed)
    );
}

#[test]
fn resolve_restores_available() {
    let mut engine = transactions_test(vec![
        Transaction::Deposit {
            cid: 1,
            tx: 1,
            amount: Decimal::new(100, 0),
        },
        Transaction::Dispute { cid: 1, tx: 1 },
        Transaction::Resolve { cid: 1, tx: 1 },
    ]);
    assert_eq!(
        *engine.client(1),
        Client {
            cid: 1,
            available: Decimal::new(100, 0),
            held: Decimal::new(0, 0),
            locked: false,
        }
    );
}

#[test]
fn process_returns_final_accounts() {
    let out = ledger::process(vec![
        Transaction::Deposit {
            cid: 1,
            tx: 1,
            amount: Decimal::new(5, 0),
        },
        Transaction::Deposit {
            cid: 2,
            tx: 2,
            amount: Decimal::new(9, 0),
        },
        Transaction::Withdrawal {
            cid: 2,
            tx: 3,
            amount: Decimal::new(4, 0),
        },
    ]);
    assert_eq!(out.len(), 2);
    let one = out.iter().find(|c| c.cid == 1).unwrap();
    let two = out.iter().find(|c| c.cid == 2).unwrap();
    assert_eq!(one.available, Decimal::new(5, 0));
    assert_eq!(two.available, Decimal::new(5, 0));
    assert_eq!(two.held, Decimal::new(0, 0));
}
