use toy_payments_engine::errors::RepositoryError;
use toy_payments_engine::repo::{Client, Repository};
use toy_payments_engine::transaction::{Transaction, TransactionData, TransactionDataAmount};

/// One currency unit in ten-thousandths.
const ONE: u64 = 10000;

/// A client whose ledger holds deposit 1 and has been locked by the
/// chargeback of deposit 2.
fn locked_client() -> Client {
    let mut c = Client::new(1);
    c.register_transaction(Transaction::Deposit(TransactionDataAmount::new(1, 1, ONE)))
        .expect("deposit failed");
    c.register_transaction(Transaction::Deposit(TransactionDataAmount::new(1, 2, ONE)))
        .expect("deposit failed");
    c.register_transaction(Transaction::Dispute(TransactionData::new(1, 2)))
        .expect("dispute failed");
    c.register_transaction(Transaction::Chargeback(TransactionData::new(1, 2)))
        .expect("chargeback failed");
    assert!(*c.locked());
    c
}

#[test]
fn withdrawal_on_non_existing_client_results_in_error() {
    let tr = Transaction::Withdrawal(TransactionDataAmount::new(1, 1, ONE));
    let mut repo = Repository::new();

    let result = repo.register_transaction(tr);

    match result {
        Ok(_) => panic!("did not return error"),
        Err(e) => match e {
            RepositoryError::InsufficientFunds(_) => {}
            _ => panic!("wrong error returned"),
        },
    }
}

#[test]
fn withdrawal_on_insufficient_funds_results_in_error() {
    let tr1 = Transaction::Deposit(TransactionDataAmount::new(1, 1, ONE));
    let tr2 = Transaction::Withdrawal(TransactionDataAmount::new(1, 2, 2 * ONE));
    let mut repo = Repository::new();

    repo.register_transaction(tr1).expect("deposit failed");
    let result = repo.register_transaction(tr2);

    match result {
        Ok(_) => panic!("did not return error"),
        Err(e) => match e {
            RepositoryError::InsufficientFunds(_) => {}
            _ => panic!("wrong error returned: `{:?}`", e),
        },
    }
}

#[test]
fn locked_client_rejects_deposit_and_withdrawal() {
    let mut c = locked_client();
    let tr = Transaction::Deposit(TransactionDataAmount::new(1, 1, ONE));
    let result = c.register_transaction(tr);
    assert!(match result {
        Ok(_) => false,
        Err(e) => matches!(e, RepositoryError::ClientLocked(_)),
    });

    let mut c = locked_client();
    let tr = Transaction::Withdrawal(TransactionDataAmount::new(1, 1, ONE));
    let result = c.register_transaction(tr);
    assert!(match result {
        Ok(_) => false,
        Err(e) => matches!(e, RepositoryError::ClientLocked(_)),
    });
}

#[test]
fn locked_client_accepts_dispute() {
    let mut c = locked_client();
    let tr = Transaction::Dispute(TransactionData::new(1, 1));

    let result = c.register_transaction(tr);

    assert!(result.is_ok());
}

const AMOUNTS: [u64; 5] = [1, 9999, 10000, 23702, 4_000_000_000_000];

#[test]
fn deposit_and_withdrawal_for_same_amount_equals_to_zero() {
    for x in AMOUNTS {
        let mut client = Client::new(1);
        let dep = Transaction::Deposit(TransactionDataAmount::new(1, 1, x));
        let wit = Transaction::Withdrawal(TransactionDataAmount::new(1, 2, x));

        client.register_transaction(dep).expect("Deposit failed");
        client.register_transaction(wit).expect("Withdrawal failed");

        assert!(*client.available() == 0 && *client.held() == 0);
    }
}

#[test]
fn deposit_and_dispute_result_in_held_funds() {
    for x in AMOUNTS {
        let mut client = Client::new(1);
        let dep = Transaction::Deposit(TransactionDataAmount::new(1, 1, x));
        let dis = Transaction::Dispute(TransactionData::new(1, 1));

        client.register_transaction(dep).expect("Deposit failed");
        client.register_transaction(dis).expect("Dispute failed");

        assert!(*client.available() == 0 && *client.held() == x as i64);
    }
}

#[test]
fn deposit_dispute_and_resolve_result_in_available_funds() {
    for x in AMOUNTS {
        let mut client = Client::new(1);
        let dep = Transaction::Deposit(TransactionDataAmount::new(1, 1, x));
        let dis = Transaction::Dispute(TransactionData::new(1, 1));
        let res = Transaction::Resolve(TransactionData::new(1, 1));

        client.register_transaction(dep).expect("Deposit failed");
        client.register_transaction(dis).expect("Dispute failed");
        client.register_transaction(res).expect("Resolve failed");

        assert!(*client.available() == x as i64 && *client.held() == 0);
    }
}

#[test]
fn deposit_dispute_and_chargeback_result_in_no_funds_and_locked_client() {
    for x in AMOUNTS {
        let mut client = Client::new(1);
        let dep = Transaction::Deposit(TransactionDataAmount::new(1, 1, x));
        let dis = Transaction::Dispute(TransactionData::new(1, 1));
        let cha = Transaction::Chargeback(TransactionData::new(1, 1));

        client.register_transaction(dep).expect("Deposit failed");
        client.register_transaction(dis).expect("Dispute failed");
        client.register_transaction(cha).expect("Chargeback failed");

        assert!(*client.available() == 0 && *client.held() == 0 && *client.locked());
    }
}

#[test]
fn second_chargeback_fails_and_leaves_ledger_unchanged() {
    let mut c = Client::new(3);
    c.register_transaction(Transaction::Deposit(TransactionDataAmount::new(3, 7, 5 * ONE)))
        .unwrap();
    c.register_transaction(Transaction::Dispute(TransactionData::new(3, 7))).unwrap();
    c.register_transaction(Transaction::Chargeback(TransactionData::new(3, 7))).unwrap();
    let before = (*c.available(), *c.held(), *c.locked(), c.disputed().len());
    let r = c.register_transaction(Transaction::Chargeback(TransactionData::new(3, 7)));
    assert_eq!(r, Err(RepositoryError::TransactionNotDisputed(7)));
    assert_eq!(before, (*c.available(), *c.held(), *c.locked(), c.disputed().len()));
}

#[test]
fn lock_stays_after_resolve_of_other_deposit() {
    let mut c = locked_client();
    c.register_transaction(Transaction::Dispute(TransactionData::new(1, 1))).unwrap();
    c.register_transaction(Transaction::Resolve(TransactionData::new(1, 1))).unwrap();
    assert!(*c.locked());
    assert_eq!(*c.available(), ONE as i64);
    assert_eq!(*c.held(), 0);
}

#[test]
fn duplicate_transaction_id_is_rejected() {
    let mut c = Client::new(1);
    c.register_transaction(Transaction::Deposit(TransactionDataAmount::new(1, 4, ONE))).unwrap();
    let r = c.register_transaction(Transaction::Withdrawal(TransactionDataAmount::new(1, 4, 1)));
    assert_eq!(r, Err(RepositoryError::DuplicateTransactionId(4)));
    assert_eq!(*c.available(), ONE as i64);
    assert_eq!(c.transactions().len(), 1);
}

#[test]
fn dispute_errors() {
    let mut c = Client::new(2);
    c.register_transaction(Transaction::Deposit(TransactionDataAmount::new(2, 1, ONE))).unwrap();
    c.register_transaction(Transaction::Withdrawal(TransactionDataAmount::new(2, 2, 1))).unwrap();
    assert_eq!(
        c.register_transaction(Transaction::Dispute(TransactionData::new(2, 9))),
        Err(RepositoryError::TransactionDoesNotExist(9, 2))
    );
    assert_eq!(
        c.register_transaction(Transaction::Dispute(TransactionData::new(2, 2))),
        Err(RepositoryError::WrongReferenceTransactionType)
    );
    assert_eq!(
        c.register_transaction(Transaction::Resolve(TransactionData::new(2, 1))),
        Err(RepositoryError::TransactionNotDisputed(1))
    );
    assert_eq!(
        c.register_transaction(Transaction::Chargeback(TransactionData::new(2, 9))),
        Err(RepositoryError::TransactionDoesNotExist(9, 2))
    );
    c.register_transaction(Transaction::Dispute(TransactionData::new(2, 1))).unwrap();
    assert_eq!(
        c.register_transaction(Transaction::Dispute(TransactionData::new(2, 1))),
        Err(RepositoryError::TransactionAlreadyDisputed(1))
    );
    assert_eq!(*c.available(), -1);
    assert_eq!(*c.held(), ONE as i64);
}

#[test]
fn balance_overflow_is_rejected() {
    let mut c = Client::new(5);
    c.register_transaction(Transaction::Deposit(TransactionDataAmount::new(5, 1, i64::MAX as u64)))
        .unwrap();
    let r = c.register_transaction(Transaction::Deposit(TransactionDataAmount::new(5, 2, 1)));
    assert_eq!(r, Err(RepositoryError::BalanceOverflow(5)));
    assert_eq!(*c.available(), i64::MAX);
    let r = c.register_transaction(Transaction::Deposit(TransactionDataAmount::new(5, 3, u64::MAX)));
    assert_eq!(r, Err(RepositoryError::BalanceOverflow(5)));
}

#[test]
fn repository_creates_client_even_when_transaction_fails() {
    let mut repo = Repository::new();
    let r = repo.register_transaction(Transaction::Dispute(TransactionData::new(8, 1)));
    assert_eq!(r, Err(RepositoryError::TransactionDoesNotExist(1, 8)));
    let clients = repo.iter_clients();
    assert_eq!(clients.len(), 1);
    assert_eq!(*clients[0].id(), 8);
    assert_eq!(*clients[0].available(), 0);
}

#[test]
fn repository_routes_by_client() {
    let mut repo = Repository::new();
    repo.register_transaction(Transaction::Deposit(TransactionDataAmount::new(1, 1, ONE))).unwrap();
    repo.register_transaction(Transaction::Deposit(TransactionDataAmount::new(2, 2, 2 * ONE))).unwrap();
    repo.register_transaction(Transaction::Deposit(TransactionDataAmount::new(1, 3, ONE / 2))).unwrap();
    let mut seen: Vec<(u16, i64)> = repo.iter_clients().iter().map(|c| (*c.id(), *c.available())).collect();
    seen.sort();
    assert_eq!(seen, vec![(1, 15000), (2, 20000)]);
}

#[test]
fn invariants_hold_along_a_run() {
    let steps = [
        Transaction::Deposit(TransactionDataAmount::new(1, 1, 3 * ONE)),
        Transaction::Deposit(TransactionDataAmount::new(1, 2, ONE)),
        Transaction::Withdrawal(TransactionDataAmount::new(1, 3, 2 * ONE)),
        Transaction::Dispute(TransactionData::new(1, 1)),
        Transaction::Dispute(TransactionData::new(1, 2)),
        Transaction::Resolve(TransactionData::new(1, 2)),
        Transaction::Chargeback(TransactionData::new(1, 1)),
        Transaction::Deposit(TransactionDataAmount::new(1, 4, ONE)),
    ];
    let mut c = Client::new(1);
    let (mut credited, mut debited, mut charged) = (0i64, 0i64, 0i64);
    let mut was_locked = false;
    for t in steps {
        let accepted = c.register_transaction(t).is_ok();
        if accepted {
            match t {
                Transaction::Deposit(d) => credited += *d.amount() as i64,
                Transaction::Withdrawal(d) => debited += *d.amount() as i64,
                Transaction::Chargeback(d) => match c.transactions()[d.tx()] {
                    Transaction::Deposit(org) => charged += *org.amount() as i64,
                    _ => panic!("charged back a withdrawal"),
                },
                _ => {}
            }
        }
        assert_eq!(*c.available() + *c.held(), credited - debited - charged);
        assert!(*c.held() >= 0);
        let mut held = 0i64;
        for tx in c.disputed() {
            match c.transactions().get(tx) {
                Some(Transaction::Deposit(d)) => held += *d.amount() as i64,
                _ => panic!("disputed id is not a deposit"),
            }
        }
        assert_eq!(held, *c.held());
        assert!(!was_locked || *c.locked());
        was_locked = *c.locked();
    }
    assert!(*c.locked());
    assert_eq!(*c.available(), -(ONE as i64));
    assert_eq!(*c.held(), 0);
    assert_eq!(c.transactions().len(), 3);
}

#[test]
fn empty_repository_has_no_rows() {
    let repo = Repository::new();
    assert!(repo.iter_clients().is_empty());
    assert!(repo.snapshot().is_empty());
}

#[test]
fn charged_back_deposit_cannot_be_disputed_again() {
    let mut c = Client::new(1);
    c.register_transaction(Transaction::Deposit(TransactionDataAmount::new(1, 1, ONE))).unwrap();
    c.register_transaction(Transaction::Dispute(TransactionData::new(1, 1))).unwrap();
    c.register_transaction(Transaction::Chargeback(TransactionData::new(1, 1))).unwrap();
    assert!(c.charged_back().contains(&1));
    let before = (*c.available(), *c.held(), *c.locked(), c.disputed().len());
    let r = c.register_transaction(Transaction::Dispute(TransactionData::new(1, 1)));
    assert_eq!(r, Err(RepositoryError::TransactionChargedBack(1)));
    assert_eq!(before, (*c.available(), *c.held(), *c.locked(), c.disputed().len()));
    assert_eq!(before, (0, 0, true, 0));
    let r = c.register_transaction(Transaction::Resolve(TransactionData::new(1, 1)));
    assert_eq!(r, Err(RepositoryError::TransactionNotDisputed(1)));
}
