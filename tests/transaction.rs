use toy_payments_engine::dto::InputRecord;
use toy_payments_engine::errors::DeserializationError;
use toy_payments_engine::transaction::Transaction;

fn record(kind: &str, client: u16, tx: u32, amount: Option<&str>) -> InputRecord {
    InputRecord::new(kind.to_string(), client, tx, amount.map(|a| a.to_string()))
}

#[test]
fn deposit_needs_amount() {
    let record = record("deposit", 1, 1, None);
    let result = Transaction::try_from(&record);
    assert!(result.is_err());
    assert_eq!(
        result.unwrap_err(),
        DeserializationError::AmountMissing(record.kind().to_owned())
    );
}

#[test]
fn withdrawal_needs_amount() {
    let record = record("withdrawal", 1, 1, None);
    let result = Transaction::try_from(&record);
    assert!(result.is_err());
    assert_eq!(
        result.unwrap_err(),
        DeserializationError::AmountMissing(record.kind().to_owned())
    );
}

#[test]
fn transaction_from_record() {
    for kind in ["deposit", "withdrawal", "dispute", "resolve", "chargeback"] {
        let r = record(kind, 65535, 4_000_000_000, Some("3.25"));
        let tr = Transaction::try_from(&r).unwrap();
        let (client, tx) = match tr {
            Transaction::Deposit(d) | Transaction::Withdrawal(d) => {
                assert_eq!(*d.amount(), 32500);
                (*d.client(), *d.tx())
            }
            Transaction::Dispute(d) | Transaction::Resolve(d) | Transaction::Chargeback(d) => {
                (*d.client(), *d.tx())
            }
        };
        assert_eq!((client, tx), (65535, 4_000_000_000));
        let kind_matches = match (kind, tr) {
            ("deposit", Transaction::Deposit(_)) => true,
            ("withdrawal", Transaction::Withdrawal(_)) => true,
            ("dispute", Transaction::Dispute(_)) => true,
            ("resolve", Transaction::Resolve(_)) => true,
            ("chargeback", Transaction::Chargeback(_)) => true,
            _ => false,
        };
        assert!(kind_matches);
    }
}

#[test]
fn referential_kinds_need_no_amount() {
    let tr = Transaction::try_from(&record("dispute", 2, 5, None)).unwrap();
    assert!(matches!(tr, Transaction::Dispute(_)));
    let tr = Transaction::try_from(&record("chargeback", 2, 5, Some("not a number"))).unwrap();
    assert!(matches!(tr, Transaction::Chargeback(_)));
}

#[test]
fn unknown_type_is_rejected() {
    for kind in ["Deposit", "transfer", "", "deposit "] {
        let result = Transaction::try_from(&record(kind, 1, 1, Some("1.0")));
        assert_eq!(
            result.unwrap_err(),
            DeserializationError::UnknownTransactionType(kind.to_string())
        );
    }
}

#[test]
fn exponent_amount_is_accepted() {
    let tr = Transaction::try_from(&record("deposit", 1, 1, Some("1.5e2"))).unwrap();
    match tr {
        Transaction::Deposit(d) => assert_eq!(*d.amount(), 1_500_000),
        _ => panic!("not a deposit"),
    }
}

#[test]
fn invalid_amount_is_rejected() {
    for text in ["-1.0", "abc", "1e", "e3", "", ".", "1.2.3", "18446744073709551616", "inf"] {
        let result = Transaction::try_from(&record("deposit", 1, 1, Some(text)));
        assert_eq!(
            result.unwrap_err(),
            DeserializationError::InvalidAmount(text.to_string())
        );
    }
}
