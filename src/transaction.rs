//! Transactions and their data.

use crate::amount::{parse_amount, parsed_amount};
use crate::dto::InputRecord;
use crate::errors::DeserializationError;
use vstd::prelude::*;

verus! {

/// Data of a monetary transaction: a deposit or a withdrawal.
/// `amount` is in ten-thousandths of a currency unit.
#[derive(Debug, Clone, Copy, PartialEq, Eq, Structural)]
pub struct TransactionDataAmount {
    client: u16,
    tx: u32,
    amount: u64,
}

impl TransactionDataAmount {
    pub closed spec fn spec_client(self) -> u16 {
        self.client
    }

    pub closed spec fn spec_tx(self) -> u32 {
        self.tx
    }

    pub closed spec fn spec_amount(self) -> u64 {
        self.amount
    }

    pub fn new(client: u16, tx: u32, amount: u64) -> (r: Self)
        ensures
            r.spec_client() == client,
            r.spec_tx() == tx,
            r.spec_amount() == amount,
    {
        TransactionDataAmount { client, tx, amount }
    }

    pub fn client(&self) -> (r: &u16)
        ensures
            *r == self.spec_client(),
    {
        &self.client
    }

    pub fn tx(&self) -> (r: &u32)
        ensures
            *r == self.spec_tx(),
    {
        &self.tx
    }

    pub fn amount(&self) -> (r: &u64)
        ensures
            *r == self.spec_amount(),
    {
        &self.amount
    }
}

/// Data of a referential transaction: a dispute, a resolve or a chargeback
/// that names an earlier deposit of the same client.
#[derive(Debug, Clone, Copy, PartialEq, Eq, Structural)]
pub struct TransactionData {
    client: u16,
    tx: u32,
}

impl TransactionData {
    pub closed spec fn spec_client(self) -> u16 {
        self.client
    }

    pub closed spec fn spec_tx(self) -> u32 {
        self.tx
    }

    pub fn new(client: u16, tx: u32) -> (r: Self)
        ensures
            r.spec_client() == client,
            r.spec_tx() == tx,
    {
        TransactionData { client, tx }
    }

    pub fn client(&self) -> (r: &u16)
        ensures
            *r == self.spec_client(),
    {
        &self.client
    }

    pub fn tx(&self) -> (r: &u32)
        ensures
            *r == self.spec_tx(),
    {
        &self.tx
    }
}

/// One of the five transaction kinds.
#[derive(Debug, Clone, Copy, PartialEq, Eq, Structural)]
pub enum Transaction {
    Deposit(TransactionDataAmount),
    Withdrawal(TransactionDataAmount),
    Dispute(TransactionData),
    Resolve(TransactionData),
    Chargeback(TransactionData),
}

impl Transaction {
    /// The client that the transaction belongs to.
    pub open spec fn spec_client(self) -> u16 {
        match self {
            Transaction::Deposit(d) => d.spec_client(),
            Transaction::Withdrawal(d) => d.spec_client(),
            Transaction::Dispute(d) => d.spec_client(),
            Transaction::Resolve(d) => d.spec_client(),
            Transaction::Chargeback(d) => d.spec_client(),
        }
    }

    /// The transaction id that the transaction carries: its own for a
    /// deposit or a withdrawal, the referenced one otherwise.
    pub open spec fn spec_tx(self) -> u32 {
        match self {
            Transaction::Deposit(d) => d.spec_tx(),
            Transaction::Withdrawal(d) => d.spec_tx(),
            Transaction::Dispute(d) => d.spec_tx(),
            Transaction::Resolve(d) => d.spec_tx(),
            Transaction::Chargeback(d) => d.spec_tx(),
        }
    }

    /// Whether the transaction moves money of its own (a deposit or a
    /// withdrawal).
    pub open spec fn is_monetary(self) -> bool {
        self is Deposit || self is Withdrawal
    }

    pub fn client(&self) -> (r: u16)
        ensures
            r == self.spec_client(),
    {
        match self {
            Transaction::Deposit(d) => d.client,
            Transaction::Withdrawal(d) => d.client,
            Transaction::Dispute(d) => d.client,
            Transaction::Resolve(d) => d.client,
            Transaction::Chargeback(d) => d.client,
        }
    }
}

/// Whether `s` is the text `w`.
fn is_word(s: &String, w: &str) -> (r: bool)
    ensures
        r == (s@ == w@),
{
    let word = String::from_str(w);
    *s == word
}

impl Transaction {
    /// Decodes one input row. The type is matched case-sensitively; a
    /// deposit or a withdrawal needs an amount, which the other kinds ignore.
    pub fn try_from(value: &InputRecord) -> (r: Result<Transaction, DeserializationError>)
        ensures
            ({
                let kind = value.spec_kind()@;
                let client = value.spec_client();
                let tx = value.spec_tx();
                if kind == "deposit"@ || kind == "withdrawal"@ {
                    match value.spec_amount() {
                        None => r == Err::<Transaction, DeserializationError>(
                            DeserializationError::AmountMissing(value.spec_kind()),
                        ),
                        Some(text) => match parsed_amount(text@) {
                            None => r == Err::<Transaction, DeserializationError>(
                                DeserializationError::InvalidAmount(text),
                            ),
                            Some(a) => match r {
                                Ok(Transaction::Deposit(d)) => kind == "deposit"@ && d.spec_client()
                                    == client && d.spec_tx() == tx && d.spec_amount() == a,
                                Ok(Transaction::Withdrawal(d)) => kind == "withdrawal"@
                                    && d.spec_client() == client && d.spec_tx() == tx
                                    && d.spec_amount() == a,
                                _ => false,
                            },
                        },
                    }
                } else if kind == "dispute"@ {
                    r matches Ok(Transaction::Dispute(d)) && d.spec_client() == client
                        && d.spec_tx() == tx
                } else if kind == "resolve"@ {
                    r matches Ok(Transaction::Resolve(d)) && d.spec_client() == client
                        && d.spec_tx() == tx
                } else if kind == "chargeback"@ {
                    r matches Ok(Transaction::Chargeback(d)) && d.spec_client() == client
                        && d.spec_tx() == tx
                } else {
                    r == Err::<Transaction, DeserializationError>(
                        DeserializationError::UnknownTransactionType(value.spec_kind()),
                    )
                }
            }),
    {
        let kind = value.kind();
        let client = *value.client();
        let tx = *value.tx();
        let deposit = is_word(kind, "deposit");
        if deposit || is_word(kind, "withdrawal") {
            let amount = match value.amount() {
                None => {
                    return Err(DeserializationError::AmountMissing(kind.clone()));
                },
                Some(text) => match parse_amount(text.as_str()) {
                    None => {
                        return Err(DeserializationError::InvalidAmount(text.clone()));
                    },
                    Some(a) => a,
                },
            };
            let data = TransactionDataAmount::new(client, tx, amount);
            if deposit {
                Ok(Transaction::Deposit(data))
            } else {
                Ok(Transaction::Withdrawal(data))
            }
        } else if is_word(kind, "dispute") {
            Ok(Transaction::Dispute(TransactionData::new(client, tx)))
        } else if is_word(kind, "resolve") {
            Ok(Transaction::Resolve(TransactionData::new(client, tx)))
        } else if is_word(kind, "chargeback") {
            Ok(Transaction::Chargeback(TransactionData::new(client, tx)))
        } else {
            Err(DeserializationError::UnknownTransactionType(kind.clone()))
        }
    }
}

} // verus!
