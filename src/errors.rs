//! Error taxonomies of the decoder and of the ledgers.

use vstd::prelude::*;

verus! {

/// Why a raw input row could not be turned into a transaction.
#[derive(Debug, Clone, PartialEq, Eq)]
pub enum DeserializationError {
    /// The `type` field is none of the five known words.
    UnknownTransactionType(String),
    /// A deposit or withdrawal came without an amount.
    AmountMissing(String),
    /// The amount is not a non-negative decimal number that fits the
    /// fixed-point representation.
    InvalidAmount(String),
}

/// Why a ledger refused a transaction. A refused transaction leaves the
/// ledger unchanged.
#[derive(Debug, Clone, Copy, PartialEq, Eq, Structural)]
pub enum RepositoryError {
    /// A withdrawal asked for more than the available funds of the client.
    InsufficientFunds(u16),
    /// A deposit or withdrawal reused a transaction id known to the client.
    DuplicateTransactionId(u32),
    /// The referenced transaction id is unknown to the client.
    TransactionDoesNotExist(u32, u16),
    /// The referenced transaction is not a deposit.
    WrongReferenceTransactionType,
    /// The referenced deposit is already under dispute.
    TransactionAlreadyDisputed(u32),
    /// The referenced deposit is not under dispute.
    TransactionNotDisputed(u32),
    /// The referenced deposit was charged back; a chargeback is final, so it
    /// cannot be disputed again.
    TransactionChargedBack(u32),
    /// The client is locked and takes no more deposits or withdrawals.
    ClientLocked(u16),
    /// A balance of the client would leave the range of the fixed-point
    /// representation.
    BalanceOverflow(u16),
}

} // verus!
