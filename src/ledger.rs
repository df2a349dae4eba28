//! The mathematical model of a client ledger: its state, the transition that
//! one transaction makes, and the invariants that every reachable state has.

use crate::errors::RepositoryError;
use crate::transaction::Transaction;
use vstd::prelude::*;
use vstd::set::fold::{is_fun_commutative, lemma_fold_empty, lemma_fold_insert};

verus! {

/// Whether `x` lies in the range of an `i64`.
pub open spec fn fits_i64(x: int) -> bool {
    i64::MIN <= x <= i64::MAX
}

/// The amount of a deposit, and zero for any other transaction.
pub open spec fn deposit_amount(t: Transaction) -> int {
    match t {
        Transaction::Deposit(d) => d.spec_amount() as int,
        _ => 0,
    }
}

/// The deposits and withdrawals of a log, keyed by their transaction id.
pub open spec fn history_of(log: Seq<Transaction>) -> Map<u32, Transaction>
    decreases log.len(),
{
    if log.len() == 0 {
        Map::empty()
    } else {
        let h = history_of(log.drop_last());
        let t = log.last();
        if t.is_monetary() {
            h.insert(t.spec_tx(), t)
        } else {
            h
        }
    }
}

/// The sum of the amounts of the deposits of a log.
pub open spec fn credited(log: Seq<Transaction>) -> int
    decreases log.len(),
{
    if log.len() == 0 {
        0
    } else {
        credited(log.drop_last()) + match log.last() {
            Transaction::Deposit(d) => d.spec_amount() as int,
            _ => 0,
        }
    }
}

/// The sum of the amounts of the withdrawals of a log.
pub open spec fn debited(log: Seq<Transaction>) -> int
    decreases log.len(),
{
    if log.len() == 0 {
        0
    } else {
        debited(log.drop_last()) + match log.last() {
            Transaction::Withdrawal(d) => d.spec_amount() as int,
            _ => 0,
        }
    }
}

/// No two deposits or withdrawals of a log share a transaction id.
pub open spec fn monetary_ids_unique(log: Seq<Transaction>) -> bool {
    forall|i: int, j: int|
        0 <= i < j < log.len() && (#[trigger] log[i]).is_monetary() && (#[trigger] log[j]).is_monetary()
            ==> log[i].spec_tx() != log[j].spec_tx()
}

/// One step of the sum of the amounts of a set of deposits.
pub open spec fn amount_step(h: Map<u32, Transaction>) -> spec_fn(int, u32) -> int {
    |acc: int, tx: u32| acc + deposit_amount(h[tx])
}

/// The sum of the amounts of the deposits of `h` whose ids are in `s`.
pub open spec fn deposits_total(s: Set<u32>, h: Map<u32, Transaction>) -> int {
    s.fold(0int, amount_step(h))
}

/// The state of one client's ledger. `charged_back` holds the ids of the
/// deposits that a chargeback took away; `log` is every transaction that the
/// ledger accepted, in order; the other fields are those of the ledger.
pub struct ClientView {
    pub id: u16,
    pub available: int,
    pub held: int,
    pub locked: bool,
    pub history: Map<u32, Transaction>,
    pub disputed: Set<u32>,
    pub charged_back: Set<u32>,
    pub log: Seq<Transaction>,
}

impl ClientView {
    /// The ledger of a client that has seen no transaction.
    pub open spec fn fresh(id: u16) -> ClientView {
        ClientView {
            id,
            available: 0,
            held: 0,
            locked: false,
            history: Map::empty(),
            disputed: Set::empty(),
            charged_back: Set::empty(),
            log: Seq::empty(),
        }
    }

    /// The nominal total of the client.
    pub open spec fn total(self) -> int {
        self.available + self.held
    }

    /// What the ledger has received and lost: accepted deposits, less
    /// accepted withdrawals, less the deposits that were charged back.
    pub open spec fn net_flow(self) -> int {
        credited(self.log) - debited(self.log) - deposits_total(self.charged_back, self.history)
    }

    /// The invariants of a ledger.
    pub open spec fn inv(self) -> bool {
        &&& fits_i64(self.available)
        &&& fits_i64(self.held)
        &&& fits_i64(self.total())
        &&& self.held >= 0
        &&& self.disputed.finite()
        &&& self.held == deposits_total(self.disputed, self.history)
        &&& forall|tx: u32| #[trigger]
            self.disputed.contains(tx) ==> self.history.contains_key(tx)
                && self.history[tx] is Deposit
        &&& self.charged_back.finite()
        &&& forall|tx: u32| #[trigger]
            self.charged_back.contains(tx) ==> self.history.contains_key(tx)
                && self.history[tx] is Deposit && !self.disputed.contains(tx)
        &&& self.history == history_of(self.log)
        &&& monetary_ids_unique(self.log)
        &&& self.total() == self.net_flow()
    }

    /// The ledger after it accepts `t`, with nothing else changed.
    pub open spec fn accept(self, t: Transaction) -> ClientView {
        ClientView { log: self.log.push(t), ..self }
    }

    /// The effect of one transaction: the next state, or the error with which
    /// the ledger refuses it (and then stays as it is).
    pub open spec fn step(self, t: Transaction) -> Result<ClientView, RepositoryError> {
        match t {
            Transaction::Deposit(d) => {
                let tx = d.spec_tx();
                let available = self.available + d.spec_amount();
                if self.locked {
                    Err(RepositoryError::ClientLocked(self.id))
                } else if self.history.contains_key(tx) {
                    Err(RepositoryError::DuplicateTransactionId(tx))
                } else if !fits_i64(available) || !fits_i64(available + self.held) {
                    Err(RepositoryError::BalanceOverflow(self.id))
                } else {
                    Ok(ClientView { available, history: self.history.insert(tx, t), ..self.accept(t) })
                }
            },
            Transaction::Withdrawal(d) => {
                let tx = d.spec_tx();
                if self.locked {
                    Err(RepositoryError::ClientLocked(self.id))
                } else if self.history.contains_key(tx) {
                    Err(RepositoryError::DuplicateTransactionId(tx))
                } else if self.available < d.spec_amount() {
                    Err(RepositoryError::InsufficientFunds(self.id))
                } else {
                    Ok(
                        ClientView {
                            available: self.available - d.spec_amount(),
                            history: self.history.insert(tx, t),
                            ..self.accept(t)
                        },
                    )
                }
            },
            Transaction::Dispute(d) => {
                let tx = d.spec_tx();
                let a = deposit_amount(self.history[tx]);
                if !self.history.contains_key(tx) {
                    Err(RepositoryError::TransactionDoesNotExist(tx, self.id))
                } else if !(self.history[tx] is Deposit) {
                    Err(RepositoryError::WrongReferenceTransactionType)
                } else if self.charged_back.contains(tx) {
                    Err(RepositoryError::TransactionChargedBack(tx))
                } else if self.disputed.contains(tx) {
                    Err(RepositoryError::TransactionAlreadyDisputed(tx))
                } else if !fits_i64(self.available - a) || !fits_i64(self.held + a) {
                    Err(RepositoryError::BalanceOverflow(self.id))
                } else {
                    Ok(
                        ClientView {
                            available: self.available - a,
                            held: self.held + a,
                            disputed: self.disputed.insert(tx),
                            ..self.accept(t)
                        },
                    )
                }
            },
            Transaction::Resolve(d) => {
                let tx = d.spec_tx();
                let a = deposit_amount(self.history[tx]);
                if !self.history.contains_key(tx) {
                    Err(RepositoryError::TransactionDoesNotExist(tx, self.id))
                } else if !self.disputed.contains(tx) {
                    Err(RepositoryError::TransactionNotDisputed(tx))
                } else if !(self.history[tx] is Deposit) {
                    Err(RepositoryError::WrongReferenceTransactionType)
                } else if !fits_i64(self.available + a) {
                    Err(RepositoryError::BalanceOverflow(self.id))
                } else {
                    Ok(
                        ClientView {
                            available: self.available + a,
                            held: self.held - a,
                            disputed: self.disputed.remove(tx),
                            ..self.accept(t)
                        },
                    )
                }
            },
            Transaction::Chargeback(d) => {
                let tx = d.spec_tx();
                let a = deposit_amount(self.history[tx]);
                if !self.history.contains_key(tx) {
                    Err(RepositoryError::TransactionDoesNotExist(tx, self.id))
                } else if !self.disputed.contains(tx) {
                    Err(RepositoryError::TransactionNotDisputed(tx))
                } else if !(self.history[tx] is Deposit) {
                    Err(RepositoryError::WrongReferenceTransactionType)
                } else {
                    Ok(
                        ClientView {
                            held: self.held - a,
                            locked: true,
                            disputed: self.disputed.remove(tx),
                            charged_back: self.charged_back.insert(tx),
                            ..self.accept(t)
                        },
                    )
                }
            },
        }
    }
}

/// Each log function advances by the last transaction alone.
pub proof fn lemma_log_push(log: Seq<Transaction>, t: Transaction)
    ensures
        history_of(log.push(t)) == (if t.is_monetary() {
            history_of(log).insert(t.spec_tx(), t)
        } else {
            history_of(log)
        }),
        credited(log.push(t)) == credited(log) + match t {
            Transaction::Deposit(d) => d.spec_amount() as int,
            _ => 0,
        },
        debited(log.push(t)) == debited(log) + match t {
            Transaction::Withdrawal(d) => d.spec_amount() as int,
            _ => 0,
        },
{
    assert(log.push(t).drop_last() =~= log);
}

/// Every deposit or withdrawal of a log is in its history.
pub proof fn lemma_history_of_covers(log: Seq<Transaction>)
    ensures
        forall|i: int|
            0 <= i < log.len() && (#[trigger] log[i]).is_monetary() ==> history_of(
                log,
            ).contains_key(log[i].spec_tx()),
    decreases log.len(),
{
    if log.len() > 0 {
        let prefix = log.drop_last();
        lemma_history_of_covers(prefix);
        assert(log =~= prefix.push(log.last()));
        lemma_log_push(prefix, log.last());
        assert forall|i: int| 0 <= i < log.len() && (#[trigger] log[i]).is_monetary() implies history_of(
            log,
        ).contains_key(log[i].spec_tx()) by {
            if i < log.len() - 1 {
                assert(log[i] == prefix[i]);
            }
        }
    }
}

proof fn lemma_amount_step_commutative(h: Map<u32, Transaction>)
    ensures
        is_fun_commutative(amount_step(h)),
{
}

/// Adding an id to a finite set adds the amount of its deposit to the sum.
pub proof fn lemma_deposits_total_insert(s: Set<u32>, h: Map<u32, Transaction>, tx: u32)
    requires
        s.finite(),
        !s.contains(tx),
    ensures
        deposits_total(s.insert(tx), h) == deposits_total(s, h) + deposit_amount(h[tx]),
{
    lemma_amount_step_commutative(h);
    lemma_fold_insert(s, 0int, amount_step(h), tx);
}

/// Removing an id of a finite set takes the amount of its deposit off the sum.
pub proof fn lemma_deposits_total_remove(s: Set<u32>, h: Map<u32, Transaction>, tx: u32)
    requires
        s.finite(),
        s.contains(tx),
    ensures
        deposits_total(s.remove(tx), h) == deposits_total(s, h) - deposit_amount(h[tx]),
{
    lemma_deposits_total_insert(s.remove(tx), h, tx);
    assert(s.remove(tx).insert(tx) =~= s);
}

/// The sum of amounts of deposits is never negative.
pub proof fn lemma_deposits_total_nonneg(s: Set<u32>, h: Map<u32, Transaction>)
    requires
        s.finite(),
    ensures
        deposits_total(s, h) >= 0,
    decreases s.len(),
{
    if s.len() == 0 {
        assert(s =~= Set::empty());
        lemma_fold_empty(0int, amount_step(h));
    } else {
        let x = s.choose();
        lemma_deposits_total_remove(s, h, x);
        lemma_deposits_total_nonneg(s.remove(x), h);
    }
}

/// The sum depends only on the entries of the ids in the set.
pub proof fn lemma_deposits_total_congruent(
    s: Set<u32>,
    h1: Map<u32, Transaction>,
    h2: Map<u32, Transaction>,
)
    requires
        s.finite(),
        forall|tx: u32| #[trigger] s.contains(tx) ==> h1[tx] == h2[tx],
    ensures
        deposits_total(s, h1) == deposits_total(s, h2),
    decreases s.len(),
{
    if s.len() == 0 {
        assert(s =~= Set::empty());
        lemma_fold_empty(0int, amount_step(h1));
        lemma_fold_empty(0int, amount_step(h2));
    } else {
        let x = s.choose();
        lemma_deposits_total_remove(s, h1, x);
        lemma_deposits_total_remove(s, h2, x);
        lemma_deposits_total_congruent(s.remove(x), h1, h2);
    }
}

/// Appending a transaction keeps the ids of deposits and withdrawals unique
/// where a new deposit or withdrawal brings an id that the history lacks.
pub proof fn lemma_unique_push(log: Seq<Transaction>, t: Transaction)
    requires
        monetary_ids_unique(log),
        t.is_monetary() ==> !history_of(log).contains_key(t.spec_tx()),
    ensures
        monetary_ids_unique(log.push(t)),
{
    lemma_history_of_covers(log);
    let log2 = log.push(t);
    assert forall|i: int, j: int|
        0 <= i < j < log2.len() && (#[trigger] log2[i]).is_monetary()
            && (#[trigger] log2[j]).is_monetary() implies log2[i].spec_tx() != log2[j].spec_tx() by {
        assert(log2[i] == log[i]);
        if j < log.len() {
            assert(log2[j] == log[j]);
        }
    }
}

/// A step from a state with the invariants leads to a state with them.
pub proof fn lemma_step_preserves_inv(s: ClientView, t: Transaction)
    requires
        s.inv(),
    ensures
        s.step(t) matches Ok(s2) ==> s2.inv(),
{
    if let Ok(s2) = s.step(t) {
        lemma_log_push(s.log, t);
        lemma_unique_push(s.log, t);
        let tx = t.spec_tx();
        match t {
            Transaction::Deposit(_) | Transaction::Withdrawal(_) => {
                lemma_deposits_total_congruent(s.disputed, s.history, s2.history);
                lemma_deposits_total_congruent(s.charged_back, s.history, s2.history);
            },
            Transaction::Dispute(_) => {
                lemma_deposits_total_insert(s.disputed, s.history, tx);
            },
            Transaction::Resolve(_) => {
                lemma_deposits_total_remove(s.disputed, s.history, tx);
                lemma_deposits_total_nonneg(s2.disputed, s.history);
            },
            Transaction::Chargeback(_) => {
                lemma_deposits_total_remove(s.disputed, s.history, tx);
                lemma_deposits_total_nonneg(s2.disputed, s.history);
                lemma_deposits_total_insert(s.charged_back, s.history, tx);
            },
        }
    }
}

} // verus!

verus! {

/// The ledger of `id` in `m`, or a fresh one where `m` has none.
pub open spec fn ledger_or_fresh(m: Map<u16, ClientView>, id: u16) -> ClientView {
    if m.contains_key(id) {
        m[id]
    } else {
        ClientView::fresh(id)
    }
}

/// The effect of one transaction on a fleet of ledgers: the transaction goes
/// to the ledger of its client, which is created first where it is missing
/// (and stays created even when it refuses the transaction).
pub open spec fn repository_step(m: Map<u16, ClientView>, t: Transaction) -> (
    Map<u16, ClientView>,
    Result<(), RepositoryError>,
) {
    let id = t.spec_client();
    let c = ledger_or_fresh(m, id);
    match c.step(t) {
        Ok(c2) => (m.insert(id, c2), Ok(())),
        Err(e) => (m.insert(id, c), Err(e)),
    }
}

} // verus!
