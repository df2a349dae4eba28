//! Repository & Client: the executable ledgers.

use crate::amount::fixed4_text;
use crate::dto::OutputRecord;
use crate::errors::RepositoryError;
use crate::ledger::{lemma_step_preserves_inv, repository_step, ClientView};
use crate::transaction::Transaction;
use std::collections::{HashMap, HashSet};
use vstd::prelude::*;

verus! {

broadcast use vstd::std_specs::hash::group_hash_axioms;

/// The ledger of one client.
pub struct Client {
    /// Client's unique id
    id: u16,
    /// Current available funds, in ten-thousandths
    available: i64,
    /// Current held (disputed) funds, in ten-thousandths
    held: i64,
    /// Whether the client is locked (a chargeback occurred)
    locked: bool,
    /// Deposits and withdrawals by transaction id
    transactions: HashMap<u32, Transaction>,
    /// Ids of the deposits under dispute
    disputed: HashSet<u32>,
    /// Ids of the deposits that were charged back
    charged_back: HashSet<u32>,
    /// Every transaction that the ledger accepted, in order
    log: Ghost<Seq<Transaction>>,
}

impl View for Client {
    type V = ClientView;

    closed spec fn view(&self) -> ClientView {
        ClientView {
            id: self.id,
            available: self.available as int,
            held: self.held as int,
            locked: self.locked,
            history: self.transactions@,
            disputed: self.disputed@,
            charged_back: self.charged_back@,
            log: self.log@,
        }
    }
}

impl Client {
    /// Whether the ledger has its invariants.
    pub open spec fn wf(&self) -> bool {
        self@.inv()
    }

    /// Creates new client with given `id`
    pub fn new(id: u16) -> (r: Self)
        ensures
            r@ == ClientView::fresh(id),
            r.wf(),
    {
        let r = Client {
            id,
            available: 0,
            held: 0,
            locked: false,
            transactions: HashMap::new(),
            disputed: HashSet::new(),
            charged_back: HashSet::new(),
            log: Ghost(Seq::empty()),
        };
        proof {
            assert(r.transactions@ =~= Map::empty());
            assert(r.disputed@ =~= Set::empty());
            assert(r.charged_back@ =~= Set::empty());
            vstd::set::fold::lemma_fold_empty(0int, crate::ledger::amount_step(r.transactions@));
        }
        r
    }

    pub fn id(&self) -> (r: &u16)
        ensures
            *r == self@.id,
    {
        &self.id
    }

    pub fn available(&self) -> (r: &i64)
        ensures
            *r as int == self@.available,
    {
        &self.available
    }

    pub fn held(&self) -> (r: &i64)
        ensures
            *r as int == self@.held,
    {
        &self.held
    }

    pub fn locked(&self) -> (r: &bool)
        ensures
            *r == self@.locked,
    {
        &self.locked
    }

    pub fn transactions(&self) -> (r: &HashMap<u32, Transaction>)
        ensures
            r@ == self@.history,
    {
        &self.transactions
    }

    pub fn disputed(&self) -> (r: &HashSet<u32>)
        ensures
            r@ == self@.disputed,
    {
        &self.disputed
    }

    pub fn charged_back(&self) -> (r: &HashSet<u32>)
        ensures
            r@ == self@.charged_back,
    {
        &self.charged_back
    }

    /// Applies one transaction to the ledger. On success the ledger moves to
    /// the next state of the model; on failure it is left as it was.
    pub fn register_transaction(&mut self, transaction: Transaction) -> (r: Result<
        (),
        RepositoryError,
    >)
        requires
            old(self).wf(),
        ensures
            final(self).wf(),
            match old(self)@.step(transaction) {
                Ok(s) => r == Ok::<(), RepositoryError>(()) && final(self)@ == s,
                Err(e) => r == Err::<(), RepositoryError>(e) && final(self)@ == old(self)@,
            },
    {
        proof {
            lemma_step_preserves_inv(self@, transaction);
        }
        match transaction {
            Transaction::Deposit(data) => {
                if self.locked {
                    return Err(RepositoryError::ClientLocked(self.id));
                }
                let tx = *data.tx();
                if self.transactions.contains_key(&tx) {
                    return Err(RepositoryError::DuplicateTransactionId(tx));
                }
                let available = self.available as i128 + *data.amount() as i128;
                if available > i64::MAX as i128 || available + self.held as i128 > i64::MAX as i128 {
                    return Err(RepositoryError::BalanceOverflow(self.id));
                }
                self.available = available as i64;
                self.transactions.insert(tx, transaction);
                proof {
                    self.log@ = self.log@.push(transaction);
                }
            },
            Transaction::Withdrawal(data) => {
                if self.locked {
                    return Err(RepositoryError::ClientLocked(self.id));
                }
                let tx = *data.tx();
                if self.transactions.contains_key(&tx) {
                    return Err(RepositoryError::DuplicateTransactionId(tx));
                }
                let amount = *data.amount();
                if (self.available as i128) < amount as i128 {
                    return Err(RepositoryError::InsufficientFunds(self.id));
                }
                self.available = self.available - amount as i64;
                self.transactions.insert(tx, transaction);
                proof {
                    self.log@ = self.log@.push(transaction);
                }
            },
            Transaction::Dispute(data) => {
                let tx = *data.tx();
                // Copy the amount out of the history before touching balances.
                let amount = match self.transactions.get(&tx) {
                    None => {
                        return Err(RepositoryError::TransactionDoesNotExist(tx, self.id));
                    },
                    Some(Transaction::Deposit(org)) => *org.amount(),
                    Some(_) => {
                        return Err(RepositoryError::WrongReferenceTransactionType);
                    },
                };
                if self.charged_back.contains(&tx) {
                    return Err(RepositoryError::TransactionChargedBack(tx));
                }
                if self.disputed.contains(&tx) {
                    return Err(RepositoryError::TransactionAlreadyDisputed(tx));
                }
                let available = self.available as i128 - amount as i128;
                let held = self.held as i128 + amount as i128;
                if available < i64::MIN as i128 || held > i64::MAX as i128 {
                    return Err(RepositoryError::BalanceOverflow(self.id));
                }
                self.available = available as i64;
                self.held = held as i64;
                self.disputed.insert(tx);
                proof {
                    self.log@ = self.log@.push(transaction);
                }
            },
            Transaction::Resolve(data) => {
                let tx = *data.tx();
                let org = match self.transactions.get(&tx) {
                    None => {
                        return Err(RepositoryError::TransactionDoesNotExist(tx, self.id));
                    },
                    Some(org) => *org,
                };
                if !self.disputed.contains(&tx) {
                    return Err(RepositoryError::TransactionNotDisputed(tx));
                }
                let amount = match org {
                    Transaction::Deposit(org) => *org.amount(),
                    _ => {
                        return Err(RepositoryError::WrongReferenceTransactionType);
                    },
                };
                let available = self.available as i128 + amount as i128;
                if available > i64::MAX as i128 {
                    return Err(RepositoryError::BalanceOverflow(self.id));
                }
                self.available = available as i64;
                self.held = self.held - amount as i64;
                self.disputed.remove(&tx);
                proof {
                    self.log@ = self.log@.push(transaction);
                }
            },
            Transaction::Chargeback(data) => {
                let tx = *data.tx();
                let org = match self.transactions.get(&tx) {
                    None => {
                        return Err(RepositoryError::TransactionDoesNotExist(tx, self.id));
                    },
                    Some(org) => *org,
                };
                if !self.disputed.contains(&tx) {
                    return Err(RepositoryError::TransactionNotDisputed(tx));
                }
                let amount = match org {
                    Transaction::Deposit(org) => *org.amount(),
                    _ => {
                        return Err(RepositoryError::WrongReferenceTransactionType);
                    },
                };
                self.held = self.held - amount as i64;
                self.locked = true;
                self.disputed.remove(&tx);
                self.charged_back.insert(tx);
                proof {
                    self.log@ = self.log@.push(transaction);
                }
            },
        }
        proof {
            assert(self.transactions@ =~= old(self)@.step(transaction)->Ok_0.history);
            assert(self.disputed@ =~= old(self)@.step(transaction)->Ok_0.disputed);
            assert(self.charged_back@ =~= old(self)@.step(transaction)->Ok_0.charged_back);
        }
        Ok(())
    }
}

/// Whether `row` is the output row of the ledger `c`.
pub open spec fn row_of(row: OutputRecord, c: ClientView) -> bool {
    &&& row.spec_client() == c.id
    &&& row.spec_available() == fixed4_text(c.available)
    &&& row.spec_held() == fixed4_text(c.held)
    &&& row.spec_total() == fixed4_text(c.total())
    &&& row.spec_locked() == c.locked
}

/// Repository of all clients handled by this engine.
pub struct Repository {
    clients: HashMap<u16, Client>,
}

impl View for Repository {
    type V = Map<u16, ClientView>;

    closed spec fn view(&self) -> Map<u16, ClientView> {
        self.clients@.map_values(|c: Client| c@)
    }
}

impl Repository {
    /// Whether every ledger has its invariants and is keyed by its own id.
    pub open spec fn wf(&self) -> bool {
        forall|id: u16| #[trigger] self@.contains_key(id) ==> self@[id].inv() && self@[id].id == id
    }

    /// Returns new empty `Repository`
    pub fn new() -> (r: Self)
        ensures
            r.wf(),
            r@ == Map::<u16, ClientView>::empty(),
    {
        let r = Repository { clients: HashMap::new() };
        proof {
            assert(r@ =~= Map::<u16, ClientView>::empty());
        }
        r
    }

    /// Registers the transaction with the ledger of its client, which is
    /// created first if the client is new.
    pub fn register_transaction(&mut self, transaction: Transaction) -> (r: Result<
        (),
        RepositoryError,
    >)
        requires
            old(self).wf(),
        ensures
            final(self).wf(),
            (final(self)@, r) == repository_step(old(self)@, transaction),
    {
        let client_id = transaction.client();
        let mut client = match self.clients.remove(&client_id) {
            Some(c) => c,
            None => Client::new(client_id),
        };
        proof {
            assert(client@ == crate::ledger::ledger_or_fresh(old(self)@, client_id));
        }
        let r = client.register_transaction(transaction);
        self.clients.insert(client_id, client);
        proof {
            assert(self@ =~= repository_step(old(self)@, transaction).0);
            assert(r == repository_step(old(self)@, transaction).1);
        }
        r
    }

    /// The ledgers of all clients, each once, in no particular order.
    pub fn iter_clients(&self) -> (r: Vec<&Client>)
        requires
            self.wf(),
        ensures
            r.len() == self@.len(),
            forall|i: int|
                0 <= i < r.len() ==> (#[trigger] r[i]).wf() && self@.contains_key(r[i]@.id)
                    && self@[r[i]@.id] == r[i]@,
            forall|id: u16| #[trigger]
                self@.contains_key(id) ==> exists|i: int| 0 <= i < r.len() && r[i]@.id == id,
    {
        let mut out: Vec<&Client> = Vec::new();
        for c in it: self.clients.values()
            invariant
                self.wf(),
                it.seq().unref().to_set() == self.clients@.values(),
                it.seq().len() == self.clients@.dom().len(),
                out@ == it.seq().take(it.index() as int),
                it.index() == it.seq().len() ==> out@ =~= it.seq(),
        {
            out.push(c);
        }
        proof {
            assert(self@.dom() =~= self.clients@.dom());
            assert forall|i: int| 0 <= i < out.len() implies (#[trigger] out[i]).wf()
                && self@.contains_key(out[i]@.id) && self@[out[i]@.id] == out[i]@ by {
                assert(out@.unref()[i] == *out[i]);
                assert(out@.unref().to_set().contains(*out[i]));
                assert(self.clients@.values().contains(*out[i]));
                let k = choose|k: u16| self.clients@.contains_key(k) && #[trigger] self.clients@[k] == *out[i];
                assert(self.clients@[k].wf() && self.clients@[k]@.id == k);
            }
            assert forall|id: u16| #[trigger]
                self@.contains_key(id) implies exists|i: int|
                0 <= i < out.len() && out[i]@.id == id by {
                let v = self.clients@[id];
                assert(self.clients@.values().contains(v));
                assert(out@.unref().to_set().contains(v));
                let vs = out@.unref();
                assert(vs.contains(v));
                let i = choose|i: int| 0 <= i < vs.len() && #[trigger] vs[i] == v;
                assert(out[i]@.id == id);
            }
        }
        out
    }

    /// The output row of every client: its balances written with four
    /// fractional digits, its total computed as available plus held.
    pub fn snapshot(&self) -> (r: Vec<OutputRecord>)
        requires
            self.wf(),
        ensures
            r.len() == self@.len(),
            forall|i: int|
                0 <= i < r.len() ==> self@.contains_key((#[trigger] r[i]).spec_client())
                    && row_of(r[i], self@[r[i].spec_client()]),
            forall|id: u16| #[trigger]
                self@.contains_key(id) ==> exists|i: int| 0 <= i < r.len() && r[i].spec_client() == id,
    {
        let clients = self.iter_clients();
        let mut out: Vec<OutputRecord> = Vec::new();
        let mut i: usize = 0;
        while i < clients.len()
            invariant
                i <= clients.len(),
                out.len() == i,
                forall|j: int|
                    0 <= j < clients.len() ==> (#[trigger] clients[j]).wf() && self@.contains_key(
                        clients[j]@.id,
                    ) && self@[clients[j]@.id] == clients[j]@,
                forall|j: int|
                    0 <= j < i ==> (#[trigger] out[j]).spec_client() == clients[j]@.id && row_of(
                        out[j],
                        clients[j]@,
                    ),
            decreases clients.len() - i,
        {
            out.push(OutputRecord::from_client(clients[i]));
            i = i + 1;
        }
        proof {
            assert forall|id: u16| #[trigger] self@.contains_key(id) implies exists|j: int|
                0 <= j < out.len() && out[j].spec_client() == id by {
                let j = choose|j: int| 0 <= j < clients.len() && clients[j]@.id == id;
                assert(out[j].spec_client() == id);
            }
        }
        out
    }
}

} // verus!
