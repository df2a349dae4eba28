//! Records of the tabular input and output.

use crate::amount::{fixed4_text, format_amount};
use crate::repo::Client;
use vstd::prelude::*;

verus! {

/// One raw input row: the transaction type, the client, the transaction id,
/// and the text of the amount where the row has one.
#[derive(Debug, Clone)]
pub struct InputRecord {
    kind: String,
    client: u16,
    tx: u32,
    amount: Option<String>,
}

impl InputRecord {
    pub closed spec fn spec_kind(&self) -> String {
        self.kind
    }

    pub closed spec fn spec_client(&self) -> u16 {
        self.client
    }

    pub closed spec fn spec_tx(&self) -> u32 {
        self.tx
    }

    pub closed spec fn spec_amount(&self) -> Option<String> {
        self.amount
    }

    pub fn new(kind: String, client: u16, tx: u32, amount: Option<String>) -> (r: Self)
        ensures
            r.spec_kind() == kind,
            r.spec_client() == client,
            r.spec_tx() == tx,
            r.spec_amount() == amount,
    {
        InputRecord { kind, client, tx, amount }
    }

    pub fn kind(&self) -> (r: &String)
        ensures
            *r == self.spec_kind(),
    {
        &self.kind
    }

    pub fn client(&self) -> (r: &u16)
        ensures
            *r == self.spec_client(),
    {
        &self.client
    }

    pub fn tx(&self) -> (r: &u32)
        ensures
            *r == self.spec_tx(),
    {
        &self.tx
    }

    pub fn amount(&self) -> (r: &Option<String>)
        ensures
            *r == self.spec_amount(),
    {
        &self.amount
    }
}

/// One output row: a client's balances written with four fractional digits.
#[derive(Debug, Clone, PartialEq, Eq)]
pub struct OutputRecord {
    client: u16,
    available: String,
    held: String,
    total: String,
    locked: bool,
}

impl OutputRecord {
    pub closed spec fn spec_client(&self) -> u16 {
        self.client
    }

    pub closed spec fn spec_available(&self) -> Seq<char> {
        self.available@
    }

    pub closed spec fn spec_held(&self) -> Seq<char> {
        self.held@
    }

    pub closed spec fn spec_total(&self) -> Seq<char> {
        self.total@
    }

    pub closed spec fn spec_locked(&self) -> bool {
        self.locked
    }

    /// A row of balances given in ten-thousandths.
    pub fn new(client: u16, available: i64, held: i64, total: i64, locked: bool) -> (r: Self)
        ensures
            r.spec_client() == client,
            r.spec_available() == fixed4_text(available as int),
            r.spec_held() == fixed4_text(held as int),
            r.spec_total() == fixed4_text(total as int),
            r.spec_locked() == locked,
    {
        OutputRecord {
            client,
            available: format_amount(available),
            held: format_amount(held),
            total: format_amount(total),
            locked,
        }
    }

    /// The snapshot row of a ledger; its total is available plus held.
    pub fn from_client(c: &Client) -> (r: Self)
        requires
            c.wf(),
        ensures
            r.spec_client() == c@.id,
            r.spec_available() == fixed4_text(c@.available),
            r.spec_held() == fixed4_text(c@.held),
            r.spec_total() == fixed4_text(c@.total()),
            r.spec_locked() == c@.locked,
    {
        let available = *c.available();
        let held = *c.held();
        let total = available + held;
        Self::new(*c.id(), available, held, total, *c.locked())
    }

    pub fn client(&self) -> (r: &u16)
        ensures
            *r == self.spec_client(),
    {
        &self.client
    }

    pub fn available(&self) -> (r: &String)
        ensures
            r@ == self.spec_available(),
    {
        &self.available
    }

    pub fn held(&self) -> (r: &String)
        ensures
            r@ == self.spec_held(),
    {
        &self.held
    }

    pub fn total(&self) -> (r: &String)
        ensures
            r@ == self.spec_total(),
    {
        &self.total
    }

    pub fn locked(&self) -> (r: &bool)
        ensures
            *r == self.spec_locked(),
    {
        &self.locked
    }
}

} // verus!
