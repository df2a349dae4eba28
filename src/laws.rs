//! Laws of the ledgers, stated over the model and proved.

use crate::errors::RepositoryError;
use crate::ledger::{
    credited, debited, deposits_total, history_of, lemma_step_preserves_inv, monetary_ids_unique,
    repository_step, ClientView,
};
use crate::transaction::{Transaction, TransactionData, TransactionDataAmount};
use vstd::prelude::*;

verus! {

/// A ledger that has seen nothing has the invariants.
pub proof fn law_fresh_ledger_has_inv(id: u16)
    ensures
        ClientView::fresh(id).inv(),
{
    vstd::set::fold::lemma_fold_empty(0int, crate::ledger::amount_step(Map::empty()));
}

/// After every applied transaction, the total of the ledger (available plus
/// held) is the sum of accepted deposits, less the sum of accepted
/// withdrawals, less the sum of the deposits whose disputes ended in a
/// chargeback.
pub proof fn law_total_is_net_flow(s: ClientView, t: Transaction)
    requires
        s.inv(),
    ensures
        s.step(t) matches Ok(s2) ==> s2.available + s2.held == credited(s2.log) - debited(s2.log)
            - deposits_total(s2.charged_back, s2.history),
{
    lemma_step_preserves_inv(s, t);
}

/// Held funds never become negative.
pub proof fn law_held_nonnegative(s: ClientView, t: Transaction)
    requires
        s.inv(),
    ensures
        s.step(t) matches Ok(s2) ==> s2.held >= 0,
{
    lemma_step_preserves_inv(s, t);
}

/// Every disputed id names a deposit of the history.
pub proof fn law_disputed_are_deposits(s: ClientView, t: Transaction)
    requires
        s.inv(),
    ensures
        s.step(t) matches Ok(s2) ==> forall|tx: u32| #[trigger]
            s2.disputed.contains(tx) ==> s2.history.contains_key(tx) && s2.history[tx] is Deposit,
{
    lemma_step_preserves_inv(s, t);
}

/// The history holds the accepted deposits and withdrawals, and no two of
/// those share a transaction id.
pub proof fn law_history_unique(s: ClientView, t: Transaction)
    requires
        s.inv(),
    ensures
        s.step(t) matches Ok(s2) ==> s2.history == history_of(s2.log) && monetary_ids_unique(
            s2.log,
        ),
{
    lemma_step_preserves_inv(s, t);
}

/// Once locked, a ledger stays locked, whether the transaction is accepted
/// or refused.
pub proof fn law_lock_monotonic(s: ClientView, t: Transaction)
    requires
        s.locked,
    ensures
        s.step(t) matches Ok(s2) ==> s2.locked,
{
}

/// Every ledger of a repository keeps its invariants and its lock whatever
/// transaction the repository registers.
pub proof fn law_repository_keeps_invariants(m: Map<u16, ClientView>, t: Transaction)
    requires
        forall|id: u16| #[trigger] m.contains_key(id) ==> m[id].inv(),
    ensures
        forall|id: u16| #[trigger]
            repository_step(m, t).0.contains_key(id) ==> repository_step(m, t).0[id].inv(),
        forall|id: u16|
            #![trigger repository_step(m, t).0[id]]
            m.contains_key(id) && m[id].locked ==> repository_step(m, t).0[id].locked,
{
    let id = t.spec_client();
    if m.contains_key(id) {
        lemma_step_preserves_inv(m[id], t);
    } else {
        law_fresh_ledger_has_inv(id);
        lemma_step_preserves_inv(ClientView::fresh(id), t);
    }
}

/// A deposit and then a withdrawal of the same amount on a fresh client
/// leave nothing available and nothing held.
pub proof fn law_deposit_then_withdrawal(
    id: u16,
    deposit: TransactionDataAmount,
    withdrawal: TransactionDataAmount,
)
    requires
        deposit.spec_amount() == withdrawal.spec_amount(),
        deposit.spec_amount() <= i64::MAX,
        deposit.spec_tx() != withdrawal.spec_tx(),
    ensures
        ({
            let s1 = ClientView::fresh(id).step(Transaction::Deposit(deposit));
            &&& s1 is Ok
            &&& s1->Ok_0.step(Transaction::Withdrawal(withdrawal)) matches Ok(s2)
            &&& s2.available == 0
            &&& s2.held == 0
        }),
{
}

/// A deposit, a dispute of it and a resolve of it leave the amount
/// available and nothing held.
pub proof fn law_dispute_then_resolve(id: u16, deposit: TransactionDataAmount, dispute: TransactionData, resolve: TransactionData)
    requires
        deposit.spec_amount() <= i64::MAX,
        dispute.spec_tx() == deposit.spec_tx(),
        resolve.spec_tx() == deposit.spec_tx(),
    ensures
        ({
            let s1 = ClientView::fresh(id).step(Transaction::Deposit(deposit));
            let s2 = s1->Ok_0.step(Transaction::Dispute(dispute));
            &&& s1 is Ok
            &&& s2 is Ok
            &&& s2->Ok_0.step(Transaction::Resolve(resolve)) matches Ok(s3)
            &&& s3.available == deposit.spec_amount()
            &&& s3.held == 0
        }),
{
}

/// A deposit, a dispute of it and a chargeback of it leave nothing
/// available, nothing held, and the client locked.
pub proof fn law_dispute_then_chargeback(id: u16, deposit: TransactionDataAmount, dispute: TransactionData, chargeback: TransactionData)
    requires
        deposit.spec_amount() <= i64::MAX,
        dispute.spec_tx() == deposit.spec_tx(),
        chargeback.spec_tx() == deposit.spec_tx(),
    ensures
        ({
            let s1 = ClientView::fresh(id).step(Transaction::Deposit(deposit));
            let s2 = s1->Ok_0.step(Transaction::Dispute(dispute));
            &&& s1 is Ok
            &&& s2 is Ok
            &&& s2->Ok_0.step(Transaction::Chargeback(chargeback)) matches Ok(s3)
            &&& s3.available == 0
            &&& s3.held == 0
            &&& s3.locked
        }),
{
}

/// A second chargeback of the same transaction fails with
/// `TransactionNotDisputed`, and so leaves the ledger unchanged.
pub proof fn law_second_chargeback_fails(s: ClientView, first: TransactionData, second: TransactionData)
    requires
        s.inv(),
        second.spec_tx() == first.spec_tx(),
    ensures
        s.step(Transaction::Chargeback(first)) matches Ok(s2) ==> s2.step(
            Transaction::Chargeback(second),
        ) == Err::<ClientView, RepositoryError>(
            RepositoryError::TransactionNotDisputed(first.spec_tx()),
        ),
{
}

/// After a chargeback, every deposit and every withdrawal on the client
/// fails with `ClientLocked`.
pub proof fn law_locked_rejects_money(s: ClientView, chargeback: TransactionData, t: Transaction)
    requires
        t.is_monetary(),
    ensures
        s.step(Transaction::Chargeback(chargeback)) matches Ok(s2) ==> s2.step(t) == Err::<
            ClientView,
            RepositoryError,
        >(RepositoryError::ClientLocked(s.id)),
{
}

/// A chargeback is final: a deposit once charged back stays charged back,
/// and a later dispute of it fails with `TransactionChargedBack`, leaving the
/// ledger unchanged.
pub proof fn law_chargeback_is_final(s: ClientView, t: Transaction, dispute: TransactionData)
    requires
        s.inv(),
        s.charged_back.contains(dispute.spec_tx()),
    ensures
        s.step(Transaction::Dispute(dispute)) == Err::<ClientView, RepositoryError>(
            RepositoryError::TransactionChargedBack(dispute.spec_tx()),
        ),
        s.step(t) matches Ok(s2) ==> s2.charged_back.contains(dispute.spec_tx()),
{
}

} // verus!
