//! The handlers: the effect of each kind of record on one account. Business
//! rule failures (a locked account, insufficient funds, an unknown or
//! already settled dispute) leave the account unchanged.
use vstd::prelude::*;
use crate::account::{
    entries_map, entries_sum, keys_unique, lemma_held_le_total, lemma_map_push, lemma_map_remove,
    lemma_map_at, lemma_sum_push, lemma_sum_remove, Account, AccountModel, has_key,
};
use crate::transaction::{DisputeState, TransactionLog, MAX_UNITS};

verus! {

/// A deposit that would take the account's total funds past `MAX_UNITS`.
#[derive(Clone, Copy, Debug, PartialEq, Eq, Structural)]
pub enum TransactionError {
    BalanceOverflow,
}

/// A deposit credits the available funds of an unlocked account. `None` when
/// the total would exceed `MAX_UNITS`.
pub open spec fn deposit_model(a: AccountModel, amount: nat) -> Option<AccountModel> {
    if a.locked {
        Some(a)
    } else if a.total() + amount > MAX_UNITS {
        None
    } else {
        Some(AccountModel { available: a.available + amount, ..a })
    }
}

/// A withdrawal debits the available funds of an unlocked account that has
/// enough of them.
pub open spec fn withdrawal_model(a: AccountModel, amount: nat) -> AccountModel {
    if a.locked || a.available < amount {
        a
    } else {
        AccountModel { available: (a.available - amount) as nat, ..a }
    }
}

/// A dispute of an undisputed transaction with an amount moves that amount
/// from available to held, when enough is available. Locked accounts too.
pub open spec fn dispute_model(a: AccountModel, original: Option<TransactionLog>) -> AccountModel {
    match original {
        None => a,
        Some(t) => match a.dispute_state(t.spec_transaction_id()) {
            DisputeState::Undisputed => match t.spec_amount() {
                Some(amount) => if a.available >= amount {
                    AccountModel {
                        available: (a.available - amount) as nat,
                        held: a.held.insert(t.spec_transaction_id(), amount),
                        held_total: a.held_total + amount as nat,
                        ..a
                    }
                } else {
                    a
                },
                None => a,
            },
            _ => a,
        },
    }
}

/// A resolve of a disputed transaction moves its held amount back to
/// available and forgets the dispute.
pub open spec fn resolve_model(a: AccountModel, original: Option<TransactionLog>) -> AccountModel {
    match original {
        None => a,
        Some(t) => match a.dispute_state(t.spec_transaction_id()) {
            DisputeState::Disputed(amount) => AccountModel {
                available: a.available + amount as nat,
                held: a.held.remove(t.spec_transaction_id()),
                held_total: (a.held_total - amount) as nat,
                ..a
            },
            _ => a,
        },
    }
}

/// A chargeback of a disputed transaction removes its held amount for good,
/// records the chargeback and locks the account.
pub open spec fn chargeback_model(a: AccountModel, original: Option<TransactionLog>) -> AccountModel {
    match original {
        None => a,
        Some(t) => match a.dispute_state(t.spec_transaction_id()) {
            DisputeState::Disputed(amount) => AccountModel {
                held: a.held.remove(t.spec_transaction_id()),
                held_total: (a.held_total - amount) as nat,
                charged_back: a.charged_back.insert(t.spec_transaction_id()),
                locked: true,
                ..a
            },
            _ => a,
        },
    }
}

/// Holding `amount` for an undisputed `tx` keeps the account's bookkeeping
/// consistent.
proof fn lemma_hold_keeps_valid(a: AccountModel, tx: u32, amount: u128)
    requires
        a.valid(),
        a.dispute_state(tx) == DisputeState::Undisputed,
        a.available >= amount,
    ensures
        (AccountModel {
            available: (a.available - amount) as nat,
            held: a.held.insert(tx, amount),
            held_total: a.held_total + amount as nat,
            ..a
        }).valid(),
{
    let s = choose|s: Seq<(u32, u128)>|
        keys_unique(s) && entries_map(s) == a.held && entries_sum(s) == a.held_total;
    assert(!has_key(s, tx));
    lemma_map_push(s, (tx, amount));
    lemma_sum_push(s, (tx, amount));
    let b = AccountModel {
        available: (a.available - amount) as nat,
        held: a.held.insert(tx, amount),
        held_total: a.held_total + amount as nat,
        ..a
    };
    assert(keys_unique(s.push((tx, amount))) && entries_map(s.push((tx, amount))) == b.held
        && entries_sum(s.push((tx, amount))) == b.held_total);
}

/// Releasing the amount held for a disputed `tx` keeps the account's
/// bookkeeping consistent, whatever becomes of the amount.
proof fn lemma_release_keeps_valid(a: AccountModel, tx: u32, available: nat, charged_back: Set<u32>, locked: bool)
    requires
        a.valid(),
        a.held.contains_key(tx),
        available + a.held_total - a.held[tx] <= MAX_UNITS,
        forall|k: u32| #[trigger] a.held.contains_key(k) && k != tx ==> !charged_back.contains(k),
    ensures
        a.held[tx] <= a.held_total,
        (AccountModel {
            available,
            held: a.held.remove(tx),
            held_total: (a.held_total - a.held[tx]) as nat,
            charged_back,
            locked,
            ..a
        }).valid(),
{
    let s = choose|s: Seq<(u32, u128)>|
        keys_unique(s) && entries_map(s) == a.held && entries_sum(s) == a.held_total;
    let i = choose|i: int| 0 <= i < s.len() && s[i].0 == tx;
    lemma_map_at(s, i);
    lemma_map_remove(s, i);
    lemma_sum_remove(s, i);
    let b = AccountModel {
        available,
        held: a.held.remove(tx),
        held_total: (a.held_total - a.held[tx]) as nat,
        charged_back,
        locked,
        ..a
    };
    assert(keys_unique(s.remove(i)) && entries_map(s.remove(i)) == b.held
        && entries_sum(s.remove(i)) == b.held_total);
}

/// Every handler keeps the bookkeeping of an account consistent: the held
/// total stays the sum of the held amounts, available plus held stays the
/// total, no id is both held and charged back, and the client is kept.
pub proof fn lemma_handlers_keep_valid(a: AccountModel, amount: nat, original: Option<TransactionLog>)
    requires
        a.valid(),
    ensures
        deposit_model(a, amount) matches Some(b) ==> b.valid() && b.client_id == a.client_id,
        withdrawal_model(a, amount).valid(),
        dispute_model(a, original).valid(),
        resolve_model(a, original).valid(),
        chargeback_model(a, original).valid(),
{
    if let Some(t) = original {
        let tx = t.spec_transaction_id();
        match a.dispute_state(tx) {
            DisputeState::Undisputed => {
                if let Some(x) = t.spec_amount() {
                    if a.available >= x {
                        lemma_hold_keeps_valid(a, tx, x);
                    }
                }
            },
            DisputeState::Disputed(x) => {
                lemma_held_le_total(a, tx);
                lemma_release_keeps_valid(a, tx, a.available + x as nat, a.charged_back, a.locked);
                lemma_release_keeps_valid(a, tx, a.available, a.charged_back.insert(tx), true);
            },
            DisputeState::Chargeback => {},
        }
    }
}

/// A resolve or a chargeback of an undisputed transaction changes nothing.
pub proof fn lemma_settling_undisputed_is_noop(a: AccountModel, t: TransactionLog)
    requires
        a.dispute_state(t.spec_transaction_id()) == DisputeState::Undisputed,
    ensures
        resolve_model(a, Some(t)) == a,
        chargeback_model(a, Some(t)) == a,
{
}

/// After a dispute and its resolve the account is back where it was, so the
/// same transaction can be disputed again: the second dispute holds the
/// amount once more.
pub proof fn lemma_redispute_after_resolve(a: AccountModel, t: TransactionLog)
    requires
        a.valid(),
        a.dispute_state(t.spec_transaction_id()) == DisputeState::Undisputed,
        t.spec_amount() matches Some(x) && a.available >= x,
    ensures
        ({
            let x = t.spec_amount()->0;
            let disputed = dispute_model(a, Some(t));
            let resolved = resolve_model(disputed, Some(t));
            let again = dispute_model(resolved, Some(t));
            &&& resolved == a
            &&& again == disputed
            &&& again.held_total == resolved.held_total + x
            &&& again.dispute_state(t.spec_transaction_id()) == DisputeState::Disputed(x)
        }),
{
    let tx = t.spec_transaction_id();
    let x = t.spec_amount()->0;
    let disputed = dispute_model(a, Some(t));
    assert(disputed.held.contains_key(tx));
    let resolved = resolve_model(disputed, Some(t));
    assert(resolved.held =~= a.held);
    assert(resolved == a);
}

/// A chargeback is final: once a disputed transaction is charged back, no
/// later record of any kind brings it back, and disputing it again changes
/// nothing.
pub proof fn lemma_chargeback_is_final(
    a: AccountModel,
    t: TransactionLog,
    amount: nat,
    original: Option<TransactionLog>,
)
    requires
        a.dispute_state(t.spec_transaction_id()) is Disputed,
    ensures
        ({
            let charged = chargeback_model(a, Some(t));
            &&& charged.dispute_state(t.spec_transaction_id()) == DisputeState::Chargeback
            &&& charged.locked
            &&& dispute_model(charged, Some(t)) == charged
        }),
        ({
            let b = chargeback_model(a, Some(t));
            let tx = t.spec_transaction_id();
            &&& deposit_model(b, amount) matches Some(c) ==> c.charged_back.contains(tx)
            &&& withdrawal_model(b, amount).charged_back.contains(tx)
            &&& dispute_model(b, original).charged_back.contains(tx)
            &&& resolve_model(b, original).charged_back.contains(tx)
            &&& chargeback_model(b, original).charged_back.contains(tx)
        }),
{
}

/// A locked account stays locked under every handler, and deposits and
/// withdrawals leave it unchanged.
pub proof fn lemma_locked_account(a: AccountModel, amount: nat, original: Option<TransactionLog>)
    requires
        a.locked,
    ensures
        deposit_model(a, amount) == Some(a),
        withdrawal_model(a, amount) == a,
        dispute_model(a, original).locked,
        resolve_model(a, original).locked,
        chargeback_model(a, original).locked,
{
}

/// Credits `amount` to an unlocked account.
pub fn deposit(account: &mut Account, amount: u128) -> (r: Result<(), TransactionError>)
    requires
        old(account).wf(),
    ensures
        final(account).wf(),
        match deposit_model(old(account)@, amount as nat) {
            Some(a) => r is Ok && final(account)@ == a,
            None => r == Err::<(), TransactionError>(TransactionError::BalanceOverflow)
                && final(account)@ == old(account)@,
        },
{
    proof {
        account.lemma_valid();
    }
    if account.locked() {
        return Ok(());
    }
    let total = account.total_funds();
    if amount > MAX_UNITS - total {
        return Err(TransactionError::BalanceOverflow);
    }
    let new_available = account.available_funds() + amount;
    account.set_available_funds(new_available);
    Ok(())
}

/// Debits `amount` from an unlocked account with enough available funds.
pub fn withdrawal(account: &mut Account, amount: u128)
    requires
        old(account).wf(),
    ensures
        final(account).wf(),
        final(account)@ == withdrawal_model(old(account)@, amount as nat),
{
    proof {
        account.lemma_valid();
    }
    if account.locked() {
        return;
    }
    let available = account.available_funds();
    if available >= amount {
        account.set_available_funds(available - amount);
    }
}

/// Opens a dispute of `original`, the record the dispute refers to.
pub fn dispute(account: &mut Account, original: Option<TransactionLog>)
    requires
        old(account).wf(),
    ensures
        final(account).wf(),
        final(account)@ == dispute_model(old(account)@, original),
{
    if let Some(disputed_tx) = original {
        let disputed_id = disputed_tx.transaction_id();
        match account.find_dispute(disputed_id) {
            DisputeState::Undisputed => {
                if let Some(amount) = disputed_tx.amount() {
                    let available = account.available_funds();
                    if available >= amount {
                        proof {
                            account.lemma_valid();
                        }
                        account.set_available_funds(available - amount);
                        account.add_held_funds(amount, disputed_id);
                    }
                }
            },
            _ => {},
        }
    }
}

/// Resolves the dispute of `original`: the held amount returns to the
/// available funds and the transaction may be disputed again.
pub fn resolve(account: &mut Account, original: Option<TransactionLog>)
    requires
        old(account).wf(),
    ensures
        final(account).wf(),
        final(account)@ == resolve_model(old(account)@, original),
{
    if let Some(disputed_tx) = original {
        let disputed_id = disputed_tx.transaction_id();
        match account.find_dispute(disputed_id) {
            DisputeState::Disputed(amount) => {
                proof {
                    account.lemma_valid();
                    lemma_held_le_total(account@, disputed_id);
                }
                let available = account.available_funds();
                account.remove_held_funds(disputed_id);
                account.set_available_funds(available + amount);
                account.complete_dispute(disputed_id, DisputeState::Undisputed);
            },
            _ => {},
        }
    }
}

/// Finalises a dispute of `original`: the held amount leaves the account and
/// the account is locked.
pub fn chargeback(account: &mut Account, original: Option<TransactionLog>)
    requires
        old(account).wf(),
    ensures
        final(account).wf(),
        final(account)@ == chargeback_model(old(account)@, original),
{
    if let Some(disputed_tx) = original {
        let disputed_id = disputed_tx.transaction_id();
        match account.find_dispute(disputed_id) {
            DisputeState::Disputed(amount) => {
                account.remove_held_funds(disputed_id);
                account.complete_dispute(disputed_id, DisputeState::Chargeback);
                account.set_locked(true);
            },
            _ => {},
        }
    }
}

} // verus!
