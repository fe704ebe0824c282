//! Per-client account: available funds, funds held for open disputes, the
//! transactions charged back, and the lock flag.
use vstd::prelude::*;
use crate::transaction::{DisputeState, MAX_UNITS};

verus! {

/// Abstract state of an account. Balances are in ten-thousandths.
pub struct AccountModel {
    pub client_id: u16,
    pub available: nat,
    /// Amount held for each disputed transaction id.
    pub held: Map<u32, u128>,
    /// Sum of the amounts in `held`.
    pub held_total: nat,
    /// Transaction ids whose dispute ended in a chargeback.
    pub charged_back: Set<u32>,
    pub locked: bool,
}

impl AccountModel {
    /// The state of an account when a client is first seen.
    pub open spec fn fresh(client_id: u16) -> AccountModel {
        AccountModel {
            client_id,
            available: 0,
            held: Map::empty(),
            held_total: 0,
            charged_back: Set::empty(),
            locked: false,
        }
    }

    pub open spec fn total(self) -> nat {
        self.available + self.held_total
    }

    /// Undisputed when absent from both `held` and `charged_back`.
    pub open spec fn dispute_state(self, tx: u32) -> DisputeState {
        if self.held.contains_key(tx) {
            DisputeState::Disputed(self.held[tx])
        } else if self.charged_back.contains(tx) {
            DisputeState::Chargeback
        } else {
            DisputeState::Undisputed
        }
    }

    /// The bookkeeping of the account is consistent: the total fits, no id is
    /// both held and charged back, and the held total is the sum of the held
    /// amounts.
    pub open spec fn valid(self) -> bool {
        &&& self.total() <= MAX_UNITS
        &&& forall|tx: u32| #[trigger]
            self.held.contains_key(tx) ==> !self.charged_back.contains(tx)
        &&& exists|s: Seq<(u32, u128)>|
            keys_unique(s) && entries_map(s) == self.held && entries_sum(s) == self.held_total
    }
}

/// No held amount exceeds the held total.
pub proof fn lemma_held_le_total(a: AccountModel, tx: u32)
    requires
        a.valid(),
        a.held.contains_key(tx),
    ensures
        a.held[tx] <= a.held_total,
{
    let s = choose|s: Seq<(u32, u128)>|
        keys_unique(s) && entries_map(s) == a.held && entries_sum(s) == a.held_total;
    let i = choose|i: int| 0 <= i < s.len() && s[i].0 == tx;
    lemma_map_at(s, i);
    lemma_entry_le_sum(s, i);
}

/// Sum of the amounts of a list of held entries.
pub open spec fn entries_sum(s: Seq<(u32, u128)>) -> nat
    decreases s.len(),
{
    if s.len() == 0 {
        0
    } else {
        entries_sum(s.drop_last()) + s.last().1 as nat
    }
}

pub open spec fn has_key(s: Seq<(u32, u128)>, k: u32) -> bool {
    exists|i: int| 0 <= i < s.len() && s[i].0 == k
}

/// The held entries read as a map from transaction id to amount.
pub open spec fn entries_map(s: Seq<(u32, u128)>) -> Map<u32, u128> {
    Map::new(|k: u32| has_key(s, k), |k: u32| s[choose|i: int| 0 <= i < s.len() && s[i].0 == k].1)
}

pub open spec fn keys_unique(s: Seq<(u32, u128)>) -> bool {
    forall|i: int, j: int| 0 <= i < s.len() && 0 <= j < s.len() && i != j ==> s[i].0 != s[j].0
}

pub proof fn lemma_sum_push(s: Seq<(u32, u128)>, e: (u32, u128))
    ensures
        entries_sum(s.push(e)) == entries_sum(s) + e.1,
{
    assert(s.push(e).drop_last() =~= s);
}

pub proof fn lemma_sum_remove(s: Seq<(u32, u128)>, i: int)
    requires
        0 <= i < s.len(),
    ensures
        entries_sum(s.remove(i)) + s[i].1 == entries_sum(s),
    decreases s.len(),
{
    if i == s.len() - 1 {
        assert(s.remove(i) =~= s.drop_last());
    } else {
        lemma_sum_remove(s.drop_last(), i);
        assert(s.remove(i).drop_last() =~= s.drop_last().remove(i));
        assert(s.remove(i).last() == s.last());
    }
}

pub proof fn lemma_map_at(s: Seq<(u32, u128)>, i: int)
    requires
        keys_unique(s),
        0 <= i < s.len(),
    ensures
        entries_map(s).contains_key(s[i].0),
        entries_map(s)[s[i].0] == s[i].1,
{
    let k = s[i].0;
    assert(has_key(s, k));
    let j = choose|j: int| 0 <= j < s.len() && s[j].0 == k;
    assert(j == i);
}

pub proof fn lemma_map_push(s: Seq<(u32, u128)>, e: (u32, u128))
    requires
        keys_unique(s),
        !has_key(s, e.0),
    ensures
        keys_unique(s.push(e)),
        entries_map(s.push(e)) =~= entries_map(s).insert(e.0, e.1),
{
    let t = s.push(e);
    assert forall|k: u32| has_key(t, k) <==> (has_key(s, k) || k == e.0) by {
        if has_key(s, k) {
            let i = choose|i: int| 0 <= i < s.len() && s[i].0 == k;
            assert(t[i] == s[i]);
        }
        if has_key(t, k) && k != e.0 {
            let i = choose|i: int| 0 <= i < t.len() && t[i].0 == k;
            assert(s[i] == t[i]);
        }
        if k == e.0 {
            assert(t[s.len() as int] == e);
        }
    }
    assert(keys_unique(t));
    assert forall|k: u32| #[trigger] entries_map(t).contains_key(k) implies entries_map(t)[k]
        == entries_map(s).insert(e.0, e.1)[k] by {
        if k == e.0 {
            lemma_map_at(t, s.len() as int);
        } else {
            let i = choose|i: int| 0 <= i < s.len() && s[i].0 == k;
            lemma_map_at(s, i);
            lemma_map_at(t, i);
        }
    }
}

pub proof fn lemma_map_remove(s: Seq<(u32, u128)>, i: int)
    requires
        keys_unique(s),
        0 <= i < s.len(),
    ensures
        keys_unique(s.remove(i)),
        entries_map(s.remove(i)) =~= entries_map(s).remove(s[i].0),
{
    let t = s.remove(i);
    let k0 = s[i].0;
    assert forall|a: int, b: int| 0 <= a < t.len() && 0 <= b < t.len() && a != b implies t[a].0
        != t[b].0 by {
        let a2 = if a < i { a } else { a + 1 };
        let b2 = if b < i { b } else { b + 1 };
        assert(t[a] == s[a2] && t[b] == s[b2]);
    }
    assert forall|k: u32| has_key(t, k) <==> (has_key(s, k) && k != k0) by {
        if has_key(t, k) {
            let a = choose|a: int| 0 <= a < t.len() && t[a].0 == k;
            let a2 = if a < i { a } else { a + 1 };
            assert(t[a] == s[a2]);
        }
        if has_key(s, k) && k != k0 {
            let a = choose|a: int| 0 <= a < s.len() && s[a].0 == k;
            assert(a != i);
            let a2 = if a < i { a } else { a - 1 };
            assert(t[a2] == s[a]);
        }
    }
    assert forall|k: u32| #[trigger] entries_map(t).contains_key(k) implies entries_map(t)[k]
        == entries_map(s)[k] by {
        let a = choose|a: int| 0 <= a < t.len() && t[a].0 == k;
        let a2 = if a < i { a } else { a + 1 };
        assert(t[a] == s[a2]);
        lemma_map_at(t, a);
        lemma_map_at(s, a2);
    }
}


/// Every held amount is at most the sum of all held amounts.
pub proof fn lemma_entry_le_sum(s: Seq<(u32, u128)>, i: int)
    requires
        0 <= i < s.len(),
    ensures
        s[i].1 <= entries_sum(s),
{
    lemma_sum_remove(s, i);
}

/// One account. Balances are in ten-thousandths.
#[derive(Debug)]
pub struct Account {
    client_id: u16,
    available_funds: u128,
    /// Held amount per disputed transaction id, ids unique.
    held_funds: Vec<(u32, u128)>,
    /// Transaction ids whose dispute ended in a chargeback.
    completed_disputes: Vec<u32>,
    /// Sum of the amounts in `held_funds`, kept in step with it.
    held_funds_cache: u128,
    locked: bool,
}

impl View for Account {
    type V = AccountModel;

    closed spec fn view(&self) -> AccountModel {
        AccountModel {
            client_id: self.client_id,
            available: self.available_funds as nat,
            held: entries_map(self.held_funds@),
            held_total: entries_sum(self.held_funds@),
            charged_back: Set::new(|x: u32| self.completed_disputes@.contains(x)),
            locked: self.locked,
        }
    }
}

/// Balances of one account as reported in the snapshot.
#[derive(Clone, Copy, Debug, PartialEq, Eq, Structural)]
pub struct AccountLog {
    pub client_id: u16,
    pub available_funds: u128,
    pub held_funds: u128,
    pub total_funds: u128,
    pub locked: bool,
}

impl AccountLog {
    pub fn new(client_id: u16, available_funds: u128, held_funds: u128, total_funds: u128, locked: bool) -> (r: AccountLog)
        ensures
            r == (AccountLog { client_id, available_funds, held_funds, total_funds, locked }),
    {
        AccountLog { client_id, available_funds, held_funds, total_funds, locked }
    }
}

impl AccountModel {
    /// The snapshot row of an account in this state.
    pub open spec fn to_log(self) -> AccountLog {
        AccountLog {
            client_id: self.client_id,
            available_funds: self.available as u128,
            held_funds: self.held_total as u128,
            total_funds: self.total() as u128,
            locked: self.locked,
        }
    }
}

impl Account {
    /// The account's fields agree with each other and with its model.
    pub closed spec fn wf(&self) -> bool {
        &&& keys_unique(self.held_funds@)
        &&& self.held_funds_cache == entries_sum(self.held_funds@)
        &&& forall|i: int|
            0 <= i < self.held_funds@.len() ==> !self.completed_disputes@.contains(
                #[trigger] self.held_funds@[i].0,
            )
        &&& self.available_funds + entries_sum(self.held_funds@) <= MAX_UNITS
    }

    /// A well-formed account has a valid model.
    pub proof fn lemma_valid(&self)
        requires
            self.wf(),
        ensures
            self@.valid(),
    {
        let s = self.held_funds@;
        assert forall|tx: u32| #[trigger] self@.held.contains_key(tx) implies !self@.charged_back.contains(tx) by {
            let i = choose|i: int| 0 <= i < s.len() && s[i].0 == tx;
            lemma_map_at(s, i);
        }
        assert(keys_unique(s) && entries_map(s) == self@.held && entries_sum(s) == self@.held_total);
    }

    /// A fresh account for `account_id`: zero balances, unlocked.
    pub fn new(account_id: u16) -> (r: Account)
        ensures
            r.wf(),
            r@ == AccountModel::fresh(account_id),
    {
        let r = Account {
            client_id: account_id,
            available_funds: 0,
            held_funds: Vec::new(),
            completed_disputes: Vec::new(),
            held_funds_cache: 0,
            locked: false,
        };
        assert(r@.held =~= Map::<u32, u128>::empty());
        assert(r@.charged_back =~= Set::<u32>::empty());
        r
    }

    pub fn client_id(&self) -> (r: u16)
        ensures
            r == self@.client_id,
    {
        self.client_id
    }

    pub fn available_funds(&self) -> (r: u128)
        ensures
            r == self@.available,
    {
        self.available_funds
    }

    pub fn held_funds(&self) -> (r: u128)
        requires
            self.wf(),
        ensures
            r == self@.held_total,
    {
        self.held_funds_cache
    }

    pub fn total_funds(&self) -> (r: u128)
        requires
            self.wf(),
        ensures
            r == self@.total(),
    {
        self.available_funds + self.held_funds_cache
    }

    pub fn locked(&self) -> (r: bool)
        ensures
            r == self@.locked,
    {
        self.locked
    }

    /// Dispute state of transaction `transaction` in this account.
    pub fn find_dispute(&self, transaction: u32) -> (r: DisputeState)
        requires
            self.wf(),
        ensures
            r == self@.dispute_state(transaction),
    {
        let mut i: usize = 0;
        while i < self.held_funds.len()
            invariant
                self.wf(),
                0 <= i <= self.held_funds@.len(),
                forall|j: int| 0 <= j < i ==> self.held_funds@[j].0 != transaction,
            decreases self.held_funds@.len() - i,
        {
            let (tx, amount) = self.held_funds[i];
            if tx == transaction {
                proof {
                    lemma_map_at(self.held_funds@, i as int);
                }
                return DisputeState::Disputed(amount);
            }
            i = i + 1;
        }
        let mut k: usize = 0;
        while k < self.completed_disputes.len()
            invariant
                self.wf(),
                0 <= k <= self.completed_disputes@.len(),
                forall|j: int| 0 <= j < k ==> self.completed_disputes@[j] != transaction,
            decreases self.completed_disputes@.len() - k,
        {
            if self.completed_disputes[k] == transaction {
                proof {
                    assert(self.completed_disputes@.contains(transaction));
                }
                return DisputeState::Chargeback;
            }
            k = k + 1;
        }
        proof {
            assert(!self.completed_disputes@.contains(transaction));
        }
        DisputeState::Undisputed
    }

    /// Sets the available funds.
    pub fn set_available_funds(&mut self, amount: u128)
        requires
            old(self).wf(),
            amount + old(self)@.held_total <= MAX_UNITS,
        ensures
            final(self).wf(),
            final(self)@ == (AccountModel { available: amount as nat, ..old(self)@ }),
    {
        self.available_funds = amount;
    }

    /// Holds `amount` for the dispute of transaction `disputer_id`.
    pub fn add_held_funds(&mut self, amount: u128, disputer_id: u32)
        requires
            old(self).wf(),
            old(self)@.dispute_state(disputer_id) == DisputeState::Undisputed,
            old(self)@.total() + amount <= MAX_UNITS,
        ensures
            final(self).wf(),
            final(self)@ == (AccountModel {
                held: old(self)@.held.insert(disputer_id, amount),
                held_total: old(self)@.held_total + amount as nat,
                ..old(self)@
            }),
    {
        let ghost s = self.held_funds@;
        proof {
            lemma_sum_push(s, (disputer_id, amount));
            lemma_map_push(s, (disputer_id, amount));
        }
        self.held_funds.push((disputer_id, amount));
        self.held_funds_cache = self.held_funds_cache + amount;
        proof {
            assert(self.held_funds@[s.len() as int].0 == disputer_id);
            assert(self@.held =~= old(self)@.held.insert(disputer_id, amount));
        }
    }

    /// Releases the amount held for `disputer_id`; nothing happens when none is.
    pub fn remove_held_funds(&mut self, disputer_id: u32)
        requires
            old(self).wf(),
        ensures
            final(self).wf(),
            final(self)@ == (AccountModel {
                held: old(self)@.held.remove(disputer_id),
                held_total: if old(self)@.held.contains_key(disputer_id) {
                    (old(self)@.held_total - old(self)@.held[disputer_id]) as nat
                } else {
                    old(self)@.held_total
                },
                ..old(self)@
            }),
    {
        let mut i: usize = 0;
        while i < self.held_funds.len()
            invariant
                self.wf(),
                *self == *old(self),
                0 <= i <= self.held_funds@.len(),
                forall|j: int| 0 <= j < i ==> self.held_funds@[j].0 != disputer_id,
            decreases self.held_funds@.len() - i,
        {
            if self.held_funds[i].0 == disputer_id {
                let ghost s = self.held_funds@;
                proof {
                    lemma_map_at(s, i as int);
                    lemma_map_remove(s, i as int);
                    lemma_sum_remove(s, i as int);
                }
                let (_, amount) = self.held_funds.remove(i);
                self.held_funds_cache = self.held_funds_cache - amount;
                proof {
                    assert forall|j: int| 0 <= j < self.held_funds@.len() implies !self.completed_disputes@.contains(
                        #[trigger] self.held_funds@[j].0) by {
                        if j < i {
                            assert(self.held_funds@[j] == s[j]);
                        } else {
                            assert(self.held_funds@[j] == s[j + 1]);
                        }
                    }
                }
                return;
            }
            i = i + 1;
        }
        proof {
            assert(!self@.held.contains_key(disputer_id));
            assert(self@.held.remove(disputer_id) =~= self@.held);
        }
    }

    pub fn set_locked(&mut self, locked: bool)
        requires
            old(self).wf(),
        ensures
            final(self).wf(),
            final(self)@ == (AccountModel { locked, ..old(self)@ }),
    {
        self.locked = locked;
    }

    /// Records the end of the dispute of `disputer_id`. Only a chargeback is
    /// kept; any other state leaves the account as it is, so that the
    /// transaction can be disputed again.
    pub fn complete_dispute(&mut self, disputer_id: u32, state: DisputeState)
        requires
            old(self).wf(),
            !old(self)@.held.contains_key(disputer_id),
        ensures
            final(self).wf(),
            final(self)@ == (if state == DisputeState::Chargeback {
                AccountModel { charged_back: old(self)@.charged_back.insert(disputer_id), ..old(self)@ }
            } else {
                old(self)@
            }),
    {
        match state {
            DisputeState::Chargeback => {
                let ghost c = self.completed_disputes@;
                self.completed_disputes.push(disputer_id);
                proof {
                    assert forall|x: u32| #[trigger] self.completed_disputes@.contains(x) <==> (c.contains(x) || x == disputer_id) by {
                        if c.contains(x) {
                            let j = choose|j: int| 0 <= j < c.len() && c[j] == x;
                            assert(self.completed_disputes@[j] == x);
                        }
                        if x == disputer_id {
                            assert(self.completed_disputes@[c.len() as int] == x);
                        }
                        if self.completed_disputes@.contains(x) && x != disputer_id {
                            let j = choose|j: int| 0 <= j < self.completed_disputes@.len() && self.completed_disputes@[j] == x;
                            assert(c[j] == x);
                        }
                    }
                    assert(self@.charged_back =~= old(self)@.charged_back.insert(disputer_id));
                    assert forall|i: int| 0 <= i < self.held_funds@.len() implies !self.completed_disputes@.contains(
                        #[trigger] self.held_funds@[i].0) by {
                        lemma_map_at(self.held_funds@, i);
                        assert(!c.contains(self.held_funds@[i].0));
                    }
                }
            },
            _ => {},
        }
    }

    /// The snapshot row of this account.
    pub fn to_csv(&self) -> (r: AccountLog)
        requires
            self.wf(),
        ensures
            r == self@.to_log(),
    {
        AccountLog {
            client_id: self.client_id,
            available_funds: self.available_funds,
            held_funds: self.held_funds_cache,
            total_funds: self.available_funds + self.held_funds_cache,
            locked: self.locked,
        }
    }
}

} // verus!
