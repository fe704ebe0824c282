//! The replay coordinator: the ledger, the account table, the backward lookup
//! of the record a dispute refers to, and the final snapshot.
use vstd::prelude::*;
use crate::account::{Account, AccountLog, AccountModel};
use crate::transaction::{validated, RecordError, TransactionLog, TransactionLogCsv};
use crate::account::{entries_map, entries_sum, keys_unique};
use crate::transactions::{
    lemma_handlers_keep_valid, lemma_locked_account, chargeback, chargeback_model, deposit, deposit_model, dispute, dispute_model, resolve,
    resolve_model, withdrawal, withdrawal_model,
};

verus! {

/// The transaction log, in file order.
pub struct Ledger {
    records: Vec<TransactionLog>,
}

impl View for Ledger {
    type V = Seq<TransactionLog>;

    closed spec fn view(&self) -> Seq<TransactionLog> {
        self.records@
    }
}

impl Ledger {
    pub fn new(records: Vec<TransactionLog>) -> (r: Ledger)
        ensures
            r@ == records@,
    {
        Ledger { records }
    }

    /// Validates every row of a log, in order. The first row that is not a
    /// valid record ends the reading with its error.
    pub fn from_rows(rows: &Vec<TransactionLogCsv>) -> (r: Result<Ledger, RecordError>)
        ensures
            r matches Ok(l) ==> l@.len() == rows@.len() && forall|i: int|
                0 <= i < rows@.len() ==> validated(rows@[i], Ok::<TransactionLog, RecordError>(#[trigger] l@[i])),
            r matches Err(e) ==> exists|i: int|
                0 <= i < rows@.len() && validated(rows@[i], Err::<TransactionLog, RecordError>(e))
                && forall|j: int| 0 <= j < i ==> row_valid(#[trigger] rows@[j]),
    {
        let mut records: Vec<TransactionLog> = Vec::new();
        let mut i: usize = 0;
        while i < rows.len()
            invariant
                i <= rows@.len(),
                records@.len() == i,
                forall|j: int| 0 <= j < i ==> validated(rows@[j], Ok::<TransactionLog, RecordError>(#[trigger] records@[j])),
            decreases rows@.len() - i,
        {
            match TransactionLog::try_from_csv(rows[i]) {
                Ok(t) => {
                    records.push(t);
                },
                Err(e) => {
                    proof {
                        assert forall|j: int| 0 <= j < i implies row_valid(#[trigger] rows@[j]) by {
                            assert(validated(rows@[j], Ok::<TransactionLog, RecordError>(records@[j])));
                        }
                        let k = i as int;
                        assert(0 <= k < rows@.len() && validated(rows@[k], Err::<TransactionLog, RecordError>(e))
                            && forall|j: int| 0 <= j < k ==> row_valid(#[trigger] rows@[j]));
                    }
                    return Err(e);
                },
            }
            i = i + 1;
        }
        Ok(Ledger { records })
    }

    pub fn len(&self) -> (r: usize)
        ensures
            r == self@.len(),
    {
        self.records.len()
    }

    /// The record at chronological index `index`.
    pub fn get(&self, index: usize) -> (r: TransactionLog)
        requires
            index < self@.len(),
        ensures
            r == self@[index as int],
    {
        self.records[index]
    }
}

/// `row` validates to a record.
pub open spec fn row_valid(row: TransactionLogCsv) -> bool {
    exists|t: TransactionLog| validated(row, Ok::<TransactionLog, RecordError>(t))
}

/// `t` is a record of client `client` with transaction id `tx`.
pub open spec fn refers_to(t: TransactionLog, client: u16, tx: u32) -> bool {
    t.spec_transaction_id() == tx && t.spec_client_id() == client
}

/// The first of the first `n` records of `log` that is of client `client` with
/// transaction id `tx`.
pub open spec fn lookup(log: Seq<TransactionLog>, n: int, client: u16, tx: u32) -> Option<
    TransactionLog,
>
    decreases n,
{
    if n <= 0 {
        None
    } else {
        match lookup(log, n - 1, client, tx) {
            Some(t) => Some(t),
            None => if refers_to(log[n - 1], client, tx) {
                Some(log[n - 1])
            } else {
                None
            },
        }
    }
}

/// Once found in a prefix, the lookup result stays the same for longer prefixes.
proof fn lemma_lookup_found(log: Seq<TransactionLog>, k: int, n: int, client: u16, tx: u32)
    requires
        lookup(log, k, client, tx) is Some,
        k <= n,
    ensures
        lookup(log, n, client, tx) == lookup(log, k, client, tx),
    decreases n - k,
{
    if k < n {
        lemma_lookup_found(log, k, n - 1, client, tx);
    }
}

/// The account of `client` in table `m`; a fresh one if absent.
pub open spec fn account_of(m: Map<u16, AccountModel>, client: u16) -> AccountModel {
    if m.contains_key(client) {
        m[client]
    } else {
        AccountModel::fresh(client)
    }
}

/// Effect of record `t` on account `a`, given the record it refers to.
/// `None` when the record cannot be applied without overflow.
pub open spec fn apply_model(a: AccountModel, t: TransactionLog, original: Option<TransactionLog>) -> Option<
    AccountModel,
> {
    match t {
        TransactionLog::Deposit { amount, .. } => deposit_model(a, amount as nat),
        TransactionLog::Withdrawal { amount, .. } => Some(withdrawal_model(a, amount as nat)),
        TransactionLog::Dispute { .. } => Some(dispute_model(a, original)),
        TransactionLog::Resolve { .. } => Some(resolve_model(a, original)),
        TransactionLog::Chargeback { .. } => Some(chargeback_model(a, original)),
    }
}

/// Replays the record at index `i` of `log` on table `m`. The dispute family
/// refers to the first earlier record of the same client and transaction id.
pub open spec fn step(m: Map<u16, AccountModel>, log: Seq<TransactionLog>, i: int) -> Option<
    Map<u16, AccountModel>,
> {
    let t = log[i];
    let c = t.spec_client_id();
    match apply_model(account_of(m, c), t, lookup(log, i, c, t.spec_transaction_id())) {
        Some(a) => Some(m.insert(c, a)),
        None => None,
    }
}

/// The account table after replaying the first `n` records of `log`; `None`
/// when one of them overflows.
pub open spec fn replay(log: Seq<TransactionLog>, n: nat) -> Option<Map<u16, AccountModel>>
    decreases n,
{
    if n == 0 {
        Some(Map::empty())
    } else {
        match replay(log, (n - 1) as nat) {
            Some(m) => step(m, log, n - 1),
            None => None,
        }
    }
}

proof fn lemma_replay_stays_none(log: Seq<TransactionLog>, k: nat, n: nat)
    requires
        replay(log, k) is None,
        k <= n,
    ensures
        replay(log, n) is None,
    decreases n - k,
{
    if k < n {
        lemma_replay_stays_none(log, k, (n - 1) as nat);
    }
}

pub open spec fn sorted_by_client(s: Seq<AccountModel>) -> bool {
    forall|i: int, j: int| 0 <= i < j < s.len() ==> s[i].client_id < s[j].client_id
}

/// A list of accounts, one per client, read as a table keyed by client.
pub open spec fn table_map(s: Seq<AccountModel>) -> Map<u16, AccountModel> {
    Map::new(
        |c: u16| exists|i: int| 0 <= i < s.len() && s[i].client_id == c,
        |c: u16| s[choose|i: int| 0 <= i < s.len() && s[i].client_id == c],
    )
}

proof fn lemma_table_at(s: Seq<AccountModel>, i: int)
    requires
        sorted_by_client(s),
        0 <= i < s.len(),
    ensures
        table_map(s).contains_key(s[i].client_id),
        table_map(s)[s[i].client_id] == s[i],
{
    let c = s[i].client_id;
    let j = choose|j: int| 0 <= j < s.len() && s[j].client_id == c;
    assert(j == i);
}

proof fn lemma_table_update(s: Seq<AccountModel>, i: int, a: AccountModel)
    requires
        sorted_by_client(s),
        0 <= i < s.len(),
        a.client_id == s[i].client_id,
    ensures
        sorted_by_client(s.update(i, a)),
        table_map(s.update(i, a)) =~= table_map(s).insert(a.client_id, a),
{
    let t = s.update(i, a);
    assert(sorted_by_client(t));
    assert forall|c: u16| #[trigger] table_map(t).contains_key(c) <==> table_map(s).insert(a.client_id, a).contains_key(c) by {
        if table_map(s).contains_key(c) {
            let j = choose|j: int| 0 <= j < s.len() && s[j].client_id == c;
            assert(t[j].client_id == c);
        }
        if table_map(t).contains_key(c) {
            let j = choose|j: int| 0 <= j < t.len() && t[j].client_id == c;
            assert(s[j].client_id == c);
        }
    }
    assert forall|c: u16| #[trigger] table_map(t).contains_key(c) implies table_map(t)[c] == table_map(s).insert(a.client_id, a)[c] by {
        let j = choose|j: int| 0 <= j < t.len() && t[j].client_id == c;
        lemma_table_at(t, j);
        if j != i {
            lemma_table_at(s, j);
        }
    }
}

proof fn lemma_table_insert(s: Seq<AccountModel>, i: int, a: AccountModel)
    requires
        sorted_by_client(s),
        0 <= i <= s.len(),
        forall|j: int| 0 <= j < i ==> s[j].client_id < a.client_id,
        i < s.len() ==> a.client_id < s[i].client_id,
    ensures
        sorted_by_client(s.insert(i, a)),
        !table_map(s).contains_key(a.client_id),
        table_map(s.insert(i, a)) =~= table_map(s).insert(a.client_id, a),
{
    let t = s.insert(i, a);
    assert forall|x: int, y: int| 0 <= x < y < t.len() implies t[x].client_id < t[y].client_id by {
        if y < i {
        } else if y == i {
        } else if x < i {
            assert(t[y] == s[y - 1]);
            if i < s.len() {
                assert(s[i].client_id <= s[y - 1].client_id);
            }
        } else if x == i {
            assert(t[y] == s[y - 1]);
            assert(s[i].client_id <= s[y - 1].client_id);
        } else {
            assert(t[x] == s[x - 1] && t[y] == s[y - 1]);
        }
    }
    assert(!table_map(s).contains_key(a.client_id)) by {
        if table_map(s).contains_key(a.client_id) {
            let j = choose|j: int| 0 <= j < s.len() && s[j].client_id == a.client_id;
            if j >= i {
                assert(s[i].client_id <= s[j].client_id);
            }
        }
    }
    assert forall|c: u16| #[trigger] table_map(t).contains_key(c) <==> table_map(s).insert(a.client_id, a).contains_key(c) by {
        if table_map(s).contains_key(c) {
            let j = choose|j: int| 0 <= j < s.len() && s[j].client_id == c;
            if j < i {
                assert(t[j] == s[j]);
            } else {
                assert(t[j + 1] == s[j]);
            }
        }
        if c == a.client_id {
            assert(t[i] == a);
        }
        if table_map(t).contains_key(c) && c != a.client_id {
            let j = choose|j: int| 0 <= j < t.len() && t[j].client_id == c;
            if j < i {
                assert(s[j] == t[j]);
            } else {
                assert(j != i);
                assert(s[j - 1] == t[j]);
            }
        }
    }
    assert forall|c: u16| #[trigger] table_map(t).contains_key(c) implies table_map(t)[c] == table_map(s).insert(a.client_id, a)[c] by {
        let j = choose|j: int| 0 <= j < t.len() && t[j].client_id == c;
        lemma_table_at(t, j);
        if j < i {
            assert(s[j] == t[j]);
            lemma_table_at(s, j);
        } else if j > i {
            assert(s[j - 1] == t[j]);
            lemma_table_at(s, j - 1);
        }
    }
}


/// A replay that stopped: the record at `index` would take its account's total
/// funds past `MAX_UNITS`.
#[derive(Clone, Copy, Debug, PartialEq, Eq, Structural)]
pub enum ReplayError {
    BalanceOverflow { index: usize },
}

/// The ledger and the table of accounts, kept in ascending order of client id.
pub struct Bank {
    accounts: Vec<Account>,
    ledger: Ledger,
}

pub open spec fn account_views(s: Seq<Account>) -> Seq<AccountModel> {
    s.map_values(|a: Account| a@)
}

impl Bank {
    /// The accounts, one per client, in ascending order of client id, each well formed.
    pub closed spec fn wf(&self) -> bool {
        &&& forall|i: int| 0 <= i < self.accounts@.len() ==> #[trigger] self.accounts@[i].wf()
        &&& sorted_by_client(account_views(self.accounts@))
    }

    /// The account table, keyed by client id.
    pub closed spec fn model(&self) -> Map<u16, AccountModel> {
        table_map(account_views(self.accounts@))
    }

    /// The accounts in table order.
    pub closed spec fn table(&self) -> Seq<AccountModel> {
        account_views(self.accounts@)
    }

    pub closed spec fn ledger_view(&self) -> Seq<TransactionLog> {
        self.ledger@
    }

    /// A bank with no accounts yet over `ledger`.
    pub fn new(ledger: Ledger) -> (r: Bank)
        ensures
            r.wf(),
            r.model() == Map::<u16, AccountModel>::empty(),
            r.ledger_view() == ledger@,
    {
        let r = Bank { accounts: Vec::new(), ledger };
        assert(r.model() =~= Map::<u16, AccountModel>::empty());
        r
    }

    /// Position in the table of the account of `account_id`, created fresh when
    /// the client has none yet.
    pub fn account(&mut self, account_id: u16) -> (r: usize)
        requires
            old(self).wf(),
        ensures
            final(self).wf(),
            final(self).ledger_view() == old(self).ledger_view(),
            final(self).model() == old(self).model().insert(account_id, account_of(old(self).model(), account_id)),
            r < final(self).table().len(),
            final(self).table()[r as int] == account_of(old(self).model(), account_id),
    {
        let ghost views = account_views(self.accounts@);
        let mut i: usize = 0;
        while i < self.accounts.len()
            invariant
                self.wf(),
                *self == *old(self),
                views == account_views(self.accounts@),
                0 <= i <= self.accounts@.len(),
                forall|j: int| 0 <= j < i ==> views[j].client_id < account_id,
            ensures
                self.wf(),
                *self == *old(self),
                views == account_views(self.accounts@),
                0 <= i <= self.accounts@.len(),
                forall|j: int| 0 <= j < i ==> views[j].client_id < account_id,
                i < self.accounts@.len() ==> views[i as int].client_id > account_id,
            decreases self.accounts@.len() - i,
        {
            let c = self.accounts[i].client_id();
            if c == account_id {
                proof {
                    lemma_table_at(views, i as int);
                    assert(self.model().insert(account_id, account_of(self.model(), account_id)) =~= self.model());
                }
                return i;
            }
            if c > account_id {
                break;
            }
            i = i + 1;
        }
        let fresh = Account::new(account_id);
        proof {
            lemma_table_insert(views, i as int, fresh@);
        }
        self.accounts.insert(i, fresh);
        proof {
            assert(account_views(self.accounts@) =~= views.insert(i as int, fresh@));
            assert forall|j: int| 0 <= j < self.accounts@.len() implies #[trigger] self.accounts@[j].wf() by {
                if j < i {
                    assert(self.accounts@[j] == old(self).accounts@[j]);
                } else if j > i {
                    assert(self.accounts@[j] == old(self).accounts@[j - 1]);
                }
            }
        }
        i
    }

    /// The first of the first `max_ledger_search` records of the ledger that is
    /// of client `account_id` with transaction id `transaction_id`.
    pub fn transaction(&self, max_ledger_search: usize, account_id: u16, transaction_id: u32) -> (r:
        Option<TransactionLog>)
        ensures
            r == lookup(
                self.ledger_view(),
                if max_ledger_search <= self.ledger_view().len() {
                    max_ledger_search as int
                } else {
                    self.ledger_view().len() as int
                },
                account_id,
                transaction_id,
            ),
    {
        let n = if max_ledger_search <= self.ledger.len() {
            max_ledger_search
        } else {
            self.ledger.len()
        };
        let mut j: usize = 0;
        while j < n
            invariant
                n <= self.ledger@.len(),
                n == (if max_ledger_search <= self.ledger@.len() {
                    max_ledger_search as int
                } else {
                    self.ledger@.len() as int
                }),
                j <= n,
                lookup(self.ledger@, j as int, account_id, transaction_id) is None,
            decreases n - j,
        {
            let t = self.ledger.get(j);
            if t.transaction_id() == transaction_id && t.client_id() == account_id {
                proof {
                    assert(lookup(self.ledger@, j + 1, account_id, transaction_id) == Some(t));
                    lemma_lookup_found(self.ledger@, j + 1, n as int, account_id, transaction_id);
                }
                return Some(t);
            }
            j = j + 1;
        }
        None
    }

    /// Replays the record at chronological index `index` on its client's
    /// account, creating the account when needed. A dispute, resolve or
    /// chargeback acts on the first earlier record of the same client and
    /// transaction id, if any.
    pub fn execute(&mut self, index: usize) -> (r: Result<(), ReplayError>)
        requires
            old(self).wf(),
            index < old(self).ledger_view().len(),
        ensures
            final(self).wf(),
            final(self).ledger_view() == old(self).ledger_view(),
            match step(old(self).model(), old(self).ledger_view(), index as int) {
                Some(m) => r is Ok && final(self).model() == m,
                None => r == Err::<(), ReplayError>(ReplayError::BalanceOverflow { index }),
            },
    {
        let t = self.ledger.get(index);
        let client_id = t.client_id();
        let tx_id = t.transaction_id();
        let idx = self.account(client_id);
        let ghost before = self.accounts@;
        let ghost m1 = self.model();
        proof {
            assert(self.accounts@[idx as int].wf());
        }
        let mut overflowed = false;
        match t {
            TransactionLog::Deposit { amount, .. } => {
                match deposit(&mut self.accounts[idx], amount) {
                    Ok(()) => {},
                    Err(_) => {
                        overflowed = true;
                    },
                }
            },
            TransactionLog::Withdrawal { amount, .. } => {
                withdrawal(&mut self.accounts[idx], amount);
            },
            TransactionLog::Dispute { .. } => {
                let original = self.transaction(index, client_id, tx_id);
                dispute(&mut self.accounts[idx], original);
            },
            TransactionLog::Resolve { .. } => {
                let original = self.transaction(index, client_id, tx_id);
                resolve(&mut self.accounts[idx], original);
            },
            TransactionLog::Chargeback { .. } => {
                let original = self.transaction(index, client_id, tx_id);
                chargeback(&mut self.accounts[idx], original);
            },
        }
        proof {
            let after = self.accounts@;
            let a = after[idx as int]@;
            assert(after =~= before.update(idx as int, after[idx as int]));
            assert(account_views(after) =~= account_views(before).update(idx as int, a));
            lemma_table_update(account_views(before), idx as int, a);
            assert forall|j: int| 0 <= j < after.len() implies #[trigger] after[j].wf() by {
                if j != idx {
                    assert(after[j] == before[j]);
                }
            }
            assert(m1.insert(client_id, a) =~= old(self).model().insert(client_id, a));
        }
        if overflowed {
            Err(ReplayError::BalanceOverflow { index })
        } else {
            Ok(())
        }
    }

    /// Replays the whole ledger from empty accounts and returns the balance of
    /// every account, in ascending order of client id. The table is emptied
    /// afterwards, so the call can be repeated.
    pub fn ordered_accounts_balance(&mut self) -> (r: Result<Vec<AccountLog>, ReplayError>)
        requires
            old(self).wf(),
        ensures
            final(self).wf(),
            final(self).ledger_view() == old(self).ledger_view(),
            final(self).model() == Map::<u16, AccountModel>::empty(),
            replayed(old(self).ledger_view(), r),
    {
        let ghost log = self.ledger@;
        self.accounts = Vec::new();
        proof {
            assert(self.model() =~= Map::<u16, AccountModel>::empty());
        }
        let n = self.ledger.len();
        let mut i: usize = 0;
        while i < n
            invariant
                self.wf(),
                self.ledger@ == log,
                log == old(self).ledger@,
                n == log.len(),
                i <= n,
                replay(log, i as nat) == Some(self.model()),
            decreases n - i,
        {
            let ghost m0 = self.model();
            match self.execute(i) {
                Ok(()) => {},
                Err(e) => {
                    proof {
                        assert(step(m0, log, i as int) is None);
                        assert(replay(log, (i + 1) as nat) is None);
                        lemma_replay_stays_none(log, (i + 1) as nat, n as nat);
                    }
                    self.accounts = Vec::new();
                    proof {
                        assert(self.model() =~= Map::<u16, AccountModel>::empty());
                    }
                    return Err(e);
                },
            }
            i = i + 1;
        }
        let ghost m = self.model();
        let ghost views = account_views(self.accounts@);
        let mut rows: Vec<AccountLog> = Vec::new();
        let mut k: usize = 0;
        while k < self.accounts.len()
            invariant
                self.wf(),
                views == account_views(self.accounts@),
                m == table_map(views),
                k <= views.len(),
                rows@.len() == k,
                forall|j: int| 0 <= j < k ==> #[trigger] rows@[j] == views[j].to_log(),
            decreases views.len() - k,
        {
            proof {
                assert(self.accounts@[k as int].wf());
            }
            let row = self.accounts[k].to_csv();
            rows.push(row);
            k = k + 1;
        }
        proof {
            assert forall|j: int| 0 <= j < rows@.len() implies m.contains_key(#[trigger] rows@[j].client_id)
                && rows@[j] == m[rows@[j].client_id].to_log() by {
                lemma_table_at(views, j);
            }
            assert forall|c: u16| #[trigger] m.contains_key(c) implies exists|j: int|
                0 <= j < rows@.len() && rows@[j].client_id == c by {
                let j = choose|j: int| 0 <= j < views.len() && views[j].client_id == c;
                assert(rows@[j].client_id == c);
            }
        }
        self.accounts = Vec::new();
        proof {
            assert(self.model() =~= Map::<u16, AccountModel>::empty());
        }
        Ok(rows)
    }
}

/// `rows` is the snapshot of table `m`: one row per account, in ascending
/// order of client id.
pub open spec fn snapshot_of(m: Map<u16, AccountModel>, rows: Seq<AccountLog>) -> bool {
    &&& forall|i: int, j: int| 0 <= i < j < rows.len() ==> rows[i].client_id < rows[j].client_id
    &&& forall|i: int| 0 <= i < rows.len() ==> m.contains_key(#[trigger] rows[i].client_id)
        && rows[i] == m[rows[i].client_id].to_log()
    &&& forall|c: u16| #[trigger] m.contains_key(c) ==> exists|i: int| 0 <= i < rows.len() && rows[i].client_id == c
}

/// `r` is the outcome of replaying all of `log`: the snapshot of the final
/// table, or the index of the first record that overflows.
pub open spec fn replayed(log: Seq<TransactionLog>, r: Result<Vec<AccountLog>, ReplayError>) -> bool {
    match replay(log, log.len()) {
        Some(m) => r matches Ok(rows) && snapshot_of(m, rows@),
        None => r matches Err(ReplayError::BalanceOverflow { index }) && index < log.len()
            && replay(log, index as nat) is Some && step(replay(log, index as nat)->0, log, index as int) is None,
    }
}

/// A fresh account is valid.
proof fn lemma_fresh_valid(c: u16)
    ensures
        AccountModel::fresh(c).valid(),
{
    let s = Seq::<(u32, u128)>::empty();
    assert(entries_map(s) =~= Map::<u32, u128>::empty());
    assert(keys_unique(s) && entries_sum(s) == 0);
}

/// At every point of a replay every account is valid: its held total is the
/// sum of its held amounts, so available plus held is its total, and it is
/// filed under its own client id.
pub proof fn lemma_replay_valid(log: Seq<TransactionLog>, n: nat)
    ensures
        replay(log, n) matches Some(m) ==> forall|c: u16| #[trigger] m.contains_key(c) ==> m[c].valid()
            && m[c].client_id == c && m[c].total() == m[c].available + m[c].held_total,
    decreases n,
{
    if n > 0 {
        lemma_replay_valid(log, (n - 1) as nat);
        if let Some(m) = replay(log, (n - 1) as nat) {
            let t = log[n - 1];
            let c = t.spec_client_id();
            let a = account_of(m, c);
            lemma_fresh_valid(c);
            let original = lookup(log, n - 1, c, t.spec_transaction_id());
            let amount: nat = match t.spec_amount() {
                Some(x) => x as nat,
                None => 0,
            };
            lemma_handlers_keep_valid(a, amount, original);
        }
    }
}

/// Once an account is locked it stays locked for the rest of the replay.
pub proof fn lemma_lock_persists(log: Seq<TransactionLog>, k: nat, n: nat, c: u16)
    requires
        k <= n,
        replay(log, k) matches Some(m) && m.contains_key(c) && m[c].locked,
        replay(log, n) is Some,
    ensures
        replay(log, n)->0.contains_key(c),
        replay(log, n)->0[c].locked,
    decreases n - k,
{
    if k < n {
        if replay(log, (n - 1) as nat) is None {
            lemma_replay_stays_none(log, (n - 1) as nat, n);
        }
        lemma_lock_persists(log, k, (n - 1) as nat, c);
        let m = replay(log, (n - 1) as nat)->0;
        let t = log[n - 1];
        let c2 = t.spec_client_id();
        let amount: nat = match t.spec_amount() {
            Some(x) => x as nat,
            None => 0,
        };
        if c2 == c {
            lemma_locked_account(m[c], amount, lookup(log, n - 1, c2, t.spec_transaction_id()));
        }
    }
}

/// A deposit or withdrawal for a locked account is ignored: the whole table
/// is left as it was.
pub proof fn lemma_locked_ignores_funds_moves(log: Seq<TransactionLog>, j: nat)
    requires
        j < log.len(),
        log[j as int] is Deposit || log[j as int] is Withdrawal,
        replay(log, j) matches Some(m) && m.contains_key(log[j as int].spec_client_id())
            && m[log[j as int].spec_client_id()].locked,
    ensures
        replay(log, j + 1) == replay(log, j),
{
    let m = replay(log, j)->0;
    let t = log[j as int];
    let c = t.spec_client_id();
    lemma_locked_account(m[c], t.spec_amount()->0 as nat, None);
    assert(m.insert(c, m[c]) =~= m);
}

} // verus!
