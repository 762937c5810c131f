//! The ledger engine: it applies transaction records one at a time to
//! per-client account state, enforces the balance and locking
//! invariants, and implements the dispute/resolve/chargeback lifecycle.
//!
//! The engine's whole behaviour is given by the specification-level
//! transition function [`step`]: `apply` promises that the new engine
//! state and the returned result are exactly what `step` says.

use vstd::prelude::*;
use crate::amount::Amount;
use crate::tx::{Client, Tx, TxId, TxType};

verus! {

/// Per-client ledger state: the balances and the lock flag.
#[derive(Clone, Copy, PartialEq, Eq, Structural, Debug)]
pub struct Account {
    pub client: Client,
    pub available: Amount,
    pub held: Amount,
    pub total: Amount,
    pub locked: bool,
}

/// The mathematical model of one account: balances as unbounded
/// integers (in 1/10,000 units) and the lock flag.
#[verifier::ext_equal]
pub ghost struct AccountModel {
    pub available: int,
    pub held: int,
    pub total: int,
    pub locked: bool,
}

impl View for Account {
    type V = AccountModel;

    open spec fn view(&self) -> AccountModel {
        AccountModel {
            available: self.available@,
            held: self.held@,
            total: self.total@,
            locked: self.locked,
        }
    }
}

/// The mathematical model of the whole engine: the account registry,
/// the amount recorded for every deposit and withdrawal, and the
/// transaction ids currently under an open dispute.
#[verifier::ext_equal]
pub ghost struct LedgerModel {
    pub accounts: Map<u16, AccountModel>,
    pub tx_amounts: Map<u32, int>,
    pub disputed: Set<u32>,
}

/// Why a transaction was rejected. Every failure is scoped to the one
/// transaction: the caller reports it and goes on with the stream.
#[derive(Clone, Copy, PartialEq, Eq, Structural, Debug)]
pub enum ApplyError {
    /// A mutating operation was attempted against a locked account.
    AccountLocked,
    /// A withdrawal exceeded the available balance.
    InsufficientFunds,
    /// A dispute, resolve or chargeback referenced a transaction id
    /// with no recorded amount.
    UnknownTx,
    /// A dispute's amount exceeded the available funds; the account is
    /// locked as a protective side effect.
    DisputeUncoverable,
    /// A resolve or chargeback found held funds below the amount being
    /// released: an internal bookkeeping fault.
    HeldFundsInconsistent,
    /// The operation would overflow the underlying scaled integer of a
    /// balance; it is rejected with no state change beyond the account
    /// registry touch.
    AmountOverflow,
}

/// A fresh account: zero balances, not locked.
pub open spec fn zero_account() -> AccountModel {
    AccountModel { available: 0, held: 0, total: 0, locked: false }
}

/// The account for `c`, or a fresh one if none is registered yet.
pub open spec fn account_or_zero(m: Map<u16, AccountModel>, c: u16) -> AccountModel {
    if m.contains_key(c) {
        m[c]
    } else {
        zero_account()
    }
}

/// The registry after the lazy "create on first touch" of `c`.
pub open spec fn touch(m: Map<u16, AccountModel>, c: u16) -> Map<u16, AccountModel> {
    m.insert(c, account_or_zero(m, c))
}

/// Whether `v` fits the underlying scaled integer of a balance.
pub open spec fn fits(v: int) -> bool {
    i64::MIN <= v <= i64::MAX
}

/// Recording the amount of a deposit or withdrawal: the side table gains
/// the record's amount under its transaction id, when that id is new.
pub open spec fn record_amount(s: LedgerModel, tx: Tx) -> LedgerModel {
    if (tx.ty is Deposit || tx.ty is Withdrawal) && !s.tx_amounts.contains_key(tx.id.0) {
        LedgerModel { tx_amounts: s.tx_amounts.insert(tx.id.0, tx.amount@), ..s }
    } else {
        s
    }
}

/// A deposit: credit `a` to both `available` and `total` of the
/// account, unless it is locked or a balance would overflow.
pub open spec fn step_deposit(s: LedgerModel, c: u16, a: int) -> (LedgerModel, Result<
    (),
    ApplyError,
>) {
    let m = touch(s.accounts, c);
    let acct = m[c];
    let s1 = LedgerModel { accounts: m, ..s };
    if acct.locked {
        (s1, Err(ApplyError::AccountLocked))
    } else if !fits(acct.available + a) || !fits(acct.total + a) {
        (s1, Err(ApplyError::AmountOverflow))
    } else {
        (
            LedgerModel {
                accounts: m.insert(
                    c,
                    AccountModel { available: acct.available + a, total: acct.total + a, ..acct },
                ),
                ..s
            },
            Ok(()),
        )
    }
}

/// A withdrawal: debit `a` from `available` and `total`, unless the
/// account is locked, the available balance is below `a`, or a balance
/// would overflow.
pub open spec fn step_withdraw(s: LedgerModel, c: u16, a: int) -> (LedgerModel, Result<
    (),
    ApplyError,
>) {
    let m = touch(s.accounts, c);
    let acct = m[c];
    let s1 = LedgerModel { accounts: m, ..s };
    if acct.locked {
        (s1, Err(ApplyError::AccountLocked))
    } else if acct.available < a {
        (s1, Err(ApplyError::InsufficientFunds))
    } else if !fits(acct.available - a) || !fits(acct.total - a) {
        (s1, Err(ApplyError::AmountOverflow))
    } else {
        (
            LedgerModel {
                accounts: m.insert(
                    c,
                    AccountModel { available: acct.available - a, total: acct.total - a, ..acct },
                ),
                ..s
            },
            Ok(()),
        )
    }
}

/// A dispute: move the referenced amount from `available` to `held` and
/// open the dispute. An id with no recorded amount is rejected without
/// touching the registry; an amount the available balance cannot cover
/// locks the account as a protective measure.
pub open spec fn step_dispute(s: LedgerModel, c: u16, id: u32) -> (LedgerModel, Result<
    (),
    ApplyError,
>) {
    if !s.tx_amounts.contains_key(id) {
        (s, Err(ApplyError::UnknownTx))
    } else {
        let a = s.tx_amounts[id];
        let m = touch(s.accounts, c);
        let acct = m[c];
        let s1 = LedgerModel { accounts: m, ..s };
        if acct.locked {
            (s1, Err(ApplyError::AccountLocked))
        } else if acct.available < a {
            (
                LedgerModel { accounts: m.insert(c, AccountModel { locked: true, ..acct }), ..s },
                Err(ApplyError::DisputeUncoverable),
            )
        } else if !fits(acct.available - a) || !fits(acct.held + a) {
            (s1, Err(ApplyError::AmountOverflow))
        } else {
            (
                LedgerModel {
                    accounts: m.insert(
                        c,
                        AccountModel {
                            available: acct.available - a,
                            held: acct.held + a,
                            ..acct
                        },
                    ),
                    disputed: s.disputed.insert(id),
                    ..s
                },
                Ok(()),
            )
        }
    }
}

/// A resolve: release a disputed amount back to `available` and close
/// the dispute. Against an id not currently disputed it is a no-op
/// success.
pub open spec fn step_resolve(s: LedgerModel, c: u16, id: u32) -> (LedgerModel, Result<
    (),
    ApplyError,
>) {
    if !s.disputed.contains(id) {
        (s, Ok(()))
    } else if !s.tx_amounts.contains_key(id) {
        (s, Err(ApplyError::UnknownTx))
    } else {
        let a = s.tx_amounts[id];
        let m = touch(s.accounts, c);
        let acct = m[c];
        let s1 = LedgerModel { accounts: m, ..s };
        if acct.locked {
            (s1, Err(ApplyError::AccountLocked))
        } else if acct.held < a {
            (s1, Err(ApplyError::HeldFundsInconsistent))
        } else if !fits(acct.available + a) || !fits(acct.held - a) {
            (s1, Err(ApplyError::AmountOverflow))
        } else {
            (
                LedgerModel {
                    accounts: m.insert(
                        c,
                        AccountModel {
                            available: acct.available + a,
                            held: acct.held - a,
                            ..acct
                        },
                    ),
                    disputed: s.disputed.remove(id),
                    ..s
                },
                Ok(()),
            )
        }
    }
}

/// A chargeback: take a disputed amount out of the ledger entirely
/// (`held` and `total` drop by it), permanently lock the account, and
/// close the dispute. Against an id not currently disputed it is a
/// no-op success.
pub open spec fn step_chargeback(s: LedgerModel, c: u16, id: u32) -> (LedgerModel, Result<
    (),
    ApplyError,
>) {
    if !s.disputed.contains(id) {
        (s, Ok(()))
    } else if !s.tx_amounts.contains_key(id) {
        (s, Err(ApplyError::UnknownTx))
    } else {
        let a = s.tx_amounts[id];
        let m = touch(s.accounts, c);
        let acct = m[c];
        let s1 = LedgerModel { accounts: m, ..s };
        if acct.locked {
            (s1, Err(ApplyError::AccountLocked))
        } else if acct.held < a {
            (s1, Err(ApplyError::HeldFundsInconsistent))
        } else if !fits(acct.held - a) || !fits(acct.total - a) {
            (s1, Err(ApplyError::AmountOverflow))
        } else {
            (
                LedgerModel {
                    accounts: m.insert(
                        c,
                        AccountModel {
                            held: acct.held - a,
                            total: acct.total - a,
                            locked: true,
                            ..acct
                        },
                    ),
                    disputed: s.disputed.remove(id),
                    ..s
                },
                Ok(()),
            )
        }
    }
}

/// The whole transition for one transaction record: first the amount of
/// a deposit or withdrawal is recorded, then the record is dispatched
/// by kind.
pub open spec fn step(s: LedgerModel, tx: Tx) -> (LedgerModel, Result<(), ApplyError>) {
    let s1 = record_amount(s, tx);
    match tx.ty {
        TxType::Deposit => step_deposit(s1, tx.client.0, tx.amount@),
        TxType::Withdrawal => step_withdraw(s1, tx.client.0, tx.amount@),
        TxType::Dispute => step_dispute(s1, tx.client.0, tx.id.0),
        TxType::Resolve => step_resolve(s1, tx.client.0, tx.id.0),
        TxType::Chargeback => step_chargeback(s1, tx.client.0, tx.id.0),
    }
}

/// Every registered account balances: `total` is `available` plus
/// `held`.
pub open spec fn balances_consistent(s: LedgerModel) -> bool {
    forall|c: u16|
        s.accounts.contains_key(c) ==> #[trigger] s.accounts[c].total == s.accounts[c].available
            + s.accounts[c].held
}

/// Applying a whole stream of records in order, starting from `s`.
pub open spec fn run(s: LedgerModel, txs: Seq<Tx>) -> LedgerModel
    decreases txs.len(),
{
    if txs.len() == 0 {
        s
    } else {
        run(step(s, txs[0]).0, txs.drop_first())
    }
}

/// After every transition each account still balances: `total` equals
/// `available` plus `held`, whether the transaction succeeded or was
/// rejected.
pub proof fn lemma_balances_preserved(s: LedgerModel, tx: Tx)
    requires
        balances_consistent(s),
    ensures
        balances_consistent(step(s, tx).0),
{
}

/// A locked account is terminal: no later transaction, of any kind and
/// for any client, changes its balances or its lock flag.
pub proof fn lemma_locked_is_terminal(s: LedgerModel, tx: Tx, c: u16)
    requires
        s.accounts.contains_key(c),
        s.accounts[c].locked,
    ensures
        step(s, tx).0.accounts.contains_key(c),
        step(s, tx).0.accounts[c] == s.accounts[c],
{
}

/// Resolving or charging back a transaction id not currently disputed
/// is a no-op: it succeeds and changes nothing.
pub proof fn lemma_undisputed_noop(s: LedgerModel, tx: Tx)
    requires
        tx.ty is Resolve || tx.ty is Chargeback,
        !s.disputed.contains(tx.id.0),
    ensures
        step(s, tx).0 == s,
        step(s, tx).1 == Ok::<(), ApplyError>(()),
{
}

/// The account registry that a sequence of account rows stands for.
pub open spec fn accounts_map(s: Seq<Account>) -> Map<u16, AccountModel>
    decreases s.len(),
{
    if s.len() == 0 {
        Map::empty()
    } else {
        accounts_map(s.drop_last()).insert(s.last().client.0, s.last()@)
    }
}

/// The amount side table that a sequence of id/amount pairs stands for.
pub open spec fn amounts_map(s: Seq<(TxId, Amount)>) -> Map<u32, int>
    decreases s.len(),
{
    if s.len() == 0 {
        Map::empty()
    } else {
        amounts_map(s.drop_last()).insert(s.last().0.0, s.last().1@)
    }
}

/// The set of disputed ids that a sequence of ids stands for.
pub open spec fn disputed_set(s: Seq<TxId>) -> Set<u32>
    decreases s.len(),
{
    if s.len() == 0 {
        Set::empty()
    } else {
        disputed_set(s.drop_last()).insert(s.last().0)
    }
}

proof fn lemma_accounts_map_contains(s: Seq<Account>, c: u16)
    ensures
        accounts_map(s).contains_key(c) <==> exists|i: int|
            0 <= i < s.len() && (#[trigger] s[i]).client.0 == c,
    decreases s.len(),
{
    if s.len() > 0 {
        lemma_accounts_map_contains(s.drop_last(), c);
        if s.last().client.0 == c {
            assert(s[s.len() - 1].client.0 == c);
        } else {
            if exists|i: int| 0 <= i < s.len() && (#[trigger] s[i]).client.0 == c {
                let i = choose|i: int| 0 <= i < s.len() && (#[trigger] s[i]).client.0 == c;
                assert(s.drop_last()[i].client.0 == c);
            }
        }
    }
}

proof fn lemma_accounts_map_index(s: Seq<Account>, i: int)
    requires
        forall|p: int, q: int|
            0 <= p < q < s.len() ==> (#[trigger] s[p]).client.0 != (#[trigger] s[q]).client.0,
        0 <= i < s.len(),
    ensures
        accounts_map(s).contains_key(s[i].client.0),
        accounts_map(s)[s[i].client.0] == s[i]@,
    decreases s.len(),
{
    if i < s.len() - 1 {
        assert forall|p: int, q: int| 0 <= p < q < s.drop_last().len() implies (#[trigger] s.drop_last()[p]).client.0
            != (#[trigger] s.drop_last()[q]).client.0 by {
            assert(s.drop_last()[p] == s[p]);
            assert(s.drop_last()[q] == s[q]);
        }
        lemma_accounts_map_index(s.drop_last(), i);
        assert(s[i].client.0 != s[s.len() - 1].client.0);
    }
}

proof fn lemma_accounts_map_update(s: Seq<Account>, i: int, a: Account)
    requires
        forall|p: int, q: int|
            0 <= p < q < s.len() ==> (#[trigger] s[p]).client.0 != (#[trigger] s[q]).client.0,
        0 <= i < s.len(),
        a.client.0 == s[i].client.0,
    ensures
        accounts_map(s.update(i, a)) == accounts_map(s).insert(a.client.0, a@),
    decreases s.len(),
{
    if i == s.len() - 1 {
        assert(s.update(i, a).drop_last() =~= s.drop_last());
        assert(accounts_map(s.update(i, a)) =~= accounts_map(s).insert(a.client.0, a@));
    } else {
        assert forall|p: int, q: int| 0 <= p < q < s.drop_last().len() implies (#[trigger] s.drop_last()[p]).client.0
            != (#[trigger] s.drop_last()[q]).client.0 by {
            assert(s.drop_last()[p] == s[p]);
            assert(s.drop_last()[q] == s[q]);
        }
        lemma_accounts_map_update(s.drop_last(), i, a);
        assert(s.update(i, a).drop_last() =~= s.drop_last().update(i, a));
        assert(s[i].client.0 != s[s.len() - 1].client.0);
        assert(accounts_map(s.update(i, a)) =~= accounts_map(s).insert(a.client.0, a@));
    }
}

proof fn lemma_accounts_map_insert(s: Seq<Account>, i: int, a: Account)
    requires
        0 <= i <= s.len(),
        forall|j: int| 0 <= j < s.len() ==> (#[trigger] s[j]).client.0 != a.client.0,
    ensures
        accounts_map(s.insert(i, a)) == accounts_map(s).insert(a.client.0, a@),
    decreases s.len(),
{
    if i == s.len() {
        assert(s.insert(i, a).drop_last() =~= s);
        assert(s.insert(i, a).last() == a);
    } else {
        assert forall|j: int| 0 <= j < s.drop_last().len() implies (#[trigger] s.drop_last()[j]).client.0
            != a.client.0 by {
            assert(s.drop_last()[j] == s[j]);
        }
        lemma_accounts_map_insert(s.drop_last(), i, a);
        assert(s.insert(i, a).drop_last() =~= s.drop_last().insert(i, a));
        assert(s.insert(i, a).last() == s.last());
        assert(s.last().client.0 != a.client.0);
        assert(accounts_map(s.insert(i, a)) =~= accounts_map(s).insert(a.client.0, a@));
    }
}

proof fn lemma_amounts_map_contains(s: Seq<(TxId, Amount)>, x: u32)
    ensures
        amounts_map(s).contains_key(x) <==> exists|i: int|
            0 <= i < s.len() && (#[trigger] s[i]).0.0 == x,
    decreases s.len(),
{
    if s.len() > 0 {
        lemma_amounts_map_contains(s.drop_last(), x);
        if s.last().0.0 == x {
            assert(s[s.len() - 1].0.0 == x);
        } else {
            if exists|i: int| 0 <= i < s.len() && (#[trigger] s[i]).0.0 == x {
                let i = choose|i: int| 0 <= i < s.len() && (#[trigger] s[i]).0.0 == x;
                assert(s.drop_last()[i].0.0 == x);
            }
        }
    }
}

proof fn lemma_amounts_map_index(s: Seq<(TxId, Amount)>, i: int)
    requires
        forall|p: int, q: int|
            0 <= p < q < s.len() ==> (#[trigger] s[p]).0.0 != (#[trigger] s[q]).0.0,
        0 <= i < s.len(),
    ensures
        amounts_map(s).contains_key(s[i].0.0),
        amounts_map(s)[s[i].0.0] == s[i].1@,
    decreases s.len(),
{
    if i < s.len() - 1 {
        assert forall|p: int, q: int| 0 <= p < q < s.drop_last().len() implies (#[trigger] s.drop_last()[p]).0.0
            != (#[trigger] s.drop_last()[q]).0.0 by {
            assert(s.drop_last()[p] == s[p]);
            assert(s.drop_last()[q] == s[q]);
        }
        lemma_amounts_map_index(s.drop_last(), i);
        assert(s[i].0.0 != s[s.len() - 1].0.0);
    }
}

proof fn lemma_amounts_map_push(s: Seq<(TxId, Amount)>, p: (TxId, Amount))
    ensures
        amounts_map(s.push(p)) == amounts_map(s).insert(p.0.0, p.1@),
{
    assert(s.push(p).drop_last() =~= s);
    assert(s.push(p).last() == p);
}

proof fn lemma_disputed_set_contains(s: Seq<TxId>, x: u32)
    ensures
        disputed_set(s).contains(x) <==> exists|i: int| 0 <= i < s.len() && (#[trigger] s[i]).0 == x,
    decreases s.len(),
{
    if s.len() > 0 {
        lemma_disputed_set_contains(s.drop_last(), x);
        if s.last().0 == x {
            assert(s[s.len() - 1].0 == x);
        } else {
            if exists|i: int| 0 <= i < s.len() && (#[trigger] s[i]).0 == x {
                let i = choose|i: int| 0 <= i < s.len() && (#[trigger] s[i]).0 == x;
                assert(s.drop_last()[i].0 == x);
            }
        }
    }
}

proof fn lemma_disputed_set_push(s: Seq<TxId>, id: TxId)
    ensures
        disputed_set(s.push(id)) == disputed_set(s).insert(id.0),
{
    assert(s.push(id).drop_last() =~= s);
    assert(s.push(id).last() == id);
}

proof fn lemma_disputed_set_remove(s: Seq<TxId>, i: int)
    requires
        forall|p: int, q: int| 0 <= p < q < s.len() ==> (#[trigger] s[p]).0 != (#[trigger] s[q]).0,
        0 <= i < s.len(),
    ensures
        disputed_set(s.remove(i)) == disputed_set(s).remove(s[i].0),
    decreases s.len(),
{
    if i == s.len() - 1 {
        assert(s.remove(i) =~= s.drop_last());
        lemma_disputed_set_contains(s.drop_last(), s[i].0);
        assert forall|j: int| 0 <= j < s.drop_last().len() implies (#[trigger] s.drop_last()[j]).0
            != s[i].0 by {
            assert(s.drop_last()[j] == s[j]);
        }
        assert(!disputed_set(s.drop_last()).contains(s[i].0));
        assert(disputed_set(s.remove(i)) =~= disputed_set(s).remove(s[i].0));
    } else {
        assert forall|p: int, q: int| 0 <= p < q < s.drop_last().len() implies (#[trigger] s.drop_last()[p]).0
            != (#[trigger] s.drop_last()[q]).0 by {
            assert(s.drop_last()[p] == s[p]);
            assert(s.drop_last()[q] == s[q]);
        }
        lemma_disputed_set_remove(s.drop_last(), i);
        assert(s.remove(i).drop_last() =~= s.drop_last().remove(i));
        assert(s.remove(i).last() == s.last());
        assert(s.drop_last()[i] == s[i]);
        assert(s[i].0 != s[s.len() - 1].0);
        assert(disputed_set(s.remove(i)) =~= disputed_set(s).remove(s[i].0));
    }
}

/// Records are applied strictly in order with no batching: running a
/// stream split anywhere is the same as running the first part, then
/// (after any number of reads, which change nothing) the second.
pub proof fn lemma_run_append(s: LedgerModel, txs1: Seq<Tx>, txs2: Seq<Tx>)
    ensures
        run(s, txs1 + txs2) == run(run(s, txs1), txs2),
    decreases txs1.len(),
{
    if txs1.len() == 0 {
        assert(txs1 + txs2 =~= txs2);
    } else {
        assert((txs1 + txs2).drop_first() =~= txs1.drop_first() + txs2);
        lemma_run_append(step(s, txs1[0]).0, txs1.drop_first(), txs2);
    }
}

/// The ledger before any transaction: no accounts, no recorded
/// amounts, no open disputes.
pub open spec fn empty_ledger() -> LedgerModel {
    LedgerModel { accounts: Map::empty(), tx_amounts: Map::empty(), disputed: Set::empty() }
}

/// The engine: the account registry (kept in ascending client order),
/// the amount recorded for every deposit and withdrawal, and the
/// transaction ids currently under an open dispute.
pub struct Engine {
    accounts: Vec<Account>,
    tx_amounts: Vec<(TxId, Amount)>,
    disputed: Vec<TxId>,
}

impl View for Engine {
    type V = LedgerModel;

    closed spec fn view(&self) -> LedgerModel {
        LedgerModel {
            accounts: accounts_map(self.accounts@),
            tx_amounts: amounts_map(self.tx_amounts@),
            disputed: disputed_set(self.disputed@),
        }
    }
}

impl Engine {
    /// Well-formedness: account rows are in strictly ascending client
    /// order (so clients are unique), every account balances, and the
    /// side table and dispute list hold each id at most once.
    pub closed spec fn wf(&self) -> bool {
        &&& (forall|i: int, j: int|
            0 <= i < j < self.accounts@.len() ==> (#[trigger] self.accounts@[i]).client.0 < (
            #[trigger] self.accounts@[j]).client.0)
        &&& (forall|i: int|
            0 <= i < self.accounts@.len() ==> (#[trigger] self.accounts@[i]).total@
                == self.accounts@[i].available@ + self.accounts@[i].held@)
        &&& (forall|i: int, j: int|
            0 <= i < j < self.tx_amounts@.len() ==> (#[trigger] self.tx_amounts@[i]).0.0 != (
            #[trigger] self.tx_amounts@[j]).0.0)
        &&& (forall|i: int, j: int|
            0 <= i < j < self.disputed@.len() ==> (#[trigger] self.disputed@[i]).0 != (
            #[trigger] self.disputed@[j]).0)
    }

    /// A fresh engine with no state.
    pub fn new() -> (r: Engine)
        ensures
            r.wf(),
            r@ == empty_ledger(),
            balances_consistent(r@),
    {
        let r = Engine { accounts: Vec::new(), tx_amounts: Vec::new(), disputed: Vec::new() };
        proof {
            assert(r@ =~= empty_ledger());
        }
        r
    }

    /// The position of `client`'s account row, if one is registered.
    fn find_account(&self, client: Client) -> (r: Option<usize>)
        ensures
            match r {
                Some(i) => i < self.accounts@.len() && self.accounts@[i as int].client == client,
                None => forall|i: int|
                    0 <= i < self.accounts@.len() ==> (#[trigger] self.accounts@[i]).client.0
                        != client.0,
            },
    {
        let mut i: usize = 0;
        while i < self.accounts.len()
            invariant
                i <= self.accounts@.len(),
                forall|j: int|
                    0 <= j < i ==> (#[trigger] self.accounts@[j]).client.0 != client.0,
            decreases self.accounts@.len() - i,
        {
            if self.accounts[i].client.0 == client.0 {
                return Some(i);
            }
            i += 1;
        }
        None
    }

    /// The single enforcement point for account lookup: the position of
    /// `client`'s account, created fresh if absent, or `AccountLocked`
    /// if the account is locked.
    fn account_index(&mut self, client: Client) -> (r: Result<usize, ApplyError>)
        requires
            old(self).wf(),
        ensures
            final(self).wf(),
            final(self).tx_amounts == old(self).tx_amounts,
            final(self).disputed == old(self).disputed,
            accounts_map(final(self).accounts@) == touch(
                accounts_map(old(self).accounts@),
                client.0,
            ),
            match r {
                Ok(i) => {
                    &&& i < final(self).accounts@.len()
                    &&& final(self).accounts@[i as int].client == client
                    &&& !final(self).accounts@[i as int].locked
                    &&& final(self).accounts@[i as int]@ == account_or_zero(
                        accounts_map(old(self).accounts@),
                        client.0,
                    )
                },
                Err(e) => {
                    &&& e == ApplyError::AccountLocked
                    &&& final(self).accounts@ == old(self).accounts@
                    &&& account_or_zero(accounts_map(old(self).accounts@), client.0).locked
                },
            },
    {
        match self.find_account(client) {
            Some(i) => {
                proof {
                    lemma_accounts_map_index(self.accounts@, i as int);
                    assert(accounts_map(self.accounts@) =~= touch(
                        accounts_map(self.accounts@),
                        client.0,
                    ));
                }
                if self.accounts[i].locked {
                    Err(ApplyError::AccountLocked)
                } else {
                    Ok(i)
                }
            },
            None => {
                proof {
                    lemma_accounts_map_contains(self.accounts@, client.0);
                }
                let fresh = Account {
                    client,
                    available: Amount::zero(),
                    held: Amount::zero(),
                    total: Amount::zero(),
                    locked: false,
                };
                let mut p: usize = 0;
                while p < self.accounts.len() && self.accounts[p].client.0 < client.0
                    invariant
                        old(self).wf(),
                        self == old(self),
                        p <= self.accounts@.len(),
                        forall|j: int|
                            0 <= j < p ==> (#[trigger] self.accounts@[j]).client.0 < client.0,
                    decreases self.accounts@.len() - p,
                {
                    p += 1;
                }
                proof {
                    lemma_accounts_map_insert(self.accounts@, p as int, fresh);
                }
                self.accounts.insert(p, fresh);
                proof {
                    let s = old(self).accounts@;
                    let t = self.accounts@;
                    assert forall|i: int, j: int| 0 <= i < j < t.len() implies (
                    #[trigger] t[i]).client.0 < (#[trigger] t[j]).client.0 by {
                        if j < p {
                            assert(t[i] == s[i] && t[j] == s[j]);
                        } else if i < p && j == p {
                            assert(t[i] == s[i]);
                        } else if i < p && j > p {
                            assert(t[i] == s[i] && t[j] == s[j - 1]);
                            assert(s[j - 1].client.0 != client.0);
                            if j - 1 == p {
                                assert(!(s[p as int].client.0 < client.0));
                            } else {
                                assert(!(s[p as int].client.0 < client.0));
                                assert(s[p as int].client.0 < s[j - 1].client.0);
                            }
                        } else if i == p {
                            assert(t[j] == s[j - 1]);
                            assert(s[j - 1].client.0 != client.0);
                            if j - 1 == p {
                                assert(!(s[p as int].client.0 < client.0));
                            } else {
                                assert(!(s[p as int].client.0 < client.0));
                                assert(s[p as int].client.0 < s[j - 1].client.0);
                            }
                        } else {
                            assert(t[i] == s[i - 1] && t[j] == s[j - 1]);
                        }
                    }
                }
                Ok(p)
            },
        }
    }

    /// The amount recorded for `id`, if any.
    fn find_amount(&self, id: TxId) -> (r: Option<Amount>)
        requires
            self.wf(),
        ensures
            match r {
                Some(a) => self@.tx_amounts.contains_key(id.0) && a@ == self@.tx_amounts[id.0],
                None => !self@.tx_amounts.contains_key(id.0),
            },
    {
        let mut i: usize = 0;
        while i < self.tx_amounts.len()
            invariant
                self.wf(),
                i <= self.tx_amounts@.len(),
                forall|j: int| 0 <= j < i ==> (#[trigger] self.tx_amounts@[j]).0.0 != id.0,
            decreases self.tx_amounts@.len() - i,
        {
            if self.tx_amounts[i].0.0 == id.0 {
                proof {
                    lemma_amounts_map_index(self.tx_amounts@, i as int);
                }
                return Some(self.tx_amounts[i].1);
            }
            i += 1;
        }
        proof {
            lemma_amounts_map_contains(self.tx_amounts@, id.0);
        }
        None
    }

    /// Record the amount of a deposit or withdrawal under its id; a
    /// later record under an id already recorded changes nothing.
    fn record(&mut self, id: TxId, amount: Amount)
        requires
            old(self).wf(),
        ensures
            final(self).wf(),
            final(self).accounts == old(self).accounts,
            final(self).disputed == old(self).disputed,
            final(self)@.tx_amounts == if old(self)@.tx_amounts.contains_key(id.0) {
                old(self)@.tx_amounts
            } else {
                old(self)@.tx_amounts.insert(id.0, amount@)
            },
    {
        match self.find_amount(id) {
            Some(_) => {},
            None => {
                proof {
                    lemma_amounts_map_contains(self.tx_amounts@, id.0);
                    lemma_amounts_map_push(self.tx_amounts@, (id, amount));
                }
                self.tx_amounts.push((id, amount));
            },
        }
    }

    /// Whether `id` is currently under an open dispute.
    fn disputed_contains(&self, id: TxId) -> (r: bool)
        requires
            self.wf(),
        ensures
            r == self@.disputed.contains(id.0),
    {
        let mut i: usize = 0;
        proof {
            lemma_disputed_set_contains(self.disputed@, id.0);
        }
        while i < self.disputed.len()
            invariant
                i <= self.disputed@.len(),
                self@.disputed.contains(id.0) <==> exists|j: int|
                    0 <= j < self.disputed@.len() && (#[trigger] self.disputed@[j]).0 == id.0,
                forall|j: int| 0 <= j < i ==> (#[trigger] self.disputed@[j]).0 != id.0,
            decreases self.disputed@.len() - i,
        {
            if self.disputed[i].0 == id.0 {
                return true;
            }
            i += 1;
        }
        false
    }

    /// Open a dispute on `id`; opening one already open changes
    /// nothing.
    fn add_dispute(&mut self, id: TxId)
        requires
            old(self).wf(),
        ensures
            final(self).wf(),
            final(self).accounts == old(self).accounts,
            final(self).tx_amounts == old(self).tx_amounts,
            final(self)@.disputed == old(self)@.disputed.insert(id.0),
    {
        if self.disputed_contains(id) {
            proof {
                assert(old(self)@.disputed.insert(id.0) =~= old(self)@.disputed);
            }
        } else {
            proof {
                lemma_disputed_set_contains(self.disputed@, id.0);
                lemma_disputed_set_push(self.disputed@, id);
            }
            self.disputed.push(id);
        }
    }

    /// Close the dispute on `id`.
    fn remove_dispute(&mut self, id: TxId)
        requires
            old(self).wf(),
            old(self)@.disputed.contains(id.0),
        ensures
            final(self).wf(),
            final(self).accounts == old(self).accounts,
            final(self).tx_amounts == old(self).tx_amounts,
            final(self)@.disputed == old(self)@.disputed.remove(id.0),
    {
        let mut i: usize = 0;
        while i < self.disputed.len()
            invariant
                old(self).wf(),
                self == old(self),
                i <= self.disputed@.len(),
                forall|j: int| 0 <= j < i ==> (#[trigger] self.disputed@[j]).0 != id.0,
            decreases self.disputed@.len() - i,
        {
            if self.disputed[i].0 == id.0 {
                proof {
                    lemma_disputed_set_remove(self.disputed@, i as int);
                }
                self.disputed.remove(i);
                proof {
                    let s = old(self).disputed@;
                    let t = self.disputed@;
                    assert forall|p: int, q: int| 0 <= p < q < t.len() implies (
                    #[trigger] t[p]).0 != (#[trigger] t[q]).0 by {
                        if q < i {
                            assert(t[p] == s[p] && t[q] == s[q]);
                        } else if p < i {
                            assert(t[p] == s[p] && t[q] == s[q + 1]);
                        } else {
                            assert(t[p] == s[p + 1] && t[q] == s[q + 1]);
                        }
                    }
                }
                return ;
            }
            i += 1;
        }
        proof {
            lemma_disputed_set_contains(self.disputed@, id.0);
        }
    }

    /// Credit `amount` to `client`'s account.
    fn deposit(&mut self, client: Client, amount: Amount) -> (r: Result<(), ApplyError>)
        requires
            old(self).wf(),
        ensures
            final(self).wf(),
            final(self)@ == step_deposit(old(self)@, client.0, amount@).0,
            r == step_deposit(old(self)@, client.0, amount@).1,
    {
        let ghost s0 = self@;
        match self.account_index(client) {
            Err(e) => {
                proof {
                    assert(self@ =~= step_deposit(s0, client.0, amount@).0);
                }
                Err(e)
            },
            Ok(i) => {
                let acct = self.accounts[i];
                let na = acct.available.checked_add(amount);
                let nt = acct.total.checked_add(amount);
                match (na, nt) {
                    (Some(av), Some(tv)) => {
                        let updated = Account {
                            client: acct.client,
                            available: av,
                            held: acct.held,
                            total: tv,
                            locked: acct.locked,
                        };
                        proof {
                            lemma_accounts_map_update(self.accounts@, i as int, updated);
                        }
                        self.accounts.set(i, updated);
                        proof {
                            assert(self@ =~= step_deposit(s0, client.0, amount@).0);
                        }
                        Ok(())
                    },
                    _ => {
                        proof {
                            assert(self@ =~= step_deposit(s0, client.0, amount@).0);
                        }
                        Err(ApplyError::AmountOverflow)
                    },
                }
            },
        }
    }

    /// Debit `amount` from `client`'s account, if the available balance
    /// covers it.
    fn withdraw(&mut self, client: Client, amount: Amount) -> (r: Result<(), ApplyError>)
        requires
            old(self).wf(),
        ensures
            final(self).wf(),
            final(self)@ == step_withdraw(old(self)@, client.0, amount@).0,
            r == step_withdraw(old(self)@, client.0, amount@).1,
    {
        let ghost s0 = self@;
        match self.account_index(client) {
            Err(e) => {
                proof {
                    assert(self@ =~= step_withdraw(s0, client.0, amount@).0);
                }
                Err(e)
            },
            Ok(i) => {
                let acct = self.accounts[i];
                if acct.available.lt(&amount) {
                    proof {
                        assert(self@ =~= step_withdraw(s0, client.0, amount@).0);
                    }
                    return Err(ApplyError::InsufficientFunds);
                }
                let na = acct.available.checked_sub(amount);
                let nt = acct.total.checked_sub(amount);
                match (na, nt) {
                    (Some(av), Some(tv)) => {
                        let updated = Account {
                            client: acct.client,
                            available: av,
                            held: acct.held,
                            total: tv,
                            locked: acct.locked,
                        };
                        proof {
                            lemma_accounts_map_update(self.accounts@, i as int, updated);
                        }
                        self.accounts.set(i, updated);
                        proof {
                            assert(self@ =~= step_withdraw(s0, client.0, amount@).0);
                        }
                        Ok(())
                    },
                    _ => {
                        proof {
                            assert(self@ =~= step_withdraw(s0, client.0, amount@).0);
                        }
                        Err(ApplyError::AmountOverflow)
                    },
                }
            },
        }
    }

    /// Open a dispute against the transaction `id`: move its recorded
    /// amount from available to held funds.
    fn dispute(&mut self, client: Client, id: TxId) -> (r: Result<(), ApplyError>)
        requires
            old(self).wf(),
        ensures
            final(self).wf(),
            final(self)@ == step_dispute(old(self)@, client.0, id.0).0,
            r == step_dispute(old(self)@, client.0, id.0).1,
    {
        let ghost s0 = self@;
        let amount = match self.find_amount(id) {
            Some(a) => a,
            None => {
                return Err(ApplyError::UnknownTx);
            },
        };
        match self.account_index(client) {
            Err(e) => {
                proof {
                    assert(self@ =~= step_dispute(s0, client.0, id.0).0);
                }
                Err(e)
            },
            Ok(i) => {
                let acct = self.accounts[i];
                if acct.available.lt(&amount) {
                    let updated = Account {
                        client: acct.client,
                        available: acct.available,
                        held: acct.held,
                        total: acct.total,
                        locked: true,
                    };
                    proof {
                        lemma_accounts_map_update(self.accounts@, i as int, updated);
                    }
                    self.accounts.set(i, updated);
                    proof {
                        assert(self@ =~= step_dispute(s0, client.0, id.0).0);
                    }
                    return Err(ApplyError::DisputeUncoverable);
                }
                let na = acct.available.checked_sub(amount);
                let nh = acct.held.checked_add(amount);
                match (na, nh) {
                    (Some(av), Some(hv)) => {
                        let updated = Account {
                            client: acct.client,
                            available: av,
                            held: hv,
                            total: acct.total,
                            locked: acct.locked,
                        };
                        proof {
                            lemma_accounts_map_update(self.accounts@, i as int, updated);
                        }
                        self.accounts.set(i, updated);
                        self.add_dispute(id);
                        proof {
                            assert(self@ =~= step_dispute(s0, client.0, id.0).0);
                        }
                        Ok(())
                    },
                    _ => {
                        proof {
                            assert(self@ =~= step_dispute(s0, client.0, id.0).0);
                        }
                        Err(ApplyError::AmountOverflow)
                    },
                }
            },
        }
    }

    /// Close the dispute on `id` with no penalty: release its amount
    /// from held back to available funds.
    fn resolve(&mut self, client: Client, id: TxId) -> (r: Result<(), ApplyError>)
        requires
            old(self).wf(),
        ensures
            final(self).wf(),
            final(self)@ == step_resolve(old(self)@, client.0, id.0).0,
            r == step_resolve(old(self)@, client.0, id.0).1,
    {
        let ghost s0 = self@;
        if !self.disputed_contains(id) {
            return Ok(());
        }
        let amount = match self.find_amount(id) {
            Some(a) => a,
            None => {
                return Err(ApplyError::UnknownTx);
            },
        };
        match self.account_index(client) {
            Err(e) => {
                proof {
                    assert(self@ =~= step_resolve(s0, client.0, id.0).0);
                }
                Err(e)
            },
            Ok(i) => {
                let acct = self.accounts[i];
                if acct.held.lt(&amount) {
                    proof {
                        assert(self@ =~= step_resolve(s0, client.0, id.0).0);
                    }
                    return Err(ApplyError::HeldFundsInconsistent);
                }
                let na = acct.available.checked_add(amount);
                let nh = acct.held.checked_sub(amount);
                match (na, nh) {
                    (Some(av), Some(hv)) => {
                        let updated = Account {
                            client: acct.client,
                            available: av,
                            held: hv,
                            total: acct.total,
                            locked: acct.locked,
                        };
                        proof {
                            lemma_accounts_map_update(self.accounts@, i as int, updated);
                        }
                        self.accounts.set(i, updated);
                        self.remove_dispute(id);
                        proof {
                            assert(self@ =~= step_resolve(s0, client.0, id.0).0);
                        }
                        Ok(())
                    },
                    _ => {
                        proof {
                            assert(self@ =~= step_resolve(s0, client.0, id.0).0);
                        }
                        Err(ApplyError::AmountOverflow)
                    },
                }
            },
        }
    }

    /// Close the dispute on `id` by reversal: take its amount out of
    /// the ledger and permanently lock the account.
    fn chargeback(&mut self, client: Client, id: TxId) -> (r: Result<(), ApplyError>)
        requires
            old(self).wf(),
        ensures
            final(self).wf(),
            final(self)@ == step_chargeback(old(self)@, client.0, id.0).0,
            r == step_chargeback(old(self)@, client.0, id.0).1,
    {
        let ghost s0 = self@;
        if !self.disputed_contains(id) {
            return Ok(());
        }
        let amount = match self.find_amount(id) {
            Some(a) => a,
            None => {
                return Err(ApplyError::UnknownTx);
            },
        };
        match self.account_index(client) {
            Err(e) => {
                proof {
                    assert(self@ =~= step_chargeback(s0, client.0, id.0).0);
                }
                Err(e)
            },
            Ok(i) => {
                let acct = self.accounts[i];
                if acct.held.lt(&amount) {
                    proof {
                        assert(self@ =~= step_chargeback(s0, client.0, id.0).0);
                    }
                    return Err(ApplyError::HeldFundsInconsistent);
                }
                let nh = acct.held.checked_sub(amount);
                let nt = acct.total.checked_sub(amount);
                match (nh, nt) {
                    (Some(hv), Some(tv)) => {
                        let updated = Account {
                            client: acct.client,
                            available: acct.available,
                            held: hv,
                            total: tv,
                            locked: true,
                        };
                        proof {
                            lemma_accounts_map_update(self.accounts@, i as int, updated);
                        }
                        self.accounts.set(i, updated);
                        self.remove_dispute(id);
                        proof {
                            assert(self@ =~= step_chargeback(s0, client.0, id.0).0);
                        }
                        Ok(())
                    },
                    _ => {
                        proof {
                            assert(self@ =~= step_chargeback(s0, client.0, id.0).0);
                        }
                        Err(ApplyError::AmountOverflow)
                    },
                }
            },
        }
    }

    /// Apply one transaction record: the new engine state and the
    /// result are exactly what the transition function [`step`] says of
    /// the old state and the record.
    pub fn apply(&mut self, tx: Tx) -> (r: Result<(), ApplyError>)
        requires
            old(self).wf(),
        ensures
            final(self).wf(),
            final(self)@ == step(old(self)@, tx).0,
            r == step(old(self)@, tx).1,
            balances_consistent(final(self)@),
    {
        proof {
            self.lemma_wf_balances();
        }
        let ghost s0 = self@;
        if matches!(tx.ty, TxType::Deposit | TxType::Withdrawal) {
            self.record(tx.id, tx.amount);
        }
        proof {
            assert(self@ =~= record_amount(s0, tx));
        }
        match tx.ty {
            TxType::Deposit => self.deposit(tx.client, tx.amount),
            TxType::Withdrawal => self.withdraw(tx.client, tx.amount),
            TxType::Dispute => self.dispute(tx.client, tx.id),
            TxType::Resolve => self.resolve(tx.client, tx.id),
            TxType::Chargeback => self.chargeback(tx.client, tx.id),
        }
    }

    /// A snapshot of every known account, in ascending client order:
    /// exactly the accounts of the model, one row per registered
    /// client.
    pub fn accounts(&self) -> (r: Vec<Account>)
        requires
            self.wf(),
        ensures
            forall|i: int|
                0 <= i < r@.len() ==> self@.accounts.contains_key(
                    (#[trigger] r@[i]).client.0,
                ) && r@[i]@ == self@.accounts[r@[i].client.0],
            forall|c: u16|
                #[trigger] self@.accounts.contains_key(c) ==> exists|i: int|
                    0 <= i < r@.len() && (#[trigger] r@[i]).client.0 == c,
            forall|i: int, j: int|
                0 <= i < j < r@.len() ==> (#[trigger] r@[i]).client.0 < (
                #[trigger] r@[j]).client.0,
    {
        let mut r: Vec<Account> = Vec::new();
        let mut i: usize = 0;
        while i < self.accounts.len()
            invariant
                i <= self.accounts@.len(),
                r@.len() == i,
                forall|j: int| 0 <= j < i ==> #[trigger] r@[j] == self.accounts@[j],
            decreases self.accounts@.len() - i,
        {
            r.push(self.accounts[i]);
            i += 1;
        }
        proof {
            assert(r@ =~= self.accounts@);
            assert forall|k: int| 0 <= k < r@.len() implies self@.accounts.contains_key(
                (#[trigger] r@[k]).client.0,
            ) && r@[k]@ == self@.accounts[r@[k].client.0] by {
                lemma_accounts_map_index(self.accounts@, k);
            }
            assert forall|c: u16| #[trigger] self@.accounts.contains_key(c) implies exists|k: int|
                0 <= k < r@.len() && (#[trigger] r@[k]).client.0 == c by {
                lemma_accounts_map_contains(self.accounts@, c);
            }
        }
        r
    }

    /// A well-formed engine balances everywhere: in its model, every
    /// registered account's `total` is `available` plus `held`.
    pub proof fn lemma_wf_balances(&self)
        requires
            self.wf(),
        ensures
            balances_consistent(self@),
    {
        assert forall|c: u16| self@.accounts.contains_key(c) implies #[trigger] self@.accounts[c].total
            == self@.accounts[c].available + self@.accounts[c].held by {
            lemma_accounts_map_contains(self.accounts@, c);
            let i = choose|i: int|
                0 <= i < self.accounts@.len() && (#[trigger] self.accounts@[i]).client.0 == c;
            lemma_accounts_map_index(self.accounts@, i);
        }
    }
}

} // verus!
