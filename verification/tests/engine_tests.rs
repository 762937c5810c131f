use ledger::engine::{Account, ApplyError, Engine};
use ledger::tx::{Client, Tx, TxId, TxType};
use ledger::Amount;

fn amt(s: &str) -> Amount {
    Amount::from_decimal_str(s).unwrap()
}

fn deposit(client: u16, tx: u32, amount: &str) -> Tx {
    Tx { ty: TxType::Deposit, client: Client(client), id: TxId(tx), amount: amt(amount) }
}

fn withdrawal(client: u16, tx: u32, amount: &str) -> Tx {
    Tx { ty: TxType::Withdrawal, client: Client(client), id: TxId(tx), amount: amt(amount) }
}

fn dispute(client: u16, tx: u32) -> Tx {
    Tx { ty: TxType::Dispute, client: Client(client), id: TxId(tx), amount: Amount::zero() }
}

fn resolve(client: u16, tx: u32) -> Tx {
    Tx { ty: TxType::Resolve, client: Client(client), id: TxId(tx), amount: Amount::zero() }
}

fn chargeback(client: u16, tx: u32) -> Tx {
    Tx { ty: TxType::Chargeback, client: Client(client), id: TxId(tx), amount: Amount::zero() }
}

fn assert_account(a: &Account, client: u16, available: &str, held: &str, total: &str, locked: bool) {
    assert_eq!(a.client, Client(client));
    assert_eq!(a.available, amt(available));
    assert_eq!(a.held, amt(held));
    assert_eq!(a.total, amt(total));
    assert_eq!(a.locked, locked);
}

#[test]
fn two_deposits_to_two_clients() {
    let mut e = Engine::new();
    assert!(e.apply(deposit(1, 1, "10.0")).is_ok());
    assert!(e.apply(deposit(2, 2, "20.0")).is_ok());
    let accounts = e.accounts();
    assert_eq!(accounts.len(), 2);
    assert_account(&accounts[0], 1, "10.0", "0", "10.0", false);
    assert_account(&accounts[1], 2, "20.0", "0", "20.0", false);
}

#[test]
fn deposit_then_withdrawal() {
    let mut e = Engine::new();
    assert!(e.apply(deposit(1, 1, "10.0")).is_ok());
    assert!(e.apply(withdrawal(1, 2, "5.0")).is_ok());
    let accounts = e.accounts();
    assert_eq!(accounts.len(), 1);
    assert_account(&accounts[0], 1, "5.0", "0", "5.0", false);
}

#[test]
fn withdrawal_from_empty_account_fails() {
    let mut e = Engine::new();
    assert_eq!(e.apply(withdrawal(1, 1, "50.0")), Err(ApplyError::InsufficientFunds));
    let accounts = e.accounts();
    assert_eq!(accounts.len(), 1);
    assert_account(&accounts[0], 1, "0", "0", "0", false);
}

#[test]
fn dispute_then_resolve_restores_the_account() {
    let mut e = Engine::new();
    assert!(e.apply(deposit(1, 1, "10.0")).is_ok());
    assert!(e.apply(dispute(1, 1)).is_ok());
    let held = e.accounts();
    assert_account(&held[0], 1, "0", "10.0", "10.0", false);
    assert!(e.apply(resolve(1, 1)).is_ok());
    let accounts = e.accounts();
    assert_account(&accounts[0], 1, "10.0", "0", "10.0", false);
}

#[test]
fn dispute_then_chargeback_locks_the_account() {
    let mut e = Engine::new();
    assert!(e.apply(deposit(1, 1, "10.0")).is_ok());
    assert!(e.apply(dispute(1, 1)).is_ok());
    assert!(e.apply(chargeback(1, 1)).is_ok());
    let accounts = e.accounts();
    assert_account(&accounts[0], 1, "0", "0", "0", true);
    // the lock is permanent: any later mutation is rejected unchanged
    assert_eq!(e.apply(deposit(1, 2, "1.0")), Err(ApplyError::AccountLocked));
    assert_eq!(e.apply(withdrawal(1, 3, "0.0")), Err(ApplyError::AccountLocked));
    assert_eq!(e.apply(dispute(1, 1)), Err(ApplyError::AccountLocked));
    let after = e.accounts();
    assert_account(&after[0], 1, "0", "0", "0", true);
}

#[test]
fn resolve_of_undisputed_id_is_a_noop() {
    let mut e = Engine::new();
    assert!(e.apply(deposit(1, 1, "10.0")).is_ok());
    let before = e.accounts();
    assert!(e.apply(resolve(1, 1)).is_ok());
    assert!(e.apply(resolve(1, 99)).is_ok());
    assert!(e.apply(chargeback(1, 1)).is_ok());
    assert!(e.apply(chargeback(1, 99)).is_ok());
    assert_eq!(e.accounts(), before);
}

#[test]
fn resolve_closes_the_dispute_once() {
    let mut e = Engine::new();
    assert!(e.apply(deposit(1, 1, "10.0")).is_ok());
    assert!(e.apply(dispute(1, 1)).is_ok());
    assert!(e.apply(resolve(1, 1)).is_ok());
    // the id left the disputed set, so a second resolve changes nothing
    let before = e.accounts();
    assert!(e.apply(resolve(1, 1)).is_ok());
    assert_eq!(e.accounts(), before);
}

#[test]
fn dispute_of_unknown_id_fails() {
    let mut e = Engine::new();
    assert!(e.apply(deposit(1, 1, "10.0")).is_ok());
    assert_eq!(e.apply(dispute(1, 99)), Err(ApplyError::UnknownTx));
    let accounts = e.accounts();
    assert_account(&accounts[0], 1, "10.0", "0", "10.0", false);
}

#[test]
fn uncoverable_dispute_locks_the_account() {
    let mut e = Engine::new();
    assert!(e.apply(deposit(1, 1, "10.0")).is_ok());
    assert!(e.apply(withdrawal(1, 2, "8.0")).is_ok());
    // tx 1 recorded 10.0 but only 2.0 is available
    assert_eq!(e.apply(dispute(1, 1)), Err(ApplyError::DisputeUncoverable));
    let accounts = e.accounts();
    assert_account(&accounts[0], 1, "2.0", "0", "2.0", true);
}

#[test]
fn failed_withdrawal_still_records_its_amount() {
    let mut e = Engine::new();
    assert_eq!(e.apply(withdrawal(1, 1, "50.0")), Err(ApplyError::InsufficientFunds));
    // the amount of the failed withdrawal was recorded, so disputing it
    // is not UnknownTx: it is uncoverable against the empty account
    assert_eq!(e.apply(dispute(1, 1)), Err(ApplyError::DisputeUncoverable));
}

#[test]
fn resolve_against_the_wrong_client_is_inconsistent() {
    let mut e = Engine::new();
    assert!(e.apply(deposit(1, 1, "10.0")).is_ok());
    assert!(e.apply(dispute(1, 1)).is_ok());
    // client 2 holds nothing, yet tx 1 is disputed
    assert_eq!(e.apply(resolve(2, 1)), Err(ApplyError::HeldFundsInconsistent));
}

#[test]
fn deposit_overflow_is_rejected_without_state_change() {
    let mut e = Engine::new();
    assert!(e.apply(deposit(1, 1, "922337203685477.5807")).is_ok());
    assert_eq!(e.apply(deposit(1, 2, "1.0")), Err(ApplyError::AmountOverflow));
    let accounts = e.accounts();
    assert_eq!(accounts[0].available, Amount::from_units(i64::MAX));
    assert_eq!(accounts[0].locked, false);
}

#[test]
fn accounts_come_out_in_ascending_client_order() {
    let mut e = Engine::new();
    assert!(e.apply(deposit(7, 1, "1.0")).is_ok());
    assert!(e.apply(deposit(3, 2, "2.0")).is_ok());
    assert!(e.apply(deposit(5, 3, "3.0")).is_ok());
    assert!(e.apply(deposit(3, 4, "4.0")).is_ok());
    let accounts = e.accounts();
    let clients: Vec<u16> = accounts.iter().map(|a| a.client.0).collect();
    assert_eq!(clients, vec![3, 5, 7]);
    assert_eq!(accounts[0].available, amt("6.0"));
}

#[test]
fn total_is_available_plus_held_after_every_step() {
    let mut e = Engine::new();
    let stream = vec![
        deposit(1, 1, "10.0"),
        deposit(1, 2, "4.5"),
        withdrawal(1, 3, "2.0"),
        dispute(1, 1),
        resolve(1, 1),
        dispute(1, 2),
        chargeback(1, 2),
        deposit(2, 4, "3.0"),
    ];
    for tx in stream {
        let _ = e.apply(tx);
        for a in e.accounts() {
            assert_eq!(a.total.units(), a.available.units() + a.held.units());
        }
    }
}

#[test]
fn reading_between_applications_changes_nothing() {
    let a = deposit(1, 1, "10.0");
    let b = withdrawal(1, 2, "4.0");

    let mut e1 = Engine::new();
    assert!(e1.apply(a).is_ok());
    assert!(e1.apply(b).is_ok());
    let all_at_once = e1.accounts();

    let mut e2 = Engine::new();
    assert!(e2.apply(a).is_ok());
    let mid = e2.accounts();
    assert_eq!(mid[0].available, amt("10.0"));
    assert!(e2.apply(b).is_ok());
    let step_by_step = e2.accounts();

    assert_eq!(all_at_once, step_by_step);
}

#[test]
fn deposit_to_a_fresh_id_reuses_the_first_amount() {
    let mut e = Engine::new();
    assert!(e.apply(deposit(1, 1, "10.0")).is_ok());
    assert!(e.apply(deposit(1, 1, "99.0")).is_ok());
    // the side table keeps the first recorded amount for an id
    assert!(e.apply(dispute(1, 1)).is_ok());
    let accounts = e.accounts();
    assert_account(&accounts[0], 1, "99.0", "10.0", "109.0", false);
}
