//! The transaction records the engine consumes: client and transaction
//! identifiers, the transaction kind, and the record itself.

use vstd::prelude::*;
use crate::amount::Amount;

verus! {

/// An opaque client identifier; accounts are keyed by it and exported in
/// ascending order of it.
#[derive(Clone, Copy, PartialEq, Eq, Structural, Debug)]
pub struct Client(pub u16);

/// An opaque transaction identifier, unique among deposits and
/// withdrawals; disputes, resolves and chargebacks refer back to one.
#[derive(Clone, Copy, PartialEq, Eq, Structural, Debug)]
pub struct TxId(pub u32);

/// The kind of a transaction record.
#[derive(Clone, Copy, PartialEq, Eq, Structural, Debug)]
pub enum TxType {
    Deposit,
    Withdrawal,
    Dispute,
    Resolve,
    Chargeback,
}

/// One transaction record. `amount` is meaningful only for deposits and
/// withdrawals; for the dispute lifecycle kinds it is ignored and the
/// real amount is recovered by looking `id` up in the engine's side
/// table.
#[derive(Clone, Copy, PartialEq, Eq, Structural, Debug)]
pub struct Tx {
    pub ty: TxType,
    pub client: Client,
    pub id: TxId,
    pub amount: Amount,
}

} // verus!
