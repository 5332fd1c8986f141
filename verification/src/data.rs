use vstd::prelude::*;
use crate::money::Money;

verus! {

/// The kind of one transaction event.
#[derive(Clone, Copy, Debug, PartialEq, Eq, Structural)]
pub enum InputType {
    Deposit,
    Withdrawal,
    Dispute,
    Resolve,
    Chargeback,
}

/// One event of the input stream, already validated in shape by the adapter
/// that produced it.
#[derive(Clone, Copy, Debug, PartialEq, Eq, Structural)]
pub struct Input {
    pub kind: InputType,
    pub client: u16,
    pub transaction_id: u32,
    /// Present for deposits and withdrawals; ignored for the other kinds.
    pub amount: Option<Money>,
}

/// One line of the final per-client snapshot.
#[derive(Clone, Copy, Debug, PartialEq, Eq, Structural)]
pub struct Row {
    pub id: u16,
    pub available: Money,
    pub held: Money,
    pub total: Money,
    pub locked: bool,
}

/// The lifecycle state of a registered transaction.
///
/// `Open` can move to `Disputed`; `Disputed` can move to `Resolved` or
/// `Chargedback`; the latter two are terminal.
#[derive(Clone, Copy, Debug, PartialEq, Eq, Structural)]
pub enum TransactionStatus {
    Open,
    Disputed,
    Chargedback,
    Resolved,
}

/// The record kept for a transaction id once a deposit or withdrawal has
/// claimed it. The amount and owning client never change afterwards.
#[derive(Clone, Copy, Debug, PartialEq, Eq, Structural)]
pub struct Transaction {
    pub amount: Money,
    /// The client the original deposit or withdrawal belonged to. A dispute,
    /// resolve or chargeback naming another client is ignored.
    pub client: u16,
    pub status: TransactionStatus,
}

} // verus!
