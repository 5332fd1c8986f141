use vstd::prelude::*;
use crate::money::Money;

verus! {

/// Why a deposit or withdrawal amount was refused.
#[derive(Clone, Copy, Debug, PartialEq, Eq, Structural)]
pub enum AmountReason {
    /// No amount was supplied with the input.
    Missing,
    /// The supplied amount was zero.
    Zero,
    /// Crediting the amount would overflow the account's total balance.
    Overflow,
}

/// An input-level failure: it aborts the single input that caused it and
/// leaves the ledger untouched.
#[derive(Clone, Copy, Debug, PartialEq, Eq, Structural)]
pub enum Error {
    /// A deposit or withdrawal reused a transaction id that is already
    /// registered.
    DuplicateTransaction { transaction_id: u32, amount: Money },
    /// A balance was too small for the requested movement: `expected` is the
    /// amount asked for, `got` the balance that was available for it.
    InsufficientBalance { transaction_id: u32, expected: Money, got: Money },
    /// The client's account has been locked by a chargeback and accepts no
    /// further transactions.
    LockedAccount { client_id: u16, transaction_id: u32 },
    /// The amount of a deposit or withdrawal was missing, zero, or too large.
    InvalidAmount { transaction_id: u32, reason: AmountReason },
}

} // verus!
