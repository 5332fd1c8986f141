use vstd::prelude::*;
use crate::data::{Input, InputType, TransactionStatus};
use crate::error::{AmountReason, Error};
use crate::state::{State, StateView};

verus! {

/// What one deposit does to the ledger `s` (already marked seen, not
/// locked): the amount must be present and positive, the transaction id
/// fresh, and the new total must fit; then available and total grow and
/// the transaction is registered `Open`.
pub open spec fn step_deposit(s: StateView, input: Input) -> (StateView, Result<(), Error>) {
    let txid = input.transaction_id;
    let c = input.client as int;
    match input.amount {
        None => (
            s,
            Err(Error::InvalidAmount { transaction_id: txid, reason: AmountReason::Missing }),
        ),
        Some(a) => {
            if a.units == 0 {
                (s, Err(Error::InvalidAmount { transaction_id: txid, reason: AmountReason::Zero }))
            } else if s.transactions.contains_key(txid) {
                (s, Err(Error::DuplicateTransaction { transaction_id: txid, amount: a }))
            } else if s.total[c].units + a.units > u64::MAX {
                (
                    s,
                    Err(
                        Error::InvalidAmount {
                            transaction_id: txid,
                            reason: AmountReason::Overflow,
                        },
                    ),
                )
            } else {
                (s.credit(input.client, a).register_tx(txid, a, input.client), Ok(()))
            }
        }
    }
}

/// What one withdrawal does to `s`: the amount must be present and
/// positive, the transaction id fresh, and the available balance
/// sufficient; then available and total shrink and the transaction is
/// registered `Open`.
pub open spec fn step_withdrawal(s: StateView, input: Input) -> (StateView, Result<(), Error>) {
    let txid = input.transaction_id;
    let c = input.client as int;
    match input.amount {
        None => (
            s,
            Err(Error::InvalidAmount { transaction_id: txid, reason: AmountReason::Missing }),
        ),
        Some(a) => {
            if a.units == 0 {
                (s, Err(Error::InvalidAmount { transaction_id: txid, reason: AmountReason::Zero }))
            } else if s.transactions.contains_key(txid) {
                (s, Err(Error::DuplicateTransaction { transaction_id: txid, amount: a }))
            } else if s.available[c].units < a.units {
                (
                    s,
                    Err(
                        Error::InsufficientBalance {
                            transaction_id: txid,
                            expected: a,
                            got: s.available[c],
                        },
                    ),
                )
            } else {
                (s.debit(input.client, a).register_tx(txid, a, input.client), Ok(()))
            }
        }
    }
}

/// What one dispute does to `s`: a reference to an unknown transaction,
/// one that is not `Open`, or one owned by another client is a silent
/// no-op; with insufficient available funds the dispute fails cleanly;
/// otherwise the amount moves from available to held and the transaction
/// becomes `Disputed`.
pub open spec fn step_dispute(s: StateView, input: Input) -> (StateView, Result<(), Error>) {
    let txid = input.transaction_id;
    let c = input.client as int;
    if !s.transactions.contains_key(txid) {
        (s, Ok(()))
    } else {
        let t = s.transactions[txid];
        if !(t.status is Open) || t.client != input.client {
            (s, Ok(()))
        } else if s.available[c].units >= t.amount.units {
            (s.hold(input.client, t.amount).set_status(txid, TransactionStatus::Disputed), Ok(()))
        } else {
            (
                s,
                Err(
                    Error::InsufficientBalance {
                        transaction_id: txid,
                        expected: t.amount,
                        got: s.available[c],
                    },
                ),
            )
        }
    }
}

/// What one resolve does to `s`: a reference to an unknown transaction,
/// one that is not `Disputed`, or one owned by another client is a silent
/// no-op; with insufficient held funds it fails cleanly; otherwise the
/// amount moves from held back to available and the transaction becomes
/// `Resolved`.
pub open spec fn step_resolve(s: StateView, input: Input) -> (StateView, Result<(), Error>) {
    let txid = input.transaction_id;
    let c = input.client as int;
    if !s.transactions.contains_key(txid) {
        (s, Ok(()))
    } else {
        let t = s.transactions[txid];
        if !(t.status is Disputed) || t.client != input.client {
            (s, Ok(()))
        } else if s.held[c].units >= t.amount.units {
            (
                s.release(input.client, t.amount).set_status(txid, TransactionStatus::Resolved),
                Ok(()),
            )
        } else {
            (
                s,
                Err(
                    Error::InsufficientBalance {
                        transaction_id: txid,
                        expected: t.amount,
                        got: s.held[c],
                    },
                ),
            )
        }
    }
}

/// What one chargeback does to `s`: a reference to an unknown transaction,
/// one that is not `Disputed`, or one owned by another client is a silent
/// no-op; with insufficient held funds it fails cleanly and in particular
/// does not lock the account; otherwise the amount leaves held and total,
/// the account is locked and the transaction becomes `Chargedback`.
pub open spec fn step_chargeback(s: StateView, input: Input) -> (StateView, Result<(), Error>) {
    let txid = input.transaction_id;
    let c = input.client as int;
    if !s.transactions.contains_key(txid) {
        (s, Ok(()))
    } else {
        let t = s.transactions[txid];
        if !(t.status is Disputed) || t.client != input.client {
            (s, Ok(()))
        } else if s.held[c].units >= t.amount.units {
            (
                s.forfeit(input.client, t.amount).lock_account(input.client).set_status(
                    txid,
                    TransactionStatus::Chargedback,
                ),
                Ok(()),
            )
        } else {
            (
                s,
                Err(
                    Error::InsufficientBalance {
                        transaction_id: txid,
                        expected: t.amount,
                        got: s.held[c],
                    },
                ),
            )
        }
    }
}

/// The engine's transition function: the state after one input, and the
/// outcome reported for it. The client's slot is always marked seen; a
/// locked account rejects every input; otherwise the input's kind decides.
pub open spec fn step(pre: StateView, input: Input) -> (StateView, Result<(), Error>) {
    let s = pre.mark_seen(input.client);
    if pre.locked[input.client as int] {
        (
            s,
            Err(
                Error::LockedAccount {
                    client_id: input.client,
                    transaction_id: input.transaction_id,
                },
            ),
        )
    } else {
        match input.kind {
            InputType::Deposit => step_deposit(s, input),
            InputType::Withdrawal => step_withdrawal(s, input),
            InputType::Dispute => step_dispute(s, input),
            InputType::Resolve => step_resolve(s, input),
            InputType::Chargeback => step_chargeback(s, input),
        }
    }
}

/// Applies one input to the ledger: validates it against the account and
/// the transaction registry, performs the balance transition it calls for,
/// and reports a typed failure otherwise. The whole behaviour, state
/// change and outcome alike, is exactly `step`; on failure the ledger is
/// left untouched but for the client's slot being marked seen, so an input
/// is applied entirely or not at all.
pub fn apply(state: &mut State, input: Input) -> (result: Result<(), Error>)
    requires
        old(state)@.wf(),
    ensures
        final(state)@ == step(old(state)@, input).0,
        result == step(old(state)@, input).1,
        final(state)@.wf(),
{
    let client = input.client;
    let txid = input.transaction_id;
    state.get_or_create(client);
    if state.is_locked(client) {
        return Err(Error::LockedAccount { client_id: client, transaction_id: txid });
    }
    match input.kind {
        InputType::Deposit => {
            let a = match input.amount {
                None => {
                    return Err(
                        Error::InvalidAmount {
                            transaction_id: txid,
                            reason: AmountReason::Missing,
                        },
                    );
                }
                Some(a) => a,
            };
            if a.is_zero() {
                return Err(
                    Error::InvalidAmount { transaction_id: txid, reason: AmountReason::Zero },
                );
            }
            if state.get_transaction(txid).is_some() {
                return Err(Error::DuplicateTransaction { transaction_id: txid, amount: a });
            }
            if !state.credit_available(client, a) {
                return Err(
                    Error::InvalidAmount { transaction_id: txid, reason: AmountReason::Overflow },
                );
            }
            let fresh = state.register(txid, a, client);
            proof {
                assert(fresh);
            }
            Ok(())
        }
        InputType::Withdrawal => {
            let a = match input.amount {
                None => {
                    return Err(
                        Error::InvalidAmount {
                            transaction_id: txid,
                            reason: AmountReason::Missing,
                        },
                    );
                }
                Some(a) => a,
            };
            if a.is_zero() {
                return Err(
                    Error::InvalidAmount { transaction_id: txid, reason: AmountReason::Zero },
                );
            }
            if state.get_transaction(txid).is_some() {
                return Err(Error::DuplicateTransaction { transaction_id: txid, amount: a });
            }
            let avail = state.available_of(client);
            if !state.debit_available(client, a) {
                return Err(
                    Error::InsufficientBalance { transaction_id: txid, expected: a, got: avail },
                );
            }
            let fresh = state.register(txid, a, client);
            proof {
                assert(fresh);
            }
            Ok(())
        }
        InputType::Dispute => {
            let t = match state.get_transaction(txid) {
                None => {
                    return Ok(());
                }
                Some(t) => t,
            };
            if !(t.status == TransactionStatus::Open) || t.client != client {
                return Ok(());
            }
            let avail = state.available_of(client);
            if state.move_available_to_held(client, t.amount) {
                let moved = state.transition(
                    txid,
                    TransactionStatus::Open,
                    TransactionStatus::Disputed,
                );
                proof {
                    assert(moved);
                }
                Ok(())
            } else {
                Err(
                    Error::InsufficientBalance {
                        transaction_id: txid,
                        expected: t.amount,
                        got: avail,
                    },
                )
            }
        }
        InputType::Resolve => {
            let t = match state.get_transaction(txid) {
                None => {
                    return Ok(());
                }
                Some(t) => t,
            };
            if !(t.status == TransactionStatus::Disputed) || t.client != client {
                return Ok(());
            }
            let held = state.held_of(client);
            if state.move_held_to_available(client, t.amount) {
                let moved = state.transition(
                    txid,
                    TransactionStatus::Disputed,
                    TransactionStatus::Resolved,
                );
                proof {
                    assert(moved);
                }
                Ok(())
            } else {
                Err(
                    Error::InsufficientBalance {
                        transaction_id: txid,
                        expected: t.amount,
                        got: held,
                    },
                )
            }
        }
        InputType::Chargeback => {
            let t = match state.get_transaction(txid) {
                None => {
                    return Ok(());
                }
                Some(t) => t,
            };
            if !(t.status == TransactionStatus::Disputed) || t.client != client {
                return Ok(());
            }
            let held = state.held_of(client);
            if state.remove_from_held_and_total(client, t.amount) {
                state.lock(client);
                let moved = state.transition(
                    txid,
                    TransactionStatus::Disputed,
                    TransactionStatus::Chargedback,
                );
                proof {
                    assert(moved);
                }
                Ok(())
            } else {
                Err(
                    Error::InsufficientBalance {
                        transaction_id: txid,
                        expected: t.amount,
                        got: held,
                    },
                )
            }
        }
    }
}

} // verus!
