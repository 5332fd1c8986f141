use tx_ledger::{apply, AmountReason, Error, Input, InputType, Money, Row, State};

fn money(units: u64) -> Money {
    Money::from_units(units)
}

fn deposit(client: u16, tx: u32, units: u64) -> Input {
    Input {
        kind: InputType::Deposit,
        client,
        transaction_id: tx,
        amount: Some(Money::from_units(units)),
    }
}

fn withdrawal(client: u16, tx: u32, units: u64) -> Input {
    Input {
        kind: InputType::Withdrawal,
        client,
        transaction_id: tx,
        amount: Some(Money::from_units(units)),
    }
}

fn dispute(client: u16, tx: u32) -> Input {
    Input { kind: InputType::Dispute, client, transaction_id: tx, amount: None }
}

fn resolve(client: u16, tx: u32) -> Input {
    Input { kind: InputType::Resolve, client, transaction_id: tx, amount: None }
}

fn chargeback(client: u16, tx: u32) -> Input {
    Input { kind: InputType::Chargeback, client, transaction_id: tx, amount: None }
}

fn rows(state: State) -> Vec<Row> {
    let mut iter = state.into_iter();
    let mut out = Vec::new();
    while let Some(row) = iter.next() {
        out.push(row);
    }
    out
}

const FIVE: u64 = 50000;
const TEN: u64 = 100000;

#[test]
fn lookup_is_idempotent() {
    let mut once = State::default();
    once.get_or_create(7);
    let mut twice = State::default();
    twice.get_or_create(7);
    twice.get_or_create(7);
    assert_eq!(rows(once), rows(twice));
}

#[test]
fn lookup_creates_zeroed_account() {
    let mut state = State::default();
    state.get_or_create(7);
    let listed = rows(state);
    assert_eq!(listed.len(), 1);
    assert_eq!(
        listed[0],
        Row { id: 7, available: money(0), held: money(0), total: money(0), locked: false }
    );
}

#[test]
fn duplicate_deposit_is_suppressed() {
    let mut state = State::default();
    assert!(apply(&mut state, deposit(1, 1, FIVE)).is_ok());
    let second = apply(&mut state, deposit(1, 1, 70000));
    assert_eq!(
        second,
        Err(Error::DuplicateTransaction { transaction_id: 1, amount: money(70000) })
    );
    assert_eq!(state.available_of(1), money(FIVE));
    let listed = rows(state);
    assert_eq!(listed.len(), 1);
    assert_eq!(listed[0].total, money(FIVE));
}

#[test]
fn duplicate_withdrawal_is_suppressed() {
    let mut state = State::default();
    assert!(apply(&mut state, deposit(1, 1, TEN)).is_ok());
    assert!(apply(&mut state, withdrawal(1, 2, FIVE)).is_ok());
    let second = apply(&mut state, withdrawal(1, 2, 10000));
    assert_eq!(
        second,
        Err(Error::DuplicateTransaction { transaction_id: 2, amount: money(10000) })
    );
    assert_eq!(state.available_of(1), money(FIVE));
}

#[test]
fn dispute_resolve_round_trip() {
    let mut state = State::default();
    assert!(apply(&mut state, deposit(1, 1, TEN)).is_ok());
    assert!(apply(&mut state, dispute(1, 1)).is_ok());
    assert_eq!(state.available_of(1), money(0));
    assert_eq!(state.held_of(1), money(TEN));
    assert!(apply(&mut state, resolve(1, 1)).is_ok());
    let listed = rows(state);
    assert_eq!(
        listed,
        vec![Row { id: 1, available: money(TEN), held: money(0), total: money(TEN), locked: false }]
    );
}

#[test]
fn dispute_chargeback_locks_account() {
    let mut state = State::default();
    assert!(apply(&mut state, deposit(1, 1, TEN)).is_ok());
    assert!(apply(&mut state, dispute(1, 1)).is_ok());
    assert!(apply(&mut state, chargeback(1, 1)).is_ok());
    assert_eq!(state.available_of(1), money(0));
    assert_eq!(state.held_of(1), money(0));
    assert!(state.is_locked(1));
    let after = apply(&mut state, deposit(1, 2, FIVE));
    assert_eq!(after, Err(Error::LockedAccount { client_id: 1, transaction_id: 2 }));
    let listed = rows(state);
    assert_eq!(
        listed,
        vec![Row { id: 1, available: money(0), held: money(0), total: money(0), locked: true }]
    );
}

#[test]
fn locked_account_rejects_every_kind() {
    let mut state = State::default();
    assert!(apply(&mut state, deposit(1, 1, TEN)).is_ok());
    assert!(apply(&mut state, dispute(1, 1)).is_ok());
    assert!(apply(&mut state, chargeback(1, 1)).is_ok());
    for input in [withdrawal(1, 9, 1), dispute(1, 1), resolve(1, 1), chargeback(1, 1)] {
        let tx = input.transaction_id;
        assert_eq!(
            apply(&mut state, input),
            Err(Error::LockedAccount { client_id: 1, transaction_id: tx })
        );
    }
}

#[test]
fn deposit_then_withdrawal() {
    let mut state = State::default();
    assert!(apply(&mut state, deposit(1, 1, FIVE)).is_ok());
    assert!(apply(&mut state, withdrawal(1, 2, 30000)).is_ok());
    let listed = rows(state);
    assert_eq!(
        listed,
        vec![Row {
            id: 1,
            available: money(20000),
            held: money(0),
            total: money(20000),
            locked: false
        }]
    );
}

#[test]
fn deposit_then_dispute() {
    let mut state = State::default();
    assert!(apply(&mut state, deposit(1, 1, FIVE)).is_ok());
    assert!(apply(&mut state, dispute(1, 1)).is_ok());
    let listed = rows(state);
    assert_eq!(
        listed,
        vec![Row {
            id: 1,
            available: money(0),
            held: money(FIVE),
            total: money(FIVE),
            locked: false
        }]
    );
}

#[test]
fn withdrawal_against_empty_account_is_rejected() {
    let mut state = State::default();
    let result = apply(&mut state, withdrawal(1, 9, 1000000));
    assert_eq!(
        result,
        Err(Error::InsufficientBalance {
            transaction_id: 9,
            expected: money(1000000),
            got: money(0),
        })
    );
    let listed = rows(state);
    assert_eq!(
        listed,
        vec![Row { id: 1, available: money(0), held: money(0), total: money(0), locked: false }]
    );
}

#[test]
fn unknown_reference_is_a_silent_noop() {
    let mut state = State::default();
    assert!(apply(&mut state, deposit(1, 1, FIVE)).is_ok());
    assert!(apply(&mut state, resolve(1, 404)).is_ok());
    assert!(apply(&mut state, dispute(1, 404)).is_ok());
    assert!(apply(&mut state, chargeback(1, 404)).is_ok());
    assert_eq!(state.available_of(1), money(FIVE));
    assert_eq!(state.held_of(1), money(0));
}

#[test]
fn dispute_of_anothers_transaction_is_ignored() {
    let mut state = State::default();
    assert!(apply(&mut state, deposit(1, 1, FIVE)).is_ok());
    assert!(apply(&mut state, dispute(2, 1)).is_ok());
    assert_eq!(state.available_of(1), money(FIVE));
    assert_eq!(state.held_of(1), money(0));
    let listed = rows(state);
    assert_eq!(listed.len(), 2);
    assert_eq!(listed[0].id, 1);
    assert_eq!(
        listed[1],
        Row { id: 2, available: money(0), held: money(0), total: money(0), locked: false }
    );
}

#[test]
fn dispute_with_insufficient_available_fails_cleanly() {
    let mut state = State::default();
    assert!(apply(&mut state, deposit(1, 1, TEN)).is_ok());
    assert!(apply(&mut state, withdrawal(1, 2, 80000)).is_ok());
    let result = apply(&mut state, dispute(1, 1));
    assert_eq!(
        result,
        Err(Error::InsufficientBalance {
            transaction_id: 1,
            expected: money(TEN),
            got: money(20000),
        })
    );
    assert_eq!(state.available_of(1), money(20000));
    assert_eq!(state.held_of(1), money(0));
    let second = apply(&mut state, resolve(1, 1));
    assert!(second.is_ok());
    assert_eq!(state.available_of(1), money(20000));
}

#[test]
fn resolved_transaction_cannot_be_disputed_again() {
    let mut state = State::default();
    assert!(apply(&mut state, deposit(1, 1, TEN)).is_ok());
    assert!(apply(&mut state, dispute(1, 1)).is_ok());
    assert!(apply(&mut state, resolve(1, 1)).is_ok());
    assert!(apply(&mut state, dispute(1, 1)).is_ok());
    assert_eq!(state.available_of(1), money(TEN));
    assert_eq!(state.held_of(1), money(0));
}

#[test]
fn deposit_amount_must_be_present_and_positive() {
    let mut state = State::default();
    let missing = Input { kind: InputType::Deposit, client: 1, transaction_id: 1, amount: None };
    assert_eq!(
        apply(&mut state, missing),
        Err(Error::InvalidAmount { transaction_id: 1, reason: AmountReason::Missing })
    );
    assert_eq!(
        apply(&mut state, deposit(1, 1, 0)),
        Err(Error::InvalidAmount { transaction_id: 1, reason: AmountReason::Zero })
    );
    assert_eq!(
        apply(&mut state, withdrawal(1, 2, 0)),
        Err(Error::InvalidAmount { transaction_id: 2, reason: AmountReason::Zero })
    );
    assert_eq!(state.available_of(1), money(0));
}

#[test]
fn deposit_overflowing_the_balance_is_rejected() {
    let mut state = State::default();
    assert!(apply(&mut state, deposit(1, 1, u64::MAX)).is_ok());
    assert_eq!(
        apply(&mut state, deposit(1, 2, 1)),
        Err(Error::InvalidAmount { transaction_id: 2, reason: AmountReason::Overflow })
    );
    assert_eq!(state.available_of(1), money(u64::MAX));
}

#[test]
fn a_withdrawal_can_be_disputed_too() {
    let mut state = State::default();
    assert!(apply(&mut state, deposit(1, 1, TEN)).is_ok());
    assert!(apply(&mut state, withdrawal(1, 2, 30000)).is_ok());
    assert!(apply(&mut state, dispute(1, 2)).is_ok());
    assert_eq!(state.available_of(1), money(40000));
    assert_eq!(state.held_of(1), money(30000));
    let listed = rows(state);
    assert_eq!(listed[0].total, money(70000));
}

#[test]
fn amounts_on_references_are_ignored() {
    let mut state = State::default();
    assert!(apply(&mut state, deposit(1, 1, TEN)).is_ok());
    let with_amount = Input {
        kind: InputType::Dispute,
        client: 1,
        transaction_id: 1,
        amount: Some(money(12345)),
    };
    assert!(apply(&mut state, with_amount).is_ok());
    assert_eq!(state.held_of(1), money(TEN));
    assert_eq!(state.available_of(1), money(0));
}

#[test]
fn rows_come_out_in_client_order() {
    let mut state = State::default();
    assert!(apply(&mut state, deposit(5, 1, FIVE)).is_ok());
    assert!(apply(&mut state, deposit(2, 2, TEN)).is_ok());
    let listed = rows(state);
    assert_eq!(listed.len(), 2);
    assert_eq!(listed[0].id, 2);
    assert_eq!(listed[1].id, 5);
}

#[test]
fn iterator_is_empty_for_untouched_ledger() {
    let state = State::default();
    let mut iter = state.into_iter();
    assert_eq!(iter.next(), None);
    assert_eq!(iter.next(), None);
}
