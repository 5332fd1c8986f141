use vstd::prelude::*;
use vstd::pervasive::VecAdditionalExecFns;
use std::collections::HashMap;
use crate::money::Money;
use crate::data::{Row, Transaction, TransactionStatus};

verus! {

broadcast use vstd::std_specs::hash::group_hash_axioms;

/// Number of account slots the ledger holds: one for every possible
/// 16-bit client identifier.
pub const NUM_CLIENTS: usize = 65536;

/// The mathematical model of a `State`: the five account columns as
/// sequences and the transaction registry as a map.
#[verifier::ext_equal]
pub struct StateView {
    pub id: Seq<Option<u16>>,
    pub available: Seq<Money>,
    pub held: Seq<Money>,
    pub total: Seq<Money>,
    pub locked: Seq<bool>,
    pub transactions: Map<u32, Transaction>,
}

impl StateView {
    /// The ledger invariant: every column has one slot per possible client,
    /// and each account's total is exactly its available plus its held
    /// funds. Balances are non-negative by construction (`Money` wraps an
    /// unsigned count of minor units).
    pub open spec fn wf(self) -> bool {
        &&& self.id.len() == NUM_CLIENTS
        &&& self.available.len() == NUM_CLIENTS
        &&& self.held.len() == NUM_CLIENTS
        &&& self.total.len() == NUM_CLIENTS
        &&& self.locked.len() == NUM_CLIENTS
        &&& forall|i: int|
            0 <= i < NUM_CLIENTS ==> (#[trigger] self.total[i]).units == self.available[i].units
                + self.held[i].units
    }

    /// The state before any input: every slot unreferenced, all balances
    /// zero, no account locked, no transaction registered.
    pub open spec fn initial() -> StateView {
        StateView {
            id: Seq::new(NUM_CLIENTS as nat, |i: int| None::<u16>),
            available: Seq::new(NUM_CLIENTS as nat, |i: int| Money { units: 0 }),
            held: Seq::new(NUM_CLIENTS as nat, |i: int| Money { units: 0 }),
            total: Seq::new(NUM_CLIENTS as nat, |i: int| Money { units: 0 }),
            locked: Seq::new(NUM_CLIENTS as nat, |i: int| false),
            transactions: Map::empty(),
        }
    }

    /// The client's slot after it has been referenced by an input.
    pub open spec fn mark_seen(self, client: u16) -> StateView {
        StateView { id: self.id.update(client as int, Some(client)), ..self }
    }

    /// Available and total both grow by `amount`.
    pub open spec fn credit(self, client: u16, amount: Money) -> StateView {
        StateView {
            available: self.available.update(
                client as int,
                self.available[client as int].spec_add(amount),
            ),
            total: self.total.update(client as int, self.total[client as int].spec_add(amount)),
            ..self
        }
    }

    /// Available and total both shrink by `amount`.
    pub open spec fn debit(self, client: u16, amount: Money) -> StateView {
        StateView {
            available: self.available.update(
                client as int,
                self.available[client as int].spec_sub(amount),
            ),
            total: self.total.update(client as int, self.total[client as int].spec_sub(amount)),
            ..self
        }
    }

    /// `amount` moves from available to held; the total is unchanged.
    pub open spec fn hold(self, client: u16, amount: Money) -> StateView {
        StateView {
            available: self.available.update(
                client as int,
                self.available[client as int].spec_sub(amount),
            ),
            held: self.held.update(client as int, self.held[client as int].spec_add(amount)),
            ..self
        }
    }

    /// `amount` moves from held back to available; the total is unchanged.
    pub open spec fn release(self, client: u16, amount: Money) -> StateView {
        StateView {
            available: self.available.update(
                client as int,
                self.available[client as int].spec_add(amount),
            ),
            held: self.held.update(client as int, self.held[client as int].spec_sub(amount)),
            ..self
        }
    }

    /// `amount` leaves the ledger: held and total both shrink by it.
    pub open spec fn forfeit(self, client: u16, amount: Money) -> StateView {
        StateView {
            held: self.held.update(client as int, self.held[client as int].spec_sub(amount)),
            total: self.total.update(client as int, self.total[client as int].spec_sub(amount)),
            ..self
        }
    }

    /// The account is locked; no further input for it will be accepted.
    pub open spec fn lock_account(self, client: u16) -> StateView {
        StateView { locked: self.locked.update(client as int, true), ..self }
    }

    /// A fresh `Open` record for `transaction_id` enters the registry.
    pub open spec fn register_tx(self, transaction_id: u32, amount: Money, client: u16) -> StateView {
        StateView {
            transactions: self.transactions.insert(
                transaction_id,
                Transaction { amount, client, status: TransactionStatus::Open },
            ),
            ..self
        }
    }

    /// The snapshot rows for the account slots below `n`, in increasing
    /// order of client id: one row per slot that an input has referenced,
    /// none for the others.
    pub open spec fn rows_upto(self, n: int) -> Seq<Row>
        decreases n,
    {
        if n <= 0 {
            Seq::empty()
        } else {
            self.rows_upto(n - 1) + (match self.id[n - 1] {
                Some(client) => seq![
                    Row {
                        id: client,
                        available: self.available[n - 1],
                        held: self.held[n - 1],
                        total: self.total[n - 1],
                        locked: self.locked[n - 1],
                    },
                ],
                None => Seq::empty(),
            })
        }
    }

    /// The complete final snapshot: one row, in increasing order of client
    /// id, for every client that any input has ever referenced.
    pub open spec fn rows(self) -> Seq<Row> {
        self.rows_upto(NUM_CLIENTS as int)
    }

    /// The registered transaction's status changes; amount and owner stay.
    pub open spec fn set_status(self, transaction_id: u32, status: TransactionStatus) -> StateView {
        StateView {
            transactions: self.transactions.insert(
                transaction_id,
                (Transaction { status, ..self.transactions[transaction_id] }),
            ),
            ..self
        }
    }
}

/// The whole engine state: the account ledger (five columns indexed by
/// client id) and the transaction registry.
pub struct State {
    pub id: Vec<Option<u16>>,
    pub available: Vec<Money>,
    pub held: Vec<Money>,
    pub total: Vec<Money>,
    pub locked: Vec<bool>,
    pub transactions: HashMap<u32, Transaction>,
}

impl View for State {
    type V = StateView;

    open spec fn view(&self) -> StateView {
        StateView {
            id: self.id@,
            available: self.available@,
            held: self.held@,
            total: self.total@,
            locked: self.locked@,
            transactions: self.transactions@,
        }
    }
}

impl Default for State {
    /// A ledger with one zeroed, unlocked, unreferenced slot per possible
    /// client id and an empty transaction registry.
    fn default() -> (s: State)
        ensures
            s@ == StateView::initial(),
            s@.wf(),
    {
        let mut id: Vec<Option<u16>> = Vec::new();
        let mut available: Vec<Money> = Vec::new();
        let mut held: Vec<Money> = Vec::new();
        let mut total: Vec<Money> = Vec::new();
        let mut locked: Vec<bool> = Vec::new();
        let mut i: usize = 0;
        while i < NUM_CLIENTS
            invariant
                i <= NUM_CLIENTS,
                id@.len() == i,
                available@.len() == i,
                held@.len() == i,
                total@.len() == i,
                locked@.len() == i,
                forall|j: int| 0 <= j < i ==> id@[j] is None,
                forall|j: int| 0 <= j < i ==> (#[trigger] available@[j]).units == 0,
                forall|j: int| 0 <= j < i ==> (#[trigger] held@[j]).units == 0,
                forall|j: int| 0 <= j < i ==> (#[trigger] total@[j]).units == 0,
                forall|j: int| 0 <= j < i ==> !locked@[j],
            decreases NUM_CLIENTS - i,
        {
            id.push(None);
            available.push(Money::zero());
            held.push(Money::zero());
            total.push(Money::zero());
            locked.push(false);
            i = i + 1;
        }
        let s = State { id, available, held, total, locked, transactions: HashMap::new() };
        proof {
            assert(s@.id =~= StateView::initial().id);
            assert(s@.available =~= StateView::initial().available);
            assert(s@.held =~= StateView::initial().held);
            assert(s@.total =~= StateView::initial().total);
            assert(s@.locked =~= StateView::initial().locked);
            assert(s@ =~= StateView::initial());
        }
        s
    }
}

impl State {
    /// Marks the client's slot as referenced, creating the account lazily.
    /// The account's balances and lock state are untouched, so a second
    /// call with the same client changes nothing further.
    pub fn get_or_create(&mut self, client: u16)
        requires
            old(self)@.wf(),
        ensures
            final(self)@ == old(self)@.mark_seen(client),
            final(self)@.wf(),
    {
        let i = client as usize;
        self.id.set(i, Some(client));
    }

    /// Whether a chargeback has locked this client's account.
    pub fn is_locked(&self, client: u16) -> (r: bool)
        requires
            self@.wf(),
        ensures
            r == self@.locked[client as int],
    {
        self.locked[client as usize]
    }

    /// The client's available balance.
    pub fn available_of(&self, client: u16) -> (r: Money)
        requires
            self@.wf(),
        ensures
            r == self@.available[client as int],
    {
        self.available[client as usize]
    }

    /// The client's held balance.
    pub fn held_of(&self, client: u16) -> (r: Money)
        requires
            self@.wf(),
        ensures
            r == self@.held[client as int],
    {
        self.held[client as usize]
    }

    /// Credits `amount` to available and total. Fails, changing nothing,
    /// exactly when the new total would not fit, so a balance never wraps.
    pub fn credit_available(&mut self, client: u16, amount: Money) -> (r: bool)
        requires
            old(self)@.wf(),
        ensures
            r == (old(self)@.total[client as int].units + amount.units <= u64::MAX),
            r ==> final(self)@ == old(self)@.credit(client, amount),
            !r ==> final(self)@ == old(self)@,
            final(self)@.wf(),
    {
        let i = client as usize;
        match self.total[i].add(amount) {
            Some(new_total) => {
                let new_available = self.available[i].add(amount).unwrap();
                self.available.set(i, new_available);
                self.total.set(i, new_total);
                true
            }
            None => false,
        }
    }

    /// Debits `amount` from available and total. Fails, changing nothing,
    /// exactly when the available balance is smaller than `amount`, so a
    /// balance never goes negative.
    pub fn debit_available(&mut self, client: u16, amount: Money) -> (r: bool)
        requires
            old(self)@.wf(),
        ensures
            r == (old(self)@.available[client as int].units >= amount.units),
            r ==> final(self)@ == old(self)@.debit(client, amount),
            !r ==> final(self)@ == old(self)@,
            final(self)@.wf(),
    {
        let i = client as usize;
        match self.available[i].checked_sub(amount) {
            Some(new_available) => {
                let new_total = self.total[i].checked_sub(amount).unwrap();
                self.available.set(i, new_available);
                self.total.set(i, new_total);
                true
            }
            None => false,
        }
    }

    /// Moves `amount` from available to held, leaving the total unchanged.
    /// Fails, changing nothing, exactly when available is smaller than
    /// `amount`.
    pub fn move_available_to_held(&mut self, client: u16, amount: Money) -> (r: bool)
        requires
            old(self)@.wf(),
        ensures
            r == (old(self)@.available[client as int].units >= amount.units),
            r ==> final(self)@ == old(self)@.hold(client, amount),
            !r ==> final(self)@ == old(self)@,
            final(self)@.wf(),
    {
        let i = client as usize;
        match self.available[i].checked_sub(amount) {
            Some(new_available) => {
                proof {
                    assert(self@.total[client as int].units == self@.available[client
                        as int].units + self@.held[client as int].units);
                }
                let new_held = self.held[i].add(amount).unwrap();
                self.available.set(i, new_available);
                self.held.set(i, new_held);
                true
            }
            None => false,
        }
    }

    /// Moves `amount` from held back to available, leaving the total
    /// unchanged. Fails, changing nothing, exactly when held is smaller
    /// than `amount`.
    pub fn move_held_to_available(&mut self, client: u16, amount: Money) -> (r: bool)
        requires
            old(self)@.wf(),
        ensures
            r == (old(self)@.held[client as int].units >= amount.units),
            r ==> final(self)@ == old(self)@.release(client, amount),
            !r ==> final(self)@ == old(self)@,
            final(self)@.wf(),
    {
        let i = client as usize;
        match self.held[i].checked_sub(amount) {
            Some(new_held) => {
                proof {
                    assert(self@.total[client as int].units == self@.available[client
                        as int].units + self@.held[client as int].units);
                }
                let new_available = self.available[i].add(amount).unwrap();
                self.held.set(i, new_held);
                self.available.set(i, new_available);
                true
            }
            None => false,
        }
    }

    /// Removes `amount` from held and total: the funds leave the ledger.
    /// Fails, changing nothing, exactly when held is smaller than `amount`.
    pub fn remove_from_held_and_total(&mut self, client: u16, amount: Money) -> (r: bool)
        requires
            old(self)@.wf(),
        ensures
            r == (old(self)@.held[client as int].units >= amount.units),
            r ==> final(self)@ == old(self)@.forfeit(client, amount),
            !r ==> final(self)@ == old(self)@,
            final(self)@.wf(),
    {
        let i = client as usize;
        match self.held[i].checked_sub(amount) {
            Some(new_held) => {
                let new_total = self.total[i].checked_sub(amount).unwrap();
                self.held.set(i, new_held);
                self.total.set(i, new_total);
                true
            }
            None => false,
        }
    }

    /// Locks the client's account. Locking is monotonic: nothing ever
    /// clears the flag again.
    pub fn lock(&mut self, client: u16)
        requires
            old(self)@.wf(),
        ensures
            final(self)@ == old(self)@.lock_account(client),
            final(self)@.wf(),
    {
        let i = client as usize;
        self.locked.set(i, true);
    }

    /// The record registered for this transaction id, if any.
    pub fn get_transaction(&self, transaction_id: u32) -> (r: Option<Transaction>)
        ensures
            self@.transactions.contains_key(transaction_id) ==> r == Some(
                self@.transactions[transaction_id],
            ),
            !self@.transactions.contains_key(transaction_id) ==> r is None,
    {
        match self.transactions.get(&transaction_id) {
            Some(t) => Some(*t),
            None => None,
        }
    }

    /// Registers a fresh `Open` record for `transaction_id`. Fails, changing
    /// nothing, exactly when the id has already been claimed, which is how
    /// duplicates are detected.
    pub fn register(&mut self, transaction_id: u32, amount: Money, client: u16) -> (r: bool)
        ensures
            r == !old(self)@.transactions.contains_key(transaction_id),
            r ==> final(self)@ == old(self)@.register_tx(transaction_id, amount, client),
            !r ==> final(self)@ == old(self)@,
    {
        if self.transactions.contains_key(&transaction_id) {
            false
        } else {
            self.transactions.insert(
                transaction_id,
                Transaction { amount, client, status: TransactionStatus::Open },
            );
            true
        }
    }

    /// Compare-and-set on a transaction's status: succeeds exactly when the
    /// record exists and currently has `expected` status; otherwise nothing
    /// changes, so an out-of-order request cannot corrupt the registry.
    pub fn transition(
        &mut self,
        transaction_id: u32,
        expected: TransactionStatus,
        new_status: TransactionStatus,
    ) -> (r: bool)
        ensures
            r == (old(self)@.transactions.contains_key(transaction_id) && old(
                self,
            )@.transactions[transaction_id].status == expected),
            r ==> final(self)@ == old(self)@.set_status(transaction_id, new_status),
            !r ==> final(self)@ == old(self)@,
    {
        let current = match self.transactions.get(&transaction_id) {
            Some(t) => *t,
            None => {
                return false;
            }
        };
        if current.status == expected {
            self.transactions.insert(
                transaction_id,
                Transaction { status: new_status, ..current },
            );
            true
        } else {
            false
        }
    }

    /// Consumes the ledger and yields its final snapshot: an iterator over
    /// one row per client that any input has ever referenced, in increasing
    /// order of client id. The emission order is thereby deterministic and
    /// the listing complete, zero-balance accounts included.
    pub fn into_iter(self) -> (iter: StateIter)
        requires
            self@.wf(),
        ensures
            iter.wf(),
            iter.remaining() == self@.rows(),
    {
        let mut rows: Vec<Row> = Vec::new();
        let mut i: usize = 0;
        while i < NUM_CLIENTS
            invariant
                self@.wf(),
                i <= NUM_CLIENTS,
                rows@ == self@.rows_upto(i as int),
            decreases NUM_CLIENTS - i,
        {
            match self.id[i] {
                Some(client) => {
                    let row = Row {
                        id: client,
                        available: self.available[i],
                        held: self.held[i],
                        total: self.total[i],
                        locked: self.locked[i],
                    };
                    rows.push(row);
                    proof {
                        assert(rows@ =~= self@.rows_upto(i + 1));
                    }
                }
                None => {
                    proof {
                        assert(rows@ =~= self@.rows_upto(i + 1));
                    }
                }
            }
            i = i + 1;
        }
        StateIter { rows, pos: 0 }
    }
}

/// An iterator over the final snapshot rows that `State::into_iter`
/// produced.
pub struct StateIter {
    pub rows: Vec<Row>,
    pub pos: usize,
}

impl StateIter {
    /// The position never runs past the end of the rows.
    pub open spec fn wf(self) -> bool {
        self.pos <= self.rows@.len()
    }

    /// The rows not yet handed out.
    pub open spec fn remaining(self) -> Seq<Row> {
        self.rows@.skip(self.pos as int)
    }

    /// Hands out the next snapshot row: the first remaining one, or `None`
    /// once every row has been seen.
    pub fn next(&mut self) -> (r: Option<Row>)
        requires
            old(self).wf(),
        ensures
            final(self).wf(),
            old(self).remaining().len() == 0 ==> r is None && *final(self) == *old(self),
            old(self).remaining().len() > 0 ==> r == Some(old(self).remaining()[0])
                && final(self).remaining() == old(self).remaining().drop_first(),
    {
        if self.pos < self.rows.len() {
            let row = self.rows[self.pos];
            self.pos = self.pos + 1;
            proof {
                assert(self.rows@.skip(self.pos as int) =~= old(self).remaining().drop_first());
            }
            Some(row)
        } else {
            None
        }
    }
}

} // verus!
