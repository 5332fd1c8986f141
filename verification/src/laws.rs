use vstd::prelude::*;
use crate::data::{Input, InputType, Transaction, TransactionStatus};
use crate::engine::step;
use crate::error::Error;
use crate::money::Money;
use crate::state::{StateView, NUM_CLIENTS};

verus! {

/// Crediting an account preserves the ledger invariant whenever the new
/// total fits in the balance type.
pub proof fn lemma_credit_wf(s: StateView, client: u16, amount: Money)
    requires
        s.wf(),
        s.total[client as int].units + amount.units <= u64::MAX,
    ensures
        s.credit(client, amount).wf(),
{
    let c = client as int;
    let t = s.credit(client, amount);
    assert(s.total[c].units == s.available[c].units + s.held[c].units);
    assert forall|i: int| 0 <= i < NUM_CLIENTS implies (#[trigger] t.total[i]).units
        == t.available[i].units + t.held[i].units by {
        assert(s.total[i].units == s.available[i].units + s.held[i].units);
    }
}

/// Debiting an account preserves the ledger invariant whenever the
/// available balance covers the amount.
pub proof fn lemma_debit_wf(s: StateView, client: u16, amount: Money)
    requires
        s.wf(),
        s.available[client as int].units >= amount.units,
    ensures
        s.debit(client, amount).wf(),
{
    let c = client as int;
    let t = s.debit(client, amount);
    assert(s.total[c].units == s.available[c].units + s.held[c].units);
    assert forall|i: int| 0 <= i < NUM_CLIENTS implies (#[trigger] t.total[i]).units
        == t.available[i].units + t.held[i].units by {
        assert(s.total[i].units == s.available[i].units + s.held[i].units);
    }
}

/// Moving funds from available to held preserves the ledger invariant
/// whenever the available balance covers the amount.
pub proof fn lemma_hold_wf(s: StateView, client: u16, amount: Money)
    requires
        s.wf(),
        s.available[client as int].units >= amount.units,
    ensures
        s.hold(client, amount).wf(),
{
    let c = client as int;
    let t = s.hold(client, amount);
    assert(s.total[c].units == s.available[c].units + s.held[c].units);
    assert forall|i: int| 0 <= i < NUM_CLIENTS implies (#[trigger] t.total[i]).units
        == t.available[i].units + t.held[i].units by {
        assert(s.total[i].units == s.available[i].units + s.held[i].units);
    }
}

/// Moving funds from held back to available preserves the ledger invariant
/// whenever the held balance covers the amount.
pub proof fn lemma_release_wf(s: StateView, client: u16, amount: Money)
    requires
        s.wf(),
        s.held[client as int].units >= amount.units,
    ensures
        s.release(client, amount).wf(),
{
    let c = client as int;
    let t = s.release(client, amount);
    assert(s.total[c].units == s.available[c].units + s.held[c].units);
    assert forall|i: int| 0 <= i < NUM_CLIENTS implies (#[trigger] t.total[i]).units
        == t.available[i].units + t.held[i].units by {
        assert(s.total[i].units == s.available[i].units + s.held[i].units);
    }
}

/// Removing funds from held and total preserves the ledger invariant
/// whenever the held balance covers the amount.
pub proof fn lemma_forfeit_wf(s: StateView, client: u16, amount: Money)
    requires
        s.wf(),
        s.held[client as int].units >= amount.units,
    ensures
        s.forfeit(client, amount).wf(),
{
    let c = client as int;
    let t = s.forfeit(client, amount);
    assert(s.total[c].units == s.available[c].units + s.held[c].units);
    assert forall|i: int| 0 <= i < NUM_CLIENTS implies (#[trigger] t.total[i]).units
        == t.available[i].units + t.held[i].units by {
        assert(s.total[i].units == s.available[i].units + s.held[i].units);
    }
}

/// The engine's invariant: applying any input to a well-formed ledger
/// leaves it well-formed. Every account's total stays exactly its
/// available plus its held funds, and balances stay non-negative (they
/// are unsigned counts). Together with `State::default` starting
/// well-formed, every reachable state is well-formed.
pub proof fn lemma_step_preserves_wf(pre: StateView, input: Input)
    requires
        pre.wf(),
    ensures
        step(pre, input).0.wf(),
{
    let s = pre.mark_seen(input.client);
    let c = input.client as int;
    let txid = input.transaction_id;
    assert(s.wf());
    if !pre.locked[c] {
        match input.kind {
            InputType::Deposit => {
                if let Some(a) = input.amount {
                    if a.units != 0 && !s.transactions.contains_key(txid) && s.total[c].units
                        + a.units <= u64::MAX {
                        lemma_credit_wf(s, input.client, a);
                    }
                }
            }
            InputType::Withdrawal => {
                if let Some(a) = input.amount {
                    if a.units != 0 && !s.transactions.contains_key(txid) && s.available[c].units
                        >= a.units {
                        lemma_debit_wf(s, input.client, a);
                    }
                }
            }
            InputType::Dispute => {
                if s.transactions.contains_key(txid) {
                    let t = s.transactions[txid];
                    if t.status is Open && t.client == input.client && s.available[c].units
                        >= t.amount.units {
                        lemma_hold_wf(s, input.client, t.amount);
                    }
                }
            }
            InputType::Resolve => {
                if s.transactions.contains_key(txid) {
                    let t = s.transactions[txid];
                    if t.status is Disputed && t.client == input.client && s.held[c].units
                        >= t.amount.units {
                        lemma_release_wf(s, input.client, t.amount);
                    }
                }
            }
            InputType::Chargeback => {
                if s.transactions.contains_key(txid) {
                    let t = s.transactions[txid];
                    if t.status is Disputed && t.client == input.client && s.held[c].units
                        >= t.amount.units {
                        lemma_forfeit_wf(s, input.client, t.amount);
                    }
                }
            }
        }
    }
}

/// Locking is monotonic: no input ever unlocks an account.
pub proof fn lemma_locked_monotonic(pre: StateView, input: Input, client: u16)
    requires
        pre.wf(),
        pre.locked[client as int],
    ensures
        step(pre, input).0.locked[client as int],
{
}

/// A registered transaction is never deleted, and its amount and owner
/// never change: an input can only move its status.
pub proof fn lemma_transactions_persist(pre: StateView, input: Input, txid: u32)
    requires
        pre.transactions.contains_key(txid),
    ensures
        step(pre, input).0.transactions.contains_key(txid),
        step(pre, input).0.transactions[txid].amount == pre.transactions[txid].amount,
        step(pre, input).0.transactions[txid].client == pre.transactions[txid].client,
{
}

/// Every row of a well-formed ledger's snapshot carries consistent
/// balances: its total is exactly its available plus its held funds.
pub proof fn lemma_rows_consistent(s: StateView)
    requires
        s.wf(),
    ensures
        forall|i: int| 0 <= i < s.rows().len() ==> (#[trigger] s.rows()[i]).total.units
            == s.rows()[i].available.units + s.rows()[i].held.units,
{
    lemma_rows_upto_consistent(s, NUM_CLIENTS as int);
}

/// Helper for `lemma_rows_consistent`: the consistency of every row among
/// the first `n` account slots, by induction on `n`.
proof fn lemma_rows_upto_consistent(s: StateView, n: int)
    requires
        s.wf(),
        n <= NUM_CLIENTS,
    ensures
        forall|i: int| 0 <= i < s.rows_upto(n).len() ==> (#[trigger] s.rows_upto(n)[i]).total.units
            == s.rows_upto(n)[i].available.units + s.rows_upto(n)[i].held.units,
    decreases n,
{
    if n > 0 {
        lemma_rows_upto_consistent(s, n - 1);
        assert(s.total[n - 1].units == s.available[n - 1].units + s.held[n - 1].units);
        assert forall|i: int| 0 <= i < s.rows_upto(n).len() implies (#[trigger] s.rows_upto(
            n,
        )[i]).total.units == s.rows_upto(n)[i].available.units + s.rows_upto(n)[i].held.units by {
            if i < s.rows_upto(n - 1).len() {
                assert(s.rows_upto(n)[i] == s.rows_upto(n - 1)[i]);
            }
        }
    }
}

/// Account lookup is idempotent: marking a client's slot as seen twice
/// leaves the ledger exactly as marking it once; nothing else about the
/// account is touched either time.
pub proof fn lemma_mark_seen_idempotent(s: StateView, client: u16)
    requires
        s.wf(),
    ensures
        s.mark_seen(client).mark_seen(client) == s.mark_seen(client),
{
    assert(s.mark_seen(client).mark_seen(client).id =~= s.mark_seen(client).id);
    assert(s.mark_seen(client).mark_seen(client) =~= s.mark_seen(client));
}

/// A locked account accepts nothing: whatever the input's kind, the only
/// change is that the client's slot is marked seen, and the outcome is
/// the `LockedAccount` error.
pub proof fn lemma_locked_account_rejects(s: StateView, input: Input)
    requires
        s.locked[input.client as int],
    ensures
        step(s, input).0 == s.mark_seen(input.client),
        step(s, input).1 == Err::<(), Error>(
            (Error::LockedAccount {
                client_id: input.client,
                transaction_id: input.transaction_id,
            }),
        ),
{
}

/// A dispute, resolve or chargeback that references a transaction id the
/// registry has never seen is a silent no-op: no error, and no change but
/// the client's slot being marked seen.
pub proof fn lemma_unknown_reference_noop(s: StateView, input: Input)
    requires
        !s.locked[input.client as int],
        input.kind is Dispute || input.kind is Resolve || input.kind is Chargeback,
        !s.transactions.contains_key(input.transaction_id),
    ensures
        step(s, input).0 == s.mark_seen(input.client),
        step(s, input).1 is Ok,
{
}

/// Duplicate suppression: once a deposit has claimed a transaction id, a
/// second deposit with the same id (and a present, positive amount) is
/// rejected with `DuplicateTransaction` and changes nothing, whatever its
/// amount.
pub proof fn lemma_duplicate_deposit_suppressed(pre: StateView, first: Input, second: Input)
    requires
        pre.wf(),
        first.kind is Deposit,
        second.kind is Deposit,
        first.client == second.client,
        first.transaction_id == second.transaction_id,
        second.amount is Some,
        (second.amount->0).units != 0,
        step(pre, first).1 is Ok,
    ensures
        step(step(pre, first).0, second).0 == step(pre, first).0,
        step(step(pre, first).0, second).1 == Err::<(), Error>(
            (Error::DuplicateTransaction {
                transaction_id: second.transaction_id,
                amount: second.amount->0,
            }),
        ),
{
    let c = first.client as int;
    let s = pre.mark_seen(first.client);
    let s1 = step(pre, first).0;
    assert(s1.id[c] == Some(first.client));
    assert(s1.transactions.contains_key(first.transaction_id));
    assert(s1.mark_seen(second.client).id =~= s1.id);
    assert(s1.mark_seen(second.client) =~= s1);
}

/// Dispute then resolve is a round trip: for an `Open` transaction whose
/// owner has the funds available, disputing and then resolving it leaves
/// every balance of every account exactly as before; only the
/// transaction's status (now `Resolved`) and the owner's seen-mark remain.
pub proof fn lemma_dispute_resolve_round_trip(pre: StateView, client: u16, txid: u32)
    requires
        pre.wf(),
        !pre.locked[client as int],
        pre.transactions.contains_key(txid),
        pre.transactions[txid].status is Open,
        pre.transactions[txid].client == client,
        pre.available[client as int].units >= pre.transactions[txid].amount.units,
    ensures
        ({
            let d = (Input {
                kind: InputType::Dispute,
                client,
                transaction_id: txid,
                amount: None,
            });
            let r = (Input {
                kind: InputType::Resolve,
                client,
                transaction_id: txid,
                amount: None,
            });
            let s1 = step(pre, d).0;
            let s2 = step(s1, r).0;
            &&& step(pre, d).1 is Ok
            &&& step(s1, r).1 is Ok
            &&& s2.available == pre.available
            &&& s2.held == pre.held
            &&& s2.total == pre.total
            &&& s2.locked == pre.locked
            &&& s2.id == pre.id.update(client as int, Some(client))
            &&& s2.transactions == pre.transactions.insert(
                txid,
                (Transaction {
                    status: TransactionStatus::Resolved,
                    ..pre.transactions[txid]
                }),
            )
        }),
{
    let c = client as int;
    let amt = pre.transactions[txid].amount;
    let d = (Input { kind: InputType::Dispute, client, transaction_id: txid, amount: None });
    let r = (Input { kind: InputType::Resolve, client, transaction_id: txid, amount: None });
    assert(pre.total[c].units == pre.available[c].units + pre.held[c].units);
    let s1 = step(pre, d).0;
    assert(step(pre, d).1 is Ok);
    let s2 = step(s1, r).0;
    assert(s1.held[c].units == pre.held[c].units + amt.units);
    assert(s1.transactions[txid].status is Disputed);
    assert(step(s1, r).1 is Ok);
    assert(s2.available =~= pre.available);
    assert(s2.held =~= pre.held);
    assert(s2.total =~= pre.total);
    assert(s2.locked =~= pre.locked);
    assert(s2.id =~= pre.id.update(c, Some(client)));
    assert(s2.transactions =~= pre.transactions.insert(
        txid,
        (Transaction { status: TransactionStatus::Resolved, ..pre.transactions[txid] }),
    ));
}

/// Dispute then chargeback destroys the held funds and locks the account:
/// for an `Open` transaction whose owner has the funds available, the
/// owner's available and total both end lower by the transaction's
/// amount, held is back to where it started, the account is locked, and
/// the transaction ends `Chargedback`. No other account changes.
pub proof fn lemma_dispute_chargeback(pre: StateView, client: u16, txid: u32)
    requires
        pre.wf(),
        !pre.locked[client as int],
        pre.transactions.contains_key(txid),
        pre.transactions[txid].status is Open,
        pre.transactions[txid].client == client,
        pre.available[client as int].units >= pre.transactions[txid].amount.units,
    ensures
        ({
            let d = (Input {
                kind: InputType::Dispute,
                client,
                transaction_id: txid,
                amount: None,
            });
            let cb = (Input {
                kind: InputType::Chargeback,
                client,
                transaction_id: txid,
                amount: None,
            });
            let amt = pre.transactions[txid].amount;
            let s1 = step(pre, d).0;
            let s2 = step(s1, cb).0;
            &&& step(pre, d).1 is Ok
            &&& step(s1, cb).1 is Ok
            &&& s2.available == pre.available.update(
                client as int,
                pre.available[client as int].spec_sub(amt),
            )
            &&& s2.held == pre.held
            &&& s2.total == pre.total.update(
                client as int,
                pre.total[client as int].spec_sub(amt),
            )
            &&& s2.locked == pre.locked.update(client as int, true)
            &&& s2.id == pre.id.update(client as int, Some(client))
            &&& s2.transactions == pre.transactions.insert(
                txid,
                (Transaction {
                    status: TransactionStatus::Chargedback,
                    ..pre.transactions[txid]
                }),
            )
        }),
{
    let c = client as int;
    let amt = pre.transactions[txid].amount;
    let d = (Input { kind: InputType::Dispute, client, transaction_id: txid, amount: None });
    let cb = (Input { kind: InputType::Chargeback, client, transaction_id: txid, amount: None });
    assert(pre.total[c].units == pre.available[c].units + pre.held[c].units);
    let s1 = step(pre, d).0;
    assert(step(pre, d).1 is Ok);
    let s2 = step(s1, cb).0;
    assert(s1.held[c].units == pre.held[c].units + amt.units);
    assert(s1.transactions[txid].status is Disputed);
    assert(step(s1, cb).1 is Ok);
    assert(s2.available =~= pre.available.update(c, pre.available[c].spec_sub(amt)));
    assert(s2.held =~= pre.held);
    assert(s2.total =~= pre.total.update(c, pre.total[c].spec_sub(amt)));
    assert(s2.locked =~= pre.locked.update(c, true));
    assert(s2.id =~= pre.id.update(c, Some(client)));
    assert(s2.transactions =~= pre.transactions.insert(
        txid,
        (Transaction { status: TransactionStatus::Chargedback, ..pre.transactions[txid] }),
    ));
}

} // verus!
