//! A verified transaction-processing ledger: an ordered stream of deposit,
//! withdrawal, dispute, resolve and chargeback events, keyed by client and
//! transaction id, is folded into a per-client account snapshot (available,
//! held and total balance, lock state). The engine's whole behaviour is the
//! spec-level `engine::step` function, `engine::apply` is proved to
//! implement it exactly, and `laws` states and proves the ledger's
//! invariants: totals always equal available plus held, lookups are
//! idempotent, duplicate transaction ids are suppressed, a dispute-resolve
//! pair restores every balance, and a chargeback destroys the held funds
//! and locks the account for good.

pub mod data;
pub mod engine;
pub mod error;
pub mod laws;
pub mod money;
pub mod state;

pub use data::{Input, InputType, Row, Transaction, TransactionStatus};
pub use engine::apply;
pub use error::{AmountReason, Error};
pub use money::{Money, MONEY_SCALE, MONEY_UNIT};
pub use state::{State, StateIter, StateView, NUM_CLIENTS};
