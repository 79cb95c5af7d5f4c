//! A periodic reward-accrual staking ledger.
//!
//! Participants stake assets against a staking record, are owed a share of
//! what each period pays in proportion to their stake, may lock a position
//! for a bonus, and unstake in two steps with a delay in between.
//!
//! `model` says what the ledger is and what each operation does to it;
//! `staking` is the ledger that runs, proved to do exactly that; `laws`
//! holds what follows for every sequence of operations; `snapshot` is the
//! ledger's state as plain data, with the test that admits it back.

pub mod address;
pub mod decimal;
pub mod error;
pub mod invariants;
pub mod laws;
pub mod model;
pub mod records;
pub mod snapshot;
pub mod staking;
pub mod time;

pub use address::ResourceAddress;
pub use decimal::Decimal;
pub use error::{ErrorKind, StakingError};
pub use model::IssuedReceipt;
pub use records::{
    Deposit, Id, Lock, Resource, StakableUnit, StakeTransferReceipt, UnstakeReceipt,
};
pub use snapshot::Snapshot;
pub use staking::Staking;
pub use time::Instant;
