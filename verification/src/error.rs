//! Why an operation was rejected.

use vstd::prelude::*;

verus! {

/// The three families of rejection.
#[derive(Clone, Copy, Debug, PartialEq, Eq, Structural)]
pub enum ErrorKind {
    /// A wrong asset, record or receipt was supplied, or a setting that is out of range.
    Validation,
    /// The state does not allow the operation now.
    StateConflict,
    /// A balance or the range of a number is exhausted.
    ResourceExhaustion,
}

/// The reason for which an operation was rejected.
#[derive(Clone, Copy, Debug, PartialEq, Eq, Structural)]
pub enum StakingError {
    /// No staking record has this number.
    InvalidId,
    /// The address is not that of a stakable asset.
    NotStakable,
    /// The address is already that of a stakable asset.
    AlreadyStakable,
    /// What was handed over is of another asset than the one named.
    WrongAsset,
    /// No pending receipt has this number.
    ReceiptNotFound,
    /// The amount is negative.
    InvalidAmount,
    /// The period interval is not positive.
    InvalidInterval,
    /// The unstake delay is above the ceiling set at construction.
    DelayTooLong,
    /// Locks can only be forced where a DAO controls the staking.
    NotDaoControlled,
    /// The record has no position in this asset.
    NoPosition,
    /// The position holds nothing to unstake.
    NothingStaked,
    /// The position is locked.
    StakeLocked,
    /// Rewards of closed periods must be claimed before staking more.
    UnclaimedRewardsPending,
    /// The receipt cannot be redeemed yet.
    RedemptionNotYetDue,
    /// The position is already under a lock that has not run out.
    AlreadyLocked,
    /// No closed period is left for the record to claim.
    NothingToClaim,
    /// The vault holds less than what is to be withdrawn.
    InsufficientBalance,
    /// A number left the range of its type.
    Overflow,
}

impl StakingError {
    /// The family this rejection belongs to.
    pub open spec fn spec_kind(self) -> ErrorKind {
        match self {
            StakingError::InvalidId
            | StakingError::NotStakable
            | StakingError::AlreadyStakable
            | StakingError::WrongAsset
            | StakingError::ReceiptNotFound
            | StakingError::InvalidAmount
            | StakingError::InvalidInterval
            | StakingError::DelayTooLong
            | StakingError::NotDaoControlled
            | StakingError::NoPosition => ErrorKind::Validation,
            StakingError::NothingStaked
            | StakingError::StakeLocked
            | StakingError::UnclaimedRewardsPending
            | StakingError::RedemptionNotYetDue
            | StakingError::AlreadyLocked
            | StakingError::NothingToClaim => ErrorKind::StateConflict,
            StakingError::InsufficientBalance | StakingError::Overflow => {
                ErrorKind::ResourceExhaustion
            },
        }
    }

    /// The family this rejection belongs to.
    #[verifier::when_used_as_spec(spec_kind)]
    pub fn kind(self) -> (r: ErrorKind)
        ensures
            r == self.spec_kind(),
    {
        match self {
            StakingError::InvalidId
            | StakingError::NotStakable
            | StakingError::AlreadyStakable
            | StakingError::WrongAsset
            | StakingError::ReceiptNotFound
            | StakingError::InvalidAmount
            | StakingError::InvalidInterval
            | StakingError::DelayTooLong
            | StakingError::NotDaoControlled
            | StakingError::NoPosition => ErrorKind::Validation,
            StakingError::NothingStaked
            | StakingError::StakeLocked
            | StakingError::UnclaimedRewardsPending
            | StakingError::RedemptionNotYetDue
            | StakingError::AlreadyLocked
            | StakingError::NothingToClaim => ErrorKind::StateConflict,
            StakingError::InsufficientBalance | StakingError::Overflow => {
                ErrorKind::ResourceExhaustion
            },
        }
    }
}

} // verus!
