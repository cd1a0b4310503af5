//! Error taxonomy of the controller and the per-group DKG coordinator.
//!
//! Two variants are status signals rather than faults:
//! `SignatureRewardVerifiedSuccessfully` reports that a challenged reward
//! withstood re-verification (so nobody is slashed), and `NoTaskAvailable` is
//! the normal outcome of polling an empty task slot.

use vstd::prelude::*;

verus! {

pub type ControllerResult<A> = Result<A, ControllerError>;

pub type CoordinatorResult<A> = Result<A, CoordinatorError>;

#[derive(Clone, Copy, Debug, PartialEq, Eq, Structural)]
pub enum ControllerError {
    NoTaskAvailable,
    TaskNotFound,
    TaskStillExclusive,
    NotFromCommitter,
    GroupNotExisted,
    GroupActivated,
    CoordinatorNotExisted,
    CoordinatorNotEnded,
    /// Carries the latest coordinator epoch.
    CoordinatorEpochObsolete(usize),
    NodeNotExisted,
    NodeExisted,
    NodeActivated,
    /// Carries the block height the node is pending until.
    NodeNotAvailable(usize),
    RewardRecordNotExisted,
    /// Carries the latest group epoch.
    GroupEpochObsolete(usize),
    CommitCacheExisted,
    VerifiableSignatureRewardAsCommitterExisted,
    VerifiableSignatureRewardNotExisted,
    SignatureRewardVerifiedSuccessfully,
    PublicKeyBadFormat,
    BLSVerifyFailed,
    ParticipantNotExisted,
    NoVaildGroup,
}

#[derive(Clone, Copy, Debug, PartialEq, Eq, Structural)]
pub enum CoordinatorError {
    NotRegistered,
    AlreadyRegistered,
    AlreadyStarted,
    DKGEnded,
    SharesExisted,
    ResponsesExisted,
    JustificationsExisted,
}

} // verus!
