//! Errors of the node runtime's verified core.

use vstd::prelude::*;

verus! {

pub type NodeResult<A> = Result<A, NodeError>;

#[derive(Clone, Copy, Debug, PartialEq, Eq, Structural)]
pub enum NodeError {
    NoDKGKeyPair,
    NoGroupTask,
    GroupNotExisted,
    GroupNotReady,
    GroupAlreadyReady,
    /// Carries the cached group index.
    GroupIndexObsolete(usize),
    /// Carries the cached group epoch.
    GroupEpochObsolete(usize),
    GroupWaitingForConsensus,
    CommitterCacheNotExisted,
    NoTaskAvailable,
    MemberNotExisted,
    PartialSignatureVerifyFailed,
    DuplicatePartialSignature,
    ShareBadFormat,
}

} // verus!
