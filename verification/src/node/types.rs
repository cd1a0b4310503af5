//! Task shapes the node runtime receives from the controller and the
//! adapter, and the small enums of the committer wire protocol.

use vstd::prelude::*;

use crate::controller::SignatureTask;

verus! {

/// Everything the task queues hold carries a numeric index.
pub trait Task {
    spec fn spec_index(&self) -> int;

    fn index(&self) -> (r: usize)
        ensures
            r == self.spec_index(),
    ;
}

/// A task together with its handled flag.
pub struct BLSTask<T> {
    pub task: T,
    pub state: bool,
}

impl Task for SignatureTask {
    open spec fn spec_index(&self) -> int {
        self.index as int
    }

    fn index(&self) -> usize {
        self.index
    }
}

pub struct GroupRelayTask {
    pub controller_global_epoch: usize,
    pub relayed_group_index: usize,
    pub relayed_group_epoch: usize,
    pub assignment_block_height: usize,
}

impl Task for GroupRelayTask {
    open spec fn spec_index(&self) -> int {
        self.controller_global_epoch as int
    }

    fn index(&self) -> usize {
        self.controller_global_epoch
    }
}

pub struct GroupRelayConfirmationTask {
    pub index: usize,
    pub group_relay_cache_index: usize,
    pub relayed_group_index: usize,
    pub relayed_group_epoch: usize,
    pub relayer_group_index: usize,
    pub assignment_block_height: usize,
}

impl Task for GroupRelayConfirmationTask {
    open spec fn spec_index(&self) -> int {
        self.index as int
    }

    fn index(&self) -> usize {
        self.index
    }
}

#[derive(Clone, Copy, Debug, PartialEq, Eq, Structural)]
pub enum Status {
    Success,
    Complaint,
}

impl Status {
    /// The status a boolean outcome maps to.
    pub fn from_bool(b: bool) -> (r: Status)
        ensures
            r is Success <==> b,
    {
        if b {
            Status::Success
        } else {
            Status::Complaint
        }
    }

    pub fn is_success(self) -> (r: bool)
        ensures
            r <==> self is Success,
    {
        match self {
            Status::Success => true,
            Status::Complaint => false,
        }
    }
}

#[derive(Clone, Copy, Debug, PartialEq, Eq, Structural)]
pub enum GroupRelayConfirmationTaskState {
    NotExisted,
    Available,
    Invalid,
}

impl GroupRelayConfirmationTaskState {
    pub fn to_i32(self) -> (r: i32)
        ensures
            self is NotExisted ==> r == 0,
            self is Available ==> r == 1,
            self is Invalid ==> r == 2,
    {
        match self {
            GroupRelayConfirmationTaskState::NotExisted => 0,
            GroupRelayConfirmationTaskState::Available => 1,
            GroupRelayConfirmationTaskState::Invalid => 2,
        }
    }

    /// The state a wire integer maps to; unknown values mean "not existed".
    pub fn from_i32(b: i32) -> (r: GroupRelayConfirmationTaskState)
        ensures
            b == 1 ==> r is Available,
            b == 2 ==> r is Invalid,
            b != 1 && b != 2 ==> r is NotExisted,
    {
        if b == 1 {
            GroupRelayConfirmationTaskState::Available
        } else if b == 2 {
            GroupRelayConfirmationTaskState::Invalid
        } else {
            GroupRelayConfirmationTaskState::NotExisted
        }
    }
}

#[derive(Clone, Copy, Debug, PartialEq, Eq, Structural)]
pub enum TaskType {
    Randomness,
    GroupRelay,
    GroupRelayConfirmation,
}

impl TaskType {
    pub fn to_i32(self) -> (r: i32)
        ensures
            self is Randomness ==> r == 0,
            self is GroupRelay ==> r == 1,
            self is GroupRelayConfirmation ==> r == 2,
    {
        match self {
            TaskType::Randomness => 0,
            TaskType::GroupRelay => 1,
            TaskType::GroupRelayConfirmation => 2,
        }
    }

    /// The task type a wire integer maps to; unknown values mean randomness.
    pub fn from_i32(b: i32) -> (r: TaskType)
        ensures
            b == 1 ==> r is GroupRelay,
            b == 2 ==> r is GroupRelayConfirmation,
            b != 1 && b != 2 ==> r is Randomness,
    {
        if b == 1 {
            TaskType::GroupRelay
        } else if b == 2 {
            TaskType::GroupRelayConfirmation
        } else {
            TaskType::Randomness
        }
    }
}

} // verus!
