//! The controller: the authoritative ledger of nodes, groups, DKG rounds,
//! pending randomness tasks and verifiable rewards. All mutating operations
//! run to completion atomically; views observe consistent snapshots.
//!
//! Addresses key every map-like collection; they are held as vectors with a
//! distinct-key invariant. Group indices are 1-based and contiguous
//! (`groups[i].index == i + 1`); member indices are 0-based and stable for
//! the epoch.

use vstd::prelude::*;

use crate::bls;
use crate::coordinator::{Coordinator, Participant, DEFAULT_DKG_PHASE_DURATION};
use crate::errors::{ControllerError, ControllerResult};
use crate::utils;

verus! {

pub const NODE_STAKING_AMOUNT: usize = 50000;

pub const REWARD_PER_SIGNATURE: usize = 50;

pub const DISQUALIFIED_NODE_PENALTY: usize = 1000;

pub const COORDINATOR_STATE_TRIGGER_REWARD: usize = 100;

pub const COMMITTER_REWARD_PER_SIGNATURE: usize = 100;

pub const COMMITTER_PENALTY_PER_SIGNATURE: usize = 1000;

pub const CHALLENGE_REWARD_PER_SIGNATURE: usize = 300;

pub const DEFAULT_MINIMUM_THRESHOLD: usize = 3;

pub const DEFAULT_COMMITTERS_SIZE: usize = 3;

pub const GROUP_MAX_CAPACITY: usize = 10;

pub const EXPECTED_GROUP_SIZE: usize = 5;

pub const PENDING_BLOCK_AFTER_QUIT: usize = 100;

pub const SIGNATURE_TASK_EXCLUSIVE_WINDOW: usize = 10;

pub const SIGNATURE_REWARDS_VALIDATION_WINDOW: usize = 50;

/// The smallest threshold allowed for `n` participants: a strict majority.
pub open spec fn spec_minimum_threshold(n: int) -> int {
    n / 2 + 1
}

/// The threshold a group of size `n` runs with.
pub open spec fn spec_group_threshold(n: int) -> int {
    if spec_minimum_threshold(n) > DEFAULT_MINIMUM_THRESHOLD as int {
        spec_minimum_threshold(n)
    } else {
        DEFAULT_MINIMUM_THRESHOLD as int
    }
}

/// How many committers a group with threshold `t` elects.
pub open spec fn spec_committers_size(t: int) -> int {
    if t > DEFAULT_COMMITTERS_SIZE as int {
        t
    } else {
        DEFAULT_COMMITTERS_SIZE as int
    }
}

/// The strict majority of `n`, computed in executable code.
pub fn minimum_threshold(n: usize) -> (r: usize)
    ensures
        r == spec_minimum_threshold(n as int),
{
    n / 2 + 1
}

pub struct Node {
    pub id_address: String,
    pub id_public_key: Vec<u8>,
    pub state: bool,
    pub pending_until_block: usize,
    pub staking: usize,
}

pub struct Member {
    pub index: usize,
    pub id_address: String,
    pub partial_public_key: Vec<u8>,
}

pub struct CommitResult {
    pub group_epoch: usize,
    pub public_key: Vec<u8>,
    pub disqualified_nodes: Vec<String>,
}

pub struct CommitCache {
    pub commit_result: CommitResult,
    pub partial_public_key: Vec<u8>,
}

/// One member's commitment, keyed by the member's identity address.
pub struct CommitCacheEntry {
    pub id_address: String,
    pub cache: CommitCache,
}

pub struct Group {
    pub index: usize,
    pub epoch: usize,
    pub capacity: usize,
    pub size: usize,
    pub threshold: usize,
    pub state: bool,
    pub public_key: Vec<u8>,
    pub members: Vec<Member>,
    pub committers: Vec<String>,
    pub commit_cache: Vec<CommitCacheEntry>,
}

pub struct SignatureTask {
    pub index: usize,
    pub message: String,
    pub group_index: usize,
    pub assignment_block_height: usize,
}

pub struct DKGTask {
    pub group_index: usize,
    pub epoch: usize,
    pub size: usize,
    pub threshold: usize,
    pub members: Vec<(String, usize)>,
    pub assignment_block_height: usize,
    pub coordinator_address: String,
}

pub struct SignatureReward {
    pub signature_task: SignatureTask,
    pub expiration_block_height: usize,
    pub committer: String,
    pub group: Group,
    pub partial_signatures: Vec<(String, Vec<u8>)>,
}

/// One address's accumulated reward balance.
pub struct RewardRecord {
    pub id_address: String,
    pub amount: usize,
}

/// The coordinator instance serving one group's current DKG round.
pub struct GroupCoordinator {
    pub group_index: usize,
    pub coordinator: Coordinator,
}

pub struct Controller {
    pub block_height: usize,
    pub epoch: usize,
    pub signature_count: usize,
    pub last_output: u64,
    pub last_group_index: usize,
    pub groups: Vec<Group>,
    pub nodes: Vec<Node>,
    pub rewards: Vec<RewardRecord>,
    pub pending_signature_tasks: Vec<SignatureTask>,
    pub verifiable_signature_rewards: Vec<SignatureReward>,
    pub dkg_task: Option<DKGTask>,
    pub signature_task: Option<SignatureTask>,
    pub coordinators: Vec<GroupCoordinator>,
    pub controller_address: String,
}

#[verifier::ext_equal]
pub ghost struct MemberView {
    pub index: int,
    pub id_address: Seq<char>,
    pub partial_public_key: Seq<u8>,
}

#[verifier::ext_equal]
pub ghost struct CommitResultView {
    pub group_epoch: int,
    pub public_key: Seq<u8>,
    pub disqualified_nodes: Seq<Seq<char>>,
}

#[verifier::ext_equal]
pub ghost struct CommitCacheEntryView {
    pub id_address: Seq<char>,
    pub commit_result: CommitResultView,
    pub partial_public_key: Seq<u8>,
}

#[verifier::ext_equal]
pub ghost struct GroupView {
    pub index: int,
    pub epoch: int,
    pub capacity: int,
    pub size: int,
    pub threshold: int,
    pub state: bool,
    pub public_key: Seq<u8>,
    pub members: Seq<MemberView>,
    pub committers: Seq<Seq<char>>,
    pub commit_cache: Seq<CommitCacheEntryView>,
}

#[verifier::ext_equal]
pub ghost struct SignatureTaskView {
    pub index: int,
    pub message: Seq<char>,
    pub group_index: int,
    pub assignment_block_height: int,
}

impl View for Member {
    type V = MemberView;

    open spec fn view(&self) -> MemberView {
        MemberView {
            index: self.index as int,
            id_address: self.id_address@,
            partial_public_key: self.partial_public_key@,
        }
    }
}

impl View for CommitResult {
    type V = CommitResultView;

    open spec fn view(&self) -> CommitResultView {
        CommitResultView {
            group_epoch: self.group_epoch as int,
            public_key: self.public_key@,
            disqualified_nodes: self.disqualified_nodes.deep_view(),
        }
    }
}

impl View for CommitCacheEntry {
    type V = CommitCacheEntryView;

    open spec fn view(&self) -> CommitCacheEntryView {
        CommitCacheEntryView {
            id_address: self.id_address@,
            commit_result: self.cache.commit_result@,
            partial_public_key: self.cache.partial_public_key@,
        }
    }
}

impl View for Group {
    type V = GroupView;

    open spec fn view(&self) -> GroupView {
        GroupView {
            index: self.index as int,
            epoch: self.epoch as int,
            capacity: self.capacity as int,
            size: self.size as int,
            threshold: self.threshold as int,
            state: self.state,
            public_key: self.public_key@,
            members: self.members@.map_values(|m: Member| m@),
            committers: self.committers.deep_view(),
            commit_cache: self.commit_cache@.map_values(|e: CommitCacheEntry| e@),
        }
    }
}

impl View for SignatureTask {
    type V = SignatureTaskView;

    open spec fn view(&self) -> SignatureTaskView {
        SignatureTaskView {
            index: self.index as int,
            message: self.message@,
            group_index: self.group_index as int,
            assignment_block_height: self.assignment_block_height as int,
        }
    }
}

impl DeepView for SignatureTask {
    type V = SignatureTaskView;

    open spec fn deep_view(&self) -> SignatureTaskView {
        self@
    }
}

impl Clone for SignatureTask {
    fn clone(&self) -> (r: Self)
        ensures
            r@ == self@,
    {
        SignatureTask {
            index: self.index,
            message: self.message.clone(),
            group_index: self.group_index,
            assignment_block_height: self.assignment_block_height,
        }
    }
}

/// Whether some node with this address is registered.
pub open spec fn has_node(nodes: Seq<Node>, id: Seq<char>) -> bool {
    exists|i: int| 0 <= i < nodes.len() && nodes[i].id_address@ == id
}

/// The position of the node with this address (meaningful under `has_node`
/// and the distinct-address invariant).
pub open spec fn node_idx(nodes: Seq<Node>, id: Seq<char>) -> int {
    choose|i: int| 0 <= i < nodes.len() && nodes[i].id_address@ == id
}

/// Whether some reward row with this address exists.
pub open spec fn has_reward(rewards: Seq<RewardRecord>, id: Seq<char>) -> bool {
    exists|i: int| 0 <= i < rewards.len() && rewards[i].id_address@ == id
}

pub open spec fn reward_idx(rewards: Seq<RewardRecord>, id: Seq<char>) -> int {
    choose|i: int| 0 <= i < rewards.len() && rewards[i].id_address@ == id
}

/// Whether the group holds a member with this address.
pub open spec fn has_member(g: Group, id: Seq<char>) -> bool {
    exists|i: int| 0 <= i < g.members@.len() && g.members@[i].id_address@ == id
}

pub open spec fn member_idx(g: Group, id: Seq<char>) -> int {
    choose|i: int| 0 <= i < g.members@.len() && g.members@[i].id_address@ == id
}

/// Whether the group's commit cache holds an entry for this address.
pub open spec fn has_commit(g: Group, id: Seq<char>) -> bool {
    exists|i: int| 0 <= i < g.commit_cache@.len() && g.commit_cache@[i].id_address@ == id
}

/// Whether the address is one of the group's elected committers.
pub open spec fn is_committer(g: Group, id: Seq<char>) -> bool {
    exists|i: int| 0 <= i < g.committers@.len() && g.committers@[i]@ == id
}

/// Whether a pending signature task with this index exists.
pub open spec fn has_pending_task(tasks: Seq<SignatureTask>, index: int) -> bool {
    exists|i: int| 0 <= i < tasks.len() && tasks[i].index == index
}

pub open spec fn pending_task_idx(tasks: Seq<SignatureTask>, index: int) -> int {
    choose|i: int| 0 <= i < tasks.len() && tasks[i].index == index
}

/// Whether a verifiable signature reward for a given task index exists.
pub open spec fn has_vsr(vsrs: Seq<SignatureReward>, index: int) -> bool {
    exists|i: int| 0 <= i < vsrs.len() && vsrs[i].signature_task.index == index
}

pub open spec fn vsr_idx(vsrs: Seq<SignatureReward>, index: int) -> int {
    choose|i: int| 0 <= i < vsrs.len() && vsrs[i].signature_task.index == index
}

/// Whether a coordinator instance for this group index exists.
pub open spec fn has_coordinator(cs: Seq<GroupCoordinator>, group_index: int) -> bool {
    exists|i: int| 0 <= i < cs.len() && cs[i].group_index == group_index
}

pub open spec fn coordinator_idx(cs: Seq<GroupCoordinator>, group_index: int) -> int {
    choose|i: int| 0 <= i < cs.len() && cs[i].group_index == group_index
}

/// Structural well-formedness of one group.
pub open spec fn group_wf(g: Group) -> bool {
    &&& g.size == g.members@.len()
    &&& g.capacity == GROUP_MAX_CAPACITY
    &&& forall|i: int, j: int|
        0 <= i < j < g.members@.len() ==> g.members@[i].id_address@ != g.members@[j].id_address@
    &&& forall|i: int, j: int|
        0 <= i < j < g.members@.len() ==> g.members@[i].index != g.members@[j].index
    &&& forall|i: int| 0 <= i < g.members@.len() ==> g.members@[i].index < usize::MAX
    &&& forall|i: int, j: int|
        0 <= i < j < g.commit_cache@.len() ==> g.commit_cache@[i].id_address@
            != g.commit_cache@[j].id_address@
    &&& forall|i: int|
        0 <= i < g.commit_cache@.len() ==> (#[trigger] g.commit_cache@[i]).cache.commit_result.public_key@.len()
            > 0 && g.commit_cache@[i].cache.partial_public_key@.len() > 0
    &&& g.size > 0 ==> g.threshold == spec_group_threshold(g.size as int)
    &&& g.state ==> group_ready_wf(g)
}

/// What holds of every group whose DKG has succeeded (`state == true`).
pub open spec fn group_ready_wf(g: Group) -> bool {
    &&& g.public_key@.len() > 0
    &&& g.members@.len() >= 3
    &&& g.committers@.len() == spec_committers_size(g.threshold as int)
    &&& forall|i: int, j: int|
        0 <= i < j < g.committers@.len() ==> g.committers@[i]@ != g.committers@[j]@
    &&& forall|i: int| 0 <= i < g.committers@.len() ==> has_member(g, g.committers@[i]@)
    &&& forall|i: int|
        0 <= i < g.members@.len() ==> (has_commit(g, g.members@[i].id_address@)
            ==> g.members@[i].partial_public_key@.len() > 0)
}

impl Controller {
    /// The controller's global invariant: every mutating operation preserves
    /// it.
    pub open spec fn inv(self) -> bool {
        &&& forall|i: int|
            0 <= i < self.groups@.len() ==> (#[trigger] self.groups@[i]).index == i + 1
        &&& forall|i: int| 0 <= i < self.groups@.len() ==> group_wf(#[trigger] self.groups@[i])
        &&& forall|i: int, j: int|
            0 <= i < j < self.nodes@.len() ==> self.nodes@[i].id_address@
                != self.nodes@[j].id_address@
        &&& forall|i: int, j: int|
            0 <= i < j < self.rewards@.len() ==> self.rewards@[i].id_address@
                != self.rewards@[j].id_address@
        &&& forall|i: int, j: int|
            0 <= i < j < self.pending_signature_tasks@.len()
                ==> self.pending_signature_tasks@[i].index
                != self.pending_signature_tasks@[j].index
        &&& forall|i: int|
            0 <= i < self.pending_signature_tasks@.len()
                ==> (#[trigger] self.pending_signature_tasks@[i]).index < self.signature_count
        &&& forall|i: int, j: int|
            0 <= i < j < self.verifiable_signature_rewards@.len()
                ==> self.verifiable_signature_rewards@[i].signature_task.index
                != self.verifiable_signature_rewards@[j].signature_task.index
        &&& forall|i: int|
            0 <= i < self.verifiable_signature_rewards@.len()
                ==> (#[trigger] self.verifiable_signature_rewards@[i]).signature_task.index
                < self.signature_count
        &&& forall|i: int, j: int|
            0 <= i < self.pending_signature_tasks@.len() && 0 <= j
                < self.verifiable_signature_rewards@.len()
                ==> self.pending_signature_tasks@[i].index
                != self.verifiable_signature_rewards@[j].signature_task.index
        &&& forall|i: int, j: int|
            0 <= i < j < self.coordinators@.len() ==> self.coordinators@[i].group_index
                != self.coordinators@[j].group_index
        &&& forall|i: int|
            0 <= i < self.coordinators@.len() ==> (#[trigger] self.coordinators@[i]).coordinator.wf()
        &&& forall|g: int, m: int|
            0 <= g < self.groups@.len() && 0 <= m < self.groups@[g].members@.len() ==> has_node(
                self.nodes@,
                self.groups@[g].members@[m].id_address@,
            )
        &&& forall|g: int, h: int, m: int, n: int|
            0 <= g < self.groups@.len() && 0 <= h < self.groups@.len() && g != h && 0 <= m
                < self.groups@[g].members@.len() && 0 <= n < self.groups@[h].members@.len()
                ==> self.groups@[g].members@[m].id_address@ != self.groups@[h].members@[n].id_address@
        &&& forall|i: int|
            0 <= i < self.nodes@.len() ==> ((#[trigger] self.nodes@[i]).state
                ==> self.nodes@[i].staking >= NODE_STAKING_AMOUNT)
        &&& forall|i: int|
            0 <= i < self.verifiable_signature_rewards@.len() ==> vsr_wf(
                #[trigger] self.verifiable_signature_rewards@[i],
                self.nodes@,
            )
    }

    pub fn new(initial_entropy: u64, controller_address: String) -> (r: Controller)
        ensures
            r.inv(),
            r.block_height == 100,
            r.epoch == 1,
            r.signature_count == 0,
            r.last_output == initial_entropy,
            r.last_group_index == 0,
            r.groups@.len() == 0,
            r.nodes@.len() == 0,
            r.rewards@.len() == 0,
            r.pending_signature_tasks@.len() == 0,
            r.verifiable_signature_rewards@.len() == 0,
            r.dkg_task is None,
            r.signature_task is None,
            r.coordinators@.len() == 0,
    {
        Controller {
            block_height: 100,
            epoch: 1,
            signature_count: 0,
            last_output: initial_entropy,
            last_group_index: 0,
            groups: Vec::new(),
            nodes: Vec::new(),
            rewards: Vec::new(),
            pending_signature_tasks: Vec::new(),
            verifiable_signature_rewards: Vec::new(),
            dkg_task: None,
            signature_task: None,
            coordinators: Vec::new(),
            controller_address,
        }
    }

    pub fn get_last_output(&self) -> (r: u64)
        ensures
            r == self.last_output,
    {
        self.last_output
    }

    pub fn get_node(&self, id_address: &String) -> (r: &Node)
        requires
            self.inv(),
            has_node(self.nodes@, id_address@),
        ensures
            *r == self.nodes@[node_idx(self.nodes@, id_address@)],
            r.id_address@ == id_address@,
    {
        let i = self.find_node(id_address).unwrap();
        proof {
            node_idx_is(self.nodes@, id_address@, i as int);
        }
        &self.nodes[i]
    }

    pub fn get_group(&self, index: usize) -> (r: &Group)
        requires
            1 <= index <= self.groups@.len(),
        ensures
            *r == self.groups@[index - 1],
    {
        &self.groups[index - 1]
    }

    /// A task is complete once it has been issued and is no longer pending.
    pub fn get_signature_task_completion_state(&self, index: usize) -> (r: bool)
        ensures
            r == (index < self.signature_count && !has_pending_task(
                self.pending_signature_tasks@,
                index as int,
            )),
    {
        index < self.signature_count && self.find_pending_task(index).is_none()
    }

    /// The indices of the groups that are ready to produce randomness.
    pub fn valid_group_indices(&self) -> (r: Vec<usize>)
        requires
            self.inv(),
        ensures
            forall|i: int|
                0 <= i < r@.len() ==> 1 <= #[trigger] r@[i] <= self.groups@.len()
                    && self.groups@[r@[i] - 1].state,
            forall|g: int|
                0 <= g < self.groups@.len() && (#[trigger] self.groups@[g]).state ==> r@.contains(
                    (g + 1) as usize,
                ),
            forall|i: int, j: int| 0 <= i < j < r@.len() ==> r@[i] != r@[j],
            r@.len() == 0 <==> (forall|g: int|
                0 <= g < self.groups@.len() ==> !(#[trigger] self.groups@[g]).state),
    {
        let mut r: Vec<usize> = Vec::new();
        let mut i: usize = 0;
        while i < self.groups.len()
            invariant
                i <= self.groups@.len(),
                self.inv(),
                forall|k: int|
                    0 <= k < r@.len() ==> 1 <= #[trigger] r@[k] <= i && self.groups@[r@[k]
                        - 1].state,
                forall|g: int|
                    0 <= g < i && (#[trigger] self.groups@[g]).state ==> r@.contains(
                        (g + 1) as usize,
                    ),
                forall|a: int, b: int| 0 <= a < b < r@.len() ==> r@[a] != r@[b],
                r@.len() == 0 <==> (forall|g: int|
                    0 <= g < i ==> !(#[trigger] self.groups@[g]).state),
            decreases self.groups@.len() - i,
        {
            if self.groups[i].state {
                let ghost old_r = r@;
                r.push(i + 1);
                proof {
                    assert forall|g: int| 0 <= g <= i && (#[trigger] self.groups@[g]).state
                        implies r@.contains((g + 1) as usize) by {
                        if g < i {
                            let k = choose|k: int|
                                0 <= k < old_r.len() && old_r[k] == (g + 1) as usize;
                            assert(r@[k] == (g + 1) as usize);
                        } else {
                            assert(r@[r@.len() - 1] == (i + 1) as usize);
                        }
                    }
                }
            }
            i = i + 1;
        }
        r
    }

    /// Advance the chain by `block_number` blocks, forwarding the clock to
    /// every live coordinator.
    pub fn mine(&mut self, block_number: usize) -> (r: ControllerResult<usize>)
        requires
            old(self).inv(),
        ensures
            final(self).inv(),
            final(self).block_height == old(self).block_height.saturating_add(block_number),
            r == ControllerResult::<usize>::Ok(final(self).block_height),
            final(self).groups@ == old(self).groups@,
            final(self).nodes@ == old(self).nodes@,
            final(self).rewards@ == old(self).rewards@,
            final(self).pending_signature_tasks@ == old(self).pending_signature_tasks@,
            final(self).verifiable_signature_rewards@ == old(self).verifiable_signature_rewards@,
            final(self).signature_count == old(self).signature_count,
            final(self).last_output == old(self).last_output,
            final(self).epoch == old(self).epoch,
            final(self).coordinators@.len() == old(self).coordinators@.len(),
            forall|i: int|
                0 <= i < final(self).coordinators@.len()
                    ==> (#[trigger] final(self).coordinators@[i]).group_index
                    == old(self).coordinators@[i].group_index,
            // every live coordinator's protocol clock advances by the same
            // amount
            forall|i: int|
                0 <= i < final(self).coordinators@.len()
                    ==> (#[trigger] final(self).coordinators@[i]).coordinator == (Coordinator {
                    block_height: old(self).coordinators@[i].coordinator.block_height.saturating_add(
                        block_number,
                    ),
                    ..old(self).coordinators@[i].coordinator
                }),
    {
        self.block_height = self.block_height.saturating_add(block_number);
        let mut i: usize = 0;
        while i < self.coordinators.len()
            invariant
                i <= self.coordinators@.len(),
                self.inv(),
                self.block_height == old(self).block_height.saturating_add(block_number),
                self.groups@ == old(self).groups@,
                self.nodes@ == old(self).nodes@,
                self.rewards@ == old(self).rewards@,
                self.pending_signature_tasks@ == old(self).pending_signature_tasks@,
                self.verifiable_signature_rewards@ == old(self).verifiable_signature_rewards@,
                self.signature_count == old(self).signature_count,
                self.last_output == old(self).last_output,
                self.epoch == old(self).epoch,
                self.coordinators@.len() == old(self).coordinators@.len(),
                forall|k: int|
                    0 <= k < self.coordinators@.len() ==> (#[trigger] self.coordinators@[k]).group_index
                        == old(self).coordinators@[k].group_index,
                forall|k: int|
                    0 <= k < self.coordinators@.len()
                        ==> (#[trigger] self.coordinators@[k]).coordinator.wf(),
                forall|k: int|
                    0 <= k < i ==> (#[trigger] self.coordinators@[k]).coordinator == (Coordinator {
                        block_height: old(self).coordinators@[k].coordinator.block_height.saturating_add(
                            block_number,
                        ),
                        ..old(self).coordinators@[k].coordinator
                    }),
                forall|k: int|
                    i <= k < self.coordinators@.len() ==> (#[trigger] self.coordinators@[k]).coordinator
                        == old(self).coordinators@[k].coordinator,
            decreases self.coordinators@.len() - i,
        {
            let gc = &mut self.coordinators[i];
            gc.coordinator.mine(block_number);
            i = i + 1;
        }
        Ok(self.block_height)
    }

    /// The most recent DKG task, for the node runtime to poll.
    pub fn emit_dkg_task(&self) -> (r: ControllerResult<&DKGTask>)
        ensures
            self.dkg_task is Some <==> r is Ok,
            r is Err ==> r == ControllerResult::<&DKGTask>::Err(ControllerError::NoTaskAvailable),
            r is Ok ==> *r->Ok_0 == self.dkg_task->0,
    {
        match &self.dkg_task {
            Some(t) => Ok(t),
            None => Err(ControllerError::NoTaskAvailable),
        }
    }

    /// The most recent signature task, for the node runtime to poll.
    pub fn emit_signature_task(&self) -> (r: ControllerResult<&SignatureTask>)
        ensures
            self.signature_task is Some <==> r is Ok,
            r is Err ==> r == ControllerResult::<&SignatureTask>::Err(
                ControllerError::NoTaskAvailable,
            ),
            r is Ok ==> *r->Ok_0 == self.signature_task->0,
    {
        match &self.signature_task {
            Some(t) => Ok(t),
            None => Err(ControllerError::NoTaskAvailable),
        }
    }

    pub fn pending_signature_tasks(&self) -> (r: &Vec<SignatureTask>)
        ensures
            r@ == self.pending_signature_tasks@,
    {
        &self.pending_signature_tasks
    }

    pub fn verifiable_signature_rewards(&self) -> (r: &Vec<SignatureReward>)
        ensures
            r@ == self.verifiable_signature_rewards@,
    {
        &self.verifiable_signature_rewards
    }

    fn find_node(&self, id_address: &String) -> (r: Option<usize>)
        ensures
            match r {
                Some(i) => 0 <= i < self.nodes@.len() && self.nodes@[i as int].id_address@
                    == id_address@,
                None => !has_node(self.nodes@, id_address@),
            },
    {
        let mut i: usize = 0;
        while i < self.nodes.len()
            invariant
                i <= self.nodes@.len(),
                forall|k: int| 0 <= k < i ==> self.nodes@[k].id_address@ != id_address@,
            decreases self.nodes@.len() - i,
        {
            if *id_address == self.nodes[i].id_address {
                return Some(i);
            }
            i = i + 1;
        }
        None
    }

    fn find_reward(&self, id_address: &String) -> (r: Option<usize>)
        ensures
            match r {
                Some(i) => 0 <= i < self.rewards@.len() && self.rewards@[i as int].id_address@
                    == id_address@,
                None => !has_reward(self.rewards@, id_address@),
            },
    {
        let mut i: usize = 0;
        while i < self.rewards.len()
            invariant
                i <= self.rewards@.len(),
                forall|k: int| 0 <= k < i ==> self.rewards@[k].id_address@ != id_address@,
            decreases self.rewards@.len() - i,
        {
            if *id_address == self.rewards[i].id_address {
                return Some(i);
            }
            i = i + 1;
        }
        None
    }

    fn find_pending_task(&self, index: usize) -> (r: Option<usize>)
        ensures
            match r {
                Some(i) => 0 <= i < self.pending_signature_tasks@.len()
                    && self.pending_signature_tasks@[i as int].index == index,
                None => !has_pending_task(self.pending_signature_tasks@, index as int),
            },
    {
        let mut i: usize = 0;
        while i < self.pending_signature_tasks.len()
            invariant
                i <= self.pending_signature_tasks@.len(),
                forall|k: int| 0 <= k < i ==> self.pending_signature_tasks@[k].index != index,
            decreases self.pending_signature_tasks@.len() - i,
        {
            if self.pending_signature_tasks[i].index == index {
                return Some(i);
            }
            i = i + 1;
        }
        None
    }

    fn find_vsr(&self, index: usize) -> (r: Option<usize>)
        ensures
            match r {
                Some(i) => 0 <= i < self.verifiable_signature_rewards@.len()
                    && self.verifiable_signature_rewards@[i as int].signature_task.index == index,
                None => !has_vsr(self.verifiable_signature_rewards@, index as int),
            },
    {
        let mut i: usize = 0;
        while i < self.verifiable_signature_rewards.len()
            invariant
                i <= self.verifiable_signature_rewards@.len(),
                forall|k: int|
                    0 <= k < i ==> self.verifiable_signature_rewards@[k].signature_task.index
                        != index,
            decreases self.verifiable_signature_rewards@.len() - i,
        {
            if self.verifiable_signature_rewards[i].signature_task.index == index {
                return Some(i);
            }
            i = i + 1;
        }
        None
    }

    fn find_coordinator(&self, group_index: usize) -> (r: Option<usize>)
        ensures
            match r {
                Some(i) => 0 <= i < self.coordinators@.len()
                    && self.coordinators@[i as int].group_index == group_index,
                None => !has_coordinator(self.coordinators@, group_index as int),
            },
    {
        let mut i: usize = 0;
        while i < self.coordinators.len()
            invariant
                i <= self.coordinators@.len(),
                forall|k: int| 0 <= k < i ==> self.coordinators@[k].group_index != group_index,
            decreases self.coordinators@.len() - i,
        {
            if self.coordinators[i].group_index == group_index {
                return Some(i);
            }
            i = i + 1;
        }
        None
    }
}

/// Every reward record refers to a registered committer, and its partial
/// signatures come from members of the frozen group snapshot.
pub open spec fn vsr_wf(vsr: SignatureReward, nodes: Seq<Node>) -> bool {
    &&& has_node(nodes, vsr.committer@)
    &&& forall|a: int, b: int|
        0 <= a < b < vsr.group.members@.len() ==> vsr.group.members@[a].id_address@
            != vsr.group.members@[b].id_address@
    &&& forall|i: int|
        0 <= i < vsr.partial_signatures@.len() ==> has_member(
            vsr.group,
            vsr.partial_signatures@[i].0@,
        )
    &&& forall|i: int, j: int|
        0 <= i < j < vsr.partial_signatures@.len() ==> vsr.partial_signatures@[i].0@
            != vsr.partial_signatures@[j].0@
}

/// Pins `node_idx` to a concrete position.
pub proof fn node_idx_is(nodes: Seq<Node>, id: Seq<char>, i: int)
    requires
        0 <= i < nodes.len(),
        nodes[i].id_address@ == id,
        forall|a: int, b: int|
            0 <= a < b < nodes.len() ==> nodes[a].id_address@ != nodes[b].id_address@,
    ensures
        has_node(nodes, id),
        node_idx(nodes, id) == i,
{
    assert(has_node(nodes, id));
    let j = node_idx(nodes, id);
    if i < j {
        assert(nodes[i].id_address@ != nodes[j].id_address@);
    } else if j < i {
        assert(nodes[j].id_address@ != nodes[i].id_address@);
    }
}

impl Controller {
    /// Pick the group a joining node goes to: the smallest group, unless the
    /// network is still growing (fewer than the expected number of working
    /// groups, or the smallest is full) while every group is ready; then a
    /// fresh group is created and the caller is asked to rebalance into it.
    fn find_available_group(&mut self) -> (r: (usize, bool))
        requires
            old(self).inv(),
        ensures
            final(self).inv(),
            1 <= r.0 <= final(self).groups@.len(),
            old(self).groups@.len() <= final(self).groups@.len() <= old(self).groups@.len() + 1,
            forall|j: int|
                0 <= j < old(self).groups@.len() ==> final(self).groups@[j] == old(self).groups@[j],
            final(self).groups@.len() > old(self).groups@.len() ==> final(self).groups@[r.0
                - 1].members@.len() == 0,
            // without a fresh group, the smallest existing group is chosen
            final(self).groups@.len() == old(self).groups@.len() ==> forall|g: int|
                0 <= g < old(self).groups@.len() ==> final(self).groups@[r.0 - 1].size
                    <= (#[trigger] old(self).groups@[g]).size,
            final(self).ledgers_unchanged(*old(self)),
            final(self).epoch == old(self).epoch,
            final(self).dkg_task == old(self).dkg_task,
            final(self).coordinators@ == old(self).coordinators@,
            forall|id: Seq<char>| final(self).member_of_any(id) == old(self).member_of_any(id),
    {
        if self.groups.len() == 0 {
            let gi = self.add_group();
            return (gi, false);
        }
        let mut index_of_min_size: usize = 1;
        let mut min_size: usize = self.groups[0].size;
        let mut i: usize = 1;
        while i < self.groups.len()
            invariant
                self.inv(),
                1 <= i <= self.groups@.len(),
                1 <= index_of_min_size <= self.groups@.len(),
                min_size == self.groups@[index_of_min_size - 1].size,
                forall|g: int| 0 <= g < i ==> min_size <= (#[trigger] self.groups@[g]).size,
            decreases self.groups@.len() - i,
        {
            if self.groups[i].size < min_size {
                min_size = self.groups[i].size;
                index_of_min_size = i + 1;
            }
            i = i + 1;
        }
        let valid_group_count = self.valid_group_indices().len();
        if (valid_group_count < EXPECTED_GROUP_SIZE || min_size == GROUP_MAX_CAPACITY)
            && valid_group_count == self.groups.len() {
            let gi = self.add_group();
            return (gi, true);
        }
        (index_of_min_size, false)
    }

    /// Move members from the larger of the two groups into the smaller one
    /// until they are balanced, picking the movers deterministically from
    /// the larger group's member indices with the last randomness output as
    /// seed. Refused (with `Ok(false)`) when it would drop the donor below
    /// the minimum threshold; on success both groups start a DKG round.
    #[verifier::rlimit(100)]
    #[verifier::spinoff_prover]
    fn rebalance_group(&mut self, group_a_index: usize, group_b_index: usize) -> (r:
        ControllerResult<bool>)
        requires
            old(self).inv(),
            1 <= group_a_index <= old(self).groups@.len(),
            1 <= group_b_index <= old(self).groups@.len(),
            group_a_index != group_b_index,
        ensures
            final(self).inv(),
            r is Ok,
            final(self).groups@.len() == old(self).groups@.len(),
            final(self).nodes@ == old(self).nodes@,
            final(self).rewards@ == old(self).rewards@,
            final(self).pending_signature_tasks@ == old(self).pending_signature_tasks@,
            final(self).verifiable_signature_rewards@ == old(self).verifiable_signature_rewards@,
            final(self).signature_task == old(self).signature_task,
            final(self).block_height == old(self).block_height,
            final(self).last_output == old(self).last_output,
            final(self).signature_count == old(self).signature_count,
            final(self).last_group_index == old(self).last_group_index,
            forall|j: int|
                0 <= j < old(self).groups@.len() && j != group_a_index - 1 && j != group_b_index
                    - 1 ==> final(self).groups@[j] == old(self).groups@[j],
            forall|id: Seq<char>| final(self).member_of_any(id) == old(self).member_of_any(id),
            r == ControllerResult::<bool>::Ok(false) ==> *final(self) == *old(self),
            r == ControllerResult::<bool>::Ok(true) ==> final(self).dkg_task is Some,
            r == ControllerResult::<bool>::Ok(false) <==> rebalance_refused(
                *old(self),
                group_a_index,
                group_b_index,
            ),
            r == ControllerResult::<bool>::Ok(true) ==> ({
                let total = old(self).groups@[group_a_index - 1].size + old(self).groups@[
                    group_b_index - 1].size;
                let donor = if old(self).groups@[group_b_index - 1].size > old(self).groups@[
                    group_a_index - 1].size {
                    group_b_index
                } else {
                    group_a_index
                };
                let receiver = if old(self).groups@[group_b_index - 1].size > old(self).groups@[
                    group_a_index - 1].size {
                    group_a_index
                } else {
                    group_b_index
                };
                final(self).groups@[donor - 1].members@.len() == total / 2 && final(self).groups@[
                    receiver - 1].members@.len() == total - total / 2
            }),
    {
        let (a_idx, b_idx) = if self.groups[group_b_index - 1].size > self.groups[group_a_index
            - 1].size {
            (group_b_index, group_a_index)
        } else {
            (group_a_index, group_b_index)
        };
        let a_size = self.groups[a_idx - 1].size;
        let b_size = self.groups[b_idx - 1].size;
        let total = match a_size.checked_add(b_size) {
            Some(t) => t,
            None => {
                return Ok(false);
            },
        };
        let expected_size_to_move = a_size - total / 2;
        if a_size - expected_size_to_move < DEFAULT_MINIMUM_THRESHOLD {
            return Ok(false);
        }
        let mut qualified_indices: Vec<usize> = Vec::new();
        let ghost a_members = self.groups@[a_idx - 1].members@;
        let mut i: usize = 0;
        while i < self.groups[a_idx - 1].members.len()
            invariant
                self.inv(),
                1 <= a_idx <= self.groups@.len(),
                a_members == self.groups@[a_idx - 1].members@,
                i <= a_members.len(),
                qualified_indices@.len() == i,
                forall|k: int|
                    0 <= k < i ==> qualified_indices@[k] == a_members[k].index,
            decreases a_members.len() - i,
        {
            qualified_indices.push(self.groups[a_idx - 1].members[i].index);
            i = i + 1;
        }
        proof {
            assert(qualified_indices@.no_duplicates());
        }
        let members_to_move = utils::choose_randomly_from_indices(
            self.last_output,
            &qualified_indices,
            expected_size_to_move,
        );
        let ghost movers = members_to_move@;
        let ghost b_len0 = self.groups@[b_idx - 1].members@.len();
        proof {
            utils::lemma_choose_randomly_properties(
                self.last_output,
                qualified_indices@,
                expected_size_to_move as nat,
            );
            assert(movers.len() == expected_size_to_move);
            assert forall|k: int|
                0 <= k < movers.len() implies member_index_used(
                    self.groups@[a_idx - 1],
                    #[trigger] movers[k] as int,
                ) by {
                assert(qualified_indices@.contains(movers[k]));
                let w = choose|w: int|
                    0 <= w < qualified_indices@.len() && qualified_indices@[w] == movers[k];
                assert(a_members[w].index == movers[k]);
            }
        }
        let mut j: usize = 0;
        while j < members_to_move.len()
            invariant
                self.inv(),
                1 <= a_idx <= self.groups@.len(),
                1 <= b_idx <= self.groups@.len(),
                a_idx != b_idx,
                members_to_move@ == movers,
                j <= movers.len(),
                movers.no_duplicates(),
                self.groups@[a_idx - 1].members@.len() == a_members.len() - j,
                self.groups@[b_idx - 1].members@.len() == b_len0 + j,
                forall|k: int|
                    j <= k < movers.len() ==> member_index_used(
                        self.groups@[a_idx - 1],
                        #[trigger] movers[k] as int,
                    ),
                self.groups@.len() == old(self).groups@.len(),
                self.nodes@ == old(self).nodes@,
                self.rewards@ == old(self).rewards@,
                self.pending_signature_tasks@ == old(self).pending_signature_tasks@,
                self.verifiable_signature_rewards@ == old(self).verifiable_signature_rewards@,
                self.signature_task == old(self).signature_task,
                self.block_height == old(self).block_height,
                self.last_output == old(self).last_output,
                self.signature_count == old(self).signature_count,
                self.last_group_index == old(self).last_group_index,
                forall|t: int|
                    0 <= t < old(self).groups@.len() && t != a_idx - 1 && t != b_idx - 1
                        ==> self.groups@[t] == old(self).groups@[t],
                forall|id: Seq<char>|
                    self.member_of_any(id) == old(self).member_of_any(id),
            decreases movers.len() - j,
        {
            let mover_index = members_to_move[j];
            let pos = match find_member_by_index(&self.groups[a_idx - 1], mover_index) {
                Some(p) => p,
                None => {
                    proof {
                        assert(false);
                    }
                    0
                },
            };
            let mover_address = self.groups[a_idx - 1].members[pos].id_address.clone();
            let ghost pre_a = self.groups@[a_idx - 1];
            proof {
                member_idx_is(pre_a, mover_address@, pos as int);
            }
            let rr = self.remove_from_group(&mover_address, a_idx, false);
            proof {
                assert(rr is Ok);
                // the mover left its only group, so it is in none
                assert(!self.member_of_any(mover_address@));
            }
            let ar = self.add_to_group(mover_address, b_idx, false);
            proof {
                assert(ar is Ok);
                assert forall|k: int|
                    j + 1 <= k < movers.len() implies member_index_used(
                        self.groups@[a_idx - 1],
                        #[trigger] movers[k] as int,
                    ) by {
                    assert(member_index_used(pre_a, movers[k] as int));
                    let w = choose|w: int|
                        0 <= w < pre_a.members@.len() && pre_a.members@[w].index == movers[k];
                    assert(pre_a.members@[w].index != mover_index);
                    assert(w != pos);
                    let w1 = if w < pos as int { w } else { w - 1 };
                    assert(pre_a.members@.remove(pos as int)[w1] == pre_a.members@[w]);
                }
            }
            j = j + 1;
        }
        let e1 = self.emit_group_event(a_idx);
        let e2 = self.emit_group_event(b_idx);
        proof {
            assert(e1 is Ok && e2 is Ok);
        }
        Ok(true)
    }
}

fn find_member_by_index(g: &Group, index: usize) -> (r: Option<usize>)
    ensures
        match r {
            Some(p) => 0 <= p < g.members@.len() && g.members@[p as int].index == index,
            None => !member_index_used(*g, index as int),
        },
{
    let mut i: usize = 0;
    while i < g.members.len()
        invariant
            i <= g.members@.len(),
            forall|k: int| 0 <= k < i ==> g.members@[k].index != index,
        decreases g.members@.len() - i,
    {
        if g.members[i].index == index {
            return Some(i);
        }
        i = i + 1;
    }
    None
}

impl Controller {
    /// Seat a registered, unseated node in an available group, rebalancing
    /// other groups into a newly created one when group formation asks for
    /// it.
    fn node_join(&mut self, id_address: String) -> (r: ControllerResult<bool>)
        requires
            old(self).inv(),
            has_node(old(self).nodes@, id_address@),
            !old(self).member_of_any(id_address@),
        ensures
            final(self).inv(),
            r == ControllerResult::<bool>::Ok(true),
            final(self).member_of_any(id_address@),
            final(self).nodes@ == old(self).nodes@,
            final(self).rewards@ == old(self).rewards@,
            final(self).pending_signature_tasks@ == old(self).pending_signature_tasks@,
            final(self).verifiable_signature_rewards@ == old(self).verifiable_signature_rewards@,
            final(self).signature_task == old(self).signature_task,
            final(self).block_height == old(self).block_height,
            final(self).last_output == old(self).last_output,
            final(self).signature_count == old(self).signature_count,
            final(self).last_group_index == old(self).last_group_index,
            // once the node's group holds three members, a DKG task stands
            (exists|g: int|
                0 <= g < final(self).groups@.len() && has_member(
                    #[trigger] final(self).groups@[g],
                    id_address@,
                ) && final(self).groups@[g].members@.len() >= 3) ==> final(self).dkg_task is Some,
    {
        let ghost id_view = id_address@;
        let (group_index, need_rebalance) = self.find_available_group();
        let ghost pre_add = *self;
        let jr = self.add_to_group(id_address, group_index, true);
        proof {
            assert(jr is Ok);
        }
        let ghost post_add = *self;
        if need_rebalance {
            let n = self.groups.len();
            let mut idx: usize = 0;
            let mut done = false;
            while idx < n && !done
                invariant
                    self.inv(),
                    1 <= group_index <= n,
                    n <= self.groups@.len(),
                    idx <= n,
                    self.member_of_any(id_view),
                    self.dkg_task is Some || *self == post_add,
                    self.nodes@ == old(self).nodes@,
                    self.rewards@ == old(self).rewards@,
                    self.pending_signature_tasks@ == old(self).pending_signature_tasks@,
                    self.verifiable_signature_rewards@ == old(self).verifiable_signature_rewards@,
                    self.signature_task == old(self).signature_task,
                    self.block_height == old(self).block_height,
                    self.last_output == old(self).last_output,
                    self.signature_count == old(self).signature_count,
                    self.last_group_index == old(self).last_group_index,
                decreases n - idx,
            {
                let group_number = idx + 1;
                if group_number != group_index {
                    match self.rebalance_group(group_number, group_index) {
                        Ok(true) => {
                            done = true;
                        },
                        _ => {},
                    }
                }
                idx = idx + 1;
            }
        }
        proof {
            if !(self.dkg_task is Some) {
                assert(*self == post_add);
                // no event fired, so the node's group is still below three
                assert(post_add.groups@[group_index - 1].members@.len() < 3) by {
                    if pre_add.groups@[group_index - 1].size + 1 >= 3 {
                        assert(post_add.dkg_task is Some);
                    }
                }
                assert forall|g: int|
                    0 <= g < self.groups@.len() && has_member(
                        #[trigger] self.groups@[g],
                        id_view,
                    ) implies self.groups@[g].members@.len() < 3 by {
                    if g != group_index - 1 {
                        assert(self.groups@[g] == pre_add.groups@[g]);
                        assert(has_member(pre_add.groups@[g], id_view));
                        assert(pre_add.member_of_any(id_view));
                    }
                }
            }
        }
        Ok(true)
    }

    /// Register a new node: it is funded with the full stake, gets a fresh
    /// reward balance, and joins an available group at once. Fails with
    /// `NodeExisted` exactly when the address is already registered.
    pub fn node_register(&mut self, id_address: String, id_public_key: Vec<u8>) -> (r:
        ControllerResult<()>)
        requires
            old(self).inv(),
        ensures
            final(self).inv(),
            r is Err <==> has_node(old(self).nodes@, id_address@),
            r is Err ==> r == ControllerResult::<()>::Err(ControllerError::NodeExisted) && *final(self) == *old(self),
            r is Ok ==> {
                &&& final(self).nodes@.drop_last() == old(self).nodes@
                &&& final(self).nodes@.last().id_address@ == id_address@
                &&& final(self).nodes@.last().id_public_key@ == id_public_key@
                &&& final(self).nodes@.last().state
                &&& final(self).nodes@.last().pending_until_block == 0
                &&& final(self).nodes@.last().staking == NODE_STAKING_AMOUNT
                &&& has_reward(final(self).rewards@, id_address@)
                &&& final(self).rewards@[reward_idx(final(self).rewards@, id_address@)].amount
                    == 0
                &&& final(self).member_of_any(id_address@)
                &&& ((exists|g: int|
                    0 <= g < final(self).groups@.len() && has_member(
                        #[trigger] final(self).groups@[g],
                        id_address@,
                    ) && final(self).groups@[g].members@.len() >= 3) ==> final(self).dkg_task
                    is Some)
                &&& final(self).pending_signature_tasks@ == old(self).pending_signature_tasks@
                &&& final(self).verifiable_signature_rewards@ == old(self).verifiable_signature_rewards@
                &&& final(self).block_height == old(self).block_height
                &&& final(self).last_output == old(self).last_output
                &&& final(self).signature_count == old(self).signature_count
            },
    {
        let ghost id_view = id_address@;
        if self.find_node(&id_address).is_some() {
            return Err(ControllerError::NodeExisted);
        }
        proof {
            // an unregistered address is seated in no group
            if self.member_of_any(id_view) {
                let gx = choose|gx: int|
                    0 <= gx < self.groups@.len() && has_member(self.groups@[gx], id_view);
                assert(has_node(self.nodes@, id_view));
            }
        }
        let node = Node {
            id_address: id_address.clone(),
            id_public_key,
            state: true,
            pending_until_block: 0,
            staking: NODE_STAKING_AMOUNT,
        };
        self.nodes.push(node);
        proof {
            assert forall|g: int, m: int|
                0 <= g < self.groups@.len() && 0 <= m < self.groups@[g].members@.len()
                    implies has_node(
                    self.nodes@,
                    self.groups@[g].members@[m].id_address@,
                ) by {
                assert(has_node(old(self).nodes@, self.groups@[g].members@[m].id_address@));
                let w = choose|w: int|
                    0 <= w < old(self).nodes@.len() && old(self).nodes@[w].id_address@
                        == self.groups@[g].members@[m].id_address@;
                assert(self.nodes@[w].id_address@ == self.groups@[g].members@[m].id_address@);
            }
            assert forall|i: int|
                0 <= i < self.verifiable_signature_rewards@.len() implies vsr_wf(
                    #[trigger] self.verifiable_signature_rewards@[i],
                    self.nodes@,
                ) by {
                assert(vsr_wf(self.verifiable_signature_rewards@[i], old(self).nodes@));
                let v = self.verifiable_signature_rewards@[i];
                let w = choose|w: int|
                    0 <= w < old(self).nodes@.len() && old(self).nodes@[w].id_address@
                        == v.committer@;
                assert(self.nodes@[w].id_address@ == v.committer@);
            }
            assert(self.inv());
        }
        match self.find_reward(&id_address) {
            Some(k) => {
                let row = &mut self.rewards[k];
                row.amount = 0;
                proof {
                    reward_idx_is(self.rewards@, id_view, k as int);
                }
            },
            None => {
                self.rewards.push(RewardRecord { id_address: id_address.clone(), amount: 0 });
                proof {
                    reward_idx_is(self.rewards@, id_view, self.rewards@.len() - 1);
                }
            },
        }
        proof {
            assert(self.nodes@[self.nodes@.len() - 1].id_address@ == id_view);
            assert(has_node(self.nodes@, id_view));
            if self.member_of_any(id_view) {
                let gx = choose|gx: int|
                    0 <= gx < self.groups@.len() && has_member(self.groups@[gx], id_view);
                assert(has_member(old(self).groups@[gx], id_view));
                assert(has_node(old(self).nodes@, id_view));
            }
        }
        let jr = self.node_join(id_address);
        proof {
            assert(jr is Ok);
        }
        Ok(())
    }
}

/// The verifiable rewards that have not expired at block height `bh`,
/// in order.
pub open spec fn spec_live_rewards(s: Seq<SignatureReward>, bh: int) -> Seq<SignatureReward>
    decreases s.len(),
{
    if s.len() == 0 {
        Seq::empty()
    } else {
        let rest = spec_live_rewards(s.drop_last(), bh);
        if bh <= s.last().expiration_block_height {
            rest.push(s.last())
        } else {
            rest
        }
    }
}

pub proof fn lemma_live_rewards_elements(s: Seq<SignatureReward>, bh: int)
    ensures
        forall|i: int|
            0 <= i < spec_live_rewards(s, bh).len() ==> s.contains(
                #[trigger] spec_live_rewards(s, bh)[i],
            ),
        spec_live_rewards(s, bh).len() <= s.len(),
        (forall|a: int, b: int|
            0 <= a < b < s.len() ==> s[a].signature_task.index != s[b].signature_task.index)
            ==> (forall|a: int, b: int|
            0 <= a < b < spec_live_rewards(s, bh).len() ==> spec_live_rewards(
                s,
                bh,
            )[a].signature_task.index != spec_live_rewards(s, bh)[b].signature_task.index),
    decreases s.len(),
{
    let out = spec_live_rewards(s, bh);
    if s.len() == 0 {
    } else {
        lemma_live_rewards_elements(s.drop_last(), bh);
        let rest = spec_live_rewards(s.drop_last(), bh);
        assert forall|i: int| 0 <= i < out.len() implies s.contains(#[trigger] out[i]) by {
            if bh <= s.last().expiration_block_height && i == out.len() - 1 {
                assert(s[s.len() - 1] == out[i]);
                assert(s.contains(out[i]));
            } else {
                assert(out[i] == rest[i]);
                assert(s.drop_last().contains(rest[i]));
                let j = choose|j: int|
                    0 <= j < s.drop_last().len() && s.drop_last()[j] == rest[i];
                assert(s[j] == out[i]);
                assert(s.contains(out[i]));
            }
        }
        if forall|a: int, b: int|
            0 <= a < b < s.len() ==> s[a].signature_task.index != s[b].signature_task.index {
            assert forall|a: int, b: int|
                0 <= a < b < s.drop_last().len() implies s.drop_last()[a].signature_task.index
                    != s.drop_last()[b].signature_task.index by {
                assert(s.drop_last()[a] == s[a] && s.drop_last()[b] == s[b]);
            }
            assert forall|a: int, b: int|
                0 <= a < b < out.len() implies out[a].signature_task.index
                    != out[b].signature_task.index by {
                if bh <= s.last().expiration_block_height && b == out.len() - 1 {
                    assert(out[a] == rest[a]);
                    let j = choose|j: int|
                        0 <= j < s.drop_last().len() && rest[a] == s.drop_last()[j];
                    assert(out[a] == s[j]);
                    assert(out[b] == s[s.len() - 1]);
                    assert(s[j].signature_task.index != s[s.len() - 1].signature_task.index);
                } else {
                    assert(out[a] == rest[a] && out[b] == rest[b]);
                }
            }
        }
    }
}

impl Controller {
    /// Debit at most the available balance from an address's rewards.
    pub fn claim(&mut self, id_address: &String, _reward_address: &String, token_amount: usize)
        -> (r: ControllerResult<()>)
        requires
            old(self).inv(),
        ensures
            final(self).inv(),
            r is Err <==> !has_reward(old(self).rewards@, id_address@),
            r is Err ==> r == ControllerResult::<()>::Err(ControllerError::RewardRecordNotExisted)
                && *final(self) == *old(self),
            r is Ok ==> {
                &&& final(self).rewards@.len() == old(self).rewards@.len()
                &&& {
                    let i = reward_idx(old(self).rewards@, id_address@);
                    &&& final(self).rewards@[i].id_address@ == id_address@
                    &&& final(self).rewards@[i].amount == (if old(self).rewards@[i].amount
                        >= token_amount {
                        old(self).rewards@[i].amount - token_amount
                    } else {
                        0
                    })
                    &&& forall|k: int|
                        0 <= k < old(self).rewards@.len() && k != i ==> final(self).rewards@[k]
                            == old(self).rewards@[k]
                }
                &&& final(self).nodes@ == old(self).nodes@
                &&& final(self).groups@ == old(self).groups@
                &&& final(self).pending_signature_tasks@ == old(self).pending_signature_tasks@
                &&& final(self).verifiable_signature_rewards@ == old(self).verifiable_signature_rewards@
            },
    {
        let k = match self.find_reward(id_address) {
            Some(k) => k,
            None => {
                return Err(ControllerError::RewardRecordNotExisted);
            },
        };
        proof {
            reward_idx_is(self.rewards@, id_address@, k as int);
        }
        let row = &mut self.rewards[k];
        let operate_amount = if row.amount >= token_amount {
            token_amount
        } else {
            row.amount
        };
        row.amount = row.amount - operate_amount;
        Ok(())
    }

    /// Drop every verifiable reward whose challenge window has passed.
    pub fn check_verifiable_rewards_expiration(&mut self) -> (r: ControllerResult<()>)
        requires
            old(self).inv(),
        ensures
            final(self).inv(),
            r is Ok,
            final(self).verifiable_signature_rewards@ == spec_live_rewards(
                old(self).verifiable_signature_rewards@,
                old(self).block_height as int,
            ),
            final(self).nodes@ == old(self).nodes@,
            final(self).rewards@ == old(self).rewards@,
            final(self).groups@ == old(self).groups@,
            final(self).pending_signature_tasks@ == old(self).pending_signature_tasks@,
            final(self).block_height == old(self).block_height,
            final(self).last_output == old(self).last_output,
            final(self).signature_count == old(self).signature_count,
            final(self).last_group_index == old(self).last_group_index,
            final(self).signature_task == old(self).signature_task,
            final(self).dkg_task == old(self).dkg_task,
            final(self).coordinators@ == old(self).coordinators@,
            final(self).epoch == old(self).epoch,
    {
        let ghost bh = self.block_height as int;
        let mut live: Vec<SignatureReward> = Vec::new();
        let n = self.verifiable_signature_rewards.len();
        let ghost pre_vsrs = self.verifiable_signature_rewards@;
        let mut i: usize = 0;
        while i < n
            invariant
                n == pre_vsrs.len(),
                i + self.verifiable_signature_rewards@.len() == n,
                self.verifiable_signature_rewards@ =~= pre_vsrs.subrange(
                    i as int,
                    pre_vsrs.len() as int,
                ),
                live@ == spec_live_rewards(pre_vsrs.take(i as int), bh),
                bh == self.block_height as int,
                self.nodes@ == old(self).nodes@,
                self.rewards@ == old(self).rewards@,
                self.groups@ == old(self).groups@,
                self.pending_signature_tasks@ == old(self).pending_signature_tasks@,
                self.block_height == old(self).block_height,
                self.last_output == old(self).last_output,
                self.signature_count == old(self).signature_count,
                self.last_group_index == old(self).last_group_index,
                self.signature_task == old(self).signature_task,
                self.dkg_task == old(self).dkg_task,
                self.coordinators@ == old(self).coordinators@,
                self.epoch == old(self).epoch,
            decreases n - i,
        {
            proof {
                assert(pre_vsrs.subrange(i as int, pre_vsrs.len() as int)[0]
                    == pre_vsrs[i as int]);
                assert(pre_vsrs.take(i + 1 as int).drop_last() =~= pre_vsrs.take(i as int));
                assert(pre_vsrs.take(i + 1 as int).last() == pre_vsrs[i as int]);
            }
            let vsr = self.verifiable_signature_rewards.remove(0);
            if self.block_height <= vsr.expiration_block_height {
                live.push(vsr);
            }
            proof {
                assert(self.verifiable_signature_rewards@ =~= pre_vsrs.subrange(
                    i + 1 as int,
                    pre_vsrs.len() as int,
                ));
            }
            i = i + 1;
        }
        proof {
            assert(pre_vsrs.take(pre_vsrs.len() as int) =~= pre_vsrs);
        }
        self.verifiable_signature_rewards = live;
        proof {
            lemma_live_rewards_elements(pre_vsrs, bh);
            assert(self.verifiable_signature_rewards@ == spec_live_rewards(pre_vsrs, bh));
            assert forall|a: int|
                0 <= a < self.verifiable_signature_rewards@.len() implies vsr_wf(
                    #[trigger] self.verifiable_signature_rewards@[a],
                    self.nodes@,
                ) by {
                assert(self.verifiable_signature_rewards@[a] == spec_live_rewards(
                    pre_vsrs,
                    bh,
                )[a]);
                assert(pre_vsrs.contains(spec_live_rewards(pre_vsrs, bh)[a]));
                let j = choose|j: int|
                    0 <= j < pre_vsrs.len() && pre_vsrs[j] == spec_live_rewards(pre_vsrs, bh)[a];
                assert(pre_vsrs == old(self).verifiable_signature_rewards@);
                assert(vsr_wf(old(self).verifiable_signature_rewards@[j], old(self).nodes@));
                assert(self.nodes@ == old(self).nodes@);
                assert(vsr_wf(pre_vsrs[j], self.nodes@));
            }
            assert forall|a: int, b: int|
                0 <= a < b < self.verifiable_signature_rewards@.len() implies self.verifiable_signature_rewards@[a].signature_task.index
                    != self.verifiable_signature_rewards@[b].signature_task.index by {
                assert(self.verifiable_signature_rewards@[a] == spec_live_rewards(
                    pre_vsrs,
                    bh,
                )[a]);
                assert(self.verifiable_signature_rewards@[b] == spec_live_rewards(
                    pre_vsrs,
                    bh,
                )[b]);
                assert(spec_live_rewards(pre_vsrs, bh)[a].signature_task.index
                    != spec_live_rewards(pre_vsrs, bh)[b].signature_task.index);
            }
            assert(self.inv());
        }
        Ok(())
    }

    /// Put a node out of service: when asked, take it out of its group
    /// (rebalancing or evacuating the group when it falls below the minimum
    /// threshold), then mark it inactive and extend its pending window.
    #[verifier::rlimit(100)]
    #[verifier::spinoff_prover]
    fn freeze_node(&mut self, id_address: &String, pending_block: usize, handle_group: bool)
        -> (r: ControllerResult<()>)
        requires
            old(self).inv(),
            has_node(old(self).nodes@, id_address@),
            !handle_group ==> !old(self).member_of_any(id_address@),
        ensures
            final(self).inv(),
            r is Ok,
            !final(self).member_of_any(id_address@),
            final(self).nodes@.len() == old(self).nodes@.len(),
            forall|i: int|
                0 <= i < old(self).nodes@.len() && old(self).nodes@[i].id_address@ != id_address@
                    ==> final(self).nodes@[i] == old(self).nodes@[i],
            ({
                let i = node_idx(old(self).nodes@, id_address@);
                &&& final(self).nodes@[i].id_address@ == id_address@
                &&& final(self).nodes@[i].id_public_key@ == old(self).nodes@[i].id_public_key@
                &&& !final(self).nodes@[i].state
                &&& final(self).nodes@[i].staking == old(self).nodes@[i].staking
                &&& final(self).nodes@[i].pending_until_block == (if old(self).nodes@[i].pending_until_block
                    > old(self).block_height {
                    old(self).nodes@[i].pending_until_block
                } else {
                    old(self).block_height
                }).saturating_add(pending_block)
            }),
            final(self).rewards@ == old(self).rewards@,
            final(self).pending_signature_tasks@ == old(self).pending_signature_tasks@,
            final(self).verifiable_signature_rewards@ == old(self).verifiable_signature_rewards@,
            final(self).block_height == old(self).block_height,
            final(self).last_output == old(self).last_output,
            final(self).signature_count == old(self).signature_count,
            final(self).last_group_index == old(self).last_group_index,
            final(self).signature_task == old(self).signature_task,
            !handle_group ==> final(self).groups@ == old(self).groups@ && final(self).epoch == old(self).epoch && final(self).dkg_task == old(self).dkg_task && final(self).coordinators@
                == old(self).coordinators@,
    {
        let ghost id_view = id_address@;
        if handle_group {
            let mut found_group: usize = 0;
            let mut gi: usize = 0;
            while gi < self.groups.len() && found_group == 0
                invariant
                    id_view == id_address@,
                    gi <= self.groups@.len(),
                    found_group == 0 ==> forall|t: int|
                        0 <= t < gi ==> !has_member(self.groups@[t], id_view),
                    found_group > 0 ==> 1 <= found_group <= self.groups@.len() && has_member(
                        self.groups@[found_group - 1],
                        id_view,
                    ),
                decreases self.groups@.len() - gi + (if found_group == 0 {
                    1int
                } else {
                    0int
                }),
            {
                match find_member(&self.groups[gi], id_address) {
                    Some(mi) => {
                        proof {
                            assert(self.groups@[gi as int].members@[mi as int].id_address@
                                == id_view);
                            assert(has_member(self.groups@[gi as int], id_view));
                        }
                        found_group = gi + 1;
                    },
                    None => {
                        gi = gi + 1;
                    },
                }
            }
            if found_group > 0 {
                {
                    let group_index = found_group;
                    let need_rebalance = match self.remove_from_group(
                        id_address,
                        group_index,
                        true,
                    ) {
                        Ok(b) => b,
                        Err(_) => {
                            proof {
                                assert(false);
                            }
                            false
                        },
                    };
                    if need_rebalance {
                        let n = self.groups.len();
                        let mut idx: usize = 0;
                        let mut rebalanced = false;
                        while idx < n && !rebalanced
                            invariant
                                self.inv(),
                                1 <= group_index <= n,
                                n <= self.groups@.len(),
                                idx <= n,
                                !self.member_of_any(id_view),
                                self.nodes@ == old(self).nodes@,
                                self.rewards@ == old(self).rewards@,
                                self.pending_signature_tasks@ == old(self).pending_signature_tasks@,
                                self.verifiable_signature_rewards@ == old(self).verifiable_signature_rewards@,
                                self.signature_task == old(self).signature_task,
                                self.block_height == old(self).block_height,
                                self.last_output == old(self).last_output,
                                self.signature_count == old(self).signature_count,
                                self.last_group_index == old(self).last_group_index,
                            decreases n - idx,
                        {
                            let group_number = idx + 1;
                            if group_number != group_index {
                                match self.rebalance_group(group_number, group_index) {
                                    Ok(true) => {
                                        rebalanced = true;
                                    },
                                    _ => {},
                                }
                            }
                            idx = idx + 1;
                        }
                        if !rebalanced {
                            // evacuate what is left of the group
                            let mut members_left: Vec<String> = Vec::new();
                            let gr = &self.groups[group_index - 1];
                            let mut mi: usize = 0;
                            while mi < gr.members.len()
                                invariant
                                    mi <= gr.members@.len(),
                                    members_left@.len() == mi,
                                    forall|t: int|
                                        0 <= t < mi ==> members_left@[t]@
                                            == gr.members@[t].id_address@,
                                decreases gr.members@.len() - mi,
                            {
                                members_left.push(gr.members[mi].id_address.clone());
                                mi = mi + 1;
                            }
                            let ghost snapshot = self.groups@[group_index - 1].members@;
                            let mut involved_groups: Vec<usize> = Vec::new();
                            let mut e: usize = 0;
                            while e < members_left.len()
                                invariant
                                    self.inv(),
                                    1 <= group_index <= self.groups@.len(),
                                    e <= members_left@.len(),
                                    members_left@.len() == snapshot.len(),
                                    forall|t: int|
                                        0 <= t < snapshot.len() ==> members_left@[t]@
                                            == snapshot[t].id_address@,
                                    forall|a: int, b: int|
                                        0 <= a < b < snapshot.len() ==> snapshot[a].id_address@
                                            != snapshot[b].id_address@,
                                    forall|t: int|
                                        e <= t < snapshot.len() ==> has_member(
                                            self.groups@[group_index - 1],
                                            #[trigger] snapshot[t].id_address@,
                                        ),
                                    !self.member_of_any(id_view),
                                    forall|t: int|
                                        0 <= t < involved_groups@.len() ==> 1
                                            <= #[trigger] involved_groups@[t]
                                            <= self.groups@.len(),
                                    self.nodes@ == old(self).nodes@,
                                    self.rewards@ == old(self).rewards@,
                                    self.pending_signature_tasks@ == old(self).pending_signature_tasks@,
                                    self.verifiable_signature_rewards@ == old(self).verifiable_signature_rewards@,
                                    self.signature_task == old(self).signature_task,
                                    self.block_height == old(self).block_height,
                                    self.last_output == old(self).last_output,
                                    self.signature_count == old(self).signature_count,
                                    self.last_group_index == old(self).last_group_index,
                                decreases members_left@.len() - e,
                            {
                                let member_address = members_left[e].clone();
                                proof {
                                    assert(member_address@ == snapshot[e as int].id_address@);
                                    assert(has_member(
                                        self.groups@[group_index - 1],
                                        member_address@,
                                    ));
                                    if member_address@ == id_view {
                                        assert(has_member(
                                            self.groups@[group_index - 1],
                                            id_view,
                                        ));
                                        assert(self.member_of_any(id_view));
                                    }
                                }
                                let rr = self.remove_from_group(
                                    &member_address,
                                    group_index,
                                    false,
                                );
                                proof {
                                    assert(rr is Ok);
                                    assert(!self.member_of_any(member_address@));
                                }
                                let (target_group, _) = self.find_available_group();
                                let ghost pre_add = *self;
                                let ar = self.add_to_group(member_address, target_group, false);
                                proof {
                                    assert(ar is Ok);
                                    assert forall|t: int|
                                        e + 1 <= t < snapshot.len() implies has_member(
                                            self.groups@[group_index - 1],
                                            #[trigger] snapshot[t].id_address@,
                                        ) by {
                                        assert(snapshot[t].id_address@
                                            != snapshot[e as int].id_address@);
                                        assert(pre_add.member_of_any(snapshot[t].id_address@));
                                        assert(self.member_of_any(snapshot[t].id_address@));
                                        if !has_member(
                                            self.groups@[group_index - 1],
                                            snapshot[t].id_address@,
                                        ) {
                                            let gx = choose|gx: int|
                                                0 <= gx < self.groups@.len() && has_member(
                                                    self.groups@[gx],
                                                    snapshot[t].id_address@,
                                                );
                                        }
                                    }
                                }
                                let mut already: bool = false;
                                let mut w: usize = 0;
                                while w < involved_groups.len()
                                    invariant
                                        w <= involved_groups@.len(),
                                    decreases involved_groups@.len() - w,
                                {
                                    if involved_groups[w] == target_group {
                                        already = true;
                                    }
                                    w = w + 1;
                                }
                                if !already {
                                    involved_groups.push(target_group);
                                }
                                e = e + 1;
                            }
                            let mut v: usize = 0;
                            while v < involved_groups.len()
                                invariant
                                    self.inv(),
                                    v <= involved_groups@.len(),
                                    forall|t: int|
                                        0 <= t < involved_groups@.len() ==> 1
                                            <= #[trigger] involved_groups@[t]
                                            <= self.groups@.len(),
                                    !self.member_of_any(id_view),
                                    self.nodes@ == old(self).nodes@,
                                    self.rewards@ == old(self).rewards@,
                                    self.pending_signature_tasks@ == old(self).pending_signature_tasks@,
                                    self.verifiable_signature_rewards@ == old(self).verifiable_signature_rewards@,
                                    self.signature_task == old(self).signature_task,
                                    self.block_height == old(self).block_height,
                                    self.last_output == old(self).last_output,
                                    self.signature_count == old(self).signature_count,
                                    self.last_group_index == old(self).last_group_index,
                                decreases involved_groups@.len() - v,
                            {
                                let er = self.emit_group_event(involved_groups[v]);
                                proof {
                                    assert(er is Ok);
                                }
                                v = v + 1;
                            }
                        }
                    }
                }
            } else {
                proof {
                    if self.member_of_any(id_view) {
                        let gx = choose|gx: int|
                            0 <= gx < self.groups@.len() && has_member(
                                self.groups@[gx],
                                id_view,
                            );
                    }
                }
            }
        }
        let k = match self.find_node(id_address) {
            Some(k) => k,
            None => {
                proof {
                    assert(false);
                }
                0
            },
        };
        proof {
            node_idx_is(self.nodes@, id_view, k as int);
            node_idx_is(old(self).nodes@, id_view, node_idx(old(self).nodes@, id_view));
            assert(self.nodes@ == old(self).nodes@);
        }
        let bh = self.block_height;
        let node = &mut self.nodes[k];
        node.state = false;
        node.pending_until_block = if node.pending_until_block > bh {
            node.pending_until_block.saturating_add(pending_block)
        } else {
            bh.saturating_add(pending_block)
        };
        proof {
            assert forall|g: int, m: int|
                0 <= g < self.groups@.len() && 0 <= m < self.groups@[g].members@.len()
                    implies has_node(
                    self.nodes@,
                    self.groups@[g].members@[m].id_address@,
                ) by {
                let w = choose|w: int|
                    0 <= w < old(self).nodes@.len()
                        && self.nodes@.len() == old(self).nodes@.len() && old(self).nodes@[w].id_address@ == self.groups@[g].members@[m].id_address@;
                assert(self.nodes@[w].id_address@ == self.groups@[g].members@[m].id_address@);
            }
            assert forall|i: int|
                0 <= i < self.verifiable_signature_rewards@.len() implies vsr_wf(
                    #[trigger] self.verifiable_signature_rewards@[i],
                    self.nodes@,
                ) by {
                let v = self.verifiable_signature_rewards@[i];
                let w = choose|w: int|
                    0 <= w < old(self).nodes@.len() && old(self).nodes@[w].id_address@
                        == v.committer@;
                assert(self.nodes@[w].id_address@ == v.committer@);
            }
            assert(self.inv());
        }
        Ok(())
    }

    /// Reduce a node's stake; a node that falls below the required stake, or
    /// is given a pending window, is frozen.
    fn slash_node(
        &mut self,
        id_address: &String,
        staking_penalty: usize,
        pending_block: usize,
        handle_group: bool,
    ) -> (r: ControllerResult<()>)
        requires
            old(self).inv(),
            has_node(old(self).nodes@, id_address@),
            !handle_group ==> !old(self).member_of_any(id_address@),
        ensures
            final(self).inv(),
            r is Ok,
            final(self).nodes@.len() == old(self).nodes@.len(),
            forall|i: int|
                0 <= i < old(self).nodes@.len() && old(self).nodes@[i].id_address@ != id_address@
                    ==> final(self).nodes@[i] == old(self).nodes@[i],
            ({
                let i = node_idx(old(self).nodes@, id_address@);
                &&& final(self).nodes@[i].id_address@ == id_address@
                &&& final(self).nodes@[i].staking == old(self).nodes@[i].staking - staking_penalty
                    || (old(self).nodes@[i].staking < staking_penalty && final(self).nodes@[i].staking == 0)
                &&& (old(self).nodes@[i].staking.saturating_sub(staking_penalty)
                    < NODE_STAKING_AMOUNT || pending_block > 0) ==> (!final(self).nodes@[i].state
                    && !final(self).member_of_any(id_address@))
                &&& !(old(self).nodes@[i].staking.saturating_sub(staking_penalty)
                    < NODE_STAKING_AMOUNT || pending_block > 0) ==> final(self).nodes@[i].state
                    == old(self).nodes@[i].state
            }),
            final(self).rewards@ == old(self).rewards@,
            final(self).pending_signature_tasks@ == old(self).pending_signature_tasks@,
            final(self).verifiable_signature_rewards@ == old(self).verifiable_signature_rewards@,
            final(self).block_height == old(self).block_height,
            final(self).last_output == old(self).last_output,
            final(self).signature_count == old(self).signature_count,
            final(self).last_group_index == old(self).last_group_index,
            final(self).signature_task == old(self).signature_task,
            !handle_group ==> final(self).groups@ == old(self).groups@ && final(self).epoch == old(self).epoch && final(self).dkg_task == old(self).dkg_task && final(self).coordinators@
                == old(self).coordinators@,
    {
        let ghost id_view = id_address@;
        let k = match self.find_node(id_address) {
            Some(k) => k,
            None => {
                proof {
                    assert(false);
                }
                0
            },
        };
        proof {
            node_idx_is(self.nodes@, id_view, k as int);
        }
        let new_staking = self.nodes[k].staking.saturating_sub(staking_penalty);
        if new_staking < NODE_STAKING_AMOUNT || pending_block > 0 {
            let fr = self.freeze_node(id_address, pending_block, handle_group);
            proof {
                assert(fr is Ok);
                node_idx_is(self.nodes@, id_view, k as int);
            }
        }
        let ghost mid = *self;
        let node = &mut self.nodes[k];
        node.staking = new_staking;
        proof {
            lemma_same_addresses_preserve(mid.nodes@, self.nodes@);
            assert forall|g: int, m: int|
                0 <= g < self.groups@.len() && 0 <= m < self.groups@[g].members@.len()
                    implies has_node(
                    self.nodes@,
                    self.groups@[g].members@[m].id_address@,
                ) by {
                assert(has_node(mid.nodes@, self.groups@[g].members@[m].id_address@));
            }
            assert forall|i: int|
                0 <= i < self.verifiable_signature_rewards@.len() implies vsr_wf(
                    #[trigger] self.verifiable_signature_rewards@[i],
                    self.nodes@,
                ) by {
                assert(vsr_wf(self.verifiable_signature_rewards@[i], mid.nodes@));
                assert(has_node(
                    self.nodes@,
                    self.verifiable_signature_rewards@[i].committer@,
                ));
            }
            assert(self.inv());
        }
        Ok(())
    }
}

impl Controller {
    /// Re-activate a frozen node: refill its stake and seat it in a group
    /// again. Fails when the node is unknown, already active, or still
    /// inside its pending window.
    pub fn node_activate(&mut self, id_address: String) -> (r: ControllerResult<()>)
        requires
            old(self).inv(),
        ensures
            final(self).inv(),
            !has_node(old(self).nodes@, id_address@) ==> r == ControllerResult::<()>::Err(
                ControllerError::NodeNotExisted,
            ) && *final(self) == *old(self),
            has_node(old(self).nodes@, id_address@) ==> Controller::activate_outcome(
                *old(self),
                *final(self),
                id_address@,
                r,
            ),
    {
        let ghost id_view = id_address@;
        let k = match self.find_node(&id_address) {
            Some(k) => k,
            None => {
                return Err(ControllerError::NodeNotExisted);
            },
        };
        proof {
            node_idx_is(self.nodes@, id_view, k as int);
        }
        if self.nodes[k].state {
            return Err(ControllerError::NodeActivated);
        }
        if self.nodes[k].pending_until_block > self.block_height {
            return Err(ControllerError::NodeNotAvailable(self.nodes[k].pending_until_block));
        }
        let ghost mid0 = *self;
        let node = &mut self.nodes[k];
        node.staking = NODE_STAKING_AMOUNT;
        node.state = true;
        proof {
            lemma_same_addresses_preserve(mid0.nodes@, self.nodes@);
            assert forall|g: int, m: int|
                0 <= g < self.groups@.len() && 0 <= m < self.groups@[g].members@.len()
                    implies has_node(
                    self.nodes@,
                    self.groups@[g].members@[m].id_address@,
                ) by {
                assert(has_node(mid0.nodes@, self.groups@[g].members@[m].id_address@));
            }
            assert forall|i: int|
                0 <= i < self.verifiable_signature_rewards@.len() implies vsr_wf(
                    #[trigger] self.verifiable_signature_rewards@[i],
                    self.nodes@,
                ) by {
                assert(vsr_wf(self.verifiable_signature_rewards@[i], mid0.nodes@));
                assert(has_node(self.nodes@, self.verifiable_signature_rewards@[i].committer@));
            }
            assert(self.inv());
        }
        // a frozen node was taken out of its group when it was frozen; only
        // then is it seated again
        let mut seated = false;
        let mut gi: usize = 0;
        while gi < self.groups.len() && !seated
            invariant
                id_view == id_address@,
                gi <= self.groups@.len(),
                !seated ==> forall|t: int| 0 <= t < gi ==> !has_member(self.groups@[t], id_view),
                seated ==> self.member_of_any(id_view),
            decreases self.groups@.len() - gi + (if seated {
                0int
            } else {
                1int
            }),
        {
            match find_member(&self.groups[gi], &id_address) {
                Some(mi) => {
                    proof {
                        assert(self.groups@[gi as int].members@[mi as int].id_address@ == id_view);
                        assert(has_member(self.groups@[gi as int], id_view));
                    }
                    seated = true;
                },
                None => {
                    gi = gi + 1;
                },
            }
        }
        if !seated {
            let jr = self.node_join(id_address);
            proof {
                assert(jr is Ok);
            }
        }
        Ok(())
    }

    /// What `node_activate` does for a registered node: an active node is
    /// refused; a node still inside its pending window is refused with that
    /// window; otherwise the node is refilled to the full stake, reactivated
    /// and seated in a group.
    pub open spec fn activate_outcome(
        pre: Controller,
        post: Controller,
        id: Seq<char>,
        r: ControllerResult<()>,
    ) -> bool {
        let i = node_idx(pre.nodes@, id);
        &&& (pre.nodes@[i].state ==> r == ControllerResult::<()>::Err(
            ControllerError::NodeActivated,
        ) && post == pre)
        &&& ((!pre.nodes@[i].state && pre.nodes@[i].pending_until_block > pre.block_height) ==> r
            == ControllerResult::<()>::Err(
            ControllerError::NodeNotAvailable(pre.nodes@[i].pending_until_block),
        ) && post == pre)
        &&& ((!pre.nodes@[i].state && pre.nodes@[i].pending_until_block <= pre.block_height)
            ==> {
            &&& r is Ok
            &&& post.nodes@.len() == pre.nodes@.len()
            &&& post.nodes@[i].id_address@ == id
            &&& post.nodes@[i].state
            &&& post.nodes@[i].staking == NODE_STAKING_AMOUNT
            &&& post.member_of_any(id)
            &&& forall|k: int|
                0 <= k < pre.nodes@.len() && k != i ==> post.nodes@[k] == pre.nodes@[k]
            &&& post.rewards@ == pre.rewards@
            &&& post.pending_signature_tasks@ == pre.pending_signature_tasks@
            &&& post.verifiable_signature_rewards@ == pre.verifiable_signature_rewards@
            &&& post.block_height == pre.block_height
            &&& post.last_output == pre.last_output
            &&& post.signature_count == pre.signature_count
        })
    }

    /// Withdraw a node from service. Forbidden while the node stands as the
    /// committer of a live verifiable reward; otherwise the node leaves its
    /// group and is frozen for `PENDING_BLOCK_AFTER_QUIT` blocks.
    pub fn node_quit(&mut self, id_address: &String) -> (r: ControllerResult<()>)
        requires
            old(self).inv(),
        ensures
            final(self).inv(),
            !has_node(old(self).nodes@, id_address@) ==> r == ControllerResult::<()>::Err(
                ControllerError::NodeNotExisted,
            ) && *final(self) == *old(self),
            has_node(old(self).nodes@, id_address@) ==> ({
                let live = spec_live_rewards(
                    old(self).verifiable_signature_rewards@,
                    old(self).block_height as int,
                );
                &&& (exists|v: int| 0 <= v < live.len() && (#[trigger] live[v]).committer@
                    == id_address@) ==> r == ControllerResult::<()>::Err(
                    ControllerError::VerifiableSignatureRewardAsCommitterExisted,
                ) && final(self).nodes@ == old(self).nodes@ && final(self).groups@ == old(self).groups@ && final(self).coordinators@ == old(self).coordinators@ && final(self).epoch == old(self).epoch && final(self).dkg_task == old(self).dkg_task
                &&& !(exists|v: int| 0 <= v < live.len() && (#[trigger] live[v]).committer@
                    == id_address@) ==> {
                    let i = node_idx(old(self).nodes@, id_address@);
                    &&& r is Ok
                    &&& !final(self).nodes@[i].state
                    &&& !final(self).member_of_any(id_address@)
                    &&& final(self).nodes@[i].staking == old(self).nodes@[i].staking
                    &&& final(self).nodes@[i].pending_until_block == (if old(self).nodes@[i].pending_until_block
                        > old(self).block_height {
                        old(self).nodes@[i].pending_until_block
                    } else {
                        old(self).block_height
                    }).saturating_add(PENDING_BLOCK_AFTER_QUIT)
                }
            }),
            has_node(old(self).nodes@, id_address@) ==> final(self).verifiable_signature_rewards@
                == spec_live_rewards(
                old(self).verifiable_signature_rewards@,
                old(self).block_height as int,
            ),
            final(self).rewards@ == old(self).rewards@,
            final(self).pending_signature_tasks@ == old(self).pending_signature_tasks@,
            final(self).block_height == old(self).block_height,
            final(self).last_output == old(self).last_output,
            final(self).signature_count == old(self).signature_count,
    {
        let ghost id_view = id_address@;
        let k0 = match self.find_node(id_address) {
            Some(k) => k,
            None => {
                return Err(ControllerError::NodeNotExisted);
            },
        };
        proof {
            assert(self.nodes@[k0 as int].id_address@ == id_view);
            assert(has_node(self.nodes@, id_view));
        }
        let er = self.check_verifiable_rewards_expiration();
        proof {
            assert(er is Ok);
        }
        let mut v: usize = 0;
        while v < self.verifiable_signature_rewards.len()
            invariant
                id_view == id_address@,
                self.inv(),
                has_node(old(self).nodes@, id_view),
                self.nodes@ == old(self).nodes@,
                self.rewards@ == old(self).rewards@,
                self.pending_signature_tasks@ == old(self).pending_signature_tasks@,
                self.block_height == old(self).block_height,
                self.last_output == old(self).last_output,
                self.signature_count == old(self).signature_count,
                self.verifiable_signature_rewards@ == spec_live_rewards(
                    old(self).verifiable_signature_rewards@,
                    old(self).block_height as int,
                ),
                self.groups@ == old(self).groups@,
                self.coordinators@ == old(self).coordinators@,
                self.epoch == old(self).epoch,
                self.dkg_task == old(self).dkg_task,
                v <= self.verifiable_signature_rewards@.len(),
                forall|t: int|
                    0 <= t < v ==> self.verifiable_signature_rewards@[t].committer@ != id_view,
            decreases self.verifiable_signature_rewards@.len() - v,
        {
            if *id_address == self.verifiable_signature_rewards[v].committer {
                proof {
                    assert(self.verifiable_signature_rewards@[v as int].committer@ == id_view);
                }
                return Err(ControllerError::VerifiableSignatureRewardAsCommitterExisted);
            }
            v = v + 1;
        }
        let fr = self.freeze_node(id_address, PENDING_BLOCK_AFTER_QUIT, true);
        proof {
            assert(fr is Ok);
            node_idx_is(
                old(self).nodes@,
                id_view,
                node_idx(old(self).nodes@, id_view),
            );
        }
        Ok(())
    }
}

/// Byte-for-byte equality of two byte strings.
fn bytes_equal(a: &Vec<u8>, b: &Vec<u8>) -> (r: bool)
    ensures
        r == (a@ == b@),
{
    if a.len() != b.len() {
        proof {
            assert(a@ != b@);
        }
        return false;
    }
    let mut i: usize = 0;
    while i < a.len()
        invariant
            a@.len() == b@.len(),
            i <= a@.len(),
            forall|k: int| 0 <= k < i ==> a@[k] == b@[k],
        decreases a@.len() - i,
    {
        if a[i] != b[i] {
            proof {
                assert(a@[i as int] != b@[i as int]);
            }
            return false;
        }
        i = i + 1;
    }
    proof {
        assert(a@ =~= b@);
    }
    true
}

/// Elementwise equality of two address lists.
fn string_vecs_equal(a: &Vec<String>, b: &Vec<String>) -> (r: bool)
    ensures
        r == (a.deep_view() == b.deep_view()),
{
    if a.len() != b.len() {
        proof {
            assert(a.deep_view().len() == a@.len());
            assert(b.deep_view().len() == b@.len());
        }
        return false;
    }
    let mut i: usize = 0;
    while i < a.len()
        invariant
            a@.len() == b@.len(),
            i <= a@.len(),
            forall|k: int| 0 <= k < i ==> a@[k]@ == b@[k]@,
        decreases a@.len() - i,
    {
        if !(a[i] == b[i]) {
            proof {
                assert(a.deep_view()[i as int] == a@[i as int]@);
                assert(b.deep_view()[i as int] == b@[i as int]@);
            }
            return false;
        }
        i = i + 1;
    }
    proof {
        assert forall|k: int| 0 <= k < a@.len() implies a.deep_view()[k] == b.deep_view()[k] by {
            assert(a.deep_view()[k] == a@[k]@);
            assert(b.deep_view()[k] == b@[k]@);
        }
        assert(a.deep_view() =~= b.deep_view());
    }
    true
}

/// Structural equality of two commitment results: epoch, proposed public
/// key, and disqualified list must all agree.
fn commit_results_equal(a: &CommitResult, b: &CommitResult) -> (r: bool)
    ensures
        r == (a@ == b@),
{
    let epochs = a.group_epoch == b.group_epoch;
    let keys = bytes_equal(&a.public_key, &b.public_key);
    let disq = string_vecs_equal(&a.disqualified_nodes, &b.disqualified_nodes);
    proof {
        if epochs && keys && disq {
            assert(a@ =~= b@);
        }
    }
    epochs && keys && disq
}

/// How many cached commitments carry this result.
pub open spec fn commit_count(cache: Seq<CommitCacheEntry>, cr: CommitResultView) -> int
    decreases cache.len(),
{
    if cache.len() == 0 {
        0
    } else {
        commit_count(cache.drop_last(), cr) + (if cache.last().cache.commit_result@ == cr {
            1int
        } else {
            0int
        })
    }
}

/// The entry at `i` carries a result held by strictly more members than any
/// differing result.
pub open spec fn is_strict_majority_at(cache: Seq<CommitCacheEntry>, i: int) -> bool {
    forall|t: int|
        0 <= t < cache.len() && (#[trigger] cache[t]).cache.commit_result@
            != cache[i].cache.commit_result@ ==> commit_count(cache, cache[t].cache.commit_result@)
            < commit_count(cache, cache[i].cache.commit_result@)
}

/// Some cached result is carried by strictly more members than every other.
pub open spec fn has_strict_majority(cache: Seq<CommitCacheEntry>) -> bool {
    exists|i: int| 0 <= i < cache.len() && is_strict_majority_at(cache, i)
}

fn count_matching_results(cache: &Vec<CommitCacheEntry>, cr: &CommitResult) -> (r: usize)
    ensures
        r == commit_count(cache@, cr@),
{
    let mut count: usize = 0;
    let mut i: usize = 0;
    while i < cache.len()
        invariant
            i <= cache@.len(),
            count == commit_count(cache@.take(i as int), cr@),
            count <= i,
        decreases cache@.len() - i,
    {
        proof {
            assert(cache@.take(i + 1 as int).drop_last() =~= cache@.take(i as int));
            assert(cache@.take(i + 1 as int).last() == cache@[i as int]);
        }
        if commit_results_equal(&cache[i].cache.commit_result, cr) {
            count = count + 1;
        }
        i = i + 1;
    }
    proof {
        assert(cache@.take(cache@.len() as int) =~= cache@);
    }
    count
}

/// The identity addresses of the commitments carrying this result, in cache
/// order.
pub open spec fn matching_ids(cache: Seq<CommitCacheEntry>, cr: CommitResultView) -> Seq<Seq<char>>
    decreases cache.len(),
{
    if cache.len() == 0 {
        Seq::empty()
    } else {
        let rest = matching_ids(cache.drop_last(), cr);
        if cache.last().cache.commit_result@ == cr {
            rest.push(cache.last().id_address@)
        } else {
            rest
        }
    }
}

pub proof fn lemma_matching_ids_count(cache: Seq<CommitCacheEntry>, cr: CommitResultView)
    ensures
        matching_ids(cache, cr).len() == commit_count(cache, cr),
    decreases cache.len(),
{
    if cache.len() > 0 {
        lemma_matching_ids_count(cache.drop_last(), cr);
    }
}

/// Any two entries whose results are each held by strictly more members
/// than every differing result carry the same result.
pub proof fn lemma_strict_majority_unique(cache: Seq<CommitCacheEntry>, i: int, j: int)
    requires
        0 <= i < cache.len(),
        0 <= j < cache.len(),
        is_strict_majority_at(cache, i),
        is_strict_majority_at(cache, j),
    ensures
        cache[i].cache.commit_result@ == cache[j].cache.commit_result@,
{
    if cache[i].cache.commit_result@ != cache[j].cache.commit_result@ {
        assert(commit_count(cache, cache[i].cache.commit_result@) < commit_count(
            cache,
            cache[j].cache.commit_result@,
        ));
        assert(commit_count(cache, cache[j].cache.commit_result@) < commit_count(
            cache,
            cache[i].cache.commit_result@,
        ));
    }
}

/// How many members are not listed among the disqualified addresses.
pub open spec fn surviving_count(members: Seq<Member>, disqualified: Seq<Seq<char>>) -> int
    decreases members.len(),
{
    if members.len() == 0 {
        0
    } else {
        surviving_count(members.drop_last(), disqualified) + (if disqualified.contains(
            members.last().id_address@,
        ) {
            0int
        } else {
            1int
        })
    }
}

/// A finalizing commitment is due: some cached result is a strict majority
/// of at least threshold size, and applying its disqualifications would
/// leave the group at least three members.
pub open spec fn finalization_due(
    cache: Seq<CommitCacheEntry>,
    members: Seq<Member>,
    threshold: int,
) -> bool {
    exists|i: int|
        0 <= i < cache.len() && #[trigger] is_strict_majority_at(cache, i) && commit_count(
            cache,
            cache[i].cache.commit_result@,
        ) >= threshold && surviving_count(members, cache[i].cache.commit_result@.disqualified_nodes)
            >= 3
}

/// The committer at position `j` is the address of a member holding the
/// picked index.
pub open spec fn committer_pick(g: Group, j: int, pick: usize) -> bool {
    exists|m: int|
        0 <= m < g.members@.len() && (#[trigger] g.members@[m]).index == pick && g.committers@[j]@
            == g.members@[m].id_address@
}

/// The committers are exactly the addresses of the members whose indices
/// the seeded sampler picks: `max(3, threshold)` draws from the member
/// indices, seeded by the previous randomness output.
pub open spec fn committers_elected(g: Group, seed: u64) -> bool {
    let picks = utils::spec_choose_randomly(
        seed,
        g.members@.map_values(|m: Member| m.index),
        spec_committers_size(g.threshold as int) as nat,
    );
    &&& g.committers@.len() == picks.len()
    &&& forall|j: int| 0 <= j < picks.len() ==> committer_pick(g, j, #[trigger] picks[j])
}

/// The set of member addresses the disqualification list names.
pub open spec fn listed_ids_set(members: Seq<Member>, list: Seq<Seq<char>>) -> Set<Seq<char>>
    decreases members.len(),
{
    if members.len() == 0 {
        Set::empty()
    } else {
        let rest = listed_ids_set(members.drop_last(), list);
        if list.contains(members.last().id_address@) {
            rest.insert(members.last().id_address@)
        } else {
            rest
        }
    }
}

/// With distinct member addresses, the listed members and the survivors
/// partition the group: the listed set's size is the member count less the
/// surviving count.
pub proof fn lemma_survivor_complement(members: Seq<Member>, list: Seq<Seq<char>>)
    requires
        forall|a: int, b: int|
            0 <= a < b < members.len() ==> members[a].id_address@ != members[b].id_address@,
    ensures
        listed_ids_set(members, list).finite(),
        listed_ids_set(members, list).len() == members.len() - surviving_count(members, list),
        forall|id: Seq<char>|
            listed_ids_set(members, list).contains(id) <==> (exists|k: int|
                0 <= k < members.len() && (#[trigger] members[k]).id_address@ == id)
                && list.contains(id),
    decreases members.len(),
{
    broadcast use vstd::set::group_set_axioms;

    if members.len() > 0 {
        assert forall|a: int, b: int|
            0 <= a < b < members.drop_last().len() implies members.drop_last()[a].id_address@
                != members.drop_last()[b].id_address@ by {
            assert(members.drop_last()[a] == members[a]);
            assert(members.drop_last()[b] == members[b]);
        }
        lemma_survivor_complement(members.drop_last(), list);
        let rest = listed_ids_set(members.drop_last(), list);
        let last_id = members.last().id_address@;
        if list.contains(last_id) {
            assert(!rest.contains(last_id)) by {
                if rest.contains(last_id) {
                    let k = choose|k: int|
                        0 <= k < members.drop_last().len()
                            && (#[trigger] members.drop_last()[k]).id_address@ == last_id;
                    assert(members[k].id_address@ == members[members.len() - 1].id_address@);
                }
            }
        }
        assert forall|id: Seq<char>|
            listed_ids_set(members, list).contains(id) <==> ((exists|k: int|
                0 <= k < members.len() && (#[trigger] members[k]).id_address@ == id)
                && list.contains(id)) by {
            assert(rest.contains(id) <==> ((exists|k: int|
                0 <= k < members.drop_last().len()
                    && (#[trigger] members.drop_last()[k]).id_address@ == id) && list.contains(
                id,
            )));
            if listed_ids_set(members, list).contains(id) {
                if rest.contains(id) {
                    let k = choose|k: int|
                        0 <= k < members.drop_last().len()
                            && (#[trigger] members.drop_last()[k]).id_address@ == id;
                    assert(members.drop_last()[k] == members[k]);
                    assert(members[k].id_address@ == id);
                } else {
                    assert(members[members.len() - 1].id_address@ == id);
                }
            }
            if (exists|k: int|
                0 <= k < members.len() && (#[trigger] members[k]).id_address@ == id)
                && list.contains(id) {
                let k = choose|k: int|
                    0 <= k < members.len() && (#[trigger] members[k]).id_address@ == id;
                if k < members.len() - 1 {
                    assert(members.drop_last()[k].id_address@ == id);
                    assert(rest.contains(id));
                }
                assert(listed_ids_set(members, list).contains(id));
            }
        }
    }
}

/// A deep copy of a commitment result.
fn clone_commit_result(cr: &CommitResult) -> (r: CommitResult)
    ensures
        r@ == cr@,
{
    let mut disqualified_nodes: Vec<String> = Vec::new();
    let mut i: usize = 0;
    while i < cr.disqualified_nodes.len()
        invariant
            i <= cr.disqualified_nodes@.len(),
            disqualified_nodes@.len() == i,
            forall|k: int|
                0 <= k < i ==> disqualified_nodes@[k]@ == cr.disqualified_nodes@[k]@,
        decreases cr.disqualified_nodes@.len() - i,
    {
        disqualified_nodes.push(cr.disqualified_nodes[i].clone());
        i = i + 1;
    }
    let r = CommitResult {
        group_epoch: cr.group_epoch,
        public_key: crate::coordinator::clone_bytes(&cr.public_key),
        disqualified_nodes,
    };
    proof {
        assert forall|k: int|
            0 <= k < r.disqualified_nodes@.len() implies r.disqualified_nodes.deep_view()[k]
                == cr.disqualified_nodes.deep_view()[k] by {
            assert(r.disqualified_nodes.deep_view()[k] == r.disqualified_nodes@[k]@);
            assert(cr.disqualified_nodes.deep_view()[k] == cr.disqualified_nodes@[k]@);
        }
        assert(r.disqualified_nodes.deep_view() =~= cr.disqualified_nodes.deep_view());
        assert(r@ =~= cr@);
    }
    r
}

impl Controller {
    /// The unique commitment result held by strictly more members than any
    /// other, together with the addresses that committed it; `None` when no
    /// such strict majority exists.
    fn get_strictly_majority_identical_commitment_result(&self, group_index: usize) -> (r: (
        Option<CommitResult>,
        Vec<String>,
    ))
        requires
            self.inv(),
            1 <= group_index <= self.groups@.len(),
        ensures
            ({
                let cache = self.groups@[group_index - 1].commit_cache@;
                &&& (r.0 is Some <==> has_strict_majority(cache))
                &&& r.0 is Some ==> (exists|i: int|
                    0 <= i < cache.len() && (#[trigger] cache[i]).cache.commit_result@ == r.0->0@
                        && is_strict_majority_at(cache, i))
                &&& r.0 is Some ==> r.1.deep_view() == matching_ids(cache, r.0->0@)
                &&& r.0 is Some ==> r.0->0.public_key@.len() > 0
                &&& r.0 is None ==> r.1@.len() == 0
            }),
    {
        let cache = &self.groups[group_index - 1].commit_cache;
        let ghost cv = cache@;
        if cache.len() == 0 {
            return (None, Vec::new());
        }
        let mut best: usize = 0;
        let mut best_count: usize = count_matching_results(cache, &cache[0].cache.commit_result);
        let mut i: usize = 1;
        while i < cache.len()
            invariant
                cv == cache@,
                cv.len() > 0,
                1 <= i <= cv.len(),
                best < cv.len(),
                best_count == commit_count(cv, cv[best as int].cache.commit_result@),
                forall|t: int|
                    0 <= t < i ==> commit_count(cv, (#[trigger] cv[t]).cache.commit_result@)
                        <= best_count,
            decreases cv.len() - i,
        {
            let c = count_matching_results(cache, &cache[i].cache.commit_result);
            if c > best_count {
                best = i;
                best_count = c;
            }
            i = i + 1;
        }
        let mut tie = false;
        let mut j: usize = 0;
        while j < cache.len()
            invariant
                cv == cache@,
                cv.len() > 0,
                j <= cv.len(),
                best < cv.len(),
                best_count == commit_count(cv, cv[best as int].cache.commit_result@),
                forall|t: int|
                    0 <= t < cv.len() ==> commit_count(cv, (#[trigger] cv[t]).cache.commit_result@)
                        <= best_count,
                !tie ==> forall|t: int|
                    0 <= t < j && (#[trigger] cv[t]).cache.commit_result@
                        != cv[best as int].cache.commit_result@ ==> commit_count(
                        cv,
                        cv[t].cache.commit_result@,
                    ) < best_count,
                tie ==> exists|t: int|
                    0 <= t < cv.len() && (#[trigger] cv[t]).cache.commit_result@
                        != cv[best as int].cache.commit_result@ && commit_count(
                        cv,
                        cv[t].cache.commit_result@,
                    ) == best_count,
            decreases cv.len() - j,
        {
            if !commit_results_equal(
                &cache[j].cache.commit_result,
                &cache[best].cache.commit_result,
            ) {
                let c = count_matching_results(cache, &cache[j].cache.commit_result);
                if c == best_count {
                    tie = true;
                    proof {
                        assert(cv[j as int].cache.commit_result@
                            != cv[best as int].cache.commit_result@ && commit_count(
                            cv,
                            cv[j as int].cache.commit_result@,
                        ) == best_count);
                    }
                }
            }
            j = j + 1;
        }
        if tie {
            proof {
                let t = choose|t: int|
                    0 <= t < cv.len() && cv[t].cache.commit_result@
                        != cv[best as int].cache.commit_result@ && commit_count(
                        cv,
                        cv[t].cache.commit_result@,
                    ) == best_count;
                assert forall|w: int|
                    0 <= w < cv.len() implies !is_strict_majority_at(cv, w) by {
                    if cv[w].cache.commit_result@ == cv[best as int].cache.commit_result@ {
                        assert(cv[t].cache.commit_result@ != cv[w].cache.commit_result@
                            && commit_count(cv, cv[t].cache.commit_result@) >= commit_count(
                            cv,
                            cv[w].cache.commit_result@,
                        ));
                    } else {
                        assert(cv[best as int].cache.commit_result@ != cv[w].cache.commit_result@
                            && commit_count(cv, cv[best as int].cache.commit_result@)
                            >= commit_count(cv, cv[w].cache.commit_result@));
                    }
                }
            }
            return (None, Vec::new());
        }
        proof {
            assert(is_strict_majority_at(cv, best as int));
        }
        let majority_result = clone_commit_result(&cache[best].cache.commit_result);
        let mut majority_members: Vec<String> = Vec::new();
        let mut k: usize = 0;
        while k < cache.len()
            invariant
                cv == cache@,
                best < cv.len(),
                k <= cv.len(),
                majority_result@ == cv[best as int].cache.commit_result@,
                majority_members.deep_view() == matching_ids(cv.take(k as int), majority_result@),
            decreases cv.len() - k,
        {
            proof {
                assert(cv.take(k + 1 as int).drop_last() =~= cv.take(k as int));
                assert(cv.take(k + 1 as int).last() == cv[k as int]);
            }
            if commit_results_equal(&cache[k].cache.commit_result, &majority_result) {
                majority_members.push(cache[k].id_address.clone());
                proof {
                    assert(majority_members.deep_view() =~= matching_ids(
                        cv.take(k + 1 as int),
                        majority_result@,
                    ));
                }
            }
            k = k + 1;
        }
        proof {
            assert(cv.take(cv.len() as int) =~= cv);
            assert(has_strict_majority(cv));
            assert(cv[best as int].cache.commit_result.public_key@.len() > 0);
        }
        (Some(majority_result), majority_members)
    }
}

impl Controller {
    /// Record a member's DKG commitment. The proposed keys must be valid
    /// curve points, the member must belong to the group, the epoch must be
    /// current, and a member commits at most once per round. On a group that
    /// is already ready only the caller's partial public key is recorded.
    /// Otherwise, when a strict majority of identical commitments of at
    /// least threshold size stands (all of it from seated members), the
    /// group is finalized: it adopts the majority public key, drops and
    /// slashes the disqualified members, records the qualified members'
    /// partial keys, and deterministically elects its committers.
    #[verifier::rlimit(100)]
    #[verifier::spinoff_prover]
    pub fn commit_dkg(
        &mut self,
        id_address: String,
        group_index: usize,
        group_epoch: usize,
        public_key: Vec<u8>,
        partial_public_key: Vec<u8>,
        disqualified_nodes: Vec<String>,
    ) -> (r: ControllerResult<()>)
        requires
            old(self).inv(),
        ensures
            final(self).inv(),
            !(1 <= group_index <= old(self).groups@.len()) ==> r == ControllerResult::<()>::Err(
                ControllerError::GroupNotExisted,
            ) && *final(self) == *old(self),
            (1 <= group_index <= old(self).groups@.len() && (!bls::is_g1_point(public_key@)
                || !bls::is_g1_point(partial_public_key@))) ==> r == ControllerResult::<()>::Err(
                ControllerError::PublicKeyBadFormat,
            ) && *final(self) == *old(self),
            (1 <= group_index <= old(self).groups@.len() && bls::is_g1_point(public_key@)
                && bls::is_g1_point(partial_public_key@) && !has_member(
                old(self).groups@[group_index - 1],
                id_address@,
            )) ==> r == ControllerResult::<()>::Err(ControllerError::ParticipantNotExisted)
                && *final(self) == *old(self),
            (1 <= group_index <= old(self).groups@.len() && bls::is_g1_point(public_key@)
                && bls::is_g1_point(partial_public_key@) && has_member(
                old(self).groups@[group_index - 1],
                id_address@,
            ) && old(self).groups@[group_index - 1].epoch != group_epoch) ==> r
                == ControllerResult::<()>::Err(
                ControllerError::GroupEpochObsolete(old(self).groups@[group_index - 1].epoch),
            ) && *final(self) == *old(self),
            (1 <= group_index <= old(self).groups@.len() && bls::is_g1_point(public_key@)
                && bls::is_g1_point(partial_public_key@) && has_member(
                old(self).groups@[group_index - 1],
                id_address@,
            ) && old(self).groups@[group_index - 1].epoch == group_epoch && has_commit(
                old(self).groups@[group_index - 1],
                id_address@,
            )) ==> r == ControllerResult::<()>::Err(ControllerError::CommitCacheExisted)
                && *final(self) == *old(self),
            commit_dkg_accepted(*old(self), group_index, id_address@, public_key@,
                partial_public_key@, group_epoch) ==> r is Ok && commit_dkg_effect(
                *old(self),
                *final(self),
                group_index,
                id_address@,
                partial_public_key@,
            ),
    {
        let ghost pre = *old(self);
        if group_index < 1 || self.groups.len() < group_index {
            return Err(ControllerError::GroupNotExisted);
        }
        if !bls::g1_point_valid(&public_key) || !bls::g1_point_valid(&partial_public_key) {
            return Err(ControllerError::PublicKeyBadFormat);
        }
        let member_pos = match find_member(&self.groups[group_index - 1], &id_address) {
            Some(p) => p,
            None => {
                return Err(ControllerError::ParticipantNotExisted);
            },
        };
        if self.groups[group_index - 1].epoch != group_epoch {
            return Err(ControllerError::GroupEpochObsolete(self.groups[group_index - 1].epoch));
        }
        if find_commit(&self.groups[group_index - 1], &id_address).is_some() {
            return Err(ControllerError::CommitCacheExisted);
        }
        let ghost id_view = id_address@;
        let commit_result = CommitResult { group_epoch, public_key, disqualified_nodes };
        let entry = CommitCacheEntry {
            id_address: id_address.clone(),
            cache: CommitCache {
                commit_result,
                partial_public_key: crate::coordinator::clone_bytes(&partial_public_key),
            },
        };
        let ghost pre_cache = self.groups@[group_index - 1].commit_cache@;
        let is_ready = self.groups[group_index - 1].state;
        let gm = &mut self.groups[group_index - 1];
        gm.commit_cache.push(entry);
        if is_ready {
            // post-finalization commitment: record the partial key only
            let mr = &mut gm.members[member_pos];
            mr.partial_public_key = partial_public_key;
        }
        proof {
            let cur = self.groups@[group_index - 1].commit_cache@;
            assert forall|a: int, b: int|
                0 <= a < b < cur.len() implies (#[trigger] cur[a]).id_address@
                    != (#[trigger] cur[b]).id_address@ by {
                if b < cur.len() - 1 {
                    assert(cur[a] == pre_cache[a]);
                    assert(cur[b] == pre_cache[b]);
                } else {
                    assert(cur[a] == pre_cache[a]);
                    assert(!has_commit(pre.groups@[group_index - 1], id_view));
                }
            }
            assert forall|a: int|
                0 <= a < cur.len() implies (#[trigger] cur[a]).cache.commit_result.public_key@.len()
                    > 0 && cur[a].cache.partial_public_key@.len() > 0 by {
                if a < cur.len() - 1 {
                    assert(cur[a] == pre_cache[a]);
                }
            }
            let curm = self.groups@[group_index - 1].members@;
            let prem = pre.groups@[group_index - 1].members@;
            assert forall|a: int, b: int|
                0 <= a < b < curm.len() implies (#[trigger] curm[a]).id_address@
                    != (#[trigger] curm[b]).id_address@ by {
                assert(curm[a].id_address@ == prem[a].id_address@);
                assert(curm[b].id_address@ == prem[b].id_address@);
            }
            assert forall|a: int, b: int|
                0 <= a < b < curm.len() implies (#[trigger] curm[a]).index
                    != (#[trigger] curm[b]).index by {
                assert(curm[a].index == prem[a].index);
                assert(curm[b].index == prem[b].index);
            }
            if is_ready {
                assert(group_ready_wf(pre.groups@[group_index - 1]));
                assert forall|i: int|
                    0 <= i < self.groups@[group_index - 1].committers@.len() implies has_member(
                        self.groups@[group_index - 1],
                        (#[trigger] self.groups@[group_index - 1].committers@[i])@,
                    ) by {
                    assert(has_member(
                        pre.groups@[group_index - 1],
                        self.groups@[group_index - 1].committers@[i]@,
                    ));
                    let w = choose|w: int|
                        0 <= w < prem.len() && prem[w].id_address@ == self.groups@[group_index
                            - 1].committers@[i]@;
                    assert(curm[w].id_address@ == self.groups@[group_index - 1].committers@[i]@);
                }
                assert forall|i: int|
                    0 <= i < curm.len() && has_commit(
                        self.groups@[group_index - 1],
                        (#[trigger] curm[i]).id_address@,
                    ) implies curm[i].partial_public_key@.len() > 0 by {
                    let m = curm[i];
                    if i == member_pos {
                        assert(m.partial_public_key@ == partial_public_key@);
                    } else {
                        assert(m == prem[i]);
                        assert(prem[member_pos as int].id_address@ == id_view);
                        assert(m.id_address@ != id_view);
                        let e = choose|e: int|
                            0 <= e < cur.len() && cur[e].id_address@ == m.id_address@;
                        assert(cur[cur.len() - 1].id_address@ == id_view);
                        assert(e < cur.len() - 1);
                        assert(cur[e] == pre_cache[e]);
                        assert(has_commit(pre.groups@[group_index - 1], m.id_address@));
                        assert(pre.groups@[group_index - 1].members@[i] == m);
                    }
                }
            }
            assert(group_wf(self.groups@[group_index - 1]));
            assert forall|g2: int, m2: int|
                0 <= g2 < self.groups@.len() && 0 <= m2 < self.groups@[g2].members@.len()
                    implies has_node(
                    self.nodes@,
                    self.groups@[g2].members@[m2].id_address@,
                ) by {
                if g2 == group_index - 1 {
                    assert(has_node(pre.nodes@, prem[m2].id_address@));
                }
            }
            assert forall|g2: int, h2: int, m2: int, n2: int|
                0 <= g2 < self.groups@.len() && 0 <= h2 < self.groups@.len() && g2 != h2 && 0
                    <= m2 < self.groups@[g2].members@.len() && 0 <= n2
                    < self.groups@[h2].members@.len() implies self.groups@[g2].members@[m2].id_address@
                    != self.groups@[h2].members@[n2].id_address@ by {
                assert(self.groups@[g2].members@[m2].id_address@
                    == pre.groups@[g2].members@[m2].id_address@);
                assert(self.groups@[h2].members@[n2].id_address@
                    == pre.groups@[h2].members@[n2].id_address@);
            }
            assert(self.inv());
            member_idx_is(pre.groups@[group_index - 1], id_view, member_pos as int);
            assert(has_commit(self.groups@[group_index - 1], id_view)) by {
                assert(cur[cur.len() - 1].id_address@ == id_view);
            }
        }
        if is_ready {
            proof {
                assert(commit_dkg_effect(
                    pre,
                    *self,
                    group_index,
                    id_view,
                    partial_public_key@,
                ));
            }
            return Ok(());
        }
        let (majority, majority_members) = self.get_strictly_majority_identical_commitment_result(
            group_index,
        );
        let identical_commit = match majority {
            Some(c) => c,
            None => {
                proof {
                    let cache = self.groups@[group_index - 1].commit_cache@;
                    let g0e = pre.groups@[group_index - 1];
                    if finalization_due(cache, g0e.members@, g0e.threshold as int) {
                        let i = choose|i: int|
                            0 <= i < cache.len() && #[trigger] is_strict_majority_at(cache, i)
                                && commit_count(cache, cache[i].cache.commit_result@)
                                >= g0e.threshold as int && surviving_count(
                                g0e.members@,
                                cache[i].cache.commit_result@.disqualified_nodes,
                            ) >= 3;
                        assert(has_strict_majority(cache));
                    }
                    assert(commit_dkg_effect(
                        pre,
                        *self,
                        group_index,
                        id_view,
                        partial_public_key@,
                    ));
                }
                return Ok(());
            },
        };
        if majority_members.len() < self.groups[group_index - 1].threshold {
            proof {
                let cache = self.groups@[group_index - 1].commit_cache@;
                let g0e = pre.groups@[group_index - 1];
                let e = choose|e: int|
                    0 <= e < cache.len() && (#[trigger] cache[e]).cache.commit_result@
                        == identical_commit@ && is_strict_majority_at(cache, e);
                lemma_matching_ids_count(cache, identical_commit@);
                assert(commit_count(cache, identical_commit@) < g0e.threshold as int);
                if finalization_due(cache, g0e.members@, g0e.threshold as int) {
                    let i = choose|i: int|
                        0 <= i < cache.len() && #[trigger] is_strict_majority_at(cache, i)
                            && commit_count(cache, cache[i].cache.commit_result@)
                            >= g0e.threshold as int && surviving_count(
                            g0e.members@,
                            cache[i].cache.commit_result@.disqualified_nodes,
                        ) >= 3;
                    lemma_strict_majority_unique(cache, i, e);
                }
                assert(commit_dkg_effect(
                    pre,
                    *self,
                    group_index,
                    id_view,
                    partial_public_key@,
                ));
            }
            return Ok(());
        }
        let ghost threshold_at_tally = self.groups@[group_index - 1].threshold;
        let ghost mid = *self;
        self.finalize_group(group_index, identical_commit);
        proof {
            let g0e = pre.groups@[group_index - 1];
            let gm = mid.groups@[group_index - 1];
            let g1 = self.groups@[group_index - 1];
            assert(gm.members@ == g0e.members@);
            assert forall|id2: Seq<char>| has_member(gm, id2) == has_member(g0e, id2) by {
                if has_member(gm, id2) {
                    let w = choose|w: int|
                        0 <= w < gm.members@.len() && gm.members@[w].id_address@ == id2;
                    assert(g0e.members@[w].id_address@ == id2);
                }
                if has_member(g0e, id2) {
                    let w = choose|w: int|
                        0 <= w < g0e.members@.len() && g0e.members@[w].id_address@ == id2;
                    assert(gm.members@[w].id_address@ == id2);
                }
            }
            assert(has_commit(g1, id_view)) by {
                assert(g1.commit_cache@ == gm.commit_cache@);
                let w = choose|w: int|
                    0 <= w < gm.commit_cache@.len() && gm.commit_cache@[w].id_address@
                        == id_view;
                assert(g1.commit_cache@[w].id_address@ == id_view);
            }
            let cache = g1.commit_cache@;
            assert(cache == gm.commit_cache@);
            let e = choose|e: int|
                0 <= e < cache.len() && (#[trigger] cache[e]).cache.commit_result@
                    == identical_commit@ && is_strict_majority_at(cache, e);
            lemma_matching_ids_count(cache, identical_commit@);
            assert(commit_count(cache, identical_commit@) >= g0e.threshold as int);
            if g1.state {
                assert(has_strict_majority(g1.commit_cache@));
                assert(surviving_count(g0e.members@, identical_commit@.disqualified_nodes) >= 3);
                assert(finalization_due(cache, g0e.members@, g0e.threshold as int)) by {
                    assert(0 <= e < cache.len() && is_strict_majority_at(cache, e)
                        && commit_count(cache, cache[e].cache.commit_result@)
                        >= g0e.threshold as int && surviving_count(
                        g0e.members@,
                        cache[e].cache.commit_result@.disqualified_nodes,
                    ) >= 3);
                }
                assert(g1.public_key@ == cache[e].cache.commit_result.public_key@);
                assert(committers_elected(g1, pre.last_output)) by {
                    assert(mid.last_output == pre.last_output);
                }
                assert forall|k: int|
                    0 <= k < g0e.members@.len() implies (has_member(
                        g1,
                        (#[trigger] g0e.members@[k]).id_address@,
                    ) <==> !cache[e].cache.commit_result@.disqualified_nodes.contains(
                        g0e.members@[k].id_address@,
                    )) by {
                    assert(gm.members@[k] == g0e.members@[k]);
                }
            } else {
                assert(*self == mid);
                if finalization_due(cache, g0e.members@, g0e.threshold as int) {
                    let i = choose|i: int|
                        0 <= i < cache.len() && #[trigger] is_strict_majority_at(cache, i)
                            && commit_count(cache, cache[i].cache.commit_result@)
                            >= g0e.threshold as int && surviving_count(
                            g0e.members@,
                            cache[i].cache.commit_result@.disqualified_nodes,
                        ) >= 3;
                    lemma_strict_majority_unique(cache, i, e);
                    assert(surviving_count(
                        g0e.members@,
                        identical_commit@.disqualified_nodes,
                    ) >= 3);
                }
            }
            assert(commit_dkg_effect(pre, *self, group_index, id_view, partial_public_key@));
        }
        Ok(())
    }
}

fn vec_contains_string(v: &Vec<String>, x: &String) -> (r: bool)
    ensures
        r == v.deep_view().contains(x@),
{
    let mut i: usize = 0;
    while i < v.len()
        invariant
            i <= v@.len(),
            forall|k: int| 0 <= k < i ==> v@[k]@ != x@,
        decreases v@.len() - i,
    {
        if v[i] == *x {
            proof {
                assert(v.deep_view()[i as int] == v@[i as int]@);
            }
            return true;
        }
        i = i + 1;
    }
    proof {
        if v.deep_view().contains(x@) {
            let w = choose|w: int| 0 <= w < v.deep_view().len() && v.deep_view()[w] == x@;
            assert(v@[w]@ == x@);
        }
    }
    false
}

impl Controller {
    /// Make a group ready: adopt the majority public key, record the
    /// committed partial public keys, drop and slash the members the
    /// majority disqualified, and elect the committers deterministically.
    /// Nothing happens when the disqualifications would leave fewer than
    /// three members: a commitment from members that have since left cannot
    /// make a group ready.
    #[verifier::rlimit(100)]
    #[verifier::spinoff_prover]
    fn finalize_group(&mut self, group_index: usize, identical_commit: CommitResult)
        requires
            old(self).inv(),
            1 <= group_index <= old(self).groups@.len(),
            !old(self).groups@[group_index - 1].state,
            identical_commit.public_key@.len() > 0,
        ensures
            final(self).inv(),
            final(self).groups@.len() == old(self).groups@.len(),
            forall|j: int|
                0 <= j < old(self).groups@.len() && j != group_index - 1 ==> final(self).groups@[j]
                    == old(self).groups@[j],
            final(self).groups@[group_index - 1].commit_cache@ == old(self).groups@[group_index
                - 1].commit_cache@,
            final(self).groups@[group_index - 1].epoch == old(self).groups@[group_index - 1].epoch,
            final(self).rewards@ == old(self).rewards@,
            final(self).pending_signature_tasks@ == old(self).pending_signature_tasks@,
            final(self).verifiable_signature_rewards@ == old(self).verifiable_signature_rewards@,
            final(self).block_height == old(self).block_height,
            final(self).last_output == old(self).last_output,
            final(self).signature_count == old(self).signature_count,
            final(self).last_group_index == old(self).last_group_index,
            final(self).signature_task == old(self).signature_task,
            !final(self).groups@[group_index - 1].state ==> *final(self) == *old(self),
            (final(self).groups@[group_index - 1].state <==> surviving_count(
                old(self).groups@[group_index - 1].members@,
                identical_commit@.disqualified_nodes,
            ) >= 3),
            final(self).groups@[group_index - 1].state ==> ({
                let g0 = old(self).groups@[group_index - 1];
                let g1 = final(self).groups@[group_index - 1];
                &&& g1.public_key@ == identical_commit.public_key@
                &&& g1.members@.len() >= 3
                &&& g1.threshold == spec_group_threshold(g1.members@.len() as int)
                &&& g1.committers@.len() == spec_committers_size(g1.threshold as int)
                &&& (forall|k: int|
                    0 <= k < g0.members@.len() ==> (has_member(
                        g1,
                        (#[trigger] g0.members@[k]).id_address@,
                    ) <==> !identical_commit@.disqualified_nodes.contains(
                        g0.members@[k].id_address@,
                    )))
                &&& committers_elected(g1, old(self).last_output)
                &&& final(self).nodes@.len() == old(self).nodes@.len()
                &&& forall|i: int|
                    0 <= i < old(self).nodes@.len() ==> (#[trigger] final(self).nodes@[i]).id_address@
                        == old(self).nodes@[i].id_address@
                &&& forall|i: int|
                    0 <= i < old(self).nodes@.len() && !has_member(
                        g0,
                        (#[trigger] old(self).nodes@[i]).id_address@,
                    ) ==> final(self).nodes@[i] == old(self).nodes@[i]
                &&& forall|i: int|
                    0 <= i < old(self).nodes@.len() && has_member(
                        g0,
                        (#[trigger] old(self).nodes@[i]).id_address@,
                    ) && has_member(g1, old(self).nodes@[i].id_address@) ==> final(self).nodes@[i]
                        == old(self).nodes@[i]
                &&& forall|i: int|
                    0 <= i < old(self).nodes@.len() && has_member(
                        g0,
                        (#[trigger] old(self).nodes@[i]).id_address@,
                    ) && !has_member(g1, old(self).nodes@[i].id_address@) ==> final(self).nodes@[i].staking
                        == old(self).nodes@[i].staking.saturating_sub(DISQUALIFIED_NODE_PENALTY)
            }),
    {
        let ghost pre = *old(self);
        let ghost g0 = pre.groups@[group_index - 1];
        // the disqualified members to take out: listed, seated, each once
        let mut applied: Vec<String> = Vec::new();
        let mut d: usize = 0;
        while d < identical_commit.disqualified_nodes.len()
            invariant
                *self == pre,
                pre.inv(),
                1 <= group_index <= pre.groups@.len(),
                g0 == pre.groups@[group_index - 1],
                d <= identical_commit.disqualified_nodes@.len(),
                forall|a: int, b: int|
                    0 <= a < b < applied@.len() ==> applied@[a]@ != applied@[b]@,
                forall|k: int| 0 <= k < applied@.len() ==> has_member(g0, applied@[k]@),
                forall|k: int|
                    0 <= k < applied@.len()
                        ==> identical_commit.disqualified_nodes.deep_view().contains(
                        applied@[k]@,
                    ),
                forall|d2: int|
                    0 <= d2 < d && has_member(
                        g0,
                        (#[trigger] identical_commit.disqualified_nodes@[d2])@,
                    ) ==> applied.deep_view().contains(
                        identical_commit.disqualified_nodes@[d2]@,
                    ),
            decreases identical_commit.disqualified_nodes@.len() - d,
        {
            let dn = &identical_commit.disqualified_nodes[d];
            let ghost before_ids = applied.deep_view();
            let is_member = find_member(&self.groups[group_index - 1], dn).is_some();
            if is_member && !vec_contains_string(&applied, dn) {
                proof {
                    assert(has_member(g0, dn@));
                }
                applied.push(dn.clone());
                proof {
                    assert forall|a: int, b: int|
                        0 <= a < b < applied@.len() implies applied@[a]@ != applied@[b]@ by {
                        if b == applied@.len() - 1 {
                            assert(before_ids[a] == applied@[a]@);
                            assert(!before_ids.contains(dn@));
                            assert(applied@[b]@ == dn@);
                        }
                    }
                    assert(identical_commit.disqualified_nodes.deep_view()[d as int] == dn@);
                    assert(identical_commit.disqualified_nodes.deep_view().contains(dn@));
                }
            }
            proof {
                let now_ids = applied.deep_view();
                assert forall|w: int|
                    0 <= w < before_ids.len() implies now_ids.contains(
                    #[trigger] before_ids[w],
                ) by {
                    assert(now_ids[w] == before_ids[w]);
                }
                assert forall|d2: int|
                    0 <= d2 <= d && has_member(
                        g0,
                        (#[trigger] identical_commit.disqualified_nodes@[d2])@,
                    ) implies now_ids.contains(identical_commit.disqualified_nodes@[d2]@) by {
                    if d2 < d {
                        assert(before_ids.contains(identical_commit.disqualified_nodes@[d2]@));
                        let w = choose|w: int|
                            0 <= w < before_ids.len() && before_ids[w]
                                == identical_commit.disqualified_nodes@[d2]@;
                        assert(now_ids.contains(before_ids[w]));
                    } else {
                        if is_member && !before_ids.contains(dn@) {
                            assert(now_ids[now_ids.len() - 1] == dn@);
                            assert(now_ids.contains(dn@));
                        } else {
                            assert(has_member(g0, dn@));
                            assert(before_ids.contains(dn@));
                            let w = choose|w: int|
                                0 <= w < before_ids.len() && before_ids[w] == dn@;
                            assert(now_ids.contains(before_ids[w]));
                        }
                    }
                }
            }
            d = d + 1;
        }
        proof {
            let ids = applied.deep_view();
            assert forall|a: int, b: int| 0 <= a < b < ids.len() implies ids[a] != ids[b] by {
                assert(ids[a] == applied@[a]@ && ids[b] == applied@[b]@);
            }
            assert forall|k: int| 0 <= k < ids.len() implies has_member(g0, #[trigger] ids[k]) by {
                assert(ids[k] == applied@[k]@);
            }
            assert(group_wf(g0));
        }
        // count the members that would stay
        let nm = self.groups[group_index - 1].members.len();
        let mut survivors: usize = 0;
        let mut si: usize = 0;
        while si < nm
            invariant
                *self == pre,
                pre.inv(),
                1 <= group_index <= pre.groups@.len(),
                g0 == pre.groups@[group_index - 1],
                nm == g0.members@.len(),
                si <= nm,
                survivors <= si,
                survivors == surviving_count(
                    g0.members@.take(si as int),
                    identical_commit@.disqualified_nodes,
                ),
            decreases nm - si,
        {
            proof {
                assert(g0.members@.take(si + 1 as int).drop_last() =~= g0.members@.take(
                    si as int,
                ));
                assert(g0.members@.take(si + 1 as int).last() == g0.members@[si as int]);
            }
            if !vec_contains_string(
                &identical_commit.disqualified_nodes,
                &self.groups[group_index - 1].members[si].id_address,
            ) {
                survivors = survivors + 1;
            }
            si = si + 1;
        }
        proof {
            assert(g0.members@.take(g0.members@.len() as int) =~= g0.members@);
        }
        if survivors < 3 {
            return ;
        }
        // record the committed partial public keys
        let n_members = self.groups[group_index - 1].members.len();
        let mut mi: usize = 0;
        while mi < n_members
            invariant
                pre == *old(self),
                pre.inv(),
                g0 == pre.groups@[group_index - 1],
                self.inv(),
                1 <= group_index <= self.groups@.len(),
                self.groups@.len() == pre.groups@.len(),
                n_members == self.groups@[group_index - 1].members@.len(),
                mi <= n_members,
                !self.groups@[group_index - 1].state,
                self.groups@[group_index - 1].commit_cache@ == g0.commit_cache@,
                self.groups@[group_index - 1].epoch == g0.epoch,
                self.groups@[group_index - 1].size == g0.size,
                self.groups@[group_index - 1].threshold == g0.threshold,
                self.groups@[group_index - 1].members@.len() == g0.members@.len(),
                forall|k: int|
                    0 <= k < g0.members@.len() ==> (#[trigger] self.groups@[group_index
                        - 1].members@[k]).id_address@ == g0.members@[k].id_address@
                        && self.groups@[group_index - 1].members@[k].index
                        == g0.members@[k].index,
                forall|k: int|
                    0 <= k < mi && has_commit(g0, (#[trigger] self.groups@[group_index
                        - 1].members@[k]).id_address@) ==> self.groups@[group_index
                        - 1].members@[k].partial_public_key@.len() > 0,
                forall|j: int|
                    0 <= j < pre.groups@.len() && j != group_index - 1 ==> self.groups@[j]
                        == pre.groups@[j],
                self.nodes@ == pre.nodes@,
                self.rewards@ == pre.rewards@,
                self.pending_signature_tasks@ == pre.pending_signature_tasks@,
                self.verifiable_signature_rewards@ == pre.verifiable_signature_rewards@,
                self.block_height == pre.block_height,
                self.last_output == pre.last_output,
                self.signature_count == pre.signature_count,
                self.last_group_index == pre.last_group_index,
                self.signature_task == pre.signature_task,
                self.dkg_task == pre.dkg_task,
                self.coordinators@ == pre.coordinators@,
                self.epoch == pre.epoch,
            decreases n_members - mi,
        {
            let found = find_commit(&self.groups[group_index - 1], &self.groups[group_index
                - 1].members[mi].id_address);
            match found {
                Some(ci) => {
                    let ppk = crate::coordinator::clone_bytes(
                        &self.groups[group_index - 1].commit_cache[ci].cache.partial_public_key,
                    );
                    let gm = &mut self.groups[group_index - 1];
                    let mr = &mut gm.members[mi];
                    mr.partial_public_key = ppk;
                    proof {
                        let cur = self.groups@[group_index - 1].members@;
                        assert forall|a: int, b: int|
                            0 <= a < b < cur.len() implies (#[trigger] cur[a]).id_address@
                                != (#[trigger] cur[b]).id_address@ by {
                            assert(cur[a].id_address@ == g0.members@[a].id_address@);
                            assert(cur[b].id_address@ == g0.members@[b].id_address@);
                        }
                        assert forall|a: int, b: int|
                            0 <= a < b < cur.len() implies (#[trigger] cur[a]).index
                                != (#[trigger] cur[b]).index by {
                            assert(cur[a].index == g0.members@[a].index);
                            assert(cur[b].index == g0.members@[b].index);
                        }
                        assert(group_wf(self.groups@[group_index - 1]));
                        assert forall|g2: int, m2: int|
                            0 <= g2 < self.groups@.len() && 0 <= m2
                                < self.groups@[g2].members@.len() implies has_node(
                                self.nodes@,
                                self.groups@[g2].members@[m2].id_address@,
                            ) by {
                            if g2 == group_index - 1 {
                                assert(has_node(pre.nodes@, g0.members@[m2].id_address@));
                            }
                        }
                        assert forall|g2: int, h2: int, m2: int, n2: int|
                            0 <= g2 < self.groups@.len() && 0 <= h2 < self.groups@.len() && g2
                                != h2 && 0 <= m2 < self.groups@[g2].members@.len() && 0 <= n2
                                < self.groups@[h2].members@.len() implies self.groups@[g2].members@[m2].id_address@
                                != self.groups@[h2].members@[n2].id_address@ by {
                            assert(self.groups@[g2].members@[m2].id_address@
                                == pre.groups@[g2].members@[m2].id_address@);
                            assert(self.groups@[h2].members@[n2].id_address@
                                == pre.groups@[h2].members@[n2].id_address@);
                        }
                        assert(self.inv());
                    }
                },
                None => {},
            }
            mi = mi + 1;
        }
        // take the disqualified members out of the group
        let ghost mid1 = *self;
        let ghost g_mid1 = self.groups@[group_index - 1];
        let ghost applied_ids = applied.deep_view();
        proof {
            assert(g_mid1.members@.len() == g0.members@.len());
            assert forall|k: int|
                0 <= k < g0.members@.len() implies (#[trigger] g_mid1.members@[k]).id_address@
                    == g0.members@[k].id_address@ by {}

            assert forall|k: int|
                0 <= k < applied_ids.len() implies has_member(g_mid1, #[trigger] applied_ids[k]) by {
                assert(applied_ids[k] == applied@[k]@);
                assert(has_member(g0, applied@[k]@));
                let w = choose|w: int|
                    0 <= w < g0.members@.len() && g0.members@[w].id_address@ == applied@[k]@;
                assert(g_mid1.members@[w].id_address@ == applied@[k]@);
            }
            assert(applied_ids.take(0) =~= Seq::<Seq<char>>::empty());
            let curm0 = self.groups@[group_index - 1].members@;
            assert forall|k: int|
                0 <= k < curm0.len() implies member_from(#[trigger] curm0[k], g_mid1.members@) by {
                assert(curm0[k] == g_mid1.members@[k]);
            }
        }
        let mut e: usize = 0;
        while e < applied.len()
            invariant
                pre == *old(self),
                pre.inv(),
                g0 == pre.groups@[group_index - 1],
                mid1.inv(),
                g_mid1 == mid1.groups@[group_index - 1],
                self.inv(),
                1 <= group_index <= self.groups@.len(),
                self.groups@.len() == pre.groups@.len(),
                e <= applied@.len(),
                applied_ids == applied.deep_view(),
                applied_ids.len() == applied@.len(),
                forall|k: int| 0 <= k < applied@.len() ==> (#[trigger] applied@[k])@ == applied_ids[k],
                forall|a: int, b: int|
                    0 <= a < b < applied_ids.len() ==> applied_ids[a] != applied_ids[b],
                forall|k: int|
                    0 <= k < applied_ids.len() ==> has_member(g_mid1, #[trigger] applied_ids[k]),
                forall|id2: Seq<char>|
                    has_member(self.groups@[group_index - 1], id2) == (has_member(g_mid1, id2)
                        && !applied_ids.take(e as int).contains(id2)),
                self.groups@[group_index - 1].members@.len() == g_mid1.members@.len() - e,
                !self.groups@[group_index - 1].state,
                self.groups@[group_index - 1].commit_cache@ == g0.commit_cache@,
                self.groups@[group_index - 1].epoch == g0.epoch,
                forall|k: int|
                    0 <= k < self.groups@[group_index - 1].members@.len() ==> member_from(
                        #[trigger] self.groups@[group_index - 1].members@[k],
                        g_mid1.members@,
                    ),
                forall|j: int|
                    0 <= j < pre.groups@.len() && j != group_index - 1 ==> self.groups@[j]
                        == pre.groups@[j],
                self.nodes@ == pre.nodes@,
                self.rewards@ == pre.rewards@,
                self.pending_signature_tasks@ == pre.pending_signature_tasks@,
                self.verifiable_signature_rewards@ == pre.verifiable_signature_rewards@,
                self.block_height == pre.block_height,
                self.last_output == pre.last_output,
                self.signature_count == pre.signature_count,
                self.last_group_index == pre.last_group_index,
                self.signature_task == pre.signature_task,
            decreases applied@.len() - e,
        {
            let addr = applied[e].clone();
            proof {
                assert(addr@ == applied_ids[e as int]);
                assert(has_member(g_mid1, addr@));
                if applied_ids.take(e as int).contains(addr@) {
                    let w = choose|w: int|
                        0 <= w < e && applied_ids.take(e as int)[w] == addr@;
                    assert(applied_ids[w] == applied_ids[e as int]);
                }
                assert(has_member(self.groups@[group_index - 1], addr@));
            }
            let ghost gb = self.groups@[group_index - 1];
            let rr = self.remove_from_group(&addr, group_index, false);
            proof {
                assert(rr is Ok);
                let k = member_idx(gb, addr@);
                lemma_member_removed(gb, self.groups@[group_index - 1], k);
                assert(applied_ids.take(e + 1 as int) =~= applied_ids.take(e as int).push(
                    addr@,
                ));
                let ta = applied_ids.take(e + 1 as int);
                let tb = applied_ids.take(e as int);
                assert forall|id2: Seq<char>|
                    has_member(self.groups@[group_index - 1], id2) == (has_member(g_mid1, id2)
                        && !ta.contains(id2)) by {
                    if id2 == addr@ {
                        assert(ta[e as int] == addr@);
                        assert(ta.contains(id2));
                        assert(!has_member(self.groups@[group_index - 1], id2));
                    } else {
                        assert(has_member(self.groups@[group_index - 1], id2) == has_member(
                            gb,
                            id2,
                        ));
                        if ta.contains(id2) {
                            let w = choose|w: int| 0 <= w < ta.len() && ta[w] == id2;
                            assert(w < e);
                            assert(tb[w] == id2);
                            assert(tb.contains(id2));
                        }
                        if tb.contains(id2) {
                            let w = choose|w: int| 0 <= w < tb.len() && tb[w] == id2;
                            assert(ta[w] == id2);
                            assert(ta.contains(id2));
                        }
                    }
                }
                let curm1 = self.groups@[group_index - 1].members@;
                assert forall|k2: int|
                    0 <= k2 < curm1.len() implies member_from(
                    #[trigger] curm1[k2],
                    g_mid1.members@,
                ) by {
                    let k0 = if k2 < k { k2 } else { k2 + 1 };
                    assert(curm1[k2] == gb.members@[k0]);
                    assert(member_from(gb.members@[k0], g_mid1.members@));
                }
            }
            e = e + 1;
        }
        proof {
            assert(applied_ids.take(applied_ids.len() as int) =~= applied_ids);
        }
        // elect the committers from the qualified members
        let ghost g_mid2 = self.groups@[group_index - 1];
        let mut qualified_indices: Vec<usize> = Vec::new();
        let mut qi: usize = 0;
        while qi < self.groups[group_index - 1].members.len()
            invariant
                self.inv(),
                1 <= group_index <= self.groups@.len(),
                g_mid2 == self.groups@[group_index - 1],
                qi <= g_mid2.members@.len(),
                qualified_indices@.len() == qi,
                forall|k: int|
                    0 <= k < qi ==> qualified_indices@[k] == g_mid2.members@[k].index,
            decreases g_mid2.members@.len() - qi,
        {
            qualified_indices.push(self.groups[group_index - 1].members[qi].index);
            qi = qi + 1;
        }
        let threshold_now = self.groups[group_index - 1].threshold;
        let committers_count = if DEFAULT_COMMITTERS_SIZE > threshold_now {
            DEFAULT_COMMITTERS_SIZE
        } else {
            threshold_now
        };
        proof {
            assert(qualified_indices@.no_duplicates());
            assert(g_mid2.members@.len() >= 3) by {
                broadcast use vstd::seq_lib::seq_to_set_is_finite;
                broadcast use vstd::set::group_set_axioms;

                let list_ids = identical_commit.disqualified_nodes.deep_view();
                lemma_survivor_complement(g0.members@, list_ids);
                let lset = listed_ids_set(g0.members@, list_ids);
                applied_ids.unique_seq_to_set();
                assert forall|id: Seq<char>|
                    applied_ids.to_set().contains(id) <==> lset.contains(id) by {
                    if applied_ids.to_set().contains(id) {
                        let w = choose|w: int|
                            0 <= w < applied_ids.len() && applied_ids[w] == id;
                        assert(applied@[w]@ == id);
                        assert(has_member(g0, id));
                        assert(list_ids.contains(id));
                    }
                    if lset.contains(id) {
                        assert(list_ids.contains(id));
                        let d2 = choose|d2: int|
                            0 <= d2 < list_ids.len() && list_ids[d2] == id;
                        assert(identical_commit.disqualified_nodes@[d2]@ == id);
                        let k = choose|k: int|
                            0 <= k < g0.members@.len() && (#[trigger] g0.members@[k]).id_address@
                                == id;
                        assert(has_member(g0, identical_commit.disqualified_nodes@[d2]@));
                        assert(applied_ids.contains(id));
                        let w = choose|w: int|
                            0 <= w < applied_ids.len() && applied_ids[w] == id;
                        assert(applied_ids.to_set().contains(applied_ids[w]));
                    }
                }
                assert(applied_ids.to_set() =~= lset);
                assert(identical_commit@.disqualified_nodes == list_ids);
                assert(surviving_count(g0.members@, list_ids) >= 3);
                assert(applied_ids.len() == g0.members@.len() - surviving_count(
                    g0.members@,
                    list_ids,
                ));
            }
            assert(g_mid2.threshold == spec_group_threshold(g_mid2.size as int));
            assert(g_mid2.size / 2 + 1 <= g_mid2.size) by (nonlinear_arith)
                requires g_mid2.size >= 2;
            assert(committers_count <= qualified_indices@.len());
            utils::lemma_choose_randomly_properties(
                self.last_output,
                qualified_indices@,
                committers_count as nat,
            );
        }
        let committer_indices = utils::choose_randomly_from_indices(
            self.last_output,
            &qualified_indices,
            committers_count,
        );
        let mut committers: Vec<String> = Vec::new();
        let mut chosen_pos: Ghost<Seq<int>> = Ghost(Seq::empty());
        let mut ci: usize = 0;
        while ci < committer_indices.len()
            invariant
                self.inv(),
                1 <= group_index <= self.groups@.len(),
                g_mid2 == self.groups@[group_index - 1],
                ci <= committer_indices@.len(),
                committers@.len() == ci,
                chosen_pos@.len() == ci,
                forall|k: int|
                    0 <= k < committer_indices@.len() ==> member_index_used(
                        g_mid2,
                        #[trigger] committer_indices@[k] as int,
                    ),
                forall|a: int, b: int|
                    0 <= a < b < committer_indices@.len() ==> committer_indices@[a]
                        != committer_indices@[b],
                forall|k: int|
                    0 <= k < ci ==> 0 <= #[trigger] chosen_pos@[k] < g_mid2.members@.len(),
                forall|k: int|
                    0 <= k < ci ==> g_mid2.members@[#[trigger] chosen_pos@[k]].index
                        == committer_indices@[k],
                forall|k: int|
                    0 <= k < ci ==> (#[trigger] committers@[k])@
                        == g_mid2.members@[chosen_pos@[k]].id_address@,
            decreases committer_indices@.len() - ci,
        {
            let target = committer_indices[ci];
            let pos = match find_member_by_index(&self.groups[group_index - 1], target) {
                Some(p) => p,
                None => {
                    proof {
                        assert(false);
                    }
                    0
                },
            };
            committers.push(self.groups[group_index - 1].members[pos].id_address.clone());
            proof {
                chosen_pos@ = chosen_pos@.push(pos as int);
            }
            ci = ci + 1;
        }
        // adopt the majority key and go live
        let adopted_key = crate::coordinator::clone_bytes(&identical_commit.public_key);
        let gm = &mut self.groups[group_index - 1];
        gm.state = true;
        gm.public_key = adopted_key;
        gm.committers = committers;
        proof {
            let g1 = self.groups@[group_index - 1];
            assert forall|a: int, b: int|
                0 <= a < b < g1.committers@.len() implies (#[trigger] g1.committers@[a])@
                    != (#[trigger] g1.committers@[b])@ by {
                assert(g_mid2.members@[chosen_pos@[a]].index == committer_indices@[a]);
                assert(g_mid2.members@[chosen_pos@[b]].index == committer_indices@[b]);
                assert(chosen_pos@[a] != chosen_pos@[b]);
            }
            assert forall|k: int|
                0 <= k < g1.committers@.len() implies has_member(
                    g1,
                    (#[trigger] g1.committers@[k])@,
                ) by {
                assert(g1.members@[chosen_pos@[k]].id_address@ == g1.committers@[k]@);
            }
            assert(qualified_indices@ =~= g1.members@.map_values(|m: Member| m.index));
            assert(committers_elected(g1, pre.last_output)) by {
                let picks = utils::spec_choose_randomly(
                    pre.last_output,
                    g1.members@.map_values(|m: Member| m.index),
                    spec_committers_size(g1.threshold as int) as nat,
                );
                assert(committer_indices@ == picks);
                assert forall|j: int|
                    0 <= j < picks.len() implies committer_pick(g1, j, #[trigger] picks[j]) by {
                    assert(0 <= chosen_pos@[j] < g1.members@.len() && g1.members@[chosen_pos@[j]].index
                        == picks[j] && g1.committers@[j]@ == g1.members@[chosen_pos@[j]].id_address@);
                }
            }
            assert forall|k: int|
                0 <= k < g1.members@.len() && has_commit(g1, (#[trigger] g1.members@[k]).id_address@)
                    implies g1.members@[k].partial_public_key@.len() > 0 by {
                assert(member_from(g1.members@[k], g_mid1.members@));
                let j = choose|j: int|
                    0 <= j < g_mid1.members@.len() && g1.members@[k] == g_mid1.members@[j];
                assert(has_commit(g0, g_mid1.members@[j].id_address@) ==> g_mid1.members@[j].partial_public_key@.len() > 0);
            }
            assert(group_wf(g1));
            assert forall|g2: int, m2: int|
                0 <= g2 < self.groups@.len() && 0 <= m2 < self.groups@[g2].members@.len()
                    implies has_node(
                    self.nodes@,
                    self.groups@[g2].members@[m2].id_address@,
                ) by {
                if g2 == group_index - 1 {
                    assert(member_from(self.groups@[g2].members@[m2], g_mid1.members@));
                    let j = choose|j: int|
                        0 <= j < g_mid1.members@.len() && self.groups@[g2].members@[m2]
                            == g_mid1.members@[j];
                    assert(has_node(pre.nodes@, g_mid1.members@[j].id_address@));
                }
            }
            assert forall|g2: int, h2: int, m2: int, n2: int|
                0 <= g2 < self.groups@.len() && 0 <= h2 < self.groups@.len() && g2 != h2 && 0
                    <= m2 < self.groups@[g2].members@.len() && 0 <= n2
                    < self.groups@[h2].members@.len() implies self.groups@[g2].members@[m2].id_address@
                    != self.groups@[h2].members@[n2].id_address@ by {
                if g2 == group_index - 1 {
                    assert(member_from(self.groups@[g2].members@[m2], g_mid1.members@));
                    let j = choose|j: int|
                        0 <= j < g_mid1.members@.len() && self.groups@[g2].members@[m2]
                            == g_mid1.members@[j];
                    assert(self.groups@[h2] == pre.groups@[h2]);
                    assert(mid1.groups@[h2] == pre.groups@[h2]);
                    assert(mid1.groups@[g2].members@[j].id_address@
                        != mid1.groups@[h2].members@[n2].id_address@);
                } else if h2 == group_index - 1 {
                    assert(member_from(self.groups@[h2].members@[n2], g_mid1.members@));
                    let j = choose|j: int|
                        0 <= j < g_mid1.members@.len() && self.groups@[h2].members@[n2]
                            == g_mid1.members@[j];
                    assert(self.groups@[g2] == pre.groups@[g2]);
                    assert(mid1.groups@[g2] == pre.groups@[g2]);
                    assert(mid1.groups@[g2].members@[m2].id_address@
                        != mid1.groups@[h2].members@[j].id_address@);
                } else {
                    assert(self.groups@[g2] == pre.groups@[g2]);
                    assert(self.groups@[h2] == pre.groups@[h2]);
                    assert(pre.groups@[g2].members@[m2].id_address@
                        != pre.groups@[h2].members@[n2].id_address@);
                }
            }
            assert(self.inv());
        }
        // slash the disqualified nodes
        let ghost mid3 = *self;
        let ghost pre_nodes = pre.nodes@;
        proof {
            assert(applied_ids.take(applied_ids.len() as int) =~= applied_ids);
            assert(mid3.groups@[group_index - 1].members@ == g_mid2.members@);
            let gm3 = mid3.groups@[group_index - 1];
            assert forall|id2: Seq<char>|
                has_member(gm3, id2) == (has_member(g_mid1, id2) && !applied_ids.contains(
                    id2,
                )) by {
                if has_member(gm3, id2) {
                    let wq = choose|wq: int|
                        0 <= wq < gm3.members@.len() && gm3.members@[wq].id_address@ == id2;
                    assert(g_mid2.members@[wq].id_address@ == id2);
                    assert(has_member(g_mid2, id2));
                }
                if has_member(g_mid2, id2) {
                    let wq = choose|wq: int|
                        0 <= wq < g_mid2.members@.len() && g_mid2.members@[wq].id_address@
                            == id2;
                    assert(gm3.members@[wq].id_address@ == id2);
                    assert(has_member(gm3, id2));
                }
            }
            assert forall|id2: Seq<char>|
                applied_ids.contains(id2) implies !self.member_of_any(id2) by {
                if self.member_of_any(id2) {
                    let gx = choose|gx: int|
                        0 <= gx < self.groups@.len() && has_member(self.groups@[gx], id2);
                    if gx == group_index - 1 {
                        assert(has_member(g_mid2, id2) == (has_member(g_mid1, id2)
                            && !applied_ids.contains(id2)));
                        let wq = choose|wq: int|
                            0 <= wq < self.groups@[gx].members@.len()
                                && self.groups@[gx].members@[wq].id_address@ == id2;
                        assert(g_mid2.members@[wq].id_address@ == id2);
                        assert(has_member(g_mid2, id2));
                    } else {
                        let t = choose|t: int|
                            0 <= t < applied_ids.len() && applied_ids[t] == id2;
                        assert(has_member(g0, id2));
                        let wm = choose|wm: int|
                            0 <= wm < g0.members@.len() && g0.members@[wm].id_address@ == id2;
                        let wx = choose|wx: int|
                            0 <= wx < self.groups@[gx].members@.len()
                                && self.groups@[gx].members@[wx].id_address@ == id2;
                        assert(self.groups@[gx] == pre.groups@[gx]);
                        assert(pre.groups@[group_index - 1].members@[wm].id_address@
                            != pre.groups@[gx].members@[wx].id_address@);
                    }
                }
            }
        }
        let mut s: usize = 0;
        while s < applied.len()
            invariant
                pre == *old(self),
                pre.inv(),
                g0 == pre.groups@[group_index - 1],
                pre_nodes == pre.nodes@,
                self.groups@.len() == pre.groups@.len(),
                forall|k: int|
                    0 <= k < applied_ids.len() ==> has_member(g0, #[trigger] applied_ids[k]),
                self.inv(),
                1 <= group_index <= self.groups@.len(),
                s <= applied@.len(),
                applied_ids == applied.deep_view(),
                applied_ids.len() == applied@.len(),
                forall|k: int| 0 <= k < applied@.len() ==> (#[trigger] applied@[k])@ == applied_ids[k],
                forall|a: int, b: int|
                    0 <= a < b < applied_ids.len() ==> applied_ids[a] != applied_ids[b],
                self.groups@ == mid3.groups@,
                self.rewards@ == pre.rewards@,
                self.pending_signature_tasks@ == pre.pending_signature_tasks@,
                self.verifiable_signature_rewards@ == pre.verifiable_signature_rewards@,
                self.block_height == pre.block_height,
                self.last_output == pre.last_output,
                self.signature_count == pre.signature_count,
                self.last_group_index == pre.last_group_index,
                self.signature_task == pre.signature_task,
                self.nodes@.len() == pre_nodes.len(),
                forall|i: int|
                    0 <= i < pre_nodes.len() ==> (#[trigger] self.nodes@[i]).id_address@
                        == pre_nodes[i].id_address@,
                forall|i: int|
                    0 <= i < pre_nodes.len() && !applied_ids.contains(
                        (#[trigger] pre_nodes[i]).id_address@,
                    ) ==> self.nodes@[i] == pre_nodes[i],
                forall|i: int|
                    0 <= i < pre_nodes.len() && applied_ids.take(s as int).contains(
                        (#[trigger] pre_nodes[i]).id_address@,
                    ) ==> self.nodes@[i].staking == pre_nodes[i].staking.saturating_sub(
                        DISQUALIFIED_NODE_PENALTY,
                    ),
                forall|i: int|
                    0 <= i < pre_nodes.len() && applied_ids.contains(
                        (#[trigger] pre_nodes[i]).id_address@,
                    ) && !applied_ids.take(s as int).contains(pre_nodes[i].id_address@)
                        ==> self.nodes@[i] == pre_nodes[i],
                forall|id2: Seq<char>|
                    applied_ids.contains(id2) ==> !self.member_of_any(id2),
            decreases applied@.len() - s,
        {
            let addr = applied[s].clone();
            proof {
                assert(addr@ == applied_ids[s as int]);
                assert(applied_ids.contains(addr@));
                assert(has_member(g0, addr@));
                let wm = choose|wm: int|
                    0 <= wm < g0.members@.len() && g0.members@[wm].id_address@ == addr@;
                assert(pre.groups@[group_index - 1].members@[wm].id_address@ == addr@);
                assert(has_node(pre.nodes@, pre.groups@[group_index
                    - 1].members@[wm].id_address@));
                assert(has_node(pre_nodes, addr@));
                let w = choose|w: int|
                    0 <= w < pre_nodes.len() && pre_nodes[w].id_address@ == addr@;
                assert(self.nodes@[w].id_address@ == addr@);
                assert(has_node(self.nodes@, addr@));
                node_idx_is(self.nodes@, addr@, w);
                assert(!self.member_of_any(addr@));
                if applied_ids.take(s as int).contains(addr@) {
                    let tb = applied_ids.take(s as int);
                    let t = choose|t: int| 0 <= t < tb.len() && tb[t] == addr@;
                    assert(applied_ids[t] == applied_ids[s as int]);
                }
                assert(self.nodes@[w] == pre_nodes[w]);
            }
            let ghost before = self.nodes@;
            let sr = self.slash_node(&addr, DISQUALIFIED_NODE_PENALTY, 0, false);
            proof {
                assert(sr is Ok);
                let w = node_idx(before, addr@);
                assert(applied_ids.take(s + 1 as int) =~= applied_ids.take(s as int).push(
                    addr@,
                ));
                assert forall|i: int|
                    0 <= i < pre_nodes.len() && applied_ids.take(s + 1 as int).contains(
                        (#[trigger] pre_nodes[i]).id_address@,
                    ) implies self.nodes@[i].staking == pre_nodes[i].staking.saturating_sub(
                    DISQUALIFIED_NODE_PENALTY,
                ) by {
                    if pre_nodes[i].id_address@ == addr@ {
                        assert(i == w) by {
                            if i != w {
                                assert(before[i].id_address@ == before[w].id_address@);
                            }
                        }
                        assert(before[i] == pre_nodes[i]) by {
                            if applied_ids.take(s as int).contains(pre_nodes[i].id_address@) {
                                let tb = applied_ids.take(s as int);
                                let t = choose|t: int| 0 <= t < tb.len() && tb[t] == addr@;
                                assert(applied_ids[t] == applied_ids[s as int]);
                            }
                        }
                    } else {
                        let ta = applied_ids.take(s + 1 as int);
                        let tb = applied_ids.take(s as int);
                        assert(ta.contains(pre_nodes[i].id_address@));
                        let t = choose|t: int| 0 <= t < ta.len() && ta[t]
                            == pre_nodes[i].id_address@;
                        assert(t < s);
                        assert(tb[t] == pre_nodes[i].id_address@);
                        assert(tb.contains(pre_nodes[i].id_address@));
                        assert(before[i] == self.nodes@[i]);
                    }
                }
                assert forall|i: int|
                    0 <= i < pre_nodes.len() && applied_ids.contains(
                        (#[trigger] pre_nodes[i]).id_address@,
                    ) && !applied_ids.take(s + 1 as int).contains(pre_nodes[i].id_address@)
                        implies self.nodes@[i] == pre_nodes[i] by {
                    let ta = applied_ids.take(s + 1 as int);
                    let tb = applied_ids.take(s as int);
                    assert(pre_nodes[i].id_address@ != addr@) by {
                        if pre_nodes[i].id_address@ == addr@ {
                            assert(ta[s as int] == addr@);
                            assert(ta.contains(pre_nodes[i].id_address@));
                        }
                    }
                    assert(!tb.contains(pre_nodes[i].id_address@)) by {
                        if tb.contains(pre_nodes[i].id_address@) {
                            let t = choose|t: int|
                                0 <= t < tb.len() && tb[t] == pre_nodes[i].id_address@;
                            assert(ta[t] == pre_nodes[i].id_address@);
                            assert(ta.contains(pre_nodes[i].id_address@));
                        }
                    }
                    assert(before[i] == pre_nodes[i]);
                    assert(before[i].id_address@ != addr@);
                    assert(self.nodes@[i] == before[i]);
                }
                assert forall|id2: Seq<char>|
                    applied_ids.contains(id2) implies !self.member_of_any(id2) by {
                    if self.member_of_any(id2) {
                        let gx = choose|gx: int|
                            0 <= gx < self.groups@.len() && has_member(self.groups@[gx], id2);
                        assert(has_member(mid3.groups@[gx], id2));
                    }
                }
            }
            s = s + 1;
        }
        proof {
            assert(applied_ids.take(applied_ids.len() as int) =~= applied_ids);
            let g1 = self.groups@[group_index - 1];
            assert(g1 == mid3.groups@[group_index - 1]);
            assert forall|i: int|
                0 <= i < pre_nodes.len() && has_member(g0, (#[trigger] pre_nodes[i]).id_address@)
                    && !has_member(g1, pre_nodes[i].id_address@) implies self.nodes@[i].staking
                == pre_nodes[i].staking.saturating_sub(DISQUALIFIED_NODE_PENALTY) by {
                let wm = choose|wm: int|
                    0 <= wm < g0.members@.len() && g0.members@[wm].id_address@
                        == pre_nodes[i].id_address@;
                assert(g_mid1.members@[wm].id_address@ == pre_nodes[i].id_address@);
                assert(has_member(g_mid1, pre_nodes[i].id_address@));
                assert(applied_ids.contains(pre_nodes[i].id_address@));
            }
            assert forall|i: int|
                0 <= i < pre_nodes.len() && !has_member(
                    g0,
                    (#[trigger] pre_nodes[i]).id_address@,
                ) implies self.nodes@[i] == pre_nodes[i] by {
                if applied_ids.contains(pre_nodes[i].id_address@) {
                    let t = choose|t: int|
                        0 <= t < applied_ids.len() && applied_ids[t] == pre_nodes[i].id_address@;
                    assert(has_member(g0, applied@[t]@));
                }
            }
            assert forall|i: int|
                0 <= i < pre_nodes.len() && has_member(g0, (#[trigger] pre_nodes[i]).id_address@)
                    && has_member(self.groups@[group_index - 1], pre_nodes[i].id_address@)
                    implies self.nodes@[i] == pre_nodes[i] by {
                if applied_ids.contains(pre_nodes[i].id_address@) {
                    assert(!has_member(
                        mid3.groups@[group_index - 1],
                        pre_nodes[i].id_address@,
                    ));
                    assert(!has_member(
                        self.groups@[group_index - 1],
                        pre_nodes[i].id_address@,
                    ));
                }
            }
            // exactly the listed members left the group
            let list_ids = identical_commit.disqualified_nodes.deep_view();
            assert forall|k: int|
                0 <= k < g0.members@.len() implies (has_member(
                    g1,
                    (#[trigger] g0.members@[k]).id_address@,
                ) <==> !list_ids.contains(g0.members@[k].id_address@)) by {
                let idk = g0.members@[k].id_address@;
                assert(g_mid1.members@[k].id_address@ == idk);
                assert(has_member(g_mid1, idk));
                assert(g1 == mid3.groups@[group_index - 1]);
                assert(has_member(g1, idk) == (has_member(g_mid1, idk) && !applied_ids.contains(
                    idk,
                )));
                if applied_ids.contains(idk) {
                    let w = choose|w: int| 0 <= w < applied_ids.len() && applied_ids[w] == idk;
                    assert(applied@[w]@ == idk);
                    assert(list_ids.contains(idk));
                }
                if list_ids.contains(idk) {
                    let d2 = choose|d2: int| 0 <= d2 < list_ids.len() && list_ids[d2] == idk;
                    assert(identical_commit.disqualified_nodes@[d2]@ == idk);
                    assert(has_member(g0, identical_commit.disqualified_nodes@[d2]@));
                    assert(applied_ids.contains(idk));
                }
            }
            assert(identical_commit@.disqualified_nodes == list_ids);
            assert(g1.threshold == spec_group_threshold(g1.members@.len() as int));
            assert(committers_elected(g1, pre.last_output)) by {
                assert(g1 == mid3.groups@[group_index - 1]);
            }
        }
    }
}

/// The member value appears somewhere in the list.
pub open spec fn member_from(m: Member, members: Seq<Member>) -> bool {
    exists|j: int| 0 <= j < members.len() && m == members[j]
}

/// Removing one member by position keeps every other membership fact.
pub proof fn lemma_member_removed(gb: Group, ga: Group, k: int)
    requires
        0 <= k < gb.members@.len(),
        ga.members@ == gb.members@.remove(k),
        forall|a: int, b: int|
            0 <= a < b < gb.members@.len() ==> gb.members@[a].id_address@
                != gb.members@[b].id_address@,
    ensures
        forall|id2: Seq<char>|
            id2 != gb.members@[k].id_address@ ==> has_member(ga, id2) == has_member(gb, id2),
        !has_member(ga, gb.members@[k].id_address@),
{
    assert forall|id2: Seq<char>|
        id2 != gb.members@[k].id_address@ implies has_member(ga, id2) == has_member(gb, id2) by {
        if has_member(ga, id2) {
            let i = choose|i: int| 0 <= i < ga.members@.len() && ga.members@[i].id_address@ == id2;
            let i0 = if i < k { i } else { i + 1 };
            assert(ga.members@[i] == gb.members@[i0]);
            assert(has_member(gb, id2));
        }
        if has_member(gb, id2) {
            let i = choose|i: int| 0 <= i < gb.members@.len() && gb.members@[i].id_address@ == id2;
            assert(i != k);
            let i1 = if i < k { i } else { i - 1 };
            assert(ga.members@[i1] == gb.members@[i]);
            assert(has_member(ga, id2));
        }
    }
    if has_member(ga, gb.members@[k].id_address@) {
        let i = choose|i: int|
            0 <= i < ga.members@.len() && ga.members@[i].id_address@ == gb.members@[k].id_address@;
        let i0 = if i < k { i } else { i + 1 };
        assert(ga.members@[i] == gb.members@[i0]);
        if i0 < k {
            assert(gb.members@[i0].id_address@ != gb.members@[k].id_address@);
        } else {
            assert(gb.members@[k].id_address@ != gb.members@[i0].id_address@);
        }
    }
}

/// Whether a `commit_dkg` call passes every validation step.
pub open spec fn commit_dkg_accepted(
    pre: Controller,
    group_index: usize,
    id: Seq<char>,
    public_key: Seq<u8>,
    partial_public_key: Seq<u8>,
    group_epoch: usize,
) -> bool {
    &&& 1 <= group_index <= pre.groups@.len()
    &&& bls::is_g1_point(public_key)
    &&& bls::is_g1_point(partial_public_key)
    &&& has_member(pre.groups@[group_index - 1], id)
    &&& pre.groups@[group_index - 1].epoch == group_epoch
    &&& !has_commit(pre.groups@[group_index - 1], id)
}

/// What an accepted `commit_dkg` call does: the commitment is recorded; on
/// an already-ready group only the caller's partial public key changes; a
/// group that becomes ready has adopted a strict-majority result of at least
/// threshold size; a node removed from the group by the commitment is
/// slashed by the disqualification penalty; everything outside the group
/// and the slashed nodes is untouched.
pub open spec fn commit_dkg_effect(
    pre: Controller,
    post: Controller,
    group_index: usize,
    id: Seq<char>,
    partial_public_key: Seq<u8>,
) -> bool {
    let g0 = pre.groups@[group_index - 1];
    let g1 = post.groups@[group_index - 1];
    &&& has_commit(g1, id)
    &&& g1.commit_cache@.len() == g0.commit_cache@.len() + 1
    &&& g1.epoch == g0.epoch
    &&& post.groups@.len() == pre.groups@.len()
    &&& forall|j: int|
        0 <= j < pre.groups@.len() && j != group_index - 1 ==> post.groups@[j] == pre.groups@[j]
    &&& (g0.state ==> {
        &&& g1.state
        &&& g1.members@.len() == g0.members@.len()
        &&& forall|m: int|
            0 <= m < g0.members@.len() && g0.members@[m].id_address@ != id ==> post.groups@[group_index - 1].members@[m]
                == pre.groups@[group_index - 1].members@[m]
        &&& g1.members@[member_idx(g0, id)].partial_public_key@ == partial_public_key
        &&& g1.members@[member_idx(g0, id)].id_address@ == id
        &&& g1.committers@ == g0.committers@
        &&& g1.public_key@ == g0.public_key@
        &&& g1.size == g0.size
        &&& g1.threshold == g0.threshold
        &&& post.nodes@ == pre.nodes@
    })
    &&& (!g0.state ==> (g1.state <==> finalization_due(
        g1.commit_cache@,
        g0.members@,
        g0.threshold as int,
    )))
    &&& (!g0.state && !g1.state ==> {
        &&& g1.members@ == g0.members@
        &&& g1.committers@ == g0.committers@
        &&& post.nodes@ == pre.nodes@
    })
    &&& (!g0.state && g1.state ==> {
        &&& has_strict_majority(g1.commit_cache@)
        &&& g1.public_key@.len() > 0
        &&& g1.members@.len() >= 3
        &&& g1.threshold == spec_group_threshold(g1.members@.len() as int)
        &&& g1.committers@.len() == spec_committers_size(g1.threshold as int)
        &&& committers_elected(g1, pre.last_output)
        &&& (exists|i: int|
            0 <= i < g1.commit_cache@.len() && #[trigger] is_strict_majority_at(
                g1.commit_cache@,
                i,
            ) && g1.public_key@ == g1.commit_cache@[i].cache.commit_result.public_key@ && (
            forall|k: int|
                0 <= k < g0.members@.len() ==> (has_member(
                    g1,
                    (#[trigger] g0.members@[k]).id_address@,
                ) <==> !g1.commit_cache@[i].cache.commit_result@.disqualified_nodes.contains(
                    g0.members@[k].id_address@,
                ))))
        &&& post.nodes@.len() == pre.nodes@.len()
        &&& forall|i: int|
            0 <= i < pre.nodes@.len() ==> (#[trigger] post.nodes@[i]).id_address@
                == pre.nodes@[i].id_address@
        &&& forall|i: int|
            0 <= i < pre.nodes@.len() && !has_member(g0, (#[trigger] pre.nodes@[i]).id_address@)
                ==> post.nodes@[i] == pre.nodes@[i]
        &&& forall|i: int|
            0 <= i < pre.nodes@.len() && has_member(g0, (#[trigger] pre.nodes@[i]).id_address@)
                && has_member(g1, pre.nodes@[i].id_address@) ==> post.nodes@[i] == pre.nodes@[i]
        &&& forall|i: int|
            0 <= i < pre.nodes@.len() && has_member(g0, (#[trigger] pre.nodes@[i]).id_address@)
                && !has_member(g1, pre.nodes@[i].id_address@) ==> post.nodes@[i].staking
                == pre.nodes@[i].staking.saturating_sub(DISQUALIFIED_NODE_PENALTY)
    })
    &&& post.rewards@ == pre.rewards@
    &&& post.pending_signature_tasks@ == pre.pending_signature_tasks@
    &&& post.verifiable_signature_rewards@ == pre.verifiable_signature_rewards@
    &&& post.block_height == pre.block_height
    &&& post.last_output == pre.last_output
    &&& post.signature_count == pre.signature_count
    &&& post.last_group_index == pre.last_group_index
    &&& post.signature_task == pre.signature_task
}

/// Relies on `format!`'s rendering of unsigned integers: the standard
/// decimal digits, appended to the caller's message.
#[verifier::external_body]
fn render_task_message(message: &str, block_height: usize, last_output: u64) -> (r: String)
    ensures
        r@ == message@ + utils::spec_dec_digits(block_height as nat) + utils::spec_dec_digits(
            last_output as nat,
        ),
{
    format!("{}{}{}", message, block_height, last_output)
}

/// A deep copy of a group, equal under the view.
fn clone_group(g: &Group) -> (r: Group)
    ensures
        r@ == g@,
{
    let mut members: Vec<Member> = Vec::new();
    let mut i: usize = 0;
    while i < g.members.len()
        invariant
            i <= g.members@.len(),
            members@.len() == i,
            forall|k: int| 0 <= k < i ==> (#[trigger] members@[k])@ == g.members@[k]@,
        decreases g.members@.len() - i,
    {
        let m = &g.members[i];
        members.push(
            Member {
                index: m.index,
                id_address: m.id_address.clone(),
                partial_public_key: crate::coordinator::clone_bytes(&m.partial_public_key),
            },
        );
        i = i + 1;
    }
    let mut committers: Vec<String> = Vec::new();
    let mut j: usize = 0;
    while j < g.committers.len()
        invariant
            j <= g.committers@.len(),
            committers@.len() == j,
            forall|k: int| 0 <= k < j ==> (#[trigger] committers@[k])@ == g.committers@[k]@,
        decreases g.committers@.len() - j,
    {
        committers.push(g.committers[j].clone());
        j = j + 1;
    }
    let mut commit_cache: Vec<CommitCacheEntry> = Vec::new();
    let mut e: usize = 0;
    while e < g.commit_cache.len()
        invariant
            e <= g.commit_cache@.len(),
            commit_cache@.len() == e,
            forall|k: int| 0 <= k < e ==> (#[trigger] commit_cache@[k])@ == g.commit_cache@[k]@,
        decreases g.commit_cache@.len() - e,
    {
        let c = &g.commit_cache[e];
        commit_cache.push(
            CommitCacheEntry {
                id_address: c.id_address.clone(),
                cache: CommitCache {
                    commit_result: clone_commit_result(&c.cache.commit_result),
                    partial_public_key: crate::coordinator::clone_bytes(
                        &c.cache.partial_public_key,
                    ),
                },
            },
        );
        e = e + 1;
    }
    let r = Group {
        index: g.index,
        epoch: g.epoch,
        capacity: g.capacity,
        size: g.size,
        threshold: g.threshold,
        state: g.state,
        public_key: crate::coordinator::clone_bytes(&g.public_key),
        members,
        committers,
        commit_cache,
    };
    proof {
        assert(r@.members =~= g@.members);
        assert(r@.committers =~= g@.committers);
        assert(r@.commit_cache =~= g@.commit_cache);
        assert(r@ =~= g@);
    }
    r
}

impl Controller {
    /// Credit an amount to an address's reward balance, opening the balance
    /// at zero when none exists.
    fn credit_reward(&mut self, id_address: &String, amount: usize)
        requires
            old(self).inv(),
        ensures
            final(self).inv(),
            has_reward(final(self).rewards@, id_address@),
            !has_reward(old(self).rewards@, id_address@) ==> final(self).rewards@
                == old(self).rewards@.push(final(self).rewards@.last()) && final(self).rewards@.last().id_address@ == id_address@ && final(self).rewards@.last().amount
                == amount,
            has_reward(old(self).rewards@, id_address@) ==> ({
                let i = reward_idx(old(self).rewards@, id_address@);
                &&& final(self).rewards@.len() == old(self).rewards@.len()
                &&& final(self).rewards@[i].id_address@ == id_address@
                &&& final(self).rewards@[i].amount == old(self).rewards@[i].amount.saturating_add(
                    amount,
                )
                &&& forall|k: int|
                    0 <= k < old(self).rewards@.len() && k != i ==> final(self).rewards@[k]
                        == old(self).rewards@[k]
            }),
            final(self).nodes@ == old(self).nodes@,
            final(self).groups@ == old(self).groups@,
            final(self).pending_signature_tasks@ == old(self).pending_signature_tasks@,
            final(self).verifiable_signature_rewards@ == old(self).verifiable_signature_rewards@,
            final(self).block_height == old(self).block_height,
            final(self).last_output == old(self).last_output,
            final(self).signature_count == old(self).signature_count,
            final(self).last_group_index == old(self).last_group_index,
            final(self).signature_task == old(self).signature_task,
            final(self).dkg_task == old(self).dkg_task,
            final(self).coordinators@ == old(self).coordinators@,
            final(self).epoch == old(self).epoch,
    {
        match self.find_reward(id_address) {
            Some(k) => {
                proof {
                    reward_idx_is(self.rewards@, id_address@, k as int);
                }
                let row = &mut self.rewards[k];
                row.amount = row.amount.saturating_add(amount);
            },
            None => {
                let ghost before = self.rewards@;
                self.rewards.push(RewardRecord { id_address: id_address.clone(), amount });
                proof {
                    assert(self.rewards@[self.rewards@.len() - 1].id_address@ == id_address@);
                    assert(has_reward(self.rewards@, id_address@));
                    assert forall|a: int, b: int|
                        0 <= a < b < self.rewards@.len() implies self.rewards@[a].id_address@
                            != self.rewards@[b].id_address@ by {
                        if b < self.rewards@.len() - 1 {
                            assert(self.rewards@[a] == before[a]);
                            assert(self.rewards@[b] == before[b]);
                        } else {
                            assert(self.rewards@[a] == before[a]);
                            assert(!has_reward(before, id_address@));
                        }
                    }
                }
            },
        }
    }
}

impl Controller {
    /// Assign a randomness request to the next ready group in round-robin
    /// order after `last_group_index`, and enqueue the signature task. The
    /// task's message is the caller's message with the current block height
    /// and the previous randomness output appended.
    pub fn request_randomness(&mut self, message: &str) -> (r: ControllerResult<()>)
        requires
            old(self).inv(),
            old(self).signature_count < usize::MAX,
        ensures
            final(self).inv(),
            r is Err <==> (forall|g: int|
                0 <= g < old(self).groups@.len() ==> !(#[trigger] old(self).groups@[g]).state),
            r is Err ==> r == ControllerResult::<()>::Err(ControllerError::NoVaildGroup) && *final(self) == *old(self),
            r is Ok ==> ({
                let t = final(self).signature_task->0;
                &&& final(self).signature_task is Some
                &&& t.index == old(self).signature_count
                &&& t.group_index == spec_round_robin(
                    old(self).groups@,
                    old(self).last_group_index as int,
                    0,
                )
                &&& t.message@ == message@ + utils::spec_dec_digits(
                    old(self).block_height as nat,
                ) + utils::spec_dec_digits(old(self).last_output as nat)
                &&& 1 <= t.group_index <= old(self).groups@.len()
                &&& old(self).groups@[t.group_index - 1].state
                &&& t.assignment_block_height == old(self).block_height
                &&& final(self).signature_count == old(self).signature_count + 1
                &&& final(self).last_group_index == t.group_index
                &&& has_pending_task(
                    final(self).pending_signature_tasks@,
                    old(self).signature_count as int,
                )
                &&& final(self).pending_signature_tasks@.len() == old(self).pending_signature_tasks@.len() + 1
                &&& final(self).pending_signature_tasks@.drop_last() == old(self).pending_signature_tasks@
                &&& final(self).pending_signature_tasks@.last()@ == t@
                &&& final(self).groups@ == old(self).groups@
                &&& final(self).nodes@ == old(self).nodes@
                &&& final(self).rewards@ == old(self).rewards@
                &&& final(self).verifiable_signature_rewards@ == old(self).verifiable_signature_rewards@
                &&& final(self).block_height == old(self).block_height
                &&& final(self).last_output == old(self).last_output
            }),
    {
        let valid_group_indices = self.valid_group_indices();
        if valid_group_indices.len() == 0 {
            return Err(ControllerError::NoVaildGroup);
        }
        let n = self.groups.len();
        let ghost base = self.last_group_index as int;
        let mut assignment_group_index: usize = 0;
        let mut found = false;
        let mut j: usize = 0;
        while j < n && !found
            invariant
                self.inv(),
                n == self.groups@.len(),
                n > 0,
                base == self.last_group_index as int,
                j <= n,
                exists|g: int|
                    0 <= g < self.groups@.len() && (#[trigger] self.groups@[g]).state,
                !found ==> forall|t: int|
                    0 <= t < j ==> !(#[trigger] self.groups@[(base + n + t) % (n as int)]).state,
                spec_round_robin(self.groups@, base, 0) == (if found {
                    assignment_group_index as int
                } else {
                    spec_round_robin(self.groups@, base, j as nat)
                }),
                found ==> 1 <= assignment_group_index <= self.groups@.len()
                    && self.groups@[assignment_group_index - 1].state,
            decreases n - j + (if found {
                0int
            } else {
                1int
            }),
        {
            let candidate_wide: u128 = (self.last_group_index as u128 + n as u128 + j as u128)
                % (n as u128);
            proof {
                vstd::arithmetic::div_mod::lemma_mod_bound(
                    base + n as int + j as int,
                    n as int,
                );
            }
            let candidate = candidate_wide as usize + 1;
            if self.groups[candidate - 1].state {
                assignment_group_index = candidate;
                found = true;
            } else {
                j = j + 1;
            }
        }
        proof {
            if !found {
                let g = choose|g: int|
                    0 <= g < self.groups@.len() && (#[trigger] self.groups@[g]).state;
                let nn = n as int;
                let a = (g - base) % nn;
                vstd::arithmetic::div_mod::lemma_mod_bound(g - base, nn);
                vstd::arithmetic::div_mod::lemma_small_mod(a as nat, nn as nat);
                vstd::arithmetic::div_mod::lemma_mod_self_0(nn);
                vstd::arithmetic::div_mod::lemma_add_mod_noop(a, nn, nn);
                let j0 = (a + nn) % nn;
                assert(j0 == a);
                assert(0 <= j0 < nn);
                vstd::arithmetic::div_mod::lemma_add_mod_noop_right(base + nn, g - base, nn);
                vstd::arithmetic::div_mod::lemma_add_mod_noop(g, nn, nn);
                vstd::arithmetic::div_mod::lemma_small_mod(g as nat, nn as nat);
                assert((base + nn + j0) % nn == (base + nn + (g - base)) % nn);
                assert((base + nn + (g - base)) % nn == (g + nn) % nn);
                assert((g + nn) % nn == g);
                assert(!self.groups@[(base + nn + j0) % nn].state);
            }
        }
        let message_full = render_task_message(message, self.block_height, self.last_output);
        let signature_task = SignatureTask {
            index: self.signature_count,
            message: message_full,
            group_index: assignment_group_index,
            assignment_block_height: self.block_height,
        };
        self.signature_count = self.signature_count + 1;
        let ghost pre_pending = self.pending_signature_tasks@;
        self.signature_task = Some(signature_task.clone());
        self.pending_signature_tasks.push(signature_task);
        self.last_group_index = assignment_group_index;
        proof {
            assert(self.pending_signature_tasks@[self.pending_signature_tasks@.len()
                - 1].index == old(self).signature_count);
            assert(has_pending_task(
                self.pending_signature_tasks@,
                old(self).signature_count as int,
            ));
            assert forall|a: int, b: int|
                0 <= a < b < self.pending_signature_tasks@.len()
                    implies self.pending_signature_tasks@[a].index
                    != self.pending_signature_tasks@[b].index by {
                if b < self.pending_signature_tasks@.len() - 1 {
                    assert(self.pending_signature_tasks@[a] == pre_pending[a]);
                    assert(self.pending_signature_tasks@[b] == pre_pending[b]);
                } else {
                    assert(self.pending_signature_tasks@[a] == pre_pending[a]);
                }
            }
            assert(self.pending_signature_tasks@.drop_last() =~= pre_pending);
            assert(self.inv());
        }
        Ok(())
    }
}

impl Controller {
    /// Fulfil a pending signature task: within the exclusive window only the
    /// assigned group may act; the caller must be one of the group's
    /// committers and the signature must verify as a threshold signature of
    /// the task's message under the group public key. On success the
    /// committer and every contributing member are rewarded, the randomness
    /// chain advances to the stable hash of the signature, and the task
    /// moves into the verifiable rewards until its challenge window ends.
    #[verifier::rlimit(100)]
    #[verifier::spinoff_prover]
    pub fn fulfill_randomness(
        &mut self,
        id_address: &String,
        group_index: usize,
        signature_index: usize,
        signature: Vec<u8>,
        partial_signatures: Vec<(String, Vec<u8>)>,
    ) -> (r: ControllerResult<()>)
        requires
            old(self).inv(),
            forall|a: int, b: int|
                0 <= a < b < partial_signatures@.len() ==> partial_signatures@[a].0@
                    != partial_signatures@[b].0@,
        ensures
            final(self).inv(),
            !has_pending_task(old(self).pending_signature_tasks@, signature_index as int) ==> r
                == ControllerResult::<()>::Err(ControllerError::TaskNotFound) && *final(self)
                == *old(self),
            r is Ok ==> ({
                let t = old(self).pending_signature_tasks@[pending_task_idx(
                    old(self).pending_signature_tasks@,
                    signature_index as int,
                )];
                &&& has_pending_task(old(self).pending_signature_tasks@, signature_index as int)
                &&& (old(self).block_height <= t.assignment_block_height
                    + SIGNATURE_TASK_EXCLUSIVE_WINDOW ==> group_index == t.group_index)
                &&& 1 <= group_index <= old(self).groups@.len()
                &&& is_committer(old(self).groups@[group_index - 1], id_address@)
                &&& bls::bls_signature_valid(
                    old(self).groups@[group_index - 1].public_key@,
                    t.message@,
                    signature@,
                )
                &&& final(self).last_output == utils::spec_hash_bytes(signature@)
                &&& !has_pending_task(
                    final(self).pending_signature_tasks@,
                    signature_index as int,
                )
                &&& signature_index < final(self).signature_count
                &&& has_vsr(final(self).verifiable_signature_rewards@, signature_index as int)
                &&& ({
                    let v = final(self).verifiable_signature_rewards@[vsr_idx(
                        final(self).verifiable_signature_rewards@,
                        signature_index as int,
                    )];
                    &&& v.committer@ == id_address@
                    &&& v.expiration_block_height == old(self).block_height.saturating_add(
                        SIGNATURE_REWARDS_VALIDATION_WINDOW,
                    )
                    &&& v.group@ == old(self).groups@[group_index - 1]@
                    &&& v.partial_signatures@ == partial_signatures@
                    &&& v.signature_task@ == t@
                })
                &&& final(self).groups@ == old(self).groups@
                &&& final(self).nodes@ == old(self).nodes@
                &&& final(self).block_height == old(self).block_height
                &&& final(self).signature_count == old(self).signature_count
            }),
            r == ControllerResult::<()>::Err(ControllerError::BLSVerifyFailed) ==> !bls::bls_signature_valid(
                old(self).groups@[group_index - 1].public_key@,
                old(self).pending_signature_tasks@[pending_task_idx(
                    old(self).pending_signature_tasks@,
                    signature_index as int,
                )].message@,
                signature@,
            ),
            r is Err ==> final(self).last_output == old(self).last_output && final(self).pending_signature_tasks@ == old(self).pending_signature_tasks@ && final(self).verifiable_signature_rewards@ == old(self).verifiable_signature_rewards@,
            ({
                let t = old(self).pending_signature_tasks@[pending_task_idx(
                    old(self).pending_signature_tasks@,
                    signature_index as int,
                )];
                has_pending_task(old(self).pending_signature_tasks@, signature_index as int)
                    && old(self).block_height <= t.assignment_block_height.saturating_add(
                    SIGNATURE_TASK_EXCLUSIVE_WINDOW,
                ) && group_index != t.group_index
            }) ==> r == ControllerResult::<()>::Err(ControllerError::TaskStillExclusive) && *final(self) == *old(self),
            fulfilment_accepted(
                *old(self),
                id_address@,
                group_index,
                signature_index,
                signature@,
                partial_keys(partial_signatures@),
            ) ==> r is Ok,
            r is Ok ==> ({
                &&& final(self).rewards@.len() == old(self).rewards@.len()
                &&& forall|k: int|
                    0 <= k < old(self).rewards@.len() ==> (#[trigger] final(self).rewards@[k]).id_address@
                        == old(self).rewards@[k].id_address@ && final(self).rewards@[k].amount
                        == fulfilment_reward(
                        old(self).rewards@[k].amount,
                        old(self).rewards@[k].id_address@,
                        id_address@,
                        partial_keys(partial_signatures@),
                    )
            }),
    {
        let ghost pre = *old(self);
        let k = match self.find_pending_task(signature_index) {
            Some(k) => k,
            None => {
                return Err(ControllerError::TaskNotFound);
            },
        };
        proof {
            pending_task_idx_is(self.pending_signature_tasks@, signature_index as int, k as int);
        }
        let task_group_index = self.pending_signature_tasks[k].group_index;
        let task_assignment = self.pending_signature_tasks[k].assignment_block_height;
        if self.block_height <= task_assignment.saturating_add(SIGNATURE_TASK_EXCLUSIVE_WINDOW)
            && group_index != task_group_index {
            return Err(ControllerError::TaskStillExclusive);
        }
        if group_index < 1 || self.groups.len() < group_index {
            return Err(ControllerError::GroupNotExisted);
        }
        if !group_has_committer(&self.groups[group_index - 1], id_address) {
            return Err(ControllerError::NotFromCommitter);
        }
        if !bls::g1_point_valid(&self.groups[group_index - 1].public_key) {
            return Err(ControllerError::PublicKeyBadFormat);
        }
        let verified = bls::bls_verify(
            &self.groups[group_index - 1].public_key,
            self.pending_signature_tasks[k].message.as_str(),
            &signature,
        );
        if !verified {
            return Err(ControllerError::BLSVerifyFailed);
        }
        let committer_node = match self.find_node(id_address) {
            Some(i) => i,
            None => {
                return Err(ControllerError::NodeNotExisted);
            },
        };
        proof {
            assert(pre.nodes@[committer_node as int].id_address@ == id_address@);
            assert(has_node(pre.nodes@, id_address@));
        }
        // every contributor must belong to the group
        let mut p: usize = 0;
        while p < partial_signatures.len()
            invariant
                self.inv(),
                *self == pre,
                pre == *old(self),
                has_pending_task(pre.pending_signature_tasks@, signature_index as int),
                !({
                    let t = pre.pending_signature_tasks@[pending_task_idx(
                        pre.pending_signature_tasks@,
                        signature_index as int,
                    )];
                    pre.block_height <= t.assignment_block_height.saturating_add(
                        SIGNATURE_TASK_EXCLUSIVE_WINDOW,
                    ) && group_index != t.group_index
                }),
                1 <= group_index <= self.groups@.len(),
                p <= partial_signatures@.len(),
                forall|t: int|
                    0 <= t < p ==> has_member(
                        self.groups@[group_index - 1],
                        (#[trigger] partial_signatures@[t]).0@,
                    ),
            decreases partial_signatures@.len() - p,
        {
            if find_member(&self.groups[group_index - 1], &partial_signatures[p].0).is_none() {
                proof {
                    assert(partial_keys(partial_signatures@)[p as int]
                        == partial_signatures@[p as int].0@);
                }
                return Err(ControllerError::ParticipantNotExisted);
            }
            p = p + 1;
        }
        // rewards are strict here: a missing row aborts the fulfilment
        if self.find_reward(id_address).is_none() {
            return Err(ControllerError::RewardRecordNotExisted);
        }
        let mut q: usize = 0;
        while q < partial_signatures.len()
            invariant
                self.inv(),
                *self == pre,
                pre == *old(self),
                has_pending_task(pre.pending_signature_tasks@, signature_index as int),
                !({
                    let t = pre.pending_signature_tasks@[pending_task_idx(
                        pre.pending_signature_tasks@,
                        signature_index as int,
                    )];
                    pre.block_height <= t.assignment_block_height.saturating_add(
                        SIGNATURE_TASK_EXCLUSIVE_WINDOW,
                    ) && group_index != t.group_index
                }),
                q <= partial_signatures@.len(),
                forall|t: int|
                    0 <= t < q ==> has_node(self.nodes@, (#[trigger] partial_signatures@[t]).0@)
                        && has_reward(self.rewards@, partial_signatures@[t].0@),
            decreases partial_signatures@.len() - q,
        {
            if self.find_node(&partial_signatures[q].0).is_none() {
                proof {
                    assert(partial_keys(partial_signatures@)[q as int]
                        == partial_signatures@[q as int].0@);
                }
                return Err(ControllerError::NodeNotExisted);
            }
            if self.find_reward(&partial_signatures[q].0).is_none() {
                proof {
                    assert(partial_keys(partial_signatures@)[q as int]
                        == partial_signatures@[q as int].0@);
                }
                return Err(ControllerError::RewardRecordNotExisted);
            }
            q = q + 1;
        }
        let sr = self.settle_fulfilment(id_address, group_index, signature_index, k, signature, partial_signatures);
        proof {
            assert(sr is Ok);
        }
        sr
    }

    /// Pay out a verified fulfilment and move the task into the verifiable
    /// rewards.
    #[verifier::rlimit(100)]
    #[verifier::spinoff_prover]
    fn settle_fulfilment(
        &mut self,
        id_address: &String,
        group_index: usize,
        signature_index: usize,
        k: usize,
        signature: Vec<u8>,
        partial_signatures: Vec<(String, Vec<u8>)>,
    ) -> (r: ControllerResult<()>)
        requires
            old(self).inv(),
            1 <= group_index <= old(self).groups@.len(),
            k < old(self).pending_signature_tasks@.len(),
            old(self).pending_signature_tasks@[k as int].index == signature_index,
            has_node(old(self).nodes@, id_address@),
            has_reward(old(self).rewards@, id_address@),
            forall|a: int, b: int|
                0 <= a < b < partial_signatures@.len() ==> partial_signatures@[a].0@
                    != partial_signatures@[b].0@,
            forall|t: int|
                0 <= t < partial_signatures@.len() ==> has_member(
                    old(self).groups@[group_index - 1],
                    (#[trigger] partial_signatures@[t]).0@,
                ),
            forall|t: int|
                0 <= t < partial_signatures@.len() ==> has_reward(
                    old(self).rewards@,
                    (#[trigger] partial_signatures@[t]).0@,
                ),
        ensures
            final(self).inv(),
            r is Ok,
            final(self).rewards@.len() == old(self).rewards@.len(),
            forall|k: int|
                0 <= k < old(self).rewards@.len() ==> (#[trigger] final(self).rewards@[k]).id_address@
                    == old(self).rewards@[k].id_address@ && final(self).rewards@[k].amount
                    == fulfilment_reward(
                    old(self).rewards@[k].amount,
                    old(self).rewards@[k].id_address@,
                    id_address@,
                    partial_keys(partial_signatures@),
                ),
            final(self).last_output == utils::spec_hash_bytes(signature@),
            !has_pending_task(final(self).pending_signature_tasks@, signature_index as int),
            signature_index < final(self).signature_count,
            has_vsr(final(self).verifiable_signature_rewards@, signature_index as int),
            ({
                let v = final(self).verifiable_signature_rewards@[vsr_idx(
                    final(self).verifiable_signature_rewards@,
                    signature_index as int,
                )];
                &&& v.committer@ == id_address@
                &&& v.expiration_block_height == old(self).block_height.saturating_add(
                    SIGNATURE_REWARDS_VALIDATION_WINDOW,
                )
                &&& v.group@ == old(self).groups@[group_index - 1]@
                &&& v.partial_signatures@ == partial_signatures@
                &&& v.signature_task@ == old(self).pending_signature_tasks@[k as int]@
            }),
            final(self).groups@ == old(self).groups@,
            final(self).nodes@ == old(self).nodes@,
            final(self).block_height == old(self).block_height,
            final(self).signature_count == old(self).signature_count,
    {
        let ghost pre = *old(self);
        proof {
            reward_idx_is(pre.rewards@, id_address@, reward_idx(pre.rewards@, id_address@));
        }
        self.credit_reward(id_address, COMMITTER_REWARD_PER_SIGNATURE);
        proof {
            let ci = reward_idx(pre.rewards@, id_address@);
            assert forall|k: int|
                0 <= k < pre.rewards@.len() implies (#[trigger] self.rewards@[k]).id_address@
                    == pre.rewards@[k].id_address@ && self.rewards@[k].amount == (if pre.rewards@[k].id_address@
                == id_address@ {
                pre.rewards@[k].amount.saturating_add(COMMITTER_REWARD_PER_SIGNATURE)
            } else {
                pre.rewards@[k].amount
            }) by {
                if pre.rewards@[k].id_address@ == id_address@ {
                    reward_idx_is(pre.rewards@, id_address@, k);
                }
            }
        }
        let ghost keys = partial_keys(partial_signatures@);
        let mut w: usize = 0;
        while w < partial_signatures.len()
            invariant
                pre == *old(self),
                pre.inv(),
                has_reward(pre.rewards@, id_address@),
                forall|a: int, b: int|
                    0 <= a < b < partial_signatures@.len() ==> partial_signatures@[a].0@
                        != partial_signatures@[b].0@,
                forall|t: int|
                    0 <= t < partial_signatures@.len() ==> has_reward(
                        pre.rewards@,
                        (#[trigger] partial_signatures@[t]).0@,
                    ),
                keys == partial_keys(partial_signatures@),
                keys.len() == partial_signatures@.len(),
                forall|t: int|
                    0 <= t < partial_signatures@.len() ==> (#[trigger] partial_signatures@[t]).0@
                        == keys[t],
                self.inv(),
                w <= partial_signatures@.len(),
                self.rewards@.len() == pre.rewards@.len(),
                forall|k: int|
                    0 <= k < pre.rewards@.len() ==> (#[trigger] self.rewards@[k]).id_address@
                        == pre.rewards@[k].id_address@,
                forall|k: int|
                    0 <= k < pre.rewards@.len() ==> (#[trigger] self.rewards@[k]).amount == ({
                        let with_committer = if pre.rewards@[k].id_address@ == id_address@ {
                            pre.rewards@[k].amount.saturating_add(COMMITTER_REWARD_PER_SIGNATURE)
                        } else {
                            pre.rewards@[k].amount
                        };
                        if keys.take(w as int).contains(pre.rewards@[k].id_address@) {
                            with_committer.saturating_add(REWARD_PER_SIGNATURE)
                        } else {
                            with_committer
                        }
                    }),
                self.groups@ == pre.groups@,
                self.nodes@ == pre.nodes@,
                self.pending_signature_tasks@ == pre.pending_signature_tasks@,
                self.verifiable_signature_rewards@ == pre.verifiable_signature_rewards@,
                self.block_height == pre.block_height,
                self.last_output == pre.last_output,
                self.signature_count == pre.signature_count,
                self.last_group_index == pre.last_group_index,
                self.signature_task == pre.signature_task,
                self.dkg_task == pre.dkg_task,
                self.coordinators@ == pre.coordinators@,
                self.epoch == pre.epoch,
            decreases partial_signatures@.len() - w,
        {
            let ghost before_rewards = self.rewards@;
            proof {
                assert(has_reward(pre.rewards@, partial_signatures@[w as int].0@));
                let rw = choose|rw: int|
                    0 <= rw < pre.rewards@.len() && pre.rewards@[rw].id_address@
                        == partial_signatures@[w as int].0@;
                assert(self.rewards@[rw].id_address@ == partial_signatures@[w as int].0@);
                assert(has_reward(self.rewards@, partial_signatures@[w as int].0@));
            }
            self.credit_reward(&partial_signatures[w].0, REWARD_PER_SIGNATURE);
            proof {
                let key_w = keys[w as int];
                let wi = reward_idx(before_rewards, key_w);
                reward_idx_is(
                    before_rewards,
                    key_w,
                    choose|rw: int|
                        0 <= rw < before_rewards.len() && before_rewards[rw].id_address@ == key_w,
                );
                assert(keys.take(w + 1 as int) =~= keys.take(w as int).push(key_w));
                assert forall|k: int|
                    0 <= k < pre.rewards@.len() implies (#[trigger] self.rewards@[k]).amount
                        == ({
                        let with_committer = if pre.rewards@[k].id_address@ == id_address@ {
                            pre.rewards@[k].amount.saturating_add(COMMITTER_REWARD_PER_SIGNATURE)
                        } else {
                            pre.rewards@[k].amount
                        };
                        if keys.take(w + 1 as int).contains(pre.rewards@[k].id_address@) {
                            with_committer.saturating_add(REWARD_PER_SIGNATURE)
                        } else {
                            with_committer
                        }
                    }) by {
                    let ta = keys.take(w + 1 as int);
                    let tb = keys.take(w as int);
                    if pre.rewards@[k].id_address@ == key_w {
                        assert(k == wi) by {
                            if k != wi {
                                assert(before_rewards[k].id_address@
                                    == before_rewards[wi].id_address@);
                            }
                        }
                        assert(!tb.contains(key_w)) by {
                            if tb.contains(key_w) {
                                let t2 = choose|t2: int| 0 <= t2 < tb.len() && tb[t2] == key_w;
                                assert(keys[t2] == keys[w as int]);
                                assert(partial_signatures@[t2].0@
                                    == partial_signatures@[w as int].0@);
                            }
                        }
                        assert(ta[w as int] == key_w);
                        assert(ta.contains(pre.rewards@[k].id_address@));
                    } else {
                        assert(self.rewards@[k] == before_rewards[k]);
                        assert(tb.contains(pre.rewards@[k].id_address@) == ta.contains(
                            pre.rewards@[k].id_address@,
                        )) by {
                            if ta.contains(pre.rewards@[k].id_address@) {
                                let t2 = choose|t2: int|
                                    0 <= t2 < ta.len() && ta[t2] == pre.rewards@[k].id_address@;
                                assert(t2 < w);
                                assert(tb[t2] == pre.rewards@[k].id_address@);
                                assert(tb.contains(pre.rewards@[k].id_address@));
                            }
                            if tb.contains(pre.rewards@[k].id_address@) {
                                let t2 = choose|t2: int|
                                    0 <= t2 < tb.len() && tb[t2] == pre.rewards@[k].id_address@;
                                assert(ta[t2] == pre.rewards@[k].id_address@);
                                assert(ta.contains(pre.rewards@[k].id_address@));
                            }
                        }
                    }
                }
            }
            w = w + 1;
        }
        proof {
            assert(keys.take(keys.len() as int) =~= keys);
        }
        self.last_output = utils::calculate_hash_bytes(&signature);
        let group_snapshot = clone_group(&self.groups[group_index - 1]);
        let ghost snap_view = group_snapshot@;
        proof {
            assert(snap_view == pre.groups@[group_index - 1]@);
        }
        let expiration = self.block_height.saturating_add(SIGNATURE_REWARDS_VALIDATION_WINDOW);
        let ghost pre_vsrs = self.verifiable_signature_rewards@;
        let task = self.pending_signature_tasks.remove(k);
        proof {
            assert forall|a: int, b: int|
                0 <= a < b < self.pending_signature_tasks@.len()
                    implies self.pending_signature_tasks@[a].index
                    != self.pending_signature_tasks@[b].index by {
                let a0 = if a < k as int { a } else { a + 1 };
                let b0 = if b < k as int { b } else { b + 1 };
                assert(self.pending_signature_tasks@[a]
                    == pre.pending_signature_tasks@[a0]);
                assert(self.pending_signature_tasks@[b]
                    == pre.pending_signature_tasks@[b0]);
            }
            assert forall|a: int|
                0 <= a < self.pending_signature_tasks@.len()
                    implies (#[trigger] self.pending_signature_tasks@[a]).index
                    != signature_index by {
                let a0 = if a < k as int { a } else { a + 1 };
                assert(self.pending_signature_tasks@[a]
                    == pre.pending_signature_tasks@[a0]);
                if pre.pending_signature_tasks@[a0].index == signature_index && a0 != k as int {
                    if a0 < k as int {
                        assert(pre.pending_signature_tasks@[a0].index
                            != pre.pending_signature_tasks@[k as int].index);
                    } else {
                        assert(pre.pending_signature_tasks@[k as int].index
                            != pre.pending_signature_tasks@[a0].index);
                    }
                }
            }
        }
        let signature_reward = SignatureReward {
            signature_task: task,
            expiration_block_height: expiration,
            committer: id_address.clone(),
            group: group_snapshot,
            partial_signatures,
        };
        self.verifiable_signature_rewards.push(signature_reward);
        proof {
            let vs = self.verifiable_signature_rewards@;
            assert(vs[vs.len() - 1].signature_task.index == signature_index);
            assert forall|a: int, b: int|
                0 <= a < b < vs.len() implies vs[a].signature_task.index
                    != vs[b].signature_task.index by {
                if b < vs.len() - 1 {
                    assert(vs[a] == pre_vsrs[a]);
                    assert(vs[b] == pre_vsrs[b]);
                } else {
                    assert(vs[a] == pre_vsrs[a]);
                    assert(pre.pending_signature_tasks@[k as int].index
                        != pre_vsrs[a].signature_task.index);
                }
            }
            let last = vs[vs.len() - 1];
            assert(last.group@ == snap_view);
            assert(last.committer@ == id_address@);
            assert(vsr_wf(last, self.nodes@)) by {
                assert(self.nodes@ == pre.nodes@);
                assert(has_node(pre.nodes@, id_address@));
                let pregd = pre.groups@[group_index - 1];
                assert(pregd@ == snap_view);
                assert(pregd@.members.len() == pregd.members@.len());
                assert(last.group@.members.len() == last.group.members@.len());
                assert forall|a: int, b: int|
                    0 <= a < b < last.group.members@.len() implies (#[trigger] last.group.members@[a]).id_address@
                        != (#[trigger] last.group.members@[b]).id_address@ by {
                    assert(last.group@.members[a] == last.group.members@[a]@);
                    assert(last.group@.members[b] == last.group.members@[b]@);
                    assert(pregd@.members[a] == pregd.members@[a]@);
                    assert(pregd@.members[b] == pregd.members@[b]@);
                    assert(last.group.members@[a]@ == pregd.members@[a]@);
                    assert(last.group.members@[b]@ == pregd.members@[b]@);
                    assert(pregd.members@[a].id_address@ != pregd.members@[b].id_address@);
                }
                let cn = choose|cn: int|
                    0 <= cn < pre.nodes@.len() && pre.nodes@[cn].id_address@ == id_address@;
                assert(pre.nodes@[cn].id_address@ == id_address@);
                assert(has_node(self.nodes@, last.committer@)) by {
                    assert(self.nodes@[cn].id_address@ == last.committer@);
                }
                assert forall|t: int|
                    0 <= t < last.partial_signatures@.len() implies has_member(
                        last.group,
                        (#[trigger] last.partial_signatures@[t]).0@,
                    ) by {
                    assert(last.partial_signatures@ == partial_signatures@);
                    assert(last.partial_signatures@[t] == partial_signatures@[t]);
                    assert(has_member(
                        pre.groups@[group_index - 1],
                        partial_signatures@[t].0@,
                    ));
                    let preg = pre.groups@[group_index - 1];
                    let wq = choose|wq: int|
                        0 <= wq < preg.members@.len() && preg.members@[wq].id_address@
                            == last.partial_signatures@[t].0@;
                    assert(preg@ == snap_view);
                    assert(preg@.members[wq] == preg.members@[wq]@);
                    assert(last.group@.members == snap_view.members);
                    assert(preg@.members.len() == preg.members@.len());
                    assert(last.group@.members.len() == last.group.members@.len());
                    assert(last.group.members@.len() == preg.members@.len());
                    assert(last.group@.members[wq] == preg.members@[wq]@);
                    assert(last.group@.members[wq] == last.group.members@[wq]@);
                    assert(last.group.members@[wq]@ == preg.members@[wq]@);
                    assert(last.group.members@[wq]@.id_address == preg.members@[wq].id_address@);
                    assert(last.group.members@[wq].id_address@ == partial_signatures@[t].0@);
                    assert(has_member(last.group, last.partial_signatures@[t].0@)) by {
                        assert(last.group.members@[wq].id_address@
                            == last.partial_signatures@[t].0@);
                    }
                }
            }
            assert forall|a: int|
                0 <= a < vs.len() implies vsr_wf(#[trigger] vs[a], self.nodes@) by {
                if a < vs.len() - 1 {
                    assert(vs[a] == pre_vsrs[a]);
                    assert(vsr_wf(pre_vsrs[a], pre.nodes@));
                }
            }
            assert forall|i: int, j: int|
                0 <= i < self.pending_signature_tasks@.len() && 0 <= j < vs.len()
                    implies self.pending_signature_tasks@[i].index
                    != vs[j].signature_task.index by {
                let i0 = if i < k as int { i } else { i + 1 };
                assert(self.pending_signature_tasks@[i] == pre.pending_signature_tasks@[i0]);
                if j < vs.len() - 1 {
                    assert(vs[j] == pre_vsrs[j]);
                } else {
                    assert(vs[j].signature_task.index == signature_index);
                    if pre.pending_signature_tasks@[i0].index == signature_index {
                        if i0 < k as int {
                            assert(pre.pending_signature_tasks@[i0].index
                                != pre.pending_signature_tasks@[k as int].index);
                        } else {
                            assert(pre.pending_signature_tasks@[k as int].index
                                != pre.pending_signature_tasks@[i0].index);
                        }
                    }
                }
            }
            assert(self.inv());
            vsr_idx_is(vs, signature_index as int, vs.len() - 1);
        }
        Ok(())
    }
}

impl Controller {
    /// Re-verify every partial signature behind a verifiable reward. The
    /// first invalid partial slashes the committer, credits the challenger
    /// and drops the reward (`Ok`); when every partial withstands the check
    /// the reward is dropped and `SignatureRewardVerifiedSuccessfully` is
    /// returned, and nobody is slashed.
    #[verifier::rlimit(100)]
    #[verifier::spinoff_prover]
    pub fn challenge_verifiable_reward(&mut self, id_address: &String, signature_index: usize)
        -> (r: ControllerResult<()>)
        requires
            old(self).inv(),
        ensures
            final(self).inv(),
            !has_vsr(old(self).verifiable_signature_rewards@, signature_index as int) ==> r
                == ControllerResult::<()>::Err(
                ControllerError::VerifiableSignatureRewardNotExisted,
            ) && *final(self) == *old(self),
            // a reward that verifies successfully slashes nobody
            r == ControllerResult::<()>::Err(
                ControllerError::SignatureRewardVerifiedSuccessfully,
            ) ==> final(self).nodes@ == old(self).nodes@ && final(self).rewards@ == old(self).rewards@ && !has_vsr(
                final(self).verifiable_signature_rewards@,
                signature_index as int,
            ),
            // the reward is dropped on every outcome
            has_vsr(old(self).verifiable_signature_rewards@, signature_index as int) ==> !has_vsr(
                final(self).verifiable_signature_rewards@,
                signature_index as int,
            ),
            // a reward whose partials all withstand the check is reported
            // verified, and one with an invalid partial is struck
            has_vsr(old(self).verifiable_signature_rewards@, signature_index as int) ==> ({
                let v = old(self).verifiable_signature_rewards@[vsr_idx(
                    old(self).verifiable_signature_rewards@,
                    signature_index as int,
                )];
                if forall|t: int|
                    0 <= t < v.partial_signatures@.len() ==> bls::partial_signature_valid(
                        v.group.members@[member_idx(
                            v.group,
                            (#[trigger] v.partial_signatures@[t]).0@,
                        )].partial_public_key@,
                        v.signature_task.message@,
                        v.partial_signatures@[t].1@,
                    ) {
                    r == ControllerResult::<()>::Err(
                        ControllerError::SignatureRewardVerifiedSuccessfully,
                    )
                } else {
                    r is Ok
                }
            }),
            // a successful challenge slashes the committer and pays the challenger
            r is Ok ==> ({
                let v = old(self).verifiable_signature_rewards@[vsr_idx(
                    old(self).verifiable_signature_rewards@,
                    signature_index as int,
                )];
                &&& has_vsr(old(self).verifiable_signature_rewards@, signature_index as int)
                &&& (exists|t: int|
                    0 <= t < v.partial_signatures@.len() && !bls::partial_signature_valid(
                        v.group.members@[member_idx(
                            v.group,
                            (#[trigger] v.partial_signatures@[t]).0@,
                        )].partial_public_key@,
                        v.signature_task.message@,
                        v.partial_signatures@[t].1@,
                    ))
                &&& !has_vsr(final(self).verifiable_signature_rewards@, signature_index as int)
                &&& has_reward(final(self).rewards@, id_address@)
                &&& (has_reward(old(self).rewards@, id_address@) ==> final(self).rewards@[
                    reward_idx(old(self).rewards@, id_address@)].amount == old(self).rewards@[
                    reward_idx(old(self).rewards@, id_address@)].amount.saturating_add(
                    CHALLENGE_REWARD_PER_SIGNATURE,
                ))
                &&& (!has_reward(old(self).rewards@, id_address@) ==> final(self).rewards@.last().id_address@
                    == id_address@ && final(self).rewards@.last().amount
                    == CHALLENGE_REWARD_PER_SIGNATURE)
                &&& ({
                    let i = node_idx(old(self).nodes@, v.committer@);
                    final(self).nodes@[i].staking == old(self).nodes@[i].staking.saturating_sub(
                        COMMITTER_PENALTY_PER_SIGNATURE,
                    )
                })
            }),
            r is Err ==> final(self).nodes@ == old(self).nodes@,
    {
        let ghost pre = *old(self);
        let vk = match self.find_vsr(signature_index) {
            Some(vk) => vk,
            None => {
                return Err(ControllerError::VerifiableSignatureRewardNotExisted);
            },
        };
        proof {
            vsr_idx_is(self.verifiable_signature_rewards@, signature_index as int, vk as int);
        }
        let mut t: usize = 0;
        let n_partials = self.verifiable_signature_rewards[vk].partial_signatures.len();
        let mut bad: Option<usize> = None;
        while t < n_partials && bad.is_none()
            invariant
                self.inv(),
                *self == pre,
                pre == *old(self),
                vk < self.verifiable_signature_rewards@.len(),
                self.verifiable_signature_rewards@[vk as int].signature_task.index
                    == signature_index,
                n_partials == self.verifiable_signature_rewards@[vk as int].partial_signatures@.len(),
                t <= n_partials,
                bad is Some ==> 0 <= bad->0 < n_partials && !bls::partial_signature_valid(
                    self.verifiable_signature_rewards@[vk as int].group.members@[member_idx(
                        self.verifiable_signature_rewards@[vk as int].group,
                        self.verifiable_signature_rewards@[vk as int].partial_signatures@[
                            bad->0 as int].0@,
                    )].partial_public_key@,
                    self.verifiable_signature_rewards@[vk as int].signature_task.message@,
                    self.verifiable_signature_rewards@[vk as int].partial_signatures@[
                        bad->0 as int].1@,
                ),
                bad is None ==> forall|u: int|
                    0 <= u < t ==> bls::partial_signature_valid(
                        self.verifiable_signature_rewards@[vk as int].group.members@[member_idx(
                            self.verifiable_signature_rewards@[vk as int].group,
                            (#[trigger] self.verifiable_signature_rewards@[vk as int].partial_signatures@[u]).0@,
                        )].partial_public_key@,
                        self.verifiable_signature_rewards@[vk as int].signature_task.message@,
                        self.verifiable_signature_rewards@[vk as int].partial_signatures@[u].1@,
                    ),
            decreases n_partials - t + (if bad is Some {
                0int
            } else {
                1int
            }),
        {
            let vsr = &self.verifiable_signature_rewards[vk];
            let member_address = &vsr.partial_signatures[t].0;
            let mp = match find_member(&vsr.group, member_address) {
                Some(mp) => mp,
                None => {
                    proof {
                        assert(false);
                    }
                    0
                },
            };
            proof {
                member_idx_is(vsr.group, member_address@, mp as int);
            }
            let valid = bls::bls_partial_verify(
                &vsr.group.members[mp].partial_public_key,
                vsr.signature_task.message.as_str(),
                &vsr.partial_signatures[t].1,
            );
            if !valid {
                bad = Some(t);
            } else {
                t = t + 1;
            }
        }
        match bad {
            Some(_) => {
                let committer = self.verifiable_signature_rewards[vk].committer.clone();
                proof {
                    assert(has_node(self.nodes@, committer@));
                }
                let sr = self.slash_node(&committer, COMMITTER_PENALTY_PER_SIGNATURE, 0, true);
                proof {
                    assert(sr is Ok);
                    node_idx_is(
                        pre.nodes@,
                        committer@,
                        node_idx(pre.nodes@, committer@),
                    );
                }
                self.credit_reward(id_address, CHALLENGE_REWARD_PER_SIGNATURE);
                self.remove_vsr(signature_index);
                Ok(())
            },
            None => {
                self.remove_vsr(signature_index);
                Err(ControllerError::SignatureRewardVerifiedSuccessfully)
            },
        }
    }

    /// Drop the verifiable reward for a given task index, if one exists.
    fn remove_vsr(&mut self, signature_index: usize)
        requires
            old(self).inv(),
        ensures
            final(self).inv(),
            !has_vsr(final(self).verifiable_signature_rewards@, signature_index as int),
            (*final(self) == Controller {
                verifiable_signature_rewards: final(self).verifiable_signature_rewards,
                ..*old(self)
            }),
    {
        match self.find_vsr(signature_index) {
            Some(k) => {
                let ghost prev = self.verifiable_signature_rewards@;
                let _ = self.verifiable_signature_rewards.remove(k);
                proof {
                    let vs = self.verifiable_signature_rewards@;
                    assert forall|a: int, b: int|
                        0 <= a < b < vs.len() implies vs[a].signature_task.index
                            != vs[b].signature_task.index by {
                        let a0 = if a < k as int { a } else { a + 1 };
                        let b0 = if b < k as int { b } else { b + 1 };
                        assert(vs[a] == prev[a0]);
                        assert(vs[b] == prev[b0]);
                    }
                    assert forall|a: int|
                        0 <= a < vs.len() implies (#[trigger] vs[a]).signature_task.index
                            != signature_index by {
                        let a0 = if a < k as int { a } else { a + 1 };
                        assert(vs[a] == prev[a0]);
                        if prev[a0].signature_task.index == signature_index && a0 != k as int {
                            if a0 < k as int {
                                assert(prev[a0].signature_task.index
                                    != prev[k as int].signature_task.index);
                            } else {
                                assert(prev[k as int].signature_task.index
                                    != prev[a0].signature_task.index);
                            }
                        }
                    }
                    assert forall|a: int|
                        0 <= a < vs.len() implies vsr_wf(#[trigger] vs[a], self.nodes@) by {
                        let a0 = if a < k as int { a } else { a + 1 };
                        assert(vs[a] == prev[a0]);
                        assert(vsr_wf(prev[a0], self.nodes@));
                    }
                    assert forall|i: int, j: int|
                        0 <= i < self.pending_signature_tasks@.len() && 0 <= j < vs.len()
                            implies self.pending_signature_tasks@[i].index
                            != vs[j].signature_task.index by {
                        let j0 = if j < k as int { j } else { j + 1 };
                        assert(vs[j] == prev[j0]);
                    }
                    assert forall|a: int|
                        0 <= a < vs.len() implies (#[trigger] vs[a]).signature_task.index
                            < self.signature_count by {
                        let a0 = if a < k as int { a } else { a + 1 };
                        assert(vs[a] == prev[a0]);
                    }
                    assert(self.inv());
                }
            },
            None => {},
        }
    }
}

impl Controller {
    /// Sweep a group whose DKG round has run out of time: callable by anyone
    /// once the coordinator's four phase windows have elapsed and the group
    /// is still not ready. With no strict majority the group is wiped (all
    /// members dropped and slashed); with one, only the majority stays and
    /// the rest are dropped and slashed. The caller earns the trigger
    /// reward and the coordinator instance is discarded.
    #[verifier::rlimit(100)]
    #[verifier::spinoff_prover]
    pub fn check_dkg_state(&mut self, id_address: &String, group_index: usize) -> (r:
        ControllerResult<()>)
        requires
            old(self).inv(),
        ensures
            final(self).inv(),
            !(1 <= group_index <= old(self).groups@.len()) ==> r == ControllerResult::<()>::Err(
                ControllerError::GroupNotExisted,
            ) && *final(self) == *old(self),
            (1 <= group_index <= old(self).groups@.len() && old(self).groups@[group_index
                - 1].state) ==> r == ControllerResult::<()>::Err(ControllerError::GroupActivated)
                && *final(self) == *old(self),
            (1 <= group_index <= old(self).groups@.len() && !old(self).groups@[group_index
                - 1].state && !has_coordinator(old(self).coordinators@, group_index as int)) ==> r
                == ControllerResult::<()>::Err(ControllerError::CoordinatorNotExisted) && *final(self) == *old(self),
            (1 <= group_index <= old(self).groups@.len() && !old(self).groups@[group_index
                - 1].state && has_coordinator(old(self).coordinators@, group_index as int)) ==> ({
                let coordinator = old(self).coordinators@[coordinator_idx(
                    old(self).coordinators@,
                    group_index as int,
                )].coordinator;
                let group_epoch = old(self).groups@[group_index - 1].epoch;
                &&& (coordinator.epoch < group_epoch ==> r == ControllerResult::<()>::Err(
                    ControllerError::CoordinatorEpochObsolete(group_epoch),
                ) && *final(self) == *old(self))
                &&& (coordinator.epoch >= group_epoch && coordinator.spec_phase() <= 4 ==> r
                    == ControllerResult::<()>::Err(ControllerError::CoordinatorNotEnded)
                    && *final(self) == *old(self))
                &&& (coordinator.epoch >= group_epoch && coordinator.spec_phase() == 5 ==> r
                    is Ok)
            }),
            r is Ok ==> ({
                let g0 = old(self).groups@[group_index - 1];
                let g1 = final(self).groups@[group_index - 1];
                &&& !g0.state
                &&& old(self).coordinators@[coordinator_idx(
                    old(self).coordinators@,
                    group_index as int,
                )].coordinator.spec_phase() == 5
                &&& !has_coordinator(final(self).coordinators@, group_index as int)
                &&& has_reward(final(self).rewards@, id_address@)
                &&& (!has_strict_majority(g0.commit_cache@) ==> g1.members@.len() == 0
                    && g1.size == 0)
                &&& (has_strict_majority(g0.commit_cache@) ==> (exists|i: int|
                    0 <= i < g0.commit_cache@.len() && #[trigger] is_strict_majority_at(
                        g0.commit_cache@,
                        i,
                    ) && (forall|k: int|
                        0 <= k < g0.members@.len() ==> (has_member(
                            g1,
                            (#[trigger] g0.members@[k]).id_address@,
                        ) <==> matching_ids(
                            g0.commit_cache@,
                            g0.commit_cache@[i].cache.commit_result@,
                        ).contains(g0.members@[k].id_address@)))))
                &&& (has_reward(old(self).rewards@, id_address@) ==> final(self).rewards@[
                    reward_idx(old(self).rewards@, id_address@)].amount == old(self).rewards@[
                    reward_idx(old(self).rewards@, id_address@)].amount.saturating_add(
                    COORDINATOR_STATE_TRIGGER_REWARD,
                ))
                &&& (!has_reward(old(self).rewards@, id_address@) ==> final(self).rewards@.last().id_address@
                    == id_address@ && final(self).rewards@.last().amount
                    == COORDINATOR_STATE_TRIGGER_REWARD)
                &&& final(self).nodes@.len() == old(self).nodes@.len()
                &&& forall|i: int|
                    0 <= i < old(self).nodes@.len() ==> (#[trigger] final(self).nodes@[i]).id_address@
                        == old(self).nodes@[i].id_address@
                &&& forall|i: int|
                    0 <= i < old(self).nodes@.len() && !has_member(
                        g0,
                        (#[trigger] old(self).nodes@[i]).id_address@,
                    ) ==> final(self).nodes@[i].staking == old(self).nodes@[i].staking
                &&& forall|i: int|
                    0 <= i < old(self).nodes@.len() && has_member(
                        g0,
                        (#[trigger] old(self).nodes@[i]).id_address@,
                    ) && !has_member(g1, old(self).nodes@[i].id_address@) ==> final(self).nodes@[i].staking
                        == old(self).nodes@[i].staking.saturating_sub(DISQUALIFIED_NODE_PENALTY)
                &&& final(self).pending_signature_tasks@ == old(self).pending_signature_tasks@
                &&& final(self).verifiable_signature_rewards@ == old(self).verifiable_signature_rewards@
                &&& final(self).block_height == old(self).block_height
                &&& final(self).last_output == old(self).last_output
                &&& final(self).signature_count == old(self).signature_count
            }),
    {
        let ghost pre = *old(self);
        if group_index < 1 || self.groups.len() < group_index {
            return Err(ControllerError::GroupNotExisted);
        }
        if self.groups[group_index - 1].state {
            return Err(ControllerError::GroupActivated);
        }
        let ck = match self.find_coordinator(group_index) {
            Some(ck) => ck,
            None => {
                return Err(ControllerError::CoordinatorNotExisted);
            },
        };
        proof {
            coordinator_idx_is(self.coordinators@, group_index as int, ck as int);
        }
        if self.coordinators[ck].coordinator.epoch < self.groups[group_index - 1].epoch {
            return Err(ControllerError::CoordinatorEpochObsolete(self.groups[group_index
                - 1].epoch));
        }
        if self.coordinators[ck].coordinator.in_phase().is_ok() {
            return Err(ControllerError::CoordinatorNotEnded);
        }
        proof {
            assert(self.coordinators@[ck as int].coordinator.spec_phase() == 5);
        }
        let (majority, majority_members) = self.get_strictly_majority_identical_commitment_result(
            group_index,
        );
        let ghost g0 = pre.groups@[group_index - 1];
        // the members that do not stay: everyone without a seat in the majority
        let mut to_drop: Vec<String> = Vec::new();
        let mut mi: usize = 0;
        let n_members = self.groups[group_index - 1].members.len();
        while mi < n_members
            invariant
                *self == pre,
                pre.inv(),
                1 <= group_index <= self.groups@.len(),
                g0 == pre.groups@[group_index - 1],
                n_members == g0.members@.len(),
                mi <= n_members,
                forall|a: int, b: int|
                    0 <= a < b < to_drop@.len() ==> to_drop@[a]@ != to_drop@[b]@,
                forall|k: int| 0 <= k < to_drop@.len() ==> has_member(g0, (#[trigger] to_drop@[k])@),
                majority is None ==> forall|k: int|
                    0 <= k < mi ==> to_drop.deep_view().contains(
                        (#[trigger] g0.members@[k]).id_address@,
                    ),
                majority is Some ==> forall|k: int|
                    0 <= k < to_drop@.len() ==> !majority_members.deep_view().contains(
                        (#[trigger] to_drop@[k])@,
                    ),
                majority is Some ==> forall|k: int|
                    0 <= k < mi ==> (majority_members.deep_view().contains(
                        (#[trigger] g0.members@[k]).id_address@,
                    ) || to_drop.deep_view().contains(g0.members@[k].id_address@)),
            decreases n_members - mi,
        {
            let member_address = self.groups[group_index - 1].members[mi].id_address.clone();
            let keep = match &majority {
                Some(_) => vec_contains_string(&majority_members, &member_address),
                None => false,
            };
            let ghost before_ids = to_drop.deep_view();
            if !keep && !vec_contains_string(&to_drop, &member_address) {
                proof {
                    assert(g0.members@[mi as int].id_address@ == member_address@);
                    assert(has_member(g0, member_address@));
                }
                to_drop.push(member_address);
                proof {
                    assert forall|a: int, b: int|
                        0 <= a < b < to_drop@.len() implies to_drop@[a]@ != to_drop@[b]@ by {
                        if b == to_drop@.len() - 1 {
                            assert(before_ids[a] == to_drop@[a]@);
                            assert(!before_ids.contains(to_drop@[b]@));
                        }
                    }
                }
            }
            proof {
                let ids_now = to_drop.deep_view();
                assert forall|w: int|
                    0 <= w < before_ids.len() implies ids_now.contains(
                    #[trigger] before_ids[w],
                ) by {
                    assert(ids_now[w] == before_ids[w]);
                }
                if !keep {
                    assert(ids_now.contains(member_address@)) by {
                        if before_ids.contains(member_address@) {
                            let w = choose|w: int|
                                0 <= w < before_ids.len() && before_ids[w] == member_address@;
                            assert(ids_now.contains(before_ids[w]));
                        } else {
                            assert(ids_now[ids_now.len() - 1] == member_address@);
                        }
                    }
                }
                if majority is None {
                    assert forall|k: int|
                        0 <= k <= mi implies ids_now.contains(
                            (#[trigger] g0.members@[k]).id_address@,
                        ) by {
                        if k < mi {
                            assert(before_ids.contains(g0.members@[k].id_address@));
                            let w = choose|w: int|
                                0 <= w < before_ids.len() && before_ids[w]
                                    == g0.members@[k].id_address@;
                            assert(ids_now.contains(before_ids[w]));
                        } else {
                            assert(g0.members@[k].id_address@ == member_address@);
                        }
                    }
                } else {
                    assert forall|k: int|
                        0 <= k <= mi implies (majority_members.deep_view().contains(
                            (#[trigger] g0.members@[k]).id_address@,
                        ) || ids_now.contains(g0.members@[k].id_address@)) by {
                        if k < mi {
                            if !majority_members.deep_view().contains(
                                g0.members@[k].id_address@,
                            ) {
                                assert(before_ids.contains(g0.members@[k].id_address@));
                                let w = choose|w: int|
                                    0 <= w < before_ids.len() && before_ids[w]
                                        == g0.members@[k].id_address@;
                                assert(ids_now.contains(before_ids[w]));
                            }
                        } else {
                            assert(g0.members@[k].id_address@ == member_address@);
                        }
                    }
                }
            }
            mi = mi + 1;
        }
        // drop them from the group and slash them
        let ghost drop_ids = to_drop.deep_view();
        proof {
            assert forall|k: int|
                0 <= k < drop_ids.len() implies has_member(g0, #[trigger] drop_ids[k]) by {
                assert(drop_ids[k] == to_drop@[k]@);
            }
            assert forall|a: int, b: int|
                0 <= a < b < drop_ids.len() implies drop_ids[a] != drop_ids[b] by {
                assert(drop_ids[a] == to_drop@[a]@ && drop_ids[b] == to_drop@[b]@);
            }
            assert(drop_ids.take(0) =~= Seq::<Seq<char>>::empty());
        }
        let mut e: usize = 0;
        while e < to_drop.len()
            invariant
                pre == *old(self),
                pre.inv(),
                g0 == pre.groups@[group_index - 1],
                self.inv(),
                1 <= group_index <= self.groups@.len(),
                self.groups@.len() == pre.groups@.len(),
                e <= to_drop@.len(),
                drop_ids == to_drop.deep_view(),
                drop_ids.len() == to_drop@.len(),
                forall|k: int| 0 <= k < to_drop@.len() ==> (#[trigger] to_drop@[k])@ == drop_ids[k],
                forall|a: int, b: int|
                    0 <= a < b < drop_ids.len() ==> drop_ids[a] != drop_ids[b],
                forall|k: int| 0 <= k < drop_ids.len() ==> has_member(g0, #[trigger] drop_ids[k]),
                forall|id2: Seq<char>|
                    has_member(self.groups@[group_index - 1], id2) == (has_member(g0, id2)
                        && !drop_ids.take(e as int).contains(id2)),
                self.groups@[group_index - 1].members@.len() == g0.members@.len() - e,
                !self.groups@[group_index - 1].state,
                forall|j: int|
                    0 <= j < pre.groups@.len() && j != group_index - 1 ==> self.groups@[j]
                        == pre.groups@[j],
                self.nodes@ == pre.nodes@,
                self.rewards@ == pre.rewards@,
                self.pending_signature_tasks@ == pre.pending_signature_tasks@,
                self.verifiable_signature_rewards@ == pre.verifiable_signature_rewards@,
                self.block_height == pre.block_height,
                self.last_output == pre.last_output,
                self.signature_count == pre.signature_count,
                self.last_group_index == pre.last_group_index,
                self.signature_task == pre.signature_task,
                self.coordinators@ == pre.coordinators@,
            decreases to_drop@.len() - e,
        {
            let addr = to_drop[e].clone();
            proof {
                assert(addr@ == drop_ids[e as int]);
                assert(has_member(g0, addr@));
                if drop_ids.take(e as int).contains(addr@) {
                    let tb = drop_ids.take(e as int);
                    let w = choose|w: int| 0 <= w < tb.len() && tb[w] == addr@;
                    assert(drop_ids[w] == drop_ids[e as int]);
                }
                assert(has_member(self.groups@[group_index - 1], addr@));
            }
            let ghost gb = self.groups@[group_index - 1];
            let rr = self.remove_from_group(&addr, group_index, false);
            proof {
                assert(rr is Ok);
                let kk = member_idx(gb, addr@);
                lemma_member_removed(gb, self.groups@[group_index - 1], kk);
                let ta = drop_ids.take(e + 1 as int);
                let tb = drop_ids.take(e as int);
                assert(ta =~= tb.push(addr@));
                assert forall|id2: Seq<char>|
                    has_member(self.groups@[group_index - 1], id2) == (has_member(g0, id2)
                        && !ta.contains(id2)) by {
                    if id2 == addr@ {
                        assert(ta[e as int] == addr@);
                        assert(ta.contains(id2));
                        assert(!has_member(self.groups@[group_index - 1], id2));
                    } else {
                        assert(has_member(self.groups@[group_index - 1], id2) == has_member(
                            gb,
                            id2,
                        ));
                        if ta.contains(id2) {
                            let w = choose|w: int| 0 <= w < ta.len() && ta[w] == id2;
                            assert(w < e);
                            assert(tb[w] == id2);
                            assert(tb.contains(id2));
                        }
                        if tb.contains(id2) {
                            let w = choose|w: int| 0 <= w < tb.len() && tb[w] == id2;
                            assert(ta[w] == id2);
                            assert(ta.contains(id2));
                        }
                    }
                }
            }
            e = e + 1;
        }
        let ghost g_after_drop = self.groups@[group_index - 1];
        proof {
            assert(drop_ids.take(drop_ids.len() as int) =~= drop_ids);
            assert forall|id2: Seq<char>|
                has_member(g_after_drop, id2) == (has_member(g0, id2) && !drop_ids.contains(
                    id2,
                )) by {}
        }
        // wipe leaves nothing behind: with no majority every member left
        if majority.is_none() {
            proof {
                assert(drop_ids.take(drop_ids.len() as int) =~= drop_ids);
                if self.groups@[group_index - 1].members@.len() > 0 {
                    let some_m = self.groups@[group_index - 1].members@[0];
                    let some_id = some_m.id_address@;
                    assert(has_member(self.groups@[group_index - 1], some_id)) by {
                        assert(self.groups@[group_index - 1].members@[0].id_address@ == some_id);
                    }
                    assert(has_member(g0, some_id) && !drop_ids.contains(some_id));
                    let wm = choose|wm: int|
                        0 <= wm < g0.members@.len() && g0.members@[wm].id_address@ == some_id;
                    assert(drop_ids.contains(g0.members@[wm].id_address@));
                    assert(false);
                }
                assert(self.groups@[group_index - 1].members@.len() == 0);
            }
        }
        let gm = &mut self.groups[group_index - 1];
        if gm.members.len() == 0 {
            gm.size = 0;
            gm.threshold = 0;
        }
        proof {
            assert(group_wf(self.groups@[group_index - 1]));
            assert(self.inv());
        }
        // slash everyone who was dropped
        let ghost mid3 = *self;
        let ghost pre_nodes = pre.nodes@;
        proof {
            assert(drop_ids.take(drop_ids.len() as int) =~= drop_ids);
            assert(mid3.groups@[group_index - 1].members@
                == self.groups@[group_index - 1].members@);
            assert forall|id2: Seq<char>|
                drop_ids.contains(id2) implies !self.member_of_any(id2) by {
                if self.member_of_any(id2) {
                    let gx = choose|gx: int|
                        0 <= gx < self.groups@.len() && has_member(self.groups@[gx], id2);
                    if gx == group_index - 1 {
                        assert(!has_member(self.groups@[group_index - 1], id2));
                    } else {
                        let t = choose|t: int| 0 <= t < drop_ids.len() && drop_ids[t] == id2;
                        assert(has_member(g0, id2));
                        let wm = choose|wm: int|
                            0 <= wm < g0.members@.len() && g0.members@[wm].id_address@ == id2;
                        let wx = choose|wx: int|
                            0 <= wx < self.groups@[gx].members@.len()
                                && self.groups@[gx].members@[wx].id_address@ == id2;
                        assert(self.groups@[gx] == pre.groups@[gx]);
                        assert(pre.groups@[group_index - 1].members@[wm].id_address@
                            != pre.groups@[gx].members@[wx].id_address@);
                    }
                }
            }
        }
        let mut s: usize = 0;
        while s < to_drop.len()
            invariant
                pre == *old(self),
                pre.inv(),
                g0 == pre.groups@[group_index - 1],
                pre_nodes == pre.nodes@,
                self.groups@.len() == pre.groups@.len(),
                forall|k: int| 0 <= k < drop_ids.len() ==> has_member(g0, #[trigger] drop_ids[k]),
                self.inv(),
                1 <= group_index <= self.groups@.len(),
                s <= to_drop@.len(),
                drop_ids == to_drop.deep_view(),
                drop_ids.len() == to_drop@.len(),
                forall|k: int| 0 <= k < to_drop@.len() ==> (#[trigger] to_drop@[k])@ == drop_ids[k],
                forall|a: int, b: int|
                    0 <= a < b < drop_ids.len() ==> drop_ids[a] != drop_ids[b],
                self.groups@ == mid3.groups@,
                self.rewards@ == pre.rewards@,
                self.pending_signature_tasks@ == pre.pending_signature_tasks@,
                self.verifiable_signature_rewards@ == pre.verifiable_signature_rewards@,
                self.block_height == pre.block_height,
                self.last_output == pre.last_output,
                self.signature_count == pre.signature_count,
                self.last_group_index == pre.last_group_index,
                self.signature_task == pre.signature_task,
                self.coordinators@ == pre.coordinators@,
                self.nodes@.len() == pre_nodes.len(),
                forall|i: int|
                    0 <= i < pre_nodes.len() ==> (#[trigger] self.nodes@[i]).id_address@
                        == pre_nodes[i].id_address@,
                forall|i: int|
                    0 <= i < pre_nodes.len() && !drop_ids.contains(
                        (#[trigger] pre_nodes[i]).id_address@,
                    ) ==> self.nodes@[i] == pre_nodes[i],
                forall|i: int|
                    0 <= i < pre_nodes.len() && drop_ids.take(s as int).contains(
                        (#[trigger] pre_nodes[i]).id_address@,
                    ) ==> self.nodes@[i].staking == pre_nodes[i].staking.saturating_sub(
                        DISQUALIFIED_NODE_PENALTY,
                    ),
                forall|i: int|
                    0 <= i < pre_nodes.len() && drop_ids.contains(
                        (#[trigger] pre_nodes[i]).id_address@,
                    ) && !drop_ids.take(s as int).contains(pre_nodes[i].id_address@)
                        ==> self.nodes@[i] == pre_nodes[i],
                forall|id2: Seq<char>| drop_ids.contains(id2) ==> !self.member_of_any(id2),
            decreases to_drop@.len() - s,
        {
            let addr = to_drop[s].clone();
            proof {
                assert(addr@ == drop_ids[s as int]);
                assert(drop_ids.contains(addr@));
                assert(has_member(g0, addr@));
                let wm = choose|wm: int|
                    0 <= wm < g0.members@.len() && g0.members@[wm].id_address@ == addr@;
                assert(pre.groups@[group_index - 1].members@[wm].id_address@ == addr@);
                assert(has_node(pre.nodes@, pre.groups@[group_index
                    - 1].members@[wm].id_address@));
                assert(has_node(pre_nodes, addr@));
                let w = choose|w: int|
                    0 <= w < pre_nodes.len() && pre_nodes[w].id_address@ == addr@;
                assert(self.nodes@[w].id_address@ == addr@);
                assert(has_node(self.nodes@, addr@));
                node_idx_is(self.nodes@, addr@, w);
                assert(!self.member_of_any(addr@));
                if drop_ids.take(s as int).contains(addr@) {
                    let tb = drop_ids.take(s as int);
                    let t = choose|t: int| 0 <= t < tb.len() && tb[t] == addr@;
                    assert(drop_ids[t] == drop_ids[s as int]);
                }
                assert(self.nodes@[w] == pre_nodes[w]);
            }
            let ghost before = self.nodes@;
            let sr = self.slash_node(&addr, DISQUALIFIED_NODE_PENALTY, 0, false);
            proof {
                assert(sr is Ok);
                let w = node_idx(before, addr@);
                assert(drop_ids.take(s + 1 as int) =~= drop_ids.take(s as int).push(addr@));
                assert forall|i: int|
                    0 <= i < pre_nodes.len() && drop_ids.take(s + 1 as int).contains(
                        (#[trigger] pre_nodes[i]).id_address@,
                    ) implies self.nodes@[i].staking == pre_nodes[i].staking.saturating_sub(
                    DISQUALIFIED_NODE_PENALTY,
                ) by {
                    if pre_nodes[i].id_address@ == addr@ {
                        assert(i == w) by {
                            if i != w {
                                assert(before[i].id_address@ == before[w].id_address@);
                            }
                        }
                        assert(before[i] == pre_nodes[i]) by {
                            if drop_ids.take(s as int).contains(pre_nodes[i].id_address@) {
                                let tb = drop_ids.take(s as int);
                                let t = choose|t: int| 0 <= t < tb.len() && tb[t] == addr@;
                                assert(drop_ids[t] == drop_ids[s as int]);
                            }
                        }
                    } else {
                        let ta = drop_ids.take(s + 1 as int);
                        let tb = drop_ids.take(s as int);
                        assert(ta.contains(pre_nodes[i].id_address@));
                        let t = choose|t: int| 0 <= t < ta.len() && ta[t]
                            == pre_nodes[i].id_address@;
                        assert(t < s);
                        assert(tb[t] == pre_nodes[i].id_address@);
                        assert(tb.contains(pre_nodes[i].id_address@));
                        assert(before[i] == self.nodes@[i]);
                    }
                }
                assert forall|i: int|
                    0 <= i < pre_nodes.len() && drop_ids.contains(
                        (#[trigger] pre_nodes[i]).id_address@,
                    ) && !drop_ids.take(s + 1 as int).contains(pre_nodes[i].id_address@)
                        implies self.nodes@[i] == pre_nodes[i] by {
                    let ta = drop_ids.take(s + 1 as int);
                    let tb = drop_ids.take(s as int);
                    assert(pre_nodes[i].id_address@ != addr@) by {
                        if pre_nodes[i].id_address@ == addr@ {
                            assert(ta[s as int] == addr@);
                            assert(ta.contains(pre_nodes[i].id_address@));
                        }
                    }
                    assert(!tb.contains(pre_nodes[i].id_address@)) by {
                        if tb.contains(pre_nodes[i].id_address@) {
                            let t = choose|t: int|
                                0 <= t < tb.len() && tb[t] == pre_nodes[i].id_address@;
                            assert(ta[t] == pre_nodes[i].id_address@);
                            assert(ta.contains(pre_nodes[i].id_address@));
                        }
                    }
                    assert(before[i] == pre_nodes[i]);
                    assert(before[i].id_address@ != addr@);
                    assert(self.nodes@[i] == before[i]);
                }
                assert forall|id2: Seq<char>|
                    drop_ids.contains(id2) implies !self.member_of_any(id2) by {
                    if self.member_of_any(id2) {
                        let gx = choose|gx: int|
                            0 <= gx < self.groups@.len() && has_member(self.groups@[gx], id2);
                        assert(has_member(mid3.groups@[gx], id2));
                    }
                }
            }
            s = s + 1;
        }
        let ghost before_credit = *self;
        self.credit_reward(id_address, COORDINATOR_STATE_TRIGGER_REWARD);
        self.remove_coordinator(group_index);
        proof {
            assert(drop_ids.take(drop_ids.len() as int) =~= drop_ids);
            assert(before_credit.rewards@ == pre.rewards@);
            let g1 = self.groups@[group_index - 1];
            assert forall|i: int|
                0 <= i < pre_nodes.len() && has_member(g0, (#[trigger] pre_nodes[i]).id_address@)
                    && !has_member(g1, pre_nodes[i].id_address@) implies self.nodes@[i].staking
                == pre_nodes[i].staking.saturating_sub(DISQUALIFIED_NODE_PENALTY) by {
                let gm3f = mid3.groups@[group_index - 1];
                assert(g1.members@ == gm3f.members@);
                if !drop_ids.contains(pre_nodes[i].id_address@) {
                    assert(has_member(gm3f, pre_nodes[i].id_address@));
                    let wq = choose|wq: int|
                        0 <= wq < gm3f.members@.len() && gm3f.members@[wq].id_address@
                            == pre_nodes[i].id_address@;
                    assert(g1.members@[wq].id_address@ == pre_nodes[i].id_address@);
                    assert(has_member(g1, pre_nodes[i].id_address@));
                }
            }
            assert forall|i: int|
                0 <= i < pre_nodes.len() && !has_member(
                    g0,
                    (#[trigger] pre_nodes[i]).id_address@,
                ) implies self.nodes@[i].staking == pre_nodes[i].staking by {
                if drop_ids.contains(pre_nodes[i].id_address@) {
                    let t = choose|t: int|
                        0 <= t < drop_ids.len() && drop_ids[t] == pre_nodes[i].id_address@;
                    assert(has_member(g0, drop_ids[t]));
                }
            }
            // with a strict majority, exactly the majority set stays
            if has_strict_majority(g0.commit_cache@) {
                let cache = g0.commit_cache@;
                let e = choose|e: int|
                    0 <= e < cache.len() && (#[trigger] cache[e]).cache.commit_result@
                        == majority->0@ && is_strict_majority_at(cache, e);
                assert(majority_members.deep_view() == matching_ids(cache, majority->0@));
                assert(g1.members@ == g_after_drop.members@) by {
                    assert(g1.members@ == mid3.groups@[group_index - 1].members@);
                }
                assert forall|k: int|
                    0 <= k < g0.members@.len() implies (has_member(
                        g1,
                        (#[trigger] g0.members@[k]).id_address@,
                    ) <==> matching_ids(cache, cache[e].cache.commit_result@).contains(
                        g0.members@[k].id_address@,
                    )) by {
                    let idk = g0.members@[k].id_address@;
                    assert(has_member(g1, idk) == has_member(g_after_drop, idk)) by {
                        if has_member(g1, idk) {
                            let w = choose|w: int|
                                0 <= w < g1.members@.len() && g1.members@[w].id_address@ == idk;
                            assert(g_after_drop.members@[w].id_address@ == idk);
                        }
                        if has_member(g_after_drop, idk) {
                            let w = choose|w: int|
                                0 <= w < g_after_drop.members@.len()
                                    && g_after_drop.members@[w].id_address@ == idk;
                            assert(g1.members@[w].id_address@ == idk);
                        }
                    }
                    assert(has_member(g0, idk)) by {
                        assert(g0.members@[k].id_address@ == idk);
                    }
                    if drop_ids.contains(idk) {
                        let t = choose|t: int|
                            0 <= t < drop_ids.len() && drop_ids[t] == idk;
                        assert(to_drop@[t]@ == idk);
                        assert(!majority_members.deep_view().contains(idk));
                    } else {
                        assert(majority_members.deep_view().contains(idk));
                    }
                }
                assert(exists|i: int|
                    0 <= i < g0.commit_cache@.len() && #[trigger] is_strict_majority_at(
                        g0.commit_cache@,
                        i,
                    ) && (forall|k: int|
                        0 <= k < g0.members@.len() ==> (has_member(
                            g1,
                            (#[trigger] g0.members@[k]).id_address@,
                        ) <==> matching_ids(
                            g0.commit_cache@,
                            g0.commit_cache@[i].cache.commit_result@,
                        ).contains(g0.members@[k].id_address@)))) by {
                    assert(0 <= e < g0.commit_cache@.len() && is_strict_majority_at(
                        g0.commit_cache@,
                        e,
                    ) && (forall|k: int|
                        0 <= k < g0.members@.len() ==> (has_member(
                            g1,
                            (#[trigger] g0.members@[k]).id_address@,
                        ) <==> matching_ids(
                            g0.commit_cache@,
                            g0.commit_cache@[e].cache.commit_result@,
                        ).contains(g0.members@[k].id_address@))));
                }
            }
        }
        Ok(())
    }
}

/// Rebalancing is refused when the donor would be left below the default
/// minimum threshold: it keeps half of the two groups' joint membership,
/// so the rule is that the half falls short (or the sizes cannot even be
/// added on this machine).
pub open spec fn rebalance_refused(pre: Controller, ga: usize, gb: usize) -> bool {
    let total = pre.groups@[ga - 1].size + pre.groups@[gb - 1].size;
    total > usize::MAX || total / 2 < DEFAULT_MINIMUM_THRESHOLD
}

/// The deterministic round-robin pick: the first ready group met when
/// scanning the cyclic order of group positions that starts just after
/// `last` (1-based result; 0 when no group is ready).
pub open spec fn spec_round_robin(groups: Seq<Group>, last: int, j: nat) -> int
    decreases groups.len() - j,
{
    if j >= groups.len() {
        0
    } else {
        let cand = (last + groups.len() + j) % (groups.len() as int);
        if groups[cand].state {
            cand + 1
        } else {
            spec_round_robin(groups, last, j + 1)
        }
    }
}

/// The contributor addresses of a partial-signature list.
pub open spec fn partial_keys(ps: Seq<(String, Vec<u8>)>) -> Seq<Seq<char>> {
    ps.map_values(|p: (String, Vec<u8>)| p.0@)
}

/// Every check `fulfill_randomness` makes passes: the task pends, the
/// exclusive window does not bar the caller's group, the group exists and
/// lists the caller as a committer, its key is a curve point, the signature
/// verifies, and every party involved is registered with a reward balance.
pub open spec fn fulfilment_accepted(
    pre: Controller,
    id: Seq<char>,
    group_index: usize,
    signature_index: usize,
    signature: Seq<u8>,
    keys: Seq<Seq<char>>,
) -> bool {
    let t = pre.pending_signature_tasks@[pending_task_idx(
        pre.pending_signature_tasks@,
        signature_index as int,
    )];
    let g = pre.groups@[group_index - 1];
    &&& has_pending_task(pre.pending_signature_tasks@, signature_index as int)
    &&& !(pre.block_height <= t.assignment_block_height.saturating_add(
        SIGNATURE_TASK_EXCLUSIVE_WINDOW,
    ) && group_index != t.group_index)
    &&& 1 <= group_index <= pre.groups@.len()
    &&& is_committer(g, id)
    &&& bls::is_g1_point(g.public_key@)
    &&& bls::bls_signature_valid(g.public_key@, t.message@, signature)
    &&& has_node(pre.nodes@, id)
    &&& (forall|k: int| 0 <= k < keys.len() ==> has_member(g, #[trigger] keys[k]))
    &&& has_reward(pre.rewards@, id)
    &&& (forall|k: int|
        0 <= k < keys.len() ==> has_node(pre.nodes@, #[trigger] keys[k]) && has_reward(
            pre.rewards@,
            keys[k],
        ))
}

/// What one address's reward balance becomes after a fulfilment: the
/// committer earns `COMMITTER_REWARD_PER_SIGNATURE` first, then every
/// contributor earns `REWARD_PER_SIGNATURE`.
pub open spec fn fulfilment_reward(
    base: usize,
    id: Seq<char>,
    committer: Seq<char>,
    contributors: Seq<Seq<char>>,
) -> usize {
    let with_committer = if id == committer {
        base.saturating_add(COMMITTER_REWARD_PER_SIGNATURE)
    } else {
        base
    };
    if contributors.contains(id) {
        with_committer.saturating_add(REWARD_PER_SIGNATURE)
    } else {
        with_committer
    }
}

/// Pins `pending_task_idx` to a concrete position.
pub proof fn pending_task_idx_is(tasks: Seq<SignatureTask>, index: int, i: int)
    requires
        0 <= i < tasks.len(),
        tasks[i].index == index,
        forall|a: int, b: int| 0 <= a < b < tasks.len() ==> tasks[a].index != tasks[b].index,
    ensures
        has_pending_task(tasks, index),
        pending_task_idx(tasks, index) == i,
{
    assert(has_pending_task(tasks, index));
    let j = pending_task_idx(tasks, index);
    if i < j {
        assert(tasks[i].index != tasks[j].index);
    } else if j < i {
        assert(tasks[j].index != tasks[i].index);
    }
}

/// Pins `vsr_idx` to a concrete position.
pub proof fn vsr_idx_is(vsrs: Seq<SignatureReward>, index: int, i: int)
    requires
        0 <= i < vsrs.len(),
        vsrs[i].signature_task.index == index,
        forall|a: int, b: int|
            0 <= a < b < vsrs.len() ==> vsrs[a].signature_task.index
                != vsrs[b].signature_task.index,
    ensures
        has_vsr(vsrs, index),
        vsr_idx(vsrs, index) == i,
{
    assert(has_vsr(vsrs, index));
    let j = vsr_idx(vsrs, index);
    if i < j {
        assert(vsrs[i].signature_task.index != vsrs[j].signature_task.index);
    } else if j < i {
        assert(vsrs[j].signature_task.index != vsrs[i].signature_task.index);
    }
}

/// Two node ledgers with the same addresses positionwise register the same
/// addresses.
pub proof fn lemma_same_addresses_preserve(a: Seq<Node>, b: Seq<Node>)
    requires
        a.len() == b.len(),
        forall|i: int| 0 <= i < a.len() ==> a[i].id_address@ == b[i].id_address@,
    ensures
        forall|id: Seq<char>| has_node(a, id) == has_node(b, id),
{
    assert forall|id: Seq<char>| has_node(a, id) == has_node(b, id) by {
        if has_node(a, id) {
            let w = choose|w: int| 0 <= w < a.len() && a[w].id_address@ == id;
            assert(b[w].id_address@ == id);
        }
        if has_node(b, id) {
            let w = choose|w: int| 0 <= w < b.len() && b[w].id_address@ == id;
            assert(a[w].id_address@ == id);
        }
    }
}

/// Pins `reward_idx` to a concrete position.
pub proof fn reward_idx_is(rewards: Seq<RewardRecord>, id: Seq<char>, i: int)
    requires
        0 <= i < rewards.len(),
        rewards[i].id_address@ == id,
        forall|a: int, b: int|
            0 <= a < b < rewards.len() ==> rewards[a].id_address@ != rewards[b].id_address@,
    ensures
        has_reward(rewards, id),
        reward_idx(rewards, id) == i,
{
    assert(has_reward(rewards, id));
    let j = reward_idx(rewards, id);
    if i < j {
        assert(rewards[i].id_address@ != rewards[j].id_address@);
    } else if j < i {
        assert(rewards[j].id_address@ != rewards[i].id_address@);
    }
}

/// Pins `member_idx` to a concrete position.
pub proof fn member_idx_is(g: Group, id: Seq<char>, i: int)
    requires
        0 <= i < g.members@.len(),
        g.members@[i].id_address@ == id,
        forall|a: int, b: int|
            0 <= a < b < g.members@.len() ==> g.members@[a].id_address@
                != g.members@[b].id_address@,
    ensures
        has_member(g, id),
        member_idx(g, id) == i,
{
    assert(has_member(g, id));
    let j = member_idx(g, id);
    if i < j {
        assert(g.members@[i].id_address@ != g.members@[j].id_address@);
    } else if j < i {
        assert(g.members@[j].id_address@ != g.members@[i].id_address@);
    }
}

fn find_member(g: &Group, id_address: &String) -> (r: Option<usize>)
    ensures
        match r {
            Some(i) => 0 <= i < g.members@.len() && g.members@[i as int].id_address@ == id_address@,
            None => !has_member(*g, id_address@),
        },
{
    let mut i: usize = 0;
    while i < g.members.len()
        invariant
            i <= g.members@.len(),
            forall|k: int| 0 <= k < i ==> g.members@[k].id_address@ != id_address@,
        decreases g.members@.len() - i,
    {
        if *id_address == g.members[i].id_address {
            return Some(i);
        }
        i = i + 1;
    }
    None
}

fn find_commit(g: &Group, id_address: &String) -> (r: Option<usize>)
    ensures
        match r {
            Some(i) => 0 <= i < g.commit_cache@.len() && g.commit_cache@[i as int].id_address@
                == id_address@,
            None => !has_commit(*g, id_address@),
        },
{
    let mut i: usize = 0;
    while i < g.commit_cache.len()
        invariant
            i <= g.commit_cache@.len(),
            forall|k: int| 0 <= k < i ==> g.commit_cache@[k].id_address@ != id_address@,
        decreases g.commit_cache@.len() - i,
    {
        if *id_address == g.commit_cache[i].id_address {
            return Some(i);
        }
        i = i + 1;
    }
    None
}


/// The participant carries the address and member index of some member.
pub open spec fn participant_matches(q: Participant, members: Seq<Member>) -> bool {
    exists|p: int|
        0 <= p < members.len() && q.id_address@ == (#[trigger] members[p]).id_address@ && q.index
            == members[p].index
}

/// Each participant corresponds to some member, carrying its address and
/// member index.
pub open spec fn participants_match_members(r: Seq<Participant>, members: Seq<Member>) -> bool {
    forall|i: int| 0 <= i < r.len() ==> participant_matches(#[trigger] r[i], members)
}

/// The group after `emit_group_event`: the epoch advanced by one, the
/// commitment caches and committer list cleared, readiness suspended until
/// the new DKG round completes, and everything else kept.
pub open spec fn group_after_event(g: Group, h: Group) -> bool {
    &&& h.epoch == g.epoch.saturating_add(1)
    &&& h.commit_cache@.len() == 0
    &&& h.committers@.len() == 0
    &&& !h.state
    &&& h.index == g.index
    &&& h.size == g.size
    &&& h.threshold == g.threshold
    &&& h.capacity == g.capacity
    &&& h.public_key@ == g.public_key@
    &&& h.members@ == g.members@
}

impl Controller {
    /// Whether the address is a member of any group.
    pub open spec fn member_of_any(self, id: Seq<char>) -> bool {
        exists|g: int| 0 <= g < self.groups@.len() && has_member(#[trigger] self.groups@[g], id)
    }

    /// The ledgers that group events never touch.
    pub open spec fn ledgers_unchanged(self, pre: Controller) -> bool {
        &&& self.nodes@ == pre.nodes@
        &&& self.rewards@ == pre.rewards@
        &&& self.pending_signature_tasks@ == pre.pending_signature_tasks@
        &&& self.verifiable_signature_rewards@ == pre.verifiable_signature_rewards@
        &&& self.signature_task == pre.signature_task
        &&& self.block_height == pre.block_height
        &&& self.last_output == pre.last_output
        &&& self.signature_count == pre.signature_count
        &&& self.last_group_index == pre.last_group_index
    }

    /// Create a fresh, empty group; its index is one past the last.
    fn add_group(&mut self) -> (r: usize)
        requires
            old(self).inv(),
        ensures
            final(self).inv(),
            r == final(self).groups@.len() == old(self).groups@.len() + 1,
            forall|j: int|
                0 <= j < old(self).groups@.len() ==> final(self).groups@[j] == old(self).groups@[j],
            final(self).groups@[r - 1].size == 0,
            final(self).groups@[r - 1].members@.len() == 0,
            final(self).groups@[r - 1].threshold == DEFAULT_MINIMUM_THRESHOLD,
            final(self).groups@[r - 1].epoch == 0,
            !final(self).groups@[r - 1].state,
            final(self).ledgers_unchanged(*old(self)),
            final(self).epoch == old(self).epoch,
            final(self).dkg_task == old(self).dkg_task,
            final(self).coordinators@ == old(self).coordinators@,
            forall|id: Seq<char>| final(self).member_of_any(id) == old(self).member_of_any(id),
    {
        let group = Group {
            index: 0,
            epoch: 0,
            capacity: GROUP_MAX_CAPACITY,
            size: 0,
            threshold: DEFAULT_MINIMUM_THRESHOLD,
            state: false,
            public_key: Vec::new(),
            members: Vec::new(),
            committers: Vec::new(),
            commit_cache: Vec::new(),
        };
        self.groups.push(group);
        let group_index = self.groups.len();
        let g = &mut self.groups[group_index - 1];
        g.index = group_index;
        proof {
            assert forall|id: Seq<char>|
                final(self).member_of_any(id) == old(self).member_of_any(id) by {
                if old(self).member_of_any(id) {
                    let gx = choose|gx: int|
                        0 <= gx < old(self).groups@.len() && has_member(old(self).groups@[gx], id);
                    assert(has_member(self.groups@[gx], id));
                }
                if self.member_of_any(id) {
                    let gx = choose|gx: int|
                        0 <= gx < self.groups@.len() && has_member(self.groups@[gx], id);
                    assert(gx < old(self).groups@.len());
                    assert(has_member(old(self).groups@[gx], id));
                }
            }
        }
        group_index
    }

    /// The ordered participant list for a new DKG round: the group's members
    /// sorted by member index, each carrying its node's identity public key.
    /// The ghost result maps each participant back to its member position.
    fn dkg_participants(&self, group_index: usize) -> (r: (Vec<Participant>, Ghost<Seq<int>>))
        requires
            self.inv(),
            1 <= group_index <= self.groups@.len(),
        ensures
            r.0@.len() == self.groups@[group_index - 1].members@.len(),
            forall|i: int, j: int|
                0 <= i < j < r.0@.len() ==> r.0@[i].id_address@ != r.0@[j].id_address@,
            participants_match_members(r.0@, self.groups@[group_index - 1].members@),
            forall|i: int, j: int| 0 <= i < j < r.0@.len() ==> r.0@[i].index < r.0@[j].index,
            r.1@.len() == r.0@.len(),
            forall|i: int|
                0 <= i < r.1@.len() ==> 0 <= #[trigger] r.1@[i] < self.groups@[group_index
                    - 1].members@.len() && self.groups@[group_index - 1].members@[r.1@[i]].id_address@
                    == r.0@[i].id_address@ && self.groups@[group_index - 1].members@[r.1@[i]].index
                    == r.0@[i].index,
            forall|i: int|
                0 <= i < r.0@.len() ==> (#[trigger] r.0@[i]).id_public_key@ == self.nodes@[
                    node_idx(self.nodes@, r.0@[i].id_address@)].id_public_key@,
    {
        let ghost members_view = self.groups@[group_index - 1].members@;
        proof {
            assert(group_wf(self.groups@[group_index - 1]));
        }
        let g = &self.groups[group_index - 1];
        let n = g.members.len();
        let mut remaining: Vec<usize> = Vec::new();
        let mut i: usize = 0;
        while i < n
            invariant
                i <= n,
                remaining@.len() == i,
                forall|k: int| 0 <= k < i ==> remaining@[k] == k,
            decreases n - i,
        {
            remaining.push(i);
            i = i + 1;
        }
        let mut out: Vec<Participant> = Vec::new();
        let mut chosen_exec: Ghost<Seq<int>> = Ghost(Seq::empty());
        while remaining.len() > 0
            invariant
                self.inv(),
                1 <= group_index <= self.groups@.len(),
                members_view == self.groups@[group_index - 1].members@,
                g.members@ == members_view,
                n == members_view.len(),
                out@.len() + remaining@.len() == n,
                out@.len() == chosen_exec@.len(),
                forall|k: int| 0 <= k < remaining@.len() ==> #[trigger] remaining@[k] < n,
                forall|a: int, b: int|
                    0 <= a < b < remaining@.len() ==> remaining@[a] != remaining@[b],
                forall|k: int|
                    0 <= k < chosen_exec@.len() ==> 0 <= #[trigger] chosen_exec@[k] < n,
                forall|a: int, b: int|
                    0 <= a < b < chosen_exec@.len() ==> chosen_exec@[a] != chosen_exec@[b],
                forall|a: int, b: int|
                    0 <= a < chosen_exec@.len() && 0 <= b < remaining@.len() ==> chosen_exec@[a]
                        != remaining@[b],
                forall|k: int|
                    0 <= k < out@.len() ==> (#[trigger] out@[k]).id_address@
                        == members_view[chosen_exec@[k]].id_address@ && out@[k].index
                        == members_view[chosen_exec@[k]].index,
                forall|k: int|
                    0 <= k < out@.len() ==> (#[trigger] out@[k]).id_public_key@ == self.nodes@[
                        node_idx(self.nodes@, out@[k].id_address@)].id_public_key@,
                forall|a: int, b: int| 0 <= a < b < out@.len() ==> out@[a].index < out@[b].index,
                forall|a: int, k: int|
                    0 <= a < out@.len() && 0 <= k < remaining@.len() ==> out@[a].index
                        < members_view[remaining@[k] as int].index,
            decreases remaining@.len(),
        {
            let mut best: usize = 0;
            let mut k: usize = 1;
            while k < remaining.len()
                invariant
                    remaining@.len() > 0,
                    best < remaining@.len(),
                    k <= remaining@.len(),
                    g.members@ == members_view,
                    forall|t: int|
                        0 <= t < remaining@.len() ==> #[trigger] remaining@[t]
                            < members_view.len(),
                    forall|t: int|
                        0 <= t < k ==> members_view[remaining@[best as int] as int].index
                            <= members_view[#[trigger] remaining@[t] as int].index,
                decreases remaining@.len() - k,
            {
                if g.members[remaining[k]].index < g.members[remaining[best]].index {
                    best = k;
                }
                k = k + 1;
            }
            let p = remaining[best];
            let member = &g.members[p];
            let node = self.get_node(&member.id_address);
            out.push(
                Participant {
                    id_address: member.id_address.clone(),
                    index: member.index,
                    id_public_key: crate::coordinator::clone_bytes(&node.id_public_key),
                },
            );
            proof {
                chosen_exec@ = chosen_exec@.push(p as int);
                assert(out@.last().id_public_key@ == self.nodes@[node_idx(
                    self.nodes@,
                    out@.last().id_address@,
                )].id_public_key@);
            }
            let _ = remaining.remove(best);
            proof {
                assert forall|a: int, b: int| 0 <= a < b < out@.len() implies out@[a].index
                    < out@[b].index by {
                    if b == out@.len() - 1 {
                        assert(out@[a].index < members_view[p as int].index || (chosen_exec@[a]
                            != p as int && members_view[chosen_exec@[a]].index
                            != members_view[p as int].index));
                    }
                }
            }
        }
        proof {
            assert forall|a: int, b: int| 0 <= a < b < out@.len() implies out@[a].id_address@
                != out@[b].id_address@ by {
                assert(chosen_exec@[a] != chosen_exec@[b]);
            }
            assert forall|i: int| 0 <= i < out@.len() implies participant_matches(
                out@[i],
                members_view,
            ) by {
                let p = chosen_exec@[i];
                assert(0 <= p < members_view.len() && out@[i].id_address@
                    == members_view[p].id_address@ && out@[i].index == members_view[p].index);
            }
            assert(participants_match_members(out@, members_view));
        }
        (out, Ghost(chosen_exec@))
    }
}

/// `pos` maps each coordinator participant back to a group member: the
/// addresses agree and the member indices rise along the list, so the
/// participants stand in member-index order.
pub open spec fn participants_arranged(
    pos: Seq<int>,
    participants: Seq<String>,
    members: Seq<Member>,
) -> bool {
    &&& pos.len() == participants.len()
    &&& (forall|i: int|
        0 <= i < pos.len() ==> 0 <= #[trigger] pos[i] < members.len() && members[pos[i]].id_address@
            == participants[i]@)
    &&& (forall|a: int, b: int|
        0 <= a < b < pos.len() ==> members[pos[a]].index < members[pos[b]].index)
}

/// The DKG task emitted for a group: it mirrors the group's coordinates and
/// carries the member-to-index mapping.
pub open spec fn dkg_task_matches(t: DKGTask, g: Group, block_height: int) -> bool {
    &&& t.group_index == g.index
    &&& t.epoch == g.epoch
    &&& t.size == g.size
    &&& t.threshold == g.threshold
    &&& t.assignment_block_height == block_height
    &&& t.members@.len() == g.members@.len()
    &&& forall|k: int|
        0 <= k < t.members@.len() ==> (#[trigger] t.members@[k]).0@ == g.members@[k].id_address@
            && t.members@[k].1 == g.members@[k].index
}

impl Controller {
    /// Drop the coordinator entry serving `group_index`, if one exists.
    fn remove_coordinator(&mut self, group_index: usize)
        requires
            old(self).inv(),
        ensures
            final(self).inv(),
            !has_coordinator(final(self).coordinators@, group_index as int),
            (*final(self) == Controller { coordinators: final(self).coordinators, ..*old(self) }),
    {
        match self.find_coordinator(group_index) {
            Some(k) => {
                let ghost pre = self.coordinators@;
                let _ = self.coordinators.remove(k);
                proof {
                    assert forall|a: int|
                        0 <= a < self.coordinators@.len() implies exists|j: int|
                            0 <= j < pre.len() && #[trigger] self.coordinators@[a] == pre[j] by {
                        if a < k {
                            assert(self.coordinators@[a] == pre[a]);
                        } else {
                            assert(self.coordinators@[a] == pre[a + 1]);
                        }
                    }
                    assert forall|a: int, b: int|
                        0 <= a < b < self.coordinators@.len() implies self.coordinators@[a].group_index
                            != self.coordinators@[b].group_index by {
                        let a0 = if a < k { a } else { a + 1 };
                        let b0 = if b < k { b } else { b + 1 };
                        assert(self.coordinators@[a] == pre[a0]);
                        assert(self.coordinators@[b] == pre[b0]);
                    }
                    assert forall|a: int|
                        0 <= a < self.coordinators@.len() implies self.coordinators@[a].group_index
                            != group_index by {
                        let a0 = if a < k { a } else { a + 1 };
                        assert(self.coordinators@[a] == pre[a0]);
                        if pre[a0].group_index == group_index && a0 != k as int {
                            if a0 < k as int {
                                assert(pre[a0].group_index != pre[k as int].group_index);
                            } else {
                                assert(pre[k as int].group_index != pre[a0].group_index);
                            }
                        }
                    }
                }
            },
            None => {},
        }
    }

    /// Emit a group event: bump the global and group epochs, clear the
    /// group's commitment cache and committer list, suspend its readiness
    /// until the fresh DKG round completes, start a new coordinator for the
    /// round, and publish the DKG task.
    pub fn emit_group_event(&mut self, group_index: usize) -> (r: ControllerResult<()>)
        requires
            old(self).inv(),
            1 <= group_index <= old(self).groups@.len(),
        ensures
            final(self).inv(),
            r is Ok,
            final(self).groups@.len() == old(self).groups@.len(),
            group_after_event(
                old(self).groups@[group_index - 1],
                final(self).groups@[group_index - 1],
            ),
            forall|j: int|
                0 <= j < old(self).groups@.len() && j != group_index - 1 ==> final(self).groups@[j]
                    == old(self).groups@[j],
            final(self).epoch == old(self).epoch.saturating_add(1),
            final(self).ledgers_unchanged(*old(self)),
            has_coordinator(final(self).coordinators@, group_index as int),
            final(self).coordinators@[coordinator_idx(
                final(self).coordinators@,
                group_index as int,
            )].coordinator.epoch == final(self).groups@[group_index - 1].epoch,
            // the fresh coordinator runs this round: the group's threshold,
            // the default phase duration, started at the current block, with
            // the members as participants in member-index order and their
            // nodes' identity keys
            ({
                let c = final(self).coordinators@[coordinator_idx(
                    final(self).coordinators@,
                    group_index as int,
                )].coordinator;
                let g1 = final(self).groups@[group_index - 1];
                &&& c.threshold == g1.threshold
                &&& c.phase_duration == DEFAULT_DKG_PHASE_DURATION
                &&& c.started
                &&& c.start_block_height == old(self).block_height
                &&& c.block_height == old(self).block_height
                &&& c.participants@.len() == g1.members@.len()
                &&& (forall|i: int, j: int|
                    0 <= i < j < c.participants@.len() ==> c.participants@[i]@
                        != c.participants@[j]@)
                &&& (forall|i: int|
                    0 <= i < c.keys@.len() ==> (#[trigger] c.keys@[i])@ == old(self).nodes@[
                        node_idx(old(self).nodes@, c.participants@[i]@)].id_public_key@)
                &&& (exists|pos: Seq<int>|
                    #[trigger] participants_arranged(pos, c.participants@, g1.members@))
            }),
            final(self).dkg_task is Some,
            dkg_task_matches(
                final(self).dkg_task->0,
                final(self).groups@[group_index - 1],
                old(self).block_height as int,
            ),
            forall|id: Seq<char>| final(self).member_of_any(id) == old(self).member_of_any(id),
    {
        self.epoch = self.epoch.saturating_add(1);
        let ghost pre_groups = self.groups@;
        let g = &mut self.groups[group_index - 1];
        g.epoch = g.epoch.saturating_add(1);
        g.commit_cache = Vec::new();
        g.committers = Vec::new();
        g.state = false;
        proof {
            assert(group_wf(self.groups@[group_index - 1]));
            assert forall|id: Seq<char>|
                self.member_of_any(id) == old(self).member_of_any(id) by {
                if old(self).member_of_any(id) {
                    let gi = choose|gi: int|
                        0 <= gi < old(self).groups@.len() && has_member(old(self).groups@[gi], id);
                    assert(self.groups@[gi].members@ == old(self).groups@[gi].members@);
                    assert(has_member(self.groups@[gi], id));
                }
                if self.member_of_any(id) {
                    let gi = choose|gi: int|
                        0 <= gi < self.groups@.len() && has_member(self.groups@[gi], id);
                    assert(old(self).groups@[gi].members@ == self.groups@[gi].members@);
                    assert(has_member(old(self).groups@[gi], id));
                }
            }
            assert(self.inv());
        }
        let (participants, positions) = self.dkg_participants(group_index);
        let ghost parts_view = participants@;
        let group_epoch = self.groups[group_index - 1].epoch;
        let group_threshold = self.groups[group_index - 1].threshold;
        let group_size = self.groups[group_index - 1].size;
        let mut coordinator = Coordinator::new(
            group_epoch,
            group_threshold,
            DEFAULT_DKG_PHASE_DURATION,
        );
        let start_result = coordinator.start(self.block_height, participants);
        proof {
            assert(start_result is Ok);
            assert(participants_arranged(
                positions@,
                coordinator.participants@,
                self.groups@[group_index - 1].members@,
            )) by {
                assert forall|i: int|
                    0 <= i < positions@.len() implies 0 <= #[trigger] positions@[i]
                        < self.groups@[group_index - 1].members@.len() && self.groups@[group_index
                        - 1].members@[positions@[i]].id_address@
                        == coordinator.participants@[i]@ by {
                    assert(coordinator.participants@[i]@ == parts_view[i].id_address@);
                }
                assert forall|a: int, b: int|
                    0 <= a < b < positions@.len() implies self.groups@[group_index
                        - 1].members@[positions@[a]].index < self.groups@[group_index
                        - 1].members@[positions@[b]].index by {
                    assert(parts_view[a].index < parts_view[b].index);
                }
            }
            assert forall|i: int|
                0 <= i < coordinator.keys@.len() implies (#[trigger] coordinator.keys@[i])@
                    == old(self).nodes@[node_idx(
                    old(self).nodes@,
                    coordinator.participants@[i]@,
                )].id_public_key@ by {
                assert(coordinator.keys@[i]@ == parts_view[i].id_public_key@);
                assert(coordinator.participants@[i]@ == parts_view[i].id_address@);
                assert(self.nodes@ == old(self).nodes@);
            }
        }
        self.remove_coordinator(group_index);
        let ghost pre_cs = self.coordinators@;
        self.coordinators.push(GroupCoordinator { group_index, coordinator });
        proof {
            assert forall|a: int, b: int|
                0 <= a < b < self.coordinators@.len() implies self.coordinators@[a].group_index
                    != self.coordinators@[b].group_index by {
                if b < self.coordinators@.len() - 1 {
                    assert(self.coordinators@[a] == pre_cs[a]);
                    assert(self.coordinators@[b] == pre_cs[b]);
                } else {
                    assert(self.coordinators@[a] == pre_cs[a]);
                    assert(pre_cs[a].group_index != group_index);
                }
            }
            assert(self.coordinators@[self.coordinators@.len() - 1].group_index == group_index);
            coordinator_idx_is(
                self.coordinators@,
                group_index as int,
                self.coordinators@.len() - 1,
            );
            assert(exists|pos: Seq<int>|
                #[trigger] participants_arranged(
                    pos,
                    self.coordinators@[self.coordinators@.len() - 1].coordinator.participants@,
                    self.groups@[group_index - 1].members@,
                )) by {
                assert(participants_arranged(
                    positions@,
                    self.coordinators@[self.coordinators@.len() - 1].coordinator.participants@,
                    self.groups@[group_index - 1].members@,
                ));
            }
        }
        let mut task_members: Vec<(String, usize)> = Vec::new();
        let group_ref = &self.groups[group_index - 1];
        let mut i: usize = 0;
        while i < group_ref.members.len()
            invariant
                i <= group_ref.members@.len(),
                task_members@.len() == i,
                forall|k: int|
                    0 <= k < i ==> (#[trigger] task_members@[k]).0@
                        == group_ref.members@[k].id_address@ && task_members@[k].1
                        == group_ref.members@[k].index,
            decreases group_ref.members@.len() - i,
        {
            task_members.push((group_ref.members[i].id_address.clone(), group_ref.members[i].index));
            i = i + 1;
        }
        let dkg_task = DKGTask {
            group_index,
            epoch: group_epoch,
            size: group_size,
            threshold: group_threshold,
            members: task_members,
            assignment_block_height: self.block_height,
            coordinator_address: self.controller_address.clone(),
        };
        self.dkg_task = Some(dkg_task);
        Ok(())
    }
}

/// Pins `coordinator_idx` to a concrete position.
pub proof fn coordinator_idx_is(cs: Seq<GroupCoordinator>, gi: int, i: int)
    requires
        0 <= i < cs.len(),
        cs[i].group_index == gi,
        forall|a: int, b: int| 0 <= a < b < cs.len() ==> cs[a].group_index != cs[b].group_index,
    ensures
        has_coordinator(cs, gi),
        coordinator_idx(cs, gi) == i,
{
    assert(has_coordinator(cs, gi));
    let j = coordinator_idx(cs, gi);
    if i < j {
        assert(cs[i].group_index != cs[j].group_index);
    } else if j < i {
        assert(cs[j].group_index != cs[i].group_index);
    }
}

/// Whether some member of the group holds this member index.
pub open spec fn member_index_used(g: Group, c: int) -> bool {
    exists|k: int| 0 <= k < g.members@.len() && g.members@[k].index == c
}

/// The smallest member index the group does not use. While no member has
/// left, the indices are exactly `0 .. size`, so this equals the group's
/// size; after departures it refills the gaps, keeping indices distinct.
fn unused_member_index(g: &Group) -> (r: usize)
    ensures
        r <= g.members@.len(),
        !member_index_used(*g, r as int),
{
    let n = g.members.len();
    let mut c: usize = 0;
    loop
        invariant
            n == g.members@.len(),
            c <= n,
            forall|d: int| 0 <= d < c ==> member_index_used(*g, d),
        decreases n - c,
    {
        if !group_index_used(g, c) {
            return c;
        }
        if c == n {
            proof {
                broadcast use vstd::seq_lib::seq_to_set_is_finite;
                broadcast use vstd::set::group_set_axioms;

                let idxs = g.members@.map_values(|m: Member| m.index as int);
                assert forall|d: int| 0 <= d <= n implies idxs.to_set().contains(d) by {
                    assert(member_index_used(*g, d));
                    let k = choose|k: int|
                        0 <= k < g.members@.len() && g.members@[k].index == d;
                    assert(idxs[k] == d);
                    assert(idxs.contains(d));
                }
                assert(vstd::set_lib::set_int_range(0, n + 1 as int) <= idxs.to_set());
                vstd::set_lib::lemma_int_range(0, n + 1 as int);
                idxs.lemma_cardinality_of_set();
                vstd::set_lib::lemma_len_subset(
                    vstd::set_lib::set_int_range(0, n + 1 as int),
                    idxs.to_set(),
                );
                assert(false);
            }
            return 0;
        }
        c = c + 1;
    }
}

fn group_index_used(g: &Group, c: usize) -> (r: bool)
    ensures
        r == member_index_used(*g, c as int),
{
    let mut k: usize = 0;
    while k < g.members.len()
        invariant
            k <= g.members@.len(),
            forall|t: int| 0 <= t < k ==> g.members@[t].index != c,
        decreases g.members@.len() - k,
    {
        if g.members[k].index == c {
            proof {
                assert(g.members@[k as int].index == c);
            }
            return true;
        }
        k = k + 1;
    }
    false
}

impl Controller {
    /// Add a registered node to the group: it receives the smallest unused
    /// member index and an empty partial public key; the group's threshold
    /// is recomputed; once the group holds three or more members (and the
    /// caller asks for it) a group event fires and a DKG round starts.
    #[verifier::rlimit(60)]
    #[verifier::spinoff_prover]
    fn add_to_group(
        &mut self,
        node_id_address: String,
        group_index: usize,
        emit_event_instantly: bool,
    ) -> (r: ControllerResult<()>)
        requires
            old(self).inv(),
            1 <= group_index <= old(self).groups@.len(),
            has_node(old(self).nodes@, node_id_address@),
            !old(self).member_of_any(node_id_address@),
        ensures
            final(self).inv(),
            r is Ok,
            final(self).groups@.len() == old(self).groups@.len(),
            has_member(final(self).groups@[group_index - 1], node_id_address@),
            final(self).groups@[group_index - 1].members@.len() == old(self).groups@[group_index
                - 1].members@.len() + 1,
            final(self).groups@[group_index - 1].size == old(self).groups@[group_index - 1].size
                + 1,
            final(self).groups@[group_index - 1].threshold == spec_group_threshold(
                old(self).groups@[group_index - 1].size + 1,
            ),
            forall|j: int|
                0 <= j < old(self).groups@.len() && j != group_index - 1 ==> final(self).groups@[j]
                    == old(self).groups@[j],
            final(self).nodes@ == old(self).nodes@,
            final(self).rewards@ == old(self).rewards@,
            final(self).pending_signature_tasks@ == old(self).pending_signature_tasks@,
            final(self).verifiable_signature_rewards@ == old(self).verifiable_signature_rewards@,
            final(self).signature_task == old(self).signature_task,
            final(self).block_height == old(self).block_height,
            final(self).last_output == old(self).last_output,
            final(self).signature_count == old(self).signature_count,
            final(self).last_group_index == old(self).last_group_index,
            forall|id: Seq<char>|
                final(self).member_of_any(id) == (old(self).member_of_any(id) || id
                    == node_id_address@),
            final(self).groups@[group_index - 1].members@.drop_last() == old(self).groups@[group_index
                - 1].members@,
            final(self).groups@[group_index - 1].members@.last().id_address@ == node_id_address@,
            final(self).groups@[group_index - 1].members@.last().partial_public_key@.len() == 0,
            (old(self).groups@[group_index - 1].size + 1 >= 3 && emit_event_instantly) ==> (
            group_after_event(
                Group {
                    members: final(self).groups@[group_index - 1].members,
                    size: final(self).groups@[group_index - 1].size,
                    threshold: final(self).groups@[group_index - 1].threshold,
                    ..old(self).groups@[group_index - 1]
                },
                final(self).groups@[group_index - 1],
            ) && final(self).dkg_task is Some && dkg_task_matches(
                final(self).dkg_task->0,
                final(self).groups@[group_index - 1],
                old(self).block_height as int,
            )),
            !(old(self).groups@[group_index - 1].size + 1 >= 3 && emit_event_instantly) ==> (final(self).epoch == old(self).epoch && final(self).dkg_task == old(self).dkg_task && final(self).coordinators@ == old(self).coordinators@ && final(self).groups@[group_index
                - 1].epoch == old(self).groups@[group_index - 1].epoch && !final(self).groups@[group_index - 1].state),
    {
        let ghost pre = *old(self);
        let g = &mut self.groups[group_index - 1];
        let new_index = unused_member_index(g);
        let member = Member {
            index: new_index,
            id_address: node_id_address.clone(),
            partial_public_key: Vec::new(),
        };
        let ghost pre_members = g.members@;
        g.members.push(member);
        g.size = g.members.len();
        let minimum = minimum_threshold(g.size);
        g.threshold = if DEFAULT_MINIMUM_THRESHOLD > minimum {
            DEFAULT_MINIMUM_THRESHOLD
        } else {
            minimum
        };
        // a membership change suspends readiness until a DKG round completes
        g.state = false;
        // a joining member holds no standing commitment: drop any stale entry
        let ghost pre_cache0 = g.commit_cache@;
        let stale = find_commit(g, &node_id_address);
        match stale {
            Some(k) => {
                let ghost pre_cache = g.commit_cache@;
                let _ = g.commit_cache.remove(k);
                proof {
                    assert forall|a: int, b: int|
                        0 <= a < b < g.commit_cache@.len() implies g.commit_cache@[a].id_address@
                            != g.commit_cache@[b].id_address@ by {
                        let a0 = if a < k { a } else { a + 1 };
                        let b0 = if b < k { b } else { b + 1 };
                        assert(g.commit_cache@[a] == pre_cache[a0]);
                        assert(g.commit_cache@[b] == pre_cache[b0]);
                    }
                    assert forall|a: int|
                        0 <= a < g.commit_cache@.len() implies g.commit_cache@[a].id_address@
                            != node_id_address@ by {
                        let a0 = if a < k as int { a } else { a + 1 };
                        assert(g.commit_cache@[a] == pre_cache[a0]);
                        if pre_cache[a0].id_address@ == node_id_address@ && a0 != k as int {
                            if a0 < k as int {
                                assert(pre_cache[a0].id_address@ != pre_cache[k as int].id_address@);
                            } else {
                                assert(pre_cache[k as int].id_address@ != pre_cache[a0].id_address@);
                            }
                        }
                    }
                    assert forall|id2: Seq<char>|
                        has_commit(*g, id2) implies exists|j: int|
                            0 <= j < pre_cache.len() && (#[trigger] pre_cache[j]).id_address@
                                == id2 by {
                        let e = choose|e: int|
                            0 <= e < g.commit_cache@.len() && g.commit_cache@[e].id_address@
                                == id2;
                        let e0 = if e < k as int { e } else { e + 1 };
                        assert(g.commit_cache@[e] == pre_cache[e0]);
                        assert(pre_cache[e0].id_address@ == id2);
                    }
                    assert forall|e: int|
                        0 <= e < g.commit_cache@.len() implies (#[trigger] g.commit_cache@[e]).cache.commit_result.public_key@.len()
                            > 0 && g.commit_cache@[e].cache.partial_public_key@.len() > 0 by {
                        let e0 = if e < k as int { e } else { e + 1 };
                        assert(g.commit_cache@[e] == pre_cache[e0]);
                    }
                }
            },
            None => {},
        }
        proof {
            assert(!has_commit(*g, node_id_address@));
            assert forall|id2: Seq<char>|
                has_commit(*g, id2) implies exists|j: int|
                    0 <= j < pre_cache0.len() && (#[trigger] pre_cache0[j]).id_address@ == id2 by {
                if stale is None {
                    let e = choose|e: int|
                        0 <= e < g.commit_cache@.len() && g.commit_cache@[e].id_address@ == id2;
                    assert(pre_cache0[e].id_address@ == id2);
                }
            }
        }
        proof {
            let cur = self.groups@[group_index - 1].members@;
            assert forall|a: int, b: int|
                0 <= a < b < cur.len() implies (#[trigger] cur[a]).id_address@
                    != (#[trigger] cur[b]).id_address@ by {
                if b < cur.len() - 1 {
                    assert(cur[a] == pre_members[a]);
                    assert(cur[b] == pre_members[b]);
                } else {
                    assert(!pre.member_of_any(node_id_address@));
                    assert(!has_member(pre.groups@[group_index - 1], node_id_address@));
                    assert(cur[a] == pre_members[a]);
                    assert(cur[b].id_address@ == node_id_address@);
                }
            }
            assert forall|a: int, b: int|
                0 <= a < b < cur.len() implies (#[trigger] cur[a]).index
                    != (#[trigger] cur[b]).index by {
                if b < cur.len() - 1 {
                    assert(cur[a] == pre_members[a]);
                    assert(cur[b] == pre_members[b]);
                } else {
                    assert(cur[a] == pre_members[a]);
                    assert(!member_index_used(pre.groups@[group_index - 1], new_index as int));
                }
            }
            assert(group_wf(self.groups@[group_index - 1]));
            assert forall|id: Seq<char>|
                self.member_of_any(id) == (pre.member_of_any(id) || id == node_id_address@) by {
                if pre.member_of_any(id) {
                    let gi = choose|gi: int|
                        0 <= gi < pre.groups@.len() && has_member(pre.groups@[gi], id);
                    if gi == group_index - 1 {
                        let k = choose|k: int|
                            0 <= k < pre_members.len() && pre_members[k].id_address@ == id;
                        assert(self.groups@[gi].members@[k].id_address@ == id);
                        assert(has_member(self.groups@[gi], id));
                    } else {
                        assert(has_member(self.groups@[gi], id));
                    }
                }
                if id == node_id_address@ {
                    assert(self.groups@[group_index - 1].members@.last().id_address@ == id);
                    assert(has_member(self.groups@[group_index - 1], id));
                }
                if self.member_of_any(id) {
                    let gi = choose|gi: int|
                        0 <= gi < self.groups@.len() && has_member(self.groups@[gi], id);
                    if gi == group_index - 1 {
                        let k = choose|k: int|
                            0 <= k < self.groups@[gi].members@.len()
                                && self.groups@[gi].members@[k].id_address@ == id;
                        if k < pre_members.len() {
                            assert(pre_members[k].id_address@ == id);
                            assert(has_member(pre.groups@[gi], id));
                        }
                    } else {
                        assert(has_member(pre.groups@[gi], id));
                    }
                }
            }
            assert(self.inv());
        }
        let new_size = self.groups[group_index - 1].size;
        if new_size >= 3 && emit_event_instantly {
            let er = self.emit_group_event(group_index);
            proof {
                assert(er is Ok);
            }
        }
        Ok(())
    }

    /// Remove a member from the group, recompute the threshold, and suspend
    /// the group's readiness. Below three members the group cannot work;
    /// the result then reports whether members are left to rebalance away.
    /// Otherwise a group event fires when the caller asks for it.
    #[verifier::rlimit(60)]
    #[verifier::spinoff_prover]
    fn remove_from_group(
        &mut self,
        node_id_address: &String,
        group_index: usize,
        emit_event_instantly: bool,
    ) -> (r: ControllerResult<bool>)
        requires
            old(self).inv(),
            1 <= group_index <= old(self).groups@.len(),
            has_member(old(self).groups@[group_index - 1], node_id_address@),
        ensures
            final(self).inv(),
            r is Ok,
            final(self).groups@.len() == old(self).groups@.len(),
            !has_member(final(self).groups@[group_index - 1], node_id_address@),
            final(self).groups@[group_index - 1].members@.len() == old(self).groups@[group_index
                - 1].members@.len() - 1,
            final(self).groups@[group_index - 1].size == old(self).groups@[group_index - 1].size
                - 1,
            !final(self).groups@[group_index - 1].state,
            forall|j: int|
                0 <= j < old(self).groups@.len() && j != group_index - 1 ==> final(self).groups@[j]
                    == old(self).groups@[j],
            final(self).nodes@ == old(self).nodes@,
            final(self).rewards@ == old(self).rewards@,
            final(self).pending_signature_tasks@ == old(self).pending_signature_tasks@,
            final(self).verifiable_signature_rewards@ == old(self).verifiable_signature_rewards@,
            final(self).signature_task == old(self).signature_task,
            final(self).block_height == old(self).block_height,
            final(self).last_output == old(self).last_output,
            final(self).signature_count == old(self).signature_count,
            final(self).last_group_index == old(self).last_group_index,
            r == ControllerResult::<bool>::Ok(
                0 < old(self).groups@[group_index - 1].size - 1 < 3,
            ),
            final(self).groups@[group_index - 1].members@ == old(self).groups@[group_index
                - 1].members@.remove(member_idx(old(self).groups@[group_index - 1], node_id_address@)),
            !emit_event_instantly ==> final(self).groups@[group_index - 1].commit_cache@ == old(self).groups@[group_index - 1].commit_cache@ && final(self).groups@[group_index - 1].epoch
                == old(self).groups@[group_index - 1].epoch && final(self).groups@[group_index
                - 1].committers@ == old(self).groups@[group_index - 1].committers@ && final(self).groups@[group_index - 1].public_key@ == old(self).groups@[group_index
                - 1].public_key@ && final(self).epoch == old(self).epoch && final(self).dkg_task
                == old(self).dkg_task && final(self).coordinators@ == old(self).coordinators@,
            forall|id: Seq<char>|
                final(self).member_of_any(id) ==> old(self).member_of_any(id),
            forall|id: Seq<char>|
                id != node_id_address@ ==> final(self).member_of_any(id) == old(self).member_of_any(id),
    {
        let ghost pre = *old(self);
        let g = &mut self.groups[group_index - 1];
        let k = match find_member(g, node_id_address) {
            Some(k) => k,
            None => {
                proof {
                    assert(false);
                }
                0
            },
        };
        proof {
            member_idx_is(pre.groups@[group_index - 1], node_id_address@, k as int);
        }
        let ghost pre_members = g.members@;
        let _ = g.members.remove(k);
        g.size = g.members.len();
        let minimum = minimum_threshold(g.size);
        g.threshold = if DEFAULT_MINIMUM_THRESHOLD > minimum {
            DEFAULT_MINIMUM_THRESHOLD
        } else {
            minimum
        };
        g.state = false;
        proof {
            let cur = self.groups@[group_index - 1].members@;
            assert forall|a: int|
                0 <= a < cur.len() implies exists|j: int|
                    0 <= j < pre_members.len() && #[trigger] cur[a] == pre_members[j] && j
                        != k as int by {
                let a0 = if a < k as int { a } else { a + 1 };
                assert(cur[a] == pre_members[a0]);
            }
            assert forall|a: int, b: int|
                0 <= a < b < cur.len() implies (#[trigger] cur[a]).id_address@
                    != (#[trigger] cur[b]).id_address@ by {
                let a0 = if a < k as int { a } else { a + 1 };
                let b0 = if b < k as int { b } else { b + 1 };
                assert(cur[a] == pre_members[a0]);
                assert(cur[b] == pre_members[b0]);
            }
            assert forall|a: int, b: int|
                0 <= a < b < cur.len() implies (#[trigger] cur[a]).index
                    != (#[trigger] cur[b]).index by {
                let a0 = if a < k as int { a } else { a + 1 };
                let b0 = if b < k as int { b } else { b + 1 };
                assert(cur[a] == pre_members[a0]);
                assert(cur[b] == pre_members[b0]);
            }
            assert forall|a: int|
                0 <= a < cur.len() implies (#[trigger] cur[a]).id_address@ != node_id_address@ by {
                let a0 = if a < k as int { a } else { a + 1 };
                assert(cur[a] == pre_members[a0]);
                if pre_members[a0].id_address@ == node_id_address@ && a0 != k as int {
                    if a0 < k as int {
                        assert(pre_members[a0].id_address@ != pre_members[k as int].id_address@);
                    } else {
                        assert(pre_members[k as int].id_address@ != pre_members[a0].id_address@);
                    }
                }
            }
            assert(group_wf(self.groups@[group_index - 1]));
            assert forall|id: Seq<char>|
                self.member_of_any(id) implies pre.member_of_any(id) by {
                let gi = choose|gi: int|
                    0 <= gi < self.groups@.len() && has_member(self.groups@[gi], id);
                if gi == group_index - 1 {
                    let a = choose|a: int|
                        0 <= a < self.groups@[gi].members@.len()
                            && self.groups@[gi].members@[a].id_address@ == id;
                    let a0 = if a < k as int { a } else { a + 1 };
                    assert(pre_members[a0].id_address@ == id);
                    assert(has_member(pre.groups@[gi], id));
                } else {
                    assert(has_member(pre.groups@[gi], id));
                }
            }
            assert forall|id: Seq<char>|
                id != node_id_address@ && pre.member_of_any(id) implies self.member_of_any(
                    id,
                ) by {
                let gi = choose|gi: int|
                    0 <= gi < pre.groups@.len() && has_member(pre.groups@[gi], id);
                if gi == group_index - 1 {
                    let a = choose|a: int|
                        0 <= a < pre_members.len() && pre_members[a].id_address@ == id;
                    if a != k as int {
                        let a1 = if a < k as int { a } else { a - 1 };
                        assert(self.groups@[gi].members@[a1] == pre_members[a]);
                        assert(has_member(self.groups@[gi], id));
                    }
                } else {
                    assert(has_member(self.groups@[gi], id));
                }
            }
            assert(self.inv());
        }
        let new_size = self.groups[group_index - 1].size;
        if new_size < 3 {
            return Ok(new_size > 0);
        }
        if emit_event_instantly {
            let er = self.emit_group_event(group_index);
            proof {
                assert(er is Ok);
            }
        }
        Ok(false)
    }
}

fn group_has_committer(g: &Group, id_address: &String) -> (r: bool)
    ensures
        r == is_committer(*g, id_address@),
{
    let mut i: usize = 0;
    while i < g.committers.len()
        invariant
            i <= g.committers@.len(),
            forall|k: int| 0 <= k < i ==> g.committers@[k]@ != id_address@,
        decreases g.committers@.len() - i,
    {
        if *id_address == g.committers[i] {
            proof {
                assert(g.committers@[i as int]@ == id_address@);
            }
            return true;
        }
        i = i + 1;
    }
    false
}

impl Controller {
    /// Every group that reports ready is sound: its size equals its member
    /// count and is at least three; its threshold is the strict majority of
    /// its size, never below the default minimum; it has exactly
    /// `max(3, threshold)` distinct committers, each of them a member; its
    /// public key is non-empty; and every member that has committed in the
    /// current round holds a non-empty partial public key. (A member that
    /// never committed before the group finalized holds an empty partial
    /// key until its late commitment arrives.)
    pub proof fn lemma_ready_group_invariants(self, group_index: usize)
        requires
            self.inv(),
            1 <= group_index <= self.groups@.len(),
            self.groups@[group_index - 1].state,
        ensures
            ({
                let g = self.groups@[group_index - 1];
                &&& g.size == g.members@.len()
                &&& g.members@.len() >= 3
                &&& g.threshold == spec_group_threshold(g.size as int)
                &&& g.public_key@.len() > 0
                &&& g.committers@.len() == spec_committers_size(g.threshold as int)
                &&& (forall|i: int, j: int|
                    0 <= i < j < g.committers@.len() ==> g.committers@[i]@ != g.committers@[j]@)
                &&& (forall|i: int|
                    0 <= i < g.committers@.len() ==> has_member(g, g.committers@[i]@))
                &&& (forall|i: int|
                    0 <= i < g.members@.len() ==> (has_commit(g, g.members@[i].id_address@)
                        ==> g.members@[i].partial_public_key@.len() > 0))
            }),
    {
        assert(group_wf(self.groups@[group_index - 1]));
    }

    /// A node that left the network can return once its pending window has
    /// passed: activation then succeeds and restores it to active duty with
    /// the full stake, seated in a group. The hypotheses are exactly what
    /// `node_quit` leaves behind once the chain has advanced past the
    /// pending height.
    pub proof fn lemma_quit_then_activate(
        pre: Controller,
        post: Controller,
        id: Seq<char>,
        r: ControllerResult<()>,
    )
        requires
            pre.inv(),
            has_node(pre.nodes@, id),
            !pre.nodes@[node_idx(pre.nodes@, id)].state,
            pre.nodes@[node_idx(pre.nodes@, id)].pending_until_block <= pre.block_height,
            Controller::activate_outcome(pre, post, id, r),
        ensures
            r is Ok,
            post.nodes@[node_idx(pre.nodes@, id)].state,
            post.nodes@[node_idx(pre.nodes@, id)].staking == NODE_STAKING_AMOUNT,
            post.member_of_any(id),
    {
    }
}

} // verus!
