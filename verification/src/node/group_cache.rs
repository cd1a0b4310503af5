//! The node's local snapshot of its group: the DKG task it is serving, the
//! round's outcome once it completes, and the committer list. The DKG
//! output of the external library is handed in as plain values: the
//! qualified member indices with their partial public keys, the group
//! public key, and the node's encoded secret share.

use vstd::prelude::*;

use crate::controller::DKGTask;
use crate::node::errors::{NodeError, NodeResult};

verus! {

/// One member of the node-side group snapshot.
pub struct NodeMember {
    pub index: usize,
    pub id_address: String,
    pub partial_public_key: Vec<u8>,
}

/// The node-side group snapshot.
pub struct NodeGroup {
    pub index: usize,
    pub epoch: usize,
    pub size: usize,
    pub threshold: usize,
    pub state: bool,
    pub public_key: Vec<u8>,
    pub members: Vec<NodeMember>,
    pub committers: Vec<String>,
}

/// Whether the node-side group snapshot holds a member with this address.
pub open spec fn has_node_member(g: NodeGroup, id: Seq<char>) -> bool {
    exists|i: int| 0 <= i < g.members@.len() && g.members@[i].id_address@ == id
}

pub open spec fn node_member_idx(g: NodeGroup, id: Seq<char>) -> int {
    choose|i: int| 0 <= i < g.members@.len() && g.members@[i].id_address@ == id
}

/// Find a member of the node-side snapshot by address.
pub fn find_node_member(g: &NodeGroup, id_address: &String) -> (r: Option<usize>)
    ensures
        match r {
            Some(i) => 0 <= i < g.members@.len() && g.members@[i as int].id_address@
                == id_address@,
            None => !has_node_member(*g, id_address@),
        },
{
    let mut i: usize = 0;
    while i < g.members.len()
        invariant
            i <= g.members@.len(),
            forall|k: int| 0 <= k < i ==> g.members@[k].id_address@ != id_address@,
        decreases g.members@.len() - i,
    {
        if *id_address == g.members[i].id_address {
            return Some(i);
        }
        i = i + 1;
    }
    None
}

/// Pins `node_member_idx` to a concrete position.
pub proof fn node_member_idx_is(g: NodeGroup, id: Seq<char>, i: int)
    requires
        0 <= i < g.members@.len(),
        g.members@[i].id_address@ == id,
        forall|a: int, b: int|
            0 <= a < b < g.members@.len() ==> g.members@[a].id_address@
                != g.members@[b].id_address@,
    ensures
        has_node_member(g, id),
        node_member_idx(g, id) == i,
{
    assert(has_node_member(g, id));
    let j = node_member_idx(g, id);
    if i < j {
        assert(g.members@[i].id_address@ != g.members@[j].id_address@);
    } else if j < i {
        assert(g.members@[j].id_address@ != g.members@[i].id_address@);
    }
}

/// Whether a qualified entry for this member index is listed.
pub open spec fn qualified_contains(qualified: Seq<(usize, Vec<u8>)>, index: int) -> bool {
    exists|k: int| 0 <= k < qualified.len() && qualified[k].0 == index
}

pub struct InMemoryGroupInfoCache {
    pub share: Option<Vec<u8>>,
    pub group: NodeGroup,
    pub self_index: usize,
    pub dkg_start_block_height: usize,
}

impl InMemoryGroupInfoCache {
    /// A group index of zero means no DKG task has arrived yet.
    pub open spec fn has_group_task(self) -> bool {
        self.group.index != 0
    }

    pub fn new() -> (r: Self)
        ensures
            !r.has_group_task(),
            r.share is None,
    {
        InMemoryGroupInfoCache {
            share: None,
            group: NodeGroup {
                index: 0,
                epoch: 0,
                size: 0,
                threshold: 0,
                state: false,
                public_key: Vec::new(),
                members: Vec::new(),
                committers: Vec::new(),
            },
            self_index: 0,
            dkg_start_block_height: 0,
        }
    }

    /// Adopt a fresh DKG task: the snapshot takes the task's coordinates
    /// and member list, with no keys and no committers yet.
    pub fn save_task_info(&mut self, self_index: usize, task: &DKGTask) -> (r: NodeResult<()>)
        ensures
            r is Ok,
            final(self).self_index == self_index,
            final(self).group.index == task.group_index,
            final(self).group.epoch == task.epoch,
            final(self).group.size == task.size,
            final(self).group.threshold == task.threshold,
            !final(self).group.state,
            final(self).group.public_key@.len() == 0,
            final(self).group.committers@.len() == 0,
            final(self).group.members@.len() == task.members@.len(),
            forall|k: int|
                0 <= k < task.members@.len() ==> (#[trigger] final(self).group.members@[k]).id_address@
                    == task.members@[k].0@ && final(self).group.members@[k].index
                    == task.members@[k].1 && final(self).group.members@[k].partial_public_key@.len()
                    == 0,
            final(self).dkg_start_block_height == task.assignment_block_height,
    {
        self.self_index = self_index;
        let mut members: Vec<NodeMember> = Vec::new();
        let mut i: usize = 0;
        while i < task.members.len()
            invariant
                i <= task.members@.len(),
                members@.len() == i,
                forall|k: int|
                    0 <= k < i ==> (#[trigger] members@[k]).id_address@ == task.members@[k].0@
                        && members@[k].index == task.members@[k].1
                        && members@[k].partial_public_key@.len() == 0,
            decreases task.members@.len() - i,
        {
            members.push(
                NodeMember {
                    index: task.members[i].1,
                    id_address: task.members[i].0.clone(),
                    partial_public_key: Vec::new(),
                },
            );
            i = i + 1;
        }
        self.group = NodeGroup {
            index: task.group_index,
            epoch: task.epoch,
            size: task.size,
            threshold: task.threshold,
            state: false,
            public_key: Vec::new(),
            members,
            committers: Vec::new(),
        };
        self.dkg_start_block_height = task.assignment_block_height;
        Ok(())
    }

    /// Record a finished DKG round: keep only the qualified members, store
    /// their partial public keys and the group key, and hand back the group
    /// key, the node's own partial key, and the disqualified addresses.
    pub fn save_output(
        &mut self,
        index: usize,
        epoch: usize,
        share: Vec<u8>,
        public_key: Vec<u8>,
        qualified: Vec<(usize, Vec<u8>)>,
    ) -> (r: NodeResult<(Vec<u8>, Vec<u8>, Vec<String>)>)
        ensures
            !old(self).has_group_task() ==> r == NodeResult::<(Vec<u8>, Vec<u8>, Vec<String>)>::Err(
                NodeError::NoGroupTask,
            ) && *final(self) == *old(self),
            old(self).has_group_task() && old(self).group.index != index ==> r == NodeResult::<
                (Vec<u8>, Vec<u8>, Vec<String>),
            >::Err(NodeError::GroupIndexObsolete(old(self).group.index)) && *final(self) == *old(self),
            old(self).has_group_task() && old(self).group.index == index && old(self).group.epoch
                != epoch ==> r == NodeResult::<(Vec<u8>, Vec<u8>, Vec<String>)>::Err(
                NodeError::GroupEpochObsolete(old(self).group.epoch),
            ) && *final(self) == *old(self),
            old(self).has_group_task() && old(self).group.index == index && old(self).group.epoch
                == epoch && old(self).group.state ==> r == NodeResult::<
                (Vec<u8>, Vec<u8>, Vec<String>),
            >::Err(NodeError::GroupAlreadyReady) && *final(self) == *old(self),
            (old(self).has_group_task() && old(self).group.index == index && old(self).group.epoch == epoch && !old(self).group.state) ==> ({
                &&& r is Ok
                &&& final(self).share is Some
                &&& final(self).share->0@ == share@
                &&& final(self).group.public_key@ == public_key@
                &&& final(self).group.size == final(self).group.members@.len()
                &&& forall|k: int|
                    0 <= k < final(self).group.members@.len() ==> qualified_contains(
                        qualified@,
                        (#[trigger] final(self).group.members@[k]).index as int,
                    )
                &&& r->Ok_0.0@ == public_key@
            }),
    {
        if self.group.index == 0 {
            return Err(NodeError::NoGroupTask);
        }
        if self.group.index != index {
            return Err(NodeError::GroupIndexObsolete(self.group.index));
        }
        if self.group.epoch != epoch {
            return Err(NodeError::GroupEpochObsolete(self.group.epoch));
        }
        if self.group.state {
            return Err(NodeError::GroupAlreadyReady);
        }
        self.share = Some(share);
        // split the members into the qualified (kept, with their new keys)
        // and the disqualified (dropped, reported back)
        let mut kept: Vec<NodeMember> = Vec::new();
        let mut disqualified_nodes: Vec<String> = Vec::new();
        let mut own_partial_public_key: Vec<u8> = Vec::new();
        let n = self.group.members.len();
        let mut i: usize = 0;
        while i < n
            invariant
                n == self.group.members@.len(),
                i <= n,
                forall|k: int|
                    0 <= k < kept@.len() ==> qualified_contains(
                        qualified@,
                        (#[trigger] kept@[k]).index as int,
                    ),
            decreases n - i,
        {
            let m = &self.group.members[i];
            match find_qualified(&qualified, m.index) {
                Some(q) => {
                    let ppk = crate::coordinator::clone_bytes(&qualified[q].1);
                    if m.index == self.self_index {
                        own_partial_public_key = crate::coordinator::clone_bytes(&ppk);
                    }
                    proof {
                        assert(qualified@[q as int].0 == m.index);
                        assert(qualified_contains(qualified@, m.index as int));
                    }
                    kept.push(
                        NodeMember {
                            index: m.index,
                            id_address: m.id_address.clone(),
                            partial_public_key: ppk,
                        },
                    );
                },
                None => {
                    disqualified_nodes.push(m.id_address.clone());
                },
            }
            i = i + 1;
        }
        let gm = &mut self.group;
        gm.members = kept;
        gm.size = gm.members.len();
        gm.public_key = crate::coordinator::clone_bytes(&public_key);
        Ok((public_key, own_partial_public_key, disqualified_nodes))
    }

    /// Record the committer election and mark the snapshot ready.
    pub fn save_committers(&mut self, index: usize, epoch: usize, committer_indices: Vec<String>)
        -> (r: NodeResult<()>)
        ensures
            !old(self).has_group_task() ==> r == NodeResult::<()>::Err(NodeError::NoGroupTask)
                && *final(self) == *old(self),
            old(self).has_group_task() && old(self).group.index != index ==> r
                == NodeResult::<()>::Err(NodeError::GroupIndexObsolete(old(self).group.index))
                && *final(self) == *old(self),
            old(self).has_group_task() && old(self).group.index == index && old(self).group.epoch
                != epoch ==> r == NodeResult::<()>::Err(
                NodeError::GroupEpochObsolete(old(self).group.epoch),
            ) && *final(self) == *old(self),
            old(self).has_group_task() && old(self).group.index == index && old(self).group.epoch
                == epoch && old(self).group.state ==> r == NodeResult::<()>::Err(
                NodeError::GroupAlreadyReady,
            ) && *final(self) == *old(self),
            (old(self).has_group_task() && old(self).group.index == index && old(self).group.epoch == epoch && !old(self).group.state) ==> r is Ok && final(self).group.state && final(self).group.committers@ == committer_indices@,
    {
        if self.group.index == 0 {
            return Err(NodeError::NoGroupTask);
        }
        if self.group.index != index {
            return Err(NodeError::GroupIndexObsolete(self.group.index));
        }
        if self.group.epoch != epoch {
            return Err(NodeError::GroupEpochObsolete(self.group.epoch));
        }
        if self.group.state {
            return Err(NodeError::GroupAlreadyReady);
        }
        let gm = &mut self.group;
        gm.committers = committer_indices;
        gm.state = true;
        Ok(())
    }

    pub fn get_index(&self) -> (r: NodeResult<usize>)
        ensures
            self.has_group_task() ==> r == NodeResult::<usize>::Ok(self.group.index),
            !self.has_group_task() ==> r == NodeResult::<usize>::Err(NodeError::NoGroupTask),
    {
        if self.group.index == 0 {
            return Err(NodeError::NoGroupTask);
        }
        Ok(self.group.index)
    }

    pub fn get_epoch(&self) -> (r: NodeResult<usize>)
        ensures
            self.has_group_task() ==> r == NodeResult::<usize>::Ok(self.group.epoch),
            !self.has_group_task() ==> r == NodeResult::<usize>::Err(NodeError::NoGroupTask),
    {
        if self.group.index == 0 {
            return Err(NodeError::NoGroupTask);
        }
        Ok(self.group.epoch)
    }

    pub fn get_state(&self) -> (r: NodeResult<bool>)
        ensures
            self.has_group_task() ==> r == NodeResult::<bool>::Ok(self.group.state),
            !self.has_group_task() ==> r == NodeResult::<bool>::Err(NodeError::NoGroupTask),
    {
        if self.group.index == 0 {
            return Err(NodeError::NoGroupTask);
        }
        Ok(self.group.state)
    }

    pub fn get_threshold(&self) -> (r: NodeResult<usize>)
        ensures
            self.has_group_task() ==> r == NodeResult::<usize>::Ok(self.group.threshold),
            !self.has_group_task() ==> r == NodeResult::<usize>::Err(NodeError::NoGroupTask),
    {
        if self.group.index == 0 {
            return Err(NodeError::NoGroupTask);
        }
        Ok(self.group.threshold)
    }

    /// The encoded secret share of the completed round.
    pub fn get_secret_share(&self) -> (r: NodeResult<&Vec<u8>>)
        ensures
            !self.has_group_task() ==> r == NodeResult::<&Vec<u8>>::Err(NodeError::NoGroupTask),
            self.has_group_task() && self.share is None ==> r == NodeResult::<&Vec<u8>>::Err(
                NodeError::GroupNotReady,
            ),
            self.has_group_task() && self.share is Some ==> r is Ok && r->Ok_0@ == self.share->0@,
    {
        if self.group.index == 0 {
            return Err(NodeError::NoGroupTask);
        }
        match &self.share {
            Some(s) => Ok(s),
            None => Err(NodeError::GroupNotReady),
        }
    }

    /// Whether the address belongs to the elected committers.
    pub fn is_committer(&self, id_address: &String) -> (r: NodeResult<bool>)
        ensures
            !self.has_group_task() ==> r == NodeResult::<bool>::Err(NodeError::NoGroupTask),
            self.has_group_task() ==> r == NodeResult::<bool>::Ok(
                exists|i: int|
                    0 <= i < self.group.committers@.len()
                        && (#[trigger] self.group.committers@[i])@ == id_address@,
            ),
    {
        if self.group.index == 0 {
            return Err(NodeError::NoGroupTask);
        }
        let mut i: usize = 0;
        while i < self.group.committers.len()
            invariant
                self.has_group_task(),
                i <= self.group.committers@.len(),
                forall|k: int| 0 <= k < i ==> (#[trigger] self.group.committers@[k])@ != id_address@,
            decreases self.group.committers@.len() - i,
        {
            if *id_address == self.group.committers[i] {
                proof {
                    assert(self.group.committers@[i as int]@ == id_address@);
                }
                return Ok(true);
            }
            i = i + 1;
        }
        Ok(false)
    }
}

fn find_qualified(qualified: &Vec<(usize, Vec<u8>)>, index: usize) -> (r: Option<usize>)
    ensures
        match r {
            Some(q) => 0 <= q < qualified@.len() && qualified@[q as int].0 == index,
            None => !qualified_contains(qualified@, index as int),
        },
{
    let mut i: usize = 0;
    while i < qualified.len()
        invariant
            i <= qualified@.len(),
            forall|k: int| 0 <= k < i ==> (#[trigger] qualified@[k]).0 != index,
        decreases qualified@.len() - i,
    {
        if qualified[i].0 == index {
            return Some(i);
        }
        i = i + 1;
    }
    None
}

} // verus!
