//! In-memory caches the node runtime's listeners share: the chain-height
//! snapshot, the queue of observed signature tasks, and the committer's
//! partial-signature collection keyed by task index.

use vstd::prelude::*;

use crate::controller::{SignatureTask, SIGNATURE_TASK_EXCLUSIVE_WINDOW};
use crate::node::errors::{NodeError, NodeResult};

verus! {

pub trait BlockInfoFetcher {
    spec fn spec_block_height(&self) -> int;

    fn get_block_height(&self) -> (r: usize)
        ensures
            r == self.spec_block_height(),
    ;
}

pub trait BlockInfoUpdater {
    spec fn spec_block_height(&self) -> int;

    fn set_block_height(&mut self, block_height: usize)
        ensures
            final(self).spec_block_height() == block_height,
    ;
}

/// The local snapshot of the chain height, fed by the block listener.
pub struct InMemoryBlockInfoCache {
    pub block_height: usize,
}

impl InMemoryBlockInfoCache {
    pub fn new() -> (r: Self)
        ensures
            r.block_height == 0,
    {
        InMemoryBlockInfoCache { block_height: 0 }
    }
}

impl BlockInfoFetcher for InMemoryBlockInfoCache {
    open spec fn spec_block_height(&self) -> int {
        self.block_height as int
    }

    fn get_block_height(&self) -> usize {
        self.block_height
    }
}

impl BlockInfoUpdater for InMemoryBlockInfoCache {
    open spec fn spec_block_height(&self) -> int {
        self.block_height as int
    }

    fn set_block_height(&mut self, block_height: usize) {
        self.block_height = block_height;
    }
}

/// A task is available to this node when it sits in the node's own group,
/// or once the exclusive window after its assignment has passed (the
/// cross-group fallback).
pub open spec fn task_available(t: SignatureTask, block_height: int, group_index: int) -> bool {
    t.group_index == group_index || block_height > t.assignment_block_height
        + SIGNATURE_TASK_EXCLUSIVE_WINDOW
}

/// The unhandled available tasks of a queue, in arrival order.
pub open spec fn spec_available_tasks(
    tasks: Seq<(SignatureTask, bool)>,
    block_height: int,
    group_index: int,
) -> Seq<crate::controller::SignatureTaskView>
    decreases tasks.len(),
{
    if tasks.len() == 0 {
        Seq::empty()
    } else {
        let rest = spec_available_tasks(tasks.drop_last(), block_height, group_index);
        if !tasks.last().1 && task_available(tasks.last().0, block_height, group_index) {
            rest.push(tasks.last().0@)
        } else {
            rest
        }
    }
}

pub trait BLSTasksFetcher {
    fn contains(&self, task_index: usize) -> bool;

    fn get(&self, task_index: usize) -> Option<&SignatureTask>;

    fn is_handled(&self, task_index: usize) -> bool;
}

/// The arrival-ordered queue of signature tasks this node has observed,
/// each with its handled flag.
pub struct InMemoryBLSTasksQueue {
    pub bls_tasks: Vec<(SignatureTask, bool)>,
}

impl InMemoryBLSTasksQueue {
    pub fn new() -> (r: Self)
        ensures
            r.bls_tasks@.len() == 0,
    {
        InMemoryBLSTasksQueue { bls_tasks: Vec::new() }
    }

    /// Record a newly observed task as unhandled.
    pub fn add(&mut self, task: SignatureTask) -> (r: NodeResult<()>)
        ensures
            r is Ok,
            final(self).bls_tasks@.len() == old(self).bls_tasks@.len() + 1,
            final(self).bls_tasks@.drop_last() == old(self).bls_tasks@,
            final(self).bls_tasks@.last().0@ == task@,
            !final(self).bls_tasks@.last().1,
    {
        self.bls_tasks.push((task, false));
        Ok(())
    }

    /// Hand out every unhandled task this node may work on now, marking
    /// each as handled: tasks of the node's own group at once, others only
    /// after the cross-group fallback window.
    pub fn check_and_get_available_tasks(
        &mut self,
        current_block_height: usize,
        current_group_index: usize,
    ) -> (r: Vec<SignatureTask>)
        ensures
            final(self).bls_tasks@.len() == old(self).bls_tasks@.len(),
            forall|i: int|
                0 <= i < old(self).bls_tasks@.len() ==> (#[trigger] final(self).bls_tasks@[i]).0@
                    == old(self).bls_tasks@[i].0@,
            forall|i: int|
                0 <= i < old(self).bls_tasks@.len() ==> (#[trigger] final(self).bls_tasks@[i]).1
                    == (old(self).bls_tasks@[i].1 || task_available(
                    old(self).bls_tasks@[i].0,
                    current_block_height as int,
                    current_group_index as int,
                )),
            r.deep_view() == spec_available_tasks(
                old(self).bls_tasks@,
                current_block_height as int,
                current_group_index as int,
            ),
    {
        let ghost pre = self.bls_tasks@;
        let mut available_tasks: Vec<SignatureTask> = Vec::new();
        let n = self.bls_tasks.len();
        let mut i: usize = 0;
        while i < n
            invariant
                n == pre.len(),
                self.bls_tasks@.len() == n,
                i <= n,
                forall|k: int|
                    0 <= k < n ==> (#[trigger] self.bls_tasks@[k]).0@ == pre[k].0@,
                forall|k: int| i <= k < n ==> (#[trigger] self.bls_tasks@[k]).1 == pre[k].1,
                forall|k: int|
                    0 <= k < i ==> (#[trigger] self.bls_tasks@[k]).1 == (pre[k].1
                        || task_available(
                        pre[k].0,
                        current_block_height as int,
                        current_group_index as int,
                    )),
                available_tasks.deep_view() == spec_available_tasks(
                    pre.take(i as int),
                    current_block_height as int,
                    current_group_index as int,
                ),
            decreases n - i,
        {
            proof {
                assert(pre.take(i + 1 as int).drop_last() =~= pre.take(i as int));
                assert(pre.take(i + 1 as int).last() == pre[i as int]);
            }
            let handled = self.bls_tasks[i].1;
            let in_group = self.bls_tasks[i].0.group_index == current_group_index;
            let fallback = current_block_height > self.bls_tasks[i].0.assignment_block_height
                .saturating_add(SIGNATURE_TASK_EXCLUSIVE_WINDOW);
            if !handled && (in_group || fallback) {
                let task_copy = self.bls_tasks[i].0.clone();
                available_tasks.push(task_copy);
                let entry = &mut self.bls_tasks[i];
                entry.1 = true;
                proof {
                    assert(available_tasks.deep_view() =~= spec_available_tasks(
                        pre.take(i + 1 as int),
                        current_block_height as int,
                        current_group_index as int,
                    ));
                }
            } else {
                proof {
                    if !handled {
                        assert(self.bls_tasks@[i as int].0@ == pre[i as int].0@);
                        assert(!task_available(
                            pre[i as int].0,
                            current_block_height as int,
                            current_group_index as int,
                        ));
                    }
                    assert(available_tasks.deep_view() =~= spec_available_tasks(
                        pre.take(i + 1 as int),
                        current_block_height as int,
                        current_group_index as int,
                    ));
                }
            }
            i = i + 1;
        }
        proof {
            assert(pre.take(pre.len() as int) =~= pre);
        }
        available_tasks
    }
}

impl BLSTasksFetcher for InMemoryBLSTasksQueue {
    /// Whether a task with this index has been observed.
    fn contains(&self, task_index: usize) -> (r: bool)
        ensures
            r == exists|i: int|
                0 <= i < self.bls_tasks@.len() && (#[trigger] self.bls_tasks@[i]).0.index
                    == task_index,
    {
        let mut i: usize = 0;
        while i < self.bls_tasks.len()
            invariant
                i <= self.bls_tasks@.len(),
                forall|k: int| 0 <= k < i ==> (#[trigger] self.bls_tasks@[k]).0.index != task_index,
            decreases self.bls_tasks@.len() - i,
        {
            if self.bls_tasks[i].0.index == task_index {
                proof {
                    assert(self.bls_tasks@[i as int].0.index == task_index);
                }
                return true;
            }
            i = i + 1;
        }
        false
    }

    /// The task at this queue position, if one has arrived.
    fn get(&self, task_index: usize) -> (r: Option<&SignatureTask>)
        ensures
            task_index < self.bls_tasks@.len() ==> r == Some(
                &self.bls_tasks@[task_index as int].0,
            ),
            task_index >= self.bls_tasks@.len() ==> r is None,
    {
        if task_index < self.bls_tasks.len() {
            Some(&self.bls_tasks[task_index].0)
        } else {
            None
        }
    }

    /// Whether the task at this queue position has been handled; absent
    /// positions count as unhandled.
    fn is_handled(&self, task_index: usize) -> (r: bool)
        ensures
            task_index < self.bls_tasks@.len() ==> r == self.bls_tasks@[task_index as int].1,
            task_index >= self.bls_tasks@.len() ==> r == false,
    {
        if task_index < self.bls_tasks.len() {
            self.bls_tasks[task_index].1
        } else {
            false
        }
    }
}

/// A committer's collection of partial signatures for one task.
pub struct SignatureResultCache {
    pub group_index: usize,
    pub signature_index: usize,
    pub threshold: usize,
    pub partial_signatures: Vec<(String, Vec<u8>)>,
}

pub trait SignatureResultCacheFetcher {
    fn contains(&self, signature_index: usize) -> bool;
}

/// Whether a cache entry for a given task index exists.
pub open spec fn has_result_cache(caches: Seq<SignatureResultCache>, index: int) -> bool {
    exists|i: int| 0 <= i < caches.len() && caches[i].signature_index == index
}

pub open spec fn result_cache_idx(caches: Seq<SignatureResultCache>, index: int) -> int {
    choose|i: int| 0 <= i < caches.len() && caches[i].signature_index == index
}

/// The committer-side store of partial signatures, keyed by task index.
pub struct InMemorySignatureResultCache {
    pub signature_result_caches: Vec<SignatureResultCache>,
}

impl InMemorySignatureResultCache {
    pub open spec fn wf(self) -> bool {
        forall|i: int, j: int|
            0 <= i < j < self.signature_result_caches@.len()
                ==> self.signature_result_caches@[i].signature_index
                != self.signature_result_caches@[j].signature_index
    }

    pub fn new() -> (r: Self)
        ensures
            r.wf(),
            r.signature_result_caches@.len() == 0,
    {
        InMemorySignatureResultCache { signature_result_caches: Vec::new() }
    }

    fn find(&self, signature_index: usize) -> (r: Option<usize>)
        ensures
            match r {
                Some(i) => 0 <= i < self.signature_result_caches@.len()
                    && self.signature_result_caches@[i as int].signature_index
                    == signature_index,
                None => !has_result_cache(
                    self.signature_result_caches@,
                    signature_index as int,
                ),
            },
    {
        let mut i: usize = 0;
        while i < self.signature_result_caches.len()
            invariant
                i <= self.signature_result_caches@.len(),
                forall|k: int|
                    0 <= k < i ==> self.signature_result_caches@[k].signature_index
                        != signature_index,
            decreases self.signature_result_caches@.len() - i,
        {
            if self.signature_result_caches[i].signature_index == signature_index {
                return Some(i);
            }
            i = i + 1;
        }
        None
    }

    /// Open a fresh, empty collection for a task (replacing any previous
    /// one for the same index).
    pub fn add(&mut self, group_index: usize, signature_index: usize, threshold: usize) -> (r:
        NodeResult<bool>)
        requires
            old(self).wf(),
        ensures
            final(self).wf(),
            r == NodeResult::<bool>::Ok(true),
            has_result_cache(final(self).signature_result_caches@, signature_index as int),
            ({
                let e = final(self).signature_result_caches@[result_cache_idx(
                    final(self).signature_result_caches@,
                    signature_index as int,
                )];
                e.group_index == group_index && e.threshold == threshold
                    && e.partial_signatures@.len() == 0
            }),
    {
        let fresh = SignatureResultCache {
            group_index,
            signature_index,
            threshold,
            partial_signatures: Vec::new(),
        };
        match self.find(signature_index) {
            Some(k) => {
                let ghost pre = self.signature_result_caches@;
                self.signature_result_caches.set(k, fresh);
                proof {
                    assert forall|a: int, b: int|
                        0 <= a < b < self.signature_result_caches@.len()
                            implies self.signature_result_caches@[a].signature_index
                            != self.signature_result_caches@[b].signature_index by {
                        if a != k as int {
                            assert(self.signature_result_caches@[a] == pre[a]);
                        }
                        if b != k as int {
                            assert(self.signature_result_caches@[b] == pre[b]);
                        }
                    }
                    result_cache_idx_is(
                        self.signature_result_caches@,
                        signature_index as int,
                        k as int,
                    );
                }
            },
            None => {
                let ghost pre = self.signature_result_caches@;
                self.signature_result_caches.push(fresh);
                proof {
                    assert forall|a: int, b: int|
                        0 <= a < b < self.signature_result_caches@.len()
                            implies self.signature_result_caches@[a].signature_index
                            != self.signature_result_caches@[b].signature_index by {
                        if b < self.signature_result_caches@.len() - 1 {
                            assert(self.signature_result_caches@[a] == pre[a]);
                            assert(self.signature_result_caches@[b] == pre[b]);
                        } else {
                            assert(self.signature_result_caches@[a] == pre[a]);
                        }
                    }
                    result_cache_idx_is(
                        self.signature_result_caches@,
                        signature_index as int,
                        self.signature_result_caches@.len() - 1,
                    );
                }
            },
        }
        Ok(true)
    }

    /// Drop the collection for a task, if any.
    pub fn remove(&mut self, signature_index: usize) -> (r: NodeResult<bool>)
        requires
            old(self).wf(),
        ensures
            final(self).wf(),
            r == NodeResult::<bool>::Ok(true),
            !has_result_cache(final(self).signature_result_caches@, signature_index as int),
    {
        match self.find(signature_index) {
            Some(k) => {
                let ghost pre = self.signature_result_caches@;
                let _ = self.signature_result_caches.remove(k);
                proof {
                    assert forall|a: int, b: int|
                        0 <= a < b < self.signature_result_caches@.len()
                            implies self.signature_result_caches@[a].signature_index
                            != self.signature_result_caches@[b].signature_index by {
                        let a0 = if a < k as int { a } else { a + 1 };
                        let b0 = if b < k as int { b } else { b + 1 };
                        assert(self.signature_result_caches@[a] == pre[a0]);
                        assert(self.signature_result_caches@[b] == pre[b0]);
                    }
                    assert forall|a: int|
                        0 <= a < self.signature_result_caches@.len()
                            implies (#[trigger] self.signature_result_caches@[a]).signature_index
                            != signature_index by {
                        let a0 = if a < k as int { a } else { a + 1 };
                        assert(self.signature_result_caches@[a] == pre[a0]);
                        if pre[a0].signature_index == signature_index && a0 != k as int {
                            if a0 < k as int {
                                assert(pre[a0].signature_index != pre[k as int].signature_index);
                            } else {
                                assert(pre[k as int].signature_index != pre[a0].signature_index);
                            }
                        }
                    }
                }
            },
            None => {},
        }
        Ok(true)
    }

    /// Store a member's partial signature for a task, replacing an earlier
    /// one from the same member; fails when no collection is open for the
    /// task.
    pub fn add_partial_signature(
        &mut self,
        signature_index: usize,
        member_address: String,
        partial_signature: Vec<u8>,
    ) -> (r: NodeResult<bool>)
        requires
            old(self).wf(),
        ensures
            final(self).wf(),
            !has_result_cache(old(self).signature_result_caches@, signature_index as int) ==> r
                == NodeResult::<bool>::Err(NodeError::CommitterCacheNotExisted) && *final(self)
                == *old(self),
            has_result_cache(old(self).signature_result_caches@, signature_index as int) ==> ({
                let i = result_cache_idx(
                    old(self).signature_result_caches@,
                    signature_index as int,
                );
                let e = final(self).signature_result_caches@[i];
                &&& r == NodeResult::<bool>::Ok(true)
                &&& final(self).signature_result_caches@.len() == old(
                    self,
                ).signature_result_caches@.len()
                &&& e.signature_index == signature_index
                &&& exists|p: int|
                    0 <= p < e.partial_signatures@.len() && (#[trigger] e.partial_signatures@[p]).0@
                        == member_address@ && e.partial_signatures@[p].1@ == partial_signature@
            }),
    {
        let k = match self.find(signature_index) {
            Some(k) => k,
            None => {
                return Err(NodeError::CommitterCacheNotExisted);
            },
        };
        proof {
            result_cache_idx_is(
                self.signature_result_caches@,
                signature_index as int,
                k as int,
            );
        }
        let ghost pre = self.signature_result_caches@;
        let entry = &mut self.signature_result_caches[k];
        let mut p: usize = 0;
        let n = entry.partial_signatures.len();
        let mut replaced = false;
        while p < n && !replaced
            invariant
                n == entry.partial_signatures@.len(),
                p <= n,
                entry.signature_index == pre[k as int].signature_index,
                replaced ==> exists|q: int|
                    0 <= q < entry.partial_signatures@.len()
                        && (#[trigger] entry.partial_signatures@[q]).0@ == member_address@
                        && entry.partial_signatures@[q].1@ == partial_signature@,
            decreases n - p + (if replaced {
                0int
            } else {
                1int
            }),
        {
            if entry.partial_signatures[p].0 == member_address {
                let pair = &mut entry.partial_signatures[p];
                pair.1 = crate::coordinator::clone_bytes(&partial_signature);
                proof {
                    assert(entry.partial_signatures@[p as int].0@ == member_address@);
                    assert(entry.partial_signatures@[p as int].1@ == partial_signature@);
                }
                replaced = true;
            } else {
                p = p + 1;
            }
        }
        if !replaced {
            entry.partial_signatures.push((member_address, partial_signature));
            proof {
                assert(entry.partial_signatures@.last().0@ == member_address@);
            }
        }
        proof {
            assert forall|a: int, b: int|
                0 <= a < b < self.signature_result_caches@.len()
                    implies self.signature_result_caches@[a].signature_index
                    != self.signature_result_caches@[b].signature_index by {
                if a != k as int {
                    assert(self.signature_result_caches@[a] == pre[a]);
                }
                if b != k as int {
                    assert(self.signature_result_caches@[b] == pre[b]);
                }
            }
        }
        Ok(true)
    }

    /// The collections that have reached their threshold and are ready to
    /// be aggregated and committed: one copy per such collection, none
    /// missed.
    pub fn get_ready_to_commit_signatures(&self) -> (r: Vec<SignatureResultCache>)
        ensures
            forall|i: int|
                0 <= i < r@.len() ==> (#[trigger] r@[i]).partial_signatures@.len()
                    >= r@[i].threshold,
            forall|i: int|
                0 <= i < r@.len() ==> has_result_cache(
                    self.signature_result_caches@,
                    (#[trigger] r@[i]).signature_index as int,
                ),
            forall|i: int|
                0 <= i < self.signature_result_caches@.len()
                    && (#[trigger] self.signature_result_caches@[i]).partial_signatures@.len()
                    >= self.signature_result_caches@[i].threshold ==> exists|j: int|
                    0 <= j < r@.len() && (#[trigger] r@[j]).signature_index
                        == self.signature_result_caches@[i].signature_index,
    {
        let mut r: Vec<SignatureResultCache> = Vec::new();
        let mut i: usize = 0;
        while i < self.signature_result_caches.len()
            invariant
                i <= self.signature_result_caches@.len(),
                forall|t: int|
                    0 <= t < r@.len() ==> (#[trigger] r@[t]).partial_signatures@.len()
                        >= r@[t].threshold,
                forall|t: int|
                    0 <= t < r@.len() ==> has_result_cache(
                        self.signature_result_caches@,
                        (#[trigger] r@[t]).signature_index as int,
                    ),
                forall|t: int|
                    0 <= t < i && (#[trigger] self.signature_result_caches@[t]).partial_signatures@.len()
                        >= self.signature_result_caches@[t].threshold ==> exists|j: int|
                        0 <= j < r@.len() && (#[trigger] r@[j]).signature_index
                            == self.signature_result_caches@[t].signature_index,
            decreases self.signature_result_caches@.len() - i,
        {
            let ghost before = r@;
            let e = &self.signature_result_caches[i];
            if e.partial_signatures.len() >= e.threshold {
                let copy = clone_result_cache(e);
                proof {
                    assert(self.signature_result_caches@[i as int].signature_index
                        == copy.signature_index);
                    assert(has_result_cache(
                        self.signature_result_caches@,
                        copy.signature_index as int,
                    ));
                }
                r.push(copy);
            }
            proof {
                assert forall|t: int|
                    0 <= t <= i && (#[trigger] self.signature_result_caches@[t]).partial_signatures@.len()
                        >= self.signature_result_caches@[t].threshold implies exists|j: int|
                        0 <= j < r@.len() && (#[trigger] r@[j]).signature_index
                            == self.signature_result_caches@[t].signature_index by {
                    if t < i {
                        let j = choose|j: int|
                            0 <= j < before.len() && (#[trigger] before[j]).signature_index
                                == self.signature_result_caches@[t].signature_index;
                        assert(r@[j].signature_index
                            == self.signature_result_caches@[t].signature_index);
                    } else {
                        assert(r@[r@.len() - 1].signature_index
                            == self.signature_result_caches@[t].signature_index);
                    }
                }
            }
            i = i + 1;
        }
        r
    }
}

impl SignatureResultCacheFetcher for InMemorySignatureResultCache {
    fn contains(&self, signature_index: usize) -> (r: bool)
        ensures
            r == has_result_cache(self.signature_result_caches@, signature_index as int),
    {
        match self.find(signature_index) {
            Some(k) => {
                proof {
                    assert(self.signature_result_caches@[k as int].signature_index
                        == signature_index);
                }
                true
            },
            None => false,
        }
    }
}

fn clone_result_cache(e: &SignatureResultCache) -> (r: SignatureResultCache)
    ensures
        r.group_index == e.group_index,
        r.signature_index == e.signature_index,
        r.threshold == e.threshold,
        r.partial_signatures@.len() == e.partial_signatures@.len(),
        forall|i: int|
            0 <= i < e.partial_signatures@.len() ==> (#[trigger] r.partial_signatures@[i]).0@
                == e.partial_signatures@[i].0@ && r.partial_signatures@[i].1@
                == e.partial_signatures@[i].1@,
{
    let mut partial_signatures: Vec<(String, Vec<u8>)> = Vec::new();
    let mut i: usize = 0;
    while i < e.partial_signatures.len()
        invariant
            i <= e.partial_signatures@.len(),
            partial_signatures@.len() == i,
            forall|k: int|
                0 <= k < i ==> (#[trigger] partial_signatures@[k]).0@
                    == e.partial_signatures@[k].0@ && partial_signatures@[k].1@
                    == e.partial_signatures@[k].1@,
        decreases e.partial_signatures@.len() - i,
    {
        partial_signatures.push(
            (
                e.partial_signatures[i].0.clone(),
                crate::coordinator::clone_bytes(&e.partial_signatures[i].1),
            ),
        );
        i = i + 1;
    }
    SignatureResultCache {
        group_index: e.group_index,
        signature_index: e.signature_index,
        threshold: e.threshold,
        partial_signatures,
    }
}

/// Pins `result_cache_idx` to a concrete position.
pub proof fn result_cache_idx_is(caches: Seq<SignatureResultCache>, index: int, i: int)
    requires
        0 <= i < caches.len(),
        caches[i].signature_index == index,
        forall|a: int, b: int|
            0 <= a < b < caches.len() ==> caches[a].signature_index != caches[b].signature_index,
    ensures
        has_result_cache(caches, index),
        result_cache_idx(caches, index) == i,
{
    assert(has_result_cache(caches, index));
    let j = result_cache_idx(caches, index);
    if i < j {
        assert(caches[i].signature_index != caches[j].signature_index);
    } else if j < i {
        assert(caches[j].signature_index != caches[i].signature_index);
    }
}

} // verus!
