//! The decision steps of the node runtime's listeners: epoch freshness
//! checks before acting on cached data, partial signing of an available
//! task, and aggregation once a committer has gathered enough partials.
//! The surrounding polling loops and transports live outside the library
//! and call these steps with plain values.

use vstd::prelude::*;

use crate::bls;
use crate::controller::DKGTask;
use crate::node::cache::{
    has_result_cache, result_cache_idx, InMemorySignatureResultCache, SignatureResultCacheFetcher,
};
use crate::node::errors::{NodeError, NodeResult};
use crate::node::group_cache::{find_node_member, node_member_idx, InMemoryGroupInfoCache};

verus! {

/// Whether a DKG task still speaks about the group round the node has
/// cached: the group index must match and the task's epoch must not be
/// older than the cached epoch.
pub fn check_epoch_valid(task: &DKGTask, cache_index: usize, cache_epoch: usize) -> (r: NodeResult<
    (),
>)
    ensures
        task.group_index != cache_index ==> r == NodeResult::<()>::Err(
            NodeError::GroupIndexObsolete(cache_index),
        ),
        task.group_index == cache_index && task.epoch < cache_epoch ==> r == NodeResult::<()>::Err(
            NodeError::GroupEpochObsolete(cache_epoch),
        ),
        task.group_index == cache_index && task.epoch >= cache_epoch ==> r is Ok,
{
    if task.group_index != cache_index {
        return Err(NodeError::GroupIndexObsolete(cache_index));
    }
    if task.epoch < cache_epoch {
        return Err(NodeError::GroupEpochObsolete(cache_epoch));
    }
    Ok(())
}

/// Partially sign a task's message with the node's secret share. Signing is
/// deterministic, so this succeeds exactly when the external scheme can sign
/// with these arguments (the share decodes and the message maps onto the
/// curve).
pub fn sign_task_message(share: &Vec<u8>, message: &str) -> (r: NodeResult<Vec<u8>>)
    ensures
        r is Ok <==> bls::partial_signature_of(share@, message@) is Some,
        r is Ok ==> r->Ok_0@ == bls::partial_signature_of(share@, message@)->0,
        r is Err ==> r == NodeResult::<Vec<u8>>::Err(NodeError::ShareBadFormat),
{
    match bls::bls_partial_sign(share, message) {
        Some(signature) => Ok(signature),
        None => Err(NodeError::ShareBadFormat),
    }
}

/// Aggregate the gathered partial signatures into the group's threshold
/// signature. Refused while fewer than `threshold` partials stand, and when
/// two partials carry the same share index (the external recovery cannot
/// use such a pair). Success is owed whenever enough partials are given,
/// their indices are distinct, and every partial decodes.
pub fn aggregate_partials(threshold: usize, partials: &Vec<Vec<u8>>) -> (r: NodeResult<Vec<u8>>)
    ensures
        r is Ok ==> r->Ok_0@ == bls::aggregate_of(threshold as int, partials.deep_view())
            && partials@.len() >= threshold,
        partials@.len() < threshold ==> r == NodeResult::<Vec<u8>>::Err(
            NodeError::GroupWaitingForConsensus,
        ),
        (threshold <= partials@.len() && (forall|a: int, b: int|
            0 <= a < b < partials@.len() && bls::spec_partial_index(partials@[a]@) is Some
                && bls::spec_partial_index(partials@[b]@) is Some ==> bls::spec_partial_index(
                partials@[a]@,
            ) != bls::spec_partial_index(partials@[b]@)) && (forall|i: int|
            0 <= i < partials@.len() ==> bls::is_partial_signature_encoding(
                #[trigger] partials@[i]@,
            ))) ==> r is Ok,
{
    if partials.len() < threshold {
        return Err(NodeError::GroupWaitingForConsensus);
    }
    // the external recovery picks partials by share index; a duplicated
    // index cannot be used, so it is refused here
    let mut indices: Vec<u32> = Vec::new();
    let n = partials.len();
    let mut i: usize = 0;
    while i < n
        invariant
            threshold <= partials@.len(),
            n == partials@.len(),
            i <= n,
            forall|k: int|
                0 <= k < indices@.len() ==> exists|p: int|
                    0 <= p < i && bls::spec_partial_index(partials@[p]@) == Some(
                        #[trigger] indices@[k],
                    ),
            forall|a: int, b: int|
                0 <= a < b < indices@.len() ==> indices@[a] != indices@[b],
            forall|p: int|
                0 <= p < i && bls::spec_partial_index(#[trigger] partials@[p]@) is Some
                    ==> indices@.contains(bls::spec_partial_index(partials@[p]@)->0),
            forall|a: int, b: int|
                0 <= a < b < i && bls::spec_partial_index(partials@[a]@) is Some
                    && bls::spec_partial_index(partials@[b]@) is Some
                    ==> bls::spec_partial_index(partials@[a]@) != bls::spec_partial_index(
                    partials@[b]@,
                ),
        decreases n - i,
    {
        match bls::partial_signature_index(&partials[i]) {
            Some(index) => {
                let mut k: usize = 0;
                let mut duplicate = false;
                while k < indices.len()
                    invariant
                        k <= indices@.len(),
                        duplicate ==> indices@.contains(index),
                        !duplicate ==> forall|t: int| 0 <= t < k ==> indices@[t] != index,
                    decreases indices@.len() - k,
                {
                    if indices[k] == index {
                        proof {
                            assert(indices@[k as int] == index);
                        }
                        duplicate = true;
                    }
                    k = k + 1;
                }
                if duplicate {
                    return Err(NodeError::DuplicatePartialSignature);
                }
                let ghost pre_indices = indices@;
                indices.push(index);
                proof {
                    assert(indices@[indices@.len() - 1] == index);
                    assert forall|kk: int|
                        0 <= kk < indices@.len() implies exists|p: int|
                            0 <= p < i + 1 && bls::spec_partial_index(partials@[p]@) == Some(
                                #[trigger] indices@[kk],
                            ) by {
                        if kk < indices@.len() - 1 {
                            assert(indices@[kk] == pre_indices[kk]);
                            let p = choose|p: int|
                                0 <= p < i && bls::spec_partial_index(partials@[p]@) == Some(
                                    pre_indices[kk],
                                );
                            assert(bls::spec_partial_index(partials@[p]@) == Some(indices@[kk]));
                        } else {
                            assert(bls::spec_partial_index(partials@[i as int]@) == Some(
                                indices@[kk],
                            ));
                        }
                    }
                    assert forall|p: int|
                        0 <= p < i + 1 && bls::spec_partial_index(
                            #[trigger] partials@[p]@,
                        ) is Some implies indices@.contains(
                        bls::spec_partial_index(partials@[p]@)->0,
                    ) by {
                        if p < i {
                            assert(pre_indices.contains(
                                bls::spec_partial_index(partials@[p]@)->0,
                            ));
                            let w = choose|w: int|
                                0 <= w < pre_indices.len() && pre_indices[w]
                                    == bls::spec_partial_index(partials@[p]@)->0;
                            assert(indices@[w] == bls::spec_partial_index(partials@[p]@)->0);
                        } else {
                            assert(indices@[indices@.len() - 1] == bls::spec_partial_index(
                                partials@[p]@,
                            )->0);
                        }
                    }
                }
            },
            None => {},
        }
        i = i + 1;
    }
    match bls::bls_aggregate(threshold, partials) {
        Some(signature) => Ok(signature),
        None => Err(NodeError::GroupWaitingForConsensus),
    }
}

/// The committer's receipt of a peer's partial signature (the committer RPC
/// surface): the sender must be a member of the ready group and the partial
/// must verify against the sender's partial public key and the task
/// message; then a collection for the task is opened if none stands (seeded
/// with the group's index and threshold) and the partial stored under the
/// sender's address.
pub fn commit_partial_signature(
    group_cache: &InMemoryGroupInfoCache,
    committer_cache: &mut InMemorySignatureResultCache,
    sender_id_address: &String,
    message: &str,
    signature_index: usize,
    partial_signature: Vec<u8>,
) -> (r: NodeResult<bool>)
    requires
        old(committer_cache).wf(),
    ensures
        final(committer_cache).wf(),
        !crate::node::group_cache::has_node_member(group_cache.group, sender_id_address@) ==> r
            == NodeResult::<bool>::Err(NodeError::MemberNotExisted) && *final(committer_cache)
            == *old(committer_cache),
        (crate::node::group_cache::has_node_member(group_cache.group, sender_id_address@)
            && !group_cache.group.state) ==> r == NodeResult::<bool>::Err(NodeError::GroupNotReady)
            && *final(committer_cache) == *old(committer_cache),
        (crate::node::group_cache::has_node_member(group_cache.group, sender_id_address@)
            && group_cache.group.state && !bls::partial_signature_valid(
            group_cache.group.members@[node_member_idx(
                group_cache.group,
                sender_id_address@,
            )].partial_public_key@,
            message@,
            partial_signature@,
        ) && (forall|a: int, b: int|
            0 <= a < b < group_cache.group.members@.len()
                ==> group_cache.group.members@[a].id_address@
                != group_cache.group.members@[b].id_address@)) ==> r == NodeResult::<bool>::Err(
            NodeError::PartialSignatureVerifyFailed,
        ) && *final(committer_cache) == *old(committer_cache),
        r is Ok ==> ({
            &&& crate::node::group_cache::has_node_member(group_cache.group, sender_id_address@)
            &&& group_cache.group.state
            &&& r == NodeResult::<bool>::Ok(true)
            &&& has_result_cache(
                final(committer_cache).signature_result_caches@,
                signature_index as int,
            )
            &&& ({
                let e = final(committer_cache).signature_result_caches@[result_cache_idx(
                    final(committer_cache).signature_result_caches@,
                    signature_index as int,
                )];
                &&& e.signature_index == signature_index
                &&& exists|p: int|
                    0 <= p < e.partial_signatures@.len()
                        && (#[trigger] e.partial_signatures@[p]).0@ == sender_id_address@
                        && e.partial_signatures@[p].1@ == partial_signature@
            })
        }),
{
    let member_pos = match find_node_member(&group_cache.group, sender_id_address) {
        Some(p) => p,
        None => {
            return Err(NodeError::MemberNotExisted);
        },
    };
    if !group_cache.group.state {
        return Err(NodeError::GroupNotReady);
    }
    let valid = bls::bls_partial_verify(
        &group_cache.group.members[member_pos].partial_public_key,
        message,
        &partial_signature,
    );
    if !valid {
        proof {
            if forall|a: int, b: int|
                0 <= a < b < group_cache.group.members@.len()
                    ==> group_cache.group.members@[a].id_address@
                    != group_cache.group.members@[b].id_address@ {
                crate::node::group_cache::node_member_idx_is(
                    group_cache.group,
                    sender_id_address@,
                    member_pos as int,
                );
            }
        }
        return Err(NodeError::PartialSignatureVerifyFailed);
    }
    if !committer_cache.contains(signature_index) {
        let ar = committer_cache.add(
            group_cache.group.index,
            signature_index,
            group_cache.group.threshold,
        );
        proof {
            assert(ar is Ok);
        }
    }
    let pr = committer_cache.add_partial_signature(
        signature_index,
        sender_id_address.clone(),
        partial_signature,
    );
    proof {
        assert(pr is Ok);
    }
    Ok(true)
}

} // verus!
