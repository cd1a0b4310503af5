use randcast_mock_demo::controller::{Controller, SignatureTask};
use randcast_mock_demo::node::cache::{
    BLSTasksFetcher, BlockInfoFetcher, BlockInfoUpdater, InMemoryBLSTasksQueue,
    InMemoryBlockInfoCache, InMemorySignatureResultCache, SignatureResultCacheFetcher,
};
use randcast_mock_demo::node::errors::NodeError;
use randcast_mock_demo::node::runtime::{
    aggregate_partials, check_epoch_valid, commit_partial_signature, sign_task_message,
};
use randcast_mock_demo::node::types::{
    GroupRelayConfirmationTaskState, Status, Task, TaskType,
};
use threshold_bls::poly::{Idx, Poly};
use threshold_bls::schemes::bls12_381::G1Scheme;
use threshold_bls::sig::{Share, SignatureScheme};

fn task(index: usize, group_index: usize, assignment_block_height: usize) -> SignatureTask {
    SignatureTask {
        index,
        message: format!("m{}", index),
        group_index,
        assignment_block_height,
    }
}

#[test]
fn block_cache_roundtrip() {
    let mut cache = InMemoryBlockInfoCache::new();
    assert_eq!(cache.get_block_height(), 0);
    cache.set_block_height(42);
    assert_eq!(cache.get_block_height(), 42);
}

#[test]
fn task_queue_fallback_window() {
    let mut queue = InMemoryBLSTasksQueue::new();
    queue.add(task(0, 1, 100)).unwrap();
    queue.add(task(1, 2, 100)).unwrap();
    assert!(queue.contains(0));
    assert!(!queue.contains(9));
    assert!(!queue.is_handled(0));
    // own-group tasks are available at once; the other group's task only
    // after the ten-block fallback window
    let now = queue.check_and_get_available_tasks(105, 1);
    assert_eq!(now.len(), 1);
    assert_eq!(now[0].index, 0);
    assert!(queue.is_handled(0));
    let nothing = queue.check_and_get_available_tasks(105, 1);
    assert!(nothing.is_empty());
    let later = queue.check_and_get_available_tasks(111, 1);
    assert_eq!(later.len(), 1);
    assert_eq!(later[0].index, 1);
    assert_eq!(later[0].index(), 1);
}

#[test]
fn signature_result_cache_thresholds() {
    let mut cache = InMemorySignatureResultCache::new();
    assert!(!cache.contains(7));
    assert_eq!(
        cache.add_partial_signature(7, String::from("0x0"), vec![1]),
        Err(NodeError::CommitterCacheNotExisted)
    );
    cache.add(1, 7, 2).unwrap();
    assert!(cache.contains(7));
    cache
        .add_partial_signature(7, String::from("0x0"), vec![1])
        .unwrap();
    assert!(cache.get_ready_to_commit_signatures().is_empty());
    cache
        .add_partial_signature(7, String::from("0x1"), vec![2])
        .unwrap();
    let ready = cache.get_ready_to_commit_signatures();
    assert_eq!(ready.len(), 1);
    assert_eq!(ready[0].signature_index, 7);
    assert_eq!(ready[0].partial_signatures.len(), 2);
    cache.remove(7).unwrap();
    assert!(!cache.contains(7));
}

#[test]
fn epoch_freshness_decisions() {
    let t = randcast_mock_demo::controller::DKGTask {
        group_index: 1,
        epoch: 3,
        size: 3,
        threshold: 3,
        members: vec![],
        assignment_block_height: 100,
        coordinator_address: String::from("0xcontroller_address"),
    };
    assert_eq!(
        check_epoch_valid(&t, 2, 3),
        Err(NodeError::GroupIndexObsolete(2))
    );
    assert_eq!(
        check_epoch_valid(&t, 1, 4),
        Err(NodeError::GroupEpochObsolete(4))
    );
    assert!(check_epoch_valid(&t, 1, 3).is_ok());
}

#[test]
fn partial_sign_and_aggregate_produce_valid_threshold_signature() {
    let mut rng = rand::thread_rng();
    let private_poly =
        Poly::<threshold_bls::curve::bls12381::Scalar>::new_from(2, &mut rng);
    let public_poly = private_poly.commit::<threshold_bls::curve::bls12381::G1>();
    let message = "a message to sign";
    let mut partials: Vec<Vec<u8>> = Vec::new();
    for i in 0..3u32 {
        let eval = private_poly.eval(i as Idx);
        let share = Share {
            index: eval.index,
            private: eval.value,
        };
        let share_bytes = bincode::serialize(&share).unwrap();
        let partial = sign_task_message(&share_bytes, message).unwrap();
        partials.push(partial);
    }
    // below the threshold the aggregation is refused
    let two = vec![partials[0].clone(), partials[1].clone()];
    assert!(aggregate_partials(3, &two).is_err());
    let signature = aggregate_partials(3, &partials).unwrap();
    // the aggregate verifies under the group public key
    G1Scheme::verify(public_poly.public_key(), message.as_bytes(), &signature).unwrap();
}

#[test]
fn wire_enum_conversions() {
    assert!(Status::from_bool(true).is_success());
    assert!(!Status::from_bool(false).is_success());
    assert_eq!(TaskType::Randomness.to_i32(), 0);
    assert_eq!(TaskType::GroupRelay.to_i32(), 1);
    assert_eq!(TaskType::GroupRelayConfirmation.to_i32(), 2);
    assert!(matches!(TaskType::from_i32(1), TaskType::GroupRelay));
    assert_eq!(GroupRelayConfirmationTaskState::Available.to_i32(), 1);
    assert!(matches!(
        GroupRelayConfirmationTaskState::from_i32(2),
        GroupRelayConfirmationTaskState::Invalid
    ));
}

#[test]
fn controller_view_reads() {
    let controller = Controller::new(9, String::from("0xcontroller_address"));
    assert_eq!(controller.get_last_output(), 9);
    assert!(controller.pending_signature_tasks().is_empty());
    assert!(controller.verifiable_signature_rewards().is_empty());
    assert!(!controller.get_signature_task_completion_state(0));
}

#[test]
fn group_cache_tracks_the_round() {
    let mut cache = randcast_mock_demo::node::group_cache::InMemoryGroupInfoCache::new();
    assert_eq!(cache.get_index(), Err(NodeError::NoGroupTask));
    let t = randcast_mock_demo::controller::DKGTask {
        group_index: 1,
        epoch: 2,
        size: 3,
        threshold: 3,
        members: vec![
            (String::from("0x0"), 0),
            (String::from("0x1"), 1),
            (String::from("0x2"), 2),
        ],
        assignment_block_height: 100,
        coordinator_address: String::from("0xcontroller_address"),
    };
    cache.save_task_info(1, &t).unwrap();
    assert_eq!(cache.get_index(), Ok(1));
    assert_eq!(cache.get_epoch(), Ok(2));
    assert_eq!(cache.get_state(), Ok(false));
    assert_eq!(cache.get_secret_share(), Err(NodeError::GroupNotReady));
    // a stale round is refused
    assert_eq!(
        cache.save_output(1, 1, vec![7], vec![9], vec![]),
        Err(NodeError::GroupEpochObsolete(2))
    );
    // node 2 is disqualified by the round's outcome
    let (pk, own_ppk, disqualified) = cache
        .save_output(
            1,
            2,
            vec![7, 7],
            vec![9, 9],
            vec![(0, vec![1]), (1, vec![2])],
        )
        .unwrap();
    assert_eq!(pk, vec![9, 9]);
    assert_eq!(own_ppk, vec![2]);
    assert_eq!(disqualified, vec![String::from("0x2")]);
    assert_eq!(cache.get_secret_share().unwrap(), &vec![7u8, 7u8]);
    cache
        .save_committers(1, 2, vec![String::from("0x0"), String::from("0x1")])
        .unwrap();
    assert_eq!(cache.get_state(), Ok(true));
    assert_eq!(cache.is_committer(&String::from("0x0")), Ok(true));
    assert_eq!(cache.is_committer(&String::from("0x2")), Ok(false));
    // once ready, further outputs are refused
    assert_eq!(
        cache.save_committers(1, 2, vec![]),
        Err(NodeError::GroupAlreadyReady)
    );
}

#[test]
fn committer_receives_peer_partials() {
    let mut rng = rand::thread_rng();
    let private_poly =
        Poly::<threshold_bls::curve::bls12381::Scalar>::new_from(2, &mut rng);
    let public_poly = private_poly.commit::<threshold_bls::curve::bls12381::G1>();
    let message = "peer partial";
    // a ready group snapshot with member 0's partial public key
    let mut group_cache = randcast_mock_demo::node::group_cache::InMemoryGroupInfoCache::new();
    let t = randcast_mock_demo::controller::DKGTask {
        group_index: 1,
        epoch: 1,
        size: 3,
        threshold: 3,
        members: vec![
            (String::from("0x0"), 0),
            (String::from("0x1"), 1),
            (String::from("0x2"), 2),
        ],
        assignment_block_height: 100,
        coordinator_address: String::from("0xcontroller_address"),
    };
    group_cache.save_task_info(0, &t).unwrap();
    let qualified = (0..3u32)
        .map(|i| {
            (
                i as usize,
                bincode::serialize(&public_poly.eval(i as Idx).value).unwrap(),
            )
        })
        .collect::<Vec<_>>();
    let share0 = {
        let eval = private_poly.eval(0 as Idx);
        bincode::serialize(&Share { index: eval.index, private: eval.value }).unwrap()
    };
    group_cache
        .save_output(1, 1, share0.clone(), bincode::serialize(public_poly.public_key()).unwrap(), qualified)
        .unwrap();
    let mut committer_cache = InMemorySignatureResultCache::new();
    let partial = sign_task_message(&share0, message).unwrap();
    // the group is not ready until the committers are saved
    assert_eq!(
        commit_partial_signature(
            &group_cache,
            &mut committer_cache,
            &String::from("0x0"),
            message,
            4,
            partial.clone(),
        ),
        Err(NodeError::GroupNotReady)
    );
    group_cache
        .save_committers(1, 1, vec![String::from("0x0")])
        .unwrap();
    // an unknown sender is refused
    assert_eq!(
        commit_partial_signature(
            &group_cache,
            &mut committer_cache,
            &String::from("0x9"),
            message,
            4,
            partial.clone(),
        ),
        Err(NodeError::MemberNotExisted)
    );
    // a tampered partial is refused
    assert_eq!(
        commit_partial_signature(
            &group_cache,
            &mut committer_cache,
            &String::from("0x0"),
            message,
            4,
            vec![0xab; 96],
        ),
        Err(NodeError::PartialSignatureVerifyFailed)
    );
    assert!(!committer_cache.contains(4));
    // a sound partial is seeded and stored
    commit_partial_signature(
        &group_cache,
        &mut committer_cache,
        &String::from("0x0"),
        message,
        4,
        partial,
    )
    .unwrap();
    assert!(committer_cache.contains(4));
}

#[test]
fn aggregation_refuses_duplicate_share_indices() {
    let mut rng = rand::thread_rng();
    let private_poly =
        Poly::<threshold_bls::curve::bls12381::Scalar>::new_from(2, &mut rng);
    let message = "dup";
    let eval = private_poly.eval(0 as Idx);
    let share_bytes =
        bincode::serialize(&Share { index: eval.index, private: eval.value }).unwrap();
    let partial = sign_task_message(&share_bytes, message).unwrap();
    // three copies of the same partial reach the threshold in count but
    // carry one share index: the aggregation is refused, not attempted
    let partials = vec![partial.clone(), partial.clone(), partial];
    assert_eq!(
        aggregate_partials(3, &partials),
        Err(NodeError::DuplicatePartialSignature)
    );
}
