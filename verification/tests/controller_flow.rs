use randcast_mock_demo::controller::{
    Controller, RewardRecord, CHALLENGE_REWARD_PER_SIGNATURE, COMMITTER_PENALTY_PER_SIGNATURE,
    COORDINATOR_STATE_TRIGGER_REWARD, NODE_STAKING_AMOUNT,
};
use randcast_mock_demo::errors::ControllerError;
use threshold_bls::poly::{Idx, Poly};
use threshold_bls::schemes::bls12_381::G1Scheme;
use threshold_bls::sig::{Share, ThresholdScheme};

const INITIAL_ENTROPY: u64 = 0x8762_4875_6548_6346;

struct TestGroupKeys {
    shares: Vec<Share<threshold_bls::curve::bls12381::Scalar>>,
    public_key_bytes: Vec<u8>,
    partial_public_keys: Vec<Vec<u8>>,
}

fn make_group_keys(t: usize, n: usize) -> TestGroupKeys {
    let mut rng = rand::thread_rng();
    let private_poly =
        Poly::<threshold_bls::curve::bls12381::Scalar>::new_from(t - 1, &mut rng);
    let shares = (0..n)
        .map(|i| {
            let eval = private_poly.eval(i as Idx);
            Share {
                index: eval.index,
                private: eval.value,
            }
        })
        .collect::<Vec<_>>();
    let public_poly = private_poly.commit::<threshold_bls::curve::bls12381::G1>();
    let public_key_bytes = bincode::serialize(public_poly.public_key()).unwrap();
    let partial_public_keys = (0..n)
        .map(|i| bincode::serialize(&public_poly.eval(i as Idx).value).unwrap())
        .collect::<Vec<_>>();
    TestGroupKeys {
        shares,
        public_key_bytes,
        partial_public_keys,
    }
}

fn addr(i: usize) -> String {
    format!("0x{}", i)
}

/// Drive a fresh controller through registration and a unanimous DKG.
fn ready_controller(keys: &TestGroupKeys) -> Controller {
    let mut controller = Controller::new(INITIAL_ENTROPY, String::from("0xcontroller_address"));
    for i in 0..5 {
        controller
            .node_register(addr(i), format!("pk{}", i).into_bytes())
            .unwrap();
    }
    let dkg_task = controller.emit_dkg_task().unwrap();
    let group_index = dkg_task.group_index;
    let group_epoch = dkg_task.epoch;
    // member indices assign the partial public keys
    let member_indices = controller
        .get_group(group_index)
        .members
        .iter()
        .map(|m| (m.id_address.clone(), m.index))
        .collect::<Vec<_>>();
    for i in 0..5 {
        let id = addr(i);
        let member_index = member_indices
            .iter()
            .find(|(a, _)| *a == id)
            .map(|(_, idx)| *idx)
            .unwrap();
        let res = controller.commit_dkg(
            id,
            group_index,
            group_epoch,
            keys.public_key_bytes.clone(),
            keys.partial_public_keys[member_index].clone(),
            vec![],
        );
        res.unwrap();
    }
    assert!(controller.get_group(group_index).state);
    controller
}

#[test]
fn test() {
    let initial_entropy = 0x8762_4875_6548_6346;
    let mut controller = Controller::new(initial_entropy, String::from("0xcontroller_address"));
    let node_address = "0x1";
    controller.rewards.push(RewardRecord {
        id_address: node_address.to_string(),
        amount: 1000,
    });
    controller
        .claim(&node_address.to_string(), &node_address.to_string(), 200)
        .unwrap();
    println!("{:?}", controller.rewards[0].amount);
    assert_eq!(controller.rewards[0].amount, 800);
}

#[test]
fn happy_dkg_and_randomness() {
    let keys = make_group_keys(3, 5);
    let mut controller = ready_controller(&keys);
    let group = controller.get_group(1);
    assert!(group.state);
    assert!(!group.public_key.is_empty());
    assert_eq!(group.size, 5);
    assert_eq!(group.threshold, 3);
    assert_eq!(group.committers.len(), 3);
    // every committer is a member
    for c in group.committers.iter() {
        assert!(group.members.iter().any(|m| m.id_address == *c));
    }

    let height_at_request = controller.block_height;
    controller.request_randomness("ujehwsndfgljkhrlkg").unwrap();
    let task = controller.emit_signature_task().unwrap();
    let task_index = task.index;
    let message = task.message.clone();
    assert_eq!(task.group_index, 1);
    // the task message appends the block height and the previous output
    assert_eq!(
        message,
        format!("{}{}{}", "ujehwsndfgljkhrlkg", height_at_request, INITIAL_ENTROPY)
    );

    // sign the task's message with the member shares and aggregate
    let member_indices = controller
        .get_group(1)
        .members
        .iter()
        .map(|m| (m.id_address.clone(), m.index))
        .collect::<Vec<_>>();
    let partials = member_indices
        .iter()
        .map(|(_, idx)| {
            G1Scheme::partial_sign(&keys.shares[*idx], message.as_bytes()).unwrap()
        })
        .collect::<Vec<_>>();
    let signature = G1Scheme::aggregate(3, &partials).unwrap();
    let partial_signatures = member_indices
        .iter()
        .zip(partials.iter())
        .map(|((a, _), p)| (a.clone(), p.clone()))
        .collect::<Vec<_>>();

    // only the fulfilment by a committer lands, and only once
    let mut successes = 0;
    for i in 0..5 {
        let res = controller.fulfill_randomness(
            &addr(i),
            1,
            task_index,
            signature.clone(),
            partial_signatures.clone(),
        );
        if res.is_ok() {
            successes += 1;
        }
    }
    assert_eq!(successes, 1);
    assert_ne!(controller.get_last_output(), INITIAL_ENTROPY);
    assert!(controller.get_signature_task_completion_state(task_index));

    // round-robin over a single ready group assigns to it again
    controller.request_randomness("another").unwrap();
    assert_eq!(controller.emit_signature_task().unwrap().group_index, 1);
}

#[test]
fn late_commit_updates_only_partial_key() {
    let keys = make_group_keys(3, 5);
    let mut controller = Controller::new(INITIAL_ENTROPY, String::from("0xcontroller_address"));
    for i in 0..5 {
        controller
            .node_register(addr(i), format!("pk{}", i).into_bytes())
            .unwrap();
    }
    let dkg_task = controller.emit_dkg_task().unwrap();
    let group_epoch = dkg_task.epoch;
    let member_indices = controller
        .get_group(1)
        .members
        .iter()
        .map(|m| (m.id_address.clone(), m.index))
        .collect::<Vec<_>>();
    let index_of = |id: &str| {
        member_indices
            .iter()
            .find(|(a, _)| a == id)
            .map(|(_, idx)| *idx)
            .unwrap()
    };
    // three identical commitments make the group ready
    for i in 0..3 {
        controller
            .commit_dkg(
                addr(i),
                1,
                group_epoch,
                keys.public_key_bytes.clone(),
                keys.partial_public_keys[index_of(&addr(i))].clone(),
                vec![],
            )
            .unwrap();
    }
    assert!(controller.get_group(1).state);
    let committers_before = controller.get_group(1).committers.clone();
    let epoch_before = controller.get_group(1).epoch;
    // a late commitment only records the caller's partial public key
    controller
        .commit_dkg(
            addr(4),
            1,
            group_epoch,
            keys.public_key_bytes.clone(),
            keys.partial_public_keys[index_of(&addr(4))].clone(),
            vec![],
        )
        .unwrap();
    let group = controller.get_group(1);
    assert!(group.state);
    assert_eq!(group.committers, committers_before);
    assert_eq!(group.epoch, epoch_before);
    let member4 = group
        .members
        .iter()
        .find(|m| m.id_address == addr(4))
        .unwrap();
    assert_eq!(
        member4.partial_public_key,
        keys.partial_public_keys[index_of(&addr(4))]
    );
}

#[test]
fn disqualified_subset_is_slashed() {
    let keys = make_group_keys(3, 5);
    let mut controller = Controller::new(INITIAL_ENTROPY, String::from("0xcontroller_address"));
    for i in 0..5 {
        controller
            .node_register(addr(i), format!("pk{}", i).into_bytes())
            .unwrap();
    }
    let dkg_task = controller.emit_dkg_task().unwrap();
    let group_epoch = dkg_task.epoch;
    let member_indices = controller
        .get_group(1)
        .members
        .iter()
        .map(|m| (m.id_address.clone(), m.index))
        .collect::<Vec<_>>();
    let index_of = |id: &str| {
        member_indices
            .iter()
            .find(|(a, _)| a == id)
            .map(|(_, idx)| *idx)
            .unwrap()
    };
    // a majority of identical commitments disqualifying the bad node
    for i in 0..4 {
        controller
            .commit_dkg(
                addr(i),
                1,
                group_epoch,
                keys.public_key_bytes.clone(),
                keys.partial_public_keys[index_of(&addr(i))].clone(),
                vec![addr(4)],
            )
            .unwrap();
    }
    let group = controller.get_group(1);
    assert!(group.state);
    assert_eq!(group.size, 4);
    assert!(!group.members.iter().any(|m| m.id_address == addr(4)));
    assert_eq!(controller.get_node(&addr(4)).staking, 49000);
    // nobody else was slashed
    assert_eq!(controller.get_node(&addr(0)).staking, NODE_STAKING_AMOUNT);
}

#[test]
fn no_majority_timeout_wipes_group() {
    let keys = make_group_keys(3, 5);
    let other_keys = make_group_keys(3, 5);
    let mut controller = Controller::new(INITIAL_ENTROPY, String::from("0xcontroller_address"));
    for i in 0..5 {
        controller
            .node_register(addr(i), format!("pk{}", i).into_bytes())
            .unwrap();
    }
    let dkg_task = controller.emit_dkg_task().unwrap();
    let group_epoch = dkg_task.epoch;
    // only two members commit, and they disagree
    controller
        .commit_dkg(
            addr(0),
            1,
            group_epoch,
            keys.public_key_bytes.clone(),
            keys.partial_public_keys[0].clone(),
            vec![],
        )
        .unwrap();
    controller
        .commit_dkg(
            addr(1),
            1,
            group_epoch,
            other_keys.public_key_bytes.clone(),
            other_keys.partial_public_keys[1].clone(),
            vec![],
        )
        .unwrap();
    assert!(!controller.get_group(1).state);
    // before the coordinator's four phase windows run out the sweep is refused
    assert_eq!(
        controller.check_dkg_state(&String::from("0xtrigger"), 1),
        Err(ControllerError::CoordinatorNotEnded)
    );
    controller.mine(121).unwrap();
    controller
        .check_dkg_state(&String::from("0xtrigger"), 1)
        .unwrap();
    let group = controller.get_group(1);
    assert_eq!(group.size, 0);
    assert_eq!(group.members.len(), 0);
    let trigger_reward = controller
        .rewards
        .iter()
        .find(|r| r.id_address == "0xtrigger")
        .unwrap();
    assert_eq!(trigger_reward.amount, COORDINATOR_STATE_TRIGGER_REWARD);
    // all five were slashed
    for i in 0..5 {
        assert_eq!(controller.get_node(&addr(i)).staking, 49000);
    }
    // the coordinator instance is gone
    assert_eq!(
        controller.check_dkg_state(&String::from("0xtrigger"), 1),
        Err(ControllerError::CoordinatorNotExisted)
    );
}

#[test]
fn challenge_catches_tampered_partial() {
    let keys = make_group_keys(3, 5);
    let mut controller = ready_controller(&keys);
    controller.request_randomness("tamper").unwrap();
    let task = controller.emit_signature_task().unwrap();
    let task_index = task.index;
    let message = task.message.clone();
    let member_indices = controller
        .get_group(1)
        .members
        .iter()
        .map(|m| (m.id_address.clone(), m.index))
        .collect::<Vec<_>>();
    let partials = member_indices
        .iter()
        .map(|(_, idx)| {
            G1Scheme::partial_sign(&keys.shares[*idx], message.as_bytes()).unwrap()
        })
        .collect::<Vec<_>>();
    let signature = G1Scheme::aggregate(3, &partials).unwrap();
    let mut partial_signatures = member_indices
        .iter()
        .zip(partials.iter())
        .map(|((a, _), p)| (a.clone(), p.clone()))
        .collect::<Vec<(String, Vec<u8>)>>();
    // replace one partial with a garbage blob: the threshold signature
    // still verifies on-chain, so the fulfilment lands
    partial_signatures[1].1 = vec![0xab; 96];
    let committer = controller.get_group(1).committers[0].clone();
    controller
        .fulfill_randomness(
            &committer,
            1,
            task_index,
            signature.clone(),
            partial_signatures,
        )
        .unwrap();
    // the challenger catches the tampered entry
    let staking_before = controller.get_node(&committer).staking;
    controller
        .challenge_verifiable_reward(&String::from("0xchallenger"), task_index)
        .unwrap();
    assert_eq!(
        controller.get_node(&committer).staking,
        staking_before - COMMITTER_PENALTY_PER_SIGNATURE
    );
    let challenger_reward = controller
        .rewards
        .iter()
        .find(|r| r.id_address == "0xchallenger")
        .unwrap();
    assert_eq!(challenger_reward.amount, CHALLENGE_REWARD_PER_SIGNATURE);
    // the reward is gone
    assert_eq!(
        controller.challenge_verifiable_reward(&String::from("0xchallenger"), task_index),
        Err(ControllerError::VerifiableSignatureRewardNotExisted)
    );
}

#[test]
fn challenge_of_sound_reward_slashes_nobody() {
    let keys = make_group_keys(3, 5);
    let mut controller = ready_controller(&keys);
    controller.request_randomness("sound").unwrap();
    let task = controller.emit_signature_task().unwrap();
    let task_index = task.index;
    let message = task.message.clone();
    let member_indices = controller
        .get_group(1)
        .members
        .iter()
        .map(|m| (m.id_address.clone(), m.index))
        .collect::<Vec<_>>();
    let partials = member_indices
        .iter()
        .map(|(_, idx)| {
            G1Scheme::partial_sign(&keys.shares[*idx], message.as_bytes()).unwrap()
        })
        .collect::<Vec<_>>();
    let signature = G1Scheme::aggregate(3, &partials).unwrap();
    let partial_signatures = member_indices
        .iter()
        .zip(partials.iter())
        .map(|((a, _), p)| (a.clone(), p.clone()))
        .collect::<Vec<(String, Vec<u8>)>>();
    let committer = controller.get_group(1).committers[0].clone();
    controller
        .fulfill_randomness(&committer, 1, task_index, signature, partial_signatures)
        .unwrap();
    let staking_before = controller.get_node(&committer).staking;
    assert_eq!(
        controller.challenge_verifiable_reward(&String::from("0xchallenger"), task_index),
        Err(ControllerError::SignatureRewardVerifiedSuccessfully)
    );
    // nobody is slashed, and the reward is dropped
    assert_eq!(controller.get_node(&committer).staking, staking_before);
    assert_eq!(
        controller.challenge_verifiable_reward(&String::from("0xchallenger"), task_index),
        Err(ControllerError::VerifiableSignatureRewardNotExisted)
    );
}

#[test]
fn exclusive_window_blocks_other_groups() {
    let keys = make_group_keys(3, 5);
    let mut controller = ready_controller(&keys);
    controller.request_randomness("windowed").unwrap();
    let task_index = controller.emit_signature_task().unwrap().index;
    // inside the exclusive window another group index is refused outright
    assert_eq!(
        controller.fulfill_randomness(&addr(0), 2, task_index, vec![1], vec![]),
        Err(ControllerError::TaskStillExclusive)
    );
    // past the window the exclusivity no longer applies
    controller.mine(11).unwrap();
    assert_eq!(
        controller.fulfill_randomness(&addr(0), 2, task_index, vec![1], vec![]),
        Err(ControllerError::GroupNotExisted)
    );
}

#[test]
fn quit_gated_by_live_reward() {
    let keys = make_group_keys(3, 5);
    let mut controller = ready_controller(&keys);
    controller.request_randomness("gate").unwrap();
    let task = controller.emit_signature_task().unwrap();
    let task_index = task.index;
    let message = task.message.clone();
    let member_indices = controller
        .get_group(1)
        .members
        .iter()
        .map(|m| (m.id_address.clone(), m.index))
        .collect::<Vec<_>>();
    let partials = member_indices
        .iter()
        .map(|(_, idx)| {
            G1Scheme::partial_sign(&keys.shares[*idx], message.as_bytes()).unwrap()
        })
        .collect::<Vec<_>>();
    let signature = G1Scheme::aggregate(3, &partials).unwrap();
    let partial_signatures = member_indices
        .iter()
        .zip(partials.iter())
        .map(|((a, _), p)| (a.clone(), p.clone()))
        .collect::<Vec<(String, Vec<u8>)>>();
    let committer = controller.get_group(1).committers[0].clone();
    controller
        .fulfill_randomness(&committer, 1, task_index, signature, partial_signatures)
        .unwrap();
    // the committer of a live verifiable reward cannot quit
    assert_eq!(
        controller.node_quit(&committer),
        Err(ControllerError::VerifiableSignatureRewardAsCommitterExisted)
    );
    // once the reward expires the quit goes through
    controller.mine(51).unwrap();
    controller.node_quit(&committer).unwrap();
    assert!(!controller.get_node(&committer).state);
}

#[test]
fn register_quit_activate_roundtrip() {
    let mut controller = Controller::new(INITIAL_ENTROPY, String::from("0xcontroller_address"));
    controller
        .node_register(addr(0), b"pk0".to_vec())
        .unwrap();
    assert!(controller.get_node(&addr(0)).state);
    controller.node_quit(&addr(0)).unwrap();
    let node = controller.get_node(&addr(0));
    assert!(!node.state);
    let pending = node.pending_until_block;
    // too early: the node is still pending
    assert_eq!(
        controller.node_activate(addr(0)),
        Err(ControllerError::NodeNotAvailable(pending))
    );
    controller.mine(101).unwrap();
    controller.node_activate(addr(0)).unwrap();
    let node = controller.get_node(&addr(0));
    assert!(node.state);
    assert_eq!(node.staking, NODE_STAKING_AMOUNT);
}

#[test]
fn group_event_bumps_epoch_and_clears_caches() {
    let mut controller = Controller::new(INITIAL_ENTROPY, String::from("0xcontroller_address"));
    for i in 0..3 {
        controller
            .node_register(addr(i), format!("pk{}", i).into_bytes())
            .unwrap();
    }
    let epoch_before = controller.get_group(1).epoch;
    controller.emit_group_event(1).unwrap();
    let group = controller.get_group(1);
    assert_eq!(group.epoch, epoch_before + 1);
    assert!(group.commit_cache.is_empty());
    assert!(group.committers.is_empty());
}

#[test]
fn registration_and_commit_errors() {
    let mut controller = Controller::new(INITIAL_ENTROPY, String::from("0xcontroller_address"));
    controller.node_register(addr(0), b"pk".to_vec()).unwrap();
    assert_eq!(
        controller.node_register(addr(0), b"pk".to_vec()),
        Err(ControllerError::NodeExisted)
    );
    assert_eq!(
        controller.node_quit(&String::from("0xghost")),
        Err(ControllerError::NodeNotExisted)
    );
    assert_eq!(
        controller.request_randomness("nobody"),
        Err(ControllerError::NoVaildGroup)
    );
    assert_eq!(
        controller.commit_dkg(addr(0), 9, 1, vec![1], vec![1], vec![]),
        Err(ControllerError::GroupNotExisted)
    );
    // garbage bytes are not a curve point
    assert_eq!(
        controller.commit_dkg(addr(0), 1, 1, vec![1, 2, 3], vec![1, 2, 3], vec![]),
        Err(ControllerError::PublicKeyBadFormat)
    );
    assert_eq!(
        controller.fulfill_randomness(&addr(0), 1, 7, vec![1], vec![]),
        Err(ControllerError::TaskNotFound)
    );
    assert_eq!(
        controller.claim(&String::from("0xghost"), &String::from("0xghost"), 1),
        Err(ControllerError::RewardRecordNotExisted)
    );
}

#[test]
fn commit_epoch_and_duplicate_errors() {
    let keys = make_group_keys(3, 5);
    let mut controller = Controller::new(INITIAL_ENTROPY, String::from("0xcontroller_address"));
    for i in 0..5 {
        controller
            .node_register(addr(i), format!("pk{}", i).into_bytes())
            .unwrap();
    }
    let group_epoch = controller.emit_dkg_task().unwrap().epoch;
    assert_eq!(
        controller.commit_dkg(
            String::from("0xghost"),
            1,
            group_epoch,
            keys.public_key_bytes.clone(),
            keys.partial_public_keys[0].clone(),
            vec![],
        ),
        Err(ControllerError::ParticipantNotExisted)
    );
    assert_eq!(
        controller.commit_dkg(
            addr(0),
            1,
            group_epoch + 7,
            keys.public_key_bytes.clone(),
            keys.partial_public_keys[0].clone(),
            vec![],
        ),
        Err(ControllerError::GroupEpochObsolete(group_epoch))
    );
    controller
        .commit_dkg(
            addr(0),
            1,
            group_epoch,
            keys.public_key_bytes.clone(),
            keys.partial_public_keys[0].clone(),
            vec![],
        )
        .unwrap();
    assert_eq!(
        controller.commit_dkg(
            addr(0),
            1,
            group_epoch,
            keys.public_key_bytes.clone(),
            keys.partial_public_keys[0].clone(),
            vec![],
        ),
        Err(ControllerError::CommitCacheExisted)
    );
}

#[test]
fn fulfill_rejects_bad_signature() {
    let keys = make_group_keys(3, 5);
    let mut controller = ready_controller(&keys);
    controller.request_randomness("badsig").unwrap();
    let task_index = controller.emit_signature_task().unwrap().index;
    let committer = controller.get_group(1).committers[0].clone();
    assert_eq!(
        controller.fulfill_randomness(&committer, 1, task_index, vec![0xde, 0xad], vec![]),
        Err(ControllerError::BLSVerifyFailed)
    );
    // a non-committer may not fulfil at all
    let non_committer = controller
        .get_group(1)
        .members
        .iter()
        .map(|m| m.id_address.clone())
        .find(|a| !controller.get_group(1).committers.contains(a))
        .unwrap();
    assert_eq!(
        controller.fulfill_randomness(&non_committer, 1, task_index, vec![1], vec![]),
        Err(ControllerError::NotFromCommitter)
    );
}
