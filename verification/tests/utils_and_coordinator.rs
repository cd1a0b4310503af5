use randcast_mock_demo::controller::minimum_threshold;
use randcast_mock_demo::coordinator::Coordinator;
use randcast_mock_demo::errors::CoordinatorError;
use randcast_mock_demo::utils::{
    calculate_hash, calculate_hash_bytes, choose_randomly_from_indices, map_to_qualified_indices,
};

#[test]
fn test_mut() {
    let a: i32 = 5;
    let mut b = a;
    b = 6;
    println!("{:#?}", a);
    println!("{:#?}", b);
}

#[test]
fn test2() {
    let vec1 = vec![String::from("232wer3")];
    let vec2 = vec![String::from("232wer3")];
    println!("{}", vec1 == vec2);
}

#[test]
fn fnv1a_matches_reference_vector() {
    // FNV-1a 64-bit of "a"
    assert_eq!(calculate_hash_bytes(&vec![0x61]), 0xaf63dc4c8601ec8c);
    // the offset basis hashes the empty string
    assert_eq!(calculate_hash_bytes(&vec![]), 0xcbf29ce484222325);
}

#[test]
fn deterministic_selection() {
    let seed: u64 = 0x8762_4875_6548_6346;
    let indices: Vec<usize> = vec![0, 1, 2, 3, 4];
    let once = choose_randomly_from_indices(seed, &indices, 3);
    let again = choose_randomly_from_indices(seed, &indices, 3);
    assert_eq!(once, again);
    assert_eq!(once.len(), 3);
    for x in once.iter() {
        assert!(indices.contains(x));
    }
    // no index is drawn twice
    for i in 0..once.len() {
        for j in (i + 1)..once.len() {
            assert_ne!(once[i], once[j]);
        }
    }
    // asking for more than the pool drains it
    let all = choose_randomly_from_indices(seed, &indices, 10);
    assert_eq!(all.len(), 5);
}

#[test]
fn hash_chain_is_stable() {
    let h1 = calculate_hash(42);
    let h2 = calculate_hash(42);
    assert_eq!(h1, h2);
    assert_ne!(calculate_hash(h1), h1);
}

#[test]
fn wrap_around_mapping() {
    let pool: Vec<usize> = vec![1, 3, 5];
    // 2 is not in the pool; stepping upwards modulo 6 lands on 3
    assert_eq!(map_to_qualified_indices(2, &pool), 3);
    assert_eq!(map_to_qualified_indices(5, &pool), 5);
    // past the maximum the search wraps to the smallest
    assert_eq!(map_to_qualified_indices(0, &pool), 1);
}

#[test]
fn minimum_threshold_is_strict_majority() {
    assert_eq!(minimum_threshold(3), 2);
    assert_eq!(minimum_threshold(5), 3);
    assert_eq!(minimum_threshold(6), 4);
    assert_eq!(minimum_threshold(10), 6);
}

fn participant(i: usize) -> randcast_mock_demo::coordinator::Participant {
    randcast_mock_demo::coordinator::Participant {
        id_address: format!("0x{}", i),
        index: i,
        id_public_key: vec![i as u8],
    }
}

#[test]
fn coordinator_phases_and_boards() {
    let mut coordinator = Coordinator::new(1, 3, 30);
    assert_eq!(coordinator.in_phase(), Ok(0));
    let members = vec![participant(0), participant(1), participant(2)];
    coordinator.start(100, members).unwrap();
    assert_eq!(
        coordinator.start(100, vec![participant(0)]),
        Err(CoordinatorError::AlreadyStarted)
    );
    assert_eq!(coordinator.in_phase(), Ok(1));
    coordinator
        .publish(&String::from("0x0"), vec![1, 2, 3])
        .unwrap();
    assert_eq!(
        coordinator.publish(&String::from("0x0"), vec![9]),
        Err(CoordinatorError::SharesExisted)
    );
    assert_eq!(
        coordinator.publish(&String::from("0x7"), vec![9]),
        Err(CoordinatorError::NotRegistered)
    );
    // the boards are padded to the participant count
    let shares = coordinator.get_shares();
    assert_eq!(shares.len(), 3);
    assert_eq!(shares[0], vec![1, 2, 3]);
    assert!(shares[1].is_empty());
    // next window: responses
    coordinator.mine(30);
    assert_eq!(coordinator.in_phase(), Ok(2));
    coordinator
        .publish(&String::from("0x1"), vec![4])
        .unwrap();
    assert_eq!(
        coordinator.publish(&String::from("0x1"), vec![4]),
        Err(CoordinatorError::ResponsesExisted)
    );
    assert_eq!(coordinator.get_responses()[1], vec![4]);
    // justifications
    coordinator.mine(30);
    assert_eq!(coordinator.in_phase(), Ok(3));
    coordinator
        .publish(&String::from("0x2"), vec![5])
        .unwrap();
    assert_eq!(coordinator.get_justifications()[2], vec![5]);
    // the closing window accepts no publications
    coordinator.mine(30);
    assert_eq!(coordinator.in_phase(), Ok(4));
    assert_eq!(
        coordinator.publish(&String::from("0x0"), vec![6]),
        Err(CoordinatorError::DKGEnded)
    );
    // after all four windows the coordinator is dead
    coordinator.mine(30);
    assert_eq!(coordinator.in_phase(), Err(CoordinatorError::DKGEnded));
    let (threshold, keys) = coordinator.get_bls_keys();
    assert_eq!(threshold, 3);
    assert_eq!(keys, vec![vec![0u8], vec![1u8], vec![2u8]]);
    assert_eq!(
        coordinator.get_participants(),
        vec![String::from("0x0"), String::from("0x1"), String::from("0x2")]
    );
}

#[test]
fn mine_advances_the_chain() {
    let mut controller = randcast_mock_demo::controller::Controller::new(
        7,
        String::from("0xcontroller_address"),
    );
    assert_eq!(controller.block_height, 100);
    controller.mine(5).unwrap();
    assert_eq!(controller.block_height, 105);
}
