//! How sessions use connections, and how three parties check that they agree.

use std::time::Duration;

use ampc_core::message::{NetworkValue, ProtocolError};
use ampc_core::player::Role;
use ampc_core::session_policy::{MpcConfig, SessionConnectionPolicy};
use ampc_core::sync::{
    checkpoint_message, exchange_checkpoint_id, job_hash_message, sync_on_job_hash, JOB_HASH_LEN,
};

#[test]
fn affine_policy_assigns_sessions_round_robin() {
    let config = MpcConfig::new_with_policy(
        Duration::from_secs(1),
        3,
        8,
        SessionConnectionPolicy::Affine,
    );

    let assignments = (0..config.num_sessions)
        .map(|session| config.connection_for_session(session))
        .collect::<Vec<_>>();
    assert_eq!(
        assignments,
        vec![
            Some(0),
            Some(1),
            Some(2),
            Some(0),
            Some(1),
            Some(2),
            Some(0),
            Some(1)
        ]
    );
    assert_eq!(
        (0..config.num_connections)
            .map(|connection| config.get_sessions_for_connection(connection))
            .collect::<Vec<_>>(),
        vec![3, 3, 2]
    );
    assert_eq!(config.connection_for_session(config.num_sessions), None);
    assert_eq!(
        config.get_sessions_for_connection(config.num_connections),
        0
    );

    let more_connections = MpcConfig::new_with_policy(
        Duration::from_secs(1),
        5,
        2,
        SessionConnectionPolicy::Affine,
    );
    assert_eq!(more_connections.num_connections, 2);
    assert_eq!(
        (0..more_connections.num_connections)
            .map(|connection| more_connections.get_sessions_for_connection(connection))
            .collect::<Vec<_>>(),
        vec![1, 1]
    );
    assert_eq!(more_connections.get_sessions_for_connection(2), 0);

    let more_striped_connections = MpcConfig::new(Duration::from_secs(1), 5, 2);
    assert_eq!(more_striped_connections.num_connections, 5);
    assert_eq!(more_striped_connections.get_sessions_for_connection(4), 2);

    let striped = MpcConfig::new(Duration::from_secs(1), 3, 8);
    assert_eq!(
        striped.session_connection_policy,
        SessionConnectionPolicy::Striped
    );
    assert_eq!(striped.connection_for_session(0), None);
    assert_eq!(striped.get_sessions_for_connection(0), 8);
    assert_eq!(striped.get_sessions_for_connection(1), 8);
    assert_eq!(striped.get_sessions_for_connection(2), 8);
}

#[test]
fn every_affine_session_has_one_connection() {
    for connections in 1..7_usize {
        for sessions in 0..20_usize {
            let config = MpcConfig::new_with_policy(
                Duration::from_secs(1),
                connections,
                sessions,
                SessionConnectionPolicy::Affine,
            );
            let total: usize = (0..config.num_connections)
                .map(|c| config.get_sessions_for_connection(c))
                .sum();
            assert_eq!(total, sessions);
        }
    }
}

/// The verdicts of three parties with the given digests.
fn job_hash_verdicts(hashes: &[[u8; JOB_HASH_LEN]; 3]) -> Vec<bool> {
    (0..3_usize)
        .map(|i| {
            let next = job_hash_message(&hashes[(i + 1) % 3]);
            let prev = job_hash_message(&hashes[(i + 2) % 3]);
            sync_on_job_hash(Role::new(i), &hashes[i], &next, &prev).unwrap()
        })
        .collect()
}

#[test]
fn test_sync_on_job_hash_matching() {
    let hash: [u8; JOB_HASH_LEN] = [0xAB; JOB_HASH_LEN];
    let verdicts = job_hash_verdicts(&[hash; 3]);
    for verdict in verdicts {
        assert!(verdict, "all parties should agree");
    }
}

#[test]
fn test_sync_on_job_hash_mismatch() {
    let good_hash: [u8; JOB_HASH_LEN] = [0xAB; JOB_HASH_LEN];
    let bad_hash: [u8; JOB_HASH_LEN] = [0xCD; JOB_HASH_LEN];
    let verdicts = job_hash_verdicts(&[good_hash, good_hash, bad_hash]);
    for verdict in verdicts {
        assert!(!verdict, "mismatch should be detected");
    }
}

#[test]
fn job_hashes_need_their_length_and_a_role() {
    let hash: [u8; JOB_HASH_LEN] = [1; JOB_HASH_LEN];
    let good = job_hash_message(&hash);
    let short = NetworkValue::Bytes(vec![1; JOB_HASH_LEN - 1]);
    assert_eq!(
        sync_on_job_hash(Role::new(0), &hash, &short, &good),
        Err(ProtocolError::WrongValueType)
    );
    assert_eq!(
        sync_on_job_hash(Role::new(0), &hash, &good, &NetworkValue::RingElement8(1)),
        Err(ProtocolError::WrongValueType)
    );
    assert_eq!(
        sync_on_job_hash(Role::new(3), &hash, &good, &good),
        Err(ProtocolError::UnsupportedRole)
    );
}

#[test]
fn checkpoints_come_in_the_order_of_the_roles() {
    let ids: [u64; 3] = [7, 0x0102_0304_0506_0708, u64::MAX];
    for i in 0..3_usize {
        let next = checkpoint_message(ids[(i + 1) % 3]);
        let prev = checkpoint_message(ids[(i + 2) % 3]);
        assert_eq!(
            exchange_checkpoint_id(Role::new(i), ids[i], &next, &prev),
            Ok(ids)
        );
    }
    // The bytes of a checkpoint start with the lowest one.
    match checkpoint_message(ids[1]) {
        NetworkValue::Bytes(bytes) => assert_eq!(bytes, vec![8, 7, 6, 5, 4, 3, 2, 1]),
        other => panic!("unexpected message {other:?}"),
    }
    let good = checkpoint_message(1);
    let long = NetworkValue::Bytes(vec![0; 9]);
    assert_eq!(
        exchange_checkpoint_id(Role::new(1), 1, &good, &long),
        Err(ProtocolError::WrongValueType)
    );
    assert_eq!(
        exchange_checkpoint_id(Role::new(3), 1, &good, &good),
        Err(ProtocolError::UnsupportedRole)
    );
}
