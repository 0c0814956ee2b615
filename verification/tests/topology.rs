use std::collections::HashSet;

use hashring::canonical::canonical_json_of;
use hashring::limits::MAX_CONTROL_MESSAGE_BYTES;
use hashring::migration::{MigrationPhase, RangeMigration, TopologyChange, MAX_MIGRATION_RANGES};
use hashring::topology::{
    Member, TopologyConfig, TopologyError, TopologySnapshot, WriteAckPolicy,
    WriteAvailabilityGuard, MAX_ENDPOINT_BYTES, MAX_NODE_ID_BYTES, MAX_TOKEN_ASSIGNMENTS,
    MAX_VIRTUAL_NODES,
};
use hashring::wire::{WirePhase, WirePolicy, WireSnapshot};

fn members() -> Vec<Member> {
    vec![
        Member { node_id: "node-b".into(), endpoint: "http://127.0.0.1:5002".into() },
        Member { node_id: "node-a".into(), endpoint: "http://127.0.0.1:5001".into() },
    ]
}

#[test]
fn construction_is_canonical() {
    let first = TopologySnapshot::new(1, 42, 16, members()).unwrap();
    let mut reversed = members();
    reversed.reverse();
    let second = TopologySnapshot::new(1, 42, 16, reversed).unwrap();
    assert_eq!(first, second);
    assert_eq!(first.assignments.len(), 32);
    first.validate().unwrap();
}

#[test]
fn every_key_has_a_member_owner() {
    let topology = TopologySnapshot::new(1, 42, 16, members()).unwrap();
    for key in 0_u64..10_000 {
        let owner = topology.owner(&key.to_be_bytes()).unwrap();
        assert!(owner.node_id == "node-a" || owner.node_id == "node-b");
    }
}

fn configured_topology(
    desired_replication_factor: u32,
    write_ack_policy: WriteAckPolicy,
) -> TopologySnapshot {
    TopologySnapshot::new_with_config(
        1,
        42,
        16,
        vec![
            Member { node_id: "node-a".into(), endpoint: "http://127.0.0.1:5001".into() },
            Member { node_id: "node-b".into(), endpoint: "http://127.0.0.1:5002".into() },
            Member { node_id: "node-c".into(), endpoint: "http://127.0.0.1:5003".into() },
        ],
        TopologyConfig {
            desired_replication_factor,
            write_ack_policy,
            write_availability_guard: WriteAvailabilityGuard::default(),
        },
    )
    .unwrap()
}

#[test]
fn derived_ranges_cover_wraparound_and_skip_repeated_nodes() {
    let topology = configured_topology(3, WriteAckPolicy::OwnerOnly);
    let ranges = topology.derived_ranges().unwrap();

    assert_eq!(ranges.len(), topology.assignments.len());
    assert_eq!(ranges[0].start_exclusive, topology.assignments.last().unwrap().token);
    assert_eq!(ranges[0].end_inclusive, topology.assignments[0].token);
    for range in ranges {
        let replicas = topology.replica_node_ids_for_token(range.end_inclusive).unwrap();
        assert_eq!(replicas[0], range.owner_node_id);
        assert_eq!(replicas[1..], range.follower_node_ids);
        assert_eq!(replicas.len(), 3);
        assert_eq!(replicas.iter().copied().collect::<HashSet<_>>().len(), 3);
    }
}

#[test]
fn desired_replication_factor_above_membership_is_visibly_under_replicated() {
    let topology = TopologySnapshot::new_with_config(
        1,
        42,
        16,
        members(),
        TopologyConfig { desired_replication_factor: 5, ..TopologyConfig::default() },
    )
    .unwrap();

    assert_eq!(topology.desired_replication_factor, 5);
    assert!(topology.derived_ranges().unwrap().iter().all(|range| {
        1 + range.follower_node_ids.len() < topology.desired_replication_factor as usize
    }));
}

#[test]
fn first_successor_becomes_owner_when_the_owner_is_removed() {
    let topology = configured_topology(3, WriteAckPolicy::OwnerOnly);
    for range in topology.derived_ranges().unwrap() {
        let expected_successor = range.follower_node_ids[0].clone();
        let remaining = topology
            .members
            .iter()
            .filter(|member| member.node_id != range.owner_node_id)
            .cloned()
            .collect();
        let after_removal = TopologySnapshot::new_with_config(
            topology.epoch + 1,
            topology.hash_seed,
            topology.virtual_nodes,
            remaining,
            topology.config(),
        )
        .unwrap();
        assert_eq!(
            after_removal.owner_for_token(range.end_inclusive).unwrap().node_id,
            expected_successor
        );
    }
}

#[test]
fn topology_configuration_is_part_of_digest_and_wire_encoding() {
    let base = configured_topology(3, WriteAckPolicy::OwnerOnly);
    let policy = configured_topology(3, WriteAckPolicy::AllReplicas);
    let rf = configured_topology(2, WriteAckPolicy::OwnerOnly);
    let mut guard_config = base.config();
    guard_config.write_availability_guard.max_replica_lag_millis += 1;
    let guard = TopologySnapshot::new_with_config(
        base.epoch,
        base.hash_seed,
        base.virtual_nodes,
        base.members.clone(),
        guard_config,
    )
    .unwrap();

    assert_ne!(base.digest, policy.digest);
    assert_ne!(base.digest, rf.digest);
    assert_ne!(base.digest, guard.digest);
    let first = WireSnapshot::from(&base);
    let second = base.to_wire();
    assert_eq!(first, second);
    assert_eq!(TopologySnapshot::from_wire(base.to_wire()).unwrap(), base);
}

#[test]
fn first_successor_policy_requires_a_follower() {
    let error = TopologySnapshot::new_with_config(
        1,
        42,
        16,
        members(),
        TopologyConfig {
            desired_replication_factor: 1,
            write_ack_policy: WriteAckPolicy::FirstSuccessor,
            write_availability_guard: WriteAvailabilityGuard::default(),
        },
    )
    .unwrap_err();

    assert!(matches!(error, TopologyError::FirstSuccessorRequiresFollower));
}

#[test]
fn impossible_write_guards_are_rejected_and_legacy_rf_one_loads() {
    let mut config = TopologyConfig::default();
    config.write_availability_guard.minimum_admitted_copies = 4;
    assert!(matches!(
        TopologySnapshot::new_with_config(1, 42, 16, members(), config),
        Err(TopologyError::MinimumAdmittedCopiesExceedReplicationFactor)
    ));

    let mut config = TopologyConfig::default();
    config.write_availability_guard.minimum_healthy_followers = 3;
    assert!(matches!(
        TopologySnapshot::new_with_config(1, 42, 16, members(), config),
        Err(TopologyError::MinimumHealthyFollowersExceedReplicationFactor)
    ));

    let rf_one = TopologyConfig { desired_replication_factor: 1, ..TopologyConfig::default() };
    TopologySnapshot::new_with_config(1, 42, 16, members(), rf_one).unwrap();

    let impossible_rf_one = TopologyConfig {
        desired_replication_factor: 1,
        write_availability_guard: WriteAvailabilityGuard {
            minimum_admitted_copies: 2,
            minimum_healthy_followers: 0,
            ..WriteAvailabilityGuard::default()
        },
        ..TopologyConfig::default()
    };
    assert!(matches!(
        TopologySnapshot::new_with_config(1, 42, 16, members(), impossible_rf_one),
        Err(TopologyError::MinimumAdmittedCopiesExceedReplicationFactor)
    ));

    let legacy_rf_one = TopologyConfig {
        desired_replication_factor: 1,
        write_availability_guard: WriteAvailabilityGuard {
            minimum_admitted_copies: 2,
            minimum_healthy_followers: 1,
            ..WriteAvailabilityGuard::default()
        },
        ..TopologyConfig::default()
    };
    let legacy = TopologySnapshot::new_with_config(1, 42, 16, members(), legacy_rf_one).unwrap();
    legacy.validate().unwrap();
}

#[test]
fn maximum_assignment_topology_fits_control_plane_limit() {
    let members = (0..256)
        .map(|index| Member {
            node_id: format!("n{index:03}{}", "x".repeat(MAX_NODE_ID_BYTES - 4)),
            endpoint: format!("http://127.0.0.1/{index:03}{}", "x".repeat(MAX_ENDPOINT_BYTES - 21)),
        })
        .collect();
    let topology = TopologySnapshot::new(1, 42, MAX_VIRTUAL_NODES, members).unwrap();
    assert_eq!(topology.assignments.len(), MAX_TOKEN_ASSIGNMENTS);
    let wire = topology.to_wire();
    assert!(wire.encoded_len() <= MAX_CONTROL_MESSAGE_BYTES as u64);

    let source = &topology.members[0];
    let destination = &topology.members[1];
    let range = RangeMigration {
        range_id: "f".repeat(64),
        start_exclusive: u64::MAX - 1,
        end_inclusive: u64::MAX,
        source_node_id: source.node_id.clone(),
        destination_node_id: destination.node_id.clone(),
        source_endpoint: "s".repeat(MAX_ENDPOINT_BYTES),
        destination_endpoint: "d".repeat(MAX_ENDPOINT_BYTES),
        source_process_instance_id: "s".repeat(36),
        destination_process_instance_id: "d".repeat(36),
        source_cleaned: false,
        snapshot_records: u64::MAX,
        changelog_watermark: u64::MAX,
        verified: true,
    };
    let change = TopologyChange {
        change_id: "c".repeat(36),
        base_epoch: 0,
        base_topology: None,
        supersedes_change_id: None,
        target_topology: topology,
        phase: MigrationPhase::Planned,
        ranges: vec![range; MAX_MIGRATION_RANGES],
        replica_obligations: Vec::new(),
        stopped_node_ids: Vec::new(),
        stopping_node_ids: Vec::new(),
        stop_prepared_node_ids: Vec::new(),
        failed_node_id: None,
        activation_ready: false,
        direct_merge: false,
    };
    let wire = change.to_wire();
    assert!(wire.encoded_len() <= MAX_CONTROL_MESSAGE_BYTES as u64);
}

#[test]
fn tampering_is_detected() {
    let mut topology = TopologySnapshot::new(1, 42, 16, members()).unwrap();
    topology.epoch = 2;
    assert!(matches!(topology.validate(), Err(TopologyError::DigestMismatch)));
}

#[test]
fn tokens_and_digest_come_from_the_hash_crates() {
    let one = vec![Member { node_id: "a\"b".into(), endpoint: "e".into() }];
    let topology = TopologySnapshot::new(7, 42, 1, one).unwrap();
    let mut encoded = b"hashring-rs:vnode:v1\0".to_vec();
    encoded.extend_from_slice(&3_u64.to_be_bytes());
    encoded.extend_from_slice(b"a\"b");
    encoded.extend_from_slice(&0_u32.to_be_bytes());
    let token = xxhash_rust::xxh3::xxh3_64_with_seed(&encoded, 42);
    assert_eq!(topology.assignments.len(), 1);
    assert_eq!(topology.assignments[0].token, token);
    assert_eq!(topology.key_token(b"key"), xxhash_rust::xxh3::xxh3_64_with_seed(b"key", 42));
    let canonical = format!(
        "{{\"epoch\":7,\"hash_seed\":42,\"hash_algorithm\":\"xxh3-64\",\"encoding_version\":2,\
         \"virtual_nodes\":1,\"desired_replication_factor\":3,\"write_ack_policy\":\"OwnerOnly\",\
         \"write_availability_guard\":{{\"minimum_admitted_copies\":1,\
         \"minimum_healthy_followers\":0,\"max_replica_lag_millis\":5000}},\
         \"members\":[{{\"node_id\":\"a\\\"b\",\"endpoint\":\"e\"}}],\
         \"assignments\":[{{\"token\":{token},\"node_id\":\"a\\\"b\"}}],\"digest\":\"\"}}"
    );
    assert_eq!(topology.digest, blake3::hash(canonical.as_bytes()).to_hex().to_string());
}

#[test]
fn memberships_are_refused_for_each_reason() {
    let refused = |members: Vec<Member>, virtual_nodes: u32| {
        TopologySnapshot::new(1, 42, virtual_nodes, members).unwrap_err()
    };
    let member = |id: &str, endpoint: &str| Member { node_id: id.into(), endpoint: endpoint.into() };
    assert_eq!(refused(Vec::new(), 1), TopologyError::NoMembers);
    assert_eq!(refused(members(), 0), TopologyError::NoVirtualNodes);
    let crowd = |n: usize| -> Vec<Member> {
        (0..n).map(|i| member(&format!("n{i}"), &format!("e{i}"))).collect()
    };
    assert_eq!(refused(crowd(1025), 1), TopologyError::TooManyMembers);
    assert_eq!(refused(members(), 4097), TopologyError::TooManyVirtualNodes);
    assert_eq!(refused(crowd(1024), 1025), TopologyError::TooManyAssignments);
    assert_eq!(refused(vec![member("", "e")], 1), TopologyError::EmptyNodeId);
    assert_eq!(refused(vec![member(&"n".repeat(33), "e")], 1), TopologyError::NodeIdTooLong);
    assert_eq!(refused(vec![member("n", "")], 1), TopologyError::EmptyEndpoint);
    assert_eq!(refused(vec![member("n", &"e".repeat(257))], 1), TopologyError::EndpointTooLong);
    assert_eq!(
        refused(vec![member("n", "e"), member("n", "f")], 1),
        TopologyError::DuplicateNodeId("n".into())
    );
    assert_eq!(
        refused(vec![member("n", "e"), member("m", "e")], 1),
        TopologyError::DuplicateEndpoint("e".into())
    );
}

#[test]
fn settings_are_refused_for_each_reason() {
    let refused = |config: TopologyConfig| {
        TopologySnapshot::new_with_config(1, 42, 16, members(), config).unwrap_err()
    };
    let base = TopologyConfig::default();
    assert_eq!(
        refused(TopologyConfig { desired_replication_factor: 0, ..base }),
        TopologyError::NoReplicas
    );
    assert_eq!(
        refused(TopologyConfig { desired_replication_factor: 1025, ..base }),
        TopologyError::TooManyReplicas
    );
    let mut config = base;
    config.write_availability_guard.minimum_admitted_copies = 0;
    assert_eq!(refused(config), TopologyError::NoMinimumAdmittedCopies);
    let mut config = base;
    config.write_availability_guard.max_replica_lag_millis = 0;
    assert_eq!(refused(config), TopologyError::NoMaximumReplicaLag);
}

#[test]
fn snapshots_are_refused_for_each_reason() {
    let topology = || TopologySnapshot::new(1, 42, 4, members()).unwrap();
    let mut t = topology();
    t.hash_algorithm = "md5".into();
    assert_eq!(
        t.validate(),
        Err(TopologyError::UnsupportedHashConfiguration {
            algorithm: "md5".into(),
            encoding_version: 2
        })
    );
    let mut t = topology();
    t.assignments.clear();
    assert_eq!(t.validate(), Err(TopologyError::NoAssignments));
    let mut t = topology();
    t.assignments[3].node_id = "stranger".into();
    assert_eq!(t.validate(), Err(TopologyError::UnknownAssignedNode("stranger".into())));
    let mut t = topology();
    t.assignments.swap(0, 1);
    assert_eq!(t.validate(), Err(TopologyError::NonCanonical));
    let mut t = topology();
    t.digest = "00".into();
    assert_eq!(t.validate(), Err(TopologyError::DigestMismatch));
}

#[test]
fn refusals_say_why() {
    assert_eq!(
        TopologyError::UnknownWriteAckPolicy(-3).message(),
        "unknown write acknowledgement policy: -3"
    );
    assert!(TopologyError::DuplicateNodeId("n".into()).message().contains('n'));
}

#[test]
fn what_cannot_be_read_from_the_wire_is_refused() {
    let base = configured_topology(3, WriteAckPolicy::FirstSuccessor);
    let mut wire = base.to_wire();
    wire.write_ack_policy = WirePolicy::Unspecified;
    assert_eq!(
        TopologySnapshot::from_wire(wire),
        Err(TopologyError::UnknownWriteAckPolicy(0))
    );
    let mut wire = base.to_wire();
    wire.write_ack_policy = WirePolicy::Unrecognized(9);
    assert_eq!(
        TopologySnapshot::from_wire(wire),
        Err(TopologyError::UnknownWriteAckPolicy(9))
    );
    let mut wire = base.to_wire();
    wire.write_availability_guard = None;
    assert_eq!(TopologySnapshot::from_wire(wire), Err(TopologyError::NoMinimumAdmittedCopies));
    let mut wire = base.to_wire();
    wire.epoch += 1;
    assert_eq!(TopologySnapshot::from_wire(wire), Err(TopologyError::DigestMismatch));
    assert_eq!(WirePhase::Known(MigrationPhase::Planned), WirePhase::Known(MigrationPhase::Planned));
}

#[test]
fn encoded_lengths_are_exact() {
    let one = vec![Member { node_id: "a".into(), endpoint: "e".into() }];
    let topology = TopologySnapshot::new(300, 1, 1, one).unwrap();
    let mut wire = topology.to_wire();
    wire.assignments[0].token = 127;
    // epoch 3, seed 2, algorithm 9, version 2, virtual nodes 2, copies 2, policy 2,
    // guard 2 + 2 + 0 + 3, member 2 + 6, assignment 2 + 2 + 3, digest 66
    assert_eq!(wire.encoded_len(), 3 + 2 + 9 + 2 + 2 + 2 + 2 + 7 + 8 + 7 + 66);
    wire.write_ack_policy = WirePolicy::Unrecognized(-1);
    wire.write_availability_guard = None;
    assert_eq!(wire.encoded_len(), 3 + 2 + 9 + 2 + 2 + 2 + 11 + 8 + 7 + 66);
}

#[test]
fn texts_are_escaped_in_the_canonical_form() {
    let endpoint = "\"\\/\u{8}\t\n\u{c}\r\u{1}\u{1f}\u{7f}\u{e9}";
    let one = vec![Member { node_id: "a".into(), endpoint: endpoint.into() }];
    let topology = TopologySnapshot::new(7, 42, 1, one).unwrap();
    let canonical = String::from_utf8(canonical_json_of(&topology, "")).unwrap();
    let expected = "\"endpoint\":\"\\\"\\\\/\\b\\t\\n\\f\\r\\u0001\\u001f\u{7f}\u{e9}\"}";
    assert!(canonical.contains(expected), "{canonical}");
}
