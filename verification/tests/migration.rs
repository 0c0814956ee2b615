use hashring::interval::interval_contains;
use hashring::migration::{
    moving_ranges, topology_delta, MigrationError, MigrationPhase, TopologyChange,
};
use hashring::topology::{Member, TopologyConfig, TopologyError, TopologySnapshot};
use hashring::wire::{fetch_pending_topology, WireChange, WirePhase};

fn member(id: &str, port: u16) -> Member {
    Member { node_id: id.into(), endpoint: format!("http://127.0.0.1:{port}") }
}

#[test]
fn scale_out_plan_moves_only_ranges_with_changed_owners() {
    let committed = TopologySnapshot::new(1, 42, 16, vec![member("a", 1)]).unwrap();
    let change = TopologyChange::plan(&committed, vec![member("a", 1), member("b", 2)]).unwrap();

    assert_eq!(change.base_epoch, 1);
    assert_eq!(change.target_topology.epoch, 2);
    assert_eq!(change.phase, MigrationPhase::Planned);
    assert!(!change.ranges.is_empty());
    assert!(change
        .ranges
        .iter()
        .all(|range| range.source_node_id == "a" && range.destination_node_id == "b"));
    assert!(change
        .replica_obligations
        .iter()
        .all(|obligation| obligation.source_node_id == "a"
            && obligation.destination_node_id == "b"));
    assert!(!change.replica_obligations.is_empty());
}

#[test]
fn topology_delta_reports_only_new_follower_coverage() {
    let committed =
        TopologySnapshot::new(1, 42, 16, vec![member("a", 1), member("b", 2)]).unwrap();
    let target = TopologySnapshot::new_with_config(
        2,
        42,
        16,
        vec![member("a", 1), member("b", 2), member("c", 3)],
        committed.config(),
    )
    .unwrap();

    let (_, obligations) = topology_delta(&committed, &target).unwrap();
    assert!(!obligations.is_empty());
    for obligation in obligations {
        let old = committed.replica_node_ids_for_token(obligation.end_inclusive).unwrap();
        let new = target.replica_node_ids_for_token(obligation.end_inclusive).unwrap();
        assert!(!old.contains(&obligation.destination_node_id.as_str()));
        assert!(new[1..].contains(&obligation.destination_node_id.as_str()));
        assert_eq!(old[0], obligation.source_node_id);
    }
}

#[test]
fn identical_membership_is_not_a_change() {
    let committed = TopologySnapshot::new(1, 42, 16, vec![member("a", 1)]).unwrap();
    assert!(matches!(
        TopologyChange::plan(&committed, committed.members.clone()),
        Err(MigrationError::NoMembershipChange)
    ));
}

#[test]
fn endpoint_only_replacement_is_rejected() {
    let committed = TopologySnapshot::new(1, 42, 16, vec![member("a", 1)]).unwrap();
    assert!(matches!(
        TopologyChange::plan(&committed, vec![member("a", 2)]),
        Err(MigrationError::EndpointChangeUnsupported(node)) if node == "a"
    ));
}

#[test]
fn plans_have_fresh_random_identities() {
    let committed = TopologySnapshot::new(1, 42, 16, vec![member("a", 1)]).unwrap();
    let plan = || TopologyChange::plan(&committed, vec![member("a", 1), member("b", 2)]).unwrap();
    let (first, second) = (plan(), plan());
    assert_eq!(first.change_id.len(), 36);
    assert_eq!(first.change_id.as_bytes()[14], b'4');
    assert_ne!(first.change_id, second.change_id);
    assert_eq!(first.ranges, second.ranges);
}

#[test]
fn range_identities_are_digests_of_their_parts() {
    let mut bytes = b"hashring-rs:range:v1\0".to_vec();
    bytes.extend_from_slice(&5_u64.to_be_bytes());
    bytes.extend_from_slice(&9_u64.to_be_bytes());
    bytes.extend_from_slice(&1_u64.to_be_bytes());
    bytes.extend_from_slice(b"a");
    bytes.extend_from_slice(&2_u64.to_be_bytes());
    bytes.extend_from_slice(b"bc");
    assert_eq!(
        hashring::migration::range_id(5, 9, "a", "bc"),
        blake3::hash(&bytes).to_hex().to_string()
    );
}

#[test]
fn the_last_epoch_has_no_successor() {
    let committed = TopologySnapshot::new(u64::MAX, 42, 1, vec![member("a", 1)]).unwrap();
    assert!(matches!(
        TopologyChange::plan(&committed, vec![member("a", 1), member("b", 2)]),
        Err(MigrationError::EpochOverflow)
    ));
}

#[test]
fn too_many_moving_ranges_are_refused() {
    let crowd = |from: usize, to: usize| -> Vec<Member> {
        (from..to).map(|i| member(&format!("n{i}"), i as u16)).collect()
    };
    let committed = TopologySnapshot::new(1, 42, 4096, crowd(0, 4)).unwrap();
    assert!(matches!(
        TopologyChange::plan(&committed, crowd(4, 9)),
        Err(MigrationError::TooManyReplicaObligations)
    ));
    let single = TopologyConfig { desired_replication_factor: 1, ..TopologyConfig::default() };
    let committed = TopologySnapshot::new_with_config(1, 42, 4096, crowd(0, 4), single).unwrap();
    assert!(matches!(
        TopologyChange::plan(&committed, crowd(4, 9)),
        Err(MigrationError::TooManyRanges)
    ));
}

#[test]
fn changes_survive_the_wire() {
    let committed = TopologySnapshot::new(1, 42, 16, vec![member("a", 1)]).unwrap();
    let change = TopologyChange::plan(&committed, vec![member("a", 1), member("b", 2)]).unwrap();
    assert_eq!(WireChange::from(&change), change.to_wire());
    assert_eq!(TopologyChange::from_wire(change.to_wire()).unwrap(), change);
    let mut wire = change.to_wire();
    wire.target_topology = None;
    assert_eq!(TopologyChange::from_wire(wire), Err(MigrationError::MissingTargetTopology));
    let mut wire = change.to_wire();
    wire.phase = WirePhase::Unspecified;
    assert_eq!(TopologyChange::from_wire(wire), Err(MigrationError::UnknownPhase(0)));
    let mut wire = change.to_wire();
    wire.phase = WirePhase::Unrecognized(77);
    let error = TopologyChange::from_wire(wire).unwrap_err();
    assert_eq!(error.message(), "unknown migration phase: 77");
    let mut wire = change.to_wire();
    wire.target_topology.as_mut().unwrap().digest.clear();
    assert_eq!(
        TopologyChange::from_wire(wire),
        Err(MigrationError::Topology(TopologyError::DigestMismatch))
    );
}

#[test]
fn only_running_changes_have_a_pending_topology() {
    let committed = TopologySnapshot::new(1, 42, 16, vec![member("a", 1)]).unwrap();
    let change = TopologyChange::plan(&committed, vec![member("a", 1), member("b", 2)]).unwrap();
    assert_eq!(fetch_pending_topology(None), Ok(None));
    assert_eq!(
        fetch_pending_topology(Some(change.to_wire())).unwrap().unwrap(),
        change.target_topology
    );
    for phase in [MigrationPhase::Complete, MigrationPhase::Aborted] {
        let mut wire = change.to_wire();
        wire.phase = WirePhase::Known(phase);
        assert_eq!(fetch_pending_topology(Some(wire)), Ok(None));
    }
}

#[test]
fn moves_and_obligations_cover_each_token_once() {
    let committed =
        TopologySnapshot::new(1, 42, 8, vec![member("a", 1), member("b", 2)]).unwrap();
    let target = TopologySnapshot::new(2, 42, 8, vec![member("b", 2), member("c", 3)]).unwrap();
    let (moves, obligations) = topology_delta(&committed, &target).unwrap();
    let tokens = committed.assignments.iter().chain(&target.assignments).map(|a| a.token);
    for token in tokens.flat_map(|token| [token, token.wrapping_add(1)]) {
        let from = committed.owner_for_token(token).unwrap();
        let to = target.owner_for_token(token).unwrap();
        let moving: Vec<_> = moves
            .iter()
            .filter(|m| interval_contains(m.start_exclusive, m.end_inclusive, token))
            .collect();
        assert_eq!(moving.len(), usize::from(from.node_id != to.node_id));
        for range in moving {
            assert_eq!((&range.source_node_id, &range.source_endpoint), (&from.node_id, &from.endpoint));
            assert_eq!(
                (&range.destination_node_id, &range.destination_endpoint),
                (&to.node_id, &to.endpoint)
            );
        }
        let held = committed.replica_node_ids_for_token(token).unwrap();
        for node in &target.replica_node_ids_for_token(token).unwrap()[1..] {
            let count = obligations
                .iter()
                .filter(|o| o.destination_node_id == **node)
                .filter(|o| interval_contains(o.start_exclusive, o.end_inclusive, token))
                .count();
            assert_eq!(count, usize::from(!held.contains(node)));
        }
    }
}

#[test]
fn the_way_back_moves_the_same_ranges() {
    let one = TopologySnapshot::new(1, 42, 8, vec![member("a", 1), member("b", 2)]).unwrap();
    let other = TopologySnapshot::new(2, 42, 8, vec![member("b", 2), member("c", 3)]).unwrap();
    let forth = moving_ranges(&one, &other).unwrap();
    let back = moving_ranges(&other, &one).unwrap();
    assert!(!forth.is_empty());
    assert_eq!(forth.len(), back.len());
    for (there, here) in forth.iter().zip(&back) {
        assert_eq!(there.start_exclusive, here.start_exclusive);
        assert_eq!(there.end_inclusive, here.end_inclusive);
        assert_eq!(there.source_node_id, here.destination_node_id);
        assert_eq!(there.destination_node_id, here.source_node_id);
    }
    assert!(forth.windows(2).all(|pair| pair[0].end_inclusive < pair[1].end_inclusive));
    assert!(moving_ranges(&one, &one).unwrap().is_empty());
}
