use std::collections::BTreeSet;
use std::sync::Mutex;

use hashring::cluster::{
    ClusterState, ReplicaAdmission, ReplicaRepairPhase, RepositoryError,
};
use hashring::coverage::{Grants, NodeLeaseGrant};
use hashring::leases::{PeerFailure, PeerFailures, NODE_LEASE_DURATION_NANOS};
use hashring::merge::can_prepare_direct_merge;
use hashring::migration::{MigrationPhase, TopologyChange};
use hashring::ordmap::SortedMap;
use hashring::readiness::policy_readiness_verified;
use hashring::restore::{load_or_initialize, CoordinatorRepository};
use hashring::status::{FollowerReplicaStatus, RangeReplicaStatus, ReplicaStatusResponse};
use hashring::topology::{
    Member, TopologyConfig, TopologySnapshot, WriteAckPolicy, WriteAvailabilityGuard,
};

const SECOND: u64 = 1_000_000_000;
const NOW: u64 = 100 * SECOND;

#[derive(Default)]
struct MemoryRepository(Mutex<Option<ClusterState>>);

impl CoordinatorRepository for MemoryRepository {
    fn load_state(&self) -> Result<Option<ClusterState>, RepositoryError> {
        Ok(self.0.lock().unwrap().clone())
    }

    fn store_state(&self, state: &ClusterState) -> Result<(), RepositoryError> {
        *self.0.lock().unwrap() = Some(state.clone());
        Ok(())
    }
}

fn topology() -> TopologySnapshot {
    TopologySnapshot::new(
        1,
        7,
        8,
        vec![Member { node_id: "n1".into(), endpoint: "http://127.0.0.1:5001".into() }],
    )
    .unwrap()
}

fn numbered(count: usize) -> Vec<Member> {
    (1..=count)
        .map(|index| Member {
            node_id: format!("n{index}"),
            endpoint: format!("http://127.0.0.1:500{index}"),
        })
        .collect()
}

fn without_first(members: Vec<Member>) -> Vec<Member> {
    members.into_iter().filter(|member| member.node_id != "n1").collect()
}

fn grant(process: &str, epoch: u64) -> NodeLeaseGrant {
    NodeLeaseGrant {
        process_instance_id: process.into(),
        epoch,
        expires_at: NOW + NODE_LEASE_DURATION_NANOS,
        expires_unix_millis: 0,
        last_renewal_unix_millis: 0,
    }
}

#[test]
fn activation_guard_accepts_an_existing_nonfirst_follower() {
    let mut config = TopologyConfig::default();
    config.write_availability_guard.minimum_admitted_copies = 2;
    config.write_availability_guard.minimum_healthy_followers = 1;
    let topology = TopologySnapshot::new_with_config(1, 7, 4, numbered(3), config).unwrap();
    let repository = MemoryRepository::default();
    let mut state = load_or_initialize(&repository, Some(topology.clone())).unwrap();
    for member in &topology.members {
        state
            .process_instances
            .insert(member.node_id.clone(), format!("{}-process", member.node_id));
    }
    for range in topology.derived_ranges().unwrap() {
        let follower = range.follower_node_ids[1].clone();
        state.replica_admissions.push(ReplicaAdmission {
            epoch: topology.epoch,
            start_exclusive: range.start_exclusive,
            end_inclusive: range.end_inclusive,
            owner_node_id: range.owner_node_id,
            process_instance_id: format!("{follower}-process"),
            node_id: follower,
            verified_watermark: 0,
            stream_cursor: 0,
            digest: "verified".into(),
        });
    }
    assert!(state.seed_repairs_for_activation().unwrap().is_empty());
    state.check_activation().unwrap();

    // The ACK policy still requires its exact successor even if the guard's
    // admitted-copy threshold is satisfied by another follower.
    state.committed.write_ack_policy = WriteAckPolicy::FirstSuccessor;
    assert!(!state.seed_repairs_for_activation().unwrap().is_empty());
    assert!(state.check_activation().is_err());
}

#[test]
fn failover_requires_admitted_coverage_for_every_old_interval() {
    let members = numbered(3);
    let old = TopologySnapshot::new(1, 7, 4, members.clone()).unwrap();
    let target = TopologyChange::plan(&old, without_first(members)).unwrap().target_topology;
    let repo = MemoryRepository::default();
    let mut state = load_or_initialize(&repo, Some(old.clone())).unwrap();
    for node_id in ["n1", "n2", "n3"] {
        state.process_instances.insert(node_id.into(), format!("{node_id}-process"));
    }
    for range in old.derived_ranges().unwrap() {
        let Some(follower) = range.follower_node_ids.first() else {
            continue;
        };
        state.replica_admissions.push(ReplicaAdmission {
            epoch: old.epoch,
            start_exclusive: range.start_exclusive,
            end_inclusive: range.end_inclusive,
            owner_node_id: range.owner_node_id,
            node_id: follower.clone(),
            process_instance_id: format!("{follower}-process"),
            verified_watermark: 0,
            stream_cursor: 0,
            digest: "verified".into(),
        });
    }
    let mut grants: Grants = SortedMap::new();
    for node_id in ["n2", "n3"] {
        grants.insert(node_id.into(), grant(&format!("{node_id}-process"), old.epoch));
    }
    assert!(state.prove_failure_coverage(&target, &grants, NOW).is_ok());
    let missing = state
        .replica_admissions
        .iter()
        .position(|admission| admission.owner_node_id == "n1")
        .expect("failed owner has at least one range");
    state.replica_admissions.remove(missing);
    assert!(state.prove_failure_coverage(&target, &grants, NOW).is_err());
}

#[test]
fn direct_merge_requires_admitted_natural_successor_coverage() {
    let members = numbered(3);
    let mut config = TopologyConfig::default();
    config.write_availability_guard.minimum_admitted_copies = 1;
    config.write_availability_guard.minimum_healthy_followers = 0;
    let old = TopologySnapshot::new_with_config(1, 7, 4, members.clone(), config).unwrap();
    let change = TopologyChange::plan(&old, without_first(members)).unwrap();
    let repo = MemoryRepository::default();
    let mut state = load_or_initialize(&repo, Some(old.clone())).unwrap();
    for member in &old.members {
        state
            .process_instances
            .insert(member.node_id.clone(), format!("{}-process", member.node_id));
    }
    assert!(can_prepare_direct_merge(&old, &change));
    assert!(!state.can_direct_merge(&change));
    for range in old.derived_ranges().unwrap() {
        let follower = range.follower_node_ids.first().unwrap();
        state.replica_admissions.push(ReplicaAdmission {
            epoch: old.epoch,
            start_exclusive: range.start_exclusive,
            end_inclusive: range.end_inclusive,
            owner_node_id: range.owner_node_id,
            node_id: follower.clone(),
            process_instance_id: format!("{follower}-process"),
            verified_watermark: 0,
            stream_cursor: 0,
            digest: "verified".into(),
        });
    }
    assert!(state.can_direct_merge(&change));
    state.replica_admissions.retain(|admission| admission.owner_node_id != "n1");
    assert!(!state.can_direct_merge(&change));
}

#[test]
fn removal_without_an_old_successor_keeps_the_copy_fallback() {
    let members = numbered(3);
    let config = TopologyConfig {
        desired_replication_factor: 1,
        write_availability_guard: WriteAvailabilityGuard {
            minimum_admitted_copies: 1,
            minimum_healthy_followers: 0,
            ..Default::default()
        },
        ..Default::default()
    };
    let old = TopologySnapshot::new_with_config(1, 7, 4, members.clone(), config).unwrap();
    let change = TopologyChange::plan(&old, without_first(members)).unwrap();
    assert!(!can_prepare_direct_merge(&old, &change));
    assert!(!change.ranges.is_empty());
}

#[test]
fn a_single_failed_peer_link_never_confirms_node_failure() {
    let topology = TopologySnapshot::new(1, 7, 1, numbered(3)).unwrap();
    let repo = MemoryRepository::default();
    let mut state = load_or_initialize(&repo, Some(topology)).unwrap();
    let mut grants: Grants = SortedMap::new();
    for node_id in ["n1", "n2", "n3"] {
        let process = format!("{node_id}-process");
        state.process_instances.insert(node_id.into(), process.clone());
        grants.insert(node_id.into(), grant(&process, 1));
    }
    let failure = || PeerFailure { first_seen: NOW - 6 * SECOND, last_seen: NOW };
    let n1 = String::from("n1");
    let mut reports: PeerFailures = SortedMap::new();
    reports.insert(("n1".into(), "n2".into()), failure());
    assert!(!state.failure_confirmed(&grants, &reports, &n1, NOW));
    reports.insert(("n1".into(), "n3".into()), failure());
    assert!(state.failure_confirmed(&grants, &reports, &n1, NOW));
    reports.clear();
    grants.remove(&n1);
    assert!(state.failure_confirmed(&grants, &reports, &n1, NOW));
}

#[test]
fn confirmed_failure_fences_before_waiting_for_repair_serialization() {
    let topology = TopologySnapshot::new(1, 7, 1, numbered(3)).unwrap();
    let repository = MemoryRepository::default();
    let mut state = load_or_initialize(&repository, Some(topology)).unwrap();
    for node_id in ["n1", "n2", "n3"] {
        state.process_instances.insert(node_id.into(), format!("{node_id}-process"));
    }
    let startup_at = NOW - NODE_LEASE_DURATION_NANOS;
    let (grants, reports): (Grants, PeerFailures) = (SortedMap::new(), SortedMap::new());
    let failed = state.failure_candidate(&grants, &reports, startup_at, NOW).unwrap();
    let planned_from = state.committed.clone();
    let change = state.plan_failure(&failed).unwrap();
    let state = state.fence_failed_node(&planned_from, &failed, &change).unwrap();
    assert!(state.fenced_nodes.contains(&"n1".into()));
    assert_eq!(
        state.active_change.as_ref().unwrap().failed_node_id.as_deref(),
        Some("n1")
    );
}

#[test]
fn failed_owner_vnodes_promote_to_multiple_clockwise_successors() {
    let members = numbered(4);
    let old = TopologySnapshot::new(1, 7, 32, members.clone()).unwrap();
    let target = TopologyChange::plan(&old, without_first(members)).unwrap().target_topology;
    let successors: BTreeSet<_> = old
        .derived_ranges()
        .unwrap()
        .into_iter()
        .filter(|range| range.owner_node_id == "n1")
        .map(|range| target.owner_for_token(range.end_inclusive).unwrap().node_id.clone())
        .collect();
    assert!(successors.len() > 1, "vnode failover should distribute ownership");
}

#[test]
fn policy_epoch_barrier_requires_every_admitted_stream_caught_up() {
    let base =
        TopologySnapshot::new_with_config(1, 7, 1, numbered(3), TopologyConfig::default()).unwrap();
    let target = TopologyChange::plan_with_policy(
        &base,
        base.members.clone(),
        WriteAckPolicy::FirstSuccessor,
    )
    .unwrap()
    .target_topology;
    let mut status = ReplicaStatusResponse {
        topology_epoch: base.epoch,
        topology_digest: String::new(),
        desired_rf: 0,
        write_ack_policy: WriteAckPolicy::OwnerOnly,
        ranges: target
            .derived_ranges()
            .unwrap()
            .into_iter()
            .map(|range| RangeReplicaStatus {
                start_exclusive: range.start_exclusive,
                end_inclusive: range.end_inclusive,
                owner_node_id: range.owner_node_id,
                desired_rf: 3,
                current_rf: 3,
                followers: range
                    .follower_node_ids
                    .into_iter()
                    .map(|node_id| FollowerReplicaStatus {
                        admitted: true,
                        lag_known: true,
                        stream_head: 1,
                        stream_cursor: 1,
                        ..FollowerReplicaStatus::unknown(node_id)
                    })
                    .collect(),
                owner_leased: false,
                live_rf: 0,
                writable: false,
                write_block_reason: String::new(),
                under_replicated: false,
                repairing: false,
            })
            .collect(),
        nodes: Vec::new(),
        activation_pending: false,
    };
    assert!(policy_readiness_verified(&target, &status));
    status.ranges[0].followers[1].stream_cursor = 0;
    assert!(!policy_readiness_verified(&target, &status));
}

#[test]
fn initializes_once_then_loads_durable_value() {
    let repository = MemoryRepository::default();
    let expected = topology();
    assert_eq!(
        load_or_initialize(&repository, Some(expected.clone())).unwrap().committed,
        expected
    );
    assert_eq!(load_or_initialize(&repository, None).unwrap().committed, expected);
}

#[test]
fn recovery_block_reason_does_not_outlive_its_change() {
    for terminal in [MigrationPhase::Complete, MigrationPhase::Aborted] {
        let repository = MemoryRepository::default();
        let committed = topology();
        let mut state = load_or_initialize(&repository, Some(committed.clone())).unwrap();
        state.active_change = Some(
            TopologyChange::plan(
                &committed,
                vec![
                    committed.members[0].clone(),
                    Member { node_id: "n2".into(), endpoint: "http://127.0.0.1:5002".into() },
                ],
            )
            .unwrap(),
        );
        state.recovery_block_reason = "failed original owner".into();
        repository.store_state(&state.set_phase(terminal).unwrap()).unwrap();
        assert!(load_or_initialize(&repository, None).unwrap().recovery_block_reason.is_empty());
    }
}

#[test]
fn durable_stop_confirmation_survives_active_change_replacement() {
    let committed = topology();
    let change = TopologyChange::plan(
        &committed,
        vec![Member { node_id: "n2".into(), endpoint: "http://127.0.0.1:5002".into() }],
    )
    .unwrap();
    let mut state = ClusterState::new(committed);
    state.active_change = Some(change);
    state.process_instances.insert("n1".into(), "process-1".into());

    let n1 = String::from("n1");
    let state = state.store_stop_prepared_node(&n1, &"process-1".into()).unwrap();
    let mut state = state.store_stopped_node(&n1).unwrap();
    state.active_change = None;

    assert!(state.is_stop_confirmed(&n1, &"process-1".into()).unwrap());
    assert!(!state.is_stop_confirmed(&n1, &"process-2".into()).unwrap());
}

#[test]
fn replica_status_only_counts_verified_current_processes() {
    let repository = MemoryRepository::default();
    let topology = TopologySnapshot::new(1, 7, 1, numbered(3)).unwrap();
    let mut state = load_or_initialize(&repository, Some(topology)).unwrap();
    assert_eq!(
        state.replica_repairs.len(),
        state.committed.derived_ranges().unwrap().len() * 2
    );
    let repair = state.replica_repairs[0].clone();
    state.process_instances.insert(repair.owner_node_id.clone(), "owner-1".into());
    state.process_instances.insert(repair.node_id.clone(), "follower-1".into());
    state.replica_admissions.push(ReplicaAdmission {
        epoch: repair.epoch,
        start_exclusive: repair.start_exclusive,
        end_inclusive: repair.end_inclusive,
        owner_node_id: repair.owner_node_id.clone(),
        node_id: repair.node_id.clone(),
        process_instance_id: "follower-1".into(),
        verified_watermark: 4,
        stream_cursor: 7,
        digest: "verified".into(),
    });
    state.replica_repairs[0].phase = ReplicaRepairPhase::Complete;
    repository.store_state(&state).unwrap();
    let mut restored = load_or_initialize(&repository, None).unwrap();
    assert_eq!(restored.replica_admissions, state.replica_admissions);
    let mut grants: Grants = SortedMap::new();
    let mut failures: PeerFailures = SortedMap::new();
    let progress = SortedMap::new();
    let status = restored.get_replica_status(&grants, &failures, &progress, NOW).unwrap();
    assert_eq!(status.topology_digest, state.committed.digest);
    assert_eq!(status.desired_rf, state.committed.desired_replication_factor);
    assert_eq!(status.write_ack_policy, WriteAckPolicy::OwnerOnly);
    let range = status
        .ranges
        .iter()
        .find(|range| {
            range.start_exclusive == repair.start_exclusive
                && range.end_inclusive == repair.end_inclusive
        })
        .unwrap();
    assert_eq!(range.current_rf, 2);
    assert_eq!(range.live_rf, 0);
    assert!(!range.owner_leased);
    assert!(!range.writable);
    assert_eq!(range.write_block_reason, "owner lease unavailable");
    assert!(range.under_replicated);
    assert!(range.repairing);
    assert!(range
        .followers
        .iter()
        .any(|follower| follower.node_id == repair.node_id && follower.admitted));
    grants.insert(
        repair.owner_node_id.clone(),
        NodeLeaseGrant {
            process_instance_id: "owner-1".into(),
            epoch: repair.epoch,
            expires_at: NOW + NODE_LEASE_DURATION_NANOS,
            expires_unix_millis: 12_345,
            last_renewal_unix_millis: 7_345,
        },
    );
    failures.insert(
        (repair.node_id.clone(), repair.owner_node_id.clone()),
        PeerFailure { first_seen: NOW, last_seen: NOW },
    );
    let status = restored.get_replica_status(&grants, &failures, &progress, NOW).unwrap();
    let owner = status.nodes.iter().find(|node| node.node_id == repair.owner_node_id).unwrap();
    assert!(owner.leased);
    assert_eq!(owner.process_instance_id, "owner-1");
    assert_eq!(owner.lease_expires_unix_millis, 12_345);
    assert_eq!(owner.last_renewal_unix_millis, 7_345);
    let follower = status.nodes.iter().find(|node| node.node_id == repair.node_id).unwrap();
    assert!(follower.suspected);
    assert!(!follower.leased);
    restored.process_instances.insert(repair.node_id, "follower-2".into());
    let status = restored.get_replica_status(&grants, &failures, &progress, NOW).unwrap();
    let range = status
        .ranges
        .iter()
        .find(|range| {
            range.start_exclusive == repair.start_exclusive
                && range.end_inclusive == repair.end_inclusive
        })
        .unwrap();
    assert_eq!(range.current_rf, 1);
    let mut state = restored.clone();
    state.reconcile_replica_repairs().unwrap();
    assert!(state.replica_admissions.is_empty());
    assert_eq!(state.replica_repairs[0].phase, ReplicaRepairPhase::Pending);
}

#[test]
fn repair_failure_is_durably_backed_off_and_reported() {
    let repository = MemoryRepository::default();
    let topology = TopologySnapshot::new(1, 7, 1, numbered(3)).unwrap();
    let state = load_or_initialize(&repository, Some(topology)).unwrap();
    let task = state.replica_repairs[0].clone();
    let before: u64 = 50_000;
    let failed = state.record_repair_failure(&vec![task], "follower offline", before);
    repository.store_state(&failed).unwrap();
    let restored = load_or_initialize(&repository, None).unwrap();
    let repair = &restored.replica_repairs[0];
    assert_eq!(repair.retry_count, 1);
    assert!(repair.next_attempt_unix_millis >= before + 2_000);
    assert_eq!(repair.last_error, "follower offline");
}
