use std::collections::{HashMap, HashSet};

use hashring::errors::{operation_error, Code, ErrorCode};
use hashring::interval::interval_contains;
use hashring::limits::{MAX_DATA_MESSAGE_BYTES, MAX_MUTATION_ID_BYTES};
use hashring::node::{
    DataNode, DestinationMigration, FollowerStream, NodeLimits, RangeSpec, SourceMigration,
};
use hashring::node_acks::{judge_delivery, next_retry_delay, Delivery, DeliveryReply};
use hashring::node_checkpoint::{RangeControl, ReplicationCheckpoint};
use hashring::node_control::peer_probe_targets;
use hashring::node_put::WriteOutcome;
use hashring::node_queues::{ReplicationQueues, REPLICATION_STREAM_QUEUE_CAPACITY};
use hashring::node_ready::required_followers;
use hashring::node_streams::ReplicationEntry;
use hashring::node_write::{GetResponse, Mutation};
use hashring::ordmap::SortedMap;
use hashring::receipts::{
    dedup_retained_bytes, required_ack_retained_bytes, ExpiringTable, Receipt, RequiredAck,
};
use hashring::records::{Record, RecordVersion};
use hashring::status::{FollowerReplicaStatus, RangeReplicaStatus};
use hashring::topology::{
    Member, TopologyConfig, TopologySnapshot, WriteAckPolicy, WriteAvailabilityGuard,
};

const SECOND: u64 = 1_000_000_000;
const NOW: u64 = 1_000 * SECOND;
const UNIX: u64 = 1_700_000_000_000;

fn member(id: &str, endpoint: &str) -> Member {
    Member { node_id: id.into(), endpoint: endpoint.into() }
}

fn relaxed(desired_replication_factor: u32) -> TopologyConfig {
    TopologyConfig {
        desired_replication_factor,
        write_availability_guard: WriteAvailabilityGuard {
            minimum_admitted_copies: 1,
            minimum_healthy_followers: 0,
            ..WriteAvailabilityGuard::default()
        },
        ..TopologyConfig::default()
    }
}

fn service_for(node_id: &str, topology: TopologySnapshot) -> DataNode {
    let epoch = topology.epoch;
    let mut node =
        DataNode::new(node_id.into(), "instance-1".into(), NodeLimits::default(), topology, NOW);
    node.lease = Some((epoch, NOW + 3_600 * SECOND));
    node
}

fn service() -> DataNode {
    let topology = TopologySnapshot::new_with_config(
        1,
        42,
        8,
        vec![member("node-1", "http://127.0.0.1:5001")],
        relaxed(1),
    )
    .unwrap();
    service_for("node-1", topology)
}

fn replication_topology(desired_replication_factor: u32) -> TopologySnapshot {
    TopologySnapshot::new_with_config(
        1,
        42,
        8,
        vec![
            member("node-1", "http://127.0.0.1:5001"),
            member("node-2", "http://127.0.0.1:5002"),
            member("node-3", "http://127.0.0.1:5003"),
        ],
        relaxed(desired_replication_factor),
    )
    .unwrap()
}

fn pair_topology(virtual_nodes: u32) -> TopologySnapshot {
    TopologySnapshot::new_with_config(
        1,
        42,
        virtual_nodes,
        vec![member("node-1", "http://127.0.0.1:1"), member("node-2", "http://127.0.0.1:2")],
        relaxed(2),
    )
    .unwrap()
}

fn key_with_placement(topology: &TopologySnapshot, predicate: impl Fn(&[&str]) -> bool) -> Vec<u8> {
    (0_u64..100_000)
        .map(|value| value.to_be_bytes().to_vec())
        .find(|key| {
            topology
                .replica_node_ids_for_token(topology.key_token(key))
                .is_ok_and(|replicas| predicate(&replicas))
        })
        .expect("test topology should contain a matching placement")
}

fn replication_entry(
    topology: &TopologySnapshot,
    key: Vec<u8>,
    stream_sequence: u64,
    owner_sequence: u64,
    value: &[u8],
    deleted: bool,
) -> ReplicationEntry {
    let owner = topology.owner(&key).unwrap();
    ReplicationEntry {
        topology_epoch: topology.epoch,
        owner_node_id: owner.node_id.clone(),
        stream_sequence,
        key,
        value: value.to_vec(),
        deleted,
        version: Some(RecordVersion {
            topology_epoch: topology.epoch,
            owner_sequence,
            owner_node_id: owner.node_id.clone(),
        }),
        mutation_id: format!("mutation-{stream_sequence}"),
    }
}

fn version(epoch: u64, sequence: u64, owner: &str) -> RecordVersion {
    RecordVersion { topology_epoch: epoch, owner_sequence: sequence, owner_node_id: owner.into() }
}

fn remember(node: &mut DataNode, id: &str, version: RecordVersion, expires_at: u64) {
    let retained_bytes = dedup_retained_bytes(id, b"key".len(), version.owner_node_id.len());
    node.receipts.add(
        id.into(),
        Receipt {
            key: b"key".to_vec(),
            fingerprint: vec![0; 32],
            version,
            deleted: false,
            retained_bytes,
            expires_at,
            required_acks: Vec::new(),
        },
    );
    node.dedup_peak_bytes = node.dedup_peak_bytes.max(node.receipts.bytes);
}

fn one_ack() -> Vec<RequiredAck> {
    vec![RequiredAck { epoch: 1, node_id: "node-2".into(), sequence: 1 }]
}

fn stream(epoch: u64, node: &str) -> (u64, String) {
    (epoch, node.into())
}

fn name(change: &str, range: &str) -> (String, String) {
    (change.into(), range.into())
}

#[test]
fn peer_probes_keep_two_independent_reporters_at_large_membership() {
    let members = (0..128)
        .map(|index| Member {
            node_id: format!("node-{index:03}"),
            endpoint: format!("http://127.0.0.1:{}", 6000 + index),
        })
        .collect();
    let topology = TopologySnapshot::new(1, 42, 1, members).unwrap();
    let mut reporters: HashMap<String, HashSet<String>> = HashMap::new();
    for member in &topology.members {
        let targets = peer_probe_targets(&topology, &member.node_id);
        assert_eq!(targets.len(), 4);
        for target in targets {
            reporters.entry(target.node_id).or_default().insert(member.node_id.clone());
        }
    }
    assert!(reporters.values().all(|reporters| reporters.len() == 4));
}

#[test]
fn replication_progress_reports_owner_ack_only_when_known() {
    let topology = replication_topology(3);
    let mut service = service_for("node-1", topology.clone());
    let (owner, follower) = (String::from("node-1"), String::from("node-2"));
    service.owner_stream_sequences.insert(stream(1, "node-2"), 3);
    let unknown =
        service.get_replication_progress(topology.epoch, &owner, &follower, false).unwrap();
    assert_eq!(unknown.stream_sequence, 3);
    assert!(!unknown.last_ack_known);

    service.ack_progress.insert(stream(1, "node-2"), 2);
    let known =
        service.get_replication_progress(topology.epoch, &owner, &follower, false).unwrap();
    assert!(known.last_ack_known);
    assert_eq!(known.last_ack_sequence, 2);
}

#[test]
fn follower_applies_only_contiguous_authorized_replication() {
    let topology = replication_topology(3);
    let key = key_with_placement(&topology, |replicas| replicas[1..].contains(&"node-2"));
    let mut service = service_for("node-2", topology.clone());
    let put = || replication_entry(&topology, key.clone(), 1, 10, b"value", false);

    assert_eq!(service.replicate_mutation(put(), NOW).unwrap(), 1);
    assert_eq!(service.records.get(&key).unwrap().value, b"value");
    let client_read = service.get(&key, NOW);
    assert_eq!(client_read.error.unwrap().code, ErrorCode::Moved);

    assert_eq!(service.replicate_mutation(put(), NOW).unwrap(), 1);
    let mut conflict = put();
    conflict.value = b"different".to_vec();
    assert_eq!(service.replicate_mutation(conflict, NOW).unwrap_err().code, Code::AlreadyExists);

    let gap = replication_entry(&topology, key.clone(), 3, 12, b"later", false);
    assert_eq!(service.replicate_mutation(gap, NOW).unwrap_err().code, Code::Aborted);
    let stale_version = replication_entry(&topology, key.clone(), 2, 10, b"later", false);
    assert_eq!(
        service.replicate_mutation(stale_version, NOW).unwrap_err().code,
        Code::FailedPrecondition
    );

    let delete = replication_entry(&topology, key.clone(), 2, 11, b"", true);
    assert_eq!(service.replicate_mutation(delete, NOW).unwrap(), 2);
    assert!(service.records.get(&key).unwrap().deleted);
}

#[test]
fn full_stream_checkpoint_repairs_a_gap_without_replaying_old_entries() {
    let topology = replication_topology(3);
    let mut follower = service_for("node-2", topology.clone());
    let ranges: Vec<_> = topology
        .derived_ranges()
        .unwrap()
        .into_iter()
        .filter(|range| {
            range.owner_node_id == "node-1"
                && range.follower_node_ids.iter().any(|node| node == "node-2")
        })
        .collect();
    assert!(ranges.len() > 1);
    let control = |index: usize| RangeControl {
        change_id: "repair-test".into(),
        range_id: format!("range-{index}"),
    };
    for (index, range) in ranges.iter().enumerate() {
        follower
            .prepare_destination_range(&RangeSpec {
                change_id: "repair-test".into(),
                range_id: format!("range-{index}"),
                start_exclusive: range.start_exclusive,
                end_inclusive: range.end_inclusive,
                source_node_id: "node-1".into(),
                destination_node_id: "node-2".into(),
            })
            .unwrap();
        follower.commit_destination_range(&control(index), NOW).unwrap();
    }
    let mut checkpoint = ReplicationCheckpoint {
        topology_epoch: 1,
        owner_node_id: "node-1".into(),
        follower_node_id: "node-2".into(),
        stream_sequence: 5,
        verified_ranges: (0..ranges.len() - 1).map(control).collect(),
    };
    assert_eq!(
        follower.install_replication_checkpoint(&checkpoint).unwrap_err().code,
        Code::FailedPrecondition
    );
    checkpoint.verified_ranges.push(control(ranges.len() - 1));
    let installed = follower.install_replication_checkpoint(&checkpoint).unwrap();
    assert_eq!(installed.stream_sequence, 5);
    let key = key_with_placement(&topology, |replicas| {
        replicas[0] == "node-1" && replicas.contains(&"node-2")
    });
    let old = replication_entry(&topology, key.clone(), 1, 1, b"stale", false);
    assert_eq!(follower.replicate_mutation(old, NOW).unwrap(), 5);
    assert!(!follower.records.contains(&key));
    let gap = replication_entry(&topology, key.clone(), 7, 7, b"gap", false);
    assert_eq!(follower.replicate_mutation(gap, NOW).unwrap_err().code, Code::Aborted);
    let next = replication_entry(&topology, key.clone(), 6, 6, b"current", false);
    follower.replicate_mutation(next, NOW).unwrap();
    assert_eq!(follower.records.get(&key).unwrap().value, b"current");
}

#[test]
fn follower_rejects_stale_wrong_owner_and_out_of_coverage_entries() {
    let topology = replication_topology(2);
    let follower_key = key_with_placement(&topology, |replicas| {
        replicas[0] != "node-2" && replicas[1..].contains(&"node-2")
    });
    let outside_key = key_with_placement(&topology, |replicas| !replicas.contains(&"node-2"));
    let mut service = service_for("node-2", topology.clone());

    let mut stale = replication_entry(&topology, follower_key.clone(), 1, 1, b"value", false);
    stale.topology_epoch = 0;
    stale.version.as_mut().unwrap().topology_epoch = 0;
    assert_eq!(
        service.replicate_mutation(stale, NOW).unwrap_err().code,
        Code::FailedPrecondition
    );

    let mut oversized_id =
        replication_entry(&topology, follower_key.clone(), 1, 1, b"value", false);
    oversized_id.mutation_id = "x".repeat(MAX_MUTATION_ID_BYTES + 1);
    assert_eq!(
        service.replicate_mutation(oversized_id, NOW).unwrap_err().code,
        Code::InvalidArgument
    );

    let mut wrong_owner = replication_entry(&topology, follower_key, 1, 1, b"value", false);
    let incorrect_node_id = topology
        .members
        .iter()
        .find(|member| member.node_id != wrong_owner.owner_node_id)
        .unwrap()
        .node_id
        .clone();
    wrong_owner.owner_node_id = incorrect_node_id.clone();
    wrong_owner.version.as_mut().unwrap().owner_node_id = incorrect_node_id;
    assert_eq!(
        service.replicate_mutation(wrong_owner, NOW).unwrap_err().code,
        Code::FailedPrecondition
    );

    let outside = replication_entry(&topology, outside_key, 1, 1, b"value", false);
    assert_eq!(
        service.replicate_mutation(outside, NOW).unwrap_err().code,
        Code::FailedPrecondition
    );
}

#[test]
fn expired_mutation_ids_eventually_release_old_ack_progress() {
    let mut service = service();
    service.ack_progress.insert(stream(0, "old-follower"), 0);
    remember(&mut service, "expired", version(0, 1, "node-1"), NOW - 1_000_000);
    service.next_ack_prune_at = NOW + SECOND;

    service.purge_expired_dedup(NOW);
    assert_eq!(service.receipts.entries.len(), 0);
    assert!(service.ack_progress.contains(&stream(0, "old-follower")));

    service.purge_expired_dedup(NOW + SECOND);
    assert!(!service.ack_progress.contains(&stream(0, "old-follower")));
}

fn await_ack(node: &mut DataNode, id: &str, ack_bytes: usize) {
    let entry = node.receipts.entries.get_mut(&id.into()).unwrap();
    entry.required_acks = one_ack();
    entry.retained_bytes += ack_bytes;
    node.receipts.bytes += ack_bytes;
    node.dedup_peak_bytes = node.dedup_peak_bytes.max(node.receipts.bytes);
}

#[test]
fn acknowledged_mutation_releases_ack_metadata_but_keeps_retry_result() {
    let mut service = service();
    let written = version(1, 1, "node-1");
    let ack_bytes = required_ack_retained_bytes(&vec!["node-2".into()]);
    remember(&mut service, "mutation-1", written.clone(), NOW + 60 * SECOND);
    let base_bytes = service.receipts.bytes;
    await_ack(&mut service, "mutation-1", ack_bytes);
    service.ack_progress.insert(stream(1, "node-2"), 1);
    service.admitted_followers.insert("node-2".into(), "follower-process".into());
    service.ack_process_instances.insert(stream(1, "node-2"), "follower-process".into());

    let id = String::from("mutation-1");
    service.wait_required_acks(&one_ack(), 1, &id, &written, true, NOW).unwrap().unwrap();
    let entry = service.receipts.entries.get(&id).unwrap();
    assert!(entry.required_acks.is_empty());
    assert_eq!(service.receipts.bytes, base_bytes);
    assert_eq!(entry.version, written);
    service.wait_required_acks(&Vec::new(), 1, &id, &written, true, NOW).unwrap().unwrap();
}

#[test]
fn unacknowledged_mutation_retains_ack_requirements_for_retry() {
    let mut service = service();
    let written = version(1, 1, "node-1");
    let ack_bytes = required_ack_retained_bytes(&vec!["node-2".into()]);
    remember(&mut service, "mutation-1", written.clone(), NOW + 60 * SECOND);
    await_ack(&mut service, "mutation-1", ack_bytes);
    service.ack_progress.insert(stream(1, "node-2"), 0);
    let id = String::from("mutation-1");
    assert!(service
        .wait_required_acks(&one_ack(), 1, &id, &written, true, NOW)
        .unwrap()
        .is_err());
    assert_eq!(service.receipts.entries.get(&id).unwrap().required_acks, one_ack());
    service.ack_progress.insert(stream(1, "node-2"), 1);
    service.admitted_followers.insert("node-2".into(), "follower-process".into());
    service.ack_process_instances.insert(stream(1, "node-2"), "follower-process".into());
    service.wait_required_acks(&one_ack(), 1, &id, &written, true, NOW).unwrap().unwrap();
    assert!(service.receipts.entries.get(&id).unwrap().required_acks.is_empty());
}

#[test]
fn owner_assigns_independent_contiguous_sequences_per_follower() {
    let topology = replication_topology(3);
    let key = key_with_placement(&topology, |replicas| replicas[0] == "node-1");
    let mut node = service_for("node-1", topology);
    let mutation = |value: &[u8], id: &str| Mutation {
        key: key.clone(),
        value: value.to_vec(),
        deleted: false,
        request_id: id.into(),
    };
    let first = node.prepare_replication_entries(&mutation(b"one", "mutation-1")).unwrap();
    let second = node.prepare_replication_entries(&mutation(b"two", "mutation-2")).unwrap();

    assert_eq!(first.len(), 2);
    assert_eq!(second.len(), 2);
    for follower in first {
        let next = second
            .iter()
            .find(|candidate| candidate.follower_node_id == follower.follower_node_id)
            .unwrap();
        assert_eq!(follower.stream_sequence, 1);
        assert_eq!(next.stream_sequence, 2);
    }
}

struct Pair {
    owner: DataNode,
    queues: ReplicationQueues,
    follower: DataNode,
    pending: Vec<ReplicationEntry>,
}

impl Pair {
    fn new(topology: &TopologySnapshot) -> Self {
        Pair {
            owner: service_for("node-1", topology.clone()),
            queues: ReplicationQueues::new(),
            follower: service_for("node-2", topology.clone()),
            pending: Vec::new(),
        }
    }

    fn write(&mut self, key: &[u8], value: Option<&[u8]>, id: &str) {
        let mutation = Mutation {
            key: key.to_vec(),
            value: value.unwrap_or(b"").to_vec(),
            deleted: value.is_none(),
            request_id: id.into(),
        };
        let outcome = match value {
            Some(value) => self.owner.put(
                &mut self.queues,
                key.to_vec(),
                value.to_vec(),
                id.into(),
                NOW,
                UNIX,
            ),
            None => self.owner.delete(&mut self.queues, key.to_vec(), id.into(), NOW, UNIX),
        };
        match outcome {
            WriteOutcome::Written { version, entries, .. } => {
                for entry in entries {
                    self.pending.push(entry.to_entry(&mutation, &version));
                }
            }
            other => panic!("write did not apply: {other:?}"),
        }
    }

    /// Delivers what is pending, in order, until the follower refuses.
    fn deliver(&mut self) {
        while !self.pending.is_empty() {
            let entry = &self.pending[0];
            let again = ReplicationEntry {
                topology_epoch: entry.topology_epoch,
                owner_node_id: entry.owner_node_id.clone(),
                stream_sequence: entry.stream_sequence,
                key: entry.key.clone(),
                value: entry.value.clone(),
                deleted: entry.deleted,
                version: entry.version.clone(),
                mutation_id: entry.mutation_id.clone(),
            };
            let sequence = entry.stream_sequence;
            let reply = match self.follower.replicate_mutation(again, NOW) {
                Ok(applied) => DeliveryReply::Applied {
                    process_instance_id: "instance-1".into(),
                    applied_stream_sequence: applied,
                },
                Err(status) => DeliveryReply::Refused(status.code),
            };
            match judge_delivery(&reply, sequence) {
                Delivery::Acknowledged => {
                    if let DeliveryReply::Applied { applied_stream_sequence, .. } = reply {
                        self.owner.record_ack(
                            1,
                            &"node-2".into(),
                            "instance-1".into(),
                            applied_stream_sequence,
                        );
                    }
                    self.queues.take(1, &"node-2".into());
                    self.pending.remove(0);
                }
                Delivery::Retry => return,
                Delivery::Failed => panic!("stream failed"),
            }
        }
    }

    fn applied(&self) -> u64 {
        self.follower
            .follower_streams
            .get(&stream(1, "node-1"))
            .map_or(0, |stream| stream.applied_sequence)
    }
}

#[test]
fn owner_only_delivers_put_and_delete_to_follower_in_order() {
    let topology = pair_topology(8);
    let mut pair = Pair::new(&topology);
    let key = key_with_placement(&topology, |replicas| replicas[0] == "node-1");

    pair.write(&key, Some(b"replicated"), "put-1");
    pair.deliver();
    assert_eq!(pair.follower.records.get(&key).unwrap().value, b"replicated");
    let receipt = pair.follower.receipts.entries.get(&"put-1".into()).unwrap();
    assert_eq!(receipt.version.owner_sequence, 1);

    pair.write(&key, None, "delete-1");
    pair.deliver();
    assert!(pair.follower.records.get(&key).unwrap().deleted);
    assert_eq!(pair.applied(), 2);

    for index in 0..6_u8 {
        pair.write(&key, Some(&[index]), &format!("concurrent-{index}"));
    }
    pair.deliver();
    assert_eq!(pair.applied(), 8);
    assert_eq!(pair.follower.records.get(&key).unwrap().version.owner_sequence, 8);
}

#[test]
fn dispatcher_resumes_after_a_verified_gap_checkpoint() {
    let topology = pair_topology(4);
    let mut pair = Pair::new(&topology);
    let key = key_with_placement(&topology, |replicas| replicas[0] == "node-1");
    pair.write(&key, Some(b"one"), "first");
    pair.deliver();
    assert_eq!(pair.applied(), 1);
    pair.follower.follower_streams = SortedMap::<(u64, String), FollowerStream>::new();
    pair.follower.records = SortedMap::new();
    pair.write(&key, Some(b"two"), "second");
    pair.deliver();
    assert_eq!(pair.applied(), 0);
    assert_eq!(pair.pending.len(), 1);
    let mut controls = Vec::new();
    for (index, range) in topology
        .derived_ranges()
        .unwrap()
        .into_iter()
        .filter(|range| {
            range.owner_node_id == "node-1" && range.follower_node_ids.contains(&"node-2".into())
        })
        .enumerate()
    {
        let spec = RangeSpec {
            change_id: "repair-dispatch".into(),
            range_id: format!("range-{index}"),
            start_exclusive: range.start_exclusive,
            end_inclusive: range.end_inclusive,
            source_node_id: "node-1".into(),
            destination_node_id: "node-2".into(),
        };
        let mut records = SortedMap::new();
        for i in 0..pair.owner.records.len() {
            let key = pair.owner.records.key_at(i);
            if spec.contains(topology.key_token(key)) {
                let record = pair.owner.records.value_at(i);
                records.insert(
                    key.clone(),
                    Record {
                        value: record.value.clone(),
                        version: record.version.clone(),
                        deleted: record.deleted,
                    },
                );
            }
        }
        pair.follower.destinations.insert(
            spec.key(),
            DestinationMigration {
                range: spec,
                records,
                dedup: ExpiringTable::new(),
                watermark: 0,
                committed: false,
                writes_activated: false,
            },
        );
        let control = RangeControl {
            change_id: "repair-dispatch".into(),
            range_id: format!("range-{index}"),
        };
        pair.follower.commit_destination_range(&control, NOW).unwrap();
        controls.push(control);
    }
    let checkpoint = pair
        .follower
        .install_replication_checkpoint(&ReplicationCheckpoint {
            topology_epoch: 1,
            owner_node_id: "node-1".into(),
            follower_node_id: "node-2".into(),
            stream_sequence: 2,
            verified_ranges: controls,
        })
        .unwrap();
    assert_eq!(checkpoint.stream_sequence, 2);
    pair.deliver();
    assert!(pair.owner.owner_stream_unacked.get(&stream(1, "node-2")).unwrap().is_empty());
    pair.write(&key, Some(b"three"), "third");
    pair.deliver();
    assert_eq!(pair.applied(), 3);
    assert_eq!(pair.follower.records.get(&key).unwrap().value, b"three");
}

#[test]
fn unavailable_follower_backpressures_before_unbounded_queue_growth() {
    let topology = pair_topology(8);
    let mut owner = service_for("node-1", topology.clone());
    let mut queues = ReplicationQueues::new();
    let key = key_with_placement(&topology, |replicas| replicas[0] == "node-1");
    let mut successful: u64 = 0;
    let rejected = loop {
        let outcome = owner.put(
            &mut queues,
            key.clone(),
            vec![successful as u8],
            format!("put-{successful}"),
            NOW,
            UNIX,
        );
        match outcome {
            WriteOutcome::Refused(error) => break error,
            WriteOutcome::Known { .. } => panic!("every write is new"),
            WriteOutcome::Written { .. } => {}
        }
        if successful == 0 {
            // The first write is on its way and waits on no queue.
            queues.take(1, &"node-2".into());
        }
        successful += 1;
        assert!(successful <= REPLICATION_STREAM_QUEUE_CAPACITY + 1);
    };

    assert_eq!(rejected.code, ErrorCode::ResourceExhausted);
    assert_eq!(queues.rejections, 1);
    assert_eq!(queues.peak_waiting, REPLICATION_STREAM_QUEUE_CAPACITY);
    assert_eq!(owner.next_sequence, successful);
    assert_eq!(owner.records.get(&key).unwrap().version.owner_sequence, successful);
    assert_eq!(owner.owner_stream_sequences.get(&stream(1, "node-2")), Some(&successful));
}

#[test]
fn older_replicated_delete_cannot_erase_newer_seeded_value() {
    let topology = replication_topology(3);
    let key = key_with_placement(&topology, |replicas| replicas[1..].contains(&"node-2"));
    let mut service = service_for("node-2", topology.clone());
    let owner_node_id = topology.owner(&key).unwrap().node_id.clone();
    service.records.insert(
        key.clone(),
        Record {
            value: b"newer".to_vec(),
            version: version(topology.epoch, 11, &owner_node_id),
            deleted: false,
        },
    );

    let delete = replication_entry(&topology, key.clone(), 1, 10, b"", true);
    service.replicate_mutation(delete, NOW).unwrap();
    assert_eq!(service.records.get(&key).unwrap().value, b"newer");
    assert!(!service.records.get(&key).unwrap().deleted);
}

#[test]
fn source_cleanup_retains_records_needed_as_follower_copies() {
    let topology = TopologySnapshot::new_with_config(
        2,
        42,
        8,
        vec![member("node-1", "http://127.0.0.1:5001"), member("node-2", "http://127.0.0.1:5002")],
        TopologyConfig { desired_replication_factor: 2, ..TopologyConfig::default() },
    )
    .unwrap();
    let key = key_with_placement(&topology, |replicas| {
        replicas[0] == "node-2" && replicas[1] == "node-1"
    });
    let mut service = service_for("node-1", topology);
    service.records.insert(
        key.clone(),
        Record { value: b"replica".to_vec(), version: version(1, 1, "node-1"), deleted: false },
    );
    service.sources.insert(
        name("change-1", "range-1"),
        SourceMigration {
            range: RangeSpec {
                change_id: "change-1".into(),
                range_id: "range-1".into(),
                start_exclusive: 0,
                end_inclusive: 0,
                source_node_id: "node-1".into(),
                destination_node_id: "node-2".into(),
            },
            snapshot_keys: Some(Vec::new()),
            snapshot_dedup_ids: Vec::new(),
            journal: Vec::new(),
            journal_bytes: 0,
            watermark: 0,
            writes_paused: true,
        },
    );

    service.cleanup_source_range(&RangeControl {
        change_id: "change-1".into(),
        range_id: "range-1".into(),
    });
    assert!(service.records.contains(&key));
}

#[test]
fn strong_ack_policies_fail_writes_closed_until_replication_is_active() {
    for policy in [WriteAckPolicy::FirstSuccessor, WriteAckPolicy::AllReplicas] {
        let mut service = service();
        let mut queues = ReplicationQueues::new();
        let topology = TopologySnapshot::new_with_config(
            2,
            42,
            8,
            vec![member("node-1", "http://127.0.0.1:5001")],
            TopologyConfig { write_ack_policy: policy, ..TopologyConfig::default() },
        )
        .unwrap();
        service.install_topology(topology).unwrap();
        service.lease = Some((2, NOW + 3_600 * SECOND));

        let put = service.put(
            &mut queues,
            b"key".to_vec(),
            b"value".to_vec(),
            "put".into(),
            NOW,
            UNIX,
        );
        assert!(matches!(
            put,
            WriteOutcome::Refused(error) if error.code == ErrorCode::TemporarilyUnavailable
        ));
        let delete = service.delete(&mut queues, b"key".to_vec(), "delete".into(), NOW, UNIX);
        assert!(matches!(
            delete,
            WriteOutcome::Refused(error) if error.code == ErrorCode::TemporarilyUnavailable
        ));
        assert_eq!(service.records.len(), 0);
    }
}

#[test]
fn first_successor_requires_the_exact_healthy_follower_and_its_ack() {
    let base = replication_topology(3);
    let key = key_with_placement(&base, |replicas| replicas[0] == "node-1");
    let token = base.key_token(&key);
    let range = base
        .derived_ranges()
        .unwrap()
        .into_iter()
        .find(|range| {
            range.owner_node_id == "node-1"
                && interval_contains(range.start_exclusive, range.end_inclusive, token)
        })
        .unwrap();
    let first = range.follower_node_ids[0].clone();
    let second = range.follower_node_ids[1].clone();
    let mut topology = TopologySnapshot::new_with_config(
        1,
        42,
        8,
        base.members.clone(),
        TopologyConfig {
            desired_replication_factor: 3,
            write_ack_policy: WriteAckPolicy::FirstSuccessor,
            write_availability_guard: WriteAvailabilityGuard {
                minimum_admitted_copies: 2,
                minimum_healthy_followers: 1,
                ..WriteAvailabilityGuard::default()
            },
        },
    )
    .unwrap();
    let mut ranges = vec![RangeReplicaStatus {
        start_exclusive: range.start_exclusive,
        end_inclusive: range.end_inclusive,
        owner_node_id: "node-1".into(),
        desired_rf: 3,
        current_rf: 3,
        followers: vec![
            FollowerReplicaStatus {
                admitted: true,
                lag_known: false,
                ..FollowerReplicaStatus::unknown(first.clone())
            },
            FollowerReplicaStatus {
                admitted: true,
                lag_known: true,
                ..FollowerReplicaStatus::unknown(second.clone())
            },
        ],
        owner_leased: false,
        live_rf: 0,
        writable: false,
        write_block_reason: String::new(),
        under_replicated: false,
        repairing: false,
    }];
    assert!(required_followers(&topology, token, Some((1, &ranges)), "node-1").is_err());
    ranges[0].followers[0].lag_known = true;
    assert_eq!(
        required_followers(&topology, token, Some((1, &ranges)), "node-1").unwrap(),
        vec![first.clone()]
    );
    topology.write_ack_policy = WriteAckPolicy::AllReplicas;
    assert_eq!(
        required_followers(&topology, token, Some((1, &ranges)), "node-1").unwrap(),
        vec![first.clone(), second.clone()]
    );
    ranges[0].followers[1].admitted = false;
    assert!(required_followers(&topology, token, Some((1, &ranges)), "node-1").is_err());
    topology.write_ack_policy = WriteAckPolicy::OwnerOnly;
    assert!(required_followers(&topology, token, Some((1, &ranges)), "node-1")
        .unwrap()
        .is_empty());

    let mut service = service();
    service.admitted_followers.insert(first.clone(), "follower-process".into());
    service.ack_process_instances.insert((1, first.clone()), "follower-process".into());
    service.ack_progress.insert((1, first.clone()), 0);
    service.ack_progress.insert((1, second.clone()), 0);
    let acks = vec![RequiredAck { epoch: 1, node_id: first.clone(), sequence: 1 }];
    let (id, written) = (String::from("mutation-1"), version(1, 1, "node-1"));
    service.ack_progress.insert((1, second), 1);
    assert!(service.wait_required_acks(&acks, 1, &id, &written, false, NOW).is_none());
    service.ack_progress.insert((1, first), 1);
    assert!(service.wait_required_acks(&acks, 1, &id, &written, false, NOW).unwrap().is_ok());
}

#[test]
fn required_ack_rejects_a_restarted_follower_until_its_new_process_is_admitted() {
    let mut service = service();
    let (id, written) = (String::from("id"), version(1, 1, "node-1"));
    service.ack_progress.insert(stream(1, "node-2"), 1);
    service.admitted_followers.insert("node-2".into(), "old-process".into());
    service.ack_process_instances.insert(stream(1, "node-2"), "new-process".into());
    assert!(service
        .wait_required_acks(&one_ack(), 1, &id, &written, true, NOW)
        .unwrap()
        .is_err());
    service.admitted_followers.insert("node-2".into(), "new-process".into());
    service.wait_required_acks(&one_ack(), 1, &id, &written, true, NOW).unwrap().unwrap();
    // A late waiter cannot use a sequence acknowledged by the previous process.
    service.ack_progress.insert(stream(1, "node-2"), 0);
    assert!(service
        .wait_required_acks(&one_ack(), 1, &id, &written, true, NOW)
        .unwrap()
        .is_err());
}

#[test]
fn local_readiness_requires_admission_and_bounds_unacknowledged_lag() {
    let topology = TopologySnapshot::new(
        1,
        7,
        4,
        (1..=3)
            .map(|i| member(&format!("node-{i}"), &format!("http://127.0.0.1:500{i}")))
            .collect(),
    )
    .unwrap();
    let mut service = service_for("node-1", topology);
    let key = b"local-readiness";
    service.topology.write_ack_policy = WriteAckPolicy::FirstSuccessor;
    let follower = service
        .topology
        .replica_node_ids_for_token(service.topology.key_token(key))
        .unwrap()[1]
        .to_owned();
    assert!(service.ready_followers(key, UNIX).is_err());
    service.admitted_followers.insert(follower.clone(), "process".into());
    assert_eq!(service.ready_followers(key, UNIX).unwrap().1, vec![follower.clone()]);
    let old = UNIX - (service.topology.write_availability_guard.max_replica_lag_millis + 1);
    service.owner_stream_unacked.insert((1, follower.clone()), vec![(1, old)]);
    assert!(service.ready_followers(key, UNIX).is_err());
    service.owner_stream_unacked.clear();
    assert_eq!(service.ready_followers(key, UNIX).unwrap().1, [follower]);
}

#[test]
fn ack_pruning_preserves_live_old_requirements_and_skips_current_epoch_scans() {
    let mut service = service();
    service.cleanup_timing.enabled = true;
    let current_epoch = service.topology.epoch;
    let old = stream(0, "old-follower");
    let orphan = stream(0, "orphan-instance");
    let current = stream(current_epoch, "current-follower");
    for stream in [&old, &current] {
        service.ack_progress.insert(stream.clone(), 1);
        service.ack_process_instances.insert(stream.clone(), "process".into());
    }
    // An identity can require retirement even without a corresponding sender.
    service.ack_process_instances.insert(orphan.clone(), "process".into());
    remember(&mut service, "live", version(0, 1, "node-1"), NOW + 60 * SECOND);
    let live = String::from("live");
    service.receipts.entries.get_mut(&live).unwrap().required_acks =
        vec![RequiredAck { epoch: 0, node_id: old.1.clone(), sequence: 1 }];
    service.prune_ack_progress();
    assert!(service.ack_progress.contains(&old));
    assert!(service.ack_process_instances.contains(&old));
    assert!(!service.ack_process_instances.contains(&orphan));
    assert!(service.ack_progress.contains(&current));

    service.receipts.entries.get_mut(&live).unwrap().required_acks.clear();
    service.prune_ack_progress();
    assert!(!service.ack_progress.contains(&old));
    assert!(!service.ack_process_instances.contains(&old));
    let scanned = service.cleanup_timing.ack_prune_scanned_receipts;
    service.prune_ack_progress();
    assert_eq!(service.cleanup_timing.ack_prune_scanned_receipts, scanned);
    assert!(service.ack_progress.contains(&current));
    assert!(service.ack_process_instances.contains(&current));
    service.ack_process_instances.insert(orphan.clone(), "late-instance".into());
    service.prune_ack_progress();
    assert!(!service.ack_process_instances.contains(&orphan));
}

#[test]
fn retries_wait_longer_each_time_up_to_a_second() {
    assert_eq!(next_retry_delay(25), 50);
    assert_eq!(next_retry_delay(800), 1_000);
    assert_eq!(next_retry_delay(1_000), 1_000);
}

#[test]
fn replies_without_a_process_end_a_stream() {
    let nameless = DeliveryReply::Applied {
        process_instance_id: String::new(),
        applied_stream_sequence: 9,
    };
    assert!(matches!(judge_delivery(&nameless, 1), Delivery::Failed));
    assert!(matches!(judge_delivery(&DeliveryReply::TimedOut, 1), Delivery::Retry));
    assert!(matches!(
        judge_delivery(&DeliveryReply::Refused(Code::InvalidArgument), 1),
        Delivery::Failed
    ));
}

#[test]
fn admissions_for_own_ranges_are_taken_over() {
    let mut node = service_for("node-1", replication_topology(2));
    let epoch = node.topology.epoch;
    let follower = |id: &str, admitted: bool| {
        let mut status = FollowerReplicaStatus::unknown(id.into());
        status.admitted = admitted;
        status.process_instance_id = format!("{id}-process");
        status
    };
    let range = |owner: &str, followers: Vec<FollowerReplicaStatus>| RangeReplicaStatus {
        start_exclusive: 0,
        end_inclusive: 0,
        owner_node_id: owner.into(),
        desired_rf: 2,
        current_rf: 2,
        followers,
        owner_leased: true,
        live_rf: 2,
        writable: true,
        write_block_reason: String::new(),
        under_replicated: false,
        repairing: false,
    };
    let ranges = vec![
        range("node-1", vec![follower("node-2", true), follower("node-3", false)]),
        range("node-2", vec![follower("node-4", true)]),
    ];
    node.note_admissions(epoch + 1, &ranges);
    assert_eq!(node.admitted_followers.len(), 0);
    node.note_admissions(epoch, &ranges);
    assert_eq!(node.admitted_followers.len(), 1);
    assert_eq!(
        node.admitted_followers.get(&"node-2".into()),
        Some(&"node-2-process".to_string()),
    );
    node.note_admissions(epoch, &Vec::new());
    assert_eq!(node.admitted_followers.len(), 0);
}

#[test]
fn writes_take_room_for_their_parts() {
    let node = service_for("node-1", replication_topology(2));
    let mutation = Mutation {
        key: b"key".to_vec(),
        value: b"value".to_vec(),
        deleted: false,
        request_id: "request".into(),
    };
    assert_eq!(node.replication_mutation_bytes(&mutation), 3 + 5 + 6 + 7 + 256);
    assert_eq!(mutation.encoded_len(0), 5 + 7 + 9);
    assert_eq!(mutation.encoded_len(300), 5 + 7 + 3 + 9);
}

#[test]
fn the_longest_writes_fit_into_data_messages() {
    let limits = NodeLimits::default();
    let mutation = Mutation {
        key: vec![1; limits.max_key_bytes],
        value: vec![2; limits.max_value_bytes],
        deleted: false,
        request_id: "x".repeat(MAX_MUTATION_ID_BYTES),
    };
    let length = mutation.encoded_len(u64::MAX);
    assert_eq!(length, 65_536 + 4 + 8_388_608 + 5 + 11 + 128 + 3);
    assert!(length <= MAX_DATA_MESSAGE_BYTES as u64);
    let entry = ReplicationEntry {
        topology_epoch: 1,
        owner_node_id: "n".into(),
        stream_sequence: 0,
        key: b"k".to_vec(),
        value: Vec::new(),
        deleted: true,
        version: Some(version(1, 2, "n")),
        mutation_id: "m".into(),
    };
    assert_eq!(entry.encoded_len(), 2 + 3 + 3 + 2 + 2 + (2 + 2 + 3) + 3);
    let answer = GetResponse {
        value: b"value".to_vec(),
        version: None,
        current_epoch: 3,
        error: Some(operation_error(ErrorCode::NotFound, "gone", true)),
    };
    assert_eq!(answer.encoded_len(), 7 + 2 + 2 + (2 + 6 + 2));
}

#[test]
fn released_streams_are_counted_only_where_that_is_asked_for() {
    for enabled in [false, true] {
        let mut service = service();
        service.cleanup_timing.enabled = enabled;
        remember(&mut service, "gone", version(0, 1, "node-1"), NOW);
        remember(&mut service, "live", version(0, 2, "node-1"), NOW + 60 * SECOND);
        service.ack_progress.insert(stream(0, "old-follower"), 1);
        service.purge_expired_dedup(NOW);
        assert!(!service.ack_progress.contains(&stream(0, "old-follower")));
        let timing = service.cleanup_timing;
        assert_eq!(timing.ack_prune_calls, u64::from(enabled));
        assert_eq!(timing.ack_prune_scanned_receipts, u64::from(enabled));
        service.purge_expired_dedup(NOW + SECOND);
        assert_eq!(service.cleanup_timing, timing);
        service.prune_ack_progress();
        let counted = service.cleanup_timing;
        assert_eq!(counted.ack_prune_calls, 2 * u64::from(enabled));
        assert_eq!(counted.ack_prune_scanned_receipts, u64::from(enabled));
    }
}
