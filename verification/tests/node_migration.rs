use hashring::errors::{Code, ErrorCode};
use hashring::limits::{DEFAULT_MAX_KEY_BYTES, MAX_MIGRATION_PAGE_BYTES, MAX_MUTATION_ID_BYTES};
use hashring::node::{DataNode, NodeLimits, RangeSpec};
use hashring::node_answer::{refuse_read, refuse_write, WriteResponse};
use hashring::node_checkpoint::RangeControl;
use hashring::node_put::WriteOutcome;
use hashring::node_queues::ReplicationQueues;
use hashring::node_ranges::{snapshot_keys, snapshot_names};
use hashring::receipts::{
    dedup_retained_bytes, mutation_fingerprint, stage_dedup, staged_dedup_retained_bytes,
    DeduplicationRecord, StagedTable,
};
use hashring::records::{JournalRecord, MigrationRecord, Record, RecordVersion};
use hashring::topology::{Member, TopologyConfig, TopologySnapshot, WriteAvailabilityGuard};

const SECOND: u64 = 1_000_000_000;
const NOW: u64 = 1_000 * SECOND;
const UNIX: u64 = 1_700_000_000_000;

fn single(epoch: u64, node_id: &str, endpoint: &str) -> TopologySnapshot {
    TopologySnapshot::new_with_config(
        epoch,
        42,
        8,
        vec![Member { node_id: node_id.into(), endpoint: endpoint.into() }],
        TopologyConfig {
            desired_replication_factor: 1,
            write_availability_guard: WriteAvailabilityGuard {
                minimum_admitted_copies: 1,
                minimum_healthy_followers: 0,
                ..WriteAvailabilityGuard::default()
            },
            ..TopologyConfig::default()
        },
    )
    .unwrap()
}

struct Service {
    node: DataNode,
    queues: ReplicationQueues,
    now: u64,
}

fn service() -> Service {
    let topology = single(1, "node-1", "http://127.0.0.1:5001");
    let mut node = DataNode::new(
        "node-1".into(),
        "instance-1".into(),
        NodeLimits::default(),
        topology,
        NOW,
    );
    node.lease = Some((1, NOW + 3_600 * SECOND));
    Service { node, queues: ReplicationQueues::new(), now: NOW }
}

impl Service {
    fn answer(&mut self, outcome: WriteOutcome, request_id: &str, deleted: bool) -> WriteResponse {
        let epoch = self.node.topology.epoch;
        let waited = match outcome.awaited() {
            Some((version, acks)) => self
                .node
                .wait_required_acks(acks, epoch, &request_id.into(), version, true, self.now)
                .unwrap()
                .err(),
            None => None,
        };
        outcome.answer(waited, deleted, epoch)
    }

    fn put(&mut self, key: &[u8], value: &[u8], id: &str) -> WriteResponse {
        let outcome = self.node.put(
            &mut self.queues,
            key.to_vec(),
            value.to_vec(),
            id.into(),
            self.now,
            UNIX,
        );
        self.answer(outcome, id, false)
    }

    fn delete(&mut self, key: &[u8], id: &str) -> WriteResponse {
        let outcome = self.node.delete(&mut self.queues, key.to_vec(), id.into(), self.now, UNIX);
        self.answer(outcome, id, true)
    }

    fn prepare_source(&mut self, range: RangeSpec) -> Result<(), hashring::errors::Status> {
        let range = range.checked()?;
        if let Some(captured) = self.node.prepare_source_range(&range)? {
            let keys = snapshot_keys(&captured.keys, &self.node.topology, &range);
            let names = snapshot_names(&captured.receipts, &self.node.topology, &range);
            self.node.attach_snapshot(&range, keys, names)?;
        }
        Ok(())
    }
}

fn range(end_inclusive: u64) -> RangeSpec {
    RangeSpec {
        change_id: "change-1".into(),
        range_id: "range-1".into(),
        start_exclusive: 0,
        end_inclusive,
        source_node_id: "node-1".into(),
        destination_node_id: "node-2".into(),
    }
}

fn control() -> RangeControl {
    RangeControl { change_id: "change-1".into(), range_id: "range-1".into() }
}

fn version(epoch: u64, sequence: u64, owner: &str) -> RecordVersion {
    RecordVersion { topology_epoch: epoch, owner_sequence: sequence, owner_node_id: owner.into() }
}

fn record(key: &[u8], value: &[u8], version: RecordVersion, deleted: bool) -> MigrationRecord {
    MigrationRecord {
        key: key.to_vec(),
        value: value.to_vec(),
        version: Some(version),
        deleted,
        mutation_id: String::new(),
        remaining_window_millis: 0,
    }
}

const PAGE: u64 = MAX_MIGRATION_PAGE_BYTES as u64;

#[test]
fn prepare_rejects_conflicting_retry_specification() {
    let mut service = service();
    service.prepare_source(range(10)).unwrap();
    let error = service.prepare_source(range(11)).unwrap_err();
    assert_eq!(error.code, Code::FailedPrecondition);
}

#[test]
fn paused_source_range_keeps_reads_available_and_blocks_writes() {
    let mut service = service();
    service.put(b"key", b"value", "put-1");
    service.prepare_source(range(0)).unwrap();
    service.node.pause_range_writes(&control()).unwrap();
    let readable = service.node.get(&b"key".to_vec(), NOW);
    assert!(readable.error.is_none());
    assert_eq!(readable.value, b"value");
    let paused_put = service.put(b"key", b"replacement", "put-2");
    assert_eq!(paused_put.error.unwrap().code, ErrorCode::RangeBusy);
    let paused_delete = service.delete(b"key", "delete-1");
    assert_eq!(paused_delete.error.unwrap().code, ErrorCode::RangeBusy);
    service.node.abort_range_migration(&control());
    let resumed = service.put(b"key", b"replacement", "put-3");
    assert!(resumed.error.is_none());
}

#[test]
fn interrupted_repair_cleanup_unpauses_only_repair_ranges() {
    let mut service = service();
    let mut repair = range(0);
    repair.change_id = "repair-interrupted".into();
    repair.range_id = "repair-range".into();
    service.prepare_source(repair).unwrap();
    service
        .node
        .pause_range_writes(&RangeControl {
            change_id: "repair-interrupted".into(),
            range_id: "repair-range".into(),
        })
        .unwrap();
    let busy = service.put(b"key", b"value", "before-cleanup");
    assert_eq!(busy.error.unwrap().code, ErrorCode::RangeBusy);
    service.node.abort_replica_repairs(1).unwrap();
    assert_eq!(service.node.sources.len(), 0);
    let write = service.put(b"key", b"value", "after-cleanup");
    assert!(write.error.is_none());
}

#[test]
fn committed_destination_fences_writes_until_idempotent_activation() {
    let mut destination = service();
    destination.node.node_id = "node-2".into();
    destination.node.prepare_destination_range(&range(0)).unwrap();
    destination
        .node
        .apply_migration_batch(
            &control(),
            &vec![record(b"key", b"migrated", version(1, 1, "node-1"), false)],
            &Vec::new(),
            NOW,
        )
        .unwrap();
    let error = destination.node.activate_destination_range(&control()).unwrap_err();
    assert_eq!(error.code, Code::FailedPrecondition);
    let error = destination
        .node
        .activate_destination_range(&RangeControl {
            change_id: "change-1".into(),
            range_id: "unknown".into(),
        })
        .unwrap_err();
    assert_eq!(error.code, Code::NotFound);

    destination.node.commit_destination_range(&control(), NOW).unwrap();
    destination.node.commit_destination_range(&control(), NOW).unwrap();
    let topology = single(2, "node-2", "http://127.0.0.1:5002");
    destination.node.install_topology(topology).unwrap();
    destination.node.lease = Some((2, NOW + 3_600 * SECOND));

    let readable = destination.node.get(&b"key".to_vec(), NOW);
    assert!(readable.error.is_none());
    assert_eq!(readable.value, b"migrated");
    let fenced_put = destination.put(b"key", b"new", "put-1");
    assert_eq!(fenced_put.error.unwrap().code, ErrorCode::RangeBusy);
    let fenced_delete = destination.delete(b"key", "delete-1");
    assert_eq!(fenced_delete.error.unwrap().code, ErrorCode::RangeBusy);

    destination.node.activate_destination_range(&control()).unwrap();
    destination.node.activate_destination_range(&control()).unwrap();
    destination.put(b"key", b"new", "put-2");
    destination.node.commit_destination_range(&control(), NOW).unwrap();
    let after_retry = destination.node.get(&b"key".to_vec(), NOW);
    assert_eq!(after_retry.value, b"new");
    let deleted = destination.delete(b"key", "delete-2");
    assert!(deleted.error.is_none());
}

#[test]
fn owner_retries_reuse_original_result_and_reject_mutation_id_conflicts() {
    let mut service = service();
    let original = service.put(b"key", b"original", "same-id");
    assert!(original.error.is_none());
    let retry = service.put(b"key", b"original", "same-id");
    assert_eq!(retry.version, original.version);
    assert_eq!(service.node.next_sequence, 1);

    let conflict = service.put(b"key", b"different", "same-id");
    assert_eq!(conflict.error.unwrap().code, ErrorCode::MutationIdConflict);
    let delete_conflict = service.delete(b"key", "same-id");
    assert_eq!(delete_conflict.error.unwrap().code, ErrorCode::MutationIdConflict);
    assert_eq!(service.node.next_sequence, 1);
    assert_eq!(service.node.records.get(&b"key".to_vec()).unwrap().value, b"original");

    assert!(service.delete(b"key", "delete-id").error.is_none());
    assert!(service.delete(b"key", "delete-id").error.is_none());
    assert_eq!(service.node.next_sequence, 2);
}

#[test]
fn dedup_budget_rejects_before_apply_and_expired_records_free_capacity() {
    let mut service = service();
    service.node.limits.max_dedup_bytes =
        dedup_retained_bytes("first", b"key-1".len(), "node-1".len());
    assert!(service.put(b"key-1", b"one", "first").error.is_none());
    let error = service.put(b"key-2", b"two", "other").error.unwrap();
    assert_eq!(error.code, ErrorCode::ResourceExhausted);
    assert!(error.retry_after_millis > 0);
    assert!(error.retry_after_millis <= 60_000);
    let pressure = service.node.get_process_info();
    assert_eq!(pressure.owner_dedup_rejections, 1);
    assert_eq!(pressure.dedup_capacity_bytes, service.node.limits.max_dedup_bytes as u64);
    assert!(pressure.dedup_peak_bytes > 0);
    assert_eq!(service.node.next_sequence, 1);
    assert!(!service.node.records.contains(&b"key-2".to_vec()));
    service.node.receipts.entries.get_mut(&"first".into()).unwrap().expires_at = NOW - 1_000_000;
    assert!(service.put(b"key-2", b"two", "other").error.is_none());
    assert_eq!(service.node.next_sequence, 2);
}

#[test]
fn migration_carries_snapshot_and_journal_mutation_ids() {
    let mut source = service();
    let first_version = source.put(b"before", b"one", "before-id").version.unwrap();
    source.prepare_source(range(0)).unwrap();
    let second_version = source.put(b"after", b"two", "after-id").version.unwrap();
    let snapshot = source.node.read_snapshot_page(&control(), 0, PAGE).unwrap();
    let dedup = source.node.read_dedup_snapshot_page(&control(), 0, PAGE, NOW).unwrap();
    assert_eq!(dedup.records.len(), 1);
    assert_eq!(dedup.records[0].mutation_id, "before-id");
    let journal = source.node.read_changelog_page(&control(), 0, PAGE, NOW).unwrap();
    assert_eq!(journal.records.len(), 1);
    assert_eq!(journal.records[0].record.as_ref().unwrap().mutation_id, "after-id");

    let mut destination = service();
    destination.node.node_id = "node-2".into();
    destination.node.prepare_destination_range(&range(0)).unwrap();
    destination
        .node
        .apply_migration_batch(&control(), &snapshot.records, &Vec::new(), NOW)
        .unwrap();
    destination.node.apply_dedup_batch(&control(), &dedup.records, NOW).unwrap();
    destination
        .node
        .apply_migration_batch(&control(), &Vec::new(), &journal.records, NOW)
        .unwrap();
    destination.node.commit_destination_range(&control(), NOW).unwrap();
    destination.node.node_id = "node-1".into(); // The test topology still routes ownership to node-1.
    let retry_before = destination.put(b"before", b"one", "before-id");
    let retry_after = destination.put(b"after", b"two", "after-id");
    assert_eq!(retry_before.version, Some(first_version));
    assert_eq!(retry_after.version, Some(second_version));
    assert_eq!(destination.node.next_sequence, 0);
}

#[test]
fn expired_staged_ids_free_migration_budget_before_commit() {
    let mut destination = service();
    destination.node.node_id = "node-2".into();
    destination.node.limits.max_dedup_bytes =
        staged_dedup_retained_bytes("first", b"key-1".len(), "node-1".len())
            .max(dedup_retained_bytes("other", b"key-2".len(), "node-1".len()));
    destination.node.prepare_destination_range(&range(0)).unwrap();
    let make_record = |id: &str, key: &[u8]| DeduplicationRecord {
        mutation_id: id.into(),
        key: key.to_vec(),
        fingerprint: mutation_fingerprint(key, b"value", false),
        version: Some(version(1, 1, "node-1")),
        deleted: false,
        remaining_window_millis: 60_000,
    };
    let name = (String::from("change-1"), String::from("range-1"));
    destination
        .node
        .apply_dedup_batch(&control(), &vec![make_record("first", b"key-1")], NOW)
        .unwrap();
    destination
        .node
        .destinations
        .get_mut(&name)
        .unwrap()
        .dedup
        .entries
        .get_mut(&"first".into())
        .unwrap()
        .expires_at = NOW - 1_000_000;
    destination
        .node
        .apply_dedup_batch(&control(), &vec![make_record("other", b"key-2")], NOW)
        .unwrap();
    let staged_expiry = NOW + 5 * SECOND;
    destination
        .node
        .destinations
        .get_mut(&name)
        .unwrap()
        .dedup
        .entries
        .get_mut(&"other".into())
        .unwrap()
        .expires_at = staged_expiry;
    destination.node.commit_destination_range(&control(), NOW).unwrap();
    assert!(!destination.node.receipts.entries.contains(&"first".into()));
    assert_eq!(
        destination.node.receipts.entries.get(&"other".into()).unwrap().expires_at,
        staged_expiry
    );
}

#[test]
fn delete_is_idempotent_and_put_restores_an_empty_value() {
    let mut service = service();
    service.put(b"key", b"", "put-1");

    let first = service.delete(b"key", "delete-1");
    assert!(first.error.is_none());
    assert_eq!(service.node.next_sequence, 2);
    assert!(service.node.records.get(&b"key".to_vec()).unwrap().deleted);

    let second = service.delete(b"key", "delete-2");
    assert!(second.error.is_none());
    assert_eq!(service.node.next_sequence, 3);

    service.put(b"key", b"restored", "put-2");
    let restored = service.node.get(&b"key".to_vec(), NOW);
    assert_eq!(restored.value, b"restored");
    assert_eq!(restored.version.unwrap().owner_sequence, 4);
}

#[test]
fn delete_validates_empty_and_oversized_keys() {
    let mut service = service();
    let empty = service.delete(b"", "delete-empty");
    assert_eq!(empty.error.unwrap().code, ErrorCode::InvalidArgument);

    let oversized = service.delete(&vec![0; DEFAULT_MAX_KEY_BYTES + 1], "delete-oversized");
    assert_eq!(oversized.error.unwrap().code, ErrorCode::TooLarge);

    let oversized_mutation_id = service.delete(b"key", &"x".repeat(MAX_MUTATION_ID_BYTES + 1));
    assert_eq!(oversized_mutation_id.error.unwrap().code, ErrorCode::InvalidArgument);
    assert_eq!(service.node.next_sequence, 0);
}

#[test]
fn snapshot_and_changelog_preserve_a_deleted_key_tombstone() {
    let mut source = service();
    source.put(b"key", b"value", "put-1");
    source.prepare_source(range(0)).unwrap();
    source.delete(b"key", "delete-1");

    let snapshot = source.node.read_snapshot_page(&control(), 0, PAGE).unwrap();
    assert_eq!(snapshot.records.len(), 1);
    assert!(snapshot.records[0].deleted);
    assert_eq!(snapshot.next_cursor, 1);
    assert!(snapshot.done);

    let changelog = source.node.read_changelog_page(&control(), 0, PAGE, NOW).unwrap();
    assert_eq!(changelog.current_watermark, 1);
    assert!(changelog.records[0].record.as_ref().unwrap().deleted);

    let digest = source.node.source_range_digest(&control()).unwrap();
    assert_eq!(digest.record_count, 1);
    assert_eq!(digest.changelog_watermark, 1);

    let mut destination = service();
    destination.node.node_id = "node-2".into();
    destination.node.prepare_destination_range(&range(0)).unwrap();
    destination
        .node
        .apply_migration_batch(&control(), &snapshot.records, &Vec::new(), NOW)
        .unwrap();
    let destination_digest = destination.node.destination_range_digest(&control()).unwrap();
    assert_eq!(destination_digest.digest, digest.digest);
    destination.node.commit_destination_range(&control(), NOW).unwrap();
    destination.node.node_id = "node-1".into();
    let read = destination.node.get(&b"key".to_vec(), NOW);
    assert_eq!(read.error.unwrap().code, ErrorCode::NotFound);
}

#[test]
fn deletion_replay_and_commit_remove_stale_destination_data() {
    let mut destination = service();
    destination.node.node_id = "node-2".into();
    destination.node.records.insert(
        b"key".to_vec(),
        Record {
            value: b"stale".to_vec(),
            version: version(0, 1, "node-2"),
            deleted: false,
        },
    );
    destination.node.prepare_destination_range(&range(0)).unwrap();
    let batch = vec![JournalRecord {
        watermark: 1,
        record: Some(record(b"key", b"", version(1, 2, "node-1"), true)),
    }];
    destination.node.apply_migration_batch(&control(), &Vec::new(), &batch, NOW).unwrap();
    destination.node.apply_migration_batch(&control(), &Vec::new(), &batch, NOW).unwrap();

    let digest = destination.node.destination_range_digest(&control()).unwrap();
    assert_eq!(digest.record_count, 1);
    assert_eq!(digest.changelog_watermark, 1);
    destination.node.commit_destination_range(&control(), NOW).unwrap();
    assert!(destination.node.records.get(&b"key".to_vec()).unwrap().deleted);
}

#[test]
fn migration_replay_preserves_delete_and_put_order() {
    let mut destination = service();
    destination.node.node_id = "node-2".into();
    let deletion = |watermark, owner_sequence| JournalRecord {
        watermark,
        record: Some(record(b"key", b"", version(1, owner_sequence, "node-1"), true)),
    };
    let put = |watermark, owner_sequence, value: &[u8]| JournalRecord {
        watermark,
        record: Some(record(b"key", value, version(1, owner_sequence, "node-1"), false)),
    };

    destination.node.prepare_destination_range(&range(0)).unwrap();
    destination
        .node
        .apply_migration_batch(
            &control(),
            &Vec::new(),
            &vec![deletion(1, 1), put(2, 2, b"restored")],
            NOW,
        )
        .unwrap();
    let key = ("change-1".to_owned(), "range-1".to_owned());
    let staged = |node: &DataNode| {
        let record = node.destinations.get(&key).unwrap().records.get(&b"key".to_vec()).unwrap();
        (record.value.clone(), record.deleted)
    };
    assert_eq!(staged(&destination.node).0, b"restored");

    destination.node.abort_range_migration(&control());
    destination.node.prepare_destination_range(&range(0)).unwrap();
    destination
        .node
        .apply_migration_batch(
            &control(),
            &Vec::new(),
            &vec![put(1, 3, b"temporary"), deletion(2, 4)],
            NOW,
        )
        .unwrap();
    assert!(staged(&destination.node).1);
}

#[test]
fn stop_is_fenced_to_the_process_instance() {
    let mut service = service();
    let error = service.node.stop("node-1", "replacement").unwrap_err();
    assert_eq!(error.code, Code::FailedPrecondition);

    service.node.prepare_stop("node-1", "instance-1").unwrap();
    assert!(service.node.stop("node-1", "instance-1").is_ok());
}

#[test]
fn journal_budget_is_aggregate_across_ranges() {
    let mut service = service();
    service.node.limits.max_journal_bytes = 200;
    let mut first = range(0);
    first.range_id = "range-1".into();
    let mut second = range(0);
    second.range_id = "range-2".into();
    service.prepare_source(first).unwrap();
    service.prepare_source(second).unwrap();
    let response = service.put(b"key", b"value", "put-1");
    assert_eq!(response.error.unwrap().code, ErrorCode::ResourceExhausted);
    assert_eq!(service.node.journal_bytes_total, 0);
}

#[test]
fn delete_leaves_the_value_when_the_journal_budget_is_full() {
    let mut service = service();
    service.put(b"key", b"value", "put-1");
    service.node.limits.max_journal_bytes = 1;
    service.prepare_source(range(0)).unwrap();
    let response = service.delete(b"key", "delete-1");
    assert_eq!(response.error.unwrap().code, ErrorCode::ResourceExhausted);
    assert_eq!(service.node.records.get(&b"key".to_vec()).unwrap().value, b"value");
    assert_eq!(service.node.next_sequence, 1);
}

#[test]
fn a_new_epoch_needs_a_new_lease() {
    let mut service = service();
    service.node.install_topology(single(2, "node-1", "http://127.0.0.1:5001")).unwrap();
    let refused = service.put(b"key", b"value", "put-1").error.unwrap();
    assert_eq!(refused.code, ErrorCode::LeaseExpired);
    assert_eq!(refused.current_epoch, 2);
    service.node.accept_lease(2, 2, 5 * SECOND, NOW);
    assert!(service.put(b"key", b"value", "put-1").error.is_none());
    service.now = NOW + 5 * SECOND;
    let refused = service.put(b"key", b"value", "put-2").error.unwrap();
    assert_eq!(refused.code, ErrorCode::LeaseExpired);
}

#[test]
fn fingerprints_are_digests_of_the_whole_write() {
    let print = mutation_fingerprint(b"key", b"value", false);
    assert_eq!(print.len(), 32);
    assert_ne!(print, mutation_fingerprint(b"key", b"value", true));
    assert_ne!(print, mutation_fingerprint(b"keyv", b"alue", false));
}

#[test]
fn pages_stay_within_their_limit_and_join_up() {
    let mut source = service();
    for i in 0..5u8 {
        source.put(&[i], &[7; 100], &format!("put-{i}"));
    }
    source.prepare_source(range(0)).unwrap();
    // Each record counts for its key, its value and 128 bytes.
    let mut cursor = 0;
    let mut read = Vec::new();
    let mut pages = 0;
    loop {
        let page = source.node.read_snapshot_page(&control(), cursor, 2 * 229).unwrap();
        assert!(page.records.len() <= 2);
        assert!(page.next_cursor > cursor);
        cursor = page.next_cursor;
        pages += 1;
        read.extend(page.records.into_iter().map(|record| record.key));
        if page.done {
            break;
        }
    }
    assert_eq!(pages, 3);
    assert_eq!(read, (0..5u8).map(|i| vec![i]).collect::<Vec<_>>());
    let single = source.node.read_snapshot_page(&control(), 0, 1).unwrap();
    assert_eq!(single.records.len(), 1);
    let receipts = source.node.read_dedup_snapshot_page(&control(), 0, 1, NOW).unwrap();
    assert_eq!(receipts.records.len(), 1);
    assert_eq!(receipts.next_cursor, 1);
}

#[test]
fn fenced_nodes_are_read_and_not_written() {
    let mut service = service();
    service.put(b"key", b"value", "put-1");
    service.node.policy_write_fence = Some(("policy-1".into(), 1));
    assert_eq!(service.node.get(&b"key".to_vec(), NOW).value, b"value");
    assert!(service.put(b"key", b"other", "put-2").error.is_some());
    assert!(service.put(b"key", b"value", "put-1").error.is_none());
}

#[test]
fn the_most_that_receipts_took_is_remembered() {
    let mut service = service();
    let one = dedup_retained_bytes("first", 3, "node-1".len());
    service.put(b"one", b"1", "first");
    assert_eq!(service.node.get_process_info().dedup_peak_bytes, one as u64);
    service.put(b"two", b"2", "other");
    assert_eq!(service.node.get_process_info().dedup_peak_bytes, 2 * one as u64);
    service.now += 3_600 * SECOND - 1;
    service.put(b"one", b"3", "third");
    assert_eq!(service.node.receipts.bytes, one);
    assert_eq!(service.node.get_process_info().dedup_peak_bytes, 2 * one as u64);
}

#[test]
fn staged_receipts_stay_within_their_room() {
    let make = |id: &str, remaining_window_millis: u64| DeduplicationRecord {
        mutation_id: id.into(),
        key: b"key".to_vec(),
        fingerprint: mutation_fingerprint(b"key", b"value", false),
        version: Some(version(1, 1, "node-1")),
        deleted: false,
        remaining_window_millis,
    };
    let one = staged_dedup_retained_bytes("first", 3, "node-1".len());
    let limit = 2 * one;
    let mut table = StagedTable::new();
    stage_dedup(&mut table, make("first", 1_000), limit, NOW).unwrap();
    assert_eq!(table.bytes, one);
    stage_dedup(&mut table, make("first", 5_000), limit, NOW).unwrap();
    stage_dedup(&mut table, make("other", 0), limit, NOW).unwrap();
    assert_eq!(table.bytes, one);
    stage_dedup(&mut table, make("other", 1_000), limit, NOW).unwrap();
    assert_eq!(table.bytes, limit);
    let full = stage_dedup(&mut table, make("third", 1_000), limit, NOW).unwrap_err();
    assert_eq!(full.code, Code::ResourceExhausted);
    let mut unlike = make("first", 1_000);
    unlike.deleted = true;
    let conflict = stage_dedup(&mut table, unlike, limit, NOW).unwrap_err();
    assert_eq!(conflict.code, Code::FailedPrecondition);
    assert_eq!(table.bytes, limit);
    assert_eq!(table.entries.len(), 2);
    assert_eq!(table.entries.get(&"first".into()).unwrap().expires_at, NOW + 5 * SECOND);
}

#[test]
fn writes_are_answered_with_a_version_or_an_error() {
    let mut service = service();
    let written = service.put(b"key", b"value", "put-1");
    assert_eq!(written.current_epoch, 1);
    assert_eq!(written.version, Some(version(1, 1, "node-1")));
    assert_eq!(written.error, None);
    assert_eq!(service.put(b"key", b"value", "put-1"), written);
    let conflict = service.put(b"key", b"other", "put-1");
    assert_eq!((conflict.version, conflict.current_epoch), (None, 1));
    let error = conflict.error.unwrap();
    assert_eq!(error.code, ErrorCode::MutationIdConflict);
    let deleted = service.delete(b"key", "delete-1");
    assert_eq!(deleted, WriteResponse { version: None, current_epoch: 1, error: None });
    let late = WriteOutcome::Known { version: version(1, 1, "node-1"), required_acks: Vec::new() };
    let answer = late.answer(Some(error), false, 4);
    assert_eq!((answer.version, answer.current_epoch), (None, 4));
    let error = answer.error.unwrap();
    assert_eq!(error.code, ErrorCode::MutationIdConflict);
    let refused = refuse_write(error);
    assert_eq!((refused.version, refused.current_epoch), (None, 0));
    let refused = refuse_read(refused.error.unwrap());
    assert_eq!((refused.value.len(), refused.version, refused.current_epoch), (0, None, 0));
    assert_eq!(refused.error.unwrap().code, ErrorCode::MutationIdConflict);
}
