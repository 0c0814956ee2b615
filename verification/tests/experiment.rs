use hashring::client::{ClientError, OperationFailure};
use hashring::errors::ErrorCode;
use hashring::experiment::{
    coordinator_arguments, deterministic_value, initial_count, moving_key_cohorts, moving_keys,
    node_arguments, source_is_reproducible, source_tree_digest, trial_members, validate_config,
    ExperimentConfig, ExperimentMode, SourceFile,
};
use hashring::migration::{MigrationPhase, TopologyChange};
use hashring::status::{FollowerReplicaStatus, RangeReplicaStatus};
use hashring::topology::{Member, TopologySnapshot, WriteAckPolicy};
use hashring::trial::{
    check_losses, check_migration_end, check_reverse_cohort, count_survivors, failover_published,
    has_full_rf, judge_survival, latency_summary, note_rounds, read_shows_service, run_cluster,
    sample_owned_keys, tail_bytes, verify_read, wait_for_migration_activity,
    wait_for_mutation_overlap, FailoverStep, FailoverWatch, LatencySummary, ReadFault, ReadResult,
    Survival, TrialStep, Watch, WATCH_LOOKS,
};
use hashring::waits::{next_wait, wait_for_change, wait_for_full_rf, WaitStep};

fn config() -> ExperimentConfig {
    ExperimentConfig {
        mode: ExperimentMode::Correctness,
        output_dir: "out".into(),
        node_count: 4,
        key_count: 100,
        value_bytes: 16,
        concurrency: 4,
        hash_seed: 7,
        virtual_nodes: 8,
        operation_timeout_ms: 1_000,
        migration_timeout_ms: 2_000,
        range_move_concurrency: 2,
        pre_publish_delay_ms: 0,
        require_clean_source: false,
        verbose: false,
        desired_replication_factor: 3,
        minimum_admitted_copies: 1,
        minimum_healthy_followers: 0,
        write_ack_policy: WriteAckPolicy::OwnerOnly,
    }
}

fn member(id: &str, port: u16) -> Member {
    Member { node_id: id.into(), endpoint: format!("http://127.0.0.1:{port}") }
}

fn not_found() -> ReadResult {
    ReadResult::Failed(ClientError::Operation(OperationFailure {
        code: ErrorCode::NotFound,
        message: "key was not found".into(),
        retryable: false,
        unknown_write_outcome: false,
    }))
}

fn timed_out() -> ReadResult {
    ReadResult::Failed(ClientError::DeadlineExceeded { unknown_write_outcome: false })
}

#[test]
fn deterministic_values_include_key_round_and_requested_length() {
    assert_eq!(deterministic_value(7, 3, 13).len(), 13);
    assert_eq!(deterministic_value(7, 3, 13), deterministic_value(7, 3, 13));
    assert_ne!(deterministic_value(7, 3, 13), deterministic_value(8, 3, 13));
    assert_ne!(deterministic_value(7, 3, 13), deterministic_value(7, 4, 13));
}

#[test]
fn reproducibility_requires_every_clean_matching_source_condition() {
    let reproducible = |build_dirty, runtime_status, runtime_commit, runtime_tree| {
        source_is_reproducible(
            build_dirty,
            "commit-a",
            "tree-a",
            runtime_status,
            runtime_commit,
            runtime_tree,
        )
    };

    assert!(reproducible("false", Some(""), Some("commit-a"), Some("tree-a")));
    assert!(!reproducible("true", Some(""), Some("commit-a"), Some("tree-a")));
    assert!(!reproducible("false", Some(" M src/lib.rs"), Some("commit-a"), Some("tree-a")));
    assert!(!reproducible("false", None, Some("commit-a"), Some("tree-a")));
    assert!(!reproducible("false", Some(""), Some("commit-b"), Some("tree-a")));
    assert!(!reproducible("false", Some(""), None, Some("tree-a")));
    assert!(!reproducible("false", Some(""), Some("commit-a"), Some("tree-b")));
    assert!(!reproducible("false", Some(""), Some("commit-a"), None));
}

#[test]
fn deterministic_values_are_those_of_the_generator() {
    let mut state: u64 = 5 ^ 1_u64.rotate_left(17) ^ 0x9e37_79b9_7f4a_7c15;
    state ^= state >> 12;
    state ^= state << 25;
    state ^= state >> 27;
    let block = state.wrapping_mul(0x2545_f491_4f6c_dd1d).to_be_bytes();
    assert_eq!(deterministic_value(5, 1, 8), block);
    assert_eq!(deterministic_value(5, 1, 3), block[..3]);
    assert!(deterministic_value(5, 1, 0).is_empty());
}

#[test]
fn settings_of_a_trial_are_refused_for_each_reason() {
    let refused = |change: fn(&mut ExperimentConfig)| {
        let mut config = config();
        change(&mut config);
        validate_config(&config).unwrap_err()
    };
    assert!(validate_config(&config()).is_ok());
    assert_eq!(refused(|c| c.node_count = 1), "node_count must be at least 2");
    assert_eq!(
        refused(|c| {
            c.mode = ExperimentMode::Availability;
            c.node_count = 5;
        }),
        "availability mode requires exactly 4 nodes (3 initial and 1 replacement)"
    );
    assert_eq!(
        refused(|c| {
            c.mode = ExperimentMode::Availability;
            c.desired_replication_factor = 2;
        }),
        "availability mode requires desired_replication_factor=3"
    );
    assert_eq!(
        refused(|c| {
            c.mode = ExperimentMode::Availability;
            c.write_ack_policy = WriteAckPolicy::AllReplicas;
        }),
        "availability mode cannot keep AllReplicas writable after one node fails"
    );
    assert_eq!(
        refused(|c| c.node_count = 3),
        "initial membership must be at least the desired replication factor"
    );
    assert_eq!(
        refused(|c| c.minimum_admitted_copies = 0),
        "minimum admitted copies must be between 1 and desired RF"
    );
    assert_eq!(
        refused(|c| c.minimum_healthy_followers = 3),
        "minimum healthy followers must be below desired RF"
    );
    assert_eq!(refused(|c| c.key_count = 0), "key_count must be positive");
    assert_eq!(refused(|c| c.concurrency = 0), "concurrency must be positive");
    assert_eq!(
        refused(|c| c.range_move_concurrency = 0),
        "range_move_concurrency must be positive"
    );
    assert_eq!(refused(|c| c.value_bytes = 0), "value_bytes must be positive");
    assert_eq!(
        refused(|c| c.value_bytes = 8_388_609),
        "value_bytes exceeds the data-node limit"
    );
    assert_eq!(refused(|c| c.virtual_nodes = 0), "virtual_nodes must be positive");
    assert_eq!(refused(|c| c.operation_timeout_ms = 0), "timeouts must be positive");
}

#[test]
fn processes_are_started_with_the_settings_of_the_trial() {
    let config = config();
    assert_eq!(initial_count(&config), 3);
    let members = trial_members(&vec![6001, 6002]);
    assert_eq!(members, vec![member("node-1", 6001), member("node-2", 6002)]);
    assert_eq!(
        node_arguments(&"node-1".into(), 6001, &"http://127.0.0.1:6000".into()),
        ["node", "--id", "node-1", "--listen", "127.0.0.1:6001", "--coordinator",
            "http://127.0.0.1:6000"]
    );
    let arguments = coordinator_arguments(&config, 6000, &"state.redb".into(), &members, 1);
    assert_eq!(arguments[..5], ["coordinator", "--listen", "127.0.0.1:6000", "--state", "state.redb"]);
    assert_eq!(
        arguments[arguments.len() - 2..],
        ["--member", "node-1=http://127.0.0.1:6001"]
    );
}

#[test]
fn reverse_changes_move_the_same_keys() {
    let base = TopologySnapshot::new(1, 7, 16, vec![member("a", 1), member("b", 2)]).unwrap();
    let out = TopologyChange::plan(&base, vec![member("a", 1), member("b", 2), member("c", 3)])
        .unwrap();
    let cohorts = moving_key_cohorts(&out, 500).unwrap();
    assert_eq!(cohorts.all, moving_keys(&out, 500));
    assert_eq!(
        cohorts.all.len(),
        cohorts.rewrite.len() + cohorts.delete.len() + cohorts.sentinels.len()
    );
    let back = TopologyChange::plan(&out.target_topology, base.members.clone()).unwrap();
    assert!(check_reverse_cohort(&moving_keys(&back, 500), &cohorts.all).is_ok());
    assert_eq!(
        check_reverse_cohort(&vec![1], &vec![2]).unwrap_err(),
        "reverse migration changed the moving-key cohort"
    );
    assert_eq!(
        moving_key_cohorts(&out, 0).err().unwrap(),
        "migration has no moving rewrite cohort"
    );
}

#[test]
fn source_trees_are_told_apart_by_names_and_contents() {
    let file = |path: &str, contents: &[u8]| SourceFile {
        path: path.into(),
        contents: contents.to_vec(),
    };
    let mut bytes = b"hashring-rs:source-tree:v1\0".to_vec();
    bytes.extend_from_slice(&1_u64.to_be_bytes());
    bytes.extend_from_slice(b"a");
    bytes.extend_from_slice(&2_u64.to_be_bytes());
    bytes.extend_from_slice(b"bc");
    assert_eq!(
        source_tree_digest(&vec![file("a", b"bc")]),
        blake3::hash(&bytes).to_hex().to_string()
    );
    assert_ne!(
        source_tree_digest(&vec![file("a", b"bc")]),
        source_tree_digest(&vec![file("ab", b"c")])
    );
}

#[test]
fn latencies_are_summed_up_by_rank() {
    assert_eq!(
        latency_summary(&vec![9, 1, 5]),
        LatencySummary { samples: 3, p50: 5, p95: 5, p99: 5, max: 9 }
    );
    let many: Vec<u64> = (0..101).rev().collect();
    assert_eq!(
        latency_summary(&many),
        LatencySummary { samples: 101, p50: 50, p95: 95, p99: 99, max: 100 }
    );
}

#[test]
fn full_copies_need_every_follower_healthy() {
    let range = |live_rf: u32, repairing: bool, healthy: bool| RangeReplicaStatus {
        start_exclusive: 0,
        end_inclusive: 0,
        owner_node_id: "a".into(),
        desired_rf: 2,
        current_rf: 2,
        followers: vec![FollowerReplicaStatus {
            healthy,
            ..FollowerReplicaStatus::unknown("b".into())
        }],
        owner_leased: true,
        live_rf,
        writable: true,
        write_block_reason: String::new(),
        under_replicated: false,
        repairing,
    };
    assert!(has_full_rf(&vec![range(2, false, true)], 2));
    assert!(!has_full_rf(&Vec::new(), 2));
    assert!(!has_full_rf(&vec![range(2, false, true), range(1, false, true)], 2));
    assert!(!has_full_rf(&vec![range(2, true, true)], 2));
    assert!(!has_full_rf(&vec![range(2, false, false)], 2));
    let full = vec![range(2, false, true)];
    assert_eq!(wait_for_full_rf(Some(&full), 2, 900, 500, "1s"), WaitStep::Done);
    assert_eq!(wait_for_full_rf(None, 2, 499, 500, "1s"), WaitStep::Wait);
    assert_eq!(
        wait_for_full_rf(Some(&vec![range(1, false, true)]), 2, 500, 500, "1s"),
        WaitStep::GiveUp("full RF did not converge within 1s".into())
    );
}

#[test]
fn changes_after_a_failure_are_waited_for() {
    assert_eq!(wait_for_change(None, 900, 500), WaitStep::Done);
    assert_eq!(wait_for_change(Some(MigrationPhase::Complete), 900, 500), WaitStep::Done);
    assert_eq!(wait_for_change(Some(MigrationPhase::Aborted), 900, 500), WaitStep::Done);
    assert_eq!(wait_for_change(Some(MigrationPhase::Published), 499, 500), WaitStep::Wait);
    assert_eq!(
        wait_for_change(Some(MigrationPhase::Published), 500, 500),
        WaitStep::GiveUp("failover change did not complete".into())
    );
    assert_eq!(next_wait(false, 5, 5, "late"), WaitStep::GiveUp("late".into()));
    assert_eq!(next_wait(true, 5, 5, "late"), WaitStep::Done);
}

#[test]
fn changes_are_watched_until_it_is_too_late() {
    assert_eq!(wait_for_migration_activity(None, 1), Watch::Wait);
    assert_eq!(wait_for_migration_activity(Some(MigrationPhase::Planned), 1), Watch::Wait);
    assert_eq!(
        wait_for_migration_activity(Some(MigrationPhase::Verifying), WATCH_LOOKS),
        Watch::Observed
    );
    assert_eq!(
        wait_for_migration_activity(Some(MigrationPhase::Published), 1),
        Watch::TooLate("migration reached Published before concurrent writes began".into())
    );
    assert_eq!(
        wait_for_migration_activity(None, WATCH_LOOKS),
        Watch::TooLate("migration did not leave its planned phase".into())
    );
    let copying = Some(MigrationPhase::CopyingSnapshot);
    assert_eq!(wait_for_mutation_overlap(copying, 0, false, 1), Watch::Wait);
    assert_eq!(wait_for_mutation_overlap(copying, 1, false, 1), Watch::Observed);
    assert_eq!(
        wait_for_mutation_overlap(copying, 0, true, 1),
        Watch::TooLate("concurrent mutator finished without a successful mutation".into())
    );
    assert_eq!(
        wait_for_mutation_overlap(Some(MigrationPhase::Complete), 9, false, 1),
        Watch::TooLate("migration reached Complete before any concurrent mutation completed".into())
    );
    assert_eq!(
        wait_for_mutation_overlap(None, 9, false, WATCH_LOOKS),
        Watch::TooLate("no successful mutation overlapped the active migration".into())
    );
    assert!(check_migration_end(MigrationPhase::Complete).is_ok());
    assert_eq!(
        check_migration_end(MigrationPhase::Aborted).unwrap_err(),
        "migration ended in Aborted"
    );
}

#[test]
fn reads_are_held_against_the_rounds_that_were_written() {
    let mut rounds = vec![Some(0); 4];
    note_rounds(&mut rounds, &vec![1, 2], Some(1));
    note_rounds(&mut rounds, &vec![2], None);
    assert_eq!(rounds, vec![Some(0), Some(1), None, Some(0)]);
    let value = |key, round| ReadResult::Value(deterministic_value(key, round, 16));
    assert!(verify_read(1, rounds[1], 16, value(1, 1)).is_ok());
    assert!(matches!(
        verify_read(1, rounds[1], 16, value(1, 0)),
        Err(ReadFault::Wrong(message)) if message == "value mismatch for key 1 in round 1"
    ));
    assert!(matches!(
        verify_read(1, rounds[1], 16, timed_out()),
        Err(ReadFault::Failed(context, _)) if context == "get key 1 in round 1"
    ));
    assert!(verify_read(2, rounds[2], 16, not_found()).is_ok());
    assert!(matches!(
        verify_read(2, rounds[2], 16, value(2, 0)),
        Err(ReadFault::Wrong(message)) if message == "deleted key 2 unexpectedly has a value"
    ));
    assert!(matches!(
        verify_read(2, rounds[2], 16, timed_out()),
        Err(ReadFault::Failed(context, _)) if context == "expected key 2 to remain absent"
    ));
}

#[test]
fn failovers_are_watched_to_their_end() {
    let mut watch = FailoverWatch::new();
    assert_eq!(watch.observe(false, false, 100, 1_000), FailoverStep::Wait);
    assert_eq!(watch.observe(false, true, 250, 1_000), FailoverStep::Wait);
    assert_eq!(watch.observe(true, true, 400, 1_000), FailoverStep::Recovered);
    assert_eq!(watch.published, Some(250));
    assert_eq!(watch.outage.longest, 300);
    assert_eq!(watch.outage.unavailable, 2);
    let mut watch = FailoverWatch::new();
    assert!(matches!(watch.observe(true, false, 1_000, 1_000), FailoverStep::GiveUp(_)));
    assert!(read_shows_service(&not_found()));
    assert!(!read_shows_service(&timed_out()));
    let before = TopologySnapshot::new(1, 7, 4, vec![member("a", 1), member("b", 2)]).unwrap();
    let after = TopologySnapshot::new(2, 7, 4, vec![member("b", 2)]).unwrap();
    assert!(failover_published(&after, 1, &"a".into()));
    assert!(!failover_published(&after, 2, &"a".into()));
    assert!(!failover_published(&before, 0, &"a".into()));
}

#[test]
fn survivors_of_a_failure_are_counted() {
    let topology = TopologySnapshot::new(1, 7, 4, vec![member("a", 1), member("b", 2)]).unwrap();
    let keys = sample_owned_keys(&topology, &"a".into(), 1_000).unwrap();
    assert_eq!(keys.len(), 128);
    assert!(keys
        .iter()
        .all(|key| topology.owner(&key.to_be_bytes()).unwrap().node_id == "a"));
    assert_eq!(
        sample_owned_keys(&topology, &"c".into(), 10).unwrap_err(),
        "availability dataset has no keys owned by the failed node"
    );
    assert_eq!(tail_bytes(16), 1_048_576);
    assert_eq!(tail_bytes(2_000_000), 2_000_000);
    assert_eq!(tail_bytes(9_000_000), 8_388_608);
    let judge = |key, read| judge_survival(key, 9, 32, 16, read);
    let value = |key, round, len| ReadResult::Value(deterministic_value(key, round, len));
    let survival = |r: Result<Survival, ReadFault>| match r {
        Ok(survival) => survival,
        Err(_) => panic!("the read is explained"),
    };
    assert_eq!(survival(judge(9, value(9, 1, 32))), Survival::Preserved);
    assert_eq!(survival(judge(9, value(9, 0, 16))), Survival::Lost);
    assert_eq!(survival(judge(3, value(3, 0, 16))), Survival::Preserved);
    assert_eq!(survival(judge(3, not_found())), Survival::Lost);
    assert!(matches!(
        judge(3, value(3, 1, 16)),
        Err(ReadFault::Wrong(message)) if message == "surviving key 3 has an unexpected value"
    ));
    assert!(matches!(
        judge(9, value(9, 2, 16)),
        Err(ReadFault::Wrong(message))
            if message == "tail key 9 has a value other than the acknowledged or prior value"
    ));
    assert!(matches!(
        judge(3, timed_out()),
        Err(ReadFault::Failed(context, _)) if context == "reading acknowledged key 3 after failover"
    ));
    let count = count_survivors(&vec![Survival::Preserved, Survival::Lost]);
    assert_eq!((count.sampled, count.lost, count.tail_survived), (2, 1, false));
    assert!(check_losses(WriteAckPolicy::OwnerOnly, 1).is_ok());
    assert_eq!(
        check_losses(WriteAckPolicy::FirstSuccessor, 1).unwrap_err(),
        "FirstSuccessor lost 1 acknowledged sampled keys"
    );
}

#[test]
fn trials_follow_their_mode() {
    let steps = run_cluster(ExperimentMode::Performance, WriteAckPolicy::OwnerOnly);
    assert_eq!(steps.first(), Some(&TrialStep::StartCluster));
    assert_eq!(steps.last(), Some(&TrialStep::Conclude));
    assert!(!steps.contains(&TrialStep::SetPolicy));
    let steps = run_cluster(ExperimentMode::Availability, WriteAckPolicy::FirstSuccessor);
    assert_eq!(steps[2], TrialStep::SetPolicy);
    assert!(steps.contains(&TrialStep::KillOwner));
    assert!(!steps.contains(&TrialStep::Conclude));
    let steps = run_cluster(ExperimentMode::Correctness, WriteAckPolicy::OwnerOnly);
    assert!(steps.contains(&TrialStep::ScaleIn));
}
