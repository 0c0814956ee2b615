use hashring::begin::FailureStep;
use hashring::bounded::{after_result, begin_run, BoundedRun, Gathering};
use hashring::changes::change_identity;
use hashring::client::new_request_id;
use hashring::cluster::{ClusterState, ReplicaAdmission, ReplicaRepairPhase, RepositoryError};
use hashring::coverage::Grants;
use hashring::drive::{
    abort_after_error, after_failed_step, cleanup_pending, copy_range, copy_step, finalize_range,
    is_absence_status, next_run_action, plan_run, replay_changelog, AbortRoute, AwaitedCopies,
    ChangeKind, ChangeRoute, CopyStep, FailedStep, ReplayOutcome, RunAction, RunEnd, RunStep,
};
use hashring::errors::{Code, Status};
use hashring::finish::{
    begin_stop, failure_safe_at, finish_direct_merge, finish_published_change, leases_end,
    next_stop_step, removed_members, FinishStep, MergeStep, StopEvent, StopStep,
};
use hashring::leases::{PeerFailures, PeerReport, NODE_LEASE_DURATION_NANOS};
use hashring::migration::{MigrationPhase, TopologyChange};
use hashring::node::{DataNode, NodeLimits};
use hashring::ordmap::SortedMap;
use hashring::probes::{blocked_by_outage, note_probes, select_probes, Probe, ProbeResult};
use hashring::publish::RemovalPublication;
use hashring::readiness::FenceTally;
use hashring::records::RangeDigest;
use hashring::recovery::RecoveryDecision;
use hashring::removal::{await_merge_stream, set_direct_merge_fence, StreamWait};
use hashring::repairs::GroupOutcome;
use hashring::restore::{
    choose_startup, load_or_initialize, restore_state, CoordinatorRepository, Startup,
};
use hashring::seeding::{seed_replica_group, SeedStep};
use hashring::topology::{Member, TopologyError, TopologySnapshot, WriteAckPolicy};

const SECOND: u64 = 1_000_000_000;
const NOW: u64 = 100 * SECOND;
const UNIX: u64 = 1_700_000_000_000;

fn members(count: usize) -> Vec<Member> {
    (1..=count)
        .map(|index| Member {
            node_id: format!("n{index}"),
            endpoint: format!("http://127.0.0.1:500{index}"),
        })
        .collect()
}

fn fresh(count: usize) -> ClusterState {
    let topology = TopologySnapshot::new(1, 7, 4, members(count)).unwrap();
    match choose_startup(None, Some(topology)).unwrap() {
        Startup::Fresh(state) => state,
        Startup::Restored(_) => panic!("nothing was stored"),
    }
}

fn registered(count: usize) -> ClusterState {
    let mut state = fresh(count);
    for index in 1..=count {
        let node = format!("n{index}");
        state = state.register_node(&node, &format!("{node}-process")).unwrap().unwrap();
    }
    state
}

fn leased(state: &ClusterState, count: usize) -> Grants {
    let mut grants: Grants = SortedMap::new();
    for index in 1..=count {
        let node = format!("n{index}");
        let epoch = state
            .renew_node_lease(
                &mut grants,
                &node,
                &format!("{node}-process"),
                state.committed.epoch,
                NOW,
                UNIX,
            )
            .unwrap();
        assert_eq!(epoch, state.committed.epoch);
    }
    grants
}

fn admitted(mut state: ClusterState) -> ClusterState {
    for range in state.committed.derived_ranges().unwrap() {
        for follower in &range.follower_node_ids {
            state.replica_admissions.push(ReplicaAdmission {
                epoch: state.committed.epoch,
                start_exclusive: range.start_exclusive,
                end_inclusive: range.end_inclusive,
                owner_node_id: range.owner_node_id.clone(),
                node_id: follower.clone(),
                process_instance_id: format!("{follower}-process"),
                verified_watermark: 0,
                stream_cursor: 0,
                digest: "verified".into(),
            });
        }
    }
    state.reconcile_replica_repairs().unwrap();
    state
}

#[test]
fn leases_are_granted_to_registered_processes_of_the_epoch() {
    let state = registered(3);
    let grants = leased(&state, 3);
    assert_eq!(grants.len(), 3);
    assert_eq!(leases_end(&grants, 0), NOW + NODE_LEASE_DURATION_NANOS);
    let mut other: Grants = SortedMap::new();
    let node = String::from("n1");
    assert_eq!(
        state
            .renew_node_lease(&mut other, &node, &"stranger".into(), 1, NOW, UNIX)
            .unwrap_err()
            .code,
        Code::FailedPrecondition
    );
    assert!(state
        .renew_node_lease(&mut other, &node, &"n1-process".into(), 2, NOW, UNIX)
        .is_err());
    assert_eq!(other.len(), 0);
    let mut fenced = state.clone();
    fenced.fenced_nodes.insert(node.clone());
    assert!(fenced
        .renew_node_lease(&mut other, &node, &"n1-process".into(), 1, NOW, UNIX)
        .is_err());
}

#[test]
fn strangers_do_not_register() {
    let state = fresh(2);
    assert!(state.register_node(&"n9".into(), &"p".into()).is_err());
    assert!(state.register_node(&"n1".into(), &String::new()).is_err());
    let state = state.register_node(&"n1".into(), &"p".into()).unwrap().unwrap();
    assert!(state.register_node(&"n1".into(), &"p".into()).unwrap().is_none());
}

#[test]
fn unreachable_peers_are_noted_until_they_answer() {
    let state = registered(3);
    let grants = leased(&state, 3);
    let mut failures: PeerFailures = SortedMap::new();
    let report = |reachable| PeerReport {
        reporter_node_id: "n2".into(),
        reporter_process_instance_id: "n2-process".into(),
        peer_node_id: "n1".into(),
        topology_epoch: 1,
        reachable,
    };
    state.report_peer_health(&grants, &mut failures, &report(false), NOW).unwrap();
    let key = (String::from("n1"), String::from("n2"));
    assert_eq!(failures.get(&key).unwrap().first_seen, NOW);
    state.report_peer_health(&grants, &mut failures, &report(false), NOW + SECOND).unwrap();
    assert_eq!(failures.get(&key).unwrap().first_seen, NOW);
    assert_eq!(failures.get(&key).unwrap().last_seen, NOW + SECOND);
    state.report_peer_health(&grants, &mut failures, &report(true), NOW + SECOND).unwrap();
    assert!(!failures.contains(&key));
    let unleased: Grants = SortedMap::new();
    assert!(state.report_peer_health(&unleased, &mut failures, &report(false), NOW).is_err());
}

#[test]
fn one_change_runs_at_a_time() {
    let state = registered(2);
    let (state, change) =
        state.begin_topology_change(members(3), None, None, None).unwrap();
    assert_eq!(change.phase, MigrationPhase::Planned);
    assert_eq!(change.base_topology.as_ref().unwrap(), &state.committed);
    assert!(state.begin_topology_change(members(4), None, None, None).is_err());
    assert_eq!(state.execute_change(&change_identity(&change)), Ok(ChangeRoute::Start));
    let mut other = change_identity(&change);
    other.target_epoch += 1;
    assert!(state.execute_change(&other).is_err());
    assert_eq!(state.change_kind(&change), ChangeKind::Migration);
    assert!(fresh(2).execute_change(&other).is_err());
    assert_eq!(state.execute_topology_change(&change_identity(&change)), Ok(ChangeRoute::Start));
    other.change_id = String::new();
    assert_eq!(
        state.execute_topology_change(&other),
        Err(Status::new(Code::InvalidArgument, "change_id must not be empty")),
    );
}

#[test]
fn new_settings_keep_the_members() {
    let state = registered(3);
    let (state, change) = state
        .begin_topology_change(
            state.committed.members.clone(),
            Some(WriteAckPolicy::AllReplicas),
            None,
            None,
        )
        .unwrap();
    assert!(change.ranges.is_empty());
    assert_eq!(state.change_kind(&change), ChangeKind::Settings);
    let published = state.publish_policy(&change).unwrap();
    assert_eq!(published.committed.epoch, 2);
    assert_eq!(published.committed.write_ack_policy, WriteAckPolicy::AllReplicas);
    assert_eq!(published.active_change.as_ref().unwrap().phase, MigrationPhase::Published);
}

#[test]
fn runs_go_step_by_step_and_stop_at_a_failure() {
    for kind in [ChangeKind::Merge, ChangeKind::Settings, ChangeKind::Migration] {
        let plan = plan_run(kind);
        assert_eq!(plan.last().unwrap().step, RunStep::Publish);
        assert_eq!(next_run_action(kind, 0, false), RunAction::Perform(plan[0].step));
        assert_eq!(next_run_action(kind, plan.len(), false), RunAction::Finish);
        for (done, step) in plan.iter().enumerate() {
            let expected = if step.aborts { RunAction::Abort } else { RunAction::Stop };
            assert_eq!(next_run_action(kind, done, true), expected);
        }
    }
}

#[test]
fn transient_failures_reset_an_attempt_and_others_abort_it() {
    assert_eq!(abort_after_error(Code::Unavailable, true), AbortRoute::Reset);
    assert_eq!(abort_after_error(Code::Unavailable, false), AbortRoute::Abort);
    assert_eq!(abort_after_error(Code::DataLoss, true), AbortRoute::Abort);
    assert!(cleanup_pending(AbortRoute::Abort, "first", "second").message.contains("second"));
    assert!(is_absence_status(&Status::new(Code::Unavailable, "gone")));
    assert!(!is_absence_status(&Status::new(Code::DataLoss, "wrong")));
}

#[test]
fn changelogs_are_replayed_without_gaps() {
    assert_eq!(replay_changelog(3, None, Some(7), 7), (7, ReplayOutcome::CaughtUp));
    assert_eq!(replay_changelog(3, Some(9), Some(7), 9), (7, ReplayOutcome::More));
    assert_eq!(replay_changelog(3, None, None, 5).1, ReplayOutcome::Gap);
    assert_eq!(replay_changelog(5, None, None, 5), (5, ReplayOutcome::CaughtUp));
}

#[test]
fn ranges_are_verified_on_both_sides() {
    let state = registered(2);
    let (_, change) = state.begin_topology_change(members(3), None, None, None).unwrap();
    let copied = copy_range(&change.ranges[0], &"s".into(), &"d".into(), 4, 6);
    assert_eq!(copied.snapshot_records, 4);
    assert_eq!(copied.changelog_watermark, 6);
    assert_eq!(copied.source_process_instance_id, "s");
    assert!(!copied.verified);
    let digest = |records: u64, text: &str, watermark: u64| RangeDigest {
        record_count: records,
        digest: text.into(),
        changelog_watermark: watermark,
    };
    let verified =
        finalize_range(&copied, &digest(4, "x", 6), &digest(4, "x", 6), 6, 6).unwrap();
    assert!(verified.verified);
    let wrong = finalize_range(&copied, &digest(4, "x", 6), &digest(4, "y", 6), 6, 6).unwrap_err();
    assert_eq!(wrong.code, Code::DataLoss);
    assert!(finalize_range(&copied, &digest(4, "x", 6), &digest(3, "x", 6), 6, 6).is_err());
}

#[test]
fn published_changes_become_the_topology() {
    let state = registered(2);
    let (mut state, change) = state.begin_topology_change(members(3), None, None, None).unwrap();
    state = state.register_node(&"n3".into(), &"n3-process".into()).unwrap().unwrap();
    state = state.set_phase(MigrationPhase::CopyingSnapshot).unwrap();
    let identity = change_identity(&change);
    for range in &change.ranges {
        let mut progress = copy_range(
            range,
            &format!("{}-process", range.source_node_id),
            &"n3-process".into(),
            0,
            0,
        );
        progress.verified = true;
        state = state.store_range_progress(&progress).unwrap();
    }
    state = state.set_phase(MigrationPhase::ReadyToPublish).unwrap();
    let current = state.active_change.clone().unwrap();
    let published = state.publish_change(&current, &identity).ok().unwrap();
    assert_eq!(published.committed, change.target_topology);
    assert_eq!(published.execute_change(&identity), Ok(ChangeRoute::FinishPublished));
    let steps = finish_published_change(published.active_change.as_ref().unwrap());
    assert!(steps.contains(&FinishStep::ActivateRanges));
    assert!(removed_members(published.active_change.as_ref().unwrap()).is_empty());
    let done = published.set_phase(MigrationPhase::Complete).unwrap();
    assert_eq!(done.execute_change(&identity), Ok(ChangeRoute::Done));
}

#[test]
fn removed_nodes_prepare_before_they_stop() {
    let state = registered(3);
    let (_, change) = state.begin_topology_change(members(2), None, None, None).unwrap();
    let node = String::from("n3");
    let mut step = begin_stop(&change, &node);
    let mut seen = Vec::new();
    while step != StopStep::Stopped && step != StopStep::Failed {
        let event = match step {
            StopStep::Identify | StopStep::IdentifyAgain => StopEvent::SameProcess,
            _ => StopEvent::Success,
        };
        seen.push(step);
        step = next_stop_step(step, event, false);
    }
    assert_eq!(step, StopStep::Stopped);
    let prepare = seen.iter().position(|step| *step == StopStep::Prepare).unwrap();
    let stop = seen.iter().position(|step| *step == StopStep::Stop).unwrap();
    assert!(prepare < stop);
}

#[test]
fn failed_nodes_are_removed_with_proof() {
    let state = admitted(registered(3));
    let mut grants = leased(&state, 3);
    let failed = String::from("n1");
    grants.remove(&failed);
    let reports: PeerFailures = SortedMap::new();
    let later = NOW + SECOND;
    assert_eq!(state.failure_candidate(&grants, &reports, NOW, later), None);
    assert_eq!(state.failure_candidate(&grants, &reports, 0, later), Some(failed.clone()));
    let planned_from = state.committed.clone();
    let change = state.plan_failure(&failed).unwrap();
    let fenced = state.fence_failed_node(&planned_from, &failed, &change).unwrap();
    assert_eq!(fenced.execute_change(&change_identity(&change)), Ok(ChangeRoute::Failure));
    fenced.prove_failure_coverage(&change.target_topology, &grants, later).unwrap();
    let published = fenced.publish_failure(&change, &grants, later).ok().unwrap();
    assert_eq!(published.committed, change.target_topology);
    assert!(published.fenced_nodes.contains(&failed));
    let unfenced = match state.publish_failure(&change, &grants, later) {
        Ok(_) => panic!("an unfenced node was removed"),
        Err(status) => status,
    };
    assert_eq!(
        unfenced,
        Status::new(Code::FailedPrecondition, "failure transition lost its durable fence"),
    );
    let late = NOW + NODE_LEASE_DURATION_NANOS;
    assert!(fenced.publish_failure(&change, &grants, late).is_err());
}

#[test]
fn confirmed_outages_abort_or_block_a_change() {
    let state = registered(2);
    let (state, change) = state.begin_topology_change(members(3), None, None, None).unwrap();
    let identity = change_identity(&change);
    let destination = String::from("n3");
    assert_eq!(
        state.recover_pending_change_failure(&identity, &destination),
        RecoveryDecision::Abort
    );
    let mut other = change_identity(&change);
    other.base_epoch += 1;
    assert_eq!(
        state.recover_pending_change_failure(&other, &destination),
        RecoveryDecision::Ignore
    );
}

#[test]
fn probes_go_round_and_confirm_long_outages() {
    let probes = || -> Vec<Probe> {
        (0..3)
            .map(|index| Probe {
                member: Member {
                    node_id: format!("n{index}"),
                    endpoint: format!("http://127.0.0.1:500{index}"),
                },
                process_instance_id: "p".into(),
            })
            .collect()
    };
    let (selected, cursor) = select_probes(&probes(), 1);
    assert_eq!(selected[0].member.node_id, "n1");
    assert_eq!(cursor, (1 + selected.len()) % 3);
    let result = |healthy| vec![ProbeResult { node_id: "n1".into(), healthy }];
    let mut outages = SortedMap::new();
    let phase = MigrationPhase::Published;
    assert_eq!(note_probes(&mut outages, &probes(), &result(false), phase, NOW), None);
    assert_eq!(
        note_probes(&mut outages, &probes(), &result(false), phase, NOW + 5 * SECOND),
        Some("n1".into())
    );
    assert_eq!(
        note_probes(&mut outages, &probes(), &result(true), phase, NOW + 6 * SECOND),
        None
    );
    assert_eq!(outages.len(), 0);
}

#[test]
fn repairs_are_tried_later_after_each_failure() {
    let state = registered(3);
    let task = state.replica_repairs[0].clone();
    let first = state.record_repair_failure(&vec![task.clone()], "offline", 1_000);
    let second = first.record_repair_failure(&vec![task.clone()], "offline", 1_000);
    let at = |state: &ClusterState| {
        let repair = state
            .replica_repairs
            .iter()
            .find(|repair| {
                repair.start_exclusive == task.start_exclusive
                    && repair.end_inclusive == task.end_inclusive
                    && repair.node_id == task.node_id
            })
            .unwrap();
        (repair.retry_count, repair.next_attempt_unix_millis, repair.phase)
    };
    assert_eq!(at(&first), (1, 3_000, ReplicaRepairPhase::Pending));
    assert_eq!(at(&second), (2, 5_000, ReplicaRepairPhase::Pending));
    assert!(!state.next_repairs(1_000).is_empty());
}

#[test]
fn seeding_undoes_what_failed() {
    let mut step = SeedStep::NoteCopying;
    while step != SeedStep::Succeeded && step != SeedStep::Failed {
        step = seed_replica_group(step, true);
    }
    assert_eq!(step, SeedStep::Succeeded);
    let mut step = seed_replica_group(SeedStep::NoteCopying, true);
    step = seed_replica_group(step, false);
    assert_eq!(step, SeedStep::Undo);
    while step != SeedStep::Succeeded && step != SeedStep::Failed {
        step = seed_replica_group(step, true);
    }
    assert_eq!(step, SeedStep::Failed);
}

#[test]
fn fences_need_all_members_and_releases_try_all() {
    let gone = || Err(Status::new(Code::Unavailable, "gone"));
    let mut tally = FenceTally::new();
    assert!(tally.note(true, Ok(())));
    assert!(!tally.note(true, gone()));
    assert_eq!(tally.outcome().unwrap_err().code, Code::Unavailable);
    let mut tally = FenceTally::new();
    assert!(tally.note(false, gone()));
    assert!(tally.note(false, Err(Status::new(Code::Internal, "later"))));
    assert_eq!(tally.outcome().unwrap_err().code, Code::Unavailable);
    assert!(FenceTally::new().outcome().is_ok());
}

struct Broken(bool);

impl CoordinatorRepository for Broken {
    fn load_state(&self) -> Result<Option<ClusterState>, RepositoryError> {
        if self.0 {
            Err(RepositoryError::Storage("unreadable".into()))
        } else {
            Ok(None)
        }
    }

    fn store_state(&self, _state: &ClusterState) -> Result<(), RepositoryError> {
        Err(RepositoryError::Storage("full".into()))
    }
}

#[test]
fn storage_failures_are_handed_on() {
    let topology = || TopologySnapshot::new(1, 7, 4, members(2)).unwrap();
    let message = |r: Result<ClusterState, RepositoryError>| r.err().unwrap().message();
    assert!(message(load_or_initialize(&Broken(true), Some(topology()))).contains("unreadable"));
    assert!(message(load_or_initialize(&Broken(false), Some(topology()))).contains("full"));
    assert_eq!(
        load_or_initialize(&Broken(false), None).err().unwrap(),
        RepositoryError::MissingBootstrap
    );
    let other = TopologySnapshot::new(1, 8, 4, members(2)).unwrap();
    assert_eq!(
        choose_startup(Some(fresh(2)), Some(other)).err().unwrap(),
        RepositoryError::BootstrapMismatch
    );
}

#[test]
fn stored_states_are_checked_when_they_are_restored() {
    let restored = restore_state(admitted(registered(3))).ok().unwrap();
    assert_eq!(restored.replica_repairs.len(), 24);
    let mut tampered = registered(3);
    tampered.committed.epoch = 9;
    assert!(matches!(restore_state(tampered), Err(RepositoryError::Topology(_))));
}

#[test]
fn changes_are_restored_with_their_state() {
    let state = registered(2);
    let (running, change) = state.begin_topology_change(members(3), None, None, None).unwrap();
    let restored = restore_state(running).ok().unwrap();
    let active = restored.active_change.as_ref().unwrap();
    assert_eq!(change_identity(active), change_identity(&change));
    assert_eq!(active.phase, MigrationPhase::Planned);
    assert_eq!(active.ranges.len(), change.ranges.len());
    let ended = restored.set_phase(MigrationPhase::Aborted).unwrap();
    let restored = restore_state(ended).ok().unwrap();
    assert_eq!(restored.active_change.as_ref().unwrap().phase, MigrationPhase::Aborted);
    assert_eq!(restored.committed.epoch, 1);
    let mut misplaced = restored;
    misplaced.active_change.as_mut().unwrap().base_epoch = 7;
    assert!(matches!(restore_state(misplaced), Err(RepositoryError::InvalidState(_))));
}

#[test]
fn states_without_assignments_are_not_brought_in_line() {
    let mut state = admitted(registered(3));
    let whole = state.committed.assignments.clone();
    state.committed.assignments.clear();
    let (admissions, repairs) = (state.replica_admissions.len(), state.replica_repairs.len());
    assert_eq!(
        state.reconcile_replica_repairs(),
        Err(RepositoryError::Topology(TopologyError::NoAssignments))
    );
    assert_eq!(state.replica_admissions.len(), admissions);
    assert_eq!(state.replica_repairs.len(), repairs);
    assert!(matches!(
        choose_startup(None, Some(state.committed.clone())),
        Err(RepositoryError::Topology(TopologyError::NoAssignments))
    ));
    // What keeps a state from being brought in line is told before what makes it invalid.
    state.committed.members.clear();
    assert!(matches!(
        restore_state(state),
        Err(RepositoryError::Topology(TopologyError::NoAssignments))
    ));
    let mut state = admitted(registered(3));
    state.committed.assignments = whole;
    state.committed.assignments.reverse();
    assert!(state.reconcile_replica_repairs().is_ok());
    assert!(matches!(restore_state(state), Err(RepositoryError::Topology(_))));
}

#[test]
fn reconciling_again_changes_nothing() {
    let mut state = admitted(registered(3));
    state.replica_repairs.truncate(5);
    state.replica_repairs[0].phase = ReplicaRepairPhase::Complete;
    state.replica_repairs[0].retry_count = 3;
    state.replica_admissions.remove(0);
    state.reconcile_replica_repairs().unwrap();
    let once = (state.replica_repairs.clone(), state.replica_admissions.clone());
    assert_eq!(once.0.len(), 24);
    assert_eq!(once.0[0].phase, ReplicaRepairPhase::Pending);
    assert_eq!(once.0[0].retry_count, 3);
    assert!(once.0[5..].iter().all(|repair| repair.retry_count == 0));
    state.reconcile_replica_repairs().unwrap();
    assert_eq!((state.replica_repairs, state.replica_admissions), once);
}

#[test]
fn resets_forget_the_progress_of_an_attempt() {
    let state = registered(2);
    let (state, change) = state.begin_topology_change(members(3), None, None, None).unwrap();
    let state = state.set_phase(MigrationPhase::CopyingSnapshot).unwrap();
    let progress = copy_range(&change.ranges[0], &"s".into(), &"d".into(), 4, 6);
    let state = state.store_range_progress(&progress).unwrap();
    let state = state.reset_prepublication_attempt().unwrap();
    let active = state.active_change.as_ref().unwrap();
    assert!(active.ranges.iter().all(|range| range.snapshot_records == 0 && !range.verified));
    assert_ne!(new_request_id(), active.change_id);
}

#[test]
fn natural_successors_take_over_without_copying() {
    let state = admitted(registered(3));
    let (state, change) = state.begin_topology_change(members(2), None, None, None).unwrap();
    assert!(change.direct_merge);
    assert_eq!(state.change_kind(&change), ChangeKind::Merge);
    assert!(state.can_direct_merge(&change));
    assert_eq!(state.prepare_direct_merge_coverage(&change).ok().unwrap().len(), 0);
    state.check_prepared_coverage(&change).unwrap();
    let grants = leased(&state, 3);
    let late = NOW + NODE_LEASE_DURATION_NANOS;
    assert!(state.execute_direct_merge(&change, &grants, late).is_err());
    let proof = state.execute_direct_merge(&change, &grants, NOW).ok().unwrap();
    let none = hashring::sets::SortedSet::new();
    assert!(proof.carry(&none).is_empty());
    let mut all = proof.required.duplicate_set();
    let optional = proof.optional_streams();
    for index in 0..optional.len() {
        all.insert(optional.at(index).clone());
    }
    let carried = proof.carry(&all);
    assert!(!carried.is_empty());
    state.check_merge_stands(&state, &change).unwrap();
    let published = state
        .publish_removed_topology(&change, RemovalPublication::Graceful { admissions: carried })
        .unwrap();
    assert_eq!(published.committed, change.target_topology);
    assert!(!published.replica_admissions.is_empty());
    let epoch = published.committed.epoch;
    assert!(published.replica_admissions.iter().all(|admission| admission.epoch == epoch));
    assert!(TopologyChange::plan(&published.committed, members(2)).is_err());
}

#[test]
fn merges_wait_for_copies_that_are_missing() {
    let state = admitted(registered(3));
    let (mut state, change) = state.begin_topology_change(members(2), None, None, None).unwrap();
    state.replica_admissions.clear();
    let missing = state.prepare_direct_merge_coverage(&change).ok().unwrap();
    assert!(missing.len() > 0);
    assert_eq!(
        state.check_prepared_coverage(&change),
        Err(Status::new(Code::FailedPrecondition, "prepared successor coverage is incomplete")),
    );
    let grants = leased(&state, 3);
    let lost = match state.execute_direct_merge(&change, &grants, NOW) {
        Ok(_) => panic!("nothing was admitted"),
        Err(status) => status,
    };
    assert_eq!(
        lost,
        Status::new(Code::FailedPrecondition, "natural successor coverage was lost"),
    );
    let (_, grown) = registered(2).begin_topology_change(members(3), None, None, None).unwrap();
    let refused = match state.prepare_direct_merge_coverage(&grown) {
        Ok(_) => panic!("nobody leaves"),
        Err(status) => status,
    };
    assert_eq!(
        refused,
        Status::new(
            Code::FailedPrecondition,
            "removal can no longer use the natural successor merge",
        ),
    );
}

#[test]
fn merge_streams_are_waited_for_until_the_deadline() {
    assert_eq!(await_merge_stream(true, 5, 5), StreamWait::CaughtUp);
    assert_eq!(await_merge_stream(false, 4, 5), StreamWait::Wait);
    assert_eq!(
        await_merge_stream(false, 5, 5),
        StreamWait::Late(Status::new(
            Code::DeadlineExceeded,
            "natural successor did not catch up",
        )),
    );
}

#[test]
fn merge_fences_hold_the_base_and_release_those_that_stay() {
    let state = admitted(registered(3));
    let (_, mut change) = state.begin_topology_change(members(2), None, None, None).unwrap();
    assert_eq!(set_direct_merge_fence(&change, true), Ok(members(3)));
    assert_eq!(set_direct_merge_fence(&change, false), Ok(members(2)));
    change.base_topology = None;
    assert_eq!(
        set_direct_merge_fence(&change, true),
        Err(Status::new(Code::Internal, "direct merge omitted base topology")),
    );
}

#[test]
fn failure_passes_look_after_a_change_first() {
    let state = admitted(registered(3));
    let mut grants = leased(&state, 3);
    let reports: PeerFailures = SortedMap::new();
    let later = NOW + SECOND;
    assert!(matches!(state.run_failure_pass(&grants, &reports, 0, later), FailureStep::Rest));
    let failed = String::from("n1");
    grants.remove(&failed);
    assert!(matches!(state.run_failure_pass(&grants, &reports, NOW, later), FailureStep::Rest));
    match state.run_failure_pass(&grants, &reports, 0, later) {
        FailureStep::Remove(node) => assert_eq!(node, failed),
        _ => panic!("the silent member was not found"),
    }
    let change = state.plan_failure(&failed).unwrap();
    let fenced = state.fence_failed_node(&state.committed, &failed, &change).unwrap();
    match fenced.run_failure_pass(&grants, &reports, 0, later) {
        FailureStep::Resume(identity) => assert_eq!(identity, change_identity(&change)),
        _ => panic!("the removal does not go on"),
    }
    let (changing, _) = state.begin_topology_change(members(4), None, None, None).unwrap();
    assert!(matches!(changing.run_failure_pass(&grants, &reports, 0, later), FailureStep::Watch));
}

#[test]
fn outages_are_told_with_their_reason() {
    let probe = Probe {
        member: Member { node_id: "n1".into(), endpoint: "http://127.0.0.1:5001".into() },
        process_instance_id: "p".into(),
    };
    assert!(probe.answered_by("n1", "p"));
    assert!(!probe.answered_by("n2", "p"));
    assert!(!probe.answered_by("n1", "q"));
    assert_eq!(
        blocked_by_outage("n1", "gone"),
        "confirmed unavailable node n1; recovery is blocked: gone"
    );
}

#[test]
fn merged_nodes_are_told_first_and_stopped_last() {
    let state = admitted(registered(3));
    let (_, mut change) = state.begin_topology_change(members(2), None, None, None).unwrap();
    let plan = finish_direct_merge(&change).ok().unwrap();
    assert!(matches!(&plan[0], MergeStep::InstallLeaving(member) if member.node_id == "n3"));
    assert!(matches!(plan[1], MergeStep::InstallMembers));
    assert!(matches!(plan[2], MergeStep::ReleaseFence));
    assert!(matches!(plan[3], MergeStep::Note(MigrationPhase::CleaningUp)));
    assert!(matches!(&plan[4], MergeStep::StopLeaving(member) if member.node_id == "n3"));
    assert!(matches!(plan[5], MergeStep::Note(MigrationPhase::Complete)));
    assert_eq!(plan.len(), 6);
    change.stopped_node_ids.push("n3".into());
    assert_eq!(finish_direct_merge(&change).ok().unwrap().len(), 5);
    change.base_topology = None;
    assert!(finish_direct_merge(&change).is_err());
}

#[test]
fn failed_steps_take_a_change_back_once_members_are_fenced() {
    let failed = |kind, done, code, retry| after_failed_step(kind, done, false, code, retry);
    let (merge, settings) = (ChangeKind::Merge, ChangeKind::Settings);
    let gone = Code::Unavailable;
    assert_eq!(failed(merge, 0, gone, true), FailedStep::CleanRepairs(AbortRoute::Reset));
    assert_eq!(failed(merge, 0, gone, false), FailedStep::CleanRepairs(AbortRoute::Abort));
    assert_eq!(failed(merge, 1, gone, true), FailedStep::Report);
    assert_eq!(failed(merge, 2, gone, true), FailedStep::TakeBack(AbortRoute::Reset));
    assert_eq!(failed(merge, 7, Code::Internal, true), FailedStep::TakeBack(AbortRoute::Abort));
    assert_eq!(failed(settings, 1, gone, true), FailedStep::TakeBack(AbortRoute::Abort));
    assert_eq!(failed(ChangeKind::Migration, 9, gone, true), FailedStep::Report);
    assert_eq!(
        after_failed_step(ChangeKind::Migration, 9, true, gone, true),
        FailedStep::TakeBack(AbortRoute::Reset)
    );
}

#[test]
fn replaced_nodes_serve_nothing() {
    let state = registered(2);
    let mut node = DataNode::new(
        "n1".into(),
        "n1-process".into(),
        NodeLimits::default(),
        state.committed.clone(),
        NOW,
    );
    let asked_at = NOW - SECOND;
    let grants = leased(&state, 2);
    node.accept_lease(1, 1, NODE_LEASE_DURATION_NANOS, asked_at);
    assert!(node.is_leased(NOW));
    let safe_at = failure_safe_at(&grants, &"n1".into(), 0);
    assert_eq!(safe_at, NOW + NODE_LEASE_DURATION_NANOS);
    assert!(!node.is_leased(safe_at));
    assert!(node.get(&b"key".to_vec(), safe_at).error.is_some());
    assert_eq!(leases_end(&grants, 0), safe_at);
}

#[test]
fn failed_repairs_stay_and_are_tried_again() {
    let state = registered(3);
    let groups = state.next_repairs(1_000);
    let group = &groups[0];
    match state.close_repair_group(group, None, 1_000) {
        GroupOutcome::Seeded(count) => assert_eq!(count, group.len()),
        GroupOutcome::Failed(_) => panic!("nothing has failed"),
    }
    let failed = match state.close_repair_group(group, Some("offline"), 1_000) {
        GroupOutcome::Failed(failed) => failed,
        GroupOutcome::Seeded(_) => panic!("a failure counts for nothing"),
    };
    assert_eq!(failed.replica_repairs.len(), state.replica_repairs.len());
    let waiting: Vec<_> =
        failed.replica_repairs.iter().filter(|repair| repair.retry_count == 1).collect();
    assert_eq!(waiting.len(), group.len());
    assert!(waiting.iter().all(|repair| repair.next_attempt_unix_millis == 3_000
        && repair.phase == ReplicaRepairPhase::Pending
        && repair.last_error == "offline"));
    assert_eq!(failed.next_repairs(2_999).len(), groups.len() - 1);
    let resumed = failed.resume_replica_repairs().unwrap().unwrap();
    assert_eq!(resumed.next_repairs(3_000).len(), groups.len());
    let (changing, _) = state.begin_topology_change(members(2), None, None, None).unwrap();
    assert!(changing.resume_replica_repairs().unwrap().is_none());
}

#[test]
fn snapshots_are_copied_page_by_page() {
    let page = copy_step(0, 3, 7, false);
    assert_eq!(page, CopyStep { cursor: 7, records: 3, apply: true, more: true });
    let last = copy_step(page.records, 0, 9, true);
    assert_eq!(last, CopyStep { cursor: 9, records: 3, apply: false, more: false });
}

#[test]
fn bounded_range_work_overlaps_and_honors_limit() {
    let mut work: Gathering<u64, ()> = Gathering::new(6, 3);
    let mut items = 0..6;
    let mut in_flight: Vec<u64> = items.by_ref().take(work.run.running).collect();
    let mut peak = 0;
    while !in_flight.is_empty() {
        peak = peak.max(in_flight.len());
        assert_eq!(work.run.running, in_flight.len());
        let item = in_flight.remove(0);
        if work.take(Ok(item)) {
            in_flight.extend(items.next());
        }
    }
    assert_eq!(work.run, BoundedRun { waiting: 0, running: 0, failed: false });
    let mut result = work.finish().unwrap();
    result.sort_unstable();
    assert_eq!(result, (0..6).collect::<Vec<_>>());
    assert_eq!(peak, 3);
}

#[test]
fn bounded_range_work_drains_started_siblings_after_an_error() {
    let mut work: Gathering<(), &str> = Gathering::new(3, 2);
    assert_eq!(work.run, BoundedRun { waiting: 1, running: 2, failed: false });
    assert!(!work.take(Err("range failed")));
    assert_eq!(work.run, BoundedRun { waiting: 1, running: 1, failed: true });
    assert!(!work.take(Ok(())));
    assert_eq!(work.run, BoundedRun { waiting: 1, running: 0, failed: true });
    assert_eq!(work.finish(), Err("range failed"));
}

#[test]
fn the_first_failure_is_the_one_that_is_reported() {
    let mut work: Gathering<u64, &str> = Gathering::new(4, 4);
    assert!(!work.take(Ok(1)));
    assert!(!work.take(Err("first")));
    assert!(!work.take(Err("second")));
    assert!(!work.take(Ok(2)));
    assert_eq!(work.finish(), Err("first"));
    let none = begin_run(5, 0);
    assert_eq!(none, BoundedRun { waiting: 5, running: 0, failed: false });
    let run = after_result(begin_run(5, 2), true);
    assert_eq!(run, BoundedRun { waiting: 2, running: 2, failed: false });
}

#[test]
fn kinds_of_changes_fence_and_wait_in_their_own_way() {
    let state = admitted(registered(3));
    let (_, merge) = state.begin_topology_change(members(2), None, None, None).unwrap();
    assert_eq!(ChangeKind::Merge.fence_members(&merge).unwrap(), members(3));
    assert_eq!(ChangeKind::Settings.fence_members(&merge).unwrap(), members(2));
    let mut baseless = merge;
    baseless.base_topology = None;
    assert_eq!(ChangeKind::Merge.fence_members(&baseless).unwrap_err().code, Code::Internal);
    assert_eq!(ChangeKind::Merge.awaited_copies(), AwaitedCopies::MergeStreams);
    assert_eq!(ChangeKind::Settings.awaited_copies(), AwaitedCopies::TargetCopies);
    assert_eq!(ChangeKind::Merge.run_end(), RunEnd { pauses: true, merges: true });
    assert_eq!(ChangeKind::Settings.run_end(), RunEnd { pauses: false, merges: false });
    assert_eq!(ChangeKind::Migration.run_end(), RunEnd { pauses: true, merges: false });
}
