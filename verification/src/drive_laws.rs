//! How a change goes on: which way it takes, in what order its steps come, and what a failure does.
use crate::changes::IdentityView;
use crate::cluster::{places, range_places, ClusterView, Place};
use crate::drive::{
    abort_route, copied, failed_step, replayed, run_after, run_plan, AbortRoute, ChangeKind,
    ChangeRoute, FailedStep, ReplayOutcome, RunAction, RunStep,
};
use crate::errors::Code;
use crate::finish::{
    finish_plan, latest_end, lease_end, not_receiving, receiving, recovered_plan, source_endpoints,
    stop_after, FinishStep, StopEvent, StopStep,
};
use crate::coverage::GrantView;
use crate::migration::{ChangeView, MigrationPhase, MoveView};
use crate::ring::RangeView;
use crate::topology::{Member, SnapshotView, WriteAckPolicy};
use vstd::prelude::*;

verus! {

/// A change goes on exactly if it is the expected one and was not taken back. After the failure of
/// a node it takes its own way; one that is published is finished, in the way in which it began;
/// one that was interrupted before begins anew.
pub proof fn law_changes_go_on(s: ClusterView, expected: IdentityView)
    ensures
        ({
            let r = s.route(expected);
            let c = s.active_change->0;
            let failure = c.failed_node_id is Some;
            let published = c.phase == MigrationPhase::Published || c.phase
                == MigrationPhase::CleaningUp;
            &&& r is Ok <==> {
                &&& s.active_change is Some
                &&& c.change_id == expected.change_id
                &&& c.base_epoch == expected.base_epoch
                &&& c.target_topology.epoch == expected.target_epoch
                &&& failure || c.phase != MigrationPhase::Aborted
            }
            &&& r is Ok ==> {
                let way = r->Ok_0;
                &&& way == ChangeRoute::Failure <==> failure
                &&& way == ChangeRoute::Done <==> !failure && c.phase == MigrationPhase::Complete
                &&& way == ChangeRoute::FinishAbort <==> !failure && c.phase
                    == MigrationPhase::Aborting
                &&& way == ChangeRoute::FinishMerge <==> !failure && published && c.direct_merge
                &&& way == ChangeRoute::FinishRecovered <==> !failure && published
                    && !c.direct_merge && c.supersedes_change_id is Some
                &&& way == ChangeRoute::FinishPublished <==> !failure && published
                    && !c.direct_merge && c.supersedes_change_id is None
                &&& way == ChangeRoute::Start <==> !failure && c.phase == MigrationPhase::Planned
                &&& way == ChangeRoute::Restart <==> !failure && (c.phase
                    == MigrationPhase::Resetting || c.phase == MigrationPhase::CopyingSnapshot || c.phase
                    == MigrationPhase::ReplayingChangelog || c.phase
                    == MigrationPhase::PausingWrites || c.phase == MigrationPhase::Verifying
                    || c.phase == MigrationPhase::ReadyToPublish)
            }
            &&& s.asked_route(expected) is Ok <==> expected.change_id.len() > 0 && r is Ok
            &&& s.asked_route(expected) is Ok ==> s.asked_route(expected) == r
        }),
{
    let c = s.active_change->0;
    if c.change_id == expected.change_id && c.base_epoch == expected.base_epoch
        && c.target_topology.epoch == expected.target_epoch {
        assert(c.identity() =~= expected);
    }
}

/// A change only of settings moves nothing and keeps the members; it is treated as such exactly
/// where the settings differ and nobody merges.
pub proof fn law_settings_alone_move_nothing(s: ClusterView, c: ChangeView)
    ensures
        s.kind(c) == ChangeKind::Merge <==> c.direct_merge,
        s.kind(c) == ChangeKind::Settings <==> {
            &&& !c.direct_merge
            &&& c.ranges.len() == 0
            &&& c.replica_obligations.len() == 0
            &&& c.target_topology.members == s.committed.members
            &&& c.target_topology.desired_replication_factor
                != s.committed.desired_replication_factor || c.target_topology.write_ack_policy
                != s.committed.write_ack_policy || c.target_topology.write_availability_guard
                != s.committed.write_availability_guard
        },
{
}

/// Step `i` of a run.
pub open spec fn steps_at(kind: ChangeKind, step: RunStep, i: int) -> bool {
    0 <= i < run_plan(kind).len() && run_plan(kind)[i].step == step
}

/// A migration copies every range, holds writes, compares both ends and looks for the destinations
/// before it publishes; each phase is noted before its work begins.
pub proof fn law_migrations_work_in_order(a: int, b: int, c: int, d: int, e: int)
    requires
        steps_at(ChangeKind::Migration, RunStep::CopyRanges, a),
        steps_at(ChangeKind::Migration, RunStep::PauseRanges, b),
        steps_at(ChangeKind::Migration, RunStep::FinalizeRanges, c),
        steps_at(ChangeKind::Migration, RunStep::CheckDestinations, d),
        steps_at(ChangeKind::Migration, RunStep::Publish, e),
    ensures
        a < b < c < d < e,
        e == run_plan(ChangeKind::Migration).len() - 1,
        exists|i: int|
            i < a && steps_at(
                ChangeKind::Migration,
                RunStep::Note(MigrationPhase::CopyingSnapshot),
                i,
            ),
        exists|i: int|
            a < i < b && steps_at(
                ChangeKind::Migration,
                RunStep::Note(MigrationPhase::PausingWrites),
                i,
            ),
        exists|i: int|
            b < i < c && steps_at(
                ChangeKind::Migration,
                RunStep::Note(MigrationPhase::Verifying),
                i,
            ),
        exists|i: int|
            c < i < e && steps_at(
                ChangeKind::Migration,
                RunStep::Note(MigrationPhase::ReadyToPublish),
                i,
            ),
{
    assert(steps_at(ChangeKind::Migration, RunStep::Note(MigrationPhase::CopyingSnapshot), 0));
    assert(steps_at(ChangeKind::Migration, RunStep::Note(MigrationPhase::PausingWrites), 3));
    assert(steps_at(ChangeKind::Migration, RunStep::Note(MigrationPhase::Verifying), 5));
    assert(steps_at(ChangeKind::Migration, RunStep::Note(MigrationPhase::ReadyToPublish), 7));
}

/// Every run has its work: a migration copies, holds, compares, looks and publishes; new settings
/// are published behind a fence once every copy is there, looked at twice; a merge completes the
/// copies of the heirs first, and proves behind the fence that they hold everything.
pub proof fn law_runs_do_their_work()
    ensures
        exists|i: int| steps_at(ChangeKind::Migration, RunStep::CopyRanges, i),
        exists|i: int| steps_at(ChangeKind::Migration, RunStep::PauseRanges, i),
        exists|i: int| steps_at(ChangeKind::Migration, RunStep::FinalizeRanges, i),
        exists|i: int| steps_at(ChangeKind::Migration, RunStep::CheckDestinations, i),
        exists|i: int| steps_at(ChangeKind::Migration, RunStep::Publish, i),
        exists|f: int, w: int, r: int, p: int|
            f < w < r < p && #[trigger] steps_at(ChangeKind::Settings, RunStep::FenceMembers, f)
                && #[trigger] steps_at(ChangeKind::Settings, RunStep::AwaitCopies, w)
                && #[trigger] steps_at(ChangeKind::Settings, RunStep::RecheckCopies, r)
                && #[trigger] steps_at(ChangeKind::Settings, RunStep::Publish, p),
        exists|c: int, f: int, v: int, w: int, p: int|
            c < f < v < w < p && #[trigger] steps_at(ChangeKind::Merge, RunStep::PrepareCoverage, c)
                && #[trigger] steps_at(ChangeKind::Merge, RunStep::FenceMembers, f)
                && #[trigger] steps_at(ChangeKind::Merge, RunStep::ProveCoverage, v)
                && #[trigger] steps_at(ChangeKind::Merge, RunStep::AwaitCopies, w)
                && #[trigger] steps_at(ChangeKind::Merge, RunStep::Publish, p),
{
    assert(steps_at(ChangeKind::Migration, RunStep::CopyRanges, 1));
    assert(steps_at(ChangeKind::Migration, RunStep::PauseRanges, 4));
    assert(steps_at(ChangeKind::Migration, RunStep::FinalizeRanges, 6));
    assert(steps_at(ChangeKind::Migration, RunStep::CheckDestinations, 8));
    assert(steps_at(ChangeKind::Migration, RunStep::Publish, 9));
    assert(steps_at(ChangeKind::Settings, RunStep::FenceMembers, 1));
    assert(steps_at(ChangeKind::Settings, RunStep::AwaitCopies, 3));
    assert(steps_at(ChangeKind::Settings, RunStep::RecheckCopies, 5));
    assert(steps_at(ChangeKind::Settings, RunStep::Publish, 6));
    assert(steps_at(ChangeKind::Merge, RunStep::PrepareCoverage, 0));
    assert(steps_at(ChangeKind::Merge, RunStep::FenceMembers, 2));
    assert(steps_at(ChangeKind::Merge, RunStep::ProveCoverage, 4));
    assert(steps_at(ChangeKind::Merge, RunStep::AwaitCopies, 5));
    assert(steps_at(ChangeKind::Merge, RunStep::Publish, 7));
}

/// A run does one step after the other and is finished after the last; a failure ends it.
pub proof fn law_runs_go_step_by_step(kind: ChangeKind, done: nat)
    ensures
        done < run_plan(kind).len() ==> run_after(kind, done, false) == RunAction::Perform(
            run_plan(kind)[done as int].step,
        ),
        done >= run_plan(kind).len() ==> run_after(kind, done, false) == RunAction::Finish,
        done < run_plan(kind).len() ==> {
            let r = run_after(kind, done, true);
            r == RunAction::Abort || r == RunAction::Stop
        },
{
}

/// A failure in the work on ranges or members takes the change back; one of publishing a migration,
/// or before anything was held or copied, does not.
pub proof fn law_failed_work_is_taken_back(kind: ChangeKind, done: nat)
    requires
        done < run_plan(kind).len(),
    ensures
        ({
            let step = run_plan(kind)[done as int].step;
            let r = run_after(kind, done, true);
            &&& step == RunStep::CopyRanges || step == RunStep::PauseRanges || step
                == RunStep::FinalizeRanges || step == RunStep::CheckDestinations || step
                == RunStep::FenceMembers || step == RunStep::AwaitCopies || step
                == RunStep::RecheckCopies || step == RunStep::ProveCoverage ==> r
                == RunAction::Abort
            &&& step == RunStep::PrepareCoverage ==> r == RunAction::Stop
            &&& step == RunStep::Publish ==> (r == RunAction::Abort <==> kind
                != ChangeKind::Migration)
        }),
{
}

/// A failure that may pass is one of an absent or a late peer. Where such failures are retried, the
/// change begins anew after one, and after every other it ends; new settings are never retried.
pub proof fn law_passing_failures_are_retried(
    kind: ChangeKind,
    done: nat,
    code: Code,
    retry: bool,
)
    ensures
        abort_route(code, retry) == AbortRoute::Reset <==> retry && (code == Code::Unavailable
            || code == Code::DeadlineExceeded),
        ({
            let again = retry && kind != ChangeKind::Settings && (code == Code::Unavailable || code
                == Code::DeadlineExceeded);
            let r = failed_step(kind, done, true, code, retry);
            &&& r == FailedStep::TakeBack(
                if again {
                    AbortRoute::Reset
                } else {
                    AbortRoute::Abort
                },
            )
            &&& failed_step(kind, done, false, code, retry) == if run_after(kind, done, true)
                == RunAction::Abort {
                r
            } else if kind == ChangeKind::Merge && done == 0 {
                FailedStep::CleanRepairs(
                    if again {
                        AbortRoute::Reset
                    } else {
                        AbortRoute::Abort
                    },
                )
            } else {
                FailedStep::Report
            }
        }),
{
}

/// A destination has caught up exactly when it has reached what is asked for, or, if nothing is,
/// where the source is now; until then it reads on, and an empty page before that is a gap. It
/// never goes back.
pub proof fn law_replays_reach_the_source(
    watermark: u64,
    asked: Option<u64>,
    last: Option<u64>,
    current: u64,
)
    ensures
        ({
            let (reached, outcome) = replayed(watermark, asked, last, current);
            let goal = if asked is Some {
                asked->0
            } else {
                current
            };
            &&& last is None ==> reached == watermark
            &&& last is Some ==> reached == last->0
            &&& outcome == ReplayOutcome::CaughtUp <==> reached >= goal
            &&& outcome == ReplayOutcome::More <==> reached < goal && last is Some
            &&& outcome == ReplayOutcome::Gap <==> reached < goal && last is None
        }),
{
}

/// A copied range knows both processes, how many records it has and how far it came; it is the same
/// range, not verified by that.
pub proof fn law_copies_are_noted(
    range: MoveView,
    source: Seq<char>,
    destination: Seq<char>,
    records: u64,
    watermark: u64,
)
    ensures
        ({
            let r = copied(range, source, destination, records, watermark);
            &&& r.source_process_instance_id == source
            &&& r.destination_process_instance_id == destination
            &&& r.snapshot_records == records
            &&& r.changelog_watermark == watermark
            &&& r.verified == range.verified
            &&& r.source_cleaned == range.source_cleaned
            &&& r.range_id == range.range_id
            &&& r.start_exclusive == range.start_exclusive
            &&& r.end_inclusive == range.end_inclusive
            &&& r.source_node_id == range.source_node_id
            &&& r.source_endpoint == range.source_endpoint
            &&& r.destination_node_id == range.destination_node_id
            &&& r.destination_endpoint == range.destination_endpoint
        }),
{
}

/// Whether a topology asks for copies before it may be written to.
pub open spec fn asks_for_copies(t: SnapshotView) -> bool {
    ||| t.write_ack_policy != WriteAckPolicy::OwnerOnly
    ||| t.write_availability_guard.minimum_admitted_copies >= 2
    ||| t.write_availability_guard.minimum_healthy_followers >= 1
}

/// Finishing a published change installs it, lets destinations serve, cleans sources up and stops
/// who leaves, in this order, and ends with the change complete. A change that was not activated
/// tells the sources first and is activated on the way, after the copies that it asks for; where
/// nothing moved, the fence is released.
pub proof fn law_published_changes_are_finished(change: ChangeView)
    ensures
        ({
            let plan = finish_plan(change);
            let pending = !change.activation_ready;
            let moves = change.ranges.len() > 0 || change.replica_obligations.len() > 0;
            let n = plan.len();
            &&& n >= 8
            &&& plan[n - 1] == FinishStep::Note(MigrationPhase::Complete)
            &&& plan[n - 2] == FinishStep::StopRemoved
            &&& plan[n - 3] == FinishStep::CleanSources
            &&& plan[n - 4] == FinishStep::Note(MigrationPhase::CleaningUp)
            &&& (plan[0] == FinishStep::InstallSources) == pending
            &&& ({
                let at = if pending {
                    1int
                } else {
                    0int
                };
                &&& plan[at] == FinishStep::InstallDestinations { require_lease: !pending }
                &&& plan[at + 1] == FinishStep::InstallOthers { require_lease: !pending }
                &&& plan[at + 2] == FinishStep::InstallRemoved
                &&& plan[at + 3] == FinishStep::ActivateRanges
            })
            &&& (plan[n - 5] == FinishStep::ReleaseFence) == !moves
            &&& pending ==> ({
                let end = if moves {
                    n - 5
                } else {
                    n - 6
                };
                &&& plan[end] == FinishStep::InstallAll { require_lease: true }
                &&& plan[end - 1] == FinishStep::NoteActivated
                &&& (plan[end - 2] == FinishStep::SeedCopies) == (moves && asks_for_copies(
                    change.target_topology,
                ))
            })
        }),
{
}

/// A change that takes another back is installed without leases, waits until the old ones have run
/// out, lets the sources serve again, completes the copies that it asks for, and only then takes
/// leases and ends.
pub proof fn law_recovered_changes_are_finished(change: ChangeView)
    ensures
        ({
            let plan = recovered_plan(change);
            let n = plan.len();
            &&& n >= 6
            &&& plan[0] == FinishStep::InstallAll { require_lease: false }
            &&& plan[1] == FinishStep::AwaitLeases
            &&& plan[2] == FinishStep::ReleaseSources
            &&& (plan[3] == FinishStep::SeedCopies) == asks_for_copies(change.target_topology)
            &&& plan[n - 3] == FinishStep::NoteActivated
            &&& plan[n - 2] == FinishStep::InstallAll { require_lease: true }
            &&& plan[n - 1] == FinishStep::Note(MigrationPhase::Complete)
        }),
{
}

/// All leases from before have run out when the last one has, and no later than that.
pub proof fn law_no_lease_is_awaited_in_vain(
    list: Seq<(Seq<char>, GrantView)>,
    floor: u64,
    n: nat,
)
    requires
        n <= list.len(),
    ensures
        latest_end(list, floor, n) == floor || exists|i: int|
            0 <= i < n && (#[trigger] list[i]).1.expires_at == latest_end(list, floor, n),
    decreases n,
{
    if n > 0 {
        law_no_lease_is_awaited_in_vain(list, floor, (n - 1) as nat);
        if list[n - 1].1.expires_at > latest_end(list, floor, (n - 1) as nat) {
            assert(list[n - 1].1.expires_at == latest_end(list, floor, n));
        }
    }
}

/// A failed node cannot serve any more once its lease has run out, and neither can it under a lease
/// from before the start: five seconds after that at the earliest.
pub proof fn law_failed_nodes_are_waited_for(
    grants: Map<Seq<char>, GrantView>,
    node: Seq<char>,
    startup_at: u64,
)
    requires
        startup_at + 5_000_000_000 <= u64::MAX,
    ensures
        ({
            let end = lease_end(grants, node, startup_at);
            &&& end >= startup_at + 5_000_000_000
            &&& grants.contains_key(node) ==> end >= grants[node].expires_at
            &&& end == startup_at + 5_000_000_000 || (grants.contains_key(node) && end
                == grants[node].expires_at)
        }),
{
}

/// A node that answers as it should is stopped: it is noted, prepared, noted again and stopped.
pub proof fn law_answering_nodes_are_stopped(merged: bool)
    ensures
        stop_after(StopStep::NoteStopping, StopEvent::Success, merged) == StopStep::Identify,
        stop_after(StopStep::Identify, StopEvent::SameProcess, merged) == StopStep::Prepare,
        stop_after(StopStep::Prepare, StopEvent::Success, merged) == StopStep::NotePrepared,
        stop_after(StopStep::NotePrepared, StopEvent::Success, merged) == if merged {
            StopStep::Stop
        } else {
            StopStep::IdentifyAgain
        },
        stop_after(StopStep::IdentifyAgain, StopEvent::SameProcess, merged) == StopStep::Stop,
        stop_after(StopStep::Stop, StopEvent::Success, merged) == StopStep::NoteStopped,
        stop_after(StopStep::NoteStopped, StopEvent::Success, merged) == StopStep::Stopped,
{
}

/// Another process than the one to be stopped is never told to prepare or stop: the one is gone. So
/// it is where nobody answers, once it had prepared or where it merged; before that, silence is a
/// failure. Nothing leads on from an error, and what has stopped stays so.
pub proof fn law_other_processes_are_left_alone(step: StopStep, event: StopEvent, merged: bool)
    ensures
        ({
            let next = stop_after(step, event, merged);
            let asks = step == StopStep::Identify || step == StopStep::IdentifyAgain;
            &&& asks && event == StopEvent::OtherProcess ==> next == StopStep::NoteStopped
            &&& event == StopEvent::Absent && (step == StopStep::IdentifyAgain || step
                == StopStep::Stop || (step == StopStep::Identify && merged)) ==> next
                == StopStep::NoteStopped
            &&& event == StopEvent::Absent && step == StopStep::Identify && !merged ==> next
                == StopStep::Failed
            &&& event == StopEvent::Error && step != StopStep::Stopped ==> next == StopStep::Failed
            &&& step == StopStep::Stopped ==> next == StopStep::Stopped
            &&& step == StopStep::Failed ==> next == StopStep::Failed
            &&& next == StopStep::Prepare ==> event == StopEvent::SameProcess
            &&& next == StopStep::Stop ==> event == StopEvent::SameProcess || (step
                == StopStep::NotePrepared && merged)
        }),
{
}

/// A stop goes on where it was left: what is noted of a node says how far it came.
pub proof fn law_stops_are_taken_up(c: ChangeView, node: Seq<char>)
    ensures
        c.stop_start(node) == StopStep::Stopped <==> c.stopped_node_ids.contains(node),
        c.stop_start(node) == StopStep::IdentifyAgain <==> !c.stopped_node_ids.contains(node)
            && c.stop_prepared_node_ids.contains(node),
        c.stop_start(node) == StopStep::Identify <==> !c.stopped_node_ids.contains(node)
            && !c.stop_prepared_node_ids.contains(node) && c.stopping_node_ids.contains(node),
        c.stop_start(node) == StopStep::NoteStopping <==> !c.stopped_node_ids.contains(node)
            && !c.stop_prepared_node_ids.contains(node) && !c.stopping_node_ids.contains(node),
{
}

/// The sources of the chosen ranges are told apart by name, with the address of one of their
/// ranges.
pub proof fn law_sources_are_found(
    ranges: Seq<MoveView>,
    chosen: spec_fn(MoveView) -> bool,
    n: nat,
    node: Seq<char>,
)
    requires
        n <= ranges.len(),
    ensures
        source_endpoints(ranges, chosen, n).contains_key(node) <==> exists|i: int|
            0 <= i < n && chosen(#[trigger] ranges[i]) && ranges[i].source_node_id == node,
        source_endpoints(ranges, chosen, n).contains_key(node) ==> exists|i: int|
            0 <= i < n && chosen(#[trigger] ranges[i]) && ranges[i].source_node_id == node
                && ranges[i].source_endpoint == source_endpoints(ranges, chosen, n)[node],
    decreases n,
{
    if n > 0 {
        law_sources_are_found(ranges, chosen, (n - 1) as nat, node);
        let before = source_endpoints(ranges, chosen, (n - 1) as nat);
        let after = source_endpoints(ranges, chosen, n);
        let last = ranges[n - 1];
        if chosen(last) && last.source_node_id == node {
            assert(ranges[n - 1].source_endpoint == after[node]);
        } else if before.contains_key(node) {
            let i = choose|i: int|
                0 <= i < n - 1 && chosen(#[trigger] ranges[i]) && ranges[i].source_node_id == node
                    && ranges[i].source_endpoint == before[node];
            assert(ranges[i].source_endpoint == after[node]);
        }
    }
}

/// A node leaves exactly if the target does not have it; it is one of those to be stopped unless
/// its stop is noted already. A range is cleaned up at its source unless that was done or the source
/// is stopping.
pub proof fn law_leaving_nodes_are_found(c: ChangeView, r: MoveView)
    ensures
        ({
            let noted = c.stopping_node_ids.contains(r.source_node_id)
                || c.stop_prepared_node_ids.contains(r.source_node_id)
                || c.stopped_node_ids.contains(r.source_node_id);
            let stays = exists|i: int|
                0 <= i < c.target_topology.members.len() && (
                #[trigger] c.target_topology.members[i]).node_id == r.source_node_id;
            &&& c.leaves()(r) <==> !stays && !noted
            &&& c.uncleaned()(r) <==> !r.source_cleaned && !noted
        }),
{
}

proof fn lemma_places(ranges: Seq<RangeView>, n: nat, p: Place)
    requires
        n <= ranges.len(),
    ensures
        places(ranges, n).contains(p) <==> exists|i: int, j: int|
            0 <= i < n && 0 <= j < ranges[i].follower_node_ids.len() && p == (
                ranges[i].start_exclusive,
                (
                    ranges[i].end_inclusive,
                    (ranges[i].owner_node_id, #[trigger] ranges[i].follower_node_ids[j]),
                ),
            ),
    decreases n,
{
    if n > 0 {
        lemma_places(ranges, (n - 1) as nat, p);
        let before = places(ranges, (n - 1) as nat);
        let last = range_places(ranges[n - 1]);
        let all = before + last;
        if all.contains(p) {
            let k = choose|k: int| 0 <= k < all.len() && all[k] == p;
            if k < before.len() {
                assert(before[k] == p);
                let (i, j) = choose|i: int, j: int|
                    0 <= i < n - 1 && 0 <= j < ranges[i].follower_node_ids.len() && p == (
                        ranges[i].start_exclusive,
                        (
                            ranges[i].end_inclusive,
                            (ranges[i].owner_node_id, #[trigger] ranges[i].follower_node_ids[j]),
                        ),
                    );
                assert(ranges[i].follower_node_ids[j] == ranges[i].follower_node_ids[j]);
            } else {
                let j = k - before.len();
                assert(last[j] == p);
                assert(ranges[n - 1].follower_node_ids[j] == p.1.1.1);
            }
        }
        if exists|i: int, j: int|
            0 <= i < n && 0 <= j < ranges[i].follower_node_ids.len() && p == (
                ranges[i].start_exclusive,
                (
                    ranges[i].end_inclusive,
                    (ranges[i].owner_node_id, #[trigger] ranges[i].follower_node_ids[j]),
                ),
            ) {
            let (i, j) = choose|i: int, j: int|
                0 <= i < n && 0 <= j < ranges[i].follower_node_ids.len() && p == (
                    ranges[i].start_exclusive,
                    (
                        ranges[i].end_inclusive,
                        (ranges[i].owner_node_id, #[trigger] ranges[i].follower_node_ids[j]),
                    ),
                );
            if i == n - 1 {
                assert(last[j] == p);
                assert(all[before.len() + j] == p);
            } else {
                assert(before.contains(p));
                let k = choose|k: int| 0 <= k < before.len() && before[k] == p;
                assert(all[k] == p);
            }
        }
    }
}

/// A copy is wanted exactly where a range has a follower.
pub proof fn law_every_follower_has_a_copy_to_hold(t: SnapshotView, p: Place)
    ensures
        t.duties().contains(p) <==> exists|i: int, j: int|
            0 <= i < t.ranges().len() && 0 <= j < t.ranges()[i].follower_node_ids.len() && p == (
                t.ranges()[i].start_exclusive,
                (
                    t.ranges()[i].end_inclusive,
                    (t.ranges()[i].owner_node_id, #[trigger] t.ranges()[i].follower_node_ids[j]),
                ),
            ),
{
    lemma_places(t.ranges(), t.ranges().len(), p);
}

/// A member of the target receives something exactly if a range goes to it.
pub proof fn law_receiving_members_are_told_apart(c: ChangeView, m: Member)
    ensures
        ({
            let receives = exists|i: int|
                0 <= i < c.ranges.len() && (#[trigger] c.ranges[i]).destination_node_id
                    == m.node_id@;
            &&& receiving(c)(m) <==> receives
            &&& not_receiving(c)(m) <==> !receives
        }),
{
}

} // verus!
