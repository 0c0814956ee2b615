//! In which order a change is carried out.
use crate::changes::{change_identity, ChangeIdentity, IdentityView};
use crate::cluster::{ClusterState, ClusterView};
use crate::errors::{refusal, Code, Status, StatusView};
use crate::migration::{ChangeView, MigrationPhase, MoveView, RangeMigration, TopologyChange};
use crate::records::RangeDigest;
use crate::removal::set_direct_merge_fence;
use crate::text::{joined, same_text};
use crate::topology::{copy_members, member_views, same_members, Member, MemberView};
use vstd::prelude::*;

verus! {

/// How a change under way is taken up.
#[derive(Clone, Copy, Debug, Eq, PartialEq, Structural)]
pub enum ChangeRoute {
    /// A node has failed.
    Failure,
    /// There is nothing left to do.
    Done,
    /// Take back what was begun.
    FinishAbort,
    /// Published: hand over to the heirs.
    FinishMerge,
    /// Published: the predecessor is back.
    FinishRecovered,
    /// Published: activate and clean up.
    FinishPublished,
    /// Begun, but interrupted: begin anew.
    Restart,
    /// Planned.
    Start,
}

/// How a change that is begun is carried out.
#[derive(Clone, Copy, Debug, Eq, PartialEq, Structural)]
pub enum ChangeKind {
    Merge,
    Settings,
    Migration,
}

impl ChangeView {
    /// How a change under way is taken up; `None` where it was aborted.
    pub open spec fn route(self) -> Option<ChangeRoute> {
        if self.failed_node_id is Some {
            Some(ChangeRoute::Failure)
        } else {
            match self.phase {
                MigrationPhase::Complete => Some(ChangeRoute::Done),
                MigrationPhase::Aborted => None,
                MigrationPhase::Aborting => Some(ChangeRoute::FinishAbort),
                MigrationPhase::Published | MigrationPhase::CleaningUp => Some(
                    if self.direct_merge {
                        ChangeRoute::FinishMerge
                    } else if self.supersedes_change_id is Some {
                        ChangeRoute::FinishRecovered
                    } else {
                        ChangeRoute::FinishPublished
                    },
                ),
                MigrationPhase::Planned => Some(ChangeRoute::Start),
                _ => Some(ChangeRoute::Restart),
            }
        }
    }
}

impl ClusterView {
    /// How the change under way is taken up, if it is the expected one.
    pub open spec fn route(self, expected: IdentityView) -> Result<ChangeRoute, StatusView> {
        if self.active_change is None {
            Err(refusal(Code::FailedPrecondition, "no topology change is active"@))
        } else if self.active_change->0.identity() != expected {
            Err(
                refusal(
                    Code::FailedPrecondition,
                    "active topology change does not match the execute request"@,
                ),
            )
        } else {
            match self.active_change->0.route() {
                Some(route) => Ok(route),
                None => Err(refusal(Code::FailedPrecondition, "the topology change was aborted"@)),
            }
        }
    }

    /// How the change that a request names is taken up.
    pub open spec fn asked_route(self, expected: IdentityView) -> Result<ChangeRoute, StatusView> {
        if expected.change_id.len() == 0 {
            Err(refusal(Code::InvalidArgument, "change_id must not be empty"@))
        } else {
            self.route(expected)
        }
    }

    /// How a change that is begun is carried out.
    pub open spec fn kind(self, change: ChangeView) -> ChangeKind {
        if change.direct_merge {
            ChangeKind::Merge
        } else if change.ranges.len() == 0 && change.replica_obligations.len() == 0
            && change.target_topology.members == self.committed.members
            && change.target_topology.config() != self.committed.config() {
            ChangeKind::Settings
        } else {
            ChangeKind::Migration
        }
    }
}

/// A decision or a refusal as its view.
pub open spec fn route_view(r: Result<ChangeRoute, Status>) -> Result<ChangeRoute, StatusView> {
    match r {
        Ok(route) => Ok(route),
        Err(status) => Err(status@),
    }
}

impl ClusterState {
    /// Decides how the change that a request names is taken up.
    pub fn execute_topology_change(&self, expected: &ChangeIdentity) -> (r: Result<
        ChangeRoute,
        Status,
    >)
        ensures
            route_view(r) == self@.asked_route(expected@),
    {
        if expected.change_id.as_str().is_empty() {
            return Err(Status::new(Code::InvalidArgument, "change_id must not be empty"));
        }
        self.execute_change(expected)
    }

    /// Decides how the change under way is taken up.
    pub fn execute_change(&self, expected: &ChangeIdentity) -> (r: Result<ChangeRoute, Status>)
        ensures
            route_view(r) == self@.route(expected@),
    {
        let change = match &self.active_change {
            Some(change) => change,
            None => return Err(
                Status::new(Code::FailedPrecondition, "no topology change is active"),
            ),
        };
        if !change_identity(change).same(expected) {
            return Err(
                Status::new(
                    Code::FailedPrecondition,
                    "active topology change does not match the execute request",
                ),
            );
        }
        if change.failed_node_id.is_some() {
            return Ok(ChangeRoute::Failure);
        }
        match change.phase {
            MigrationPhase::Complete => Ok(ChangeRoute::Done),
            MigrationPhase::Aborted => Err(
                Status::new(Code::FailedPrecondition, "the topology change was aborted"),
            ),
            MigrationPhase::Aborting => Ok(ChangeRoute::FinishAbort),
            MigrationPhase::Published | MigrationPhase::CleaningUp => if change.direct_merge {
                Ok(ChangeRoute::FinishMerge)
            } else if change.supersedes_change_id.is_some() {
                Ok(ChangeRoute::FinishRecovered)
            } else {
                Ok(ChangeRoute::FinishPublished)
            },
            MigrationPhase::Planned => Ok(ChangeRoute::Start),
            _ => Ok(ChangeRoute::Restart),
        }
    }

    /// Decides how a change that is begun is carried out.
    pub fn change_kind(&self, change: &TopologyChange) -> (r: ChangeKind)
        ensures
            r == self@.kind(change@),
    {
        proof {
            assert(change@.ranges.len() == change.ranges@.len());
            assert(change@.replica_obligations.len() == change.replica_obligations@.len());
        }
        if change.direct_merge {
            ChangeKind::Merge
        } else if change.ranges.len() == 0 && change.replica_obligations.len() == 0 && same_members(
            &change.target_topology.members,
            &self.committed.members,
        ) && change.target_topology.config() != self.committed.config() {
            ChangeKind::Settings
        } else {
            ChangeKind::Migration
        }
    }

    /// Decides which interrupted change is taken up again: one that was begun and is not over.
    pub fn resume_interrupted_change(&self) -> (r: Option<ChangeIdentity>)
        ensures
            match r {
                Some(identity) => self@.runs_change(identity@) && self@.changing()
                    && !(self@.active_change->0.phase is Planned),
                None => !self@.changing() || self@.active_change->0.phase is Planned,
            },
    {
        match &self.active_change {
            Some(change) => if change.phase == MigrationPhase::Planned
                || change.phase.is_terminal() {
                None
            } else {
                Some(change_identity(change))
            },
            None => None,
        }
    }
}

/// What is done to carry out a change.
#[derive(Clone, Copy, Debug, Eq, PartialEq, Structural)]
pub enum RunStep {
    /// Note that the change has come to a phase.
    Note(MigrationPhase),
    /// Complete the copies that a merge needs.
    PrepareCoverage,
    /// Copy the snapshot and the changelog of every range.
    CopyRanges,
    /// Hold writes to every range.
    PauseRanges,
    /// Replay the rest of every range, compare both ends and commit.
    FinalizeRanges,
    /// Ask every destination for its process.
    CheckDestinations,
    /// Hold writes at all members.
    FenceMembers,
    /// Wait until every copy has caught up.
    AwaitCopies,
    /// Look once more whether every copy has caught up.
    RecheckCopies,
    /// Prove that the heirs hold everything and have leases.
    ProveCoverage,
    /// Publish the target.
    Publish,
}

/// A step, and whether its failure takes the change back.
#[derive(Clone, Copy, Debug, Eq, PartialEq, Structural)]
pub struct PlannedStep {
    pub step: RunStep,
    pub aborts: bool,
}

/// The steps by which a change is carried out.
pub open spec fn run_plan(kind: ChangeKind) -> Seq<PlannedStep> {
    match kind {
        ChangeKind::Migration => seq![
            PlannedStep { step: RunStep::Note(MigrationPhase::CopyingSnapshot), aborts: false },
            PlannedStep { step: RunStep::CopyRanges, aborts: true },
            PlannedStep { step: RunStep::Note(MigrationPhase::ReplayingChangelog), aborts: false },
            PlannedStep { step: RunStep::Note(MigrationPhase::PausingWrites), aborts: false },
            PlannedStep { step: RunStep::PauseRanges, aborts: true },
            PlannedStep { step: RunStep::Note(MigrationPhase::Verifying), aborts: true },
            PlannedStep { step: RunStep::FinalizeRanges, aborts: true },
            PlannedStep { step: RunStep::Note(MigrationPhase::ReadyToPublish), aborts: false },
            PlannedStep { step: RunStep::CheckDestinations, aborts: true },
            PlannedStep { step: RunStep::Publish, aborts: false },
        ],
        ChangeKind::Settings => seq![
            PlannedStep { step: RunStep::Note(MigrationPhase::PausingWrites), aborts: false },
            PlannedStep { step: RunStep::FenceMembers, aborts: true },
            PlannedStep { step: RunStep::Note(MigrationPhase::Verifying), aborts: true },
            PlannedStep { step: RunStep::AwaitCopies, aborts: true },
            PlannedStep { step: RunStep::Note(MigrationPhase::ReadyToPublish), aborts: true },
            PlannedStep { step: RunStep::RecheckCopies, aborts: true },
            PlannedStep { step: RunStep::Publish, aborts: true },
        ],
        ChangeKind::Merge => seq![
            PlannedStep { step: RunStep::PrepareCoverage, aborts: false },
            PlannedStep { step: RunStep::Note(MigrationPhase::PausingWrites), aborts: false },
            PlannedStep { step: RunStep::FenceMembers, aborts: true },
            PlannedStep { step: RunStep::Note(MigrationPhase::Verifying), aborts: true },
            PlannedStep { step: RunStep::ProveCoverage, aborts: true },
            PlannedStep { step: RunStep::AwaitCopies, aborts: true },
            PlannedStep { step: RunStep::Note(MigrationPhase::ReadyToPublish), aborts: true },
            PlannedStep { step: RunStep::Publish, aborts: true },
        ],
    }
}

/// What is waited for at the step that waits for copies.
#[derive(Clone, Copy, Debug, Eq, PartialEq, Structural)]
pub enum AwaitedCopies {
    /// The streams on which the heirs depend.
    MergeStreams,
    /// Every copy of the target.
    TargetCopies,
}

/// How a change is ended once its target is published.
#[derive(Clone, Copy, Debug, Eq, PartialEq, Structural)]
pub struct RunEnd {
    /// There is a pause first.
    pub pauses: bool,
    /// Hand over to the heirs, in place of activating and cleaning up.
    pub merges: bool,
}

impl ChangeKind {
    /// The members that hold writes back: for a merge those of its base, else those of the
    /// target.
    pub open spec fn fenced(self, change: ChangeView) -> Result<Seq<MemberView>, StatusView> {
        if self is Merge {
            match change.base_topology {
                Some(base) => Ok(base.members),
                None => Err(refusal(Code::Internal, "direct merge omitted base topology"@)),
            }
        } else {
            Ok(change.target_topology.members)
        }
    }

    /// Finds the members that hold writes back.
    pub fn fence_members(self, change: &TopologyChange) -> (r: Result<Vec<Member>, Status>)
        ensures
            match r {
                Ok(members) => self.fenced(change@) == Ok::<Seq<MemberView>, StatusView>(
                    member_views(members@),
                ),
                Err(status) => self.fenced(change@) == Err::<Seq<MemberView>, StatusView>(status@),
            },
    {
        match self {
            ChangeKind::Merge => set_direct_merge_fence(change, true),
            _ => Ok(copy_members(&change.target_topology.members)),
        }
    }

    /// Decides what is waited for at the step that waits for copies.
    pub fn awaited_copies(self) -> (r: AwaitedCopies)
        ensures
            r == if self is Merge {
                AwaitedCopies::MergeStreams
            } else {
                AwaitedCopies::TargetCopies
            },
    {
        match self {
            ChangeKind::Merge => AwaitedCopies::MergeStreams,
            _ => AwaitedCopies::TargetCopies,
        }
    }

    /// Decides how a change is ended once its target is published.
    pub fn run_end(self) -> (r: RunEnd)
        ensures
            r == (RunEnd { pauses: self !is Settings, merges: self is Merge }),
    {
        match self {
            ChangeKind::Merge => RunEnd { pauses: true, merges: true },
            ChangeKind::Settings => RunEnd { pauses: false, merges: false },
            ChangeKind::Migration => RunEnd { pauses: true, merges: false },
        }
    }
}

/// What is done after a step.
#[derive(Clone, Copy, Debug, Eq, PartialEq, Structural)]
pub enum RunAction {
    Perform(RunStep),
    /// The target is published: activate it.
    Finish,
    /// Take the change back and report the failure.
    Abort,
    /// Report the failure; the change stays as it is.
    Stop,
}

/// What is done after `done` steps have gone well and the next one, if it was tried, has not.
pub open spec fn run_after(kind: ChangeKind, done: nat, failed: bool) -> RunAction {
    let plan = run_plan(kind);
    if done >= plan.len() {
        RunAction::Finish
    } else if !failed {
        RunAction::Perform(plan[done as int].step)
    } else if plan[done as int].aborts {
        RunAction::Abort
    } else {
        RunAction::Stop
    }
}

/// The steps by which a change is carried out.
pub fn plan_run(kind: ChangeKind) -> (r: Vec<PlannedStep>)
    ensures
        r@ == run_plan(kind),
{
    let mut r: Vec<PlannedStep> = Vec::new();
    match kind {
        ChangeKind::Migration => {
            r.push(
                PlannedStep { step: RunStep::Note(MigrationPhase::CopyingSnapshot), aborts: false },
            );
            r.push(PlannedStep { step: RunStep::CopyRanges, aborts: true });
            r.push(
                PlannedStep {
                    step: RunStep::Note(MigrationPhase::ReplayingChangelog),
                    aborts: false,
                },
            );
            r.push(
                PlannedStep { step: RunStep::Note(MigrationPhase::PausingWrites), aborts: false },
            );
            r.push(PlannedStep { step: RunStep::PauseRanges, aborts: true });
            r.push(PlannedStep { step: RunStep::Note(MigrationPhase::Verifying), aborts: true });
            r.push(PlannedStep { step: RunStep::FinalizeRanges, aborts: true });
            r.push(
                PlannedStep { step: RunStep::Note(MigrationPhase::ReadyToPublish), aborts: false },
            );
            r.push(PlannedStep { step: RunStep::CheckDestinations, aborts: true });
            r.push(PlannedStep { step: RunStep::Publish, aborts: false });
        },
        ChangeKind::Settings => {
            r.push(
                PlannedStep { step: RunStep::Note(MigrationPhase::PausingWrites), aborts: false },
            );
            r.push(PlannedStep { step: RunStep::FenceMembers, aborts: true });
            r.push(PlannedStep { step: RunStep::Note(MigrationPhase::Verifying), aborts: true });
            r.push(PlannedStep { step: RunStep::AwaitCopies, aborts: true });
            r.push(
                PlannedStep { step: RunStep::Note(MigrationPhase::ReadyToPublish), aborts: true },
            );
            r.push(PlannedStep { step: RunStep::RecheckCopies, aborts: true });
            r.push(PlannedStep { step: RunStep::Publish, aborts: true });
        },
        ChangeKind::Merge => {
            r.push(PlannedStep { step: RunStep::PrepareCoverage, aborts: false });
            r.push(
                PlannedStep { step: RunStep::Note(MigrationPhase::PausingWrites), aborts: false },
            );
            r.push(PlannedStep { step: RunStep::FenceMembers, aborts: true });
            r.push(PlannedStep { step: RunStep::Note(MigrationPhase::Verifying), aborts: true });
            r.push(PlannedStep { step: RunStep::ProveCoverage, aborts: true });
            r.push(PlannedStep { step: RunStep::AwaitCopies, aborts: true });
            r.push(
                PlannedStep { step: RunStep::Note(MigrationPhase::ReadyToPublish), aborts: true },
            );
            r.push(PlannedStep { step: RunStep::Publish, aborts: true });
        },
    }
    proof {
        assert(r@ =~= run_plan(kind));
    }
    r
}

/// Decides what is done after `done` steps have gone well and the next one, if it was tried,
/// has not.
pub fn next_run_action(kind: ChangeKind, done: usize, failed: bool) -> (r: RunAction)
    ensures
        r == run_after(kind, done as nat, failed),
{
    let plan = plan_run(kind);
    if done >= plan.len() {
        RunAction::Finish
    } else if !failed {
        RunAction::Perform(plan[done].step)
    } else if plan[done].aborts {
        RunAction::Abort
    } else {
        RunAction::Stop
    }
}

/// Nothing is published before every range was finalized and its destination asked again.
pub proof fn law_migrations_verify_before_they_publish(done: nat)
    requires
        run_after(ChangeKind::Migration, done, false) == RunAction::Perform(RunStep::Publish),
    ensures
        exists|i: int|
            #![trigger run_plan(ChangeKind::Migration)[i]]
            0 <= i < done && run_plan(ChangeKind::Migration)[i].step == RunStep::FinalizeRanges,
        exists|i: int|
            #![trigger run_plan(ChangeKind::Migration)[i]]
            0 <= i < done && run_plan(ChangeKind::Migration)[i].step == RunStep::CheckDestinations,
        exists|i: int|
            #![trigger run_plan(ChangeKind::Migration)[i]]
            0 <= i < done && run_plan(ChangeKind::Migration)[i].step == RunStep::PauseRanges,
{
    let plan = run_plan(ChangeKind::Migration);
    assert(plan[4].step == RunStep::PauseRanges);
    assert(plan[6].step == RunStep::FinalizeRanges);
    assert(plan[8].step == RunStep::CheckDestinations);
    assert(plan.len() == 10);
    assert(done == 9);
}

/// Whatever a change is, writes are held back before its target is published, and publishing
/// is the last step.
pub proof fn law_publishing_comes_last(kind: ChangeKind, i: int)
    requires
        0 <= i < run_plan(kind).len(),
        run_plan(kind)[i].step == RunStep::Publish,
    ensures
        i == run_plan(kind).len() - 1,
        exists|j: int|
            #![trigger run_plan(kind)[j]]
            0 <= j < i && (run_plan(kind)[j].step == RunStep::PauseRanges || run_plan(kind)[j].step
                == RunStep::FenceMembers),
{
    match kind {
        ChangeKind::Migration => {
            assert(run_plan(kind)[4].step == RunStep::PauseRanges);
        },
        ChangeKind::Settings => {
            assert(run_plan(kind)[1].step == RunStep::FenceMembers);
        },
        ChangeKind::Merge => {
            assert(run_plan(kind)[2].step == RunStep::FenceMembers);
        },
    }
}

/// A failure that may pass by itself.
pub open spec fn transient(code: Code) -> bool {
    code is Unavailable || code is DeadlineExceeded
}

/// What is done about a change whose step has failed.
#[derive(Clone, Copy, Debug, Eq, PartialEq, Structural)]
pub enum AbortRoute {
    /// Keep it, to be begun anew.
    Reset,
    /// Take it back for good.
    Abort,
}

/// What becomes of a change after a failure.
pub open spec fn abort_route(code: Code, retry_transient: bool) -> AbortRoute {
    if retry_transient && transient(code) {
        AbortRoute::Reset
    } else {
        AbortRoute::Abort
    }
}

/// Decides what is done about a change whose step has failed.
pub fn abort_after_error(code: Code, retry_transient: bool) -> (r: AbortRoute)
    ensures
        r == abort_route(code, retry_transient),
{
    if retry_transient && (code == Code::Unavailable || code == Code::DeadlineExceeded) {
        AbortRoute::Reset
    } else {
        AbortRoute::Abort
    }
}

/// What is done about a step that has failed.
#[derive(Clone, Copy, Debug, Eq, PartialEq, Structural)]
pub enum FailedStep {
    /// The change is taken back or begins anew.
    TakeBack(AbortRoute),
    /// No member was fenced yet: repairs are cleaned up, and the change ends or is tried again.
    CleanRepairs(AbortRoute),
    /// The failure is reported, and the change stays where it is.
    Report,
}

/// What is done where the step after the first `done` has failed. New settings are never tried
/// again by themselves.
pub open spec fn failed_step(
    kind: ChangeKind,
    done: nat,
    aborts: bool,
    code: Code,
    retry_transient: bool,
) -> FailedStep {
    let route = abort_route(code, retry_transient && !(kind is Settings));
    if aborts || run_after(kind, done, true) == RunAction::Abort {
        FailedStep::TakeBack(route)
    } else if run_after(kind, done, false) == RunAction::Perform(RunStep::PrepareCoverage) {
        FailedStep::CleanRepairs(route)
    } else {
        FailedStep::Report
    }
}

/// Decides what is done where the step after the first `done` has failed; a failure that
/// `aborts` takes the change back whatever its plan says.
pub fn after_failed_step(
    kind: ChangeKind,
    done: usize,
    aborts: bool,
    code: Code,
    retry_transient: bool,
) -> (r: FailedStep)
    ensures
        r == failed_step(kind, done as nat, aborts, code, retry_transient),
{
    let route = abort_after_error(code, retry_transient && kind != ChangeKind::Settings);
    if aborts || next_run_action(kind, done, true) == RunAction::Abort {
        FailedStep::TakeBack(route)
    } else if next_run_action(kind, done, false) == RunAction::Perform(RunStep::PrepareCoverage) {
        FailedStep::CleanRepairs(route)
    } else {
        FailedStep::Report
    }
}

/// Once members were fenced, a failure before publication always takes the change back.
pub proof fn law_failures_behind_a_fence_are_taken_back(
    kind: ChangeKind,
    fenced: int,
    done: nat,
    code: Code,
    retry_transient: bool,
)
    requires
        0 <= fenced <= done < run_plan(kind).len(),
        run_plan(kind)[fenced].step == RunStep::FenceMembers,
    ensures
        failed_step(kind, done, false, code, retry_transient) is TakeBack,
{
}

/// What is reported where the change could not be cleaned up after a failure.
pub fn cleanup_pending(route: AbortRoute, original: &str, cleanup: &str) -> (r: Status)
    ensures
        r@ == match route {
            AbortRoute::Reset => refusal(
                Code::Unavailable,
                "migration interrupted ("@ + original@ + "); cleanup remains pending ("@ + cleanup@
                    + ")"@,
            ),
            AbortRoute::Abort => refusal(
                Code::Internal,
                "migration failed ("@ + original@ + "); cleanup remains pending ("@ + cleanup@
                    + ")"@,
            ),
        },
{
    let (code, a) = match route {
        AbortRoute::Reset => (Code::Unavailable, joined("migration interrupted (", original)),
        AbortRoute::Abort => (Code::Internal, joined("migration failed (", original)),
    };
    let b = joined(a.as_str(), "); cleanup remains pending (");
    let c = joined(b.as_str(), cleanup);
    Status { code: code, message: joined(c.as_str(), ")") }
}

/// Tells whether a call failed because nobody was there.
pub fn is_absence_status(status: &Status) -> (r: bool)
    ensures
        r == (status.code is Unavailable),
{
    status.code == Code::Unavailable
}

/// What is released where a change is taken back.
#[derive(Clone, Copy, Debug, Eq, PartialEq, Structural)]
pub enum FenceRelease {
    /// Every member of the base held writes back.
    BaseMembers,
    /// Every member of the target held writes back.
    TargetMembers,
    Nothing,
}

/// Decides which members are told to go on after a change was taken back.
pub fn finish_abort(change: &TopologyChange) -> (r: FenceRelease)
    ensures
        r == if change@.direct_merge {
            FenceRelease::BaseMembers
        } else if change@.ranges.len() == 0 && change@.replica_obligations.len() == 0 {
            FenceRelease::TargetMembers
        } else {
            FenceRelease::Nothing
        },
{
    proof {
        assert(change@.ranges.len() == change.ranges@.len());
        assert(change@.replica_obligations.len() == change.replica_obligations@.len());
    }
    if change.direct_merge {
        FenceRelease::BaseMembers
    } else if change.ranges.len() == 0 && change.replica_obligations.len() == 0 {
        FenceRelease::TargetMembers
    } else {
        FenceRelease::Nothing
    }
}

/// What comes of one page of a changelog.
#[derive(Clone, Copy, Debug, Eq, PartialEq, Structural)]
pub enum ReplayOutcome {
    /// The destination is up to date.
    CaughtUp,
    /// Read on.
    More,
    /// The source left something out.
    Gap,
}

/// A page of a changelog, as far as replaying goes: where it ends, if it holds anything, and
/// where the source stood when it was read.
pub open spec fn replayed(
    watermark: u64,
    final_watermark: Option<u64>,
    last: Option<u64>,
    current: u64,
) -> (u64, ReplayOutcome) {
    let target = if final_watermark is Some {
        final_watermark->0
    } else {
        current
    };
    let reached = if last is Some {
        last->0
    } else {
        watermark
    };
    (
        reached,
        if reached >= target {
            ReplayOutcome::CaughtUp
        } else if last is None {
            ReplayOutcome::Gap
        } else {
            ReplayOutcome::More
        },
    )
}

/// Decides how replaying goes on after a page.
pub fn replay_changelog(
    watermark: u64,
    final_watermark: Option<u64>,
    last: Option<u64>,
    current: u64,
) -> (r: (u64, ReplayOutcome))
    ensures
        r == replayed(watermark, final_watermark, last, current),
{
    let target = match final_watermark {
        Some(target) => target,
        None => current,
    };
    let reached = match last {
        Some(last) => last,
        None => watermark,
    };
    if reached >= target {
        (reached, ReplayOutcome::CaughtUp)
    } else if last.is_none() {
        (reached, ReplayOutcome::Gap)
    } else {
        (reached, ReplayOutcome::More)
    }
}

/// What is reported where a source left something out of its changelog.
pub fn changelog_gap() -> (r: Status)
    ensures
        r@ == refusal(
            Code::DataLoss,
            "source changelog omitted records before its watermark"@,
        ),
{
    Status::new(Code::DataLoss, "source changelog omitted records before its watermark")
}

/// A range whose snapshot and changelog were copied.
pub open spec fn copied(
    range: MoveView,
    source: Seq<char>,
    destination: Seq<char>,
    records: u64,
    watermark: u64,
) -> MoveView {
    MoveView {
        source_process_instance_id: source,
        destination_process_instance_id: destination,
        snapshot_records: records,
        changelog_watermark: watermark,
        ..range
    }
}

/// Checks that both ends of a range have told which processes they are.
pub fn check_copy_ends(source_instance: &String, destination_instance: &String) -> (r: Result<
    (),
    Status,
>)
    ensures
        r is Ok == (source_instance@.len() > 0 && destination_instance@.len() > 0),
        r matches Err(status) ==> status@ == if source_instance@.len() == 0 {
            refusal(Code::DataLoss, "source omitted its process instance identifier"@)
        } else {
            refusal(Code::DataLoss, "destination omitted its process instance identifier"@)
        },
{
    if source_instance.as_str().is_empty() {
        return Err(Status::new(Code::DataLoss, "source omitted its process instance identifier"));
    }
    if destination_instance.as_str().is_empty() {
        return Err(
            Status::new(Code::DataLoss, "destination omitted its process instance identifier"),
        );
    }
    Ok(())
}

/// Where copying a snapshot stands after a page.
#[derive(Clone, Copy, Debug, Eq, PartialEq, Structural)]
pub struct CopyStep {
    /// Where the next page begins.
    pub cursor: u64,
    /// How many records were read so far.
    pub records: u64,
    /// Whether the page is handed to the destination: an empty one is not.
    pub apply: bool,
    /// Whether another page follows.
    pub more: bool,
}

/// Decides how copying a snapshot goes on after a page of `page_len` records.
pub fn copy_step(records: u64, page_len: u64, next_cursor: u64, done: bool) -> (r: CopyStep)
    requires
        records + page_len <= u64::MAX,
    ensures
        r == (CopyStep {
            cursor: next_cursor,
            records: (records + page_len) as u64,
            apply: page_len > 0,
            more: !done,
        }),
{
    CopyStep {
        cursor: next_cursor,
        records: records + page_len,
        apply: page_len > 0,
        more: !done,
    }
}

/// Notes what was copied of a range.
pub fn copy_range(
    range: &RangeMigration,
    source_instance: &String,
    destination_instance: &String,
    records: u64,
    watermark: u64,
) -> (r: RangeMigration)
    ensures
        r@ == copied(range@, source_instance@, destination_instance@, records, watermark),
{
    let mut progress = range.clone();
    progress.source_process_instance_id = source_instance.clone();
    progress.destination_process_instance_id = destination_instance.clone();
    progress.snapshot_records = records;
    progress.changelog_watermark = watermark;
    proof {
        assert(progress@ =~= copied(
            range@,
            source_instance@,
            destination_instance@,
            records,
            watermark,
        ));
    }
    progress
}

/// Both ends of a range hold the same up to its final watermark.
pub open spec fn ends_agree(
    source: RangeDigest,
    destination: RangeDigest,
    watermark: u64,
    final_watermark: u64,
) -> bool {
    &&& source.record_count == destination.record_count
    &&& source.digest@ == destination.digest@
    &&& source.changelog_watermark == destination.changelog_watermark
    &&& destination.changelog_watermark == final_watermark
    &&& watermark == final_watermark
}

/// Checks that both ends of a range hold the same, and notes it.
pub fn finalize_range(
    range: &RangeMigration,
    source: &RangeDigest,
    destination: &RangeDigest,
    watermark: u64,
    final_watermark: u64,
) -> (r: Result<RangeMigration, Status>)
    ensures
        match r {
            Ok(progress) => ends_agree(*source, *destination, watermark, final_watermark)
                && progress@ == (MoveView {
                changelog_watermark: final_watermark,
                verified: true,
                ..range@
            }),
            Err(status) => !ends_agree(*source, *destination, watermark, final_watermark) && status@
                == refusal(Code::DataLoss, "range verification failed for "@ + range.range_id@),
        },
{
    if source.record_count != destination.record_count || !same_text(
        source.digest.as_str(),
        destination.digest.as_str(),
    ) || source.changelog_watermark != destination.changelog_watermark
        || destination.changelog_watermark != final_watermark || watermark != final_watermark {
        return Err(
            Status {
                code: Code::DataLoss,
                message: joined("range verification failed for ", range.range_id.as_str()),
            },
        );
    }
    let mut progress = range.clone();
    progress.changelog_watermark = final_watermark;
    progress.verified = true;
    proof {
        assert(progress@ =~= MoveView {
            changelog_watermark: final_watermark,
            verified: true,
            ..range@
        });
    }
    Ok(progress)
}

} // verus!
