//! Taking back a published change whose new node is gone.
use crate::changes::{ChangeIdentity, IdentityView};
use crate::cluster::{ClusterState, ClusterView};
use crate::errors::{refusal, Code, Status, StatusView};
use crate::merge::has_member;
use crate::migration::{
    is_plan, migration_error_text, ChangeView, MigrationError, MigrationPhase, MoveView,
    TopologyChange,
};
use crate::ordmap::shown;
use crate::publish::{align, aligned};
use crate::text::{joined, owned, same_text};
use crate::topology::{
    copy_members, member_views, Member, MemberView, SnapshotView, TopologySnapshot,
};
use crate::views::{opt, views};
use vstd::prelude::*;

verus! {

/// The name of a phase.
pub open spec fn phase_name(phase: MigrationPhase) -> Seq<char> {
    match phase {
        MigrationPhase::Planned => "Planned"@,
        MigrationPhase::Resetting => "Resetting"@,
        MigrationPhase::CopyingSnapshot => "CopyingSnapshot"@,
        MigrationPhase::ReplayingChangelog => "ReplayingChangelog"@,
        MigrationPhase::PausingWrites => "PausingWrites"@,
        MigrationPhase::Verifying => "Verifying"@,
        MigrationPhase::ReadyToPublish => "ReadyToPublish"@,
        MigrationPhase::Published => "Published"@,
        MigrationPhase::CleaningUp => "CleaningUp"@,
        MigrationPhase::Complete => "Complete"@,
        MigrationPhase::Aborting => "Aborting"@,
        MigrationPhase::Aborted => "Aborted"@,
    }
}

/// The name of a phase.
pub fn name_phase(phase: MigrationPhase) -> (r: String)
    ensures
        r@ == phase_name(phase),
{
    match phase {
        MigrationPhase::Planned => owned("Planned"),
        MigrationPhase::Resetting => owned("Resetting"),
        MigrationPhase::CopyingSnapshot => owned("CopyingSnapshot"),
        MigrationPhase::ReplayingChangelog => owned("ReplayingChangelog"),
        MigrationPhase::PausingWrites => owned("PausingWrites"),
        MigrationPhase::Verifying => owned("Verifying"),
        MigrationPhase::ReadyToPublish => owned("ReadyToPublish"),
        MigrationPhase::Published => owned("Published"),
        MigrationPhase::CleaningUp => owned("CleaningUp"),
        MigrationPhase::Complete => owned("Complete"),
        MigrationPhase::Aborting => owned("Aborting"),
        MigrationPhase::Aborted => owned("Aborted"),
    }
}

/// What is done about a node that is gone while a change is under way.
#[derive(Debug, Eq, PartialEq)]
pub enum RecoveryDecision {
    /// The change is another one by now, or over.
    Ignore,
    /// The change was not published: take it back.
    Abort,
    /// Nothing can be done; why.
    Block(String),
    /// The change was published and its new node is gone: publish its predecessor again.
    Recover,
}

/// What is done about a node that is gone while a change is under way.
#[verifier::ext_equal]
pub enum RecoveryView {
    Ignore,
    Abort,
    Block(Seq<char>),
    Recover,
}

impl View for RecoveryDecision {
    type V = RecoveryView;

    open spec fn view(&self) -> RecoveryView {
        match self {
            RecoveryDecision::Ignore => RecoveryView::Ignore,
            RecoveryDecision::Abort => RecoveryView::Abort,
            RecoveryDecision::Block(reason) => RecoveryView::Block(reason@),
            RecoveryDecision::Recover => RecoveryView::Recover,
        }
    }
}

/// The members but one are those of an older topology.
pub open spec fn lost_only(now: Seq<MemberView>, before: Seq<MemberView>, node: Seq<char>) -> bool {
    &&& before.len() > 0
    &&& forall|i: int|
        0 <= i < now.len() && (#[trigger] now[i]).node_id != node ==> before.contains(now[i])
    &&& forall|i: int|
        0 <= i < before.len() ==> (#[trigger] before[i]).node_id != node && now.contains(before[i])
}

impl ClusterView {
    /// The source of a range that went to a lost node still holds it as it was verified.
    pub open spec fn still_frozen(self, range: MoveView, node: Seq<char>) -> bool {
        &&& range.destination_node_id == node
        &&& range.verified
        &&& !range.source_cleaned
        &&& range.source_process_instance_id.len() > 0
        &&& self.runs(range.source_node_id, range.source_process_instance_id)
    }

    /// Everything that went to a lost node can be had from where it came from.
    pub open spec fn recoverable(self, base: SnapshotView, ranges: Seq<MoveView>, node: Seq<char>) -> bool {
        &&& lost_only(self.committed.members, base.members, node)
        &&& forall|i: int| 0 <= i < ranges.len() ==> self.still_frozen(#[trigger] ranges[i], node)
    }

    /// A node that is not of the old topology is gone before a change was published.
    pub open spec fn abandons(self, change: ChangeView, node: Seq<char>) -> bool {
        &&& !change.activation_ready
        &&& !(change.phase is Aborting || change.phase is CleaningUp)
        &&& change.base_topology is Some
        &&& !change.base_topology->0.is_member(node)
    }

    /// What is done about a node that is gone while a change is under way.
    pub open spec fn recovery(self, expected: IdentityView, node: Seq<char>) -> RecoveryView {
        if !self.runs_change(expected) || self.active_change->0.phase.terminal() {
            RecoveryView::Ignore
        } else {
            let change = self.active_change->0;
            if !(change.phase is Published) || change.activation_ready {
                if self.abandons(change, node) {
                    RecoveryView::Abort
                } else {
                    RecoveryView::Block(
                        "confirmed unavailable node "@ + node + " during "@ + phase_name(
                            change.phase,
                        )
                            + "; automatic recovery requires a published, unactivated pure join"@,
                    )
                }
            } else if change.base_topology is None {
                RecoveryView::Block(
                    "confirmed unavailable node "@ + node
                        + "; original topology is unavailable for recovery"@,
                )
            } else if !self.recoverable(change.base_topology->0, change.ranges, node) {
                RecoveryView::Block(
                    "confirmed unavailable node "@ + node
                        + "; surviving original owners cannot prove complete frozen-range coverage"@,
                )
            } else {
                RecoveryView::Recover
            }
        }
    }
}

fn only_lost(now: &Vec<Member>, before: &Vec<Member>, node: &String) -> (r: bool)
    ensures
        r == lost_only(member_views(now@), member_views(before@), node@),
{
    let ghost a = member_views(now@);
    let ghost b = member_views(before@);
    if before.len() == 0 {
        return false;
    }
    let mut i: usize = 0;
    while i < now.len()
        invariant
            a == member_views(now@),
            b == member_views(before@),
            i <= now@.len(),
            forall|j: int|
                0 <= j < i && (#[trigger] a[j]).node_id != node@ ==> b.contains(a[j]),
        decreases now.len() - i,
    {
        proof {
            assert(a[i as int] == now@[i as int]@);
        }
        if !same_text(now[i].node_id.as_str(), node.as_str()) && !has_member(before, &now[i]) {
            return false;
        }
        i = i + 1;
    }
    let mut i: usize = 0;
    while i < before.len()
        invariant
            a == member_views(now@),
            b == member_views(before@),
            i <= before@.len(),
            forall|j: int|
                0 <= j < i ==> (#[trigger] b[j]).node_id != node@ && a.contains(b[j]),
        decreases before.len() - i,
    {
        proof {
            assert(b[i as int] == before@[i as int]@);
        }
        if same_text(before[i].node_id.as_str(), node.as_str()) || !has_member(now, &before[i]) {
            return false;
        }
        i = i + 1;
    }
    true
}

fn blocked(node: &String, after: &str) -> (r: RecoveryDecision)
    ensures
        r@ == RecoveryView::Block("confirmed unavailable node "@ + node@ + after@),
{
    let before = joined("confirmed unavailable node ", node.as_str());
    RecoveryDecision::Block(joined(before.as_str(), after))
}

impl ClusterState {
    fn all_frozen(&self, change: &TopologyChange, node: &String) -> (r: bool)
        ensures
            r == forall|i: int|
                0 <= i < change@.ranges.len() ==> self@.still_frozen(
                    #[trigger] change@.ranges[i],
                    node@,
                ),
    {
        let ghost s = change@.ranges;
        let mut i: usize = 0;
        while i < change.ranges.len()
            invariant
                s == change@.ranges,
                s == views(change.ranges@),
                i <= change.ranges@.len(),
                forall|j: int| 0 <= j < i ==> self@.still_frozen(#[trigger] s[j], node@),
            decreases change.ranges.len() - i,
        {
            let range = &change.ranges[i];
            proof {
                assert(s[i as int] == range@);
            }
            if !same_text(range.destination_node_id.as_str(), node.as_str()) || !range.verified
                || range.source_cleaned || range.source_process_instance_id.as_str().is_empty()
                || !self.node_runs(
                &range.source_node_id,
                range.source_process_instance_id.as_str(),
            ) {
                proof {
                    assert(!self@.still_frozen(s[i as int], node@));
                }
                return false;
            }
            i = i + 1;
        }
        true
    }

    /// Decides what is done about a node that is gone while a change is under way.
    pub fn recover_pending_change_failure(
        &self,
        expected: &ChangeIdentity,
        failed_node_id: &String,
    ) -> (r: RecoveryDecision)
        ensures
            r@ == self@.recovery(expected@, failed_node_id@),
    {
        if !self.runs_change(expected) {
            return RecoveryDecision::Ignore;
        }
        let change = match &self.active_change {
            Some(change) => change,
            None => return RecoveryDecision::Ignore,
        };
        if change.phase.is_terminal() {
            return RecoveryDecision::Ignore;
        }
        if change.phase != MigrationPhase::Published || change.activation_ready {
            let foreign = match &change.base_topology {
                Some(base) => base.member(failed_node_id.as_str()).is_none(),
                None => false,
            };
            if !change.activation_ready && change.phase != MigrationPhase::Aborting && change.phase
                != MigrationPhase::CleaningUp && foreign {
                return RecoveryDecision::Abort;
            }
            let a = joined("confirmed unavailable node ", failed_node_id.as_str());
            let b = joined(a.as_str(), " during ");
            let c = joined(b.as_str(), name_phase(change.phase).as_str());
            let d = joined(
                c.as_str(),
                "; automatic recovery requires a published, unactivated pure join",
            );
            return RecoveryDecision::Block(d);
        }
        let base = match &change.base_topology {
            Some(base) => base,
            None => return blocked(
                failed_node_id,
                "; original topology is unavailable for recovery",
            ),
        };
        if only_lost(&self.committed.members, &base.members, failed_node_id) && self.all_frozen(
            change,
            failed_node_id,
        ) {
            RecoveryDecision::Recover
        } else {
            blocked(
                failed_node_id,
                "; surviving original owners cannot prove complete frozen-range coverage",
            )
        }
    }

    /// The process that an original owner is known by.
    pub fn original_owner(&self, node_id: &String) -> (r: Result<String, Status>)
        ensures
            match r {
                Ok(instance) => self@.runs(node_id@, instance@),
                Err(status) => !self@.process_instances.contains_key(node_id@) && status@
                    == refusal(
                    Code::FailedPrecondition,
                    "original owner "@ + node_id@ + " has no process identity"@,
                ),
            },
    {
        match self.process_instances.get(node_id) {
            Some(instance) => Ok(instance.clone()),
            None => {
                let before = joined("original owner ", node_id.as_str());
                let message = joined(before.as_str(), " has no process identity");
                Err(Status { code: Code::FailedPrecondition, message: message })
            },
        }
    }
}

/// Checks what an original owner says of itself.
pub fn judge_original_owner(
    node_id: &String,
    expected_instance: &String,
    actual_node_id: &String,
    actual_instance: &String,
) -> (r: Result<(), Status>)
    ensures
        r is Ok == (actual_node_id@ == node_id@ && actual_instance@ == expected_instance@),
        r matches Err(status) ==> status@ == refusal(
            Code::FailedPrecondition,
            "original owner "@ + node_id@ + " changed process instance"@,
        ),
{
    if same_text(actual_node_id.as_str(), node_id.as_str()) && same_text(
        actual_instance.as_str(),
        expected_instance.as_str(),
    ) {
        return Ok(());
    }
    let before = joined("original owner ", node_id.as_str());
    let message = joined(before.as_str(), " changed process instance");
    Err(Status { code: Code::FailedPrecondition, message: message })
}

/// Checks that the source of a range holds it as it was verified.
pub fn judge_frozen_range(
    range_id: &String,
    verified_watermark: u64,
    watermark: u64,
    digest: &String,
) -> (r: Result<(), Status>)
    ensures
        r is Ok == (watermark == verified_watermark && digest@.len() > 0),
        r matches Err(status) ==> status@ == refusal(
            Code::FailedPrecondition,
            "frozen source range "@ + range_id@ + " no longer matches the verified watermark"@,
        ),
{
    if watermark == verified_watermark && !digest.as_str().is_empty() {
        return Ok(());
    }
    let before = joined("frozen source range ", range_id.as_str());
    let message = joined(before.as_str(), " no longer matches the verified watermark");
    Err(Status { code: Code::FailedPrecondition, message: message })
}

/// The change that publishes the members of an older topology again.
pub open spec fn is_recovery(
    committed: SnapshotView,
    members: Seq<Member>,
    superseded: Seq<char>,
    r: Result<TopologyChange, Status>,
) -> bool {
    exists|p: Result<TopologyChange, MigrationError>|
        #![trigger is_plan(committed, members, committed.config(), p)]
        is_plan(committed, members, committed.config(), p) && match p {
            Ok(plan) => r is Ok && r->Ok_0@ == (ChangeView {
                ranges: Seq::empty(),
                phase: MigrationPhase::Published,
                supersedes_change_id: Some(superseded),
                ..plan@
            }),
            Err(error) => r is Err && r->Err_0@ == refusal(
                Code::FailedPrecondition,
                migration_error_text(error),
            ),
        }
}

/// Plans to publish the members of an older topology again.
pub fn plan_recovery(committed: &TopologySnapshot, base: &TopologySnapshot, superseded: &String) -> (r:
    Result<TopologyChange, Status>)
    requires
        committed@.placeable(),
    ensures
        is_recovery(committed@, base.members@, superseded@, r),
{
    let planned = TopologyChange::plan(committed, copy_members(&base.members));
    let ghost p = planned;
    match planned {
        Ok(plan) => {
            let mut recovery = plan;
            recovery.ranges = Vec::new();
            recovery.phase = MigrationPhase::Published;
            recovery.supersedes_change_id = Some(superseded.clone());
            proof {
                assert(views(recovery.ranges@) =~= Seq::empty());
                assert(recovery@ =~= ChangeView {
                    ranges: Seq::empty(),
                    phase: MigrationPhase::Published,
                    supersedes_change_id: Some(superseded@),
                    ..p->Ok_0@
                });
                assert(is_plan(committed@, base.members@, committed@.config(), p));
            }
            Ok(recovery)
        },
        Err(error) => {
            let status = Status { code: Code::FailedPrecondition, message: error.message() };
            proof {
                assert(is_plan(committed@, base.members@, committed@.config(), p));
            }
            Err(status)
        },
    }
}

impl ClusterView {
    /// A published change taken back: its lost node is fenced and forgotten.
    pub open spec fn taken_back(self, recovery: ChangeView, node: Seq<char>) -> ClusterView {
        ClusterView {
            committed: recovery.target_topology,
            active_change: Some(recovery),
            superseded_change: self.active_change,
            fenced_nodes: self.fenced_nodes.insert(node),
            process_instances: self.process_instances.remove(node),
            replica_admissions: Seq::empty(),
            replica_repairs: Seq::empty(),
            recovery_block_reason: Seq::empty(),
            ..self
        }
    }
}

/// A possible next state as its view.
pub open spec fn maybe_next(r: Result<Option<ClusterState>, Status>) -> Result<
    Option<ClusterView>,
    StatusView,
> {
    match r {
        Ok(next) => Ok(opt(next)),
        Err(status) => Err(status@),
    }
}

impl ClusterState {
    /// Publishes a recovery, unless the cluster has moved on since it was planned. The change
    /// that it takes back is the one under way.
    pub fn publish_recovery(
        &self,
        expected: &ChangeIdentity,
        planned_from: &TopologySnapshot,
        failed_node_id: &String,
        recovery: &TopologyChange,
    ) -> (r: Result<Option<ClusterState>, Status>)
        ensures
            maybe_next(r) == if !self@.runs_change(expected@) || self@.committed != planned_from@ {
                Ok(None)
            } else {
                match aligned(self@.taken_back(recovery@, failed_node_id@)) {
                    Ok(next) => Ok(Some(next)),
                    Err(status) => Err(status),
                }
            },
    {
        if !self.runs_change(expected) || !self.committed.same(planned_from) {
            return Ok(None);
        }
        let mut next = self.clone();
        let older = self.clone();
        next.committed = recovery.target_topology.clone();
        next.superseded_change = older.active_change;
        next.active_change = Some(recovery.clone());
        let _ = next.fenced_nodes.insert(failed_node_id.clone());
        let _ = next.process_instances.remove(failed_node_id);
        next.replica_admissions = Vec::new();
        next.replica_repairs = Vec::new();
        next.recovery_block_reason = String::new();
        proof {
            assert(shown(next.process_instances) =~= self@.process_instances.remove(
                failed_node_id@,
            ));
            assert(views(next.replica_admissions@) =~= Seq::empty());
            assert(views(next.replica_repairs@) =~= Seq::empty());
            assert(next@ =~= self@.taken_back(recovery@, failed_node_id@));
        }
        match align(next) {
            Ok(next) => Ok(Some(next)),
            Err(status) => Err(status),
        }
    }
}

/// Whatever a recovery publishes was held by the members of the older topology: every range
/// that had gone to the lost node is still with its verified source.
pub proof fn law_recoveries_lose_no_range(
    s: ClusterView,
    expected: IdentityView,
    node: Seq<char>,
    i: int,
)
    requires
        s.recovery(expected, node) is Recover,
        0 <= i < s.active_change->0.ranges.len(),
    ensures
        ({
            let range = s.active_change->0.ranges[i];
            &&& range.verified
            &&& !range.source_cleaned
            &&& range.destination_node_id == node
            &&& s.runs(range.source_node_id, range.source_process_instance_id)
        }),
        forall|j: int|
            0 <= j < s.active_change->0.base_topology->0.members.len() ==> s.committed.members.contains(
                #[trigger] s.active_change->0.base_topology->0.members[j],
            ),
{
    let change = s.active_change->0;
    assert(s.still_frozen(change.ranges[i], node));
}

/// The change under way is the one that is meant, and is not over.
pub open spec fn meant(change: ChangeView, expected: IdentityView) -> bool {
    &&& change.change_id == expected.change_id
    &&& change.base_epoch == expected.base_epoch
    &&& change.target_topology.epoch == expected.target_epoch
    &&& change.phase != MigrationPhase::Complete
    &&& change.phase != MigrationPhase::Aborted
}

/// A range that went to the lost node can be had from its source.
pub open spec fn kept_at_source(s: ClusterView, range: MoveView, node: Seq<char>) -> bool {
    &&& range.destination_node_id == node
    &&& range.verified
    &&& !range.source_cleaned
    &&& range.source_process_instance_id.len() > 0
    &&& s.process_instances.contains_key(range.source_node_id)
    &&& s.process_instances[range.source_node_id] == range.source_process_instance_id
}

/// A published join whose new node is lost before it was activated is taken back exactly where
/// nothing can be lost by that: the other members are those of the older topology, and every range
/// that moved went to the lost node, was verified, and is still with its source, which runs on.
pub proof fn law_lost_joins_are_taken_back(
    s: ClusterView,
    change: ChangeView,
    expected: IdentityView,
    node: Seq<char>,
)
    requires
        s.active_change == Some(change),
    ensures
        s.recovery(expected, node) is Recover <==> {
            &&& meant(change, expected)
            &&& change.phase == MigrationPhase::Published
            &&& !change.activation_ready
            &&& change.base_topology is Some
            &&& change.base_topology->0.members.len() > 0
            &&& forall|m: MemberView| #[trigger]
                change.base_topology->0.members.contains(m) <==> s.committed.members.contains(m)
                    && m.node_id != node
            &&& forall|i: int|
                0 <= i < change.ranges.len() ==> kept_at_source(s, #[trigger] change.ranges[i], node)
        },
{
    if change.base_topology is Some {
        let now = s.committed.members;
        let before = change.base_topology->0.members;
        if lost_only(now, before, node) {
            assert forall|m: MemberView| #[trigger]
                before.contains(m) <==> now.contains(m) && m.node_id != node by {
                if before.contains(m) {
                    let i = choose|i: int| 0 <= i < before.len() && before[i] == m;
                    assert(before[i].node_id != node);
                }
                if now.contains(m) && m.node_id != node {
                    let i = choose|i: int| 0 <= i < now.len() && now[i] == m;
                    assert(before.contains(now[i]));
                }
            }
        }
        if before.len() > 0 && forall|m: MemberView| #[trigger]
            before.contains(m) <==> now.contains(m) && m.node_id != node {
            assert forall|i: int|
                0 <= i < now.len() && (#[trigger] now[i]).node_id != node implies before.contains(
                now[i],
            ) by {
                assert(now.contains(now[i]));
            }
            assert forall|i: int| 0 <= i < before.len() implies (#[trigger] before[i]).node_id
                != node && now.contains(before[i]) by {
                assert(before.contains(before[i]));
            }
            assert(lost_only(now, before, node));
        }
        if forall|i: int|
            0 <= i < change.ranges.len() ==> kept_at_source(s, #[trigger] change.ranges[i], node) {
            assert forall|i: int| 0 <= i < change.ranges.len() implies s.still_frozen(
                #[trigger] change.ranges[i],
                node,
            ) by {
                assert(kept_at_source(s, change.ranges[i], node));
            }
        }
        if s.recoverable(change.base_topology->0, change.ranges, node) {
            assert forall|i: int| 0 <= i < change.ranges.len() implies kept_at_source(
                s,
                #[trigger] change.ranges[i],
                node,
            ) by {
                assert(s.still_frozen(change.ranges[i], node));
            }
        }
    }
}

/// A change that is not published yet is taken back where the lost node is only about to join; the
/// loss of any node is ignored where another change, or none, is under way. In all other cases
/// that are not taken back the change is blocked, and the reason names the node.
pub proof fn law_other_losses_abort_or_block(
    s: ClusterView,
    change: ChangeView,
    expected: IdentityView,
    node: Seq<char>,
)
    requires
        s.active_change == Some(change),
    ensures
        s.recovery(expected, node) is Ignore <==> !meant(change, expected),
        s.recovery(expected, node) is Abort <==> {
            &&& meant(change, expected)
            &&& !change.activation_ready
            &&& change.phase != MigrationPhase::Published
            &&& change.phase != MigrationPhase::Aborting
            &&& change.phase != MigrationPhase::CleaningUp
            &&& change.base_topology is Some
            &&& forall|i: int|
                0 <= i < change.base_topology->0.members.len() ==> (
                #[trigger] change.base_topology->0.members[i]).node_id != node
        },
        s.recovery(expected, node) matches RecoveryView::Block(reason) ==> exists|
            before: Seq<char>,
            after: Seq<char>,
        | reason == #[trigger] (before + node + after),
{
    match s.recovery(expected, node) {
        RecoveryView::Block(reason) => {
            let before = "confirmed unavailable node "@;
            let one = " during "@ + phase_name(change.phase)
                + "; automatic recovery requires a published, unactivated pure join"@;
            let two = "; original topology is unavailable for recovery"@;
            let three = "; surviving original owners cannot prove complete frozen-range coverage"@;
            assert(reason =~= before + node + one || reason =~= before + node + two || reason
                =~= before + node + three);
        },
        _ => {},
    }
}

/// Without a change under way the loss of a node is no matter of recovery.
pub proof fn law_losses_without_a_change_are_ignored(
    s: ClusterView,
    expected: IdentityView,
    node: Seq<char>,
)
    requires
        s.active_change is None,
    ensures
        s.recovery(expected, node) is Ignore,
{
}

/// A change that is taken back leaves the older members in charge, under a fence against the lost
/// node, which no process speaks for any more, and with every copy still to be made; what was under
/// way is remembered.
pub proof fn law_recoveries_fence_the_lost_node(s: ClusterView, recovery: ChangeView, node: Seq<char>)
    ensures
        ({
            let next = s.taken_back(recovery, node);
            &&& next.committed == recovery.target_topology
            &&& next.active_change == Some(recovery)
            &&& next.superseded_change == s.active_change
            &&& next.fenced_nodes.contains(node)
            &&& !next.process_instances.contains_key(node)
            &&& next.replica_admissions.len() == 0
            &&& next.replica_repairs.len() == 0
            &&& next.recovery_block_reason.len() == 0
            &&& next.stop_confirmations == s.stop_confirmations
            &&& forall|other: Seq<char>|
                other != node ==> (#[trigger] next.fenced_nodes.contains(other)
                    == s.fenced_nodes.contains(other))
            &&& forall|other: Seq<char>|
                other != node ==> (#[trigger] next.process_instances.contains_key(other)
                    == s.process_instances.contains_key(other)) && (
                next.process_instances.contains_key(other) ==> next.process_instances[other]
                    == s.process_instances[other])
        }),
{
}

} // verus!
