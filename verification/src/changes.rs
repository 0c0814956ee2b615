//! How a change of topology under way is written down step by step.
use crate::cluster::{repository_error_text, ClusterState, ClusterView, RepositoryError};
use crate::errors::{refusal, Code, Status, StatusView};
use crate::migration::{ChangeView, MigrationPhase, MoveView, RangeMigration, TopologyChange};
use crate::names::{drop_text, list_text, listed, without};
use crate::ordmap::shown;
use crate::restore::{confirm_stop, with_confirmation};
use crate::text::same_text;
use crate::views::{opt, views};
use vstd::prelude::*;

verus! {

/// What tells one change of topology from another.
#[derive(Debug, Eq, PartialEq)]
pub struct ChangeIdentity {
    pub change_id: String,
    pub base_epoch: u64,
    pub target_epoch: u64,
}

#[verifier::ext_equal]
pub struct IdentityView {
    pub change_id: Seq<char>,
    pub base_epoch: u64,
    pub target_epoch: u64,
}

impl View for ChangeIdentity {
    type V = IdentityView;

    open spec fn view(&self) -> IdentityView {
        IdentityView {
            change_id: self.change_id@,
            base_epoch: self.base_epoch,
            target_epoch: self.target_epoch,
        }
    }
}

impl ChangeIdentity {
    pub fn same(&self, other: &ChangeIdentity) -> (r: bool)
        ensures
            r == (self@ == other@),
    {
        same_text(self.change_id.as_str(), other.change_id.as_str()) && self.base_epoch
            == other.base_epoch && self.target_epoch == other.target_epoch
    }
}

impl ChangeView {
    pub open spec fn identity(self) -> IdentityView {
        IdentityView {
            change_id: self.change_id,
            base_epoch: self.base_epoch,
            target_epoch: self.target_topology.epoch,
        }
    }
}

/// What tells a change of topology from others.
pub fn change_identity(change: &TopologyChange) -> (r: ChangeIdentity)
    ensures
        r@ == change@.identity(),
{
    ChangeIdentity {
        change_id: change.change_id.clone(),
        base_epoch: change.base_epoch,
        target_epoch: change.target_topology.epoch,
    }
}

/// A refusal of what a repository refuses.
pub fn storage_status(error: &RepositoryError) -> (r: Status)
    ensures
        r@ == refusal(Code::Internal, repository_error_text(*error)),
{
    Status { code: Code::Internal, message: error.message() }
}

/// An outcome as its view.
pub open spec fn next_view(r: Result<ClusterState, Status>) -> Result<ClusterView, StatusView> {
    match r {
        Ok(next) => Ok(next@),
        Err(status) => Err(status@),
    }
}

/// What is said where no change is under way.
pub open spec fn disappeared() -> StatusView {
    refusal(Code::Internal, "active change disappeared"@)
}

/// Finds a range of a change by its id.
pub open spec fn range_index(ranges: Seq<MoveView>, id: Seq<char>, i: nat) -> Option<nat>
    decreases ranges.len() - i,
{
    if i >= ranges.len() {
        None
    } else if ranges[i as int].range_id == id {
        Some(i)
    } else {
        range_index(ranges, id, i + 1)
    }
}

/// The ranges of a change with newer progress of one of them.
pub open spec fn progressed(ranges: Seq<MoveView>, progress: MoveView) -> Seq<MoveView> {
    match range_index(ranges, progress.range_id, 0) {
        Some(i) => ranges.update(i as int, progress),
        None => ranges,
    }
}

/// A range whose migration begins anew.
pub open spec fn rewound(r: MoveView) -> MoveView {
    MoveView {
        source_process_instance_id: Seq::empty(),
        destination_process_instance_id: Seq::empty(),
        source_cleaned: false,
        snapshot_records: 0,
        changelog_watermark: 0,
        verified: false,
        ..r
    }
}

/// Ranges whose migration begins anew.
pub open spec fn all_rewound(ranges: Seq<MoveView>) -> Seq<MoveView> {
    Seq::new(ranges.len(), |i: int| rewound(ranges[i]))
}

impl ClusterView {
    /// The change under way is this one.
    pub open spec fn runs_change(self, identity: IdentityView) -> bool {
        self.active_change is Some && self.active_change->0.identity() == identity
    }

    pub open spec fn with_change(self, change: ChangeView) -> ClusterView {
        ClusterView { active_change: Some(change), ..self }
    }

    /// The change under way has come to a phase.
    pub open spec fn in_phase(self, phase: MigrationPhase) -> Result<ClusterView, StatusView> {
        match self.active_change {
            None => Err(disappeared()),
            Some(change) => Ok(
                ClusterView {
                    active_change: Some(ChangeView { phase: phase, ..change }),
                    recovery_block_reason: if phase.terminal() {
                        Seq::empty()
                    } else {
                        self.recovery_block_reason
                    },
                    ..self
                },
            ),
        }
    }

    /// Every member may take leases under a published change.
    pub open spec fn activated(self) -> Result<ClusterView, StatusView> {
        match self.active_change {
            None => Err(refusal(Code::FailedPrecondition, "no topology change is active"@)),
            Some(change) => if change.phase != MigrationPhase::Published {
                Err(
                    refusal(
                        Code::FailedPrecondition,
                        "topology is not waiting for owner activation"@,
                    ),
                )
            } else {
                Ok(
                    ClusterView {
                        active_change: Some(ChangeView { activation_ready: true, ..change }),
                        recovery_block_reason: Seq::empty(),
                        ..self
                    },
                )
            },
        }
    }

    /// A removed node has stopped.
    pub open spec fn with_stopped(self, node: Seq<char>) -> Result<ClusterView, StatusView> {
        match self.active_change {
            None => Err(disappeared()),
            Some(change) => Ok(
                ClusterView {
                    active_change: Some(
                        ChangeView {
                            stopping_node_ids: without(change.stopping_node_ids, node),
                            stop_prepared_node_ids: without(change.stop_prepared_node_ids, node),
                            stopped_node_ids: listed(change.stopped_node_ids, node),
                            ..change
                        },
                    ),
                    process_instances: self.process_instances.remove(node),
                    ..self
                },
            ),
        }
    }

    /// A removed node is being stopped.
    pub open spec fn with_stopping(self, node: Seq<char>) -> Result<ClusterView, StatusView> {
        match self.active_change {
            None => Err(disappeared()),
            Some(change) => Ok(
                self.with_change(
                    ChangeView { stopping_node_ids: listed(change.stopping_node_ids, node), ..change },
                ),
            ),
        }
    }

    /// A process of a removed node may stop.
    pub open spec fn with_stop_prepared(self, node: Seq<char>, instance: Seq<char>) -> Result<
        ClusterView,
        StatusView,
    > {
        match self.active_change {
            None => Err(disappeared()),
            Some(change) => Ok(
                ClusterView {
                    active_change: Some(
                        ChangeView {
                            stopping_node_ids: without(change.stopping_node_ids, node),
                            stop_prepared_node_ids: listed(change.stop_prepared_node_ids, node),
                            ..change
                        },
                    ),
                    stop_confirmations: with_confirmation(self.stop_confirmations, node, instance),
                    ..self
                },
            ),
        }
    }

    /// A range of the change under way has come further.
    pub open spec fn with_progress(self, progress: MoveView) -> Result<ClusterView, StatusView> {
        if self.active_change is None || range_index(
            self.active_change->0.ranges,
            progress.range_id,
            0,
        ) is None {
            Err(refusal(Code::Internal, "migration range disappeared"@))
        } else {
            Ok(
                self.with_change(
                    ChangeView {
                        ranges: progressed(self.active_change->0.ranges, progress),
                        ..self.active_change->0
                    },
                ),
            )
        }
    }

    /// The change under way begins anew.
    pub open spec fn restarted(self) -> Result<ClusterView, StatusView> {
        match self.active_change {
            None => Err(disappeared()),
            Some(change) => Ok(
                self.with_change(
                    ChangeView {
                        ranges: all_rewound(change.ranges),
                        phase: MigrationPhase::CopyingSnapshot,
                        ..change
                    },
                ),
            ),
        }
    }
}

fn find_range(ranges: &Vec<RangeMigration>, id: &str) -> (r: Option<usize>)
    ensures
        match r {
            Some(i) => i < ranges@.len() && range_index(views(ranges@), id@, 0) == Some(i as nat),
            None => range_index(views(ranges@), id@, 0) is None,
        },
{
    let ghost s = views(ranges@);
    let mut i: usize = 0;
    while i < ranges.len()
        invariant
            s == views(ranges@),
            i <= ranges@.len(),
            range_index(s, id@, 0) == range_index(s, id@, i as nat),
        decreases ranges.len() - i,
    {
        proof {
            assert(s[i as int] == ranges@[i as int]@);
        }
        if same_text(ranges[i].range_id.as_str(), id) {
            return Some(i);
        }
        i = i + 1;
    }
    None
}

/// Takes over the progress of a range.
pub fn replace_range_progress(change: &mut TopologyChange, progress: RangeMigration)
    ensures
        final(change)@ == (ChangeView {
            ranges: progressed(old(change)@.ranges, progress@),
            ..old(change)@
        }),
{
    let ghost before = change@;
    if let Some(i) = find_range(&change.ranges, progress.range_id.as_str()) {
        let ghost p = progress@;
        change.ranges.set(i, progress);
        proof {
            assert(views(change.ranges@) =~= before.ranges.update(i as int, p));
        }
    }
    proof {
        assert(change@ =~= ChangeView {
            ranges: progressed(before.ranges, progress@),
            ..before
        });
    }
}

fn rewind_ranges(ranges: &Vec<RangeMigration>) -> (r: Vec<RangeMigration>)
    ensures
        views(r@) == all_rewound(views(ranges@)),
{
    let ghost s = views(ranges@);
    let mut r: Vec<RangeMigration> = Vec::new();
    let mut i: usize = 0;
    while i < ranges.len()
        invariant
            s == views(ranges@),
            i <= ranges@.len(),
            r@.len() == i,
            forall|j: int| 0 <= j < i ==> (#[trigger] r@[j])@ == rewound(s[j]),
        decreases ranges.len() - i,
    {
        let mut range = ranges[i].clone();
        range.source_process_instance_id = String::new();
        range.destination_process_instance_id = String::new();
        range.source_cleaned = false;
        range.snapshot_records = 0;
        range.changelog_watermark = 0;
        range.verified = false;
        proof {
            assert(s[i as int] == ranges@[i as int]@);
            assert(range@ =~= rewound(s[i as int]));
        }
        r.push(range);
        i = i + 1;
    }
    proof {
        assert(views(r@) =~= all_rewound(s));
    }
    r
}

impl ClusterState {
    fn begin_update(&self) -> (r: Result<(ClusterState, TopologyChange), Status>)
        ensures
            match r {
                Ok((next, change)) => next@ == self@ && self@.active_change == Some(change@),
                Err(status) => self@.active_change is None && status@ == disappeared(),
            },
    {
        match &self.active_change {
            Some(change) => Ok((self.clone(), change.clone())),
            None => Err(Status::new(Code::Internal, "active change disappeared")),
        }
    }

    /// Tells whether the change under way is this one.
    pub fn runs_change(&self, identity: &ChangeIdentity) -> (r: bool)
        ensures
            r == self@.runs_change(identity@),
    {
        match &self.active_change {
            Some(active) => change_identity(active).same(identity),
            None => false,
        }
    }

    /// Notes that the change under way has come to a phase.
    pub fn set_phase(&self, phase: MigrationPhase) -> (r: Result<ClusterState, Status>)
        ensures
            next_view(r) == self@.in_phase(phase),
    {
        let (mut next, mut change) = match self.begin_update() {
            Ok(pair) => pair,
            Err(status) => return Err(status),
        };
        change.phase = phase;
        next.active_change = Some(change);
        if phase.is_terminal() {
            next.recovery_block_reason = String::new();
        }
        proof {
            assert(next@ =~= self@.in_phase(phase)->Ok_0);
        }
        Ok(next)
    }

    /// Notes that every member may take leases under a published change.
    pub fn set_activation_ready(&self) -> (r: Result<ClusterState, Status>)
        ensures
            next_view(r) == self@.activated(),
    {
        let (mut next, mut change) = match self.begin_update() {
            Ok(pair) => pair,
            Err(_) => return Err(
                Status::new(Code::FailedPrecondition, "no topology change is active"),
            ),
        };
        if change.phase != MigrationPhase::Published {
            return Err(
                Status::new(
                    Code::FailedPrecondition,
                    "topology is not waiting for owner activation",
                ),
            );
        }
        change.activation_ready = true;
        next.active_change = Some(change);
        next.recovery_block_reason = String::new();
        proof {
            assert(next@ =~= self@.activated()->Ok_0);
        }
        Ok(next)
    }

    /// Notes why a recovery waits, if the reason is new.
    pub fn set_recovery_block_reason(&self, reason: String) -> (r: Option<ClusterState>)
        ensures
            opt(r) == if self@.recovery_block_reason == reason@ {
                None
            } else {
                Some(ClusterView { recovery_block_reason: reason@, ..self@ })
            },
    {
        if same_text(self.recovery_block_reason.as_str(), reason.as_str()) {
            return None;
        }
        let mut next = self.clone();
        let ghost said = reason@;
        next.recovery_block_reason = reason;
        proof {
            assert(next@ =~= ClusterView { recovery_block_reason: said, ..self@ });
        }
        Some(next)
    }

    /// Notes that a removed node has stopped.
    pub fn store_stopped_node(&self, node_id: &String) -> (r: Result<ClusterState, Status>)
        ensures
            next_view(r) == self@.with_stopped(node_id@),
    {
        let (mut next, mut change) = match self.begin_update() {
            Ok(pair) => pair,
            Err(status) => return Err(status),
        };
        change.stopping_node_ids = drop_text(&change.stopping_node_ids, node_id.as_str());
        change.stop_prepared_node_ids = drop_text(&change.stop_prepared_node_ids, node_id.as_str());
        let _ = list_text(&mut change.stopped_node_ids, node_id);
        next.active_change = Some(change);
        let _ = next.process_instances.remove(node_id);
        proof {
            assert(shown(next.process_instances) =~= self@.process_instances.remove(node_id@));
            assert(next@ =~= self@.with_stopped(node_id@)->Ok_0);
        }
        Ok(next)
    }

    /// Notes that a removed node is being stopped.
    pub fn store_stopping_node(&self, node_id: &String) -> (r: Result<ClusterState, Status>)
        ensures
            next_view(r) == self@.with_stopping(node_id@),
    {
        let (mut next, mut change) = match self.begin_update() {
            Ok(pair) => pair,
            Err(status) => return Err(status),
        };
        let _ = list_text(&mut change.stopping_node_ids, node_id);
        next.active_change = Some(change);
        proof {
            assert(next@ =~= self@.with_stopping(node_id@)->Ok_0);
        }
        Ok(next)
    }

    /// Notes that a process of a removed node may stop.
    pub fn store_stop_prepared_node(&self, node_id: &String, instance: &String) -> (r: Result<
        ClusterState,
        Status,
    >)
        ensures
            next_view(r) == self@.with_stop_prepared(node_id@, instance@),
    {
        let (mut next, mut change) = match self.begin_update() {
            Ok(pair) => pair,
            Err(status) => return Err(status),
        };
        change.stopping_node_ids = drop_text(&change.stopping_node_ids, node_id.as_str());
        let _ = list_text(&mut change.stop_prepared_node_ids, node_id);
        next.active_change = Some(change);
        confirm_stop(&mut next.stop_confirmations, node_id, instance);
        proof {
            assert(next@ =~= self@.with_stop_prepared(node_id@, instance@)->Ok_0);
        }
        Ok(next)
    }

    /// Notes how far the migration of a range has come.
    pub fn store_range_progress(&self, progress: &RangeMigration) -> (r: Result<
        ClusterState,
        Status,
    >)
        ensures
            next_view(r) == self@.with_progress(progress@),
    {
        let (mut next, mut change) = match self.begin_update() {
            Ok(pair) => pair,
            Err(_) => return Err(Status::new(Code::Internal, "migration range disappeared")),
        };
        if find_range(&change.ranges, progress.range_id.as_str()).is_none() {
            return Err(Status::new(Code::Internal, "migration range disappeared"));
        }
        replace_range_progress(&mut change, progress.clone());
        next.active_change = Some(change);
        proof {
            assert(next@ =~= self@.with_progress(progress@)->Ok_0);
        }
        Ok(next)
    }

    /// Begins the change under way anew.
    pub fn reset_prepublication_attempt(&self) -> (r: Result<ClusterState, Status>)
        ensures
            next_view(r) == self@.restarted(),
    {
        let (mut next, mut change) = match self.begin_update() {
            Ok(pair) => pair,
            Err(status) => return Err(status),
        };
        change.ranges = rewind_ranges(&change.ranges);
        change.phase = MigrationPhase::CopyingSnapshot;
        next.active_change = Some(change);
        proof {
            assert(next@ =~= self@.restarted()->Ok_0);
        }
        Ok(next)
    }
}

/// A change that has ended blocks no recovery.
pub proof fn law_ended_changes_block_nothing(s: ClusterView, phase: MigrationPhase)
    requires
        phase.terminal(),
        s.active_change is Some,
    ensures
        s.in_phase(phase) is Ok,
        s.in_phase(phase)->Ok_0.recovery_block_reason.len() == 0,
        s.in_phase(phase)->Ok_0.committed == s.committed,
{
}

} // verus!
