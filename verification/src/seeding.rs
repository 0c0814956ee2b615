//! Giving a follower its copies: what is checked on the way, and in which order it goes.
use crate::cluster::{ClusterState, ClusterView, RepairView, ReplicaAdmission, ReplicaRepair};
use crate::coverage::ranges_of;
use crate::errors::{refusal, refused, Code, Status, StatusView};
use crate::migration::{ChangeView, MigrationPhase, MoveView, RangeMigration, TopologyChange};
use crate::node_checkpoint::RangeControl;
use crate::repairs::{repair_name, replica_repair_control, PreparedReplicaSeed, SeedView};
use crate::ring::{tokens_sorted, RangeView};
use crate::sets::SortedSet;
use crate::text::{list_has, same_text};
use crate::topology::{range_views, DerivedRange};
use crate::views::{opt, views};
use vstd::prelude::*;

verus! {

/// The intervals of the first `n` ranges that one node owns and another follows.
pub open spec fn followed_intervals(
    ranges: Seq<RangeView>,
    owner: Seq<char>,
    node: Seq<char>,
    n: nat,
) -> Set<(u64, u64)>
    decreases n,
{
    if n == 0 {
        Set::empty()
    } else {
        let rest = followed_intervals(ranges, owner, node, (n - 1) as nat);
        if ranges[n - 1].owner_node_id == owner && ranges[n - 1].follower_node_ids.contains(node) {
            rest.insert((ranges[n - 1].start_exclusive, ranges[n - 1].end_inclusive))
        } else {
            rest
        }
    }
}

/// The intervals of the first `n` tasks.
pub open spec fn task_intervals(tasks: Seq<RepairView>, n: nat) -> Set<(u64, u64)>
    decreases n,
{
    if n == 0 {
        Set::empty()
    } else {
        task_intervals(tasks, (n - 1) as nat).insert(
            (tasks[n - 1].start_exclusive, tasks[n - 1].end_inclusive),
        )
    }
}

/// All tasks are of one stream in one epoch.
pub open spec fn one_stream(tasks: Seq<RepairView>) -> bool {
    forall|i: int|
        0 <= i < tasks.len() ==> (#[trigger] tasks[i]).epoch == tasks[0].epoch
            && tasks[i].owner_node_id == tasks[0].owner_node_id && tasks[i].node_id
            == tasks[0].node_id
}

impl ClusterView {
    /// Why a group of repairs cannot be run, if it cannot.
    pub open spec fn group_fault(self, tasks: Seq<RepairView>) -> Option<StatusView> {
        let ranges = self.committed.ranges();
        let owner = tasks[0].owner_node_id;
        let node = tasks[0].node_id;
        let expected = followed_intervals(ranges, owner, node, ranges.len());
        if tasks.len() == 0 {
            Some(refusal(Code::InvalidArgument, "empty repair group"@))
        } else if self.committed.epoch != tasks[0].epoch {
            Some(refusal(Code::FailedPrecondition, "repair stream epoch is stale"@))
        } else if self.committed.range_fault() is Some {
            self.committed.range_fault()
        } else if expected == Set::<(u64, u64)>::empty() || expected != task_intervals(
            tasks,
            tasks.len(),
        ) || !one_stream(tasks) {
            Some(
                refusal(
                    Code::FailedPrecondition,
                    "repair group does not cover its full stream"@,
                ),
            )
        } else if !self.committed.is_member(owner) {
            Some(refusal(Code::Internal, "repair owner is absent"@))
        } else if !self.committed.is_member(node) {
            Some(refusal(Code::Internal, "repair follower is absent"@))
        } else {
            None
        }
    }
}

/// The two ends of a stream that is repaired.
pub struct StreamEnds {
    pub owner_endpoint: String,
    pub follower_endpoint: String,
    pub owner_instance: Option<String>,
    pub follower_instance: Option<String>,
}

impl ClusterView {
    /// The process that a node runs, if it is registered.
    pub open spec fn instance_of(self, node: Seq<char>) -> Option<Seq<char>> {
        if self.process_instances.contains_key(node) {
            Some(self.process_instances[node])
        } else {
            None
        }
    }

    /// Where a member is reached.
    #[verifier::opaque]
    pub open spec fn endpoint_of(self, node: Seq<char>) -> Seq<char> {
        self.committed.members[crate::topology::first_member(
            self.committed.members,
            node,
        )].endpoint
    }
}

fn expected_intervals(ranges: &Vec<DerivedRange>, owner: &String, node: &String) -> (r: SortedSet<
    (u64, u64),
>)
    ensures
        r@ == followed_intervals(range_views(ranges@), owner@, node@, ranges@.len()),
{
    let ghost s = range_views(ranges@);
    let mut r: SortedSet<(u64, u64)> = SortedSet::new();
    let mut i: usize = 0;
    while i < ranges.len()
        invariant
            s == range_views(ranges@),
            i <= ranges@.len(),
            r@ == followed_intervals(s, owner@, node@, i as nat),
        decreases ranges.len() - i,
    {
        let range = &ranges[i];
        proof {
            assert(s[i as int] == range@);
        }
        if same_text(range.owner_node_id.as_str(), owner.as_str()) && list_has(
            &range.follower_node_ids,
            node.as_str(),
        ) {
            let _ = r.insert((range.start_exclusive, range.end_inclusive));
        }
        i = i + 1;
    }
    r
}

fn actual_intervals(tasks: &Vec<ReplicaRepair>) -> (r: SortedSet<(u64, u64)>)
    ensures
        r@ == task_intervals(views(tasks@), tasks@.len()),
{
    let ghost s = views(tasks@);
    let mut r: SortedSet<(u64, u64)> = SortedSet::new();
    let mut i: usize = 0;
    while i < tasks.len()
        invariant
            s == views(tasks@),
            i <= tasks@.len(),
            r@ == task_intervals(s, i as nat),
        decreases tasks.len() - i,
    {
        proof {
            assert(s[i as int] == tasks@[i as int]@);
        }
        let _ = r.insert((tasks[i].start_exclusive, tasks[i].end_inclusive));
        i = i + 1;
    }
    r
}

fn is_one_stream(tasks: &Vec<ReplicaRepair>) -> (r: bool)
    requires
        tasks@.len() > 0,
    ensures
        r == one_stream(views(tasks@)),
{
    let ghost s = views(tasks@);
    let first = &tasks[0];
    let mut i: usize = 0;
    while i < tasks.len()
        invariant
            s == views(tasks@),
            tasks@.len() > 0,
            s[0] == first@,
            i <= tasks@.len(),
            forall|j: int|
                0 <= j < i ==> (#[trigger] s[j]).epoch == s[0].epoch && s[j].owner_node_id
                    == s[0].owner_node_id && s[j].node_id == s[0].node_id,
        decreases tasks.len() - i,
    {
        let task = &tasks[i];
        proof {
            assert(s[i as int] == task@);
        }
        if task.epoch != first.epoch || !same_text(
            task.owner_node_id.as_str(),
            first.owner_node_id.as_str(),
        ) || !same_text(task.node_id.as_str(), first.node_id.as_str()) {
            return false;
        }
        i = i + 1;
    }
    true
}

impl ClusterState {
    fn copy_instance(&self, node: &String) -> (r: Option<String>)
        ensures
            opt(r) == self@.instance_of(node@),
    {
        match self.process_instances.get(node) {
            Some(instance) => Some(instance.clone()),
            None => None,
        }
    }

    fn find_endpoint(&self, node: &String) -> (r: Option<String>)
        ensures
            r is Some == self@.committed.is_member(node@),
            r matches Some(endpoint) ==> endpoint@ == self@.endpoint_of(node@),
    {
        proof {
            reveal(ClusterView::endpoint_of);
        }
        match self.committed.member(node.as_str()) {
            Some(member) => {
                proof {
                    crate::migration::lemma_member_bounds(self@.committed, node@);
                    let i = crate::topology::first_member(self@.committed.members, node@);
                    assert(self@.committed.members[i] == member@);
                }
                Some(member.endpoint.clone())
            },
            None => None,
        }
    }

    /// Checks a group of repairs, and tells where the ends of its stream are.
    pub fn check_repair_group(&self, tasks: &Vec<ReplicaRepair>) -> (r: Result<StreamEnds, Status>)
        requires
            tokens_sorted(self@.committed.assignments),
        ensures
            refused(r) == self@.group_fault(views(tasks@)),
            r matches Ok(ends) ==> {
                &&& ends.owner_endpoint@ == self@.endpoint_of(tasks@[0].owner_node_id@)
                &&& ends.follower_endpoint@ == self@.endpoint_of(tasks@[0].node_id@)
                &&& opt(ends.owner_instance) == self@.instance_of(tasks@[0].owner_node_id@)
                &&& opt(ends.follower_instance) == self@.instance_of(tasks@[0].node_id@)
            },
    {
        proof {
            assert(views(tasks@).len() == tasks@.len());
        }
        if tasks.len() == 0 {
            return Err(Status::new(Code::InvalidArgument, "empty repair group"));
        }
        let first = &tasks[0];
        proof {
            assert(views(tasks@)[0] == first@);
        }
        if self.committed.epoch != first.epoch {
            return Err(Status::new(Code::FailedPrecondition, "repair stream epoch is stale"));
        }
        let ranges = match ranges_of(&self.committed) {
            Ok(ranges) => ranges,
            Err(status) => return Err(status),
        };
        let expected = expected_intervals(&ranges, &first.owner_node_id, &first.node_id);
        let actual = actual_intervals(tasks);
        let none: SortedSet<(u64, u64)> = SortedSet::new();
        if expected.same(&none) || !expected.same(&actual) || !is_one_stream(tasks) {
            return Err(
                Status::new(
                    Code::FailedPrecondition,
                    "repair group does not cover its full stream",
                ),
            );
        }
        let owner_endpoint = match self.find_endpoint(&first.owner_node_id) {
            Some(endpoint) => endpoint,
            None => return Err(Status::new(Code::Internal, "repair owner is absent")),
        };
        let follower_endpoint = match self.find_endpoint(&first.node_id) {
            Some(endpoint) => endpoint,
            None => return Err(Status::new(Code::Internal, "repair follower is absent")),
        };
        Ok(
            StreamEnds {
                owner_endpoint: owner_endpoint,
                follower_endpoint: follower_endpoint,
                owner_instance: self.copy_instance(&first.owner_node_id),
                follower_instance: self.copy_instance(&first.node_id),
            },
        )
    }
}

/// How a copy is made: as a migration of one range under a name of its own.
pub struct CopyPlan {
    pub change: TopologyChange,
    pub range: RangeMigration,
    pub control: RangeControl,
    pub owner_instance: String,
    pub follower_instance: String,
}

impl ClusterView {
    /// Why a copy cannot be made, if it cannot.
    pub open spec fn copy_fault(self, task: RepairView) -> Option<StatusView> {
        if self.committed.epoch != task.epoch {
            Some(refusal(Code::FailedPrecondition, "replica task epoch is stale"@))
        } else if !self.process_instances.contains_key(task.owner_node_id) {
            Some(refusal(Code::Unavailable, "owner process is not registered"@))
        } else if !self.process_instances.contains_key(task.node_id) {
            Some(refusal(Code::Unavailable, "follower process is not registered"@))
        } else if !self.committed.is_member(task.owner_node_id) {
            Some(refusal(Code::Internal, "repair owner is absent from topology"@))
        } else if !self.committed.is_member(task.node_id) {
            Some(refusal(Code::Internal, "repair follower is absent from topology"@))
        } else {
            None
        }
    }

    /// The range that a copy moves.
    pub open spec fn copied_range(self, task: RepairView) -> MoveView {
        MoveView {
            range_id: repair_name(task),
            start_exclusive: task.start_exclusive,
            end_inclusive: task.end_inclusive,
            source_node_id: task.owner_node_id,
            destination_node_id: task.node_id,
            source_endpoint: self.endpoint_of(task.owner_node_id),
            destination_endpoint: self.endpoint_of(task.node_id),
            source_process_instance_id: Seq::empty(),
            destination_process_instance_id: Seq::empty(),
            source_cleaned: false,
            snapshot_records: 0,
            changelog_watermark: 0,
            verified: false,
        }
    }

    /// The change under which a copy moves.
    pub open spec fn copying_change(self, task: RepairView) -> ChangeView {
        ChangeView {
            change_id: repair_name(task),
            base_epoch: task.epoch,
            base_topology: None,
            supersedes_change_id: None,
            target_topology: self.committed,
            phase: MigrationPhase::CopyingSnapshot,
            ranges: Seq::empty(),
            replica_obligations: Seq::empty(),
            stopped_node_ids: Seq::empty(),
            stopping_node_ids: Seq::empty(),
            stop_prepared_node_ids: Seq::empty(),
            failed_node_id: None,
            activation_ready: false,
            direct_merge: false,
        }
    }
}

impl ClusterState {
    /// Plans how a copy is made.
    pub fn copy_replica(&self, task: &ReplicaRepair) -> (r: Result<CopyPlan, Status>)
        ensures
            refused(r) == self@.copy_fault(task@),
            r matches Ok(plan) ==> {
                &&& plan.change@ == self@.copying_change(task@)
                &&& plan.range@ == self@.copied_range(task@)
                &&& plan.control@ == (repair_name(task@), repair_name(task@))
                &&& self@.runs(task.owner_node_id@, plan.owner_instance@)
                &&& self@.runs(task.node_id@, plan.follower_instance@)
            },
    {
        if self.committed.epoch != task.epoch {
            return Err(Status::new(Code::FailedPrecondition, "replica task epoch is stale"));
        }
        let owner_instance = match self.process_instances.get(&task.owner_node_id) {
            Some(instance) => instance.clone(),
            None => return Err(Status::new(Code::Unavailable, "owner process is not registered")),
        };
        let follower_instance = match self.process_instances.get(&task.node_id) {
            Some(instance) => instance.clone(),
            None => return Err(
                Status::new(Code::Unavailable, "follower process is not registered"),
            ),
        };
        let source_endpoint = match self.find_endpoint(&task.owner_node_id) {
            Some(endpoint) => endpoint,
            None => return Err(
                Status::new(Code::Internal, "repair owner is absent from topology"),
            ),
        };
        let destination_endpoint = match self.find_endpoint(&task.node_id) {
            Some(endpoint) => endpoint,
            None => return Err(
                Status::new(Code::Internal, "repair follower is absent from topology"),
            ),
        };
        let control = replica_repair_control(task);
        let range = RangeMigration {
            range_id: control.range_id.clone(),
            start_exclusive: task.start_exclusive,
            end_inclusive: task.end_inclusive,
            source_node_id: task.owner_node_id.clone(),
            destination_node_id: task.node_id.clone(),
            source_endpoint: source_endpoint,
            destination_endpoint: destination_endpoint,
            source_process_instance_id: String::new(),
            destination_process_instance_id: String::new(),
            source_cleaned: false,
            snapshot_records: 0,
            changelog_watermark: 0,
            verified: false,
        };
        let change = TopologyChange {
            change_id: control.change_id.clone(),
            base_epoch: task.epoch,
            base_topology: None,
            supersedes_change_id: None,
            target_topology: self.committed.clone(),
            phase: MigrationPhase::CopyingSnapshot,
            ranges: Vec::new(),
            replica_obligations: Vec::new(),
            stopped_node_ids: Vec::new(),
            stopping_node_ids: Vec::new(),
            stop_prepared_node_ids: Vec::new(),
            failed_node_id: None,
            activation_ready: false,
            direct_merge: false,
        };
        proof {
            assert(range@ =~= self@.copied_range(task@));
            assert(change@ =~= self@.copying_change(task@));
        }
        Ok(
            CopyPlan {
                change: change,
                range: range,
                control: control,
                owner_instance: owner_instance,
                follower_instance: follower_instance,
            },
        )
    }
}

impl CopyPlan {
    /// Checks that a copy was made between the processes that it was planned for.
    pub fn check_copied(&self, copied: &RangeMigration) -> (r: Result<(), Status>)
        ensures
            r is Ok == (copied.source_process_instance_id@ == self.owner_instance@
                && copied.destination_process_instance_id@ == self.follower_instance@),
            r matches Err(status) ==> status@ == refusal(
                Code::FailedPrecondition,
                "replica process changed during snapshot"@,
            ),
    {
        if same_text(copied.source_process_instance_id.as_str(), self.owner_instance.as_str())
            && same_text(
            copied.destination_process_instance_id.as_str(),
            self.follower_instance.as_str(),
        ) {
            Ok(())
        } else {
            Err(Status::new(Code::FailedPrecondition, "replica process changed during snapshot"))
        }
    }
}

/// The admission that a verified copy earns, before its place in the stream is known.
pub fn finish_replica(
    task: &ReplicaRepair,
    follower_instance: &String,
    verified_watermark: u64,
    digest: &String,
) -> (r: PreparedReplicaSeed)
    ensures
        r.task@ == task@,
        r.control@ == (repair_name(task@), repair_name(task@)),
        r.admission@ == (crate::cluster::AdmissionView {
            epoch: task.epoch,
            start_exclusive: task.start_exclusive,
            end_inclusive: task.end_inclusive,
            owner_node_id: task.owner_node_id@,
            node_id: task.node_id@,
            process_instance_id: follower_instance@,
            verified_watermark: verified_watermark,
            stream_cursor: 0,
            digest: digest@,
        }),
{
    PreparedReplicaSeed {
        task: task.clone(),
        control: replica_repair_control(task),
        admission: ReplicaAdmission {
            epoch: task.epoch,
            start_exclusive: task.start_exclusive,
            end_inclusive: task.end_inclusive,
            owner_node_id: task.owner_node_id.clone(),
            node_id: task.node_id.clone(),
            process_instance_id: follower_instance.clone(),
            verified_watermark: verified_watermark,
            stream_cursor: 0,
            digest: digest.clone(),
        },
    }
}

impl StreamEnds {
    /// Checks that the owner that tells the head of its stream is the one that was copied from.
    pub fn check_head(&self, process_instance_id: &String) -> (r: Result<(), Status>)
        ensures
            r is Ok == (opt(self.owner_instance) == Some(process_instance_id@)),
            r matches Err(status) ==> status@ == refusal(
                Code::FailedPrecondition,
                "owner process changed before checkpoint"@,
            ),
    {
        let same = match &self.owner_instance {
            Some(instance) => same_text(instance.as_str(), process_instance_id.as_str()),
            None => false,
        };
        if same {
            Ok(())
        } else {
            Err(Status::new(Code::FailedPrecondition, "owner process changed before checkpoint"))
        }
    }

    /// Checks that the follower that took a checkpoint is the one that was copied to, and that
    /// it is not behind it.
    pub fn check_checkpoint(&self, process_instance_id: &String, sequence: u64, head: u64) -> (r:
        Result<(), Status>)
        ensures
            r is Ok == (opt(self.follower_instance) == Some(process_instance_id@) && sequence
                >= head),
            r matches Err(status) ==> status@ == refusal(
                Code::FailedPrecondition,
                "follower process changed before checkpoint"@,
            ),
    {
        let same = match &self.follower_instance {
            Some(instance) => same_text(instance.as_str(), process_instance_id.as_str()),
            None => false,
        };
        if same && sequence >= head {
            Ok(())
        } else {
            Err(
                Status::new(
                    Code::FailedPrecondition,
                    "follower process changed before checkpoint",
                ),
            )
        }
    }
}

/// Gives every copy its place in the stream.
pub fn place_seeds(seeds: &mut Vec<PreparedReplicaSeed>, cursor: u64)
    ensures
        final(seeds)@.len() == old(seeds)@.len(),
        forall|i: int|
            0 <= i < final(seeds)@.len() ==> (#[trigger] final(seeds)@[i])@ == (SeedView {
                admission: crate::cluster::AdmissionView {
                    stream_cursor: cursor,
                    ..old(seeds)@[i]@.admission
                },
                ..old(seeds)@[i]@
            }),
{
    let ghost before = seeds@;
    let mut i: usize = 0;
    while i < seeds.len()
        invariant
            seeds@.len() == before.len(),
            i <= seeds@.len(),
            forall|j: int|
                0 <= j < i ==> (#[trigger] seeds@[j])@ == (SeedView {
                    admission: crate::cluster::AdmissionView {
                        stream_cursor: cursor,
                        ..before[j]@.admission
                    },
                    ..before[j]@
                }),
            forall|j: int| i <= j < seeds@.len() ==> seeds@[j] == before[j],
        decreases seeds.len() - i,
    {
        let mut admission = seeds[i].admission.clone();
        admission.stream_cursor = cursor;
        let seed = PreparedReplicaSeed {
            task: seeds[i].task.clone(),
            control: RangeControl {
                change_id: seeds[i].control.change_id.clone(),
                range_id: seeds[i].control.range_id.clone(),
            },
            admission: admission,
        };
        seeds.set(i, seed);
        i = i + 1;
    }
}

/// What is done next for a group of repairs.
#[derive(Clone, Copy, Debug, Eq, PartialEq, Structural)]
pub enum SeedStep {
    /// Note that the group is copied.
    NoteCopying,
    /// Copy the snapshot of every range while writes go on.
    Copy,
    /// Hold writes to every range.
    Pause,
    /// Note that the group is verified.
    NoteVerifying,
    /// Replay the rest and compare every range.
    Verify,
    /// Read the head of the stream from its owner.
    ReadHead,
    /// Install the checkpoint at the follower.
    Checkpoint,
    /// Release what the copies have taken at both ends.
    Release,
    /// Note the admissions.
    Admit,
    /// Drop everything at both ends.
    Undo,
    /// Note that the group waits again.
    NotePending,
    Succeeded,
    Failed,
}

/// The steps of a repair that goes well.
pub open spec fn seed_after(step: SeedStep, ok: bool) -> SeedStep {
    match step {
        SeedStep::Undo => SeedStep::NotePending,
        SeedStep::NotePending => SeedStep::Failed,
        SeedStep::Succeeded => SeedStep::Succeeded,
        SeedStep::Failed => SeedStep::Failed,
        _ => if !ok {
            SeedStep::Undo
        } else {
            match step {
                SeedStep::NoteCopying => SeedStep::Copy,
                SeedStep::Copy => SeedStep::Pause,
                SeedStep::Pause => SeedStep::NoteVerifying,
                SeedStep::NoteVerifying => SeedStep::Verify,
                SeedStep::Verify => SeedStep::ReadHead,
                SeedStep::ReadHead => SeedStep::Checkpoint,
                SeedStep::Checkpoint => SeedStep::Release,
                SeedStep::Release => SeedStep::Admit,
                _ => SeedStep::Succeeded,
            }
        },
    }
}

/// Decides what is done after a step of a repair.
pub fn seed_replica_group(step: SeedStep, ok: bool) -> (r: SeedStep)
    ensures
        r == seed_after(step, ok),
{
    match step {
        SeedStep::Undo => SeedStep::NotePending,
        SeedStep::NotePending => SeedStep::Failed,
        SeedStep::Succeeded => SeedStep::Succeeded,
        SeedStep::Failed => SeedStep::Failed,
        _ => if !ok {
            SeedStep::Undo
        } else {
            match step {
                SeedStep::NoteCopying => SeedStep::Copy,
                SeedStep::Copy => SeedStep::Pause,
                SeedStep::Pause => SeedStep::NoteVerifying,
                SeedStep::NoteVerifying => SeedStep::Verify,
                SeedStep::Verify => SeedStep::ReadHead,
                SeedStep::ReadHead => SeedStep::Checkpoint,
                SeedStep::Checkpoint => SeedStep::Release,
                SeedStep::Release => SeedStep::Admit,
                _ => SeedStep::Succeeded,
            }
        },
    }
}

/// Where a repair stands after so many steps, each of them done or not.
pub open spec fn seed_run(outcomes: Seq<bool>) -> SeedStep
    decreases outcomes.len(),
{
    if outcomes.len() == 0 {
        SeedStep::NoteCopying
    } else {
        seed_after(seed_run(outcomes.drop_last()), outcomes.last())
    }
}

/// A repair is admitted only after nine steps, none of which has failed: copies were paused,
/// verified and given their place in the stream.
pub proof fn law_repairs_succeed_only_without_a_failure(outcomes: Seq<bool>)
    requires
        seed_run(outcomes) is Succeeded,
    ensures
        outcomes.len() >= 9,
        forall|i: int| 0 <= i < 9 ==> #[trigger] outcomes[i],
{
    lemma_seed_run(outcomes);
}

/// Where a repair stands tells how many steps it has done well.
pub open spec fn steps_done(step: SeedStep) -> nat {
    match step {
        SeedStep::NoteCopying => 0,
        SeedStep::Copy => 1,
        SeedStep::Pause => 2,
        SeedStep::NoteVerifying => 3,
        SeedStep::Verify => 4,
        SeedStep::ReadHead => 5,
        SeedStep::Checkpoint => 6,
        SeedStep::Release => 7,
        SeedStep::Admit => 8,
        SeedStep::Succeeded => 9,
        _ => 0,
    }
}

proof fn lemma_seed_run(outcomes: Seq<bool>)
    ensures
        !(seed_run(outcomes) is Undo || seed_run(outcomes) is NotePending || seed_run(
            outcomes,
        ) is Failed) ==> outcomes.len() >= steps_done(seed_run(outcomes)) && (forall|i: int|
            0 <= i < steps_done(seed_run(outcomes)) ==> #[trigger] outcomes[i]) && (!(seed_run(
            outcomes,
        ) is Succeeded) ==> outcomes.len() == steps_done(seed_run(outcomes))),
    decreases outcomes.len(),
{
    if outcomes.len() > 0 {
        let before = outcomes.drop_last();
        lemma_seed_run(before);
        assert forall|i: int| 0 <= i < before.len() implies outcomes[i] == before[i] by {}
    }
}

} // verus!
