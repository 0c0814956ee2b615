//! Topologies and changes as they are sent between processes.
use crate::migration::{
    MigrationError, MigrationPhase, MoveView, ObligationView, RangeMigration, ReplicaObligation,
    TopologyChange,
};
use crate::ring::AssignmentView;
use crate::text::{copy_texts, texts};
use crate::topology::{
    assignment_views, copy_members, member_views, validation_error, Member, MemberView,
    SnapshotView, TokenAssignment, TopologyError, TopologySnapshot, WriteAckPolicy,
    WriteAvailabilityGuard,
};
use crate::topology_laws::{law_built_topologies_validate, law_valid_topologies_are_canonical};
use crate::views::{duplicate_all, duplicate_opt, opt, views};
use vstd::prelude::*;

verus! {

/// A write policy as it is sent. A receiver may not know what a sender means.
#[derive(Clone, Copy, Debug, Eq, PartialEq, Structural)]
pub enum WirePolicy {
    /// Nothing was said: the number zero.
    Unspecified,
    Known(WriteAckPolicy),
    /// A number that stands for nothing.
    Unrecognized(i32),
}

/// A phase as it is sent.
#[derive(Clone, Copy, Debug, Eq, PartialEq, Structural)]
pub enum WirePhase {
    /// Nothing was said: the number zero.
    Unspecified,
    Known(MigrationPhase),
    /// A number that stands for nothing.
    Unrecognized(i32),
}

/// Reads a write policy.
pub fn read_policy(wire: WirePolicy) -> (r: Result<WriteAckPolicy, TopologyError>)
    ensures
        r == policy_of(wire),
{
    match wire {
        WirePolicy::Known(policy) => Ok(policy),
        WirePolicy::Unspecified => Err(TopologyError::UnknownWriteAckPolicy(0)),
        WirePolicy::Unrecognized(value) => Err(TopologyError::UnknownWriteAckPolicy(value)),
    }
}

/// The policy that was sent.
pub open spec fn policy_of(wire: WirePolicy) -> Result<WriteAckPolicy, TopologyError> {
    match wire {
        WirePolicy::Known(policy) => Ok(policy),
        WirePolicy::Unspecified => Err(TopologyError::UnknownWriteAckPolicy(0)),
        WirePolicy::Unrecognized(value) => Err(TopologyError::UnknownWriteAckPolicy(value)),
    }
}

/// Reads a phase.
pub fn read_phase(wire: WirePhase) -> (r: Result<MigrationPhase, MigrationError>)
    ensures
        r == phase_of(wire),
{
    match wire {
        WirePhase::Known(phase) => Ok(phase),
        WirePhase::Unspecified => Err(MigrationError::UnknownPhase(0)),
        WirePhase::Unrecognized(value) => Err(MigrationError::UnknownPhase(value)),
    }
}

/// The phase that was sent.
pub open spec fn phase_of(wire: WirePhase) -> Result<MigrationPhase, MigrationError> {
    match wire {
        WirePhase::Known(phase) => Ok(phase),
        WirePhase::Unspecified => Err(MigrationError::UnknownPhase(0)),
        WirePhase::Unrecognized(value) => Err(MigrationError::UnknownPhase(value)),
    }
}

/// A topology as it is sent.
#[derive(Debug, Eq, PartialEq)]
pub struct WireSnapshot {
    pub epoch: u64,
    pub hash_seed: u64,
    pub hash_algorithm: String,
    pub encoding_version: u32,
    pub virtual_nodes: u32,
    pub desired_replication_factor: u32,
    pub write_ack_policy: WirePolicy,
    pub write_availability_guard: Option<WriteAvailabilityGuard>,
    pub members: Vec<Member>,
    pub assignments: Vec<TokenAssignment>,
    pub digest: String,
}

#[verifier::ext_equal]
pub struct WireSnapshotView {
    pub epoch: u64,
    pub hash_seed: u64,
    pub hash_algorithm: Seq<char>,
    pub encoding_version: u32,
    pub virtual_nodes: u32,
    pub desired_replication_factor: u32,
    pub write_ack_policy: WirePolicy,
    pub write_availability_guard: Option<WriteAvailabilityGuard>,
    pub members: Seq<MemberView>,
    pub assignments: Seq<AssignmentView>,
    pub digest: Seq<char>,
}

impl View for WireSnapshot {
    type V = WireSnapshotView;

    open spec fn view(&self) -> WireSnapshotView {
        WireSnapshotView {
            epoch: self.epoch,
            hash_seed: self.hash_seed,
            hash_algorithm: self.hash_algorithm@,
            encoding_version: self.encoding_version,
            virtual_nodes: self.virtual_nodes,
            desired_replication_factor: self.desired_replication_factor,
            write_ack_policy: self.write_ack_policy,
            write_availability_guard: self.write_availability_guard,
            members: member_views(self.members@),
            assignments: assignment_views(self.assignments@),
            digest: self.digest@,
        }
    }
}

impl SnapshotView {
    /// How the topology is sent.
    pub open spec fn sent(self) -> WireSnapshotView {
        WireSnapshotView {
            epoch: self.epoch,
            hash_seed: self.hash_seed,
            hash_algorithm: self.hash_algorithm,
            encoding_version: self.encoding_version,
            virtual_nodes: self.virtual_nodes,
            desired_replication_factor: self.desired_replication_factor,
            write_ack_policy: WirePolicy::Known(self.write_ack_policy),
            write_availability_guard: Some(self.write_availability_guard),
            members: self.members,
            assignments: self.assignments,
            digest: self.digest,
        }
    }
}

/// The topology that was sent, unchecked.
pub open spec fn unpacked(
    wire: WireSnapshot,
    policy: WriteAckPolicy,
    guard: WriteAvailabilityGuard,
) -> TopologySnapshot {
    TopologySnapshot {
        epoch: wire.epoch,
        hash_seed: wire.hash_seed,
        hash_algorithm: wire.hash_algorithm,
        encoding_version: wire.encoding_version,
        virtual_nodes: wire.virtual_nodes,
        desired_replication_factor: wire.desired_replication_factor,
        write_ack_policy: policy,
        write_availability_guard: guard,
        members: wire.members,
        assignments: wire.assignments,
        digest: wire.digest,
    }
}

/// What is made of a topology that was sent.
pub open spec fn received(wire: WireSnapshot) -> Result<TopologySnapshot, TopologyError> {
    match (policy_of(wire.write_ack_policy), wire.write_availability_guard) {
        (Err(e), _) => Err(e),
        (Ok(_), None) => Err(TopologyError::NoMinimumAdmittedCopies),
        (Ok(policy), Some(guard)) => {
            let s = unpacked(wire, policy, guard);
            match validation_error(s) {
                Some(e) => Err(e),
                None => Ok(s),
            }
        },
    }
}

fn copy_assignments(list: &Vec<TokenAssignment>) -> (r: Vec<TokenAssignment>)
    ensures
        assignment_views(r@) == assignment_views(list@),
{
    let mut r: Vec<TokenAssignment> = Vec::new();
    let mut i: usize = 0;
    while i < list.len()
        invariant
            i <= list.len(),
            r@.len() == i,
            forall|j: int| 0 <= j < i ==> (#[trigger] r@[j])@ == list@[j]@,
        decreases list.len() - i,
    {
        r.push(list[i].clone());
        i = i + 1;
    }
    proof {
        assert(assignment_views(r@) =~= assignment_views(list@));
    }
    r
}

impl From<&TopologySnapshot> for WireSnapshot {
    fn from(v: &TopologySnapshot) -> (r: WireSnapshot)
        ensures
            r@ == v@.sent(),
    {
        v.to_wire()
    }
}

impl vstd::std_specs::convert::FromSpecImpl<&TopologySnapshot> for WireSnapshot {
    /// The conversion copies its texts and lists, so its contract speaks of
    /// views.
    open spec fn obeys_from_spec() -> bool {
        false
    }

    open spec fn from_spec(v: &TopologySnapshot) -> WireSnapshot {
        choose|r: WireSnapshot| r@ == v@.sent()
    }
}

impl TopologySnapshot {
    /// Prepares the topology for sending.
    pub fn to_wire(&self) -> (r: WireSnapshot)
        ensures
            r@ == self@.sent(),
    {
        let r = WireSnapshot {
            epoch: self.epoch,
            hash_seed: self.hash_seed,
            hash_algorithm: self.hash_algorithm.clone(),
            encoding_version: self.encoding_version,
            virtual_nodes: self.virtual_nodes,
            desired_replication_factor: self.desired_replication_factor,
            write_ack_policy: WirePolicy::Known(self.write_ack_policy),
            write_availability_guard: Some(self.write_availability_guard),
            members: copy_members(&self.members),
            assignments: copy_assignments(&self.assignments),
            digest: self.digest.clone(),
        };
        proof {
            assert(r@ =~= self@.sent());
        }
        r
    }

    /// Reads a topology that was sent, and checks it.
    pub fn from_wire(wire: WireSnapshot) -> (r: Result<TopologySnapshot, TopologyError>)
        ensures
            r == received(wire),
    {
        let policy = match read_policy(wire.write_ack_policy) {
            Ok(policy) => policy,
            Err(e) => {
                return Err(e);
            },
        };
        let guard = match wire.write_availability_guard {
            Some(guard) => guard,
            None => {
                return Err(TopologyError::NoMinimumAdmittedCopies);
            },
        };
        let snapshot = TopologySnapshot {
            epoch: wire.epoch,
            hash_seed: wire.hash_seed,
            hash_algorithm: wire.hash_algorithm,
            encoding_version: wire.encoding_version,
            virtual_nodes: wire.virtual_nodes,
            desired_replication_factor: wire.desired_replication_factor,
            write_ack_policy: policy,
            write_availability_guard: guard,
            members: wire.members,
            assignments: wire.assignments,
            digest: wire.digest,
        };
        match snapshot.validate() {
            Ok(_) => Ok(snapshot),
            Err(e) => Err(e),
        }
    }
}

/// A change as it is sent.
#[derive(Debug, Eq, PartialEq)]
pub struct WireChange {
    pub change_id: String,
    pub base_epoch: u64,
    pub base_topology: Option<WireSnapshot>,
    pub supersedes_change_id: Option<String>,
    pub target_topology: Option<WireSnapshot>,
    pub phase: WirePhase,
    pub ranges: Vec<RangeMigration>,
    pub replica_obligations: Vec<ReplicaObligation>,
    pub stopped_node_ids: Vec<String>,
    pub stopping_node_ids: Vec<String>,
    pub stop_prepared_node_ids: Vec<String>,
    pub failed_node_id: Option<String>,
    pub activation_ready: bool,
    pub direct_merge: bool,
}

#[verifier::ext_equal]
pub struct WireChangeView {
    pub change_id: Seq<char>,
    pub base_epoch: u64,
    pub base_topology: Option<WireSnapshotView>,
    pub supersedes_change_id: Option<Seq<char>>,
    pub target_topology: Option<WireSnapshotView>,
    pub phase: WirePhase,
    pub ranges: Seq<MoveView>,
    pub replica_obligations: Seq<ObligationView>,
    pub stopped_node_ids: Seq<Seq<char>>,
    pub stopping_node_ids: Seq<Seq<char>>,
    pub stop_prepared_node_ids: Seq<Seq<char>>,
    pub failed_node_id: Option<Seq<char>>,
    pub activation_ready: bool,
    pub direct_merge: bool,
}

impl View for WireChange {
    type V = WireChangeView;

    open spec fn view(&self) -> WireChangeView {
        WireChangeView {
            change_id: self.change_id@,
            base_epoch: self.base_epoch,
            base_topology: opt(self.base_topology),
            supersedes_change_id: opt(self.supersedes_change_id),
            target_topology: opt(self.target_topology),
            phase: self.phase,
            ranges: views(self.ranges@),
            replica_obligations: views(self.replica_obligations@),
            stopped_node_ids: texts(self.stopped_node_ids@),
            stopping_node_ids: texts(self.stopping_node_ids@),
            stop_prepared_node_ids: texts(self.stop_prepared_node_ids@),
            failed_node_id: opt(self.failed_node_id),
            activation_ready: self.activation_ready,
            direct_merge: self.direct_merge,
        }
    }
}

impl crate::migration::ChangeView {
    /// How the change is sent.
    pub open spec fn sent(self) -> WireChangeView {
        WireChangeView {
            change_id: self.change_id,
            base_epoch: self.base_epoch,
            base_topology: match self.base_topology {
                Some(base) => Some(base.sent()),
                None => None,
            },
            supersedes_change_id: self.supersedes_change_id,
            target_topology: Some(self.target_topology.sent()),
            phase: WirePhase::Known(self.phase),
            ranges: self.ranges,
            replica_obligations: self.replica_obligations,
            stopped_node_ids: self.stopped_node_ids,
            stopping_node_ids: self.stopping_node_ids,
            stop_prepared_node_ids: self.stop_prepared_node_ids,
            failed_node_id: self.failed_node_id,
            activation_ready: self.activation_ready,
            direct_merge: self.direct_merge,
        }
    }
}

/// The base topology that was sent, if one was.
pub open spec fn received_base(wire: WireChange) -> Result<Option<TopologySnapshot>, MigrationError> {
    match wire.base_topology {
        None => Ok(None),
        Some(base) => match received(base) {
            Ok(s) => Ok(Some(s)),
            Err(e) => Err(MigrationError::Topology(e)),
        },
    }
}

/// The target topology that was sent.
pub open spec fn received_target(wire: WireChange) -> Result<TopologySnapshot, MigrationError> {
    match wire.target_topology {
        None => Err(MigrationError::MissingTargetTopology),
        Some(target) => match received(target) {
            Ok(s) => Ok(s),
            Err(e) => Err(MigrationError::Topology(e)),
        },
    }
}

/// What is made of a change that was sent.
pub open spec fn received_change(wire: WireChange) -> Result<TopologyChange, MigrationError> {
    match (received_base(wire), received_target(wire), phase_of(wire.phase)) {
        (Err(e), _, _) => Err(e),
        (Ok(_), Err(e), _) => Err(e),
        (Ok(_), Ok(_), Err(e)) => Err(e),
        (Ok(base), Ok(target), Ok(phase)) => Ok(
            TopologyChange {
                change_id: wire.change_id,
                base_epoch: wire.base_epoch,
                base_topology: base,
                supersedes_change_id: wire.supersedes_change_id,
                target_topology: target,
                phase: phase,
                ranges: wire.ranges,
                replica_obligations: wire.replica_obligations,
                stopped_node_ids: wire.stopped_node_ids,
                stopping_node_ids: wire.stopping_node_ids,
                stop_prepared_node_ids: wire.stop_prepared_node_ids,
                failed_node_id: wire.failed_node_id,
                activation_ready: wire.activation_ready,
                direct_merge: wire.direct_merge,
            },
        ),
    }
}

impl From<&TopologyChange> for WireChange {
    fn from(v: &TopologyChange) -> (r: WireChange)
        ensures
            r@ == v@.sent(),
    {
        v.to_wire()
    }
}

impl vstd::std_specs::convert::FromSpecImpl<&TopologyChange> for WireChange {
    /// The conversion copies its texts and lists, so its contract speaks of
    /// views.
    open spec fn obeys_from_spec() -> bool {
        false
    }

    open spec fn from_spec(v: &TopologyChange) -> WireChange {
        choose|r: WireChange| r@ == v@.sent()
    }
}

impl TopologyChange {
    /// Prepares the change for sending.
    pub fn to_wire(&self) -> (r: WireChange)
        ensures
            r@ == self@.sent(),
    {
        let base_topology = match &self.base_topology {
            Some(base) => Some(base.to_wire()),
            None => None,
        };
        let r = WireChange {
            change_id: self.change_id.clone(),
            base_epoch: self.base_epoch,
            base_topology,
            supersedes_change_id: duplicate_opt(&self.supersedes_change_id),
            target_topology: Some(self.target_topology.to_wire()),
            phase: WirePhase::Known(self.phase),
            ranges: duplicate_all(&self.ranges),
            replica_obligations: duplicate_all(&self.replica_obligations),
            stopped_node_ids: copy_texts(&self.stopped_node_ids),
            stopping_node_ids: copy_texts(&self.stopping_node_ids),
            stop_prepared_node_ids: copy_texts(&self.stop_prepared_node_ids),
            failed_node_id: duplicate_opt(&self.failed_node_id),
            activation_ready: self.activation_ready,
            direct_merge: self.direct_merge,
        };
        proof {
            assert(r@ =~= self@.sent());
        }
        r
    }

    /// Reads a change that was sent, and checks its topologies.
    pub fn from_wire(wire: WireChange) -> (r: Result<TopologyChange, MigrationError>)
        ensures
            r == received_change(wire),
    {
        let base_topology = match wire.base_topology {
            Some(base) => match TopologySnapshot::from_wire(base) {
                Ok(s) => Some(s),
                Err(e) => {
                    return Err(MigrationError::Topology(e));
                },
            },
            None => None,
        };
        let target_topology = match wire.target_topology {
            Some(target) => match TopologySnapshot::from_wire(target) {
                Ok(s) => s,
                Err(e) => {
                    return Err(MigrationError::Topology(e));
                },
            },
            None => {
                return Err(MigrationError::MissingTargetTopology);
            },
        };
        let phase = match read_phase(wire.phase) {
            Ok(phase) => phase,
            Err(e) => {
                return Err(e);
            },
        };
        Ok(
            TopologyChange {
                change_id: wire.change_id,
                base_epoch: wire.base_epoch,
                base_topology,
                supersedes_change_id: wire.supersedes_change_id,
                target_topology,
                phase,
                ranges: wire.ranges,
                replica_obligations: wire.replica_obligations,
                stopped_node_ids: wire.stopped_node_ids,
                stopping_node_ids: wire.stopping_node_ids,
                stop_prepared_node_ids: wire.stop_prepared_node_ids,
                failed_node_id: wire.failed_node_id,
                activation_ready: wire.activation_ready,
                direct_merge: wire.direct_merge,
            },
        )
    }
}

/// What a starting node learns of the topology that is on its way in: nothing where no change is
/// under way or none says where it leads.
pub open spec fn pending_topology(change: Option<WireChange>) -> Result<
    Option<TopologySnapshot>,
    TopologyError,
> {
    match change {
        None => Ok(None),
        Some(wire) => if wire.phase == WirePhase::Known(MigrationPhase::Complete) || wire.phase
            == WirePhase::Known(MigrationPhase::Aborted) {
            Ok(None)
        } else {
            match wire.target_topology {
                None => Ok(None),
                Some(target) => match received(target) {
                    Ok(s) => Ok(Some(s)),
                    Err(e) => Err(e),
                },
            }
        },
    }
}

/// Reads from the change that the coordinator answers with which topology is on its way in.
pub fn fetch_pending_topology(change: Option<WireChange>) -> (r: Result<
    Option<TopologySnapshot>,
    TopologyError,
>)
    ensures
        r == pending_topology(change),
{
    match change {
        None => Ok(None),
        Some(wire) => {
            if wire.phase == WirePhase::Known(MigrationPhase::Complete) || wire.phase
                == WirePhase::Known(MigrationPhase::Aborted) {
                return Ok(None);
            }
            match wire.target_topology {
                None => Ok(None),
                Some(target) => match TopologySnapshot::from_wire(target) {
                    Ok(s) => Ok(Some(s)),
                    Err(e) => Err(e),
                },
            }
        },
    }
}

/// A valid topology arrives as it was sent.
pub proof fn law_valid_topologies_arrive(s: TopologySnapshot, wire: WireSnapshot)
    requires
        validation_error(s) is None,
        wire@ == s@.sent(),
    ensures
        received(wire) matches Ok(t) && t@ == s@,
{
    let t = unpacked(wire, s.write_ack_policy, s.write_availability_guard);
    assert(t@ =~= s@);
    law_valid_topologies_are_canonical(s);
    law_built_topologies_validate(
        t,
        s.epoch,
        s.hash_seed,
        s.virtual_nodes,
        s.members@,
        s@.config(),
    );
}

/// A change between valid topologies arrives as it was sent.
pub proof fn law_changes_arrive(change: TopologyChange, wire: WireChange)
    requires
        validation_error(change.target_topology) is None,
        change.base_topology matches Some(base) ==> validation_error(base) is None,
        wire@ == change@.sent(),
    ensures
        received_change(wire) matches Ok(c) && c@ == change@,
{
    law_valid_topologies_arrive(change.target_topology, wire.target_topology->0);
    if let Some(base) = change.base_topology {
        law_valid_topologies_arrive(base, wire.base_topology->0);
    }
    let c = received_change(wire)->Ok_0;
    assert(c@ =~= change@);
}

/// What was accepted from the wire is valid.
pub proof fn law_only_valid_topologies_arrive(wire: WireSnapshot)
    ensures
        received(wire) matches Ok(t) ==> validation_error(t) is None && t@.sound(),
{
    if let Ok(t) = received(wire) {
        law_valid_topologies_are_canonical(t);
    }
}

} // verus!
