//! Taking members out: what is checked before a smaller topology is published.
use crate::changes::{change_identity, next_view};
use crate::cluster::{ClusterState, ClusterView};
use crate::coverage::{GrantView, Grants};
use crate::errors::{refusal, refused, Code, Status, StatusView};
use crate::merge::{can_prepare_direct_merge, naturally_merges, MergeProof, Stream, StreamKey};
use crate::migration::{ChangeView, TopologyChange};
use crate::ordmap::shown;
use crate::publish::RemovalPublication;
use crate::sets::SortedSet;
use crate::topology::{copy_members, member_views, Member};
use vstd::prelude::*;

verus! {

impl ClusterView {
    /// Why a merge cannot be prepared.
    pub open spec fn preparation_fault(self, change: ChangeView) -> Option<StatusView> {
        let target = change.target_topology;
        if !naturally_merges(self.committed, target) {
            Some(
                refusal(
                    Code::FailedPrecondition,
                    "removal can no longer use the natural successor merge"@,
                ),
            )
        } else if self.committed.range_fault() is Some {
            self.committed.range_fault()
        } else {
            target.range_fault()
        }
    }

    /// The streams that a merge needs and that lack copies.
    pub open spec fn missing_streams(self, change: ChangeView) -> Set<Stream> {
        let target = change.target_topology;
        self.merge_gaps(target.ranges(), target.needed_followers(), target.ranges().len())
    }

    /// The heirs hold all that they take over.
    pub open spec fn merges(self, change: ChangeView) -> bool {
        &&& naturally_merges(self.committed, change.target_topology)
        &&& self.merge_fault(change.target_topology) is None
    }

    /// Why a merge cannot go on once writes are held back.
    pub open spec fn merge_refusal(
        self,
        change: ChangeView,
        grants: Map<Seq<char>, GrantView>,
        now: u64,
    ) -> Option<StatusView> {
        if !self.merges(change) {
            Some(refusal(Code::FailedPrecondition, "natural successor coverage was lost"@))
        } else {
            self.owner_lease_fault(grants, change.target_topology, now)
        }
    }

    /// The change under way is still this one, and its failed node is fenced.
    pub open spec fn fences(self, change: ChangeView) -> bool {
        &&& change.failed_node_id is Some
        &&& self.fenced_nodes.contains(change.failed_node_id->0)
        &&& self.runs_change(change.identity())
    }

    /// What follows where a topology without a failed node is published.
    pub open spec fn failure_publication(
        self,
        change: ChangeView,
        grants: Map<Seq<char>, GrantView>,
        now: u64,
    ) -> Result<ClusterView, StatusView> {
        let target = change.target_topology;
        if self.owner_lease_fault(grants, target, now) is Some {
            Err(self.owner_lease_fault(grants, target, now)->0)
        } else if self.removal_fault(target) is Some {
            Err(self.removal_fault(target)->0)
        } else if !self.fences(change) {
            Err(refusal(Code::FailedPrecondition, "failure transition lost its durable fence"@))
        } else {
            self.removal_publication(change, None)
        }
    }
}

/// Whether one stream that a merge needs is waited for.
#[derive(Debug, Eq, PartialEq)]
pub enum StreamWait {
    CaughtUp,
    Wait,
    /// The time is up.
    Late(Status),
}

/// Decides whether one stream that a merge needs is waited for.
pub fn await_merge_stream(caught_up: bool, now: u64, deadline: u64) -> (r: StreamWait)
    ensures
        match r {
            StreamWait::CaughtUp => caught_up,
            StreamWait::Wait => !caught_up && now < deadline,
            StreamWait::Late(status) => !caught_up && now >= deadline && status@ == refusal(
                Code::DeadlineExceeded,
                "natural successor did not catch up"@,
            ),
        },
{
    if caught_up {
        StreamWait::CaughtUp
    } else if now >= deadline {
        StreamWait::Late(
            Status::new(Code::DeadlineExceeded, "natural successor did not catch up"),
        )
    } else {
        StreamWait::Wait
    }
}

/// The members that hold writes back for a merge, or go on: those of its base, or those that
/// stay.
pub fn set_direct_merge_fence(change: &TopologyChange, base_members: bool) -> (r: Result<
    Vec<Member>,
    Status,
>)
    ensures
        match r {
            Ok(members) => change@.base_topology is Some && member_views(members@)
                == if base_members {
                change@.base_topology->0.members
            } else {
                change@.target_topology.members
            },
            Err(status) => change@.base_topology is None && status@ == refusal(
                Code::Internal,
                "direct merge omitted base topology"@,
            ),
        },
{
    match &change.base_topology {
        Some(base) => if base_members {
            Ok(copy_members(&base.members))
        } else {
            Ok(copy_members(&change.target_topology.members))
        },
        None => Err(Status::new(Code::Internal, "direct merge omitted base topology")),
    }
}

impl ClusterState {
    /// Lists the streams whose copies a merge has to complete first.
    pub fn prepare_direct_merge_coverage(&self, change: &TopologyChange) -> (r: Result<
        SortedSet<StreamKey>,
        Status,
    >)
        requires
            change@.target_topology.counts_followers(),
        ensures
            refused(r) == self@.preparation_fault(change@),
            r matches Ok(missing) ==> missing@ == self@.missing_streams(change@),
    {
        if !can_prepare_direct_merge(&self.committed, change) {
            return Err(
                Status::new(
                    Code::FailedPrecondition,
                    "removal can no longer use the natural successor merge",
                ),
            );
        }
        self.missing_merge_streams(change)
    }

    /// Checks that the copies that a merge needs are complete.
    pub fn check_prepared_coverage(&self, change: &TopologyChange) -> (r: Result<(), Status>)
        requires
            change@.target_topology.counts_followers(),
        ensures
            r is Ok == self@.merges(change@),
            r matches Err(status) ==> status@ == refusal(
                Code::FailedPrecondition,
                "prepared successor coverage is incomplete"@,
            ),
    {
        if self.can_direct_merge(change) {
            Ok(())
        } else {
            Err(
                Status::new(
                    Code::FailedPrecondition,
                    "prepared successor coverage is incomplete",
                ),
            )
        }
    }

    /// Proves, while writes are held back, that the heirs hold all that they take over and have
    /// leases, and says which streams must have caught up for it.
    pub fn execute_direct_merge(&self, change: &TopologyChange, grants: &Grants, now: u64) -> (r:
        Result<MergeProof, Status>)
        requires
            change@.target_topology.counts_followers(),
        ensures
            refused(r) == self@.merge_refusal(change@, shown(*grants), now),
            r matches Ok(basis) ==> basis@ == self@.merge_basis(change@.target_topology),
    {
        if !self.can_direct_merge(change) {
            return Err(
                Status::new(Code::FailedPrecondition, "natural successor coverage was lost"),
            );
        }
        if let Err(status) = self.prove_removal_owner_leases(&change.target_topology, grants, now) {
            return Err(status);
        }
        self.merge_proof(change)
    }

    /// Publishes a topology without a failed node.
    pub fn publish_failure(&self, change: &TopologyChange, grants: &Grants, now: u64) -> (r: Result<
        ClusterState,
        Status,
    >)
        ensures
            next_view(r) == self@.failure_publication(change@, shown(*grants), now),
    {
        if let Err(status) = self.prove_failure_coverage(&change.target_topology, grants, now) {
            return Err(status);
        }
        let fenced = match &change.failed_node_id {
            Some(node_id) => self.fenced_nodes.contains(node_id),
            None => false,
        };
        if !fenced || !self.runs_change(&change_identity(change)) {
            return Err(
                Status::new(
                    Code::FailedPrecondition,
                    "failure transition lost its durable fence",
                ),
            );
        }
        self.publish_removed_topology(change, RemovalPublication::Failed)
    }
}

/// The ranges of a failed node pass on only where it is fenced, each of the owners that follow
/// holds a lease, and each holds what it takes over.
pub proof fn law_failures_publish_behind_a_fence(
    s: ClusterView,
    change: ChangeView,
    grants: Map<Seq<char>, GrantView>,
    now: u64,
)
    requires
        s.failure_publication(change, grants, now) is Ok,
    ensures
        change.failed_node_id is Some,
        s.fenced_nodes.contains(change.failed_node_id->0),
        s.owner_lease_fault(grants, change.target_topology, now) is None,
        s.removal_fault(change.target_topology) is None,
{
}

} // verus!
