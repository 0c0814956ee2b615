//! Which copies cover a range whose owner goes away.
use crate::cluster::{AdmissionView, ClusterState, ClusterView, ReplicaAdmission};
use crate::errors::{refusal, refused, Code, Status, StatusView};
use crate::interval::interval_contains;
use crate::ordmap::{shown, SortedMap};
use crate::reconcile::{lemma_sifted_prefix, sifted};
use crate::ring::{in_interval, RangeView};
use crate::text::{around_number, decimal_text, joined, same_text};
use crate::topology::{
    range_views, topology_error_text, DerivedRange, SnapshotView, TopologyError,
    TopologySnapshot, WriteAckPolicy,
};
use crate::views::{lemma_views_push, views};
use vstd::prelude::*;

verus! {

/// A lease that the coordinator granted. Instants are nanoseconds on one clock that never
/// goes back.
#[derive(Debug, Eq, PartialEq)]
pub struct NodeLeaseGrant {
    pub process_instance_id: String,
    pub epoch: u64,
    pub expires_at: u64,
    pub expires_unix_millis: u64,
    pub last_renewal_unix_millis: u64,
}

#[verifier::ext_equal]
pub struct GrantView {
    pub process_instance_id: Seq<char>,
    pub epoch: u64,
    pub expires_at: u64,
    pub expires_unix_millis: u64,
    pub last_renewal_unix_millis: u64,
}

impl View for NodeLeaseGrant {
    type V = GrantView;

    open spec fn view(&self) -> GrantView {
        GrantView {
            process_instance_id: self.process_instance_id@,
            epoch: self.epoch,
            expires_at: self.expires_at,
            expires_unix_millis: self.expires_unix_millis,
            last_renewal_unix_millis: self.last_renewal_unix_millis,
        }
    }
}

/// The leases that were granted, by node.
pub type Grants = SortedMap<String, NodeLeaseGrant>;

/// The old ranges that a range is made of.
pub open spec fn part_of(target: RangeView) -> spec_fn(RangeView) -> bool {
    |r: RangeView| in_interval(target.start_exclusive, target.end_inclusive, r.end_inclusive)
}

/// The old ranges that a range is made of.
pub open spec fn parts(old_ranges: Seq<RangeView>, target: RangeView) -> Seq<RangeView> {
    sifted(old_ranges, part_of(target))
}

/// The old ranges that a range is made of.
pub fn constituents<'a>(old_ranges: &'a Vec<DerivedRange>, target: &DerivedRange) -> (r: Vec<
    &'a DerivedRange,
>)
    ensures
        views(r@) == parts(range_views(old_ranges@), target@),
{
    let ghost s = range_views(old_ranges@);
    let ghost p = part_of(target@);
    let mut r: Vec<&'a DerivedRange> = Vec::new();
    let mut i: usize = 0;
    proof {
        assert(s.subrange(0, 0) =~= Seq::empty());
        assert(views(r@) =~= Seq::empty());
    }
    while i < old_ranges.len()
        invariant
            s == range_views(old_ranges@),
            p == part_of(target@),
            i <= old_ranges@.len(),
            views(r@) == sifted(s.subrange(0, i as int), p),
        decreases old_ranges.len() - i,
    {
        let range = &old_ranges[i];
        proof {
            assert(s[i as int] == range@);
            lemma_sifted_prefix(s, i as int, p);
        }
        if interval_contains(target.start_exclusive, target.end_inclusive, range.end_inclusive) {
            proof {
                lemma_views_push(r@, range);
            }
            r.push(range);
        }
        i = i + 1;
    }
    proof {
        assert(s.subrange(0, s.len() as int) =~= s);
    }
    r
}

impl ClusterView {
    /// A node runs this process.
    pub open spec fn runs(self, node: Seq<char>, instance: Seq<char>) -> bool {
        self.process_instances.contains_key(node) && self.process_instances[node] == instance
    }

    /// An admission says that a follower holds a range now.
    pub open spec fn proves(self, a: AdmissionView, range: RangeView, follower: Seq<char>) -> bool {
        &&& a.epoch == self.committed.epoch
        &&& a.start_exclusive == range.start_exclusive
        &&& a.end_inclusive == range.end_inclusive
        &&& a.owner_node_id == range.owner_node_id
        &&& a.node_id == follower
        &&& self.runs(follower, a.process_instance_id)
        &&& !self.fenced_nodes.contains(follower)
    }

    /// The first admission from `i` on that says so.
    pub open spec fn proof_from(self, range: RangeView, follower: Seq<char>, i: nat) -> Option<
        AdmissionView,
    >
        decreases self.replica_admissions.len() - i,
    {
        if i >= self.replica_admissions.len() {
            None
        } else if self.proves(self.replica_admissions[i as int], range, follower) {
            Some(self.replica_admissions[i as int])
        } else {
            self.proof_from(range, follower, i + 1)
        }
    }

    /// A follower holds a range now.
    pub open spec fn covers(self, range: RangeView, follower: Seq<char>) -> bool {
        self.proof_from(range, follower, 0) is Some
    }

    /// The owner of a merged range has a part already: its own, or a copy of the one before.
    pub open spec fn inherits(self, part: RangeView, owner: Seq<char>) -> bool {
        part.owner_node_id == owner || (part.follower_node_ids.len() > 0
            && part.follower_node_ids[0] == owner && self.covers(part, owner))
    }

    /// What says that the owner of a merged range lacks a part.
    pub open spec fn gap(self, part: RangeView, owner: Seq<char>) -> StatusView {
        refusal(
            Code::FailedPrecondition,
            "merged owner "@ + owner + " lacks first-successor coverage for ("@ + decimal_text(
                part.start_exclusive as nat,
            ) + ", "@ + decimal_text(part.end_inclusive as nat) + "]"@,
        )
    }

    /// What says that the owner of a merged range lacks one of these parts, from `i` on.
    pub open spec fn gap_from(self, list: Seq<RangeView>, owner: Seq<char>, i: nat) -> Option<
        StatusView,
    >
        decreases list.len() - i,
    {
        if i >= list.len() {
            None
        } else if !self.inherits(list[i as int], owner) {
            Some(self.gap(list[i as int], owner))
        } else {
            self.gap_from(list, owner, i + 1)
        }
    }

    /// Why the owners of these ranges, from `i` on, cannot take them over, if they cannot.
    pub open spec fn coverage_fault(self, ranges: Seq<RangeView>, i: nat) -> Option<StatusView>
        decreases ranges.len() - i,
    {
        if i >= ranges.len() {
            None
        } else {
            let list = parts(self.committed.ranges(), ranges[i as int]);
            if list.len() == 0 {
                Some(refusal(Code::DataLoss, "merged range has no old constituents"@))
            } else if self.gap_from(list, ranges[i as int].owner_node_id, 0) is Some {
                self.gap_from(list, ranges[i as int].owner_node_id, 0)
            } else {
                self.coverage_fault(ranges, i + 1)
            }
        }
    }

    /// Why a smaller topology cannot take over, if it cannot.
    pub open spec fn removal_fault(self, target: SnapshotView) -> Option<StatusView> {
        if self.committed.range_fault() is Some {
            self.committed.range_fault()
        } else if target.range_fault() is Some {
            target.range_fault()
        } else {
            self.coverage_fault(target.ranges(), 0)
        }
    }

    /// Why the owners of a topology cannot serve it, if they cannot.
    pub open spec fn owner_lease_fault(
        self,
        grants: Map<Seq<char>, GrantView>,
        target: SnapshotView,
        now: u64,
    ) -> Option<StatusView> {
        if target.range_fault() is Some {
            target.range_fault()
        } else {
            self.lease_fault(grants, target.ranges(), now, 0)
        }
    }

    /// A node holds a lease of the committed epoch at `now`.
    pub open spec fn has_lease(self, grants: Map<Seq<char>, GrantView>, node: Seq<char>, now: u64) -> bool {
        &&& grants.contains_key(node)
        &&& grants[node].epoch == self.committed.epoch
        &&& self.runs(node, grants[node].process_instance_id)
        &&& grants[node].expires_at > now
        &&& !self.fenced_nodes.contains(node)
    }

    /// Why the owners of these ranges, from `i` on, cannot serve them, if they cannot.
    pub open spec fn lease_fault(
        self,
        grants: Map<Seq<char>, GrantView>,
        ranges: Seq<RangeView>,
        now: u64,
        i: nat,
    ) -> Option<StatusView>
        decreases ranges.len() - i,
    {
        if i >= ranges.len() {
            None
        } else {
            let owner = ranges[i as int].owner_node_id;
            if !self.process_instances.contains_key(owner) {
                Some(
                    refusal(
                        Code::FailedPrecondition,
                        "merged owner "@ + owner + " is not registered"@,
                    ),
                )
            } else if !self.has_lease(grants, owner, now) {
                Some(
                    refusal(
                        Code::FailedPrecondition,
                        "merged owner "@ + owner + " has no current lease"@,
                    ),
                )
            } else {
                self.lease_fault(grants, ranges, now, i + 1)
            }
        }
    }
}

/// The ranges of a topology.
pub fn ranges_of(t: &TopologySnapshot) -> (r: Result<Vec<DerivedRange>, Status>)
    ensures
        match r {
            Ok(ranges) => t@.range_fault() is None && range_views(ranges@) == t@.ranges(),
            Err(status) => t@.range_fault() == Some(status@),
        },
{
    match t.derived_ranges() {
        Ok(ranges) => Ok(ranges),
        Err(error) => Err(Status { code: Code::Internal, message: error.message() }),
    }
}

impl ClusterState {
    /// Tells whether a node runs this process.
    pub fn node_runs(&self, node: &String, instance: &str) -> (r: bool)
        ensures
            r == self@.runs(node@, instance@),
    {
        match self.process_instances.get(node) {
            Some(held) => same_text(held.as_str(), instance),
            None => false,
        }
    }

    /// Looks up what proves that a follower holds a range now.
    pub fn admission_for(&self, range: &DerivedRange, follower: &String) -> (r: Option<
        &ReplicaAdmission,
    >)
        ensures
            match r {
                Some(a) => self@.proof_from(range@, follower@, 0) == Some(a@),
                None => self@.proof_from(range@, follower@, 0) is None,
            },
    {
        let ghost list = self@.replica_admissions;
        let epoch = self.committed.epoch;
        let fenced = self.fenced_nodes.contains(follower);
        let mut i: usize = 0;
        while i < self.replica_admissions.len()
            invariant
                list == self@.replica_admissions,
                list.len() == self.replica_admissions@.len(),
                epoch == self@.committed.epoch,
                fenced == self@.fenced_nodes.contains(follower@),
                i <= list.len(),
                self@.proof_from(range@, follower@, 0) == self@.proof_from(
                    range@,
                    follower@,
                    i as nat,
                ),
            decreases list.len() - i,
        {
            let a = &self.replica_admissions[i];
            proof {
                assert(list[i as int] == a@);
            }
            if a.epoch == epoch && a.start_exclusive == range.start_exclusive && a.end_inclusive
                == range.end_inclusive && same_text(
                a.owner_node_id.as_str(),
                range.owner_node_id.as_str(),
            ) && same_text(a.node_id.as_str(), follower.as_str()) && self.node_runs(
                follower,
                a.process_instance_id.as_str(),
            ) && !fenced {
                return Some(a);
            }
            i = i + 1;
        }
        None
    }

    fn check_parts(&self, list: &Vec<&DerivedRange>, owner: &String) -> (r: Result<(), Status>)
        ensures
            refused(r) == self@.gap_from(views(list@), owner@, 0),
    {
        let ghost s = views(list@);
        let mut i: usize = 0;
        while i < list.len()
            invariant
                s == views(list@),
                i <= list@.len(),
                self@.gap_from(s, owner@, 0) == self@.gap_from(s, owner@, i as nat),
            decreases list.len() - i,
        {
            let part = list[i];
            proof {
                assert(s[i as int] == part@);
            }
            let mut inherits = same_text(part.owner_node_id.as_str(), owner.as_str());
            if !inherits && part.follower_node_ids.len() > 0 {
                proof {
                    assert(part@.follower_node_ids[0] == part.follower_node_ids@[0]@);
                }
                inherits = same_text(part.follower_node_ids[0].as_str(), owner.as_str())
                    && self.admission_for(part, owner).is_some();
            }
            if !inherits {
                let a = joined("merged owner ", owner.as_str());
                let b = joined(a.as_str(), " lacks first-successor coverage for (");
                let c = around_number(b.as_str(), part.start_exclusive, ", ");
                let message = around_number(c.as_str(), part.end_inclusive, "]");
                return Err(Status { code: Code::FailedPrecondition, message: message });
            }
            i = i + 1;
        }
        Ok(())
    }

    /// Checks that the owners of a smaller topology hold all that they take over.
    pub fn prove_removal_owner_coverage(&self, target: &TopologySnapshot) -> (r: Result<(), Status>)
        ensures
            refused(r) == self@.removal_fault(target@),
    {
        let old_ranges = match ranges_of(&self.committed) {
            Ok(ranges) => ranges,
            Err(status) => return Err(status),
        };
        match ranges_of(target) {
            Ok(ranges) => self.check_owner_coverage(&old_ranges, &ranges),
            Err(status) => Err(status),
        }
    }

    /// Checks that the owners of these ranges hold all that they take over.
    pub fn check_owner_coverage(
        &self,
        old_ranges: &Vec<DerivedRange>,
        ranges: &Vec<DerivedRange>,
    ) -> (r: Result<(), Status>)
        requires
            range_views(old_ranges@) == self@.committed.ranges(),
        ensures
            refused(r) == self@.coverage_fault(range_views(ranges@), 0),
    {
        let ghost s = range_views(ranges@);
        let mut i: usize = 0;
        while i < ranges.len()
            invariant
                s == range_views(ranges@),
                range_views(old_ranges@) == self@.committed.ranges(),
                i <= ranges@.len(),
                self@.coverage_fault(s, 0) == self@.coverage_fault(s, i as nat),
            decreases ranges.len() - i,
        {
            let range = &ranges[i];
            proof {
                assert(s[i as int] == range@);
            }
            let list = constituents(old_ranges, range);
            proof {
                assert(views(list@).len() == list@.len());
            }
            if list.len() == 0 {
                return Err(Status::new(Code::DataLoss, "merged range has no old constituents"));
            }
            if let Err(status) = self.check_parts(&list, &range.owner_node_id) {
                return Err(status);
            }
            i = i + 1;
        }
        Ok(())
    }

    /// Tells whether a node holds a lease of the committed epoch at `now`.
    pub fn node_has_lease(&self, grants: &Grants, node: &String, now: u64) -> (r: bool)
        ensures
            r == self@.has_lease(shown(*grants), node@, now),
    {
        match grants.get(node) {
            Some(grant) => grant.epoch == self.committed.epoch && self.node_runs(
                node,
                grant.process_instance_id.as_str(),
            ) && grant.expires_at > now && !self.fenced_nodes.contains(node),
            None => false,
        }
    }

    /// Checks that the owners of a topology hold leases at `now`.
    pub fn prove_removal_owner_leases(
        &self,
        target: &TopologySnapshot,
        grants: &Grants,
        now: u64,
    ) -> (r: Result<(), Status>)
        ensures
            refused(r) == self@.owner_lease_fault(shown(*grants), target@, now),
    {
        match ranges_of(target) {
            Ok(ranges) => self.check_owner_leases(&ranges, grants, now),
            Err(status) => Err(status),
        }
    }

    /// Checks that the owners of these ranges hold leases at `now`.
    pub fn check_owner_leases(
        &self,
        ranges: &Vec<DerivedRange>,
        grants: &Grants,
        now: u64,
    ) -> (r: Result<(), Status>)
        ensures
            refused(r) == self@.lease_fault(shown(*grants), range_views(ranges@), now, 0),
    {
        let ghost s = range_views(ranges@);
        let ghost g = shown(*grants);
        let mut i: usize = 0;
        while i < ranges.len()
            invariant
                s == range_views(ranges@),
                g == shown(*grants),
                i <= ranges@.len(),
                self@.lease_fault(g, s, now, 0) == self@.lease_fault(g, s, now, i as nat),
            decreases ranges.len() - i,
        {
            let owner = &ranges[i].owner_node_id;
            proof {
                assert(s[i as int] == ranges@[i as int]@);
            }
            if !self.process_instances.contains(owner) {
                let before = joined("merged owner ", owner.as_str());
                let message = joined(before.as_str(), " is not registered");
                return Err(Status { code: Code::FailedPrecondition, message: message });
            }
            if !self.node_has_lease(grants, owner, now) {
                let before = joined("merged owner ", owner.as_str());
                let message = joined(before.as_str(), " has no current lease");
                return Err(Status { code: Code::FailedPrecondition, message: message });
            }
            i = i + 1;
        }
        Ok(())
    }
}

impl SnapshotView {
    /// The acknowledgement policy names some number of followers.
    pub open spec fn counts_followers(self) -> bool {
        self.write_ack_policy == WriteAckPolicy::AllReplicas ==> self.desired_replication_factor
            >= 1
    }

    /// Why a topology has no ranges, if it has none.
    pub open spec fn range_fault(self) -> Option<StatusView> {
        if self.assignments.len() == 0 {
            Some(refusal(Code::Internal, topology_error_text(TopologyError::NoAssignments)))
        } else {
            None
        }
    }

    /// How many followers the acknowledgement policy names.
    pub open spec fn policy_followers(self) -> nat {
        match self.write_ack_policy {
            WriteAckPolicy::OwnerOnly => 0,
            WriteAckPolicy::FirstSuccessor => 1,
            WriteAckPolicy::AllReplicas => (self.desired_replication_factor - 1) as nat,
        }
    }

    /// How many followers of each range must hold it before it is written to.
    pub open spec fn needed_followers(self) -> nat {
        let guard = self.write_availability_guard;
        let copies: nat = if guard.minimum_admitted_copies > 0 {
            (guard.minimum_admitted_copies - 1) as nat
        } else {
            0
        };
        let a = if self.policy_followers() < copies {
            copies
        } else {
            self.policy_followers()
        };
        if a < guard.minimum_healthy_followers {
            guard.minimum_healthy_followers as nat
        } else {
            a
        }
    }
}

/// How many followers the acknowledgement policy names.
pub fn policy_follower_count(t: &TopologySnapshot) -> (r: usize)
    requires
        t@.counts_followers(),
    ensures
        r == t@.policy_followers(),
{
    match t.write_ack_policy {
        WriteAckPolicy::OwnerOnly => 0,
        WriteAckPolicy::FirstSuccessor => 1,
        WriteAckPolicy::AllReplicas => t.desired_replication_factor as usize - 1,
    }
}

/// How many followers of each range must hold it before it is written to.
pub fn required_merge_followers(t: &TopologySnapshot) -> (r: usize)
    requires
        t@.counts_followers(),
    ensures
        r == t@.needed_followers(),
{
    let guard = &t.write_availability_guard;
    let policy = policy_follower_count(t);
    let copies = guard.minimum_admitted_copies.saturating_sub(1) as usize;
    let a = if policy < copies {
        copies
    } else {
        policy
    };
    let healthy = guard.minimum_healthy_followers as usize;
    if a < healthy {
        healthy
    } else {
        a
    }
}

} // verus!
