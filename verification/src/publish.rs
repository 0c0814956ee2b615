//! Publishing the target of a change.
use crate::changes::{
    change_identity, disappeared, next_view, storage_status, ChangeIdentity, IdentityView,
};
use crate::cluster::{
    AdmissionView, ClusterState, ClusterView, RepairView, ReplicaAdmission, ReplicaRepair,
};
use crate::errors::{refusal, Code, Status, StatusView};
use crate::migration::{ChangeView, MigrationPhase, MoveView, TopologyChange};
use crate::ordmap::{lemma_listing, listing, listing_of, shown, SortedMap};
use crate::text::{decimal_text, joined, same_text};
use crate::topology::{topology_error_text, SnapshotView, TopologyError};
use crate::views::{opt, views};
use vstd::prelude::*;

verus! {

/// The address and the process of a node.
pub type Contact = (Seq<char>, Seq<char>);

/// Where the first `n` ranges of a change go: each destination, its address and its process.
pub open spec fn destinations(ranges: Seq<MoveView>, n: nat) -> Map<Seq<char>, Contact>
    decreases n,
{
    if n == 0 {
        Map::empty()
    } else {
        destinations(ranges, (n - 1) as nat).insert(
            ranges[n - 1].destination_node_id,
            (
                ranges[n - 1].destination_endpoint,
                ranges[n - 1].destination_process_instance_id,
            ),
        )
    }
}

/// Why the destinations of ranges cannot be told from `i` on, if they cannot.
pub open spec fn destination_gap(ranges: Seq<MoveView>, i: nat) -> Option<StatusView>
    decreases ranges.len() - i,
{
    if i >= ranges.len() {
        None
    } else {
        let range = ranges[i as int];
        let known = destinations(ranges, i);
        if range.destination_process_instance_id.len() == 0 {
            Some(
                refusal(
                    Code::DataLoss,
                    "missing process instance for destination "@ + range.destination_node_id,
                ),
            )
        } else if known.contains_key(range.destination_node_id)
            && known[range.destination_node_id] != (
            range.destination_endpoint,
            range.destination_process_instance_id,
        ) {
            Some(
                refusal(
                    Code::DataLoss,
                    "destination "@ + range.destination_node_id
                        + " changed process instance during migration"@,
                ),
            )
        } else {
            destination_gap(ranges, i + 1)
        }
    }
}

/// Tells where the ranges of a change go.
pub fn destination_instances(change: &TopologyChange) -> (r: Result<
    SortedMap<String, (String, String)>,
    Status,
>)
    ensures
        match r {
            Ok(found) => destination_gap(change@.ranges, 0) is None && shown(found)
                == destinations(change@.ranges, change@.ranges.len()),
            Err(status) => destination_gap(change@.ranges, 0) == Some(status@),
        },
{
    let ghost s = change@.ranges;
    let mut found: SortedMap<String, (String, String)> = SortedMap::new();
    let mut i: usize = 0;
    proof {
        assert(shown(found) =~= destinations(s, 0));
    }
    while i < change.ranges.len()
        invariant
            s == change@.ranges,
            s == views(change.ranges@),
            i <= change.ranges@.len(),
            destination_gap(s, 0) == destination_gap(s, i as nat),
            shown(found) == destinations(s, i as nat),
        decreases change.ranges.len() - i,
    {
        let range = &change.ranges[i];
        proof {
            assert(s[i as int] == range@);
        }
        if range.destination_process_instance_id.as_str().is_empty() {
            let message = joined(
                "missing process instance for destination ",
                range.destination_node_id.as_str(),
            );
            return Err(Status { code: Code::DataLoss, message: message });
        }
        if let Some(known) = found.get(&range.destination_node_id) {
            if !same_text(known.0.as_str(), range.destination_endpoint.as_str()) || !same_text(
                known.1.as_str(),
                range.destination_process_instance_id.as_str(),
            ) {
                let before = joined("destination ", range.destination_node_id.as_str());
                let message = joined(
                    before.as_str(),
                    " changed process instance during migration",
                );
                return Err(Status { code: Code::DataLoss, message: message });
            }
        }
        let ghost before = shown(found);
        let _ = found.insert(
            range.destination_node_id.clone(),
            (range.destination_endpoint.clone(), range.destination_process_instance_id.clone()),
        );
        proof {
            assert(shown(found) =~= destinations(s, (i + 1) as nat));
        }
        i = i + 1;
    }
    Ok(found)
}

impl ClusterView {
    /// The first of these nodes, from `i` on, that does not run the process it ran before.
    pub open spec fn first_restarted(self, list: Seq<(Seq<char>, Contact)>, i: nat) -> Option<
        Seq<char>,
    >
        decreases list.len() - i,
    {
        if i >= list.len() {
            None
        } else if !self.runs(list[i as int].0, (list[i as int].1).1) {
            Some(list[i as int].0)
        } else {
            self.first_restarted(list, i + 1)
        }
    }

    /// What says that a destination runs another process.
    pub open spec fn restart_fault(self, ranges: Seq<MoveView>) -> Option<StatusView> {
        match self.first_restarted(
            listing_of::<String, Contact>(destinations(ranges, ranges.len())),
            0,
        ) {
            Some(node) => Some(
                refusal(
                    Code::FailedPrecondition,
                    "destination process changed before publication: "@ + node,
                ),
            ),
            None => None,
        }
    }
}

fn says_restarted(node: &String) -> (r: Status)
    ensures
        r@ == refusal(
            Code::FailedPrecondition,
            "destination process changed before publication: "@ + node@,
        ),
{
    Status {
        code: Code::FailedPrecondition,
        message: joined("destination process changed before publication: ", node.as_str()),
    }
}

/// Checks what a destination says of itself against what it said before.
pub fn verify_destination_instance(
    node_id: &String,
    expected_instance: &String,
    actual_node_id: &String,
    actual_instance: &String,
) -> (r: Result<(), Status>)
    ensures
        r is Ok == (actual_node_id@ == node_id@ && actual_instance@ == expected_instance@),
        r matches Err(status) ==> status@ == refusal(
            Code::FailedPrecondition,
            "destination process changed before publication: "@ + node_id@,
        ),
{
    if same_text(actual_node_id.as_str(), node_id.as_str()) && same_text(
        actual_instance.as_str(),
        expected_instance.as_str(),
    ) {
        Ok(())
    } else {
        Err(says_restarted(node_id))
    }
}

/// What says that there are too many copies.
pub open spec fn overburden_status() -> StatusView {
    refusal(
        Code::Internal,
        "invalid coordinator state: "@ + ("topology exceeds the "@ + decimal_text(16_384)
            + " replica-task limit"@),
    )
}

/// What says that a topology assigns nothing.
pub open spec fn unassigned_status() -> StatusView {
    refusal(
        Code::Internal,
        "invalid topology: "@ + topology_error_text(TopologyError::NoAssignments),
    )
}

/// A state brought in line with its topology, if that assigns tokens and has no more copies than
/// can be followed.
pub open spec fn aligned(n: ClusterView) -> Result<ClusterView, StatusView> {
    if n.committed.assignments.len() == 0 {
        Err(unassigned_status())
    } else if n.overburdened() {
        Err(overburden_status())
    } else {
        Ok(n.reconciled())
    }
}

/// Brings a state in line with its topology.
pub fn align(mut next: ClusterState) -> (r: Result<ClusterState, Status>)
    ensures
        next_view(r) == aligned(next@),
        r matches Ok(n) ==> n.active_change == next.active_change,
{
    let ghost before = next;
    match next.reconcile_replica_repairs() {
        Ok(()) => Ok(next),
        Err(error) => {
            proof {
                assert(before@.misplaced() is Some);
            }
            Err(storage_status(&error))
        },
    }
}

/// Why a change is not published.
pub struct PublishRefusal {
    pub status: Status,
    /// Whether the change is to be aborted for it.
    pub aborts: bool,
}

#[verifier::ext_equal]
pub struct PublishRefusalView {
    pub status: StatusView,
    pub aborts: bool,
}

impl View for PublishRefusal {
    type V = PublishRefusalView;

    open spec fn view(&self) -> PublishRefusalView {
        PublishRefusalView { status: self.status@, aborts: self.aborts }
    }
}

impl ClusterView {
    /// The change under way published.
    pub open spec fn published(self) -> ClusterView {
        ClusterView {
            committed: self.active_change->0.target_topology,
            active_change: Some(
                ChangeView { phase: MigrationPhase::Published, ..self.active_change->0 },
            ),
            ..self
        }
    }

    /// What comes of publishing a migrated change.
    pub open spec fn publication(self, change: ChangeView, expected: IdentityView) -> Result<
        ClusterView,
        PublishRefusalView,
    > {
        let gap = destination_gap(change.ranges, 0);
        if gap is Some {
            Err(PublishRefusalView { status: gap->0, aborts: false })
        } else if self.restart_fault(change.ranges) is Some {
            Err(PublishRefusalView { status: self.restart_fault(change.ranges)->0, aborts: true })
        } else if self.active_change is None {
            Err(PublishRefusalView { status: disappeared(), aborts: false })
        } else if self.active_change->0.identity() != expected {
            Err(
                PublishRefusalView {
                    status: refusal(
                        Code::FailedPrecondition,
                        "active topology change changed before publication"@,
                    ),
                    aborts: false,
                },
            )
        } else {
            match aligned(self.published()) {
                Ok(next) => Ok(next),
                Err(status) => Err(PublishRefusalView { status: status, aborts: false }),
            }
        }
    }
}

/// An outcome of a publication as its view.
pub open spec fn publication_view(r: Result<ClusterState, PublishRefusal>) -> Result<
    ClusterView,
    PublishRefusalView,
> {
    match r {
        Ok(next) => Ok(next@),
        Err(refusal) => Err(refusal@),
    }
}

impl ClusterState {
    fn find_restarted(&self, found: &SortedMap<String, (String, String)>) -> (r: Option<String>)
        ensures
            opt(r) == self@.first_restarted(listing_of::<String, Contact>(shown(*found)), 0),
    {
        found.expose();
        let ghost l = listing(*found);
        proof {
            lemma_listing(*found);
        }
        let mut i: usize = 0;
        while i < found.len()
            invariant
                l == listing(*found),
                l.len() == found.sequence().len(),
                i <= l.len(),
                self@.first_restarted(l, 0) == self@.first_restarted(l, i as nat),
                listing_of::<String, Contact>(shown(*found)) == l,
            decreases l.len() - i,
        {
            let node = found.key_at(i);
            let contact = found.value_at(i);
            proof {
                assert(l[i as int] == (node@, contact@));
            }
            if !self.node_runs(node, contact.1.as_str()) {
                return Some(node.clone());
            }
            i = i + 1;
        }
        None
    }

    /// Publishes a migrated change.
    pub fn publish_change(&self, change: &TopologyChange, expected: &ChangeIdentity) -> (r: Result<
        ClusterState,
        PublishRefusal,
    >)
        ensures
            publication_view(r) == self@.publication(change@, expected@),
    {
        let found = match destination_instances(change) {
            Ok(found) => found,
            Err(status) => return Err(PublishRefusal { status: status, aborts: false }),
        };
        if let Some(node) = self.find_restarted(&found) {
            return Err(PublishRefusal { status: says_restarted(&node), aborts: true });
        }
        let active = match &self.active_change {
            Some(active) => active,
            None => return Err(
                PublishRefusal {
                    status: Status::new(Code::Internal, "active change disappeared"),
                    aborts: false,
                },
            ),
        };
        if !change_identity(active).same(expected) {
            return Err(
                PublishRefusal {
                    status: Status::new(
                        Code::FailedPrecondition,
                        "active topology change changed before publication",
                    ),
                    aborts: false,
                },
            );
        }
        let mut next = self.clone();
        let mut published = active.clone();
        published.phase = MigrationPhase::Published;
        next.committed = active.target_topology.clone();
        next.active_change = Some(published);
        proof {
            assert(next@ =~= self@.published());
        }
        match align(next) {
            Ok(next) => Ok(next),
            Err(status) => Err(PublishRefusal { status: status, aborts: false }),
        }
    }
}

/// An admission under another epoch.
pub open spec fn readmitted(list: Seq<AdmissionView>, epoch: u64) -> Seq<AdmissionView> {
    Seq::new(list.len(), |i: int| AdmissionView { epoch: epoch, ..list[i] })
}

/// Repairs under another epoch.
pub open spec fn reassigned(list: Seq<RepairView>, epoch: u64) -> Seq<RepairView> {
    Seq::new(list.len(), |i: int| RepairView { epoch: epoch, ..list[i] })
}

fn readmit(list: &Vec<ReplicaAdmission>, epoch: u64) -> (r: Vec<ReplicaAdmission>)
    ensures
        views(r@) == readmitted(views(list@), epoch),
{
    let mut r: Vec<ReplicaAdmission> = Vec::new();
    let mut i: usize = 0;
    while i < list.len()
        invariant
            i <= list@.len(),
            r@.len() == i,
            forall|j: int|
                0 <= j < i ==> (#[trigger] r@[j])@ == (AdmissionView { epoch: epoch, ..list@[j]@ }),
        decreases list.len() - i,
    {
        let mut a = list[i].clone();
        a.epoch = epoch;
        r.push(a);
        i = i + 1;
    }
    proof {
        assert(views(r@) =~= readmitted(views(list@), epoch));
    }
    r
}

fn reassign(list: &Vec<ReplicaRepair>, epoch: u64) -> (r: Vec<ReplicaRepair>)
    ensures
        views(r@) == reassigned(views(list@), epoch),
{
    let mut r: Vec<ReplicaRepair> = Vec::new();
    let mut i: usize = 0;
    while i < list.len()
        invariant
            i <= list@.len(),
            r@.len() == i,
            forall|j: int|
                0 <= j < i ==> (#[trigger] r@[j])@ == (RepairView { epoch: epoch, ..list@[j]@ }),
        decreases list.len() - i,
    {
        let mut a = list[i].clone();
        a.epoch = epoch;
        r.push(a);
        i = i + 1;
    }
    proof {
        assert(views(r@) =~= reassigned(views(list@), epoch));
    }
    r
}

impl ClusterView {
    /// New settings on the same placement: copies stay admitted.
    pub open spec fn with_policy(self, target: SnapshotView) -> ClusterView {
        ClusterView {
            committed: target,
            active_change: Some(
                ChangeView { phase: MigrationPhase::Published, ..self.active_change->0 },
            ),
            replica_admissions: readmitted(self.replica_admissions, target.epoch),
            replica_repairs: reassigned(self.replica_repairs, target.epoch),
            ..self
        }
    }

    /// What comes of publishing new settings.
    pub open spec fn policy_publication(self, change: ChangeView) -> Result<
        ClusterView,
        StatusView,
    > {
        if !self.runs_change(change.identity()) {
            Err(
                refusal(
                    Code::FailedPrecondition,
                    "policy transition changed before publication"@,
                ),
            )
        } else {
            aligned(self.with_policy(change.target_topology))
        }
    }

    /// A smaller topology published.
    pub open spec fn shrunk(self, change: ChangeView, admissions: Option<Seq<AdmissionView>>) -> ClusterView {
        ClusterView {
            committed: change.target_topology,
            active_change: Some(
                ChangeView {
                    phase: MigrationPhase::Published,
                    activation_ready: true,
                    ..self.active_change->0
                },
            ),
            process_instances: if admissions is Some {
                self.process_instances
            } else {
                self.process_instances.remove(change.failed_node_id->0)
            },
            replica_admissions: if admissions is Some {
                admissions->0
            } else {
                Seq::empty()
            },
            replica_repairs: Seq::empty(),
            ..self
        }
    }

    /// What comes of publishing a smaller topology: with the admissions that were carried over,
    /// or without any where a node has failed.
    pub open spec fn removal_publication(
        self,
        change: ChangeView,
        admissions: Option<Seq<AdmissionView>>,
    ) -> Result<ClusterView, StatusView> {
        if !self.runs_change(change.identity()) {
            Err(
                refusal(
                    Code::FailedPrecondition,
                    "removal transition changed before publication"@,
                ),
            )
        } else if admissions is None && change.failed_node_id is None {
            Err(refusal(Code::Internal, "failure transition omitted node identity"@))
        } else {
            aligned(self.shrunk(change, admissions))
        }
    }
}

/// Which copies a smaller topology begins with.
pub enum RemovalPublication {
    Graceful { admissions: Vec<ReplicaAdmission> },
    Failed,
}

impl View for RemovalPublication {
    type V = Option<Seq<AdmissionView>>;

    open spec fn view(&self) -> Option<Seq<AdmissionView>> {
        match self {
            RemovalPublication::Graceful { admissions } => Some(views(admissions@)),
            RemovalPublication::Failed => None,
        }
    }
}

impl ClusterState {
    /// Publishes new settings on the same placement.
    pub fn publish_policy(&self, change: &TopologyChange) -> (r: Result<ClusterState, Status>)
        ensures
            next_view(r) == self@.policy_publication(change@),
    {
        let refused_status = Status::new(
            Code::FailedPrecondition,
            "policy transition changed before publication",
        );
        if !self.runs_change(&change_identity(change)) {
            return Err(refused_status);
        }
        let active = match &self.active_change {
            Some(active) => active,
            None => return Err(refused_status),
        };
        let mut next = self.clone();
        let mut published = active.clone();
        published.phase = MigrationPhase::Published;
        next.active_change = Some(published);
        let epoch = change.target_topology.epoch;
        next.committed = change.target_topology.clone();
        next.replica_admissions = readmit(&next.replica_admissions, epoch);
        next.replica_repairs = reassign(&next.replica_repairs, epoch);
        proof {
            assert(next@ =~= self@.with_policy(change@.target_topology));
        }
        align(next)
    }

    /// Publishes a smaller topology.
    pub fn publish_removed_topology(
        &self,
        change: &TopologyChange,
        publication: RemovalPublication,
    ) -> (r: Result<ClusterState, Status>)
        ensures
            next_view(r) == self@.removal_publication(change@, publication@),
    {
        let refused_status = Status::new(
            Code::FailedPrecondition,
            "removal transition changed before publication",
        );
        if !self.runs_change(&change_identity(change)) {
            return Err(refused_status);
        }
        let active = match &self.active_change {
            Some(active) => active,
            None => return Err(refused_status),
        };
        let ghost carried = publication@;
        let mut next = self.clone();
        let mut published = active.clone();
        published.phase = MigrationPhase::Published;
        published.activation_ready = true;
        next.active_change = Some(published);
        next.committed = change.target_topology.clone();
        next.replica_repairs = Vec::new();
        match publication {
            RemovalPublication::Graceful { admissions } => {
                next.replica_admissions = admissions;
            },
            RemovalPublication::Failed => {
                match &change.failed_node_id {
                    Some(node_id) => {
                        let _ = next.process_instances.remove(node_id);
                        proof {
                            assert(shown(next.process_instances)
                                =~= self@.process_instances.remove(node_id@));
                        }
                    },
                    None => return Err(
                        Status::new(Code::Internal, "failure transition omitted node identity"),
                    ),
                }
                next.replica_admissions = Vec::new();
                proof {
                    assert(views(next.replica_admissions@) =~= Seq::empty());
                }
            },
        }
        proof {
            assert(views(next.replica_repairs@) =~= Seq::empty());
            assert(next@ =~= self@.shrunk(change@, carried));
        }
        align(next)
    }
}

} // verus!
