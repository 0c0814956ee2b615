//! Which processes may serve, and which are taken for failed.
use crate::cluster::{ClusterState, ClusterView};
use crate::coverage::{GrantView, Grants, NodeLeaseGrant};
use crate::errors::{refusal, refused, Code, Status, StatusView};
use crate::migration::MigrationPhase;
use crate::ordmap::{entry_index, lemma_entry, shown, unique_entries, MapKey, SortedMap};
use crate::recovery::maybe_next;
use crate::text::{joined, same_text};
use crate::topology::TopologySnapshot;
use vstd::prelude::*;

verus! {

/// How long a lease holds.
pub const NODE_LEASE_DURATION_NANOS: u64 = 5_000_000_000;

/// How long a lease holds, in milliseconds.
pub const NODE_LEASE_DURATION_MILLIS: u64 = 5_000;

/// How long a report of an unreachable peer counts.
pub const PEER_REPORT_WINDOW_NANOS: u64 = 2_000_000_000;

/// When a node was first and last reported unreachable, without a gap in between.
#[derive(Clone, Copy, Debug, Eq, PartialEq, Structural)]
pub struct PeerFailure {
    pub first_seen: u64,
    pub last_seen: u64,
}

impl View for PeerFailure {
    type V = PeerFailure;

    open spec fn view(&self) -> PeerFailure {
        *self
    }
}

/// What was reported, by the node that is said to be unreachable and the one that says so.
pub type PeerFailures = SortedMap<(String, String), PeerFailure>;

/// A node that does not answer and one that says so.
pub type Report = (Seq<char>, Seq<char>);

/// Not longer ago than reports count.
pub open spec fn recent(last_seen: u64, now: u64) -> bool {
    now <= last_seen + PEER_REPORT_WINDOW_NANOS
}

/// Not longer ago than reports count.
fn is_recent(last_seen: u64, now: u64) -> (r: bool)
    ensures
        r == recent(last_seen, now),
{
    now <= last_seen || now - last_seen <= PEER_REPORT_WINDOW_NANOS
}

/// A lease that is granted at an instant.
pub open spec fn new_grant(
    process_instance_id: Seq<char>,
    epoch: u64,
    now: u64,
    unix_millis: u64,
) -> GrantView {
    GrantView {
        process_instance_id: process_instance_id,
        epoch: epoch,
        expires_at: (now + NODE_LEASE_DURATION_NANOS) as u64,
        expires_unix_millis: if unix_millis + NODE_LEASE_DURATION_MILLIS <= u64::MAX {
            (unix_millis + NODE_LEASE_DURATION_MILLIS) as u64
        } else {
            u64::MAX
        },
        last_renewal_unix_millis: unix_millis,
    }
}

impl ClusterView {
    /// A published change waits until every member may take leases.
    pub open spec fn awaits_activation(self) -> bool {
        self.active_change is Some && self.active_change->0.phase is Published
            && !self.active_change->0.activation_ready
    }

    /// A change is under way.
    pub open spec fn changing(self) -> bool {
        self.active_change is Some && !self.active_change->0.phase.terminal()
    }

    /// A node is to join with the change under way.
    pub open spec fn is_joining(self, node: Seq<char>) -> bool {
        self.changing() && self.active_change->0.target_topology.is_member(node)
    }

    /// A node runs a process from now on; one that only joins is not fenced any more.
    pub open spec fn registered(
        self,
        node: Seq<char>,
        instance: Seq<char>,
        committed: bool,
    ) -> ClusterView {
        ClusterView {
            fenced_nodes: if committed {
                self.fenced_nodes
            } else {
                self.fenced_nodes.remove(node)
            },
            process_instances: self.process_instances.insert(node, instance),
            ..self
        }
    }

    /// What comes of a process that registers for a node; nothing where it is registered.
    pub open spec fn registration(self, node: Seq<char>, instance: Seq<char>) -> Result<
        Option<ClusterView>,
        StatusView,
    > {
        let committed = self.committed.is_member(node);
        if node.len() == 0 || instance.len() == 0 {
            Err(
                refusal(
                    Code::InvalidArgument,
                    "node_id and process_instance_id must not be empty"@,
                ),
            )
        } else if !committed && !self.is_joining(node) {
            Err(
                refusal(
                    Code::FailedPrecondition,
                    "node is not present in committed or pending membership"@,
                ),
            )
        } else if committed && self.fenced_nodes.contains(node) {
            Err(refusal(Code::FailedPrecondition, "node has been fenced"@))
        } else if self.runs(node, instance) {
            Ok(None)
        } else if committed && self.process_instances.contains_key(node) {
            Err(
                refusal(
                    Code::FailedPrecondition,
                    "committed node "@ + node + " is fenced to another process instance"@,
                ),
            )
        } else {
            Ok(Some(self.registered(node, instance, committed)))
        }
    }

    /// A process may take a lease in an epoch.
    pub open spec fn may_lease(self, node: Seq<char>, instance: Seq<char>, epoch: u64) -> bool {
        &&& node.len() > 0
        &&& instance.len() > 0
        &&& self.committed.epoch == epoch
        &&& self.committed.is_member(node)
        &&& self.runs(node, instance)
        &&& !self.fenced_nodes.contains(node)
        &&& !self.awaits_activation()
    }

    /// A process may report on a peer in an epoch.
    pub open spec fn may_report(
        self,
        reporter: Seq<char>,
        instance: Seq<char>,
        peer: Seq<char>,
        epoch: u64,
    ) -> bool {
        &&& reporter != peer
        &&& peer.len() > 0
        &&& epoch == self.committed.epoch
        &&& self.runs(reporter, instance)
        &&& !self.fenced_nodes.contains(reporter)
        &&& self.committed.is_member(peer)
    }

    /// A reporter that holds a lease has found a node unreachable for the length of a lease.
    pub open spec fn accuses(
        self,
        grants: Map<Seq<char>, GrantView>,
        reports: Map<Report, PeerFailure>,
        node: Seq<char>,
        reporter: Seq<char>,
        now: u64,
    ) -> bool {
        &&& reports.contains_key((node, reporter))
        &&& reporter != node
        &&& self.has_lease(grants, reporter, now)
        &&& reports[(node, reporter)].first_seen + NODE_LEASE_DURATION_NANOS <= now
        &&& recent(reports[(node, reporter)].last_seen, now)
    }

    /// A node holds no lease, or two others have found it unreachable for long enough.
    pub open spec fn failed(
        self,
        grants: Map<Seq<char>, GrantView>,
        reports: Map<Report, PeerFailure>,
        node: Seq<char>,
        now: u64,
    ) -> bool {
        !self.has_lease(grants, node, now) || exists|a: Seq<char>, b: Seq<char>|
            a != b && #[trigger] self.accuses(grants, reports, node, a, now)
                && #[trigger] self.accuses(grants, reports, node, b, now)
    }
}

impl ClusterState {
    /// Tells whether a change is under way.
    pub fn is_changing(&self) -> (r: bool)
        ensures
            r == self@.changing(),
    {
        match &self.active_change {
            Some(change) => !change.phase.is_terminal(),
            None => false,
        }
    }

    /// Tells whether a published change waits until every member may take leases.
    pub fn awaits_activation(&self) -> (r: bool)
        ensures
            r == self@.awaits_activation(),
    {
        match &self.active_change {
            Some(change) => change.phase == MigrationPhase::Published && !change.activation_ready,
            None => false,
        }
    }

    fn registered(&self, node_id: &String, process_instance_id: &String, committed: bool) -> (r:
        ClusterState)
        ensures
            r@ == self@.registered(node_id@, process_instance_id@, committed),
    {
        let mut next = self.clone();
        if !committed {
            next.fenced_nodes.remove(node_id);
        }
        let _ = next.process_instances.insert(node_id.clone(), process_instance_id.clone());
        proof {
            assert(shown(next.process_instances) =~= self@.process_instances.insert(
                node_id@,
                process_instance_id@,
            ));
            assert(next@ =~= self@.registered(node_id@, process_instance_id@, committed));
        }
        next
    }

    /// Registers a process for a node. There is nothing to store where it is registered.
    pub fn register_node(&self, node_id: &String, process_instance_id: &String) -> (r: Result<
        Option<ClusterState>,
        Status,
    >)
        ensures
            maybe_next(r) == self@.registration(node_id@, process_instance_id@),
    {
        if node_id.as_str().is_empty() || process_instance_id.as_str().is_empty() {
            return Err(
                Status::new(
                    Code::InvalidArgument,
                    "node_id and process_instance_id must not be empty",
                ),
            );
        }
        let committed = self.committed.member(node_id.as_str()).is_some();
        let joining = match &self.active_change {
            Some(change) => !change.phase.is_terminal() && change.target_topology.member(
                node_id.as_str(),
            ).is_some(),
            None => false,
        };
        if !committed && !joining {
            return Err(
                Status::new(
                    Code::FailedPrecondition,
                    "node is not present in committed or pending membership",
                ),
            );
        }
        if committed && self.fenced_nodes.contains(node_id) {
            return Err(Status::new(Code::FailedPrecondition, "node has been fenced"));
        }
        if let Some(existing) = self.process_instances.get(node_id) {
            if same_text(existing.as_str(), process_instance_id.as_str()) {
                return Ok(None);
            }
            if committed {
                let before = joined("committed node ", node_id.as_str());
                let message = joined(before.as_str(), " is fenced to another process instance");
                return Err(Status { code: Code::FailedPrecondition, message: message });
            }
        }
        Ok(Some(self.registered(node_id, process_instance_id, committed)))
    }

    /// Grants a lease, and tells for which epoch.
    pub fn renew_node_lease(
        &self,
        grants: &mut Grants,
        node_id: &String,
        process_instance_id: &String,
        topology_epoch: u64,
        now: u64,
        unix_millis: u64,
    ) -> (r: Result<u64, Status>)
        requires
            now + NODE_LEASE_DURATION_NANOS <= u64::MAX,
        ensures
            r matches Ok(epoch) ==> epoch == topology_epoch,
            r is Ok == self@.may_lease(node_id@, process_instance_id@, topology_epoch),
            r matches Err(status) ==> status@ == refusal(
                Code::FailedPrecondition,
                "lease identity, epoch, or membership is no longer valid"@,
            ),
            shown(*final(grants)) == if r is Ok {
                shown(*old(grants)).insert(
                    node_id@,
                    new_grant(process_instance_id@, topology_epoch, now, unix_millis),
                )
            } else {
                shown(*old(grants))
            },
    {
        if node_id.as_str().is_empty() || process_instance_id.as_str().is_empty()
            || self.committed.epoch != topology_epoch || self.committed.member(
            node_id.as_str(),
        ).is_none() || !self.node_runs(node_id, process_instance_id.as_str())
            || self.fenced_nodes.contains(node_id) || self.awaits_activation() {
            return Err(
                Status::new(
                    Code::FailedPrecondition,
                    "lease identity, epoch, or membership is no longer valid",
                ),
            );
        }
        let grant = NodeLeaseGrant {
            process_instance_id: process_instance_id.clone(),
            epoch: topology_epoch,
            expires_at: now + NODE_LEASE_DURATION_NANOS,
            expires_unix_millis: unix_millis.saturating_add(NODE_LEASE_DURATION_MILLIS),
            last_renewal_unix_millis: unix_millis,
        };
        let ghost before = shown(*grants);
        let ghost granted = grant@;
        let _ = grants.insert(node_id.clone(), grant);
        proof {
            assert(shown(*grants) =~= before.insert(node_id@, granted));
        }
        Ok(topology_epoch)
    }
}

/// A report that a node is unreachable, after what was reported before.
pub open spec fn unreachable(before: Option<PeerFailure>, now: u64) -> PeerFailure {
    match before {
        None => PeerFailure { first_seen: now, last_seen: now },
        Some(failure) => PeerFailure {
            first_seen: if recent(failure.last_seen, now) {
                failure.first_seen
            } else {
                now
            },
            last_seen: now,
        },
    }
}

/// The reports after one more.
pub open spec fn reported_peers(
    before: Map<Report, PeerFailure>,
    key: Report,
    reachable: bool,
    now: u64,
) -> Map<Report, PeerFailure> {
    if reachable {
        before.remove(key)
    } else {
        before.insert(
            key,
            unreachable(
                if before.contains_key(key) {
                    Some(before[key])
                } else {
                    None
                },
                now,
            ),
        )
    }
}

/// What one node says of another.
pub struct PeerReport {
    pub reporter_node_id: String,
    pub reporter_process_instance_id: String,
    pub peer_node_id: String,
    pub topology_epoch: u64,
    pub reachable: bool,
}

impl ClusterView {
    /// Why a report is refused, if it is.
    pub open spec fn report_fault(
        self,
        grants: Map<Seq<char>, GrantView>,
        reporter: Seq<char>,
        instance: Seq<char>,
        peer: Seq<char>,
        epoch: u64,
        now: u64,
    ) -> Option<StatusView> {
        if !self.may_report(reporter, instance, peer, epoch) {
            Some(
                refusal(
                    Code::FailedPrecondition,
                    "peer report does not match active membership"@,
                ),
            )
        } else if !(grants.contains_key(reporter) && grants[reporter].epoch == epoch
            && grants[reporter].process_instance_id == instance && grants[reporter].expires_at
            > now) {
            Some(refusal(Code::FailedPrecondition, "reporter has no valid lease"@))
        } else {
            None
        }
    }
}

impl ClusterState {
    /// Takes note of what one node says of another.
    pub fn report_peer_health(
        &self,
        grants: &Grants,
        failures: &mut PeerFailures,
        report: &PeerReport,
        now: u64,
    ) -> (r: Result<(), Status>)
        ensures
            refused(r) == self@.report_fault(
                shown(*grants),
                report.reporter_node_id@,
                report.reporter_process_instance_id@,
                report.peer_node_id@,
                report.topology_epoch,
                now,
            ),
            shown(*final(failures)) == if r is Ok {
                reported_peers(
                    shown(*old(failures)),
                    (report.peer_node_id@, report.reporter_node_id@),
                    report.reachable,
                    now,
                )
            } else {
                shown(*old(failures))
            },
    {
        if same_text(report.reporter_node_id.as_str(), report.peer_node_id.as_str())
            || report.peer_node_id.as_str().is_empty() || report.topology_epoch
            != self.committed.epoch || !self.node_runs(
            &report.reporter_node_id,
            report.reporter_process_instance_id.as_str(),
        ) || self.fenced_nodes.contains(&report.reporter_node_id) || self.committed.member(
            report.peer_node_id.as_str(),
        ).is_none() {
            return Err(
                Status::new(
                    Code::FailedPrecondition,
                    "peer report does not match active membership",
                ),
            );
        }
        let leased = match grants.get(&report.reporter_node_id) {
            Some(grant) => grant.epoch == report.topology_epoch && same_text(
                grant.process_instance_id.as_str(),
                report.reporter_process_instance_id.as_str(),
            ) && grant.expires_at > now,
            None => false,
        };
        if !leased {
            return Err(Status::new(Code::FailedPrecondition, "reporter has no valid lease"));
        }
        let key: (String, String) = (report.peer_node_id.clone(), report.reporter_node_id.clone());
        let ghost before = shown(*failures);
        let ghost id: Report = (report.peer_node_id@, report.reporter_node_id@);
        proof {
            assert(key.id() == id);
        }
        if report.reachable {
            let _ = failures.remove(&key);
            proof {
                assert(shown(*failures) =~= before.remove(id));
            }
        } else {
            let failure = match failures.get(&key) {
                Some(failure) => PeerFailure {
                    first_seen: if is_recent(failure.last_seen, now) {
                        failure.first_seen
                    } else {
                        now
                    },
                    last_seen: now,
                },
                None => PeerFailure { first_seen: now, last_seen: now },
            };
            let _ = failures.insert(key, failure);
            proof {
                assert(shown(*failures) =~= reported_peers(before, id, false, now));
            }
        }
        Ok(())
    }

    /// Tells whether a process of a removed node may stop.
    pub fn is_stop_confirmed(&self, node_id: &String, process_instance_id: &String) -> (r: Result<
        bool,
        Status,
    >)
        ensures
            r is Ok == (node_id@.len() > 0 && process_instance_id@.len() > 0),
            r matches Ok(confirmed) ==> confirmed == (self@.stop_confirmations.contains_key(
                node_id@,
            ) && self@.stop_confirmations[node_id@].contains(process_instance_id@)),
            r matches Err(status) ==> status@ == refusal(
                Code::InvalidArgument,
                "node_id and process_instance_id must not be empty"@,
            ),
    {
        if node_id.as_str().is_empty() || process_instance_id.as_str().is_empty() {
            return Err(
                Status::new(
                    Code::InvalidArgument,
                    "node_id and process_instance_id must not be empty",
                ),
            );
        }
        match self.stop_confirmations.get(node_id) {
            Some(instances) => Ok(instances.contains(process_instance_id)),
            None => Ok(false),
        }
    }

    /// Tells whether a node is taken for failed.
    pub fn failure_confirmed(
        &self,
        grants: &Grants,
        reports: &PeerFailures,
        target: &String,
        now: u64,
    ) -> (r: bool)
        ensures
            r == self@.failed(shown(*grants), shown(*reports), target@, now),
    {
        if !self.node_has_lease(grants, target, now) {
            return true;
        }
        reports.expose();
        let ghost s = reports.sequence();
        let ghost g = shown(*grants);
        let ghost m = shown(*reports);
        let mut seen = false;
        let ghost mut first: Seq<char> = Seq::empty();
        let mut i: usize = 0;
        while i < reports.len()
            invariant
                s == reports.sequence(),
                unique_entries(s),
                g == shown(*grants),
                m == shown(*reports),
                self@.has_lease(g, target@, now),
                i <= s.len(),
                seen ==> self@.accuses(g, m, target@, first, now) && exists|j: int|
                    0 <= j < i && (#[trigger] s[j]).0 == (target@, first),
                forall|j: int|
                    0 <= j < i && (#[trigger] s[j]).0.0 == target@ && self@.accuses(
                        g,
                        m,
                        target@,
                        s[j].0.1,
                        now,
                    ) ==> seen && s[j].0.1 == first,
            decreases s.len() - i,
        {
            let key = reports.key_at(i);
            let report = reports.value_at(i);
            proof {
                lemma_entry(s, i as int);
                assert(s[i as int].0 == (key.0@, key.1@));
                assert(m.contains_key(s[i as int].0));
                assert(m[s[i as int].0] == *report);
            }
            if same_text(key.0.as_str(), target.as_str()) && !same_text(
                key.1.as_str(),
                key.0.as_str(),
            ) && self.node_has_lease(grants, &key.1, now) && now >= report.first_seen && now
                - report.first_seen >= NODE_LEASE_DURATION_NANOS && is_recent(
                report.last_seen,
                now,
            ) {
                proof {
                    assert(self@.accuses(g, m, target@, key.1@, now));
                }
                if seen {
                    proof {
                        let j = choose|j: int| 0 <= j < i && (#[trigger] s[j]).0 == (target@, first);
                        assert(s[j].0 != s[i as int].0);
                        assert(first != key.1@);
                    }
                    return true;
                }
                seen = true;
                proof {
                    first = key.1@;
                    assert(s[i as int].0 == (target@, first));
                }
            }
            i = i + 1;
        }
        proof {
            if exists|a: Seq<char>, b: Seq<char>|
                a != b && #[trigger] self@.accuses(g, m, target@, a, now)
                    && #[trigger] self@.accuses(g, m, target@, b, now) {
                let (a, b) = choose|a: Seq<char>, b: Seq<char>|
                    a != b && #[trigger] self@.accuses(g, m, target@, a, now)
                        && #[trigger] self@.accuses(g, m, target@, b, now);
                let ja = entry_index(s, (target@, a));
                lemma_entry(s, ja);
                let jb = entry_index(s, (target@, b));
                lemma_entry(s, jb);
                assert(s[ja].0 == (target@, a));
                assert(s[jb].0 == (target@, b));
                assert(false);
            }
        }
        false
    }

    /// Checks that a topology without a failed node can serve all ranges.
    pub fn prove_failure_coverage(
        &self,
        target: &TopologySnapshot,
        grants: &Grants,
        now: u64,
    ) -> (r: Result<(), Status>)
        ensures
            refused(r) == if self@.owner_lease_fault(shown(*grants), target@, now) is Some {
                self@.owner_lease_fault(shown(*grants), target@, now)
            } else {
                self@.removal_fault(target@)
            },
    {
        match self.prove_removal_owner_leases(target, grants, now) {
            Ok(()) => self.prove_removal_owner_coverage(target),
            Err(status) => Err(status),
        }
    }
}

/// One unreachable link is no failure: a node that holds a lease is taken for failed only if
/// two different nodes with leases say so.
pub proof fn law_one_reporter_confirms_nothing(
    s: ClusterView,
    grants: Map<Seq<char>, GrantView>,
    reports: Map<Report, PeerFailure>,
    node: Seq<char>,
    only: Seq<char>,
    now: u64,
)
    requires
        s.has_lease(grants, node, now),
        forall|k: Report| #[trigger] reports.contains_key(k) ==> k.1 == only,
    ensures
        !s.failed(grants, reports, node, now),
{
}

/// A published topology is not leased before it is activated, and a fenced node never.
pub proof fn law_fenced_nodes_get_no_lease(
    s: ClusterView,
    node: Seq<char>,
    instance: Seq<char>,
    epoch: u64,
)
    requires
        s.fenced_nodes.contains(node) || s.awaits_activation(),
    ensures
        !s.may_lease(node, instance, epoch),
{
}

/// The processes of committed members do not change by registration.
pub proof fn law_registration_keeps_committed_processes(
    s: ClusterView,
    node: Seq<char>,
    instance: Seq<char>,
    member: Seq<char>,
)
    requires
        s.committed.is_member(member),
        s.process_instances.contains_key(member),
        s.registration(node, instance) is Ok,
        s.registration(node, instance)->Ok_0 is Some,
    ensures
        s.registration(node, instance)->Ok_0->0.process_instances.contains_key(member),
        s.registration(node, instance)->Ok_0->0.process_instances[member]
            == s.process_instances[member],
{
}

} // verus!
