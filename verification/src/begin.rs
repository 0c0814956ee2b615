//! Beginning a change, on request or because a node has failed.
use crate::begin_laws::law_changes_aim_at_what_was_asked_for;
use crate::changes::{change_identity, ChangeIdentity};
use crate::cluster::{list_duties, ClusterState, ClusterView};
use crate::coverage::{ranges_of, GrantView, Grants};
use crate::errors::{refusal, Code, Status, StatusView};
use crate::leases::{PeerFailure, PeerFailures, Report, NODE_LEASE_DURATION_NANOS};
use crate::merge::naturally_merges;
use crate::migration::{
    is_plan, migration_error_text, ChangeView, MigrationError, TopologyChange,
    MAX_REPLICA_OBLIGATIONS,
};
use crate::ordmap::shown;
use crate::reconcile::{lemma_sifted_prefix, sifted};
use crate::text::{around_number, decimal_text, same_text};
use crate::topology::{
    member_views, same_members, Member, SnapshotView, TopologyConfig, TopologySnapshot,
    WriteAckPolicy, WriteAvailabilityGuard,
};
use crate::views::{opt, views};
use vstd::prelude::*;

verus! {

/// Settings with some of them changed.
pub open spec fn requested_config(
    config: TopologyConfig,
    policy: Option<WriteAckPolicy>,
    factor: Option<u32>,
    guard: Option<WriteAvailabilityGuard>,
) -> TopologyConfig {
    TopologyConfig {
        desired_replication_factor: if factor is Some {
            factor->0
        } else {
            config.desired_replication_factor
        },
        write_ack_policy: if policy is Some {
            policy->0
        } else {
            config.write_ack_policy
        },
        write_availability_guard: if guard is Some {
            guard->0
        } else {
            config.write_availability_guard
        },
    }
}

/// The members of a target cannot satisfy its write policy and availability guard.
pub open spec fn unsatisfiable(committed: SnapshotView, target: SnapshotView) -> bool {
    let guard = target.write_availability_guard;
    let n = target.members.len();
    ||| n < guard.minimum_admitted_copies
    ||| (if n > 0 {
        n - 1
    } else {
        0
    }) < guard.minimum_healthy_followers
    ||| target.desired_replication_factor < guard.minimum_admitted_copies
    ||| (if target.desired_replication_factor > 0 {
        target.desired_replication_factor - 1
    } else {
        0
    }) < guard.minimum_healthy_followers
    ||| target.write_ack_policy == WriteAckPolicy::FirstSuccessor && n < 2
    ||| (target.members != committed.members || target.desired_replication_factor
        != committed.desired_replication_factor) && target.write_ack_policy
        == WriteAckPolicy::AllReplicas && n < target.desired_replication_factor
}

fn is_unsatisfiable(committed: &TopologySnapshot, target: &TopologySnapshot) -> (r: bool)
    ensures
        r == unsatisfiable(committed@, target@),
{
    let guard = &target.write_availability_guard;
    let n = target.members.len();
    proof {
        assert(target@.members.len() == n);
    }
    n < guard.minimum_admitted_copies as usize || n.saturating_sub(1)
        < guard.minimum_healthy_followers as usize || target.desired_replication_factor
        < guard.minimum_admitted_copies || target.desired_replication_factor.saturating_sub(1)
        < guard.minimum_healthy_followers || (target.write_ack_policy
        == WriteAckPolicy::FirstSuccessor && n < 2) || ((!same_members(
        &target.members,
        &committed.members,
    ) || target.desired_replication_factor != committed.desired_replication_factor)
        && target.write_ack_policy == WriteAckPolicy::AllReplicas && n
        < target.desired_replication_factor as usize)
}

impl ClusterView {
    /// A planned change as it is begun: ranges that can pass to natural heirs are not migrated.
    pub open spec fn drafted(self, plan: ChangeView) -> ChangeView {
        if naturally_merges(self.committed, plan.target_topology) && self.merge_fault(
            plan.target_topology,
        ) is None {
            ChangeView { direct_merge: true, ranges: Seq::empty(), ..plan }
        } else {
            plan
        }
    }

    /// What comes of beginning a planned change.
    pub open spec fn begun(self, plan: ChangeView) -> Result<ClusterView, StatusView> {
        let target = plan.target_topology;
        if unsatisfiable(self.committed, target) {
            Err(
                refusal(
                    Code::FailedPrecondition,
                    "target membership cannot satisfy its write policy and availability guard"@,
                ),
            )
        } else if target.duties().len() > MAX_REPLICA_OBLIGATIONS {
            Err(
                refusal(
                    Code::ResourceExhausted,
                    "target topology exceeds the "@ + decimal_text(16_384)
                        + " replica-task limit"@,
                ),
            )
        } else {
            Ok(
                ClusterView {
                    active_change: Some(self.drafted(plan)),
                    recovery_block_reason: Seq::empty(),
                    ..self
                },
            )
        }
    }
}

/// A state and the change that it has begun, as views.
pub open spec fn begun_view(r: Result<(ClusterState, TopologyChange), Status>) -> Result<
    (ClusterView, ChangeView),
    StatusView,
> {
    match r {
        Ok((next, change)) => Ok((next@, change@)),
        Err(status) => Err(status@),
    }
}

/// What comes of a request whose plan is known.
pub open spec fn answers_plan(
    s: ClusterView,
    plan: Result<TopologyChange, MigrationError>,
    r: Result<(ClusterState, TopologyChange), Status>,
) -> bool {
    begun_view(r) == match plan {
        Err(error) => Err::<(ClusterView, ChangeView), StatusView>(
            refusal(Code::InvalidArgument, migration_error_text(error)),
        ),
        Ok(planned) => match s.begun(planned@) {
            Ok(next) => Ok((next, s.drafted(planned@))),
            Err(status) => Err(status),
        },
    }
}

impl ClusterState {
    /// Begins a planned change.
    pub fn begin_planned(&self, plan: TopologyChange) -> (r: Result<
        (ClusterState, TopologyChange),
        Status,
    >)
        requires
            plan@.target_topology.placeable(),
            plan@.target_topology.counts_followers(),
        ensures
            begun_view(r) == match self@.begun(plan@) {
                Ok(next) => Ok((next, self@.drafted(plan@))),
                Err(status) => Err(status),
            },
    {
        let mut change = plan;
        let ghost p = change@;
        if self.can_direct_merge(&change) {
            change.direct_merge = true;
            change.ranges = Vec::new();
            proof {
                assert(views(change.ranges@) =~= Seq::empty());
            }
        }
        proof {
            assert(change@ =~= self@.drafted(p));
        }
        if is_unsatisfiable(&self.committed, &change.target_topology) {
            return Err(
                Status::new(
                    Code::FailedPrecondition,
                    "target membership cannot satisfy its write policy and availability guard",
                ),
            );
        }
        let ranges = match ranges_of(&change.target_topology) {
            Ok(ranges) => ranges,
            Err(status) => return Err(status),
        };
        let duties = list_duties(&ranges);
        proof {
            assert(duties@.len() == change@.target_topology.duties().len());
        }
        if duties.len() > MAX_REPLICA_OBLIGATIONS {
            let message = around_number(
                "target topology exceeds the ",
                16_384,
                " replica-task limit",
            );
            return Err(Status { code: Code::ResourceExhausted, message: message });
        }
        let mut next = self.clone();
        next.active_change = Some(change.clone());
        next.recovery_block_reason = String::new();
        proof {
            assert(next@ =~= self@.begun(p)->Ok_0);
        }
        Ok((next, change))
    }

    /// Begins a change of members or of settings.
    pub fn begin_topology_change(
        &self,
        target_members: Vec<Member>,
        target_policy: Option<WriteAckPolicy>,
        target_factor: Option<u32>,
        target_guard: Option<WriteAvailabilityGuard>,
    ) -> (r: Result<(ClusterState, TopologyChange), Status>)
        requires
            self@.committed.placeable(),
        ensures
            ({
                let config = requested_config(
                    self@.committed.config(),
                    target_policy,
                    target_factor,
                    target_guard,
                );
                if self@.changing() {
                    r is Err && r->Err_0@ == refusal(
                        Code::FailedPrecondition,
                        "another topology change is already active"@,
                    )
                } else if config != self@.committed.config() && member_views(target_members@)
                    != self@.committed.members {
                    r is Err && r->Err_0@ == refusal(
                        Code::InvalidArgument,
                        "change membership and topology configuration in separate transitions"@,
                    )
                } else {
                    exists|plan: Result<TopologyChange, MigrationError>|
                        #![trigger is_plan(self@.committed, target_members@, config, plan)]
                        is_plan(self@.committed, target_members@, config, plan) && answers_plan(
                            self@,
                            plan,
                            r,
                        )
                }
            }),
            r matches Ok((next, change)) ==> {
                &&& next@.active_change == Some(change@)
                &&& change@.target_topology.desired_replication_factor == match target_factor {
                    Some(factor) => factor,
                    None => self@.committed.desired_replication_factor,
                }
                &&& change@.target_topology.write_ack_policy == match target_policy {
                    Some(policy) => policy,
                    None => self@.committed.write_ack_policy,
                }
                &&& change@.target_topology.write_availability_guard == match target_guard {
                    Some(guard) => guard,
                    None => self@.committed.write_availability_guard,
                }
                &&& change@.target_topology.members.to_multiset() == member_views(
                    target_members@,
                ).to_multiset()
                &&& change@.target_topology.epoch == self@.committed.epoch + 1
            },
    {
        if self.is_changing() {
            return Err(
                Status::new(
                    Code::FailedPrecondition,
                    "another topology change is already active",
                ),
            );
        }
        let current = self.committed.config();
        let mut config = self.committed.config();
        if let Some(policy) = target_policy {
            config.write_ack_policy = policy;
        }
        if let Some(factor) = target_factor {
            config.desired_replication_factor = factor;
        }
        if let Some(guard) = target_guard {
            config.write_availability_guard = guard;
        }
        if config != current && !same_members(&target_members, &self.committed.members) {
            return Err(
                Status::new(
                    Code::InvalidArgument,
                    "change membership and topology configuration in separate transitions",
                ),
            );
        }
        let plan = TopologyChange::plan_with_config(&self.committed, target_members, config);
        let ghost p = plan;
        proof {
            assert(is_plan(self@.committed, target_members@, config, p));
        }
        match plan {
            Ok(planned) => {
                proof {
                    law_changes_aim_at_what_was_asked_for(
                        self@.committed,
                        target_members@,
                        target_policy,
                        target_factor,
                        target_guard,
                        planned,
                    );
                }
                self.begin_planned(planned)
            },
            Err(error) => Err(Status { code: Code::InvalidArgument, message: error.message() }),
        }
    }
}

impl ClusterView {
    /// A member that is registered, not fenced and taken for failed.
    pub open spec fn has_failed(
        self,
        grants: Map<Seq<char>, GrantView>,
        reports: Map<Report, PeerFailure>,
        node: Seq<char>,
        now: u64,
    ) -> bool {
        &&& self.process_instances.contains_key(node)
        &&& !self.fenced_nodes.contains(node)
        &&& self.failed(grants, reports, node, now)
    }

    /// The first member, from `i` on, that has failed.
    pub open spec fn first_failed(
        self,
        grants: Map<Seq<char>, GrantView>,
        reports: Map<Report, PeerFailure>,
        now: u64,
        i: nat,
    ) -> Option<Seq<char>>
        decreases self.committed.members.len() - i,
    {
        if i >= self.committed.members.len() {
            None
        } else if self.has_failed(grants, reports, self.committed.members[i as int].node_id, now) {
            Some(self.committed.members[i as int].node_id)
        } else {
            self.first_failed(grants, reports, now, i + 1)
        }
    }

    /// The member to remove because it has failed: none while a change is under way, while it
    /// would be the last, or before leases from before the start have run out.
    pub open spec fn failed_member(
        self,
        grants: Map<Seq<char>, GrantView>,
        reports: Map<Report, PeerFailure>,
        startup_at: u64,
        now: u64,
    ) -> Option<Seq<char>> {
        if self.changing() || self.committed.members.len() <= 1 || now < startup_at
            + NODE_LEASE_DURATION_NANOS {
            None
        } else {
            self.first_failed(grants, reports, now, 0)
        }
    }

    /// A failed node fenced, and the change without it begun.
    pub open spec fn fenced(self, node: Seq<char>, change: ChangeView) -> ClusterView {
        ClusterView {
            fenced_nodes: self.fenced_nodes.insert(node),
            active_change: Some(change),
            recovery_block_reason: Seq::empty(),
            ..self
        }
    }
}

/// Every member but one.
pub open spec fn not_named(node: Seq<char>) -> spec_fn(Member) -> bool {
    |m: Member| m.node_id@ != node
}

/// Copies members without one of them.
pub fn members_without(list: &Vec<Member>, node: &String) -> (r: Vec<Member>)
    ensures
        r@ == sifted(list@, not_named(node@)),
{
    let ghost p = not_named(node@);
    let mut r: Vec<Member> = Vec::new();
    let mut i: usize = 0;
    proof {
        assert(list@.subrange(0, 0) =~= Seq::empty());
        assert(r@ =~= Seq::empty());
    }
    while i < list.len()
        invariant
            p == not_named(node@),
            i <= list@.len(),
            r@ == sifted(list@.subrange(0, i as int), p),
        decreases list.len() - i,
    {
        proof {
            lemma_sifted_prefix(list@, i as int, p);
        }
        if !same_text(list[i].node_id.as_str(), node.as_str()) {
            r.push(list[i].clone());
        }
        i = i + 1;
    }
    proof {
        assert(list@.subrange(0, list@.len() as int) =~= list@);
    }
    r
}

/// What comes of a look for failed members.
pub enum FailureStep {
    /// The change that does without a failed member goes on.
    Resume(ChangeIdentity),
    /// The nodes that take part in another change are probed.
    Watch,
    /// No member has failed.
    Rest,
    /// A member has failed: it is fenced and a change without it begins.
    Remove(String),
}

impl ClusterState {
    /// Picks a member that has failed, once leases from before the start have run out.
    pub fn failure_candidate(
        &self,
        grants: &Grants,
        reports: &PeerFailures,
        startup_at: u64,
        now: u64,
    ) -> (r: Option<String>)
        ensures
            opt(r) == self@.failed_member(shown(*grants), shown(*reports), startup_at, now),
    {
        proof {
            assert(self@.committed.members.len() == self.committed.members@.len());
        }
        if self.is_changing() || self.committed.members.len() <= 1 || now < startup_at || now
            - startup_at < NODE_LEASE_DURATION_NANOS {
            return None;
        }
        let ghost g = shown(*grants);
        let ghost m = shown(*reports);
        let mut i: usize = 0;
        while i < self.committed.members.len()
            invariant
                g == shown(*grants),
                m == shown(*reports),
                i <= self.committed.members@.len(),
                self@.committed.members.len() == self.committed.members@.len(),
                !self@.changing(),
                self@.committed.members.len() > 1,
                now >= startup_at + NODE_LEASE_DURATION_NANOS,
                self@.first_failed(g, m, now, 0) == self@.first_failed(g, m, now, i as nat),
            decreases self.committed.members.len() - i,
        {
            let node = &self.committed.members[i].node_id;
            proof {
                assert(self@.committed.members[i as int].node_id == node@);
            }
            if self.process_instances.contains(node) && !self.fenced_nodes.contains(node)
                && self.failure_confirmed(grants, reports, node, now) {
                return Some(node.clone());
            }
            i = i + 1;
        }
        None
    }

    /// Looks once whether a member has failed. While a change is under way, that change comes
    /// first.
    pub fn run_failure_pass(
        &self,
        grants: &Grants,
        reports: &PeerFailures,
        startup_at: u64,
        now: u64,
    ) -> (r: FailureStep)
        ensures
            match r {
                FailureStep::Resume(identity) => self@.changing()
                    && self@.active_change->0.failed_node_id is Some && identity@
                    == self@.active_change->0.identity(),
                FailureStep::Watch => self@.changing()
                    && self@.active_change->0.failed_node_id is None,
                FailureStep::Rest => !self@.changing() && self@.failed_member(
                    shown(*grants),
                    shown(*reports),
                    startup_at,
                    now,
                ) is None,
                FailureStep::Remove(node) => !self@.changing() && self@.failed_member(
                    shown(*grants),
                    shown(*reports),
                    startup_at,
                    now,
                ) == Some(node@),
            },
    {
        if let Some(change) = &self.active_change {
            if !change.phase.is_terminal() {
                return if change.failed_node_id.is_some() {
                    FailureStep::Resume(change_identity(change))
                } else {
                    FailureStep::Watch
                };
            }
        }
        match self.failure_candidate(grants, reports, startup_at, now) {
            Some(node) => FailureStep::Remove(node),
            None => FailureStep::Rest,
        }
    }

    /// Plans the change that does without a failed node.
    pub fn plan_failure(&self, failed_node_id: &String) -> (r: Result<TopologyChange, Status>)
        requires
            self@.committed.placeable(),
        ensures
            exists|plan: Result<TopologyChange, MigrationError>|
                #![trigger is_plan(self@.committed, sifted(self.committed.members@, not_named(failed_node_id@)), self@.committed.config(), plan)]
                is_plan(
                    self@.committed,
                    sifted(self.committed.members@, not_named(failed_node_id@)),
                    self@.committed.config(),
                    plan,
                ) && match plan {
                    Ok(planned) => r is Ok && r->Ok_0@ == (ChangeView {
                        failed_node_id: Some(failed_node_id@),
                        ..planned@
                    }),
                    Err(error) => r is Err && r->Err_0@ == refusal(
                        Code::FailedPrecondition,
                        migration_error_text(error),
                    ),
                },
    {
        let members = members_without(&self.committed.members, failed_node_id);
        let plan = TopologyChange::plan(&self.committed, members);
        let ghost p = plan;
        proof {
            assert(is_plan(
                self@.committed,
                sifted(self.committed.members@, not_named(failed_node_id@)),
                self@.committed.config(),
                p,
            ));
        }
        match plan {
            Ok(planned) => {
                let mut change = planned;
                change.failed_node_id = Some(failed_node_id.clone());
                proof {
                    assert(change@ =~= ChangeView {
                        failed_node_id: Some(failed_node_id@),
                        ..p->Ok_0@
                    });
                }
                Ok(change)
            },
            Err(error) => Err(Status { code: Code::FailedPrecondition, message: error.message() }),
        }
    }

    /// Fences a failed node and begins the change without it, unless the cluster has moved on
    /// since that was planned.
    pub fn fence_failed_node(
        &self,
        planned_from: &TopologySnapshot,
        failed_node_id: &String,
        change: &TopologyChange,
    ) -> (r: Option<ClusterState>)
        ensures
            opt(r) == if self@.committed != planned_from@ || self@.changing() {
                None
            } else {
                Some(self@.fenced(failed_node_id@, change@))
            },
    {
        if !self.committed.same(planned_from) || self.is_changing() {
            return None;
        }
        let mut next = self.clone();
        let _ = next.fenced_nodes.insert(failed_node_id.clone());
        next.active_change = Some(change.clone());
        next.recovery_block_reason = String::new();
        proof {
            assert(next@ =~= self@.fenced(failed_node_id@, change@));
        }
        Some(next)
    }
}

/// A node is fenced before anything is published without it: no lease is granted to it from
/// then on.
pub proof fn law_failed_nodes_are_fenced_first(
    s: ClusterView,
    node: Seq<char>,
    change: ChangeView,
    instance: Seq<char>,
    epoch: u64,
)
    ensures
        s.fenced(node, change).committed == s.committed,
        !s.fenced(node, change).may_lease(node, instance, epoch),
{
}

/// Only one change is under way at a time: what was begun is not terminal before it ends.
pub proof fn law_begun_changes_are_under_way(s: ClusterView, plan: ChangeView)
    requires
        plan.phase is Planned,
        s.begun(plan) is Ok,
    ensures
        s.begun(plan)->Ok_0.changing(),
        s.begun(plan)->Ok_0.committed == s.committed,
{
}

/// A new change leaves the topology, the processes and the confirmed stops as they were.
pub proof fn law_new_changes_keep_what_is_committed(s: ClusterView, plan: ChangeView)
    requires
        s.begun(plan) is Ok,
    ensures
        ({
            let next = s.begun(plan)->Ok_0;
            &&& next.committed == s.committed
            &&& next.process_instances == s.process_instances
            &&& next.stop_confirmations == s.stop_confirmations
            &&& next.fenced_nodes == s.fenced_nodes
            &&& next.replica_admissions == s.replica_admissions
        }),
{
}

} // verus!
