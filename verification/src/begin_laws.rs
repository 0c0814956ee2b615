//! What a change is begun with, and when.
use crate::begin::requested_config;
use crate::cluster::ClusterView;
use crate::migration::{
    cuts, delta, endpoint_conflict, full_delta, is_plan, obligations_at, plan_target, ChangeView,
    Delta, DeltaFault, MigrationError, MigrationPhase, TopologyChange,
};
use crate::topology::{
    config_error, member_order, member_views, Member, MemberView, SnapshotView, TopologyConfig,
    WriteAckPolicy, WriteAvailabilityGuard,
};
use crate::topology_laws::{
    among, law_built_topologies_are_sound, law_every_token_has_a_member_owner, law_replica_count,
    lemma_members_ok, members_ok,
};
use vstd::prelude::*;
use vstd::seq_lib::lemma_sorted_unique;

verus! {

/// What is named, or else what was there.
pub open spec fn named_or<T>(named: Option<T>, there: T) -> T {
    match named {
        Some(value) => value,
        None => there,
    }
}

/// A planned change aims at exactly what was asked for: every setting that was named has the value
/// that was named, every other one the value that is committed, and the members are those that were
/// named. How keys are placed on the ring stays.
pub proof fn law_changes_aim_at_what_was_asked_for(
    committed: SnapshotView,
    members: Seq<Member>,
    policy: Option<WriteAckPolicy>,
    factor: Option<u32>,
    guard: Option<WriteAvailabilityGuard>,
    plan: TopologyChange,
)
    requires
        is_plan(
            committed,
            members,
            requested_config(committed.config(), policy, factor, guard),
            Ok(plan),
        ),
    ensures
        ({
            let target = plan@.target_topology;
            &&& target.desired_replication_factor == named_or(
                factor,
                committed.desired_replication_factor,
            )
            &&& target.write_ack_policy == named_or(policy, committed.write_ack_policy)
            &&& target.write_availability_guard == named_or(
                guard,
                committed.write_availability_guard,
            )
            &&& target.members.to_multiset() == member_views(members).to_multiset()
            &&& target.epoch == committed.epoch + 1
            &&& target.hash_seed == committed.hash_seed
            &&& target.virtual_nodes == committed.virtual_nodes
            &&& plan@.base_epoch == committed.epoch
            &&& plan@.base_topology == Some(committed)
            &&& plan@.supersedes_change_id is None
            &&& plan@.failed_node_id is None
            &&& plan@.phase == MigrationPhase::Planned
            &&& !plan@.activation_ready
            &&& !plan@.direct_merge
            &&& plan@.stopped_node_ids.len() == 0
            &&& plan@.stopping_node_ids.len() == 0
            &&& plan@.stop_prepared_node_ids.len() == 0
        }),
{
    let views = member_views(members);
    crate::topology::lemma_member_order();
    views.lemma_sort_by_ensures(member_order());
}

/// Settings are sane: there is a copy and not too many, the guard can be met by them, and who
/// waits for a successor has one. A guard of two copies with a single desired copy is an exception
/// that only keeps writes away.
pub open spec fn sane(config: TopologyConfig) -> bool {
    let factor = config.desired_replication_factor;
    let guard = config.write_availability_guard;
    &&& 1 <= factor <= 1_024
    &&& config.write_ack_policy == WriteAckPolicy::FirstSuccessor ==> factor >= 2
    &&& guard.minimum_admitted_copies >= 1
    &&& guard.max_replica_lag_millis >= 1
    &&& (guard.minimum_admitted_copies <= factor && guard.minimum_healthy_followers < factor) || (
    factor == 1 && guard.minimum_admitted_copies == 2 && guard.minimum_healthy_followers == 1)
}

/// Settings are accepted exactly where they are sane.
pub proof fn law_sane_settings_are_accepted(config: TopologyConfig)
    ensures
        config_error(config) is None <==> sane(config),
{
}

/// No member keeps its name and changes its address.
pub open spec fn addresses_stay(before: Seq<MemberView>, after: Seq<MemberView>) -> bool {
    forall|i: int, j: int|
        0 <= i < before.len() && 0 <= j < after.len() && (#[trigger] before[i]).node_id == (
        #[trigger] after[j]).node_id ==> before[i].endpoint == after[j].endpoint
}

proof fn lemma_conflict(before: Seq<MemberView>, after: Seq<MemberView>, n: nat)
    requires
        n <= before.len(),
        crate::topology_laws::distinct_ids(after),
    ensures
        endpoint_conflict(before, after, n) is None <==> forall|i: int, j: int|
            0 <= i < n && 0 <= j < after.len() && (#[trigger] before[i]).node_id == (
            #[trigger] after[j]).node_id ==> before[i].endpoint == after[j].endpoint,
    decreases n,
{
    if n > 0 {
        lemma_conflict(before, after, (n - 1) as nat);
        let m = before[n - 1];
        if among(after, m.node_id) {
            let j = choose|j: int| 0 <= j < after.len() && (#[trigger] after[j]).node_id == m.node_id;
            assert forall|k: int| 0 <= k < j implies (#[trigger] after[k]).node_id != m.node_id by {
                assert(after[k].node_id != after[j].node_id);
            }
            crate::topology::lemma_first_member(after, m.node_id, j);
            if m.endpoint == after[j].endpoint {
                assert forall|i: int, k: int|
                    0 <= i < n && 0 <= k < after.len() && (#[trigger] before[i]).node_id == (
                    #[trigger] after[k]).node_id && endpoint_conflict(
                        before,
                        after,
                        (n - 1) as nat,
                    ) is None implies before[i].endpoint == after[k].endpoint by {
                    if i == n - 1 && k != j {
                        if k < j {
                            assert(after[k].node_id != after[j].node_id);
                        } else {
                            assert(after[j].node_id != after[k].node_id);
                        }
                    }
                }
            } else {
                assert(before[n - 1].node_id == after[j].node_id);
            }
        }
    }
}

proof fn lemma_owners_known(c: SnapshotView, t: SnapshotView, b: Seq<u64>, n: nat)
    requires
        c.sound(),
        t.sound(),
    ensures
        !(delta(c, t, b, n) matches Delta::Stopped(DeltaFault::UnknownOwner(_))),
    decreases n,
{
    reveal_with_fuel(delta, 2);
    if n > 0 {
        lemma_owners_known(c, t, b, (n - 1) as nat);
        law_every_token_has_a_member_owner(c, b[n - 1]);
        law_every_token_has_a_member_owner(t, b[n - 1]);
    }
}

proof fn lemma_obligations_few(
    c: SnapshotView,
    t: SnapshotView,
    b: Seq<u64>,
    i: int,
    k: nat,
    so_far: Seq<crate::migration::ObligationView>,
)
    ensures
        obligations_at(c, t, b, i, k, so_far).len() <= so_far.len() + k,
    decreases k,
{
    if k > 1 {
        lemma_obligations_few(c, t, b, i, (k - 1) as nat, so_far);
    }
}

proof fn lemma_small_delta(c: SnapshotView, t: SnapshotView, b: Seq<u64>, n: nat)
    requires
        c.sound(),
        t.sound(),
        n * t.desired_replication_factor <= 16_384,
    ensures
        delta(c, t, b, n) matches Delta::Known(moves, duties) && moves.len() <= n && duties.len()
            <= n * t.desired_replication_factor,
    decreases n,
{
    reveal_with_fuel(delta, 2);
    if n > 0 {
        let f = t.desired_replication_factor as nat;
        let m = (n - 1) as nat;
        assert(m * f + f == n * f) by (nonlinear_arith)
            requires
                m + 1 == n,
        ;
        assert(n <= n * f) by (nonlinear_arith)
            requires
                f >= 1,
        ;
        lemma_small_delta(c, t, b, m);
        law_every_token_has_a_member_owner(c, b[n - 1]);
        law_every_token_has_a_member_owner(t, b[n - 1]);
        law_replica_count(t, b[n - 1]);
        let duties = delta(c, t, b, m)->Known_1;
        lemma_obligations_few(c, t, b, n - 1, t.replicas(b[n - 1]).len(), duties);
    }
}

/// A change between topologies whose intervals and copies are no more than one change may hold is
/// never too large.
pub proof fn law_small_changes_fit(c: SnapshotView, t: SnapshotView)
    requires
        c.sound(),
        t.sound(),
        cuts(c.assignments, t.assignments).len() * t.desired_replication_factor <= 16_384,
    ensures
        full_delta(c, t) is Known,
{
    let b = cuts(c.assignments, t.assignments);
    lemma_small_delta(c, t, b, b.len());
}

/// A change is planned exactly where what is asked for is sound and differs from what is committed:
/// no member moves to another address, the members and the settings make a topology, and not more
/// intervals move or gain copies than one change may hold.
pub proof fn law_sound_requests_are_planned(
    committed: SnapshotView,
    members: Seq<Member>,
    config: TopologyConfig,
    r: Result<TopologyChange, MigrationError>,
)
    requires
        committed.sound(),
        is_plan(committed, members, config, r),
        members_ok(member_views(members), committed.virtual_nodes),
        sane(config),
        committed.epoch < u64::MAX,
    ensures
        ({
            let views = member_views(members);
            let fits = full_delta(committed, plan_target(committed, views, config)) is Known;
            let same = views.to_multiset() == committed.members.to_multiset() && config
                == committed.config();
            &&& r is Ok <==> addresses_stay(committed.members, views) && !same && fits
            &&& !addresses_stay(committed.members, views) ==> r->Err_0
                is EndpointChangeUnsupported
            &&& addresses_stay(committed.members, views) && same ==> r->Err_0
                is NoMembershipChange
            &&& addresses_stay(committed.members, views) && !same && !fits ==> r->Err_0
                is TooManyRanges || r->Err_0 is TooManyReplicaObligations
        }),
{
    let views = member_views(members);
    let target = plan_target(committed, views, config);
    law_sane_settings_are_accepted(config);
    lemma_members_ok(members, committed.virtual_nodes);
    law_built_topologies_are_sound(
        (committed.epoch + 1) as u64,
        committed.hash_seed,
        committed.virtual_nodes,
        views,
        config,
    );
    lemma_conflict(committed.members, views, committed.members.len());
    crate::topology::lemma_member_order();
    if views.to_multiset() == committed.members.to_multiset() {
        lemma_sorted_unique(target.members, committed.members, member_order());
    }
    let b = cuts(committed.assignments, target.assignments);
    lemma_owners_known(committed, target, b, b.len());
}

/// The members can satisfy the write policy and the guard of their topology; a change of members or
/// of the number of copies must also leave enough members to wait for all of them.
pub open spec fn attainable(committed: SnapshotView, target: SnapshotView) -> bool {
    let guard = target.write_availability_guard;
    let n = target.members.len();
    let moves = target.members != committed.members || target.desired_replication_factor
        != committed.desired_replication_factor;
    &&& guard.minimum_admitted_copies <= n
    &&& guard.minimum_admitted_copies <= target.desired_replication_factor
    &&& guard.minimum_healthy_followers == 0 || guard.minimum_healthy_followers < n
    &&& guard.minimum_healthy_followers == 0 || guard.minimum_healthy_followers
        < target.desired_replication_factor
    &&& target.write_ack_policy == WriteAckPolicy::FirstSuccessor ==> n >= 2
    &&& moves && target.write_ack_policy == WriteAckPolicy::AllReplicas ==> n
        >= target.desired_replication_factor
}

/// A planned change is begun exactly where its target is attainable and does not ask for more copies
/// than can be kept account of. It is then under way, aims at the planned target, and nothing else
/// has changed but that an old reason against recovery is gone.
pub proof fn law_attainable_plans_are_begun(s: ClusterView, plan: ChangeView)
    ensures
        s.begun(plan) is Ok <==> attainable(s.committed, plan.target_topology)
            && plan.target_topology.duties().len() <= 16_384,
        s.begun(plan) matches Ok(next) ==> {
            &&& next.active_change is Some
            &&& next.active_change->0.target_topology == plan.target_topology
            &&& next.active_change->0.change_id == plan.change_id
            &&& next.active_change->0.base_epoch == plan.base_epoch
            &&& next.active_change->0.base_topology == plan.base_topology
            &&& next.active_change->0.phase == plan.phase
            &&& next.active_change->0.replica_obligations == plan.replica_obligations
            &&& next.active_change->0.failed_node_id == plan.failed_node_id
            &&& next.active_change->0.ranges == plan.ranges || (
            next.active_change->0.direct_merge && next.active_change->0.ranges.len() == 0)
            &&& next.recovery_block_reason.len() == 0
            &&& next.committed == s.committed
            &&& next.superseded_change == s.superseded_change
            &&& next.process_instances == s.process_instances
            &&& next.stop_confirmations == s.stop_confirmations
            &&& next.fenced_nodes == s.fenced_nodes
            &&& next.replica_admissions == s.replica_admissions
            &&& next.replica_repairs == s.replica_repairs
        },
{
}

} // verus!
