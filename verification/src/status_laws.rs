//! What the status of a range, of its followers and of a node tells.
use crate::cluster::{AdmissionView, ClusterView, RepairView, ReplicaRepairPhase};
use crate::coverage::GrantView;
use crate::leases::{PeerFailure, Report};
use crate::merge::Stream;
use crate::migration::MigrationPhase;
use crate::node_checkpoint::ReplicationProgress;
use crate::replica_status::{
    admission_at, counts_as_admitted, counts_as_healthy, counts_as_live, first_unhealthy,
    follower_place, known_healthy, named_followers, pair_progress, repair_at, repair_phase_name,
    StreamProgress,
};
use crate::ring::RangeView;
use crate::status::{tally, FollowerStatusView};
use crate::topology::WriteAckPolicy;
use vstd::prelude::*;

verus! {

/// A node holds a lease of the committed topology that has not run out, for the process that is
/// registered, and is not fenced.
pub open spec fn leased_now(
    s: ClusterView,
    grants: Map<Seq<char>, GrantView>,
    node: Seq<char>,
    now: u64,
) -> bool {
    &&& grants.contains_key(node)
    &&& grants[node].expires_at > now
    &&& grants[node].epoch == s.committed.epoch
    &&& s.process_instances.contains_key(node)
    &&& s.process_instances[node] == grants[node].process_instance_id
    &&& !s.fenced_nodes.contains(node)
}

/// An admission is for this follower of this range.
pub open spec fn admits(a: AdmissionView, range: RangeView, node: Seq<char>) -> bool {
    &&& a.start_exclusive == range.start_exclusive
    &&& a.end_inclusive == range.end_inclusive
    &&& a.owner_node_id == range.owner_node_id
    &&& a.node_id == node
}

/// A repair is of this follower of this range.
pub open spec fn mends(r: RepairView, range: RangeView, node: Seq<char>) -> bool {
    &&& r.start_exclusive == range.start_exclusive
    &&& r.end_inclusive == range.end_inclusive
    &&& r.owner_node_id == range.owner_node_id
    &&& r.node_id == node
}

/// Admission `i` is the last for this follower of this range.
pub open spec fn last_admission(s: ClusterView, range: RangeView, node: Seq<char>, i: int) -> bool {
    &&& 0 <= i < s.replica_admissions.len()
    &&& admits(s.replica_admissions[i], range, node)
    &&& forall|j: int|
        i < j < s.replica_admissions.len() ==> !admits(
            #[trigger] s.replica_admissions[j],
            range,
            node,
        )
}

/// Repair `i` is the last of this follower of this range.
pub open spec fn last_repair(s: ClusterView, range: RangeView, node: Seq<char>, i: int) -> bool {
    &&& 0 <= i < s.replica_repairs.len()
    &&& mends(s.replica_repairs[i], range, node)
    &&& forall|j: int|
        i < j < s.replica_repairs.len() ==> !mends(#[trigger] s.replica_repairs[j], range, node)
}

proof fn lemma_admission_at(
    list: Seq<AdmissionView>,
    range: RangeView,
    node: Seq<char>,
    n: nat,
    i: int,
)
    requires
        0 <= i < n <= list.len(),
        admits(list[i], range, node),
        forall|j: int| i < j < n ==> !admits(#[trigger] list[j], range, node),
    ensures
        admission_at(list, follower_place(range, node), n) == Some(list[i]),
    decreases n,
{
    if i < n - 1 {
        assert(!admits(list[n - 1], range, node));
        lemma_admission_at(list, range, node, (n - 1) as nat, i);
    }
}

proof fn lemma_no_admission_at(list: Seq<AdmissionView>, range: RangeView, node: Seq<char>, n: nat)
    requires
        n <= list.len(),
    ensures
        admission_at(list, follower_place(range, node), n) is None ==> forall|j: int|
            0 <= j < n ==> !admits(#[trigger] list[j], range, node),
        admission_at(list, follower_place(range, node), n) is Some ==> exists|i: int|
            0 <= i < n && admits(#[trigger] list[i], range, node) && forall|j: int|
                i < j < n ==> !admits(#[trigger] list[j], range, node),
    decreases n,
{
    if n > 0 {
        lemma_no_admission_at(list, range, node, (n - 1) as nat);
        if admits(list[n - 1], range, node) {
            assert(list[n - 1].place() == follower_place(range, node));
        } else {
            assert(list[n - 1].place() != follower_place(range, node));
            if admission_at(list, follower_place(range, node), n) is Some {
                let i = choose|i: int|
                    0 <= i < n - 1 && admits(#[trigger] list[i], range, node) && forall|j: int|
                        i < j < n - 1 ==> !admits(#[trigger] list[j], range, node);
                assert(admits(list[i], range, node));
                assert forall|j: int| i < j < n implies !admits(#[trigger] list[j], range, node) by {
                    if j < n - 1 {
                    }
                }
            }
        }
    }
}

proof fn lemma_repair_at(list: Seq<RepairView>, range: RangeView, node: Seq<char>, n: nat, i: int)
    requires
        0 <= i < n <= list.len(),
        mends(list[i], range, node),
        forall|j: int| i < j < n ==> !mends(#[trigger] list[j], range, node),
    ensures
        repair_at(list, follower_place(range, node), n) == Some(list[i]),
    decreases n,
{
    if i < n - 1 {
        assert(!mends(list[n - 1], range, node));
        lemma_repair_at(list, range, node, (n - 1) as nat, i);
    }
}

proof fn lemma_no_repair_at(list: Seq<RepairView>, range: RangeView, node: Seq<char>, n: nat)
    requires
        n <= list.len(),
        forall|j: int| 0 <= j < n ==> !mends(#[trigger] list[j], range, node),
    ensures
        repair_at(list, follower_place(range, node), n) is None,
    decreases n,
{
    if n > 0 {
        assert(!mends(list[n - 1], range, node));
        lemma_no_repair_at(list, range, node, (n - 1) as nat);
    }
}

/// A follower counts as admitted exactly if its last admission for this range names the process
/// that runs now and it is not fenced; what is told of it is then what that admission tells. It is
/// healthy exactly if it is admitted, holds a lease, and is known not to lag more than allowed.
pub proof fn law_followers_are_told_as_they_are(
    s: ClusterView,
    grants: Map<Seq<char>, GrantView>,
    progress: Map<Stream, StreamProgress>,
    range: RangeView,
    node: Seq<char>,
    now: u64,
)
    ensures
        ({
            let f = s.follower_status(grants, progress, range, node, now);
            let stream = (range.owner_node_id, node);
            &&& f.node_id == node
            &&& f.leased <==> leased_now(s, grants, node, now)
            &&& f.admitted <==> exists|i: int|
                #[trigger] last_admission(s, range, node, i) && s.process_instances.contains_key(
                    node,
                ) && s.process_instances[node] == s.replica_admissions[i].process_instance_id
                    && !s.fenced_nodes.contains(node)
            &&& forall|i: int| #[trigger]
                last_admission(s, range, node, i) && f.admitted ==> f.process_instance_id
                    == s.replica_admissions[i].process_instance_id && f.verified_watermark
                    == s.replica_admissions[i].verified_watermark && (!progress.contains_key(stream)
                    ==> f.stream_cursor == s.replica_admissions[i].stream_cursor)
            &&& !f.admitted ==> f.process_instance_id.len() == 0 && f.verified_watermark == 0
            &&& f.lag_known <==> progress.contains_key(stream)
            &&& progress.contains_key(stream) ==> f.lag_millis == progress[stream].lag_millis
                && f.stream_head == progress[stream].head && f.stream_cursor
                == progress[stream].cursor
            &&& !progress.contains_key(stream) ==> f.lag_millis == 0 && f.stream_head == 0 && (
            !f.admitted ==> f.stream_cursor == 0)
            &&& f.healthy <==> f.admitted && f.leased && f.lag_known && f.lag_millis
                <= s.committed.write_availability_guard.max_replica_lag_millis
        }),
{
    reveal(ClusterView::follower_status);
    let list = s.replica_admissions;
    lemma_no_admission_at(list, range, node, list.len());
    let f = s.follower_status(grants, progress, range, node, now);
    if admission_at(list, follower_place(range, node), list.len()) is Some {
        let i = choose|i: int|
            0 <= i < list.len() && admits(#[trigger] list[i], range, node) && forall|j: int|
                i < j < list.len() ==> !admits(#[trigger] list[j], range, node);
        assert(last_admission(s, range, node, i));
        lemma_admission_at(list, range, node, list.len(), i);
    }
    assert forall|i: int| #[trigger] last_admission(s, range, node, i) implies admission_at(
        list,
        follower_place(range, node),
        list.len(),
    ) == Some(list[i]) by {
        lemma_admission_at(list, range, node, list.len(), i);
    }
}

/// The last repair of a follower tells how far it is, how often it was tried and what went wrong;
/// only one that is complete is told as complete. Without a repair nothing is told.
pub proof fn law_repairs_are_told_as_they_are(
    s: ClusterView,
    grants: Map<Seq<char>, GrantView>,
    progress: Map<Stream, StreamProgress>,
    range: RangeView,
    node: Seq<char>,
    now: u64,
    i: int,
)
    ensures
        ({
            let f = s.follower_status(grants, progress, range, node, now);
            &&& last_repair(s, range, node, i) ==> {
                let r = s.replica_repairs[i];
                &&& f.repair_state == "Complete"@ <==> r.phase == ReplicaRepairPhase::Complete
                &&& f.repair_state == "Pending"@ <==> r.phase == ReplicaRepairPhase::Pending
                &&& f.repair_state == "Copying"@ <==> r.phase == ReplicaRepairPhase::Copying
                &&& f.repair_state == "Verifying"@ <==> r.phase == ReplicaRepairPhase::Verifying
                &&& f.repair_retry_count == r.retry_count
                &&& f.repair_next_attempt_unix_millis == r.next_attempt_unix_millis
                &&& f.repair_last_error == r.last_error
            }
            &&& (forall|j: int|
                0 <= j < s.replica_repairs.len() ==> !mends(
                    #[trigger] s.replica_repairs[j],
                    range,
                    node,
                )) ==> f.repair_state.len() == 0 && f.repair_retry_count == 0
                && f.repair_next_attempt_unix_millis == 0 && f.repair_last_error.len() == 0
        }),
{
    reveal(ClusterView::follower_status);
    let list = s.replica_repairs;
    if last_repair(s, range, node, i) {
        lemma_repair_at(list, range, node, list.len(), i);
        reveal_strlit("Complete");
        reveal_strlit("Pending");
        reveal_strlit("Copying");
        reveal_strlit("Verifying");
        assert("Pending"@[0] != "Copying"@[0]);
        assert(repair_phase_name(list[i].phase).len() == 8 <==> list[i].phase
            == ReplicaRepairPhase::Complete);
    }
    if forall|j: int| 0 <= j < list.len() ==> !mends(#[trigger] list[j], range, node) {
        lemma_no_repair_at(list, range, node, list.len());
    }
}

pub proof fn lemma_tally_filter<T>(s: Seq<T>, p: spec_fn(T) -> bool)
    ensures
        tally(s, p) == s.filter(p).len(),
        tally(s, p) <= s.len(),
    decreases s.len(),
{
    reveal(Seq::filter);
    if s.len() > 0 {
        lemma_tally_filter(s.drop_last(), p);
    }
}

/// The copies of a range are counted as they are: those that are admitted, and those that are
/// admitted and leased, the owner with them. A range is under-replicated exactly if fewer are live
/// than are desired, and is being repaired exactly if some follower is not admitted or its repair is
/// not complete.
pub proof fn law_copies_are_counted(
    s: ClusterView,
    grants: Map<Seq<char>, GrantView>,
    progress: Map<Stream, StreamProgress>,
    range: RangeView,
    now: u64,
)
    requires
        range.follower_node_ids.len() < u32::MAX,
    ensures
        ({
            let r = s.range_status(grants, progress, range, now);
            let admitted = r.followers.filter(|f: FollowerStatusView| f.admitted).len();
            let live = r.followers.filter(|f: FollowerStatusView| f.admitted && f.leased).len();
            &&& r.start_exclusive == range.start_exclusive
            &&& r.end_inclusive == range.end_inclusive
            &&& r.owner_node_id == range.owner_node_id
            &&& r.desired_rf == s.committed.desired_replication_factor
            &&& r.followers.len() == range.follower_node_ids.len()
            &&& forall|i: int|
                0 <= i < r.followers.len() ==> #[trigger] r.followers[i] == s.follower_status(
                    grants,
                    progress,
                    range,
                    range.follower_node_ids[i],
                    now,
                )
            &&& r.owner_leased <==> leased_now(s, grants, range.owner_node_id, now)
            &&& r.live_rf == live + (if r.owner_leased {
                1nat
            } else {
                0nat
            })
            &&& r.current_rf == admitted + (if s.process_instances.contains_key(
                range.owner_node_id,
            ) && !s.fenced_nodes.contains(range.owner_node_id) {
                1nat
            } else {
                0nat
            })
            &&& r.under_replicated <==> r.live_rf < r.desired_rf
            &&& r.repairing <==> exists|i: int|
                0 <= i < r.followers.len() && (!(#[trigger] r.followers[i]).admitted
                    || r.followers[i].repair_state != "Complete"@)
            &&& r.writable <==> r.write_block_reason.len() == 0
        }),
{
    let followers = s.follower_statuses(grants, progress, range, now);
    let p = |f: FollowerStatusView| f.admitted;
    let q = |f: FollowerStatusView| f.admitted && f.leased;
    assert(counts_as_admitted() =~= p);
    assert(counts_as_live() =~= q);
    lemma_tally_filter(followers, p);
    lemma_tally_filter(followers, q);
}

/// A healthy range is neither under-replicated nor blocked: its owner and all its followers hold
/// leases, the followers are admitted, and they are as many as are desired.
pub proof fn law_full_ranges_are_not_under_replicated(
    s: ClusterView,
    grants: Map<Seq<char>, GrantView>,
    progress: Map<Stream, StreamProgress>,
    range: RangeView,
    now: u64,
)
    requires
        range.follower_node_ids.len() < u32::MAX,
        range.follower_node_ids.len() + 1 >= s.committed.desired_replication_factor,
        leased_now(s, grants, range.owner_node_id, now),
        forall|i: int|
            #![trigger range.follower_node_ids[i]]
            0 <= i < range.follower_node_ids.len() ==> {
                let f = s.follower_status(grants, progress, range, range.follower_node_ids[i], now);
                f.admitted && f.leased
            },
    ensures
        !s.range_status(grants, progress, range, now).under_replicated,
        s.range_status(grants, progress, range, now).live_rf == range.follower_node_ids.len() + 1,
{
    let followers = s.follower_statuses(grants, progress, range, now);
    assert forall|i: int| 0 <= i < followers.len() implies counts_as_live()(
        #[trigger] followers[i],
    ) by {
        assert(range.follower_node_ids[i] == range.follower_node_ids[i]);
    }
    lemma_tally_all(followers, counts_as_live());
}

proof fn lemma_tally_all<T>(s: Seq<T>, p: spec_fn(T) -> bool)
    requires
        forall|i: int| 0 <= i < s.len() ==> p(#[trigger] s[i]),
    ensures
        tally(s, p) == s.len(),
    decreases s.len(),
{
    if s.len() > 0 {
        let t = s.drop_last();
        assert forall|i: int| 0 <= i < t.len() implies p(#[trigger] t[i]) by {
            assert(p(s[i]));
        }
        lemma_tally_all(t, p);
        assert(p(s[s.len() - 1]));
    }
}

/// A follower of this name is told as healthy.
pub open spec fn told_healthy(followers: Seq<FollowerStatusView>, node: Seq<char>) -> bool {
    exists|i: int|
        0 <= i < followers.len() && (#[trigger] followers[i]).node_id == node
            && followers[i].healthy
}

/// The change under way may hold writes to this range back: it is about to cut over, and either
/// changes the write policy or moves some token of the range.
pub open spec fn about_to_cut(s: ClusterView, range: RangeView) -> bool {
    s.active_change matches Some(change) && {
        &&& change.phase == MigrationPhase::PausingWrites || change.phase
            == MigrationPhase::Verifying || change.phase == MigrationPhase::ReadyToPublish
        &&& change.target_topology.write_ack_policy != s.committed.write_ack_policy || exists|
            i: int,
        |
            0 <= i < change.ranges.len() && crate::interval::overlap(
                range.start_exclusive,
                range.end_inclusive,
                (#[trigger] change.ranges[i]).start_exclusive,
                change.ranges[i].end_inclusive,
            )
    }
}

proof fn lemma_first_unhealthy(
    nodes: Seq<Seq<char>>,
    followers: Seq<FollowerStatusView>,
    n: nat,
    i: nat,
)
    requires
        n <= nodes.len(),
        i <= n,
    ensures
        first_unhealthy(nodes, followers, n, i) is None <==> forall|k: int|
            i <= k < n ==> told_healthy(followers, #[trigger] nodes[k]),
    decreases n - i,
{
    if i < n {
        lemma_first_unhealthy(nodes, followers, n, i + 1);
        assert(known_healthy(followers, nodes[i as int]) == told_healthy(
            followers,
            nodes[i as int],
        ));
    }
}

/// A range can be written to exactly if no activation is pending and no cutover near, its owner
/// holds a lease, its placement is what the write policy needs, the guard is met, and every
/// follower that a write waits for by name is healthy.
pub proof fn law_ranges_are_writable_exactly_when_nothing_blocks(
    s: ClusterView,
    grants: Map<Seq<char>, GrantView>,
    progress: Map<Stream, StreamProgress>,
    range: RangeView,
    now: u64,
)
    ensures
        ({
            let r = s.range_status(grants, progress, range, now);
            let guard = s.committed.write_availability_guard;
            let policy = s.committed.write_ack_policy;
            let nodes = range.follower_node_ids;
            let admitted = r.followers.filter(|f: FollowerStatusView| f.admitted).len();
            let healthy = r.followers.filter(|f: FollowerStatusView| f.healthy).len();
            r.writable <==> {
                &&& !(s.active_change matches Some(change) && change.phase
                    == MigrationPhase::Published && !change.activation_ready)
                &&& !about_to_cut(s, range)
                &&& leased_now(s, grants, range.owner_node_id, now)
                &&& policy == WriteAckPolicy::FirstSuccessor ==> nodes.len() >= 1 && told_healthy(
                    r.followers,
                    nodes[0],
                )
                &&& policy == WriteAckPolicy::AllReplicas ==> nodes.len() + 1
                    >= s.committed.desired_replication_factor && forall|k: int|
                    0 <= k < nodes.len() ==> told_healthy(r.followers, #[trigger] nodes[k])
                &&& admitted + 1 >= guard.minimum_admitted_copies
                &&& healthy >= guard.minimum_healthy_followers
            }
        }),
{
    reveal_strlit("topology activation pending");
    reveal_strlit("topology cutover write fence may be active");
    reveal_strlit("owner lease unavailable");
    reveal_strlit("first successor is not in desired placement");
    reveal_strlit("complete desired replication factor is unavailable");
    reveal_strlit("minimum admitted-copy or healthy-follower guard is not satisfied");
    reveal_strlit("required follower ");
    let followers = s.follower_statuses(grants, progress, range, now);
    let nodes = range.follower_node_ids;
    let p = |f: FollowerStatusView| f.admitted;
    let q = |f: FollowerStatusView| f.healthy;
    assert(counts_as_admitted() =~= p);
    assert(counts_as_healthy() =~= q);
    lemma_tally_filter(followers, p);
    lemma_tally_filter(followers, q);
    let policy = s.committed.write_ack_policy;
    lemma_first_unhealthy(nodes, followers, named_followers(policy, nodes.len()), 0);
}

/// Why a range is blocked is told in full where a recovery is blocked: while its activation is
/// pending, the reason of the recovery is that of the range.
pub proof fn law_blocked_recoveries_are_told(
    s: ClusterView,
    grants: Map<Seq<char>, GrantView>,
    progress: Map<Stream, StreamProgress>,
    range: RangeView,
    now: u64,
)
    requires
        s.active_change is Some,
        s.active_change->0.phase == MigrationPhase::Published,
        !s.active_change->0.activation_ready,
        s.recovery_block_reason.len() > 0,
    ensures
        s.range_status(grants, progress, range, now).write_block_reason == s.recovery_block_reason,
{
}

/// A member is told with the process that is registered for it, with its lease as it was granted,
/// and as suspected exactly if somebody reports it.
pub proof fn law_members_are_told_as_they_are(
    s: ClusterView,
    grants: Map<Seq<char>, GrantView>,
    failures: Map<Report, PeerFailure>,
    node: Seq<char>,
    now: u64,
)
    ensures
        ({
            let n = s.node_status(grants, failures, node, now);
            &&& n.node_id == node
            &&& n.leased <==> leased_now(s, grants, node, now)
            &&& s.process_instances.contains_key(node) ==> n.process_instance_id
                == s.process_instances[node]
            &&& !s.process_instances.contains_key(node) ==> n.process_instance_id.len() == 0
            &&& grants.contains_key(node) ==> n.lease_expires_unix_millis
                == grants[node].expires_unix_millis && n.last_renewal_unix_millis
                == grants[node].last_renewal_unix_millis
            &&& !grants.contains_key(node) ==> n.lease_expires_unix_millis == 0
                && n.last_renewal_unix_millis == 0
            &&& n.suspected <==> exists|reporter: Seq<char>| #[trigger]
                failures.contains_key((node, reporter))
        }),
{
    let n = s.node_status(grants, failures, node, now);
    if n.suspected {
        let k = choose|k: Report| #[trigger] failures.contains_key(k) && k.0 == node;
        assert(failures.contains_key((node, k.1)));
    }
    if exists|reporter: Seq<char>| #[trigger] failures.contains_key((node, reporter)) {
        let reporter = choose|reporter: Seq<char>| #[trigger]
            failures.contains_key((node, reporter));
        assert(failures.contains_key((node, reporter)) && (node, reporter).0 == node);
    }
}

/// Progress is told only of the processes that are asked about. A follower that has come to the head
/// does not lag; one that has not lags as long as the oldest write that it has not acknowledged is
/// old, and where that is not known nothing is told.
pub proof fn law_lag_is_told_honestly(
    head: ReplicationProgress,
    applied: ReplicationProgress,
    owner: Seq<char>,
    follower: Seq<char>,
    unix: u64,
)
    ensures
        ({
            let p = pair_progress(head, applied, owner, follower, unix);
            let behind = applied.stream_sequence < head.stream_sequence;
            let oldest = head.oldest_unacked_unix_millis;
            &&& p is Some <==> head.process_instance_id@ == owner && applied.process_instance_id@
                == follower && (behind ==> oldest != 0)
            &&& p matches Some(q) ==> q.head == head.stream_sequence && q.cursor
                == applied.stream_sequence
            &&& p matches Some(q) ==> (!behind ==> q.lag_millis == 0)
            &&& p matches Some(q) ==> (behind && unix >= oldest ==> q.lag_millis == unix - oldest)
            &&& p matches Some(q) ==> (behind && unix < oldest ==> q.lag_millis == 0)
        }),
{
}

} // verus!
