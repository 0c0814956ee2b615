//! When processes are registered, leases granted and nodes taken for failed, and when what follows
//! may be published.
use crate::cluster::{AdmissionView, ClusterView};
use crate::coverage::{part_of, parts, GrantView};
use crate::leases::{new_grant, reported_peers, PeerFailure, Report};
use crate::migration::{ChangeView, MigrationPhase};
use crate::reconcile::sifted;
use crate::ring::{in_interval, RangeView};
use crate::status_laws::leased_now;
use crate::topology::SnapshotView;
use vstd::prelude::*;

verus! {

/// Some member has this name.
pub open spec fn listed(t: SnapshotView, node: Seq<char>) -> bool {
    exists|i: int| 0 <= i < t.members.len() && (#[trigger] t.members[i]).node_id == node
}

/// A change is under way.
pub open spec fn under_way(s: ClusterView) -> bool {
    s.active_change matches Some(change) && change.phase != MigrationPhase::Complete && change.phase
        != MigrationPhase::Aborted
}

/// A topology is published and not activated yet.
pub open spec fn unactivated(s: ClusterView) -> bool {
    s.active_change matches Some(change) && change.phase == MigrationPhase::Published
        && !change.activation_ready
}

/// A process registers for a node that is a member or about to become one. A member keeps the
/// process that it has, and one that is fenced gets none; a node that only joins may come back as
/// another process, and is not fenced any more. To register again changes nothing, and registering
/// changes nothing else.
pub proof fn law_members_and_joiners_register(s: ClusterView, node: Seq<char>, instance: Seq<char>)
    ensures
        ({
            let r = s.registration(node, instance);
            let member = listed(s.committed, node);
            let joins = under_way(s) && listed(s.active_change->0.target_topology, node);
            let held = s.process_instances.contains_key(node);
            let same = held && s.process_instances[node] == instance;
            &&& r is Ok <==> node.len() > 0 && instance.len() > 0 && (member || joins) && (member
                ==> !s.fenced_nodes.contains(node) && (held ==> same))
            &&& r is Ok ==> (r->Ok_0 is None <==> same)
            &&& r matches Ok(Some(next)) ==> {
                &&& next.process_instances == s.process_instances.insert(node, instance)
                &&& !next.fenced_nodes.contains(node)
                &&& forall|other: Seq<char>|
                    other != node ==> (#[trigger] next.fenced_nodes.contains(other)
                        == s.fenced_nodes.contains(other))
                &&& next.committed == s.committed
                &&& next.active_change == s.active_change
                &&& next.superseded_change == s.superseded_change
                &&& next.stop_confirmations == s.stop_confirmations
                &&& next.replica_admissions == s.replica_admissions
                &&& next.replica_repairs == s.replica_repairs
                &&& next.recovery_block_reason == s.recovery_block_reason
            }
        }),
{
}

/// A lease is granted exactly to the registered process of a member that is not fenced, for the
/// committed epoch, and not before that is activated.
pub proof fn law_members_get_leases(
    s: ClusterView,
    node: Seq<char>,
    instance: Seq<char>,
    epoch: u64,
)
    ensures
        s.may_lease(node, instance, epoch) <==> {
            &&& node.len() > 0
            &&& instance.len() > 0
            &&& listed(s.committed, node)
            &&& epoch == s.committed.epoch
            &&& s.process_instances.contains_key(node)
            &&& s.process_instances[node] == instance
            &&& !s.fenced_nodes.contains(node)
            &&& !unactivated(s)
        },
{
}

/// A lease that was granted is held for five seconds and no longer, and the others stay as they
/// are.
pub proof fn law_granted_leases_last(
    s: ClusterView,
    grants: Map<Seq<char>, GrantView>,
    node: Seq<char>,
    instance: Seq<char>,
    epoch: u64,
    now: u64,
    unix: u64,
    later: u64,
    other: Seq<char>,
)
    requires
        s.may_lease(node, instance, epoch),
        now + 5_000_000_000 <= u64::MAX,
        later >= now,
    ensures
        ({
            let after = grants.insert(node, new_grant(instance, epoch, now, unix));
            &&& s.has_lease(after, node, later) <==> later < now + 5_000_000_000
            &&& other != node ==> s.has_lease(after, other, later) == s.has_lease(
                grants,
                other,
                later,
            )
            &&& after[node].last_renewal_unix_millis == unix
            &&& unix + 5_000 <= u64::MAX ==> after[node].expires_unix_millis == unix + 5_000
        }),
{
}

/// A lease is held exactly by the registered process of a node that is not fenced, under the
/// committed epoch, before it runs out.
pub proof fn law_leases_are_held_by_registered_processes(
    s: ClusterView,
    grants: Map<Seq<char>, GrantView>,
    node: Seq<char>,
    now: u64,
)
    ensures
        s.has_lease(grants, node, now) <==> leased_now(s, grants, node, now),
{
}

/// A report is taken exactly from a registered process that is not fenced and holds a lease, about
/// another node that is a member, in the committed epoch.
pub proof fn law_leased_members_are_heard(
    s: ClusterView,
    grants: Map<Seq<char>, GrantView>,
    reporter: Seq<char>,
    instance: Seq<char>,
    peer: Seq<char>,
    epoch: u64,
    now: u64,
)
    ensures
        s.report_fault(grants, reporter, instance, peer, epoch, now) is None <==> {
            &&& epoch == s.committed.epoch
            &&& reporter != peer
            &&& peer.len() > 0
            &&& listed(s.committed, peer)
            &&& s.process_instances.contains_key(reporter)
            &&& s.process_instances[reporter] == instance
            &&& leased_now(s, grants, reporter, now)
        },
{
}

/// A node that is said to be unreachable again and again, with no more than two seconds between two
/// reports, is unreachable since the first of them; after a longer silence the count begins anew,
/// and a report that it was reached ends it. Reports of others are not touched.
pub proof fn law_reports_add_up(
    before: Map<Report, PeerFailure>,
    key: Report,
    other: Report,
    now: u64,
)
    requires
        other != key,
    ensures
        ({
            let lost = reported_peers(before, key, false, now);
            let found = reported_peers(before, key, true, now);
            &&& lost.contains_key(key)
            &&& lost[key].last_seen == now
            &&& !before.contains_key(key) ==> lost[key].first_seen == now
            &&& before.contains_key(key) && now <= before[key].last_seen + 2_000_000_000
                ==> lost[key].first_seen == before[key].first_seen
            &&& before.contains_key(key) && now > before[key].last_seen + 2_000_000_000
                ==> lost[key].first_seen == now
            &&& !found.contains_key(key)
            &&& lost.contains_key(other) == before.contains_key(other)
            &&& found.contains_key(other) == before.contains_key(other)
            &&& before.contains_key(other) ==> lost[other] == before[other] && found[other]
                == before[other]
        }),
{
}

/// A reporter with a lease has found a node unreachable for five seconds, the last time not more
/// than two seconds ago.
pub open spec fn confirms(
    s: ClusterView,
    grants: Map<Seq<char>, GrantView>,
    reports: Map<Report, PeerFailure>,
    node: Seq<char>,
    reporter: Seq<char>,
    now: u64,
) -> bool {
    &&& reporter != node
    &&& reports.contains_key((node, reporter))
    &&& leased_now(s, grants, reporter, now)
    &&& now >= reports[(node, reporter)].first_seen + 5_000_000_000
    &&& now <= reports[(node, reporter)].last_seen + 2_000_000_000
}

/// A node is taken for failed exactly if it holds no lease, or if two others have confirmed that it
/// is unreachable.
pub proof fn law_failures_are_confirmed(
    s: ClusterView,
    grants: Map<Seq<char>, GrantView>,
    reports: Map<Report, PeerFailure>,
    node: Seq<char>,
    now: u64,
)
    ensures
        s.failed(grants, reports, node, now) <==> !leased_now(s, grants, node, now) || exists|
            a: Seq<char>,
            b: Seq<char>,
        |
            a != b && #[trigger] confirms(s, grants, reports, node, a, now) && #[trigger] confirms(
                s,
                grants,
                reports,
                node,
                b,
                now,
            ),
{
    assert forall|r: Seq<char>| #[trigger] confirms(s, grants, reports, node, r, now) == s.accuses(
        grants,
        reports,
        node,
        r,
        now,
    ) by {}
    if s.failed(grants, reports, node, now) && leased_now(s, grants, node, now) {
        let (a, b) = choose|a: Seq<char>, b: Seq<char>|
            a != b && #[trigger] s.accuses(grants, reports, node, a, now)
                && #[trigger] s.accuses(grants, reports, node, b, now);
        assert(confirms(s, grants, reports, node, a, now));
        assert(confirms(s, grants, reports, node, b, now));
    }
    if exists|a: Seq<char>, b: Seq<char>|
        a != b && #[trigger] confirms(s, grants, reports, node, a, now) && #[trigger] confirms(
            s,
            grants,
            reports,
            node,
            b,
            now,
        ) {
        let (a, b) = choose|a: Seq<char>, b: Seq<char>|
            a != b && #[trigger] confirms(s, grants, reports, node, a, now) && #[trigger] confirms(
                s,
                grants,
                reports,
                node,
                b,
                now,
            );
        assert(s.accuses(grants, reports, node, a, now));
        assert(s.accuses(grants, reports, node, b, now));
    }
}

/// Member `i` is registered, not fenced, and taken for failed.
pub open spec fn lost_member(
    s: ClusterView,
    grants: Map<Seq<char>, GrantView>,
    reports: Map<Report, PeerFailure>,
    now: u64,
    i: int,
) -> bool {
    let node = s.committed.members[i].node_id;
    &&& s.process_instances.contains_key(node)
    &&& !s.fenced_nodes.contains(node)
    &&& s.failed(grants, reports, node, now)
}

proof fn lemma_first_failed(
    s: ClusterView,
    grants: Map<Seq<char>, GrantView>,
    reports: Map<Report, PeerFailure>,
    now: u64,
    i: nat,
)
    requires
        i <= s.committed.members.len(),
    ensures
        match s.first_failed(grants, reports, now, i) {
            None => forall|j: int|
                i <= j < s.committed.members.len() ==> !#[trigger] lost_member(
                    s,
                    grants,
                    reports,
                    now,
                    j,
                ),
            Some(node) => exists|k: int|
                i <= k < s.committed.members.len() && #[trigger] lost_member(
                    s,
                    grants,
                    reports,
                    now,
                    k,
                ) && s.committed.members[k].node_id == node && forall|j: int|
                    i <= j < k ==> !#[trigger] lost_member(s, grants, reports, now, j),
        },
    decreases s.committed.members.len() - i,
{
    if i < s.committed.members.len() {
        lemma_first_failed(s, grants, reports, now, i + 1);
        if lost_member(s, grants, reports, now, i as int) {
            assert(s.first_failed(grants, reports, now, i) == Some(
                s.committed.members[i as int].node_id,
            ));
        } else {
            assert(s.first_failed(grants, reports, now, i) == s.first_failed(
                grants,
                reports,
                now,
                i + 1,
            ));
        }
    }
}

/// A failed member is removed exactly where no change is under way, another member is left, and
/// leases from before the start have run out; it is the first that has failed.
pub proof fn law_the_first_failed_member_is_removed(
    s: ClusterView,
    grants: Map<Seq<char>, GrantView>,
    reports: Map<Report, PeerFailure>,
    startup_at: u64,
    now: u64,
)
    ensures
        ({
            let r = s.failed_member(grants, reports, startup_at, now);
            let ready = !under_way(s) && s.committed.members.len() >= 2 && now >= startup_at
                + 5_000_000_000;
            &&& r is Some <==> ready && exists|k: int|
                0 <= k < s.committed.members.len() && #[trigger] lost_member(
                    s,
                    grants,
                    reports,
                    now,
                    k,
                )
            &&& r matches Some(node) ==> exists|k: int|
                0 <= k < s.committed.members.len() && #[trigger] lost_member(
                    s,
                    grants,
                    reports,
                    now,
                    k,
                ) && s.committed.members[k].node_id == node && forall|j: int|
                    0 <= j < k ==> !#[trigger] lost_member(s, grants, reports, now, j)
        }),
{
    lemma_first_failed(s, grants, reports, now, 0);
}

/// A follower holds a range: an admission of the committed epoch for the process that it runs says
/// so, and it is not fenced.
pub open spec fn holds_copy(s: ClusterView, range: RangeView, node: Seq<char>) -> bool {
    exists|i: int|
        0 <= i < s.replica_admissions.len() && vouched(
            s,
            #[trigger] s.replica_admissions[i],
            range,
            node,
        )
}

/// An admission says that a follower holds a range now.
pub open spec fn vouched(s: ClusterView, a: AdmissionView, range: RangeView, node: Seq<char>) -> bool {
    &&& a.epoch == s.committed.epoch
    &&& a.start_exclusive == range.start_exclusive
    &&& a.end_inclusive == range.end_inclusive
    &&& a.owner_node_id == range.owner_node_id
    &&& a.node_id == node
    &&& s.process_instances.contains_key(node)
    &&& s.process_instances[node] == a.process_instance_id
    &&& !s.fenced_nodes.contains(node)
}

proof fn lemma_proof_from(s: ClusterView, range: RangeView, node: Seq<char>, i: nat)
    requires
        i <= s.replica_admissions.len(),
    ensures
        s.proof_from(range, node, i) is Some <==> exists|k: int|
            i <= k < s.replica_admissions.len() && vouched(
                s,
                #[trigger] s.replica_admissions[k],
                range,
                node,
            ),
    decreases s.replica_admissions.len() - i,
{
    if i < s.replica_admissions.len() {
        lemma_proof_from(s, range, node, i + 1);
        let a = s.replica_admissions[i as int];
        assert(vouched(s, a, range, node) == s.proves(a, range, node));
        if s.proof_from(range, node, i + 1) is Some && !vouched(s, a, range, node) {
            let k = choose|k: int|
                i + 1 <= k < s.replica_admissions.len() && vouched(
                    s,
                    #[trigger] s.replica_admissions[k],
                    range,
                    node,
                );
            assert(vouched(s, s.replica_admissions[k], range, node));
        }
    }
}

/// A copy counts exactly where it was verified in this epoch for the process that runs now.
pub proof fn law_copies_count_where_they_were_verified(
    s: ClusterView,
    range: RangeView,
    node: Seq<char>,
)
    ensures
        s.covers(range, node) <==> holds_copy(s, range, node),
{
    lemma_proof_from(s, range, node, 0);
}

/// The owner of a merged range has a part already: it owned it, or it was the first to follow its
/// owner and holds a copy.
pub open spec fn has_part(s: ClusterView, part: RangeView, owner: Seq<char>) -> bool {
    part.owner_node_id == owner || (part.follower_node_ids.len() > 0 && part.follower_node_ids[0]
        == owner && holds_copy(s, part, owner))
}

proof fn lemma_gap_from(s: ClusterView, list: Seq<RangeView>, owner: Seq<char>, i: nat)
    requires
        i <= list.len(),
    ensures
        s.gap_from(list, owner, i) is None <==> forall|k: int|
            i <= k < list.len() ==> has_part(s, #[trigger] list[k], owner),
    decreases list.len() - i,
{
    if i < list.len() {
        lemma_gap_from(s, list, owner, i + 1);
        law_copies_count_where_they_were_verified(s, list[i as int], owner);
        assert(s.inherits(list[i as int], owner) == has_part(s, list[i as int], owner));
    }
}

proof fn lemma_sifted_members<T>(list: Seq<T>, p: spec_fn(T) -> bool)
    ensures
        forall|x: T| #[trigger] sifted(list, p).contains(x) <==> list.contains(x) && p(x),
    decreases list.len(),
{
    if list.len() > 0 {
        let rest = list.drop_last();
        lemma_sifted_members(rest, p);
        let s = sifted(list, p);
        let t = sifted(rest, p);
        assert forall|x: T| #[trigger] s.contains(x) <==> list.contains(x) && p(x) by {
            assert(list =~= rest.push(list.last()));
            if s.contains(x) {
                let k = choose|k: int| 0 <= k < s.len() && s[k] == x;
                if k < t.len() {
                    assert(t[k] == x);
                    assert(t.contains(x));
                    let j = choose|j: int| 0 <= j < rest.len() && rest[j] == x;
                    assert(list[j] == x);
                } else {
                    assert(x == list.last());
                    assert(list[list.len() - 1] == x);
                }
            }
            if list.contains(x) && p(x) {
                let j = choose|j: int| 0 <= j < list.len() && list[j] == x;
                if j < rest.len() {
                    assert(rest[j] == x);
                    assert(t.contains(x));
                    let k = choose|k: int| 0 <= k < t.len() && t[k] == x;
                    assert(s[k] == x);
                } else {
                    assert(s[s.len() - 1] == x);
                }
            }
        }
    }
}

/// The range is made of old ranges that its owner has already: those whose last token lies in it.
pub open spec fn taken_care_of(s: ClusterView, range: RangeView) -> bool {
    &&& exists|part: RangeView| #[trigger]
        s.committed.ranges().contains(part) && in_interval(
            range.start_exclusive,
            range.end_inclusive,
            part.end_inclusive,
        )
    &&& forall|part: RangeView| #[trigger]
        s.committed.ranges().contains(part) && in_interval(
            range.start_exclusive,
            range.end_inclusive,
            part.end_inclusive,
        ) ==> has_part(s, part, range.owner_node_id)
}

proof fn lemma_coverage_from(s: ClusterView, ranges: Seq<RangeView>, i: nat)
    requires
        i <= ranges.len(),
    ensures
        s.coverage_fault(ranges, i) is None <==> forall|k: int|
            i <= k < ranges.len() ==> taken_care_of(s, #[trigger] ranges[k]),
    decreases ranges.len() - i,
{
    if i < ranges.len() {
        lemma_coverage_from(s, ranges, i + 1);
        let range = ranges[i as int];
        let old_ranges = s.committed.ranges();
        let list = parts(old_ranges, range);
        lemma_sifted_members(old_ranges, part_of(range));
        lemma_gap_from(s, list, range.owner_node_id, 0);
        if list.len() > 0 && s.gap_from(list, range.owner_node_id, 0) is None {
            assert(list.contains(list[0]));
            assert(old_ranges.contains(list[0]));
            assert forall|part: RangeView| #[trigger]
                old_ranges.contains(part) && in_interval(
                    range.start_exclusive,
                    range.end_inclusive,
                    part.end_inclusive,
                ) implies has_part(s, part, range.owner_node_id) by {
                assert(list.contains(part));
                let k = choose|k: int| 0 <= k < list.len() && list[k] == part;
                assert(has_part(s, list[k], range.owner_node_id));
            }
            assert(taken_care_of(s, range));
        }
        if taken_care_of(s, range) {
            let part = choose|part: RangeView| #[trigger]
                old_ranges.contains(part) && in_interval(
                    range.start_exclusive,
                    range.end_inclusive,
                    part.end_inclusive,
                );
            assert(list.contains(part));
            assert forall|k: int| 0 <= k < list.len() implies has_part(
                s,
                #[trigger] list[k],
                range.owner_node_id,
            ) by {
                assert(list.contains(list[k]));
                assert(old_ranges.contains(list[k]));
            }
        }
    }
}

/// A smaller topology can take over exactly where every one of its ranges is made of old ranges that
/// its owner has already.
pub proof fn law_heirs_need_what_they_take_over(s: ClusterView, target: SnapshotView)
    requires
        s.committed.assignments.len() > 0,
        target.assignments.len() > 0,
    ensures
        s.removal_fault(target) is None <==> forall|k: int|
            0 <= k < target.ranges().len() ==> taken_care_of(s, #[trigger] target.ranges()[k]),
{
    lemma_coverage_from(s, target.ranges(), 0);
}

proof fn lemma_lease_from(
    s: ClusterView,
    grants: Map<Seq<char>, GrantView>,
    ranges: Seq<RangeView>,
    now: u64,
    i: nat,
)
    requires
        i <= ranges.len(),
    ensures
        s.lease_fault(grants, ranges, now, i) is None <==> forall|k: int|
            i <= k < ranges.len() ==> leased_now(
                s,
                grants,
                (#[trigger] ranges[k]).owner_node_id,
                now,
            ),
    decreases ranges.len() - i,
{
    if i < ranges.len() {
        lemma_lease_from(s, grants, ranges, now, i + 1);
        let owner = ranges[i as int].owner_node_id;
        assert(s.has_lease(grants, owner, now) == leased_now(s, grants, owner, now));
    }
}

/// A topology can be served exactly where every owner in it holds a lease.
pub proof fn law_owners_need_leases(
    s: ClusterView,
    grants: Map<Seq<char>, GrantView>,
    target: SnapshotView,
    now: u64,
)
    requires
        target.assignments.len() > 0,
    ensures
        s.owner_lease_fault(grants, target, now) is None <==> forall|k: int|
            0 <= k < target.ranges().len() ==> leased_now(
                s,
                grants,
                (#[trigger] target.ranges()[k]).owner_node_id,
                now,
            ),
{
    lemma_lease_from(s, grants, target.ranges(), now, 0);
}

/// The ranges of a failed node are handed on exactly where every heir holds a lease and has what it
/// takes over, the node is fenced, and the change is still the one under way; what then follows is
/// what any removal publishes.
pub proof fn law_covered_failures_are_published(
    s: ClusterView,
    change: ChangeView,
    grants: Map<Seq<char>, GrantView>,
    now: u64,
)
    requires
        s.committed.assignments.len() > 0,
        change.target_topology.assignments.len() > 0,
    ensures
        ({
            let ranges = change.target_topology.ranges();
            let covered = (forall|k: int|
                0 <= k < ranges.len() ==> leased_now(
                    s,
                    grants,
                    (#[trigger] ranges[k]).owner_node_id,
                    now,
                )) && (forall|k: int|
                0 <= k < ranges.len() ==> taken_care_of(s, #[trigger] ranges[k]));
            let fenced = change.failed_node_id matches Some(node) && s.fenced_nodes.contains(node);
            let current = s.active_change matches Some(a) && a.change_id == change.change_id
                && a.base_epoch == change.base_epoch && a.target_topology.epoch
                == change.target_topology.epoch;
            if covered && fenced && current {
                s.failure_publication(change, grants, now) == s.removal_publication(change, None)
            } else {
                s.failure_publication(change, grants, now) is Err
            }
        }),
{
    law_owners_need_leases(s, grants, change.target_topology, now);
    law_heirs_need_what_they_take_over(s, change.target_topology);
}

} // verus!
