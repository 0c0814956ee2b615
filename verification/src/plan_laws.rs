//! What is planned before an activation, a merge, a clean-up and a restart.
use crate::barrier_laws::{lemma_best, lemma_parts_of, lemma_secured_filter, lies_in};
use crate::cluster::{fault_in, ClusterState, ClusterView, RepairView, ReplicaRepairPhase};
use crate::coverage::parts;
use crate::finish::{as_members, merge_plan, told, MergeStepView};
use crate::merge::{
    candidate_from, follower_streams, guard_streams, streams_into, CandidateView, Stream, StreamKey,
};
use crate::merge::naturally_merges;
use crate::migration::{ChangeView, MigrationPhase};
use crate::ordmap::{lemma_listing_of, listing_of};
use crate::probes::{by_name, joined_by_name, ProbeView};
use crate::repair_plan::repair_group;
use crate::repairs::{all_in_phase, task_index, SeedView};
use crate::restore::restored_fault;
use crate::ring::RangeView;
use crate::sets::order_of;
use crate::state_laws::{lemma_task_index, repairs_copy};
use crate::topology::{MemberView, SnapshotView};
use vstd::prelude::*;

verus! {

/// A follower can hold a range: it does already, or there are repairs for it.
pub open spec fn can_follow(s: ClusterView, range: RangeView, node: Seq<char>) -> bool {
    s.admits(range, node) || repair_group(s.replica_repairs, (range.owner_node_id, node)).len() > 0
}

proof fn lemma_count_monotone<T>(list: Seq<T>, p: spec_fn(T) -> bool, q: spec_fn(T) -> bool)
    requires
        forall|i: int| 0 <= i < list.len() && p(#[trigger] list[i]) ==> q(list[i]),
    ensures
        list.filter(p).len() <= list.filter(q).len(),
    decreases list.len(),
{
    reveal(Seq::filter);
    if list.len() > 0 {
        let rest = list.drop_last();
        assert forall|i: int| 0 <= i < rest.len() && p(#[trigger] rest[i]) implies q(rest[i]) by {
            assert(rest[i] == list[i]);
        }
        lemma_count_monotone(rest, p, q);
        assert(list.last() == list[list.len() - 1]);
    }
}

proof fn lemma_one_secured(
    s: ClusterView,
    range: RangeView,
    chosen: Set<Stream>,
    node: Seq<char>,
    n: nat,
)
    requires
        n <= range.follower_node_ids.len(),
        range.follower_node_ids.no_duplicates(),
    ensures
        s.secured_count(range, chosen.insert((range.owner_node_id, node)), n) <= s.secured_count(
            range,
            chosen,
            n,
        ) + if range.follower_node_ids.take(n as int).contains(node) {
            1int
        } else {
            0int
        },
    decreases n,
{
    if n > 0 {
        lemma_one_secured(s, range, chosen, node, (n - 1) as nat);
        let head = range.follower_node_ids.take(n - 1);
        let all = range.follower_node_ids.take(n as int);
        let last = range.follower_node_ids[n - 1];
        assert(all[n - 1] == last);
        if head.contains(node) {
            let k = choose|k: int| 0 <= k < head.len() && head[k] == node;
            assert(all[k] == node);
            assert(range.follower_node_ids[k] != last);
        }
    }
}

proof fn lemma_best_found(s: ClusterView, range: RangeView, chosen: Set<Stream>, n: nat)
    requires
        n <= range.follower_node_ids.len(),
        s.best_follower(range, chosen, n) is None,
    ensures
        forall|k: int|
            0 <= k < n ==> s.secured(range, chosen, #[trigger] range.follower_node_ids[k])
                || repair_group(
                s.replica_repairs,
                (range.owner_node_id, range.follower_node_ids[k]),
            ).len() == 0,
    decreases n,
{
    if n > 0 {
        lemma_best_found(s, range, chosen, (n - 1) as nat);
    }
}

proof fn lemma_missing_found(
    s: ClusterView,
    range: RangeView,
    chosen: Set<Stream>,
    missing: nat,
    needed: nat,
)
    requires
        range.follower_node_ids.no_duplicates(),
        s.with_missing_followers(range, chosen, missing) is None,
        s.secured_count(range, chosen, range.follower_node_ids.len()) + missing <= needed,
    ensures
        range.follower_node_ids.filter(|node: Seq<char>| can_follow(s, range, node)).len() < needed,
    decreases missing,
{
    let f = range.follower_node_ids;
    if missing > 0 {
        lemma_best(s, range, chosen, f.len());
        match s.best_follower(range, chosen, f.len()) {
            None => {
                lemma_best_found(s, range, chosen, f.len());
                lemma_secured_filter(s, range, chosen, f.len());
                assert(f.take(f.len() as int) =~= f);
                let p = |node: Seq<char>| can_follow(s, range, node);
                let q = |node: Seq<char>|
                    s.admits(range, node) || chosen.contains((range.owner_node_id, node));
                assert forall|i: int| 0 <= i < f.len() && p(#[trigger] f[i]) implies q(f[i]) by {
                    assert(s.secured(range, chosen, f[i]) || repair_group(
                        s.replica_repairs,
                        (range.owner_node_id, f[i]),
                    ).len() == 0);
                }
                lemma_count_monotone(f, p, q);
            },
            Some(node) => {
                let next = chosen.insert((range.owner_node_id, node));
                lemma_one_secured(s, range, chosen, node, f.len());
                lemma_missing_found(s, range, next, (missing - 1) as nat, needed);
            },
        }
    }
}

/// Repairs for an activation are found wherever they can be: if none can be chosen, then some range
/// has too few followers that hold a copy or have repairs.
pub proof fn law_possible_activations_are_planned(s: ClusterView, ranges: Seq<RangeView>, n: nat)
    requires
        n <= ranges.len(),
        forall|i: int|
            0 <= i < ranges.len() ==> (#[trigger] ranges[i]).follower_node_ids.no_duplicates(),
        forall|i: int|
            0 <= i < n ==> (#[trigger] ranges[i]).follower_node_ids.filter(
                |node: Seq<char>| can_follow(s, ranges[i], node),
            ).len() >= s.committed.needed_followers(),
    ensures
        s.chosen_streams(ranges, n) is Some,
    decreases n,
{
    if n > 0 {
        law_possible_activations_are_planned(s, ranges, (n - 1) as nat);
        let before = s.chosen_streams(ranges, (n - 1) as nat)->0;
        let range = ranges[n - 1];
        let f = range.follower_node_ids;
        let policy = s.committed.policy_followers();
        let m: nat = if policy < f.len() {
            policy
        } else {
            f.len()
        };
        let named = s.with_named(range, before, m);
        let covered = s.secured_count(range, named, f.len());
        let needed = s.committed.needed_followers();
        let missing: nat = if covered < needed {
            (needed - covered) as nat
        } else {
            0
        };
        if s.chosen_for(range, before) is None {
            assert(missing > 0);
            lemma_missing_found(s, range, named, missing, needed);
            assert(range == ranges[n - 1]);
            let p = |node: Seq<char>| can_follow(s, range, node);
            let q = |node: Seq<char>| can_follow(s, ranges[n - 1], node);
            assert(p =~= q);
        }
    }
}

/// An activation is planned exactly if the topology assigns tokens, every range has as many followers
/// as it needs, and there are repairs for every stream that is chosen.
pub proof fn law_activations_are_planned(s: ClusterView)
    ensures
        ({
            let r = s.activation_plan();
            let ranges = s.committed.ranges();
            let chosen = s.chosen_streams(ranges, ranges.len());
            let streams = order_of::<StreamKey>(chosen->0);
            &&& r is Ok <==> {
                &&& s.committed.assignments.len() > 0
                &&& forall|i: int|
                    0 <= i < ranges.len() ==> (#[trigger] ranges[i]).follower_node_ids.len()
                        >= s.committed.needed_followers()
                &&& chosen is Some
                &&& forall|i: int|
                    0 <= i < streams.len() ==> repair_group(
                        s.replica_repairs,
                        #[trigger] streams[i],
                    ).len() > 0
            }
            &&& r matches Ok(groups) ==> {
                &&& groups.len() == streams.len()
                &&& forall|i: int|
                    0 <= i < groups.len() ==> #[trigger] groups[i] == repair_group(
                        s.replica_repairs,
                        streams[i],
                    )
            }
        }),
{
    let ranges = s.committed.ranges();
    let chosen = s.chosen_streams(ranges, ranges.len());
    let streams = order_of::<StreamKey>(chosen->0);
    if s.too_few(ranges) {
        let i = choose|i: int|
            0 <= i < ranges.len() && (#[trigger] ranges[i]).follower_node_ids.len()
                < s.committed.needed_followers();
        assert(ranges[i].follower_node_ids.len() < s.committed.needed_followers());
    }
    if s.lacks_group(streams) {
        let i = choose|i: int|
            0 <= i < streams.len() && repair_group(
                s.replica_repairs,
                #[trigger] streams[i],
            ).len() == 0;
        assert(repair_group(s.replica_repairs, streams[i]).len() == 0);
    }
}

/// A set in order has exactly its members.
pub proof fn law_sets_are_listed_whole(set: Set<Stream>, stream: Stream)
    requires
        set.finite(),
    ensures
        order_of::<StreamKey>(set).contains(stream) <==> set.contains(stream),
{
    let m = Map::new(|k: Stream| set.contains(k), |k: Stream| true);
    assert(m.dom() =~= set);
    lemma_listing_of::<StreamKey, bool>(m);
    let l = listing_of::<StreamKey, bool>(m);
    let order = order_of::<StreamKey>(set);
    if set.contains(stream) {
        assert(m.contains_key(stream));
        assert(l.contains((stream, m[stream])));
        let i = choose|i: int| 0 <= i < l.len() && l[i] == (stream, m[stream]);
        assert(order[i] == stream);
    }
    if order.contains(stream) {
        let i = choose|i: int| 0 <= i < order.len() && order[i] == stream;
        assert(m.contains_key(l[i].0));
    }
}

/// A topology may be activated exactly if every range is backed.
pub proof fn law_activation_needs_every_range(s: ClusterView)
    ensures
        s.all_backed() <==> forall|i: int|
            0 <= i < s.committed.ranges().len() ==> s.is_backed(
                #[trigger] s.committed.ranges()[i],
            ),
{
}

proof fn lemma_streams_into(list: Seq<RangeView>, node: Seq<char>, n: nat, stream: Stream)
    requires
        n <= list.len(),
    ensures
        streams_into(list, node, n).contains(stream) <==> stream.1 == node && stream.0 != node
            && exists|i: int| 0 <= i < n && (#[trigger] list[i]).owner_node_id == stream.0,
    decreases n,
{
    if n > 0 {
        lemma_streams_into(list, node, (n - 1) as nat, stream);
        if list[n - 1].owner_node_id == stream.0 {
            assert(list[n - 1].owner_node_id == stream.0);
        } else if streams_into(list, node, (n - 1) as nat).contains(stream) {
            let i = choose|i: int|
                0 <= i < n - 1 && (#[trigger] list[i]).owner_node_id == stream.0;
            assert(list[i].owner_node_id == stream.0);
        }
    }
}

/// A node needs a stream for a range: an old range in it was owned by the other end.
pub open spec fn feeds(s: ClusterView, range: RangeView, stream: Stream) -> bool {
    stream.0 != stream.1 && exists|part: RangeView| #[trigger]
        s.committed.ranges().contains(part) && lies_in(part, range) && part.owner_node_id
            == stream.0
}

proof fn lemma_feeds(s: ClusterView, range: RangeView, node: Seq<char>, stream: Stream)
    ensures
        ({
            let list = parts(s.committed.ranges(), range);
            streams_into(list, node, list.len()).contains(stream) <==> stream.1 == node && feeds(
                s,
                range,
                stream,
            )
        }),
{
    let list = parts(s.committed.ranges(), range);
    lemma_parts_of(s.committed.ranges(), range);
    lemma_streams_into(list, node, list.len(), stream);
    if exists|i: int| 0 <= i < list.len() && (#[trigger] list[i]).owner_node_id == stream.0 {
        let i = choose|i: int|
            0 <= i < list.len() && (#[trigger] list[i]).owner_node_id == stream.0;
        assert(list.contains(list[i]));
        assert(s.committed.ranges().contains(list[i]));
    }
    if feeds(s, range, stream) {
        let part = choose|part: RangeView| #[trigger]
            s.committed.ranges().contains(part) && lies_in(part, range) && part.owner_node_id
                == stream.0;
        assert(list.contains(part));
        let i = choose|i: int| 0 <= i < list.len() && list[i] == part;
        assert(list[i].owner_node_id == stream.0);
    }
}

/// The owners of a merged topology need the streams from which their ranges come.
pub proof fn law_merged_owners_wait_for_their_streams(
    s: ClusterView,
    ranges: Seq<RangeView>,
    n: nat,
    stream: Stream,
)
    requires
        n <= ranges.len(),
    ensures
        s.owner_streams(ranges, n).contains(stream) <==> exists|i: int|
            0 <= i < n && (#[trigger] ranges[i]).owner_node_id == stream.1 && feeds(
                s,
                ranges[i],
                stream,
            ),
    decreases n,
{
    if n > 0 {
        law_merged_owners_wait_for_their_streams(s, ranges, (n - 1) as nat, stream);
        let range = ranges[n - 1];
        lemma_feeds(s, range, range.owner_node_id, stream);
        if range.owner_node_id == stream.1 && feeds(s, range, stream) {
            assert(ranges[n - 1].owner_node_id == stream.1);
        } else if s.owner_streams(ranges, (n - 1) as nat).contains(stream) {
            let i = choose|i: int|
                0 <= i < n - 1 && (#[trigger] ranges[i]).owner_node_id == stream.1 && feeds(
                    s,
                    ranges[i],
                    stream,
                );
            assert(ranges[i].owner_node_id == stream.1);
        }
    }
}

/// A range with this interval, whoever has it.
pub open spec fn bare_range(start: u64, end: u64) -> RangeView {
    RangeView {
        start_exclusive: start,
        end_inclusive: end,
        owner_node_id: Seq::empty(),
        follower_node_ids: Seq::empty(),
    }
}

proof fn lemma_bare(s: ClusterView, range: RangeView, stream: Stream)
    ensures
        feeds(s, range, stream) == feeds(
            s,
            bare_range(range.start_exclusive, range.end_inclusive),
            stream,
        ),
{
    let other = bare_range(range.start_exclusive, range.end_inclusive);
    assert forall|part: RangeView| #[trigger] lies_in(part, range) == lies_in(part, other) by {}
    if feeds(s, range, stream) {
        let part = choose|part: RangeView| #[trigger]
            s.committed.ranges().contains(part) && lies_in(part, range) && part.owner_node_id
                == stream.0;
        assert(s.committed.ranges().contains(part) && lies_in(part, other));
    }
    if feeds(s, other, stream) {
        let part = choose|part: RangeView| #[trigger]
            s.committed.ranges().contains(part) && lies_in(part, other) && part.owner_node_id
                == stream.0;
        assert(s.committed.ranges().contains(part) && lies_in(part, range));
    }
}

/// A candidate rests on the streams that feed its range into its node.
#[verifier::opaque]
spec fn rests_rightly(s: ClusterView, c: CandidateView) -> bool {
    forall|stream: Stream| #[trigger]
        c.pairs.contains(stream) <==> stream.1 == c.admission.node_id && feeds(
            s,
            bare_range(c.admission.start_exclusive, c.admission.end_inclusive),
            stream,
        )
}

proof fn lemma_rests(s: ClusterView, epoch: u64, range: RangeView, node: Seq<char>)
    requires
        s.candidate(epoch, range, node) is Some,
    ensures
        rests_rightly(s, s.candidate(epoch, range, node)->0),
{
    reveal(rests_rightly);
    let c = s.candidate(epoch, range, node)->0;
    assert forall|stream: Stream| #[trigger] c.pairs.contains(stream) <==> stream.1
        == c.admission.node_id && feeds(
        s,
        bare_range(c.admission.start_exclusive, c.admission.end_inclusive),
        stream,
    ) by {
        lemma_feeds(s, range, node, stream);
        lemma_bare(s, range, stream);
    }
}

#[verifier::opaque]
spec fn all_rest_rightly(s: ClusterView, list: Seq<CandidateView>) -> bool {
    forall|i: int| 0 <= i < list.len() ==> rests_rightly(s, #[trigger] list[i])
}

proof fn lemma_one_rests(s: ClusterView, list: Seq<CandidateView>, c: CandidateView)
    requires
        all_rest_rightly(s, list),
        rests_rightly(s, c),
    ensures
        all_rest_rightly(s, list.push(c)),
{
    reveal(all_rest_rightly);
}

proof fn lemma_both_rest(s: ClusterView, a: Seq<CandidateView>, b: Seq<CandidateView>)
    requires
        all_rest_rightly(s, a),
        all_rest_rightly(s, b),
    ensures
        all_rest_rightly(s, a + b),
{
    reveal(all_rest_rightly);
    assert forall|i: int| 0 <= i < (a + b).len() implies rests_rightly(s, #[trigger] (a + b)[i]) by {
        if i < a.len() {
            assert((a + b)[i] == a[i]);
        } else {
            assert((a + b)[i] == b[i - a.len()]);
        }
    }
}

proof fn lemma_none_rests(s: ClusterView)
    ensures
        all_rest_rightly(s, Seq::empty()),
{
    reveal(all_rest_rightly);
}

proof fn lemma_range_rests(s: ClusterView, epoch: u64, range: RangeView, n: nat)
    requires
        n <= range.follower_node_ids.len(),
    ensures
        all_rest_rightly(s, s.range_candidates(epoch, range, n)),
    decreases n,
{
    if n == 0 {
        lemma_none_rests(s);
    } else {
        lemma_range_rests(s, epoch, range, (n - 1) as nat);
        let node = range.follower_node_ids[n - 1];
        let rest = s.range_candidates(epoch, range, (n - 1) as nat);
        match s.candidate(epoch, range, node) {
            Some(c) => {
                lemma_rests(s, epoch, range, node);
                lemma_one_rests(s, rest, c);
            },
            None => {},
        }
    }
}

proof fn lemma_all_rest(s: ClusterView, epoch: u64, ranges: Seq<RangeView>, n: nat)
    requires
        n <= ranges.len(),
    ensures
        all_rest_rightly(s, s.candidates(epoch, ranges, n)),
    decreases n,
{
    if n == 0 {
        lemma_none_rests(s);
    } else {
        lemma_all_rest(s, epoch, ranges, (n - 1) as nat);
        let range = ranges[n - 1];
        lemma_range_rests(s, epoch, range, range.follower_node_ids.len());
        lemma_both_rest(
            s,
            s.candidates(epoch, ranges, (n - 1) as nat),
            s.range_candidates(epoch, range, range.follower_node_ids.len()),
        );
    }
}

proof fn lemma_candidate_found(list: Seq<CandidateView>, range: RangeView, node: Seq<char>, i: nat)
    requires
        i <= list.len(),
    ensures
        candidate_from(list, range, node, i) matches Some(c) ==> list.contains(c)
            && c.admission.start_exclusive == range.start_exclusive && c.admission.end_inclusive
            == range.end_inclusive && c.admission.node_id == node,
    decreases list.len() - i,
{
    if i < list.len() {
        lemma_candidate_found(list, range, node, i + 1);
        assert(list.contains(list[i as int]));
    }
}

proof fn lemma_follower_streams(
    s: ClusterView,
    list: Seq<CandidateView>,
    range: RangeView,
    n: nat,
    stream: Stream,
)
    requires
        n <= range.follower_node_ids.len(),
        all_rest_rightly(s, list),
        forall|k: int|
            0 <= k < n ==> candidate_from(
                list,
                range,
                #[trigger] range.follower_node_ids[k],
                0,
            ) is Some,
    ensures
        follower_streams(list, range, n).contains(stream) <==> feeds(s, range, stream) && exists|
            k: int,
        |
            0 <= k < n && #[trigger] range.follower_node_ids[k] == stream.1,
    decreases n,
{
    if n > 0 {
        lemma_follower_streams(s, list, range, (n - 1) as nat, stream);
        let node = range.follower_node_ids[n - 1];
        assert(candidate_from(list, range, range.follower_node_ids[n - 1], 0) is Some);
        lemma_candidate_found(list, range, node, 0);
        let c = candidate_from(list, range, node, 0)->0;
        let i = choose|i: int| 0 <= i < list.len() && list[i] == c;
        assert(rests_rightly(s, c)) by {
            reveal(all_rest_rightly);
            assert(rests_rightly(s, list[i]));
        }
        reveal(rests_rightly);
        lemma_bare(s, range, stream);
        assert(c.pairs.contains(stream) <==> stream.1 == node && feeds(s, range, stream));
        if stream.1 == node {
            assert(range.follower_node_ids[n - 1] == stream.1);
        }
        if exists|k: int| 0 <= k < n - 1 && #[trigger] range.follower_node_ids[k] == stream.1 {
            let k = choose|k: int|
                0 <= k < n - 1 && #[trigger] range.follower_node_ids[k] == stream.1;
            assert(range.follower_node_ids[k] == stream.1);
        }
    }
}

/// The followers that a merged topology needs wait for the streams from which their ranges come.
pub proof fn law_merged_followers_wait_for_their_streams(
    s: ClusterView,
    target: SnapshotView,
    n: nat,
    stream: Stream,
)
    requires
        n <= target.ranges().len(),
        forall|i: int|
            0 <= i < target.ranges().len() ==> (
            #[trigger] target.ranges()[i]).follower_node_ids.len() >= target.needed_followers(),
        forall|i: int, k: int|
            0 <= i < target.ranges().len() && 0 <= k < target.needed_followers() ==> candidate_from(
                s.merge_candidates(target),
                target.ranges()[i],
                (#[trigger] target.ranges()[i].follower_node_ids[k]),
                0,
            ) is Some,
    ensures
        guard_streams(
            s.merge_candidates(target),
            target.ranges(),
            target.needed_followers(),
            n,
        ).contains(stream) <==> exists|i: int, k: int|
            0 <= i < n && 0 <= k < target.needed_followers()
                && #[trigger] target.ranges()[i].follower_node_ids[k] == stream.1 && feeds(
                s,
                target.ranges()[i],
                stream,
            ),
    decreases n,
{
    if n > 0 {
        law_merged_followers_wait_for_their_streams(s, target, (n - 1) as nat, stream);
        let ranges = target.ranges();
        let needed = target.needed_followers();
        let list = s.merge_candidates(target);
        let range = ranges[n - 1];
        lemma_all_rest(s, target.epoch, ranges, ranges.len());
        assert forall|k: int| 0 <= k < needed implies candidate_from(
            list,
            range,
            #[trigger] range.follower_node_ids[k],
            0,
        ) is Some by {
            assert(candidate_from(list, ranges[n - 1], ranges[n - 1].follower_node_ids[k], 0)
                is Some);
        }
        lemma_follower_streams(s, list, range, needed, stream);
        if feeds(s, range, stream) && exists|k: int|
            0 <= k < needed && #[trigger] range.follower_node_ids[k] == stream.1 {
            let k = choose|k: int|
                0 <= k < needed && #[trigger] range.follower_node_ids[k] == stream.1;
            assert(ranges[n - 1].follower_node_ids[k] == stream.1);
        }
        if guard_streams(list, ranges, needed, (n - 1) as nat).contains(stream) {
            let (i, k) = choose|i: int, k: int|
                0 <= i < n - 1 && 0 <= k < needed && #[trigger] ranges[i].follower_node_ids[k]
                    == stream.1 && feeds(s, ranges[i], stream);
            assert(ranges[i].follower_node_ids[k] == stream.1);
        }
        if exists|i: int, k: int|
            0 <= i < n && 0 <= k < needed && #[trigger] ranges[i].follower_node_ids[k] == stream.1
                && feeds(s, ranges[i], stream) {
            let (i, k) = choose|i: int, k: int|
                0 <= i < n && 0 <= k < needed && #[trigger] ranges[i].follower_node_ids[k]
                    == stream.1 && feeds(s, ranges[i], stream);
            if i < n - 1 {
                assert(ranges[i].follower_node_ids[k] == stream.1);
            } else {
                assert(range.follower_node_ids[k] == stream.1);
            }
        }
    }
}

/// A merge rests on the streams of its owners and of the followers that it needs, and may carry every
/// candidate.
pub proof fn law_merges_rest_on_their_streams(s: ClusterView, target: SnapshotView)
    ensures
        ({
            let basis = s.merge_basis(target);
            let ranges = target.ranges();
            &&& forall|stream: Stream| #[trigger]
                basis.required.contains(stream) <==> s.owner_streams(ranges, ranges.len()).contains(
                    stream,
                ) || guard_streams(
                    basis.candidates,
                    ranges,
                    target.needed_followers(),
                    ranges.len(),
                ).contains(stream)
            &&& basis.candidates == s.merge_candidates(target)
        }),
{
}

/// Copies are admitted one after the other, all or none.
pub proof fn law_copies_are_admitted_together(s: ClusterView, seeds: Seq<SeedView>, n: nat)
    requires
        n < seeds.len(),
    ensures
        s.admitting_all(seeds, 0) == Ok::<ClusterView, crate::errors::StatusView>(s),
        s.admitting_all(seeds, n + 1) is Ok <==> s.admitting_all(seeds, n) is Ok
            && s.admitting_all(seeds, n)->Ok_0.admitting(seeds[n as int]) is Ok,
        s.admitting_all(seeds, n + 1) is Ok ==> s.admitting_all(seeds, n + 1)
            == s.admitting_all(seeds, n)->Ok_0.admitting(seeds[n as int]),
{
}

/// No copy is repaired twice.
pub open spec fn each_once(list: Seq<RepairView>) -> bool {
    forall|i: int, j: int|
        0 <= i < j < list.len() ==> !repairs_copy(#[trigger] list[i], #[trigger] list[j])
}

/// One of the first `n` tasks is this repair.
pub open spec fn asked_for(tasks: Seq<RepairView>, r: RepairView, n: nat) -> bool {
    exists|k: int| 0 <= k < n && repairs_copy(r, #[trigger] tasks[k])
}

/// A phase is noted for a group exactly if all its repairs are known; it is then the phase of those
/// and of no others.
pub proof fn law_group_phases_are_noted(
    list: Seq<RepairView>,
    tasks: Seq<RepairView>,
    phase: ReplicaRepairPhase,
    n: nat,
)
    requires
        n <= tasks.len(),
        each_once(list),
    ensures
        all_in_phase(list, tasks, phase, n) is Some <==> forall|k: int|
            0 <= k < n ==> known_task(list, #[trigger] tasks[k]),
        all_in_phase(list, tasks, phase, n) matches Some(after) ==> after.len() == list.len()
            && forall|i: int|
            0 <= i < after.len() ==> #[trigger] after[i] == if asked_for(tasks, list[i], n) {
                RepairView { phase: phase, ..list[i] }
            } else {
                list[i]
            },
    decreases n,
{
    if n > 0 {
        law_group_phases_are_noted(list, tasks, phase, (n - 1) as nat);
        if all_in_phase(list, tasks, phase, (n - 1) as nat) is Some {
            let before = all_in_phase(list, tasks, phase, (n - 1) as nat)->0;
            let task = tasks[n - 1];
            lemma_task_index(before, task, false, 0);
            assert forall|i: int| 0 <= i < list.len() implies repairs_copy(
                #[trigger] before[i],
                task,
            ) == repairs_copy(list[i], task) by {}
            match task_index(before, task, false, 0) {
                Some(at) => {
                    assert(repairs_copy(list[at as int], task));
                    assert(known_task(list, tasks[n - 1]));
                    let after = all_in_phase(list, tasks, phase, n)->0;
                    assert forall|i: int| 0 <= i < after.len() implies #[trigger] after[i]
                        == if asked_for(tasks, list[i], n) {
                        RepairView { phase: phase, ..list[i] }
                    } else {
                        list[i]
                    } by {
                        if i == at {
                            assert(repairs_copy(list[i], tasks[n - 1]));
                        } else {
                            if repairs_copy(list[i], tasks[n - 1]) {
                                if i < at {
                                    assert(repairs_copy(list[i], list[at as int]));
                                } else {
                                    assert(repairs_copy(list[at as int], list[i]));
                                }
                            }
                            if asked_for(tasks, list[i], (n - 1) as nat) {
                                let k = choose|k: int|
                                    0 <= k < n - 1 && repairs_copy(list[i], #[trigger] tasks[k]);
                                assert(repairs_copy(list[i], tasks[k]));
                            }
                            assert(before[i] == after[i]);
                        }
                    }
                },
                None => {
                    if known_task(list, task) {
                        let i = choose|i: int|
                            0 <= i < list.len() && repairs_copy(#[trigger] list[i], task);
                        assert(repairs_copy(before[i], task));
                    }
                    assert(!known_task(list, tasks[n - 1]));
                },
            }
        }
    }
}

/// Some repair stands for the task.
pub open spec fn known_task(list: Seq<RepairView>, task: RepairView) -> bool {
    exists|i: int| 0 <= i < list.len() && repairs_copy(#[trigger] list[i], task)
}

proof fn lemma_by_name_finite(members: Seq<MemberView>, n: nat)
    ensures
        by_name(members, n).dom().finite(),
    decreases n,
{
    if n > 0 {
        lemma_by_name_finite(members, (n - 1) as nat);
    }
}

proof fn lemma_joined_finite(known: Map<Seq<char>, MemberView>, members: Seq<MemberView>, n: nat)
    requires
        known.dom().finite(),
    ensures
        joined_by_name(known, members, n).dom().finite(),
    decreases n,
{
    if n > 0 {
        lemma_joined_finite(known, members, (n - 1) as nat);
    }
}

proof fn lemma_probes(s: ClusterView, list: Seq<(Seq<char>, MemberView)>, n: nat, p: ProbeView)
    requires
        n <= list.len(),
    ensures
        s.probes(list, n).contains(p) <==> exists|i: int|
            0 <= i < n && (#[trigger] list[i]).1 == p.member && s.process_instances.contains_key(
                p.member.node_id,
            ) && s.process_instances[p.member.node_id] == p.process_instance_id,
    decreases n,
{
    if n > 0 {
        lemma_probes(s, list, (n - 1) as nat, p);
        let before = s.probes(list, (n - 1) as nat);
        let after = s.probes(list, n);
        if before.contains(p) {
            let k = choose|k: int| 0 <= k < before.len() && before[k] == p;
            assert(after[k] == p);
            let i = choose|i: int|
                0 <= i < n - 1 && (#[trigger] list[i]).1 == p.member
                    && s.process_instances.contains_key(p.member.node_id)
                    && s.process_instances[p.member.node_id] == p.process_instance_id;
            assert(list[i].1 == p.member);
        }
        if after.contains(p) {
            let k = choose|k: int| 0 <= k < after.len() && after[k] == p;
            if k < before.len() {
                assert(before[k] == p);
            } else {
                assert(list[n - 1].1 == p.member);
            }
        }
        if list[n - 1].1 == p.member && s.process_instances.contains_key(p.member.node_id)
            && s.process_instances[p.member.node_id] == p.process_instance_id {
            assert(after[before.len() as int] == p);
        }
    }
}

/// Those who take part in a change and run are asked whether they are alive, each as the process that
/// it runs, and nobody else is.
pub proof fn law_running_participants_are_asked(s: ClusterView, c: ChangeView, p: ProbeView)
    ensures
        s.change_probes(c).contains(p) <==> exists|node: Seq<char>|
            #[trigger] c.participants().contains_key(node) && c.participants()[node] == p.member
                && s.process_instances.contains_key(p.member.node_id)
                && s.process_instances[p.member.node_id] == p.process_instance_id,
{
    let m = c.participants();
    let members = c.target_topology.members;
    lemma_by_name_finite(members, members.len());
    if c.base_topology is Some {
        lemma_joined_finite(
            by_name(members, members.len()),
            c.base_topology->0.members,
            c.base_topology->0.members.len(),
        );
    }
    lemma_listing_of::<String, MemberView>(m);
    let list = listing_of::<String, MemberView>(m);
    lemma_probes(s, list, list.len(), p);
    if s.change_probes(c).contains(p) {
        let i = choose|i: int|
            0 <= i < list.len() && (#[trigger] list[i]).1 == p.member
                && s.process_instances.contains_key(p.member.node_id)
                && s.process_instances[p.member.node_id] == p.process_instance_id;
        assert(m.contains_key(list[i].0));
    }
    if exists|node: Seq<char>|
        #[trigger] m.contains_key(node) && m[node] == p.member && s.process_instances.contains_key(
            p.member.node_id,
        ) && s.process_instances[p.member.node_id] == p.process_instance_id {
        let node = choose|node: Seq<char>|
            #[trigger] m.contains_key(node) && m[node] == p.member
                && s.process_instances.contains_key(p.member.node_id)
                && s.process_instances[p.member.node_id] == p.process_instance_id;
        assert(list.contains((node, m[node])));
        let i = choose|i: int| 0 <= i < list.len() && list[i] == (node, m[node]);
        assert(list[i].1 == p.member);
    }
}

/// Nodes and addresses are listed as members, each once.
pub proof fn law_addresses_are_listed(m: Map<Seq<char>, Seq<char>>, x: MemberView)
    requires
        m.dom().finite(),
    ensures
        as_members(m).contains(x) <==> m.contains_key(x.node_id) && m[x.node_id] == x.endpoint,
{
    lemma_listing_of::<String, Seq<char>>(m);
    let list = listing_of::<String, Seq<char>>(m);
    let all = as_members(m);
    if m.contains_key(x.node_id) && m[x.node_id] == x.endpoint {
        assert(list.contains((x.node_id, m[x.node_id])));
        let i = choose|i: int| 0 <= i < list.len() && list[i] == (x.node_id, m[x.node_id]);
        assert(all[i] == x);
    }
    if all.contains(x) {
        let i = choose|i: int| 0 <= i < all.len() && all[i] == x;
        assert(m.contains_key(list[i].0));
    }
}

proof fn lemma_told(leaving: Seq<MemberView>, stopped: Seq<Seq<char>>, n: nat, x: MergeStepView)
    requires
        n <= leaving.len(),
    ensures
        told(leaving, stopped, n).contains(x) <==> exists|i: int|
            0 <= i < n && x == MergeStepView::InstallLeaving(#[trigger] leaving[i])
                && !stopped.contains(leaving[i].node_id),
    decreases n,
{
    if n > 0 {
        lemma_told(leaving, stopped, (n - 1) as nat, x);
        let before = told(leaving, stopped, (n - 1) as nat);
        let after = told(leaving, stopped, n);
        if before.contains(x) {
            let k = choose|k: int| 0 <= k < before.len() && before[k] == x;
            assert(after[k] == x);
            let i = choose|i: int|
                0 <= i < n - 1 && x == MergeStepView::InstallLeaving(#[trigger] leaving[i])
                    && !stopped.contains(leaving[i].node_id);
            assert(x == MergeStepView::InstallLeaving(leaving[i]));
        }
        if after.contains(x) {
            let k = choose|k: int| 0 <= k < after.len() && after[k] == x;
            if k < before.len() {
                assert(before[k] == x);
            } else {
                assert(x == MergeStepView::InstallLeaving(leaving[n - 1]));
            }
        }
        if x == MergeStepView::InstallLeaving(leaving[n - 1]) && !stopped.contains(
            leaving[n - 1].node_id,
        ) {
            assert(after[before.len() as int] == x);
        }
    }
}

/// A merge tells everyone who leaves and has not stopped, installs the target at all members,
/// releases the fence, stops everyone who leaves, and is then complete.
pub proof fn law_merges_are_finished(leaving: Seq<MemberView>, stopped: Seq<Seq<char>>, i: int)
    ensures
        ({
            let plan = merge_plan(leaving, stopped);
            let n = plan.len();
            let m = leaving.len();
            &&& n >= m + 4
            &&& plan[n - 1] == MergeStepView::Note(MigrationPhase::Complete)
            &&& plan[n - m - 2] == MergeStepView::Note(MigrationPhase::CleaningUp)
            &&& plan[n - m - 3] == MergeStepView::ReleaseFence
            &&& plan[n - m - 4] == MergeStepView::InstallMembers
            &&& 0 <= i < m ==> plan[n - m - 1 + i] == MergeStepView::StopLeaving(leaving[i])
            &&& 0 <= i < m ==> (plan.take(n - m - 4).contains(
                MergeStepView::InstallLeaving(leaving[i]),
            ) <==> !stopped.contains(leaving[i].node_id))
        }),
{
    let plan = merge_plan(leaving, stopped);
    let head = told(leaving, stopped, leaving.len());
    assert(plan.take(plan.len() - leaving.len() - 4) =~= head);
    if 0 <= i < leaving.len() {
        let x = MergeStepView::InstallLeaving(leaving[i]);
        lemma_told(leaving, stopped, leaving.len(), x);
        if head.contains(x) {
            let k = choose|k: int|
                0 <= k < leaving.len() && x == MergeStepView::InstallLeaving(#[trigger] leaving[k])
                    && !stopped.contains(leaving[k].node_id);
            assert(leaving[k] == leaving[i]);
        }
    }
}

/// A stored state comes back exactly if its ranges get their addresses, its topology is orderly, and it
/// is sound once it is put in order.
pub proof fn law_stored_states_come_back(s: ClusterState)
    ensures
        restored_fault(s) is None <==> {
            let v = s@.upgraded();
            &&& s@.upgrade_fault() is None
            &&& v.committed.assignments.len() > 0
            &&& v.committed.duties().len() <= 16_384
            &&& fault_in(s.committed, s.active_change, v.reconciled()) is None
        },
{
}

/// Copies for a merge are prepared exactly as long as the removal merges by itself.
pub proof fn law_natural_merges_are_prepared(s: ClusterView, change: ChangeView)
    ensures
        s.preparation_fault(change) is None <==> naturally_merges(
            s.committed,
            change.target_topology,
        ),
{
}

/// Every node that leaves has a process, and the same address and process in all its ranges.
pub open spec fn leave_steadily(c: ChangeView) -> bool {
    &&& forall|i: int|
        0 <= i < c.ranges.len() && !c.target_topology.is_member(
            (#[trigger] c.ranges[i]).source_node_id,
        ) ==> c.ranges[i].source_process_instance_id.len() > 0
    &&& forall|i: int, j: int|
        0 <= i < j < c.ranges.len() && !c.target_topology.is_member(
            (#[trigger] c.ranges[i]).source_node_id,
        ) && c.ranges[i].source_node_id == (#[trigger] c.ranges[j]).source_node_id
            ==> c.ranges[i].source_endpoint == c.ranges[j].source_endpoint
            && c.ranges[i].source_process_instance_id == c.ranges[j].source_process_instance_id
}

/// Those who leave are known: each source that the target does not have, with its address and its
/// process.
pub proof fn law_leaving_processes_are_known(c: ChangeView, n: nat, node: Seq<char>)
    requires
        n <= c.ranges.len(),
    ensures
        c.leaving(n).contains_key(node) <==> !c.target_topology.is_member(node) && exists|i: int|
            0 <= i < n && (#[trigger] c.ranges[i]).source_node_id == node,
        c.leaving(n).contains_key(node) ==> exists|i: int|
            0 <= i < n && (#[trigger] c.ranges[i]).source_node_id == node && c.leaving(n)[node] == (
                c.ranges[i].source_endpoint,
                c.ranges[i].source_process_instance_id,
            ),
    decreases n,
{
    if n > 0 {
        law_leaving_processes_are_known(c, (n - 1) as nat, node);
        let r = c.ranges[n - 1];
        if r.source_node_id == node {
            assert(c.ranges[n - 1].source_node_id == node);
        }
        if exists|i: int| 0 <= i < n - 1 && (#[trigger] c.ranges[i]).source_node_id == node {
            let i = choose|i: int|
                0 <= i < n - 1 && (#[trigger] c.ranges[i]).source_node_id == node;
            assert(c.ranges[i].source_node_id == node);
        }
        if c.leaving(n).contains_key(node) && !(r.source_node_id == node
            && !c.target_topology.is_member(node)) {
            let i = choose|i: int|
                0 <= i < n - 1 && (#[trigger] c.ranges[i]).source_node_id == node && c.leaving(
                    (n - 1) as nat,
                )[node] == (
                    c.ranges[i].source_endpoint,
                    c.ranges[i].source_process_instance_id,
                );
            assert(c.ranges[i].source_node_id == node);
        }
    }
}

/// The processes that leave can be told exactly if they leave steadily.
pub proof fn law_steady_leavers_are_stopped(c: ChangeView)
    ensures
        c.leaving_gap(0) is None <==> leave_steadily(c),
{
    lemma_leaving_gap(c, 0);
}

/// The first `n` ranges are left steadily.
spec fn steady_until(c: ChangeView, n: nat) -> bool {
    &&& forall|i: int|
        0 <= i < n && !c.target_topology.is_member((#[trigger] c.ranges[i]).source_node_id)
            ==> c.ranges[i].source_process_instance_id.len() > 0
    &&& forall|i: int, j: int|
        0 <= i < j < n && !c.target_topology.is_member((#[trigger] c.ranges[i]).source_node_id)
            && c.ranges[i].source_node_id == (#[trigger] c.ranges[j]).source_node_id
            ==> c.ranges[i].source_endpoint == c.ranges[j].source_endpoint
            && c.ranges[i].source_process_instance_id == c.ranges[j].source_process_instance_id
}

proof fn lemma_leaving_gap(c: ChangeView, i: nat)
    requires
        i <= c.ranges.len(),
        steady_until(c, i),
    ensures
        c.leaving_gap(i) is None <==> leave_steadily(c),
    decreases c.ranges.len() - i,
{
    if i < c.ranges.len() {
        let r = c.ranges[i as int];
        let node = r.source_node_id;
        let known = c.leaving(i);
        law_leaving_processes_are_known(c, i, node);
        let contact = (r.source_endpoint, r.source_process_instance_id);
        if c.target_topology.is_member(node) {
            assert(steady_until(c, i + 1));
            lemma_leaving_gap(c, i + 1);
        } else if r.source_process_instance_id.len() == 0 {
            assert(!leave_steadily(c));
        } else if known.contains_key(node) && known[node] != contact {
            let k = choose|k: int|
                0 <= k < i && (#[trigger] c.ranges[k]).source_node_id == node && known[node] == (
                    c.ranges[k].source_endpoint,
                    c.ranges[k].source_process_instance_id,
                );
            assert(c.ranges[k].source_node_id == c.ranges[i as int].source_node_id);
            assert(!leave_steadily(c));
        } else {
            assert forall|a: int, b: int|
                0 <= a < b < i + 1 && !c.target_topology.is_member(
                    (#[trigger] c.ranges[a]).source_node_id,
                ) && c.ranges[a].source_node_id == (
                #[trigger] c.ranges[b]).source_node_id implies c.ranges[a].source_endpoint
                == c.ranges[b].source_endpoint && c.ranges[a].source_process_instance_id
                == c.ranges[b].source_process_instance_id by {
                if b == i {
                    assert(c.ranges[a].source_node_id == node);
                    assert(known.contains_key(node));
                    let k = choose|k: int|
                        0 <= k < i && (#[trigger] c.ranges[k]).source_node_id == node
                            && known[node] == (
                            c.ranges[k].source_endpoint,
                            c.ranges[k].source_process_instance_id,
                        );
                    if a < k {
                        assert(c.ranges[a].source_node_id == c.ranges[k].source_node_id);
                    } else if k < a {
                        assert(c.ranges[k].source_node_id == c.ranges[a].source_node_id);
                    }
                }
            }
            assert(steady_until(c, i + 1));
            lemma_leaving_gap(c, i + 1);
        }
    }
}

} // verus!
