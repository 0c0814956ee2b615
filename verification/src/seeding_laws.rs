//! When copies are made, what a merge still lacks, and what it carries over.
use crate::barrier_laws::{
    has_candidate, law_heirs_follow_what_they_held, law_merged_ranges_keep_their_guard,
    law_removals_merge, lemma_parts_of, lies_in, well_followed,
};
use crate::begin::not_named;
use crate::changes::IdentityView;
use crate::cluster::{AdmissionView, ClusterView, RepairView};
use crate::coverage::{parts, GrantView};
use crate::failover_laws::{
    holds_copy, law_copies_count_where_they_were_verified, law_heirs_need_what_they_take_over,
    law_owners_need_leases, taken_care_of,
};
use crate::merge::{naturally_merges, CandidateView, Stream};
use crate::merge_run::{carried, on_stream};
use crate::migration::ChangeView;
use crate::reconcile::{lemma_sifted, sifted};
use crate::ring::RangeView;
use crate::seeding::{followed_intervals, one_stream, seed_after, task_intervals, SeedStep};
use crate::status_laws::leased_now;
use crate::topology::Member;
use vstd::prelude::*;

verus! {

proof fn lemma_followed(
    ranges: Seq<RangeView>,
    owner: Seq<char>,
    node: Seq<char>,
    n: nat,
    x: (u64, u64),
)
    requires
        n <= ranges.len(),
    ensures
        followed_intervals(ranges, owner, node, n).contains(x) <==> exists|i: int|
            0 <= i < n && (#[trigger] ranges[i]).owner_node_id == owner
                && ranges[i].follower_node_ids.contains(node) && x == (
                ranges[i].start_exclusive,
                ranges[i].end_inclusive,
            ),
    decreases n,
{
    if n > 0 {
        lemma_followed(ranges, owner, node, (n - 1) as nat, x);
        let r = ranges[n - 1];
        if r.owner_node_id == owner && r.follower_node_ids.contains(node) && x == (
            r.start_exclusive,
            r.end_inclusive,
        ) {
            assert(ranges[n - 1].owner_node_id == owner);
        } else if followed_intervals(ranges, owner, node, (n - 1) as nat).contains(x) {
            let i = choose|i: int|
                0 <= i < n - 1 && (#[trigger] ranges[i]).owner_node_id == owner
                    && ranges[i].follower_node_ids.contains(node) && x == (
                    ranges[i].start_exclusive,
                    ranges[i].end_inclusive,
                );
            assert(ranges[i].owner_node_id == owner);
        }
    }
}

proof fn lemma_tasks(tasks: Seq<RepairView>, n: nat, x: (u64, u64))
    requires
        n <= tasks.len(),
    ensures
        task_intervals(tasks, n).contains(x) <==> exists|i: int|
            0 <= i < n && x == ((#[trigger] tasks[i]).start_exclusive, tasks[i].end_inclusive),
    decreases n,
{
    if n > 0 {
        lemma_tasks(tasks, (n - 1) as nat, x);
        if x == (tasks[n - 1].start_exclusive, tasks[n - 1].end_inclusive) {
            assert(tasks[n - 1].start_exclusive == x.0);
        } else if task_intervals(tasks, (n - 1) as nat).contains(x) {
            let i = choose|i: int|
                0 <= i < n - 1 && x == (
                    (#[trigger] tasks[i]).start_exclusive,
                    tasks[i].end_inclusive,
                );
            assert(tasks[i].start_exclusive == x.0);
        }
    }
}

/// A range of this stream has this interval.
pub open spec fn streams(s: ClusterView, owner: Seq<char>, node: Seq<char>, x: (u64, u64)) -> bool {
    exists|i: int|
        0 <= i < s.committed.ranges().len() && (
        #[trigger] s.committed.ranges()[i]).owner_node_id == owner
            && s.committed.ranges()[i].follower_node_ids.contains(node) && x == (
            s.committed.ranges()[i].start_exclusive,
            s.committed.ranges()[i].end_inclusive,
        )
}

/// Some repair is of this interval.
pub open spec fn repaired(tasks: Seq<RepairView>, x: (u64, u64)) -> bool {
    exists|i: int|
        0 <= i < tasks.len() && x == ((#[trigger] tasks[i]).start_exclusive, tasks[i].end_inclusive)
}

/// A group of repairs is made together exactly if all are of one stream in the committed epoch, both
/// its ends are members, and they are the whole stream: every range of it is repaired, and nothing
/// else.
pub proof fn law_streams_are_repaired_whole(s: ClusterView, tasks: Seq<RepairView>)
    requires
        s.committed.assignments.len() > 0,
    ensures
        s.group_fault(tasks) is None <==> {
            let owner = tasks[0].owner_node_id;
            let node = tasks[0].node_id;
            &&& tasks.len() > 0
            &&& forall|i: int|
                0 <= i < tasks.len() ==> (#[trigger] tasks[i]).epoch == s.committed.epoch
                    && tasks[i].owner_node_id == owner && tasks[i].node_id == node
            &&& forall|x: (u64, u64)| #[trigger] streams(s, owner, node, x) <==> repaired(tasks, x)
            &&& s.committed.is_member(owner)
            &&& s.committed.is_member(node)
        },
{
    let owner = tasks[0].owner_node_id;
    let node = tasks[0].node_id;
    let ranges = s.committed.ranges();
    let expected = followed_intervals(ranges, owner, node, ranges.len());
    let actual = task_intervals(tasks, tasks.len());
    assert forall|x: (u64, u64)| expected.contains(x) == #[trigger] streams(s, owner, node, x) by {
        lemma_followed(ranges, owner, node, ranges.len(), x);
    }
    assert forall|x: (u64, u64)| actual.contains(x) == #[trigger] repaired(tasks, x) by {
        lemma_tasks(tasks, tasks.len(), x);
    }
    if tasks.len() > 0 {
        let x = (tasks[0].start_exclusive, tasks[0].end_inclusive);
        assert(repaired(tasks, x));
        assert(actual.contains(x));
        if forall|x: (u64, u64)| #[trigger] streams(s, owner, node, x) <==> repaired(tasks, x) {
            assert forall|x: (u64, u64)| #[trigger] expected.contains(x) == actual.contains(x) by {
                assert(expected.contains(x) == streams(s, owner, node, x));
                assert(actual.contains(x) == repaired(tasks, x));
            }
            assert(expected =~= actual);
        }
        if expected == actual {
            assert forall|x: (u64, u64)| #[trigger] streams(s, owner, node, x) <==> repaired(
                tasks,
                x,
            ) by {
                assert(expected.contains(x) == streams(s, owner, node, x));
                assert(actual.contains(x) == repaired(tasks, x));
            }
        }
        if forall|i: int|
            0 <= i < tasks.len() ==> (#[trigger] tasks[i]).epoch == s.committed.epoch
                && tasks[i].owner_node_id == owner && tasks[i].node_id == node {
            assert(tasks[0].epoch == s.committed.epoch);
            assert(one_stream(tasks));
        }
    }
}

/// A copy can be made exactly if it is of the committed epoch and both its ends are members that
/// run. It is made from the owner to the follower, over the interval of its repair, from the start.
pub proof fn law_copies_go_from_owner_to_follower(s: ClusterView, task: RepairView)
    ensures
        s.copy_fault(task) is None <==> {
            &&& s.committed.epoch == task.epoch
            &&& s.process_instances.contains_key(task.owner_node_id)
            &&& s.process_instances.contains_key(task.node_id)
            &&& s.committed.is_member(task.owner_node_id)
            &&& s.committed.is_member(task.node_id)
        },
        ({
            let r = s.copied_range(task);
            &&& r.start_exclusive == task.start_exclusive
            &&& r.end_inclusive == task.end_inclusive
            &&& r.source_node_id == task.owner_node_id
            &&& r.destination_node_id == task.node_id
            &&& r.changelog_watermark == 0
            &&& r.snapshot_records == 0
            &&& !r.verified
            &&& s.copying_change(task).target_topology == s.committed
            &&& s.copying_change(task).base_epoch == task.epoch
            &&& s.copying_change(task).change_id == r.range_id
        }),
{
}

/// A repair goes on step by step: copied while writes go on, held, verified, the stream's head read
/// and installed, released and only then admitted. A failure anywhere undoes it, and it waits again.
pub proof fn law_repairs_go_step_by_step(step: SeedStep)
    ensures
        seed_after(SeedStep::NoteCopying, true) == SeedStep::Copy,
        seed_after(SeedStep::Copy, true) == SeedStep::Pause,
        seed_after(SeedStep::Pause, true) == SeedStep::NoteVerifying,
        seed_after(SeedStep::NoteVerifying, true) == SeedStep::Verify,
        seed_after(SeedStep::Verify, true) == SeedStep::ReadHead,
        seed_after(SeedStep::ReadHead, true) == SeedStep::Checkpoint,
        seed_after(SeedStep::Checkpoint, true) == SeedStep::Release,
        seed_after(SeedStep::Release, true) == SeedStep::Admit,
        seed_after(SeedStep::Admit, true) == SeedStep::Succeeded,
        step != SeedStep::Undo && step != SeedStep::NotePending && step != SeedStep::Succeeded
            && step != SeedStep::Failed ==> seed_after(step, false) == SeedStep::Undo,
        forall|ok: bool| #[trigger] seed_after(SeedStep::Undo, ok) == SeedStep::NotePending,
        forall|ok: bool| #[trigger] seed_after(SeedStep::NotePending, ok) == SeedStep::Failed,
        forall|ok: bool| #[trigger] seed_after(SeedStep::Succeeded, ok) == SeedStep::Succeeded,
        forall|ok: bool| #[trigger] seed_after(SeedStep::Failed, ok) == SeedStep::Failed,
{
}

/// A node lacks an old range of a stream: it neither owned it nor holds a verified copy.
pub open spec fn lacks(s: ClusterView, part: RangeView, stream: Stream) -> bool {
    part.owner_node_id == stream.0 && part.owner_node_id != stream.1 && !holds_copy(
        s,
        part,
        stream.1,
    )
}

proof fn lemma_gaps_into(
    s: ClusterView,
    list: Seq<RangeView>,
    node: Seq<char>,
    n: nat,
    stream: Stream,
)
    requires
        n <= list.len(),
    ensures
        s.gaps_into(list, node, n).contains(stream) <==> stream.1 == node && exists|i: int|
            0 <= i < n && lacks(s, #[trigger] list[i], stream),
    decreases n,
{
    if n > 0 {
        lemma_gaps_into(s, list, node, (n - 1) as nat, stream);
        let part = list[n - 1];
        law_copies_count_where_they_were_verified(s, part, node);
        if stream.1 == node && lacks(s, part, stream) {
            assert(lacks(s, list[n - 1], stream));
        } else if s.gaps_into(list, node, (n - 1) as nat).contains(stream) {
            let i = choose|i: int| 0 <= i < n - 1 && lacks(s, #[trigger] list[i], stream);
            assert(lacks(s, list[i], stream));
        }
    }
}

/// A node is to have a range of the target: as its owner or as one of the first followers.
pub open spec fn is_to_have(range: RangeView, needed: nat, node: Seq<char>) -> bool {
    range.owner_node_id == node || exists|k: int|
        0 <= k < needed && k < range.follower_node_ids.len()
            && #[trigger] range.follower_node_ids[k] == node
}

proof fn lemma_range_gaps(s: ClusterView, range: RangeView, n: nat, stream: Stream)
    requires
        n <= range.follower_node_ids.len(),
    ensures
        s.range_gaps(range, n).contains(stream) <==> is_to_have(range, n, stream.1)
            && exists|part: RangeView| #[trigger]
            s.committed.ranges().contains(part) && lies_in(part, range) && lacks(s, part, stream),
    decreases n,
{
    let list = parts(s.committed.ranges(), range);
    lemma_parts_of(s.committed.ranges(), range);
    assert((exists|i: int| 0 <= i < list.len() && lacks(s, #[trigger] list[i], stream))
        <==> exists|part: RangeView| #[trigger]
        s.committed.ranges().contains(part) && lies_in(part, range) && lacks(s, part, stream)) by {
        if exists|i: int| 0 <= i < list.len() && lacks(s, #[trigger] list[i], stream) {
            let i = choose|i: int| 0 <= i < list.len() && lacks(s, #[trigger] list[i], stream);
            assert(list.contains(list[i]));
            assert(s.committed.ranges().contains(list[i]));
        }
        if exists|part: RangeView| #[trigger]
            s.committed.ranges().contains(part) && lies_in(part, range) && lacks(s, part, stream) {
            let part = choose|part: RangeView| #[trigger]
                s.committed.ranges().contains(part) && lies_in(part, range) && lacks(
                    s,
                    part,
                    stream,
                );
            assert(list.contains(part));
            let i = choose|i: int| 0 <= i < list.len() && list[i] == part;
            assert(lacks(s, list[i], stream));
        }
    }
    if n == 0 {
        lemma_gaps_into(s, list, range.owner_node_id, list.len(), stream);
    } else {
        lemma_range_gaps(s, range, (n - 1) as nat, stream);
        let node = range.follower_node_ids[n - 1];
        lemma_gaps_into(s, list, node, list.len(), stream);
        assert(is_to_have(range, n, stream.1) <==> is_to_have(range, (n - 1) as nat, stream.1)
            || stream.1 == node) by {
            if stream.1 == node {
                assert(range.follower_node_ids[n - 1] == stream.1);
            }
            if is_to_have(range, (n - 1) as nat, stream.1) && range.owner_node_id != stream.1 {
                let k = choose|k: int|
                    0 <= k < n - 1 && k < range.follower_node_ids.len()
                        && #[trigger] range.follower_node_ids[k] == stream.1;
                assert(range.follower_node_ids[k] == stream.1);
            }
        }
    }
}

/// A merge lacks a stream exactly if some node is to have a range of the target, an old range in it
/// was owned at the other end, and the node neither owned that nor holds a verified copy.
pub proof fn law_merges_miss_what_heirs_lack(
    s: ClusterView,
    ranges: Seq<RangeView>,
    needed: nat,
    n: nat,
    stream: Stream,
)
    requires
        n <= ranges.len(),
    ensures
        s.merge_gaps(ranges, needed, n).contains(stream) <==> exists|i: int, part: RangeView|
            0 <= i < n && is_to_have(#[trigger] ranges[i], needed, stream.1)
                && #[trigger] s.committed.ranges().contains(part) && lies_in(part, ranges[i])
                && lacks(s, part, stream),
    decreases n,
{
    if n > 0 {
        law_merges_miss_what_heirs_lack(s, ranges, needed, (n - 1) as nat, stream);
        let range = ranges[n - 1];
        let f = range.follower_node_ids.len();
        let m: nat = if f < needed {
            f
        } else {
            needed
        };
        lemma_range_gaps(s, range, m, stream);
        assert(is_to_have(range, m, stream.1) == is_to_have(range, needed, stream.1)) by {
            if is_to_have(range, needed, stream.1) && range.owner_node_id != stream.1 {
                let k = choose|k: int|
                    0 <= k < needed && k < range.follower_node_ids.len()
                        && #[trigger] range.follower_node_ids[k] == stream.1;
                assert(range.follower_node_ids[k] == stream.1);
            }
            if is_to_have(range, m, stream.1) && range.owner_node_id != stream.1 {
                let k = choose|k: int|
                    0 <= k < m && k < range.follower_node_ids.len()
                        && #[trigger] range.follower_node_ids[k] == stream.1;
                assert(range.follower_node_ids[k] == stream.1);
            }
        }
        if s.range_gaps(range, m).contains(stream) {
            let part = choose|part: RangeView| #[trigger]
                s.committed.ranges().contains(part) && lies_in(part, range) && lacks(
                    s,
                    part,
                    stream,
                );
            assert(is_to_have(ranges[n - 1], needed, stream.1));
            assert(s.committed.ranges().contains(part));
        }
        if s.merge_gaps(ranges, needed, (n - 1) as nat).contains(stream) {
            let (i, part) = choose|i: int, part: RangeView|
                0 <= i < n - 1 && is_to_have(#[trigger] ranges[i], needed, stream.1)
                    && #[trigger] s.committed.ranges().contains(part) && lies_in(part, ranges[i])
                    && lacks(s, part, stream);
            assert(is_to_have(ranges[i], needed, stream.1));
            assert(s.committed.ranges().contains(part));
        }
        if exists|i: int, part: RangeView|
            0 <= i < n && is_to_have(#[trigger] ranges[i], needed, stream.1)
                && #[trigger] s.committed.ranges().contains(part) && lies_in(part, ranges[i])
                && lacks(s, part, stream) {
            let (i, part) = choose|i: int, part: RangeView|
                0 <= i < n && is_to_have(#[trigger] ranges[i], needed, stream.1)
                    && #[trigger] s.committed.ranges().contains(part) && lies_in(part, ranges[i])
                    && lacks(s, part, stream);
            if i == n - 1 {
                assert(s.committed.ranges().contains(part));
                assert(s.range_gaps(range, m).contains(stream));
            } else {
                assert(is_to_have(ranges[i], needed, stream.1));
                assert(s.committed.ranges().contains(part));
            }
        }
    }
}

proof fn lemma_range_candidates(s: ClusterView, epoch: u64, range: RangeView, n: nat, k: int)
    requires
        0 <= k < n <= range.follower_node_ids.len(),
        s.candidate(epoch, range, range.follower_node_ids[k]) is Some,
    ensures
        has_candidate(
            s.range_candidates(epoch, range, n),
            range,
            range.follower_node_ids[k],
        ),
    decreases n,
{
    let node = range.follower_node_ids[k];
    let all = s.range_candidates(epoch, range, n);
    let before = s.range_candidates(epoch, range, (n - 1) as nat);
    if k == n - 1 {
        assert(all[before.len() as int].admission.node_id == node);
    } else {
        lemma_range_candidates(s, epoch, range, (n - 1) as nat, k);
        let i = choose|i: int|
            0 <= i < before.len() && (#[trigger] before[i]).admission.start_exclusive
                == range.start_exclusive && before[i].admission.end_inclusive
                == range.end_inclusive && before[i].admission.node_id == node;
        assert(all[i].admission.node_id == node);
    }
}

proof fn lemma_candidates(
    s: ClusterView,
    epoch: u64,
    ranges: Seq<RangeView>,
    n: nat,
    i: int,
    node: Seq<char>,
)
    requires
        0 <= i < n <= ranges.len(),
        has_candidate(
            s.range_candidates(epoch, ranges[i], ranges[i].follower_node_ids.len()),
            ranges[i],
            node,
        ),
    ensures
        has_candidate(s.candidates(epoch, ranges, n), ranges[i], node),
    decreases n,
{
    let range = ranges[i];
    let before = s.candidates(epoch, ranges, (n - 1) as nat);
    let own = s.range_candidates(epoch, ranges[n - 1], ranges[n - 1].follower_node_ids.len());
    let all = s.candidates(epoch, ranges, n);
    if i == n - 1 {
        let k = choose|k: int|
            0 <= k < own.len() && (#[trigger] own[k]).admission.start_exclusive
                == range.start_exclusive && own[k].admission.end_inclusive == range.end_inclusive
                && own[k].admission.node_id == node;
        assert(all[before.len() + k].admission.node_id == node);
    } else {
        lemma_candidates(s, epoch, ranges, (n - 1) as nat, i, node);
        let k = choose|k: int|
            0 <= k < before.len() && (#[trigger] before[k]).admission.start_exclusive
                == range.start_exclusive && before[k].admission.end_inclusive
                == range.end_inclusive && before[k].admission.node_id == node;
        assert(all[k].admission.node_id == node);
    }
}

/// A removal that merges by itself and lacks no stream does merge, as long as those that need a copy
/// run and are not fenced: nothing more is asked of it.
pub proof fn law_complete_coverage_merges(s: ClusterView, change: ChangeView)
    requires
        naturally_merges(s.committed, change.target_topology),
        forall|stream: Stream| !#[trigger] s.missing_streams(change).contains(stream),
        forall|i: int, k: int|
            0 <= i < change.target_topology.ranges().len() && 0 <= k
                < change.target_topology.needed_followers() ==> s.process_instances.contains_key(
                (#[trigger] change.target_topology.ranges()[i].follower_node_ids[k]),
            ) && !s.fenced_nodes.contains(
                change.target_topology.ranges()[i].follower_node_ids[k],
            ),
    ensures
        s.merges(change),
{
    let target = change.target_topology;
    let ranges = target.ranges();
    let needed = target.needed_followers();
    let old_ranges = s.committed.ranges();
    law_removals_merge(s.committed, target);
    assert forall|i: int, part: RangeView, node: Seq<char>|
        0 <= i < ranges.len() && old_ranges.contains(part) && #[trigger] lies_in(part, ranges[i])
            && #[trigger] is_to_have(ranges[i], needed, node) implies part.owner_node_id == node
        || holds_copy(s, part, node) by {
        let stream = (part.owner_node_id, node);
        law_merges_miss_what_heirs_lack(s, ranges, needed, ranges.len(), stream);
        assert(!s.missing_streams(change).contains(stream));
        if part.owner_node_id != node && !holds_copy(s, part, node) {
            assert(lacks(s, part, stream));
            assert(is_to_have(ranges[i], needed, stream.1));
            assert(old_ranges.contains(part));
        }
    }
    assert forall|k: int| 0 <= k < ranges.len() implies taken_care_of(s, #[trigger] ranges[k]) by {
        let range = ranges[k];
        assert(crate::barrier_laws::grows_together(old_ranges, range, needed));
        let part = choose|part: RangeView| #[trigger]
            old_ranges.contains(part) && lies_in(part, range);
        assert(old_ranges.contains(part));
        assert forall|part: RangeView| #[trigger]
            old_ranges.contains(part) && lies_in(part, range) implies crate::failover_laws::has_part(
            s,
            part,
            range.owner_node_id,
        ) by {
            assert(is_to_have(range, needed, range.owner_node_id));
        }
    }
    law_heirs_need_what_they_take_over(s, target);
    let list = s.merge_candidates(target);
    assert forall|k: int| 0 <= k < ranges.len() implies well_followed(
        list,
        #[trigger] ranges[k],
        needed,
    ) by {
        let range = ranges[k];
        assert(crate::barrier_laws::grows_together(old_ranges, range, needed));
        assert forall|j: int| 0 <= j < needed implies has_candidate(
            list,
            range,
            #[trigger] range.follower_node_ids[j],
        ) by {
            let node = range.follower_node_ids[j];
            assert(s.process_instances.contains_key(ranges[k].follower_node_ids[j]));
            assert(is_to_have(range, needed, node));
            law_heirs_follow_what_they_held(s, target.epoch, range, node);
            assert forall|part: RangeView| #[trigger]
                old_ranges.contains(part) && lies_in(part, range) implies part.owner_node_id == node
                || holds_copy(s, part, node) by {
                assert(lies_in(part, ranges[k]) && is_to_have(ranges[k], needed, node));
            }
            assert(s.candidate(target.epoch, range, node) is Some);
            lemma_range_candidates(
                s,
                target.epoch,
                range,
                range.follower_node_ids.len(),
                j,
            );
            lemma_candidates(s, target.epoch, ranges, ranges.len(), k, node);
        }
    }
    law_merged_ranges_keep_their_guard(list, ranges, needed, 0);
}

/// A merge is refused exactly if it does not merge or an owner of the target has no lease.
pub proof fn law_merges_need_coverage_and_leases(
    s: ClusterView,
    change: ChangeView,
    grants: Map<Seq<char>, GrantView>,
    now: u64,
)
    requires
        change.target_topology.assignments.len() > 0,
    ensures
        s.merge_refusal(change, grants, now) is None <==> {
            &&& naturally_merges(s.committed, change.target_topology)
            &&& s.merge_fault(change.target_topology) is None
            &&& forall|k: int|
                0 <= k < change.target_topology.ranges().len() ==> leased_now(
                    s,
                    grants,
                    (#[trigger] change.target_topology.ranges()[k]).owner_node_id,
                    now,
                )
        },
{
    law_owners_need_leases(s, grants, change.target_topology, now);
}

/// A copy is carried over a merge exactly if every stream that it rests on has caught up.
pub proof fn law_caught_up_copies_are_carried(
    list: Seq<CandidateView>,
    caught_up: Set<Stream>,
    n: nat,
    a: AdmissionView,
)
    requires
        n <= list.len(),
    ensures
        carried(list, caught_up, n).contains(a) <==> exists|i: int|
            0 <= i < n && (#[trigger] list[i]).admission == a && forall|stream: Stream| #[trigger]
                list[i].pairs.contains(stream) ==> caught_up.contains(stream),
    decreases n,
{
    if n > 0 {
        law_caught_up_copies_are_carried(list, caught_up, (n - 1) as nat, a);
        let before = carried(list, caught_up, (n - 1) as nat);
        let after = carried(list, caught_up, n);
        let last = list[n - 1];
        assert(last.pairs.subset_of(caught_up) <==> forall|stream: Stream| #[trigger]
            last.pairs.contains(stream) ==> caught_up.contains(stream));
        if before.contains(a) {
            let k = choose|k: int| 0 <= k < before.len() && before[k] == a;
            assert(after[k] == a);
        }
        if after.contains(a) {
            let k = choose|k: int| 0 <= k < after.len() && after[k] == a;
            if k < before.len() {
                assert(before[k] == a);
            } else {
                assert(list[n - 1].admission == a);
            }
        }
        if last.pairs.subset_of(caught_up) {
            assert(after[before.len() as int] == last.admission);
        }
    }
}

/// A proof of a merge stands exactly as long as topology, processes, copies and fences are as they
/// were and the change is still the one under way.
pub proof fn law_proofs_stand_while_nothing_changes(
    s: ClusterView,
    then: ClusterView,
    identity: IdentityView,
)
    ensures
        s.merge_stands(then, identity) <==> {
            &&& s.committed == then.committed
            &&& s.process_instances == then.process_instances
            &&& s.replica_admissions == then.replica_admissions
            &&& s.fenced_nodes == then.fenced_nodes
            &&& s.active_change is Some
            &&& s.active_change->0.change_id == identity.change_id
            &&& s.active_change->0.base_epoch == identity.base_epoch
            &&& s.active_change->0.target_topology.epoch == identity.target_epoch
        },
{
    if s.active_change is Some && s.active_change->0.change_id == identity.change_id
        && s.active_change->0.base_epoch == identity.base_epoch
        && s.active_change->0.target_topology.epoch == identity.target_epoch {
        assert(s.active_change->0.identity() =~= identity);
    }
}

/// The repairs of a stream are those of the committed epoch from its owner to its follower.
pub proof fn law_streams_have_their_repairs(s: ClusterView, stream: Stream, r: RepairView)
    ensures
        s.stream_repairs(stream).contains(r) <==> s.replica_repairs.contains(r) && r.epoch
            == s.committed.epoch && r.owner_node_id == stream.0 && r.node_id == stream.1,
{
    let p = on_stream(s.committed.epoch, stream);
    let list = s.replica_repairs;
    let group = sifted(list, p);
    lemma_sifted(list, p);
    if group.contains(r) {
        let i = choose|i: int| 0 <= i < group.len() && group[i] == r;
        assert(p(group[i]));
        let j = choose|j: int| 0 <= j < list.len() && list[j] == group[i];
        assert(list[j] == r);
    }
    if list.contains(r) && p(r) {
        let j = choose|j: int| 0 <= j < list.len() && list[j] == r;
        assert(p(list[j]));
        let i = choose|i: int| 0 <= i < group.len() && group[i] == list[j];
        assert(group[i] == r);
    }
}

/// A change that can merge is begun as a merge and moves nothing; any other is begun as planned.
pub proof fn law_removals_merge_where_they_can(s: ClusterView, plan: ChangeView)
    ensures
        ({
            let c = s.drafted(plan);
            let merges = naturally_merges(s.committed, plan.target_topology) && s.merge_fault(
                plan.target_topology,
            ) is None;
            &&& !merges ==> c == plan
            &&& merges ==> c.direct_merge && c.ranges.len() == 0 && c == (ChangeView {
                direct_merge: true,
                ranges: c.ranges,
                ..plan
            })
        }),
{
}

/// A failed node is fenced and taken out by its change; the others and everything else stay.
pub proof fn law_failed_nodes_are_fenced(
    s: ClusterView,
    node: Seq<char>,
    change: ChangeView,
    other: Seq<char>,
)
    ensures
        ({
            let next = s.fenced(node, change);
            &&& next.fenced_nodes.contains(node)
            &&& other != node ==> next.fenced_nodes.contains(other) == s.fenced_nodes.contains(
                other,
            )
            &&& next.active_change == Some(change)
            &&& next.recovery_block_reason.len() == 0
            &&& next == (ClusterView {
                fenced_nodes: next.fenced_nodes,
                active_change: next.active_change,
                recovery_block_reason: next.recovery_block_reason,
                ..s
            })
        }),
{
}

/// The members that are left are exactly those with another name.
pub proof fn law_the_others_are_left(list: Seq<Member>, node: Seq<char>, m: Member)
    ensures
        sifted(list, not_named(node)).contains(m) <==> list.contains(m) && m.node_id@ != node,
{
    let p = not_named(node);
    let left = sifted(list, p);
    lemma_sifted(list, p);
    if left.contains(m) {
        let i = choose|i: int| 0 <= i < left.len() && left[i] == m;
        assert(p(left[i]));
        let j = choose|j: int| 0 <= j < list.len() && list[j] == left[i];
        assert(list[j] == m);
    }
    if list.contains(m) && p(m) {
        let j = choose|j: int| 0 <= j < list.len() && list[j] == m;
        assert(p(list[j]));
        let i = choose|i: int| 0 <= i < left.len() && left[i] == list[j];
        assert(left[i] == m);
    }
}

} // verus!
