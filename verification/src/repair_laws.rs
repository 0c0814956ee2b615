//! What becomes of repairs that fail.
use crate::cluster::{fresh_repair, ClusterView, RepairView, ReplicaRepairPhase};
use crate::errors::StatusView;
use crate::merge::{Stream, StreamKey};
use crate::ordmap::{ascending, entry_map, has_entry, lemma_listing_unique, listing_of};
use crate::reconcile::{
    all_rechecked, law_reconciling_keeps_the_rest, lemma_missing, lemma_sifted, rechecked, sifted,
    still_wanted,
};
use crate::repair_plan::{
    between, by_retries, due_groups, is_due, lemma_place_for, most_retries, place_for,
    repair_group, MAX_REPAIR_GROUPS_PER_PASS,
};
use crate::repairs::{all_backed_off, lemma_task_index, same_task, task_index};
use crate::sets::order_of;
use vstd::prelude::*;

verus! {

/// While a change is under way no repair is begun and nothing of the state changes.
pub proof fn law_repairs_wait_for_changes(s: ClusterView)
    requires
        s.changing(),
    ensures
        s.resumed() == Ok::<Option<ClusterView>, StatusView>(None),
{
}

/// A repair after some failures: the same copy in the same phase, tried more often, and not to be
/// tried again at once.
pub open spec fn set_back(before: RepairView, after: RepairView, now: u64) -> bool {
    &&& same_task(before, after)
    &&& after.phase == before.phase
    &&& after.retry_count > before.retry_count || after.retry_count == u32::MAX
    &&& after.next_attempt_unix_millis > now || after.next_attempt_unix_millis == u64::MAX
}

/// No two repairs are of one copy in one epoch.
pub open spec fn one_each(list: Seq<RepairView>) -> bool {
    forall|i: int, j: int|
        0 <= i < j < list.len() ==> !same_task(#[trigger] list[i], #[trigger] list[j])
}

proof fn lemma_task_at(list: Seq<RepairView>, task: RepairView, i: int, from: nat)
    requires
        one_each(list),
        from <= i < list.len(),
        same_task(list[i], task),
        !(list[i].phase is Complete),
    ensures
        task_index(list, task, true, from) == Some(i as nat),
    decreases i - from,
{
    if from < i {
        assert(!same_task(list[from as int], list[i]));
        lemma_task_at(list, task, i, from + 1);
    }
}

proof fn lemma_task_found(list: Seq<RepairView>, task: RepairView, from: nat)
    ensures
        task_index(list, task, true, from) matches Some(at) ==> same_task(list[at as int], task),
    decreases list.len() - from,
{
    if from < list.len() {
        lemma_task_found(list, task, from + 1);
    }
}

proof fn lemma_backed_off(
    list: Seq<RepairView>,
    tasks: Seq<RepairView>,
    message: Seq<char>,
    now: u64,
    n: nat,
    i: int,
)
    requires
        one_each(list),
        0 <= i < list.len(),
        !(list[i].phase is Complete),
        n <= tasks.len(),
    ensures
        ({
            let after = all_backed_off(list, tasks, message, now, n);
            &&& after.len() == list.len()
            &&& one_each(after)
            &&& same_task(list[i], after[i])
            &&& after[i].phase == list[i].phase
            &&& after[i] == list[i] || set_back(list[i], after[i], now)
            &&& (exists|k: int| 0 <= k < n && same_task(list[i], #[trigger] tasks[k]))
                ==> set_back(list[i], after[i], now)
            &&& forall|j: int|
                0 <= j < list.len() ==> same_task(#[trigger] after[j], list[j])
        }),
    decreases n,
{
    let after = all_backed_off(list, tasks, message, now, n);
    if n > 0 {
        lemma_backed_off(list, tasks, message, now, (n - 1) as nat, i);
        let before = all_backed_off(list, tasks, message, now, (n - 1) as nat);
        let task = tasks[n - 1];
        lemma_task_index(before, task, true, 0);
        lemma_task_found(before, task, 0);
        if same_task(list[i], task) {
            lemma_task_at(before, task, i, 0);
        }
        assert forall|j: int| 0 <= j < list.len() implies same_task(
            #[trigger] after[j],
            list[j],
        ) by {
            assert(same_task(before[j], list[j]));
        }
        assert forall|x: int, y: int| 0 <= x < y < after.len() implies !same_task(
            #[trigger] after[x],
            #[trigger] after[y],
        ) by {
            assert(same_task(after[x], list[x]));
            assert(same_task(after[y], list[y]));
            assert(!same_task(list[x], list[y]));
        }
        if exists|k: int| 0 <= k < n && same_task(list[i], #[trigger] tasks[k]) {
            let k = choose|k: int| 0 <= k < n && same_task(list[i], #[trigger] tasks[k]);
            if k < n - 1 {
                assert(set_back(list[i], before[i], now));
            }
        }
    }
}

/// A repair whose seeding has failed stays, is not complete, has failed once more and waits before
/// it is tried again. Nothing but repairs changes.
pub proof fn law_failed_repairs_stay(
    s: ClusterView,
    tasks: Seq<RepairView>,
    message: Seq<char>,
    now: u64,
    i: int,
    k: int,
)
    requires
        one_each(s.replica_repairs),
        0 <= i < s.replica_repairs.len(),
        !(s.replica_repairs[i].phase is Complete),
        0 <= k < tasks.len(),
        same_task(s.replica_repairs[i], tasks[k]),
    ensures
        ({
            let after = s.with_failures(tasks, message, now);
            &&& after == (ClusterView { replica_repairs: after.replica_repairs, ..s })
            &&& after.replica_repairs.len() == s.replica_repairs.len()
            &&& !(after.replica_repairs[i].phase is Complete)
            &&& set_back(s.replica_repairs[i], after.replica_repairs[i], now)
        }),
{
    lemma_backed_off(s.replica_repairs, tasks, message, now, tasks.len(), i);
}

proof fn lemma_registered(s: ClusterView, i: int, n: nat)
    requires
        0 <= i < n <= s.replica_repairs.len(),
        s.process_instances.contains_key(s.replica_repairs[i].owner_node_id),
        s.process_instances.contains_key(s.replica_repairs[i].node_id),
    ensures
        s.registered_streams(n).contains(
            (s.replica_repairs[i].owner_node_id, s.replica_repairs[i].node_id),
        ),
    decreases n,
{
    if i < n - 1 {
        lemma_registered(s, i, (n - 1) as nat);
    }
}

proof fn lemma_due(list: Seq<RepairView>, streams: Seq<Stream>, now: u64, n: nat, k: int)
    requires
        0 <= k < n <= streams.len(),
        is_due(repair_group(list, streams[k]), now),
    ensures
        due_groups(list, streams, now, n).contains(repair_group(list, streams[k])),
    decreases n,
{
    let group = repair_group(list, streams[k]);
    let all = due_groups(list, streams, now, n);
    let rest = due_groups(list, streams, now, (n - 1) as nat);
    if k < n - 1 {
        lemma_due(list, streams, now, (n - 1) as nat, k);
        let p = choose|p: int| 0 <= p < rest.len() && rest[p] == group;
        assert(all[p] == group);
    } else {
        assert(all[rest.len() as int] == group);
    }
}

proof fn lemma_sorted_has(groups: Seq<Seq<RepairView>>, n: nat, k: int)
    requires
        0 <= k < n <= groups.len(),
    ensures
        by_retries(groups, n).len() == n,
        by_retries(groups, n).contains(groups[k]),
    decreases n,
{
    reveal_with_fuel(by_retries, 2);
    let rest = by_retries(groups, (n - 1) as nat);
    let all = by_retries(groups, n);
    let group = groups[n - 1];
    let limit = most_retries(group, group.len());
    let at = place_for(rest, limit, rest.len()) as int;
    lemma_place_for(rest, limit, rest.len());
    if n > 1 {
        lemma_sorted_has(groups, (n - 1) as nat, if k < n - 1 {
            k
        } else {
            0
        });
    }
    if k < n - 1 {
        let p = choose|p: int| 0 <= p < rest.len() && rest[p] == groups[k];
        if p < at {
            assert(all[p] == groups[k]);
        } else {
            assert(all[p + 1] == groups[k]);
        }
    } else {
        assert(all[at] == group);
    }
}

/// The repairs of a state stay where they are wanted; what is not complete is begun anew.
proof fn lemma_resumed_repair(s: ClusterView, i: int) -> (j: int)
    requires
        0 <= i < s.replica_repairs.len(),
        !(s.replica_repairs[i].phase is Complete),
        still_wanted(s)(s.replica_repairs[i]),
    ensures
        0 <= j < s.reconciled().replica_repairs.len(),
        s.reconciled().replica_repairs[j] == s.replica_repairs[i],
{
    let wanted = sifted(s.replica_repairs, still_wanted(s));
    let repairs = all_rechecked(wanted, s.kept_admissions());
    let duties = s.committed.duties();
    lemma_sifted(s.replica_repairs, still_wanted(s));
    lemma_missing(repairs, s.committed.epoch, duties, duties.len());
    let j = choose|j: int| 0 <= j < wanted.len() && wanted[j] == s.replica_repairs[i];
    assert(repairs[j] == rechecked(wanted[j], s.kept_admissions()));
    j
}

/// Every repair of this stream may be tried at `later`.
pub open spec fn none_waits(s: ClusterView, stream: Stream, later: u64) -> bool {
    forall|k: int|
        0 <= k < s.replica_repairs.len() && between(stream)(#[trigger] s.replica_repairs[k])
            ==> s.replica_repairs[k].next_attempt_unix_millis <= later
}

proof fn lemma_repair_time(s: ClusterView, stream: Stream, later: u64, x: int)
    requires
        none_waits(s, stream, later),
        0 <= x < s.reconciled().replica_repairs.len(),
        between(stream)(s.reconciled().replica_repairs[x]),
    ensures
        s.reconciled().replica_repairs[x].next_attempt_unix_millis <= later,
{
    law_reconciling_keeps_the_rest(s, x);
    let was = s.reconciled().replica_repairs[x];
    if was != fresh_repair(s.committed.epoch, was.place()) {
        let y = choose|y: int|
            0 <= y < s.replica_repairs.len() && (was == #[trigger] s.replica_repairs[y] || (
            s.replica_repairs[y].phase is Complete && was == (RepairView {
                phase: ReplicaRepairPhase::Pending,
                ..s.replica_repairs[y]
            })));
        assert(between(stream)(s.replica_repairs[y]));
    }
}

proof fn lemma_group_is_due(s: ClusterView, i: int, later: u64) -> (j: int)
    requires
        0 <= i < s.replica_repairs.len(),
        !(s.replica_repairs[i].phase is Complete),
        still_wanted(s)(s.replica_repairs[i]),
        none_waits(
            s,
            (s.replica_repairs[i].owner_node_id, s.replica_repairs[i].node_id),
            later,
        ),
    ensures
        ({
            let list = s.reconciled().all_pending().replica_repairs;
            let stream = (s.replica_repairs[i].owner_node_id, s.replica_repairs[i].node_id);
            let again = RepairView {
                phase: ReplicaRepairPhase::Pending,
                ..s.replica_repairs[i]
            };
            &&& 0 <= j < list.len()
            &&& list[j] == again
            &&& repair_group(list, stream).contains(again)
            &&& is_due(repair_group(list, stream), later)
        }),
{
    let list = s.reconciled().all_pending().replica_repairs;
    let stream = (s.replica_repairs[i].owner_node_id, s.replica_repairs[i].node_id);
    let group = repair_group(list, stream);
    let j = lemma_resumed_repair(s, i);
    lemma_sifted(list, between(stream));
    assert(between(stream)(list[j]));
    let p = choose|p: int| 0 <= p < group.len() && group[p] == list[j];
    assert(group[p].phase is Pending);
    assert forall|q: int| 0 <= q < group.len() implies (#[trigger] group[q]).phase is Complete
        || group[q].next_attempt_unix_millis <= later by {
        let x = choose|x: int| 0 <= x < list.len() && list[x] == group[q];
        assert(between(stream)(group[q]));
        assert(between(stream)(s.reconciled().replica_repairs[x]));
        lemma_repair_time(s, stream, later, x);
    }
    j
}

/// Streams, listed in their order.
pub open spec fn lists(listed: Seq<(Stream, bool)>, streams: Set<Stream>) -> bool {
    &&& ascending::<StreamKey, bool>(listed)
    &&& entry_map(listed) == Map::new(|k: Stream| streams.contains(k), |k: Stream| true)
}

proof fn lemma_listed(listed: Seq<(Stream, bool)>, streams: Set<Stream>, stream: Stream) -> (k: int)
    requires
        lists(listed, streams),
        streams.contains(stream),
    ensures
        0 <= k < order_of::<StreamKey>(streams).len(),
        order_of::<StreamKey>(streams)[k] == stream,
{
    let m = Map::new(|k: Stream| streams.contains(k), |k: Stream| true);
    let l = listing_of::<StreamKey, bool>(m);
    lemma_listing_unique::<StreamKey, bool>(l, listed);
    assert(entry_map(listed).contains_key(stream));
    assert(has_entry(listed, stream));
    choose|k: int| 0 <= k < listed.len() && (#[trigger] listed[k]).0 == stream
}

/// A repair that is still wanted is seeded again once its time has come: when both its ends run
/// and no repair of its stream waits any longer, its stream is among those to repair, and it is
/// in the next pass unless that is full.
pub proof fn law_failed_repairs_are_tried_again(
    s: ClusterView,
    i: int,
    later: u64,
    listed: Seq<(Stream, bool)>,
)
    requires
        !s.changing(),
        s.misplaced() is None,
        0 <= i < s.replica_repairs.len(),
        !(s.replica_repairs[i].phase is Complete),
        still_wanted(s)(s.replica_repairs[i]),
        s.process_instances.contains_key(s.replica_repairs[i].owner_node_id),
        s.process_instances.contains_key(s.replica_repairs[i].node_id),
        none_waits(
            s,
            (s.replica_repairs[i].owner_node_id, s.replica_repairs[i].node_id),
            later,
        ),
        lists(
            listed,
            s.reconciled().all_pending().registered_streams(
                s.reconciled().all_pending().replica_repairs.len(),
            ),
        ),
    ensures
        ({
            let next = s.reconciled().all_pending();
            let stream = (s.replica_repairs[i].owner_node_id, s.replica_repairs[i].node_id);
            let group = repair_group(next.replica_repairs, stream);
            let streams = order_of::<StreamKey>(
                next.registered_streams(next.replica_repairs.len()),
            );
            let due = due_groups(next.replica_repairs, streams, later, streams.len());
            &&& s.resumed() == Ok::<Option<ClusterView>, StatusView>(Some(next))
            &&& group.contains(
                RepairView {
                    phase: ReplicaRepairPhase::Pending,
                    ..s.replica_repairs[i]
                },
            )
            &&& due.contains(group)
            &&& due.len() <= MAX_REPAIR_GROUPS_PER_PASS ==> next.next_repairs(later).contains(group)
        }),
{
    let next = s.reconciled().all_pending();
    let list = next.replica_repairs;
    let stream = (s.replica_repairs[i].owner_node_id, s.replica_repairs[i].node_id);
    let group = repair_group(list, stream);
    let j = lemma_group_is_due(s, i, later);
    let set = next.registered_streams(list.len());
    lemma_registered(next, j, list.len());
    let k = lemma_listed(listed, set, stream);
    let streams = order_of::<StreamKey>(set);
    lemma_due(list, streams, later, streams.len(), k);
    let due = due_groups(list, streams, later, streams.len());
    let at = choose|at: int| 0 <= at < due.len() && due[at] == group;
    lemma_sorted_has(due, due.len(), at);
}

} // verus!
