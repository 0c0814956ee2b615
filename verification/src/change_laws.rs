//! What each step of a change writes down, and when a change is published.
use crate::changes::{range_index, IdentityView};
use crate::cluster::{AdmissionView, ClusterView, Place, RepairView, ReplicaRepairPhase};
use crate::migration::{ChangeView, MigrationPhase, MoveView};
use crate::names::{lemma_text_order, listed, other_than, text_order, without};
use crate::ordmap::{lemma_listing_of, listing_of};
use crate::publish::{aligned, destination_gap, destinations, Contact};
use crate::reconcile::{
    all_rechecked, lemma_missing, lemma_sifted, rechecked, sifted, still_admitted, still_wanted,
};
use vstd::prelude::*;
use vstd::seq_lib::*;

verus! {

/// A change is the one under way exactly if the name and both epochs agree.
pub proof fn law_changes_are_told_apart(s: ClusterView, change: ChangeView)
    ensures
        s.runs_change(change.identity()) <==> {
            &&& s.active_change is Some
            &&& s.active_change->0.change_id == change.change_id
            &&& s.active_change->0.base_epoch == change.base_epoch
            &&& s.active_change->0.target_topology.epoch == change.target_topology.epoch
        },
{
}

/// A phase is noted wherever there is a change, and nothing else of it changes; what blocked the
/// change is forgotten exactly where it ends.
pub proof fn law_phases_are_noted(s: ClusterView, phase: MigrationPhase)
    ensures
        ({
            let r = s.in_phase(phase);
            &&& r is Ok <==> s.active_change is Some
            &&& r matches Ok(next) ==> {
                &&& next.active_change == Some(
                    (ChangeView { phase: phase, ..s.active_change->0 }),
                )
                &&& next.recovery_block_reason == if phase == MigrationPhase::Complete || phase
                    == MigrationPhase::Aborted {
                    Seq::empty()
                } else {
                    s.recovery_block_reason
                }
                &&& next == (ClusterView {
                    active_change: next.active_change,
                    recovery_block_reason: next.recovery_block_reason,
                    ..s
                })
            }
        }),
{
}

/// A published topology is activated, and nothing but a published one.
pub proof fn law_published_changes_are_activated(s: ClusterView)
    ensures
        s.activated() is Ok <==> s.active_change is Some && s.active_change->0.phase
            == MigrationPhase::Published,
        s.activated() matches Ok(next) ==> {
            &&& next.active_change == Some(
                (ChangeView { activation_ready: true, ..s.active_change->0 }),
            )
            &&& next.recovery_block_reason.len() == 0
            &&& next == (ClusterView {
                active_change: next.active_change,
                recovery_block_reason: next.recovery_block_reason,
                ..s
            })
        },
{
}

/// A name that is listed is in the list, and no other comes in or goes.
pub proof fn law_listing_a_name_lists_it(list: Seq<Seq<char>>, name: Seq<char>)
    ensures
        forall|x: Seq<char>| #[trigger]
            listed(list, name).contains(x) <==> x == name || list.contains(x),
{
    lemma_text_order();
    if !list.contains(name) {
        let longer = list.push(name);
        longer.lemma_sort_by_ensures(text_order());
        let sorted = longer.sort_by(text_order());
        assert(sorted == listed(list, name));
        longer.to_multiset_ensures();
        sorted.to_multiset_ensures();
        assert forall|x: Seq<char>| #[trigger] listed(list, name).contains(x) <==> x == name
            || list.contains(x) by {
            assert(sorted.contains(x) <==> sorted.to_multiset().count(x) > 0);
            assert(longer.contains(x) <==> longer.to_multiset().count(x) > 0);
            if list.contains(x) {
                let i = choose|i: int| 0 <= i < list.len() && list[i] == x;
                assert(longer[i] == x);
            }
            if x == name {
                assert(longer[list.len() as int] == x);
            }
            if longer.contains(x) && x != name {
                let i = choose|i: int| 0 <= i < longer.len() && longer[i] == x;
                assert(list[i] == x);
            }
        }
    }
}

/// A name that is dropped is gone, and no other is.
pub proof fn law_dropping_a_name_drops_it(list: Seq<Seq<char>>, name: Seq<char>)
    ensures
        forall|x: Seq<char>| #[trigger]
            without(list, name).contains(x) <==> x != name && list.contains(x),
{
    let p = other_than(name);
    lemma_sifted(list, p);
    assert forall|x: Seq<char>| #[trigger] without(list, name).contains(x) <==> x != name
        && list.contains(x) by {
        if without(list, name).contains(x) {
            let i = choose|i: int| 0 <= i < without(list, name).len() && without(list, name)[i] == x;
            assert(p(sifted(list, p)[i]));
        }
        if x != name && list.contains(x) {
            let j = choose|j: int| 0 <= j < list.len() && list[j] == x;
            assert(p(list[j]));
            let i = choose|i: int| 0 <= i < sifted(list, p).len() && sifted(list, p)[i] == list[j];
            assert(without(list, name)[i] == x);
        }
    }
}

/// A node that stops goes from stopping over prepared to stopped: it is in one list at a time, the
/// other nodes stay where they are, and a stopped node runs no process any more. The process that
/// prepared to stop is remembered beside those of before.
pub proof fn law_stops_are_noted(
    s: ClusterView,
    node: Seq<char>,
    instance: Seq<char>,
    x: Seq<char>,
)
    requires
        s.active_change is Some,
    ensures
        s.with_stopping(node) is Ok,
        s.with_stop_prepared(node, instance) is Ok,
        s.with_stopped(node) is Ok,
        ({
            let c = s.active_change->0;
            let next = s.with_stopping(node)->Ok_0;
            let d = next.active_change->0;
            &&& d.stopping_node_ids.contains(x) <==> x == node || c.stopping_node_ids.contains(x)
            &&& next == (ClusterView { active_change: Some(d), ..s })
            &&& d == (ChangeView { stopping_node_ids: d.stopping_node_ids, ..c })
        }),
        ({
            let c = s.active_change->0;
            let next = s.with_stop_prepared(node, instance)->Ok_0;
            let d = next.active_change->0;
            &&& d.stopping_node_ids.contains(x) <==> x != node && c.stopping_node_ids.contains(x)
            &&& d.stop_prepared_node_ids.contains(x) <==> x == node
                || c.stop_prepared_node_ids.contains(x)
            &&& d == (ChangeView {
                stopping_node_ids: d.stopping_node_ids,
                stop_prepared_node_ids: d.stop_prepared_node_ids,
                ..c
            })
            &&& next.stop_confirmations.contains_key(node)
            &&& next.stop_confirmations[node].contains(x) <==> x == instance || (
            s.stop_confirmations.contains_key(node) && s.stop_confirmations[node].contains(x))
            &&& x != node ==> next.stop_confirmations.contains_key(x)
                == s.stop_confirmations.contains_key(x) && next.stop_confirmations[x]
                == s.stop_confirmations[x]
            &&& next == (ClusterView {
                active_change: Some(d),
                stop_confirmations: next.stop_confirmations,
                ..s
            })
        }),
        ({
            let c = s.active_change->0;
            let next = s.with_stopped(node)->Ok_0;
            let d = next.active_change->0;
            &&& d.stopping_node_ids.contains(x) <==> x != node && c.stopping_node_ids.contains(x)
            &&& d.stop_prepared_node_ids.contains(x) <==> x != node
                && c.stop_prepared_node_ids.contains(x)
            &&& d.stopped_node_ids.contains(x) <==> x == node || c.stopped_node_ids.contains(x)
            &&& d == (ChangeView {
                stopping_node_ids: d.stopping_node_ids,
                stop_prepared_node_ids: d.stop_prepared_node_ids,
                stopped_node_ids: d.stopped_node_ids,
                ..c
            })
            &&& next == (ClusterView {
                active_change: Some(d),
                process_instances: s.process_instances.remove(node),
                ..s
            })
        }),
{
    let c = s.active_change->0;
    law_listing_a_name_lists_it(c.stopping_node_ids, node);
    law_listing_a_name_lists_it(c.stop_prepared_node_ids, node);
    law_listing_a_name_lists_it(c.stopped_node_ids, node);
    law_dropping_a_name_drops_it(c.stopping_node_ids, node);
    law_dropping_a_name_drops_it(c.stop_prepared_node_ids, node);
}

proof fn lemma_range_index(ranges: Seq<MoveView>, id: Seq<char>, i: nat)
    requires
        i <= ranges.len(),
    ensures
        match range_index(ranges, id, i) {
            Some(k) => i <= k < ranges.len() && ranges[k as int].range_id == id && forall|j: int|
                i <= j < k ==> (#[trigger] ranges[j]).range_id != id,
            None => forall|j: int| i <= j < ranges.len() ==> (#[trigger] ranges[j]).range_id != id,
        },
    decreases ranges.len() - i,
{
    if i < ranges.len() && ranges[i as int].range_id != id {
        lemma_range_index(ranges, id, i + 1);
    }
}

/// How far a range has come is written down exactly where the change moves that range, and the
/// others stay as they are.
pub proof fn law_progress_is_noted(s: ClusterView, progress: MoveView)
    requires
        s.active_change is Some,
        forall|i: int, j: int|
            0 <= i < j < s.active_change->0.ranges.len() ==> (
            #[trigger] s.active_change->0.ranges[i]).range_id != (
            #[trigger] s.active_change->0.ranges[j]).range_id,
    ensures
        ({
            let before = s.active_change->0.ranges;
            let r = s.with_progress(progress);
            &&& r is Ok <==> exists|i: int|
                0 <= i < before.len() && (#[trigger] before[i]).range_id == progress.range_id
            &&& r matches Ok(next) ==> {
                let after = next.active_change->0.ranges;
                &&& next == (ClusterView { active_change: next.active_change, ..s })
                &&& next.active_change == Some(
                    (ChangeView { ranges: after, ..s.active_change->0 }),
                )
                &&& after.len() == before.len()
                &&& forall|i: int|
                    0 <= i < after.len() ==> #[trigger] after[i] == if before[i].range_id
                        == progress.range_id {
                        progress
                    } else {
                        before[i]
                    }
            }
        }),
{
    lemma_range_index(s.active_change->0.ranges, progress.range_id, 0);
}

/// A change that begins anew keeps what it moves and forgets how far it came.
pub proof fn law_restarts_forget_progress(s: ClusterView)
    requires
        s.active_change is Some,
    ensures
        ({
            let before = s.active_change->0;
            let after = s.restarted()->Ok_0.active_change->0;
            &&& s.restarted() is Ok
            &&& s.restarted()->Ok_0 == (ClusterView { active_change: Some(after), ..s })
            &&& after == (ChangeView {
                ranges: after.ranges,
                phase: MigrationPhase::CopyingSnapshot,
                ..before
            })
            &&& after.ranges.len() == before.ranges.len()
            &&& forall|i: int|
                0 <= i < after.ranges.len() ==> {
                    let r = #[trigger] after.ranges[i];
                    &&& r.source_process_instance_id.len() == 0
                    &&& r.destination_process_instance_id.len() == 0
                    &&& r.snapshot_records == 0
                    &&& r.changelog_watermark == 0
                    &&& !r.verified
                    &&& !r.source_cleaned
                    &&& r.range_id == before.ranges[i].range_id
                    &&& r.start_exclusive == before.ranges[i].start_exclusive
                    &&& r.end_inclusive == before.ranges[i].end_inclusive
                    &&& r.source_node_id == before.ranges[i].source_node_id
                    &&& r.source_endpoint == before.ranges[i].source_endpoint
                    &&& r.destination_node_id == before.ranges[i].destination_node_id
                    &&& r.destination_endpoint == before.ranges[i].destination_endpoint
                }
        }),
{
}

/// Every destination has a process, and the same address and process in all its ranges.
pub open spec fn steady(ranges: Seq<MoveView>) -> bool {
    &&& forall|i: int|
        0 <= i < ranges.len() ==> (#[trigger] ranges[i]).destination_process_instance_id.len() > 0
    &&& forall|i: int, j: int|
        0 <= i < j < ranges.len() && (#[trigger] ranges[i]).destination_node_id == (
        #[trigger] ranges[j]).destination_node_id ==> ranges[i].destination_endpoint
            == ranges[j].destination_endpoint && ranges[i].destination_process_instance_id
            == ranges[j].destination_process_instance_id
}

/// Every destination still runs the process that took the range.
pub open spec fn still_there(s: ClusterView, ranges: Seq<MoveView>) -> bool {
    forall|i: int|
        0 <= i < ranges.len() ==> s.process_instances.contains_key(
            (#[trigger] ranges[i]).destination_node_id,
        ) && s.process_instances[ranges[i].destination_node_id]
            == ranges[i].destination_process_instance_id
}

proof fn lemma_destinations(ranges: Seq<MoveView>, n: nat)
    requires
        n <= ranges.len(),
    ensures
        forall|k: Seq<char>| #[trigger]
            destinations(ranges, n).contains_key(k) ==> exists|i: int|
                0 <= i < n && (#[trigger] ranges[i]).destination_node_id == k && destinations(
                    ranges,
                    n,
                )[k] == (
                    ranges[i].destination_endpoint,
                    ranges[i].destination_process_instance_id,
                ),
        forall|i: int|
            0 <= i < n ==> destinations(ranges, n).contains_key(
                (#[trigger] ranges[i]).destination_node_id,
            ),
        destinations(ranges, n).dom().finite(),
    decreases n,
{
    if n > 0 {
        lemma_destinations(ranges, (n - 1) as nat);
        let before = destinations(ranges, (n - 1) as nat);
        let after = destinations(ranges, n);
        let last = ranges[n - 1];
        assert forall|k: Seq<char>| #[trigger] after.contains_key(k) implies exists|i: int|
            0 <= i < n && (#[trigger] ranges[i]).destination_node_id == k && after[k] == (
                ranges[i].destination_endpoint,
                ranges[i].destination_process_instance_id,
            ) by {
            if k == last.destination_node_id {
                assert(ranges[n - 1].destination_node_id == k);
            } else {
                assert(before.contains_key(k));
                let i = choose|i: int|
                    0 <= i < n - 1 && (#[trigger] ranges[i]).destination_node_id == k && before[k]
                        == (
                        ranges[i].destination_endpoint,
                        ranges[i].destination_process_instance_id,
                    );
                assert(ranges[i].destination_node_id == k);
            }
        }
    }
}

proof fn lemma_gap(ranges: Seq<MoveView>, i: nat)
    requires
        i <= ranges.len(),
        steady(ranges.subrange(0, i as int)),
    ensures
        destination_gap(ranges, i) is None <==> steady(ranges),
    decreases ranges.len() - i,
{
    let head = ranges.subrange(0, i as int);
    assert forall|k: int| 0 <= k < i implies #[trigger] ranges[k] == head[k] by {}
    if i == ranges.len() {
        assert(head =~= ranges);
    } else {
        let range = ranges[i as int];
        let known = destinations(ranges, i);
        let next = ranges.subrange(0, (i + 1) as int);
        lemma_destinations(ranges, i);
        assert forall|k: int| 0 <= k <= i implies #[trigger] ranges[k] == next[k] by {}
        let contact = (range.destination_endpoint, range.destination_process_instance_id);
        if range.destination_process_instance_id.len() == 0 {
            assert(!steady(ranges));
        } else if known.contains_key(range.destination_node_id)
            && known[range.destination_node_id] != contact {
            let k = choose|k: int|
                0 <= k < i && (#[trigger] ranges[k]).destination_node_id
                    == range.destination_node_id && known[range.destination_node_id] == (
                    ranges[k].destination_endpoint,
                    ranges[k].destination_process_instance_id,
                );
            assert(ranges[i as int].destination_node_id == ranges[k].destination_node_id);
            assert(!steady(ranges));
        } else {
            assert forall|a: int, b: int|
                0 <= a < b < next.len() && (#[trigger] next[a]).destination_node_id == (
                #[trigger] next[b]).destination_node_id implies next[a].destination_endpoint
                == next[b].destination_endpoint && next[a].destination_process_instance_id
                == next[b].destination_process_instance_id by {
                if b < i {
                    assert(head[a] == next[a] && head[b] == next[b]);
                } else {
                    assert(ranges[a] == next[a] && next[b] == range);
                    assert(known.contains_key(ranges[a].destination_node_id));
                    let k = choose|k: int|
                        0 <= k < i && (#[trigger] ranges[k]).destination_node_id
                            == range.destination_node_id && known[range.destination_node_id] == (
                            ranges[k].destination_endpoint,
                            ranges[k].destination_process_instance_id,
                        );
                    assert(head[k] == ranges[k] && head[a] == ranges[a]);
                    if k < a {
                        assert(head[k].destination_node_id == head[a].destination_node_id);
                    } else if a < k {
                        assert(head[a].destination_node_id == head[k].destination_node_id);
                    }
                }
            }
            assert forall|a: int| 0 <= a < next.len() implies (
            #[trigger] next[a]).destination_process_instance_id.len() > 0 by {
                if a < i {
                    assert(head[a] == next[a]);
                }
            }
            lemma_gap(ranges, i + 1);
        }
    }
}

proof fn lemma_restarted(s: ClusterView, list: Seq<(Seq<char>, Contact)>, i: nat)
    requires
        i <= list.len(),
    ensures
        s.first_restarted(list, i) is None <==> forall|k: int|
            i <= k < list.len() ==> s.process_instances.contains_key((#[trigger] list[k]).0)
                && s.process_instances[list[k].0] == (list[k].1).1,
    decreases list.len() - i,
{
    if i < list.len() {
        lemma_restarted(s, list, i + 1);
    }
}

proof fn lemma_nothing_restarted(s: ClusterView, ranges: Seq<MoveView>)
    requires
        steady(ranges),
    ensures
        s.restart_fault(ranges) is None <==> still_there(s, ranges),
{
    let m = destinations(ranges, ranges.len());
    lemma_destinations(ranges, ranges.len());
    let list = listing_of::<String, Contact>(m);
    lemma_listing_of::<String, Contact>(m);
    lemma_restarted(s, list, 0);
    if s.restart_fault(ranges) is None {
        assert forall|i: int| 0 <= i < ranges.len() implies s.process_instances.contains_key(
            (#[trigger] ranges[i]).destination_node_id,
        ) && s.process_instances[ranges[i].destination_node_id]
            == ranges[i].destination_process_instance_id by {
            let node = ranges[i].destination_node_id;
            assert(m.contains_key(node));
            let k = choose|k: int|
                0 <= k < ranges.len() && (#[trigger] ranges[k]).destination_node_id == node
                    && m[node] == (
                    ranges[k].destination_endpoint,
                    ranges[k].destination_process_instance_id,
                );
            if k < i {
                assert(ranges[k].destination_node_id == ranges[i].destination_node_id);
            } else if i < k {
                assert(ranges[i].destination_node_id == ranges[k].destination_node_id);
            }
            assert(list.contains((node, m[node])));
            let j = choose|j: int| 0 <= j < list.len() && list[j] == (node, m[node]);
            assert(list[j].0 == node);
        }
    }
    if still_there(s, ranges) {
        assert forall|k: int| 0 <= k < list.len() implies s.process_instances.contains_key(
            (#[trigger] list[k]).0,
        ) && s.process_instances[list[k].0] == (list[k].1).1 by {
            assert(list.contains(list[k]));
            assert(m.contains_key(list[k].0));
            let i = choose|i: int|
                0 <= i < ranges.len() && (#[trigger] ranges[i]).destination_node_id == list[k].0
                    && m[list[k].0] == (
                    ranges[i].destination_endpoint,
                    ranges[i].destination_process_instance_id,
                );
            assert(ranges[i].destination_node_id == list[k].0);
        }
    }
}

/// A topology can be kept in order exactly if it assigns tokens and has no more than 16,384 copies.
pub proof fn law_orderly_topologies_are_kept(s: ClusterView)
    ensures
        aligned(s) is Ok <==> s.committed.assignments.len() > 0 && s.committed.duties().len()
            <= 16_384,
        aligned(s) is Ok ==> aligned(s)->Ok_0 == s.reconciled(),
{
}

/// A migration is published exactly where every destination has kept its address and its process
/// and still runs it, the change is the expected one, and the target is orderly; the target is then
/// committed, and the change waits to be activated.
pub proof fn law_complete_migrations_are_published(
    s: ClusterView,
    change: ChangeView,
    expected: IdentityView,
)
    ensures
        ({
            let r = s.publication(change, expected);
            let active = s.active_change->0;
            &&& r is Ok <==> {
                &&& steady(change.ranges)
                &&& still_there(s, change.ranges)
                &&& s.active_change is Some
                &&& active.change_id == expected.change_id
                &&& active.base_epoch == expected.base_epoch
                &&& active.target_topology.epoch == expected.target_epoch
                &&& active.target_topology.assignments.len() > 0
                &&& active.target_topology.duties().len() <= 16_384
            }
            &&& r matches Ok(next) ==> {
                &&& next.committed == active.target_topology
                &&& next.active_change == Some(
                    (ChangeView { phase: MigrationPhase::Published, ..active }),
                )
                &&& next.process_instances == s.process_instances
                &&& next.fenced_nodes == s.fenced_nodes
                &&& next.stop_confirmations == s.stop_confirmations
                &&& next.superseded_change == s.superseded_change
                &&& next.recovery_block_reason == s.recovery_block_reason
            }
            &&& r matches Err(refused) ==> (refused.aborts <==> steady(change.ranges)
                && !still_there(s, change.ranges))
        }),
{
    assert(change.ranges.subrange(0, 0) =~= Seq::<MoveView>::empty());
    lemma_gap(change.ranges, 0);
    if steady(change.ranges) {
        lemma_nothing_restarted(s, change.ranges);
    }
    law_orderly_topologies_are_kept(s.published());
}

/// An admission holds in a state: it is of the committed epoch, for the process that runs, and for a
/// copy that is wanted.
pub open spec fn admission_holds(s: ClusterView, a: AdmissionView) -> bool {
    &&& a.epoch == s.committed.epoch
    &&& s.process_instances.contains_key(a.node_id)
    &&& s.process_instances[a.node_id] == a.process_instance_id
    &&& s.committed.duties().contains(
        (a.start_exclusive, (a.end_inclusive, (a.owner_node_id, a.node_id))),
    )
}

/// An admission and a repair speak of the same copy.
pub open spec fn same_copy(a: AdmissionView, r: RepairView) -> bool {
    a.start_exclusive == r.start_exclusive && a.end_inclusive == r.end_inclusive && a.owner_node_id
        == r.owner_node_id && a.node_id == r.node_id
}

/// Putting a state in order keeps exactly the admissions that hold. A repair of a wanted copy is
/// kept as it is, but that one which is complete without an admission begins anew.
pub proof fn law_what_holds_is_kept(s: ClusterView, a: AdmissionView, r: RepairView)
    ensures
        ({
            let next = s.reconciled();
            let place: Place = (
                r.start_exclusive,
                (r.end_inclusive, (r.owner_node_id, r.node_id)),
            );
            &&& next.replica_admissions.contains(a) <==> s.replica_admissions.contains(a)
                && admission_holds(s, a)
            &&& s.replica_repairs.contains(r) && r.epoch == s.committed.epoch
                && s.committed.duties().contains(place) ==> {
                let admitted = exists|k: int|
                    0 <= k < s.replica_admissions.len() && same_copy(
                        #[trigger] s.replica_admissions[k],
                        r,
                    ) && admission_holds(s, s.replica_admissions[k]);
                if r.phase is Complete && !admitted {
                    next.replica_repairs.contains(
                        (RepairView { phase: ReplicaRepairPhase::Pending, ..r }),
                    )
                } else {
                    next.replica_repairs.contains(r)
                }
            }
        }),
{
    let next = s.reconciled();
    let p = still_admitted(s);
    let list = s.replica_admissions;
    let kept = sifted(list, p);
    lemma_sifted(list, p);
    assert(kept.contains(a) <==> list.contains(a) && admission_holds(s, a)) by {
        if kept.contains(a) {
            let i = choose|i: int| 0 <= i < kept.len() && kept[i] == a;
            assert(p(kept[i]));
        }
        if list.contains(a) && admission_holds(s, a) {
            let j = choose|j: int| 0 <= j < list.len() && list[j] == a;
            assert(p(list[j]));
            let i = choose|i: int| 0 <= i < kept.len() && kept[i] == list[j];
            assert(kept[i] == a);
        }
    }
    let q = still_wanted(s);
    let wanted = sifted(s.replica_repairs, q);
    lemma_sifted(s.replica_repairs, q);
    let repairs = all_rechecked(wanted, kept);
    let duties = s.committed.duties();
    lemma_missing(repairs, s.committed.epoch, duties, duties.len());
    if s.replica_repairs.contains(r) && q(r) {
        let j = choose|j: int| 0 <= j < s.replica_repairs.len() && s.replica_repairs[j] == r;
        assert(q(s.replica_repairs[j]));
        let i = choose|i: int| 0 <= i < wanted.len() && wanted[i] == s.replica_repairs[j];
        assert(repairs[i] == rechecked(r, kept));
        assert(next.replica_repairs[i] == rechecked(r, kept));
        if exists|k: int|
            0 <= k < list.len() && same_copy(#[trigger] list[k], r) && admission_holds(s, list[k]) {
            let k = choose|k: int|
                0 <= k < list.len() && same_copy(#[trigger] list[k], r) && admission_holds(
                    s,
                    list[k],
                );
            assert(p(list[k]));
            let m = choose|m: int| 0 <= m < kept.len() && kept[m] == list[k];
            assert(kept[m].place() == r.place());
        } else {
            assert forall|m: int| 0 <= m < kept.len() implies (#[trigger] kept[m]).place()
                != r.place() by {
                assert(p(kept[m]));
                let k = choose|k: int| 0 <= k < list.len() && list[k] == kept[m];
                if kept[m].place() == r.place() {
                    assert(same_copy(list[k], r));
                }
            }
        }
    }
}

/// New settings are published exactly where the change is the one under way and its target is
/// orderly. What was admitted before is admitted under the new epoch, as far as it still holds.
pub proof fn law_new_settings_keep_copies(s: ClusterView, change: ChangeView, a: AdmissionView)
    ensures
        ({
            let r = s.policy_publication(change);
            let target = change.target_topology;
            &&& r is Ok <==> {
                &&& s.active_change is Some
                &&& s.active_change->0.change_id == change.change_id
                &&& s.active_change->0.base_epoch == change.base_epoch
                &&& s.active_change->0.target_topology.epoch == target.epoch
                &&& target.assignments.len() > 0
                &&& target.duties().len() <= 16_384
            }
            &&& r matches Ok(next) ==> {
                &&& next.committed == target
                &&& next.active_change == Some(
                    (ChangeView { phase: MigrationPhase::Published, ..s.active_change->0 }),
                )
                &&& next.process_instances == s.process_instances
                &&& next.fenced_nodes == s.fenced_nodes
                &&& next.stop_confirmations == s.stop_confirmations
                &&& next.superseded_change == s.superseded_change
                &&& next.recovery_block_reason == s.recovery_block_reason
                &&& s.replica_admissions.contains(a) && admission_holds(
                    next,
                    AdmissionView { epoch: target.epoch, ..a },
                ) ==> next.replica_admissions.contains(
                    (AdmissionView { epoch: target.epoch, ..a }),
                )
            }
        }),
{
    let target = change.target_topology;
    let moved = s.with_policy(target);
    law_orderly_topologies_are_kept(moved);
    if s.replica_admissions.contains(a) {
        let i = choose|i: int| 0 <= i < s.replica_admissions.len() && s.replica_admissions[i] == a;
        let b = AdmissionView { epoch: target.epoch, ..a };
        assert(moved.replica_admissions[i] == b);
        law_what_holds_is_kept(moved, b, arbitrary());
    }
}

/// A smaller topology is published exactly where the change is the one under way, the target is
/// orderly, and, without a hand-over, the failed node is known. It needs no activation. After a
/// hand-over it begins with the copies that were proved, else with none and without the process
/// of the failed node.
pub proof fn law_removals_are_published(
    s: ClusterView,
    change: ChangeView,
    handed: Option<Seq<AdmissionView>>,
    a: AdmissionView,
)
    ensures
        ({
            let r = s.removal_publication(change, handed);
            let target = change.target_topology;
            &&& r is Ok <==> {
                &&& s.active_change is Some
                &&& s.active_change->0.change_id == change.change_id
                &&& s.active_change->0.base_epoch == change.base_epoch
                &&& s.active_change->0.target_topology.epoch == target.epoch
                &&& handed is Some || change.failed_node_id is Some
                &&& target.assignments.len() > 0
                &&& target.duties().len() <= 16_384
            }
            &&& r matches Ok(next) ==> {
                &&& next.committed == target
                &&& next.active_change == Some(
                    (ChangeView {
                        phase: MigrationPhase::Published,
                        activation_ready: true,
                        ..s.active_change->0
                    }),
                )
                &&& next.process_instances == if handed is Some {
                    s.process_instances
                } else {
                    s.process_instances.remove(change.failed_node_id->0)
                }
                &&& next.fenced_nodes == s.fenced_nodes
                &&& next.stop_confirmations == s.stop_confirmations
                &&& next.superseded_change == s.superseded_change
                &&& next.recovery_block_reason == s.recovery_block_reason
                &&& next.replica_admissions.contains(a) <==> handed is Some && handed->0.contains(a)
                    && admission_holds(next, a)
                &&& forall|i: int|
                    0 <= i < next.replica_repairs.len() ==> (
                    #[trigger] next.replica_repairs[i]).phase is Pending
            }
        }),
{
    let small = s.shrunk(change, handed);
    law_orderly_topologies_are_kept(small);
    law_what_holds_is_kept(small, a, arbitrary());
    let kept = small.kept_admissions();
    let repairs = all_rechecked(sifted(small.replica_repairs, still_wanted(small)), kept);
    let duties = small.committed.duties();
    assert(repairs.len() == 0);
    lemma_missing(repairs, small.committed.epoch, duties, duties.len());
}

} // verus!
