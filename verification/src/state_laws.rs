//! Which durable states are sound, and how repairs are put off, chosen and completed.
use crate::bytes::be64;
use crate::change_laws::law_orderly_topologies_are_kept;
use crate::cluster::{
    before_publication, change_fault, state_fault, AdmissionView, ClusterState, ClusterView,
    RepairView, ReplicaRepairPhase,
};
use crate::encoding_laws::{
    collide, lemma_cut, lemma_digest_tells, lemma_group6, lemma_read_be64, lemma_utf8_tells,
};
use crate::failover_laws::under_way;
use crate::migration::{ChangeView, MigrationPhase, MoveView};
use crate::reconcile::{lemma_sifted, sifted};
use crate::repair_plan::{
    between, by_retries, first_groups, is_due, most_retries, place_for, repair_group,
};
use crate::repairs::{
    backed_off, of_other_copies, repair_bytes, repair_delay_secs, repair_name, same_task, shortened,
    task_index, SeedView,
};
use crate::restore::{fill_fault, first_fill_fault, first_state, source_instance, with_prepared};
use crate::topology::{
    first_member, lemma_first_member, validation_error, MemberView, SnapshotView, TopologySnapshot,
};
use vstd::prelude::*;
use vstd::utf8::encode_utf8;

verus! {

/// After each failure a repair waits twice as long, from two seconds on, and a minute at most.
pub proof fn law_repairs_wait_longer_each_time(retries: u32)
    ensures
        repair_delay_secs(0) == 1,
        retries < 5 ==> repair_delay_secs((retries + 1) as u32) == 2 * repair_delay_secs(retries),
        retries >= 6 ==> repair_delay_secs(retries) == 60,
        repair_delay_secs(retries) <= 60,
{
}

/// A failed repair counts the failure, keeps the first 256 characters of what went wrong, and is not
/// due before its wait is over; it is the same repair in the same phase.
pub proof fn law_failed_repairs_wait(r: RepairView, message: Seq<char>, now: u64)
    requires
        r.retry_count < u32::MAX,
        now + 60_000 <= u64::MAX,
    ensures
        ({
            let after = backed_off(r, message, now);
            &&& after.retry_count == r.retry_count + 1
            &&& after.next_attempt_unix_millis == now + 1000 * repair_delay_secs(
                (r.retry_count + 1) as u32,
            )
            &&& after.next_attempt_unix_millis > now
            &&& message.len() <= 256 ==> after.last_error == message
            &&& message.len() > 256 ==> after.last_error == message.take(256)
            &&& after == (RepairView {
                retry_count: after.retry_count,
                next_attempt_unix_millis: after.next_attempt_unix_millis,
                last_error: after.last_error,
                ..r
            })
        }),
{
    if message.len() > 256 {
        assert(shortened(message) =~= message.take(256));
    }
}

/// A repair stands for this copy in this epoch.
pub open spec fn repairs_copy(r: RepairView, task: RepairView) -> bool {
    &&& r.epoch == task.epoch
    &&& r.start_exclusive == task.start_exclusive
    &&& r.end_inclusive == task.end_inclusive
    &&& r.owner_node_id == task.owner_node_id
    &&& r.node_id == task.node_id
}

pub proof fn lemma_task_index(list: Seq<RepairView>, task: RepairView, unfinished: bool, i: nat)
    requires
        i <= list.len(),
    ensures
        match task_index(list, task, unfinished, i) {
            Some(k) => i <= k < list.len() && repairs_copy(list[k as int], task) && (unfinished
                ==> !(list[k as int].phase is Complete)) && forall|j: int|
                i <= j < k ==> !(repairs_copy(#[trigger] list[j], task) && !(unfinished
                    && list[j].phase is Complete)),
            None => forall|j: int|
                i <= j < list.len() ==> !(repairs_copy(#[trigger] list[j], task) && !(unfinished
                    && list[j].phase is Complete)),
        },
    decreases list.len() - i,
{
    if i < list.len() {
        assert(same_task(list[i as int], task) == repairs_copy(list[i as int], task));
        if !(repairs_copy(list[i as int], task) && !(unfinished
            && list[i as int].phase is Complete)) {
            lemma_task_index(list, task, unfinished, i + 1);
        }
    }
}

/// A copy is admitted exactly if its repair is known, of the committed epoch, and its node still runs
/// the process that was verified. The repair is then complete, the admission counts, an older one of
/// the same copy is gone, and the others stay.
pub proof fn law_verified_copies_are_admitted(s: ClusterView, seed: SeedView, a: AdmissionView)
    ensures
        ({
            let r = s.admitting(seed);
            let task = seed.task;
            &&& r is Ok <==> {
                &&& s.committed.epoch == task.epoch
                &&& s.process_instances.contains_key(task.node_id)
                &&& s.process_instances[task.node_id] == seed.admission.process_instance_id
                &&& exists|i: int|
                    0 <= i < s.replica_repairs.len() && repairs_copy(
                        #[trigger] s.replica_repairs[i],
                        task,
                    )
            }
            &&& r matches Ok(next) ==> {
                let replaced = a.epoch == task.epoch && a.start_exclusive == task.start_exclusive
                    && a.end_inclusive == task.end_inclusive && a.owner_node_id
                    == task.owner_node_id && a.node_id == task.node_id;
                &&& next.replica_admissions.contains(a) <==> a == seed.admission || (
                s.replica_admissions.contains(a) && !replaced)
                &&& next.replica_repairs.len() == s.replica_repairs.len()
                &&& exists|i: int|
                    0 <= i < s.replica_repairs.len() && repairs_copy(
                        #[trigger] s.replica_repairs[i],
                        task,
                    ) && next.replica_repairs == s.replica_repairs.update(
                        i,
                        RepairView {
                            phase: ReplicaRepairPhase::Complete,
                            retry_count: 0,
                            next_attempt_unix_millis: 0,
                            last_error: Seq::empty(),
                            ..s.replica_repairs[i]
                        },
                    )
                &&& next == (ClusterView {
                    replica_admissions: next.replica_admissions,
                    replica_repairs: next.replica_repairs,
                    ..s
                })
            }
        }),
{
    lemma_task_index(s.replica_repairs, seed.task, false, 0);
    let p = of_other_copies(seed.task);
    let list = s.replica_admissions;
    let rest = sifted(list, p);
    lemma_sifted(list, p);
    let all = rest.push(seed.admission);
    if all.contains(a) {
        let k = choose|k: int| 0 <= k < all.len() && all[k] == a;
        if k < rest.len() {
            assert(p(rest[k]));
            let j = choose|j: int| 0 <= j < list.len() && list[j] == rest[k];
            assert(list[j] == a);
        }
    }
    if a == seed.admission {
        assert(all[rest.len() as int] == a);
    }
    if list.contains(a) && p(a) {
        let j = choose|j: int| 0 <= j < list.len() && list[j] == a;
        assert(p(list[j]));
        let i = choose|i: int| 0 <= i < rest.len() && rest[i] == list[j];
        assert(all[i] == a);
    }
}

/// The repairs of a stream are those of its owner and follower, and only those.
pub proof fn law_streams_group_repairs(
    list: Seq<RepairView>,
    owner: Seq<char>,
    node: Seq<char>,
    r: RepairView,
)
    ensures
        repair_group(list, (owner, node)).contains(r) <==> list.contains(r) && r.owner_node_id
            == owner && r.node_id == node,
{
    let p = between((owner, node));
    let group = sifted(list, p);
    lemma_sifted(list, p);
    if group.contains(r) {
        let i = choose|i: int| 0 <= i < group.len() && group[i] == r;
        assert(p(group[i]));
        let j = choose|j: int| 0 <= j < list.len() && list[j] == group[i];
        assert(list[j] == r);
    }
    if list.contains(r) && p(r) {
        let j = choose|j: int| 0 <= j < list.len() && list[j] == r;
        assert(p(list[j]));
        let i = choose|i: int| 0 <= i < group.len() && group[i] == list[j];
        assert(group[i] == r);
    }
}

/// A stream is repaired exactly when something of it is pending and nothing of it has to wait.
pub proof fn law_due_repairs_are_made(group: Seq<RepairView>, now: u64)
    ensures
        is_due(group, now) <==> {
            &&& exists|i: int|
                0 <= i < group.len() && (#[trigger] group[i]).phase == ReplicaRepairPhase::Pending
            &&& forall|i: int|
                0 <= i < group.len() && (#[trigger] group[i]).phase != ReplicaRepairPhase::Complete
                    ==> group[i].next_attempt_unix_millis <= now
        },
{
    if exists|i: int|
        0 <= i < group.len() && (#[trigger] group[i]).phase == ReplicaRepairPhase::Pending {
        let i = choose|i: int|
            0 <= i < group.len() && (#[trigger] group[i]).phase == ReplicaRepairPhase::Pending;
        assert(group[i].phase is Pending);
    }
    if exists|i: int| 0 <= i < group.len() && (#[trigger] group[i]).phase is Pending {
        let i = choose|i: int| 0 <= i < group.len() && (#[trigger] group[i]).phase is Pending;
        assert(group[i].phase == ReplicaRepairPhase::Pending);
    }
}

/// A group has failed as often as the one of its repairs that failed most.
pub proof fn law_groups_count_their_worst(group: Seq<RepairView>, n: nat)
    requires
        n <= group.len(),
    ensures
        forall|i: int|
            0 <= i < n ==> (#[trigger] group[i]).retry_count <= most_retries(group, n),
        n > 0 ==> exists|i: int|
            0 <= i < n && (#[trigger] group[i]).retry_count == most_retries(group, n),
        n == 0 ==> most_retries(group, n) == 0,
    decreases n,
{
    if n > 0 {
        law_groups_count_their_worst(group, (n - 1) as nat);
        if group[n - 1].retry_count > most_retries(group, (n - 1) as nat) {
            assert(group[n - 1].retry_count == most_retries(group, n));
        } else if n > 1 {
            let i = choose|i: int|
                0 <= i < n - 1 && (#[trigger] group[i]).retry_count == most_retries(
                    group,
                    (n - 1) as nat,
                );
            assert(group[i].retry_count == most_retries(group, n));
        } else {
            assert(group[0].retry_count == most_retries(group, n));
        }
    }
}

/// How often a group has failed.
pub open spec fn worst(group: Seq<RepairView>) -> u32 {
    most_retries(group, group.len())
}

proof fn lemma_place_for(groups: Seq<Seq<RepairView>>, limit: u32, n: nat)
    requires
        n <= groups.len(),
        forall|i: int, j: int|
            0 <= i < j < groups.len() ==> worst(#[trigger] groups[i]) <= worst(#[trigger] groups[j]),
    ensures
        place_for(groups, limit, n) <= n,
        forall|i: int|
            0 <= i < place_for(groups, limit, n) ==> worst(#[trigger] groups[i]) <= limit,
        forall|i: int|
            place_for(groups, limit, n) <= i < n ==> worst(#[trigger] groups[i]) > limit,
    decreases n,
{
    if n > 0 && worst(groups[n - 1]) > limit {
        lemma_place_for(groups, limit, (n - 1) as nat);
    }
}

/// Those that have failed least come first, and nobody is left out.
pub proof fn law_least_failed_repairs_come_first(groups: Seq<Seq<RepairView>>, n: nat)
    requires
        n <= groups.len(),
    ensures
        by_retries(groups, n).len() == n,
        forall|i: int, j: int|
            0 <= i < j < n ==> worst(#[trigger] by_retries(groups, n)[i]) <= worst(
                #[trigger] by_retries(groups, n)[j],
            ),
        by_retries(groups, n).to_multiset() == groups.take(n as int).to_multiset(),
    decreases n,
{
    if n == 0 {
        assert(groups.take(0) =~= by_retries(groups, 0));
    } else {
        law_least_failed_repairs_come_first(groups, (n - 1) as nat);
        let rest = by_retries(groups, (n - 1) as nat);
        let group = groups[n - 1];
        let at = place_for(rest, worst(group), rest.len());
        lemma_place_for(rest, worst(group), rest.len());
        let after = rest.insert(at as int, group);
        assert(after == by_retries(groups, n));
        assert forall|i: int, j: int| 0 <= i < j < n implies worst(#[trigger] after[i]) <= worst(
            #[trigger] after[j],
        ) by {
            if j < at {
                assert(after[i] == rest[i] && after[j] == rest[j]);
            } else if i >= at {
                if i > at {
                    assert(after[i] == rest[i - 1] && after[j] == rest[j - 1]);
                } else {
                    assert(after[j] == rest[j - 1]);
                }
            } else if j == at {
                assert(after[i] == rest[i]);
            } else {
                assert(after[i] == rest[i] && after[j] == rest[j - 1]);
            }
        }
        assert(groups.take(n as int) =~= groups.take(n - 1).push(group));
        vstd::seq_lib::to_multiset_insert(rest, at as int, group);
        groups.take(n - 1).to_multiset_ensures();
    }
}

/// At most 32 streams are repaired in one pass, the first ones.
pub proof fn law_passes_are_short(groups: Seq<Seq<RepairView>>, i: int)
    ensures
        first_groups(groups).len() == if groups.len() < 32 {
            groups.len()
        } else {
            32
        },
        0 <= i < first_groups(groups).len() ==> first_groups(groups)[i] == groups[i],
{
}

/// A node's repairs were interrupted exactly if it is not fenced and one of them, as owner or as
/// follower, was copying or verifying.
pub proof fn law_interrupted_nodes_are_found(s: ClusterView, node: Seq<char>)
    ensures
        s.interrupted(node) <==> !s.fenced_nodes.contains(node) && exists|i: int|
            0 <= i < s.replica_repairs.len() && {
                let r = #[trigger] s.replica_repairs[i];
                &&& r.phase == ReplicaRepairPhase::Copying || r.phase
                    == ReplicaRepairPhase::Verifying
                &&& r.owner_node_id == node || r.node_id == node
            },
{
    if s.interrupted(node) {
        let i = choose|i: int|
            0 <= i < s.replica_repairs.len() && ((#[trigger] s.replica_repairs[i]).phase is Copying
                || s.replica_repairs[i].phase is Verifying) && (
            s.replica_repairs[i].owner_node_id == node || s.replica_repairs[i].node_id == node);
        assert(s.replica_repairs[i].owner_node_id == node || s.replica_repairs[i].node_id == node);
    }
}

/// Repairs are taken up exactly while no change is under way and the topology is orderly; those that
/// are not complete begin anew.
pub proof fn law_repairs_are_taken_up(s: ClusterView, i: int)
    ensures
        ({
            let r = s.resumed();
            &&& r is Ok <==> under_way(s) || (s.committed.assignments.len() > 0
                && s.committed.duties().len() <= 16_384)
            &&& r is Ok ==> (r->Ok_0 is None <==> under_way(s))
            &&& r matches Ok(Some(next)) ==> {
                let before = s.reconciled();
                &&& next == (ClusterView { replica_repairs: next.replica_repairs, ..before })
                &&& next.replica_repairs.len() == before.replica_repairs.len()
                &&& 0 <= i < next.replica_repairs.len() ==> next.replica_repairs[i]
                    == if before.replica_repairs[i].phase == ReplicaRepairPhase::Complete {
                    before.replica_repairs[i]
                } else {
                    RepairView {
                        phase: ReplicaRepairPhase::Pending,
                        ..before.replica_repairs[i]
                    }
                }
            }
        }),
{
    law_orderly_topologies_are_kept(s);
}

/// The names of two repairs are the same only if epoch and interval are, and the names of their nodes
/// written one behind the other, unless BLAKE3 itself fails.
pub proof fn law_names_tell_repairs_apart(a: RepairView, b: RepairView)
    requires
        repair_name(a) == repair_name(b),
    ensures
        collide(repair_bytes(a), repair_bytes(b)) || {
            &&& a.epoch == b.epoch
            &&& a.start_exclusive == b.start_exclusive
            &&& a.end_inclusive == b.end_inclusive
            &&& encode_utf8(a.owner_node_id) + encode_utf8(a.node_id) == encode_utf8(
                b.owner_node_id,
            ) + encode_utf8(b.node_id)
            &&& a.owner_node_id == b.owner_node_id ==> a.node_id == b.node_id
        },
{
    let x = repair_bytes(a);
    let y = repair_bytes(b);
    let n = repair_name(a).len() as int;
    let k = "repair-"@.len() as int;
    assert(repair_name(a).subrange(k, n) =~= crate::hashing::blake3_hex(x));
    assert(repair_name(b).subrange(k, n) =~= crate::hashing::blake3_hex(y));
    lemma_digest_tells(x, y);
    if x == y {
        let h = encode_utf8("hashring-rs:replica-repair:v1\0"@);
        let e = Seq::<u8>::empty();
        let p = encode_utf8(a.owner_node_id) + (encode_utf8(a.node_id) + e);
        let q = encode_utf8(b.owner_node_id) + (encode_utf8(b.node_id) + e);
        lemma_group6(
            h,
            be64(a.epoch),
            be64(a.start_exclusive),
            be64(a.end_inclusive),
            encode_utf8(a.owner_node_id),
            encode_utf8(a.node_id),
            e,
        );
        lemma_group6(
            h,
            be64(b.epoch),
            be64(b.start_exclusive),
            be64(b.end_inclusive),
            encode_utf8(b.owner_node_id),
            encode_utf8(b.node_id),
            e,
        );
        assert(x + e =~= x && y + e =~= y);
        let s2 = be64(a.end_inclusive) + p;
        let t2 = be64(b.end_inclusive) + q;
        let s1 = be64(a.start_exclusive) + s2;
        let t1 = be64(b.start_exclusive) + t2;
        lemma_cut(h, be64(a.epoch) + s1, h, be64(b.epoch) + t1);
        lemma_read_be64(a.epoch, s1, b.epoch, t1);
        lemma_read_be64(a.start_exclusive, s2, b.start_exclusive, t2);
        lemma_read_be64(a.end_inclusive, p, b.end_inclusive, q);
        assert(encode_utf8(a.node_id) + e =~= encode_utf8(a.node_id));
        assert(encode_utf8(b.node_id) + e =~= encode_utf8(b.node_id));
        if a.owner_node_id == b.owner_node_id {
            lemma_cut(
                encode_utf8(a.owner_node_id),
                encode_utf8(a.node_id),
                encode_utf8(b.owner_node_id),
                encode_utf8(b.node_id),
            );
            lemma_utf8_tells(a.node_id, b.node_id);
        }
    }
}

/// A change follows from the committed topology: before it is published it starts there and aims one
/// epoch further, and afterwards it aimed at what is committed and started one epoch before; hashing
/// never changes.
pub open spec fn follows_from(c: ChangeView, committed: SnapshotView) -> bool {
    let target = c.target_topology;
    let published = c.phase == MigrationPhase::Published || c.phase == MigrationPhase::CleaningUp
        || c.phase == MigrationPhase::Complete;
    &&& !published ==> c.base_epoch == committed.epoch && (committed.epoch < u64::MAX
        ==> target.epoch == committed.epoch + 1) && (committed.epoch == u64::MAX ==> target.epoch
        == u64::MAX)
    &&& published ==> target == committed && (c.base_epoch < u64::MAX ==> committed.epoch
        == c.base_epoch + 1) && (c.base_epoch == u64::MAX ==> committed.epoch == u64::MAX)
    &&& target.hash_seed == committed.hash_seed
    &&& target.hash_algorithm == committed.hash_algorithm
    &&& target.encoding_version == committed.encoding_version
    &&& target.virtual_nodes == committed.virtual_nodes
}

/// The change of a state is sound exactly if it follows from the committed topology, is not too large,
/// its topologies are valid, the one that it started from is the committed one until it is published,
/// and what it takes back is known as published.
pub proof fn law_sound_changes_pass(
    v: ClusterView,
    c: ChangeView,
    target: TopologySnapshot,
    base: Option<TopologySnapshot>,
)
    ensures
        change_fault(v, c, target, base) is None <==> {
            let published = c.phase == MigrationPhase::Published || c.phase
                == MigrationPhase::CleaningUp || c.phase == MigrationPhase::Complete;
            &&& follows_from(c, v.committed)
            &&& c.ranges.len() <= 16_384
            &&& c.replica_obligations.len() <= 16_384
            &&& validation_error(target) is None
            &&& base matches Some(b) ==> validation_error(b) is None && b.epoch == c.base_epoch && (
            published || b@ == v.committed)
            &&& c.supersedes_change_id matches Some(id) ==> v.superseded_change is Some
                && v.superseded_change->0.change_id == id
                && v.superseded_change->0.target_topology.epoch == c.base_epoch
                && v.superseded_change->0.phase == MigrationPhase::Published
        },
{
    assert(before_publication(c.phase) == !(c.phase == MigrationPhase::Published || c.phase
        == MigrationPhase::CleaningUp || c.phase == MigrationPhase::Complete));
}

/// An admission of a sound state: of its epoch, for a wanted copy, with a process and a digest, and
/// the only one of its copy.
pub open spec fn sound_admission(v: ClusterView, i: int) -> bool {
    let a = v.replica_admissions[i];
    &&& a.epoch == v.committed.epoch
    &&& a.process_instance_id.len() > 0
    &&& a.digest.len() > 0
    &&& v.committed.duties().contains(
        (a.start_exclusive, (a.end_inclusive, (a.owner_node_id, a.node_id))),
    )
    &&& forall|j: int|
        0 <= j < i ==> {
            let b = #[trigger] v.replica_admissions[j];
            !(b.start_exclusive == a.start_exclusive && b.end_inclusive == a.end_inclusive
                && b.owner_node_id == a.owner_node_id && b.node_id == a.node_id)
        }
}

/// A repair of a sound state: of its epoch, for a wanted copy, the only one of it, and complete only
/// beside an admission of that copy.
pub open spec fn sound_repair(v: ClusterView, i: int) -> bool {
    let r = v.replica_repairs[i];
    &&& r.epoch == v.committed.epoch
    &&& v.committed.duties().contains(
        (r.start_exclusive, (r.end_inclusive, (r.owner_node_id, r.node_id))),
    )
    &&& forall|j: int|
        0 <= j < i ==> {
            let b = #[trigger] v.replica_repairs[j];
            !(b.start_exclusive == r.start_exclusive && b.end_inclusive == r.end_inclusive
                && b.owner_node_id == r.owner_node_id && b.node_id == r.node_id)
        }
    &&& r.phase == ReplicaRepairPhase::Complete ==> exists|k: int|
        0 <= k < v.replica_admissions.len() && {
            let a = #[trigger] v.replica_admissions[k];
            &&& a.start_exclusive == r.start_exclusive
            &&& a.end_inclusive == r.end_inclusive
            &&& a.owner_node_id == r.owner_node_id
            &&& a.node_id == r.node_id
        }
}

proof fn lemma_sound_admission(v: ClusterView, i: int)
    ensures
        sound_admission(v, i) == crate::cluster::admission_ok(v, i),
{
    let a = v.replica_admissions[i];
    assert forall|j: int| 0 <= j < i implies ((#[trigger] v.replica_admissions[j]).place()
        == a.place()) == (v.replica_admissions[j].start_exclusive == a.start_exclusive
        && v.replica_admissions[j].end_inclusive == a.end_inclusive
        && v.replica_admissions[j].owner_node_id == a.owner_node_id
        && v.replica_admissions[j].node_id == a.node_id) by {}
}

proof fn lemma_sound_repair(v: ClusterView, i: int)
    ensures
        sound_repair(v, i) == crate::cluster::repair_ok(v, i),
{
    let r = v.replica_repairs[i];
    assert forall|j: int| 0 <= j < i implies ((#[trigger] v.replica_repairs[j]).place()
        == r.place()) == (v.replica_repairs[j].start_exclusive == r.start_exclusive
        && v.replica_repairs[j].end_inclusive == r.end_inclusive
        && v.replica_repairs[j].owner_node_id == r.owner_node_id && v.replica_repairs[j].node_id
        == r.node_id) by {}
    if sound_repair(v, i) && r.phase is Complete {
        let k = choose|k: int|
            0 <= k < v.replica_admissions.len() && {
                let a = #[trigger] v.replica_admissions[k];
                &&& a.start_exclusive == r.start_exclusive
                &&& a.end_inclusive == r.end_inclusive
                &&& a.owner_node_id == r.owner_node_id
                &&& a.node_id == r.node_id
            };
        assert(v.replica_admissions[k].place() == r.place());
    }
    if crate::cluster::repair_ok(v, i) && r.phase is Complete {
        let k = choose|k: int|
            0 <= k < v.replica_admissions.len() && (#[trigger] v.replica_admissions[k]).place()
                == r.place();
        assert(v.replica_admissions[k].node_id == r.node_id);
    }
}

/// A durable state is sound exactly if its topology is valid, its change, its admissions and its
/// repairs are sound and not too many, and nothing that names a node or a process is empty.
pub proof fn law_sound_states_pass(s: ClusterState)
    ensures
        state_fault(s) is None <==> {
            let v = s@;
            &&& validation_error(s.committed) is None
            &&& v.replica_admissions.len() <= 16_384
            &&& v.replica_repairs.len() <= 16_384
            &&& s.active_change matches Some(change) ==> change_fault(
                v,
                v.active_change->0,
                change.target_topology,
                change.base_topology,
            ) is None
            &&& forall|k: Seq<char>| #[trigger]
                v.process_instances.contains_key(k) ==> k.len() > 0 && v.process_instances[k].len()
                    > 0
            &&& !v.fenced_nodes.contains(Seq::empty())
            &&& forall|k: Seq<char>| #[trigger]
                v.stop_confirmations.contains_key(k) ==> k.len() > 0 && (exists|p: Seq<char>|
                    #[trigger] v.stop_confirmations[k].contains(p)) && forall|p: Seq<char>|
                    #[trigger] v.stop_confirmations[k].contains(p) ==> p.len() > 0
            &&& forall|i: int|
                0 <= i < v.replica_admissions.len() ==> #[trigger] sound_admission(v, i)
            &&& forall|i: int| 0 <= i < v.replica_repairs.len() ==> #[trigger] sound_repair(v, i)
        },
{
    let v = s@;
    assert forall|i: int| #[trigger] sound_admission(v, i) == crate::cluster::admission_ok(v, i) by {
        lemma_sound_admission(v, i);
    }
    assert forall|i: int| #[trigger] sound_repair(v, i) == crate::cluster::repair_ok(v, i) by {
        lemma_sound_repair(v, i);
    }
    if exists|i: int|
        0 <= i < v.replica_admissions.len() && !#[trigger] crate::cluster::admission_ok(v, i) {
        let i = choose|i: int|
            0 <= i < v.replica_admissions.len() && !#[trigger] crate::cluster::admission_ok(v, i);
        assert(!sound_admission(v, i));
    }
    if exists|i: int|
        0 <= i < v.replica_repairs.len() && !#[trigger] crate::cluster::repair_ok(v, i) {
        let i = choose|i: int|
            0 <= i < v.replica_repairs.len() && !#[trigger] crate::cluster::repair_ok(v, i);
        assert(!sound_repair(v, i));
    }
    if exists|i: int| 0 <= i < v.replica_admissions.len() && !#[trigger] sound_admission(v, i) {
        let i = choose|i: int|
            0 <= i < v.replica_admissions.len() && !#[trigger] sound_admission(v, i);
        assert(!crate::cluster::admission_ok(v, i));
    }
    if exists|i: int| 0 <= i < v.replica_repairs.len() && !#[trigger] sound_repair(v, i) {
        let i = choose|i: int| 0 <= i < v.replica_repairs.len() && !#[trigger] sound_repair(v, i);
        assert(!crate::cluster::repair_ok(v, i));
    }
}

/// A first state has its topology and nothing else.
pub proof fn law_first_states_are_empty(t: SnapshotView)
    ensures
        ({
            let s = first_state(t);
            &&& s.committed == t
            &&& s.active_change is None
            &&& s.superseded_change is None
            &&& s.process_instances.dom() == Set::<Seq<char>>::empty()
            &&& s.stop_confirmations.dom() == Set::<Seq<char>>::empty()
            &&& s.replica_admissions.len() == 0
            &&& s.replica_repairs.len() == 0
            &&& s.fenced_nodes == Set::<Seq<char>>::empty()
            &&& s.recovery_block_reason.len() == 0
        }),
{
}

/// The members of a topology give a node its address: the first of that name.
pub open spec fn address_of(t: SnapshotView, node: Seq<char>, endpoint: Seq<char>) -> bool {
    exists|i: int|
        0 <= i < t.members.len() && (#[trigger] t.members[i]).node_id == node
            && t.members[i].endpoint == endpoint
}

proof fn lemma_first_fill(
    ranges: Seq<MoveView>,
    committed: SnapshotView,
    target: SnapshotView,
    i: nat,
)
    requires
        i <= ranges.len(),
    ensures
        first_fill_fault(ranges, committed, target, i) is None <==> forall|k: int|
            i <= k < ranges.len() ==> fill_fault(#[trigger] ranges[k], committed, target) is None,
    decreases ranges.len() - i,
{
    if i < ranges.len() {
        lemma_first_fill(ranges, committed, target, i + 1);
    }
}

/// Where a name stands in a list, there is a first place where it does.
proof fn lemma_found(members: Seq<MemberView>, node: Seq<char>, i: int)
    requires
        0 <= i < members.len(),
        members[i].node_id == node,
    ensures
        0 <= first_member(members, node) < members.len(),
        members[first_member(members, node)].node_id == node,
    decreases i,
{
    if forall|j: int| 0 <= j < i ==> (#[trigger] members[j]).node_id != node {
        lemma_first_member(members, node, i);
    } else {
        let j = choose|j: int| 0 <= j < i && (#[trigger] members[j]).node_id == node;
        lemma_found(members, node, j);
    }
}

/// A stored state is completed exactly if every range that lacks an address has it from a member: its
/// source in the committed topology, its destination in the target. What is there stays.
pub proof fn law_stored_ranges_get_their_addresses(s: ClusterView, i: int)
    requires
        s.active_change is Some,
    ensures
        ({
            let c = s.active_change->0;
            let after = s.upgraded().active_change->0;
            &&& s.upgrade_fault() is None <==> forall|k: int|
                0 <= k < c.ranges.len() ==> {
                    let r = #[trigger] c.ranges[k];
                    &&& r.source_endpoint.len() == 0 ==> s.committed.is_member(r.source_node_id)
                    &&& r.destination_endpoint.len() == 0 ==> c.target_topology.is_member(
                        r.destination_node_id,
                    )
                }
            &&& after == (ChangeView { ranges: after.ranges, ..c })
            &&& after.ranges.len() == c.ranges.len()
            &&& 0 <= i < c.ranges.len() && s.upgrade_fault() is None ==> {
                let r = c.ranges[i];
                let t = after.ranges[i];
                &&& r.source_endpoint.len() > 0 ==> t.source_endpoint == r.source_endpoint
                &&& r.source_endpoint.len() == 0 ==> address_of(
                    s.committed,
                    r.source_node_id,
                    t.source_endpoint,
                )
                &&& r.destination_endpoint.len() > 0 ==> t.destination_endpoint
                    == r.destination_endpoint
                &&& r.destination_endpoint.len() == 0 ==> address_of(
                    c.target_topology,
                    r.destination_node_id,
                    t.destination_endpoint,
                )
                &&& t == (MoveView {
                    source_endpoint: t.source_endpoint,
                    destination_endpoint: t.destination_endpoint,
                    ..r
                })
            }
        }),
{
    let c = s.active_change->0;
    lemma_first_fill(c.ranges, s.committed, c.target_topology, 0);
    if s.upgrade_fault() is None {
        assert forall|k: int| 0 <= k < c.ranges.len() implies {
            let r = #[trigger] c.ranges[k];
            &&& r.source_endpoint.len() == 0 ==> s.committed.is_member(r.source_node_id)
            &&& r.destination_endpoint.len() == 0 ==> c.target_topology.is_member(
                r.destination_node_id,
            )
        } by {
            assert(fill_fault(c.ranges[k], s.committed, c.target_topology) is None);
        }
        if 0 <= i < c.ranges.len() {
            let r = c.ranges[i];
            if r.source_endpoint.len() == 0 {
                assert(s.committed.is_member(r.source_node_id));
                let k = choose|k: int|
                    0 <= k < s.committed.members.len() && (
                    #[trigger] s.committed.members[k]).node_id == r.source_node_id;
                lemma_found(s.committed.members, r.source_node_id, k);
            }
            if r.destination_endpoint.len() == 0 {
                assert(c.target_topology.is_member(r.destination_node_id));
                let k = choose|k: int|
                    0 <= k < c.target_topology.members.len() && (
                    #[trigger] c.target_topology.members[k]).node_id == r.destination_node_id;
                lemma_found(c.target_topology.members, r.destination_node_id, k);
            }
        }
    }
}

proof fn lemma_source_instance(ranges: Seq<MoveView>, node: Seq<char>, i: nat)
    requires
        i <= ranges.len(),
    ensures
        source_instance(ranges, node, i).len() > 0 ==> exists|k: int|
            i <= k < ranges.len() && (#[trigger] ranges[k]).source_node_id == node
                && ranges[k].source_process_instance_id == source_instance(ranges, node, i),
        (forall|k: int|
            i <= k < ranges.len() && (#[trigger] ranges[k]).source_node_id == node
                ==> ranges[k].source_process_instance_id.len() > 0) && (exists|k: int|
            i <= k < ranges.len() && (#[trigger] ranges[k]).source_node_id == node)
            ==> source_instance(ranges, node, i).len() > 0,
    decreases ranges.len() - i,
{
    if i < ranges.len() {
        if ranges[i as int].source_node_id == node {
            assert(ranges[i as int].source_process_instance_id == source_instance(
                ranges,
                node,
                i,
            ));
        } else {
            lemma_source_instance(ranges, node, i + 1);
            if source_instance(ranges, node, i + 1).len() > 0 {
                let k = choose|k: int|
                    i + 1 <= k < ranges.len() && (#[trigger] ranges[k]).source_node_id == node
                        && ranges[k].source_process_instance_id == source_instance(
                        ranges,
                        node,
                        i + 1,
                    );
                assert(ranges[k].source_node_id == node);
            }
        }
    }
}

/// A process that prepared to stop is remembered as confirmed when a stored state comes back, and
/// nothing that was confirmed is forgotten.
pub proof fn law_prepared_stops_are_confirmed(
    m: Map<Seq<char>, Set<Seq<char>>>,
    ranges: Seq<MoveView>,
    prepared: Seq<Seq<char>>,
    n: nat,
    node: Seq<char>,
    instance: Seq<char>,
)
    requires
        n <= prepared.len(),
    ensures
        ({
            let after = with_prepared(m, ranges, prepared, n);
            let confirmed = after.contains_key(node) && after[node].contains(instance);
            let before = m.contains_key(node) && m[node].contains(instance);
            confirmed <==> before || (instance.len() > 0 && prepared.take(n as int).contains(node)
                && source_instance(ranges, node, 0) == instance)
        }),
    decreases n,
{
    if n > 0 {
        law_prepared_stops_are_confirmed(m, ranges, prepared, (n - 1) as nat, node, instance);
        let head = prepared.take(n - 1);
        let all = prepared.take(n as int);
        assert(all[n - 1] == prepared[n - 1]);
        if head.contains(node) {
            let i = choose|i: int| 0 <= i < head.len() && head[i] == node;
            assert(all[i] == node);
        }
        if all.contains(node) {
            let i = choose|i: int| 0 <= i < all.len() && all[i] == node;
            if i < n - 1 {
                assert(head[i] == node);
            }
        }
    }
}

/// The process of a source is that of one of its ranges, and is known if all of them tell it.
pub proof fn law_sources_tell_their_process(ranges: Seq<MoveView>, node: Seq<char>)
    ensures
        source_instance(ranges, node, 0).len() > 0 ==> exists|k: int|
            0 <= k < ranges.len() && (#[trigger] ranges[k]).source_node_id == node
                && ranges[k].source_process_instance_id == source_instance(ranges, node, 0),
        (forall|k: int|
            0 <= k < ranges.len() && (#[trigger] ranges[k]).source_node_id == node
                ==> ranges[k].source_process_instance_id.len() > 0) && (exists|k: int|
            0 <= k < ranges.len() && (#[trigger] ranges[k]).source_node_id == node)
            ==> source_instance(ranges, node, 0).len() > 0,
{
    lemma_source_instance(ranges, node, 0);
}

} // verus!
