//! Where keys and virtual nodes stand on the ring, and which memberships are accepted.
use crate::hashing::xxh3_64;
use crate::ring::{
    clockwise, first_at_or_after, owner_index, replica_limit, tokens_sorted, walk, AssignmentView,
};
use crate::text::byte_count;
use crate::topology::{
    all_assignments, assignment_order, build, first_member_fault, lemma_assignment_order,
    lemma_member_order, member_fault, member_le, member_order, members_error, node_assignments,
    vnode_bytes, Member, MemberView, TopologyConfig,
};
use vstd::prelude::*;
use vstd::seq_lib::*;

verus! {

/// A token belongs to the first assignment that is not before it, and behind the last one to the
/// very first: no assignment lies between a token and its owner.
pub proof fn law_owners_are_next_clockwise(a: Seq<AssignmentView>, t: u64)
    requires
        tokens_sorted(a),
        a.len() > 0,
    ensures
        ({
            let i = owner_index(a, t);
            &&& 0 <= i < a.len()
            &&& a[i].token >= t ==> forall|j: int| 0 <= j < i ==> (#[trigger] a[j]).token < t
            &&& a[i].token < t ==> i == 0 && forall|j: int|
                0 <= j < a.len() ==> (#[trigger] a[j]).token < t
            &&& (exists|j: int| 0 <= j < a.len() && (#[trigger] a[j]).token >= t) ==> a[i].token
                >= t
        }),
{
    lemma_leading(a, t, 0);
    let i = first_at_or_after(a, t);
    assert(crate::ring::leads(a, t, i));
    if i < a.len() {
        assert(a[i].token >= t);
    } else {
        assert(a[0].token < t);
    }
}

proof fn lemma_leading(a: Seq<AssignmentView>, t: u64, i: int)
    requires
        0 <= i <= a.len(),
        forall|j: int| 0 <= j < i ==> (#[trigger] a[j]).token < t,
    ensures
        exists|k: int| crate::ring::leads(a, t, k),
    decreases a.len() - i,
{
    if i < a.len() && a[i].token < t {
        lemma_leading(a, t, i + 1);
    } else {
        assert(crate::ring::leads(a, t, i));
    }
}

/// A node stands among the first `n` going round.
pub open spec fn stands_within(a: Seq<AssignmentView>, start: int, n: nat, node: Seq<char>) -> bool {
    exists|k: int| 0 <= k < n && (#[trigger] a[clockwise(a.len(), start, k)]).node_id == node
}

/// Going round from an owner, each node is met once and taken until there are enough: nobody is
/// passed over while copies are missing, and who is met earlier comes earlier.
pub proof fn law_replicas_are_met_in_order(
    a: Seq<AssignmentView>,
    start: int,
    n: nat,
    limit: nat,
)
    requires
        0 <= start < a.len(),
        n <= a.len(),
    ensures
        ({
            let met = walk(a, start, n, limit);
            &&& met.len() <= limit
            &&& met.no_duplicates()
            &&& forall|k: int|
                0 <= k < n ==> met.contains(
                    (#[trigger] a[clockwise(a.len(), start, k)]).node_id,
                ) || met.len() == limit
            &&& forall|i: int|
                0 <= i < met.len() ==> stands_within(a, start, n, #[trigger] met[i])
            &&& n > 0 && limit > 0 ==> met.len() > 0 && met[0] == a[start].node_id
            &&& n > 0 ==> {
                let earlier = walk(a, start, (n - 1) as nat, limit);
                earlier.len() <= met.len() && met.take(earlier.len() as int) == earlier
            }
        }),
    decreases n,
{
    if n > 0 {
        law_replicas_are_met_in_order(a, start, (n - 1) as nat, limit);
        let before = walk(a, start, (n - 1) as nat, limit);
        let met = walk(a, start, n, limit);
        let node = a[clockwise(a.len(), start, n - 1)].node_id;
        assert forall|k: int| 0 <= k < n implies met.contains(
            (#[trigger] a[clockwise(a.len(), start, k)]).node_id,
        ) || met.len() == limit by {
            let x = a[clockwise(a.len(), start, k)].node_id;
            if before.contains(x) {
                let i = choose|i: int| 0 <= i < before.len() && before[i] == x;
                assert(met[i] == x);
            }
            if k == n - 1 && before.len() < limit && !before.contains(node) {
                assert(met[before.len() as int] == node);
            }
        }
        assert forall|i: int| 0 <= i < met.len() implies stands_within(
            a,
            start,
            n,
            #[trigger] met[i],
        ) by {
            if i < before.len() {
                assert(stands_within(a, start, (n - 1) as nat, before[i]));
                let k = choose|k: int|
                    0 <= k < n - 1 && (#[trigger] a[clockwise(a.len(), start, k)]).node_id
                        == before[i];
                assert(a[clockwise(a.len(), start, k)].node_id == met[i]);
            } else {
                assert(a[clockwise(a.len(), start, n - 1)].node_id == met[i]);
            }
        }
        assert(met.take(before.len() as int) =~= before);
        if n == 1 {
            assert(clockwise(a.len(), start, 0) == start);
        }
    }
}

/// Going round is going on by one, and starting over behind the last.
pub proof fn law_the_ring_goes_round(len: nat, start: int, k: int)
    requires
        0 <= start < len,
        0 <= k < len,
    ensures
        clockwise(len, start, k) == (start + k) % (len as int),
        0 <= clockwise(len, start, k) < len,
{
    if start + k < len {
        vstd::arithmetic::div_mod::lemma_small_mod((start + k) as nat, len);
    } else {
        vstd::arithmetic::div_mod::lemma_mod_add_multiples_vanish(start + k - len, len as int);
        vstd::arithmetic::div_mod::lemma_small_mod((start + k - len) as nat, len);
    }
}

/// As many copies are placed as are desired, but no more than there are members.
pub proof fn law_as_many_copies_as_desired(desired: u32, member_count: nat, assignments: nat)
    requires
        desired >= 1,
        member_count >= 1,
    ensures
        replica_limit(desired, member_count, assignments) <= desired,
        replica_limit(desired, member_count, assignments) <= member_count,
        replica_limit(desired, member_count, assignments) == desired || replica_limit(
            desired,
            member_count,
            assignments,
        ) == member_count,
{
}

proof fn lemma_all_assignments(
    hash_seed: u64,
    virtual_nodes: u32,
    members: Seq<MemberView>,
    n: nat,
    x: AssignmentView,
)
    requires
        n <= members.len(),
    ensures
        all_assignments(hash_seed, virtual_nodes, members, n).contains(x) <==> exists|i: int, v: u32|
            0 <= i < n && v < virtual_nodes && (#[trigger] members[i]).node_id == x.node_id
                && x.token == xxh3_64(#[trigger] vnode_bytes(x.node_id, v), hash_seed),
    decreases n,
{
    if n > 0 {
        lemma_all_assignments(hash_seed, virtual_nodes, members, (n - 1) as nat, x);
        let before = all_assignments(hash_seed, virtual_nodes, members, (n - 1) as nat);
        let own = node_assignments(hash_seed, virtual_nodes, members[n - 1].node_id);
        let all = before + own;
        if all.contains(x) {
            let k = choose|k: int| 0 <= k < all.len() && all[k] == x;
            if k < before.len() {
                assert(before[k] == x);
                let (i, v) = choose|i: int, v: u32|
                    0 <= i < n - 1 && v < virtual_nodes && (#[trigger] members[i]).node_id
                        == x.node_id && x.token == xxh3_64(
                        #[trigger] vnode_bytes(x.node_id, v),
                        hash_seed,
                    );
                assert(members[i].node_id == x.node_id);
                assert(x.token == xxh3_64(vnode_bytes(x.node_id, v), hash_seed));
            } else {
                let v = (k - before.len()) as u32;
                assert(own[k - before.len()] == x);
                assert(members[n - 1].node_id == x.node_id);
                assert(x.token == xxh3_64(vnode_bytes(x.node_id, v), hash_seed));
            }
        }
        if exists|i: int, v: u32|
            0 <= i < n && v < virtual_nodes && (#[trigger] members[i]).node_id == x.node_id
                && x.token == xxh3_64(#[trigger] vnode_bytes(x.node_id, v), hash_seed) {
            let (i, v) = choose|i: int, v: u32|
                0 <= i < n && v < virtual_nodes && (#[trigger] members[i]).node_id == x.node_id
                    && x.token == xxh3_64(#[trigger] vnode_bytes(x.node_id, v), hash_seed);
            if i == n - 1 {
                assert(own[v as int] == x);
                assert(all[before.len() + v as int] == x);
            } else {
                assert(members[i].node_id == x.node_id);
                assert(before.contains(x));
                let k = choose|k: int| 0 <= k < before.len() && before[k] == x;
                assert(all[k] == x);
            }
        }
    }
}

/// A built topology is what was asked for: its settings, its members by name, and exactly the
/// virtual nodes of its members, each where its hash stands, in order.
pub proof fn law_topologies_are_built_as_asked(
    epoch: u64,
    hash_seed: u64,
    virtual_nodes: u32,
    members: Seq<MemberView>,
    config: TopologyConfig,
    x: AssignmentView,
)
    ensures
        ({
            let t = build(epoch, hash_seed, virtual_nodes, members, config);
            &&& t.epoch == epoch
            &&& t.hash_seed == hash_seed
            &&& t.virtual_nodes == virtual_nodes
            &&& t.desired_replication_factor == config.desired_replication_factor
            &&& t.write_ack_policy == config.write_ack_policy
            &&& t.write_availability_guard == config.write_availability_guard
            &&& t.members.to_multiset() == members.to_multiset()
            &&& forall|i: int, j: int|
                0 <= i < j < t.members.len() ==> member_le(
                    #[trigger] t.members[i],
                    #[trigger] t.members[j],
                )
            &&& t.assignments.contains(x) <==> exists|i: int, v: u32|
                0 <= i < members.len() && v < virtual_nodes && (#[trigger] members[i]).node_id
                    == x.node_id && x.token == xxh3_64(
                    #[trigger] vnode_bytes(x.node_id, v),
                    hash_seed,
                )
            &&& forall|i: int, j: int|
                0 <= i < j < t.assignments.len() ==> (#[trigger] t.assignments[i]).token <= (
                #[trigger] t.assignments[j]).token
        }),
{
    lemma_member_order();
    lemma_assignment_order();
    let t = build(epoch, hash_seed, virtual_nodes, members, config);
    members.lemma_sort_by_ensures(member_order());
    let raw = all_assignments(hash_seed, virtual_nodes, t.members, t.members.len());
    raw.lemma_sort_by_ensures(assignment_order());
    lemma_all_assignments(hash_seed, virtual_nodes, t.members, t.members.len(), x);
    raw.to_multiset_ensures();
    t.assignments.to_multiset_ensures();
    members.to_multiset_ensures();
    t.members.to_multiset_ensures();
    assert(t.assignments.contains(x) <==> raw.contains(x)) by {
        assert(t.assignments.contains(x) <==> t.assignments.to_multiset().count(x) > 0);
        assert(raw.contains(x) <==> raw.to_multiset().count(x) > 0);
    }
    if exists|i: int, v: u32|
        0 <= i < members.len() && v < virtual_nodes && (#[trigger] members[i]).node_id == x.node_id
            && x.token == xxh3_64(#[trigger] vnode_bytes(x.node_id, v), hash_seed) {
        let (i, v) = choose|i: int, v: u32|
            0 <= i < members.len() && v < virtual_nodes && (#[trigger] members[i]).node_id
                == x.node_id && x.token == xxh3_64(#[trigger] vnode_bytes(x.node_id, v), hash_seed);
        assert(members.contains(members[i]));
        assert(members.to_multiset().count(members[i]) > 0);
        assert(t.members.contains(members[i]));
        let k = choose|k: int| 0 <= k < t.members.len() && t.members[k] == members[i];
        assert(t.members[k].node_id == x.node_id);
        assert(x.token == xxh3_64(vnode_bytes(x.node_id, v), hash_seed));
    }
    if raw.contains(x) {
        let (k, v) = choose|k: int, v: u32|
            0 <= k < t.members.len() && v < virtual_nodes && (#[trigger] t.members[k]).node_id
                == x.node_id && x.token == xxh3_64(#[trigger] vnode_bytes(x.node_id, v), hash_seed);
        assert(t.members.contains(t.members[k]));
        assert(t.members.to_multiset().count(t.members[k]) > 0);
        assert(members.contains(t.members[k]));
        let i = choose|i: int| 0 <= i < members.len() && members[i] == t.members[k];
        assert(members[i].node_id == x.node_id);
        assert(x.token == xxh3_64(vnode_bytes(x.node_id, v), hash_seed));
    }
    assert forall|i: int, j: int| 0 <= i < j < t.assignments.len() implies (
    #[trigger] t.assignments[i]).token <= (#[trigger] t.assignments[j]).token by {
        assert(assignment_order()(t.assignments[i], t.assignments[j]));
    }
    assert forall|i: int, j: int| 0 <= i < j < t.members.len() implies member_le(
        #[trigger] t.members[i],
        #[trigger] t.members[j],
    ) by {
        assert(member_order()(t.members[i], t.members[j]));
    }
}

/// A name and an address that are there, are not too long and are told apart from those before.
pub open spec fn proper_member(members: Seq<Member>, i: int) -> bool {
    let m = members[i];
    &&& m.node_id@.len() > 0
    &&& byte_count(m.node_id@) <= 32
    &&& m.endpoint@.len() > 0
    &&& byte_count(m.endpoint@) <= 256
    &&& forall|j: int|
        0 <= j < i ==> (#[trigger] members[j]).node_id@ != m.node_id@ && members[j].endpoint@
            != m.endpoint@
}

proof fn lemma_member_fault(members: Seq<Member>, i: int)
    requires
        0 <= i < members.len(),
    ensures
        member_fault(members, i) is None <==> proper_member(members, i),
{
    let m = members[i];
    if crate::topology::node_id_before(members, i, m.node_id@) {
        let j = choose|j: int| 0 <= j < i && (#[trigger] members[j]).node_id@ == m.node_id@;
        assert(members[j].node_id@ == m.node_id@);
    }
    if crate::topology::endpoint_before(members, i, m.endpoint@) {
        let j = choose|j: int| 0 <= j < i && (#[trigger] members[j]).endpoint@ == m.endpoint@;
        assert(members[j].endpoint@ == m.endpoint@);
    }
}

proof fn lemma_first_fault(members: Seq<Member>, n: nat)
    requires
        n <= members.len(),
    ensures
        first_member_fault(members, n) is None <==> forall|i: int|
            0 <= i < n ==> #[trigger] proper_member(members, i),
    decreases n,
{
    if n > 0 {
        lemma_first_fault(members, (n - 1) as nat);
        lemma_member_fault(members, n - 1);
    }
}

/// A membership is accepted exactly if it has members and virtual nodes, neither nor both together
/// too many, and every member is proper.
pub proof fn law_proper_memberships_are_accepted(members: Seq<Member>, virtual_nodes: u32)
    ensures
        members_error(members, virtual_nodes) is None <==> {
            &&& 1 <= members.len() <= 1_024
            &&& 1 <= virtual_nodes <= 4_096
            &&& members.len() * virtual_nodes <= 1_048_576
            &&& forall|i: int| 0 <= i < members.len() ==> #[trigger] proper_member(members, i)
        },
{
    lemma_first_fault(members, members.len());
}

} // verus!
