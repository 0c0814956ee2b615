//! What holds of every topology that was built or validated.
use crate::ring::{
    assigned, clockwise, first_at_or_after, lemma_first_at_or_after, lemma_owner_index,
    lemma_replicas, lemma_replicas_complete, lemma_walk, owner_index, replica_limit, replicas,
    tokens_sorted, walk, AssignmentView,
};
use crate::sorting::lemma_map_keeps_multiset;
use crate::text::byte_count;
use crate::topology::{
    all_assignments, assignment_le, assignment_order, build, config_error, construction_error,
    endpoint_before, first_member_fault, lemma_assignment_order, lemma_member_order, member_fault,
    member_order, member_views, members_error, node_assignments, node_id_before, unknown_assigned,
    validation_error, vnode_token, Member, MemberView, SnapshotView, TopologyConfig,
    TopologySnapshot, MAX_ENDPOINT_BYTES, MAX_MEMBERS, MAX_NODE_ID_BYTES, MAX_TOKEN_ASSIGNMENTS,
    MAX_VIRTUAL_NODES,
};
use vstd::prelude::*;
use vstd::relations::sorted_by;
use vstd::seq_lib::lemma_sorted_unique;

verus! {

/// What a membership must be, whatever its order.
pub open spec fn members_ok(members: Seq<MemberView>, virtual_nodes: u32) -> bool {
    &&& 0 < members.len() <= MAX_MEMBERS
    &&& 0 < virtual_nodes <= MAX_VIRTUAL_NODES
    &&& members.len() * virtual_nodes <= MAX_TOKEN_ASSIGNMENTS
    &&& forall|i: int| 0 <= i < members.len() ==> member_ok(#[trigger] members[i])
    &&& distinct_ids(members)
    &&& distinct_endpoints(members)
}

/// What a member must be by itself.
pub open spec fn member_ok(m: MemberView) -> bool {
    &&& m.node_id.len() > 0
    &&& byte_count(m.node_id) <= MAX_NODE_ID_BYTES
    &&& m.endpoint.len() > 0
    &&& byte_count(m.endpoint) <= MAX_ENDPOINT_BYTES
}

pub open spec fn distinct_ids(members: Seq<MemberView>) -> bool {
    forall|i: int, j: int|
        0 <= i < j < members.len() ==> (#[trigger] members[i]).node_id != (#[trigger] members[j]).node_id
}

pub open spec fn distinct_endpoints(members: Seq<MemberView>) -> bool {
    forall|i: int, j: int|
        0 <= i < j < members.len() ==> (#[trigger] members[i]).endpoint != (#[trigger] members[j]).endpoint
}

/// `node_id` is among the members.
pub open spec fn among(members: Seq<MemberView>, node_id: Seq<char>) -> bool {
    exists|i: int| 0 <= i < members.len() && (#[trigger] members[i]).node_id == node_id
}

/// The assignment of one virtual node.
pub open spec fn vnode_assignment(hash_seed: u64, node_id: Seq<char>, v: u32) -> AssignmentView {
    AssignmentView { token: vnode_token(hash_seed, node_id, v), node_id: node_id }
}

/// The assignment is that of one of the members' virtual nodes.
pub open spec fn of_member(
    hash_seed: u64,
    virtual_nodes: u32,
    members: Seq<MemberView>,
    x: AssignmentView,
) -> bool {
    among(members, x.node_id) && exists|v: u32|
        v < virtual_nodes && x == #[trigger] vnode_assignment(hash_seed, x.node_id, v)
}

/// The assignments are those of the members' virtual nodes, and no others.
pub open spec fn assigns_members(
    a: Seq<AssignmentView>,
    hash_seed: u64,
    virtual_nodes: u32,
    members: Seq<MemberView>,
) -> bool {
    &&& forall|i: int|
        0 <= i < a.len() ==> of_member(hash_seed, virtual_nodes, members, #[trigger] a[i])
    &&& forall|node_id: Seq<char>, v: u32|
        among(members, node_id) && v < virtual_nodes ==> a.contains(
            #[trigger] vnode_assignment(hash_seed, node_id, v),
        )
}

impl SnapshotView {
    /// What every topology in use satisfies: assignments in order, one for each virtual
    /// node of each member, distinct members and sane settings.
    pub open spec fn sound(self) -> bool {
        &&& self.placeable()
        &&& sorted_by(self.assignments, assignment_order())
        &&& sorted_by(self.members, member_order())
        &&& members_ok(self.members, self.virtual_nodes)
        &&& config_error(self.config()) is None
        &&& assigns_members(
            self.assignments,
            self.hash_seed,
            self.virtual_nodes,
            self.members,
        )
    }
}

proof fn lemma_no_fault(members: Seq<Member>, n: nat)
    requires
        n <= members.len(),
    ensures
        first_member_fault(members, n) is None <==> forall|i: int|
            0 <= i < n ==> (#[trigger] member_fault(members, i)) is None,
    decreases n,
{
    if n > 0 {
        lemma_no_fault(members, (n - 1) as nat);
        if first_member_fault(members, n) is None {
            assert forall|i: int| 0 <= i < n implies (#[trigger] member_fault(members, i)) is None by {
            }
        } else if first_member_fault(members, (n - 1) as nat) is None {
            assert(member_fault(members, n - 1) is Some);
        } else {
            let i = choose|i: int| 0 <= i < n - 1 && (#[trigger] member_fault(members, i)) is Some;
            assert(member_fault(members, i) is Some);
        }
    }
}

/// A membership is accepted exactly if its members are in order, one by one and beside
/// one another.
pub proof fn lemma_members_ok(members: Seq<Member>, virtual_nodes: u32)
    ensures
        members_error(members, virtual_nodes) is None <==> members_ok(
            member_views(members),
            virtual_nodes,
        ),
{
    let views = member_views(members);
    lemma_no_fault(members, members.len());
    if members_ok(views, virtual_nodes) {
        assert forall|i: int| 0 <= i < members.len() implies (#[trigger] member_fault(members, i)) is None by {
            assert(member_ok(views[i]));
            if node_id_before(members, i, members[i].node_id@) {
                let j = choose|j: int|
                    0 <= j < i && (#[trigger] members[j]).node_id@ == members[i].node_id@;
                assert(views[j].node_id == views[i].node_id);
            }
            if endpoint_before(members, i, members[i].endpoint@) {
                let j = choose|j: int|
                    0 <= j < i && (#[trigger] members[j]).endpoint@ == members[i].endpoint@;
                assert(views[j].endpoint == views[i].endpoint);
            }
        }
    }
    if members_error(members, virtual_nodes) is None {
        assert forall|i: int| 0 <= i < views.len() implies member_ok(#[trigger] views[i]) by {
            assert(member_fault(members, i) is None);
        }
        assert forall|i: int, j: int| 0 <= i < j < views.len() implies (#[trigger] views[i]).node_id
            != (#[trigger] views[j]).node_id && views[i].endpoint != views[j].endpoint by {
            assert(member_fault(members, j) is None);
            assert(members[i].node_id@ == views[i].node_id);
            assert(members[i].endpoint@ == views[i].endpoint);
        }
    }
}

proof fn lemma_permuted_distinct<A>(a: Seq<A>, b: Seq<A>)
    requires
        a.to_multiset() == b.to_multiset(),
        a.no_duplicates(),
    ensures
        b.no_duplicates(),
{
    a.lemma_multiset_has_no_duplicates();
    b.lemma_multiset_has_no_duplicates_conv();
}

/// Whether a membership is accepted does not depend on its order.
proof fn lemma_members_ok_permuted(a: Seq<MemberView>, b: Seq<MemberView>, virtual_nodes: u32)
    requires
        a.to_multiset() == b.to_multiset(),
        members_ok(a, virtual_nodes),
    ensures
        members_ok(b, virtual_nodes),
        forall|id: Seq<char>| among(a, id) == among(b, id),
{
    broadcast use vstd::seq_lib::group_to_multiset_ensures;

    assert(a.to_multiset().len() == a.len());
    assert(b.to_multiset().len() == b.len());
    let ids = |m: MemberView| m.node_id;
    let endpoints = |m: MemberView| m.endpoint;
    lemma_map_keeps_multiset(a, b, ids);
    lemma_map_keeps_multiset(a, b, endpoints);
    assert(a.map_values(ids).no_duplicates());
    assert(a.map_values(endpoints).no_duplicates());
    lemma_permuted_distinct(a.map_values(ids), b.map_values(ids));
    lemma_permuted_distinct(a.map_values(endpoints), b.map_values(endpoints));
    assert forall|i: int| 0 <= i < b.len() implies member_ok(#[trigger] b[i]) by {
        assert(b.contains(b[i]));
        assert(a.to_multiset().count(b[i]) > 0);
        assert(a.contains(b[i]));
    }
    assert forall|i: int, j: int| 0 <= i < j < b.len() implies (#[trigger] b[i]).node_id != (
    #[trigger] b[j]).node_id && b[i].endpoint != b[j].endpoint by {
        assert(b.map_values(ids)[i] != b.map_values(ids)[j]);
        assert(b.map_values(endpoints)[i] != b.map_values(endpoints)[j]);
    }
    assert forall|id: Seq<char>| among(a, id) == among(b, id) by {
        if among(a, id) {
            let i = choose|i: int| 0 <= i < a.len() && (#[trigger] a[i]).node_id == id;
            assert(a.contains(a[i]));
            assert(b.to_multiset().count(a[i]) > 0);
            assert(b.contains(a[i]));
        }
        if among(b, id) {
            let i = choose|i: int| 0 <= i < b.len() && (#[trigger] b[i]).node_id == id;
            assert(b.contains(b[i]));
            assert(a.to_multiset().count(b[i]) > 0);
            assert(a.contains(b[i]));
        }
    }
}

proof fn lemma_all_of_members(
    hash_seed: u64,
    virtual_nodes: u32,
    members: Seq<MemberView>,
    n: nat,
    i: int,
)
    requires
        n <= members.len(),
        0 <= i < all_assignments(hash_seed, virtual_nodes, members, n).len(),
    ensures
        of_member(
            hash_seed,
            virtual_nodes,
            members,
            all_assignments(hash_seed, virtual_nodes, members, n)[i],
        ),
    decreases n,
{
    if n > 0 {
        let before = all_assignments(hash_seed, virtual_nodes, members, (n - 1) as nat);
        let id = members[n - 1].node_id;
        let x = all_assignments(hash_seed, virtual_nodes, members, n)[i];
        if i < before.len() {
            lemma_all_of_members(hash_seed, virtual_nodes, members, (n - 1) as nat, i);
            assert(x == before[i]);
        } else {
            let v = (i - before.len()) as u32;
            assert(x == node_assignments(hash_seed, virtual_nodes, id)[v as int]);
            assert(members[n - 1].node_id == x.node_id);
            assert(x == vnode_assignment(hash_seed, id, v));
        }
    }
}

proof fn lemma_all_has(
    hash_seed: u64,
    virtual_nodes: u32,
    members: Seq<MemberView>,
    n: nat,
    k: int,
    v: u32,
)
    requires
        n <= members.len(),
        0 <= k < n,
        v < virtual_nodes,
    ensures
        all_assignments(hash_seed, virtual_nodes, members, n).contains(
            vnode_assignment(hash_seed, members[k].node_id, v),
        ),
    decreases n,
{
    let before = all_assignments(hash_seed, virtual_nodes, members, (n - 1) as nat);
    let own = node_assignments(hash_seed, virtual_nodes, members[n - 1].node_id);
    let all = all_assignments(hash_seed, virtual_nodes, members, n);
    let x = vnode_assignment(hash_seed, members[k].node_id, v);
    assert(all == before + own);
    if k < n - 1 {
        lemma_all_has(hash_seed, virtual_nodes, members, (n - 1) as nat, k, v);
        let p = choose|p: int| 0 <= p < before.len() && before[p] == x;
        assert(all[p] == x);
    } else {
        assert(own[v as int] == x);
        assert(all[before.len() + v] == x);
    }
}

proof fn lemma_all_len(hash_seed: u64, virtual_nodes: u32, members: Seq<MemberView>, n: nat)
    ensures
        all_assignments(hash_seed, virtual_nodes, members, n).len() == n * virtual_nodes,
    decreases n,
{
    if n > 0 {
        lemma_all_len(hash_seed, virtual_nodes, members, (n - 1) as nat);
        assert(n * virtual_nodes == (n - 1) * virtual_nodes + virtual_nodes) by (nonlinear_arith);
    } else {
        assert(0 * virtual_nodes == 0) by (nonlinear_arith);
    }
}

/// Everything that is built is sound.
pub proof fn law_built_topologies_are_sound(
    epoch: u64,
    hash_seed: u64,
    virtual_nodes: u32,
    members: Seq<MemberView>,
    config: TopologyConfig,
)
    requires
        members_ok(members, virtual_nodes),
        config_error(config) is None,
    ensures
        build(epoch, hash_seed, virtual_nodes, members, config).sound(),
        build(epoch, hash_seed, virtual_nodes, members, config).members.to_multiset()
            == members.to_multiset(),
        build(epoch, hash_seed, virtual_nodes, members, config).assignments.len() == members.len()
            * virtual_nodes,
        forall|id: Seq<char>|
            among(members, id) == among(
                build(epoch, hash_seed, virtual_nodes, members, config).members,
                id,
            ),
{
    broadcast use vstd::seq_lib::group_to_multiset_ensures;

    let s = build(epoch, hash_seed, virtual_nodes, members, config);
    lemma_member_order();
    lemma_assignment_order();
    members.lemma_sort_by_ensures(member_order());
    lemma_members_ok_permuted(members, s.members, virtual_nodes);
    assert(members.to_multiset().len() == members.len());
    assert(s.members.to_multiset().len() == s.members.len());
    let all = all_assignments(hash_seed, virtual_nodes, s.members, s.members.len());
    lemma_all_len(hash_seed, virtual_nodes, s.members, s.members.len());
    all.lemma_sort_by_ensures(assignment_order());
    let a = s.assignments;
    assert(a.to_multiset().len() == a.len());
    assert(all.to_multiset().len() == all.len());
    assert(a.len() == s.members.len() * virtual_nodes);
    assert(a.len() > 0) by (nonlinear_arith)
        requires
            a.len() == s.members.len() * virtual_nodes,
            s.members.len() > 0,
            virtual_nodes > 0,
    ;
    assert(tokens_sorted(a)) by {
        assert forall|i: int, j: int| 0 <= i <= j < a.len() implies (#[trigger] a[i]).token <= (
        #[trigger] a[j]).token by {
            if i < j {
                assert(assignment_order()(a[i], a[j]));
            }
        }
    }
    assert forall|i: int| 0 <= i < a.len() implies of_member(
        hash_seed,
        virtual_nodes,
        s.members,
        #[trigger] a[i],
    ) by {
        assert(a.contains(a[i]));
        assert(all.to_multiset().count(a[i]) > 0);
        assert(all.contains(a[i]));
        let p = choose|p: int| 0 <= p < all.len() && all[p] == a[i];
        lemma_all_of_members(hash_seed, virtual_nodes, s.members, s.members.len(), p);
    }
    assert forall|node_id: Seq<char>, v: u32|
        among(s.members, node_id) && v < virtual_nodes implies a.contains(
        #[trigger] vnode_assignment(hash_seed, node_id, v),
    ) by {
        let k = choose|k: int| 0 <= k < s.members.len() && (#[trigger] s.members[k]).node_id == node_id;
        let x = vnode_assignment(hash_seed, s.members[k].node_id, v);
        lemma_all_has(hash_seed, virtual_nodes, s.members, s.members.len(), k, v);
        assert(a.to_multiset().count(x) > 0);
    }
}

/// A topology does not depend on the order in which its members are named.
pub proof fn law_construction_is_canonical(
    epoch: u64,
    hash_seed: u64,
    virtual_nodes: u32,
    a: Seq<Member>,
    b: Seq<Member>,
    config: TopologyConfig,
)
    requires
        member_views(a).to_multiset() == member_views(b).to_multiset(),
    ensures
        construction_error(a, virtual_nodes, config) is None <==> construction_error(
            b,
            virtual_nodes,
            config,
        ) is None,
        build(epoch, hash_seed, virtual_nodes, member_views(a), config) == build(
            epoch,
            hash_seed,
            virtual_nodes,
            member_views(b),
            config,
        ),
{
    let x = member_views(a);
    let y = member_views(b);
    lemma_members_ok(a, virtual_nodes);
    lemma_members_ok(b, virtual_nodes);
    if members_ok(x, virtual_nodes) {
        lemma_members_ok_permuted(x, y, virtual_nodes);
    }
    if members_ok(y, virtual_nodes) {
        lemma_members_ok_permuted(y, x, virtual_nodes);
    }
    lemma_member_order();
    x.lemma_sort_by_ensures(member_order());
    y.lemma_sort_by_ensures(member_order());
    lemma_sorted_unique(x.sort_by(member_order()), y.sort_by(member_order()), member_order());
}

proof fn lemma_known_assigned(s: TopologySnapshot, n: nat)
    requires
        s@.sound(),
        n <= s.assignments@.len(),
    ensures
        unknown_assigned(s.members@, s.assignments@, n) is None,
    decreases n,
{
    if n > 0 {
        lemma_known_assigned(s, (n - 1) as nat);
        let a = s@.assignments;
        assert(a[n - 1] == s.assignments@[n - 1]@);
        assert(of_member(s.hash_seed, s.virtual_nodes, s@.members, a[n - 1]));
        let k = choose|k: int|
            0 <= k < s@.members.len() && (#[trigger] s@.members[k]).node_id == a[n - 1].node_id;
        assert(s.members@[k].node_id@ == s.assignments@[n - 1].node_id@);
    }
}

/// What construction gives, validation accepts.
pub proof fn law_built_topologies_validate(
    s: TopologySnapshot,
    epoch: u64,
    hash_seed: u64,
    virtual_nodes: u32,
    members: Seq<Member>,
    config: TopologyConfig,
)
    requires
        construction_error(members, virtual_nodes, config) is None,
        s@ == build(epoch, hash_seed, virtual_nodes, member_views(members), config),
    ensures
        validation_error(s) is None,
{
    let views = member_views(members);
    lemma_members_ok(members, virtual_nodes);
    law_built_topologies_are_sound(epoch, hash_seed, virtual_nodes, views, config);
    assert(s@.config() == config);
    lemma_members_ok(s.members@, virtual_nodes);
    assert(s@.members == member_views(s.members@));
    lemma_known_assigned(s, s.assignments@.len());
    law_construction_is_canonical(epoch, hash_seed, virtual_nodes, members, s.members@, config);
    assert(s@.assignments.len() == s.assignments@.len());
}

/// A snapshot that validates is the one that its own members and settings build, and is
/// sound.
pub proof fn law_valid_topologies_are_canonical(s: TopologySnapshot)
    requires
        validation_error(s) is None,
    ensures
        s@ == build(s.epoch, s.hash_seed, s.virtual_nodes, s@.members, s@.config()),
        s@.sound(),
{
    lemma_members_ok(s.members@, s.virtual_nodes);
    law_built_topologies_are_sound(
        s.epoch,
        s.hash_seed,
        s.virtual_nodes,
        s@.members,
        s@.config(),
    );
    assert(s@ =~= build(s.epoch, s.hash_seed, s.virtual_nodes, s@.members, s@.config()));
}

/// Two valid topologies with one digest text and equal contents elsewhere are equal; a
/// changed digest alone is always noticed.
pub proof fn law_changed_digest_is_refused(s: TopologySnapshot, t: TopologySnapshot)
    requires
        validation_error(s) is None,
        t@ == (SnapshotView { digest: t@.digest, ..s@ }),
        t@.digest != s@.digest,
    ensures
        validation_error(t) is Some,
{
    if validation_error(t) is None {
        law_valid_topologies_are_canonical(s);
        law_valid_topologies_are_canonical(t);
        assert(s@.config() == t@.config());
    }
}

/// Every token is owned by a member.
pub proof fn law_every_token_has_a_member_owner(s: SnapshotView, token: u64)
    requires
        s.sound(),
    ensures
        s.is_member(s.owner_id(token)),
{
    lemma_owner_index(s.assignments, token);
    let i = owner_index(s.assignments, token);
    assert(of_member(s.hash_seed, s.virtual_nodes, s.members, s.assignments[i]));
}

proof fn lemma_every_member_assigned(s: SnapshotView, node_id: Seq<char>)
    requires
        s.sound(),
        among(s.members, node_id),
    ensures
        assigned(s.assignments, node_id),
{
    let x = vnode_assignment(s.hash_seed, node_id, 0);
    assert(s.assignments.contains(x));
    let p = choose|p: int| 0 <= p < s.assignments.len() && s.assignments[p] == x;
    assert(s.assignments[p].node_id == node_id);
}

/// A token is held by as many distinct members as desired, or by all of them where there
/// are fewer, its owner first.
pub proof fn law_replica_count(s: SnapshotView, token: u64)
    requires
        s.sound(),
    ensures
        s.replicas(token).len() == if (s.desired_replication_factor as int) < s.members.len() {
            s.desired_replication_factor as int
        } else {
            s.members.len() as int
        },
        s.replicas(token).no_duplicates(),
        s.replicas(token)[0] == s.owner_id(token),
        forall|i: int|
            0 <= i < s.replicas(token).len() ==> s.is_member(#[trigger] s.replicas(token)[i]),
{
    let r = s.replicas(token);
    let a = s.assignments;
    let desired = s.desired_replication_factor;
    let count = s.members.len();
    lemma_replicas(a, desired, count, token);
    let limit = replica_limit(desired, count, a.len());
    assert forall|i: int| 0 <= i < r.len() implies s.is_member(#[trigger] r[i]) by {
        assert(assigned(a, r[i]));
        let k = choose|k: int| 0 <= k < a.len() && (#[trigger] a[k]).node_id == r[i];
        assert(of_member(s.hash_seed, s.virtual_nodes, s.members, a[k]));
    }
    if r.len() < limit {
        let ids = Seq::new(count, |i: int| s.members[i].node_id);
        assert(ids.no_duplicates()) by {
            assert forall|i: int, j: int| 0 <= i < ids.len() && 0 <= j < ids.len() && i != j implies ids[i]
                != ids[j] by {
                if i < j {
                    assert(s.members[i].node_id != s.members[j].node_id);
                } else {
                    assert(s.members[j].node_id != s.members[i].node_id);
                }
            }
        }
        assert forall|i: int| 0 <= i < ids.len() implies r.contains(#[trigger] ids[i]) by {
            assert(s.members[i].node_id == ids[i]);
            lemma_every_member_assigned(s, ids[i]);
            lemma_replicas_complete(a, desired, count, token, ids[i]);
        }
        ids.unique_seq_to_set();
        r.unique_seq_to_set();
        assert(ids.to_set().subset_of(r.to_set()));
        vstd::set_lib::lemma_len_subset(ids.to_set(), r.to_set());
    }
}

/// The order in which assignments are met, clockwise from `t`.
pub open spec fn met_le(t: u64, p: AssignmentView, q: AssignmentView) -> bool {
    if (p.token < t) == (q.token < t) {
        assignment_le(p, q)
    } else {
        q.token < t
    }
}

proof fn lemma_met_antisymmetric(t: u64, p: AssignmentView, q: AssignmentView)
    requires
        met_le(t, p, q),
        met_le(t, q, p),
    ensures
        p == q,
{
    lemma_assignment_order();
    assert(assignment_order()(p, q));
    assert(assignment_order()(q, p));
}

/// Assignments are met in order.
proof fn lemma_met_in_order(a: Seq<AssignmentView>, t: u64, k: int, l: int)
    requires
        a.len() > 0,
        tokens_sorted(a),
        sorted_by(a, assignment_order()),
        0 <= k <= l < a.len(),
    ensures
        met_le(
            t,
            a[clockwise(a.len(), owner_index(a, t), k)],
            a[clockwise(a.len(), owner_index(a, t), l)],
        ),
{
    lemma_first_at_or_after(a, t);
    lemma_owner_index(a, t);
    lemma_assignment_order();
    let f = first_at_or_after(a, t);
    let start = owner_index(a, t);
    let x = clockwise(a.len(), start, k);
    let y = clockwise(a.len(), start, l);
    if x == y {
        assert(assignment_order()(a[x], a[x]));
    } else if x < y {
        assert(assignment_order()(a[x], a[y]));
        if a[x].token < t {
            assert(x < f);
            assert(y < f);
        } else {
            assert(a[x].token <= a[y].token);
        }
    } else {
        assert(y < start);
        assert(start == f);
    }
}

/// The owner is the assignment that is met first.
proof fn lemma_owner_met_first(s: SnapshotView, t: u64, i: int)
    requires
        s.sound(),
        0 <= i < s.assignments.len(),
    ensures
        met_le(t, s.assignments[owner_index(s.assignments, t)], s.assignments[i]),
{
    let a = s.assignments;
    lemma_owner_index(a, t);
    let start = owner_index(a, t);
    let k = if i >= start {
        i - start
    } else {
        i - start + a.len()
    };
    assert(clockwise(a.len(), start, k) == i);
    assert(clockwise(a.len(), start, 0) == start);
    lemma_met_in_order(a, t, 0, k);
}

/// The first `k` steps meet only the owner, the next one somebody else.
proof fn lemma_second_met(a: Seq<AssignmentView>, start: int, n: nat, limit: nat) -> (k: int)
    requires
        0 <= start < a.len(),
        n <= a.len(),
        walk(a, start, n, limit).len() >= 2,
    ensures
        0 < k < n,
        walk(a, start, n, limit)[1] == a[clockwise(a.len(), start, k)].node_id,
        a[clockwise(a.len(), start, k)].node_id != a[start].node_id,
        forall|j: int|
            0 <= j < k ==> a[#[trigger] clockwise(a.len(), start, j)].node_id == a[start].node_id,
    decreases n,
{
    lemma_walk(a, start, n, limit);
    assert(n > 0);
    lemma_walk(a, start, (n - 1) as nat, limit);
    let met = walk(a, start, (n - 1) as nat, limit);
    if met.len() >= 2 {
        let k = lemma_second_met(a, start, (n - 1) as nat, limit);
        k
    } else {
        assert(met.len() == 1);
        assert(met[0] == a[start].node_id);
        assert(met.len() < limit);
        let k = n - 1;
        let node = a[clockwise(a.len(), start, k)].node_id;
        assert(walk(a, start, n, limit) == met.push(node));
        assert forall|j: int| 0 <= j < k implies a[#[trigger] clockwise(a.len(), start, j)].node_id
            == a[start].node_id by {
            assert(met.contains(a[clockwise(a.len(), start, j)].node_id));
        }
        assert(!met.contains(node));
        assert(met.contains(met[0]));
        assert(clockwise(a.len(), start, 0) == start);
        k
    }
}

/// The assignment in `s` of a virtual node of one of its members, where `t` has it too.
proof fn lemma_shared_assignment(s: SnapshotView, t: SnapshotView, i: int) -> (j: int)
    requires
        s.sound(),
        t.sound(),
        s.hash_seed == t.hash_seed,
        s.virtual_nodes == t.virtual_nodes,
        0 <= i < s.assignments.len(),
        among(t.members, s.assignments[i].node_id),
    ensures
        0 <= j < t.assignments.len(),
        t.assignments[j] == s.assignments[i],
{
    let x = s.assignments[i];
    assert(of_member(s.hash_seed, s.virtual_nodes, s.members, x));
    let v = choose|v: u32|
        v < s.virtual_nodes && x == #[trigger] vnode_assignment(s.hash_seed, x.node_id, v);
    assert(t.assignments.contains(vnode_assignment(t.hash_seed, x.node_id, v)));
    choose|j: int| 0 <= j < t.assignments.len() && t.assignments[j] == x
}

/// When the owner of a token leaves, its first successor becomes the owner.
pub proof fn law_first_successor_inherits(before: SnapshotView, after: SnapshotView, token: u64)
    requires
        before.sound(),
        after.sound(),
        before.hash_seed == after.hash_seed,
        before.virtual_nodes == after.virtual_nodes,
        before.replicas(token).len() >= 2,
        forall|id: Seq<char>|
            after.is_member(id) <==> before.is_member(id) && id != before.owner_id(token),
    ensures
        after.owner_id(token) == before.replicas(token)[1],
{
    let a = before.assignments;
    let b = after.assignments;
    let start = owner_index(a, token);
    lemma_owner_index(a, token);
    lemma_owner_index(b, token);
    let limit = replica_limit(before.desired_replication_factor, before.members.len(), a.len());
    let k = lemma_second_met(a, start, a.len(), limit);
    let x = clockwise(a.len(), start, k);
    assert(of_member(before.hash_seed, before.virtual_nodes, before.members, a[x]));
    assert(before.is_member(a[x].node_id));
    assert(after.is_member(a[x].node_id));
    let y = lemma_shared_assignment(before, after, x);
    lemma_owner_met_first(after, token, y);
    let o = owner_index(b, token);
    assert(of_member(after.hash_seed, after.virtual_nodes, after.members, b[o]));
    assert(after.is_member(b[o].node_id));
    assert(before.is_member(b[o].node_id));
    let z = lemma_shared_assignment(after, before, o);
    assert(a[z].node_id != a[start].node_id);
    let l = if z >= start {
        z - start
    } else {
        z - start + a.len()
    };
    assert(clockwise(a.len(), start, l) == z);
    if l < k {
        assert(a[clockwise(a.len(), start, l)].node_id == a[start].node_id);
    }
    lemma_met_in_order(a, token, k, l);
    lemma_met_antisymmetric(token, a[x], b[o]);
}

/// A new member takes tokens over, and nothing else moves.
pub proof fn law_growth_moves_only_to_the_new_member(
    before: SnapshotView,
    after: SnapshotView,
    new_id: Seq<char>,
    token: u64,
)
    requires
        before.sound(),
        after.sound(),
        before.hash_seed == after.hash_seed,
        before.virtual_nodes == after.virtual_nodes,
        forall|id: Seq<char>| after.is_member(id) <==> before.is_member(id) || id == new_id,
    ensures
        after.owner_id(token) == before.owner_id(token) || after.owner_id(token) == new_id,
{
    let a = before.assignments;
    let b = after.assignments;
    lemma_owner_index(a, token);
    lemma_owner_index(b, token);
    let o = owner_index(a, token);
    let p = owner_index(b, token);
    assert(of_member(after.hash_seed, after.virtual_nodes, after.members, b[p]));
    assert(after.is_member(b[p].node_id));
    if b[p].node_id != new_id {
        assert(before.is_member(b[p].node_id));
        assert(among(before.members, b[p].node_id));
        let q = lemma_shared_assignment(after, before, p);
        lemma_owner_met_first(before, token, q);
        assert(of_member(before.hash_seed, before.virtual_nodes, before.members, a[o]));
        assert(before.is_member(a[o].node_id));
        assert(after.is_member(a[o].node_id));
        let r = lemma_shared_assignment(before, after, o);
        lemma_owner_met_first(after, token, r);
        lemma_met_antisymmetric(token, a[o], b[p]);
    }
}

} // verus!
