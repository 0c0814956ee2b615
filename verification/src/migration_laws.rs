//! What holds of the differences between two topologies.
use crate::migration::{
    cuts, cuts_both, delta, full_delta, holds_token, is_plan, lemma_cuts_unique, move_at,
    obligation_at, obligations_at, Delta, MigrationError, MigrationPhase, MoveView,
    ObligationView, TopologyChange, MAX_MIGRATION_RANGES,
};
use crate::ring::{
    boundaries, in_interval, lemma_boundaries, lemma_cut_index, lemma_cut_owner, lemma_replicas,
    previous_boundary, refines, strictly_ascending,
};
use crate::topology::{first_member, Member, SnapshotView, TopologyConfig};
use crate::topology_laws::{
    law_every_token_has_a_member_owner, law_growth_moves_only_to_the_new_member,
};
use vstd::prelude::*;

verus! {

/// Every move stands at a cut where the owner changes.
proof fn lemma_delta_moves(
    c: SnapshotView,
    t: SnapshotView,
    b: Seq<u64>,
    n: nat,
    moves: Seq<MoveView>,
    duties: Seq<ObligationView>,
    k: int,
) -> (i: int)
    requires
        delta(c, t, b, n) == Delta::Known(moves, duties),
        0 <= k < moves.len(),
    ensures
        0 <= i < n,
        c.owner_id(b[i]) != t.owner_id(b[i]),
        moves[k] == move_at(c, t, b, i),
    decreases n,
{
    reveal_with_fuel(delta, 2);
    let before = delta(c, t, b, (n - 1) as nat);
    let m = before->Known_0;
    let d = before->Known_1;
    if k < m.len() {
        lemma_delta_moves(c, t, b, (n - 1) as nat, m, d, k)
    } else {
        n - 1
    }
}

/// Every cut where the owner changes gives a move.
proof fn lemma_delta_has_move(
    c: SnapshotView,
    t: SnapshotView,
    b: Seq<u64>,
    n: nat,
    moves: Seq<MoveView>,
    duties: Seq<ObligationView>,
    i: int,
) -> (k: int)
    requires
        delta(c, t, b, n) == Delta::Known(moves, duties),
        0 <= i < n,
        c.owner_id(b[i]) != t.owner_id(b[i]),
    ensures
        0 <= k < moves.len(),
        moves[k] == move_at(c, t, b, i),
    decreases n,
{
    reveal_with_fuel(delta, 2);
    let before = delta(c, t, b, (n - 1) as nat);
    let m = before->Known_0;
    let d = before->Known_1;
    if i < n - 1 {
        lemma_delta_has_move(c, t, b, (n - 1) as nat, m, d, i)
    } else {
        m.len() as int
    }
}

/// Which nodes hold the end of an interval without having held it before.
pub open spec fn gains(c: SnapshotView, t: SnapshotView, token: u64, node: Seq<char>) -> bool {
    &&& t.replicas(token).subrange(1, t.replicas(token).len() as int).contains(node)
    &&& !c.replicas(token).contains(node)
}

proof fn lemma_obligations_sound(
    c: SnapshotView,
    t: SnapshotView,
    b: Seq<u64>,
    i: int,
    k: nat,
    so_far: Seq<ObligationView>,
    p: int,
)
    requires
        t.placeable(),
        1 <= k <= t.replicas(b[i]).len(),
        so_far.len() <= p < obligations_at(c, t, b, i, k, so_far).len(),
    ensures
        gains(c, t, b[i], obligations_at(c, t, b, i, k, so_far)[p].destination_node_id),
        obligations_at(c, t, b, i, k, so_far)[p] == obligation_at(
            c,
            b,
            i,
            obligations_at(c, t, b, i, k, so_far)[p].destination_node_id,
        ),
    decreases k,
{
    if k > 1 {
        let before = obligations_at(c, t, b, i, (k - 1) as nat, so_far);
        let node = t.replicas(b[i])[k - 1];
        let tail = t.replicas(b[i]).subrange(1, t.replicas(b[i]).len() as int);
        if p < before.len() {
            lemma_obligations_sound(c, t, b, i, (k - 1) as nat, so_far, p);
        } else {
            assert(tail[k - 2] == node);
        }
    }
}

proof fn lemma_obligations_prefix(
    c: SnapshotView,
    t: SnapshotView,
    b: Seq<u64>,
    i: int,
    k: nat,
    so_far: Seq<ObligationView>,
    p: int,
)
    requires
        0 <= p < so_far.len(),
    ensures
        p < obligations_at(c, t, b, i, k, so_far).len(),
        obligations_at(c, t, b, i, k, so_far)[p] == so_far[p],
    decreases k,
{
    if k > 1 {
        lemma_obligations_prefix(c, t, b, i, (k - 1) as nat, so_far, p);
    }
}

proof fn lemma_obligations_complete(
    c: SnapshotView,
    t: SnapshotView,
    b: Seq<u64>,
    i: int,
    k: nat,
    so_far: Seq<ObligationView>,
    q: int,
) -> (p: int)
    requires
        1 <= q < k <= t.replicas(b[i]).len(),
        !c.replicas(b[i]).contains(t.replicas(b[i])[q]),
    ensures
        0 <= p < obligations_at(c, t, b, i, k, so_far).len(),
        obligations_at(c, t, b, i, k, so_far)[p] == obligation_at(c, b, i, t.replicas(b[i])[q]),
    decreases k,
{
    let before = obligations_at(c, t, b, i, (k - 1) as nat, so_far);
    if q < k - 1 {
        lemma_obligations_complete(c, t, b, i, (k - 1) as nat, so_far, q)
    } else {
        before.len() as int
    }
}

proof fn lemma_delta_duties(
    c: SnapshotView,
    t: SnapshotView,
    b: Seq<u64>,
    n: nat,
    moves: Seq<MoveView>,
    duties: Seq<ObligationView>,
    k: int,
) -> (i: int)
    requires
        t.placeable(),
        delta(c, t, b, n) == Delta::Known(moves, duties),
        0 <= k < duties.len(),
    ensures
        0 <= i < n,
        gains(c, t, b[i], duties[k].destination_node_id),
        duties[k] == obligation_at(c, b, i, duties[k].destination_node_id),
    decreases n,
{
    reveal_with_fuel(delta, 2);
    let (m, d) = lemma_delta_step(c, t, b, n, moves, duties);
    let i = n - 1;
    let len = t.replicas(b[i]).len();
    lemma_replicas(t.assignments, t.desired_replication_factor, t.members.len(), b[i]);
    if k < d.len() {
        lemma_obligations_prefix(c, t, b, i, len, d, k);
        lemma_delta_duties(c, t, b, (n - 1) as nat, m, d, k)
    } else {
        lemma_obligations_sound(c, t, b, i, len, d, k);
        i
    }
}

proof fn lemma_gains_index(c: SnapshotView, t: SnapshotView, token: u64, node: Seq<char>) -> (q: int)
    requires
        t.placeable(),
        gains(c, t, token, node),
    ensures
        1 <= q < t.replicas(token).len(),
        t.replicas(token)[q] == node,
        !c.replicas(token).contains(t.replicas(token)[q]),
{
    lemma_replicas(t.assignments, t.desired_replication_factor, t.members.len(), token);
    let tail = t.replicas(token).subrange(1, t.replicas(token).len() as int);
    let q = choose|q: int| 0 <= q < tail.len() && tail[q] == node;
    assert(t.replicas(token)[q + 1] == node);
    q + 1
}

proof fn lemma_delta_step(
    c: SnapshotView,
    t: SnapshotView,
    b: Seq<u64>,
    n: nat,
    moves: Seq<MoveView>,
    duties: Seq<ObligationView>,
) -> (r: (Seq<MoveView>, Seq<ObligationView>))
    requires
        n > 0,
        delta(c, t, b, n) == Delta::Known(moves, duties),
    ensures
        delta(c, t, b, (n - 1) as nat) == Delta::Known(r.0, r.1),
        duties == obligations_at(c, t, b, n - 1, t.replicas(b[n - 1]).len(), r.1),
{
    reveal_with_fuel(delta, 2);
    let before = delta(c, t, b, (n - 1) as nat);
    (before->Known_0, before->Known_1)
}

proof fn lemma_delta_has_duty(
    c: SnapshotView,
    t: SnapshotView,
    b: Seq<u64>,
    n: nat,
    moves: Seq<MoveView>,
    duties: Seq<ObligationView>,
    i: int,
    q: int,
) -> (k: int)
    requires
        delta(c, t, b, n) == Delta::Known(moves, duties),
        0 <= i < n,
        1 <= q < t.replicas(b[i]).len(),
        !c.replicas(b[i]).contains(t.replicas(b[i])[q]),
    ensures
        0 <= k < duties.len(),
        duties[k] == obligation_at(c, b, i, t.replicas(b[i])[q]),
    decreases n,
{
    let (m, d) = lemma_delta_step(c, t, b, n, moves, duties);
    if i < n - 1 {
        let k = lemma_delta_has_duty(c, t, b, (n - 1) as nat, m, d, i, q);
        lemma_obligations_prefix(c, t, b, n - 1, t.replicas(b[n - 1]).len(), d, k);
        k
    } else {
        lemma_obligations_complete(c, t, b, i, t.replicas(b[i]).len(), d, q)
    }
}

/// Ownership and replicas are those of the cut that ends a token's interval.
proof fn lemma_same_as_cut(s: SnapshotView, b: Seq<u64>, token: u64, i: int)
    requires
        s.placeable(),
        strictly_ascending(b),
        refines(b, s.assignments),
        0 <= i < b.len(),
        in_interval(previous_boundary(b, i), b[i], token),
    ensures
        s.owner_id(token) == s.owner_id(b[i]),
        s.replicas(token) == s.replicas(b[i]),
{
    lemma_cut_owner(s.assignments, b, token, i);
}

/// A plan goes one epoch on and keeps how keys are placed on the ring, so that a key keeps its
/// token, and it begins with nothing done.
pub proof fn law_plans_go_one_epoch_on(
    committed: SnapshotView,
    members: Seq<Member>,
    config: TopologyConfig,
    r: Result<TopologyChange, MigrationError>,
    key: Seq<u8>,
)
    requires
        is_plan(committed, members, config, r),
        r is Ok,
    ensures
        r->Ok_0@.base_epoch == committed.epoch,
        r->Ok_0@.target_topology.epoch == committed.epoch + 1,
        r->Ok_0@.target_topology.key_token(key) == committed.key_token(key),
        r->Ok_0@.base_topology == Some(committed),
        r->Ok_0@.phase == MigrationPhase::Planned,
{
}

/// What moves is exactly what changes owner: a token lies in a moving interval, and in one only, if
/// and only if the two topologies give it different owners, and the interval then goes from the one
/// to the other, each at the address that its topology gives it.
pub proof fn law_moves_are_owner_changes(
    c: SnapshotView,
    t: SnapshotView,
    moves: Seq<MoveView>,
    duties: Seq<ObligationView>,
    token: u64,
)
    requires
        c.placeable(),
        t.placeable(),
        full_delta(c, t) == Delta::Known(moves, duties),
    ensures
        c.owner_id(token) != t.owner_id(token) <==> exists|k: int|
            0 <= k < moves.len() && in_interval(
                (#[trigger] moves[k]).start_exclusive,
                moves[k].end_inclusive,
                token,
            ),
        forall|k: int|
            0 <= k < moves.len() && in_interval(
                (#[trigger] moves[k]).start_exclusive,
                moves[k].end_inclusive,
                token,
            ) ==> moves[k].source_node_id == c.owner_id(token) && moves[k].destination_node_id
                == t.owner_id(token) && moves[k].source_endpoint == c.members[first_member(
                c.members,
                c.owner_id(token),
            )].endpoint && moves[k].destination_endpoint == t.members[first_member(
                t.members,
                t.owner_id(token),
            )].endpoint,
        forall|k: int, l: int|
            0 <= k < l < moves.len() && in_interval(
                (#[trigger] moves[k]).start_exclusive,
                moves[k].end_inclusive,
                token,
            ) ==> !in_interval(
                (#[trigger] moves[l]).start_exclusive,
                moves[l].end_inclusive,
                token,
            ),
{
    assert forall|k: int, l: int|
        0 <= k < l < moves.len() && in_interval(
            (#[trigger] moves[k]).start_exclusive,
            moves[k].end_inclusive,
            token,
        ) implies !in_interval(
        (#[trigger] moves[l]).start_exclusive,
        moves[l].end_inclusive,
        token,
    ) by {
        if in_interval(moves[l].start_exclusive, moves[l].end_inclusive, token) {
            law_moving_ranges_do_not_overlap(c, t, moves, duties, token, k, l);
        }
    }
    let b = cuts(c.assignments, t.assignments);
    lemma_cuts_of_placeable(c, t);
    let i = lemma_cut_index(b, token);
    lemma_same_as_cut(c, b, token, i);
    lemma_same_as_cut(t, b, token, i);
    if c.owner_id(token) != t.owner_id(token) {
        let k = lemma_delta_has_move(c, t, b, b.len(), moves, duties, i);
        assert(in_interval(moves[k].start_exclusive, moves[k].end_inclusive, token));
    }
    assert forall|k: int|
        0 <= k < moves.len() && in_interval(
            (#[trigger] moves[k]).start_exclusive,
            moves[k].end_inclusive,
            token,
        ) implies moves[k].source_node_id == c.owner_id(token) && moves[k].destination_node_id
        == t.owner_id(token) && c.owner_id(token) != t.owner_id(token) && moves[k].source_endpoint
        == c.members[first_member(c.members, c.owner_id(token))].endpoint
        && moves[k].destination_endpoint == t.members[first_member(
        t.members,
        t.owner_id(token),
    )].endpoint by {
        let j = lemma_delta_moves(c, t, b, b.len(), moves, duties, k);
        lemma_same_as_cut(c, b, token, j);
        lemma_same_as_cut(t, b, token, j);
    }
}

/// The tokens of two topologies can be listed, and the list is not empty.
proof fn lemma_cuts_of_placeable(c: SnapshotView, t: SnapshotView)
    requires
        c.placeable(),
        t.placeable(),
    ensures
        cuts_both(cuts(c.assignments, t.assignments), c.assignments, t.assignments),
        cuts(c.assignments, t.assignments).len() > 0,
{
    let a = boundaries(c.assignments, c.assignments.len());
    let b = boundaries(t.assignments, t.assignments.len());
    lemma_boundaries(c.assignments, c.assignments.len());
    lemma_boundaries(t.assignments, t.assignments.len());
    let r = lemma_union_exists(a, b);
    assert(cuts_both(r, c.assignments, t.assignments)) by {
        assert forall|k: int| 0 <= k < c.assignments.len() implies r.contains(
            (#[trigger] c.assignments[k]).token,
        ) by {
            assert(a.contains(c.assignments[k].token));
        }
        assert forall|k: int| 0 <= k < t.assignments.len() implies r.contains(
            (#[trigger] t.assignments[k]).token,
        ) by {
            assert(b.contains(t.assignments[k].token));
        }
        assert forall|i: int| 0 <= i < r.len() implies holds_token(c.assignments, #[trigger] r[i])
            || holds_token(t.assignments, r[i]) by {
            assert(r.contains(r[i]));
            if a.contains(r[i]) {
                let p = choose|p: int| 0 <= p < a.len() && a[p] == r[i];
                assert(boundaries(c.assignments, c.assignments.len())[p] == r[i]);
            } else {
                let p = choose|p: int| 0 <= p < b.len() && b[p] == r[i];
                assert(boundaries(t.assignments, t.assignments.len())[p] == r[i]);
            }
        }
    }
    lemma_cuts_unique(r, c.assignments, t.assignments);
    assert(r.contains(c.assignments[0].token));
}

/// Two ascending lists have an ascending union.
proof fn lemma_union_exists(a: Seq<u64>, b: Seq<u64>) -> (r: Seq<u64>)
    requires
        strictly_ascending(a),
        strictly_ascending(b),
    ensures
        strictly_ascending(r),
        forall|x: u64| #[trigger] r.contains(x) <==> a.contains(x) || b.contains(x),
    decreases b.len(),
{
    if b.len() == 0 {
        a
    } else {
        let x = b.last();
        let b2 = b.drop_last();
        let s = lemma_union_exists(a, b2);
        assert forall|y: u64| #[trigger] b.contains(y) implies b2.contains(y) || y == x by {
            let p = choose|p: int| 0 <= p < b.len() && b[p] == y;
            if p < b2.len() {
                assert(b2[p] == y);
            }
        }
        assert forall|y: u64| #[trigger] b2.contains(y) implies b.contains(y) by {
            let p = choose|p: int| 0 <= p < b2.len() && b2[p] == y;
            assert(b[p] == y);
        }
        assert(b.contains(x)) by {
            assert(b[b.len() - 1] == x);
        }
        if s.contains(x) {
            s
        } else {
            let r = lemma_insert_ascending(s, x, 0);
            r
        }
    }
}

proof fn lemma_insert_ascending(s: Seq<u64>, x: u64, at: int) -> (r: Seq<u64>)
    requires
        strictly_ascending(s),
        !s.contains(x),
        0 <= at <= s.len(),
        forall|i: int| 0 <= i < at ==> s[i] < x,
    ensures
        strictly_ascending(r),
        forall|y: u64| #[trigger] r.contains(y) <==> s.contains(y) || y == x,
    decreases s.len() - at,
{
    if at < s.len() && s[at] < x {
        lemma_insert_ascending(s, x, at + 1)
    } else {
        let r = s.insert(at, x);
        if at < s.len() {
            assert(s.contains(s[at]));
        }
        assert forall|i: int, j: int| 0 <= i < j < r.len() implies #[trigger] r[i] < #[trigger] r[j] by {
            let i2 = if i < at {
                i
            } else {
                i - 1
            };
            let j2 = if j < at {
                j
            } else {
                j - 1
            };
            if i != at && j != at {
                assert(s[i2] < s[j2]);
            } else if i == at {
                if j2 > at {
                    assert(s[at] < s[j2]);
                }
            }
        }
        assert forall|y: u64| #[trigger] r.contains(y) <==> s.contains(y) || y == x by {
            if r.contains(y) {
                let p = choose|p: int| 0 <= p < r.len() && r[p] == y;
                if p < at {
                    assert(s[p] == y);
                } else if p > at {
                    assert(s[p - 1] == y);
                }
            }
            if s.contains(y) {
                let p = choose|p: int| 0 <= p < s.len() && s[p] == y;
                if p < at {
                    assert(r[p] == y);
                } else {
                    assert(r[p + 1] == y);
                }
            }
            assert(r[at] == x);
        }
        r
    }
}

/// Obligations are exactly new coverage: a node is obliged to hold a token, by one obligation, if
/// and only if it becomes a follower of it without having held it, and it then copies from the owner
/// before the change.
pub proof fn law_obligations_are_new_coverage(
    c: SnapshotView,
    t: SnapshotView,
    moves: Seq<MoveView>,
    duties: Seq<ObligationView>,
    token: u64,
    node: Seq<char>,
)
    requires
        c.placeable(),
        t.placeable(),
        full_delta(c, t) == Delta::Known(moves, duties),
    ensures
        gains(c, t, token, node) <==> exists|k: int|
            0 <= k < duties.len() && in_interval(
                (#[trigger] duties[k]).start_exclusive,
                duties[k].end_inclusive,
                token,
            ) && duties[k].destination_node_id == node,
        forall|k: int|
            0 <= k < duties.len() && in_interval(
                (#[trigger] duties[k]).start_exclusive,
                duties[k].end_inclusive,
                token,
            ) ==> duties[k].source_node_id == c.owner_id(token),
        forall|k: int, l: int|
            0 <= k < l < duties.len() && in_interval(
                (#[trigger] duties[k]).start_exclusive,
                duties[k].end_inclusive,
                token,
            ) && in_interval(
                (#[trigger] duties[l]).start_exclusive,
                duties[l].end_inclusive,
                token,
            ) ==> duties[k].destination_node_id != duties[l].destination_node_id,
{
    assert forall|k: int, l: int|
        0 <= k < l < duties.len() && in_interval(
            (#[trigger] duties[k]).start_exclusive,
            duties[k].end_inclusive,
            token,
        ) && in_interval(
            (#[trigger] duties[l]).start_exclusive,
            duties[l].end_inclusive,
            token,
        ) implies duties[k].destination_node_id != duties[l].destination_node_id by {
        if duties[k].destination_node_id == duties[l].destination_node_id {
            law_obligations_do_not_overlap(c, t, moves, duties, token, k, l);
        }
    }
    let b = cuts(c.assignments, t.assignments);
    lemma_cuts_of_placeable(c, t);
    let i = lemma_cut_index(b, token);
    lemma_same_as_cut(c, b, token, i);
    lemma_same_as_cut(t, b, token, i);
    if gains(c, t, token, node) {
        let q = lemma_gains_index(c, t, b[i], node);
        let k = lemma_delta_has_duty(c, t, b, b.len(), moves, duties, i, q);
        assert(in_interval(duties[k].start_exclusive, duties[k].end_inclusive, token));
    }
    assert forall|k: int|
        0 <= k < duties.len() && in_interval(
            (#[trigger] duties[k]).start_exclusive,
            duties[k].end_inclusive,
            token,
        ) implies duties[k].source_node_id == c.owner_id(token) && gains(
        c,
        t,
        token,
        duties[k].destination_node_id,
    ) by {
        let j = lemma_delta_duties(c, t, b, b.len(), moves, duties, k);
        lemma_same_as_cut(c, b, token, j);
        lemma_same_as_cut(t, b, token, j);
    }
}

/// A topology that grows by one member moves intervals only to that member.
pub proof fn law_scale_out_moves_to_the_new_member(
    c: SnapshotView,
    t: SnapshotView,
    new_id: Seq<char>,
    moves: Seq<MoveView>,
    duties: Seq<ObligationView>,
    k: int,
)
    requires
        c.sound(),
        t.sound(),
        c.hash_seed == t.hash_seed,
        c.virtual_nodes == t.virtual_nodes,
        forall|id: Seq<char>| t.is_member(id) <==> c.is_member(id) || id == new_id,
        full_delta(c, t) == Delta::Known(moves, duties),
        0 <= k < moves.len(),
    ensures
        moves[k].destination_node_id == new_id,
        c.is_member(moves[k].source_node_id),
{
    let b = cuts(c.assignments, t.assignments);
    lemma_cuts_of_placeable(c, t);
    let i = lemma_delta_moves(c, t, b, b.len(), moves, duties, k);
    law_growth_moves_only_to_the_new_member(c, t, new_id, b[i]);
    law_every_token_has_a_member_owner(c, b[i]);
}

/// No token lies in two intervals of one ring.
proof fn lemma_intervals_apart(b: Seq<u64>, token: u64, i: int, j: int)
    requires
        strictly_ascending(b),
        0 <= i < b.len(),
        0 <= j < b.len(),
        in_interval(previous_boundary(b, i), b[i], token),
        in_interval(previous_boundary(b, j), b[j], token),
    ensures
        i == j,
{
    if i < j {
        lemma_intervals_ordered(b, token, i, j);
    } else if j < i {
        lemma_intervals_ordered(b, token, j, i);
    }
}

proof fn lemma_intervals_ordered(b: Seq<u64>, token: u64, i: int, j: int)
    requires
        strictly_ascending(b),
        0 <= i < j < b.len(),
        in_interval(previous_boundary(b, i), b[i], token),
    ensures
        !in_interval(previous_boundary(b, j), b[j], token),
{
    assert(b[j - 1] < b[j]);
    if i < j - 1 {
        assert(b[i] < b[j - 1]);
    }
    if j < b.len() - 1 {
        assert(b[j] < b[b.len() - 1]);
    }
    if i > 0 {
        assert(b[i - 1] < b[i]);
    }
}

proof fn lemma_moves_ascend(
    c: SnapshotView,
    t: SnapshotView,
    b: Seq<u64>,
    n: nat,
    moves: Seq<MoveView>,
    duties: Seq<ObligationView>,
)
    requires
        strictly_ascending(b),
        n <= b.len(),
        delta(c, t, b, n) == Delta::Known(moves, duties),
    ensures
        moves.len() <= MAX_MIGRATION_RANGES,
        forall|k: int, l: int|
            0 <= k < l < moves.len() ==> (#[trigger] moves[k]).end_inclusive < (
            #[trigger] moves[l]).end_inclusive,
    decreases n,
{
    reveal_with_fuel(delta, 2);
    if n > 0 {
        let before = delta(c, t, b, (n - 1) as nat);
        let m = before->Known_0;
        let d = before->Known_1;
        lemma_moves_ascend(c, t, b, (n - 1) as nat, m, d);
        assert forall|k: int, l: int| 0 <= k < l < moves.len() implies (
        #[trigger] moves[k]).end_inclusive < (#[trigger] moves[l]).end_inclusive by {
            assert(moves[k] == m[k]);
            if l < m.len() {
                assert(moves[l] == m[l]);
            } else {
                let i = lemma_delta_moves(c, t, b, (n - 1) as nat, m, d, k);
                assert(b[i] < b[n - 1]);
            }
        }
    }
}

/// A token lies in at most one moving interval.
pub proof fn law_moving_ranges_do_not_overlap(
    c: SnapshotView,
    t: SnapshotView,
    moves: Seq<MoveView>,
    duties: Seq<ObligationView>,
    token: u64,
    k: int,
    l: int,
)
    requires
        c.placeable(),
        t.placeable(),
        full_delta(c, t) == Delta::Known(moves, duties),
        0 <= k < moves.len(),
        0 <= l < moves.len(),
        in_interval(moves[k].start_exclusive, moves[k].end_inclusive, token),
        in_interval(moves[l].start_exclusive, moves[l].end_inclusive, token),
    ensures
        k == l,
{
    let b = cuts(c.assignments, t.assignments);
    lemma_cuts_of_placeable(c, t);
    let i = lemma_delta_moves(c, t, b, b.len(), moves, duties, k);
    let j = lemma_delta_moves(c, t, b, b.len(), moves, duties, l);
    lemma_intervals_apart(b, token, i, j);
    lemma_moves_ascend(c, t, b, b.len(), moves, duties);
}

/// Moving intervals are listed in ascending order of their ends, change owner, and are no more
/// than a plan may have.
pub proof fn law_moving_ranges_are_listed_in_order(
    c: SnapshotView,
    t: SnapshotView,
    moves: Seq<MoveView>,
    duties: Seq<ObligationView>,
    k: int,
)
    requires
        c.placeable(),
        t.placeable(),
        full_delta(c, t) == Delta::Known(moves, duties),
    ensures
        moves.len() <= MAX_MIGRATION_RANGES,
        0 <= k < moves.len() ==> moves[k].source_node_id != moves[k].destination_node_id,
        0 < k < moves.len() ==> moves[k - 1].end_inclusive < moves[k].end_inclusive,
{
    let b = cuts(c.assignments, t.assignments);
    lemma_cuts_of_placeable(c, t);
    lemma_moves_ascend(c, t, b, b.len(), moves, duties);
    if 0 <= k < moves.len() {
        let i = lemma_delta_moves(c, t, b, b.len(), moves, duties, k);
    }
}

/// No node has two obligations for intervals with one end.
pub open spec fn apart(duties: Seq<ObligationView>) -> bool {
    forall|k: int, l: int|
        0 <= k < l < duties.len() ==> (#[trigger] duties[k]).end_inclusive != (
        #[trigger] duties[l]).end_inclusive || duties[k].destination_node_id
            != duties[l].destination_node_id
}

proof fn lemma_obligations_apart(
    c: SnapshotView,
    t: SnapshotView,
    b: Seq<u64>,
    i: int,
    k: nat,
    so_far: Seq<ObligationView>,
)
    requires
        t.assignments.len() > 0,
        1 <= k <= t.replicas(b[i]).len(),
        apart(so_far),
        forall|p: int| 0 <= p < so_far.len() ==> (#[trigger] so_far[p]).end_inclusive != b[i],
    ensures
        ({
            let all = obligations_at(c, t, b, i, k, so_far);
            &&& apart(all)
            &&& forall|p: int|
                0 <= p < all.len() && (#[trigger] all[p]).end_inclusive == b[i] ==> exists|q: int|
                    1 <= q < k && t.replicas(b[i])[q] == all[p].destination_node_id
        }),
    decreases k,
{
    let r = t.replicas(b[i]);
    lemma_replicas(t.assignments, t.desired_replication_factor, t.members.len(), b[i]);
    let all = obligations_at(c, t, b, i, k, so_far);
    if k > 1 {
        let before = obligations_at(c, t, b, i, (k - 1) as nat, so_far);
        lemma_obligations_apart(c, t, b, i, (k - 1) as nat, so_far);
        assert forall|p: int|
            0 <= p < all.len() && (#[trigger] all[p]).end_inclusive == b[i] implies exists|q: int|
            1 <= q < k && r[q] == all[p].destination_node_id by {
            if p < before.len() {
                assert(all[p] == before[p]);
                let q = choose|q: int|
                    1 <= q < k - 1 && r[q] == before[p].destination_node_id;
                assert(r[q] == all[p].destination_node_id);
            } else {
                assert(r[k - 1] == all[p].destination_node_id);
            }
        }
        assert forall|x: int, y: int| 0 <= x < y < all.len() implies (
        #[trigger] all[x]).end_inclusive != (#[trigger] all[y]).end_inclusive
            || all[x].destination_node_id != all[y].destination_node_id by {
            assert(all[x] == before[x]);
            if y < before.len() {
                assert(all[y] == before[y]);
            } else if before[x].end_inclusive == b[i] {
                let q = choose|q: int|
                    1 <= q < k - 1 && r[q] == before[x].destination_node_id;
                assert(r[q] != r[k - 1]);
            }
        }
    }
}

proof fn lemma_duties_apart(
    c: SnapshotView,
    t: SnapshotView,
    b: Seq<u64>,
    n: nat,
    moves: Seq<MoveView>,
    duties: Seq<ObligationView>,
)
    requires
        t.placeable(),
        strictly_ascending(b),
        n <= b.len(),
        delta(c, t, b, n) == Delta::Known(moves, duties),
    ensures
        apart(duties),
    decreases n,
{
    if n > 0 {
        let (m, d) = lemma_delta_step(c, t, b, n, moves, duties);
        lemma_duties_apart(c, t, b, (n - 1) as nat, m, d);
        lemma_replicas(t.assignments, t.desired_replication_factor, t.members.len(), b[n - 1]);
        assert forall|p: int| 0 <= p < d.len() implies (#[trigger] d[p]).end_inclusive != b[n
            - 1] by {
            let i = lemma_delta_duties(c, t, b, (n - 1) as nat, m, d, p);
            assert(b[i] < b[n - 1]);
        }
        lemma_obligations_apart(c, t, b, n - 1, t.replicas(b[n - 1]).len(), d);
    } else {
        reveal_with_fuel(delta, 1);
    }
}

/// A node has at most one obligation for a token.
pub proof fn law_obligations_do_not_overlap(
    c: SnapshotView,
    t: SnapshotView,
    moves: Seq<MoveView>,
    duties: Seq<ObligationView>,
    token: u64,
    k: int,
    l: int,
)
    requires
        c.placeable(),
        t.placeable(),
        full_delta(c, t) == Delta::Known(moves, duties),
        0 <= k < duties.len(),
        0 <= l < duties.len(),
        duties[k].destination_node_id == duties[l].destination_node_id,
        in_interval(duties[k].start_exclusive, duties[k].end_inclusive, token),
        in_interval(duties[l].start_exclusive, duties[l].end_inclusive, token),
    ensures
        k == l,
{
    let b = cuts(c.assignments, t.assignments);
    lemma_cuts_of_placeable(c, t);
    let i = lemma_delta_duties(c, t, b, b.len(), moves, duties, k);
    let j = lemma_delta_duties(c, t, b, b.len(), moves, duties, l);
    lemma_intervals_apart(b, token, i, j);
    lemma_duties_apart(c, t, b, b.len(), moves, duties);
}

/// The same interval, going the other way.
pub open spec fn goes_back(forth: MoveView, back: MoveView) -> bool {
    &&& back.start_exclusive == forth.start_exclusive
    &&& back.end_inclusive == forth.end_inclusive
    &&& back.source_node_id == forth.destination_node_id
    &&& back.destination_node_id == forth.source_node_id
    &&& back.source_endpoint == forth.destination_endpoint
    &&& back.destination_endpoint == forth.source_endpoint
}

proof fn lemma_delta_back(
    c: SnapshotView,
    t: SnapshotView,
    b: Seq<u64>,
    n: nat,
    forth: Seq<MoveView>,
    forth_duties: Seq<ObligationView>,
    back: Seq<MoveView>,
    back_duties: Seq<ObligationView>,
)
    requires
        delta(c, t, b, n) == Delta::Known(forth, forth_duties),
        delta(t, c, b, n) == Delta::Known(back, back_duties),
    ensures
        back.len() == forth.len(),
        forall|k: int| 0 <= k < forth.len() ==> goes_back(#[trigger] forth[k], back[k]),
    decreases n,
{
    reveal_with_fuel(delta, 2);
    if n > 0 {
        let f = delta(c, t, b, (n - 1) as nat);
        let g = delta(t, c, b, (n - 1) as nat);
        lemma_delta_back(
            c,
            t,
            b,
            (n - 1) as nat,
            f->Known_0,
            f->Known_1,
            g->Known_0,
            g->Known_1,
        );
        assert forall|k: int| 0 <= k < forth.len() implies goes_back(
            #[trigger] forth[k],
            back[k],
        ) by {
            if k < f->Known_0.len() {
                assert(forth[k] == f->Known_0[k]);
                assert(back[k] == g->Known_0[k]);
            }
        }
    }
}

/// The way back moves the same intervals, each with its ends swapped.
pub proof fn law_reversed_changes_move_back(
    c: SnapshotView,
    t: SnapshotView,
    forth: Seq<MoveView>,
    forth_duties: Seq<ObligationView>,
    back: Seq<MoveView>,
    back_duties: Seq<ObligationView>,
)
    requires
        c.placeable(),
        t.placeable(),
        full_delta(c, t) == Delta::Known(forth, forth_duties),
        full_delta(t, c) == Delta::Known(back, back_duties),
    ensures
        back.len() == forth.len(),
        forall|k: int| 0 <= k < forth.len() ==> goes_back(#[trigger] forth[k], back[k]),
{
    let b = cuts(c.assignments, t.assignments);
    lemma_cuts_of_placeable(c, t);
    assert(cuts_both(b, t.assignments, c.assignments));
    lemma_cuts_unique(b, t.assignments, c.assignments);
    lemma_delta_back(c, t, b, b.len(), forth, forth_duties, back, back_duties);
}

proof fn lemma_no_obligations(
    c: SnapshotView,
    b: Seq<u64>,
    i: int,
    k: nat,
    so_far: Seq<ObligationView>,
)
    requires
        k <= c.replicas(b[i]).len(),
    ensures
        obligations_at(c, c, b, i, k, so_far) == so_far,
    decreases k,
{
    if k > 1 {
        lemma_no_obligations(c, b, i, (k - 1) as nat, so_far);
        assert(c.replicas(b[i]).contains(c.replicas(b[i])[k - 1]));
    }
}

proof fn lemma_no_delta(c: SnapshotView, b: Seq<u64>, n: nat)
    ensures
        delta(c, c, b, n) == Delta::Known(Seq::empty(), Seq::empty()),
    decreases n,
{
    reveal_with_fuel(delta, 2);
    if n > 0 {
        lemma_no_delta(c, b, (n - 1) as nat);
        lemma_no_obligations(c, b, n - 1, c.replicas(b[n - 1]).len(), Seq::empty());
    }
}

/// Between a topology and itself nothing moves and nobody gains a copy.
pub proof fn law_nothing_moves_without_a_change(c: SnapshotView)
    ensures
        full_delta(c, c) == Delta::Known(Seq::empty(), Seq::empty()),
{
    lemma_no_delta(c, cuts(c.assignments, c.assignments), cuts(
        c.assignments,
        c.assignments,
    ).len());
}

} // verus!
