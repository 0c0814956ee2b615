//! Placement on the hash ring.
//!
//! Assignments are tokens on a circle of 64-bit numbers, each with the node that it
//! belongs to. A token is owned by the first assignment at or after it, clockwise, and
//! is replicated on the nodes met next.
use vstd::prelude::*;

verus! {

/// A token and its node.
#[verifier::ext_equal]
pub struct AssignmentView {
    pub token: u64,
    pub node_id: Seq<char>,
}

/// An interval `(start_exclusive, end_inclusive]` with the nodes that hold it.
#[verifier::ext_equal]
pub struct RangeView {
    pub start_exclusive: u64,
    pub end_inclusive: u64,
    pub owner_node_id: Seq<char>,
    pub follower_node_ids: Seq<Seq<char>>,
}

/// Tokens stand in ascending order.
pub open spec fn tokens_sorted(a: Seq<AssignmentView>) -> bool {
    forall|i: int, j: int| 0 <= i <= j < a.len() ==> (#[trigger] a[i]).token <= (#[trigger] a[j]).token
}

/// Exactly the assignments from `i` on have a token at or after `t`.
pub open spec fn splits(a: Seq<AssignmentView>, t: u64, i: int) -> bool {
    &&& 0 <= i <= a.len()
    &&& forall|j: int| 0 <= j < i ==> (#[trigger] a[j]).token < t
    &&& forall|j: int| i <= j < a.len() ==> (#[trigger] a[j]).token >= t
}

/// Assignment `i` is the first in the list that has a token at or after `t`; it is their number
/// where there is none.
pub open spec fn leads(a: Seq<AssignmentView>, t: u64, i: int) -> bool {
    &&& 0 <= i <= a.len()
    &&& forall|j: int| 0 <= j < i ==> (#[trigger] a[j]).token < t
    &&& i < a.len() ==> a[i].token >= t
}

/// The first assignment at or after `t`, or their number where there is none.
pub open spec fn first_at_or_after(a: Seq<AssignmentView>, t: u64) -> int {
    choose|i: int| leads(a, t, i)
}

/// The assignment that owns `t`: the first at or after it, clockwise.
pub open spec fn owner_index(a: Seq<AssignmentView>, t: u64) -> int {
    let i = first_at_or_after(a, t);
    if i == a.len() {
        0
    } else {
        i
    }
}

/// The index `k` steps clockwise of `start`.
pub open spec fn clockwise(len: nat, start: int, k: int) -> int {
    if start + k < len {
        start + k
    } else {
        start + k - len
    }
}

/// The distinct nodes met in `n` steps from `start`, at most `limit` of them.
pub open spec fn walk(a: Seq<AssignmentView>, start: int, n: nat, limit: nat) -> Seq<Seq<char>>
    decreases n,
{
    if n == 0 {
        Seq::empty()
    } else {
        let met = walk(a, start, (n - 1) as nat, limit);
        let node = a[clockwise(a.len(), start, n - 1)].node_id;
        if met.len() < limit && !met.contains(node) {
            met.push(node)
        } else {
            met
        }
    }
}

/// How many nodes hold a token: the desired number, as far as there are members. Where
/// that number is zero nothing stops the walk.
pub open spec fn replica_limit(desired: u32, member_count: nat, assignment_count: nat) -> nat {
    if desired == 0 || member_count == 0 {
        assignment_count
    } else if (desired as nat) < member_count {
        desired as nat
    } else {
        member_count
    }
}

/// The nodes that hold `t`, its owner first.
pub open spec fn replicas(
    a: Seq<AssignmentView>,
    desired: u32,
    member_count: nat,
    t: u64,
) -> Seq<Seq<char>> {
    walk(a, owner_index(a, t), a.len(), replica_limit(desired, member_count, a.len()))
}

/// The tokens of the first `n` assignments without immediate repetitions.
pub open spec fn boundaries(a: Seq<AssignmentView>, n: nat) -> Seq<u64>
    decreases n,
{
    if n == 0 {
        Seq::empty()
    } else {
        let before = boundaries(a, (n - 1) as nat);
        if n >= 2 && a[n - 1].token == a[n - 2].token {
            before
        } else {
            before.push(a[n - 1].token)
        }
    }
}

/// Where the interval that ends at boundary `i` starts.
pub open spec fn previous_boundary(b: Seq<u64>, i: int) -> u64 {
    if i == 0 {
        b.last()
    } else {
        b[i - 1]
    }
}

/// The interval that ends at boundary `i`.
pub open spec fn range_at(
    a: Seq<AssignmentView>,
    desired: u32,
    member_count: nat,
    b: Seq<u64>,
    i: int,
) -> RangeView {
    let nodes = replicas(a, desired, member_count, b[i]);
    RangeView {
        start_exclusive: previous_boundary(b, i),
        end_inclusive: b[i],
        owner_node_id: nodes[0],
        follower_node_ids: nodes.subrange(1, nodes.len() as int),
    }
}

/// The intervals between neighbouring tokens.
pub open spec fn ranges(a: Seq<AssignmentView>, desired: u32, member_count: nat) -> Seq<RangeView> {
    let b = boundaries(a, a.len());
    Seq::new(b.len(), |i: int| range_at(a, desired, member_count, b, i))
}

/// Membership in `(start, end]`, wrapping at the largest token; equal ends span the ring.
pub open spec fn in_interval(start: u64, end: u64, t: u64) -> bool {
    if start < end {
        start < t && t <= end
    } else if start > end {
        t > start || t <= end
    } else {
        true
    }
}

/// The assignments' nodes.
pub open spec fn assigned(a: Seq<AssignmentView>, node: Seq<char>) -> bool {
    exists|i: int| 0 <= i < a.len() && (#[trigger] a[i]).node_id == node
}

pub proof fn lemma_leads_unique(a: Seq<AssignmentView>, t: u64, i: int)
    requires
        leads(a, t, i),
    ensures
        first_at_or_after(a, t) == i,
{
    let k = first_at_or_after(a, t);
    assert(leads(a, t, k));
    if k < i {
        assert(a[k].token < t);
    } else if i < k {
        assert(a[i].token < t);
    }
}

proof fn lemma_leads_from(a: Seq<AssignmentView>, t: u64, i: int)
    requires
        0 <= i <= a.len(),
        forall|j: int| 0 <= j < i ==> (#[trigger] a[j]).token < t,
    ensures
        exists|k: int| leads(a, t, k),
    decreases a.len() - i,
{
    if i == a.len() || a[i].token >= t {
        assert(leads(a, t, i));
    } else {
        lemma_leads_from(a, t, i + 1);
    }
}

pub proof fn lemma_splits_unique(a: Seq<AssignmentView>, t: u64, i: int)
    requires
        splits(a, t, i),
    ensures
        first_at_or_after(a, t) == i,
{
    assert(leads(a, t, i));
    lemma_leads_unique(a, t, i);
}

proof fn lemma_splits_from(a: Seq<AssignmentView>, t: u64, i: int)
    requires
        tokens_sorted(a),
        0 <= i <= a.len(),
        forall|j: int| 0 <= j < i ==> (#[trigger] a[j]).token < t,
    ensures
        exists|k: int| splits(a, t, k),
    decreases a.len() - i,
{
    if i == a.len() {
        assert(splits(a, t, i));
    } else if a[i].token >= t {
        assert(splits(a, t, i)) by {
            assert forall|j: int| i <= j < a.len() implies (#[trigger] a[j]).token >= t by {
                assert(a[i].token <= a[j].token);
            }
        }
    } else {
        lemma_splits_from(a, t, i + 1);
    }
}

pub proof fn lemma_first_at_or_after(a: Seq<AssignmentView>, t: u64)
    requires
        tokens_sorted(a),
    ensures
        splits(a, t, first_at_or_after(a, t)),
{
    lemma_splits_from(a, t, 0);
    lemma_splits_unique(a, t, choose|k: int| splits(a, t, k));
}

pub proof fn lemma_owner_index(a: Seq<AssignmentView>, t: u64)
    requires
        a.len() > 0,
    ensures
        0 <= owner_index(a, t) < a.len(),
{
    lemma_leads_from(a, t, 0);
}

/// What a walk gathers: distinct nodes of the assignments met, all of them unless the
/// limit is reached.
pub proof fn lemma_walk(a: Seq<AssignmentView>, start: int, n: nat, limit: nat)
    requires
        0 <= start < a.len(),
        n <= a.len(),
    ensures
        walk(a, start, n, limit).len() <= limit,
        walk(a, start, n, limit).len() <= n,
        walk(a, start, n, limit).no_duplicates(),
        forall|i: int|
            0 <= i < walk(a, start, n, limit).len() ==> assigned(
                a,
                #[trigger] walk(a, start, n, limit)[i],
            ),
        walk(a, start, n, limit).len() < limit ==> forall|k: int|
            0 <= k < n ==> walk(a, start, n, limit).contains(
                a[#[trigger] clockwise(a.len(), start, k)].node_id,
            ),
        n > 0 && limit > 0 ==> walk(a, start, n, limit).len() > 0 && walk(a, start, n, limit)[0]
            == a[start].node_id,
    decreases n,
{
    if n > 0 {
        lemma_walk(a, start, (n - 1) as nat, limit);
        let met = walk(a, start, (n - 1) as nat, limit);
        let c = clockwise(a.len(), start, n - 1);
        let node = a[c].node_id;
        let w = walk(a, start, n, limit);
        assert(0 <= c < a.len());
        assert(assigned(a, node));
        if met.len() < limit && !met.contains(node) {
            assert(w == met.push(node));
            assert(w[w.len() - 1] == node);
            assert forall|k: int| 0 <= k < n implies w.contains(
                a[#[trigger] clockwise(a.len(), start, k)].node_id,
            ) by {
                if k < n - 1 {
                    let x = a[clockwise(a.len(), start, k)].node_id;
                    assert(met.contains(x));
                    let p = choose|p: int| 0 <= p < met.len() && met[p] == x;
                    assert(w[p] == x);
                }
            }
        } else {
            assert(w == met);
            if w.len() < limit {
                assert forall|k: int| 0 <= k < n implies w.contains(
                    a[#[trigger] clockwise(a.len(), start, k)].node_id,
                ) by {
                    if k == n - 1 {
                        assert(met.contains(node));
                    }
                }
            }
        }
        if n == 1 {
            assert(met.len() == 0);
            assert(c == start);
        }
    }
}

/// Every token is held by someone: the owner comes first, and no node comes twice.
pub proof fn lemma_replicas(a: Seq<AssignmentView>, desired: u32, member_count: nat, t: u64)
    requires
        a.len() > 0,
    ensures
        replicas(a, desired, member_count, t).len() > 0,
        replicas(a, desired, member_count, t).len() <= replica_limit(
            desired,
            member_count,
            a.len(),
        ),
        replicas(a, desired, member_count, t).no_duplicates(),
        replicas(a, desired, member_count, t)[0] == a[owner_index(a, t)].node_id,
        forall|i: int|
            0 <= i < replicas(a, desired, member_count, t).len() ==> assigned(
                a,
                #[trigger] replicas(a, desired, member_count, t)[i],
            ),
{
    lemma_owner_index(a, t);
    lemma_walk(a, owner_index(a, t), a.len(), replica_limit(desired, member_count, a.len()));
}

/// A walk around the whole ring that stops short of its limit has met every node.
pub proof fn lemma_replicas_complete(
    a: Seq<AssignmentView>,
    desired: u32,
    member_count: nat,
    t: u64,
    node: Seq<char>,
)
    requires
        assigned(a, node),
        replicas(a, desired, member_count, t).len() < replica_limit(
            desired,
            member_count,
            a.len(),
        ),
    ensures
        replicas(a, desired, member_count, t).contains(node),
{
    lemma_owner_index(a, t);
    let start = owner_index(a, t);
    lemma_walk(a, start, a.len(), replica_limit(desired, member_count, a.len()));
    let i = choose|i: int| 0 <= i < a.len() && (#[trigger] a[i]).node_id == node;
    let k = if i >= start {
        i - start
    } else {
        i - start + a.len()
    };
    assert(clockwise(a.len(), start, k) == i);
}

pub proof fn lemma_some_boundary(a: Seq<AssignmentView>, n: nat)
    requires
        0 < n <= a.len(),
    ensures
        boundaries(a, n).len() > 0,
    decreases n,
{
    reveal_with_fuel(boundaries, 2);
    if n > 1 {
        lemma_some_boundary(a, (n - 1) as nat);
    }
}

/// Boundaries ascend strictly and are exactly the tokens.
pub proof fn lemma_boundaries(a: Seq<AssignmentView>, n: nat)
    requires
        tokens_sorted(a),
        n <= a.len(),
    ensures
        n > 0 ==> boundaries(a, n).len() > 0 && boundaries(a, n).last() == a[n - 1].token,
        boundaries(a, n).len() <= n,
        forall|i: int, j: int|
            0 <= i < j < boundaries(a, n).len() ==> #[trigger] boundaries(a, n)[i]
                < #[trigger] boundaries(a, n)[j],
        forall|i: int|
            0 <= i < boundaries(a, n).len() ==> exists|k: int|
                0 <= k < n && (#[trigger] a[k]).token == #[trigger] boundaries(a, n)[i],
        forall|k: int| 0 <= k < n ==> boundaries(a, n).contains((#[trigger] a[k]).token),
    decreases n,
{
    if n > 0 {
        lemma_boundaries(a, (n - 1) as nat);
        let before = boundaries(a, (n - 1) as nat);
        let b = boundaries(a, n);
        if n >= 2 {
            assert(a[n - 2].token <= a[n - 1].token);
        }
        if n >= 2 && a[n - 1].token == a[n - 2].token {
            assert(b == before);
            assert forall|k: int| 0 <= k < n implies b.contains((#[trigger] a[k]).token) by {
                if k == n - 1 {
                    assert(before.contains(a[n - 2].token));
                }
            }
        } else {
            assert(b == before.push(a[n - 1].token));
            assert forall|i: int, j: int| 0 <= i < j < b.len() implies #[trigger] b[i]
                < #[trigger] b[j] by {
                assert(b[i] == before[i]);
                if j == b.len() - 1 {
                    if i < before.len() - 1 {
                        assert(before[i] < before[before.len() - 1]);
                    }
                } else {
                    assert(b[j] == before[j]);
                }
            }
            assert forall|i: int| 0 <= i < b.len() implies exists|k: int|
                0 <= k < n && (#[trigger] a[k]).token == #[trigger] b[i] by {
                if i < before.len() {
                    assert(b[i] == before[i]);
                    let k = choose|k: int|
                        0 <= k < n - 1 && (#[trigger] a[k]).token == before[i];
                    assert(a[k].token == b[i]);
                } else {
                    assert(a[n - 1].token == b[i]);
                }
            }
            assert forall|k: int| 0 <= k < n implies b.contains((#[trigger] a[k]).token) by {
                if k < n - 1 {
                    assert(before.contains(a[k].token));
                    let p = choose|p: int| 0 <= p < before.len() && before[p] == a[k].token;
                    assert(b[p] == a[k].token);
                } else {
                    assert(b[b.len() - 1] == a[k].token);
                }
            }
        }
    }
}

/// A token is owned as the boundary that ends its interval is.
pub proof fn lemma_interval_owner(a: Seq<AssignmentView>, t: u64, i: int)
    requires
        tokens_sorted(a),
        a.len() > 0,
        0 <= i < boundaries(a, a.len()).len(),
        in_interval(
            previous_boundary(boundaries(a, a.len()), i),
            boundaries(a, a.len())[i],
            t,
        ),
    ensures
        owner_index(a, t) == owner_index(a, boundaries(a, a.len())[i]),
{
    let b = boundaries(a, a.len());
    lemma_boundaries(a, a.len());
    let end = b[i];
    lemma_first_at_or_after(a, t);
    lemma_first_at_or_after(a, end);
    let f = first_at_or_after(a, t);
    let g = first_at_or_after(a, end);
    let k = choose|k: int| 0 <= k < a.len() && (#[trigger] a[k]).token == end;
    assert(g <= k);
    assert(a[g].token >= end);
    assert(a[g].token <= a[k].token);
    assert(a[g].token == end);
    if t <= end {
        assert(splits(a, t, g)) by {
            assert forall|j: int| 0 <= j < g implies (#[trigger] a[j]).token < t by {
                assert(a[j].token < end);
                assert(b.contains(a[j].token));
                let p = choose|p: int| 0 <= p < b.len() && b[p] == a[j].token;
                if p >= i {
                    if p > i {
                        assert(b[i] < b[p]);
                    }
                    assert(false);
                }
                if p < i - 1 {
                    assert(b[p] < b[i - 1]);
                }
            }
            assert forall|j: int| g <= j < a.len() implies (#[trigger] a[j]).token >= t by {
                assert(a[g].token <= a[j].token);
            }
        }
        lemma_splits_unique(a, t, g);
    } else {
        // Only the interval across the end of the ring holds tokens after its own end.
        if i > 0 {
            assert(b[i - 1] < b[i]);
        }
        assert(i == 0);
        if b.len() > 1 {
            assert(b[0] < b[b.len() - 1]);
            assert(t > b.last());
        }
        assert(t > b.last());
        assert(splits(a, t, a.len() as int)) by {
            assert forall|j: int| 0 <= j < a.len() implies (#[trigger] a[j]).token < t by {
                assert(a[j].token <= a[a.len() - 1].token);
            }
        }
        lemma_splits_unique(a, t, a.len() as int);
        assert(splits(a, end, 0)) by {
            assert forall|j: int| 0 <= j < a.len() implies (#[trigger] a[j]).token >= end by {
                assert(b.contains(a[j].token));
                let p = choose|p: int| 0 <= p < b.len() && b[p] == a[j].token;
                if p > 0 {
                    assert(b[0] < b[p]);
                }
            }
        }
        lemma_splits_unique(a, end, 0);
    }
}

/// The index of the interval that holds `t`.
pub open spec fn range_index(a: Seq<AssignmentView>, t: u64) -> int {
    let b = boundaries(a, a.len());
    choose|i: int|
        0 <= i < b.len() && in_interval(previous_boundary(b, i), #[trigger] b[i], t)
}

/// The intervals cover the ring without overlap: every token lies in exactly one of them,
/// and is held by the nodes of that interval.
pub proof fn law_ranges_partition_the_ring(
    a: Seq<AssignmentView>,
    desired: u32,
    member_count: nat,
    t: u64,
)
    requires
        tokens_sorted(a),
        a.len() > 0,
    ensures
        ({
            let r = ranges(a, desired, member_count);
            let i = range_index(a, t);
            &&& 0 <= i < r.len()
            &&& in_interval(r[i].start_exclusive, r[i].end_inclusive, t)
            &&& forall|j: int|
                0 <= j < r.len() && in_interval(
                    (#[trigger] r[j]).start_exclusive,
                    r[j].end_inclusive,
                    t,
                ) ==> j == i
            &&& replicas(a, desired, member_count, t) == seq![r[i].owner_node_id]
                + r[i].follower_node_ids
            &&& a[owner_index(a, t)].node_id == r[i].owner_node_id
        }),
{
    let b = boundaries(a, a.len());
    let r = ranges(a, desired, member_count);
    lemma_boundaries(a, a.len());
    lemma_first_at_or_after(a, t);
    let f = first_at_or_after(a, t);
    let token = if f < a.len() {
        a[f].token
    } else {
        a[0].token
    };
    assert(b.contains(token));
    let w = choose|w: int| 0 <= w < b.len() && b[w] == token;
    assert(in_interval(previous_boundary(b, w), b[w], t)) by {
        if f < a.len() {
            assert(t <= b[w]);
            if w > 0 {
                assert(b[w - 1] < b[w]);
                let k = choose|k: int| 0 <= k < a.len() && (#[trigger] a[k]).token == b[w - 1];
                if k >= f {
                    assert(a[f].token <= a[k].token);
                }
                assert(a[k].token < t);
            } else if b.len() > 1 {
                assert(b[0] < b[b.len() - 1]);
            }
        } else {
            assert(a[a.len() - 1].token < t);
            if w > 0 {
                let k = choose|k: int| 0 <= k < a.len() && (#[trigger] a[k]).token == b[0];
                assert(a[0].token <= a[k].token);
                assert(b[0] < b[w]);
            }
            assert(w == 0);
            if b.len() > 1 {
                assert(b[0] < b[b.len() - 1]);
            }
        }
    }
    let i = range_index(a, t);
    assert(0 <= i < b.len() && in_interval(previous_boundary(b, i), b[i], t));
    assert forall|j: int|
        0 <= j < r.len() && in_interval(
            (#[trigger] r[j]).start_exclusive,
            r[j].end_inclusive,
            t,
        ) implies j == i by {
        lemma_intervals_disjoint(b, i, j, t);
    }
    lemma_interval_owner(a, t, i);
    lemma_replicas(a, desired, member_count, t);
    lemma_replicas(a, desired, member_count, b[i]);
    let nodes = replicas(a, desired, member_count, t);
    assert(nodes =~= seq![nodes[0]] + nodes.subrange(1, nodes.len() as int));
}

proof fn lemma_intervals_disjoint(b: Seq<u64>, i: int, j: int, t: u64)
    requires
        forall|p: int, q: int| 0 <= p < q < b.len() ==> #[trigger] b[p] < #[trigger] b[q],
        0 <= i < b.len(),
        0 <= j < b.len(),
        in_interval(previous_boundary(b, i), b[i], t),
        in_interval(previous_boundary(b, j), b[j], t),
    ensures
        i == j,
{
    if i != j {
        let low = if i < j {
            i
        } else {
            j
        };
        let high = if i < j {
            j
        } else {
            i
        };
        assert(b[low] < b[high]);
        assert(b[high - 1] < b[high]);
        if low < high - 1 {
            assert(b[low] < b[high - 1]);
        }
        if low > 0 {
            assert(b[low - 1] < b[low]);
        } else if high < b.len() - 1 {
            assert(b[high] < b[b.len() - 1]);
        }
    }
}

/// Strictly ascending tokens.
pub open spec fn strictly_ascending(b: Seq<u64>) -> bool {
    forall|i: int, j: int| 0 <= i < j < b.len() ==> #[trigger] b[i] < #[trigger] b[j]
}

/// Every token of the assignments is among `b`.
pub open spec fn refines(b: Seq<u64>, a: Seq<AssignmentView>) -> bool {
    forall|k: int| 0 <= k < a.len() ==> b.contains((#[trigger] a[k]).token)
}

/// Between neighbours of a list that holds every token, ownership does not change.
pub proof fn lemma_cut_owner(a: Seq<AssignmentView>, b: Seq<u64>, t: u64, i: int)
    requires
        tokens_sorted(a),
        a.len() > 0,
        strictly_ascending(b),
        refines(b, a),
        0 <= i < b.len(),
        in_interval(previous_boundary(b, i), b[i], t),
    ensures
        owner_index(a, t) == owner_index(a, b[i]),
{
    let end = b[i];
    lemma_first_at_or_after(a, end);
    let g = first_at_or_after(a, end);
    if t <= end {
        assert(splits(a, t, g)) by {
            assert forall|j: int| 0 <= j < g implies (#[trigger] a[j]).token < t by {
                assert(a[j].token < end);
                assert(b.contains(a[j].token));
                let p = choose|p: int| 0 <= p < b.len() && b[p] == a[j].token;
                if p >= i {
                    if p > i {
                        assert(b[i] < b[p]);
                    }
                    assert(false);
                }
                if p < i - 1 {
                    assert(b[p] < b[i - 1]);
                }
                assert(b[i - 1] < b[i]);
            }
        }
        lemma_splits_unique(a, t, g);
    } else {
        if i > 0 {
            assert(b[i - 1] < b[i]);
        }
        assert(i == 0);
        if b.len() > 1 {
            assert(b[0] < b[b.len() - 1]);
        }
        assert(t > b.last());
        assert(splits(a, t, a.len() as int)) by {
            assert forall|j: int| 0 <= j < a.len() implies (#[trigger] a[j]).token < t by {
                assert(b.contains(a[j].token));
                let p = choose|p: int| 0 <= p < b.len() && b[p] == a[j].token;
                if p < b.len() - 1 {
                    assert(b[p] < b[b.len() - 1]);
                }
            }
        }
        lemma_splits_unique(a, t, a.len() as int);
        assert(splits(a, end, 0)) by {
            assert forall|j: int| 0 <= j < a.len() implies (#[trigger] a[j]).token >= end by {
                assert(b.contains(a[j].token));
                let p = choose|p: int| 0 <= p < b.len() && b[p] == a[j].token;
                if p > 0 {
                    assert(b[0] < b[p]);
                }
            }
        }
        lemma_splits_unique(a, end, 0);
    }
}

/// Every token lies between two neighbours.
pub proof fn lemma_cut_index(b: Seq<u64>, t: u64) -> (i: int)
    requires
        strictly_ascending(b),
        b.len() > 0,
    ensures
        0 <= i < b.len(),
        in_interval(previous_boundary(b, i), b[i], t),
{
    if b.len() > 1 {
        assert(b[0] < b[b.len() - 1]);
    }
    if t <= b[0] || t > b.last() {
        0
    } else {
        lemma_cut_index_from(b, t, 0)
    }
}

proof fn lemma_cut_index_from(b: Seq<u64>, t: u64, k: int) -> (i: int)
    requires
        strictly_ascending(b),
        0 <= k < b.len(),
        b[k] < t <= b.last(),
    ensures
        0 < i < b.len(),
        b[i - 1] < t <= b[i],
    decreases b.len() - k,
{
    if t <= b[k + 1] {
        k + 1
    } else {
        lemma_cut_index_from(b, t, k + 1)
    }
}

} // verus!
