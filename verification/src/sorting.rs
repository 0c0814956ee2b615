//! Merge sort of integer pairs, and what sorting leaves unchanged.
use vstd::prelude::*;
use vstd::relations::sorted_by;
use vstd::seq_lib::lemma_multiset_commutative;

verus! {

broadcast use {vstd::seq_lib::group_to_multiset_ensures, vstd::multiset::group_multiset_axioms};

/// Order of pairs: by the first number, then by the second.
pub open spec fn pair_le(a: (u64, u64), b: (u64, u64)) -> bool {
    a.0 < b.0 || (a.0 == b.0 && a.1 <= b.1)
}

/// `pair_le` as a relation.
pub open spec fn pair_order() -> spec_fn((u64, u64), (u64, u64)) -> bool {
    |a: (u64, u64), b: (u64, u64)| pair_le(a, b)
}

fn merge_pairs(a: &Vec<(u64, u64)>, b: &Vec<(u64, u64)>) -> (r: Vec<(u64, u64)>)
    requires
        sorted_by(a@, pair_order()),
        sorted_by(b@, pair_order()),
    ensures
        sorted_by(r@, pair_order()),
        r@.to_multiset() == a@.to_multiset().add(b@.to_multiset()),
        r@.len() == a@.len() + b@.len(),
{
    let mut r: Vec<(u64, u64)> = Vec::new();
    let mut i: usize = 0;
    let mut j: usize = 0;
    proof {
        assert(a@.subrange(0, 0) =~= Seq::empty());
        assert(b@.subrange(0, 0) =~= Seq::empty());
        assert(r@.to_multiset() =~= a@.subrange(0, 0).to_multiset().add(
            b@.subrange(0, 0).to_multiset(),
        ));
    }
    while i < a.len() || j < b.len()
        invariant
            i <= a.len(),
            j <= b.len(),
            sorted_by(a@, pair_order()),
            sorted_by(b@, pair_order()),
            sorted_by(r@, pair_order()),
            r@.to_multiset() == a@.subrange(0, i as int).to_multiset().add(
                b@.subrange(0, j as int).to_multiset(),
            ),
            r@.len() == i + j,
            forall|k: int, l: int|
                0 <= k < r@.len() && i <= l < a@.len() ==> pair_le(#[trigger] r@[k], #[trigger] a@[l]),
            forall|k: int, l: int|
                0 <= k < r@.len() && j <= l < b@.len() ==> pair_le(#[trigger] r@[k], #[trigger] b@[l]),
        decreases a.len() - i + (b.len() - j),
    {
        let take_left = if i == a.len() {
            false
        } else if j == b.len() {
            true
        } else {
            a[i].0 < b[j].0 || (a[i].0 == b[j].0 && a[i].1 <= b[j].1)
        };
        if take_left {
            proof {
                assert(a@.subrange(0, i + 1) =~= a@.subrange(0, i as int).push(a@[i as int]));
                assert(r@.push(a@[i as int]).to_multiset() =~= a@.subrange(
                    0,
                    i + 1,
                ).to_multiset().add(b@.subrange(0, j as int).to_multiset()));
                assert forall|l: int| i < l < a@.len() implies pair_le(a@[i as int], #[trigger] a@[l]) by {
                    assert(pair_order()(a@[i as int], a@[l]));
                }
                assert forall|l: int| j <= l < b@.len() implies pair_le(a@[i as int], #[trigger] b@[l]) by {
                    if j < l {
                        assert(pair_order()(b@[j as int], b@[l]));
                    }
                }
            }
            r.push(a[i]);
            i = i + 1;
        } else {
            proof {
                assert(b@.subrange(0, j + 1) =~= b@.subrange(0, j as int).push(b@[j as int]));
                assert(r@.push(b@[j as int]).to_multiset() =~= a@.subrange(
                    0,
                    i as int,
                ).to_multiset().add(b@.subrange(0, j + 1).to_multiset()));
                assert forall|l: int| j < l < b@.len() implies pair_le(b@[j as int], #[trigger] b@[l]) by {
                    assert(pair_order()(b@[j as int], b@[l]));
                }
                assert forall|l: int| i <= l < a@.len() implies pair_le(b@[j as int], #[trigger] a@[l]) by {
                    if i < l {
                        assert(pair_order()(a@[i as int], a@[l]));
                    }
                }
            }
            r.push(b[j]);
            j = j + 1;
        }
    }
    proof {
        assert(a@.subrange(0, a@.len() as int) =~= a@);
        assert(b@.subrange(0, b@.len() as int) =~= b@);
    }
    r
}

/// The pairs of `v[low..high]` in ascending order.
pub fn sort_pairs(v: &Vec<(u64, u64)>, low: usize, high: usize) -> (r: Vec<(u64, u64)>)
    requires
        low <= high <= v.len(),
    ensures
        sorted_by(r@, pair_order()),
        r@.to_multiset() == v@.subrange(low as int, high as int).to_multiset(),
        r@.len() == high - low,
    decreases high - low,
{
    if high - low <= 1 {
        let mut r: Vec<(u64, u64)> = Vec::new();
        if low < high {
            r.push(v[low]);
        }
        proof {
            assert(r@ =~= v@.subrange(low as int, high as int));
        }
        return r;
    }
    let middle = low + (high - low) / 2;
    let left = sort_pairs(v, low, middle);
    let right = sort_pairs(v, middle, high);
    proof {
        assert(v@.subrange(low as int, high as int) =~= v@.subrange(low as int, middle as int)
            + v@.subrange(middle as int, high as int));
        lemma_multiset_commutative(
            v@.subrange(low as int, middle as int),
            v@.subrange(middle as int, high as int),
        );
    }
    merge_pairs(&left, &right)
}

/// Mapping two rearrangements of one another gives rearrangements of one another.
pub proof fn lemma_map_keeps_multiset<A, B>(a: Seq<A>, b: Seq<A>, f: spec_fn(A) -> B)
    requires
        a.to_multiset() == b.to_multiset(),
    ensures
        a.map_values(f).to_multiset() == b.map_values(f).to_multiset(),
    decreases a.len(),
{
    assert(a.to_multiset().len() == a.len());
    assert(b.to_multiset().len() == b.len());
    if a.len() == 0 {
        assert(a.map_values(f) =~= b.map_values(f));
    } else {
        let x = a.last();
        assert(a.contains(x));
        assert(a.to_multiset().count(x) > 0);
        assert(b.contains(x));
        let j = choose|j: int| 0 <= j < b.len() && b[j] == x;
        let a2 = a.drop_last();
        let b2 = b.remove(j);
        assert(a2 =~= a.remove(a.len() - 1));
        assert(a2.to_multiset() =~= a.to_multiset().remove(x));
        assert(b2.to_multiset() =~= b.to_multiset().remove(x));
        lemma_map_keeps_multiset(a2, b2, f);
        assert(a.map_values(f) =~= a2.map_values(f).push(f(x)));
        assert(b.map_values(f).remove(j) =~= b2.map_values(f));
        assert(b.map_values(f)[j] == f(x));
        assert(b2.map_values(f).to_multiset() =~= b.map_values(f).to_multiset().remove(f(x)));
        assert(b.map_values(f).contains(f(x)));
        assert(b.map_values(f).to_multiset().count(f(x)) > 0);
        assert(b.map_values(f).to_multiset() =~= b2.map_values(f).to_multiset().insert(f(x)));
        assert(a.map_values(f).to_multiset() =~= a2.map_values(f).to_multiset().insert(f(x)));
    }
}

} // verus!
