//! Lists of names.
use crate::order::{
    lemma_lex_asymmetric, lemma_lex_total, lemma_lex_transitive, lex_le, Position,
};
use crate::reconcile::{lemma_sifted_prefix, sifted};
use crate::text::{lemma_text_rank_injective, order_text, same_text, text_rank, texts};
use vstd::prelude::*;
use vstd::relations::{sorted_by, total_ordering};
use vstd::seq_lib::lemma_sorted_unique;

verus! {

/// Order of texts: by their bytes.
pub open spec fn text_le(a: Seq<char>, b: Seq<char>) -> bool {
    lex_le(text_rank(a), text_rank(b))
}

/// `text_le` as a relation.
pub open spec fn text_order() -> spec_fn(Seq<char>, Seq<char>) -> bool {
    |a: Seq<char>, b: Seq<char>| text_le(a, b)
}

pub proof fn lemma_text_order()
    ensures
        total_ordering(text_order()),
{
    let r = text_order();
    assert forall|a: Seq<char>, b: Seq<char>| #[trigger] r(a, b) && #[trigger] r(b, a) implies a
        == b by {
        if text_rank(a) == text_rank(b) {
            lemma_text_rank_injective(a, b);
        } else {
            lemma_lex_asymmetric(text_rank(a), text_rank(b));
        }
    }
    assert forall|a: Seq<char>, b: Seq<char>, c: Seq<char>| #[trigger]
        r(a, b) && #[trigger] r(b, c) implies r(a, c) by {
        if text_rank(a) != text_rank(b) && text_rank(b) != text_rank(c) {
            lemma_lex_transitive(text_rank(a), text_rank(b), text_rank(c));
        }
    }
    assert forall|a: Seq<char>, b: Seq<char>| #[trigger] r(a, b) || #[trigger] r(b, a) by {
        lemma_lex_total(text_rank(a), text_rank(b));
    }
}

fn not_after(a: &String, b: &String) -> (r: bool)
    ensures
        r == text_le(a@, b@),
{
    match order_text(a.as_str(), b.as_str()) {
        Position::After => false,
        _ => true,
    }
}

/// Sorts names.
pub fn sort_texts(list: &Vec<String>) -> (r: Vec<String>)
    ensures
        texts(r@) == texts(list@).sort_by(text_order()),
{
    broadcast use {vstd::seq_lib::group_to_multiset_ensures, vstd::multiset::group_multiset_axioms};

    proof {
        lemma_text_order();
    }
    let ghost all = texts(list@);
    let mut r: Vec<String> = Vec::new();
    let mut n: usize = 0;
    proof {
        assert(texts(r@) =~= all.subrange(0, 0));
    }
    while n < list.len()
        invariant
            n <= list.len(),
            all == texts(list@),
            r@.len() == n,
            total_ordering(text_order()),
            sorted_by(texts(r@), text_order()),
            texts(r@).to_multiset() == all.subrange(0, n as int).to_multiset(),
        decreases list.len() - n,
    {
        broadcast use {
            vstd::seq_lib::group_to_multiset_ensures,
            vstd::multiset::group_multiset_axioms,
        };

        let ghost held = texts(r@);
        let ghost x = list@[n as int]@;
        let mut at: usize = r.len();
        while at > 0 && !not_after(&r[at - 1], &list[n])
            invariant
                at <= r.len(),
                n < list.len(),
                held == texts(r@),
                x == list@[n as int]@,
                total_ordering(text_order()),
                forall|j: int| at <= j < held.len() ==> text_le(x, #[trigger] held[j]),
            decreases at,
        {
            proof {
                let y = held[at - 1];
                assert(y == r@[at - 1]@);
                assert(text_order()(y, x) || text_order()(x, y));
            }
            at = at - 1;
        }
        proof {
            if at > 0 {
                assert(held[at - 1] == r@[at - 1]@);
                assert(text_le(held[at - 1], x));
                assert forall|j: int| 0 <= j < at implies text_le(#[trigger] held[j], x) by {
                    if j < at - 1 {
                        assert(text_order()(held[j], held[at - 1]));
                        assert(text_order()(held[at - 1], x));
                        assert(text_order()(held[j], x));
                    }
                }
            }
        }
        r.insert(at, list[n].clone());
        proof {
            let now = texts(r@);
            assert(now =~= held.insert(at as int, x));
            assert(sorted_by(now, text_order())) by {
                assert forall|i: int, j: int| 0 <= i < j < now.len() implies #[trigger] text_order()(
                    now[i],
                    now[j],
                ) by {
                    let i2 = if i < at {
                        i
                    } else {
                        i - 1
                    };
                    let j2 = if j < at {
                        j
                    } else {
                        j - 1
                    };
                    if i != at && j != at {
                        assert(text_order()(held[i2], held[j2]));
                    } else if i == at {
                        assert(text_le(x, held[j2]));
                    } else {
                        assert(text_le(held[i2], x));
                    }
                }
            }
            assert(now.remove(at as int) =~= held);
            assert(now[at as int] == x);
            assert(held.to_multiset() =~= now.to_multiset().remove(x));
            assert(now.contains(x));
            assert(now.to_multiset() =~= held.to_multiset().insert(x));
            assert(all.subrange(0, n + 1) =~= all.subrange(0, n as int).push(x));
        }
        n = n + 1;
    }
    proof {
        assert(all.subrange(0, all.len() as int) =~= all);
        all.lemma_sort_by_ensures(text_order());
        lemma_sorted_unique(texts(r@), all.sort_by(text_order()), text_order());
    }
    r
}

/// Every name but this one.
pub open spec fn other_than(name: Seq<char>) -> spec_fn(Seq<char>) -> bool {
    |x: Seq<char>| x != name
}

/// A list without a name.
pub open spec fn without(list: Seq<Seq<char>>, name: Seq<char>) -> Seq<Seq<char>> {
    sifted(list, other_than(name))
}

/// Copies a list without a name.
pub fn drop_text(list: &Vec<String>, name: &str) -> (r: Vec<String>)
    ensures
        texts(r@) == without(texts(list@), name@),
{
    let ghost s = texts(list@);
    let ghost p = other_than(name@);
    let mut r: Vec<String> = Vec::new();
    let mut i: usize = 0;
    proof {
        assert(s.subrange(0, 0) =~= Seq::empty());
        assert(texts(r@) =~= Seq::empty());
    }
    while i < list.len()
        invariant
            s == texts(list@),
            p == other_than(name@),
            i <= list@.len(),
            texts(r@) == sifted(s.subrange(0, i as int), p),
        decreases list.len() - i,
    {
        proof {
            assert(s[i as int] == list@[i as int]@);
            lemma_sifted_prefix(s, i as int, p);
        }
        if !same_text(list[i].as_str(), name) {
            let ghost before = r@;
            r.push(list[i].clone());
            proof {
                assert(texts(r@) =~= texts(before).push(s[i as int]));
            }
        }
        i = i + 1;
    }
    proof {
        assert(s.subrange(0, s.len() as int) =~= s);
    }
    r
}

/// A sorted list with a name in it, once.
pub open spec fn listed(list: Seq<Seq<char>>, name: Seq<char>) -> Seq<Seq<char>> {
    if list.contains(name) {
        list
    } else {
        list.push(name).sort_by(text_order())
    }
}

/// Puts a name into a sorted list, once, and tells whether it was new there.
pub fn list_text(list: &mut Vec<String>, name: &String) -> (added: bool)
    ensures
        texts(final(list)@) == listed(texts(old(list)@), name@),
        added == !texts(old(list)@).contains(name@),
{
    if crate::text::list_has(list, name.as_str()) {
        return false;
    }
    let ghost before = texts(list@);
    list.push(name.clone());
    proof {
        assert(texts(list@) =~= before.push(name@));
    }
    *list = sort_texts(list);
    true
}

} // verus!
