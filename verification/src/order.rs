//! Lexicographic order on sequences of integers.
//!
//! Every ordered key of the library is ranked by such a sequence, so that the
//! order of byte strings, of texts and of composite keys is proved once.
use vstd::prelude::*;

verus! {

/// `a` and `b` agree up to `k`, where `a` either ends or holds the smaller number.
pub open spec fn differs_at(a: Seq<int>, b: Seq<int>, k: int) -> bool {
    &&& 0 <= k <= a.len()
    &&& k < b.len()
    &&& forall|j: int| 0 <= j < k ==> a[j] == b[j]
    &&& k < a.len() ==> a[k] < b[k]
}

/// Strict lexicographic order.
pub open spec fn lex_lt(a: Seq<int>, b: Seq<int>) -> bool {
    exists|k: int| differs_at(a, b, k)
}

/// Reflexive closure of `lex_lt`.
pub open spec fn lex_le(a: Seq<int>, b: Seq<int>) -> bool {
    a == b || lex_lt(a, b)
}

pub proof fn lemma_lex_irreflexive(a: Seq<int>)
    ensures
        !lex_lt(a, a),
{
}

pub proof fn lemma_lex_asymmetric(a: Seq<int>, b: Seq<int>)
    requires
        lex_lt(a, b),
    ensures
        !lex_lt(b, a),
        a != b,
{
    let k = choose|k: int| differs_at(a, b, k);
    if lex_lt(b, a) {
        let l = choose|l: int| differs_at(b, a, l);
        assert(differs_at(b, a, l));
        if k < l {
            assert(b[k] == a[k]);
        } else if l < k {
            assert(a[l] == b[l]);
        }
        assert(false);
    }
    if a == b {
        lemma_lex_irreflexive(a);
    }
}

pub proof fn lemma_lex_transitive(a: Seq<int>, b: Seq<int>, c: Seq<int>)
    requires
        lex_lt(a, b),
        lex_lt(b, c),
    ensures
        lex_lt(a, c),
{
    let k = choose|k: int| differs_at(a, b, k);
    let l = choose|l: int| differs_at(b, c, l);
    if k < l {
        assert(b[k] == c[k]);
        assert(differs_at(a, c, k));
    } else {
        assert(differs_at(a, c, l)) by {
            assert forall|j: int| 0 <= j < l implies a[j] == c[j] by {
                assert(a[j] == b[j]);
                assert(b[j] == c[j]);
            }
            if l < k {
                assert(a[l] == b[l]);
            }
        }
    }
}

proof fn lemma_lex_total_from(a: Seq<int>, b: Seq<int>, k: int)
    requires
        0 <= k <= a.len(),
        k <= b.len(),
        forall|j: int| 0 <= j < k ==> a[j] == b[j],
    ensures
        lex_lt(a, b) || a == b || lex_lt(b, a),
    decreases a.len() - k,
{
    if k == a.len() {
        if k == b.len() {
            assert(a =~= b);
        } else {
            assert(differs_at(a, b, k));
        }
    } else if k == b.len() {
        assert(differs_at(b, a, k));
    } else if a[k] < b[k] {
        assert(differs_at(a, b, k));
    } else if b[k] < a[k] {
        assert(differs_at(b, a, k));
    } else {
        lemma_lex_total_from(a, b, k + 1);
    }
}

/// Any two sequences are equal or one of them comes first.
pub proof fn lemma_lex_total(a: Seq<int>, b: Seq<int>)
    ensures
        lex_lt(a, b) || a == b || lex_lt(b, a),
{
    lemma_lex_total_from(a, b, 0);
}

/// The bytes of `s` as integers.
pub open spec fn byte_rank(s: Seq<u8>) -> Seq<int> {
    Seq::new(s.len(), |i: int| s[i] as int)
}

pub proof fn lemma_byte_rank_injective(a: Seq<u8>, b: Seq<u8>)
    requires
        byte_rank(a) == byte_rank(b),
    ensures
        a == b,
{
    assert(a.len() == byte_rank(a).len());
    assert(b.len() == byte_rank(b).len());
    assert forall|i: int| 0 <= i < a.len() implies a[i] == b[i] by {
        assert(byte_rank(a)[i] == a[i] as int);
        assert(byte_rank(b)[i] == b[i] as int);
    }
    assert(a =~= b);
}

/// Outcome of comparing two ordered values.
#[derive(Clone, Copy, Debug, PartialEq, Eq, Structural)]
pub enum Position {
    Before,
    Same,
    After,
}

/// The position of `a` relative to `b` in lexicographic order.
pub open spec fn lex_position(a: Seq<int>, b: Seq<int>) -> Position {
    if a == b {
        Position::Same
    } else if lex_lt(a, b) {
        Position::Before
    } else {
        Position::After
    }
}

/// Compares two byte strings lexicographically.
pub fn order_bytes(a: &[u8], b: &[u8]) -> (r: Position)
    ensures
        r == lex_position(byte_rank(a@), byte_rank(b@)),
{
    let ghost ra = byte_rank(a@);
    let ghost rb = byte_rank(b@);
    let mut i: usize = 0;
    while i < a.len() && i < b.len()
        invariant
            i <= a.len(),
            i <= b.len(),
            ra == byte_rank(a@),
            rb == byte_rank(b@),
            forall|j: int| 0 <= j < i ==> a@[j] == b@[j],
        decreases a.len() - i,
    {
        if a[i] < b[i] {
            proof {
                assert(differs_at(ra, rb, i as int));
                lemma_lex_asymmetric(ra, rb);
            }
            return Position::Before;
        }
        if b[i] < a[i] {
            proof {
                assert(differs_at(rb, ra, i as int));
                lemma_lex_asymmetric(rb, ra);
            }
            return Position::After;
        }
        i = i + 1;
    }
    if i < b.len() {
        proof {
            assert(differs_at(ra, rb, i as int));
            lemma_lex_asymmetric(ra, rb);
        }
        Position::Before
    } else if i < a.len() {
        proof {
            assert(differs_at(rb, ra, i as int));
            lemma_lex_asymmetric(rb, ra);
        }
        Position::After
    } else {
        proof {
            assert(a@ =~= b@);
        }
        Position::Same
    }
}

/// Tells whether two byte strings are equal.
pub fn same_bytes(a: &[u8], b: &[u8]) -> (r: bool)
    ensures
        r == (a@ == b@),
{
    if a.len() != b.len() {
        return false;
    }
    let mut i: usize = 0;
    while i < a.len()
        invariant
            i <= a.len(),
            a.len() == b.len(),
            forall|j: int| 0 <= j < i ==> a@[j] == b@[j],
        decreases a.len() - i,
    {
        if a[i] != b[i] {
            return false;
        }
        i = i + 1;
    }
    proof {
        assert(a@ =~= b@);
    }
    true
}

} // verus!
