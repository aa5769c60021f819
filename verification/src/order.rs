//! Lexicographic order on byte strings, the order `str` comparison uses.

use vstd::prelude::*;

verus! {

/// `a` and `b` agree on their first `i` elements.
pub open spec fn agree_upto(a: Seq<u8>, b: Seq<u8>, i: int) -> bool {
    &&& 0 <= i <= a.len()
    &&& i <= b.len()
    &&& forall|j: int| 0 <= j < i ==> a[j] == b[j]
}

/// `a` sorts strictly before `b` when, after their longest common prefix, `a` ends
/// or has the smaller byte.
pub open spec fn lex_lt(a: Seq<u8>, b: Seq<u8>) -> bool {
    exists|i: int|
        #![trigger agree_upto(a, b, i)]
        agree_upto(a, b, i) && ((i == a.len() && i < b.len()) || (i < a.len() && i < b.len()
            && a[i] < b[i]))
}

pub open spec fn lex_le(a: Seq<u8>, b: Seq<u8>) -> bool {
    lex_lt(a, b) || a == b
}

/// The index of the first difference of two distinct sequences, or the shorter length.
pub open spec fn first_difference(a: Seq<u8>, b: Seq<u8>) -> int
    decreases a.len(),
{
    if a.len() == 0 || b.len() == 0 || a[0] != b[0] {
        0
    } else {
        1 + first_difference(a.drop_first(), b.drop_first())
    }
}

proof fn lemma_first_difference(a: Seq<u8>, b: Seq<u8>)
    ensures
        agree_upto(a, b, first_difference(a, b)),
        first_difference(a, b) == a.len() || first_difference(a, b) == b.len() || a[first_difference(a, b)]
            != b[first_difference(a, b)],
    decreases a.len(),
{
    if a.len() == 0 || b.len() == 0 || a[0] != b[0] {
    } else {
        lemma_first_difference(a.drop_first(), b.drop_first());
        let k = first_difference(a.drop_first(), b.drop_first());
        assert forall|j: int| 0 <= j < k + 1 implies a[j] == b[j] by {
            if j > 0 {
                assert(a[j] == a.drop_first()[j - 1]);
                assert(b[j] == b.drop_first()[j - 1]);
            }
        }
    }
}

/// The witness of `lex_lt` is the first difference.
proof fn lemma_lt_at_first_difference(a: Seq<u8>, b: Seq<u8>, i: int)
    requires
        agree_upto(a, b, i),
        (i == a.len() && i < b.len()) || (i < a.len() && i < b.len() && a[i] < b[i]),
    ensures
        i == first_difference(a, b),
{
    lemma_first_difference(a, b);
    let k = first_difference(a, b);
    if k < i {
        assert(a[k] == b[k]);
    } else if k > i {
        assert(a[i] == b[i]);
    }
}

/// `lex_lt` is a strict total order and `lex_le` its reflexive closure.
pub proof fn lemma_lex_order(a: Seq<u8>, b: Seq<u8>, c: Seq<u8>)
    ensures
        !lex_lt(a, a),
        lex_lt(a, b) ==> !lex_lt(b, a),
        lex_lt(a, b) || lex_lt(b, a) || a == b,
        lex_lt(a, b) && lex_lt(b, c) ==> lex_lt(a, c),
        lex_le(a, b) && lex_le(b, c) ==> lex_le(a, c),
{
    lemma_first_difference(a, b);
    let k = first_difference(a, b);
    if lex_lt(a, a) {
        let i = choose|i: int| agree_upto(a, a, i) && ((i == a.len() && i < a.len()) || (i < a.len()
            && i < a.len() && a[i] < a[i]));
    }
    if lex_lt(a, b) && lex_lt(b, a) {
        let i = choose|i: int| #![trigger agree_upto(a, b, i)] agree_upto(a, b, i) && ((i == a.len() && i < b.len()) || (i < a.len()
            && i < b.len() && a[i] < b[i]));
        let j = choose|j: int| #![trigger agree_upto(b, a, j)] agree_upto(b, a, j) && ((j == b.len() && j < a.len()) || (j < b.len()
            && j < a.len() && b[j] < a[j]));
        lemma_lt_at_first_difference(a, b, i);
        lemma_first_difference(b, a);
        lemma_lt_at_first_difference(b, a, j);
        lemma_first_difference_symmetric(a, b);
    }
    if !lex_lt(a, b) && !lex_lt(b, a) {
        if k == a.len() && k == b.len() {
            assert(a =~= b);
        } else if k == a.len() {
            assert(agree_upto(a, b, k));
        } else if k == b.len() {
            assert(agree_upto(b, a, k));
        } else if a[k] < b[k] {
            assert(agree_upto(a, b, k));
        } else {
            assert(agree_upto(b, a, k));
        }
    }
    if lex_lt(a, b) && lex_lt(b, c) {
        let i = choose|i: int| #![trigger agree_upto(a, b, i)] agree_upto(a, b, i) && ((i == a.len() && i < b.len()) || (i < a.len()
            && i < b.len() && a[i] < b[i]));
        let j = choose|j: int| #![trigger agree_upto(b, c, j)] agree_upto(b, c, j) && ((j == b.len() && j < c.len()) || (j < b.len()
            && j < c.len() && b[j] < c[j]));
        if i <= j {
            assert(agree_upto(a, c, i));
        } else {
            assert(agree_upto(a, c, j));
        }
    }
}

proof fn lemma_first_difference_symmetric(a: Seq<u8>, b: Seq<u8>)
    ensures
        first_difference(a, b) == first_difference(b, a),
    decreases a.len(),
{
    if a.len() == 0 || b.len() == 0 || a[0] != b[0] {
    } else {
        lemma_first_difference_symmetric(a.drop_first(), b.drop_first());
    }
}

/// Three-way comparison of byte strings: negative, zero or positive as `a` sorts
/// before, equal to or after `b`.
pub fn compare_bytes(a: &[u8], b: &[u8]) -> (r: i8)
    ensures
        r < 0 <==> lex_lt(a@, b@),
        r == 0 <==> a@ == b@,
        r > 0 <==> lex_lt(b@, a@),
{
    proof {
        lemma_lex_order(a@, b@, b@);
    }
    let mut i: usize = 0;
    while i < a.len() && i < b.len()
        invariant
            agree_upto(a@, b@, i as int),
        decreases a.len() - i,
    {
        if a[i] < b[i] {
            assert(agree_upto(a@, b@, i as int));
            return -1;
        } else if a[i] > b[i] {
            assert(agree_upto(b@, a@, i as int));
            return 1;
        }
        i = i + 1;
    }
    if a.len() < b.len() {
        assert(agree_upto(a@, b@, i as int));
        -1
    } else if b.len() < a.len() {
        assert(agree_upto(b@, a@, i as int));
        1
    } else {
        assert(a@ =~= b@);
        0
    }
}

} // verus!
