//! Merge sort by a total preorder: dictionary entries into dictionary order,
//! words into byte order, and n-gram keys into numeric order.

use vstd::prelude::*;
use vstd::utf8::encode_utf8;
use crate::dictionary::{entries_sorted, entry_le, entry_le_exec, lemma_entry_order, DictionaryEntry};
use crate::order::{compare_bytes, lemma_lex_order, lex_le, lex_lt};

verus! {

broadcast use vstd::seq_lib::group_to_multiset_ensures;

/// A total preorder on values, with its comparison.
pub trait Ordered: Sized {
    spec fn le(self, other: Self) -> bool;

    proof fn lemma_order(a: Self, b: Self, c: Self)
        ensures
            Self::le(a, a),
            Self::le(a, b) || Self::le(b, a),
            Self::le(a, b) && Self::le(b, c) ==> Self::le(a, c),
    ;

    fn le_exec(&self, other: &Self) -> (r: bool)
        ensures
            r == Self::le(*self, *other),
    ;
}

impl Ordered for DictionaryEntry {
    open spec fn le(self, other: Self) -> bool {
        entry_le(self, other)
    }

    proof fn lemma_order(a: Self, b: Self, c: Self) {
        lemma_entry_order(a, b, c);
    }

    fn le_exec(&self, other: &Self) -> (r: bool) {
        entry_le_exec(self, other)
    }
}

impl Ordered for String {
    open spec fn le(self, other: Self) -> bool {
        lex_le(encode_utf8(self@), encode_utf8(other@))
    }

    proof fn lemma_order(a: Self, b: Self, c: Self) {
        lemma_lex_order(encode_utf8(a@), encode_utf8(b@), encode_utf8(c@));
        lemma_lex_order(encode_utf8(b@), encode_utf8(a@), encode_utf8(c@));
        lemma_lex_order(encode_utf8(a@), encode_utf8(c@), encode_utf8(b@));
    }

    fn le_exec(&self, other: &Self) -> (r: bool) {
        compare_bytes(self.as_str().as_bytes(), other.as_str().as_bytes()) <= 0
    }
}

impl Ordered for u128 {
    open spec fn le(self, other: Self) -> bool {
        self <= other
    }

    proof fn lemma_order(a: Self, b: Self, c: Self) {
    }

    fn le_exec(&self, other: &Self) -> (r: bool) {
        *self <= *other
    }
}

/// `s` is in order.
pub open spec fn sorted_by<T: Ordered>(s: Seq<T>) -> bool {
    forall|i: int, j: int| 0 <= i < j < s.len() ==> #[trigger] T::le(s[i], s[j])
}

/// `v` in reverse order.
fn reversed<T>(v: Vec<T>) -> (r: Vec<T>)
    ensures
        r@.len() == v@.len(),
        forall|i: int| 0 <= i < v@.len() ==> r@[i] == v@[v@.len() - 1 - i],
        r@.to_multiset() == v@.to_multiset(),
{
    let ghost orig = v@;
    let mut v = v;
    let mut out: Vec<T> = Vec::new();
    while v.len() > 0
        invariant
            v@ == orig.take(v@.len() as int),
            out@.len() + v@.len() == orig.len(),
            forall|i: int| 0 <= i < out@.len() ==> out@[i] == orig[orig.len() - 1 - i],
            out@.to_multiset().add(v@.to_multiset()) == orig.to_multiset(),
        decreases v@.len(),
    {
        let ghost before = v@;
        let x = v.pop().unwrap();
        proof {
            assert(before == v@.push(x));
        }
        out.push(x);
    }
    proof {
        assert(v@.to_multiset() =~= vstd::multiset::Multiset::empty());
    }
    out
}

/// Merges two sorted runs into one sorted run holding the elements of both.
fn merge<T: Ordered>(left: Vec<T>, right: Vec<T>) -> (r: Vec<T>)
    requires
        sorted_by(left@),
        sorted_by(right@),
    ensures
        sorted_by(r@),
        r@.to_multiset() == left@.to_multiset().add(right@.to_multiset()),
{
    let mut l = reversed(left);
    let mut r = reversed(right);
    let mut out: Vec<T> = Vec::new();
    let ghost total = left@.to_multiset().add(right@.to_multiset());
    while l.len() > 0 || r.len() > 0
        invariant
            forall|i: int, j: int| 0 <= i < j < l@.len() ==> #[trigger] T::le(l@[j], l@[i]),
            forall|i: int, j: int| 0 <= i < j < r@.len() ==> #[trigger] T::le(r@[j], r@[i]),
            sorted_by(out@),
            forall|i: int, j: int|
                0 <= i < out@.len() && 0 <= j < l@.len() ==> #[trigger] T::le(out@[i], l@[j]),
            forall|i: int, j: int|
                0 <= i < out@.len() && 0 <= j < r@.len() ==> #[trigger] T::le(out@[i], r@[j]),
            out@.to_multiset().add(l@.to_multiset()).add(r@.to_multiset()) == total,
        decreases l@.len() + r@.len(),
    {
        let take_left = if r.len() == 0 {
            true
        } else if l.len() == 0 {
            false
        } else {
            l[l.len() - 1].le_exec(&r[r.len() - 1])
        };
        let ghost lb = l@;
        let ghost rb = r@;
        let ghost ob = out@;
        let x = if take_left {
            l.pop().unwrap()
        } else {
            r.pop().unwrap()
        };
        proof {
            if take_left {
                assert(lb == l@.push(x));
                assert forall|j: int| 0 <= j < l@.len() implies #[trigger] T::le(x, l@[j]) by {
                    assert(l@[j] == lb[j]);
                }
                assert forall|j: int| 0 <= j < r@.len() implies #[trigger] T::le(x, r@[j]) by {
                    if j < r@.len() - 1 {
                        T::lemma_order(x, r@[r@.len() - 1], r@[j]);
                    }
                    T::lemma_order(x, r@[j], r@[j]);
                }
            } else {
                assert(rb == r@.push(x));
                T::lemma_order(lb[lb.len() - 1], x, x);
                assert forall|j: int| 0 <= j < r@.len() implies #[trigger] T::le(x, r@[j]) by {
                    assert(r@[j] == rb[j]);
                }
                assert forall|j: int| 0 <= j < l@.len() implies #[trigger] T::le(x, l@[j]) by {
                    T::lemma_order(x, lb[lb.len() - 1], l@[j]);
                }
            }
        }
        out.push(x);
        proof {
            assert forall|i: int, j: int| 0 <= i < j < out@.len() implies #[trigger] T::le(
                out@[i],
                out@[j],
            ) by {
                if j == out@.len() - 1 {
                    assert(out@[i] == ob[i]);
                }
            }
            assert forall|i: int, j: int|
                0 <= i < out@.len() && 0 <= j < l@.len() implies #[trigger] T::le(
                out@[i],
                l@[j],
            ) by {
                if i < out@.len() - 1 {
                    assert(out@[i] == ob[i]);
                    if take_left {
                        assert(l@[j] == lb[j]);
                    } else {
                        assert(l@[j] == lb[j]);
                    }
                }
            }
            assert forall|i: int, j: int|
                0 <= i < out@.len() && 0 <= j < r@.len() implies #[trigger] T::le(
                out@[i],
                r@[j],
            ) by {
                if i < out@.len() - 1 {
                    assert(out@[i] == ob[i]);
                    assert(r@[j] == rb[j]);
                }
            }
        }
    }
    proof {
        assert(l@.to_multiset() =~= vstd::multiset::Multiset::empty());
        assert(r@.to_multiset() =~= vstd::multiset::Multiset::empty());
        assert(out@.to_multiset().add(l@.to_multiset()).add(r@.to_multiset()) =~= out@.to_multiset());
    }
    out
}

/// Sorts `v` by its order; equal values may come out in any order.
pub fn sort_by_order<T: Ordered>(v: Vec<T>) -> (r: Vec<T>)
    ensures
        sorted_by(r@),
        r@.to_multiset() == v@.to_multiset(),
    decreases v@.len(),
{
    let n = v.len();
    if n <= 1 {
        return v;
    }
    let mut left = v;
    let ghost whole = left@;
    let right = left.split_off(n / 2);
    proof {
        assert(whole =~= left@ + right@);
        vstd::seq_lib::lemma_multiset_commutative(left@, right@);
    }
    let l = sort_by_order(left);
    let r = sort_by_order(right);
    merge(l, r)
}

/// Sorts `v` into dictionary order; equal keys may come out in any order.
pub fn sort_entries(v: Vec<DictionaryEntry>) -> (r: Vec<DictionaryEntry>)
    ensures
        entries_sorted(r@),
        r@.to_multiset() == v@.to_multiset(),
{
    let r = sort_by_order(v);
    proof {
        assert forall|i: int, j: int| 0 <= i < j < r@.len() implies #[trigger] entry_le(r@[i], r@[j]) by {
            assert(<DictionaryEntry as Ordered>::le(r@[i], r@[j]));
        }
    }
    r
}

} // verus!
