//! Counting equal values: in a sorted sequence the copies of a value sit side
//! by side, so one pass over it finds each distinct value and how often it
//! occurs.

use vstd::prelude::*;
use vstd::utf8::encode_utf8;
use crate::order::lemma_lex_order;
use crate::sort::{sorted_by, Ordered};
use crate::text::lemma_encode_injective;

verus! {

broadcast use vstd::seq_lib::group_to_multiset_ensures;

/// How often `x` occurs in `s`.
pub open spec fn count_in<A>(s: Seq<A>, x: A) -> nat
    decreases s.len(),
{
    if s.len() == 0 {
        0
    } else {
        count_in(s.drop_last(), x) + if s.last() == x {
            1nat
        } else {
            0nat
        }
    }
}

pub proof fn lemma_count_concat<A>(a: Seq<A>, b: Seq<A>, x: A)
    ensures
        count_in(a + b, x) == count_in(a, x) + count_in(b, x),
    decreases b.len(),
{
    if b.len() == 0 {
        assert(a + b =~= a);
    } else {
        lemma_count_concat(a, b.drop_last(), x);
        assert((a + b).drop_last() =~= a + b.drop_last());
    }
}

pub proof fn lemma_count_none<A>(s: Seq<A>, x: A)
    requires
        forall|k: int| 0 <= k < s.len() ==> s[k] != x,
    ensures
        count_in(s, x) == 0,
    decreases s.len(),
{
    if s.len() > 0 {
        lemma_count_none(s.drop_last(), x);
    }
}

pub proof fn lemma_count_all<A>(s: Seq<A>, x: A)
    requires
        forall|k: int| 0 <= k < s.len() ==> s[k] == x,
    ensures
        count_in(s, x) == s.len(),
    decreases s.len(),
{
    if s.len() > 0 {
        lemma_count_all(s.drop_last(), x);
    }
}

/// `count_in` counts what the multiset of `s` counts.
pub proof fn lemma_count_multiset<A>(s: Seq<A>, x: A)
    ensures
        count_in(s, x) == s.to_multiset().count(x),
    decreases s.len(),
{
    if s.len() > 0 {
        lemma_count_multiset(s.drop_last(), x);
        assert(s.drop_last().push(s.last()) =~= s);
    }
}

/// A value of `s` occurs in it.
pub proof fn lemma_count_member<A>(s: Seq<A>, i: int)
    requires
        0 <= i < s.len(),
    ensures
        count_in(s, s[i]) >= 1,
{
    lemma_count_concat(s.take(i), s.skip(i), s[i]);
    assert(s.take(i) + s.skip(i) =~= s);
    lemma_count_concat(seq![s[i]], s.skip(i + 1), s[i]);
    assert(seq![s[i]] + s.skip(i + 1) =~= s.skip(i));
    assert(seq![s[i]].drop_last() =~= Seq::<A>::empty());
}

/// A value that occurs in `s` is one of its elements.
pub proof fn lemma_count_witness<A>(s: Seq<A>, x: A)
    requires
        count_in(s, x) >= 1,
    ensures
        exists|i: int| 0 <= i < s.len() && s[i] == x,
{
    if forall|k: int| 0 <= k < s.len() ==> s[k] != x {
        lemma_count_none(s, x);
    }
}

/// An order in which values that sort both ways are the same value.
pub trait StrictOrdered: Ordered + View {
    proof fn lemma_antisymmetric(a: Self, b: Self)
        requires
            Self::le(a, b),
            Self::le(b, a),
        ensures
            a@ == b@,
    ;

    proof fn lemma_same_order(a: Self, b: Self, c: Self)
        requires
            a@ == b@,
        ensures
            Self::le(a, c) == Self::le(b, c),
            Self::le(c, a) == Self::le(c, b),
    ;
}

impl StrictOrdered for String {
    proof fn lemma_antisymmetric(a: Self, b: Self) {
        lemma_lex_order(encode_utf8(a@), encode_utf8(b@), encode_utf8(b@));
        lemma_encode_injective(a@, b@);
    }

    proof fn lemma_same_order(a: Self, b: Self, c: Self) {
    }
}

impl StrictOrdered for u128 {
    proof fn lemma_antisymmetric(a: Self, b: Self) {
    }

    proof fn lemma_same_order(a: Self, b: Self, c: Self) {
    }
}

pub open spec fn views<T: View>(s: Seq<T>) -> Seq<T::V> {
    s.map_values(|x: T| x@)
}

/// Some run of `runs` starts with the value `x`.
pub open spec fn in_runs<T: View>(s: Seq<T>, runs: Seq<(usize, usize)>, x: T::V) -> bool {
    exists|k: int| 0 <= k < runs.len() && s[(#[trigger] runs[k]).0 as int]@ == x
}

/// The runs of `s`, each by its first position and its length, describe the
/// distinct values of `s`: in increasing order, each with how often it occurs,
/// and none left out.
pub open spec fn runs_describe<T: StrictOrdered>(s: Seq<T>, runs: Seq<(usize, usize)>) -> bool {
    &&& forall|k: int|
        0 <= k < runs.len() ==> {
            let (start, len) = #[trigger] runs[k];
            &&& start < s.len()
            &&& len >= 1
            &&& len == count_in(views(s), s[start as int]@)
        }
    &&& forall|k1: int, k2: int|
        0 <= k1 < k2 < runs.len() ==> T::le(s[(#[trigger] runs[k1]).0 as int], s[(#[trigger] runs[k2]).0 as int])
            && s[runs[k1].0 as int]@ != s[runs[k2].0 as int]@
    &&& forall|i: int| 0 <= i < s.len() ==> #[trigger] in_runs(s, runs, s[i]@)
}

fn same<T: StrictOrdered>(a: &T, b: &T) -> (r: bool)
    ensures
        r == (a@ == b@),
{
    let r = a.le_exec(b) && b.le_exec(a);
    proof {
        T::lemma_order(*a, *b, *b);
        T::lemma_order(*b, *a, *a);
        if a.le(*b) && b.le(*a) {
            T::lemma_antisymmetric(*a, *b);
        }
        if a@ == b@ {
            T::lemma_same_order(*a, *b, *b);
        }
    }
    r
}

/// In a sorted sequence whose run of `x = s[i]` is `[i, j)`, with a different
/// value just before `i` and at `j`, `x` occurs `j - i` times.
proof fn lemma_run_count<T: StrictOrdered>(s: Seq<T>, i: int, j: int)
    requires
        sorted_by(s),
        0 <= i < j <= s.len(),
        i > 0 ==> s[i - 1]@ != s[i]@,
        j < s.len() ==> s[j]@ != s[i]@,
        forall|k: int| i <= k < j ==> (#[trigger] s[k])@ == s[i]@,
    ensures
        count_in(views(s), s[i]@) == j - i,
{
    let v = views(s);
    let x = s[i]@;
    assert forall|k: int| 0 <= k < i implies v.take(i)[k] != x by {
        if s[k]@ == x {
            assert(T::le(s[k], s[i - 1]));
            T::lemma_same_order(s[k], s[i], s[i - 1]);
            assert(T::le(s[i - 1], s[i]));
            T::lemma_antisymmetric(s[i - 1], s[i]);
        }
    }
    assert forall|k: int| 0 <= k < s.len() - j implies v.skip(j)[k] != x by {
        let q = j + k;
        if s[q]@ == x {
            if q > j {
                assert(T::le(s[j], s[q]));
            }
            T::lemma_order(s[j], s[j], s[j]);
            T::lemma_same_order(s[q], s[i], s[j]);
            assert(T::le(s[i], s[j]));
            T::lemma_antisymmetric(s[j], s[i]);
        }
    }
    assert forall|k: int| 0 <= k < j - i implies v.subrange(i, j)[k] == x by {
        assert(s[i + k]@ == x);
    }
    lemma_count_none(v.take(i), x);
    lemma_count_all(v.subrange(i, j), x);
    lemma_count_none(v.skip(j), x);
    lemma_count_concat(v.take(i), v.subrange(i, j), x);
    lemma_count_concat(v.take(i) + v.subrange(i, j), v.skip(j), x);
    assert(v.take(i) + v.subrange(i, j) + v.skip(j) =~= v);
}

/// `out` holds the runs of `s` before position `i`, which starts a run.
pub open spec fn runs_upto<T: StrictOrdered>(s: Seq<T>, out: Seq<(usize, usize)>, i: int) -> bool {
    &&& 0 <= i <= s.len()
    &&& i < s.len() && i > 0 ==> s[i - 1]@ != s[i]@
    &&& forall|k: int| 0 <= k < out.len() ==> (#[trigger] out[k]).0 < i
    &&& forall|k: int|
        0 <= k < out.len() ==> {
            let (start, len) = #[trigger] out[k];
            &&& start < s.len()
            &&& len >= 1
            &&& len == count_in(views(s), s[start as int]@)
        }
    &&& forall|k1: int, k2: int|
        0 <= k1 < k2 < out.len() ==> T::le(s[(#[trigger] out[k1]).0 as int], s[(#[trigger] out[k2]).0 as int])
            && s[out[k1].0 as int]@ != s[out[k2].0 as int]@
    &&& forall|q: int| 0 <= q < i ==> #[trigger] in_runs(s, out, s[q]@)
    &&& out.len() > 0 ==> i == s.len() || (T::le(s[out.last().0 as int], s[i]) && s[out.last().0 as int]@ != s[i]@)
}

proof fn lemma_runs_step<T: StrictOrdered>(s: Seq<T>, out: Seq<(usize, usize)>, i: int, j: int)
    requires
        sorted_by(s),
        runs_upto(s, out, i),
        i < j <= s.len(),
        j < s.len() ==> s[j]@ != s[i]@,
        forall|k: int| i <= k < j ==> (#[trigger] s[k])@ == s[i]@,
        i <= usize::MAX,
        j - i <= usize::MAX,
    ensures
        runs_upto(s, out.push((i as usize, (j - i) as usize)), j),
{
    lemma_run_count(s, i, j);
    let o2 = out.push((i as usize, (j - i) as usize));
    assert forall|k1: int, k2: int| 0 <= k1 < k2 < o2.len() implies T::le(
        s[(#[trigger] o2[k1]).0 as int],
        s[(#[trigger] o2[k2]).0 as int],
    ) && s[o2[k1].0 as int]@ != s[o2[k2].0 as int]@ by {
        if k2 == out.len() {
            assert(o2[k1] == out[k1]);
            if k1 < out.len() - 1 {
                assert(T::le(s[out[k1].0 as int], s[out.last().0 as int]));
                T::lemma_order(s[out[k1].0 as int], s[out.last().0 as int], s[i]);
                if s[out[k1].0 as int]@ == s[i]@ {
                    T::lemma_same_order(s[out[k1].0 as int], s[i], s[out.last().0 as int]);
                    T::lemma_antisymmetric(s[out.last().0 as int], s[i]);
                }
            }
        } else {
            assert(o2[k1] == out[k1]);
            assert(o2[k2] == out[k2]);
        }
    }
    assert forall|q: int| 0 <= q < j implies #[trigger] in_runs(s, o2, s[q]@) by {
        if q < i {
            assert(in_runs(s, out, s[q]@));
            let k = choose|k: int| 0 <= k < out.len() && s[(#[trigger] out[k]).0 as int]@ == s[q]@;
            assert(o2[k] == out[k]);
        } else {
            assert(o2[out.len() as int] == (i as usize, (j - i) as usize));
            assert(s[q]@ == s[i]@);
            assert(s[o2[out.len() as int].0 as int]@ == s[q]@);
        }
    }
    assert forall|k: int| 0 <= k < o2.len() implies (#[trigger] o2[k]).0 < j by {
        if k < out.len() {
            assert(o2[k] == out[k]);
        }
    }
    assert forall|k: int| 0 <= k < o2.len() implies {
        let (start, len) = #[trigger] o2[k];
        &&& start < s.len()
        &&& len >= 1
        &&& len == count_in(views(s), s[start as int]@)
    } by {
        if k < out.len() {
            assert(o2[k] == out[k]);
        }
    }
    if j < s.len() {
        assert(s[j - 1]@ == s[i]@);
        assert(T::le(s[i], s[j]));
    }
}

proof fn lemma_runs_done<T: StrictOrdered>(s: Seq<T>, out: Seq<(usize, usize)>)
    requires
        runs_upto(s, out, s.len() as int),
    ensures
        runs_describe(s, out),
{

}

/// The runs of equal values of the sorted `s`.
pub fn runs<T: StrictOrdered>(s: &Vec<T>) -> (r: Vec<(usize, usize)>)
    requires
        sorted_by(s@),
    ensures
        runs_describe(s@, r@),
{
    let n = s.len();
    let mut out: Vec<(usize, usize)> = Vec::new();
    let mut i: usize = 0;
    while i < n
        invariant
            n == s@.len(),
            sorted_by(s@),
            runs_upto(s@, out@, i as int),
        decreases n - i,
    {
        let mut j = i + 1;
        while j < n && same(&s[i], &s[j])
            invariant
                i < j <= n,
                n == s@.len(),
                forall|k: int| i <= k < j ==> (#[trigger] s@[k])@ == s@[i as int]@,
            decreases n - j,
        {
            j = j + 1;
        }
        proof {
            lemma_runs_step(s@, out@, i as int, j as int);
        }
        out.push((i, j - i));
        i = j;
    }
    proof {
        lemma_runs_done(s@, out@);
    }
    out
}

} // verus!
