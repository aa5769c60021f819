//! Counting a tokenized corpus for the language model: its vocabulary, and how
//! often each word, word pair and word triple occurs in a sentence.

use vstd::prelude::*;
use vstd::utf8::encode_utf8;
use crate::counting::{
    count_in, in_runs, lemma_count_concat, lemma_count_member, lemma_count_multiset, lemma_count_witness, runs,
    runs_describe, views,
};
use crate::dictionary::lemma_map_multiset;
use crate::order::{compare_bytes, lemma_lex_order, lex_le, lex_lt};
use crate::scan::{chars_views, spec_fields, spec_lines, split_fields, split_lines};
use crate::sort::{sort_by_order, sorted_by, Ordered};
use crate::text::{chars_of, lemma_encode_injective, string_from_chars};

verus! {

broadcast use vstd::seq_lib::group_to_multiset_ensures;

pub open spec fn bos_token() -> Seq<char> {
    seq!['<', 's', '>']
}

pub open spec fn eos_token() -> Seq<char> {
    seq!['<', '/', 's', '>']
}

pub open spec fn unknown_token() -> Seq<char> {
    seq!['<', 'u', 'n', 'k', '>']
}

/// The sentence start, sentence end and unknown-word markers.
pub open spec fn is_marker(w: Seq<char>) -> bool {
    w == bos_token() || w == eos_token() || w == unknown_token()
}

/// The parts of `s`, one after another.
pub open spec fn concat_all<A>(s: Seq<Seq<A>>) -> Seq<A>
    decreases s.len(),
{
    if s.len() == 0 {
        Seq::empty()
    } else {
        concat_all(s.drop_last()) + s.last()
    }
}

/// The words of each line of the corpus: the non-empty pieces between tabs.
pub open spec fn corpus_lines(text: Seq<char>) -> Seq<Seq<Seq<char>>> {
    spec_lines(text).map_values(|line: Seq<char>| spec_fields(line, true))
}

/// `v` is the vocabulary of `words`: the words used at least once and at least
/// `min` times, and the markers, in byte order, each once.
pub open spec fn is_vocabulary(v: Seq<Seq<char>>, words: Seq<Seq<char>>, min: u64) -> bool {
    &&& forall|i: int, j: int| 0 <= i < j < v.len() ==> lex_lt(encode_utf8(#[trigger] v[i]), encode_utf8(#[trigger] v[j]))
    &&& forall|w: Seq<char>|
        #[trigger] v.contains(w) <==> (count_in(words, w) >= 1 && count_in(words, w) >= min) || is_marker(w)
}

pub open spec fn strings_view(s: Seq<String>) -> Seq<Seq<char>> {
    s.map_values(|x: String| x@)
}

proof fn lemma_same_counts(a: Seq<String>, b: Seq<String>, x: Seq<char>)
    requires
        a.to_multiset() == b.to_multiset(),
    ensures
        count_in(views(a), x) == count_in(views(b), x),
{
    lemma_map_multiset(a, b, |s: String| s@);
    assert(views(a) == a.map_values(|s: String| s@));
    assert(views(b) == b.map_values(|s: String| s@));
    lemma_count_multiset(views(a), x);
    lemma_count_multiset(views(b), x);
}

/// The words of the corpus `text`, line by line.
pub fn read_corpus(text: &str) -> (r: Vec<Vec<String>>)
    ensures
        r@.map_values(|line: Vec<String>| strings_view(line@)) == corpus_lines(text@),
{
    let chars = chars_of(text);
    let lines = split_lines(chars.as_slice());
    let ghost lv = chars_views(lines@);
    let mut out: Vec<Vec<String>> = Vec::new();
    let mut i: usize = 0;
    while i < lines.len()
        invariant
            i <= lines@.len(),
            lv == chars_views(lines@),
            lv == spec_lines(text@),
            out@.map_values(|line: Vec<String>| strings_view(line@)) == lv.take(i as int).map_values(
                |line: Seq<char>| spec_fields(line, true),
            ),
        decreases lines@.len() - i,
    {
        let fields = split_fields(lines[i].as_slice(), true);
        let mut words: Vec<String> = Vec::new();
        let mut k: usize = 0;
        while k < fields.len()
            invariant
                k <= fields@.len(),
                strings_view(words@) == chars_views(fields@).take(k as int),
            decreases fields@.len() - k,
        {
            let w = string_from_chars(fields[k].as_slice(), 0, fields[k].len());
            proof {
                assert(fields@[k as int]@.subrange(0, fields@[k as int]@.len() as int) =~= fields@[k as int]@);
            }
            let ghost before = strings_view(words@);
            words.push(w);
            proof {
                assert(strings_view(words@) =~= before.push(w@));
                assert(chars_views(fields@).take(k + 1) =~= chars_views(fields@).take(k as int).push(fields@[k as int]@));
            }
            k = k + 1;
        }
        proof {
            assert(chars_views(fields@).take(fields@.len() as int) =~= chars_views(fields@));
            assert(lv[i as int] == lines@[i as int]@);
        }
        let ghost before = out@;
        out.push(words);
        proof {
            assert(out@.map_values(|line: Vec<String>| strings_view(line@)) =~= before.map_values(
                |line: Vec<String>| strings_view(line@),
            ).push(strings_view(words@)));
            assert(lv.take(i + 1).map_values(|line: Seq<char>| spec_fields(line, true)) =~= lv.take(i as int).map_values(
                |line: Seq<char>| spec_fields(line, true),
            ).push(spec_fields(lv[i as int], true)));
        }
        i = i + 1;
    }
    proof {
        assert(lv.take(lv.len() as int) =~= lv);
    }
    out
}

/// All the words of `lines`, in order.
pub fn all_words(lines: &Vec<Vec<String>>) -> (r: Vec<String>)
    ensures
        views(r@) == concat_all(lines@.map_values(|line: Vec<String>| strings_view(line@))),
{
    let ghost lv = lines@.map_values(|line: Vec<String>| strings_view(line@));
    let mut out: Vec<String> = Vec::new();
    let mut i: usize = 0;
    proof {
        assert(views(out@) =~= concat_all(lv.take(0)));
    }
    while i < lines.len()
        invariant
            i <= lines@.len(),
            lv == lines@.map_values(|line: Vec<String>| strings_view(line@)),
            views(out@) == concat_all(lv.take(i as int)),
        decreases lines@.len() - i,
    {
        let ghost start = views(out@);
        let line = &lines[i];
        let mut k: usize = 0;
        while k < line.len()
            invariant
                k <= line@.len(),
                views(out@) == start + strings_view(line@).take(k as int),
            decreases line@.len() - k,
        {
            let ghost before = views(out@);
            out.push(line[k].clone());
            proof {
                assert(views(out@) =~= before.push(line@[k as int]@));
                assert(strings_view(line@).take(k + 1) =~= strings_view(line@).take(k as int).push(line@[k as int]@));
            }
            k = k + 1;
        }
        proof {
            assert(strings_view(line@).take(line@.len() as int) =~= strings_view(line@));
            assert(lv.take(i + 1).drop_last() =~= lv.take(i as int));
            assert(lv.take(i + 1).last() == lv[i as int]);
        }
        i = i + 1;
    }
    proof {
        assert(lv.take(lv.len() as int) =~= lv);
    }
    out
}

proof fn lemma_runs_lookup(s: Seq<String>, rs: Seq<(usize, usize)>, w: Seq<char>)
    requires
        runs_describe(s, rs),
        count_in(views(s), w) >= 1,
    ensures
        exists|k: int| 0 <= k < rs.len() && s[(#[trigger] rs[k]).0 as int]@ == w && rs[k].1 == count_in(views(s), w),
{
    lemma_count_witness(views(s), w);
    let i = choose|i: int| 0 <= i < views(s).len() && views(s)[i] == w;
    assert(s[i]@ == w);
    assert(in_runs(s, rs, s[i]@));
    let k = choose|k: int| 0 <= k < rs.len() && s[(#[trigger] rs[k]).0 as int]@ == s[i]@;
    assert(rs[k].1 == count_in(views(s), s[rs[k].0 as int]@));
}

/// The words of `sorted` that occur at least `min` times, each once.
fn frequent_words(sorted: &Vec<String>, min: u64) -> (r: Vec<String>)
    requires
        sorted_by(sorted@),
    ensures
        forall|w: Seq<char>|
            #[trigger] views(r@).contains(w) <==> (count_in(views(sorted@), w) >= 1 && count_in(views(sorted@), w) >= min),
{
    let rs = runs(sorted);
    let mut out: Vec<String> = Vec::new();
    let ghost mut source: Seq<int> = Seq::empty();
    let mut k: usize = 0;
    while k < rs.len()
        invariant
            k <= rs@.len(),
            runs_describe(sorted@, rs@),
            source.len() == out@.len(),
            forall|j: int|
                0 <= j < out@.len() ==> 0 <= #[trigger] source[j] < k && sorted@[rs@[source[j]].0 as int]@ == out@[j]@
                    && rs@[source[j]].1 >= min,
            forall|q: int| 0 <= q < k && (#[trigger] rs@[q]).1 >= min ==> views(out@).contains(sorted@[rs@[q].0 as int]@),
        decreases rs@.len() - k,
    {
        let (start, len) = rs[k];
        if len as u64 >= min {
            let ghost before = out@;
            out.push(sorted[start].clone());
            proof {
                source = source.push(k as int);
                assert forall|q: int| 0 <= q < k + 1 && (#[trigger] rs@[q]).1 >= min implies views(out@).contains(
                    sorted@[rs@[q].0 as int]@,
                ) by {
                    if q < k {
                        let j = choose|j: int| 0 <= j < views(before).len() && views(before)[j] == sorted@[rs@[q].0 as int]@;
                        assert(views(out@)[j] == views(before)[j]);
                    } else {
                        assert(views(out@)[before.len() as int] == sorted@[start as int]@);
                    }
                }
            }
        }
        k = k + 1;
    }
    proof {
        assert forall|w: Seq<char>| #[trigger] views(out@).contains(w) <==> (count_in(views(sorted@), w) >= 1 && count_in(
            views(sorted@),
            w,
        ) >= min) by {
            if views(out@).contains(w) {
                let j = choose|j: int| 0 <= j < views(out@).len() && views(out@)[j] == w;
                assert(out@[j]@ == w);
                let q = source[j];
                assert(rs@[q].1 == count_in(views(sorted@), sorted@[rs@[q].0 as int]@));
            }
            if count_in(views(sorted@), w) >= 1 && count_in(views(sorted@), w) >= min {
                lemma_runs_lookup(sorted@, rs@, w);
                let q = choose|q: int| 0 <= q < rs@.len() && sorted@[(#[trigger] rs@[q]).0 as int]@ == w && rs@[q].1 == count_in(views(sorted@), w);
                assert(rs@[q].1 >= min);
            }
        }
    }
    out
}

/// One copy of each value of `sorted`, in increasing order.
fn distinct_words(sorted: &Vec<String>) -> (r: Vec<String>)
    requires
        sorted_by(sorted@),
    ensures
        forall|i: int, j: int| 0 <= i < j < r@.len() ==> lex_lt(encode_utf8((#[trigger] r@[i])@), encode_utf8((#[trigger] r@[j])@)),
        forall|w: Seq<char>| #[trigger] views(r@).contains(w) <==> views(sorted@).contains(w),
{
    let rs = runs(sorted);
    let mut out: Vec<String> = Vec::new();
    let mut k: usize = 0;
    while k < rs.len()
        invariant
            k <= rs@.len(),
            runs_describe(sorted@, rs@),
            out@.len() == k,
            forall|j: int| 0 <= j < k ==> (#[trigger] out@[j])@ == sorted@[rs@[j].0 as int]@,
        decreases rs@.len() - k,
    {
        let (start, _len) = rs[k];
        let ghost before = out@;
        out.push(sorted[start].clone());
        proof {
            assert forall|j: int| 0 <= j < k + 1 implies (#[trigger] out@[j])@ == sorted@[rs@[j].0 as int]@ by {
                if j < k {
                    assert(out@[j] == before[j]);
                }
            }
        }
        k = k + 1;
    }
    proof {
        assert forall|i: int, j: int| 0 <= i < j < out@.len() implies lex_lt(encode_utf8((#[trigger] out@[i])@), encode_utf8((#[trigger] out@[j])@)) by {
            let a = sorted@[rs@[i].0 as int];
            let b = sorted@[rs@[j].0 as int];
            assert(<String as Ordered>::le(a, b) && a@ != b@);
            lemma_encode_injective(a@, b@);
        }
        assert forall|w: Seq<char>| #[trigger] views(out@).contains(w) <==> views(sorted@).contains(w) by {
            if views(out@).contains(w) {
                let j = choose|j: int| 0 <= j < views(out@).len() && views(out@)[j] == w;
                assert(out@[j]@ == w);
                assert(views(sorted@)[rs@[j].0 as int] == w);
            }
            if views(sorted@).contains(w) {
                let i = choose|i: int| 0 <= i < views(sorted@).len() && views(sorted@)[i] == w;
                assert(in_runs(sorted@, rs@, sorted@[i]@));
                let q = choose|q: int| 0 <= q < rs@.len() && sorted@[(#[trigger] rs@[q]).0 as int]@ == sorted@[i]@;
                assert(views(out@)[q] == w);
            }
        }
    }
    out
}

proof fn lemma_contains_count(s: Seq<Seq<char>>, w: Seq<char>)
    ensures
        s.contains(w) <==> count_in(s, w) >= 1,
{
    if s.contains(w) {
        let i = choose|i: int| 0 <= i < s.len() && s[i] == w;
        lemma_count_member(s, i);
    }
    if count_in(s, w) >= 1 {
        lemma_count_witness(s, w);
    }
}

/// The vocabulary of `words`: the words used at least `min` times, and the
/// markers, in byte order, each once.
pub fn build_vocabulary(words: Vec<String>, min: u64) -> (r: Vec<String>)
    ensures
        is_vocabulary(views(r@), views(words@), min),
{
    let ghost wv = words@;
    let sorted = sort_by_order(words);
    let mut candidates = frequent_words(&sorted, min);
    let ghost frequent = candidates@;
    let bos = "<s>".to_owned();
    let eos = "</s>".to_owned();
    let unknown = "<unk>".to_owned();
    proof {
        reveal_strlit("<s>");
        reveal_strlit("</s>");
        reveal_strlit("<unk>");
        assert("<s>"@ =~= bos_token());
        assert("</s>"@ =~= eos_token());
        assert("<unk>"@ =~= unknown_token());
    }
    candidates.push(bos);
    candidates.push(eos);
    candidates.push(unknown);
    let ghost cands = candidates@;
    proof {
        assert(views(cands) =~= views(frequent) + seq![bos_token(), eos_token(), unknown_token()]);
    }
    let sorted2 = sort_by_order(candidates);
    let vocabulary = distinct_words(&sorted2);
    proof {
        assert forall|w: Seq<char>| #[trigger] views(vocabulary@).contains(w) <==> (count_in(views(wv), w) >= 1 && count_in(
            views(wv),
            w,
        ) >= min) || is_marker(w) by {
            lemma_same_counts(wv, sorted@, w);
            lemma_same_counts(cands, sorted2@, w);
            lemma_contains_count(views(cands), w);
            lemma_contains_count(views(sorted2@), w);
            if views(cands).contains(w) {
                let i = choose|i: int| 0 <= i < views(cands).len() && views(cands)[i] == w;
                if i < frequent.len() {
                    assert(views(frequent)[i] == w);
                }
            }
            if views(frequent).contains(w) {
                let i = choose|i: int| 0 <= i < views(frequent).len() && views(frequent)[i] == w;
                assert(views(cands)[i] == w);
            }
            if is_marker(w) {
                if w == bos_token() {
                    assert(views(cands)[frequent.len() as int] == w);
                } else if w == eos_token() {
                    assert(views(cands)[frequent.len() + 1int] == w);
                } else {
                    assert(views(cands)[frequent.len() + 2int] == w);
                }
            }
        }
    }
    vocabulary
}

/// The words of `v` are in strictly increasing byte order.
pub open spec fn strictly_sorted(v: Seq<Seq<char>>) -> bool {
    forall|i: int, j: int| 0 <= i < j < v.len() ==> lex_lt(encode_utf8(#[trigger] v[i]), encode_utf8(#[trigger] v[j]))
}

/// The position of `w` in the vocabulary `v`, or of the unknown-word marker
/// when `w` is not in it.
pub open spec fn word_index(v: Seq<Seq<char>>, w: Seq<char>) -> int {
    if v.contains(w) {
        choose|i: int| 0 <= i < v.len() && v[i] == w
    } else {
        choose|i: int| 0 <= i < v.len() && v[i] == unknown_token()
    }
}

pub open spec fn word_id(v: Seq<Seq<char>>, w: Seq<char>) -> u32 {
    word_index(v, w) as u32
}

/// In a strictly sorted vocabulary a word has one position.
proof fn lemma_unique_index(v: Seq<Seq<char>>, i: int, w: Seq<char>)
    requires
        strictly_sorted(v),
        0 <= i < v.len(),
        v[i] == w,
    ensures
        v.contains(w),
        (choose|j: int| 0 <= j < v.len() && v[j] == w) == i,
{
    assert(v.contains(w));
    let j = choose|j: int| 0 <= j < v.len() && v[j] == w;
    if j != i {
        lemma_lex_order(encode_utf8(v[i]), encode_utf8(v[j]), encode_utf8(v[j]));
        if i < j {
            assert(lex_lt(encode_utf8(v[i]), encode_utf8(v[j])));
        } else {
            assert(lex_lt(encode_utf8(v[j]), encode_utf8(v[i])));
        }
    }
}

/// The position of `w` in the strictly sorted `v`, if it is there.
fn find_word(v: &Vec<String>, w: &str) -> (r: Option<usize>)
    requires
        strictly_sorted(views(v@)),
    ensures
        match r {
            Some(i) => i < v@.len() && v@[i as int]@ == w@,
            None => !views(v@).contains(w@),
        },
{
    let key = w.as_bytes();
    let mut lo: usize = 0;
    let mut hi: usize = v.len();
    while lo < hi
        invariant
            lo <= hi <= v@.len(),
            strictly_sorted(views(v@)),
            key@ == encode_utf8(w@),
            forall|k: int| 0 <= k < lo ==> lex_lt(encode_utf8(#[trigger] v@[k]@), key@),
            forall|k: int| hi <= k < v@.len() ==> lex_lt(key@, encode_utf8(#[trigger] v@[k]@)),
        decreases hi - lo,
    {
        let mid = lo + (hi - lo) / 2;
        let c = compare_bytes(v[mid].as_str().as_bytes(), key);
        if c == 0 {
            proof {
                lemma_encode_injective(v@[mid as int]@, w@);
            }
            return Some(mid);
        } else if c < 0 {
            proof {
                assert forall|k: int| 0 <= k < mid + 1 implies lex_lt(encode_utf8(#[trigger] v@[k]@), key@) by {
                    if k < mid {
                        assert(views(v@)[k] == v@[k]@);
                        assert(views(v@)[mid as int] == v@[mid as int]@);
                        lemma_lex_order(encode_utf8(v@[k]@), encode_utf8(v@[mid as int]@), key@);
                    }
                }
            }
            lo = mid + 1;
        } else {
            proof {
                assert forall|k: int| mid <= k < v@.len() implies lex_lt(key@, encode_utf8(#[trigger] v@[k]@)) by {
                    if k > mid {
                        assert(views(v@)[k] == v@[k]@);
                        assert(views(v@)[mid as int] == v@[mid as int]@);
                        lemma_lex_order(key@, encode_utf8(v@[mid as int]@), encode_utf8(v@[k]@));
                    }
                }
            }
            hi = mid;
        }
    }
    proof {
        if views(v@).contains(w@) {
            let k = choose|k: int| 0 <= k < views(v@).len() && views(v@)[k] == w@;
            assert(v@[k]@ == w@);
            lemma_lex_order(key@, key@, key@);
            if k < lo {
                assert(lex_lt(encode_utf8(v@[k]@), key@));
            } else {
                assert(lex_lt(key@, encode_utf8(v@[k]@)));
            }
        }
    }
    None
}

/// The id of `w` in the vocabulary `v`, given the id of the unknown-word marker.
fn id_of(v: &Vec<String>, w: &str, unknown: u32) -> (r: u32)
    requires
        strictly_sorted(views(v@)),
        views(v@).contains(unknown_token()),
        unknown == word_id(views(v@), unknown_token()),
    ensures
        r == word_id(views(v@), w@),
{
    match find_word(v, w) {
        Some(i) => {
            proof {
                lemma_unique_index(views(v@), i as int, w@);
            }
            i as u32
        },
        None => unknown,
    }
}

/// The ids of a sentence: the start marker, the words, the end marker.
pub open spec fn sentence(v: Seq<Seq<char>>, words: Seq<Seq<char>>) -> Seq<u32> {
    seq![word_id(v, bos_token())] + words.map_values(|w: Seq<char>| word_id(v, w)) + seq![word_id(v, eos_token())]
}

/// The key of a word pair: the first word's id above the second's.
pub open spec fn pair_key(a: u32, b: u32) -> u128 {
    ((a as u128) << 32u128) | (b as u128)
}

/// The key of a word triple.
pub open spec fn triple_key(a: u32, b: u32, c: u32) -> u128 {
    ((a as u128) << 64u128) | ((b as u128) << 32u128) | (c as u128)
}

pub open spec fn unigrams_of(s: Seq<u32>) -> Seq<u128> {
    s.map_values(|x: u32| x as u128)
}

pub open spec fn pairs_of(s: Seq<u32>) -> Seq<u128> {
    Seq::new((if s.len() >= 1 { s.len() - 1 } else { 0 }) as nat, |k: int| pair_key(s[k], s[k + 1]))
}

pub open spec fn triples_of(s: Seq<u32>) -> Seq<u128> {
    Seq::new((if s.len() >= 2 { s.len() - 2 } else { 0 }) as nat, |k: int| triple_key(s[k], s[k + 1], s[k + 2]))
}

/// The sentences of the corpus lines `lines` over the vocabulary `v`.
pub open spec fn sentences(v: Seq<Seq<char>>, lines: Seq<Seq<Seq<char>>>) -> Seq<Seq<u32>> {
    lines.map_values(|words: Seq<Seq<char>>| sentence(v, words))
}

pub open spec fn unigram_keys(ss: Seq<Seq<u32>>) -> Seq<u128> {
    concat_all(ss.map_values(|s: Seq<u32>| unigrams_of(s)))
}

pub open spec fn bigram_keys(ss: Seq<Seq<u32>>) -> Seq<u128> {
    concat_all(ss.map_values(|s: Seq<u32>| pairs_of(s)))
}

pub open spec fn trigram_keys(ss: Seq<Seq<u32>>) -> Seq<u128> {
    concat_all(ss.map_values(|s: Seq<u32>| triples_of(s)))
}

/// The ids of the words of one line, between the markers.
fn sentence_ids(v: &Vec<String>, words: &Vec<String>, bos: u32, eos: u32, unknown: u32) -> (r: Vec<u32>)
    requires
        strictly_sorted(views(v@)),
        views(v@).contains(unknown_token()),
        bos == word_id(views(v@), bos_token()),
        eos == word_id(views(v@), eos_token()),
        unknown == word_id(views(v@), unknown_token()),
    ensures
        r@ == sentence(views(v@), views(words@)),
{
    let mut out: Vec<u32> = Vec::new();
    out.push(bos);
    let mut k: usize = 0;
    while k < words.len()
        invariant
            k <= words@.len(),
            strictly_sorted(views(v@)),
            views(v@).contains(unknown_token()),
            unknown == word_id(views(v@), unknown_token()),
            out@ == seq![bos] + views(words@).take(k as int).map_values(|w: Seq<char>| word_id(views(v@), w)),
        decreases words@.len() - k,
    {
        let id = id_of(v, words[k].as_str(), unknown);
        let ghost before = out@;
        out.push(id);
        proof {
            assert(views(words@).take(k + 1) =~= views(words@).take(k as int).push(words@[k as int]@));
            assert(views(words@).take(k + 1).map_values(|w: Seq<char>| word_id(views(v@), w)) =~= views(words@).take(
                k as int,
            ).map_values(|w: Seq<char>| word_id(views(v@), w)).push(word_id(views(v@), words@[k as int]@)));
        }
        k = k + 1;
    }
    out.push(eos);
    proof {
        assert(views(words@).take(words@.len() as int) =~= views(words@));
        assert(out@ =~= sentence(views(v@), views(words@)));
    }
    out
}

proof fn lemma_concat_all_push<A>(s: Seq<Seq<A>>, x: Seq<A>)
    ensures
        concat_all(s.push(x)) == concat_all(s) + x,
{
    assert(s.push(x).drop_last() =~= s);
}

/// Every element of `concat_all(ss)` is an element of one of the parts.
proof fn lemma_concat_all_member<A>(ss: Seq<Seq<A>>, i: int)
    requires
        0 <= i < concat_all(ss).len(),
    ensures
        exists|j: int, k: int| 0 <= j < ss.len() && 0 <= k < ss[j].len() && concat_all(ss)[i] == ss[j][k],
    decreases ss.len(),
{
    let front = concat_all(ss.drop_last());
    if i < front.len() {
        lemma_concat_all_member(ss.drop_last(), i);
        let (j, k) = choose|j: int, k: int|
            0 <= j < ss.drop_last().len() && 0 <= k < ss.drop_last()[j].len() && front[i] == ss.drop_last()[j][k];
        assert(ss[j] == ss.drop_last()[j]);
    } else {
        let k = i - front.len();
        assert(concat_all(ss)[i] == ss.last()[k]);
        assert(ss[ss.len() - 1] == ss.last());
    }
}

/// The keys of the words, pairs and triples of the sentences of `lines`.
fn collect_keys(v: &Vec<String>, lines: &Vec<Vec<String>>, bos: u32, eos: u32, unknown: u32) -> (r: (
    Vec<u128>,
    Vec<u128>,
    Vec<u128>,
))
    requires
        strictly_sorted(views(v@)),
        views(v@).contains(unknown_token()),
        bos == word_id(views(v@), bos_token()),
        eos == word_id(views(v@), eos_token()),
        unknown == word_id(views(v@), unknown_token()),
    ensures
        ({
            let ss = sentences(views(v@), lines@.map_values(|line: Vec<String>| views(line@)));
            &&& r.0@ == unigram_keys(ss)
            &&& r.1@ == bigram_keys(ss)
            &&& r.2@ == trigram_keys(ss)
        }),
{
    let ghost ss = sentences(views(v@), lines@.map_values(|line: Vec<String>| views(line@)));
    let mut unigrams: Vec<u128> = Vec::new();
    let mut bigrams: Vec<u128> = Vec::new();
    let mut trigrams: Vec<u128> = Vec::new();
    let mut i: usize = 0;
    proof {
        assert(ss.take(0).map_values(|s: Seq<u32>| unigrams_of(s)) =~= Seq::<Seq<u128>>::empty());
        assert(ss.take(0).map_values(|s: Seq<u32>| pairs_of(s)) =~= Seq::<Seq<u128>>::empty());
        assert(ss.take(0).map_values(|s: Seq<u32>| triples_of(s)) =~= Seq::<Seq<u128>>::empty());
    }
    while i < lines.len()
        invariant
            i <= lines@.len(),
            strictly_sorted(views(v@)),
            views(v@).contains(unknown_token()),
            bos == word_id(views(v@), bos_token()),
            eos == word_id(views(v@), eos_token()),
            unknown == word_id(views(v@), unknown_token()),
            ss == sentences(views(v@), lines@.map_values(|line: Vec<String>| views(line@))),
            unigrams@ == concat_all(ss.take(i as int).map_values(|s: Seq<u32>| unigrams_of(s))),
            bigrams@ == concat_all(ss.take(i as int).map_values(|s: Seq<u32>| pairs_of(s))),
            trigrams@ == concat_all(ss.take(i as int).map_values(|s: Seq<u32>| triples_of(s))),
        decreases lines@.len() - i,
    {
        let ids = sentence_ids(v, &lines[i], bos, eos, unknown);
        proof {
            assert(ss[i as int] == ids@);
        }
        let ghost u0 = unigrams@;
        let ghost b0 = bigrams@;
        let ghost t0 = trigrams@;
        let n = ids.len();
        let mut k: usize = 0;
        while k < n
            invariant
                k <= n,
                n == ids@.len(),
                unigrams@ == u0 + unigrams_of(ids@).take(k as int),
                bigrams@ == b0 + pairs_of(ids@).take((if k >= 1 { k - 1 } else { 0 }) as int),
                trigrams@ == t0 + triples_of(ids@).take((if k >= 2 { k - 2 } else { 0 }) as int),
            decreases n - k,
        {
            let x = ids[k];
            unigrams.push(x as u128);
            proof {
                assert(unigrams_of(ids@).take(k + 1) =~= unigrams_of(ids@).take(k as int).push(x as u128));
            }
            if k >= 1 {
                let key = ((ids[k - 1] as u128) << 32u128) | (x as u128);
                bigrams.push(key);
                proof {
                    assert(pairs_of(ids@).take(k as int) =~= pairs_of(ids@).take(k - 1).push(key));
                }
            }
            if k >= 2 {
                let key = ((ids[k - 2] as u128) << 64u128) | ((ids[k - 1] as u128) << 32u128) | (x as u128);
                trigrams.push(key);
                proof {
                    assert(triples_of(ids@).take(k - 1) =~= triples_of(ids@).take(k - 2).push(key));
                }
            }
            k = k + 1;
        }
        proof {
            assert(unigrams_of(ids@).take(n as int) =~= unigrams_of(ids@));
            assert(pairs_of(ids@).take((if n >= 1 { n - 1 } else { 0 }) as int) =~= pairs_of(ids@));
            assert(triples_of(ids@).take((if n >= 2 { n - 2 } else { 0 }) as int) =~= triples_of(ids@));
            assert(ss.take(i + 1).map_values(|s: Seq<u32>| unigrams_of(s)) =~= ss.take(i as int).map_values(
                |s: Seq<u32>| unigrams_of(s),
            ).push(unigrams_of(ids@)));
            assert(ss.take(i + 1).map_values(|s: Seq<u32>| pairs_of(s)) =~= ss.take(i as int).map_values(
                |s: Seq<u32>| pairs_of(s),
            ).push(pairs_of(ids@)));
            assert(ss.take(i + 1).map_values(|s: Seq<u32>| triples_of(s)) =~= ss.take(i as int).map_values(
                |s: Seq<u32>| triples_of(s),
            ).push(triples_of(ids@)));
            lemma_concat_all_push(ss.take(i as int).map_values(|s: Seq<u32>| unigrams_of(s)), unigrams_of(ids@));
            lemma_concat_all_push(ss.take(i as int).map_values(|s: Seq<u32>| pairs_of(s)), pairs_of(ids@));
            lemma_concat_all_push(ss.take(i as int).map_values(|s: Seq<u32>| triples_of(s)), triples_of(ids@));
        }
        i = i + 1;
    }
    proof {
        assert(ss.take(lines@.len() as int) =~= ss);
    }
    (unigrams, bigrams, trigrams)
}

proof fn lemma_u128_views(s: Seq<u128>)
    ensures
        views(s) == s,
{
    assert(views(s) =~= s);
}

/// `t` lists the keys of `keys` to keep, in increasing order, each with how
/// often it occurs: those that occur at least `min` times, and those of
/// `extra` that occur at all.
pub open spec fn counted_ok(t: Seq<(u128, u64)>, keys: Seq<u128>, min: u64, extra: Seq<u128>) -> bool {
    &&& forall|i: int, j: int| 0 <= i < j < t.len() ==> (#[trigger] t[i]).0 < (#[trigger] t[j]).0
    &&& forall|i: int|
        0 <= i < t.len() ==> (#[trigger] t[i]).1 == count_in(keys, t[i].0) && t[i].1 >= 1 && (t[i].1 >= min
            || extra.contains(t[i].0))
    &&& forall|x: u128|
        count_in(keys, x) >= 1 && (count_in(keys, x) >= min || extra.contains(x)) ==> #[trigger] listed(t, x)
}

pub open spec fn listed(t: Seq<(u128, u64)>, x: u128) -> bool {
    exists|j: int| 0 <= j < t.len() && (#[trigger] t[j]).0 == x
}

/// How often `key` occurs in `sorted`, found through its runs.
fn count_of(sorted: &Vec<u128>, rs: &Vec<(usize, usize)>, key: u128) -> (r: usize)
    requires
        sorted_by(sorted@),
        runs_describe(sorted@, rs@),
    ensures
        r == count_in(sorted@, key),
{
    proof {
        lemma_u128_views(sorted@);
    }
    let mut lo: usize = 0;
    let mut hi: usize = rs.len();
    while lo < hi
        invariant
            lo <= hi <= rs@.len(),
            runs_describe(sorted@, rs@),
            views(sorted@) == sorted@,
            forall|k: int| 0 <= k < lo ==> sorted@[(#[trigger] rs@[k]).0 as int] < key,
            forall|k: int| hi <= k < rs@.len() ==> sorted@[(#[trigger] rs@[k]).0 as int] > key,
        decreases hi - lo,
    {
        let mid = lo + (hi - lo) / 2;
        let (start, len) = rs[mid];
        let v = sorted[start];
        if v == key {
            return len;
        } else if v < key {
            proof {
                assert forall|k: int| 0 <= k < mid + 1 implies sorted@[(#[trigger] rs@[k]).0 as int] < key by {
                    if k < mid {
                        assert(sorted@[rs@[k].0 as int] <= sorted@[rs@[mid as int].0 as int]);
                    }
                }
            }
            lo = mid + 1;
        } else {
            proof {
                assert forall|k: int| mid <= k < rs@.len() implies sorted@[(#[trigger] rs@[k]).0 as int] > key by {
                    if k > mid {
                        assert(sorted@[rs@[mid as int].0 as int] <= sorted@[rs@[k].0 as int]);
                    }
                }
            }
            hi = mid;
        }
    }
    proof {
        if count_in(sorted@, key) >= 1 {
            lemma_count_witness(sorted@, key);
            let i = choose|i: int| 0 <= i < sorted@.len() && sorted@[i] == key;
            assert(in_runs(sorted@, rs@, sorted@[i]@));
            let k = choose|k: int| 0 <= k < rs@.len() && sorted@[(#[trigger] rs@[k]).0 as int]@ == sorted@[i]@;
            if k < lo {
                assert(sorted@[rs@[k].0 as int] < key);
            } else {
                assert(sorted@[rs@[k].0 as int] > key);
            }
        }
    }
    0
}

/// The distinct keys of `sorted` to keep, each with its count.
fn counted_keys(sorted: &Vec<u128>, rs: &Vec<(usize, usize)>, min: u64, extra: &Vec<u128>) -> (r: Vec<(u128, u64)>)
    requires
        sorted_by(sorted@),
        runs_describe(sorted@, rs@),
    ensures
        counted_ok(r@, sorted@, min, extra@),
{
    proof {
        lemma_u128_views(sorted@);
    }
    let mut out: Vec<(u128, u64)> = Vec::new();
    let ghost mut source: Seq<int> = Seq::empty();
    let mut k: usize = 0;
    while k < rs.len()
        invariant
            k <= rs@.len(),
            runs_describe(sorted@, rs@),
            views(sorted@) == sorted@,
            source.len() == out@.len(),
            forall|j: int|
                0 <= j < out@.len() ==> 0 <= #[trigger] source[j] < k && out@[j] == (
                    sorted@[rs@[source[j]].0 as int],
                    rs@[source[j]].1 as u64,
                ),
            forall|i: int, j: int| 0 <= i < j < out@.len() ==> source[i] < source[j],
            forall|i: int|
                0 <= i < out@.len() ==> (#[trigger] out@[i]).1 == count_in(sorted@, out@[i].0) && out@[i].1 >= 1
                    && (out@[i].1 >= min || extra@.contains(out@[i].0)),
            forall|q: int|
                0 <= q < k && ((#[trigger] rs@[q]).1 >= min || extra@.contains(sorted@[rs@[q].0 as int])) ==> listed(
                    out@,
                    sorted@[rs@[q].0 as int],
                ),
        decreases rs@.len() - k,
    {
        let (start, len) = rs[k];
        let key = sorted[start];
        let mut special = false;
        let mut e: usize = 0;
        while e < extra.len()
            invariant
                e <= extra@.len(),
                special == exists|x: int| 0 <= x < e && extra@[x] == key,
            decreases extra@.len() - e,
        {
            if extra[e] == key {
                special = true;
            }
            e = e + 1;
        }
        proof {
            assert(special == extra@.contains(key));
        }
        if len as u64 >= min || special {
            let ghost before = out@;
            out.push((key, len as u64));
            proof {
                source = source.push(k as int);
                assert forall|q: int|
                    0 <= q < k + 1 && ((#[trigger] rs@[q]).1 >= min || extra@.contains(sorted@[rs@[q].0 as int])) implies listed(
                    out@,
                    sorted@[rs@[q].0 as int],
                ) by {
                    if q < k {
                        assert(listed(before, sorted@[rs@[q].0 as int]));
                        let j = choose|j: int| 0 <= j < before.len() && (#[trigger] before[j]).0 == sorted@[rs@[q].0 as int];
                        assert(out@[j] == before[j]);
                    } else {
                        assert(out@[before.len() as int].0 == key);
                    }
                }
            }
        }
        k = k + 1;
    }
    proof {
        assert forall|i: int, j: int| 0 <= i < j < out@.len() implies (#[trigger] out@[i]).0 < (#[trigger] out@[j]).0 by {
            let a = source[i];
            let b = source[j];
            assert(a < b);
            assert(sorted@[rs@[a].0 as int] <= sorted@[rs@[b].0 as int] && sorted@[rs@[a].0 as int]@ != sorted@[rs@[b].0 as int]@);
        }
        assert forall|x: u128| count_in(sorted@, x) >= 1 && (count_in(sorted@, x) >= min || extra@.contains(x)) implies #[trigger] listed(
            out@,
            x,
        ) by {
            lemma_count_witness(sorted@, x);
            let i = choose|i: int| 0 <= i < sorted@.len() && sorted@[i] == x;
            assert(in_runs(sorted@, rs@, sorted@[i]@));
            let q = choose|q: int| 0 <= q < rs@.len() && sorted@[(#[trigger] rs@[q]).0 as int]@ == sorted@[i]@;
            assert(rs@[q].1 == count_in(views(sorted@), sorted@[rs@[q].0 as int]@));
        }
    }
    out
}

/// A key that a word id gives back.
pub open spec fn is_word_key(k: u128) -> bool {
    (k as u32) as u128 == k
}

/// A key that its two word ids give back.
pub open spec fn is_pair_key(k: u128) -> bool {
    pair_key((k >> 32u128) as u32, (k & 0xffff_ffffu128) as u32) == k
}

/// A key that its three word ids give back.
pub open spec fn is_triple_key(k: u128) -> bool {
    triple_key((k >> 64u128) as u32, ((k >> 32u128) & 0xffff_ffffu128) as u32, (k & 0xffff_ffffu128) as u32) == k
}

proof fn lemma_key_parts(a: u32, b: u32, c: u32)
    ensures
        is_word_key(a as u128),
        is_pair_key(pair_key(a, b)),
        is_triple_key(triple_key(a, b, c)),
{
    assert((((a as u128) as u32) as u128) == (a as u128)) by (bit_vector);
    assert(((((((a as u128) << 32u128) | (b as u128)) >> 32u128) as u32) as u128) << 32u128 | (((((
        a as u128) << 32u128) | (b as u128)) & 0xffff_ffffu128) as u32) as u128 == ((a as u128) << 32u128) | (
    b as u128)) by (bit_vector);
    let k = ((a as u128) << 64u128) | ((b as u128) << 32u128) | (c as u128);
    assert(((((k >> 64u128) as u32) as u128) << 64u128) | (((((k >> 32u128) & 0xffff_ffffu128) as u32) as u128) << 32u128)
        | (((k & 0xffff_ffffu128) as u32) as u128) == k) by (bit_vector)
        requires
            k == ((a as u128) << 64u128) | ((b as u128) << 32u128) | (c as u128),
    ;
}

/// Every word key decodes to its id, every pair key to its two ids, every
/// triple key to its three.
proof fn lemma_keys_decode(ss: Seq<Seq<u32>>)
    ensures
        forall|i: int| 0 <= i < unigram_keys(ss).len() ==> is_word_key(#[trigger] unigram_keys(ss)[i]),
        forall|i: int| 0 <= i < bigram_keys(ss).len() ==> is_pair_key(#[trigger] bigram_keys(ss)[i]),
        forall|i: int| 0 <= i < trigram_keys(ss).len() ==> is_triple_key(#[trigger] trigram_keys(ss)[i]),
{
    let us = ss.map_values(|s: Seq<u32>| unigrams_of(s));
    let bs = ss.map_values(|s: Seq<u32>| pairs_of(s));
    let ts = ss.map_values(|s: Seq<u32>| triples_of(s));
    assert forall|i: int| 0 <= i < unigram_keys(ss).len() implies is_word_key(#[trigger] unigram_keys(ss)[i]) by {
        lemma_concat_all_member(us, i);
        let (j, k) = choose|j: int, k: int| 0 <= j < us.len() && 0 <= k < us[j].len() && concat_all(us)[i] == us[j][k];
        lemma_key_parts(ss[j][k], 0, 0);
    }
    assert forall|i: int| 0 <= i < bigram_keys(ss).len() implies is_pair_key(#[trigger] bigram_keys(ss)[i]) by {
        lemma_concat_all_member(bs, i);
        let (j, k) = choose|j: int, k: int| 0 <= j < bs.len() && 0 <= k < bs[j].len() && concat_all(bs)[i] == bs[j][k];
        lemma_key_parts(ss[j][k], ss[j][k + 1], 0);
    }
    assert forall|i: int| 0 <= i < trigram_keys(ss).len() implies is_triple_key(#[trigger] trigram_keys(ss)[i]) by {
        lemma_concat_all_member(ts, i);
        let (j, k) = choose|j: int, k: int| 0 <= j < ts.len() && 0 <= k < ts[j].len() && concat_all(ts)[i] == ts[j][k];
        lemma_key_parts(ss[j][k], ss[j][k + 1], ss[j][k + 2]);
    }
}

/// `counted_ok` depends on the keys only through how often each occurs.
proof fn lemma_counted_same(t: Seq<(u128, u64)>, a: Seq<u128>, b: Seq<u128>, min: u64, extra: Seq<u128>)
    requires
        a.to_multiset() == b.to_multiset(),
        counted_ok(t, a, min, extra),
    ensures
        counted_ok(t, b, min, extra),
{
    assert forall|x: u128| #[trigger] count_in(a, x) == count_in(b, x) by {
        lemma_count_multiset(a, x);
        lemma_count_multiset(b, x);
    }
    assert forall|i: int| 0 <= i < t.len() implies (#[trigger] t[i]).1 == count_in(b, t[i].0) && t[i].1 >= 1 && (t[i].1
        >= min || extra.contains(t[i].0)) by {
        assert(count_in(a, t[i].0) == count_in(b, t[i].0));
    }
    assert forall|x: u128| count_in(b, x) >= 1 && (count_in(b, x) >= min || extra.contains(x)) implies #[trigger] listed(
        t,
        x,
    ) by {
        assert(count_in(a, x) == count_in(b, x));
    }
}

/// A listed key occurs among the keys.
proof fn lemma_listed_occurs(t: Seq<(u128, u64)>, keys: Seq<u128>, min: u64, extra: Seq<u128>, i: int)
    requires
        counted_ok(t, keys, min, extra),
        0 <= i < t.len(),
    ensures
        exists|j: int| 0 <= j < keys.len() && keys[j] == t[i].0,
{
    lemma_count_witness(keys, t[i].0);
}

/// The replacement for a zero count in a probability's denominator.
pub open spec fn denominator(c: nat) -> nat {
    if c > 0 {
        c
    } else {
        1
    }
}

/// The counts of a corpus for its language model.
pub struct NgramCounts {
    pub vocabulary: Vec<String>,
    /// The number of word occurrences, markers included.
    pub total_unigrams: u64,
    /// Each word id with its count.
    pub unigrams: Vec<(u32, u64)>,
    /// Each word pair with its count and the count of its first word.
    pub bigrams: Vec<(u32, u32, u64, u64)>,
    /// Each word triple with its count and the count of its first two words.
    pub trigrams: Vec<(u32, u32, u32, u64, u64)>,
}

pub open spec fn unigram_entries(u: Seq<(u32, u64)>) -> Seq<(u128, u64)> {
    u.map_values(|e: (u32, u64)| (e.0 as u128, e.1))
}

pub open spec fn bigram_entries(b: Seq<(u32, u32, u64, u64)>) -> Seq<(u128, u64)> {
    b.map_values(|e: (u32, u32, u64, u64)| (pair_key(e.0, e.1), e.2))
}

pub open spec fn trigram_entries(t: Seq<(u32, u32, u32, u64, u64)>) -> Seq<(u128, u64)> {
    t.map_values(|e: (u32, u32, u32, u64, u64)| (triple_key(e.0, e.1, e.2), e.3))
}

/// What counting the corpus `text` gives: its vocabulary; the number of word
/// occurrences in its sentences, each line being a sentence between a start
/// and an end marker; each word that occurs at least `min_unigram` times or
/// is a marker, each pair that occurs at least `min_bigram` times and each
/// triple that occurs at least `min_trigram` times, in increasing order, with
/// its count and the count of its history.
pub open spec fn counts_ok(r: NgramCounts, text: Seq<char>, min_unigram: u64, min_bigram: u64, min_trigram: u64) -> bool {
    let lines = corpus_lines(text);
    let v = views(r.vocabulary@);
    let ss = sentences(v, lines);
    let markers = seq![
        word_id(v, bos_token()) as u128,
        word_id(v, eos_token()) as u128,
        word_id(v, unknown_token()) as u128,
    ];
    &&& is_vocabulary(v, concat_all(lines), min_unigram)
    &&& r.total_unigrams == unigram_keys(ss).len() as u64
    &&& counted_ok(unigram_entries(r.unigrams@), unigram_keys(ss), min_unigram, markers)
    &&& counted_ok(bigram_entries(r.bigrams@), bigram_keys(ss), min_bigram, Seq::empty())
    &&& forall|i: int|
        0 <= i < r.bigrams@.len() ==> (#[trigger] r.bigrams@[i]).3 == denominator(
            count_in(unigram_keys(ss), r.bigrams@[i].0 as u128),
        )
    &&& counted_ok(trigram_entries(r.trigrams@), trigram_keys(ss), min_trigram, Seq::empty())
    &&& forall|i: int|
        0 <= i < r.trigrams@.len() ==> (#[trigger] r.trigrams@[i]).4 == denominator(
            count_in(bigram_keys(ss), pair_key(r.trigrams@[i].0, r.trigrams@[i].1)),
        )
}

/// Counts `keys`: sorts them and finds their runs.
fn tally(keys: Vec<u128>) -> (r: (Vec<u128>, Vec<(usize, usize)>))
    ensures
        sorted_by(r.0@),
        runs_describe(r.0@, r.1@),
        r.0@.to_multiset() == keys@.to_multiset(),
{
    let sorted = sort_by_order(keys);
    let rs = runs(&sorted);
    (sorted, rs)
}

/// Counts the words and n-grams of the corpus `text`, one sentence per line,
/// with its words between tabs.
pub fn count_corpus(text: &str, min_unigram: u64, min_bigram: u64, min_trigram: u64) -> (r: NgramCounts)
    ensures
        counts_ok(r, text@, min_unigram, min_bigram, min_trigram),
{
    let lines = read_corpus(text);
    let ghost lv = lines@.map_values(|line: Vec<String>| views(line@));
    proof {
        assert(lv =~= lines@.map_values(|line: Vec<String>| strings_view(line@)));
    }
    let words = all_words(&lines);
    let vocabulary = build_vocabulary(words, min_unigram);
    let ghost v = views(vocabulary@);
    proof {
        reveal_strlit("<s>");
        reveal_strlit("</s>");
        reveal_strlit("<unk>");
        assert(v.contains(unknown_token()));
        assert(v.contains(bos_token()));
        assert(v.contains(eos_token()));
    }
    proof {
        reveal_strlit("<unk>");
        assert("<unk>"@ =~= unknown_token());
    }
    let unknown = match find_word(&vocabulary, "<unk>") {
        Some(i) => {
            proof {
                reveal_strlit("<unk>");
                assert("<unk>"@ =~= unknown_token());
                assert(v[i as int] == vocabulary@[i as int]@);
                lemma_unique_index(v, i as int, unknown_token());
            }
            i as u32
        },
        None => 0,
    };
    proof {
        reveal_strlit("<s>");
        reveal_strlit("</s>");
        assert("<s>"@ =~= bos_token());
        assert("</s>"@ =~= eos_token());
    }
    let bos = id_of(&vocabulary, "<s>", unknown);
    let eos = id_of(&vocabulary, "</s>", unknown);
    let (unigram_list, bigram_list, trigram_list) = collect_keys(&vocabulary, &lines, bos, eos, unknown);
    let ghost ss = sentences(v, lv);
    proof {
        lemma_keys_decode(ss);
    }
    let total = unigram_list.len() as u64;
    let (su, ru) = tally(unigram_list);
    let (sb, rb) = tally(bigram_list);
    let (st, rt) = tally(trigram_list);
    let mut markers: Vec<u128> = Vec::new();
    markers.push(bos as u128);
    markers.push(eos as u128);
    markers.push(unknown as u128);
    let uc = counted_keys(&su, &ru, min_unigram, &markers);
    let bc = counted_keys(&sb, &rb, min_bigram, &Vec::new());
    let tc = counted_keys(&st, &rt, min_trigram, &Vec::new());
    proof {
        lemma_counted_same(uc@, su@, unigram_keys(ss), min_unigram, markers@);
        lemma_counted_same(bc@, sb@, bigram_keys(ss), min_bigram, Seq::empty());
        lemma_counted_same(tc@, st@, trigram_keys(ss), min_trigram, Seq::empty());
    }
    let mut unigrams: Vec<(u32, u64)> = Vec::new();
    let mut i: usize = 0;
    while i < uc.len()
        invariant
            i <= uc@.len(),
            counted_ok(uc@, unigram_keys(ss), min_unigram, markers@),
            forall|j: int| 0 <= j < unigram_keys(ss).len() ==> is_word_key(#[trigger] unigram_keys(ss)[j]),
            unigram_entries(unigrams@) == uc@.take(i as int),
        decreases uc@.len() - i,
    {
        let (key, count) = uc[i];
        proof {
            lemma_listed_occurs(uc@, unigram_keys(ss), min_unigram, markers@, i as int);
            let j = choose|j: int| 0 <= j < unigram_keys(ss).len() && unigram_keys(ss)[j] == key;
            assert(is_word_key(unigram_keys(ss)[j]));
        }
        let ghost before = unigrams@;
        unigrams.push((key as u32, count));
        proof {
            assert(unigram_entries(unigrams@) =~= unigram_entries(before).push((key, count)));
            assert(uc@.take(i + 1) =~= uc@.take(i as int).push(uc@[i as int]));
        }
        i = i + 1;
    }
    let mut bigrams: Vec<(u32, u32, u64, u64)> = Vec::new();
    let mut i: usize = 0;
    while i < bc.len()
        invariant
            i <= bc@.len(),
            counted_ok(bc@, bigram_keys(ss), min_bigram, Seq::empty()),
            forall|j: int| 0 <= j < bigram_keys(ss).len() ==> is_pair_key(#[trigger] bigram_keys(ss)[j]),
            sorted_by(su@),
            runs_describe(su@, ru@),
            su@.to_multiset() == unigram_keys(ss).to_multiset(),
            bigram_entries(bigrams@) == bc@.take(i as int),
            forall|j: int|
                0 <= j < bigrams@.len() ==> (#[trigger] bigrams@[j]).3 == denominator(
                    count_in(unigram_keys(ss), bigrams@[j].0 as u128),
                ),
        decreases bc@.len() - i,
    {
        let (key, count) = bc[i];
        proof {
            lemma_listed_occurs(bc@, bigram_keys(ss), min_bigram, Seq::empty(), i as int);
            let j = choose|j: int| 0 <= j < bigram_keys(ss).len() && bigram_keys(ss)[j] == key;
            assert(is_pair_key(bigram_keys(ss)[j]));
        }
        let previous = (key >> 32u128) as u32;
        let current = (key & 0xffff_ffffu128) as u32;
        let history = count_of(&su, &ru, previous as u128);
        proof {
            lemma_count_multiset(su@, previous as u128);
            lemma_count_multiset(unigram_keys(ss), previous as u128);
        }
        let denominator_count: u64 = if history > 0 {
            history as u64
        } else {
            1
        };
        let ghost before = bigrams@;
        bigrams.push((previous, current, count, denominator_count));
        proof {
            assert(bigram_entries(bigrams@) =~= bigram_entries(before).push((key, count)));
            assert(bc@.take(i + 1) =~= bc@.take(i as int).push(bc@[i as int]));
            assert forall|j: int| 0 <= j < bigrams@.len() implies (#[trigger] bigrams@[j]).3 == denominator(
                count_in(unigram_keys(ss), bigrams@[j].0 as u128),
            ) by {
                if j < before.len() {
                    assert(bigrams@[j] == before[j]);
                }
            }
        }
        i = i + 1;
    }
    let mut trigrams: Vec<(u32, u32, u32, u64, u64)> = Vec::new();
    let mut i: usize = 0;
    while i < tc.len()
        invariant
            i <= tc@.len(),
            counted_ok(tc@, trigram_keys(ss), min_trigram, Seq::empty()),
            forall|j: int| 0 <= j < trigram_keys(ss).len() ==> is_triple_key(#[trigger] trigram_keys(ss)[j]),
            sorted_by(sb@),
            runs_describe(sb@, rb@),
            sb@.to_multiset() == bigram_keys(ss).to_multiset(),
            trigram_entries(trigrams@) == tc@.take(i as int),
            forall|j: int|
                0 <= j < trigrams@.len() ==> (#[trigger] trigrams@[j]).4 == denominator(
                    count_in(bigram_keys(ss), pair_key(trigrams@[j].0, trigrams@[j].1)),
                ),
        decreases tc@.len() - i,
    {
        let (key, count) = tc[i];
        proof {
            lemma_listed_occurs(tc@, trigram_keys(ss), min_trigram, Seq::empty(), i as int);
            let j = choose|j: int| 0 <= j < trigram_keys(ss).len() && trigram_keys(ss)[j] == key;
            assert(is_triple_key(trigram_keys(ss)[j]));
        }
        let first = (key >> 64u128) as u32;
        let second = ((key >> 32u128) & 0xffff_ffffu128) as u32;
        let third = (key & 0xffff_ffffu128) as u32;
        let history_key = ((first as u128) << 32u128) | (second as u128);
        let history = count_of(&sb, &rb, history_key);
        proof {
            lemma_count_multiset(sb@, history_key);
            lemma_count_multiset(bigram_keys(ss), history_key);
        }
        let denominator_count: u64 = if history > 0 {
            history as u64
        } else {
            1
        };
        let ghost before = trigrams@;
        trigrams.push((first, second, third, count, denominator_count));
        proof {
            assert(trigram_entries(trigrams@) =~= trigram_entries(before).push((key, count)));
            assert(tc@.take(i + 1) =~= tc@.take(i as int).push(tc@[i as int]));
            assert forall|j: int| 0 <= j < trigrams@.len() implies (#[trigger] trigrams@[j]).4 == denominator(
                count_in(bigram_keys(ss), pair_key(trigrams@[j].0, trigrams@[j].1)),
            ) by {
                if j < before.len() {
                    assert(trigrams@[j] == before[j]);
                }
            }
        }
        i = i + 1;
    }
    proof {
        assert(uc@.take(uc@.len() as int) =~= uc@);
        assert(bc@.take(bc@.len() as int) =~= bc@);
        assert(tc@.take(tc@.len() as int) =~= tc@);
        assert(lv == corpus_lines(text@));
        assert(markers@ =~= seq![
            word_id(v, bos_token()) as u128,
            word_id(v, eos_token()) as u128,
            word_id(v, unknown_token()) as u128,
        ]);
    }
    NgramCounts { vocabulary, total_unigrams: total, unigrams, bigrams, trigrams }
}

} // verus!
