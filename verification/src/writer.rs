//! Writing a dictionary in the `.mime` format: a header with the counts and the
//! section offsets, the entry records, a table holding each distinct string
//! once, the connection costs, and the language model tables.

use vstd::prelude::*;
use std::collections::HashMap;
use vstd::utf8::encode_utf8;
use crate::dictionary::{DictionaryEntry, EntryView};
use crate::text::{hash_text, lemma_encode_injective, text_hash};

verus! {

broadcast use vstd::std_specs::hash::group_hash_axioms;

pub const WRITTEN_HEADER_SIZE: u64 = 104;
pub const ENTRY_RECORD_SIZE: u64 = 24;
pub const VOCABULARY_RECORD_SIZE: u64 = 8;
pub const UNIGRAM_RECORD_SIZE: u64 = 8;
pub const BIGRAM_RECORD_SIZE: u64 = 12;
pub const TRIGRAM_RECORD_SIZE: u64 = 16;

/// Why a dictionary cannot be written: the string table would not fit the
/// 32-bit offsets and lengths of the format.
#[derive(Debug, Clone, Copy, PartialEq, Eq, Structural)]
pub enum WriteError {
    StringTableTooLarge,
    StringTooLong,
}

/// The bytes of `v`, least significant first.
pub open spec fn le16(v: u16) -> Seq<u8> {
    seq![(v & 0xff) as u8, (v >> 8) as u8]
}

pub open spec fn le32(v: u32) -> Seq<u8> {
    seq![(v & 0xff) as u8, ((v >> 8) & 0xff) as u8, ((v >> 16) & 0xff) as u8, (v >> 24) as u8]
}

pub open spec fn le64(v: u64) -> Seq<u8> {
    le32((v & 0xffff_ffff) as u32) + le32((v >> 32) as u32)
}

fn push_u16(out: &mut Vec<u8>, v: u16)
    ensures
        final(out)@ == old(out)@ + le16(v),
{
    out.push((v & 0xff) as u8);
    out.push((v >> 8) as u8);
    proof {
        assert(final(out)@ =~= old(out)@ + le16(v));
    }
}

fn push_u32(out: &mut Vec<u8>, v: u32)
    ensures
        final(out)@ == old(out)@ + le32(v),
{
    out.push((v & 0xff) as u8);
    out.push(((v >> 8) & 0xff) as u8);
    out.push(((v >> 16) & 0xff) as u8);
    out.push((v >> 24) as u8);
    proof {
        assert(final(out)@ =~= old(out)@ + le32(v));
    }
}

fn push_u64(out: &mut Vec<u8>, v: u64)
    ensures
        final(out)@ == old(out)@ + le64(v),
{
    push_u32(out, (v & 0xffff_ffff) as u32);
    push_u32(out, (v >> 32) as u32);
    proof {
        assert(final(out)@ =~= old(out)@ + le64(v));
    }
}

/// The string table so far and where each string already in it lies.
pub struct InternState {
    pub table: Seq<u8>,
    pub seen: Map<Seq<char>, (u32, u32)>,
}

/// Where `text` lies in the string table: where it already is, or appended at
/// its end.
pub open spec fn spec_intern(st: InternState, text: Seq<char>) -> Result<(InternState, (u32, u32)), WriteError> {
    if st.seen.contains_key(text) {
        Ok((st, st.seen[text]))
    } else if st.table.len() > u32::MAX {
        Err(WriteError::StringTableTooLarge)
    } else if encode_utf8(text).len() > u32::MAX {
        Err(WriteError::StringTooLong)
    } else {
        let at = (st.table.len() as u32, encode_utf8(text).len() as u32);
        Ok((InternState { table: st.table + encode_utf8(text), seen: st.seen.insert(text, at) }, at))
    }
}

/// Interning a text that was just interned gives the same place again and
/// leaves the table as it was.
pub proof fn lemma_intern_twice(st: InternState, text: Seq<char>)
    requires
        spec_intern(st, text) is Ok,
    ensures
        ({
            let (s2, at) = spec_intern(st, text)->Ok_0;
            spec_intern(s2, text) == Ok::<(InternState, (u32, u32)), WriteError>((s2, at))
        }),
{
}

/// Interning never takes anything out of the table: the old table is a prefix
/// of the new one, and each text interned before keeps its place.
pub proof fn lemma_intern_keeps(st: InternState, text: Seq<char>)
    requires
        spec_intern(st, text) is Ok,
    ensures
        ({
            let (s2, at) = spec_intern(st, text)->Ok_0;
            &&& s2.table.subrange(0, st.table.len() as int) == st.table
            &&& forall|t: Seq<char>| #[trigger] st.seen.contains_key(t) ==> s2.seen.contains_key(t) && s2.seen[t] == st.seen[t]
        }),
{
    let (s2, at) = spec_intern(st, text)->Ok_0;
    assert(s2.table.subrange(0, st.table.len() as int) =~= st.table);
}

/// Interns the first `k` of `texts` in turn, from `st`.
pub open spec fn spec_intern_all(st: InternState, texts: Seq<Seq<char>>, k: int) -> Result<
    (InternState, Seq<(u32, u32)>),
    WriteError,
>
    decreases k,
{
    if k <= 0 {
        Ok((st, Seq::empty()))
    } else {
        match spec_intern_all(st, texts, k - 1) {
            Err(e) => Err(e),
            Ok((s, refs)) => match spec_intern(s, texts[k - 1]) {
                Err(e) => Err(e),
                Ok((s2, r)) => Ok((s2, refs.push(r))),
            },
        }
    }
}

/// Each string seen lies in the table where it is recorded, and the bucket of
/// its hash lists that place; each listed place is that of a string seen.
pub open spec fn index_ok(table: Seq<u8>, seen: Map<Seq<char>, (u32, u32)>, buckets: Map<u64, Vec<(u32, u32)>>) -> bool {
    &&& forall|t: Seq<char>|
        #[trigger] seen.contains_key(t) ==> {
            let (o, l) = seen[t];
            &&& o + l <= table.len()
            &&& table.subrange(o as int, o + l) == encode_utf8(t)
            &&& buckets.contains_key(text_hash(t))
            &&& buckets[text_hash(t)]@.contains((o, l))
        }
    &&& forall|h: u64, j: int|
        #![trigger buckets[h]@[j]]
        buckets.contains_key(h) && 0 <= j < buckets[h]@.len() ==> exists|t: Seq<char>|
            #[trigger] seen.contains_key(t) && seen[t] == buckets[h]@[j] && text_hash(t) == h
}

proof fn lemma_index_add(
    table: Seq<u8>,
    seen: Map<Seq<char>, (u32, u32)>,
    buckets: Map<u64, Vec<(u32, u32)>>,
    text: Seq<char>,
    bucket: Vec<(u32, u32)>,
)
    requires
        index_ok(table, seen, buckets),
        !seen.contains_key(text),
        table.len() <= u32::MAX,
        encode_utf8(text).len() <= u32::MAX,
        bucket@ == (if buckets.contains_key(text_hash(text)) {
            buckets[text_hash(text)]@
        } else {
            Seq::empty()
        }).push((table.len() as u32, encode_utf8(text).len() as u32)),
    ensures
        index_ok(
            table + encode_utf8(text),
            seen.insert(text, (table.len() as u32, encode_utf8(text).len() as u32)),
            buckets.insert(text_hash(text), bucket),
        ),
{
    let at = (table.len() as u32, encode_utf8(text).len() as u32);
    let h = text_hash(text);
    let t2 = table + encode_utf8(text);
    let s2 = seen.insert(text, at);
    let b2 = buckets.insert(h, bucket);
    let old_len: int = if buckets.contains_key(h) {
        buckets[h]@.len() as int
    } else {
        0
    };
    assert forall|t: Seq<char>| #[trigger] s2.contains_key(t) implies {
        let (o, l) = s2[t];
        &&& o + l <= t2.len()
        &&& t2.subrange(o as int, o + l) == encode_utf8(t)
        &&& b2.contains_key(text_hash(t))
        &&& b2[text_hash(t)]@.contains((o, l))
    } by {
        let (o, l) = s2[t];
        if t == text {
            assert(t2.subrange(o as int, o + l) =~= encode_utf8(text));
            assert(b2[h]@[old_len] == at);
        } else {
            assert(seen.contains_key(t));
            assert(t2.subrange(o as int, o + l) =~= table.subrange(o as int, o + l));
            if text_hash(t) == h {
                let k = choose|k: int| 0 <= k < buckets[h]@.len() && buckets[h]@[k] == (o, l);
                assert(b2[h]@[k] == (o, l));
            }
        }
    }
    assert forall|g: u64, j: int| #![trigger b2[g]@[j]] b2.contains_key(g) && 0 <= j < b2[g]@.len() implies exists|t: Seq<char>|
        #[trigger] s2.contains_key(t) && s2[t] == b2[g]@[j] && text_hash(t) == g by {
        if g == h && j == old_len {
            assert(s2.contains_key(text) && s2[text] == b2[g]@[j]);
        } else {
            if g == h {
                assert(b2[g]@[j] == buckets[h]@[j]);
            }
            assert(buckets.contains_key(g) && 0 <= j < buckets[g]@.len());
            assert(b2[g]@[j] == buckets[g]@[j]);
            let t = choose|t: Seq<char>| #[trigger] seen.contains_key(t) && seen[t] == buckets[g]@[j] && text_hash(t) == g;
            assert(s2.contains_key(t) && s2[t] == b2[g]@[j]);
        }
    }
}

/// A string table with an index from text hashes to the strings in it.
pub struct Interner {
    strings: Vec<u8>,
    buckets: HashMap<u64, Vec<(u32, u32)>>,
    seen: Ghost<Map<Seq<char>, (u32, u32)>>,
}

impl Interner {
    pub closed spec fn state(self) -> InternState {
        InternState { table: self.strings@, seen: self.seen@ }
    }

    pub closed spec fn wf(self) -> bool {
        index_ok(self.strings@, self.seen@, self.buckets@)
    }

    pub fn new() -> (r: Self)
        ensures
            r.wf(),
            r.state() == (InternState { table: Seq::empty(), seen: Map::empty() }),
    {
        let r = Interner { strings: Vec::new(), buckets: HashMap::new(), seen: Ghost(Map::empty()) };
        proof {
            assert(r.strings@ =~= Seq::<u8>::empty());
        }
        r
    }

    pub fn into_table(self) -> (r: Vec<u8>)
        ensures
            r@ == self.state().table,
    {
        self.strings
    }

    /// Whether the table bytes at `(o, l)` are `bytes`.
    fn holds(&self, o: u32, l: u32, bytes: &[u8]) -> (r: bool)
        ensures
            r == (o + l <= self.strings@.len() && self.strings@.subrange(o as int, o + l) == bytes@),
    {
        let n = self.strings.len();
        let from = o as usize;
        let len = l as usize;
        if len != bytes.len() || from > n || len > n - from {
            proof {
                if o + l <= self.strings@.len() {
                    assert(self.strings@.subrange(o as int, o + l).len() == l);
                }
            }
            return false;
        }
        let mut i: usize = 0;
        while i < len
            invariant
                i <= len,
                from == o,
                len == l,
                len == bytes@.len(),
                n == self.strings@.len(),
                from + len <= n,
                forall|j: int| 0 <= j < i ==> self.strings@[from + j] == bytes@[j],
            decreases len - i,
        {
            if self.strings[from + i] != bytes[i] {
                proof {
                    assert(from == o && len == l);
                    assert(self.strings@.subrange(o as int, o + l)[i as int] == self.strings@[from + i]);
                }
                return false;
            }
            i = i + 1;
        }
        proof {
            assert(self.strings@.subrange(o as int, o + l) =~= bytes@);
        }
        true
    }

    /// Where `text` already lies in the table, if it does.
    fn lookup(&self, text: &str, h: u64) -> (r: Option<(u32, u32)>)
        requires
            self.wf(),
            h == text_hash(text@),
        ensures
            match r {
                Some(at) => self.seen@.contains_key(text@) && self.seen@[text@] == at,
                None => !self.seen@.contains_key(text@),
            },
    {
        let bytes = text.as_bytes();
        match self.buckets.get(&h) {
            None => {
                proof {
                    if self.seen@.contains_key(text@) {
                        assert(self.buckets@.contains_key(text_hash(text@)));
                    }
                }
                None
            },
            Some(bucket) => {
                let mut j: usize = 0;
                while j < bucket.len()
                    invariant
                        j <= bucket@.len(),
                        self.buckets@.contains_key(h),
                        bucket@ == self.buckets@[h]@,
                        index_ok(self.strings@, self.seen@, self.buckets@),
                        h == text_hash(text@),
                        bytes@ == encode_utf8(text@),
                        forall|i: int|
                            0 <= i < j ==> !(#[trigger] bucket@[i].0 + bucket@[i].1 <= self.strings@.len()
                                && self.strings@.subrange(bucket@[i].0 as int, bucket@[i].0 + bucket@[i].1) == bytes@),
                    decreases bucket@.len() - j,
                {
                    let (o, l) = bucket[j];
                    if self.holds(o, l, bytes) {
                        proof {
                            assert(self.buckets@[h]@[j as int] == (o, l));
                            let t = choose|t: Seq<char>|
                                #[trigger] self.seen@.contains_key(t) && self.seen@[t] == self.buckets@[h]@[j as int]
                                    && text_hash(t) == h;
                            lemma_encode_injective(t, text@);
                        }
                        return Some((o, l));
                    }
                    j = j + 1;
                }
                proof {
                    if self.seen@.contains_key(text@) {
                        let (o, l) = self.seen@[text@];
                        assert(bucket@.contains((o, l)));
                        let i = choose|i: int| 0 <= i < bucket@.len() && bucket@[i] == (o, l);
                        assert(bucket@[i].0 + bucket@[i].1 <= self.strings@.len());
                    }
                }
                None
            },
        }
    }

    /// Where `text` lies in the string table, adding it when it is not there yet.
    pub fn intern_string(&mut self, text: &str) -> (r: Result<(u32, u32), WriteError>)
        requires
            old(self).wf(),
        ensures
            match spec_intern(old(self).state(), text@) {
                Ok((st, at)) => r == Ok::<(u32, u32), WriteError>(at) && final(self).state() == st && final(self).wf(),
                Err(e) => r == Err::<(u32, u32), WriteError>(e) && final(self).state() == old(self).state()
                    && final(self).wf(),
            },
    {
        let h = hash_text(text);
        if let Some(at) = self.lookup(text, h) {
            return Ok(at);
        }
        let bytes = text.as_bytes();
        if self.strings.len() > u32::MAX as usize {
            return Err(WriteError::StringTableTooLarge);
        }
        if bytes.len() > u32::MAX as usize {
            return Err(WriteError::StringTooLong);
        }
        let at = (self.strings.len() as u32, bytes.len() as u32);
        let ghost old_strings = self.strings@;
        let ghost old_seen = self.seen@;
        let ghost old_buckets = self.buckets@;
        let mut i: usize = 0;
        while i < bytes.len()
            invariant
                i <= bytes@.len(),
                self.strings@ == old_strings + bytes@.take(i as int),
                self.buckets@ == old_buckets,
                self.seen@ == old_seen,
            decreases bytes@.len() - i,
        {
            self.strings.push(bytes[i]);
            proof {
                assert(bytes@.take(i + 1) =~= bytes@.take(i as int).push(bytes@[i as int]));
            }
            i = i + 1;
        }
        proof {
            assert(bytes@.take(bytes@.len() as int) =~= bytes@);
        }
        let mut bucket = match self.buckets.remove(&h) {
            Some(b) => b,
            None => Vec::new(),
        };
        bucket.push(at);
        proof {
            lemma_index_add(old_strings, old_seen, old_buckets, text@, bucket);
        }
        self.buckets.insert(h, bucket);
        self.seen = Ghost(old_seen.insert(text@, at));
        proof {
            assert(self.buckets@ =~= old_buckets.insert(h, bucket));
        }
        Ok(at)
    }
}

/// The language model tables that the compiler writes: the vocabulary, then
/// the unigram, bigram and trigram costs.
pub struct LanguageModelSource {
    pub vocabulary: Vec<String>,
    pub unigrams: Vec<(u32, i32)>,
    pub bigrams: Vec<(u32, u32, i32)>,
    pub trigrams: Vec<(u32, u32, u32, i32)>,
}

pub struct LanguageModelSourceView {
    pub vocabulary: Seq<Seq<char>>,
    pub unigrams: Seq<(u32, i32)>,
    pub bigrams: Seq<(u32, u32, i32)>,
    pub trigrams: Seq<(u32, u32, u32, i32)>,
}

impl View for LanguageModelSource {
    type V = LanguageModelSourceView;

    open spec fn view(&self) -> LanguageModelSourceView {
        LanguageModelSourceView {
            vocabulary: self.vocabulary@.map_values(|w: String| w@),
            unigrams: self.unigrams@,
            bigrams: self.bigrams@,
            trigrams: self.trigrams@,
        }
    }
}

/// The strings in the order they are interned: each entry's reading then its
/// surface, then the vocabulary.
pub open spec fn string_order(entries: Seq<EntryView>, vocabulary: Seq<Seq<char>>) -> Seq<Seq<char>> {
    Seq::new(
        (2 * entries.len() + vocabulary.len()) as nat,
        |i: int|
            if i < 2 * entries.len() {
                if i % 2 == 0 {
                    entries[i / 2].reading
                } else {
                    entries[i / 2].surface
                }
            } else {
                vocabulary[i - 2 * entries.len()]
            },
    )
}

/// The parts one after another.
pub open spec fn flatten_bytes(parts: Seq<Seq<u8>>) -> Seq<u8>
    decreases parts.len(),
{
    if parts.len() == 0 {
        Seq::empty()
    } else {
        flatten_bytes(parts.drop_last()) + parts.last()
    }
}

proof fn lemma_flatten_new(n: int, f: spec_fn(int) -> Seq<u8>)
    requires
        n >= 0,
    ensures
        flatten_bytes(Seq::new((n + 1) as nat, f)) == flatten_bytes(Seq::new(n as nat, f)) + f(n),
{
    assert(Seq::new((n + 1) as nat, f).drop_last() =~= Seq::new(n as nat, f));
}

pub open spec fn entry_record(e: EntryView, reading: (u32, u32), surface: (u32, u32)) -> Seq<u8> {
    le32(reading.0) + le32(reading.1) + le32(surface.0) + le32(surface.1) + le16(e.left_id) + le16(e.right_id) + le16(
        e.cost as u16,
    ) + le16(0)
}

/// The section offsets: the header, the entries, the strings, the costs, the
/// vocabulary, the unigrams, the bigrams, the trigrams, and the end.
pub open spec fn section_offsets(
    entry_count: usize,
    table_len: usize,
    cost_count: usize,
    lm: LanguageModelSourceView,
) -> Seq<u64> {
    let entry = WRITTEN_HEADER_SIZE;
    let string = entry.wrapping_add(ENTRY_RECORD_SIZE.wrapping_mul(entry_count as u64));
    let matrix = string.wrapping_add(table_len as u64);
    let vocabulary = matrix.wrapping_add((cost_count as u64).wrapping_mul(2));
    let unigram = vocabulary.wrapping_add(VOCABULARY_RECORD_SIZE.wrapping_mul(lm.vocabulary.len() as u64));
    let bigram = unigram.wrapping_add(UNIGRAM_RECORD_SIZE.wrapping_mul(lm.unigrams.len() as u64));
    let trigram = bigram.wrapping_add(BIGRAM_RECORD_SIZE.wrapping_mul(lm.bigrams.len() as u64));
    let end = trigram.wrapping_add(TRIGRAM_RECORD_SIZE.wrapping_mul(lm.trigrams.len() as u64));
    seq![entry, string, matrix, vocabulary, unigram, bigram, trigram, end]
}

pub open spec fn header_counts(
    entry_count: usize,
    previous_size: usize,
    next_size: usize,
    lm: LanguageModelSourceView,
) -> Seq<u8> {
    seq![0x4du8, 0x49u8, 0x4du8, 0x45u8] + le16(1) + le16(0) + le32(entry_count as u32) + le32(previous_size as u32)
        + le32(next_size as u32) + le32(lm.vocabulary.len() as u32) + le32(lm.unigrams.len() as u32) + le32(
        lm.bigrams.len() as u32,
    ) + le32(lm.trigrams.len() as u32) + le32(0)
}

pub open spec fn header_offsets(offsets: Seq<u64>) -> Seq<u8> {
    le64(offsets[0]) + le64(offsets[1]) + le64(offsets[2]) + le64(offsets[3]) + le64(offsets[4]) + le64(offsets[5])
        + le64(offsets[6]) + le64(offsets[7])
}

/// The header: the magic, the version, the counts and the section offsets.
#[verifier::opaque]
pub open spec fn header_bytes(
    entry_count: usize,
    previous_size: usize,
    next_size: usize,
    lm: LanguageModelSourceView,
    offsets: Seq<u64>,
) -> Seq<u8> {
    header_counts(entry_count, previous_size, next_size, lm) + header_offsets(offsets)
}

#[verifier::opaque]
pub open spec fn entry_section(entries: Seq<EntryView>, refs: Seq<(u32, u32)>) -> Seq<u8> {
    flatten_bytes(Seq::new(entries.len(), |i: int| entry_record(entries[i], refs[2 * i], refs[2 * i + 1])))
}

#[verifier::opaque]
pub open spec fn cost_section(costs: Seq<i16>) -> Seq<u8> {
    flatten_bytes(Seq::new(costs.len(), |i: int| le16(costs[i] as u16)))
}

#[verifier::opaque]
pub open spec fn vocabulary_section(count: int, refs: Seq<(u32, u32)>, first: int) -> Seq<u8> {
    flatten_bytes(Seq::new(count as nat, |i: int| le32(refs[first + i].0) + le32(refs[first + i].1)))
}

#[verifier::opaque]
pub open spec fn unigram_section(u: Seq<(u32, i32)>) -> Seq<u8> {
    flatten_bytes(Seq::new(u.len(), |i: int| le32(u[i].0) + le32(u[i].1 as u32)))
}

#[verifier::opaque]
pub open spec fn bigram_section(b: Seq<(u32, u32, i32)>) -> Seq<u8> {
    flatten_bytes(Seq::new(b.len(), |i: int| le32(b[i].0) + le32(b[i].1) + le32(b[i].2 as u32)))
}

#[verifier::opaque]
pub open spec fn trigram_section(t: Seq<(u32, u32, u32, i32)>) -> Seq<u8> {
    flatten_bytes(Seq::new(t.len(), |i: int| le32(t[i].0) + le32(t[i].1) + le32(t[i].2) + le32(t[i].3 as u32)))
}

/// The `.mime` bytes of a dictionary, or why its strings do not fit the format.
pub open spec fn spec_encode_mime(
    entries: Seq<EntryView>,
    previous_size: usize,
    next_size: usize,
    costs: Seq<i16>,
    lm: LanguageModelSourceView,
) -> Result<Seq<u8>, WriteError> {
    let order = string_order(entries, lm.vocabulary);
    match spec_intern_all(InternState { table: Seq::empty(), seen: Map::empty() }, order, order.len() as int) {
        Err(e) => Err(e),
        Ok((st, refs)) => {
            let offsets = section_offsets(entries.len() as usize, st.table.len() as usize, costs.len() as usize, lm);
            Ok(
                header_bytes(entries.len() as usize, previous_size, next_size, lm, offsets) + entry_section(entries, refs)
                    + st.table + cost_section(costs) + vocabulary_section(
                    lm.vocabulary.len() as int,
                    refs,
                    (2 * entries.len()) as int,
                ) + unigram_section(lm.unigrams) + bigram_section(lm.bigrams) + trigram_section(lm.trigrams),
            )
        },
    }
}

proof fn lemma_intern_all_error_sticks(st: InternState, texts: Seq<Seq<char>>, k: int, n: int)
    requires
        0 <= k <= n,
        spec_intern_all(st, texts, k) is Err,
    ensures
        spec_intern_all(st, texts, n) == spec_intern_all(st, texts, k),
    decreases n - k,
{
    if n > k {
        lemma_intern_all_error_sticks(st, texts, k, n - 1);
    }
}

/// Interns `text` as string number `k` of `order`.
fn intern_next(
    interner: &mut Interner,
    refs: &mut Vec<(u32, u32)>,
    text: &str,
    Ghost(order): Ghost<Seq<Seq<char>>>,
) -> (r: Result<(), WriteError>)
    requires
        old(interner).wf(),
        old(refs)@.len() < order.len(),
        order[old(refs)@.len() as int] == text@,
        spec_intern_all(InternState { table: Seq::empty(), seen: Map::empty() }, order, old(refs)@.len() as int) == Ok::<
            (InternState, Seq<(u32, u32)>),
            WriteError,
        >((old(interner).state(), old(refs)@)),
    ensures
        match spec_intern_all(
            InternState { table: Seq::empty(), seen: Map::empty() },
            order,
            (old(refs)@.len() + 1) as int,
        ) {
            Ok((st, rs)) => r is Ok && final(interner).wf() && final(interner).state() == st && final(refs)@ == rs,
            Err(e) => r == Err::<(), WriteError>(e),
        },
        r is Ok ==> final(refs)@.len() == old(refs)@.len() + 1,
{
    match interner.intern_string(text) {
        Ok(at) => {
            refs.push(at);
            Ok(())
        },
        Err(e) => Err(e),
    }
}

/// Interns each entry's reading and surface, then the vocabulary.
fn intern_strings(entries: &[DictionaryEntry], vocabulary: &Vec<String>) -> (r: Result<
    (Vec<u8>, Vec<(u32, u32)>),
    WriteError,
>)
    ensures
        ({
            let order = string_order(entries@.map_values(|e: DictionaryEntry| e@), vocabulary@.map_values(|w: String| w@));
            match spec_intern_all(InternState { table: Seq::empty(), seen: Map::empty() }, order, order.len() as int) {
                Ok((st, rs)) => r matches Ok(v) && v.0@ == st.table && v.1@ == rs,
                Err(e) => r == Err::<(Vec<u8>, Vec<(u32, u32)>), WriteError>(e),
            }
        }),
        r matches Ok(v) ==> v.1@.len() == 2 * entries@.len() + vocabulary@.len(),
{
    let ghost ev = entries@.map_values(|e: DictionaryEntry| e@);
    let ghost vv = vocabulary@.map_values(|w: String| w@);
    let ghost order = string_order(ev, vv);
    let ghost empty = InternState { table: Seq::empty(), seen: Map::empty() };
    let ghost total = order.len() as int;
    let mut interner = Interner::new();
    let mut refs: Vec<(u32, u32)> = Vec::new();
    let n = entries.len();
    let mut i: usize = 0;
    while i < n
        invariant
            i <= n,
            n == entries@.len(),
            ev == entries@.map_values(|e: DictionaryEntry| e@),
            vv == vocabulary@.map_values(|w: String| w@),
            order == string_order(ev, vv),
            empty == (InternState { table: Seq::empty(), seen: Map::empty() }),
            total == order.len(),
            refs@.len() == 2 * i,
            interner.wf(),
            spec_intern_all(empty, order, refs@.len() as int) == Ok::<(InternState, Seq<(u32, u32)>), WriteError>(
                (interner.state(), refs@),
            ),
        decreases n - i,
    {
        proof {
            assert((2 * i) % 2 == 0 && (2 * i) / 2 == i) by (nonlinear_arith);
            assert((2 * i + 1) % 2 == 1 && (2 * i + 1) / 2 == i) by (nonlinear_arith);
            assert(order[2 * i] == entries@[i as int].reading@);
            assert(order[2 * i + 1] == entries@[i as int].surface@);
        }
        if let Err(e) = intern_next(&mut interner, &mut refs, entries[i].reading.as_str(), Ghost(order)) {
            proof {
                lemma_intern_all_error_sticks(empty, order, 2 * i + 1, total);
            }
            return Err(e);
        }
        if let Err(e) = intern_next(&mut interner, &mut refs, entries[i].surface.as_str(), Ghost(order)) {
            proof {
                lemma_intern_all_error_sticks(empty, order, 2 * i + 2, total);
            }
            return Err(e);
        }
        i = i + 1;
    }
    let mut j: usize = 0;
    while j < vocabulary.len()
        invariant
            j <= vocabulary@.len(),
            n == entries@.len(),
            ev == entries@.map_values(|e: DictionaryEntry| e@),
            vv == vocabulary@.map_values(|w: String| w@),
            order == string_order(ev, vv),
            empty == (InternState { table: Seq::empty(), seen: Map::empty() }),
            ev.len() == n,
            total == order.len(),
            refs@.len() == 2 * n + j,
            interner.wf(),
            spec_intern_all(empty, order, refs@.len() as int) == Ok::<(InternState, Seq<(u32, u32)>), WriteError>(
                (interner.state(), refs@),
            ),
        decreases vocabulary@.len() - j,
    {
        proof {
            assert(order[2 * n + j] == vv[j as int]);
        }
        if let Err(e) = intern_next(&mut interner, &mut refs, vocabulary[j].as_str(), Ghost(order)) {
            proof {
                lemma_intern_all_error_sticks(empty, order, 2 * n + j + 1, total);
            }
            return Err(e);
        }
        j = j + 1;
    }
    let ghost st = interner.state();
    let table = interner.into_table();
    Ok((table, refs))
}

fn write_counts(
    out: &mut Vec<u8>,
    entry_count: usize,
    previous_size: usize,
    next_size: usize,
    language_model: &LanguageModelSource,
)
    ensures
        final(out)@ == old(out)@ + header_counts(entry_count, previous_size, next_size, language_model@),
{
    let ghost start = out@;
    out.push(0x4d);
    out.push(0x49);
    out.push(0x4d);
    out.push(0x45);
    let ghost m = out@;
    push_u16(out, 1);
    push_u16(out, 0);
    push_u32(out, entry_count as u32);
    push_u32(out, previous_size as u32);
    push_u32(out, next_size as u32);
    push_u32(out, language_model.vocabulary.len() as u32);
    push_u32(out, language_model.unigrams.len() as u32);
    push_u32(out, language_model.bigrams.len() as u32);
    push_u32(out, language_model.trigrams.len() as u32);
    push_u32(out, 0);
    proof {
        assert(m =~= start + seq![0x4du8, 0x49u8, 0x4du8, 0x45u8]);
        assert(out@ =~= start + header_counts(entry_count, previous_size, next_size, language_model@));
    }
}

fn write_offsets(out: &mut Vec<u8>, offsets: [u64; 8])
    ensures
        final(out)@ == old(out)@ + header_offsets(offsets@),
{
    let ghost start = out@;
    push_u64(out, offsets[0]);
    push_u64(out, offsets[1]);
    push_u64(out, offsets[2]);
    push_u64(out, offsets[3]);
    push_u64(out, offsets[4]);
    push_u64(out, offsets[5]);
    push_u64(out, offsets[6]);
    push_u64(out, offsets[7]);
    proof {
        assert(out@ =~= start + header_offsets(offsets@));
    }
}

fn write_header(
    out: &mut Vec<u8>,
    entry_count: usize,
    previous_size: usize,
    next_size: usize,
    table_len: usize,
    cost_count: usize,
    language_model: &LanguageModelSource,
)
    ensures
        final(out)@ == old(out)@ + header_bytes(
            entry_count,
            previous_size,
            next_size,
            language_model@,
            section_offsets(entry_count, table_len, cost_count, language_model@),
        ),
{
    let entry_offset: u64 = WRITTEN_HEADER_SIZE;
    let string_offset: u64 = entry_offset.wrapping_add(ENTRY_RECORD_SIZE.wrapping_mul(entry_count as u64));
    let matrix_offset: u64 = string_offset.wrapping_add(table_len as u64);
    let vocabulary_offset: u64 = matrix_offset.wrapping_add((cost_count as u64).wrapping_mul(2));
    let unigram_offset: u64 = vocabulary_offset.wrapping_add(
        VOCABULARY_RECORD_SIZE.wrapping_mul(language_model.vocabulary.len() as u64),
    );
    let bigram_offset: u64 = unigram_offset.wrapping_add(
        UNIGRAM_RECORD_SIZE.wrapping_mul(language_model.unigrams.len() as u64),
    );
    let trigram_offset: u64 = bigram_offset.wrapping_add(
        BIGRAM_RECORD_SIZE.wrapping_mul(language_model.bigrams.len() as u64),
    );
    let end_offset: u64 = trigram_offset.wrapping_add(
        TRIGRAM_RECORD_SIZE.wrapping_mul(language_model.trigrams.len() as u64),
    );
    let offsets: [u64; 8] = [
        entry_offset,
        string_offset,
        matrix_offset,
        vocabulary_offset,
        unigram_offset,
        bigram_offset,
        trigram_offset,
        end_offset,
    ];
    let ghost start = out@;
    write_counts(out, entry_count, previous_size, next_size, language_model);
    write_offsets(out, offsets);
    proof {
        reveal(header_bytes);
        assert(offsets@ =~= section_offsets(entry_count, table_len, cost_count, language_model@));
    }
}

fn write_entries(out: &mut Vec<u8>, entries: &[DictionaryEntry], refs: &Vec<(u32, u32)>)
    requires
        refs@.len() >= 2 * entries@.len(),
    ensures
        final(out)@ == old(out)@ + entry_section(entries@.map_values(|e: DictionaryEntry| e@), refs@),
{
    let ghost ev = entries@.map_values(|e: DictionaryEntry| e@);
    let ghost rs = refs@;
    let ghost head = out@;
    let n = entries.len();
    let ref_count = refs.len();
    let mut k: usize = 0;
    while k < n
        invariant
            k <= n,
            ref_count == refs@.len(),
            n == entries@.len(),
            ev == entries@.map_values(|e: DictionaryEntry| e@),
            rs == refs@,
            rs.len() >= 2 * n,
            out@ == head + flatten_bytes(Seq::new(k as nat, |i: int| entry_record(ev[i], rs[2 * i], rs[2 * i + 1]))),
        decreases n - k,
    {
        let (r0, r1) = refs[2 * k];
        let (s0, s1) = refs[2 * k + 1];
        let e = &entries[k];
        let ghost before = out@;
        push_u32(out, r0);
        push_u32(out, r1);
        push_u32(out, s0);
        push_u32(out, s1);
        push_u16(out, e.left_id);
        push_u16(out, e.right_id);
        push_u16(out, e.cost as u16);
        push_u16(out, 0);
        proof {
            lemma_flatten_new(k as int, |i: int| entry_record(ev[i], rs[2 * i], rs[2 * i + 1]));
            assert(ev[k as int] == e@);
            assert(out@ =~= before + entry_record(ev[k as int], rs[2 * k], rs[2 * k + 1]));
        }
        k = k + 1;
    }
    proof {
        reveal(entry_section);
        assert(Seq::new(n as nat, |i: int| entry_record(ev[i], rs[2 * i], rs[2 * i + 1])) =~= Seq::new(
            ev.len(),
            |i: int| entry_record(ev[i], rs[2 * i], rs[2 * i + 1]),
        ));
    }
}

fn write_bytes(out: &mut Vec<u8>, bytes: &Vec<u8>)
    ensures
        final(out)@ == old(out)@ + bytes@,
{
    let ghost head = out@;
    let mut k: usize = 0;
    while k < bytes.len()
        invariant
            k <= bytes@.len(),
            out@ == head + bytes@.take(k as int),
        decreases bytes@.len() - k,
    {
        out.push(bytes[k]);
        proof {
            assert(bytes@.take(k + 1) =~= bytes@.take(k as int).push(bytes@[k as int]));
        }
        k = k + 1;
    }
    proof {
        assert(bytes@.take(bytes@.len() as int) =~= bytes@);
    }
}

fn write_costs(out: &mut Vec<u8>, matrix: &[i16])
    ensures
        final(out)@ == old(out)@ + cost_section(matrix@),
{
    let ghost head = out@;
    let mut k: usize = 0;
    while k < matrix.len()
        invariant
            k <= matrix@.len(),
            out@ == head + flatten_bytes(Seq::new(k as nat, |i: int| le16(matrix@[i] as u16))),
        decreases matrix@.len() - k,
    {
        push_u16(out, matrix[k] as u16);
        proof {
            lemma_flatten_new(k as int, |i: int| le16(matrix@[i] as u16));
        }
        k = k + 1;
    }
    proof {
        reveal(cost_section);
        assert(Seq::new(matrix@.len() as nat, |i: int| le16(matrix@[i] as u16)) =~= Seq::new(
            matrix@.len(),
            |i: int| le16(matrix@[i] as u16),
        ));
    }
}

fn write_vocabulary(out: &mut Vec<u8>, refs: &Vec<(u32, u32)>, first: usize, count: usize)
    requires
        first + count <= refs@.len(),
    ensures
        final(out)@ == old(out)@ + vocabulary_section(count as int, refs@, first as int),
{
    let ghost head = out@;
    let ghost rs = refs@;
    let ref_count = refs.len();
    let mut k: usize = 0;
    while k < count
        invariant
            k <= count,
            ref_count == refs@.len(),
            first + count <= refs@.len(),
            rs == refs@,
            out@ == head + flatten_bytes(Seq::new(k as nat, |i: int| le32(rs[first + i].0) + le32(rs[first + i].1))),
        decreases count - k,
    {
        let (o, l) = refs[first + k];
        let ghost before = out@;
        push_u32(out, o);
        push_u32(out, l);
        proof {
            lemma_flatten_new(k as int, |i: int| le32(rs[first + i].0) + le32(rs[first + i].1));
            assert(out@ =~= before + (le32(rs[first + k].0) + le32(rs[first + k].1)));
        }
        k = k + 1;
    }
    proof {
        reveal(vocabulary_section);
    }
}

fn write_unigrams(out: &mut Vec<u8>, unigrams: &Vec<(u32, i32)>)
    ensures
        final(out)@ == old(out)@ + unigram_section(unigrams@),
{
    let ghost head = out@;
    let mut k: usize = 0;
    while k < unigrams.len()
        invariant
            k <= unigrams@.len(),
            out@ == head + flatten_bytes(Seq::new(k as nat, |i: int| le32(unigrams@[i].0) + le32(unigrams@[i].1 as u32))),
        decreases unigrams@.len() - k,
    {
        let (w, c) = unigrams[k];
        let ghost before = out@;
        push_u32(out, w);
        push_u32(out, c as u32);
        proof {
            lemma_flatten_new(k as int, |i: int| le32(unigrams@[i].0) + le32(unigrams@[i].1 as u32));
            assert(out@ =~= before + (le32(unigrams@[k as int].0) + le32(unigrams@[k as int].1 as u32)));
        }
        k = k + 1;
    }
    proof {
        reveal(unigram_section);
        assert(Seq::new(unigrams@.len() as nat, |i: int| le32(unigrams@[i].0) + le32(unigrams@[i].1 as u32)) =~= Seq::new(
            unigrams@.len(),
            |i: int| le32(unigrams@[i].0) + le32(unigrams@[i].1 as u32),
        ));
    }
}

fn write_bigrams(out: &mut Vec<u8>, bigrams: &Vec<(u32, u32, i32)>)
    ensures
        final(out)@ == old(out)@ + bigram_section(bigrams@),
{
    let ghost head = out@;
    let mut k: usize = 0;
    while k < bigrams.len()
        invariant
            k <= bigrams@.len(),
            out@ == head + flatten_bytes(
                Seq::new(k as nat, |i: int| le32(bigrams@[i].0) + le32(bigrams@[i].1) + le32(bigrams@[i].2 as u32)),
            ),
        decreases bigrams@.len() - k,
    {
        let (p, q, c) = bigrams[k];
        let ghost before = out@;
        push_u32(out, p);
        push_u32(out, q);
        push_u32(out, c as u32);
        proof {
            lemma_flatten_new(k as int, |i: int| le32(bigrams@[i].0) + le32(bigrams@[i].1) + le32(bigrams@[i].2 as u32));
            assert(out@ =~= before + (le32(bigrams@[k as int].0) + le32(bigrams@[k as int].1) + le32(
                bigrams@[k as int].2 as u32,
            )));
        }
        k = k + 1;
    }
    proof {
        reveal(bigram_section);
        assert(Seq::new(
            bigrams@.len() as nat,
            |i: int| le32(bigrams@[i].0) + le32(bigrams@[i].1) + le32(bigrams@[i].2 as u32),
        ) =~= Seq::new(bigrams@.len(), |i: int| le32(bigrams@[i].0) + le32(bigrams@[i].1) + le32(bigrams@[i].2 as u32)));
    }
}

fn write_trigrams(out: &mut Vec<u8>, trigrams: &Vec<(u32, u32, u32, i32)>)
    ensures
        final(out)@ == old(out)@ + trigram_section(trigrams@),
{
    let ghost head = out@;
    let mut k: usize = 0;
    while k < trigrams.len()
        invariant
            k <= trigrams@.len(),
            out@ == head + flatten_bytes(
                Seq::new(
                    k as nat,
                    |i: int| le32(trigrams@[i].0) + le32(trigrams@[i].1) + le32(trigrams@[i].2) + le32(trigrams@[i].3 as u32),
                ),
            ),
        decreases trigrams@.len() - k,
    {
        let (a, b, c, d) = trigrams[k];
        let ghost before = out@;
        push_u32(out, a);
        push_u32(out, b);
        push_u32(out, c);
        push_u32(out, d as u32);
        proof {
            lemma_flatten_new(
                k as int,
                |i: int| le32(trigrams@[i].0) + le32(trigrams@[i].1) + le32(trigrams@[i].2) + le32(trigrams@[i].3 as u32),
            );
            assert(out@ =~= before + (le32(trigrams@[k as int].0) + le32(trigrams@[k as int].1) + le32(
                trigrams@[k as int].2,
            ) + le32(trigrams@[k as int].3 as u32)));
        }
        k = k + 1;
    }
    proof {
        reveal(trigram_section);
        assert(Seq::new(
            trigrams@.len() as nat,
            |i: int| le32(trigrams@[i].0) + le32(trigrams@[i].1) + le32(trigrams@[i].2) + le32(trigrams@[i].3 as u32),
        ) =~= Seq::new(
            trigrams@.len(),
            |i: int| le32(trigrams@[i].0) + le32(trigrams@[i].1) + le32(trigrams@[i].2) + le32(trigrams@[i].3 as u32),
        ));
    }
}

proof fn lemma_encoding(
    ev: Seq<EntryView>,
    previous_size: usize,
    next_size: usize,
    costs: Seq<i16>,
    lm: LanguageModelSourceView,
    table: Seq<u8>,
    refs: Seq<(u32, u32)>,
)
    requires
        ({
            let order = string_order(ev, lm.vocabulary);
            spec_intern_all(InternState { table: Seq::empty(), seen: Map::empty() }, order, order.len() as int) matches Ok(
                (st, rs),
            ) && st.table == table && rs == refs
        }),
    ensures
        spec_encode_mime(ev, previous_size, next_size, costs, lm) == Ok::<Seq<u8>, WriteError>(
            header_bytes(
                ev.len() as usize,
                previous_size,
                next_size,
                lm,
                section_offsets(ev.len() as usize, table.len() as usize, costs.len() as usize, lm),
            ) + entry_section(ev, refs) + table + cost_section(costs) + vocabulary_section(
                lm.vocabulary.len() as int,
                refs,
                (2 * ev.len()) as int,
            ) + unigram_section(lm.unigrams) + bigram_section(lm.bigrams) + trigram_section(lm.trigrams),
        ),
{
}

/// The `.mime` bytes of a dictionary with `entries` (in order), the connection
/// costs `matrix` of a `previous_size` by `next_size` table, and `language_model`.
pub fn encode_mime(
    entries: &[DictionaryEntry],
    previous_size: usize,
    next_size: usize,
    matrix: &[i16],
    language_model: &LanguageModelSource,
) -> (r: Result<Vec<u8>, WriteError>)
    ensures
        match spec_encode_mime(
            entries@.map_values(|e: DictionaryEntry| e@),
            previous_size,
            next_size,
            matrix@,
            language_model@,
        ) {
            Ok(bytes) => r matches Ok(v) && v@ == bytes,
            Err(e) => r == Err::<Vec<u8>, WriteError>(e),
        },
{
    let ghost ev = entries@.map_values(|e: DictionaryEntry| e@);
    let ghost lm = language_model@;
    let (table, refs) = match intern_strings(entries, &language_model.vocabulary) {
        Ok(v) => v,
        Err(e) => {
            return Err(e);
        },
    };
    let ghost order = string_order(ev, lm.vocabulary);
    proof {
        assert(order.len() == 2 * entries@.len() + language_model.vocabulary@.len());
    }
    let mut out: Vec<u8> = Vec::new();
    write_header(&mut out, entries.len(), previous_size, next_size, table.len(), matrix.len(), language_model);
    let ghost a = out@;
    write_entries(&mut out, entries, &refs);
    let ghost b = out@;
    write_bytes(&mut out, &table);
    let ghost c = out@;
    write_costs(&mut out, matrix);
    let ghost d = out@;
    let first_vocabulary_ref: usize = refs.len() - language_model.vocabulary.len();
    write_vocabulary(&mut out, &refs, first_vocabulary_ref, language_model.vocabulary.len());
    let ghost e = out@;
    write_unigrams(&mut out, &language_model.unigrams);
    let ghost f = out@;
    write_bigrams(&mut out, &language_model.bigrams);
    let ghost g = out@;
    write_trigrams(&mut out, &language_model.trigrams);
    proof {
        lemma_encoding(ev, previous_size, next_size, matrix@, lm, table@, refs@);
        assert(out@ =~= header_bytes(
            entries@.len() as usize,
            previous_size,
            next_size,
            lm,
            section_offsets(entries@.len() as usize, table@.len() as usize, matrix@.len() as usize, lm),
        ) + entry_section(ev, refs@) + table@ + cost_section(matrix@) + vocabulary_section(
            lm.vocabulary.len() as int,
            refs@,
            (2 * ev.len()) as int,
        ) + unigram_section(lm.unigrams) + bigram_section(lm.bigrams) + trigram_section(lm.trigrams));
    }
    Ok(out)
}

} // verus!
