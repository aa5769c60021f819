//! The n-gram language model stored in a `.mime` dictionary.

use std::collections::HashMap;
use vstd::prelude::*;
use crate::candidate::LanguageModelOrder;
use crate::error::Error;
use crate::mime::{
    le_i32, le_u32, lemma_record_in_table, read_i32, read_u32, BIGRAM_SIZE, TRIGRAM_SIZE, UNIGRAM_SIZE, VOCAB_ENTRY_SIZE,
};
use crate::text::{hash_text, str_from_utf8, text_hash};
use vstd::utf8::{decode_utf8, valid_utf8};

verus! {

broadcast use vstd::std_specs::hash::group_hash_axioms;

pub const BACKOFF_PENALTY: i32 = 500;
pub const UNKNOWN_COST: i32 = 12000;

/// The price the language model puts on one word, with how it was found.
#[derive(Debug, Clone, Copy, PartialEq, Eq)]
pub struct LanguageModelCost {
    pub cost: i32,
    pub order: LanguageModelOrder,
    pub backoff_penalty: i32,
    pub unknown: bool,
}

/// The key under which the bigram `(previous, current)` is stored.
pub open spec fn pair_key(previous: u32, current: u32) -> u64 {
    (previous as int * 0x1_0000_0000 + current as int) as u64
}

/// The key under which the trigram `(before_previous, previous, current)` is stored.
pub open spec fn triple_key(before_previous: u32, previous: u32, current: u32) -> u128 {
    (before_previous as int * 0x1_0000_0000_0000_0000 + previous as int * 0x1_0000_0000
        + current as int) as u128
}

fn pack_pair(previous: u32, current: u32) -> (r: u64)
    ensures
        r == pair_key(previous, current),
{
    previous as u64 * 0x1_0000_0000 + current as u64
}

fn pack_triple(before_previous: u32, previous: u32, current: u32) -> (r: u128)
    ensures
        r == triple_key(before_previous, previous, current),
{
    before_previous as u128 * 0x1_0000_0000_0000_0000 + previous as u128 * 0x1_0000_0000
        + current as u128
}

/// The id of the word `s` in `vocabulary[..n]`: the last position holding it,
/// since a later occurrence of a word replaces an earlier one.
pub open spec fn word_last(vocabulary: Seq<Seq<char>>, s: Seq<char>, n: int) -> Option<u32>
    decreases n,
{
    if n <= 0 {
        None
    } else if vocabulary[n - 1] == s {
        Some((n - 1) as u32)
    } else {
        word_last(vocabulary, s, n - 1)
    }
}

/// The id of the word `s` in `vocabulary`, if it is there.
pub open spec fn spec_word_id(vocabulary: Seq<Seq<char>>, s: Seq<char>) -> Option<u32> {
    word_last(vocabulary, s, vocabulary.len() as int)
}

/// The ids among the first `n` words whose hash is `h`, ascending.
pub open spec fn ids_with_hash(vocabulary: Seq<Seq<char>>, h: u64, n: int) -> Seq<u32>
    decreases n,
{
    if n <= 0 {
        Seq::empty()
    } else if text_hash(vocabulary[n - 1]) == h {
        ids_with_hash(vocabulary, h, n - 1).push((n - 1) as u32)
    } else {
        ids_with_hash(vocabulary, h, n - 1)
    }
}

/// The last id in `ids` whose word is `s`.
pub open spec fn last_match(vocabulary: Seq<Seq<char>>, s: Seq<char>, ids: Seq<u32>) -> Option<u32>
    decreases ids.len(),
{
    if ids.len() == 0 {
        None
    } else if vocabulary[ids.last() as int] == s {
        Some(ids.last())
    } else {
        last_match(vocabulary, s, ids.drop_last())
    }
}

proof fn lemma_bucket_lookup(vocabulary: Seq<Seq<char>>, s: Seq<char>, n: int)
    requires
        0 <= n <= vocabulary.len(),
        n <= 0x1_0000_0000,
    ensures
        last_match(vocabulary, s, ids_with_hash(vocabulary, text_hash(s), n)) == word_last(
            vocabulary,
            s,
            n,
        ),
    decreases n,
{
    if n > 0 {
        lemma_bucket_lookup(vocabulary, s, n - 1);
        let ids = ids_with_hash(vocabulary, text_hash(s), n);
        if text_hash(vocabulary[n - 1]) == text_hash(s) {
            assert(ids.drop_last() == ids_with_hash(vocabulary, text_hash(s), n - 1));
        }
    }
}

proof fn lemma_ids_bounded(vocabulary: Seq<Seq<char>>, h: u64, n: int)
    requires
        n <= 0x1_0000_0000,
    ensures
        forall|i: int|
            0 <= i < ids_with_hash(vocabulary, h, n).len() ==> ids_with_hash(vocabulary, h, n)[i]
                < n,
    decreases n,
{
    if n > 0 {
        lemma_ids_bounded(vocabulary, h, n - 1);
        let prev = ids_with_hash(vocabulary, h, n - 1);
        let cur = ids_with_hash(vocabulary, h, n);
        assert forall|i: int| 0 <= i < cur.len() implies cur[i] < n by {
            if i < prev.len() {
                assert(cur[i] == prev[i]);
            }
        }
    }
}

/// The vocabulary hash index is complete and exact for `vocabulary`.
pub open spec fn index_matches(vocabulary: Seq<Seq<char>>, buckets: Map<u64, Vec<u32>>) -> bool {
    &&& forall|h: u64|
        #[trigger] buckets.contains_key(h) <==> ids_with_hash(vocabulary, h, vocabulary.len() as int).len() > 0
    &&& forall|h: u64|
        #[trigger] buckets.contains_key(h) ==> buckets[h]@ == ids_with_hash(
            vocabulary,
            h,
            vocabulary.len() as int,
        )
}

pub open spec fn strings_view(v: Seq<String>) -> Seq<Seq<char>> {
    v.map_values(|s: String| s@)
}

/// An n-gram language model: a vocabulary of words numbered by position, and
/// unigram, bigram and trigram costs over word ids.
#[derive(Debug)]
pub struct LanguageModel {
    vocabulary: Vec<String>,
    buckets: HashMap<u64, Vec<u32>>,
    unigrams: HashMap<u32, i32>,
    bigrams: HashMap<u64, i32>,
    trigrams: HashMap<u128, i32>,
    bos_id: Option<u32>,
    eos_id: Option<u32>,
    unknown_id: Option<u32>,
}

impl LanguageModel {
    #[verifier::type_invariant]
    spec fn well_formed(self) -> bool {
        &&& self.vocabulary@.len() <= 0x1_0000_0000
        &&& index_matches(strings_view(self.vocabulary@), self.buckets@)
        &&& self.bos_id == spec_word_id(strings_view(self.vocabulary@), "<s>"@)
        &&& self.eos_id == spec_word_id(strings_view(self.vocabulary@), "</s>"@)
        &&& self.unknown_id == spec_word_id(strings_view(self.vocabulary@), "<unk>"@)
    }

    /// The words of the vocabulary, indexed by word id.
    pub closed spec fn spec_vocabulary(self) -> Seq<Seq<char>> {
        strings_view(self.vocabulary@)
    }

    /// Unigram costs by word id.
    pub closed spec fn spec_unigrams(self) -> Map<u32, i32> {
        self.unigrams@
    }

    /// Bigram costs by `pair_key`.
    pub closed spec fn spec_bigrams(self) -> Map<u64, i32> {
        self.bigrams@
    }

    /// Trigram costs by `triple_key`.
    pub closed spec fn spec_trigrams(self) -> Map<u128, i32> {
        self.trigrams@
    }

    pub open spec fn spec_bos_id(self) -> Option<u32> {
        spec_word_id(self.spec_vocabulary(), "<s>"@)
    }

    pub open spec fn spec_eos_id(self) -> Option<u32> {
        spec_word_id(self.spec_vocabulary(), "</s>"@)
    }

    pub open spec fn spec_unknown_id(self) -> Option<u32> {
        spec_word_id(self.spec_vocabulary(), "<unk>"@)
    }

    /// The model without words, under which every word costs nothing.
    pub fn empty() -> (r: Self)
        ensures
            r.spec_vocabulary() == Seq::<Seq<char>>::empty(),
            r.spec_unigrams() == Map::<u32, i32>::empty(),
            r.spec_bigrams() == Map::<u64, i32>::empty(),
            r.spec_trigrams() == Map::<u128, i32>::empty(),
    {
        let vocabulary: Vec<String> = Vec::new();
        proof {
            assert(strings_view(vocabulary@) =~= Seq::<Seq<char>>::empty());
            assert forall|h: u64| ids_with_hash(strings_view(vocabulary@), h, 0).len() == 0 by {}
        }
        LanguageModel {
            vocabulary,
            buckets: HashMap::new(),
            unigrams: HashMap::new(),
            bigrams: HashMap::new(),
            trigrams: HashMap::new(),
            bos_id: None,
            eos_id: None,
            unknown_id: None,
        }
    }

    /// The id of `surface`, if the vocabulary holds it.
    pub fn word_id(&self, surface: &String) -> (r: Option<u32>)
        ensures
            r == spec_word_id(self.spec_vocabulary(), surface@),
    {
        proof {
            use_type_invariant(self);
        }
        word_id_in(&self.vocabulary, &self.buckets, surface)
    }
}


/// The map built by inserting the pairs of `s` in order; a later pair replaces
/// an earlier one with the same key.
pub open spec fn entries_to_map<K, V>(s: Seq<(K, V)>) -> Map<K, V>
    decreases s.len(),
{
    if s.len() == 0 {
        Map::empty()
    } else {
        entries_to_map(s.drop_last()).insert(s.last().0, s.last().1)
    }
}

/// The mathematical value of a language model.
pub struct LanguageModelView {
    pub vocabulary: Seq<Seq<char>>,
    pub unigrams: Map<u32, i32>,
    pub bigrams: Map<u64, i32>,
    pub trigrams: Map<u128, i32>,
}

impl LanguageModel {
    pub open spec fn spec_view(self) -> LanguageModelView {
        LanguageModelView {
            vocabulary: self.spec_vocabulary(),
            unigrams: self.spec_unigrams(),
            bigrams: self.spec_bigrams(),
            trigrams: self.spec_trigrams(),
        }
    }
}

/// The word stored by the vocabulary record at `offset`.
pub open spec fn spec_vocabulary_word(bytes: Seq<u8>, table: Seq<u8>, offset: int) -> Result<
    Seq<char>,
    Error,
> {
    if offset + 8 > bytes.len() {
        Err(Error::InvalidDictionary("truncated language model vocabulary"))
    } else {
        let start = le_u32(bytes, offset);
        let len = le_u32(bytes, offset + 4);
        if start + len > usize::MAX {
            Err(Error::InvalidDictionary("language model string range overflow"))
        } else if start + len > table.len() {
            Err(Error::InvalidDictionary("language model string is outside string table"))
        } else if !valid_utf8(table.subrange(start, start + len)) {
            Err(Error::InvalidUtf8)
        } else {
            Ok(decode_utf8(table.subrange(start, start + len)))
        }
    }
}

/// The first `count` vocabulary words of the table at `offset`, or the error of
/// the first word that cannot be read.
pub open spec fn spec_vocabulary(bytes: Seq<u8>, table: Seq<u8>, offset: int, count: int) -> Result<
    Seq<Seq<char>>,
    Error,
>
    decreases count,
{
    if count <= 0 {
        Ok(Seq::empty())
    } else {
        match spec_vocabulary(bytes, table, offset, count - 1) {
            Err(e) => Err(e),
            Ok(words) => match spec_vocabulary_word(
                bytes,
                table,
                offset + (count - 1) * VOCAB_ENTRY_SIZE,
            ) {
                Err(e) => Err(e),
                Ok(w) => Ok(words.push(w)),
            },
        }
    }
}

/// The unigram records `(word, cost)` of the section at `offset`.
pub open spec fn spec_unigram_records(bytes: Seq<u8>, offset: int, count: int) -> Seq<(u32, i32)> {
    Seq::new(
        count as nat,
        |i: int|
            (
                le_u32(bytes, offset + i * UNIGRAM_SIZE) as u32,
                le_i32(bytes, offset + i * UNIGRAM_SIZE + 4) as i32,
            ),
    )
}

/// The bigram records of the section at `offset`, keyed by `pair_key`.
pub open spec fn spec_bigram_records(bytes: Seq<u8>, offset: int, count: int) -> Seq<(u64, i32)> {
    Seq::new(
        count as nat,
        |i: int|
            (
                pair_key(
                    le_u32(bytes, offset + i * BIGRAM_SIZE) as u32,
                    le_u32(bytes, offset + i * BIGRAM_SIZE + 4) as u32,
                ),
                le_i32(bytes, offset + i * BIGRAM_SIZE + 8) as i32,
            ),
    )
}

/// The trigram records of the section at `offset`, keyed by `triple_key`.
pub open spec fn spec_trigram_records(bytes: Seq<u8>, offset: int, count: int) -> Seq<(u128, i32)> {
    Seq::new(
        count as nat,
        |i: int|
            (
                triple_key(
                    le_u32(bytes, offset + i * TRIGRAM_SIZE) as u32,
                    le_u32(bytes, offset + i * TRIGRAM_SIZE + 4) as u32,
                    le_u32(bytes, offset + i * TRIGRAM_SIZE + 8) as u32,
                ),
                le_i32(bytes, offset + i * TRIGRAM_SIZE + 12) as i32,
            ),
    )
}

/// The placement of the language model sections, or the error that rejects it.
pub open spec fn spec_language_model_layout(
    len: int,
    vocabulary_count: int,
    unigram_count: int,
    bigram_count: int,
    trigram_count: int,
    vocabulary_offset: int,
    unigram_offset: int,
    bigram_offset: int,
    trigram_offset: int,
    end_offset: int,
) -> Result<(), Error> {
    if vocabulary_count * VOCAB_ENTRY_SIZE > usize::MAX {
        Err(Error::InvalidDictionary("language model vocabulary size overflow"))
    } else if vocabulary_offset + vocabulary_count * VOCAB_ENTRY_SIZE > usize::MAX {
        Err(Error::InvalidDictionary("language model vocabulary overflow"))
    } else if unigram_count * UNIGRAM_SIZE > usize::MAX {
        Err(Error::InvalidDictionary("unigram size overflow"))
    } else if unigram_offset + unigram_count * UNIGRAM_SIZE > usize::MAX {
        Err(Error::InvalidDictionary("unigram section overflow"))
    } else if bigram_count * BIGRAM_SIZE > usize::MAX {
        Err(Error::InvalidDictionary("bigram size overflow"))
    } else if bigram_offset + bigram_count * BIGRAM_SIZE > usize::MAX {
        Err(Error::InvalidDictionary("bigram section overflow"))
    } else if trigram_count * TRIGRAM_SIZE > usize::MAX {
        Err(Error::InvalidDictionary("trigram size overflow"))
    } else if trigram_offset + trigram_count * TRIGRAM_SIZE > usize::MAX {
        Err(Error::InvalidDictionary("trigram section overflow"))
    } else if vocabulary_offset + vocabulary_count * VOCAB_ENTRY_SIZE > unigram_offset
        || unigram_offset + unigram_count * UNIGRAM_SIZE > bigram_offset
        || bigram_offset + bigram_count * BIGRAM_SIZE > trigram_offset
        || trigram_offset + trigram_count * TRIGRAM_SIZE > end_offset || end_offset > len {
        Err(Error::InvalidDictionary("language model section offsets are invalid"))
    } else {
        Ok(())
    }
}

/// The language model stored in `bytes`, or the error that rejects it.
pub open spec fn spec_parse_language_model(
    bytes: Seq<u8>,
    table: Seq<u8>,
    vocabulary_count: int,
    unigram_count: int,
    bigram_count: int,
    trigram_count: int,
    vocabulary_offset: int,
    unigram_offset: int,
    bigram_offset: int,
    trigram_offset: int,
    end_offset: int,
) -> Result<LanguageModelView, Error> {
    match spec_language_model_layout(
        bytes.len() as int,
        vocabulary_count,
        unigram_count,
        bigram_count,
        trigram_count,
        vocabulary_offset,
        unigram_offset,
        bigram_offset,
        trigram_offset,
        end_offset,
    ) {
        Err(e) => Err(e),
        Ok(()) => match spec_vocabulary(bytes, table, vocabulary_offset, vocabulary_count) {
            Err(e) => Err(e),
            Ok(vocabulary) => Ok(
                LanguageModelView {
                    vocabulary,
                    unigrams: entries_to_map(
                        spec_unigram_records(bytes, unigram_offset, unigram_count),
                    ),
                    bigrams: entries_to_map(spec_bigram_records(bytes, bigram_offset, bigram_count)),
                    trigrams: entries_to_map(
                        spec_trigram_records(bytes, trigram_offset, trigram_count),
                    ),
                },
            ),
        },
    }
}

proof fn lemma_entries_to_map_step<K, V>(s: Seq<(K, V)>, i: int)
    requires
        0 <= i < s.len(),
    ensures
        entries_to_map(s.take(i + 1)) == entries_to_map(s.take(i)).insert(s[i].0, s[i].1),
{
    assert(s.take(i + 1).drop_last() =~= s.take(i));
}

impl LanguageModel {
    /// Reads the language model sections of a `.mime` dictionary. `table` is the
    /// string table the vocabulary records point into.
    pub(crate) fn from_mime_bytes(
        bytes: &[u8],
        table: &[u8],
        vocabulary_count: usize,
        unigram_count: usize,
        bigram_count: usize,
        trigram_count: usize,
        vocabulary_offset: usize,
        unigram_offset: usize,
        bigram_offset: usize,
        trigram_offset: usize,
        end_offset: usize,
    ) -> (r: Result<Self, Error>)
        requires
            vocabulary_count <= u32::MAX,
        ensures
            match spec_parse_language_model(
                bytes@,
                table@,
                vocabulary_count as int,
                unigram_count as int,
                bigram_count as int,
                trigram_count as int,
                vocabulary_offset as int,
                unigram_offset as int,
                bigram_offset as int,
                trigram_offset as int,
                end_offset as int,
            ) {
                Ok(m) => r matches Ok(lm) && lm.spec_view() == m,
                Err(e) => r == Err::<Self, Error>(e),
            },
    {
        check_language_model_layout(
            bytes.len(),
            vocabulary_count,
            unigram_count,
            bigram_count,
            trigram_count,
            vocabulary_offset,
            unigram_offset,
            bigram_offset,
            trigram_offset,
            end_offset,
        )?;
        let vocabulary = read_vocabulary(bytes, table, vocabulary_offset, vocabulary_count)?;
        let buckets = index_vocabulary(&vocabulary);
        let unigrams = read_unigrams(bytes, unigram_offset, unigram_count);
        let bigrams = read_bigrams(bytes, bigram_offset, bigram_count);
        let trigrams = read_trigrams(bytes, trigram_offset, trigram_count);
        let bos_id = word_id_in(&vocabulary, &buckets, &"<s>".to_owned());
        let eos_id = word_id_in(&vocabulary, &buckets, &"</s>".to_owned());
        let unknown_id = word_id_in(&vocabulary, &buckets, &"<unk>".to_owned());
        Ok(LanguageModel { vocabulary, buckets, unigrams, bigrams, trigrams, bos_id, eos_id, unknown_id })
    }
}


proof fn lemma_vocabulary_error_sticks(bytes: Seq<u8>, table: Seq<u8>, offset: int, k: int, count: int)
    requires
        0 <= k <= count,
        spec_vocabulary(bytes, table, offset, k) is Err,
    ensures
        spec_vocabulary(bytes, table, offset, count) == spec_vocabulary(bytes, table, offset, k),
    decreases count - k,
{
    if k < count {
        lemma_vocabulary_error_sticks(bytes, table, offset, k + 1, count);
    }
}

/// Checks the placement of the language model sections.
fn check_language_model_layout(
    len: usize,
    vocabulary_count: usize,
    unigram_count: usize,
    bigram_count: usize,
    trigram_count: usize,
    vocabulary_offset: usize,
    unigram_offset: usize,
    bigram_offset: usize,
    trigram_offset: usize,
    end_offset: usize,
) -> (r: Result<(), Error>)
    ensures
        r == spec_language_model_layout(
            len as int,
            vocabulary_count as int,
            unigram_count as int,
            bigram_count as int,
            trigram_count as int,
            vocabulary_offset as int,
            unigram_offset as int,
            bigram_offset as int,
            trigram_offset as int,
            end_offset as int,
        ),
{
    let vocabulary_end = match vocabulary_count.checked_mul(VOCAB_ENTRY_SIZE) {
        None => return Err(Error::InvalidDictionary("language model vocabulary size overflow")),
        Some(size) => match vocabulary_offset.checked_add(size) {
            None => return Err(Error::InvalidDictionary("language model vocabulary overflow")),
            Some(end) => end,
        },
    };
    let unigram_end = match unigram_count.checked_mul(UNIGRAM_SIZE) {
        None => return Err(Error::InvalidDictionary("unigram size overflow")),
        Some(size) => match unigram_offset.checked_add(size) {
            None => return Err(Error::InvalidDictionary("unigram section overflow")),
            Some(end) => end,
        },
    };
    let bigram_end = match bigram_count.checked_mul(BIGRAM_SIZE) {
        None => return Err(Error::InvalidDictionary("bigram size overflow")),
        Some(size) => match bigram_offset.checked_add(size) {
            None => return Err(Error::InvalidDictionary("bigram section overflow")),
            Some(end) => end,
        },
    };
    let trigram_end = match trigram_count.checked_mul(TRIGRAM_SIZE) {
        None => return Err(Error::InvalidDictionary("trigram size overflow")),
        Some(size) => match trigram_offset.checked_add(size) {
            None => return Err(Error::InvalidDictionary("trigram section overflow")),
            Some(end) => end,
        },
    };
    if vocabulary_end > unigram_offset || unigram_end > bigram_offset || bigram_end
        > trigram_offset || trigram_end > end_offset || end_offset > len {
        return Err(Error::InvalidDictionary("language model section offsets are invalid"));
    }
    Ok(())
}

/// Reads `count` vocabulary records at `offset`.
fn read_vocabulary(bytes: &[u8], table: &[u8], offset: usize, count: usize) -> (r: Result<Vec<String>, Error>)
    requires
        offset + count * VOCAB_ENTRY_SIZE <= bytes@.len(),
    ensures
        match spec_vocabulary(bytes@, table@, offset as int, count as int) {
            Ok(words) => r matches Ok(v) && strings_view(v@) == words,
            Err(e) => r == Err::<Vec<String>, Error>(e),
        },
        r matches Ok(v) ==> v@.len() == count,
{
    // Reading the length tells the proof that it fits a `usize`.
    let _len: usize = bytes.len();
    let mut vocabulary: Vec<String> = Vec::new();
    proof {
        assert(strings_view(vocabulary@) =~= Seq::<Seq<char>>::empty());
    }
    let mut word_id: usize = 0;
    while word_id < count
        invariant
            word_id <= count,
            offset + count * VOCAB_ENTRY_SIZE <= bytes@.len(),
            bytes@.len() <= usize::MAX,
            spec_vocabulary(bytes@, table@, offset as int, word_id as int) == Ok::<
                Seq<Seq<char>>,
                Error,
            >(strings_view(vocabulary@)),
            vocabulary@.len() == word_id,
        decreases count - word_id,
    {
        proof {
            lemma_record_in_table(word_id as int, count as int, VOCAB_ENTRY_SIZE as int);
        }
        let record = offset + word_id * VOCAB_ENTRY_SIZE;
        let start = read_u32(bytes, record).unwrap() as usize;
        let len = read_u32(bytes, record + 4).unwrap() as usize;
        let end = match start.checked_add(len) {
            None => {
                proof {
                    lemma_vocabulary_error_sticks(bytes@, table@, offset as int, word_id + 1, count as int);
                }
                return Err(Error::InvalidDictionary("language model string range overflow"));
            },
            Some(end) => end,
        };
        if end > table.len() {
            proof {
                lemma_vocabulary_error_sticks(bytes@, table@, offset as int, word_id + 1, count as int);
            }
            return Err(Error::InvalidDictionary("language model string is outside string table"));
        }
        let word = match str_from_utf8(vstd::slice::slice_subrange(table, start, end)) {
            None => {
                proof {
                    lemma_vocabulary_error_sticks(bytes@, table@, offset as int, word_id + 1, count as int);
                }
                return Err(Error::InvalidUtf8);
            },
            Some(text) => text.to_owned(),
        };
        let ghost before = vocabulary@;
        vocabulary.push(word);
        proof {
            assert(strings_view(vocabulary@) =~= strings_view(before).push(word@));
        }
        word_id = word_id + 1;
    }
    Ok(vocabulary)
}

/// Builds the hash index of `vocabulary`.
fn index_vocabulary(vocabulary: &Vec<String>) -> (r: HashMap<u64, Vec<u32>>)
    requires
        vocabulary@.len() <= 0x1_0000_0000,
    ensures
        index_matches(strings_view(vocabulary@), r@),
{
    let mut buckets: HashMap<u64, Vec<u32>> = HashMap::new();
    let ghost words = strings_view(vocabulary@);
    let mut index: usize = 0;
    while index < vocabulary.len()
        invariant
            index <= vocabulary@.len(),
            vocabulary@.len() <= 0x1_0000_0000,
            words == strings_view(vocabulary@),
            forall|h: u64|
                #[trigger] buckets@.contains_key(h) <==> ids_with_hash(words, h, index as int).len() > 0,
            forall|h: u64|
                #[trigger] buckets@.contains_key(h) ==> buckets@[h]@ == ids_with_hash(
                    words,
                    h,
                    index as int,
                ),
        decreases vocabulary@.len() - index,
    {
        let h = hash_text(vocabulary[index].as_str());
        let mut bucket = match buckets.remove(&h) {
            Some(b) => b,
            None => Vec::new(),
        };
        bucket.push(index as u32);
        buckets.insert(h, bucket);
        index = index + 1;
    }
    buckets
}

/// Reads `count` unigram records at `offset`.
fn read_unigrams(bytes: &[u8], offset: usize, count: usize) -> (r: HashMap<u32, i32>)
    requires
        offset + count * UNIGRAM_SIZE <= bytes@.len(),
    ensures
        r@ == entries_to_map(spec_unigram_records(bytes@, offset as int, count as int)),
{
    // Reading the length tells the proof that it fits a `usize`.
    let _len: usize = bytes.len();
    let ghost records = spec_unigram_records(bytes@, offset as int, count as int);
    let mut unigrams: HashMap<u32, i32> = HashMap::new();
    let mut i: usize = 0;
    while i < count
        invariant
            i <= count,
            offset + count * UNIGRAM_SIZE <= bytes@.len(),
            bytes@.len() <= usize::MAX,
            records == spec_unigram_records(bytes@, offset as int, count as int),
            unigrams@ == entries_to_map(records.take(i as int)),
        decreases count - i,
    {
        proof {
            lemma_record_in_table(i as int, count as int, UNIGRAM_SIZE as int);
            lemma_entries_to_map_step(records, i as int);
        }
        let record = offset + i * UNIGRAM_SIZE;
        let word = read_u32(bytes, record).unwrap();
        let cost = read_i32(bytes, record + 4).unwrap();
        unigrams.insert(word, cost);
        i = i + 1;
    }
    proof {
        assert(records.take(count as int) =~= records);
    }
    unigrams
}

/// Reads `count` bigram records at `offset`.
fn read_bigrams(bytes: &[u8], offset: usize, count: usize) -> (r: HashMap<u64, i32>)
    requires
        offset + count * BIGRAM_SIZE <= bytes@.len(),
    ensures
        r@ == entries_to_map(spec_bigram_records(bytes@, offset as int, count as int)),
{
    // Reading the length tells the proof that it fits a `usize`.
    let _len: usize = bytes.len();
    let ghost records = spec_bigram_records(bytes@, offset as int, count as int);
    let mut bigrams: HashMap<u64, i32> = HashMap::new();
    let mut i: usize = 0;
    while i < count
        invariant
            i <= count,
            offset + count * BIGRAM_SIZE <= bytes@.len(),
            bytes@.len() <= usize::MAX,
            records == spec_bigram_records(bytes@, offset as int, count as int),
            bigrams@ == entries_to_map(records.take(i as int)),
        decreases count - i,
    {
        proof {
            lemma_record_in_table(i as int, count as int, BIGRAM_SIZE as int);
            lemma_entries_to_map_step(records, i as int);
        }
        let record = offset + i * BIGRAM_SIZE;
        let previous = read_u32(bytes, record).unwrap();
        let current = read_u32(bytes, record + 4).unwrap();
        let cost = read_i32(bytes, record + 8).unwrap();
        bigrams.insert(pack_pair(previous, current), cost);
        i = i + 1;
    }
    proof {
        assert(records.take(count as int) =~= records);
    }
    bigrams
}

/// Reads `count` trigram records at `offset`.
fn read_trigrams(bytes: &[u8], offset: usize, count: usize) -> (r: HashMap<u128, i32>)
    requires
        offset + count * TRIGRAM_SIZE <= bytes@.len(),
    ensures
        r@ == entries_to_map(spec_trigram_records(bytes@, offset as int, count as int)),
{
    // Reading the length tells the proof that it fits a `usize`.
    let _len: usize = bytes.len();
    let ghost records = spec_trigram_records(bytes@, offset as int, count as int);
    let mut trigrams: HashMap<u128, i32> = HashMap::new();
    let mut i: usize = 0;
    while i < count
        invariant
            i <= count,
            offset + count * TRIGRAM_SIZE <= bytes@.len(),
            bytes@.len() <= usize::MAX,
            records == spec_trigram_records(bytes@, offset as int, count as int),
            trigrams@ == entries_to_map(records.take(i as int)),
        decreases count - i,
    {
        proof {
            lemma_record_in_table(i as int, count as int, TRIGRAM_SIZE as int);
            lemma_entries_to_map_step(records, i as int);
        }
        let record = offset + i * TRIGRAM_SIZE;
        let before_previous = read_u32(bytes, record).unwrap();
        let previous = read_u32(bytes, record + 4).unwrap();
        let current = read_u32(bytes, record + 8).unwrap();
        let cost = read_i32(bytes, record + 12).unwrap();
        trigrams.insert(pack_triple(before_previous, previous, current), cost);
        i = i + 1;
    }
    proof {
        assert(records.take(count as int) =~= records);
    }
    trigrams
}

/// Looks `surface` up in `vocabulary` through its hash index.
fn word_id_in(vocabulary: &Vec<String>, buckets: &HashMap<u64, Vec<u32>>, surface: &String) -> (r: Option<u32>)
    requires
        vocabulary@.len() <= 0x1_0000_0000,
        index_matches(strings_view(vocabulary@), buckets@),
    ensures
        r == spec_word_id(strings_view(vocabulary@), surface@),
{
    let ghost v = strings_view(vocabulary@);
    let h = hash_text(surface.as_str());
    proof {
        lemma_bucket_lookup(v, surface@, v.len() as int);
    }
    match buckets.get(&h) {
        None => {
            proof {
                assert(!buckets@.contains_key(h));
            }
            None
        },
        Some(bucket) => {
            let mut j = bucket.len();
            proof {
                assert(bucket@.take(j as int) =~= bucket@);
                lemma_ids_bounded(v, h, v.len() as int);
            }
            while j > 0
                invariant
                    j <= bucket@.len(),
                    bucket@ == ids_with_hash(v, h, v.len() as int),
                    h == text_hash(surface@),
                    last_match(v, surface@, ids_with_hash(v, text_hash(surface@), v.len() as int))
                        == word_last(v, surface@, v.len() as int),
                    v == strings_view(vocabulary@),
                    vocabulary@.len() <= 0x1_0000_0000,
                    last_match(v, surface@, bucket@.take(j as int)) == last_match(v, surface@, bucket@),
                    forall|i: int| 0 <= i < bucket@.len() ==> bucket@[i] < vocabulary@.len(),
                decreases j,
            {
                let id = bucket[j - 1];
                if vocabulary[id as usize] == *surface {
                    proof {
                        assert(bucket@.take(j as int).last() == id);
                        assert(v[id as int] == surface@);
                        assert(last_match(v, surface@, bucket@.take(j as int)) == Some(id));
                        assert(h == text_hash(surface@));
                    }
                    return Some(id);
                }
                proof {
                    assert(bucket@.take(j as int).drop_last() =~= bucket@.take(j - 1));
                }
                j = j - 1;
            }
            None
        },
    }
}

} // verus!

verus! {

/// `a + b` clamped to the range of `i32`.
pub open spec fn saturating_sum(a: i32, b: i32) -> i32 {
    if a + b > i32::MAX {
        i32::MAX
    } else if a + b < i32::MIN {
        i32::MIN
    } else {
        (a + b) as i32
    }
}

/// `a + b` clamped to the range of `i32`, as `i32::saturating_add` computes it.
pub fn saturating_add(a: i32, b: i32) -> (r: i32)
    ensures
        r == saturating_sum(a, b),
{
    let sum = a as i64 + b as i64;
    if sum > i32::MAX as i64 {
        i32::MAX
    } else if sum < i32::MIN as i64 {
        i32::MIN
    } else {
        sum as i32
    }
}

/// The cheaper of a previous best and a new price; the previous one wins ties.
pub open spec fn spec_min_cost(previous: Option<LanguageModelCost>, current: LanguageModelCost) -> LanguageModelCost {
    match previous {
        Some(p) => if p.cost <= current.cost { p } else { current },
        None => current,
    }
}

pub fn min_cost(previous: Option<LanguageModelCost>, current: LanguageModelCost) -> (r: LanguageModelCost)
    ensures
        r == spec_min_cost(previous, current),
{
    match previous {
        Some(p) => if p.cost <= current.cost { p } else { current },
        None => current,
    }
}

pub open spec fn unknown_word_cost() -> LanguageModelCost {
    LanguageModelCost { cost: UNKNOWN_COST, order: LanguageModelOrder::Unknown, backoff_penalty: 0, unknown: true }
}

/// The price of `current` after `before_previous previous`: the cheapest of the
/// trigram, the bigram plus one backoff penalty and the unigram plus two, among
/// those the model holds; the unknown-word price when none applies or `current`
/// is not a word; nothing when the model has no vocabulary.
pub open spec fn spec_cost_details(
    m: LanguageModelView,
    before_previous: Option<u32>,
    previous: Option<u32>,
    current: Option<u32>,
) -> LanguageModelCost {
    if m.vocabulary.len() == 0 {
        LanguageModelCost { cost: 0, order: LanguageModelOrder::Disabled, backoff_penalty: 0, unknown: false }
    } else {
        match current {
            None => unknown_word_cost(),
            Some(c) => {
                let bigram = match previous {
                    Some(p) => if m.bigrams.contains_key(pair_key(p, c)) {
                        Some(
                            LanguageModelCost {
                                cost: saturating_sum(m.bigrams[pair_key(p, c)], BACKOFF_PENALTY),
                                order: LanguageModelOrder::Bigram,
                                backoff_penalty: BACKOFF_PENALTY,
                                unknown: false,
                            },
                        )
                    } else {
                        None
                    },
                    None => None,
                };
                let best = match (before_previous, previous) {
                    (Some(b), Some(p)) => if m.trigrams.contains_key(triple_key(b, p, c)) {
                        Some(
                            spec_min_cost(
                                bigram,
                                LanguageModelCost {
                                    cost: m.trigrams[triple_key(b, p, c)],
                                    order: LanguageModelOrder::Trigram,
                                    backoff_penalty: 0,
                                    unknown: false,
                                },
                            ),
                        )
                    } else {
                        bigram
                    },
                    _ => bigram,
                };
                if m.unigrams.contains_key(c) {
                    spec_min_cost(
                        best,
                        LanguageModelCost {
                            cost: saturating_sum(m.unigrams[c], 1000),
                            order: LanguageModelOrder::Unigram,
                            backoff_penalty: 1000,
                            unknown: false,
                        },
                    )
                } else {
                    match best {
                        Some(b) => b,
                        None => unknown_word_cost(),
                    }
                }
            },
        }
    }
}

impl LanguageModel {
    /// The context a sentence starts in: no word, then the sentence-start token.
    pub fn initial_context(&self) -> (r: (Option<u32>, Option<u32>))
        ensures
            r == (None::<u32>, self.spec_bos_id()),
    {
        proof {
            use_type_invariant(self);
        }
        (None, self.bos_id)
    }

    /// The id a word contributes to the context of the next: its own, or the
    /// unknown-word token's when it is not in the vocabulary.
    pub fn context_word_id(&self, word: Option<u32>) -> (r: Option<u32>)
        ensures
            r == match word {
                Some(w) => Some(w),
                None => self.spec_unknown_id(),
            },
    {
        proof {
            use_type_invariant(self);
        }
        match word {
            Some(w) => Some(w),
            None => self.unknown_id,
        }
    }

    /// The price of `current` after `before_previous previous`, with how it was found.
    pub fn cost_details(
        &self,
        before_previous: Option<u32>,
        previous: Option<u32>,
        current: Option<u32>,
    ) -> (r: LanguageModelCost)
        ensures
            r == spec_cost_details(self.spec_view(), before_previous, previous, current),
    {
        if self.vocabulary.len() == 0 {
            proof {
                assert(self.spec_vocabulary().len() == 0);
            }
            return LanguageModelCost {
                cost: 0,
                order: LanguageModelOrder::Disabled,
                backoff_penalty: 0,
                unknown: false,
            };
        }
        let current = match current {
            None => {
                return LanguageModelCost {
                    cost: UNKNOWN_COST,
                    order: LanguageModelOrder::Unknown,
                    backoff_penalty: 0,
                    unknown: true,
                };
            },
            Some(c) => c,
        };
        let mut best: Option<LanguageModelCost> = None;
        if let Some(p) = previous {
            if let Some(cost) = self.bigrams.get(&pack_pair(p, current)) {
                best = Some(
                    LanguageModelCost {
                        cost: saturating_add(*cost, BACKOFF_PENALTY),
                        order: LanguageModelOrder::Bigram,
                        backoff_penalty: BACKOFF_PENALTY,
                        unknown: false,
                    },
                );
            }
        }
        if let (Some(b), Some(p)) = (before_previous, previous) {
            if let Some(cost) = self.trigrams.get(&pack_triple(b, p, current)) {
                best = Some(
                    min_cost(
                        best,
                        LanguageModelCost {
                            cost: *cost,
                            order: LanguageModelOrder::Trigram,
                            backoff_penalty: 0,
                            unknown: false,
                        },
                    ),
                );
            }
        }
        if let Some(cost) = self.unigrams.get(&current) {
            return min_cost(
                best,
                LanguageModelCost {
                    cost: saturating_add(*cost, BACKOFF_PENALTY * 2),
                    order: LanguageModelOrder::Unigram,
                    backoff_penalty: BACKOFF_PENALTY * 2,
                    unknown: false,
                },
            );
        }
        match best {
            Some(b) => b,
            None => LanguageModelCost {
                cost: UNKNOWN_COST,
                order: LanguageModelOrder::Unknown,
                backoff_penalty: 0,
                unknown: true,
            },
        }
    }

    /// The price of `current` after `before_previous previous`.
    pub fn cost(&self, before_previous: Option<u32>, previous: Option<u32>, current: Option<u32>) -> (r: i32)
        ensures
            r == spec_cost_details(self.spec_view(), before_previous, previous, current).cost,
    {
        self.cost_details(before_previous, previous, current).cost
    }

    /// The price of ending the sentence after `before_previous previous`.
    pub fn eos_cost(&self, before_previous: Option<u32>, previous: Option<u32>) -> (r: i32)
        ensures
            r == spec_cost_details(self.spec_view(), before_previous, previous, self.spec_eos_id()).cost,
    {
        proof {
            use_type_invariant(self);
        }
        self.cost(before_previous, previous, self.eos_id)
    }
}

impl Clone for LanguageModel {
    fn clone(&self) -> (r: Self)
        ensures
            r.spec_view() == self.spec_view(),
    {
        proof {
            use_type_invariant(self);
        }
        let vocabulary = self.vocabulary.clone();
        proof {
            assert forall|i: int| 0 <= i < vocabulary@.len() implies vocabulary@[i] == self.vocabulary@[i] by {
                assert(vstd::pervasive::cloned(self.vocabulary@[i], vocabulary@[i]));
            }
            assert(vocabulary@ =~= self.vocabulary@);
        }
        LanguageModel {
            vocabulary,
            buckets: self.buckets.clone(),
            unigrams: self.unigrams.clone(),
            bigrams: self.bigrams.clone(),
            trigrams: self.trigrams.clone(),
            bos_id: self.bos_id,
            eos_id: self.eos_id,
            unknown_id: self.unknown_id,
        }
    }
}

impl Default for LanguageModel {
    fn default() -> (r: Self)
        ensures
            r.spec_vocabulary() == Seq::<Seq<char>>::empty(),
            r.spec_unigrams() == Map::<u32, i32>::empty(),
            r.spec_bigrams() == Map::<u64, i32>::empty(),
            r.spec_trigrams() == Map::<u128, i32>::empty(),
    {
        Self::empty()
    }
}

/// `price + penalty`, stopping at `i32::MAX`.
pub open spec fn with_penalty(price: i32, penalty: int) -> int {
    if price + penalty > i32::MAX { i32::MAX as int } else { price + penalty }
}

/// The price of `c` after the context `b p` is the cheapest price the model
/// holds for it: the trigram `(b, p, c)`, the bigram `(p, c)` plus one backoff
/// penalty, or the unigram `c` plus two (sums stop at `i32::MAX`). The result
/// is never above any of them and is one of them, reported with its order; on
/// a tie the bigram is preferred to the trigram, and either to the unigram.
/// When the model holds none of them, the unknown-word price is given.
pub proof fn lemma_price_is_cheapest(model: LanguageModel, b: Option<u32>, p: Option<u32>, c: u32)
    requires
        model.spec_view().vocabulary.len() > 0,
    ensures
        ({
            let m = model.spec_view();
            let r = spec_cost_details(m, b, p, Some(c));
            let has_tri = b is Some && p is Some && m.trigrams.contains_key(triple_key(b->0, p->0, c));
            let has_bi = p is Some && m.bigrams.contains_key(pair_key(p->0, c));
            let has_uni = m.unigrams.contains_key(c);
            let tri = m.trigrams[triple_key(b->0, p->0, c)] as int;
            let bi = with_penalty(m.bigrams[pair_key(p->0, c)], BACKOFF_PENALTY as int);
            let uni = with_penalty(m.unigrams[c], 2 * BACKOFF_PENALTY);
            &&& has_tri ==> r.cost <= tri
            &&& has_bi ==> r.cost <= bi
            &&& has_uni ==> r.cost <= uni
            &&& r.order == LanguageModelOrder::Trigram ==> has_tri && r.cost == tri && r.backoff_penalty == 0
                && !r.unknown && (has_bi ==> tri < bi)
            &&& r.order == LanguageModelOrder::Bigram ==> has_bi && r.cost == bi && r.backoff_penalty
                == BACKOFF_PENALTY && !r.unknown
            &&& r.order == LanguageModelOrder::Unigram ==> has_uni && r.cost == uni && r.backoff_penalty == 2
                * BACKOFF_PENALTY && !r.unknown && (has_tri ==> uni < tri) && (has_bi ==> uni < bi)
            &&& r.order != LanguageModelOrder::Disabled
            &&& (has_tri || has_bi || has_uni) <==> r.order != LanguageModelOrder::Unknown
            &&& r.order == LanguageModelOrder::Unknown ==> r.cost == UNKNOWN_COST && r.unknown
                && r.backoff_penalty == 0
        }),
{
}

/// A trigram the model holds prices its last word: after `b p`, the word `c`
/// costs at most the trigram's cost `t`, and exactly `t`, found as a trigram,
/// when `t` is below the bigram `(p, c)` plus one backoff penalty and the
/// unigram `c` plus two, where the model holds them (prices stop at `i32::MAX`).
pub proof fn lemma_trigram_price(model: LanguageModel, b: u32, p: u32, c: u32)
    requires
        model.spec_view().vocabulary.len() > 0,
        model.spec_view().trigrams.contains_key(triple_key(b, p, c)),
    ensures
        ({
            let m = model.spec_view();
            let t = m.trigrams[triple_key(b, p, c)];
            let r = spec_cost_details(m, Some(b), Some(p), Some(c));
            &&& r.cost <= t
            &&& (m.bigrams.contains_key(pair_key(p, c)) ==> t < m.bigrams[pair_key(p, c)] as int + BACKOFF_PENALTY
                && t < i32::MAX) && (m.unigrams.contains_key(c) ==> t < m.unigrams[c] as int + 2 * BACKOFF_PENALTY
                && t < i32::MAX) ==> r
                == (LanguageModelCost { cost: t, order: LanguageModelOrder::Trigram, backoff_penalty: 0, unknown: false })
        }),
{
    lemma_price_is_cheapest(model, Some(b), Some(p), c);
}

/// A model without vocabulary prices nothing: every word costs 0, reported as
/// disabled. With a vocabulary, a word outside it costs the unknown-word price.
pub proof fn lemma_price_without_model(model: LanguageModel, b: Option<u32>, p: Option<u32>, c: Option<u32>)
    ensures
        model.spec_view().vocabulary.len() == 0 ==> spec_cost_details(model.spec_view(), b, p, c) == (LanguageModelCost {
            cost: 0,
            order: LanguageModelOrder::Disabled,
            backoff_penalty: 0,
            unknown: false,
        }),
        model.spec_view().vocabulary.len() > 0 && c is None ==> spec_cost_details(model.spec_view(), b, p, c) == (
        LanguageModelCost { cost: UNKNOWN_COST, order: LanguageModelOrder::Unknown, backoff_penalty: 0, unknown: true }),
{
}

} // verus!
