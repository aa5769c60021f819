//! Dictionary entries, the connection-cost matrix and the dictionary that holds both.

use vstd::prelude::*;
use vstd::utf8::*;
use crate::error::Error;
use crate::order::{compare_bytes, lemma_lex_order, lex_lt};
use crate::language_model::{spec_parse_language_model, LanguageModel, LanguageModelView};
use crate::mime::{
    le_i16, le_u16, le_u32, le_u64, lemma_record_in_table, read_i16, read_u16, read_u32, read_u64,
    ENTRY_SIZE, HEADER_SIZE, VERSION,
};
use crate::text::str_from_utf8;
use crate::sort::sort_entries;
use crate::text::{lemma_encode_injective, lemma_encode_push, push_utf8};

verus! {

/// A word of the dictionary: its reading, its written form, its connection
/// context ids and its word cost.
#[derive(Debug, Clone, PartialEq, Eq)]
pub struct DictionaryEntry {
    pub reading: String,
    pub surface: String,
    pub left_id: u16,
    pub right_id: u16,
    pub cost: i16,
}

/// The mathematical value of a `DictionaryEntry`.
pub struct EntryView {
    pub reading: Seq<char>,
    pub surface: Seq<char>,
    pub left_id: u16,
    pub right_id: u16,
    pub cost: i16,
}

impl View for DictionaryEntry {
    type V = EntryView;

    open spec fn view(&self) -> EntryView {
        EntryView {
            reading: self.reading@,
            surface: self.surface@,
            left_id: self.left_id,
            right_id: self.right_id,
            cost: self.cost,
        }
    }
}

/// The UTF-8 bytes of an entry's reading; readings are ordered by these bytes.
pub open spec fn reading_bytes(e: DictionaryEntry) -> Seq<u8> {
    encode_utf8(e.reading@)
}

/// The dictionary order: by reading (byte-wise, as `str` compares), then by cost.
pub open spec fn entry_le(a: DictionaryEntry, b: DictionaryEntry) -> bool {
    lex_lt(reading_bytes(a), reading_bytes(b)) || (reading_bytes(a) == reading_bytes(b) && a.cost
        <= b.cost)
}

/// `s` is in dictionary order.
pub open spec fn entries_sorted(s: Seq<DictionaryEntry>) -> bool {
    forall|i: int, j: int| 0 <= i < j < s.len() ==> #[trigger] entry_le(s[i], s[j])
}

/// `entry_le` is a total preorder.
pub proof fn lemma_entry_order(a: DictionaryEntry, b: DictionaryEntry, c: DictionaryEntry)
    ensures
        entry_le(a, a),
        entry_le(a, b) || entry_le(b, a),
        entry_le(a, b) && entry_le(b, c) ==> entry_le(a, c),
{
    lemma_lex_order(reading_bytes(a), reading_bytes(b), reading_bytes(c));
    lemma_lex_order(reading_bytes(b), reading_bytes(a), reading_bytes(c));
}

/// Compares two entries in dictionary order.
pub fn entry_le_exec(a: &DictionaryEntry, b: &DictionaryEntry) -> (r: bool)
    ensures
        r == entry_le(*a, *b),
{
    let c = compare_bytes(a.reading.as_str().as_bytes(), b.reading.as_str().as_bytes());
    c < 0 || (c == 0 && a.cost <= b.cost)
}


/// Connection costs between the right context id of one word and the left
/// context id of the next, stored row by row.
#[derive(Debug)]
pub struct ConnectionMatrix {
    previous_size: usize,
    next_size: usize,
    costs: Vec<i16>,
}

impl ConnectionMatrix {
    #[verifier::type_invariant]
    spec fn shape_matches(self) -> bool {
        self.costs@.len() == self.previous_size as int * self.next_size as int
    }

    pub closed spec fn spec_previous_size(self) -> usize {
        self.previous_size
    }

    pub closed spec fn spec_next_size(self) -> usize {
        self.next_size
    }

    /// The costs, row `p` holding the costs after right id `p`.
    pub closed spec fn spec_costs(self) -> Seq<i16> {
        self.costs@
    }

    /// The cost of connecting right id `previous` to left id `next`; ids outside
    /// the matrix connect at cost 0.
    pub open spec fn spec_cost(self, previous: int, next: int) -> i16 {
        if previous < self.spec_previous_size() && next < self.spec_next_size() {
            self.spec_costs()[previous * self.spec_next_size() + next]
        } else {
            0
        }
    }

    /// Builds a matrix; fails when `previous_size * next_size` overflows or differs
    /// from the number of costs.
    pub fn new(previous_size: usize, next_size: usize, costs: Vec<i16>) -> (r: Result<Self, Error>)
        ensures
            previous_size as int * next_size as int > usize::MAX ==> r == Err::<Self, Error>(
                Error::InvalidDictionary("connection matrix dimensions overflow"),
            ),
            previous_size as int * next_size as int <= usize::MAX && costs@.len()
                != previous_size as int * next_size as int ==> r == Err::<Self, Error>(
                Error::InvalidDictionary("connection matrix size does not match dimensions"),
            ),
            costs@.len() == previous_size as int * next_size as int ==> (r matches Ok(m) && m.spec_previous_size()
                == previous_size && m.spec_next_size() == next_size && m.spec_costs() == costs@),
    {
        // Reading the length tells the proof that it fits a `usize`.
        let _len: usize = costs.len();
        let expected = match previous_size.checked_mul(next_size) {
            Some(e) => e,
            None => {
                return Err(Error::InvalidDictionary("connection matrix dimensions overflow"));
            },
        };
        if costs.len() != expected {
            return Err(Error::InvalidDictionary("connection matrix size does not match dimensions"));
        }
        Ok(ConnectionMatrix { previous_size, next_size, costs })
    }

    /// The empty matrix, under which every connection costs 0.
    pub fn empty() -> (r: Self)
        ensures
            r.spec_previous_size() == 0,
            r.spec_next_size() == 0,
            r.spec_costs() == Seq::<i16>::empty(),
    {
        ConnectionMatrix { previous_size: 0, next_size: 0, costs: Vec::new() }
    }

    pub fn previous_size(&self) -> (r: usize)
        ensures
            r == self.spec_previous_size(),
    {
        self.previous_size
    }

    pub fn next_size(&self) -> (r: usize)
        ensures
            r == self.spec_next_size(),
    {
        self.next_size
    }

    /// The cost of connecting right id `previous_right_id` to left id `next_left_id`.
    pub fn cost(&self, previous_right_id: u16, next_left_id: u16) -> (r: i16)
        ensures
            r == self.spec_cost(previous_right_id as int, next_left_id as int),
    {
        proof {
            use_type_invariant(self);
        }
        let previous = previous_right_id as usize;
        let next = next_left_id as usize;
        if previous >= self.previous_size || next >= self.next_size {
            return 0;
        }
        // Reading the length tells the proof that it fits a `usize`.
        let _len: usize = self.costs.len();
        proof {
            lemma_row_index(previous as int, next as int, self.previous_size as int, self.next_size as int);
        }
        self.costs[previous * self.next_size + next]
    }
}

impl Clone for ConnectionMatrix {
    fn clone(&self) -> (r: Self)
        ensures
            r.spec_previous_size() == self.spec_previous_size(),
            r.spec_next_size() == self.spec_next_size(),
            r.spec_costs() == self.spec_costs(),
    {
        proof {
            use_type_invariant(self);
        }
        let costs = self.costs.clone();
        proof {
            assert(costs@ =~= self.costs@);
        }
        ConnectionMatrix { previous_size: self.previous_size, next_size: self.next_size, costs }
    }
}

impl Default for ConnectionMatrix {
    fn default() -> (r: Self)
        ensures
            r.spec_previous_size() == 0,
            r.spec_next_size() == 0,
            r.spec_costs() == Seq::<i16>::empty(),
    {
        Self::empty()
    }
}

proof fn lemma_row_index(p: int, n: int, rows: int, cols: int)
    requires
        0 <= p < rows,
        0 <= n < cols,
    ensures
        p * cols + n < rows * cols,
        0 <= p * cols + n,
{
    assert(p * cols + n < rows * cols) by (nonlinear_arith)
        requires
            0 <= p < rows,
            0 <= n < cols,
    ;
    assert(0 <= p * cols) by (nonlinear_arith)
        requires
            0 <= p,
            0 <= n < cols,
    ;
}

} // verus!

verus! {

pub const MAX_PREFIX_MATCHES_PER_READING: usize = 64;
pub const MAX_LOOKUP_READING_CHARS: usize = 24;

/// The positions `i < n`, ascending, of the entries whose reading is `reading`.
pub open spec fn matches_in(entries: Seq<DictionaryEntry>, reading: Seq<char>, n: int) -> Seq<usize>
    decreases n,
{
    if n <= 0 {
        Seq::empty()
    } else if entries[n - 1].reading@ == reading {
        matches_in(entries, reading, n - 1).push((n - 1) as usize)
    } else {
        matches_in(entries, reading, n - 1)
    }
}

/// The first `n` elements of `s`, or all of `s` when it is shorter.
pub open spec fn at_most<A>(s: Seq<A>, n: int) -> Seq<A> {
    if s.len() <= n {
        s
    } else {
        s.take(n)
    }
}

/// The positions of the entries whose reading is one of the first `k` prefixes of
/// `input` (shortest first), at most 64 per prefix, each group in dictionary order.
pub open spec fn lookup_upto(entries: Seq<DictionaryEntry>, input: Seq<char>, k: int) -> Seq<usize>
    decreases k,
{
    if k <= 0 {
        Seq::empty()
    } else {
        lookup_upto(entries, input, k - 1) + at_most(
            matches_in(entries, input.take(k), entries.len() as int),
            MAX_PREFIX_MATCHES_PER_READING as int,
        )
    }
}

/// The number of prefixes of `input` that are looked up: at most 24 characters.
pub open spec fn lookup_depth(input: Seq<char>) -> int {
    if input.len() < MAX_LOOKUP_READING_CHARS {
        input.len() as int
    } else {
        MAX_LOOKUP_READING_CHARS as int
    }
}

/// The positions of the entries matching a prefix of `input`.
pub open spec fn spec_lookup_prefix(entries: Seq<DictionaryEntry>, input: Seq<char>) -> Seq<usize> {
    lookup_upto(entries, input, lookup_depth(input))
}

/// In a sorted table, the entries whose reading encodes to `p` are exactly those
/// in `[lo, hi)`, when every entry before `lo` sorts before `p` and no entry from
/// `hi` on sorts before or at `p`.
proof fn lemma_block(entries: Seq<DictionaryEntry>, reading: Seq<char>, lo: int, hi: int, n: int)
    requires
        entries_sorted(entries),
        0 <= lo <= hi <= entries.len(),
        0 <= n <= entries.len(),
        forall|i: int| 0 <= i < lo ==> lex_lt(#[trigger] reading_bytes(entries[i]), encode_utf8(reading)),
        forall|i: int| lo <= i < hi ==> #[trigger] reading_bytes(entries[i]) == encode_utf8(reading),
        forall|i: int| hi <= i < entries.len() ==> lex_lt(encode_utf8(reading), #[trigger] reading_bytes(entries[i])),
    ensures
        matches_in(entries, reading, n) == Seq::new(
            (if n < lo { 0 } else if n < hi { n - lo } else { hi - lo }) as nat,
            |j: int| (lo + j) as usize,
        ),
    decreases n,
{
    if n > 0 {
        lemma_block(entries, reading, lo, hi, n - 1);
        let e = entries[n - 1];
        lemma_encode_injective(e.reading@, reading);
        lemma_lex_order(reading_bytes(e), encode_utf8(reading), encode_utf8(reading));
        let prev = matches_in(entries, reading, n - 1);
        let cur = matches_in(entries, reading, n);
        if lo <= n - 1 < hi {
            assert(cur =~= Seq::new((n - lo) as nat, |j: int| (lo + j) as usize));
        } else {
            assert(cur =~= Seq::new(
                (if n < lo { 0 } else if n < hi { n - lo } else { hi - lo }) as nat,
                |j: int| (lo + j) as usize,
            ));
        }
    }
}

proof fn lemma_sorted_bytes(entries: Seq<DictionaryEntry>, i: int, j: int)
    requires
        entries_sorted(entries),
        0 <= i <= j < entries.len(),
    ensures
        lex_lt(reading_bytes(entries[i]), reading_bytes(entries[j])) || reading_bytes(entries[i])
            == reading_bytes(entries[j]),
{
    if i < j {
        assert(entry_le(entries[i], entries[j]));
    }
}

proof fn lemma_matches_in_members(entries: Seq<DictionaryEntry>, reading: Seq<char>, n: int)
    requires
        0 <= n <= entries.len() <= usize::MAX,
    ensures
        forall|i: int|
            0 <= i < matches_in(entries, reading, n).len() ==> (#[trigger] matches_in(entries, reading, n)[i]) < n
                && entries[matches_in(entries, reading, n)[i] as int].reading@ == reading,
    decreases n,
{
    if n > 0 {
        lemma_matches_in_members(entries, reading, n - 1);
        let prev = matches_in(entries, reading, n - 1);
        let cur = matches_in(entries, reading, n);
        assert forall|i: int| 0 <= i < cur.len() implies (#[trigger] cur[i]) < n && entries[cur[i] as int].reading@
            == reading by {
            if i < prev.len() {
                assert(cur[i] == prev[i]);
            }
        }
    }
}

/// Every entry found for a prefix lookup has a non-empty reading that is a prefix
/// of the input of at most `k` characters.
pub(crate) proof fn lemma_lookup_members(entries: Seq<DictionaryEntry>, input: Seq<char>, k: int)
    requires
        0 <= k <= input.len(),
        entries.len() <= usize::MAX,
    ensures
        forall|i: int|
            0 <= i < lookup_upto(entries, input, k).len() ==> {
                let idx = #[trigger] lookup_upto(entries, input, k)[i] as int;
                &&& idx < entries.len()
                &&& 1 <= entries[idx].reading@.len() <= k
                &&& entries[idx].reading@ == input.take(entries[idx].reading@.len() as int)
            },
    decreases k,
{
    if k > 0 {
        lemma_lookup_members(entries, input, k - 1);
        lemma_matches_in_members(entries, input.take(k), entries.len() as int);
        let prev = lookup_upto(entries, input, k - 1);
        let found = at_most(matches_in(entries, input.take(k), entries.len() as int), MAX_PREFIX_MATCHES_PER_READING as int);
        let all = lookup_upto(entries, input, k);
        assert(all == prev + found);
        assert forall|i: int| 0 <= i < all.len() implies {
            let idx = #[trigger] all[i] as int;
            &&& idx < entries.len()
            &&& 1 <= entries[idx].reading@.len() <= k
            &&& entries[idx].reading@ == input.take(entries[idx].reading@.len() as int)
        } by {
            if i < prev.len() {
                assert(all[i] == prev[i]);
            } else {
                let full = matches_in(entries, input.take(k), entries.len() as int);
                assert(all[i] == found[i - prev.len()]);
                assert(found[i - prev.len()] == full[i - prev.len()]);
            }
        }
    }
}

proof fn lemma_matches_in_has(entries: Seq<DictionaryEntry>, reading: Seq<char>, n: int, j: int)
    requires
        0 <= j < n <= entries.len(),
        entries[j].reading@ == reading,
    ensures
        matches_in(entries, reading, n).contains(j as usize),
    decreases n,
{
    if j < n - 1 {
        lemma_matches_in_has(entries, reading, n - 1, j);
        let prev = matches_in(entries, reading, n - 1);
        let k = choose|k: int| 0 <= k < prev.len() && prev[k] == j as usize;
        if entries[n - 1].reading@ == reading {
            assert(matches_in(entries, reading, n)[k] == j as usize);
        } else {
            assert(matches_in(entries, reading, n) == prev);
        }
    } else {
        let cur = matches_in(entries, reading, n);
        assert(cur[cur.len() - 1] == j as usize);
    }
}

proof fn lemma_lookup_upto_has(entries: Seq<DictionaryEntry>, input: Seq<char>, k: int, l: int, x: usize)
    requires
        1 <= l <= k,
        at_most(matches_in(entries, input.take(l), entries.len() as int), MAX_PREFIX_MATCHES_PER_READING as int).contains(x),
    ensures
        lookup_upto(entries, input, k).contains(x),
    decreases k,
{
    let found = at_most(matches_in(entries, input.take(k), entries.len() as int), MAX_PREFIX_MATCHES_PER_READING as int);
    let prev = lookup_upto(entries, input, k - 1);
    assert(lookup_upto(entries, input, k) == prev + found);
    if l < k {
        lemma_lookup_upto_has(entries, input, k - 1, l, x);
        let t = choose|t: int| 0 <= t < prev.len() && prev[t] == x;
        assert((prev + found)[t] == x);
    } else {
        let t = choose|t: int| 0 <= t < found.len() && found[t] == x;
        assert((prev + found)[prev.len() + t] == x);
    }
}

/// Prefix lookup finds every word it should: an entry whose non-empty reading
/// is a prefix of the input of at most 24 characters is found, provided at most
/// 64 entries share that reading.
pub proof fn lemma_lookup_finds(entries: Seq<DictionaryEntry>, input: Seq<char>, j: int)
    requires
        0 <= j < entries.len(),
        1 <= entries[j].reading@.len() <= input.len(),
        entries[j].reading@.len() <= 24,
        entries[j].reading@ == input.take(entries[j].reading@.len() as int),
        matches_in(entries, entries[j].reading@, entries.len() as int).len() <= 64,
    ensures
        spec_lookup_prefix(entries, input).contains(j as usize),
{
    let l = entries[j].reading@.len() as int;
    lemma_matches_in_has(entries, entries[j].reading@, entries.len() as int, j);
    assert(at_most(matches_in(entries, input.take(l), entries.len() as int), 64) == matches_in(
        entries,
        input.take(l),
        entries.len() as int,
    ));
    lemma_lookup_upto_has(entries, input, lookup_depth(input), l, j as usize);
}

/// A dictionary: its entries in dictionary order, the connection matrix and the
/// language model.
#[derive(Debug)]
pub struct Dictionary {
    entries: Vec<DictionaryEntry>,
    matrix: ConnectionMatrix,
    language_model: LanguageModel,
}

impl Dictionary {
    #[verifier::type_invariant]
    spec fn sorted(self) -> bool {
        entries_sorted(self.entries@)
    }

    /// The entries, in dictionary order.
    pub closed spec fn spec_entries(self) -> Seq<DictionaryEntry> {
        self.entries@
    }

    pub closed spec fn spec_matrix(self) -> ConnectionMatrix {
        self.matrix
    }

    pub closed spec fn spec_language_model(self) -> LanguageModel {
        self.language_model
    }

    /// A dictionary of `entries`, sorted into dictionary order, with an empty
    /// connection matrix and no language model.
    pub fn new(entries: Vec<DictionaryEntry>) -> (r: Self)
        ensures
            entries_sorted(r.spec_entries()),
            r.spec_entries().to_multiset() == entries@.to_multiset(),
            r.spec_matrix().spec_previous_size() == 0,
            r.spec_matrix().spec_next_size() == 0,
            r.spec_language_model().spec_vocabulary().len() == 0,
    {
        Self::with_matrix(entries, ConnectionMatrix::empty())
    }

    /// A dictionary of `entries`, sorted into dictionary order, with `matrix` and
    /// no language model.
    pub fn with_matrix(entries: Vec<DictionaryEntry>, matrix: ConnectionMatrix) -> (r: Self)
        ensures
            entries_sorted(r.spec_entries()),
            r.spec_entries().to_multiset() == entries@.to_multiset(),
            r.spec_matrix() == matrix,
            r.spec_language_model().spec_vocabulary().len() == 0,
    {
        let entries = sort_entries(entries);
        Dictionary { entries, matrix, language_model: LanguageModel::empty() }
    }

    /// The entries, in dictionary order.
    pub fn entries(&self) -> (r: &[DictionaryEntry])
        ensures
            r@ == self.spec_entries(),
            entries_sorted(r@),
    {
        proof {
            use_type_invariant(self);
        }
        self.entries.as_slice()
    }

    pub fn matrix(&self) -> (r: &ConnectionMatrix)
        ensures
            *r == self.spec_matrix(),
    {
        &self.matrix
    }

    pub fn language_model(&self) -> (r: &LanguageModel)
        ensures
            *r == self.spec_language_model(),
    {
        &self.language_model
    }

    /// The positions of the entries whose reading is a prefix of `input` of at
    /// most 24 characters: for each prefix length, shortest first, up to 64 of
    /// them in dictionary order.
    pub fn lookup_prefix(&self, input: &[char]) -> (r: Vec<usize>)
        ensures
            r@ == spec_lookup_prefix(self.spec_entries(), input@),
            forall|i: int|
                0 <= i < r@.len() ==> {
                    let e = #[trigger] self.spec_entries()[r@[i] as int];
                    &&& r@[i] < self.spec_entries().len()
                    &&& 1 <= e.reading@.len() <= lookup_depth(input@)
                    &&& e.reading@ == input@.take(e.reading@.len() as int)
                },
    {
        proof {
            use_type_invariant(self);
        }
        // Reading the length tells the proof that it fits a `usize`.
        let _entry_count: usize = self.entries.len();
        let ghost entries = self.entries@;
        let depth = if input.len() < MAX_LOOKUP_READING_CHARS {
            input.len()
        } else {
            MAX_LOOKUP_READING_CHARS
        };
        let mut matches: Vec<usize> = Vec::new();
        let mut prefix: Vec<u8> = Vec::new();
        let mut k: usize = 0;
        proof {
            assert(prefix@ =~= encode_utf8(input@.take(0))) by {
                assert(input@.take(0) =~= Seq::<char>::empty());
            }
        }
        while k < depth
            invariant
                k <= depth <= input@.len(),
                depth == lookup_depth(input@),
                entries == self.entries@,
                entries_sorted(entries),
                prefix@ == encode_utf8(input@.take(k as int)),
                matches@ == lookup_upto(entries, input@, k as int),
                forall|i: int| 0 <= i < matches@.len() ==> matches@[i] < entries.len(),
            decreases depth - k,
        {
            proof {
                lemma_encode_push(input@.take(k as int), input@[k as int]);
                assert(input@.take(k + 1) =~= input@.take(k as int).push(input@[k as int]));
            }
            push_utf8(&mut prefix, input[k]);
            k = k + 1;
            let (lo, hi) = self.equal_range(prefix.as_slice());
            let ghost reading = input@.take(k as int);
            proof {
                lemma_block(entries, reading, lo as int, hi as int, entries.len() as int);
            }
            let stop = if hi - lo > MAX_PREFIX_MATCHES_PER_READING {
                lo + MAX_PREFIX_MATCHES_PER_READING
            } else {
                hi
            };
            let ghost before = matches@;
            let mut i = lo;
            while i < stop
                invariant
                    lo <= i <= stop <= hi <= entries.len(),
                    matches@ == before + Seq::new((i - lo) as nat, |j: int| (lo + j) as usize),
                    forall|j: int| 0 <= j < before.len() ==> before[j] < entries.len(),
                decreases stop - i,
            {
                matches.push(i);
                proof {
                    assert(matches@ =~= before + Seq::new((i + 1 - lo) as nat, |j: int| (lo + j) as usize));
                }
                i = i + 1;
            }
            proof {
                let full = matches_in(entries, reading, entries.len() as int);
                assert(full == Seq::new((hi - lo) as nat, |j: int| (lo + j) as usize));
                assert(at_most(matches_in(entries, reading, entries.len() as int),
                    MAX_PREFIX_MATCHES_PER_READING as int,
                ) =~= Seq::new((stop - lo) as nat, |j: int| (lo + j) as usize));
            }
        }
        proof {
            lemma_lookup_members(entries, input@, depth as int);
        }
        matches
    }

    /// The range of entries whose reading encodes to `key`.
    fn equal_range(&self, key: &[u8]) -> (r: (usize, usize))
        ensures
            r.0 <= r.1 <= self.spec_entries().len(),
            forall|i: int| 0 <= i < r.0 ==> lex_lt(#[trigger] reading_bytes(self.spec_entries()[i]), key@),
            forall|i: int| r.0 <= i < r.1 ==> #[trigger] reading_bytes(self.spec_entries()[i]) == key@,
            forall|i: int|
                r.1 <= i < self.spec_entries().len() ==> lex_lt(key@, #[trigger] reading_bytes(self.spec_entries()[i])),
    {
        proof {
            use_type_invariant(self);
        }
        let ghost entries = self.entries@;
        // first position whose reading does not sort before the key
        let mut lo: usize = 0;
        let mut hi: usize = self.entries.len();
        while lo < hi
            invariant
                lo <= hi <= entries.len(),
                entries == self.entries@,
                entries_sorted(entries),
                forall|i: int| 0 <= i < lo ==> lex_lt(#[trigger] reading_bytes(entries[i]), key@),
                forall|i: int| hi <= i < entries.len() ==> !lex_lt(#[trigger] reading_bytes(entries[i]), key@),
            decreases hi - lo,
        {
            let mid = lo + (hi - lo) / 2;
            let c = compare_bytes(self.entries[mid].reading.as_str().as_bytes(), key);
            if c < 0 {
                proof {
                    assert forall|i: int| 0 <= i < mid + 1 implies lex_lt(#[trigger] reading_bytes(entries[i]), key@) by {
                        lemma_sorted_bytes(entries, i, mid as int);
                        lemma_lex_order(reading_bytes(entries[i]), reading_bytes(entries[mid as int]), key@);
                    }
                }
                lo = mid + 1;
            } else {
                proof {
                    assert forall|i: int| mid <= i < entries.len() implies !lex_lt(#[trigger] reading_bytes(entries[i]), key@) by {
                        lemma_sorted_bytes(entries, mid as int, i);
                        lemma_lex_order(reading_bytes(entries[mid as int]), reading_bytes(entries[i]), key@);
                        lemma_lex_order(key@, reading_bytes(entries[i]), reading_bytes(entries[i]));
                    }
                }
                hi = mid;
            }
        }
        let start = lo;
        // first position whose reading sorts after the key
        let mut hi: usize = self.entries.len();
        while lo < hi
            invariant
                start <= lo <= hi <= entries.len(),
                entries == self.entries@,
                entries_sorted(entries),
                forall|i: int| 0 <= i < start ==> lex_lt(#[trigger] reading_bytes(entries[i]), key@),
                forall|i: int| start <= i < entries.len() ==> !lex_lt(#[trigger] reading_bytes(entries[i]), key@),
                forall|i: int| start <= i < lo ==> !lex_lt(key@, #[trigger] reading_bytes(entries[i])),
                forall|i: int| hi <= i < entries.len() ==> lex_lt(key@, #[trigger] reading_bytes(entries[i])),
            decreases hi - lo,
        {
            let mid = lo + (hi - lo) / 2;
            let c = compare_bytes(self.entries[mid].reading.as_str().as_bytes(), key);
            if c > 0 {
                proof {
                    assert forall|i: int| mid <= i < entries.len() implies lex_lt(key@, #[trigger] reading_bytes(entries[i])) by {
                        lemma_sorted_bytes(entries, mid as int, i);
                        lemma_lex_order(key@, reading_bytes(entries[mid as int]), reading_bytes(entries[i]));
                    }
                }
                hi = mid;
            } else {
                proof {
                    assert forall|i: int| start <= i < mid + 1 implies !lex_lt(key@, #[trigger] reading_bytes(entries[i])) by {
                        lemma_sorted_bytes(entries, i, mid as int);
                        lemma_lex_order(key@, reading_bytes(entries[i]), reading_bytes(entries[mid as int]));
                        lemma_lex_order(reading_bytes(entries[i]), key@, key@);
                    }
                }
                lo = mid + 1;
            }
        }
        proof {
            assert forall|i: int| start <= i < lo implies #[trigger] reading_bytes(entries[i]) == key@ by {
                lemma_lex_order(reading_bytes(entries[i]), key@, key@);
            }
        }
        (start, lo)
    }
}

} // verus!

verus! {

broadcast use vstd::seq_lib::group_to_multiset_ensures;

/// The messages for a missing and an oversized section offset, for the `k`-th
/// offset field of the header.
pub open spec fn spec_offset_messages(k: int) -> (&'static str, &'static str) {
    if k == 0 {
        ("missing entry offset", "entry offset is too large")
    } else if k == 1 {
        ("missing string offset", "string offset is too large")
    } else if k == 2 {
        ("missing matrix offset", "matrix offset is too large")
    } else if k == 3 {
        ("missing vocabulary offset", "vocabulary offset is too large")
    } else if k == 4 {
        ("missing unigram offset", "unigram offset is too large")
    } else if k == 5 {
        ("missing bigram offset", "bigram offset is too large")
    } else if k == 6 {
        ("missing trigram offset", "trigram offset is too large")
    } else {
        ("missing end offset", "end offset is too large")
    }
}

fn offset_messages(k: usize) -> (r: (&'static str, &'static str))
    ensures
        r == spec_offset_messages(k as int),
{
    if k == 0 {
        ("missing entry offset", "entry offset is too large")
    } else if k == 1 {
        ("missing string offset", "string offset is too large")
    } else if k == 2 {
        ("missing matrix offset", "matrix offset is too large")
    } else if k == 3 {
        ("missing vocabulary offset", "vocabulary offset is too large")
    } else if k == 4 {
        ("missing unigram offset", "unigram offset is too large")
    } else if k == 5 {
        ("missing bigram offset", "bigram offset is too large")
    } else if k == 6 {
        ("missing trigram offset", "trigram offset is too large")
    } else {
        ("missing end offset", "end offset is too large")
    }
}

/// The byte position of the `k`-th offset field of the header.
pub open spec fn offset_field(k: int) -> int {
    40 + 8 * k
}

/// The first `k` section offsets of the header (entry, string, matrix,
/// vocabulary, unigram, bigram, trigram, end), or the error of the first that is
/// missing or does not fit a `usize`.
pub open spec fn spec_offsets(bytes: Seq<u8>, k: int) -> Result<Seq<int>, Error>
    decreases k,
{
    if k <= 0 {
        Ok(Seq::empty())
    } else {
        match spec_offsets(bytes, k - 1) {
            Err(e) => Err(e),
            Ok(offsets) => if offset_field(k - 1) + 8 > bytes.len() {
                Err(Error::InvalidDictionary(spec_offset_messages(k - 1).0))
            } else if le_u64(bytes, offset_field(k - 1)) > usize::MAX {
                Err(Error::InvalidDictionary(spec_offset_messages(k - 1).1))
            } else {
                Ok(offsets.push(le_u64(bytes, offset_field(k - 1))))
            },
        }
    }
}

/// The header fields of a `.mime` dictionary.
pub struct MimeHeader {
    pub entry_count: int,
    pub previous_size: int,
    pub next_size: int,
    pub vocabulary_count: int,
    pub unigram_count: int,
    pub bigram_count: int,
    pub trigram_count: int,
    /// entry, string, matrix, vocabulary, unigram, bigram, trigram and end offsets
    pub offsets: Seq<int>,
}

/// The header of `bytes`, or the error that rejects it.
pub open spec fn spec_header(bytes: Seq<u8>) -> Result<MimeHeader, Error> {
    if bytes.len() < HEADER_SIZE {
        Err(Error::InvalidDictionary("file is smaller than the header"))
    } else if bytes[0] != 0x4d || bytes[1] != 0x49 || bytes[2] != 0x4d || bytes[3] != 0x45 {
        Err(Error::InvalidDictionary("bad magic"))
    } else if le_u16(bytes, 4) != VERSION {
        Err(Error::UnsupportedVersion(le_u16(bytes, 4) as u16))
    } else {
        match spec_offsets(bytes, 8) {
            Err(e) => Err(e),
            Ok(offsets) => Ok(
                MimeHeader {
                    entry_count: le_u32(bytes, 8),
                    previous_size: le_u32(bytes, 12),
                    next_size: le_u32(bytes, 16),
                    vocabulary_count: le_u32(bytes, 20),
                    unigram_count: le_u32(bytes, 24),
                    bigram_count: le_u32(bytes, 28),
                    trigram_count: le_u32(bytes, 32),
                    offsets,
                },
            ),
        }
    }
}

/// The sections are laid out in order inside the file, the entry table first.
pub open spec fn spec_sections_valid(len: int, h: MimeHeader) -> Result<(), Error> {
    if h.entry_count * ENTRY_SIZE > usize::MAX || h.offsets[0] + h.entry_count * ENTRY_SIZE > usize::MAX {
        Err(Error::InvalidDictionary("entry table overflow"))
    } else if h.offsets[0] + h.entry_count * ENTRY_SIZE > len || h.offsets[1] < h.offsets[0]
        + h.entry_count * ENTRY_SIZE || h.offsets[2] < h.offsets[1] || h.offsets[3] < h.offsets[2]
        || h.offsets[4] < h.offsets[3] || h.offsets[5] < h.offsets[4] || h.offsets[6] < h.offsets[5]
        || h.offsets[7] < h.offsets[6] || h.offsets[7] > len {
        Err(Error::InvalidDictionary("section offsets are invalid"))
    } else {
        Ok(())
    }
}

/// The string `table[offset..offset + len]`, or the error that rejects it.
pub open spec fn spec_read_string(table: Seq<u8>, offset: int, len: int) -> Result<Seq<char>, Error> {
    if offset + len > usize::MAX {
        Err(Error::InvalidDictionary("string range overflow"))
    } else if offset + len > table.len() {
        Err(Error::InvalidDictionary("string range is outside string table"))
    } else if !valid_utf8(table.subrange(offset, offset + len)) {
        Err(Error::InvalidUtf8)
    } else {
        Ok(decode_utf8(table.subrange(offset, offset + len)))
    }
}

/// The entry stored by the record at `record`, or the error of its strings.
pub open spec fn spec_entry_record(bytes: Seq<u8>, table: Seq<u8>, record: int) -> Result<EntryView, Error> {
    match spec_read_string(table, le_u32(bytes, record), le_u32(bytes, record + 4)) {
        Err(e) => Err(e),
        Ok(reading) => match spec_read_string(table, le_u32(bytes, record + 8), le_u32(bytes, record + 12)) {
            Err(e) => Err(e),
            Ok(surface) => Ok(
                EntryView {
                    reading,
                    surface,
                    left_id: le_u16(bytes, record + 16) as u16,
                    right_id: le_u16(bytes, record + 18) as u16,
                    cost: le_i16(bytes, record + 20) as i16,
                },
            ),
        },
    }
}

/// The first `count` entries of the table at `offset`, in file order, or the error
/// of the first that cannot be read.
pub open spec fn spec_entry_records(bytes: Seq<u8>, table: Seq<u8>, offset: int, count: int) -> Result<
    Seq<EntryView>,
    Error,
>
    decreases count,
{
    if count <= 0 {
        Ok(Seq::empty())
    } else {
        match spec_entry_records(bytes, table, offset, count - 1) {
            Err(e) => Err(e),
            Ok(entries) => match spec_entry_record(bytes, table, offset + (count - 1) * ENTRY_SIZE) {
                Err(e) => Err(e),
                Ok(entry) => Ok(entries.push(entry)),
            },
        }
    }
}

/// The mathematical value of a dictionary read from bytes: entries in file order.
pub struct DictionaryView {
    pub entries: Seq<EntryView>,
    pub previous_size: int,
    pub next_size: int,
    pub costs: Seq<i16>,
    pub language_model: LanguageModelView,
}

/// The matrix costs stored at `offset`.
pub open spec fn spec_matrix_costs(bytes: Seq<u8>, offset: int, count: int) -> Seq<i16> {
    Seq::new(count as nat, |i: int| le_i16(bytes, offset + 2 * i) as i16)
}

/// The dictionary stored in `bytes` in the `.mime` format, or the error that
/// rejects them.
pub open spec fn spec_parse_mime(bytes: Seq<u8>) -> Result<DictionaryView, Error> {
    match spec_header(bytes) {
        Err(e) => Err(e),
        Ok(h) => match spec_sections_valid(bytes.len() as int, h) {
            Err(e) => Err(e),
            Ok(()) => {
                let table = bytes.subrange(h.offsets[1], h.offsets[2]);
                match spec_entry_records(bytes, table, h.offsets[0], h.entry_count) {
                    Err(e) => Err(e),
                    Ok(entries) => {
                        let matrix_len = h.previous_size * h.next_size;
                        if matrix_len > usize::MAX {
                            Err(Error::InvalidDictionary("matrix dimensions overflow"))
                        } else if matrix_len * 2 > usize::MAX || h.offsets[2] + matrix_len * 2 > usize::MAX {
                            Err(Error::InvalidDictionary("matrix size overflow"))
                        } else if h.offsets[2] + matrix_len * 2 > h.offsets[3] {
                            Err(Error::InvalidDictionary("truncated connection matrix"))
                        } else {
                            match spec_parse_language_model(
                                bytes,
                                table,
                                h.vocabulary_count,
                                h.unigram_count,
                                h.bigram_count,
                                h.trigram_count,
                                h.offsets[3],
                                h.offsets[4],
                                h.offsets[5],
                                h.offsets[6],
                                h.offsets[7],
                            ) {
                                Err(e) => Err(e),
                                Ok(language_model) => Ok(
                                    DictionaryView {
                                        entries,
                                        previous_size: h.previous_size,
                                        next_size: h.next_size,
                                        costs: spec_matrix_costs(bytes, h.offsets[2], matrix_len),
                                        language_model,
                                    },
                                ),
                            }
                        }
                    },
                }
            },
        },
    }
}

pub open spec fn entry_views(s: Seq<DictionaryEntry>) -> Seq<EntryView> {
    s.map_values(|e: DictionaryEntry| e@)
}

/// Multiset equality survives mapping.
pub proof fn lemma_map_multiset<A, B>(s1: Seq<A>, s2: Seq<A>, f: spec_fn(A) -> B)
    requires
        s1.to_multiset() == s2.to_multiset(),
    ensures
        s1.map_values(f).to_multiset() == s2.map_values(f).to_multiset(),
    decreases s1.len(),
{
    s1.to_multiset_ensures();
    s2.to_multiset_ensures();
    if s1.len() == 0 {
        assert(s2.len() == 0);
        assert(s1.map_values(f) =~= s2.map_values(f));
    } else {
        let x = s1.last();
        assert(s1.to_multiset().count(x) > 0) by {
            assert(s1.contains(x)) by {
                assert(s1[s1.len() - 1] == x);
            }
        }
        assert(s2.contains(x));
        let i = choose|i: int| 0 <= i < s2.len() && s2[i] == x;
        let t1 = s1.drop_last();
        let t2 = s2.remove(i);
        assert(s1 =~= t1.push(x));
        assert(t1.to_multiset() =~= s2.to_multiset().remove(x));
        lemma_map_multiset(t1, t2, f);
        assert(s1.map_values(f) =~= t1.map_values(f).push(f(x)));
        assert(s2.map_values(f).remove(i) =~= t2.map_values(f));
        assert(s2.map_values(f)[i] == f(x));
    }
}

/// Reads the string `table[offset..offset + len]`.
fn read_string(table: &[u8], offset: usize, len: usize) -> (r: Result<String, Error>)
    ensures
        match spec_read_string(table@, offset as int, len as int) {
            Ok(s) => r matches Ok(t) && t@ == s,
            Err(e) => r == Err::<String, Error>(e),
        },
{
    let end = match offset.checked_add(len) {
        None => return Err(Error::InvalidDictionary("string range overflow")),
        Some(end) => end,
    };
    if end > table.len() {
        return Err(Error::InvalidDictionary("string range is outside string table"));
    }
    match str_from_utf8(vstd::slice::slice_subrange(table, offset, end)) {
        None => Err(Error::InvalidUtf8),
        Some(text) => Ok(text.to_owned()),
    }
}

/// The header fields as machine integers.
struct Header {
    entry_count: usize,
    previous_size: usize,
    next_size: usize,
    vocabulary_count: usize,
    unigram_count: usize,
    bigram_count: usize,
    trigram_count: usize,
    offsets: Vec<usize>,
}

impl Header {
    spec fn matches(self, h: MimeHeader) -> bool {
        &&& self.entry_count == h.entry_count
        &&& self.previous_size == h.previous_size
        &&& self.next_size == h.next_size
        &&& self.vocabulary_count == h.vocabulary_count
        &&& self.unigram_count == h.unigram_count
        &&& self.bigram_count == h.bigram_count
        &&& self.trigram_count == h.trigram_count
        &&& self.offsets@.len() == 8
        &&& h.offsets.len() == 8
        &&& forall|k: int| 0 <= k < 8 ==> self.offsets@[k] == h.offsets[k]
    }
}

proof fn lemma_offsets_error_sticks(bytes: Seq<u8>, k: int, n: int)
    requires
        0 <= k <= n,
        spec_offsets(bytes, k) is Err,
    ensures
        spec_offsets(bytes, n) == spec_offsets(bytes, k),
    decreases n - k,
{
    if k < n {
        lemma_offsets_error_sticks(bytes, k + 1, n);
    }
}

fn read_header(bytes: &[u8]) -> (r: Result<Header, Error>)
    ensures
        match spec_header(bytes@) {
            Ok(h) => r matches Ok(hd) && hd.matches(h),
            Err(e) => r == Err::<Header, Error>(e),
        },
{
    if bytes.len() < HEADER_SIZE {
        return Err(Error::InvalidDictionary("file is smaller than the header"));
    }
    if bytes[0] != 0x4d || bytes[1] != 0x49 || bytes[2] != 0x4d || bytes[3] != 0x45 {
        return Err(Error::InvalidDictionary("bad magic"));
    }
    let version = read_u16(bytes, 4).unwrap();
    if version != VERSION {
        return Err(Error::UnsupportedVersion(version));
    }
    let entry_count = read_u32(bytes, 8).unwrap() as usize;
    let previous_size = read_u32(bytes, 12).unwrap() as usize;
    let next_size = read_u32(bytes, 16).unwrap() as usize;
    let vocabulary_count = read_u32(bytes, 20).unwrap() as usize;
    let unigram_count = read_u32(bytes, 24).unwrap() as usize;
    let bigram_count = read_u32(bytes, 28).unwrap() as usize;
    let trigram_count = read_u32(bytes, 32).unwrap() as usize;
    let mut offsets: Vec<usize> = Vec::new();
    let mut k: usize = 0;
    proof {
        assert(spec_offsets(bytes@, 0) == Ok::<Seq<int>, Error>(Seq::empty()));
        assert(offsets@.map_values(|o: usize| o as int) =~= Seq::<int>::empty());
    }
    while k < 8
        invariant
            k <= 8,
            spec_offsets(bytes@, k as int) == Ok::<Seq<int>, Error>(
                offsets@.map_values(|o: usize| o as int),
            ),
            offsets@.len() == k,
            bytes@.len() >= HEADER_SIZE,
            !(bytes@[0] != 0x4d || bytes@[1] != 0x49 || bytes@[2] != 0x4d || bytes@[3] != 0x45),
            le_u16(bytes@, 4) == VERSION,
        decreases 8 - k,
    {
        let (missing, too_large) = offset_messages(k);
        let at = 40 + 8 * k;
        let value = match read_u64(bytes, at) {
            None => {
                proof {
                    lemma_offsets_error_sticks(bytes@, k + 1, 8);
                }
                return Err(Error::InvalidDictionary(missing));
            },
            Some(v) => v,
        };
        if value > usize::MAX as u64 {
            proof {
                lemma_offsets_error_sticks(bytes@, k + 1, 8);
            }
            return Err(Error::InvalidDictionary(too_large));
        }
        let ghost before = offsets@;
        offsets.push(value as usize);
        proof {
            assert(offsets@.map_values(|o: usize| o as int) =~= before.map_values(|o: usize| o as int).push(
                le_u64(bytes@, offset_field(k as int)),
            ));
        }
        k = k + 1;
    }
    Ok(Header {
        entry_count,
        previous_size,
        next_size,
        vocabulary_count,
        unigram_count,
        bigram_count,
        trigram_count,
        offsets,
    })
}

} // verus!

verus! {

proof fn lemma_entries_error_sticks(bytes: Seq<u8>, table: Seq<u8>, offset: int, k: int, n: int)
    requires
        0 <= k <= n,
        spec_entry_records(bytes, table, offset, k) is Err,
    ensures
        spec_entry_records(bytes, table, offset, n) == spec_entry_records(bytes, table, offset, k),
    decreases n - k,
{
    if k < n {
        lemma_entries_error_sticks(bytes, table, offset, k + 1, n);
    }
}

/// Reads the `count` entry records at `offset`, in file order.
fn read_entries(bytes: &[u8], table: &[u8], offset: usize, count: usize) -> (r: Result<
    Vec<DictionaryEntry>,
    Error,
>)
    requires
        offset + count * ENTRY_SIZE <= bytes@.len(),
    ensures
        match spec_entry_records(bytes@, table@, offset as int, count as int) {
            Ok(entries) => r matches Ok(v) && entry_views(v@) == entries,
            Err(e) => r == Err::<Vec<DictionaryEntry>, Error>(e),
        },
{
    // Reading the length tells the proof that it fits a `usize`.
    let _len: usize = bytes.len();
    let mut entries: Vec<DictionaryEntry> = Vec::new();
    proof {
        assert(entry_views(entries@) =~= Seq::<EntryView>::empty());
    }
    let mut index: usize = 0;
    while index < count
        invariant
            index <= count,
            offset + count * ENTRY_SIZE <= bytes@.len(),
            bytes@.len() <= usize::MAX,
            spec_entry_records(bytes@, table@, offset as int, index as int) == Ok::<
                Seq<EntryView>,
                Error,
            >(entry_views(entries@)),
        decreases count - index,
    {
        proof {
            lemma_record_in_table(index as int, count as int, ENTRY_SIZE as int);
        }
        let record = offset + index * ENTRY_SIZE;
        let reading_offset = read_u32(bytes, record).unwrap() as usize;
        let reading_len = read_u32(bytes, record + 4).unwrap() as usize;
        let surface_offset = read_u32(bytes, record + 8).unwrap() as usize;
        let surface_len = read_u32(bytes, record + 12).unwrap() as usize;
        let left_id = read_u16(bytes, record + 16).unwrap();
        let right_id = read_u16(bytes, record + 18).unwrap();
        let cost = read_i16(bytes, record + 20).unwrap();
        let reading = match read_string(table, reading_offset, reading_len) {
            Ok(s) => s,
            Err(e) => {
                proof {
                    lemma_entries_error_sticks(bytes@, table@, offset as int, index + 1, count as int);
                }
                return Err(e);
            },
        };
        let surface = match read_string(table, surface_offset, surface_len) {
            Ok(s) => s,
            Err(e) => {
                proof {
                    lemma_entries_error_sticks(bytes@, table@, offset as int, index + 1, count as int);
                }
                return Err(e);
            },
        };
        let ghost before = entries@;
        let entry = DictionaryEntry { reading, surface, left_id, right_id, cost };
        entries.push(entry);
        proof {
            assert(entry_views(entries@) =~= entry_views(before).push(entry@));
        }
        index = index + 1;
    }
    Ok(entries)
}

/// Reads the `count` matrix costs at `offset`.
fn read_matrix_costs(bytes: &[u8], offset: usize, count: usize) -> (r: Vec<i16>)
    requires
        offset + count * 2 <= bytes@.len(),
    ensures
        r@ == spec_matrix_costs(bytes@, offset as int, count as int),
{
    // Reading the length tells the proof that it fits a `usize`.
    let _len: usize = bytes.len();
    let mut costs: Vec<i16> = Vec::new();
    let mut index: usize = 0;
    while index < count
        invariant
            index <= count,
            offset + count * 2 <= bytes@.len(),
            bytes@.len() <= usize::MAX,
            costs@ =~= spec_matrix_costs(bytes@, offset as int, index as int),
        decreases count - index,
    {
        proof {
            lemma_record_in_table(index as int, count as int, 2);
        }
        costs.push(read_i16(bytes, offset + index * 2).unwrap());
        index = index + 1;
    }
    costs
}

impl Dictionary {
    /// Reads a dictionary from the bytes of a `.mime` file; its entries come out
    /// in dictionary order.
    pub fn from_mime_bytes(bytes: &[u8]) -> (r: Result<Self, Error>)
        ensures
            match spec_parse_mime(bytes@) {
                Err(e) => r == Err::<Self, Error>(e),
                Ok(d) => r matches Ok(dict) && {
                    &&& entries_sorted(dict.spec_entries())
                    &&& entry_views(dict.spec_entries()).to_multiset() == d.entries.to_multiset()
                    &&& dict.spec_matrix().spec_previous_size() == d.previous_size
                    &&& dict.spec_matrix().spec_next_size() == d.next_size
                    &&& dict.spec_matrix().spec_costs() == d.costs
                    &&& dict.spec_language_model().spec_view() == d.language_model
                },
            },
    {
        let header = read_header(bytes)?;
        let ghost h = spec_header(bytes@)->Ok_0;
        let entry_count = header.entry_count;
        let entry_offset = header.offsets[0];
        let string_offset = header.offsets[1];
        let matrix_offset = header.offsets[2];
        let vocabulary_offset = header.offsets[3];
        let unigram_offset = header.offsets[4];
        let bigram_offset = header.offsets[5];
        let trigram_offset = header.offsets[6];
        let end_offset = header.offsets[7];
        let entry_bytes = match entry_count.checked_mul(ENTRY_SIZE) {
            None => return Err(Error::InvalidDictionary("entry table overflow")),
            Some(size) => match entry_offset.checked_add(size) {
                None => return Err(Error::InvalidDictionary("entry table overflow")),
                Some(end) => end,
            },
        };
        if entry_bytes > bytes.len() || string_offset < entry_bytes || matrix_offset < string_offset
            || vocabulary_offset < matrix_offset || unigram_offset < vocabulary_offset
            || bigram_offset < unigram_offset || trigram_offset < bigram_offset || end_offset
            < trigram_offset || end_offset > bytes.len() {
            return Err(Error::InvalidDictionary("section offsets are invalid"));
        }
        let table = vstd::slice::slice_subrange(bytes, string_offset, matrix_offset);
        let entries = read_entries(bytes, table, entry_offset, entry_count)?;
        let matrix_len = match header.previous_size.checked_mul(header.next_size) {
            None => return Err(Error::InvalidDictionary("matrix dimensions overflow")),
            Some(n) => n,
        };
        let matrix_bytes = match matrix_len.checked_mul(2) {
            None => return Err(Error::InvalidDictionary("matrix size overflow")),
            Some(size) => match matrix_offset.checked_add(size) {
                None => return Err(Error::InvalidDictionary("matrix size overflow")),
                Some(end) => end,
            },
        };
        if matrix_bytes > vocabulary_offset {
            return Err(Error::InvalidDictionary("truncated connection matrix"));
        }
        let costs = read_matrix_costs(bytes, matrix_offset, matrix_len);
        let matrix = ConnectionMatrix::new(header.previous_size, header.next_size, costs)?;
        let language_model = LanguageModel::from_mime_bytes(
            bytes,
            table,
            header.vocabulary_count,
            header.unigram_count,
            header.bigram_count,
            header.trigram_count,
            vocabulary_offset,
            unigram_offset,
            bigram_offset,
            trigram_offset,
            end_offset,
        )?;
        let ghost unsorted = entries@;
        let entries = sort_entries(entries);
        proof {
            lemma_map_multiset(entries@, unsorted, |e: DictionaryEntry| e@);
        }
        Ok(Dictionary { entries, matrix, language_model })
    }
}

} // verus!

verus! {

/// A copy of `e`.
pub fn copy_entry(e: &DictionaryEntry) -> (r: DictionaryEntry)
    ensures
        r == *e,
{
    DictionaryEntry {
        reading: e.reading.clone(),
        surface: e.surface.clone(),
        left_id: e.left_id,
        right_id: e.right_id,
        cost: e.cost,
    }
}

impl Clone for Dictionary {
    fn clone(&self) -> (r: Self)
        ensures
            r.spec_entries() == self.spec_entries(),
            r.spec_matrix().spec_previous_size() == self.spec_matrix().spec_previous_size(),
            r.spec_matrix().spec_next_size() == self.spec_matrix().spec_next_size(),
            r.spec_matrix().spec_costs() == self.spec_matrix().spec_costs(),
            r.spec_language_model().spec_view() == self.spec_language_model().spec_view(),
    {
        proof {
            use_type_invariant(self);
        }
        let mut entries: Vec<DictionaryEntry> = Vec::new();
        let mut i: usize = 0;
        while i < self.entries.len()
            invariant
                i <= self.entries@.len(),
                entries@ == self.entries@.take(i as int),
            decreases self.entries@.len() - i,
        {
            entries.push(copy_entry(&self.entries[i]));
            proof {
                assert(entries@ =~= self.entries@.take(i + 1));
            }
            i = i + 1;
        }
        proof {
            assert(entries@ =~= self.entries@);
        }
        Dictionary { entries, matrix: self.matrix.clone(), language_model: self.language_model.clone() }
    }
}

impl Default for Dictionary {
    fn default() -> (r: Self)
        ensures
            r.spec_entries().len() == 0,
            r.spec_matrix().spec_previous_size() == 0,
            r.spec_matrix().spec_next_size() == 0,
            r.spec_language_model().spec_vocabulary().len() == 0,
    {
        let empty: Vec<DictionaryEntry> = Vec::new();
        let r = Dictionary::new(empty);
        proof {
            r.spec_entries().to_multiset_ensures();
            empty@.to_multiset_ensures();
        }
        r
    }
}

} // verus!
