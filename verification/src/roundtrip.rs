//! Reading back what was written: the dictionary reader gives back the
//! entries, connection costs and language model tables that the writer wrote.

use vstd::prelude::*;
use vstd::utf8::{decode_utf8, encode_utf8, encode_utf8_decode_utf8, encode_utf8_valid_utf8, valid_utf8};
use crate::dictionary::{spec_entry_record, spec_entry_records, spec_read_string, EntryView};
use crate::mime::{le_i16, le_i32, le_u16, le_u32, le_u64};
use crate::writer::{
    spec_encode_mime, string_order, WriteError,
    bigram_section, cost_section, entry_record, entry_section, flatten_bytes, le16, le32, le64, spec_intern,
    spec_intern_all, trigram_section, unigram_section, vocabulary_section, InternState,
};
use crate::dictionary::{offset_field, spec_header, spec_sections_valid, spec_matrix_costs, spec_offsets, spec_parse_mime, DictionaryView, MimeHeader};
use crate::error::Error;
use crate::language_model::{entries_to_map, spec_parse_language_model, LanguageModelView};
use vstd::arithmetic::div_mod::lemma_small_mod;
use crate::writer::{header_bytes, header_counts, header_offsets, section_offsets, LanguageModelSourceView};
use crate::language_model::{
    spec_bigram_records, spec_trigram_records, spec_unigram_records, spec_vocabulary, spec_vocabulary_word,
};

verus! {

proof fn lemma_le16_value(v: u16)
    ensures
        le16(v)[0] as int + 0x100 * le16(v)[1] as int == v as int,
{
    assert(((v & 0xff) as u8) as int + 0x100 * ((v >> 8) as u8) as int == v as int) by (bit_vector);
}

proof fn lemma_le32_value(v: u32)
    ensures
        le32(v)[0] as int + 0x100 * le32(v)[1] as int + 0x1_0000 * (le32(v)[2] as int + 0x100 * le32(v)[3] as int)
            == v as int,
{
    assert(((v & 0xff) as u8) as int + 0x100 * (((v >> 8) & 0xff) as u8) as int + 0x1_0000 * ((((v >> 16) & 0xff) as u8) as int
        + 0x100 * ((v >> 24) as u8) as int) == v as int) by (bit_vector);
}

/// Two bytes at `p` that `le16(v)` wrote read back as `v`.
pub proof fn lemma_read16(b: Seq<u8>, p: int, v: u16)
    requires
        0 <= p,
        p + 2 <= b.len(),
        b.subrange(p, p + 2) == le16(v),
    ensures
        le_u16(b, p) == v as int,
{
    assert(b[p] == b.subrange(p, p + 2)[0]);
    assert(b[p + 1] == b.subrange(p, p + 2)[1]);
    lemma_le16_value(v);
}

/// Two bytes at `p` that `le16(c as u16)` wrote read back as `c`.
pub proof fn lemma_read_i16(b: Seq<u8>, p: int, c: i16)
    requires
        0 <= p,
        p + 2 <= b.len(),
        b.subrange(p, p + 2) == le16(c as u16),
    ensures
        le_i16(b, p) == c as int,
{
    lemma_read16(b, p, c as u16);
    let v = c as u16;
    assert(c >= 0 ==> (v as u32) == (c as u32)) by (bit_vector)
        requires
            v == c as u16,
    ;
    assert(c < 0 ==> (v as u32) == ((c as i32) + 0x10000i32) as u32) by (bit_vector)
        requires
            v == c as u16,
    ;
}

/// Four bytes at `p` that `le32(v)` wrote read back as `v`.
pub proof fn lemma_read32(b: Seq<u8>, p: int, v: u32)
    requires
        0 <= p,
        p + 4 <= b.len(),
        b.subrange(p, p + 4) == le32(v),
    ensures
        le_u32(b, p) == v as int,
{
    assert(b[p] == b.subrange(p, p + 4)[0]);
    assert(b[p + 1] == b.subrange(p, p + 4)[1]);
    assert(b[p + 2] == b.subrange(p, p + 4)[2]);
    assert(b[p + 3] == b.subrange(p, p + 4)[3]);
    lemma_le32_value(v);
}

/// Four bytes at `p` that `le32(c as u32)` wrote read back as `c`.
pub proof fn lemma_read_i32(b: Seq<u8>, p: int, c: i32)
    requires
        0 <= p,
        p + 4 <= b.len(),
        b.subrange(p, p + 4) == le32(c as u32),
    ensures
        le_i32(b, p) == c as int,
{
    lemma_read32(b, p, c as u32);
    let v = c as u32;
    assert(c >= 0 ==> (v as u64) == (c as u64)) by (bit_vector)
        requires
            v == c as u32,
    ;
    assert(c < 0 ==> (v as u64) == ((c as i64) + 0x1_0000_0000i64) as u64) by (bit_vector)
        requires
            v == c as u32,
    ;
}

/// Eight bytes at `p` that `le64(v)` wrote read back as `v`.
pub proof fn lemma_read64(b: Seq<u8>, p: int, v: u64)
    requires
        0 <= p,
        p + 8 <= b.len(),
        b.subrange(p, p + 8) == le64(v),
    ensures
        le_u64(b, p) == v as int,
{
    let lo = (v & 0xffff_ffff) as u32;
    let hi = (v >> 32) as u32;
    let w = le64(v);
    assert(w == le32(lo) + le32(hi));
    assert(w.len() == 8);
    assert(w.subrange(0, 4) =~= le32(lo));
    assert(w.subrange(4, 8) =~= le32(hi));
    assert(b.subrange(p, p + 4) =~= w.subrange(0, 4));
    assert(b.subrange(p + 4, p + 8) =~= w.subrange(4, 8));
    lemma_read32(b, p, lo);
    lemma_read32(b, p + 4, hi);
    assert(lo as int + 0x1_0000_0000 * hi as int == v as int) by (bit_vector)
        requires
            lo == (v & 0xffff_ffff) as u32,
            hi == (v >> 32) as u32,
    ;
}

/// Records of one width laid end to end: record `i` is at `i * width`.
pub proof fn lemma_flatten_fixed(n: int, f: spec_fn(int) -> Seq<u8>, width: int)
    requires
        n >= 0,
        width >= 0,
        forall|i: int| 0 <= i < n ==> (#[trigger] f(i)).len() == width,
    ensures
        flatten_bytes(Seq::new(n as nat, f)).len() == n * width,
        forall|i: int|
            0 <= i < n ==> flatten_bytes(Seq::new(n as nat, f)).subrange(i * width, i * width + width) == #[trigger] f(i),
    decreases n,
{
    if n == 0 {
        assert(Seq::new(0, f).len() == 0);
        assert(flatten_bytes(Seq::new(0, f)).len() == 0);
        assert(0 * width == 0);
    } else {
        lemma_flatten_fixed(n - 1, f, width);
        let front = flatten_bytes(Seq::new((n - 1) as nat, f));
        assert(Seq::new(n as nat, f).drop_last() =~= Seq::new((n - 1) as nat, f));
        let all = flatten_bytes(Seq::new(n as nat, f));
        assert(Seq::new(n as nat, f).last() == f(n - 1));
        assert(all == front + f(n - 1));
        assert(f(n - 1).len() == width);
        assert((n - 1) * width + width == n * width) by (nonlinear_arith);
        assert(all.len() == n * width);
        assert forall|i: int| 0 <= i < n implies all.subrange(i * width, i * width + width) == #[trigger] f(i) by {
            if i < n - 1 {
                assert(i * width + width <= (n - 1) * width) by (nonlinear_arith)
                    requires
                        0 <= i < n - 1,
                        width >= 0,
                ;
                assert(0 <= i * width) by (nonlinear_arith)
                    requires
                        0 <= i,
                        width >= 0,
                ;
                assert(all.subrange(i * width, i * width + width) =~= front.subrange(i * width, i * width + width));
            } else {
                assert(all.subrange(i * width, i * width + width) =~= f(n - 1));
            }
        }
    }
}

/// Each text interned lies in the final table where its reference says.
pub proof fn lemma_intern_refs(texts: Seq<Seq<char>>, k: int)
    requires
        0 <= k <= texts.len(),
        spec_intern_all(InternState { table: Seq::empty(), seen: Map::empty() }, texts, k) is Ok,
    ensures
        ({
            let (st, refs) = spec_intern_all(InternState { table: Seq::empty(), seen: Map::empty() }, texts, k)->Ok_0;
            &&& refs.len() == k
            &&& forall|t: Seq<char>|
                #[trigger] st.seen.contains_key(t) ==> st.seen[t].0 + st.seen[t].1 <= st.table.len()
                    && st.table.subrange(st.seen[t].0 as int, st.seen[t].0 + st.seen[t].1) == encode_utf8(t)
            &&& forall|j: int|
                0 <= j < k ==> (#[trigger] refs[j]).0 + refs[j].1 <= st.table.len() && st.table.subrange(
                    refs[j].0 as int,
                    refs[j].0 + refs[j].1,
                ) == encode_utf8(texts[j])
        }),
    decreases k,
{
    let empty = InternState { table: Seq::empty(), seen: Map::empty() };
    if k > 0 {
        lemma_intern_refs(texts, k - 1);
        let (s, refs) = spec_intern_all(empty, texts, k - 1)->Ok_0;
        let t = texts[k - 1];
        let (s2, r) = spec_intern(s, t)->Ok_0;
        let all = refs.push(r);
        assert(spec_intern_all(empty, texts, k)->Ok_0 == (s2, all));
        if !s.seen.contains_key(t) {
            let bytes = encode_utf8(t);
            assert(s2.table == s.table + bytes);
            assert forall|u: Seq<char>| #[trigger] s2.seen.contains_key(u) implies s2.seen[u].0 + s2.seen[u].1 <= s2.table.len()
                && s2.table.subrange(s2.seen[u].0 as int, s2.seen[u].0 + s2.seen[u].1) == encode_utf8(u) by {
                if u == t {
                    assert(s2.table.subrange(s2.seen[u].0 as int, s2.seen[u].0 + s2.seen[u].1) =~= bytes);
                } else {
                    assert(s.seen.contains_key(u));
                    assert(s2.table.subrange(s2.seen[u].0 as int, s2.seen[u].0 + s2.seen[u].1) =~= s.table.subrange(
                        s.seen[u].0 as int,
                        s.seen[u].0 + s.seen[u].1,
                    ));
                }
            }
            assert forall|j: int| 0 <= j < k implies (#[trigger] all[j]).0 + all[j].1 <= s2.table.len()
                && s2.table.subrange(all[j].0 as int, all[j].0 + all[j].1) == encode_utf8(texts[j]) by {
                if j < k - 1 {
                    assert(all[j] == refs[j]);
                    assert(s2.table.subrange(all[j].0 as int, all[j].0 + all[j].1) =~= s.table.subrange(
                        refs[j].0 as int,
                        refs[j].0 + refs[j].1,
                    ));
                } else {
                    assert(s2.table.subrange(all[j].0 as int, all[j].0 + all[j].1) =~= bytes);
                }
            }
        } else {
            assert(s2 == s);
            assert forall|j: int| 0 <= j < k implies (#[trigger] all[j]).0 + all[j].1 <= s2.table.len()
                && s2.table.subrange(all[j].0 as int, all[j].0 + all[j].1) == encode_utf8(texts[j]) by {
                if j < k - 1 {
                    assert(all[j] == refs[j]);
                }
            }
        }
    }
}

/// A string written as the UTF-8 of `t` reads back as `t`.
pub proof fn lemma_string_reads_back(t: Seq<char>)
    ensures
        valid_utf8(encode_utf8(t)),
        decode_utf8(encode_utf8(t)) == t,
{
    encode_utf8_valid_utf8(t);
    encode_utf8_decode_utf8(t);
}

/// A piece of a piece of `b` is a piece of `b`.
pub proof fn lemma_sub(b: Seq<u8>, s: int, e: int, p: Seq<u8>, i: int, j: int)
    requires
        0 <= s <= e <= b.len(),
        b.subrange(s, e) == p,
        0 <= i <= j <= p.len(),
    ensures
        b.subrange(s + i, s + j) == p.subrange(i, j),
{
    assert(b.subrange(s + i, s + j) =~= p.subrange(i, j));
}

/// The fields of an entry record read back as written.
proof fn lemma_record_fields(b: Seq<u8>, at: int, e: EntryView, reading: (u32, u32), surface: (u32, u32))
    requires
        0 <= at,
        at + 24 <= b.len(),
        b.subrange(at, at + 24) == entry_record(e, reading, surface),
    ensures
        le_u32(b, at) == reading.0 as int,
        le_u32(b, at + 4) == reading.1 as int,
        le_u32(b, at + 8) == surface.0 as int,
        le_u32(b, at + 12) == surface.1 as int,
        le_u16(b, at + 16) == e.left_id as int,
        le_u16(b, at + 18) == e.right_id as int,
        le_i16(b, at + 20) == e.cost as int,
{
    let r = entry_record(e, reading, surface);
    assert(r.len() == 24);
    assert(r.subrange(0, 4) =~= le32(reading.0));
    assert(r.subrange(4, 8) =~= le32(reading.1));
    assert(r.subrange(8, 12) =~= le32(surface.0));
    assert(r.subrange(12, 16) =~= le32(surface.1));
    assert(r.subrange(16, 18) =~= le16(e.left_id));
    assert(r.subrange(18, 20) =~= le16(e.right_id));
    assert(r.subrange(20, 22) =~= le16(e.cost as u16));
    lemma_sub(b, at, at + 24, r, 0, 4);
    lemma_sub(b, at, at + 24, r, 4, 8);
    lemma_sub(b, at, at + 24, r, 8, 12);
    lemma_sub(b, at, at + 24, r, 12, 16);
    lemma_sub(b, at, at + 24, r, 16, 18);
    lemma_sub(b, at, at + 24, r, 18, 20);
    lemma_sub(b, at, at + 24, r, 20, 22);
    lemma_read32(b, at, reading.0);
    lemma_read32(b, at + 4, reading.1);
    lemma_read32(b, at + 8, surface.0);
    lemma_read32(b, at + 12, surface.1);
    lemma_read16(b, at + 16, e.left_id);
    lemma_read16(b, at + 18, e.right_id);
    lemma_read_i16(b, at + 20, e.cost);
}

/// The string at `r` in `table` is the text written there.
pub open spec fn holds_text(table: Seq<u8>, r: (u32, u32), t: Seq<char>) -> bool {
    r.0 + r.1 <= table.len() && table.subrange(r.0 as int, r.0 + r.1) == encode_utf8(t)
}

proof fn lemma_text_reads_back(table: Seq<u8>, r: (u32, u32), t: Seq<char>)
    requires
        holds_text(table, r, t),
        table.len() <= usize::MAX,
    ensures
        spec_read_string(table, r.0 as int, r.1 as int) == Ok::<Seq<char>, crate::error::Error>(t),
{
    lemma_string_reads_back(t);
}

/// The entry table written at `start` reads back as the entries.
pub proof fn lemma_entries_read(
    b: Seq<u8>,
    start: int,
    entries: Seq<EntryView>,
    refs: Seq<(u32, u32)>,
    table: Seq<u8>,
    k: int,
)
    requires
        0 <= start,
        start + 24 * entries.len() <= b.len(),
        b.subrange(start, start + 24 * entries.len()) == entry_section(entries, refs),
        refs.len() >= 2 * entries.len(),
        table.len() <= usize::MAX,
        forall|i: int|
            0 <= i < entries.len() ==> holds_text(table, refs[2 * i], (#[trigger] entries[i]).reading) && holds_text(
                table,
                refs[2 * i + 1],
                entries[i].surface,
            ),
        0 <= k <= entries.len(),
    ensures
        spec_entry_records(b, table, start, k) == Ok::<Seq<EntryView>, crate::error::Error>(entries.take(k)),
    decreases k,
{
    if k > 0 {
        lemma_entries_read(b, start, entries, refs, table, k - 1);
        let f = |i: int| entry_record(entries[i], refs[2 * i], refs[2 * i + 1]);
        reveal(entry_section);
        assert forall|i: int| 0 <= i < entries.len() implies (#[trigger] f(i)).len() == 24 by {}
        lemma_flatten_fixed(entries.len() as int, f, 24);
        let i = k - 1;
        assert(entry_section(entries, refs) == flatten_bytes(Seq::new(entries.len(), f)));
        assert(flatten_bytes(Seq::new(entries.len(), f)).subrange(i * 24, i * 24 + 24) == f(i));
        lemma_sub(b, start, start + 24 * entries.len(), entry_section(entries, refs), i * 24, i * 24 + 24);
        let at = start + i * 24;
        lemma_record_fields(b, at, entries[i], refs[2 * i], refs[2 * i + 1]);
        assert(holds_text(table, refs[2 * i], entries[i].reading));
        lemma_text_reads_back(table, refs[2 * i], entries[i].reading);
        lemma_text_reads_back(table, refs[2 * i + 1], entries[i].surface);
        assert(spec_entry_record(b, table, start + (k - 1) * 24) == Ok::<EntryView, crate::error::Error>(entries[i]));
        assert(entries.take(k) =~= entries.take(k - 1).push(entries[i]));
    } else {
        assert(entries.take(0) =~= Seq::<EntryView>::empty());
    }
}

/// The connection costs written at `start` read back.
pub proof fn lemma_costs_read(b: Seq<u8>, start: int, costs: Seq<i16>)
    requires
        0 <= start,
        start + 2 * costs.len() <= b.len(),
        b.subrange(start, start + 2 * costs.len()) == cost_section(costs),
    ensures
        spec_matrix_costs(b, start, costs.len() as int) == costs,
{
    let f = |i: int| le16(costs[i] as u16);
    reveal(cost_section);
    assert forall|i: int| 0 <= i < costs.len() implies (#[trigger] f(i)).len() == 2 by {}
    lemma_flatten_fixed(costs.len() as int, f, 2);
    assert forall|i: int| 0 <= i < costs.len() implies le_i16(b, start + 2 * i) == costs[i] as int by {
        assert(flatten_bytes(Seq::new(costs.len(), f)).subrange(i * 2, i * 2 + 2) == f(i));
        lemma_sub(b, start, start + 2 * costs.len(), cost_section(costs), i * 2, i * 2 + 2);
        lemma_read_i16(b, start + 2 * i, costs[i]);
    }
    assert(spec_matrix_costs(b, start, costs.len() as int) =~= costs);
}

/// The vocabulary records written at `start` read back as the words.
pub proof fn lemma_vocabulary_read(
    b: Seq<u8>,
    start: int,
    words: Seq<Seq<char>>,
    refs: Seq<(u32, u32)>,
    first: int,
    table: Seq<u8>,
    k: int,
)
    requires
        0 <= start,
        0 <= first,
        start + 8 * words.len() <= b.len(),
        b.subrange(start, start + 8 * words.len()) == vocabulary_section(words.len() as int, refs, first),
        first + words.len() <= refs.len(),
        table.len() <= usize::MAX,
        forall|j: int| 0 <= j < words.len() ==> holds_text(table, refs[first + j], #[trigger] words[j]),
        0 <= k <= words.len(),
    ensures
        spec_vocabulary(b, table, start, k) == Ok::<Seq<Seq<char>>, crate::error::Error>(words.take(k)),
    decreases k,
{
    if k > 0 {
        lemma_vocabulary_read(b, start, words, refs, first, table, k - 1);
        let f = |i: int| le32(refs[first + i].0) + le32(refs[first + i].1);
        reveal(vocabulary_section);
        assert forall|i: int| 0 <= i < words.len() implies (#[trigger] f(i)).len() == 8 by {}
        lemma_flatten_fixed(words.len() as int, f, 8);
        let j = k - 1;
        assert(flatten_bytes(Seq::new(words.len(), f)).subrange(j * 8, j * 8 + 8) == f(j));
        lemma_sub(b, start, start + 8 * words.len(), vocabulary_section(words.len() as int, refs, first), j * 8, j * 8 + 8);
        let at = start + j * 8;
        let r = refs[first + j];
        assert(f(j).subrange(0, 4) =~= le32(r.0));
        assert(f(j).subrange(4, 8) =~= le32(r.1));
        lemma_sub(b, at, at + 8, f(j), 0, 4);
        lemma_sub(b, at, at + 8, f(j), 4, 8);
        lemma_read32(b, at, r.0);
        lemma_read32(b, at + 4, r.1);
        assert(holds_text(table, r, words[j]));
        lemma_string_reads_back(words[j]);
        assert(spec_vocabulary_word(b, table, start + j * 8) == Ok::<Seq<char>, crate::error::Error>(words[j]));
        assert(words.take(k) =~= words.take(k - 1).push(words[j]));
    } else {
        assert(words.take(0) =~= Seq::<Seq<char>>::empty());
    }
}

/// The unigram records written at `start` read back.
pub proof fn lemma_unigrams_read(b: Seq<u8>, start: int, u: Seq<(u32, i32)>)
    requires
        0 <= start,
        start + 8 * u.len() <= b.len(),
        b.subrange(start, start + 8 * u.len()) == unigram_section(u),
    ensures
        spec_unigram_records(b, start, u.len() as int) == u,
{
    let f = |i: int| le32(u[i].0) + le32(u[i].1 as u32);
    reveal(unigram_section);
    assert forall|i: int| 0 <= i < u.len() implies (#[trigger] f(i)).len() == 8 by {}
    lemma_flatten_fixed(u.len() as int, f, 8);
    assert forall|i: int| 0 <= i < u.len() implies spec_unigram_records(b, start, u.len() as int)[i] == u[i] by {
        assert(flatten_bytes(Seq::new(u.len(), f)).subrange(i * 8, i * 8 + 8) == f(i));
        lemma_sub(b, start, start + 8 * u.len(), unigram_section(u), i * 8, i * 8 + 8);
        let at = start + i * 8;
        assert(f(i).subrange(0, 4) =~= le32(u[i].0));
        assert(f(i).subrange(4, 8) =~= le32(u[i].1 as u32));
        lemma_sub(b, at, at + 8, f(i), 0, 4);
        lemma_sub(b, at, at + 8, f(i), 4, 8);
        lemma_read32(b, at, u[i].0);
        lemma_read_i32(b, at + 4, u[i].1);
    }
    assert(spec_unigram_records(b, start, u.len() as int) =~= u);
}

pub open spec fn bigram_map_entries(g: Seq<(u32, u32, i32)>) -> Seq<(u64, i32)> {
    g.map_values(|e: (u32, u32, i32)| (crate::language_model::pair_key(e.0, e.1), e.2))
}

pub open spec fn trigram_map_entries(g: Seq<(u32, u32, u32, i32)>) -> Seq<(u128, i32)> {
    g.map_values(|e: (u32, u32, u32, i32)| (crate::language_model::triple_key(e.0, e.1, e.2), e.3))
}

/// The bigram records written at `start` read back.
pub proof fn lemma_bigrams_read(b: Seq<u8>, start: int, g: Seq<(u32, u32, i32)>)
    requires
        0 <= start,
        start + 12 * g.len() <= b.len(),
        b.subrange(start, start + 12 * g.len()) == bigram_section(g),
    ensures
        spec_bigram_records(b, start, g.len() as int) == bigram_map_entries(g),
{
    let f = |i: int| le32(g[i].0) + le32(g[i].1) + le32(g[i].2 as u32);
    reveal(bigram_section);
    assert forall|i: int| 0 <= i < g.len() implies (#[trigger] f(i)).len() == 12 by {}
    lemma_flatten_fixed(g.len() as int, f, 12);
    assert forall|i: int| 0 <= i < g.len() implies spec_bigram_records(b, start, g.len() as int)[i] == bigram_map_entries(g)[i] by {
        assert(flatten_bytes(Seq::new(g.len(), f)).subrange(i * 12, i * 12 + 12) == f(i));
        lemma_sub(b, start, start + 12 * g.len(), bigram_section(g), i * 12, i * 12 + 12);
        let at = start + i * 12;
        assert(f(i).subrange(0, 4) =~= le32(g[i].0));
        assert(f(i).subrange(4, 8) =~= le32(g[i].1));
        assert(f(i).subrange(8, 12) =~= le32(g[i].2 as u32));
        lemma_sub(b, at, at + 12, f(i), 0, 4);
        lemma_sub(b, at, at + 12, f(i), 4, 8);
        lemma_sub(b, at, at + 12, f(i), 8, 12);
        lemma_read32(b, at, g[i].0);
        lemma_read32(b, at + 4, g[i].1);
        lemma_read_i32(b, at + 8, g[i].2);
    }
    assert(spec_bigram_records(b, start, g.len() as int) =~= bigram_map_entries(g));
}

/// The trigram records written at `start` read back.
pub proof fn lemma_trigrams_read(b: Seq<u8>, start: int, g: Seq<(u32, u32, u32, i32)>)
    requires
        0 <= start,
        start + 16 * g.len() <= b.len(),
        b.subrange(start, start + 16 * g.len()) == trigram_section(g),
    ensures
        spec_trigram_records(b, start, g.len() as int) == trigram_map_entries(g),
{
    let f = |i: int| le32(g[i].0) + le32(g[i].1) + le32(g[i].2) + le32(g[i].3 as u32);
    reveal(trigram_section);
    assert forall|i: int| 0 <= i < g.len() implies (#[trigger] f(i)).len() == 16 by {}
    lemma_flatten_fixed(g.len() as int, f, 16);
    assert forall|i: int| 0 <= i < g.len() implies spec_trigram_records(b, start, g.len() as int)[i] == trigram_map_entries(g)[i] by {
        assert(flatten_bytes(Seq::new(g.len(), f)).subrange(i * 16, i * 16 + 16) == f(i));
        lemma_sub(b, start, start + 16 * g.len(), trigram_section(g), i * 16, i * 16 + 16);
        let at = start + i * 16;
        assert(f(i).subrange(0, 4) =~= le32(g[i].0));
        assert(f(i).subrange(4, 8) =~= le32(g[i].1));
        assert(f(i).subrange(8, 12) =~= le32(g[i].2));
        assert(f(i).subrange(12, 16) =~= le32(g[i].3 as u32));
        lemma_sub(b, at, at + 16, f(i), 0, 4);
        lemma_sub(b, at, at + 16, f(i), 4, 8);
        lemma_sub(b, at, at + 16, f(i), 8, 12);
        lemma_sub(b, at, at + 16, f(i), 12, 16);
        lemma_read32(b, at, g[i].0);
        lemma_read32(b, at + 4, g[i].1);
        lemma_read32(b, at + 8, g[i].2);
        lemma_read_i32(b, at + 12, g[i].3);
    }
    assert(spec_trigram_records(b, start, g.len() as int) =~= trigram_map_entries(g));
}

/// The header fields read back as written.
proof fn lemma_header_read(
    b: Seq<u8>,
    entry_count: usize,
    previous_size: usize,
    next_size: usize,
    lm: LanguageModelSourceView,
    offsets: Seq<u64>,
)
    requires
        b.len() >= 104,
        offsets.len() == 8,
        b.subrange(0, 104) == header_bytes(entry_count, previous_size, next_size, lm, offsets),
    ensures
        b[0] == 0x4d && b[1] == 0x49 && b[2] == 0x4d && b[3] == 0x45,
        le_u16(b, 4) == 1,
        le_u32(b, 8) == (entry_count as u32) as int,
        le_u32(b, 12) == (previous_size as u32) as int,
        le_u32(b, 16) == (next_size as u32) as int,
        le_u32(b, 20) == (lm.vocabulary.len() as u32) as int,
        le_u32(b, 24) == (lm.unigrams.len() as u32) as int,
        le_u32(b, 28) == (lm.bigrams.len() as u32) as int,
        le_u32(b, 32) == (lm.trigrams.len() as u32) as int,
        forall|k: int| 0 <= k < 8 ==> le_u64(b, #[trigger] offset_field(k)) == offsets[k] as int,
{
    reveal(header_bytes);
    let h = header_bytes(entry_count, previous_size, next_size, lm, offsets);
    let c = header_counts(entry_count, previous_size, next_size, lm);
    let o = header_offsets(offsets);
    assert(c.len() == 40);
    assert(o.len() == 64);
    assert(h == c + o);
    assert(h.subrange(0, 40) =~= c);
    assert(h.subrange(40, 104) =~= o);
    lemma_sub(b, 0, 104, h, 0, 40);
    lemma_sub(b, 0, 104, h, 40, 104);
    assert(b[0] == c[0] && b[1] == c[1] && b[2] == c[2] && b[3] == c[3]);
    assert(c.subrange(4, 6) =~= le16(1));
    assert(c.subrange(8, 12) =~= le32(entry_count as u32));
    assert(c.subrange(12, 16) =~= le32(previous_size as u32));
    assert(c.subrange(16, 20) =~= le32(next_size as u32));
    assert(c.subrange(20, 24) =~= le32(lm.vocabulary.len() as u32));
    assert(c.subrange(24, 28) =~= le32(lm.unigrams.len() as u32));
    assert(c.subrange(28, 32) =~= le32(lm.bigrams.len() as u32));
    assert(c.subrange(32, 36) =~= le32(lm.trigrams.len() as u32));
    lemma_sub(b, 0, 40, c, 4, 6);
    lemma_sub(b, 0, 40, c, 8, 12);
    lemma_sub(b, 0, 40, c, 12, 16);
    lemma_sub(b, 0, 40, c, 16, 20);
    lemma_sub(b, 0, 40, c, 20, 24);
    lemma_sub(b, 0, 40, c, 24, 28);
    lemma_sub(b, 0, 40, c, 28, 32);
    lemma_sub(b, 0, 40, c, 32, 36);
    lemma_read16(b, 4, 1);
    lemma_read32(b, 8, entry_count as u32);
    lemma_read32(b, 12, previous_size as u32);
    lemma_read32(b, 16, next_size as u32);
    lemma_read32(b, 20, lm.vocabulary.len() as u32);
    lemma_read32(b, 24, lm.unigrams.len() as u32);
    lemma_read32(b, 28, lm.bigrams.len() as u32);
    lemma_read32(b, 32, lm.trigrams.len() as u32);
    assert forall|k: int| 0 <= k < 8 implies le_u64(b, #[trigger] offset_field(k)) == offsets[k] as int by {
        assert(o.subrange(8 * k, 8 * k + 8) =~= le64(offsets[k])) by {
            assert(o == le64(offsets[0]) + le64(offsets[1]) + le64(offsets[2]) + le64(offsets[3]) + le64(offsets[4])
                + le64(offsets[5]) + le64(offsets[6]) + le64(offsets[7]));
        }
        lemma_sub(b, 40, 104, o, 8 * k, 8 * k + 8);
        lemma_read64(b, 40 + 8 * k, offsets[k]);
    }
}

/// The header's section offsets read back when each fits a `usize`.
proof fn lemma_offsets_read(b: Seq<u8>, offsets: Seq<int>, k: int)
    requires
        0 <= k <= 8,
        offsets.len() == 8,
        b.len() >= 104,
        forall|j: int| 0 <= j < 8 ==> le_u64(b, #[trigger] offset_field(j)) == offsets[j] && offsets[j] <= usize::MAX,
    ensures
        spec_offsets(b, k) == Ok::<Seq<int>, crate::error::Error>(offsets.take(k)),
    decreases k,
{
    if k > 0 {
        lemma_offsets_read(b, offsets, k - 1);
        assert(le_u64(b, offset_field(k - 1)) == offsets[k - 1]);
        assert(offsets.take(k) =~= offsets.take(k - 1).push(offsets[k - 1]));
    } else {
        assert(offsets.take(0) =~= Seq::<int>::empty());
    }
}


proof fn lemma_entry_section_len(entries: Seq<EntryView>, refs: Seq<(u32, u32)>)
    ensures
        entry_section(entries, refs).len() == 24 * entries.len(),
{
    reveal(entry_section);
    let f = |i: int| entry_record(entries[i], refs[2 * i], refs[2 * i + 1]);
    assert forall|i: int| 0 <= i < entries.len() implies (#[trigger] f(i)).len() == 24 by {}
    lemma_flatten_fixed(entries.len() as int, f, 24);
}

proof fn lemma_cost_section_len(costs: Seq<i16>)
    ensures
        cost_section(costs).len() == 2 * costs.len(),
{
    reveal(cost_section);
    let f = |i: int| le16(costs[i] as u16);
    assert forall|i: int| 0 <= i < costs.len() implies (#[trigger] f(i)).len() == 2 by {}
    lemma_flatten_fixed(costs.len() as int, f, 2);
}

proof fn lemma_vocabulary_section_len(count: int, refs: Seq<(u32, u32)>, first: int)
    requires
        count >= 0,
    ensures
        vocabulary_section(count, refs, first).len() == 8 * count,
{
    reveal(vocabulary_section);
    let f = |i: int| le32(refs[first + i].0) + le32(refs[first + i].1);
    assert forall|i: int| 0 <= i < count implies (#[trigger] f(i)).len() == 8 by {}
    lemma_flatten_fixed(count, f, 8);
}

proof fn lemma_unigram_section_len(u: Seq<(u32, i32)>)
    ensures
        unigram_section(u).len() == 8 * u.len(),
{
    reveal(unigram_section);
    let f = |i: int| le32(u[i].0) + le32(u[i].1 as u32);
    assert forall|i: int| 0 <= i < u.len() implies (#[trigger] f(i)).len() == 8 by {}
    lemma_flatten_fixed(u.len() as int, f, 8);
}

proof fn lemma_bigram_section_len(g: Seq<(u32, u32, i32)>)
    ensures
        bigram_section(g).len() == 12 * g.len(),
{
    reveal(bigram_section);
    let f = |i: int| le32(g[i].0) + le32(g[i].1) + le32(g[i].2 as u32);
    assert forall|i: int| 0 <= i < g.len() implies (#[trigger] f(i)).len() == 12 by {}
    lemma_flatten_fixed(g.len() as int, f, 12);
}

proof fn lemma_trigram_section_len(g: Seq<(u32, u32, u32, i32)>)
    ensures
        trigram_section(g).len() == 16 * g.len(),
{
    reveal(trigram_section);
    let f = |i: int| le32(g[i].0) + le32(g[i].1) + le32(g[i].2) + le32(g[i].3 as u32);
    assert forall|i: int| 0 <= i < g.len() implies (#[trigger] f(i)).len() == 16 by {}
    lemma_flatten_fixed(g.len() as int, f, 16);
}

proof fn lemma_header_len(
    entry_count: usize,
    previous_size: usize,
    next_size: usize,
    lm: LanguageModelSourceView,
    offsets: Seq<u64>,
)
    ensures
        header_bytes(entry_count, previous_size, next_size, lm, offsets).len() == 104,
{
    reveal(header_bytes);
}

/// The two halves of `a + b`.
proof fn lemma_split(x: Seq<u8>, a: Seq<u8>, b: Seq<u8>)
    requires
        x == a + b,
    ensures
        x.subrange(0, a.len() as int) == a,
        x.subrange(a.len() as int, x.len() as int) == b,
{
    assert(x.subrange(0, a.len() as int) =~= a);
    assert(x.subrange(a.len() as int, x.len() as int) =~= b);
}

/// When the whole file fits a `u64`, the section offsets are the plain sums of
/// the section lengths: nothing wraps.
proof fn lemma_offsets_exact(entry_count: usize, table_len: usize, cost_count: usize, lm: LanguageModelSourceView)
    requires
        104 + 24 * entry_count + table_len + 2 * cost_count + 8 * lm.vocabulary.len() + 8 * lm.unigrams.len() + 12
            * lm.bigrams.len() + 16 * lm.trigrams.len() <= u64::MAX,
    ensures
        ({
            let o = section_offsets(entry_count, table_len, cost_count, lm);
            &&& o.len() == 8
            &&& o[0] == 104
            &&& o[1] == o[0] + 24 * entry_count
            &&& o[2] == o[1] + table_len
            &&& o[3] == o[2] + 2 * cost_count
            &&& o[4] == o[3] + 8 * lm.vocabulary.len()
            &&& o[5] == o[4] + 8 * lm.unigrams.len()
            &&& o[6] == o[5] + 12 * lm.bigrams.len()
            &&& o[7] == o[6] + 16 * lm.trigrams.len()
        }),
{
    let m: nat = 0x1_0000_0000_0000_0000;
    lemma_small_mod((24 * entry_count) as nat, m);
    lemma_small_mod((cost_count * 2) as nat, m);
    lemma_small_mod((8 * lm.vocabulary.len()) as nat, m);
    lemma_small_mod((8 * lm.unigrams.len()) as nat, m);
    lemma_small_mod((12 * lm.bigrams.len()) as nat, m);
    lemma_small_mod((16 * lm.trigrams.len()) as nat, m);
}


/// The header written for the offsets `offsets` reads back.
proof fn lemma_written_header(
    bytes: Seq<u8>,
    entry_count: usize,
    previous_size: usize,
    next_size: usize,
    lm: LanguageModelSourceView,
    offsets: Seq<u64>,
)
    requires
        104 <= bytes.len() <= usize::MAX,
        offsets.len() == 8,
        forall|k: int| 0 <= k < 8 ==> #[trigger] offsets[k] <= bytes.len(),
        bytes.subrange(0, 104) == header_bytes(entry_count, previous_size, next_size, lm, offsets),
        entry_count <= u32::MAX,
        previous_size <= u32::MAX,
        next_size <= u32::MAX,
        lm.vocabulary.len() <= u32::MAX,
        lm.unigrams.len() <= u32::MAX,
        lm.bigrams.len() <= u32::MAX,
        lm.trigrams.len() <= u32::MAX,
    ensures
        spec_header(bytes) == Ok::<MimeHeader, Error>(
            MimeHeader {
                entry_count: entry_count as int,
                previous_size: previous_size as int,
                next_size: next_size as int,
                vocabulary_count: lm.vocabulary.len() as int,
                unigram_count: lm.unigrams.len() as int,
                bigram_count: lm.bigrams.len() as int,
                trigram_count: lm.trigrams.len() as int,
                offsets: Seq::new(8, |k: int| offsets[k] as int),
            },
        ),
{
    lemma_header_read(bytes, entry_count, previous_size, next_size, lm, offsets);
    let oi = Seq::new(8, |k: int| offsets[k] as int);
    assert forall|j: int| 0 <= j < 8 implies le_u64(bytes, #[trigger] offset_field(j)) == oi[j] && oi[j] <= usize::MAX by {
        assert(offsets[j] <= bytes.len());
    }
    lemma_offsets_read(bytes, oi, 8);
    assert(oi.take(8) =~= oi);
}

/// Each of eight parts laid end to end lies where the lengths before it say.
proof fn lemma_layout(
    bytes: Seq<u8>,
    hb: Seq<u8>,
    es: Seq<u8>,
    table: Seq<u8>,
    cs: Seq<u8>,
    vs: Seq<u8>,
    us: Seq<u8>,
    bs: Seq<u8>,
    ts: Seq<u8>,
)
    requires
        bytes == hb + es + table + cs + vs + us + bs + ts,
    ensures
        ({
            let p1 = hb.len() as int;
            let p2 = p1 + es.len();
            let p3 = p2 + table.len();
            let p4 = p3 + cs.len();
            let p5 = p4 + vs.len();
            let p6 = p5 + us.len();
            let p7 = p6 + bs.len();
            &&& bytes.len() == p7 + ts.len()
            &&& bytes.subrange(0, p1) == hb
            &&& bytes.subrange(p1, p2) == es
            &&& bytes.subrange(p2, p3) == table
            &&& bytes.subrange(p3, p4) == cs
            &&& bytes.subrange(p4, p5) == vs
            &&& bytes.subrange(p5, p6) == us
            &&& bytes.subrange(p6, p7) == bs
            &&& bytes.subrange(p7, p7 + ts.len()) == ts
        }),
{
    let x1 = hb + es;
    let x2 = x1 + table;
    let x3 = x2 + cs;
    let x4 = x3 + vs;
    let x5 = x4 + us;
    let x6 = x5 + bs;
    let x7 = x6 + ts;
    assert(bytes == x7);
    lemma_split(x7, x6, ts);
    lemma_split(x6, x5, bs);
    lemma_sub(x7, 0, x6.len() as int, x6, x5.len() as int, x6.len() as int);
    lemma_sub(x7, 0, x6.len() as int, x6, 0, x5.len() as int);
    lemma_split(x5, x4, us);
    lemma_sub(x7, 0, x5.len() as int, x5, x4.len() as int, x5.len() as int);
    lemma_sub(x7, 0, x5.len() as int, x5, 0, x4.len() as int);
    lemma_split(x4, x3, vs);
    lemma_sub(x7, 0, x4.len() as int, x4, x3.len() as int, x4.len() as int);
    lemma_sub(x7, 0, x4.len() as int, x4, 0, x3.len() as int);
    lemma_split(x3, x2, cs);
    lemma_sub(x7, 0, x3.len() as int, x3, x2.len() as int, x3.len() as int);
    lemma_sub(x7, 0, x3.len() as int, x3, 0, x2.len() as int);
    lemma_split(x2, x1, table);
    lemma_sub(x7, 0, x2.len() as int, x2, x1.len() as int, x2.len() as int);
    lemma_sub(x7, 0, x2.len() as int, x2, 0, x1.len() as int);
    lemma_split(x1, hb, es);
    lemma_sub(x7, 0, x1.len() as int, x1, hb.len() as int, x1.len() as int);
    lemma_sub(x7, 0, x1.len() as int, x1, 0, hb.len() as int);
}

/// The text interned at position `j` of `order` lies where `refs[j]` says.
proof fn lemma_order_texts(
    entries: Seq<EntryView>,
    vocabulary: Seq<Seq<char>>,
    refs: Seq<(u32, u32)>,
    table: Seq<u8>,
)
    requires
        refs.len() == string_order(entries, vocabulary).len(),
        forall|j: int|
            0 <= j < refs.len() ==> holds_text(table, #[trigger] refs[j], string_order(entries, vocabulary)[j]),
    ensures
        forall|i: int|
            0 <= i < entries.len() ==> holds_text(table, refs[2 * i], (#[trigger] entries[i]).reading) && holds_text(
                table,
                refs[2 * i + 1],
                entries[i].surface,
            ),
        forall|j: int|
            0 <= j < vocabulary.len() ==> holds_text(table, refs[2 * entries.len() + j], #[trigger] vocabulary[j]),
{
    let order = string_order(entries, vocabulary);
    assert forall|i: int| 0 <= i < entries.len() implies holds_text(table, refs[2 * i], (#[trigger] entries[i]).reading)
        && holds_text(table, refs[2 * i + 1], entries[i].surface) by {
        assert((2 * i) % 2 == 0 && (2 * i) / 2 == i && (2 * i + 1) % 2 == 1 && (2 * i + 1) / 2 == i) by (nonlinear_arith);
        assert(order[2 * i] == entries[i].reading);
        assert(order[2 * i + 1] == entries[i].surface);
        assert(holds_text(table, refs[2 * i], order[2 * i]));
        assert(holds_text(table, refs[2 * i + 1], order[2 * i + 1]));
    }
    assert forall|j: int| 0 <= j < vocabulary.len() implies holds_text(table, refs[2 * entries.len() + j], #[trigger] vocabulary[j]) by {
        assert(order[2 * entries.len() + j] == vocabulary[j]);
        assert(holds_text(table, refs[2 * entries.len() + j], order[2 * entries.len() + j]));
    }
}

/// The dictionary that the reader finds in what was written.
pub open spec fn written_view(
    entries: Seq<EntryView>,
    previous_size: usize,
    next_size: usize,
    costs: Seq<i16>,
    lm: LanguageModelSourceView,
) -> DictionaryView {
    DictionaryView {
        entries,
        previous_size: previous_size as int,
        next_size: next_size as int,
        costs,
        language_model: LanguageModelView {
            vocabulary: lm.vocabulary,
            unigrams: entries_to_map(lm.unigrams),
            bigrams: entries_to_map(bigram_map_entries(lm.bigrams)),
            trigrams: entries_to_map(trigram_map_entries(lm.trigrams)),
        },
    }
}

/// Each section lies at the offset that the header records for it.
pub open spec fn laid_out(
    bytes: Seq<u8>,
    entries: Seq<EntryView>,
    previous_size: usize,
    next_size: usize,
    costs: Seq<i16>,
    lm: LanguageModelSourceView,
    table: Seq<u8>,
    refs: Seq<(u32, u32)>,
) -> bool {
    let o = section_offsets(entries.len() as usize, table.len() as usize, costs.len() as usize, lm);
    &&& o.len() == 8
    &&& o[0] == 104
    &&& o[1] == o[0] + 24 * entries.len()
    &&& o[2] == o[1] + table.len()
    &&& o[3] == o[2] + 2 * costs.len()
    &&& o[4] == o[3] + 8 * lm.vocabulary.len()
    &&& o[5] == o[4] + 8 * lm.unigrams.len()
    &&& o[6] == o[5] + 12 * lm.bigrams.len()
    &&& o[7] == o[6] + 16 * lm.trigrams.len()
    &&& o[7] == bytes.len()
    &&& bytes.subrange(0, 104) == header_bytes(entries.len() as usize, previous_size, next_size, lm, o)
    &&& bytes.subrange(o[0] as int, o[1] as int) == entry_section(entries, refs)
    &&& bytes.subrange(o[1] as int, o[2] as int) == table
    &&& bytes.subrange(o[2] as int, o[3] as int) == cost_section(costs)
    &&& bytes.subrange(o[3] as int, o[4] as int) == vocabulary_section(
        lm.vocabulary.len() as int,
        refs,
        (2 * entries.len()) as int,
    )
    &&& bytes.subrange(o[4] as int, o[5] as int) == unigram_section(lm.unigrams)
    &&& bytes.subrange(o[5] as int, o[6] as int) == bigram_section(lm.bigrams)
    &&& bytes.subrange(o[6] as int, o[7] as int) == trigram_section(lm.trigrams)
}

/// Where the writer puts each section: at the offsets that the header records.
proof fn lemma_written_parts(
    bytes: Seq<u8>,
    entries: Seq<EntryView>,
    previous_size: usize,
    next_size: usize,
    costs: Seq<i16>,
    lm: LanguageModelSourceView,
    table: Seq<u8>,
    refs: Seq<(u32, u32)>,
)
    requires
        bytes == header_bytes(
            entries.len() as usize,
            previous_size,
            next_size,
            lm,
            section_offsets(entries.len() as usize, table.len() as usize, costs.len() as usize, lm),
        ) + entry_section(entries, refs) + table + cost_section(costs) + vocabulary_section(
            lm.vocabulary.len() as int,
            refs,
            (2 * entries.len()) as int,
        ) + unigram_section(lm.unigrams) + bigram_section(lm.bigrams) + trigram_section(lm.trigrams),
        bytes.len() <= usize::MAX,
        entries.len() <= u32::MAX,
    ensures
        laid_out(bytes, entries, previous_size, next_size, costs, lm, table, refs),
{
    let ne = entries.len();
    let nv = lm.vocabulary.len();
    let offsets = section_offsets(ne as usize, table.len() as usize, costs.len() as usize, lm);
    let hb = header_bytes(ne as usize, previous_size, next_size, lm, offsets);
    let es = entry_section(entries, refs);
    let cs = cost_section(costs);
    let vs = vocabulary_section(nv as int, refs, (2 * ne) as int);
    let us = unigram_section(lm.unigrams);
    let bs = bigram_section(lm.bigrams);
    let ts = trigram_section(lm.trigrams);
    lemma_header_len(ne as usize, previous_size, next_size, lm, offsets);
    lemma_entry_section_len(entries, refs);
    lemma_cost_section_len(costs);
    lemma_vocabulary_section_len(nv as int, refs, (2 * ne) as int);
    lemma_unigram_section_len(lm.unigrams);
    lemma_bigram_section_len(lm.bigrams);
    lemma_trigram_section_len(lm.trigrams);
    lemma_layout(bytes, hb, es, table, cs, vs, us, bs, ts);
    lemma_offsets_exact(ne as usize, table.len() as usize, costs.len() as usize, lm);
}

/// The language model sections, written where the header says, read back.
proof fn lemma_language_model_read_back(
    bytes: Seq<u8>,
    table: Seq<u8>,
    lm: LanguageModelSourceView,
    refs: Seq<(u32, u32)>,
    first: int,
    o: Seq<int>,
)
    requires
        o.len() == 8,
        0 <= first,
        0 <= o[3],
        o[4] == o[3] + 8 * lm.vocabulary.len(),
        o[5] == o[4] + 8 * lm.unigrams.len(),
        o[6] == o[5] + 12 * lm.bigrams.len(),
        o[7] == o[6] + 16 * lm.trigrams.len(),
        o[7] == bytes.len(),
        bytes.len() <= usize::MAX,
        table.len() <= usize::MAX,
        bytes.subrange(o[3], o[4]) == vocabulary_section(lm.vocabulary.len() as int, refs, first),
        bytes.subrange(o[4], o[5]) == unigram_section(lm.unigrams),
        bytes.subrange(o[5], o[6]) == bigram_section(lm.bigrams),
        bytes.subrange(o[6], o[7]) == trigram_section(lm.trigrams),
        first + lm.vocabulary.len() <= refs.len(),
        forall|j: int|
            0 <= j < lm.vocabulary.len() ==> holds_text(table, refs[first + j], #[trigger] lm.vocabulary[j]),
    ensures
        spec_parse_language_model(
            bytes,
            table,
            lm.vocabulary.len() as int,
            lm.unigrams.len() as int,
            lm.bigrams.len() as int,
            lm.trigrams.len() as int,
            o[3],
            o[4],
            o[5],
            o[6],
            o[7],
        ) == Ok::<LanguageModelView, Error>(written_view(Seq::empty(), 0, 0, Seq::empty(), lm).language_model),
{
    let nv = lm.vocabulary.len() as int;
    lemma_vocabulary_read(bytes, o[3], lm.vocabulary, refs, first, table, nv);
    assert(lm.vocabulary.take(nv) =~= lm.vocabulary);
    lemma_unigrams_read(bytes, o[4], lm.unigrams);
    lemma_bigrams_read(bytes, o[5], lm.bigrams);
    lemma_trigrams_read(bytes, o[6], lm.trigrams);
}

/// The reader's steps, each on the section where the header points.
#[verifier::rlimit(30)]
proof fn lemma_assemble(
    bytes: Seq<u8>,
    entries: Seq<EntryView>,
    previous_size: usize,
    next_size: usize,
    costs: Seq<i16>,
    lm: LanguageModelSourceView,
    table: Seq<u8>,
    refs: Seq<(u32, u32)>,
    o: Seq<int>,
)
    requires
        o.len() == 8,
        o[0] == 104,
        o[1] == o[0] + 24 * entries.len(),
        o[2] == o[1] + table.len(),
        o[3] == o[2] + 2 * costs.len(),
        o[4] == o[3] + 8 * lm.vocabulary.len(),
        o[5] == o[4] + 8 * lm.unigrams.len(),
        o[6] == o[5] + 12 * lm.bigrams.len(),
        o[7] == o[6] + 16 * lm.trigrams.len(),
        o[7] == bytes.len(),
        spec_header(bytes) == Ok::<MimeHeader, Error>(
            MimeHeader {
                entry_count: entries.len() as int,
                previous_size: previous_size as int,
                next_size: next_size as int,
                vocabulary_count: lm.vocabulary.len() as int,
                unigram_count: lm.unigrams.len() as int,
                bigram_count: lm.bigrams.len() as int,
                trigram_count: lm.trigrams.len() as int,
                offsets: o,
            },
        ),
        bytes.subrange(o[1], o[2]) == table,
        spec_entry_records(bytes, table, o[0], entries.len() as int) == Ok::<Seq<EntryView>, Error>(entries),
        spec_matrix_costs(bytes, o[2], costs.len() as int) == costs,
        spec_parse_language_model(
            bytes,
            table,
            lm.vocabulary.len() as int,
            lm.unigrams.len() as int,
            lm.bigrams.len() as int,
            lm.trigrams.len() as int,
            o[3],
            o[4],
            o[5],
            o[6],
            o[7],
        ) == Ok::<LanguageModelView, Error>(written_view(Seq::empty(), 0, 0, Seq::empty(), lm).language_model),
        bytes.len() <= usize::MAX,
        costs.len() == previous_size * next_size,
    ensures
        spec_parse_mime(bytes) == Ok::<DictionaryView, Error>(written_view(entries, previous_size, next_size, costs, lm)),
{
    let h = spec_header(bytes)->Ok_0;
    assert(spec_sections_valid(bytes.len() as int, h) == Ok::<(), Error>(()));
    assert(h.previous_size * h.next_size == costs.len());
}

/// Sections laid out where the header points read back.
proof fn lemma_laid_out_reads_back(
    bytes: Seq<u8>,
    entries: Seq<EntryView>,
    previous_size: usize,
    next_size: usize,
    costs: Seq<i16>,
    lm: LanguageModelSourceView,
    table: Seq<u8>,
    refs: Seq<(u32, u32)>,
)
    requires
        laid_out(bytes, entries, previous_size, next_size, costs, lm, table, refs),
        refs.len() == string_order(entries, lm.vocabulary).len(),
        forall|j: int|
            0 <= j < refs.len() ==> holds_text(table, #[trigger] refs[j], string_order(entries, lm.vocabulary)[j]),
        bytes.len() <= usize::MAX,
        costs.len() == previous_size * next_size,
        entries.len() <= u32::MAX,
        previous_size <= u32::MAX,
        next_size <= u32::MAX,
        lm.vocabulary.len() <= u32::MAX,
        lm.unigrams.len() <= u32::MAX,
        lm.bigrams.len() <= u32::MAX,
        lm.trigrams.len() <= u32::MAX,
    ensures
        spec_parse_mime(bytes) == Ok::<DictionaryView, Error>(written_view(entries, previous_size, next_size, costs, lm)),
{
    let ne = entries.len();
    let offsets = section_offsets(ne as usize, table.len() as usize, costs.len() as usize, lm);
    assert forall|k: int| 0 <= k < 8 implies #[trigger] offsets[k] <= bytes.len() by {}
    lemma_written_header(bytes, ne as usize, previous_size, next_size, lm, offsets);
    let oi = Seq::new(8, |k: int| offsets[k] as int);
    assert(oi[0] == offsets[0] && oi[1] == offsets[1] && oi[2] == offsets[2] && oi[3] == offsets[3]);
    assert(oi[4] == offsets[4] && oi[5] == offsets[5] && oi[6] == offsets[6] && oi[7] == offsets[7]);
    lemma_order_texts(entries, lm.vocabulary, refs, table);
    lemma_entries_read(bytes, 104, entries, refs, table, ne as int);
    assert(entries.take(ne as int) =~= entries);
    lemma_costs_read(bytes, oi[2], costs);
    lemma_language_model_read_back(bytes, table, lm, refs, (2 * ne) as int, oi);
    lemma_assemble(bytes, entries, previous_size, next_size, costs, lm, table, refs, oi);
}

/// Written sections, laid out as the writer lays them out, read back.
proof fn lemma_sections_read_back(
    bytes: Seq<u8>,
    entries: Seq<EntryView>,
    previous_size: usize,
    next_size: usize,
    costs: Seq<i16>,
    lm: LanguageModelSourceView,
    table: Seq<u8>,
    refs: Seq<(u32, u32)>,
)
    requires
        bytes == header_bytes(
            entries.len() as usize,
            previous_size,
            next_size,
            lm,
            section_offsets(entries.len() as usize, table.len() as usize, costs.len() as usize, lm),
        ) + entry_section(entries, refs) + table + cost_section(costs) + vocabulary_section(
            lm.vocabulary.len() as int,
            refs,
            (2 * entries.len()) as int,
        ) + unigram_section(lm.unigrams) + bigram_section(lm.bigrams) + trigram_section(lm.trigrams),
        refs.len() == string_order(entries, lm.vocabulary).len(),
        forall|j: int|
            0 <= j < refs.len() ==> holds_text(table, #[trigger] refs[j], string_order(entries, lm.vocabulary)[j]),
        bytes.len() <= usize::MAX,
        costs.len() == previous_size * next_size,
        entries.len() <= u32::MAX,
        previous_size <= u32::MAX,
        next_size <= u32::MAX,
        lm.vocabulary.len() <= u32::MAX,
        lm.unigrams.len() <= u32::MAX,
        lm.bigrams.len() <= u32::MAX,
        lm.trigrams.len() <= u32::MAX,
    ensures
        spec_parse_mime(bytes) == Ok::<DictionaryView, Error>(written_view(entries, previous_size, next_size, costs, lm)),
{
    lemma_written_parts(bytes, entries, previous_size, next_size, costs, lm, table, refs);
    lemma_laid_out_reads_back(bytes, entries, previous_size, next_size, costs, lm, table, refs);
}

/// What `spec_encode_mime` writes reads back through `spec_parse_mime` as the
/// same dictionary: the entries in the order given, the connection costs, and
/// the language model tables, each as a map in which a later record replaces
/// an earlier one with the same key. The counts and matrix sizes are stored in
/// 32 bits, so they must fit there, and the bytes must fit in memory.
pub proof fn lemma_written_reads_back(
    entries: Seq<EntryView>,
    previous_size: usize,
    next_size: usize,
    costs: Seq<i16>,
    lm: LanguageModelSourceView,
    bytes: Seq<u8>,
)
    requires
        spec_encode_mime(entries, previous_size, next_size, costs, lm) == Ok::<Seq<u8>, WriteError>(bytes),
        bytes.len() <= usize::MAX,
        costs.len() == previous_size * next_size,
        entries.len() <= u32::MAX,
        previous_size <= u32::MAX,
        next_size <= u32::MAX,
        lm.vocabulary.len() <= u32::MAX,
        lm.unigrams.len() <= u32::MAX,
        lm.bigrams.len() <= u32::MAX,
        lm.trigrams.len() <= u32::MAX,
    ensures
        spec_parse_mime(bytes) == Ok::<DictionaryView, Error>(written_view(entries, previous_size, next_size, costs, lm)),
{
    let order = string_order(entries, lm.vocabulary);
    let empty = InternState { table: Seq::empty(), seen: Map::empty() };
    lemma_intern_refs(order, order.len() as int);
    let (st, refs) = spec_intern_all(empty, order, order.len() as int)->Ok_0;
    assert forall|j: int| 0 <= j < refs.len() implies holds_text(st.table, #[trigger] refs[j], order[j]) by {}
    lemma_sections_read_back(bytes, entries, previous_size, next_size, costs, lm, st.table, refs);
}

} // verus!
