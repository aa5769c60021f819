//! Dictionary entries from lexicon rows: the comma-separated word lists the
//! dictionary compiler reads.

use vstd::prelude::*;
use crate::csv::{parse_csv, row_view, rows_view, spec_parse_csv};
use crate::dictionary::{entry_views, DictionaryEntry, EntryView};
use crate::numbers::{parse_i32, spec_parse_i32};
use crate::scoring::{all_hiragana, hiragana, is_kanji, kanji};
use crate::text::{char_from_u32, chars_of, push_char};

verus! {

pub const ORTHOGRAPHIC_VARIANT_PENALTY: i32 = 4_000;
pub const MIN_LEXICON_COLUMNS: usize = 12;
pub const NORMALIZED_FORM_COLUMN: usize = 12;

/// Why lexicon rows cannot be read; lines count rows from 1.
#[derive(Debug, Clone, Copy, PartialEq, Eq, Structural)]
pub enum LexiconError {
    UnterminatedQuote,
    MissingColumns { line: usize, found: usize },
    InvalidLeftId { line: usize },
    InvalidRightId { line: usize },
    InvalidWordCost { line: usize },
    OutOfRange { line: usize },
}

/// The katakana from small `ァ` to `ヶ`, which have hiragana 0x60 below them.
pub open spec fn has_hiragana_form(c: char) -> bool {
    '\u{30a1}' <= c <= '\u{30f6}'
}

pub open spec fn hiragana_for(c: char) -> char {
    if has_hiragana_form(c) {
        ((c as u32) - 0x60) as char
    } else {
        c
    }
}

/// `s` with each katakana that has a hiragana form replaced by it.
pub open spec fn spec_katakana_to_hiragana(s: Seq<char>) -> Seq<char> {
    s.map_values(|c: char| hiragana_for(c))
}

/// `text` with its katakana written in hiragana.
pub fn katakana_to_hiragana(text: &str) -> (r: String)
    ensures
        r@ == spec_katakana_to_hiragana(text@),
{
    let chars = chars_of(text);
    let mut out = String::new();
    let mut i: usize = 0;
    while i < chars.len()
        invariant
            i <= chars@.len(),
            chars@ == text@,
            out@ == spec_katakana_to_hiragana(chars@.take(i as int)),
        decreases chars@.len() - i,
    {
        let c = chars[i];
        let mapped = if '\u{30a1}' <= c && c <= '\u{30f6}' {
            match char_from_u32(c as u32 - 0x60) {
                Some(h) => h,
                None => c,
            }
        } else {
            c
        };
        proof {
            if '\u{30a1}' <= c && c <= '\u{30f6}' {
                vstd::utf8::char_u32_cast(mapped, (c as u32 - 0x60) as u32);
            }
            assert(mapped == hiragana_for(c));
        }
        push_char(&mut out, mapped);
        proof {
            assert(spec_katakana_to_hiragana(chars@.take(i + 1)) =~= spec_katakana_to_hiragana(chars@.take(i as int)).push(
                hiragana_for(chars@[i as int]),
            ));
        }
        i = i + 1;
    }
    proof {
        assert(chars@.take(chars@.len() as int) =~= chars@);
    }
    out
}

/// A spelled variant gets a higher cost: its normalized form is given and
/// differs, the surface is not all hiragana, and it has a kanji.
pub open spec fn spec_should_penalize_orthographic_variant(surface: Seq<char>, normalized: Seq<char>) -> bool {
    &&& normalized.len() > 0
    &&& normalized != seq!['*']
    &&& normalized != surface
    &&& !all_hiragana(surface)
    &&& exists|i: int| 0 <= i < surface.len() && is_kanji(#[trigger] surface[i])
}

pub fn should_penalize_orthographic_variant(surface: &str, normalized: &str) -> (r: bool)
    ensures
        r == spec_should_penalize_orthographic_variant(surface@, normalized@),
{
    let s = chars_of(surface);
    let n = chars_of(normalized);
    if n.len() == 0 || (n.len() == 1 && n[0] == '*') || crate::scoring::chars_equal(n.as_slice(), s.as_slice()) {
        proof {
            if n@.len() == 1 && n@[0] == '*' {
                assert(n@ =~= seq!['*']);
            }
        }
        return false;
    }
    proof {
        if n@ == seq!['*'] {
            assert(n@[0] == '*');
        }
    }
    let mut all_kana = true;
    let mut any_kanji = false;
    let mut i: usize = 0;
    while i < s.len()
        invariant
            i <= s@.len(),
            all_kana == (forall|j: int| 0 <= j < i ==> crate::scoring::is_hiragana(#[trigger] s@[j])),
            any_kanji == (exists|j: int| 0 <= j < i && is_kanji(#[trigger] s@[j])),
        decreases s@.len() - i,
    {
        if !hiragana(s[i]) {
            all_kana = false;
        }
        if kanji(s[i]) {
            any_kanji = true;
        }
        i = i + 1;
    }
    !all_kana && any_kanji
}

/// The cost of a row's word: raised for a spelled variant, but kept within `i16`.
pub open spec fn adjusted_cost(cost: i32, row: Seq<Seq<char>>) -> i32 {
    if row.len() > NORMALIZED_FORM_COLUMN && spec_should_penalize_orthographic_variant(
        row[4],
        row[NORMALIZED_FORM_COLUMN as int],
    ) {
        let raised = if cost + ORTHOGRAPHIC_VARIANT_PENALTY > i32::MAX {
            i32::MAX as int
        } else {
            cost + ORTHOGRAPHIC_VARIANT_PENALTY
        };
        if raised > i16::MAX {
            i16::MAX as i32
        } else {
            raised as i32
        }
    } else {
        cost
    }
}

/// The entry of row number `line` (from 0): the reading (column 11, or the
/// surface form of column 0 when it is empty, in hiragana), the surface
/// (column 4), the context ids (columns 1 and 2) and the cost (column 3);
/// `None` for a row with a negative context id or an empty reading or surface.
pub open spec fn spec_row_entry(row: Seq<Seq<char>>, line: int) -> Result<Option<EntryView>, LexiconError> {
    let number = (line + 1) as usize;
    if row.len() < MIN_LEXICON_COLUMNS {
        Err(LexiconError::MissingColumns { line: number, found: row.len() as usize })
    } else {
        match spec_parse_i32(row[1]) {
            Err(_) => Err(LexiconError::InvalidLeftId { line: number }),
            Ok(left) => match spec_parse_i32(row[2]) {
                Err(_) => Err(LexiconError::InvalidRightId { line: number }),
                Ok(right) => if left < 0 || right < 0 {
                    Ok(None)
                } else {
                    match spec_parse_i32(row[3]) {
                        Err(_) => Err(LexiconError::InvalidWordCost { line: number }),
                        Ok(raw) => {
                            let cost = adjusted_cost(raw, row);
                            if left > u16::MAX || right > u16::MAX || cost < i16::MIN || cost > i16::MAX {
                                Err(LexiconError::OutOfRange { line: number })
                            } else {
                                let source = if row[11].len() == 0 {
                                    row[0]
                                } else {
                                    row[11]
                                };
                                let reading = spec_katakana_to_hiragana(source);
                                if reading.len() == 0 || row[4].len() == 0 {
                                    Ok(None)
                                } else {
                                    Ok(
                                        Some(
                                            EntryView {
                                                reading,
                                                surface: row[4],
                                                left_id: left as u16,
                                                right_id: right as u16,
                                                cost: cost as i16,
                                            },
                                        ),
                                    )
                                }
                            }
                        },
                    }
                },
            },
        }
    }
}

/// The entries of the first `k` rows, or the error of the first row that has one.
pub open spec fn spec_lexicon_rows(rows: Seq<Seq<Seq<char>>>, k: int) -> Result<Seq<EntryView>, LexiconError>
    decreases k,
{
    if k <= 0 {
        Ok(Seq::empty())
    } else {
        match spec_lexicon_rows(rows, k - 1) {
            Err(e) => Err(e),
            Ok(entries) => match spec_row_entry(rows[k - 1], k - 1) {
                Err(e) => Err(e),
                Ok(None) => Ok(entries),
                Ok(Some(e)) => Ok(entries.push(e)),
            },
        }
    }
}

proof fn lemma_lexicon_error_sticks(rows: Seq<Seq<Seq<char>>>, k: int, n: int)
    requires
        0 <= k <= n,
        spec_lexicon_rows(rows, k) is Err,
    ensures
        spec_lexicon_rows(rows, n) == spec_lexicon_rows(rows, k),
    decreases n - k,
{
    if n > k {
        lemma_lexicon_error_sticks(rows, k, n - 1);
    }
}

/// The entries of a lexicon text.
pub open spec fn spec_read_lexicon(text: Seq<char>) -> Result<Seq<EntryView>, LexiconError> {
    match spec_parse_csv(text) {
        Err(_) => Err(LexiconError::UnterminatedQuote),
        Ok(rows) => spec_lexicon_rows(rows, rows.len() as int),
    }
}

fn row_entry(row: &Vec<String>, line: usize) -> (r: Result<Option<DictionaryEntry>, LexiconError>)
    requires
        line < usize::MAX,
    ensures
        match spec_row_entry(row_view(row@), line as int) {
            Ok(Some(e)) => r matches Ok(Some(x)) && x@ == e,
            Ok(None) => r matches Ok(None),
            Err(e) => r == Err::<Option<DictionaryEntry>, LexiconError>(e),
        },
{
    let ghost v = row_view(row@);
    let number = line + 1;
    if row.len() < MIN_LEXICON_COLUMNS {
        return Err(LexiconError::MissingColumns { line: number, found: row.len() });
    }
    proof {
        assert(v[1] == row@[1]@);
        assert(v[2] == row@[2]@);
        assert(v[3] == row@[3]@);
        assert(v[4] == row@[4]@);
        assert(v[0] == row@[0]@);
        assert(v[11] == row@[11]@);
    }
    let left = match parse_i32(chars_of(row[1].as_str()).as_slice()) {
        Ok(x) => x,
        Err(_) => {
            return Err(LexiconError::InvalidLeftId { line: number });
        },
    };
    let right = match parse_i32(chars_of(row[2].as_str()).as_slice()) {
        Ok(x) => x,
        Err(_) => {
            return Err(LexiconError::InvalidRightId { line: number });
        },
    };
    if left < 0 || right < 0 {
        return Ok(None);
    }
    let surface = row[4].clone();
    let raw = match parse_i32(chars_of(row[3].as_str()).as_slice()) {
        Ok(x) => x,
        Err(_) => {
            return Err(LexiconError::InvalidWordCost { line: number });
        },
    };
    let mut cost = raw;
    if row.len() > NORMALIZED_FORM_COLUMN {
        proof {
            assert(v[NORMALIZED_FORM_COLUMN as int] == row@[NORMALIZED_FORM_COLUMN as int]@);
        }
        if should_penalize_orthographic_variant(row[4].as_str(), row[NORMALIZED_FORM_COLUMN].as_str()) {
            let raised: i64 = raw as i64 + ORTHOGRAPHIC_VARIANT_PENALTY as i64;
            let saturated: i64 = if raised > i32::MAX as i64 {
                i32::MAX as i64
            } else {
                raised
            };
            cost = if saturated > i16::MAX as i64 {
                i16::MAX as i32
            } else {
                saturated as i32
            };
        }
    }
    proof {
        assert(cost == adjusted_cost(raw, v));
    }
    if left > u16::MAX as i32 || right > u16::MAX as i32 || cost < i16::MIN as i32 || cost > i16::MAX as i32 {
        return Err(LexiconError::OutOfRange { line: number });
    }
    let source = if row[11].as_str().is_empty() {
        row[0].as_str()
    } else {
        row[11].as_str()
    };
    let reading = katakana_to_hiragana(source);
    if reading.as_str().is_empty() || surface.as_str().is_empty() {
        return Ok(None);
    }
    Ok(Some(DictionaryEntry { reading, surface, left_id: left as u16, right_id: right as u16, cost: cost as i16 }))
}

/// The entries of the lexicon `text`, in row order.
pub fn read_lexicon(text: &str) -> (r: Result<Vec<DictionaryEntry>, LexiconError>)
    ensures
        match spec_read_lexicon(text@) {
            Ok(entries) => r matches Ok(v) && entry_views(v@) == entries,
            Err(e) => r == Err::<Vec<DictionaryEntry>, LexiconError>(e),
        },
{
    let rows = match parse_csv(text) {
        Ok(rows) => rows,
        Err(_) => {
            return Err(LexiconError::UnterminatedQuote);
        },
    };
    let ghost rv = rows_view(rows@);
    proof {
        assert(spec_parse_csv(text@) == Ok::<Seq<Seq<Seq<char>>>, crate::csv::CsvError>(rv));
        assert(spec_read_lexicon(text@) == spec_lexicon_rows(rv, rv.len() as int));
    }
    let mut entries: Vec<DictionaryEntry> = Vec::new();
    let mut k: usize = 0;
    proof {
        assert(entry_views(entries@) =~= Seq::<EntryView>::empty());
    }
    while k < rows.len()
        invariant
            k <= rows@.len(),
            rv == rows_view(rows@),
            spec_read_lexicon(text@) == spec_lexicon_rows(rv, rv.len() as int),
            spec_lexicon_rows(rv, k as int) == Ok::<Seq<EntryView>, LexiconError>(entry_views(entries@)),
        decreases rows@.len() - k,
    {
        proof {
            assert(rv[k as int] == row_view(rows@[k as int]@));
        }
        let ghost before = entry_views(entries@);
        match row_entry(&rows[k], k) {
            Err(e) => {
                proof {
                    assert(spec_lexicon_rows(rv, k + 1) == Err::<Seq<EntryView>, LexiconError>(e));
                    lemma_lexicon_error_sticks(rv, k + 1, rv.len() as int);
                    assert(spec_read_lexicon(text@) == Err::<Seq<EntryView>, LexiconError>(e));
                }
                return Err(e);
            },
            Ok(None) => {},
            Ok(Some(e)) => {
                entries.push(e);
                proof {
                    assert(entry_views(entries@) =~= before.push(e@));
                }
            },
        }
        k = k + 1;
    }
    Ok(entries)
}

/// A spelled variant is penalized exactly when its normalized form is given
/// (non-empty and not `*`), differs from the surface, and the surface holds a
/// kanji at some position; a surface with a kanji is never all hiragana.
pub proof fn lemma_variant_penalized(surface: Seq<char>, normalized: Seq<char>)
    ensures
        spec_should_penalize_orthographic_variant(surface, normalized) <==> (normalized.len() > 0 && normalized
            != seq!['*'] && normalized != surface && exists|k: int|
            0 <= k < surface.len() && (('\u{3400}' <= #[trigger] surface[k] <= '\u{4dbf}') || ('\u{4e00}'
                <= surface[k] <= '\u{9fff}') || ('\u{f900}' <= surface[k] <= '\u{faff}'))),
{
    if exists|k: int|
        0 <= k < surface.len() && (('\u{3400}' <= #[trigger] surface[k] <= '\u{4dbf}') || ('\u{4e00}' <= surface[k]
            <= '\u{9fff}') || ('\u{f900}' <= surface[k] <= '\u{faff}')) {
        let k = choose|k: int|
            0 <= k < surface.len() && (('\u{3400}' <= #[trigger] surface[k] <= '\u{4dbf}') || ('\u{4e00}'
                <= surface[k] <= '\u{9fff}') || ('\u{f900}' <= surface[k] <= '\u{faff}'));
        assert(is_kanji(surface[k]));
        assert(!crate::scoring::is_hiragana(surface[k]));
        assert(!all_hiragana(surface));
    }
}

/// A row whose surface is a spelled variant (as above) gets its cost raised by
/// the variant penalty, kept within `i16`; any other row keeps its cost.
pub proof fn lemma_variant_cost(cost: i32, row: Seq<Seq<char>>)
    requires
        row.len() > NORMALIZED_FORM_COLUMN,
    ensures
        spec_should_penalize_orthographic_variant(row[4], row[NORMALIZED_FORM_COLUMN as int]) ==> adjusted_cost(
            cost,
            row,
        ) == (if cost + 4000 > i16::MAX { i16::MAX as int } else { cost + 4000 }),
        !spec_should_penalize_orthographic_variant(row[4], row[NORMALIZED_FORM_COLUMN as int]) ==> adjusted_cost(
            cost,
            row,
        ) == cost,
{
}

/// Katakana become hiragana one for one: the text keeps its length, each
/// katakana from ァ to ヶ becomes the character 0x60 below it (a hiragana), every
/// other character stays, and converting twice changes nothing more.
pub proof fn lemma_katakana_to_hiragana(s: Seq<char>)
    ensures
        spec_katakana_to_hiragana(s).len() == s.len(),
        forall|i: int|
            0 <= i < s.len() ==> {
                let c = s[i];
                let h = #[trigger] spec_katakana_to_hiragana(s)[i];
                &&& ('\u{30a1}' <= c <= '\u{30f6}') ==> h as u32 == c as u32 - 0x60 && '\u{3041}' <= h <= '\u{3096}'
                &&& !('\u{30a1}' <= c <= '\u{30f6}') ==> h == c
            },
        spec_katakana_to_hiragana(spec_katakana_to_hiragana(s)) == spec_katakana_to_hiragana(s),
{
    let h = spec_katakana_to_hiragana(s);
    assert forall|i: int| 0 <= i < s.len() implies {
        let c = s[i];
        let x = #[trigger] h[i];
        &&& ('\u{30a1}' <= c <= '\u{30f6}') ==> x as u32 == c as u32 - 0x60 && '\u{3041}' <= x <= '\u{3096}'
        &&& !('\u{30a1}' <= c <= '\u{30f6}') ==> x == c
    } by {
        let c = s[i];
        if '\u{30a1}' <= c <= '\u{30f6}' {
            let v = (c as u32 - 0x60) as u32;
            assert(0x3041 <= v <= 0x3096);
        }
    }
    assert(spec_katakana_to_hiragana(h) =~= h) by {
        assert forall|i: int| 0 <= i < h.len() implies #[trigger] hiragana_for(h[i]) == h[i] by {
            assert(h[i] == hiragana_for(s[i]));
        }
    }
}

} // verus!
