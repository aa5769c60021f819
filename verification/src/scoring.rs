//! Character classes and the penalties that shape which conversions win.

use vstd::prelude::*;

verus! {

pub const SAME_SURFACE_BONUS: i32 = -1_000;
pub const ASCII_SURFACE_PENALTY: i32 = 30_000;
pub const KATAKANA_SURFACE_PENALTY: i32 = 10_000;
pub const KATAKANA_NO_PARTICLE_PENALTY: i32 = 5_000;
pub const COUNTER_PAIR_BONUS: i32 = -6_000;
pub const COUNTER_NO_BONUS: i32 = -3_000;
pub const WEEKDAY_SUFFIX_BONUS: i32 = -6_000;
pub const UNUSUAL_CHARACTER_PENALTY: i32 = 15_000;
pub const SEGMENT_PENALTY: i32 = 500;
pub const SINGLE_CHAR_SEGMENT_PENALTY: i32 = 2_500;
pub const TWO_CHAR_SEGMENT_PENALTY: i32 = 750;

pub open spec fn is_ascii_digit(c: char) -> bool {
    '0' <= c <= '9'
}

pub open spec fn is_ascii_alphanumeric(c: char) -> bool {
    is_ascii_digit(c) || ('a' <= c <= 'z') || ('A' <= c <= 'Z')
}

pub open spec fn is_hiragana(c: char) -> bool {
    '\u{3040}' <= c <= '\u{309f}'
}

pub open spec fn is_katakana(c: char) -> bool {
    '\u{30a0}' <= c <= '\u{30ff}'
}

/// CJK ideographs: extension A, the unified block and the compatibility block.
pub open spec fn is_kanji(c: char) -> bool {
    ('\u{3400}' <= c <= '\u{4dbf}') || ('\u{4e00}' <= c <= '\u{9fff}') || ('\u{f900}' <= c
        <= '\u{faff}')
}

/// Kana or kanji: the characters a Japanese conversion is expected to produce.
pub open spec fn is_japanese_script(c: char) -> bool {
    is_hiragana(c) || is_katakana(c) || is_kanji(c)
}

pub fn ascii_alphanumeric(c: char) -> (r: bool)
    ensures
        r == is_ascii_alphanumeric(c),
{
    ('0' <= c && c <= '9') || ('a' <= c && c <= 'z') || ('A' <= c && c <= 'Z')
}

pub fn hiragana(c: char) -> (r: bool)
    ensures
        r == is_hiragana(c),
{
    '\u{3040}' <= c && c <= '\u{309f}'
}

pub fn katakana(c: char) -> (r: bool)
    ensures
        r == is_katakana(c),
{
    '\u{30a0}' <= c && c <= '\u{30ff}'
}

pub fn kanji(c: char) -> (r: bool)
    ensures
        r == is_kanji(c),
{
    ('\u{3400}' <= c && c <= '\u{4dbf}') || ('\u{4e00}' <= c && c <= '\u{9fff}') || ('\u{f900}' <= c
        && c <= '\u{faff}')
}

/// Some character of `s` is an ASCII letter or digit.
pub open spec fn has_ascii_alphanumeric(s: Seq<char>) -> bool {
    exists|i: int| 0 <= i < s.len() && is_ascii_alphanumeric(#[trigger] s[i])
}

pub open spec fn all_hiragana(s: Seq<char>) -> bool {
    forall|i: int| 0 <= i < s.len() ==> is_hiragana(#[trigger] s[i])
}

pub open spec fn all_katakana(s: Seq<char>) -> bool {
    forall|i: int| 0 <= i < s.len() ==> is_katakana(#[trigger] s[i])
}

/// The characters of `surface` that neither occur in `reading` nor are kana or kanji.
pub open spec fn unusual_count(reading: Seq<char>, surface: Seq<char>) -> nat
    decreases surface.len(),
{
    if surface.len() == 0 {
        0
    } else {
        unusual_count(reading, surface.drop_last()) + if !reading.contains(surface.last())
            && !is_japanese_script(surface.last()) {
            1nat
        } else {
            0nat
        }
    }
}

/// The penalty for writing `reading` as `surface`, regardless of context: a bonus
/// for leaving it as typed, a large penalty for introducing ASCII, penalties for
/// katakana spellings of hiragana, and one per character foreign to both.
pub open spec fn spec_surface_penalty(reading: Seq<char>, surface: Seq<char>) -> i32 {
    if reading == surface {
        SAME_SURFACE_BONUS
    } else if has_ascii_alphanumeric(surface) && !has_ascii_alphanumeric(reading) {
        ASCII_SURFACE_PENALTY
    } else if all_hiragana(reading) && all_katakana(surface) {
        KATAKANA_SURFACE_PENALTY
    } else {
        let particle: i32 = if all_hiragana(reading) && reading.contains('の') && surface.contains('ノ') {
            KATAKANA_NO_PARTICLE_PENALTY
        } else {
            0
        };
        particle.wrapping_add(UNUSUAL_CHARACTER_PENALTY.wrapping_mul(unusual_count(reading, surface) as i32))
    }
}

/// The penalty for a segment covering `len` characters: short segments cost more.
pub open spec fn spec_segment_penalty(len: int) -> i32 {
    if len == 0 {
        0
    } else if len == 1 {
        SINGLE_CHAR_SEGMENT_PENALTY
    } else if len == 2 {
        TWO_CHAR_SEGMENT_PENALTY
    } else {
        SEGMENT_PENALTY
    }
}

pub fn segment_penalty(len: usize) -> (r: i32)
    ensures
        r == spec_segment_penalty(len as int),
{
    if len == 0 {
        0
    } else if len == 1 {
        SINGLE_CHAR_SEGMENT_PENALTY
    } else if len == 2 {
        TWO_CHAR_SEGMENT_PENALTY
    } else {
        SEGMENT_PENALTY
    }
}

/// Whether `c` occurs in `s`.
pub fn contains_char(s: &[char], c: char) -> (r: bool)
    ensures
        r == s@.contains(c),
{
    let mut i: usize = 0;
    while i < s.len()
        invariant
            i <= s@.len(),
            forall|j: int| 0 <= j < i ==> s@[j] != c,
        decreases s.len() - i,
    {
        if s[i] == c {
            return true;
        }
        i = i + 1;
    }
    false
}

/// Whether `a` and `b` hold the same characters.
pub fn chars_equal(a: &[char], b: &[char]) -> (r: bool)
    ensures
        r == (a@ == b@),
{
    if a.len() != b.len() {
        return false;
    }
    let mut i: usize = 0;
    while i < a.len()
        invariant
            i <= a@.len(),
            a@.len() == b@.len(),
            forall|j: int| 0 <= j < i ==> a@[j] == b@[j],
        decreases a.len() - i,
    {
        if a[i] != b[i] {
            return false;
        }
        i = i + 1;
    }
    assert(a@ =~= b@);
    true
}

pub fn surface_penalty(reading: &[char], surface: &[char]) -> (r: i32)
    ensures
        r == spec_surface_penalty(reading@, surface@),
{
    if chars_equal(reading, surface) {
        return SAME_SURFACE_BONUS;
    }
    let mut reading_has_ascii = false;
    let mut reading_is_hiragana = true;
    let mut i: usize = 0;
    while i < reading.len()
        invariant
            i <= reading@.len(),
            reading_has_ascii == exists|j: int| 0 <= j < i && is_ascii_alphanumeric(#[trigger] reading@[j]),
            reading_is_hiragana == forall|j: int| 0 <= j < i ==> is_hiragana(#[trigger] reading@[j]),
        decreases reading.len() - i,
    {
        reading_has_ascii = reading_has_ascii || ascii_alphanumeric(reading[i]);
        reading_is_hiragana = reading_is_hiragana && hiragana(reading[i]);
        i = i + 1;
    }
    let mut surface_has_ascii = false;
    let mut surface_is_katakana = true;
    let mut unusual: usize = 0;
    let mut i: usize = 0;
    while i < surface.len()
        invariant
            i <= surface@.len(),
            surface_has_ascii == exists|j: int| 0 <= j < i && is_ascii_alphanumeric(#[trigger] surface@[j]),
            surface_is_katakana == forall|j: int| 0 <= j < i ==> is_katakana(#[trigger] surface@[j]),
            unusual == unusual_count(reading@, surface@.take(i as int)),
            unusual <= i,
        decreases surface.len() - i,
    {
        let c = surface[i];
        surface_has_ascii = surface_has_ascii || ascii_alphanumeric(c);
        surface_is_katakana = surface_is_katakana && katakana(c);
        proof {
            assert(surface@.take(i + 1).drop_last() =~= surface@.take(i as int));
        }
        if !contains_char(reading, c) && !(hiragana(c) || katakana(c) || kanji(c)) {
            unusual = unusual + 1;
        }
        i = i + 1;
    }
    proof {
        assert(surface@.take(surface@.len() as int) =~= surface@);
    }
    if surface_has_ascii && !reading_has_ascii {
        return ASCII_SURFACE_PENALTY;
    }
    if reading_is_hiragana && surface_is_katakana {
        return KATAKANA_SURFACE_PENALTY;
    }
    let mut penalty: i32 = 0;
    if reading_is_hiragana && contains_char(reading, 'の') && contains_char(surface, 'ノ') {
        penalty = KATAKANA_NO_PARTICLE_PENALTY;
    }
    penalty.wrapping_add(UNUSUAL_CHARACTER_PENALTY.wrapping_mul(unusual as i32))
}

/// A katakana spelling of a hiragana reading costs the katakana penalty: when
/// every character of `reading` is hiragana, every character of `surface` is
/// katakana, and the two differ, the penalty is `KATAKANA_SURFACE_PENALTY`.
pub proof fn lemma_katakana_spelling_penalty(reading: Seq<char>, surface: Seq<char>)
    requires
        reading != surface,
        forall|i: int| 0 <= i < reading.len() ==> '\u{3040}' <= #[trigger] reading[i] <= '\u{309f}',
        forall|i: int| 0 <= i < surface.len() ==> '\u{30a0}' <= #[trigger] surface[i] <= '\u{30ff}',
    ensures
        spec_surface_penalty(reading, surface) == 10_000,
{
    assert(!has_ascii_alphanumeric(surface)) by {
        if has_ascii_alphanumeric(surface) {
            let i = choose|i: int| 0 <= i < surface.len() && is_ascii_alphanumeric(#[trigger] surface[i]);
            assert('\u{30a0}' <= surface[i]);
        }
    }
}

/// Leaving a reading as typed earns the same-surface bonus, and an ASCII
/// letter or digit brought into a reading that has none costs the ASCII penalty.
pub proof fn lemma_surface_penalty_extremes(reading: Seq<char>, surface: Seq<char>, k: int)
    ensures
        spec_surface_penalty(reading, reading) == -1_000,
        reading != surface && 0 <= k < surface.len() && ('0' <= surface[k] <= '9' || 'a' <= surface[k] <= 'z'
            || 'A' <= surface[k] <= 'Z') && (forall|i: int|
            0 <= i < reading.len() ==> !('0' <= #[trigger] reading[i] <= '9' || 'a' <= reading[i] <= 'z' || 'A'
                <= reading[i] <= 'Z')) ==> spec_surface_penalty(reading, surface) == 30_000,
{
    if reading != surface && 0 <= k < surface.len() && is_ascii_alphanumeric(surface[k]) && (forall|i: int|
        0 <= i < reading.len() ==> !is_ascii_alphanumeric(#[trigger] reading[i])) {
        assert(has_ascii_alphanumeric(surface));
    }
}

proof fn lemma_unusual_none(reading: Seq<char>, surface: Seq<char>)
    requires
        forall|i: int| 0 <= i < surface.len() ==> is_japanese_script(#[trigger] surface[i]),
    ensures
        unusual_count(reading, surface) == 0,
    decreases surface.len(),
{
    if surface.len() > 0 {
        lemma_unusual_none(reading, surface.drop_last());
        assert(is_japanese_script(surface[surface.len() - 1]));
    }
}

proof fn lemma_unusual_all(reading: Seq<char>, surface: Seq<char>)
    requires
        forall|i: int| 0 <= i < surface.len() ==> !reading.contains(#[trigger] surface[i]) && !is_japanese_script(surface[i]),
    ensures
        unusual_count(reading, surface) == surface.len(),
    decreases surface.len(),
{
    if surface.len() > 0 {
        lemma_unusual_all(reading, surface.drop_last());
        assert(!reading.contains(surface[surface.len() - 1]));
    }
}

/// Between kana and kanji, only the katakana spellings cost extra: when the
/// reading and a different surface are both made of kana and kanji, and it is
/// not a katakana spelling of an all-hiragana reading, the penalty is the
/// katakana-の penalty (5000) when the reading is all hiragana with a の and the
/// surface has a ノ, and 0 otherwise.
pub proof fn lemma_kana_kanji_penalty(reading: Seq<char>, surface: Seq<char>)
    requires
        reading != surface,
        forall|i: int| 0 <= i < reading.len() ==> is_japanese_script(#[trigger] reading[i]),
        forall|i: int| 0 <= i < surface.len() ==> is_japanese_script(#[trigger] surface[i]),
        !((forall|i: int| 0 <= i < reading.len() ==> '\u{3040}' <= #[trigger] reading[i] <= '\u{309f}') && (forall|i: int|
            0 <= i < surface.len() ==> '\u{30a0}' <= #[trigger] surface[i] <= '\u{30ff}')),
    ensures
        spec_surface_penalty(reading, surface) == (if (forall|i: int|
            0 <= i < reading.len() ==> '\u{3040}' <= #[trigger] reading[i] <= '\u{309f}') && reading.contains('の')
            && surface.contains('ノ') {
            5_000i32
        } else {
            0i32
        }),
{
    lemma_unusual_none(reading, surface);
    assert(!has_ascii_alphanumeric(surface)) by {
        if has_ascii_alphanumeric(surface) {
            let i = choose|i: int| 0 <= i < surface.len() && is_ascii_alphanumeric(#[trigger] surface[i]);
            assert(is_japanese_script(surface[i]));
        }
    }
    assert(UNUSUAL_CHARACTER_PENALTY.wrapping_mul(0i32) == 0i32) by {
        assert((15_000nat * 0nat) % 0x1_0000_0000nat == 0) by (nonlinear_arith);
    }
}

/// Each character of the surface that is neither in the reading nor kana or
/// kanji costs the unusual-character penalty (15000): a different surface made
/// only of such characters, none an ASCII letter or digit, costs 15000 per
/// character (within `i32`).
pub proof fn lemma_unusual_characters_penalty(reading: Seq<char>, surface: Seq<char>)
    requires
        reading != surface,
        surface.len() > 0,
        15_000 * surface.len() <= i32::MAX,
        forall|i: int|
            0 <= i < surface.len() ==> !reading.contains(#[trigger] surface[i]) && !is_japanese_script(surface[i])
                && !is_ascii_alphanumeric(surface[i]),
    ensures
        spec_surface_penalty(reading, surface) == 15_000 * surface.len(),
{
    lemma_unusual_all(reading, surface);
    assert(!has_ascii_alphanumeric(surface));
    assert(!is_katakana(surface[0]));
    assert(!surface.contains('ノ')) by {
        if surface.contains('ノ') {
            let i = choose|i: int| 0 <= i < surface.len() && surface[i] == 'ノ';
            assert(!is_japanese_script(surface[i]));
        }
    }
    let n = surface.len() as i32;
    assert(UNUSUAL_CHARACTER_PENALTY.wrapping_mul(n) == 15_000 * n) by {
        assert(0 <= 15_000 * n <= i32::MAX);
    }
}

/// Rearranging the reading's own characters costs nothing: a different surface
/// made only of characters that occur in the reading, for a reading that is not
/// all hiragana, has penalty 0.
pub proof fn lemma_own_characters_penalty(reading: Seq<char>, surface: Seq<char>, k: int)
    requires
        reading != surface,
        forall|i: int| 0 <= i < surface.len() ==> reading.contains(#[trigger] surface[i]),
        0 <= k < reading.len(),
        !('\u{3040}' <= reading[k] <= '\u{309f}'),
    ensures
        spec_surface_penalty(reading, surface) == 0,
{
    assert(!all_hiragana(reading));
    lemma_unusual_own(reading, surface);
    assert(!(has_ascii_alphanumeric(surface) && !has_ascii_alphanumeric(reading))) by {
        if has_ascii_alphanumeric(surface) {
            let i = choose|i: int| 0 <= i < surface.len() && is_ascii_alphanumeric(#[trigger] surface[i]);
            assert(reading.contains(surface[i]));
            let j = choose|j: int| 0 <= j < reading.len() && reading[j] == surface[i];
            assert(is_ascii_alphanumeric(reading[j]));
        }
    }
    assert(UNUSUAL_CHARACTER_PENALTY.wrapping_mul(0i32) == 0i32);
}

proof fn lemma_unusual_own(reading: Seq<char>, surface: Seq<char>)
    requires
        forall|i: int| 0 <= i < surface.len() ==> reading.contains(#[trigger] surface[i]),
    ensures
        unusual_count(reading, surface) == 0,
    decreases surface.len(),
{
    if surface.len() > 0 {
        lemma_unusual_own(reading, surface.drop_last());
        assert(reading.contains(surface[surface.len() - 1]));
    }
}

} // verus!

verus! {

/// Counter words that follow a number (匹, 本, 人, ...).
pub open spec fn is_counter_char(c: char) -> bool {
    c == '匹' || c == '頭' || c == '羽' || c == '本' || c == '枚' || c == '個' || c == '粒' || c == 'つ'
        || c == '人' || c == '台' || c == '冊' || c == '歳' || c == '才' || c == '回' || c == '件' || c
        == '軒' || c == '杯' || c == '着' || c == '足' || c == '階' || c == '番' || c == '円'
}

/// A surface that is a single counter word.
pub open spec fn is_counter_surface(s: Seq<char>) -> bool {
    s.len() == 1 && is_counter_char(s[0])
}

/// ASCII digits and kanji numerals.
pub open spec fn is_numeral_char(c: char) -> bool {
    is_ascii_digit(c) || c == '〇' || c == '一' || c == '二' || c == '三' || c == '四' || c == '五' || c
        == '六' || c == '七' || c == '八' || c == '九' || c == '十' || c == '百' || c == '千' || c == '万'
        || c == '億' || c == '兆'
}

/// A non-empty surface made of numerals only.
pub open spec fn is_numeric_surface(s: Seq<char>) -> bool {
    s.len() > 0 && forall|i: int| 0 <= i < s.len() ==> is_numeral_char(#[trigger] s[i])
}

pub fn counter_char(c: char) -> (r: bool)
    ensures
        r == is_counter_char(c),
{
    c == '匹' || c == '頭' || c == '羽' || c == '本' || c == '枚' || c == '個' || c == '粒' || c == 'つ'
        || c == '人' || c == '台' || c == '冊' || c == '歳' || c == '才' || c == '回' || c == '件' || c
        == '軒' || c == '杯' || c == '着' || c == '足' || c == '階' || c == '番' || c == '円'
}

pub fn counter_surface(s: &[char]) -> (r: bool)
    ensures
        r == is_counter_surface(s@),
{
    s.len() == 1 && counter_char(s[0])
}

pub fn numeral_char(c: char) -> (r: bool)
    ensures
        r == is_numeral_char(c),
{
    ('0' <= c && c <= '9') || c == '〇' || c == '一' || c == '二' || c == '三' || c == '四' || c == '五'
        || c == '六' || c == '七' || c == '八' || c == '九' || c == '十' || c == '百' || c == '千' || c
        == '万' || c == '億' || c == '兆'
}

pub fn numeric_surface(s: &[char]) -> (r: bool)
    ensures
        r == is_numeric_surface(s@),
{
    if s.len() == 0 {
        return false;
    }
    let mut i: usize = 0;
    while i < s.len()
        invariant
            i <= s@.len(),
            forall|j: int| 0 <= j < i ==> is_numeral_char(#[trigger] s@[j]),
        decreases s.len() - i,
    {
        if !numeral_char(s[i]) {
            return false;
        }
        i = i + 1;
    }
    true
}

/// What the context adjustment needs to know of the previous segment.
#[derive(Debug, Clone, Copy)]
pub struct PreviousSegment {
    /// The previous surface is a number.
    pub numeric: bool,
    /// The previous surface is a counter word.
    pub counter: bool,
    /// The previous reading is the particle の.
    pub reading_is_no: bool,
}

pub open spec fn spec_previous_segment(reading: Seq<char>, surface: Seq<char>) -> PreviousSegment {
    PreviousSegment {
        numeric: is_numeric_surface(surface),
        counter: is_counter_surface(surface),
        reading_is_no: reading == seq!['の'],
    }
}

/// The adjustment for writing `reading` as `surface` after the segment described
/// by `previous`: bonuses for 曜日 as a weekday suffix, for a counter after a
/// number and for の after a counter.
pub open spec fn spec_context_adjustment(
    previous: Option<PreviousSegment>,
    reading: Seq<char>,
    surface: Seq<char>,
) -> i32 {
    let weekday: int = if reading == seq!['よ', 'う', 'び'] && surface == seq!['曜', '日'] {
        WEEKDAY_SUFFIX_BONUS as int
    } else {
        0
    };
    let counter: int = match previous {
        Some(p) => (if p.numeric && is_counter_surface(surface) {
            COUNTER_PAIR_BONUS as int
        } else {
            0
        }) + (if !p.reading_is_no && p.counter && surface == seq!['の'] {
            COUNTER_NO_BONUS as int
        } else {
            0
        }),
        None => 0,
    };
    (weekday + counter) as i32
}

pub fn context_adjustment(previous: &Option<PreviousSegment>, reading: &[char], surface: &[char]) -> (r: i32)
    ensures
        r == spec_context_adjustment(*previous, reading@, surface@),
{
    let mut adjustment: i32 = 0;
    if chars_equal(reading, &['よ', 'う', 'び']) && chars_equal(surface, &['曜', '日']) {
        adjustment = adjustment + WEEKDAY_SUFFIX_BONUS;
    }
    proof {
        assert(seq!['よ', 'う', 'び'] =~= ['よ', 'う', 'び']@);
        assert(seq!['曜', '日'] =~= ['曜', '日']@);
        assert(seq!['の'] =~= ['の']@);
    }
    if let Some(p) = previous {
        if p.numeric && counter_surface(surface) {
            adjustment = adjustment + COUNTER_PAIR_BONUS;
        }
        if !p.reading_is_no && p.counter && chars_equal(surface, &['の']) {
            adjustment = adjustment + COUNTER_NO_BONUS;
        }
    }
    adjustment
}

/// Describes a segment for the context adjustment of the segment after it.
pub fn previous_segment(reading: &[char], surface: &[char]) -> (r: PreviousSegment)
    ensures
        r == spec_previous_segment(reading@, surface@),
{
    proof {
        assert(seq!['の'] =~= ['の']@);
    }
    PreviousSegment {
        numeric: numeric_surface(surface),
        counter: counter_surface(surface),
        reading_is_no: chars_equal(reading, &['の']),
    }
}

/// The context bonuses: 曜日 read ようび earns the weekday bonus (-6000) after
/// anything; a single counter word after a number earns the counter bonus
/// (-6000); の after a counter word (that was not itself read の) earns the
/// counter-の bonus (-3000); nothing else is adjusted, and nothing at all is
/// adjusted at the start of a sentence apart from the weekday bonus.
pub proof fn lemma_context_bonuses(
    previous_reading: Seq<char>,
    previous_surface: Seq<char>,
    reading: Seq<char>,
    surface: Seq<char>,
)
    ensures
        ({
            let weekday = reading == seq!['よ', 'う', 'び'] && surface == seq!['曜', '日'];
            let after_number = previous_surface.len() > 0 && (forall|i: int|
                0 <= i < previous_surface.len() ==> is_numeral_char(#[trigger] previous_surface[i]));
            let counter = surface.len() == 1 && is_counter_char(surface[0]);
            let after_counter = previous_surface.len() == 1 && is_counter_char(previous_surface[0])
                && previous_reading != seq!['の'];
            let adjustment = spec_context_adjustment(
                Some(spec_previous_segment(previous_reading, previous_surface)),
                reading,
                surface,
            );
            &&& spec_context_adjustment(None, reading, surface) == (if weekday { -6_000i32 } else { 0i32 })
            &&& weekday ==> adjustment == -6_000
            &&& after_number && counter ==> adjustment == -6_000
            &&& after_counter && surface == seq!['の'] ==> adjustment == -3_000
            &&& !weekday && !(after_number && counter) && !(after_counter && surface == seq!['の']) ==> adjustment
                == 0
        }),
{
    let weekday = reading == seq!['よ', 'う', 'び'] && surface == seq!['曜', '日'];
    if weekday {
        assert(surface.len() == 2);
        assert(!is_counter_surface(surface));
        assert(surface != seq!['の']);
    }
    if surface == seq!['の'] {
        assert(!is_counter_char(surface[0]));
    }
    if previous_surface.len() == 1 && is_counter_char(previous_surface[0]) {
        assert(!is_numeral_char(previous_surface[0]));
    }
}

} // verus!
