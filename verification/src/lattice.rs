//! Conversion paths: the nodes of the lattice search and how a path grows by one
//! segment.

use vstd::prelude::*;
use crate::candidate::{LanguageModelOrder, Segment, SegmentView};
use crate::dictionary::{Dictionary, DictionaryEntry};
use crate::language_model::{spec_cost_details, spec_word_id};
use crate::scoring::{
    context_adjustment, previous_segment, segment_penalty, spec_context_adjustment,
    spec_previous_segment, spec_segment_penalty, spec_surface_penalty, surface_penalty,
    PreviousSegment,
};
use crate::text::chars_of;

verus! {

pub const UNKNOWN_WORD_COST: i32 = 10_000;
pub const UNKNOWN_CONTEXT_ID: u16 = 0;
pub const BOS_EOS_CONTEXT_ID: u16 = 0;
pub const ASCII_WORD_COST: i32 = 2_000;

/// The cost figures of the segment that ends a path.
#[derive(Debug, Clone, Copy)]
pub struct StepCost {
    pub word_cost: i32,
    pub connection_cost: i32,
    pub surface_penalty: i32,
    pub segment_penalty: i32,
    pub language_cost: i32,
    pub language_order: LanguageModelOrder,
    pub backoff_penalty: i32,
    pub unknown_language_model: bool,
    pub base_cost: i32,
    pub total_cost: i32,
}

/// A conversion path, stored by its last node: the accumulated costs, the
/// context for what follows, the index of the node before it, and its last
/// segment.
#[derive(Debug)]
pub struct PathNode {
    pub base_cost: i32,
    pub language_cost: i32,
    pub eos_connection_cost: i32,
    pub eos_language_cost: i32,
    pub right_id: u16,
    pub before_previous_word: Option<u32>,
    pub previous_word: Option<u32>,
    pub parent: Option<usize>,
    pub segment: Option<Segment>,
    pub context: Option<PreviousSegment>,
    pub step: Option<StepCost>,
}

/// The mathematical value of a `PathNode`.
pub struct NodeView {
    pub base_cost: i32,
    pub language_cost: i32,
    pub eos_connection_cost: i32,
    pub eos_language_cost: i32,
    pub right_id: u16,
    pub before_previous_word: Option<u32>,
    pub previous_word: Option<u32>,
    pub parent: Option<int>,
    pub segment: Option<SegmentView>,
    pub context: Option<PreviousSegment>,
    pub step: Option<StepCost>,
}

impl View for PathNode {
    type V = NodeView;

    open spec fn view(&self) -> NodeView {
        NodeView {
            base_cost: self.base_cost,
            language_cost: self.language_cost,
            eos_connection_cost: self.eos_connection_cost,
            eos_language_cost: self.eos_language_cost,
            right_id: self.right_id,
            before_previous_word: self.before_previous_word,
            previous_word: self.previous_word,
            parent: match self.parent {
                Some(p) => Some(p as int),
                None => None,
            },
            segment: match self.segment {
                Some(s) => Some(s@),
                None => None,
            },
            context: self.context,
            step: self.step,
        }
    }
}

/// The order key of a path: its total cost.
pub open spec fn node_key(n: NodeView) -> i32 {
    n.base_cost.wrapping_add(n.language_cost)
}

/// The path a sentence starts with: no segment, in the language model's initial context.
pub open spec fn spec_root(d: Dictionary) -> NodeView {
    NodeView {
        base_cost: 0,
        language_cost: 0,
        eos_connection_cost: 0,
        eos_language_cost: 0,
        right_id: BOS_EOS_CONTEXT_ID,
        before_previous_word: None,
        previous_word: d.spec_language_model().spec_bos_id(),
        parent: None,
        segment: None,
        context: None,
        step: None,
    }
}

/// The path `parent` extended by the unknown word `text` at `word_cost`.
pub open spec fn spec_extend_unknown(
    d: Dictionary,
    parent: NodeView,
    parent_index: int,
    text: Seq<char>,
    word_cost: i32,
) -> NodeView {
    let lm = d.spec_language_model();
    let connection_cost = d.spec_matrix().spec_cost(parent.right_id as int, UNKNOWN_CONTEXT_ID as int) as i32;
    let word = spec_word_id(lm.spec_vocabulary(), text);
    let lm_cost = spec_cost_details(lm.spec_view(), parent.before_previous_word, parent.previous_word, word);
    let segment_penalty = spec_segment_penalty(text.len() as int);
    let base_delta = connection_cost.wrapping_add(word_cost).wrapping_add(segment_penalty);
    let base_cost = parent.base_cost.wrapping_add(base_delta);
    let language_cost = parent.language_cost.wrapping_add(lm_cost.cost);
    NodeView {
        base_cost,
        language_cost,
        eos_connection_cost: 0,
        eos_language_cost: 0,
        right_id: UNKNOWN_CONTEXT_ID,
        before_previous_word: parent.previous_word,
        previous_word: match word {
            Some(w) => Some(w),
            None => lm.spec_unknown_id(),
        },
        parent: Some(parent_index),
        segment: Some(SegmentView { reading: text, surface: text }),
        context: Some(spec_previous_segment(text, text)),
        step: Some(
            StepCost {
                word_cost,
                connection_cost,
                surface_penalty: 0,
                segment_penalty,
                language_cost: lm_cost.cost,
                language_order: lm_cost.order,
                backoff_penalty: lm_cost.backoff_penalty,
                unknown_language_model: lm_cost.unknown,
                base_cost,
                total_cost: base_cost.wrapping_add(language_cost),
            },
        ),
    }
}

/// The path `parent` extended by the dictionary word `e`.
pub open spec fn spec_extend_entry(d: Dictionary, parent: NodeView, parent_index: int, e: DictionaryEntry) -> NodeView {
    let lm = d.spec_language_model();
    let connection_cost = d.spec_matrix().spec_cost(parent.right_id as int, e.left_id as int) as i32;
    let word = spec_word_id(lm.spec_vocabulary(), e.surface@);
    let lm_cost = spec_cost_details(lm.spec_view(), parent.before_previous_word, parent.previous_word, word);
    let surface_penalty = spec_surface_penalty(e.reading@, e.surface@).wrapping_add(
        spec_context_adjustment(parent.context, e.reading@, e.surface@),
    );
    let segment_penalty = spec_segment_penalty(e.reading@.len() as int);
    let word_cost = e.cost as i32;
    let base_delta = connection_cost.wrapping_add(word_cost).wrapping_add(surface_penalty).wrapping_add(
        segment_penalty,
    );
    let base_cost = parent.base_cost.wrapping_add(base_delta);
    let language_cost = parent.language_cost.wrapping_add(lm_cost.cost);
    NodeView {
        base_cost,
        language_cost,
        eos_connection_cost: 0,
        eos_language_cost: 0,
        right_id: e.right_id,
        before_previous_word: parent.previous_word,
        previous_word: match word {
            Some(w) => Some(w),
            None => lm.spec_unknown_id(),
        },
        parent: Some(parent_index),
        segment: Some(SegmentView { reading: e.reading@, surface: e.surface@ }),
        context: Some(spec_previous_segment(e.reading@, e.surface@)),
        step: Some(
            StepCost {
                word_cost,
                connection_cost,
                surface_penalty,
                segment_penalty,
                language_cost: lm_cost.cost,
                language_order: lm_cost.order,
                backoff_penalty: lm_cost.backoff_penalty,
                unknown_language_model: lm_cost.unknown,
                base_cost,
                total_cost: base_cost.wrapping_add(language_cost),
            },
        ),
    }
}

/// The path `n` closed at the end of the sentence: the connection to the
/// sentence end and the language model's price of ending here are added.
pub open spec fn spec_finish(d: Dictionary, n: NodeView) -> NodeView {
    let lm = d.spec_language_model();
    let eos_cost = d.spec_matrix().spec_cost(n.right_id as int, BOS_EOS_CONTEXT_ID as int) as i32;
    let language_eos_cost = spec_cost_details(
        lm.spec_view(),
        n.before_previous_word,
        n.previous_word,
        lm.spec_eos_id(),
    ).cost;
    NodeView {
        base_cost: n.base_cost.wrapping_add(eos_cost),
        language_cost: n.language_cost.wrapping_add(language_eos_cost),
        eos_connection_cost: eos_cost,
        eos_language_cost: language_eos_cost,
        ..n
    }
}

/// What extending by a dictionary word needs that does not depend on the path.
pub struct EntryFacts {
    pub reading: Vec<char>,
    pub word: Option<u32>,
    pub surface_penalty: i32,
    pub segment_penalty: i32,
    pub context: PreviousSegment,
    pub surface: Vec<char>,
}

impl EntryFacts {
    pub open spec fn describe(self, d: Dictionary, e: DictionaryEntry) -> bool {
        &&& self.reading@ == e.reading@
        &&& self.surface@ == e.surface@
        &&& self.word == spec_word_id(d.spec_language_model().spec_vocabulary(), e.surface@)
        &&& self.surface_penalty == spec_surface_penalty(e.reading@, e.surface@)
        &&& self.segment_penalty == spec_segment_penalty(e.reading@.len() as int)
        &&& self.context == spec_previous_segment(e.reading@, e.surface@)
    }
}

pub fn entry_facts(d: &Dictionary, e: &DictionaryEntry) -> (r: EntryFacts)
    ensures
        r.describe(*d, *e),
{
    let reading = chars_of(e.reading.as_str());
    let surface = chars_of(e.surface.as_str());
    let word = d.language_model().word_id(&e.surface);
    let penalty = surface_penalty(reading.as_slice(), surface.as_slice());
    let seg = segment_penalty(reading.len());
    let context = previous_segment(reading.as_slice(), surface.as_slice());
    EntryFacts { reading, word, surface_penalty: penalty, segment_penalty: seg, context, surface }
}

/// Computes `spec_extend_entry`.
pub fn extend_entry(
    d: &Dictionary,
    parent: &PathNode,
    parent_index: usize,
    e: &DictionaryEntry,
    facts: &EntryFacts,
) -> (r: PathNode)
    requires
        facts.describe(*d, *e),
    ensures
        r@ == spec_extend_entry(*d, parent@, parent_index as int, *e),
{
    let lm = d.language_model();
    let connection_cost = d.matrix().cost(parent.right_id, e.left_id) as i32;
    let lm_cost = lm.cost_details(parent.before_previous_word, parent.previous_word, facts.word);
    let surface_penalty = facts.surface_penalty.wrapping_add(
        context_adjustment(&parent.context, facts.reading.as_slice(), facts.surface.as_slice()),
    );
    let word_cost = e.cost as i32;
    let base_delta = connection_cost.wrapping_add(word_cost).wrapping_add(surface_penalty).wrapping_add(
        facts.segment_penalty,
    );
    let base_cost = parent.base_cost.wrapping_add(base_delta);
    let language_cost = parent.language_cost.wrapping_add(lm_cost.cost);
    PathNode {
        base_cost,
        language_cost,
        eos_connection_cost: 0,
        eos_language_cost: 0,
        right_id: e.right_id,
        before_previous_word: parent.previous_word,
        previous_word: lm.context_word_id(facts.word),
        parent: Some(parent_index),
        segment: Some(Segment { reading: e.reading.clone(), surface: e.surface.clone() }),
        context: Some(facts.context),
        step: Some(
            StepCost {
                word_cost,
                connection_cost,
                surface_penalty,
                segment_penalty: facts.segment_penalty,
                language_cost: lm_cost.cost,
                language_order: lm_cost.order,
                backoff_penalty: lm_cost.backoff_penalty,
                unknown_language_model: lm_cost.unknown,
                base_cost,
                total_cost: base_cost.wrapping_add(language_cost),
            },
        ),
    }
}

/// What extending by an unknown word needs that does not depend on the path.
pub struct UnknownFacts {
    pub text: String,
    pub chars: Vec<char>,
    pub word: Option<u32>,
    pub segment_penalty: i32,
    pub context: PreviousSegment,
}

impl UnknownFacts {
    pub open spec fn describe(self, d: Dictionary, text: Seq<char>) -> bool {
        &&& self.text@ == text
        &&& self.chars@ == text
        &&& self.word == spec_word_id(d.spec_language_model().spec_vocabulary(), text)
        &&& self.segment_penalty == spec_segment_penalty(text.len() as int)
        &&& self.context == spec_previous_segment(text, text)
    }
}

pub fn unknown_facts(d: &Dictionary, chars: &[char], from: usize, to: usize) -> (r: UnknownFacts)
    requires
        from <= to <= chars@.len(),
    ensures
        r.describe(*d, chars@.subrange(from as int, to as int)),
{
    let text = crate::text::string_from_chars(chars, from, to);
    let own = chars_of(text.as_str());
    let word = d.language_model().word_id(&text);
    let seg = segment_penalty(own.len());
    let context = previous_segment(own.as_slice(), own.as_slice());
    UnknownFacts { text, chars: own, word, segment_penalty: seg, context }
}

/// Computes `spec_extend_unknown`.
pub fn extend_unknown(
    d: &Dictionary,
    parent: &PathNode,
    parent_index: usize,
    facts: &UnknownFacts,
    word_cost: i32,
) -> (r: PathNode)
    requires
        facts.describe(*d, facts.text@),
    ensures
        r@ == spec_extend_unknown(*d, parent@, parent_index as int, facts.text@, word_cost),
{
    let lm = d.language_model();
    let connection_cost = d.matrix().cost(parent.right_id, UNKNOWN_CONTEXT_ID) as i32;
    let lm_cost = lm.cost_details(parent.before_previous_word, parent.previous_word, facts.word);
    let base_delta = connection_cost.wrapping_add(word_cost).wrapping_add(facts.segment_penalty);
    let base_cost = parent.base_cost.wrapping_add(base_delta);
    let language_cost = parent.language_cost.wrapping_add(lm_cost.cost);
    PathNode {
        base_cost,
        language_cost,
        eos_connection_cost: 0,
        eos_language_cost: 0,
        right_id: UNKNOWN_CONTEXT_ID,
        before_previous_word: parent.previous_word,
        previous_word: lm.context_word_id(facts.word),
        parent: Some(parent_index),
        segment: Some(Segment { reading: facts.text.clone(), surface: facts.text.clone() }),
        context: Some(facts.context),
        step: Some(
            StepCost {
                word_cost,
                connection_cost,
                surface_penalty: 0,
                segment_penalty: facts.segment_penalty,
                language_cost: lm_cost.cost,
                language_order: lm_cost.order,
                backoff_penalty: lm_cost.backoff_penalty,
                unknown_language_model: lm_cost.unknown,
                base_cost,
                total_cost: base_cost.wrapping_add(language_cost),
            },
        ),
    }
}

/// Computes `spec_finish`.
pub fn finish(d: &Dictionary, n: PathNode) -> (r: PathNode)
    ensures
        r@ == spec_finish(*d, n@),
{
    let lm = d.language_model();
    let eos_cost = d.matrix().cost(n.right_id, BOS_EOS_CONTEXT_ID) as i32;
    let language_eos_cost = lm.eos_cost(n.before_previous_word, n.previous_word);
    PathNode {
        base_cost: n.base_cost.wrapping_add(eos_cost),
        language_cost: n.language_cost.wrapping_add(language_eos_cost),
        eos_connection_cost: eos_cost,
        eos_language_cost: language_eos_cost,
        ..n
    }
}

/// The connection price of going from right context id `previous` to left
/// context id `next`: the matrix entry in row `previous`, column `next`, or 0
/// when either id lies outside the matrix.
pub open spec fn matrix_entry(d: Dictionary, previous: int, next: int) -> i32 {
    let m = d.spec_matrix();
    if 0 <= previous < m.spec_previous_size() && 0 <= next < m.spec_next_size() {
        m.spec_costs()[previous * m.spec_next_size() + next] as i32
    } else {
        0
    }
}

/// A dictionary word joins a path through the matrix: its connection cost is
/// the entry from the path's right context id to the word's left context id.
/// The longer path ends in the word's right context id, its base and language
/// costs grow by the segment's figures, the word's price is the language
/// model's price of its surface after the path's last two words, and the
/// surface becomes the last word of the context.
pub proof fn lemma_entry_connection(d: Dictionary, parent: NodeView, parent_index: int, e: DictionaryEntry)
    ensures
        ({
            let n = spec_extend_entry(d, parent, parent_index, e);
            let step = n.step->0;
            let lm = d.spec_language_model();
            let word = spec_word_id(lm.spec_vocabulary(), e.surface@);
            &&& n.step is Some
            &&& step.connection_cost == matrix_entry(d, parent.right_id as int, e.left_id as int)
            &&& step.word_cost == e.cost as i32
            &&& n.right_id == e.right_id
            &&& n.parent == Some(parent_index)
            &&& n.base_cost == parent.base_cost.wrapping_add(
                step.connection_cost.wrapping_add(step.word_cost).wrapping_add(step.surface_penalty).wrapping_add(
                    step.segment_penalty,
                ),
            )
            &&& n.language_cost == parent.language_cost.wrapping_add(step.language_cost)
            &&& step.base_cost == n.base_cost
            &&& step.total_cost == n.base_cost.wrapping_add(n.language_cost)
            &&& step.surface_penalty == spec_surface_penalty(e.reading@, e.surface@).wrapping_add(
                spec_context_adjustment(parent.context, e.reading@, e.surface@),
            )
            &&& step.segment_penalty == spec_segment_penalty(e.reading@.len() as int)
            &&& n.segment == Some(SegmentView { reading: e.reading@, surface: e.surface@ })
            &&& n.before_previous_word == parent.previous_word
            &&& n.previous_word == (match word {
                Some(w) => Some(w),
                None => lm.spec_unknown_id(),
            })
            &&& step.language_cost == spec_cost_details(
                lm.spec_view(),
                parent.before_previous_word,
                parent.previous_word,
                word,
            ).cost
        }),
{
}

/// An unknown word joins a path through the matrix entry from the path's
/// right context id to the unknown-word context id, and the path then ends in
/// that context id; it is written as typed, without a surface penalty, and
/// priced by the language model like a dictionary word.
pub proof fn lemma_unknown_connection(d: Dictionary, parent: NodeView, parent_index: int, text: Seq<char>, word_cost: i32)
    ensures
        ({
            let n = spec_extend_unknown(d, parent, parent_index, text, word_cost);
            let step = n.step->0;
            let lm = d.spec_language_model();
            let word = spec_word_id(lm.spec_vocabulary(), text);
            &&& n.step is Some
            &&& step.connection_cost == matrix_entry(d, parent.right_id as int, 0)
            &&& step.word_cost == word_cost
            &&& n.right_id == 0
            &&& n.base_cost == parent.base_cost.wrapping_add(
                step.connection_cost.wrapping_add(step.word_cost).wrapping_add(step.segment_penalty),
            )
            &&& n.language_cost == parent.language_cost.wrapping_add(step.language_cost)
            &&& step.surface_penalty == 0
            &&& step.segment_penalty == spec_segment_penalty(text.len() as int)
            &&& n.segment == Some(SegmentView { reading: text, surface: text })
            &&& n.before_previous_word == parent.previous_word
            &&& n.previous_word == (match word {
                Some(w) => Some(w),
                None => lm.spec_unknown_id(),
            })
            &&& step.language_cost == spec_cost_details(
                lm.spec_view(),
                parent.before_previous_word,
                parent.previous_word,
                word,
            ).cost
        }),
{
}

/// Closing a path at the sentence end adds the matrix entry from its right
/// context id to the sentence-end context id, and the language model's price
/// of the sentence-end token after the path's last two words; its segments
/// stay as they were.
pub proof fn lemma_finish_connection(d: Dictionary, n: NodeView)
    ensures
        spec_finish(d, n).eos_connection_cost == matrix_entry(d, n.right_id as int, 0),
        spec_finish(d, n).base_cost == n.base_cost.wrapping_add(matrix_entry(d, n.right_id as int, 0)),
        spec_finish(d, n).language_cost == n.language_cost.wrapping_add(spec_finish(d, n).eos_language_cost),
        spec_finish(d, n).eos_language_cost == spec_cost_details(
            d.spec_language_model().spec_view(),
            n.before_previous_word,
            n.previous_word,
            d.spec_language_model().spec_eos_id(),
        ).cost,
        spec_finish(d, n).segment == n.segment,
        spec_finish(d, n).parent == n.parent,
        spec_finish(d, n).step == n.step,
{
}

} // verus!
