//! Conversion results handed to callers.

use vstd::prelude::*;

verus! {

/// One converted word: the reading it covers and the text it became.
#[derive(Debug, Clone, PartialEq, Eq)]
pub struct Segment {
    pub reading: String,
    pub surface: String,
}

/// A conversion of a whole reading, with its total cost and its segmentation.
#[derive(Debug, Clone, PartialEq, Eq)]
pub struct Candidate {
    pub text: String,
    pub cost: i32,
    pub segments: Vec<Segment>,
}

/// The cost breakdown of one segment of a conversion.
#[derive(Debug, Clone, PartialEq, Eq)]
pub struct SegmentCost {
    pub reading: String,
    pub surface: String,
    pub word_cost: i32,
    pub connection_cost: i32,
    pub surface_penalty: i32,
    pub segment_penalty: i32,
    pub language_cost: i32,
    pub language_order: LanguageModelOrder,
    pub backoff_penalty: i32,
    pub unknown_language_model: bool,
    pub base_cost: i32,
    pub total_cost: i32,
}

/// Which n-gram order of the language model priced a word.
#[derive(Debug, Clone, Copy, PartialEq, Eq, Structural)]
pub enum LanguageModelOrder {
    Trigram,
    Bigram,
    Unigram,
    Unknown,
    Disabled,
}

/// A conversion of a whole reading with the full cost breakdown.
#[derive(Debug, Clone, PartialEq, Eq)]
pub struct CandidateCost {
    pub text: String,
    pub cost: i32,
    pub base_cost: i32,
    pub language_cost: i32,
    pub eos_connection_cost: i32,
    pub eos_language_cost: i32,
    pub segments: Vec<SegmentCost>,
}


/// The mathematical value of a `Segment`.
pub struct SegmentView {
    pub reading: Seq<char>,
    pub surface: Seq<char>,
}

impl View for Segment {
    type V = SegmentView;

    open spec fn view(&self) -> SegmentView {
        SegmentView { reading: self.reading@, surface: self.surface@ }
    }
}

/// The mathematical value of a `Candidate`.
pub struct CandidateView {
    pub text: Seq<char>,
    pub cost: i32,
    pub segments: Seq<SegmentView>,
}

impl View for Candidate {
    type V = CandidateView;

    open spec fn view(&self) -> CandidateView {
        CandidateView {
            text: self.text@,
            cost: self.cost,
            segments: self.segments@.map_values(|s: Segment| s@),
        }
    }
}

/// The mathematical value of a `SegmentCost`.
pub struct SegmentCostView {
    pub reading: Seq<char>,
    pub surface: Seq<char>,
    pub word_cost: i32,
    pub connection_cost: i32,
    pub surface_penalty: i32,
    pub segment_penalty: i32,
    pub language_cost: i32,
    pub language_order: LanguageModelOrder,
    pub backoff_penalty: i32,
    pub unknown_language_model: bool,
    pub base_cost: i32,
    pub total_cost: i32,
}

impl View for SegmentCost {
    type V = SegmentCostView;

    open spec fn view(&self) -> SegmentCostView {
        SegmentCostView {
            reading: self.reading@,
            surface: self.surface@,
            word_cost: self.word_cost,
            connection_cost: self.connection_cost,
            surface_penalty: self.surface_penalty,
            segment_penalty: self.segment_penalty,
            language_cost: self.language_cost,
            language_order: self.language_order,
            backoff_penalty: self.backoff_penalty,
            unknown_language_model: self.unknown_language_model,
            base_cost: self.base_cost,
            total_cost: self.total_cost,
        }
    }
}

/// The mathematical value of a `CandidateCost`.
pub struct CandidateCostView {
    pub text: Seq<char>,
    pub cost: i32,
    pub base_cost: i32,
    pub language_cost: i32,
    pub eos_connection_cost: i32,
    pub eos_language_cost: i32,
    pub segments: Seq<SegmentCostView>,
}

impl View for CandidateCost {
    type V = CandidateCostView;

    open spec fn view(&self) -> CandidateCostView {
        CandidateCostView {
            text: self.text@,
            cost: self.cost,
            base_cost: self.base_cost,
            language_cost: self.language_cost,
            eos_connection_cost: self.eos_connection_cost,
            eos_language_cost: self.eos_language_cost,
            segments: self.segments@.map_values(|s: SegmentCost| s@),
        }
    }
}

} // verus!
