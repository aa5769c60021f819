//! Kana-to-kanji conversion over dictionaries in the `.mime` format, and the
//! compiler that builds such dictionaries from lexicon, connection-cost and
//! corpus sources.

mod candidate;
mod error;

pub mod order;
pub mod text;
pub mod sort;
pub mod counting;
pub mod numbers;
pub mod scan;

pub mod mime;
pub mod language_model;
pub mod dictionary;
pub mod scoring;
pub mod lattice;
pub mod engine;
pub mod theorems;

pub mod csv;
pub mod lexicon;
pub mod matrix_source;
pub mod corpus;
pub mod writer;
pub mod roundtrip;

pub use candidate::{Candidate, CandidateCost, LanguageModelOrder, Segment, SegmentCost};
pub use dictionary::{ConnectionMatrix, Dictionary, DictionaryEntry};
pub use engine::Engine;
pub use error::Error;
