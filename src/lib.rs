//! Word-frequency analysis of text for word-cloud rendering.
//!
//! `words` describes how text splits into terms (maximal runs of word
//! characters) and finds them with a compiled `\w+` pattern; `frequency`
//! aggregates the terms into counts, in order of first occurrence.
pub mod frequency;
pub mod words;

pub use frequency::{tokenize, tokenize_with, FrequencyMap};
pub use words::WordPattern;
