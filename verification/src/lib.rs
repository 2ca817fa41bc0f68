//! Extractive text summarization.
//!
//! The pipeline splits raw text into sentences with a placeholder-protecting
//! segmenter, normalizes each sentence into lemma tokens, counts lemma
//! frequencies over the whole document, ranks sentences by a
//! part-of-speech-weighted frequency sum, and extracts noun-only keywords.

pub mod chars;
pub mod strings;
pub mod segmenter;
pub mod tokens;
pub mod lemmatizer;
pub mod ranker;
pub mod summary;
pub mod string_utils;
pub mod laws;
