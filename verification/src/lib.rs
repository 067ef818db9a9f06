//! Shortens a line of text to fit a maximum length, using a user-supplied
//! table of word and phrase abbreviations.
//!
//! [`abbrev::Abbreviator`] compiles textual rules into matchers and answers
//! whether a word or two-word phrase has a known abbreviation.
//! [`shortener::Shortener`] walks a line word by word, applying phrase-level
//! and word-level abbreviations while respecting enclosing punctuation.

pub mod abbrev;
pub mod shortener;
pub mod text;
