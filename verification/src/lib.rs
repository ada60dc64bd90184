//! A byte-oriented character-transliteration engine in the style of the
//! classic Unix `tr` filter: it expands set specifications (literals, ranges,
//! octal escapes) into ordered byte sequences, optionally complements the
//! search set against the universe of byte values 0-255, builds a total
//! byte-to-action mapping table, and applies that table to a byte stream
//! with delete and squeeze semantics.

pub mod config;
pub mod expand;
pub mod sets;
pub mod table;
pub mod translate;
