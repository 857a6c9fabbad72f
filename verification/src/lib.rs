//! Verified core logic for a family of small text-processing tools:
//! compiling textual position selections into half-open ranges, counting
//! lines, words, bytes and characters, parsing positive integers, and the
//! decision rules behind duplicate-line suppression and entry filtering.

pub mod counts;
pub mod digits;
pub mod find;
pub mod numbers;
pub mod selection;
pub mod uniq;
pub mod whitespace;
