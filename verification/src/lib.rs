//! Frequency-rank indexing, difficulty scoring, and bitext-link resolution
//! for a tab-separated bilingual sentence corpus.
//!
//! The corpus is a sequence of lines `id<TAB>language<TAB>text`; a separate
//! link file holds directed `id1<TAB>id2` alignments.  The library builds a
//! word-frequency index for one language, derives dense frequency ranks,
//! scores each sentence of a source language by its hardest word, resolves
//! alignment links restricted to a source/target language pair, and pairs
//! the easiest sentences with their first aligned translation.
use vstd::prelude::*;

pub mod compose;
pub mod freq;
pub mod links;
pub mod norm;
pub mod rank;
pub mod score;
pub mod tokenize;
pub mod text;

verus! {

/// Why a corpus pass gave up instead of producing a result.
#[derive(Clone, Copy, Debug, PartialEq, Eq, Structural)]
pub enum CorpusError {
    /// A line's id cell does not parse as an unsigned integer.  Malformed
    /// lines abort the whole run rather than being skipped.
    InvalidId,
    /// The corpus holds more word occurrences than a machine word can
    /// count.
    TooLarge,
}

} // verus!
