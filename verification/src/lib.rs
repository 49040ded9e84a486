//! Exact token counting for a byte-pair-encoding (BPE) tokenizer in the
//! cl100k style: a rank table maps byte sequences to merge ranks, a fixed
//! grammar splits text into pieces, and each piece is reduced to token ids
//! by repeatedly merging the lowest-rank adjacent byte pair.
use vstd::prelude::*;

pub mod bpe;
pub mod chars;
pub mod encode;
pub mod file_error;
pub mod grammar;
pub mod laws;
pub mod rankfile;
pub mod registry;
pub mod table;
pub mod utf8;

verus! {

/// Token ids are ranks for ordinary tokens and explicitly assigned
/// numbers for special tokens.
pub type TokenId = usize;

} // verus!
