//! A phrase-search index over a multi-line text corpus.
//!
//! The corpus is split into lines, each line into lower-cased tokens
//! (maximal runs of one character class), and every suffix of every
//! line's token sequence is inserted into a trie. A query phrase is
//! tokenized the same way and walked from the root; the node it reaches
//! holds exactly the lines that contain the phrase.

pub mod laws;
pub mod output;
pub mod tokens;
pub mod trie;

use vstd::prelude::*;

verus! {

/// Greeting served at the root of the query service.
pub fn r_index() -> (r: &'static str)
    ensures
        r@ == "Hello, world!"@,
{
    "Hello, world!"
}

} // verus!
