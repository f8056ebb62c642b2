//! A compressed prefix tree (Patricia trie) from byte-string keys to
//! byte-string values, with every operation proved against a map model.
use vstd::prelude::*;

pub mod nibble;
pub mod node;
pub mod trie;
