//! A succinct range filter over byte-string keys: a LOUDS-DENSE encoded trie
//! with the bitmap primitive it is built on and the cursor that queries it.

pub mod bitmap;
pub mod bitops;
pub mod dense;
pub mod iterator;
pub mod key;
pub mod laws;
pub mod options;
pub mod surf;
pub mod trie;
