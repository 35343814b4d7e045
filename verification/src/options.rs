//! The options of a filter.

use vstd::prelude::*;

verus! {

/// What a filter is built with.
pub struct Options {
    /// The ratio between the sizes of the sparse and the dense encoding that
    /// decides from which level on a trie is encoded sparsely. A lesser
    /// ratio has more levels encoded densely, which is faster and takes more
    /// space. The dense encoding takes no account of it.
    pub r: u32,
    /// The number of bits of a hash of each key that are kept with it. Each
    /// bit halves the rate of false positives of point queries.
    pub hash_bits: u32,
    /// The number of bits of each key that are kept beyond its truncated
    /// form. Each bit lowers the rate of false positives of point and range
    /// queries.
    pub real_bits: u32,
    /// The limit on the memory of the encoding: the builder takes it as the
    /// number of bits that the three bitmaps may hold between them.
    pub memory_limit: usize,
}

impl Default for Options {
    fn default() -> (r: Self)
        ensures
            r == Options::defaults(),
    {
        Self::new()
    }
}

impl Options {
    /// The options that `new` gives: a ratio of 64, four hash bits, four
    /// real bits and a memory limit of 256 million.
    pub open spec fn defaults() -> Options {
        Options { r: 64, hash_bits: 4, real_bits: 4, memory_limit: 256_000_000 }
    }

    /// The default options.
    pub fn new() -> (r: Options)
        ensures
            r == Options::defaults(),
    {
        Options { r: 64, hash_bits: 4, real_bits: 4, memory_limit: 256_000_000 }
    }
}

} // verus!
