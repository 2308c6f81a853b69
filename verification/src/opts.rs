//! Options for decoding.

use vstd::prelude::*;

verus! {

/// The bound that `DeOpts::new` sets.
pub const DEFAULT_MAX_SEQ_LEN: usize = 100_000;

/// Options for decoding. The type follows the builder pattern.
pub struct DeOpts {
    max_seq_len: usize,
}

impl DeOpts {
    /// The largest count that decoding accepts for a list, an array or a
    /// text.
    pub closed spec fn bound(self) -> usize {
        self.max_seq_len
    }

    /// The default options.
    pub fn new() -> (opts: DeOpts)
        ensures
            opts.bound() == DEFAULT_MAX_SEQ_LEN,
    {
        DeOpts { max_seq_len: DEFAULT_MAX_SEQ_LEN }
    }

    /// Sets the largest count that decoding accepts for a list, an array or
    /// a text. A buffer that declares more is rejected before anything is
    /// allocated for it.
    pub fn max_seq_len(self, value: usize) -> (opts: DeOpts)
        ensures
            opts.bound() == value,
    {
        DeOpts { max_seq_len: value }
    }

    /// The bound these options carry.
    pub fn limit(&self) -> (n: usize)
        ensures
            n == self.bound(),
    {
        self.max_seq_len
    }
}

impl Default for DeOpts {
    fn default() -> (opts: DeOpts)
        ensures
            opts.bound() == DEFAULT_MAX_SEQ_LEN,
    {
        DeOpts::new()
    }
}

} // verus!
