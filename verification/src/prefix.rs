//! How a bucket derives the prefix of a key for prefix filters.

use vstd::prelude::*;

verus! {

/// Rule that maps a key to its prefix.
#[derive(Debug, Clone, PartialEq, Eq, Hash)]
pub enum PrefixExtractor {
    /// The first `n` bytes of the key.
    FixedLen(usize),
    /// The key up to a separator byte.
    Separator(u8),
    /// A rule named by the application.
    Custom(String),
    /// No prefix is derived.
    Disabled,
}

impl Default for PrefixExtractor {
    fn default() -> (r: Self)
        ensures
            r is Disabled,
    {
        PrefixExtractor::Disabled
    }
}

} // verus!
