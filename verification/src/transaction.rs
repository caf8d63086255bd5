//! Options of an optimistic transaction.

use vstd::prelude::*;
use crate::options::{DurabilityMode, WriteOptions};

verus! {

/// How a transaction commits its staged writes.
#[derive(Debug, Clone, Copy, PartialEq, Eq, Structural)]
pub struct TransactionOptions {
    pub write_options: WriteOptions,
}

impl Default for TransactionOptions {
    fn default() -> (r: Self)
        ensures
            r.write_options.durability == DurabilityMode::Buffered,
    {
        TransactionOptions { write_options: WriteOptions::default() }
    }
}

} // verus!
