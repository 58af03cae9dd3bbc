use vstd::prelude::*;

verus! {

/// Settings of the periodic cycle search.
#[derive(Debug, Clone, Copy, PartialEq, Eq, Structural)]
pub struct SearcherConfig {
    /// Seconds between two searches.
    pub interval_seconds: u64,
}

} // verus!
