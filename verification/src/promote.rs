//! Results of a promotion pass over a guild's members.

use vstd::prelude::*;
use crate::config::ConfigKey;

verus! {

/// What one promotion pass did.
#[derive(Debug, Clone, Copy, PartialEq, Eq, Structural)]
pub struct PromoteStats {
    pub promoted: usize,
    pub unqualified: usize,
    pub total: usize,
}

impl Default for PromoteStats {
    /// A pass that has seen nobody yet.
    fn default() -> (r: PromoteStats)
        ensures
            r == (PromoteStats { promoted: 0, unqualified: 0, total: 0 }),
    {
        PromoteStats { promoted: 0, unqualified: 0, total: 0 }
    }
}

/// A promotion pass either ran, or named the configuration key it misses.
#[derive(Debug, Clone, Copy)]
pub enum PromoteResult {
    Unconfigured(ConfigKey),
    Configured(PromoteStats),
}

/// A result that may instead report which configuration key is missing.
#[derive(Debug, Clone, Copy)]
pub enum OptionallyConfiguredResult<T> {
    Unconfigured(ConfigKey),
    Configured(T),
}

} // verus!
