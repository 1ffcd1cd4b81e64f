//! Caching configuration for topic pattern matching.
//!
//! This build carries no match cache: every strategy resolves to
//! [`CacheStrategy::NoCache`], whatever capacity is asked for.
use vstd::prelude::*;

verus! {

/// Strategy for caching topic matching results.
#[derive(Debug, Clone, Copy, PartialEq, Eq, Structural)]
pub enum CacheStrategy {
    /// No caching: every match is computed afresh.
    NoCache,
}

impl CacheStrategy {
    /// Creates a strategy for the given capacity; without a match cache in
    /// this build, every capacity (0 included) gives `NoCache`.
    pub fn new(capacity: usize) -> (r: Self)
        ensures
            r == CacheStrategy::NoCache,
    {
        let _ = capacity;
        CacheStrategy::NoCache
    }

    /// The cache capacity (always positive), if a cache is used: never, in
    /// this build.
    pub fn capacity(&self) -> (r: Option<usize>)
        ensures
            r is None,
    {
        match self {
            CacheStrategy::NoCache => None,
        }
    }
}

impl Default for CacheStrategy {
    /// The default strategy caches nothing.
    fn default() -> (r: Self)
        ensures
            r == CacheStrategy::NoCache,
    {
        CacheStrategy::NoCache
    }
}

} // verus!
