//! Hit and miss counters of every level of a simulated hierarchy.

use vstd::prelude::*;
use crate::cache::{CacheHierarchy, CacheView, HierarchyView};

verus! {

/// Hit/miss counters for a single cache level.
#[derive(Clone, Copy, Debug, PartialEq, Eq)]
pub struct CacheStats {
    pub hits: u64,
    pub misses: u64,
}

/// The counters of one level.
pub open spec fn level_stats(c: CacheView) -> CacheStats {
    CacheStats { hits: c.hits as u64, misses: c.misses as u64 }
}

/// Aggregated per-level stats plus the instruction count they cover,
/// produced at the end of a simulation run.
#[derive(Clone, Copy, Debug, PartialEq, Eq)]
pub struct SimStats {
    pub l1i: CacheStats,
    pub l1d: CacheStats,
    pub l2: CacheStats,
    pub llc: CacheStats,
    pub instructions_simulated: u64,
}

/// The stats of every level of `h`, covering `instructions` instructions.
pub open spec fn stats_of(h: HierarchyView, instructions: u64) -> SimStats {
    SimStats {
        l1i: level_stats(h.l1i),
        l1d: level_stats(h.l1d),
        l2: level_stats(h.l2),
        llc: level_stats(h.llc),
        instructions_simulated: instructions,
    }
}

/// A snapshot reports each level's own counters under that level's name,
/// and the instruction count it was given.
pub proof fn lemma_stats_report_each_level(h: HierarchyView, instructions: u64)
    ensures
        stats_of(h, instructions).l1i.hits == h.l1i.hits as u64,
        stats_of(h, instructions).l1i.misses == h.l1i.misses as u64,
        stats_of(h, instructions).l1d.hits == h.l1d.hits as u64,
        stats_of(h, instructions).l1d.misses == h.l1d.misses as u64,
        stats_of(h, instructions).l2.hits == h.l2.hits as u64,
        stats_of(h, instructions).l2.misses == h.l2.misses as u64,
        stats_of(h, instructions).llc.hits == h.llc.hits as u64,
        stats_of(h, instructions).llc.misses == h.llc.misses as u64,
        stats_of(h, instructions).instructions_simulated == instructions,
{
}

impl SimStats {
    /// Snapshots stats from every level of `hierarchy` alongside the
    /// number of instructions the snapshot covers.
    pub fn collect(hierarchy: &CacheHierarchy, instructions: u64) -> (r: Self)
        ensures
            r == stats_of(hierarchy@, instructions),
            r.l1i == (CacheStats { hits: hierarchy@.l1i.hits as u64, misses: hierarchy@.l1i.misses as u64 }),
            r.l1d == (CacheStats { hits: hierarchy@.l1d.hits as u64, misses: hierarchy@.l1d.misses as u64 }),
            r.l2 == (CacheStats { hits: hierarchy@.l2.hits as u64, misses: hierarchy@.l2.misses as u64 }),
            r.llc == (CacheStats { hits: hierarchy@.llc.hits as u64, misses: hierarchy@.llc.misses as u64 }),
            r.instructions_simulated == instructions,
    {
        Self {
            l1i: hierarchy.l1i.stats(),
            l1d: hierarchy.l1d.stats(),
            l2: hierarchy.l2.stats(),
            llc: hierarchy.llc.stats(),
            instructions_simulated: instructions,
        }
    }
}

} // verus!
