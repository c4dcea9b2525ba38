//! Caches and the cache hierarchy.
//!
//! A cache is a set-associative array of lines, a replacement policy and an
//! optional prefetcher. Every access is described by [`CacheView::serve`], a
//! step from one cache state to the next; the executable code is proved to
//! take exactly that step.

use vstd::prelude::*;
use vstd::string::*;
use vstd::arithmetic::power2::{pow2, lemma_pow2_pos, lemma_pow2_adds};
use crate::config::{CacheConfig, Config};
use crate::error::{AsterError, ErrorKind, error_is};
use crate::geometry::{
    is_pow2,
    log2,
    sets_for,
    set_index_of,
    tag_of,
    block_address,
    tag_fits,
    power_of_two,
    floor_log2,
    split_address,
    join_address,
    lemma_pow2_of_log2,
    lemma_address_in_block,
    lemma_block_address_splits,
    lemma_geometry_fits,
    lemma_block_address_fits,
};
use crate::policy::{lemma_victim_repeat, lemma_lru_touch_makes_most_recent, lemma_srrip_touch_values, 
    Policy,
    PolicyView,
    ReplacementPolicy,
    make_policy,
    policy_for,
    lemma_policy_touch,
    lemma_policy_victim,
};
use crate::prefetch::{Prefetcher, prefetcher_init, prefetcher_for};
use crate::prefetchers::stream_buffer::{StreamBuffer, StreamBufferView, lemma_observe_keeps_inv};
use crate::seqs::{
    first_where,
    is_first_where,
    lemma_first_where_found,
    lemma_first_where_none,
    lemma_first_where_some,
};
use crate::stats::CacheStats;
use crate::trace_reader::MemAccess;

verus! {

/// CacheLine represents one line in a set.
#[derive(Clone, Copy, Debug, PartialEq, Eq, Structural)]
pub struct CacheLine {
    pub valid: bool,
    pub dirty: bool,
    pub prefetched: bool,
    pub tag: u64,
}

/// CacheSet represents one set in a cache composed of CacheLines.
pub struct CacheSet {
    pub lines: Vec<CacheLine>,
}

/// Result type of a memory access.
#[derive(Clone, Copy, Debug, PartialEq, Eq, Structural)]
pub enum AccessResult {
    Hit,
    Miss,
}

/// Type of memory access.
#[derive(Clone, Copy, Debug, PartialEq, Eq, Structural)]
pub enum AccessKind {
    Demand,
    Writeback,
    Prefetch,
}

/// Result of a memory access.
pub struct AccessOutcome {
    pub result: AccessResult,
    pub writeback_addr: Option<u64>,
    pub prefetch_addrs: Option<Vec<u64>>,
}

/// The value of an [`AccessOutcome`].
pub struct AccessOutcomeView {
    pub result: AccessResult,
    pub writeback_addr: Option<u64>,
    pub prefetch_addrs: Option<Seq<u64>>,
}

impl View for AccessOutcome {
    type V = AccessOutcomeView;

    open spec fn view(&self) -> AccessOutcomeView {
        AccessOutcomeView {
            result: self.result,
            writeback_addr: self.writeback_addr,
            prefetch_addrs: match self.prefetch_addrs {
                Some(v) => Some(v@),
                None => None,
            },
        }
    }
}

/// Cache object.
pub struct Cache {
    pub block_size: usize,
    pub associativity: usize,
    pub num_sets: usize,
    policy: Policy,
    prefetcher: Option<StreamBuffer>,
    accesses: usize,
    hits: usize,
    misses: usize,
    sets: Vec<CacheSet>,
    writebacks: usize,
    writebacks_received: usize,
    prefetch_hits: usize,
    prefetch_unused: usize,
}

/// The state of a [`Cache`].
pub struct CacheView {
    pub block_size: nat,
    pub associativity: nat,
    pub num_sets: nat,
    pub sets: Seq<Seq<CacheLine>>,
    pub accesses: nat,
    pub hits: nat,
    pub misses: nat,
    pub writebacks: nat,
    pub writebacks_received: nat,
    pub prefetch_hits: nat,
    pub prefetch_unused: nat,
    pub policy: PolicyView,
    pub prefetcher: Option<StreamBufferView>,
}

/// A line holds the block with `tag`.
pub open spec fn holds_tag(tag: u64) -> spec_fn(CacheLine) -> bool {
    |l: CacheLine| l.valid && l.tag == tag
}

/// A line holds nothing.
pub open spec fn is_free() -> spec_fn(CacheLine) -> bool {
    |l: CacheLine| !l.valid
}

/// An empty line.
pub open spec fn empty_line() -> CacheLine {
    CacheLine { valid: false, dirty: false, prefetched: false, tag: 0 }
}

/// `n` plus one, where that still fits a `usize` counter.
pub open spec fn bumped(n: nat, by: bool) -> Option<nat> {
    if !by {
        Some(n)
    } else if n + 1 <= usize::MAX {
        Some(n + 1)
    } else {
        None
    }
}

impl CacheView {
    /// Bits of block offset.
    pub open spec fn offset_bits(self) -> nat {
        log2(self.block_size)
    }

    /// Bits of set index.
    pub open spec fn index_bits(self) -> nat {
        log2(self.num_sets)
    }

    /// The set `addr` maps to.
    pub open spec fn set_of(self, addr: u64) -> int {
        set_index_of(addr, self.offset_bits(), self.num_sets)
    }

    /// The tag of `addr`.
    pub open spec fn tag_for(self, addr: u64) -> u64 {
        tag_of(addr, self.offset_bits(), self.index_bits()) as u64
    }

    /// The way of its set that holds the block of `addr`, if any.
    pub open spec fn way_of(self, addr: u64) -> Option<int> {
        first_where(self.sets[self.set_of(addr)], holds_tag(self.tag_for(addr)))
    }

    /// The cache holds the block of `addr`.
    pub open spec fn holds(self, addr: u64) -> bool {
        exists|w: int|
            0 <= w < self.sets[self.set_of(addr)].len() && #[trigger] self.sets[self.set_of(
                addr,
            )][w].valid && self.sets[self.set_of(addr)][w].tag == self.tag_for(addr)
    }

    /// The address of the first byte of the block held by the line with
    /// `tag` in `set`.
    pub open spec fn line_address(self, set: int, tag: u64) -> u64 {
        block_address(tag as nat, set as nat, self.offset_bits(), self.index_bits()) as u64
    }

    /// Geometry, shape of the line array, policy and prefetcher agree, no
    /// tag overflows its address, and every demand access counted so far
    /// was counted once as a hit or once as a miss.
    pub open spec fn wf(self) -> bool {
        &&& self.block_size >= 1
        &&& self.associativity >= 1
        &&& is_pow2(self.num_sets)
        &&& self.block_size <= usize::MAX
        &&& self.associativity <= usize::MAX
        &&& self.num_sets <= usize::MAX
        &&& self.offset_bits() + self.index_bits() < 64
        &&& self.sets.len() == self.num_sets
        &&& forall|s: int| 0 <= s < self.num_sets ==> #[trigger] self.sets[s].len() == self.associativity
        &&& forall|s: int, w: int|
            0 <= s < self.num_sets && 0 <= w < self.associativity ==> tag_fits(
                (#[trigger] self.sets[s][w]).tag as nat,
                self.offset_bits() + self.index_bits(),
            )
        &&& self.policy.inv()
        &&& self.policy.num_sets() == self.num_sets
        &&& self.policy.num_ways() == self.associativity
        &&& (self.prefetcher matches Some(p) ==> p.inv() && p.block_size == self.block_size)
        &&& self.accesses <= usize::MAX
        &&& self.hits <= usize::MAX
        &&& self.misses <= usize::MAX
        &&& self.writebacks <= usize::MAX
        &&& self.writebacks_received <= usize::MAX
        &&& self.prefetch_hits <= usize::MAX
        &&& self.prefetch_unused <= usize::MAX
        &&& self.hits + self.misses == self.accesses
    }

    /// One access to the line array without prefetching: a hit marks the
    /// line (dirty on a write, no longer prefetched) and touches the policy;
    /// a miss fills the first free way of the set, or else the policy's
    /// victim, and reports the evicted line's address when it was dirty.
    /// Demand accesses are counted; other hits count as received writebacks.
    /// `None` where a counter or the policy would overflow, or the victim
    /// search would not end.
    pub open spec fn access_core(self, acc: MemAccess, kind: AccessKind) -> Option<
        (CacheView, MemAccess, AccessResult, Option<u64>),
    > {
        let s = self.set_of(acc.addr);
        let t = self.tag_for(acc.addr);
        let lines = self.sets[s];
        let demand = kind == AccessKind::Demand;
        match bumped(self.accesses, demand) {
            None => None,
            Some(accesses) => match first_where(lines, holds_tag(t)) {
                Some(w) => {
                    let line = lines[w];
                    let acc2 = MemAccess { hit: Some(true), ..acc };
                    let line2 = CacheLine {
                        dirty: line.dirty || acc.is_write,
                        prefetched: false,
                        ..line
                    };
                    match (
                        bumped(self.hits, demand),
                        bumped(self.writebacks_received, !demand),
                        bumped(self.prefetch_hits, line.prefetched),
                        self.policy.touched(s, w, acc2),
                    ) {
                        (Some(hits), Some(received), Some(prefetch_hits), Some(policy)) => Some(
                            (
                                CacheView {
                                    sets: self.sets.update(s, lines.update(w, line2)),
                                    accesses,
                                    hits,
                                    writebacks_received: received,
                                    prefetch_hits,
                                    policy,
                                    ..self
                                },
                                acc2,
                                AccessResult::Hit,
                                None,
                            ),
                        ),
                        _ => None,
                    }
                },
                None => {
                    let acc2 = MemAccess { hit: Some(false), ..acc };
                    let choice = match first_where(lines, is_free()) {
                        Some(v) => Some((v, self.policy)),
                        None => self.policy.victim(s),
                    };
                    match choice {
                        None => None,
                        Some((v, policy1)) => {
                            let evicted = lines[v];
                            let fresh = CacheLine {
                                valid: true,
                                dirty: acc.is_write,
                                prefetched: kind == AccessKind::Prefetch,
                                tag: t,
                            };
                            let dirty_evict = evicted.valid && evicted.dirty;
                            match (
                                bumped(self.misses, demand),
                                bumped(self.prefetch_unused, evicted.prefetched),
                                bumped(self.writebacks, dirty_evict),
                                policy1.touched(s, v, acc2),
                            ) {
                                (Some(misses), Some(unused), Some(writebacks), Some(policy)) => Some(
                                    (
                                        CacheView {
                                            sets: self.sets.update(s, lines.update(v, fresh)),
                                            accesses,
                                            misses,
                                            prefetch_unused: unused,
                                            writebacks,
                                            policy,
                                            ..self
                                        },
                                        acc2,
                                        AccessResult::Miss,
                                        if dirty_evict {
                                            Some(self.line_address(s, evicted.tag))
                                        } else {
                                            None
                                        },
                                    ),
                                ),
                                _ => None,
                            }
                        },
                    }
                },
            },
        }
    }

    /// Brings the block of `addr` in as a prefetch unless it is already held.
    pub open spec fn install_prefetch(self, addr: u64) -> Option<CacheView> {
        if self.way_of(addr) is Some {
            Some(self)
        } else {
            match self.access_core(
                MemAccess { addr, pc: 0, is_write: false, hit: None },
                AccessKind::Prefetch,
            ) {
                Some((c, _, _, _)) => Some(c),
                None => None,
            }
        }
    }

    /// Prefetches every address of `addrs`, in order.
    pub open spec fn install_all(self, addrs: Seq<u64>) -> Option<CacheView>
        decreases addrs.len(),
    {
        if addrs.len() == 0 {
            Some(self)
        } else {
            match self.install_prefetch(addrs[0]) {
                Some(c) => c.install_all(addrs.drop_first()),
                None => None,
            }
        }
    }

    /// One access of `kind`: the line-array step, then, for a demand access
    /// on a cache with a prefetcher, the prefetcher observes the access and
    /// its predictions are brought in.
    pub open spec fn serve(self, acc: MemAccess, kind: AccessKind) -> Option<
        (CacheView, MemAccess, AccessOutcomeView),
    > {
        match self.access_core(acc, kind) {
            None => None,
            Some((c1, acc1, result, wb)) => if kind == AccessKind::Demand && c1.prefetcher is Some {
                match c1.prefetcher->0.observe(acc1.addr, acc1.pc) {
                    None => None,
                    Some((pf, cands)) => match (CacheView { prefetcher: Some(pf), ..c1 }).install_all(
                        cands,
                    ) {
                        None => None,
                        Some(c3) => Some(
                            (
                                c3,
                                acc1,
                                AccessOutcomeView {
                                    result,
                                    writeback_addr: wb,
                                    prefetch_addrs: Some(cands),
                                },
                            ),
                        ),
                    },
                }
            } else {
                Some(
                    (
                        c1,
                        acc1,
                        AccessOutcomeView { result, writeback_addr: wb, prefetch_addrs: None },
                    ),
                )
            },
        }
    }

    /// A demand access.
    pub open spec fn access(self, acc: MemAccess) -> Option<(CacheView, MemAccess, AccessOutcomeView)> {
        self.serve(acc, AccessKind::Demand)
    }

    /// A writeback of the block at `addr` into this cache.
    pub open spec fn writeback(self, addr: u64) -> Option<(CacheView, AccessOutcomeView)> {
        match self.serve(
            MemAccess { addr, pc: 0, is_write: true, hit: None },
            AccessKind::Writeback,
        ) {
            Some((c, _, o)) => Some((c, o)),
            None => None,
        }
    }

    /// The state with every counter of hits, misses and accesses at zero.
    pub open spec fn reset(self) -> CacheView {
        CacheView { accesses: 0, hits: 0, misses: 0, ..self }
    }

    /// The state of a fresh cache.
    pub open spec fn initial(
        block_size: nat,
        associativity: nat,
        num_sets: nat,
        policy: PolicyView,
        prefetcher: Option<StreamBufferView>,
    ) -> CacheView {
        CacheView {
            block_size,
            associativity,
            num_sets,
            sets: Seq::new(num_sets, |s: int| Seq::new(associativity, |w: int| empty_line())),
            accesses: 0,
            hits: 0,
            misses: 0,
            writebacks: 0,
            writebacks_received: 0,
            prefetch_hits: 0,
            prefetch_unused: 0,
            policy,
            prefetcher,
        }
    }
}

/// The line-array step keeps the cache well formed, touches only the set
/// of the accessed address, and leaves the accessed block held.
pub proof fn lemma_core_step(c: CacheView, acc: MemAccess, kind: AccessKind)
    requires
        c.wf(),
        c.access_core(acc, kind) is Some,
    ensures
        ({
            let (c2, acc2, result, wb) = c.access_core(acc, kind)->0;
            &&& c2.wf()
            &&& c2.block_size == c.block_size
            &&& c2.associativity == c.associativity
            &&& c2.num_sets == c.num_sets
            &&& c2.prefetcher == c.prefetcher
            &&& c2.sets.len() == c.sets.len()
            &&& forall|s: int| 0 <= s < c.num_sets && s != c.set_of(acc.addr) ==> #[trigger] c2.sets[s] == c.sets[s]
            &&& c2.holds(acc.addr)
            &&& acc2 == MemAccess { hit: Some(result == AccessResult::Hit), ..acc }
        }),
{
    let s = c.set_of(acc.addr);
    let t = c.tag_for(acc.addr);
    let lines = c.sets[s];
    let (c2, acc2, result, wb) = c.access_core(acc, kind)->0;
    lemma_pow2_of_log2(c.num_sets);
    lemma_pow2_pos(c.offset_bits());
    assert(0 <= s < c.num_sets);
    lemma_address_in_block(acc.addr, c.offset_bits(), c.index_bits());
    assert(tag_of(acc.addr, c.offset_bits(), c.index_bits()) <= acc.addr) by {
        lemma_pow2_pos(c.offset_bits() + c.index_bits());
        vstd::arithmetic::div_mod::lemma_div_is_ordered_by_denominator(
            acc.addr as int,
            1,
            pow2(c.offset_bits() + c.index_bits()) as int,
        );
    }
    match first_where(lines, holds_tag(t)) {
        Some(w) => {
            assert(is_first_where(lines, holds_tag(t), w));
            lemma_policy_touch(c.policy, s, w, acc2);
            assert(c2.sets[s][w].valid && c2.sets[s][w].tag == t);
            assert(c2.set_of(acc.addr) == s && c2.tag_for(acc.addr) == t);
            assert(c2.sets[c2.set_of(acc.addr)][w].valid);
            assert forall|s2: int, w2: int|
                0 <= s2 < c2.num_sets && 0 <= w2 < c2.associativity implies tag_fits(
                (#[trigger] c2.sets[s2][w2]).tag as nat,
                c2.offset_bits() + c2.index_bits(),
            ) by {
                assert(c.sets[s2][w2].tag == c2.sets[s2][w2].tag);
            }
        },
        None => {
            let choice = match first_where(lines, is_free()) {
                Some(v) => Some((v, c.policy)),
                None => c.policy.victim(s),
            };
            let (v, policy1) = choice->0;
            match first_where(lines, is_free()) {
                Some(v0) => {
                    assert(is_first_where(lines, is_free(), v0));
                },
                None => {
                    lemma_policy_victim(c.policy, s);
                },
            }
            lemma_policy_touch(policy1, s, v, acc2);
            assert(c2.sets[s][v].valid && c2.sets[s][v].tag == t);
            assert(c2.set_of(acc.addr) == s && c2.tag_for(acc.addr) == t);
            assert(c2.sets[c2.set_of(acc.addr)][v].valid);
            assert forall|s2: int, w2: int|
                0 <= s2 < c2.num_sets && 0 <= w2 < c2.associativity implies tag_fits(
                (#[trigger] c2.sets[s2][w2]).tag as nat,
                c2.offset_bits() + c2.index_bits(),
            ) by {
                if s2 != s || w2 != v {
                    assert(c.sets[s2][w2].tag == c2.sets[s2][w2].tag);
                }
            }
        },
    }
}

/// Prefetching a sequence of addresses keeps the cache well formed and its
/// geometry and prefetcher unchanged.
pub proof fn lemma_install_all(c: CacheView, addrs: Seq<u64>)
    requires
        c.wf(),
        c.install_all(addrs) is Some,
    ensures
        c.install_all(addrs)->0.wf(),
        c.install_all(addrs)->0.block_size == c.block_size,
        c.install_all(addrs)->0.associativity == c.associativity,
        c.install_all(addrs)->0.num_sets == c.num_sets,
        c.install_all(addrs)->0.prefetcher == c.prefetcher,
    decreases addrs.len(),
{
    if addrs.len() > 0 {
        let m = c.install_prefetch(addrs[0])->0;
        if c.way_of(addrs[0]) is None {
            lemma_core_step(
                c,
                MemAccess { addr: addrs[0], pc: 0, is_write: false, hit: None },
                AccessKind::Prefetch,
            );
        }
        lemma_install_all(m, addrs.drop_first());
    }
}

/// Serving an access keeps the cache well formed with the same geometry.
pub proof fn lemma_serve_wf(c: CacheView, acc: MemAccess, kind: AccessKind)
    requires
        c.wf(),
        c.serve(acc, kind) is Some,
    ensures
        (c.serve(acc, kind)->0).0.wf(),
        (c.serve(acc, kind)->0).0.block_size == c.block_size,
        (c.serve(acc, kind)->0).0.associativity == c.associativity,
        (c.serve(acc, kind)->0).0.num_sets == c.num_sets,
        (c.serve(acc, kind)->0).1 == (MemAccess {
            hit: Some((c.serve(acc, kind)->0).2.result == AccessResult::Hit),
            ..acc
        }),
{
    lemma_core_step(c, acc, kind);
    let (c1, acc1, result, wb) = c.access_core(acc, kind)->0;
    if kind == AccessKind::Demand && c1.prefetcher is Some {
        let (pf, cands) = c1.prefetcher->0.observe(acc1.addr, acc1.pc)->0;
        lemma_observe_keeps_inv(c1.prefetcher->0, acc1.addr, acc1.pc);
        let c2 = CacheView { prefetcher: Some(pf), ..c1 };
        lemma_install_all(c2, cands);
    }
}

/// Prefetch installs count no demand access: hits, misses and accesses
/// stay as they were.
pub proof fn lemma_install_all_keeps_counts(c: CacheView, addrs: Seq<u64>)
    requires
        c.install_all(addrs) is Some,
    ensures
        c.install_all(addrs)->0.hits == c.hits,
        c.install_all(addrs)->0.misses == c.misses,
        c.install_all(addrs)->0.accesses == c.accesses,
    decreases addrs.len(),
{
    if addrs.len() > 0 {
        let m = c.install_prefetch(addrs[0])->0;
        lemma_install_all_keeps_counts(m, addrs.drop_first());
    }
}

/// Only demand accesses are counted, each once, as a hit or as a miss by
/// its result; and only a demand access to a cache with a prefetcher
/// reports prefetch addresses.
pub proof fn lemma_demand_counts(c: CacheView, acc: MemAccess, kind: AccessKind)
    requires
        c.serve(acc, kind) is Some,
    ensures
        ({
            let (c2, _, o) = c.serve(acc, kind)->0;
            &&& kind == AccessKind::Demand ==> {
                &&& c2.accesses == c.accesses + 1
                &&& c2.hits == c.hits + (if o.result == AccessResult::Hit { 1int } else { 0int })
                &&& c2.misses == c.misses + (if o.result == AccessResult::Miss { 1int } else { 0int })
            }
            &&& kind != AccessKind::Demand ==> {
                &&& c2.accesses == c.accesses
                &&& c2.hits == c.hits
                &&& c2.misses == c.misses
            }
            &&& (o.prefetch_addrs is Some <==> kind == AccessKind::Demand && c.prefetcher is Some)
        }),
{
    let (c1, acc1, result, wb) = c.access_core(acc, kind)->0;
    assert(c1.prefetcher == c.prefetcher);
    if kind == AccessKind::Demand && c1.prefetcher is Some {
        let (pf, cands) = c1.prefetcher->0.observe(acc1.addr, acc1.pc)->0;
        lemma_install_all_keeps_counts(CacheView { prefetcher: Some(pf), ..c1 }, cands);
    }
}

/// Prefetching the block of `addr` leaves a cache that holds it as it was;
/// otherwise the block comes in as a clean, prefetched line of its set.
/// Either way no demand access is counted.
pub proof fn lemma_install_prefetch_law(c: CacheView, addr: u64)
    requires
        c.wf(),
        c.install_prefetch(addr) is Some,
    ensures
        c.holds(addr) ==> c.install_prefetch(addr)->0 == c,
        !c.holds(addr) ==> exists|w: int|
            0 <= w < c.associativity && #[trigger] (c.install_prefetch(addr)->0).sets[c.set_of(
                addr,
            )][w] == (CacheLine { valid: true, dirty: false, prefetched: true, tag: c.tag_for(addr) }),
        (c.install_prefetch(addr)->0).hits == c.hits,
        (c.install_prefetch(addr)->0).misses == c.misses,
        (c.install_prefetch(addr)->0).accesses == c.accesses,
{
    let s = c.set_of(addr);
    let t = c.tag_for(addr);
    let lines = c.sets[s];
    let acc = MemAccess { addr, pc: 0, is_write: false, hit: None };
    lemma_pow2_of_log2(c.num_sets);
    lemma_pow2_pos(c.offset_bits());
    assert(0 <= s < c.num_sets);
    if c.holds(addr) {
        let w = choose|w: int|
            0 <= w < c.sets[c.set_of(addr)].len() && #[trigger] c.sets[c.set_of(addr)][w].valid
                && c.sets[c.set_of(addr)][w].tag == c.tag_for(addr);
        lemma_first_where_some(lines, holds_tag(t), w);
    } else {
        match first_where(lines, holds_tag(t)) {
            Some(w) => {
                assert(is_first_where(lines, holds_tag(t), w));
                assert(c.sets[c.set_of(addr)][w].valid);
            },
            None => {},
        }
        let choice = match first_where(lines, is_free()) {
            Some(v) => Some((v, c.policy)),
            None => c.policy.victim(s),
        };
        let v = (choice->0).0;
        match first_where(lines, is_free()) {
            Some(v0) => {
                assert(is_first_where(lines, is_free(), v0));
            },
            None => {
                lemma_policy_victim(c.policy, s);
            },
        }
        let c2 = c.install_prefetch(addr)->0;
        assert(c2.sets[s][v] == (CacheLine { valid: true, dirty: false, prefetched: true, tag: t }));
    }
}

/// What the line-array step changes, way by way. Only the accessed set
/// changes. On a hit only the line holding the block changes: it turns
/// dirty on a write, is no longer a prefetch, and nothing is written back.
/// On a miss only the way filled changes: the first free way of the set, or
/// else the policy's victim; it takes the new block (dirty on a write,
/// marked as a prefetch for a prefetch), and the writeback names that way's
/// old block exactly when it was valid and dirty.
pub proof fn lemma_core_ways(c: CacheView, acc: MemAccess, kind: AccessKind)
    requires
        c.wf(),
        c.access_core(acc, kind) is Some,
    ensures
        ({
            let (c2, _, result, wb) = c.access_core(acc, kind)->0;
            let s = c.set_of(acc.addr);
            let t = c.tag_for(acc.addr);
            let lines = c.sets[s];
            &&& forall|j: int| 0 <= j < c.num_sets && j != s ==> #[trigger] c2.sets[j] == c.sets[j]
            &&& result == AccessResult::Hit ==> {
                let w = first_where(lines, holds_tag(t))->0;
                &&& first_where(lines, holds_tag(t)) is Some
                &&& c2.sets[s] == lines.update(
                    w,
                    CacheLine {
                        dirty: lines[w].dirty || acc.is_write,
                        prefetched: false,
                        ..lines[w]
                    },
                )
                &&& wb is None
            }
            &&& result == AccessResult::Miss ==> {
                let v = match first_where(lines, is_free()) {
                    Some(f) => f,
                    None => (c.policy.victim(s)->0).0,
                };
                &&& first_where(lines, holds_tag(t)) is None
                &&& (first_where(lines, is_free()) is None ==> c.policy.victim(s) is Some)
                &&& 0 <= v < c.associativity
                &&& c2.sets[s] == lines.update(
                    v,
                    CacheLine {
                        valid: true,
                        dirty: acc.is_write,
                        prefetched: kind == AccessKind::Prefetch,
                        tag: t,
                    },
                )
                &&& wb == (if lines[v].valid && lines[v].dirty {
                    Some(c.line_address(s, lines[v].tag))
                } else {
                    None::<u64>
                })
            }
        }),
{
    let s = c.set_of(acc.addr);
    let lines = c.sets[s];
    lemma_core_step(c, acc, kind);
    lemma_pow2_of_log2(c.num_sets);
    lemma_pow2_pos(c.offset_bits());
    match first_where(lines, holds_tag(c.tag_for(acc.addr))) {
        Some(w) => {
            assert(is_first_where(lines, holds_tag(c.tag_for(acc.addr)), w));
        },
        None => {
            match first_where(lines, is_free()) {
                Some(v0) => {
                    assert(is_first_where(lines, is_free(), v0));
                },
                None => {
                    lemma_policy_victim(c.policy, s);
                },
            }
        },
    }
}

/// A hit refreshes the hit way in the replacement policy: under LRU it
/// becomes the most recently used way of its set (so, with two or more ways,
/// not the next victim); under SRRIP its RRPV becomes 0. A fill makes the
/// filled way the most recently used under LRU and gives it the insertion
/// value under SRRIP.
pub proof fn lemma_access_refreshes_policy(c: CacheView, acc: MemAccess, kind: AccessKind)
    requires
        c.wf(),
        c.access_core(acc, kind) is Some,
    ensures
        ({
            let (c2, _, result, _) = c.access_core(acc, kind)->0;
            let s = c.set_of(acc.addr);
            let lines = c.sets[s];
            let w = if result == AccessResult::Hit {
                first_where(lines, holds_tag(c.tag_for(acc.addr)))->0
            } else {
                match first_where(lines, is_free()) {
                    Some(f) => f,
                    None => (c.policy.victim(s)->0).0,
                }
            };
            &&& 0 <= w < c.associativity
            &&& c.policy is Lru ==> {
                &&& c2.policy is Lru
                &&& forall|j: int|
                    0 <= j < c.associativity && j != w ==> #[trigger] c2.policy->Lru_0.timestamps[s][j]
                        < c2.policy->Lru_0.timestamps[s][w]
                &&& c.associativity >= 2 ==> (c2.policy.victim(s)->0).0 != w
            }
            &&& c.policy is Srrip ==> {
                &&& c2.policy is Srrip
                &&& result == AccessResult::Hit ==> c2.policy->Srrip_0.rrpv[s][w] == 0
                &&& result == AccessResult::Miss ==> c2.policy->Srrip_0.rrpv[s][w]
                    == c.policy->Srrip_0.insertion_rrpv
            }
        }),
{
    let s = c.set_of(acc.addr);
    let t = c.tag_for(acc.addr);
    let lines = c.sets[s];
    let (c2, acc2, result, _) = c.access_core(acc, kind)->0;
    lemma_pow2_of_log2(c.num_sets);
    lemma_pow2_pos(c.offset_bits());
    lemma_core_step(c, acc, kind);
    match first_where(lines, holds_tag(t)) {
        Some(w) => {
            assert(is_first_where(lines, holds_tag(t), w));
            if c.policy is Lru {
                lemma_lru_touch_makes_most_recent(c.policy, s, w, acc2);
            } else {
                lemma_srrip_touch_values(c.policy, s, w, acc2);
            }
        },
        None => {
            let choice = match first_where(lines, is_free()) {
                Some(v) => Some((v, c.policy)),
                None => c.policy.victim(s),
            };
            let (v, policy1) = choice->0;
            match first_where(lines, is_free()) {
                Some(v0) => {
                    assert(is_first_where(lines, is_free(), v0));
                },
                None => {
                    lemma_policy_victim(c.policy, s);
                },
            }
            if c.policy is Lru {
                assert(policy1 == c.policy);
                lemma_lru_touch_makes_most_recent(policy1, s, v, acc2);
            } else {
                assert(policy1 is Srrip);
                assert(policy1->Srrip_0.insertion_rrpv == c.policy->Srrip_0.insertion_rrpv);
                lemma_srrip_touch_values(policy1, s, v, acc2);
            }
        },
    }
}

/// A demand access to a cache with a prefetcher is observed under its own
/// address and pc: the prefetcher afterwards, and the predictions reported,
/// are those of observing that address and pc.
pub proof fn lemma_demand_observed_with_its_pc(c: CacheView, acc: MemAccess)
    requires
        c.wf(),
        c.prefetcher is Some,
        c.serve(acc, AccessKind::Demand) is Some,
    ensures
        c.prefetcher->0.observe(acc.addr, acc.pc) is Some,
        (c.serve(acc, AccessKind::Demand)->0).0.prefetcher == Some(
            (c.prefetcher->0.observe(acc.addr, acc.pc)->0).0,
        ),
        (c.serve(acc, AccessKind::Demand)->0).2.prefetch_addrs == Some(
            (c.prefetcher->0.observe(acc.addr, acc.pc)->0).1,
        ),
{
    lemma_core_step(c, acc, AccessKind::Demand);
    let (c1, acc1, result, wb) = c.access_core(acc, AccessKind::Demand)->0;
    assert(acc1.addr == acc.addr && acc1.pc == acc.pc);
    let (pf, cands) = c1.prefetcher->0.observe(acc1.addr, acc1.pc)->0;
    lemma_observe_keeps_inv(c1.prefetcher->0, acc1.addr, acc1.pc);
    lemma_install_all(CacheView { prefetcher: Some(pf), ..c1 }, cands);
}

/// Only a demand access to a cache with a prefetcher makes predictions.
pub proof fn lemma_predictions_only_on_demand(c: CacheView, acc: MemAccess, kind: AccessKind)
    requires
        c.serve(acc, kind) is Some,
        kind != AccessKind::Demand || c.prefetcher is None,
    ensures
        (c.serve(acc, kind)->0).2.prefetch_addrs is None,
{
    lemma_demand_counts(c, acc, kind);
}

/// A block written back into a cache is not counted there: hits, misses
/// and accesses stay as they were, and no prediction is made.
pub proof fn lemma_writeback_not_counted(c: CacheView, addr: u64)
    requires
        c.writeback(addr) is Some,
    ensures
        (c.writeback(addr)->0).0.hits == c.hits,
        (c.writeback(addr)->0).0.misses == c.misses,
        (c.writeback(addr)->0).0.accesses == c.accesses,
        (c.writeback(addr)->0).1.prefetch_addrs is None,
{
    lemma_demand_counts(c, MemAccess { addr, pc: 0, is_write: true, hit: None }, AccessKind::Writeback);
}

/// An access hits exactly when the cache held the accessed block.
pub proof fn lemma_hit_iff_held(c: CacheView, acc: MemAccess, kind: AccessKind)
    requires
        c.wf(),
        c.serve(acc, kind) is Some,
    ensures
        ((c.serve(acc, kind)->0).2.result == AccessResult::Hit) <==> c.holds(acc.addr),
{
    let s = c.set_of(acc.addr);
    let t = c.tag_for(acc.addr);
    let lines = c.sets[s];
    lemma_core_step(c, acc, kind);
    if c.holds(acc.addr) {
        let w = choose|w: int|
            0 <= w < c.sets[c.set_of(acc.addr)].len() && #[trigger] c.sets[c.set_of(
                acc.addr,
            )][w].valid && c.sets[c.set_of(acc.addr)][w].tag == c.tag_for(acc.addr);
        lemma_first_where_some(lines, holds_tag(t), w);
    }
    match first_where(lines, holds_tag(t)) {
        Some(w) => {
            assert(is_first_where(lines, holds_tag(t), w));
            assert(c.sets[c.set_of(acc.addr)][w].valid);
        },
        None => {},
    }
}

/// Without a prefetcher (or for an access that does not prefetch), the
/// accessed block is held afterwards, only the accessed set changed, and
/// demand accesses are the only ones counted.
pub proof fn lemma_served_block_held(c: CacheView, acc: MemAccess, kind: AccessKind)
    requires
        c.wf(),
        c.serve(acc, kind) is Some,
        kind != AccessKind::Demand || c.prefetcher is None,
    ensures
        (c.serve(acc, kind)->0).0.holds(acc.addr),
        forall|s: int|
            0 <= s < c.num_sets && s != c.set_of(acc.addr) ==> #[trigger] (c.serve(
                acc,
                kind,
            )->0).0.sets[s] == c.sets[s],
        kind != AccessKind::Demand ==> {
            let c2 = (c.serve(acc, kind)->0).0;
            c2.hits == c.hits && c2.misses == c.misses && c2.accesses == c.accesses
        },
{
    lemma_core_step(c, acc, kind);
}

/// A demand access to a block that was just accessed in a cache without a
/// prefetcher hits.
pub proof fn lemma_second_access_hits(c: CacheView, first: MemAccess, second: MemAccess)
    requires
        c.wf(),
        c.prefetcher is None,
        c.access(first) is Some,
        (c.access(first)->0).0.access(second) is Some,
        second.addr == first.addr,
    ensures
        ((c.access(first)->0).0.access(second)->0).2.result == AccessResult::Hit,
{
    lemma_served_block_held(c, first, AccessKind::Demand);
    lemma_serve_wf(c, first, AccessKind::Demand);
    let c2 = (c.access(first)->0).0;
    lemma_hit_iff_held(c2, second, AccessKind::Demand);
}

/// A hit changes which blocks no line holds: every line keeps its validity
/// and its tag.
pub proof fn lemma_hit_keeps_contents(c: CacheView, acc: MemAccess, kind: AccessKind)
    requires
        c.wf(),
        c.access_core(acc, kind) is Some,
        (c.access_core(acc, kind)->0).2 == AccessResult::Hit,
    ensures
        forall|s: int, w: int|
            0 <= s < c.num_sets && 0 <= w < c.associativity ==> {
                let l2 = #[trigger] (c.access_core(acc, kind)->0).0.sets[s][w];
                l2.valid == c.sets[s][w].valid && l2.tag == c.sets[s][w].tag
            },
        (c.access_core(acc, kind)->0).3 is None,
{
    let s = c.set_of(acc.addr);
    let t = c.tag_for(acc.addr);
    let w = first_where(c.sets[s], holds_tag(t))->0;
    lemma_core_step(c, acc, kind);
    let c2 = (c.access_core(acc, kind)->0).0;
    assert forall|s2: int, w2: int| 0 <= s2 < c.num_sets && 0 <= w2 < c.associativity implies {
        let l2 = #[trigger] c2.sets[s2][w2];
        l2.valid == c.sets[s2][w2].valid && l2.tag == c.sets[s2][w2].tag
    } by {
        if s2 == s && w2 == w {
        } else if s2 == s {
            assert(c2.sets[s2][w2] == c.sets[s2][w2]);
        }
    }
}

/// A miss in a set with a free line fills a free line: nothing is evicted,
/// no writeback is reported, and every block held before is still held.
pub proof fn lemma_free_line_filled_first(c: CacheView, acc: MemAccess, kind: AccessKind)
    requires
        c.wf(),
        c.access_core(acc, kind) is Some,
        exists|w: int| 0 <= w < c.associativity && !(#[trigger] c.sets[c.set_of(acc.addr)][w]).valid,
    ensures
        (c.access_core(acc, kind)->0).3 is None,
        forall|s: int, w: int|
            0 <= s < c.num_sets && 0 <= w < c.associativity && c.sets[s][w].valid ==> #[trigger] (
            c.access_core(acc, kind)->0).0.sets[s][w] == c.sets[s][w] || (s == c.set_of(acc.addr)
                && (c.access_core(acc, kind)->0).2 == AccessResult::Hit && (c.access_core(
                acc,
                kind,
            )->0).0.sets[s][w].tag == c.sets[s][w].tag && (c.access_core(acc, kind)->0).0.sets[s][w].valid),
{
    let s = c.set_of(acc.addr);
    let t = c.tag_for(acc.addr);
    let lines = c.sets[s];
    lemma_core_step(c, acc, kind);
    let w0 = choose|w: int| 0 <= w < c.associativity && !(#[trigger] c.sets[c.set_of(acc.addr)][w]).valid;
    lemma_first_where_some(lines, is_free(), w0);
    let v = first_where(lines, is_free())->0;
    assert(is_first_where(lines, is_free(), v));
    match first_where(lines, holds_tag(t)) {
        Some(w) => {
            assert(is_first_where(lines, holds_tag(t), w));
        },
        None => {},
    }
}

/// A reported writeback names the evicted line's block: its address maps
/// to the accessed set and carries the evicted tag, and that line was valid
/// and dirty.
pub proof fn lemma_writeback_names_evicted_block(c: CacheView, acc: MemAccess, kind: AccessKind)
    requires
        c.wf(),
        c.access_core(acc, kind) is Some,
        (c.access_core(acc, kind)->0).3 is Some,
    ensures
        ({
            let a = (c.access_core(acc, kind)->0).3->0;
            let s = c.set_of(acc.addr);
            exists|w: int|
                0 <= w < c.associativity && (#[trigger] c.sets[s][w]).valid && c.sets[s][w].dirty
                    && c.tag_for(a) == c.sets[s][w].tag && c.set_of(a) == s && a == c.line_address(
                    s,
                    c.sets[s][w].tag,
                )
        }),
{
    let s = c.set_of(acc.addr);
    let t = c.tag_for(acc.addr);
    let lines = c.sets[s];
    lemma_core_step(c, acc, kind);
    let a = (c.access_core(acc, kind)->0).3->0;
    let choice = match first_where(lines, is_free()) {
        Some(v) => Some((v, c.policy)),
        None => c.policy.victim(s),
    };
    let v = (choice->0).0;
    match first_where(lines, is_free()) {
        Some(v0) => {
            assert(is_first_where(lines, is_free(), v0));
        },
        None => {
            lemma_policy_victim(c.policy, s);
        },
    }
    let tag = lines[v].tag;
    lemma_pow2_of_log2(c.num_sets);
    lemma_pow2_adds(c.offset_bits(), c.index_bits());
    lemma_pow2_pos(c.offset_bits());
    assert(tag_fits(tag as nat, c.offset_bits() + c.index_bits()));
    lemma_block_address_fits(tag as nat, s as nat, c.offset_bits(), c.index_bits());
    lemma_block_address_splits(tag as nat, s as nat, c.offset_bits(), c.index_bits());
    assert(c.sets[s][v].valid);
}

/// A fetch reaches L2 only when L1I did not hold the instruction, and the
/// LLC only when neither L1I nor L2 did.
pub proof fn lemma_fetch_stops_at_first_hit(h: HierarchyView, ip: u64)
    requires
        h.wf(),
        h.fetch(ip) is Some,
    ensures
        h.l1i.holds(ip) ==> (h.fetch(ip)->0).l2 == h.l2 && (h.fetch(ip)->0).llc == h.llc,
        h.l2.holds(ip) ==> (h.fetch(ip)->0).llc == h.llc,
        (h.fetch(ip)->0).l1d == h.l1d,
{
    let acc = MemAccess { addr: ip, pc: ip, is_write: false, hit: None };
    lemma_hit_iff_held(h.l1i, acc, AccessKind::Demand);
    lemma_serve_wf(h.l1i, acc, AccessKind::Demand);
    let (l1i, a1, o1) = h.l1i.access(acc)->0;
    if o1.result != AccessResult::Hit {
        lemma_hit_iff_held(h.l2, a1, AccessKind::Demand);
    }
}

/// A data access that L1D held goes no further: L2 and the LLC are left as
/// they were.
pub proof fn lemma_data_hit_stays_in_l1d(h: HierarchyView, acc: MemAccess)
    requires
        h.wf(),
        h.data(acc) is Some,
        h.l1d.holds(acc.addr),
    ensures
        (h.data(acc)->0).0.l2 == h.l2,
        (h.data(acc)->0).0.llc == h.llc,
        (h.data(acc)->0).0.l1i == h.l1i,
{
    lemma_hit_iff_held(h.l1d, acc, AccessKind::Demand);
    lemma_hit_keeps_contents(h.l1d, acc, AccessKind::Demand);
}

/// Writing a block back counts no demand access.
proof fn lemma_writebacks_keep_counts(c: CacheView, addr: u64, further: Option<u64>)
    ensures
        writeback_step(c, addr) matches Some((c2, _)) ==> c2.accesses == c.accesses && c2.hits
            == c.hits && c2.misses == c.misses,
        writeback_if(c, further) matches Some(c3) ==> c3.accesses == c.accesses && c3.hits == c.hits
            && c3.misses == c.misses,
{
    let wb = MemAccess { addr, pc: 0, is_write: true, hit: None };
    if c.serve(wb, AccessKind::Writeback) is Some {
        lemma_demand_counts(c, wb, AccessKind::Writeback);
    }
    if let Some(a) = further {
        let wa = MemAccess { addr: a, pc: 0, is_write: true, hit: None };
        if c.serve(wa, AccessKind::Writeback) is Some {
            lemma_demand_counts(c, wa, AccessKind::Writeback);
        }
    }
}

/// A data access leaves L1I alone and counts one access at L1D; L2 counts
/// one access for each L1D miss, and the LLC one for each L2 miss.
/// Writebacks between the levels count none.
pub proof fn lemma_data_counts(h: HierarchyView, acc: MemAccess)
    requires
        h.data(acc) is Some,
    ensures
        ({
            let h2 = (h.data(acc)->0).0;
            &&& h2.l1i == h.l1i
            &&& h2.l1d.accesses == h.l1d.accesses + 1
            &&& h2.l2.accesses == h.l2.accesses + (h2.l1d.misses - h.l1d.misses)
            &&& h2.llc.accesses == h.llc.accesses + (h2.l2.misses - h.l2.misses)
        }),
{
    let (l1d, a1, o1) = h.l1d.access(acc)->0;
    lemma_demand_counts(h.l1d, acc, AccessKind::Demand);
    match o1.writeback_addr {
        None => {},
        Some(addr) => {
            lemma_writebacks_keep_counts(h.l2, addr, None);
            let (l2w, further) = writeback_step(h.l2, addr)->0;
            lemma_writebacks_keep_counts(h.llc, 0, further);
        },
    }
    let (l2, llc) = match o1.writeback_addr {
        None => (h.l2, h.llc),
        Some(addr) => {
            let (l2w, further) = writeback_step(h.l2, addr)->0;
            (l2w, writeback_if(h.llc, further)->0)
        },
    };
    if o1.result != AccessResult::Hit {
        let (l2b, a2, o2) = l2.access(a1)->0;
        lemma_demand_counts(l2, a1, AccessKind::Demand);
        lemma_writebacks_keep_counts(llc, 0, o2.writeback_addr);
        let llcb = writeback_if(llc, o2.writeback_addr)->0;
        if o2.result != AccessResult::Hit {
            lemma_demand_counts(llcb, a2, AccessKind::Demand);
        }
    }
}

/// An instruction fetch leaves L1D alone and counts one access at L1I; L2
/// counts one access for each L1I miss, and the LLC one for each L2 miss.
pub proof fn lemma_fetch_counts(h: HierarchyView, ip: u64)
    requires
        h.fetch(ip) is Some,
    ensures
        ({
            let h2 = h.fetch(ip)->0;
            &&& h2.l1d == h.l1d
            &&& h2.l1i.accesses == h.l1i.accesses + 1
            &&& h2.l2.accesses == h.l2.accesses + (h2.l1i.misses - h.l1i.misses)
            &&& h2.llc.accesses == h.llc.accesses + (h2.l2.misses - h.l2.misses)
        }),
{
    let acc = MemAccess { addr: ip, pc: ip, is_write: false, hit: None };
    let (l1i, a1, o1) = h.l1i.access(acc)->0;
    lemma_demand_counts(h.l1i, acc, AccessKind::Demand);
    if o1.result != AccessResult::Hit {
        let (l2, a2, o2) = h.l2.access(a1)->0;
        lemma_demand_counts(h.l2, a1, AccessKind::Demand);
        if o2.result != AccessResult::Hit {
            lemma_demand_counts(h.llc, a2, AccessKind::Demand);
        }
    }
}

/// Resetting a hierarchy's statistics zeroes the hit, miss and access
/// counters of all four levels and keeps what every level holds, its
/// replacement state and its prefetcher.
pub proof fn lemma_reset_zeroes_every_level(h: HierarchyView)
    ensures
        ({
            let r = h.reset();
            &&& r.l1i.hits == 0 && r.l1i.misses == 0 && r.l1i.accesses == 0
            &&& r.l1d.hits == 0 && r.l1d.misses == 0 && r.l1d.accesses == 0
            &&& r.l2.hits == 0 && r.l2.misses == 0 && r.l2.accesses == 0
            &&& r.llc.hits == 0 && r.llc.misses == 0 && r.llc.accesses == 0
            &&& r.l1i.sets == h.l1i.sets && r.l1d.sets == h.l1d.sets
            &&& r.l2.sets == h.l2.sets && r.llc.sets == h.llc.sets
            &&& r.l1i.policy == h.l1i.policy && r.l1d.policy == h.l1d.policy
            &&& r.l2.policy == h.l2.policy && r.llc.policy == h.llc.policy
            &&& r.l2.prefetcher == h.l2.prefetcher && r.llc.prefetcher == h.llc.prefetcher
        }),
{
}

/// No set holds the same block in two lines.
pub open spec fn blocks_unique(c: CacheView) -> bool {
    forall|s: int, w1: int, w2: int|
        0 <= s < c.num_sets && 0 <= w1 < c.associativity && 0 <= w2 < c.associativity && w1 != w2
            && (#[trigger] c.sets[s][w1]).valid && (#[trigger] c.sets[s][w2]).valid ==> c.sets[s][w1].tag
            != c.sets[s][w2].tag
}

/// A fresh cache holds no block twice.
pub proof fn lemma_initial_unique(
    block_size: nat,
    associativity: nat,
    num_sets: nat,
    policy: PolicyView,
    prefetcher: Option<StreamBufferView>,
)
    ensures
        blocks_unique(CacheView::initial(block_size, associativity, num_sets, policy, prefetcher)),
{
}

/// The line-array step never makes a set hold a block twice.
pub proof fn lemma_core_keeps_unique(c: CacheView, acc: MemAccess, kind: AccessKind)
    requires
        c.wf(),
        blocks_unique(c),
        c.access_core(acc, kind) is Some,
    ensures
        blocks_unique((c.access_core(acc, kind)->0).0),
{
    let s = c.set_of(acc.addr);
    let t = c.tag_for(acc.addr);
    let lines = c.sets[s];
    lemma_core_step(c, acc, kind);
    let c2 = (c.access_core(acc, kind)->0).0;
    match first_where(lines, holds_tag(t)) {
        Some(w) => {
            assert(is_first_where(lines, holds_tag(t), w));
            assert forall|s2: int, w1: int, w2: int|
                0 <= s2 < c2.num_sets && 0 <= w1 < c2.associativity && 0 <= w2 < c2.associativity
                    && w1 != w2 && (#[trigger] c2.sets[s2][w1]).valid && (#[trigger] c2.sets[s2][w2]).valid
                    implies c2.sets[s2][w1].tag != c2.sets[s2][w2].tag by {
                assert(c.sets[s2][w1].valid && c.sets[s2][w2].valid);
                assert(c.sets[s2][w1].tag == c2.sets[s2][w1].tag);
                assert(c.sets[s2][w2].tag == c2.sets[s2][w2].tag);
            }
        },
        None => {
            let choice = match first_where(lines, is_free()) {
                Some(v) => Some((v, c.policy)),
                None => c.policy.victim(s),
            };
            let v = (choice->0).0;
            match first_where(lines, is_free()) {
                Some(v0) => {
                    assert(is_first_where(lines, is_free(), v0));
                },
                None => {
                    lemma_policy_victim(c.policy, s);
                },
            }
            assert forall|s2: int, w1: int, w2: int|
                0 <= s2 < c2.num_sets && 0 <= w1 < c2.associativity && 0 <= w2 < c2.associativity
                    && w1 != w2 && (#[trigger] c2.sets[s2][w1]).valid && (#[trigger] c2.sets[s2][w2]).valid
                    implies c2.sets[s2][w1].tag != c2.sets[s2][w2].tag by {
                if s2 == s && w1 == v {
                    if lines[w2].valid && lines[w2].tag == t {
                        lemma_first_where_some(lines, holds_tag(t), w2);
                    }
                    assert(c2.sets[s2][w2] == lines[w2]);
                } else if s2 == s && w2 == v {
                    if lines[w1].valid && lines[w1].tag == t {
                        lemma_first_where_some(lines, holds_tag(t), w1);
                    }
                    assert(c2.sets[s2][w1] == lines[w1]);
                } else {
                    assert(c2.sets[s2][w1] == c.sets[s2][w1]);
                    assert(c2.sets[s2][w2] == c.sets[s2][w2]);
                }
            }
        },
    }
}

/// Prefetching a sequence of addresses never makes a set hold a block twice.
pub proof fn lemma_install_all_keeps_unique(c: CacheView, addrs: Seq<u64>)
    requires
        c.wf(),
        blocks_unique(c),
        c.install_all(addrs) is Some,
    ensures
        blocks_unique(c.install_all(addrs)->0),
    decreases addrs.len(),
{
    if addrs.len() > 0 {
        let m = c.install_prefetch(addrs[0])->0;
        if c.way_of(addrs[0]) is None {
            let pf = MemAccess { addr: addrs[0], pc: 0, is_write: false, hit: None };
            lemma_core_step(c, pf, AccessKind::Prefetch);
            lemma_core_keeps_unique(c, pf, AccessKind::Prefetch);
        }
        lemma_install_all_keeps_unique(m, addrs.drop_first());
    }
}

/// No access makes a set hold a block twice: every block a cache holds, it
/// holds in one line.
pub proof fn lemma_serve_keeps_unique(c: CacheView, acc: MemAccess, kind: AccessKind)
    requires
        c.wf(),
        blocks_unique(c),
        c.serve(acc, kind) is Some,
    ensures
        blocks_unique((c.serve(acc, kind)->0).0),
{
    lemma_core_step(c, acc, kind);
    lemma_core_keeps_unique(c, acc, kind);
    let (c1, acc1, result, wb) = c.access_core(acc, kind)->0;
    if kind == AccessKind::Demand && c1.prefetcher is Some {
        let (pf, cands) = c1.prefetcher->0.observe(acc1.addr, acc1.pc)->0;
        lemma_observe_keeps_inv(c1.prefetcher->0, acc1.addr, acc1.pc);
        let c2 = CacheView { prefetcher: Some(pf), ..c1 };
        assert(blocks_unique(c2));
        lemma_install_all_keeps_unique(c2, cands);
    }
}

/// A block whose eviction is reported is no longer held afterwards.
pub proof fn lemma_written_back_block_leaves(c: CacheView, acc: MemAccess, kind: AccessKind)
    requires
        c.wf(),
        blocks_unique(c),
        c.access_core(acc, kind) is Some,
        (c.access_core(acc, kind)->0).3 is Some,
    ensures
        !(c.access_core(acc, kind)->0).0.holds((c.access_core(acc, kind)->0).3->0),
{
    let s = c.set_of(acc.addr);
    let t = c.tag_for(acc.addr);
    let lines = c.sets[s];
    lemma_core_step(c, acc, kind);
    lemma_writeback_names_evicted_block(c, acc, kind);
    let (c2, acc2, result, wb) = c.access_core(acc, kind)->0;
    let a = wb->0;
    let choice = match first_where(lines, is_free()) {
        Some(v) => Some((v, c.policy)),
        None => c.policy.victim(s),
    };
    let v = (choice->0).0;
    match first_where(lines, is_free()) {
        Some(v0) => {
            assert(is_first_where(lines, is_free(), v0));
        },
        None => {
            lemma_policy_victim(c.policy, s);
        },
    }
    let ev = lines[v];
    if ev.valid && ev.tag == t {
        lemma_first_where_some(lines, holds_tag(t), v);
    }
    // the reported line is the one at `v`: it is the only valid line holding its tag
    let w = choose|w: int|
        0 <= w < c.associativity && (#[trigger] c.sets[s][w]).valid && c.sets[s][w].dirty
            && c.tag_for(a) == c.sets[s][w].tag && c.set_of(a) == s && a == c.line_address(
            s,
            c.sets[s][w].tag,
        );
    assert(ev.valid && ev.dirty);
    assert(a == c.line_address(s, ev.tag));
    if w != v {
        assert(c.sets[s][w].tag != c.sets[s][v].tag);
        lemma_pow2_of_log2(c.num_sets);
        lemma_block_address_fits(ev.tag as nat, s as nat, c.offset_bits(), c.index_bits());
        lemma_block_address_splits(ev.tag as nat, s as nat, c.offset_bits(), c.index_bits());
        lemma_block_address_fits(c.sets[s][w].tag as nat, s as nat, c.offset_bits(), c.index_bits());
        lemma_block_address_splits(c.sets[s][w].tag as nat, s as nat, c.offset_bits(), c.index_bits());
        assert(false);
    }
    assert(c2.set_of(a) == s);
    assert(c2.tag_for(a) == ev.tag);
    if c2.holds(a) {
        let u = choose|u: int|
            0 <= u < c2.sets[c2.set_of(a)].len() && #[trigger] c2.sets[c2.set_of(a)][u].valid
                && c2.sets[c2.set_of(a)][u].tag == c2.tag_for(a);
        if u == v {
            assert(c2.sets[s][v].tag == t);
            assert(ev.tag != t);
        } else {
            assert(c2.sets[s][u] == lines[u]);
            assert(lines[u].valid && lines[u].tag == ev.tag);
        }
    }
}

impl View for Cache {
    type V = CacheView;

    closed spec fn view(&self) -> CacheView {
        CacheView {
            block_size: self.block_size as nat,
            associativity: self.associativity as nat,
            num_sets: self.num_sets as nat,
            sets: self.sets@.map_values(|cs: CacheSet| cs.lines@),
            accesses: self.accesses as nat,
            hits: self.hits as nat,
            misses: self.misses as nat,
            writebacks: self.writebacks as nat,
            writebacks_received: self.writebacks_received as nat,
            prefetch_hits: self.prefetch_hits as nat,
            prefetch_unused: self.prefetch_unused as nat,
            policy: self.policy@,
            prefetcher: match self.prefetcher {
                Some(p) => Some(p@),
                None => None,
            },
        }
    }
}

impl Cache {
    /// The cache is well formed.
    pub open spec fn wf(&self) -> bool {
        self@.wf()
    }

    /// The first way of `set_index` that holds `tag`.
    fn find_way(&self, set_index: usize, tag: u64) -> (r: Option<usize>)
        requires
            self.wf(),
            set_index < self@.num_sets,
        ensures
            match r {
                Some(w) => first_where(self@.sets[set_index as int], holds_tag(tag)) == Some(w as int),
                None => first_where(self@.sets[set_index as int], holds_tag(tag)) is None,
            },
    {
        let ghost lines = self@.sets[set_index as int];
        proof {
            assert(lines == self.sets@[set_index as int].lines@);
        }
        let v = &self.sets[set_index].lines;
        let n = v.len();
        let mut i: usize = 0;
        while i < n && !(v[i].valid && v[i].tag == tag)
            invariant
                i <= n,
                n == lines.len(),
                v@ == lines,
                forall|j: int| 0 <= j < i ==> !(#[trigger] holds_tag(tag)(lines[j])),
            decreases n - i,
        {
            i = i + 1;
        }
        if i < n {
            proof {
                assert(is_first_where(lines, holds_tag(tag), i as int));
                lemma_first_where_found(lines, holds_tag(tag), i as int);
            }
            Some(i)
        } else {
            proof {
                lemma_first_where_none(lines, holds_tag(tag));
            }
            None
        }
    }

    /// The first way of `set_index` that holds nothing.
    fn find_free(&self, set_index: usize) -> (r: Option<usize>)
        requires
            self.wf(),
            set_index < self@.num_sets,
        ensures
            match r {
                Some(w) => first_where(self@.sets[set_index as int], is_free()) == Some(w as int),
                None => first_where(self@.sets[set_index as int], is_free()) is None,
            },
    {
        let ghost lines = self@.sets[set_index as int];
        proof {
            assert(lines == self.sets@[set_index as int].lines@);
        }
        let v = &self.sets[set_index].lines;
        let n = v.len();
        let mut i: usize = 0;
        while i < n && v[i].valid
            invariant
                i <= n,
                n == lines.len(),
                v@ == lines,
                forall|j: int| 0 <= j < i ==> !(#[trigger] is_free()(lines[j])),
            decreases n - i,
        {
            i = i + 1;
        }
        if i < n {
            proof {
                assert(is_first_where(lines, is_free(), i as int));
                lemma_first_where_found(lines, is_free(), i as int);
            }
            Some(i)
        } else {
            proof {
                lemma_first_where_none(lines, is_free());
            }
            None
        }
    }

    /// Splits `addr` for this cache: offset bits, index bits, set and tag.
    fn locate(&self, addr: u64) -> (r: (usize, usize, usize, u64))
        requires
            self.wf(),
        ensures
            r.0 == self@.offset_bits(),
            r.1 == self@.index_bits(),
            r.2 == self@.set_of(addr),
            r.2 < self@.num_sets,
            r.3 == self@.tag_for(addr),
    {
        proof {
            lemma_pow2_of_log2(self@.num_sets);
        }
        let offset_bits = floor_log2(self.block_size);
        let index_bits = floor_log2(self.num_sets);
        let (set_index, tag) = split_address(addr, offset_bits, index_bits, self.num_sets);
        (offset_bits, index_bits, set_index, tag)
    }

    /// The line-array step of an access (see [`CacheView::access_core`]).
    fn access_core(&mut self, access: &mut MemAccess, kind: AccessKind) -> (r: (AccessResult, Option<u64>))
        requires
            old(self).wf(),
            old(self)@.access_core(*old(access), kind) is Some,
        ensures
            final(self).wf(),
            old(self)@.access_core(*old(access), kind) == Some(
                (final(self)@, *final(access), r.0, r.1),
            ),
    {
        let ghost c0 = self@;
        let ghost a0 = *access;
        proof {
            lemma_core_step(c0, a0, kind);
        }
        let (offset_bits, index_bits, set_index, tag) = self.locate(access.addr);
        let ghost lines = c0.sets[set_index as int];
        let demand = kind == AccessKind::Demand;
        let hit_way = self.find_way(set_index, tag);
        let free_way = self.find_free(set_index);
        if demand {
            self.accesses = self.accesses + 1;
        }
        match hit_way {
            Some(way) => {
                if demand {
                    self.hits = self.hits + 1;
                } else {
                    self.writebacks_received = self.writebacks_received + 1;
                }
                proof {
                    assert(self@.sets[set_index as int] == self.sets@[set_index as int].lines@);
                }
                let mut line = self.sets[set_index].lines[way];
                if access.is_write {
                    line.dirty = true;
                }
                if line.prefetched {
                    self.prefetch_hits = self.prefetch_hits + 1;
                    line.prefetched = false;
                }
                let ghost before = self.sets@;
                self.sets[set_index].lines[way] = line;
                access.hit = Some(true);
                proof {
                    assert forall|k: int| 0 <= k < c0.num_sets implies #[trigger] self@.sets[k] == c0.sets.update(
                        set_index as int,
                        lines.update(way as int, line),
                    )[k] by {
                        if k != set_index {
                            assert(self@.sets[k] == self.sets@[k].lines@);
                            assert(before[k] == self.sets@[k]);
                        }
                    }
                    assert(self@.sets =~= c0.sets.update(set_index as int, lines.update(way as int, line)));
                }
                self.policy.update(set_index, way, access);
                (AccessResult::Hit, None)
            },
            None => {
                if demand {
                    self.misses = self.misses + 1;
                }
                access.hit = Some(false);
                let victim = match free_way {
                    Some(v) => v,
                    None => self.policy.find_victim(set_index),
                };
                proof {
                    assert(self@.sets[set_index as int] == self.sets@[set_index as int].lines@);
                }
                let evicted = self.sets[set_index].lines[victim];
                let fresh = CacheLine {
                    valid: true,
                    dirty: access.is_write,
                    prefetched: kind == AccessKind::Prefetch,
                    tag,
                };
                let ghost before = self.sets@;
                self.sets[set_index].lines[victim] = fresh;
                proof {
                    assert forall|k: int| 0 <= k < c0.num_sets implies #[trigger] self@.sets[k] == c0.sets.update(
                        set_index as int,
                        lines.update(victim as int, fresh),
                    )[k] by {
                        if k != set_index {
                            assert(self@.sets[k] == self.sets@[k].lines@);
                            assert(before[k] == self.sets@[k]);
                        }
                    }
                    assert(self@.sets =~= c0.sets.update(set_index as int, lines.update(victim as int, fresh)));
                }
                if evicted.prefetched {
                    self.prefetch_unused = self.prefetch_unused + 1;
                }
                self.policy.install(set_index, victim, access);
                let writeback_addr = if evicted.valid && evicted.dirty {
                    self.writebacks = self.writebacks + 1;
                    proof {
                        lemma_pow2_of_log2(c0.num_sets);
                        assert(tag_fits(evicted.tag as nat, (offset_bits + index_bits) as nat));
                    }
                    Some(join_address(evicted.tag, set_index, offset_bits, index_bits))
                } else {
                    None
                };
                (AccessResult::Miss, writeback_addr)
            },
        }
    }

    /// The line-array step of an access where it is defined; `None` exactly
    /// where [`CacheView::access_core`] is not. The cache stays well formed
    /// either way.
    fn try_access_core(&mut self, access: &mut MemAccess, kind: AccessKind) -> (r: Option<(AccessResult, Option<u64>)>)
        requires
            old(self).wf(),
        ensures
            final(self).wf(),
            r is None <==> old(self)@.access_core(*old(access), kind) is None,
            r matches Some(x) ==> old(self)@.access_core(*old(access), kind) == Some(
                (final(self)@, *final(access), x.0, x.1),
            ),
    {
        let ghost c0 = self@;
        let (_, _, set_index, tag) = self.locate(access.addr);
        let ghost lines = c0.sets[set_index as int];
        proof {
            assert(lines == self.sets@[set_index as int].lines@);
        }
        let demand = kind == AccessKind::Demand;
        if demand && self.accesses == usize::MAX {
            return None;
        }
        match self.find_way(set_index, tag) {
            Some(way) => {
                proof {
                    assert(is_first_where(lines, holds_tag(tag), way as int));
                }
                let line = self.sets[set_index].lines[way];
                if (demand && self.hits == usize::MAX) || (!demand && self.writebacks_received
                    == usize::MAX) || (line.prefetched && self.prefetch_hits == usize::MAX)
                    || !self.policy.touch_ok() {
                    return None;
                }
                Some(self.access_core(access, kind))
            },
            None => {
                if demand && self.misses == usize::MAX {
                    return None;
                }
                if !self.policy.touch_ok() {
                    proof {
                        if first_where(lines, is_free()) is None && c0.policy.victim(set_index as int) is Some {
                            lemma_victim_repeat(c0.policy, set_index as int);
                        }
                    }
                    return None;
                }
                match self.find_free(set_index) {
                    Some(v) => {
                        proof {
                            assert(is_first_where(lines, is_free(), v as int));
                        }
                        let e = self.sets[set_index].lines[v];
                        if (e.prefetched && self.prefetch_unused == usize::MAX) || (e.valid && e.dirty
                            && self.writebacks == usize::MAX) {
                            return None;
                        }
                        Some(self.access_core(access, kind))
                    },
                    None => {
                        if !self.policy.victim_ok(set_index) {
                            return None;
                        }
                        proof {
                            lemma_victim_repeat(c0.policy, set_index as int);
                            lemma_policy_victim(c0.policy, set_index as int);
                        }
                        let v = self.policy.find_victim(set_index);
                        proof {
                            assert(self@.sets == c0.sets);
                        }
                        let e = self.sets[set_index].lines[v];
                        if (e.prefetched && self.prefetch_unused == usize::MAX) || (e.valid && e.dirty
                            && self.writebacks == usize::MAX) {
                            return None;
                        }
                        proof {
                            assert(self@ == CacheView { policy: (c0.policy.victim(set_index as int)->0).1, ..c0 });
                        }
                        Some(self.access_core(access, kind))
                    },
                }
            },
        }
    }

    /// Brings the block of `addr` in as a prefetch, unless it is already held.
    pub fn install_prefetch(&mut self, addr: u64)
        requires
            old(self).wf(),
            old(self)@.install_prefetch(addr) is Some,
        ensures
            final(self).wf(),
            Some(final(self)@) == old(self)@.install_prefetch(addr),
    {
        let (_, _, set_index, tag) = self.locate(addr);
        let already_present = self.find_way(set_index, tag);
        if already_present.is_some() {
            return;
        }
        let mut pf_access = MemAccess { addr, pc: 0, is_write: false, hit: None };
        self.access_core(&mut pf_access, AccessKind::Prefetch);
    }

    /// Lets the prefetcher, if any, observe `access`, then brings its
    /// predictions in; returns the predictions.
    fn determine_prefetch_addrs(&mut self, access: &MemAccess) -> (r: Option<Vec<u64>>)
        requires
            old(self).wf(),
            old(self)@.prefetcher matches Some(p) ==> (p.observe(access.addr, access.pc) matches Some(
                (pf, cands),
            ) && (CacheView { prefetcher: Some(pf), ..old(self)@ }).install_all(cands) is Some),
        ensures
            final(self).wf(),
            match old(self)@.prefetcher {
                None => r is None && final(self)@ == old(self)@,
                Some(p) => {
                    let (pf, cands) = p.observe(access.addr, access.pc)->0;
                    &&& r matches Some(v) && v@ == cands
                    &&& Some(final(self)@) == (CacheView { prefetcher: Some(pf), ..old(self)@ }).install_all(cands)
                },
            },
    {
        let ghost c0 = self@;
        let candidates = match &mut self.prefetcher {
            Some(pf) => {
                proof {
                    lemma_observe_keeps_inv(pf@, access.addr, access.pc);
                }
                pf.observe(access.addr, access.pc, access.hit == Some(true))
            },
            None => {
                return None;
            },
        };
        let ghost pf_after = (c0.prefetcher->0.observe(access.addr, access.pc)->0).0;
        let ghost start = CacheView { prefetcher: Some(pf_after), ..c0 };
        proof {
            assert(self@.sets =~= start.sets);
            assert(self@ == start);
            lemma_install_all(start, candidates@);
            assert(candidates@.subrange(0, candidates@.len() as int) =~= candidates@);
        }
        let n = candidates.len();
        let mut i: usize = 0;
        while i < n
            invariant
                i <= n,
                n == candidates@.len(),
                self.wf(),
                self@.install_all(candidates@.subrange(i as int, n as int)) == start.install_all(
                    candidates@,
                ),
                start.install_all(candidates@) is Some,
            decreases n - i,
        {
            let ghost rest = candidates@.subrange(i as int, n as int);
            proof {
                assert(rest[0] == candidates@[i as int]);
                assert(rest.drop_first() =~= candidates@.subrange(i as int + 1, n as int));
            }
            self.install_prefetch(candidates[i]);
            i = i + 1;
        }
        proof {
            assert(candidates@.subrange(0, n as int) =~= candidates@);
            assert(candidates@.subrange(n as int, n as int) =~= Seq::<u64>::empty());
        }
        Some(candidates)
    }

    /// Simulates an access of `kind` (see [`CacheView::serve`]).
    fn do_access(&mut self, access: &mut MemAccess, kind: AccessKind) -> (r: AccessOutcome)
        requires
            old(self).wf(),
            old(self)@.serve(*old(access), kind) is Some,
        ensures
            final(self).wf(),
            old(self)@.serve(*old(access), kind) == Some((final(self)@, *final(access), r@)),
    {
        let ghost c0 = self@;
        let (result, writeback_addr) = self.access_core(access, kind);
        //prefetch on demand access only
        let prefetch_addrs = if kind == AccessKind::Demand {
            self.determine_prefetch_addrs(access)
        } else {
            None
        };
        AccessOutcome { result, writeback_addr, prefetch_addrs }
    }

    /// Brings the block of `addr` in as a prefetch where that is defined;
    /// `false` exactly where [`CacheView::install_prefetch`] is not.
    pub fn try_install_prefetch(&mut self, addr: u64) -> (r: bool)
        requires
            old(self).wf(),
        ensures
            final(self).wf(),
            r <==> old(self)@.install_prefetch(addr) is Some,
            r ==> Some(final(self)@) == old(self)@.install_prefetch(addr),
    {
        let (_, _, set_index, tag) = self.locate(addr);
        if self.find_way(set_index, tag).is_some() {
            return true;
        }
        let mut pf_access = MemAccess { addr, pc: 0, is_write: false, hit: None };
        self.try_access_core(&mut pf_access, AccessKind::Prefetch).is_some()
    }

    /// An access of `kind` where it is defined; `None` exactly where
    /// [`CacheView::serve`] is not. The cache stays well formed either way.
    fn try_do_access(&mut self, access: &mut MemAccess, kind: AccessKind) -> (r: Option<AccessOutcome>)
        requires
            old(self).wf(),
        ensures
            final(self).wf(),
            r is None <==> old(self)@.serve(*old(access), kind) is None,
            r matches Some(o) ==> old(self)@.serve(*old(access), kind) == Some(
                (final(self)@, *final(access), o@),
            ),
    {
        let ghost c0 = self@;
        let (result, writeback_addr) = match self.try_access_core(access, kind) {
            Some(x) => x,
            None => {
                return None;
            },
        };
        if kind != AccessKind::Demand {
            return Some(AccessOutcome { result, writeback_addr, prefetch_addrs: None });
        }
        let ghost c1 = self@;
        proof {
            lemma_core_step(c0, *old(access), kind);
        }
        let ok = match &self.prefetcher {
            Some(pf) => pf.observe_ok(access.addr, access.pc),
            None => {
                return Some(AccessOutcome { result, writeback_addr, prefetch_addrs: None });
            },
        };
        if !ok {
            return None;
        }
        let candidates = match &mut self.prefetcher {
            Some(pf) => {
                proof {
                    lemma_observe_keeps_inv(pf@, access.addr, access.pc);
                }
                pf.observe(access.addr, access.pc, access.hit == Some(true))
            },
            None => {
                return None;
            },
        };
        let ghost pf_after = (c1.prefetcher->0.observe(access.addr, access.pc)->0).0;
        let ghost start = CacheView { prefetcher: Some(pf_after), ..c1 };
        proof {
            assert(self@.sets =~= start.sets);
            assert(self@ == start);
            assert(candidates@.subrange(0, candidates@.len() as int) =~= candidates@);
        }
        let ghost a0 = *old(access);
        proof {
            assert(start.install_all(candidates@) is None ==> c0.serve(a0, kind) is None);
        }
        let n = candidates.len();
        let mut i: usize = 0;
        while i < n
            invariant
                i <= n,
                n == candidates@.len(),
                self.wf(),
                self@.install_all(candidates@.subrange(i as int, n as int)) == start.install_all(
                    candidates@,
                ),
                start.install_all(candidates@) is None ==> c0.serve(a0, kind) is None,
                c0 == old(self)@,
                a0 == *old(access),
            decreases n - i,
        {
            let ghost rest = candidates@.subrange(i as int, n as int);
            proof {
                assert(rest[0] == candidates@[i as int]);
                assert(rest.drop_first() =~= candidates@.subrange(i as int + 1, n as int));
            }
            let ghost before = self@;
            if !self.try_install_prefetch(candidates[i]) {
                proof {
                    assert(before.install_all(rest) is None);
                }
                return None;
            }
            i = i + 1;
        }
        proof {
            assert(candidates@.subrange(n as int, n as int) =~= Seq::<u64>::empty());
        }
        Some(AccessOutcome { result, writeback_addr, prefetch_addrs: Some(candidates) })
    }

    /// A demand access where it is defined (see [`CacheView::access`]);
    /// `None` exactly where it is not: where a counter or the policy's clock
    /// would overflow, the victim search would not end, or a prediction
    /// would not fit 64 bits. The cache stays well formed either way.
    pub fn try_access(&mut self, access: &mut MemAccess) -> (r: Option<AccessOutcome>)
        requires
            old(self).wf(),
        ensures
            final(self).wf(),
            r is None <==> old(self)@.access(*old(access)) is None,
            r matches Some(o) ==> old(self)@.access(*old(access)) == Some(
                (final(self)@, *final(access), o@),
            ),
    {
        self.try_do_access(access, AccessKind::Demand)
    }

    /// A writeback of the block at `addr` where it is defined (see
    /// [`CacheView::writeback`]); `None` exactly where it is not.
    pub fn try_writeback(&mut self, addr: u64) -> (r: Option<AccessOutcome>)
        requires
            old(self).wf(),
        ensures
            final(self).wf(),
            r is None <==> old(self)@.writeback(addr) is None,
            r matches Some(o) ==> old(self)@.writeback(addr) == Some((final(self)@, o@)),
    {
        let mut wb = MemAccess { addr, pc: 0, is_write: true, hit: None };
        self.try_do_access(&mut wb, AccessKind::Writeback)
    }

    /// Simulates a demand access (see [`CacheView::access`]). `access.hit`
    /// records whether it hit.
    pub fn access(&mut self, access: &mut MemAccess) -> (r: AccessOutcome)
        requires
            old(self).wf(),
            old(self)@.access(*old(access)) is Some,
        ensures
            final(self).wf(),
            old(self)@.access(*old(access)) == Some((final(self)@, *final(access), r@)),
    {
        self.do_access(access, AccessKind::Demand)
    }

    /// Writes the block at `addr` back into this cache (see
    /// [`CacheView::writeback`]).
    pub fn writeback(&mut self, addr: u64) -> (r: AccessOutcome)
        requires
            old(self).wf(),
            old(self)@.writeback(addr) is Some,
        ensures
            final(self).wf(),
            old(self)@.writeback(addr) == Some((final(self)@, r@)),
    {
        let mut wb = MemAccess { addr, pc: 0, is_write: true, hit: None };
        self.do_access(&mut wb, AccessKind::Writeback)
    }

    /// Getter for hits.
    pub fn get_hits(&self) -> (r: usize)
        ensures
            r == self@.hits,
    {
        self.hits
    }

    /// Getter for misses.
    pub fn get_misses(&self) -> (r: usize)
        ensures
            r == self@.misses,
    {
        self.misses
    }

    /// Getter for demand accesses.
    pub fn get_accesses(&self) -> (r: usize)
        ensures
            r == self@.accesses,
    {
        self.accesses
    }

    /// Getter for demand hits on lines that a prefetch brought in.
    pub fn get_prefetch_hits(&self) -> (r: usize)
        ensures
            r == self@.prefetch_hits,
    {
        self.prefetch_hits
    }

    /// Getter for prefetched lines evicted before any demand use.
    pub fn get_prefetch_unused(&self) -> (r: usize)
        ensures
            r == self@.prefetch_unused,
    {
        self.prefetch_unused
    }

    /// The line in `way` of `set`.
    pub fn line(&self, set: usize, way: usize) -> (r: CacheLine)
        requires
            self.wf(),
            set < self@.num_sets,
            way < self@.associativity,
        ensures
            r == self@.sets[set as int][way as int],
    {
        proof {
            assert(self@.sets[set as int] == self.sets@[set as int].lines@);
        }
        self.sets[set].lines[way]
    }

    /// Returns a snapshot of this cache's hit/miss counters.
    pub fn stats(&self) -> (r: CacheStats)
        ensures
            r.hits == self@.hits,
            r.misses == self@.misses,
    {
        CacheStats { hits: self.hits as u64, misses: self.misses as u64 }
    }

    /// Zeroes access/hit/miss counters without touching cache/policy state.
    pub fn reset_stats(&mut self)
        requires
            old(self).wf(),
        ensures
            final(self).wf(),
            final(self)@ == old(self)@.reset(),
    {
        self.accesses = 0;
        self.hits = 0;
        self.misses = 0;
        proof {
            assert(self@.sets =~= old(self)@.sets);
        }
    }

    /// Instantiates and returns a cache object.
    ///
    /// # Errors
    /// Returns [`AsterError::Config`] if `cache_size / (block_size *
    /// associativity)` is not a power of two (includes the case where it is
    /// zero because `block_size * associativity > cache_size`), and whatever
    /// building the policy or the prefetcher reports.
    pub fn new(config: &CacheConfig) -> (r: Result<Self, AsterError>)
        requires
            config.block_size * config.associativity > 0,
            config.block_size * config.associativity <= usize::MAX,
        ensures
            match cache_for(*config) {
                Ok(v) => r matches Ok(c) && c@ == v && c.wf(),
                Err((kind, text)) => r matches Err(e) && error_is(e, kind, text),
            },
    {
        let block_size = config.block_size;
        let associativity = config.associativity;
        let cache_size = config.cache_size;

        let num_sets = cache_size / (block_size * associativity);
        if !power_of_two(num_sets) {
            return Err(AsterError::Config(String::from_str("num_sets must be a power of two")));
        }
        let ghost lines0 = Seq::new(associativity as nat, |w: int| empty_line());
        let mut sets: Vec<CacheSet> = Vec::new();
        let mut s: usize = 0;
        while s < num_sets
            invariant
                s <= num_sets,
                sets.len() == s,
                lines0 == Seq::new(associativity as nat, |w: int| empty_line()),
                forall|i: int| 0 <= i < s ==> #[trigger] sets[i].lines@ == lines0,
            decreases num_sets - s,
        {
            let mut lines: Vec<CacheLine> = Vec::new();
            let mut w: usize = 0;
            while w < associativity
                invariant
                    w <= associativity,
                    lines.len() == w,
                    forall|j: int| 0 <= j < w ==> #[trigger] lines[j] == empty_line(),
                decreases associativity - w,
            {
                lines.push(CacheLine { valid: false, dirty: false, prefetched: false, tag: 0 });
                w = w + 1;
            }
            proof {
                assert(lines@ =~= lines0);
            }
            sets.push(CacheSet { lines });
            s = s + 1;
        }

        let policy = make_policy(config)?;

        let prefetcher = prefetcher_init(config)?;

        let c = Cache {
            block_size,
            associativity,
            num_sets,
            accesses: 0,
            hits: 0,
            misses: 0,
            sets,
            policy,
            prefetcher,
            writebacks: 0,
            writebacks_received: 0,
            prefetch_hits: 0,
            prefetch_unused: 0,
        };
        proof {
            let v = cache_for(*config)->Ok_0;
            assert(block_size >= 1 && associativity >= 1) by (nonlinear_arith)
                requires
                    block_size * associativity > 0,
            ;
            assert(c@.sets =~= v.sets);
            lemma_geometry_fits(cache_size as nat, block_size as nat, associativity as nat);
            lemma_pow2_of_log2(num_sets as nat);
            assert forall|s2: int, w2: int|
                0 <= s2 < c@.num_sets && 0 <= w2 < c@.associativity implies tag_fits(
                (#[trigger] c@.sets[s2][w2]).tag as nat,
                c@.offset_bits() + c@.index_bits(),
            ) by {
                assert(c@.sets[s2][w2] == empty_line());
            }
            if associativity > 0 && num_sets > 0 {
                assert(c@.policy.num_ways() == associativity);
            }
        }
        Ok(c)
    }
}

/// The message for a geometry whose set count is not a power of two.
pub open spec fn num_sets_message() -> Seq<char> {
    "num_sets must be a power of two"@
}

/// The cache that `config` describes, or the category and text of the error
/// its construction reports.
pub open spec fn cache_for(config: CacheConfig) -> Result<CacheView, (ErrorKind, Seq<char>)> {
    let num_sets = sets_for(
        config.cache_size as nat,
        config.block_size as nat,
        config.associativity as nat,
    );
    if !is_pow2(num_sets) {
        Err((ErrorKind::Config, num_sets_message()))
    } else {
        match policy_for(config) {
            Err(x) => Err(x),
            Ok(p) => match prefetcher_for(config) {
                Err(x) => Err(x),
                Ok(pf) => Ok(
                    CacheView::initial(
                        config.block_size as nat,
                        config.associativity as nat,
                        num_sets,
                        p,
                        pf,
                    ),
                ),
            },
        }
    }
}

/// L1D -> L2 -> LLC lookup chain driven by a single memory access stream;
/// each level is only queried on a miss in the level above it. The
/// instruction cache (`l1i`) is driven by instruction fetches.
pub struct CacheHierarchy {
    pub l1i: Cache,
    pub l1d: Cache,
    pub l2: Cache,
    pub llc: Cache,
}

/// The state of a [`CacheHierarchy`].
pub struct HierarchyView {
    pub l1i: CacheView,
    pub l1d: CacheView,
    pub l2: CacheView,
    pub llc: CacheView,
}

impl View for CacheHierarchy {
    type V = HierarchyView;

    open spec fn view(&self) -> HierarchyView {
        HierarchyView { l1i: self.l1i@, l1d: self.l1d@, l2: self.l2@, llc: self.llc@ }
    }
}

/// The outcome of writing `addr` back into `c`, with the address the
/// writeback evicts in turn, if any.
pub open spec fn writeback_step(c: CacheView, addr: u64) -> Option<(CacheView, Option<u64>)> {
    match c.writeback(addr) {
        Some((c2, o)) => Some((c2, o.writeback_addr)),
        None => None,
    }
}

/// Writes `further` (when there is one) back into `c`.
pub open spec fn writeback_if(c: CacheView, further: Option<u64>) -> Option<CacheView> {
    match further {
        None => Some(c),
        Some(a) => match c.writeback(a) {
            Some((c2, _)) => Some(c2),
            None => None,
        },
    }
}

impl HierarchyView {
    /// Every level is well formed.
    pub open spec fn wf(self) -> bool {
        self.l1i.wf() && self.l1d.wf() && self.l2.wf() && self.llc.wf()
    }

    /// An instruction fetch at `ip`: L1I, then L2 on an L1I miss, then the
    /// LLC on an L2 miss.
    pub open spec fn fetch(self, ip: u64) -> Option<HierarchyView> {
        let acc = MemAccess { addr: ip, pc: ip, is_write: false, hit: None };
        match self.l1i.access(acc) {
            None => None,
            Some((l1i, a1, o1)) => if o1.result == AccessResult::Hit {
                Some(HierarchyView { l1i, ..self })
            } else {
                match self.l2.access(a1) {
                    None => None,
                    Some((l2, a2, o2)) => if o2.result == AccessResult::Hit {
                        Some(HierarchyView { l1i, l2, ..self })
                    } else {
                        match self.llc.access(a2) {
                            None => None,
                            Some((llc, _, _)) => Some(HierarchyView { l1i, l2, llc, ..self }),
                        }
                    },
                }
            },
        }
    }

    /// A data access: L1D; a dirty line L1D evicts is written back into L2,
    /// and one L2 evicts for it into the LLC; on an L1D miss the access goes
    /// on to L2 (whose dirty eviction is written back into the LLC), and on
    /// an L2 miss to the LLC. Also returns the access as the last level that
    /// served it left it.
    pub open spec fn data(self, acc: MemAccess) -> Option<(HierarchyView, MemAccess)> {
        match self.l1d.access(acc) {
            None => None,
            Some((l1d, a1, o1)) => {
                let after_wb = match o1.writeback_addr {
                    None => Some((self.l2, self.llc)),
                    Some(addr) => match writeback_step(self.l2, addr) {
                        None => None,
                        Some((l2, further)) => match writeback_if(self.llc, further) {
                            None => None,
                            Some(llc) => Some((l2, llc)),
                        },
                    },
                };
                match after_wb {
                    None => None,
                    Some((l2, llc)) => if o1.result == AccessResult::Hit {
                        Some((HierarchyView { l1d, l2, llc, ..self }, a1))
                    } else {
                        match l2.access(a1) {
                            None => None,
                            Some((l2b, a2, o2)) => match writeback_if(llc, o2.writeback_addr) {
                                None => None,
                                Some(llcb) => if o2.result == AccessResult::Hit {
                                    Some((HierarchyView { l1d, l2: l2b, llc: llcb, ..self }, a2))
                                } else {
                                    match llcb.access(a2) {
                                        None => None,
                                        Some((llcc, a3, _)) => Some(
                                            (HierarchyView { l1d, l2: l2b, llc: llcc, ..self }, a3),
                                        ),
                                    }
                                },
                            },
                        }
                    },
                }
            },
        }
    }

    /// Every level with its hit, miss and access counters at zero.
    pub open spec fn reset(self) -> HierarchyView {
        HierarchyView {
            l1i: self.l1i.reset(),
            l1d: self.l1d.reset(),
            l2: self.l2.reset(),
            llc: self.llc.reset(),
        }
    }
}

/// Writes the block at `addr` back into `target` and returns the address
/// that writeback evicts in turn, if any.
fn writeback_into(target: &mut Cache, addr: u64) -> (r: Option<u64>)
    requires
        old(target).wf(),
        old(target)@.writeback(addr) is Some,
    ensures
        final(target).wf(),
        writeback_step(old(target)@, addr) == Some((final(target)@, r)),
{
    target.writeback(addr).writeback_addr
}

/// Writes the block at `addr` back into `target` where that is defined
/// (`None` exactly where it is not), and returns the address that writeback
/// evicts in turn, if any.
fn try_writeback_into(target: &mut Cache, addr: u64) -> (r: Option<Option<u64>>)
    requires
        old(target).wf(),
    ensures
        final(target).wf(),
        r is None <==> writeback_step(old(target)@, addr) is None,
        r matches Some(x) ==> writeback_step(old(target)@, addr) == Some((final(target)@, x)),
{
    match target.try_writeback(addr) {
        Some(o) => Some(o.writeback_addr),
        None => None,
    }
}

/// The hierarchy that `config` describes, or the category and text of the
/// first error (L1I, then L1D, L2, LLC) its construction reports.
pub open spec fn hierarchy_for(config: Config) -> Result<HierarchyView, (ErrorKind, Seq<char>)> {
    match (cache_for(config.l1i), cache_for(config.l1d), cache_for(config.l2), cache_for(config.llc)) {
        (Err(x), _, _, _) => Err(x),
        (Ok(_), Err(x), _, _) => Err(x),
        (Ok(_), Ok(_), Err(x), _) => Err(x),
        (Ok(_), Ok(_), Ok(_), Err(x)) => Err(x),
        (Ok(l1i), Ok(l1d), Ok(l2), Ok(llc)) => Ok(HierarchyView { l1i, l1d, l2, llc }),
    }
}

/// Every level's geometry multiplies out without overflow.
pub open spec fn geometry_fits(c: CacheConfig) -> bool {
    c.block_size * c.associativity > 0 && c.block_size * c.associativity <= usize::MAX
}

impl CacheHierarchy {
    /// Every level is well formed.
    pub open spec fn wf(&self) -> bool {
        self@.wf()
    }

    /// Builds an L1I/L1D/L2/LLC hierarchy from `config`.
    ///
    /// # Errors
    /// Returns the first error that building a level reports.
    pub fn new(config: Config) -> (r: Result<Self, AsterError>)
        requires
            geometry_fits(config.l1i),
            geometry_fits(config.l1d),
            geometry_fits(config.l2),
            geometry_fits(config.llc),
        ensures
            match hierarchy_for(config) {
                Ok(v) => r matches Ok(h) && h@ == v && h.wf(),
                Err((kind, text)) => r matches Err(e) && error_is(e, kind, text),
            },
    {
        let l1i = Cache::new(&config.l1i)?;
        let l1d = Cache::new(&config.l1d)?;
        let l2 = Cache::new(&config.l2)?;
        let llc = Cache::new(&config.llc)?;
        Ok(Self { l1i, l1d, l2, llc })
    }

    /// Fetches the instruction at `ip` through L1I, L2 and the LLC (see
    /// [`HierarchyView::fetch`]); L1D is never touched.
    pub fn access_instruction(&mut self, ip: u64)
        requires
            old(self).wf(),
            old(self)@.fetch(ip) is Some,
        ensures
            final(self).wf(),
            Some(final(self)@) == old(self)@.fetch(ip),
            final(self)@.l1d == old(self)@.l1d,
    {
        let mut access = MemAccess { addr: ip, pc: ip, is_write: false, hit: None };
        let ghost a0 = access;
        proof {
            lemma_serve_wf(self@.l1i, a0, AccessKind::Demand);
        }
        if self.l1i.access(&mut access).result == AccessResult::Miss {
            let ghost a1 = access;
            proof {
                lemma_serve_wf(self@.l2, a1, AccessKind::Demand);
            }
            if self.l2.access(&mut access).result == AccessResult::Miss {
                self.llc.access(&mut access);
            }
        }
    }

    /// Serves a data access through L1D, L2 and the LLC, with the
    /// writebacks that evictions cause (see [`HierarchyView::data`]).
    #[verifier::rlimit(60)]
    #[verifier::spinoff_prover]
    pub fn access_data(&mut self, access: &mut MemAccess)
        requires
            old(self).wf(),
            old(self)@.data(*old(access)) is Some,
        ensures
            final(self).wf(),
            Some((final(self)@, *final(access))) == old(self)@.data(*old(access)),
            final(self)@.l1i == old(self)@.l1i,
    {
        let ghost h0 = self@;
        let ghost a0 = *access;
        proof {
            lemma_serve_wf(h0.l1d, a0, AccessKind::Demand);
        }
        let l1_outcome = self.l1d.access(access);

        if let Some(addr) = l1_outcome.writeback_addr {
            proof {
                lemma_serve_wf(h0.l2, MemAccess { addr, pc: 0, is_write: true, hit: None }, AccessKind::Writeback);
            }
            if let Some(further) = writeback_into(&mut self.l2, addr) {
                writeback_into(&mut self.llc, further);
            }
        }

        if l1_outcome.result == AccessResult::Miss {
            let ghost a1 = *access;
            proof {
                lemma_serve_wf(self@.l2, a1, AccessKind::Demand);
            }
            let l2_outcome = self.l2.access(access);
            if let Some(addr) = l2_outcome.writeback_addr {
                proof {
                    lemma_serve_wf(self@.llc, MemAccess { addr, pc: 0, is_write: true, hit: None }, AccessKind::Writeback);
                }
                writeback_into(&mut self.llc, addr);
            }

            if l2_outcome.result == AccessResult::Miss {
                self.llc.access(access);
            }
        }
    }

    /// An instruction fetch where it is defined (see
    /// [`HierarchyView::fetch`]); `false` exactly where it is not. The
    /// hierarchy stays well formed either way.
    pub fn try_access_instruction(&mut self, ip: u64) -> (r: bool)
        requires
            old(self).wf(),
        ensures
            final(self).wf(),
            r <==> old(self)@.fetch(ip) is Some,
            r ==> Some(final(self)@) == old(self)@.fetch(ip),
    {
        let mut access = MemAccess { addr: ip, pc: ip, is_write: false, hit: None };
        let o1 = match self.l1i.try_access(&mut access) {
            Some(o) => o,
            None => {
                return false;
            },
        };
        if o1.result == AccessResult::Miss {
            let o2 = match self.l2.try_access(&mut access) {
                Some(o) => o,
                None => {
                    return false;
                },
            };
            if o2.result == AccessResult::Miss {
                if self.llc.try_access(&mut access).is_none() {
                    return false;
                }
            }
        }
        true
    }

    /// A data access where it is defined (see [`HierarchyView::data`]);
    /// `false` exactly where it is not. The hierarchy stays well formed
    /// either way.
    #[verifier::rlimit(60)]
    #[verifier::spinoff_prover]
    pub fn try_access_data(&mut self, access: &mut MemAccess) -> (r: bool)
        requires
            old(self).wf(),
        ensures
            final(self).wf(),
            r <==> old(self)@.data(*old(access)) is Some,
            r ==> Some((final(self)@, *final(access))) == old(self)@.data(*old(access)),
    {
        let l1_outcome = match self.l1d.try_access(access) {
            Some(o) => o,
            None => {
                return false;
            },
        };
        if let Some(addr) = l1_outcome.writeback_addr {
            match try_writeback_into(&mut self.l2, addr) {
                None => {
                    return false;
                },
                Some(Some(further)) => {
                    if try_writeback_into(&mut self.llc, further).is_none() {
                        return false;
                    }
                },
                Some(None) => {},
            }
        }
        if l1_outcome.result == AccessResult::Miss {
            let l2_outcome = match self.l2.try_access(access) {
                Some(o) => o,
                None => {
                    return false;
                },
            };
            if let Some(addr) = l2_outcome.writeback_addr {
                if try_writeback_into(&mut self.llc, addr).is_none() {
                    return false;
                }
            }
            if l2_outcome.result == AccessResult::Miss {
                if self.llc.try_access(access).is_none() {
                    return false;
                }
            }
        }
        true
    }

    /// Resets hit/miss counters on every level (used after warmup).
    pub fn reset_stats(&mut self)
        requires
            old(self).wf(),
        ensures
            final(self).wf(),
            final(self)@ == old(self)@.reset(),
            final(self)@.l1i.hits == 0 && final(self)@.l1i.misses == 0 && final(self)@.l1i.accesses == 0,
            final(self)@.l1d.hits == 0 && final(self)@.l1d.misses == 0 && final(self)@.l1d.accesses == 0,
            final(self)@.l2.hits == 0 && final(self)@.l2.misses == 0 && final(self)@.l2.accesses == 0,
            final(self)@.llc.hits == 0 && final(self)@.llc.misses == 0 && final(self)@.llc.accesses == 0,
            final(self)@.l1i.sets == old(self)@.l1i.sets && final(self)@.l1d.sets == old(self)@.l1d.sets,
            final(self)@.l2.sets == old(self)@.l2.sets && final(self)@.llc.sets == old(self)@.llc.sets,
    {
        self.l1d.reset_stats();
        self.l1i.reset_stats();
        self.l2.reset_stats();
        self.llc.reset_stats();
    }
}

} // verus!
