//! Least-recently-used replacement.

use vstd::prelude::*;
use crate::config::ReplSettings;
use crate::error::AsterError;
use crate::geometry::sets_for;
use crate::policy::ReplacementPolicy;
use crate::trace_reader::MemAccess;

verus! {

/// Least-recently-used replacement policy. Tracks a per-way logical
/// timestamp per set and evicts the way with the oldest timestamp.
pub struct Lru {
    timestamps: Vec<Vec<u64>>,
    clock: u64,
    num_ways: usize,
}

/// The state of an [`Lru`]: a timestamp per way of every set and the clock
/// that the next touch will advance.
pub struct LruView {
    pub timestamps: Seq<Seq<u64>>,
    pub clock: u64,
    pub num_ways: nat,
}

/// The first position of a smallest element of `s` (0 for an empty `s`).
pub open spec fn first_min_index(s: Seq<u64>) -> int
    decreases s.len(),
{
    if s.len() <= 1 {
        0
    } else {
        let m = first_min_index(s.drop_last());
        if s.last() < s[m] {
            s.len() - 1
        } else {
            m
        }
    }
}

/// `first_min_index` names a smallest element, and the first of them.
pub proof fn lemma_first_min_index(s: Seq<u64>)
    requires
        s.len() >= 1,
    ensures
        0 <= first_min_index(s) < s.len(),
        forall|v: int| 0 <= v < s.len() ==> s[first_min_index(s)] <= #[trigger] s[v],
        forall|v: int| 0 <= v < first_min_index(s) ==> s[first_min_index(s)] < #[trigger] s[v],
    decreases s.len(),
{
    if s.len() > 1 {
        let t = s.drop_last();
        lemma_first_min_index(t);
        assert forall|v: int| 0 <= v < t.len() implies t[v] == s[v] by {}
    }
}

impl LruView {
    /// Every set has `num_ways` timestamps, no timestamp is ahead of the
    /// clock, and within a set no two ways share a timestamp.
    pub open spec fn inv(self) -> bool {
        &&& self.num_ways >= 1
        &&& forall|s: int| 0 <= s < self.timestamps.len() ==> #[trigger] self.timestamps[s].len() == self.num_ways
        &&& forall|s: int, w: int|
            0 <= s < self.timestamps.len() && 0 <= w < self.num_ways ==> #[trigger] self.timestamps[s][w]
                <= self.clock
        &&& forall|s: int, w1: int, w2: int|
            0 <= s < self.timestamps.len() && 0 <= w1 < self.num_ways && 0 <= w2 < self.num_ways && w1
                != w2 ==> #[trigger] self.timestamps[s][w1] != #[trigger] self.timestamps[s][w2]
    }

    /// The clock can advance once more.
    pub open spec fn can_touch(self) -> bool {
        self.clock < u64::MAX
    }

    /// The state after `way` of `set` is used: the clock advances and the way
    /// takes the new time.
    pub open spec fn touched(self, set: int, way: int) -> LruView {
        let c = (self.clock + 1) as u64;
        LruView {
            timestamps: self.timestamps.update(set, self.timestamps[set].update(way, c)),
            clock: c,
            num_ways: self.num_ways,
        }
    }

    /// The way of `set` used least recently (the first of them on a tie).
    pub open spec fn victim(self, set: int) -> int {
        first_min_index(self.timestamps[set])
    }

    /// The state of a fresh policy: way `w` of every set starts at time `w`,
    /// so way 0 is evicted first from a cold set.
    pub open spec fn initial(num_sets: nat, num_ways: nat) -> LruView {
        LruView {
            timestamps: Seq::new(num_sets, |s: int| Seq::new(num_ways, |w: int| w as u64)),
            clock: num_ways as u64,
            num_ways,
        }
    }
}

/// Touching a way keeps the state well formed and makes that way the most
/// recently used one of its set.
pub proof fn lemma_lru_touch(v: LruView, set: int, way: int)
    requires
        v.inv(),
        v.can_touch(),
        0 <= set < v.timestamps.len(),
        0 <= way < v.num_ways,
    ensures
        v.touched(set, way).inv(),
        forall|w: int|
            0 <= w < v.num_ways && w != way ==> #[trigger] v.touched(set, way).timestamps[set][w]
                < v.touched(set, way).timestamps[set][way],
{
    let t = v.touched(set, way);
    assert forall|s: int, w1: int, w2: int|
        0 <= s < t.timestamps.len() && 0 <= w1 < t.num_ways && 0 <= w2 < t.num_ways && w1
            != w2 implies #[trigger] t.timestamps[s][w1] != #[trigger] t.timestamps[s][w2] by {
        assert(v.timestamps[s][w1] <= v.clock);
        assert(v.timestamps[s][w2] <= v.clock);
    }
    assert forall|s: int, w: int|
        0 <= s < t.timestamps.len() && 0 <= w < t.num_ways implies #[trigger] t.timestamps[s][w]
            <= t.clock by {
        assert(v.timestamps[s][w] <= v.clock);
    }
    assert forall|w: int| 0 <= w < v.num_ways && w != way implies #[trigger] t.timestamps[set][w]
        < t.timestamps[set][way] by {
        assert(v.timestamps[set][w] <= v.clock);
    }
}

/// In a set of two or more ways, the way just touched is never the LRU
/// victim of that set.
pub proof fn lemma_lru_touched_way_survives(v: LruView, set: int, way: int)
    requires
        v.inv(),
        v.can_touch(),
        v.num_ways >= 2,
        0 <= set < v.timestamps.len(),
        0 <= way < v.num_ways,
    ensures
        v.touched(set, way).victim(set) != way,
{
    let t = v.touched(set, way);
    lemma_lru_touch(v, set, way);
    lemma_first_min_index(t.timestamps[set]);
    let other = if way == 0 {
        1int
    } else {
        0int
    };
    assert(t.timestamps[set][other] < t.timestamps[set][way]);
}

/// On a cold set, way 0 is evicted first.
pub proof fn lemma_lru_cold_victim(num_sets: nat, num_ways: nat, set: int)
    requires
        num_ways >= 1,
        0 <= set < num_sets,
    ensures
        LruView::initial(num_sets, num_ways).victim(set) == 0,
{
    let row = LruView::initial(num_sets, num_ways).timestamps[set];
    lemma_first_min_index(row);
    let m = first_min_index(row);
    if m > 0 {
        assert(row[m] < row[0]);
    }
}

impl View for Lru {
    type V = LruView;

    closed spec fn view(&self) -> LruView {
        LruView {
            timestamps: self.timestamps@.map_values(|row: Vec<u64>| row@),
            clock: self.clock,
            num_ways: self.num_ways as nat,
        }
    }
}

impl Lru {
    /// Builds an `Lru` state for a cache with the given geometry.
    /// `_settings` is accepted for interface parity with other policies but
    /// LRU has no tunable settings.
    ///
    /// # Errors
    /// Never fails; returns `Result` for interface parity with
    /// [`crate::policy::make_policy`].
    pub fn new(
        cache_size: usize,
        block_size: usize,
        associativity: usize,
        _settings: &ReplSettings,
    ) -> (r: Result<Self, AsterError>)
        requires
            block_size * associativity > 0,
            block_size * associativity <= usize::MAX,
        ensures
            r is Ok,
            r matches Ok(l) && l@ == LruView::initial(
                sets_for(cache_size as nat, block_size as nat, associativity as nat),
                associativity as nat,
            ),
            r matches Ok(l) && l@.inv(),
    {
        // initialize timestamps so way 0 is evicted first on a cold set
        let num_sets = cache_size / (block_size * associativity);
        let ghost target = LruView::initial(num_sets as nat, associativity as nat);
        let mut timestamps: Vec<Vec<u64>> = Vec::new();
        let mut s: usize = 0;
        while s < num_sets
            invariant
                s <= num_sets,
                timestamps.len() == s,
                target == LruView::initial(num_sets as nat, associativity as nat),
                forall|i: int| 0 <= i < s ==> #[trigger] timestamps[i]@ == target.timestamps[i],
            decreases num_sets - s,
        {
            let mut row: Vec<u64> = Vec::new();
            let mut w: usize = 0;
            while w < associativity
                invariant
                    w <= associativity,
                    row.len() == w,
                    forall|j: int| 0 <= j < w ==> #[trigger] row[j] == j as u64,
                decreases associativity - w,
            {
                row.push(w as u64);
                w = w + 1;
            }
            proof {
                assert(row@ =~= target.timestamps[s as int]);
            }
            timestamps.push(row);
            s = s + 1;
        }
        let l = Lru { timestamps, clock: associativity as u64, num_ways: associativity };
        proof {
            assert(l@.timestamps =~= target.timestamps);
        }
        Ok(l)
    }

    /// Whether the clock can advance once more (see [`LruView::can_touch`]).
    pub fn clock_can_advance(&self) -> (r: bool)
        ensures
            r == self@.can_touch(),
    {
        self.clock < u64::MAX
    }

    /// The timestamp of `way` in `set`.
    pub fn timestamp(&self, set: usize, way: usize) -> (t: u64)
        requires
            set < self@.timestamps.len(),
            way < self@.num_ways,
            self@.inv(),
        ensures
            t == self@.timestamps[set as int][way as int],
    {
        proof {
            assert(self@.timestamps[set as int] == self.timestamps@[set as int]@);
            assert(self@.timestamps[set as int].len() == self@.num_ways);
        }
        self.timestamps[set][way]
    }
}

impl ReplacementPolicy for Lru {
    open spec fn num_sets(&self) -> nat {
        self@.timestamps.len()
    }

    open spec fn num_ways(&self) -> nat {
        self@.num_ways
    }

    open spec fn inv(&self) -> bool {
        self@.inv()
    }

    open spec fn can_touch(&self) -> bool {
        self@.can_touch()
    }

    open spec fn can_evict(&self, set: int) -> bool {
        true
    }

    fn update(&mut self, set: usize, way: usize, _access: &MemAccess)
        ensures
            final(self)@ == old(self)@.touched(set as int, way as int),
    {
        proof {
            lemma_lru_touch(self@, set as int, way as int);
            assert(self@.timestamps[set as int] == self.timestamps@[set as int]@);
            assert(self@.timestamps[set as int].len() == self@.num_ways);
        }
        self.clock = self.clock + 1;
        self.timestamps[set][way] = self.clock;
        proof {
            assert(self@.timestamps =~= old(self)@.touched(set as int, way as int).timestamps);
        }
    }

    fn find_victim(&mut self, set: usize) -> (way: usize)
        ensures
            way == old(self)@.victim(set as int),
            final(self)@ == old(self)@,
    {
        proof {
            assert(self@.timestamps[set as int] == self.timestamps@[set as int]@);
            assert(self@.timestamps[set as int].len() == self@.num_ways);
        }
        let row = &self.timestamps[set];
        let ghost s = row@;
        let n = self.num_ways;
        let mut best: usize = 0;
        let mut w: usize = 1;
        proof {
            assert(s.take(1).len() == 1);
        }
        while w < n
            invariant
                1 <= w <= n,
                n == s.len(),
                s == row@,
                best == first_min_index(s.take(w as int)),
                best < w,
            decreases n - w,
        {
            proof {
                lemma_first_min_index(s.take(w as int));
                assert(s.take(w as int + 1).drop_last() =~= s.take(w as int));
            }
            if row[w] < row[best] {
                best = w;
            }
            w = w + 1;
        }
        proof {
            assert(s.take(n as int) =~= s);
        }
        best
    }

    fn install(&mut self, set: usize, way: usize, access: &MemAccess)
        ensures
            final(self)@ == old(self)@.touched(set as int, way as int),
    {
        self.update(set, way, access);
    }
}

} // verus!
