//! Static re-reference interval prediction (SRRIP) replacement.

use vstd::prelude::*;
use vstd::string::*;
use crate::config::ReplSettings;
use crate::error::AsterError;
use crate::geometry::sets_for;
use crate::policy::ReplacementPolicy;
use crate::seqs::{first_where, is_first_where, lemma_first_where_found, lemma_first_where_none, lemma_first_where_some};
use crate::trace_reader::MemAccess;

verus! {

/// Tunables for [`Srrip`]; every field has a default.
#[derive(Clone, Copy, Debug, PartialEq, Eq)]
pub struct SrripSettings {
    pub max_rrpv: u8,
    pub insertion_rrpv: u8,
    pub increment: u8,
}

/// Default `max_rrpv`.
pub fn default_max_rrpv() -> (r: u8)
    ensures
        r == 3,
{
    3
}

/// Default `insertion_rrpv`.
pub fn default_insertion_rrpv() -> (r: u8)
    ensures
        r == 2,
{
    2
}

/// Default `increment`.
pub fn default_increment() -> (r: u8)
    ensures
        r == 1,
{
    1
}

/// Static re-reference interval prediction (SRRIP) replacement policy.
/// Tracks a per-way re-reference prediction value (RRPV) per set; hits
/// reset RRPV to 0 (near-immediate re-reference), misses insert at
/// `insertion_rrpv`, and eviction prefers the way predicted furthest from
/// re-reference (highest RRPV).
pub struct Srrip {
    max_rrpv: u8,
    insertion_rrpv: u8,
    increment: u8,
    pub rrpv_values: Vec<Vec<u8>>,
}

/// The state of an [`Srrip`].
pub struct SrripView {
    pub max_rrpv: u8,
    pub insertion_rrpv: u8,
    pub increment: u8,
    pub rrpv: Seq<Seq<u8>>,
}

/// `v` aged once: raised by `inc`, capped at `max`.
pub open spec fn aged_value(v: u8, max: u8, inc: u8) -> u8 {
    if v as int + inc as int >= max as int {
        max
    } else {
        (v + inc) as u8
    }
}

/// Every value of `vals` aged once.
pub open spec fn aged(vals: Seq<u8>, max: u8, inc: u8) -> Seq<u8> {
    Seq::new(vals.len(), |i: int| aged_value(vals[i], max, inc))
}

/// Whether a value has reached `max`.
pub open spec fn at_max(max: u8) -> spec_fn(u8) -> bool {
    |v: u8| v == max
}

/// How far a value is from `max`, counting a value that is not `max` once more.
pub open spec fn distance(v: u8, max: u8) -> nat {
    (if v < max {
        (max - v) as nat
    } else {
        0nat
    }) + (if v != max {
        1nat
    } else {
        0nat
    })
}

/// The summed distance of `vals` from `max`; aging lowers it.
pub open spec fn aging_measure(vals: Seq<u8>, max: u8) -> nat
    decreases vals.len(),
{
    if vals.len() == 0 {
        0
    } else {
        distance(vals.last(), max) + aging_measure(vals.drop_last(), max)
    }
}

/// Aging a set where no value is at `max` lowers the measure.
pub proof fn lemma_aging_decreases(vals: Seq<u8>, max: u8, inc: u8)
    requires
        inc > 0,
        forall|i: int| 0 <= i < vals.len() ==> #[trigger] vals[i] != max,
    ensures
        vals.len() > 0 ==> aging_measure(aged(vals, max, inc), max) < aging_measure(vals, max),
        aging_measure(aged(vals, max, inc), max) <= aging_measure(vals, max),
    decreases vals.len(),
{
    if vals.len() > 0 {
        let t = vals.drop_last();
        lemma_aging_decreases(t, max, inc);
        assert(aged(vals, max, inc).drop_last() =~= aged(t, max, inc));
    }
}

/// The victim search on one set: the first way whose value is `max`;
/// while there is none, every value is aged and the search repeats. `None`
/// where the search never ends (no value at `max` and nothing to age by).
pub open spec fn srrip_search(vals: Seq<u8>, max: u8, inc: u8) -> Option<(int, Seq<u8>)>
    decreases aging_measure(vals, max),
{
    match first_where(vals, at_max(max)) {
        Some(i) => Some((i, vals)),
        None => if inc == 0 || vals.len() == 0 {
            None
        } else {
            proof {
                assert forall|i: int| 0 <= i < vals.len() implies #[trigger] vals[i] != max by {
                    if vals[i] == max {
                        lemma_first_where_some(vals, at_max(max), i);
                    }
                }
                lemma_aging_decreases(vals, max, inc);
            }
            srrip_search(aged(vals, max, inc), max, inc)
        },
    }
}

/// Aging keeps every value at or below `max`.
pub proof fn lemma_aged_bounded(vals: Seq<u8>, max: u8, inc: u8)
    ensures
        forall|i: int| 0 <= i < vals.len() ==> #[trigger] aged(vals, max, inc)[i] <= max || vals[i] > max,
{
}

/// The search returns a way whose value is `max`, ages only, and keeps every
/// value at or below `max`.
pub proof fn lemma_srrip_search(vals: Seq<u8>, max: u8, inc: u8)
    requires
        srrip_search(vals, max, inc) is Some,
        forall|i: int| 0 <= i < vals.len() ==> #[trigger] vals[i] <= max,
    ensures
        ({
            let (w, after) = srrip_search(vals, max, inc)->0;
            &&& 0 <= w < vals.len()
            &&& after.len() == vals.len()
            &&& after[w] == max
            &&& forall|j: int| 0 <= j < w ==> #[trigger] after[j] != max
            &&& forall|i: int| 0 <= i < after.len() ==> #[trigger] after[i] <= max
        }),
    decreases aging_measure(vals, max),
{
    match first_where(vals, at_max(max)) {
        Some(i) => {
            assert(is_first_where(vals, at_max(max), i));
        },
        None => {
            assert forall|i: int| 0 <= i < vals.len() implies #[trigger] vals[i] != max by {
                if vals[i] == max {
                    lemma_first_where_some(vals, at_max(max), i);
                }
            }
            lemma_aging_decreases(vals, max, inc);
            lemma_srrip_search(aged(vals, max, inc), max, inc);
        },
    }
}

/// `v` aged `k` times at once: raised by `k` increments, capped at `max`.
pub open spec fn capped_age(v: u8, max: u8, inc: u8, k: nat) -> u8 {
    if v as int + k * inc >= max as int {
        max
    } else {
        (v + k * inc) as u8
    }
}

/// Every value of `vals` aged `k` times.
pub open spec fn aged_by(vals: Seq<u8>, max: u8, inc: u8, k: nat) -> Seq<u8> {
    Seq::new(vals.len(), |i: int| capped_age(vals[i], max, inc, k))
}

/// After `k` agings some value of `vals` has reached `max`.
pub open spec fn reaches_max(vals: Seq<u8>, max: u8, inc: u8, k: nat) -> bool {
    exists|i: int| 0 <= i < vals.len() && #[trigger] vals[i] as int + k * inc >= max as int
}

/// The search from `vals` aged `k` times, where no earlier aging reached
/// `max`, ends, after the least number of agings that brings a value to
/// `max`.
proof fn lemma_search_from_aged(vals: Seq<u8>, max: u8, inc: u8, k: nat)
    requires
        inc > 0,
        vals.len() > 0,
        forall|i: int| 0 <= i < vals.len() ==> #[trigger] vals[i] <= max,
        forall|j: nat| j < k ==> !#[trigger] reaches_max(vals, max, inc, j),
    ensures
        srrip_search(aged_by(vals, max, inc, k), max, inc) is Some,
        exists|k2: nat|
            k2 >= k && (srrip_search(aged_by(vals, max, inc, k), max, inc)->0).1 == aged_by(
                vals,
                max,
                inc,
                k2,
            ) && reaches_max(vals, max, inc, k2) && forall|j: nat|
                j < k2 ==> !#[trigger] reaches_max(vals, max, inc, j),
    decreases (if k * inc <= max as int { max as int + 1 - k * inc } else { 0 }),
{
    let cur = aged_by(vals, max, inc, k);
    if reaches_max(vals, max, inc, k) {
        let i = choose|i: int| 0 <= i < vals.len() && #[trigger] vals[i] as int + k * inc >= max as int;
        assert(cur[i] == max);
        lemma_first_where_some(cur, at_max(max), i);
    } else {
        assert forall|i: int| 0 <= i < cur.len() implies #[trigger] cur[i] != max by {
            assert(vals[i] as int + k * inc < max as int);
        }
        lemma_first_where_none(cur, at_max(max));
        assert((k + 1) * inc == k * inc + inc) by (nonlinear_arith);
        assert(aged(cur, max, inc) =~= aged_by(vals, max, inc, k + 1)) by {
            assert forall|i: int| 0 <= i < cur.len() implies aged(cur, max, inc)[i] == aged_by(
                vals,
                max,
                inc,
                k + 1,
            )[i] by {
                assert(vals[i] as int + k * inc < max as int);
            }
        }
        assert(k * inc < max) by {
            assert(vals[0] as int + k * inc < max as int);
        }
        assert forall|j: nat| j < k + 1 implies !#[trigger] reaches_max(vals, max, inc, j) by {
            if j < k {
            }
        }
        lemma_search_from_aged(vals, max, inc, k + 1);
    }
}

/// With a positive increment the victim search on a non-empty set always
/// ends, and it has aged every value of the set by the least number of
/// increments `k` that brings some value to `max_rrpv`: each value becomes
/// `min(value + k * increment, max_rrpv)`.
pub proof fn lemma_srrip_search_closed_form(vals: Seq<u8>, max: u8, inc: u8)
    requires
        inc > 0,
        vals.len() > 0,
        forall|i: int| 0 <= i < vals.len() ==> #[trigger] vals[i] <= max,
    ensures
        srrip_search(vals, max, inc) is Some,
        exists|k: nat|
            (srrip_search(vals, max, inc)->0).1 == aged_by(vals, max, inc, k) && reaches_max(
                vals,
                max,
                inc,
                k,
            ) && forall|j: nat| j < k ==> !#[trigger] reaches_max(vals, max, inc, j),
{
    assert(aged_by(vals, max, inc, 0) =~= vals) by {
        assert forall|i: int| 0 <= i < vals.len() implies aged_by(vals, max, inc, 0)[i] == vals[i] by {
            assert(0 * inc == 0);
        }
    }
    lemma_search_from_aged(vals, max, inc, 0);
}

impl SrripView {
    /// Every set has the same number of ways, every value is at or below
    /// `max_rrpv`, and so is the insertion value.
    pub open spec fn inv(self) -> bool {
        &&& self.insertion_rrpv <= self.max_rrpv
        &&& forall|s: int| 0 <= s < self.rrpv.len() ==> #[trigger] self.rrpv[s].len() == self.num_ways()
        &&& forall|s: int, w: int|
            0 <= s < self.rrpv.len() && 0 <= w < self.rrpv[s].len() ==> #[trigger] self.rrpv[s][w]
                <= self.max_rrpv
    }

    /// Number of ways per set.
    pub open spec fn num_ways(self) -> nat {
        if self.rrpv.len() > 0 {
            self.rrpv[0].len()
        } else {
            0
        }
    }

    /// The value a way takes when it is used: 0 on a hit, the insertion
    /// value otherwise.
    pub open spec fn touched(self, set: int, way: int, access: MemAccess) -> SrripView {
        let v = if access.hit == Some(true) {
            0u8
        } else {
            self.insertion_rrpv
        };
        SrripView { rrpv: self.rrpv.update(set, self.rrpv[set].update(way, v)), ..self }
    }

    /// The victim of `set` and the state after the search.
    pub open spec fn victim(self, set: int) -> Option<(int, SrripView)> {
        match srrip_search(self.rrpv[set], self.max_rrpv, self.increment) {
            Some((w, after)) => Some((w, SrripView { rrpv: self.rrpv.update(set, after), ..self })),
            None => None,
        }
    }

    /// The state of a fresh policy: every way at the insertion value.
    pub open spec fn initial(settings: SrripSettings, num_sets: nat, num_ways: nat) -> SrripView {
        SrripView {
            max_rrpv: settings.max_rrpv,
            insertion_rrpv: settings.insertion_rrpv,
            increment: settings.increment,
            rrpv: Seq::new(num_sets, |s: int| Seq::new(num_ways, |w: int| settings.insertion_rrpv)),
        }
    }
}

/// The victim search on a well-formed state returns a way at `max_rrpv` and
/// keeps the state well formed.
pub proof fn lemma_srrip_victim(v: SrripView, set: int)
    requires
        v.inv(),
        0 <= set < v.rrpv.len(),
        v.victim(set) is Some,
    ensures
        ({
            let (w, after) = v.victim(set)->0;
            &&& 0 <= w < v.num_ways()
            &&& after.rrpv[set][w] == v.max_rrpv
            &&& forall|j: int| 0 <= j < w ==> #[trigger] after.rrpv[set][j] != v.max_rrpv
            &&& after.inv()
            &&& after.rrpv.len() == v.rrpv.len()
            &&& after.num_ways() == v.num_ways()
        }),
{
    lemma_srrip_search(v.rrpv[set], v.max_rrpv, v.increment);
}

/// With a positive increment the victim search of a well-formed state
/// always ends: only the searched set changes, every one of its values aged
/// by the least number of increments that brings some value to
/// `max_rrpv`, and the victim is the first way at `max_rrpv`.
pub proof fn lemma_srrip_victim_closed_form(v: SrripView, set: int)
    requires
        v.inv(),
        0 <= set < v.rrpv.len(),
        v.increment > 0,
        v.num_ways() > 0,
    ensures
        v.victim(set) is Some,
        ({
            let (w, after) = v.victim(set)->0;
            &&& after.rrpv[set][w] == v.max_rrpv
            &&& forall|j: int| 0 <= j < w ==> #[trigger] after.rrpv[set][j] != v.max_rrpv
            &&& forall|s: int| 0 <= s < v.rrpv.len() && s != set ==> #[trigger] after.rrpv[s] == v.rrpv[s]
            &&& exists|k: nat|
                after.rrpv[set] == aged_by(v.rrpv[set], v.max_rrpv, v.increment, k) && reaches_max(
                    v.rrpv[set],
                    v.max_rrpv,
                    v.increment,
                    k,
                ) && forall|j: nat|
                    j < k ==> !#[trigger] reaches_max(v.rrpv[set], v.max_rrpv, v.increment, j)
        }),
{
    assert(v.rrpv[set].len() == v.num_ways());
    lemma_srrip_search_closed_form(v.rrpv[set], v.max_rrpv, v.increment);
    lemma_srrip_victim(v, set);
}

/// Where a way of the set is already at `max_rrpv`, the first such way is
/// the victim and no value ages.
pub proof fn lemma_srrip_no_aging_needed(v: SrripView, set: int, way: int)
    requires
        0 <= set < v.rrpv.len(),
        0 <= way < v.rrpv[set].len(),
        v.rrpv[set][way] == v.max_rrpv,
        forall|j: int| 0 <= j < way ==> #[trigger] v.rrpv[set][j] != v.max_rrpv,
    ensures
        v.victim(set) == Some((way, v)),
{
    assert(is_first_where(v.rrpv[set], at_max(v.max_rrpv), way));
    lemma_first_where_found(v.rrpv[set], at_max(v.max_rrpv), way);
    assert(v.rrpv.update(set, v.rrpv[set]) =~= v.rrpv);
}

/// The message for settings that leave no room for aging.
pub open spec fn no_aging_room_message() -> Seq<char> {
    "SrripSettings: max_rrpv must be greater than increment + insertion_rrpv"@
}

impl View for Srrip {
    type V = SrripView;

    closed spec fn view(&self) -> SrripView {
        SrripView {
            max_rrpv: self.max_rrpv,
            insertion_rrpv: self.insertion_rrpv,
            increment: self.increment,
            rrpv: self.rrpv_values@.map_values(|row: Vec<u8>| row@),
        }
    }
}

impl Srrip {
    /// Builds an `Srrip` state for a cache with the given geometry, taking
    /// its tunables from `settings`.
    ///
    /// # Errors
    /// Returns [`AsterError::InvalidPolicyConfig`] if the settings could not
    /// be read, and [`AsterError::Config`] if `max_rrpv` is below
    /// `increment + insertion_rrpv`.
    pub fn new(
        cache_size: usize,
        block_size: usize,
        associativity: usize,
        settings: &ReplSettings,
    ) -> (r: Result<Self, AsterError>)
        requires
            block_size * associativity > 0,
            block_size * associativity <= usize::MAX,
        ensures
            match settings.srrip {
                Err(m) => r matches Err(AsterError::InvalidPolicyConfig(e)) && e@ == m@,
                Ok(s) => if s.max_rrpv < s.increment + s.insertion_rrpv {
                    r matches Err(AsterError::Config(e)) && e@ == no_aging_room_message()
                } else {
                    r matches Ok(p) && p@ == SrripView::initial(
                        s,
                        sets_for(cache_size as nat, block_size as nat, associativity as nat),
                        associativity as nat,
                    ) && p@.inv()
                },
            },
    {
        let s: SrripSettings = match &settings.srrip {
            Ok(s) => *s,
            Err(m) => {
                return Err(AsterError::InvalidPolicyConfig(m.clone()));
            },
        };
        let num_sets = cache_size / (block_size * associativity);

        if (s.max_rrpv as u16) < (s.increment as u16) + (s.insertion_rrpv as u16) {
            return Err(
                AsterError::Config(
                    String::from_str(
                        "SrripSettings: max_rrpv must be greater than increment + insertion_rrpv",
                    ),
                ),
            );
        }
        let ghost target = SrripView::initial(s, num_sets as nat, associativity as nat);
        let mut rrpv_values: Vec<Vec<u8>> = Vec::new();
        let mut i: usize = 0;
        while i < num_sets
            invariant
                i <= num_sets,
                rrpv_values.len() == i,
                target == SrripView::initial(s, num_sets as nat, associativity as nat),
                forall|k: int| 0 <= k < i ==> #[trigger] rrpv_values[k]@ == target.rrpv[k],
            decreases num_sets - i,
        {
            let mut row: Vec<u8> = Vec::new();
            let mut w: usize = 0;
            while w < associativity
                invariant
                    w <= associativity,
                    row.len() == w,
                    forall|j: int| 0 <= j < w ==> #[trigger] row[j] == s.insertion_rrpv,
                decreases associativity - w,
            {
                row.push(s.insertion_rrpv);
                w = w + 1;
            }
            proof {
                assert(row@ =~= target.rrpv[i as int]);
            }
            rrpv_values.push(row);
            i = i + 1;
        }
        let p = Srrip {
            rrpv_values,
            max_rrpv: s.max_rrpv,
            insertion_rrpv: s.insertion_rrpv,
            increment: s.increment,
        };
        proof {
            assert(p@.rrpv =~= target.rrpv);
        }
        Ok(p)
    }

    /// Whether the victim search on `set` ends (see [`SrripView::victim`]):
    /// it does where the increment is positive and the set has ways, or where
    /// a way is already at `max_rrpv`.
    pub fn victim_search_ends(&self, set: usize) -> (r: bool)
        requires
            self@.inv(),
            set < self@.rrpv.len(),
        ensures
            r == (self@.victim(set as int) is Some),
    {
        let ghost vals = self@.rrpv[set as int];
        proof {
            assert(vals == self.rrpv_values@[set as int]@);
        }
        let row = &self.rrpv_values[set];
        let n = row.len();
        if self.increment > 0 && n > 0 {
            proof {
                lemma_srrip_search_closed_form(vals, self.max_rrpv, self.increment);
            }
            return true;
        }
        let mut k: usize = 0;
        while k < n
            invariant
                k <= n,
                n == vals.len(),
                row@ == vals,
                set < self@.rrpv.len(),
                vals == self@.rrpv[set as int],
                forall|j: int| 0 <= j < k ==> #[trigger] vals[j] != self.max_rrpv,
            decreases n - k,
        {
            if row[k] == self.max_rrpv {
                proof {
                    lemma_first_where_some(vals, at_max(self.max_rrpv), k as int);
                }
                return true;
            }
            k = k + 1;
        }
        proof {
            lemma_first_where_none(vals, at_max(self.max_rrpv));
        }
        false
    }

    /// The RRPV of `way` in `set`.
    pub fn rrpv(&self, set: usize, way: usize) -> (v: u8)
        requires
            set < self@.rrpv.len(),
            way < self@.rrpv[set as int].len(),
        ensures
            v == self@.rrpv[set as int][way as int],
    {
        self.rrpv_values[set][way]
    }
}

impl ReplacementPolicy for Srrip {
    open spec fn num_sets(&self) -> nat {
        self@.rrpv.len()
    }

    open spec fn num_ways(&self) -> nat {
        self@.num_ways()
    }

    open spec fn inv(&self) -> bool {
        self@.inv()
    }

    open spec fn can_touch(&self) -> bool {
        true
    }

    open spec fn can_evict(&self, set: int) -> bool {
        self@.victim(set) is Some
    }

    fn update(&mut self, set: usize, way: usize, access: &MemAccess)
        ensures
            final(self)@ == old(self)@.touched(set as int, way as int, *access),
    {
        proof {
            assert(self@.rrpv[set as int] == self.rrpv_values@[set as int]@);
            assert(self@.rrpv[set as int].len() == self@.num_ways());
        }
        let hit = match access.hit {
            Some(h) => h,
            None => false,
        };
        if hit {
            self.rrpv_values[set][way] = 0;
        } else {
            self.rrpv_values[set][way] = self.insertion_rrpv;
        }
        proof {
            assert(self@.rrpv =~= old(self)@.touched(set as int, way as int, *access).rrpv);
        }
    }

    #[verifier::loop_isolation(false)]
    fn find_victim(&mut self, set: usize) -> (way: usize)
        ensures
            old(self)@.victim(set as int) == Some((way as int, final(self)@)),
    {
        let ghost start = self@;
        proof {
            lemma_srrip_victim(start, set as int);
        }
        let max = self.max_rrpv;
        let inc = self.increment;
        proof {
            assert(self@.rrpv[set as int] == self.rrpv_values@[set as int]@);
        }
        let n = self.rrpv_values[set].len();
        loop
            invariant
                self@.max_rrpv == max,
                self@.increment == inc,
                self@.insertion_rrpv == start.insertion_rrpv,
                self@.rrpv.len() == start.rrpv.len(),
                set < start.rrpv.len(),
                n == self@.rrpv[set as int].len(),
                forall|s: int| 0 <= s < start.rrpv.len() && s != set ==> #[trigger] self@.rrpv[s] == start.rrpv[s],
                srrip_search(self@.rrpv[set as int], max, inc) == srrip_search(
                    start.rrpv[set as int],
                    max,
                    inc,
                ),
                srrip_search(start.rrpv[set as int], max, inc) is Some,
            decreases aging_measure(self@.rrpv[set as int], max),
        {
            let ghost vals = self@.rrpv[set as int];
            let mut i: usize = 0;
            while i < n
                invariant
                    i <= n,
                    n == vals.len(),
                    vals == self@.rrpv[set as int],
                    set < self@.rrpv.len(),
                    forall|j: int| 0 <= j < i ==> #[trigger] vals[j] != max,
                decreases n - i,
            {
                if self.rrpv_values[set][i] == max {
                    proof {
                        assert(is_first_where(vals, at_max(max), i as int));
                        lemma_first_where_found(vals, at_max(max), i as int);
                        assert(self@.rrpv =~= start.rrpv.update(set as int, vals));
                    }
                    return i;
                }
                i = i + 1;
            }
            proof {
                lemma_first_where_none(vals, at_max(max));
                assert forall|j: int| 0 <= j < vals.len() implies #[trigger] vals[j] != max by {}
                lemma_aging_decreases(vals, max, inc);
            }
            let mut j: usize = 0;
            while j < n
                invariant
                    j <= n,
                    n == vals.len(),
                    set < self@.rrpv.len(),
                    self@.rrpv.len() == start.rrpv.len(),
                    self@.max_rrpv == max,
                    self@.increment == inc,
                    self@.insertion_rrpv == start.insertion_rrpv,
                    forall|s: int| 0 <= s < start.rrpv.len() && s != set ==> #[trigger] self@.rrpv[s] == start.rrpv[s],
                    self@.rrpv[set as int].len() == n,
                    forall|k: int| 0 <= k < j ==> #[trigger] self@.rrpv[set as int][k] == aged_value(vals[k], max, inc),
                    forall|k: int| j <= k < n ==> #[trigger] self@.rrpv[set as int][k] == vals[k],
                decreases n - j,
            {
                let v = self.rrpv_values[set][j];
                let sum: u16 = v as u16 + inc as u16;
                let nv: u8 = if sum >= max as u16 {
                    max
                } else {
                    sum as u8
                };
                let ghost before = self@;
                self.rrpv_values[set][j] = nv;
                proof {
                    assert forall|s: int| 0 <= s < start.rrpv.len() && s != set implies #[trigger] self@.rrpv[s] == start.rrpv[s] by {
                        assert(self@.rrpv[s] == self.rrpv_values@[s]@);
                        assert(before.rrpv[s] == start.rrpv[s]);
                    }
                    assert(self@.rrpv[set as int][j as int] == aged_value(vals[j as int], max, inc));
                }
                j = j + 1;
            }
            proof {
                assert(self@.rrpv[set as int] =~= aged(vals, max, inc));
            }
        }
    }

    fn install(&mut self, set: usize, way: usize, access: &MemAccess)
        ensures
            final(self)@ == old(self)@.touched(set as int, way as int, *access),
    {
        self.update(set, way, access);
    }
}

} // verus!
