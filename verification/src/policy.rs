//! Replacement policy interface.
//!
//! A policy keeps per-set, per-way state and is driven by the cache on every
//! hit, every install and every eviction.

use vstd::prelude::*;
use vstd::string::*;
use crate::config::CacheConfig;
use crate::error::{AsterError, ErrorKind, error_is};
use crate::geometry::sets_for;
use crate::policies::lru::{Lru, LruView, lemma_lru_touch, lemma_lru_touched_way_survives, lemma_first_min_index};
use crate::policies::srrip::{Srrip, SrripView, lemma_srrip_victim, lemma_srrip_no_aging_needed, no_aging_room_message};
use crate::text::str_equal;
use crate::trace_reader::MemAccess;

verus! {

/// Per-set, per-way replacement state for a cache. Implementors track
/// whatever bookkeeping their policy needs (timestamps, RRPV bits, etc.)
/// and are driven by the cache on every hit, install, and eviction.
pub trait ReplacementPolicy {
    /// Number of sets the policy tracks.
    spec fn num_sets(&self) -> nat;

    /// Number of ways per set the policy tracks.
    spec fn num_ways(&self) -> nat;

    /// The policy's own well-formedness.
    spec fn inv(&self) -> bool;

    /// `update` and `install` can record one more access.
    spec fn can_touch(&self) -> bool;

    /// `find_victim` on `set` returns.
    spec fn can_evict(&self, set: int) -> bool;

    /// Called on a cache hit to update state for the accessed way.
    fn update(&mut self, set: usize, way: usize, access: &MemAccess)
        requires
            old(self).inv(),
            set < old(self).num_sets(),
            way < old(self).num_ways(),
            old(self).can_touch(),
        ensures
            final(self).inv(),
            final(self).num_sets() == old(self).num_sets(),
            final(self).num_ways() == old(self).num_ways(),
    ;

    /// Called on a miss (once no invalid way is available) to pick the way
    /// to evict from `set`.
    fn find_victim(&mut self, set: usize) -> (way: usize)
        requires
            old(self).inv(),
            set < old(self).num_sets(),
            old(self).can_evict(set as int),
        ensures
            final(self).inv(),
            final(self).num_sets() == old(self).num_sets(),
            final(self).num_ways() == old(self).num_ways(),
            way < final(self).num_ways(),
    ;

    /// Called on a miss, after the victim way has been overwritten, to
    /// initialize state for the newly filled line.
    fn install(&mut self, set: usize, way: usize, access: &MemAccess)
        requires
            old(self).inv(),
            set < old(self).num_sets(),
            way < old(self).num_ways(),
            old(self).can_touch(),
        ensures
            final(self).inv(),
            final(self).num_sets() == old(self).num_sets(),
            final(self).num_ways() == old(self).num_ways(),
    ;
}

/// The policy a cache runs: one of the implemented ones.
pub enum Policy {
    Lru(Lru),
    Srrip(Srrip),
}

/// The state of a [`Policy`].
pub enum PolicyView {
    Lru(LruView),
    Srrip(SrripView),
}

impl PolicyView {
    /// Number of sets the policy tracks.
    pub open spec fn num_sets(self) -> nat {
        match self {
            PolicyView::Lru(v) => v.timestamps.len(),
            PolicyView::Srrip(v) => v.rrpv.len(),
        }
    }

    /// Number of ways per set the policy tracks.
    pub open spec fn num_ways(self) -> nat {
        match self {
            PolicyView::Lru(v) => v.num_ways,
            PolicyView::Srrip(v) => v.num_ways(),
        }
    }

    /// The policy's own well-formedness.
    pub open spec fn inv(self) -> bool {
        match self {
            PolicyView::Lru(v) => v.inv(),
            PolicyView::Srrip(v) => v.inv(),
        }
    }

    /// The state after `way` of `set` serves `access`; `None` where the LRU
    /// clock would overflow.
    pub open spec fn touched(self, set: int, way: int, access: MemAccess) -> Option<PolicyView> {
        match self {
            PolicyView::Lru(v) => if v.can_touch() {
                Some(PolicyView::Lru(v.touched(set, way)))
            } else {
                None
            },
            PolicyView::Srrip(v) => Some(PolicyView::Srrip(v.touched(set, way, access))),
        }
    }

    /// The way to evict from `set` and the state after choosing it; `None`
    /// where the search never ends.
    pub open spec fn victim(self, set: int) -> Option<(int, PolicyView)> {
        match self {
            PolicyView::Lru(v) => Some((v.victim(set), self)),
            PolicyView::Srrip(v) => match v.victim(set) {
                Some((w, after)) => Some((w, PolicyView::Srrip(after))),
                None => None,
            },
        }
    }
}

impl PolicyView {
    /// A way can be touched: always for SRRIP, and for LRU while its clock
    /// can advance.
    pub open spec fn can_touch(self) -> bool {
        match self {
            PolicyView::Lru(v) => v.can_touch(),
            PolicyView::Srrip(_) => true,
        }
    }
}

/// Choosing a victim again right after choosing it gives the same way and
/// changes nothing more, and it leaves whether a way can be touched as it was.
pub proof fn lemma_victim_repeat(p: PolicyView, set: int)
    requires
        p.inv(),
        0 <= set < p.num_sets(),
        p.victim(set) is Some,
    ensures
        (p.victim(set)->0).1.victim(set) == p.victim(set),
        (p.victim(set)->0).1.can_touch() == p.can_touch(),
{
    match p {
        PolicyView::Lru(v) => {},
        PolicyView::Srrip(v) => {
            lemma_srrip_victim(v, set);
            let (w, after) = v.victim(set)->0;
            lemma_srrip_no_aging_needed(after, set, w);
        },
    }
}

/// Under LRU, the way that a hit or a fill touches becomes the most
/// recently used of its set: its timestamp is later than that of every
/// other way of the set, so in a set of two or more ways it is not the next
/// victim.
pub proof fn lemma_lru_touch_makes_most_recent(p: PolicyView, set: int, way: int, access: MemAccess)
    requires
        p is Lru,
        p.inv(),
        0 <= set < p.num_sets(),
        0 <= way < p.num_ways(),
        p.touched(set, way, access) is Some,
    ensures
        ({
            let q = p.touched(set, way, access)->0;
            &&& q is Lru
            &&& forall|w: int|
                0 <= w < p.num_ways() && w != way ==> #[trigger] q->Lru_0.timestamps[set][w]
                    < q->Lru_0.timestamps[set][way]
            &&& p.num_ways() >= 2 ==> (q.victim(set)->0).0 != way
        }),
{
    let v = p->Lru_0;
    lemma_lru_touch(v, set, way);
    if v.num_ways >= 2 {
        lemma_lru_touched_way_survives(v, set, way);
    }
}

/// Under SRRIP, a hit sets the touched way's RRPV to 0 and a fill sets it
/// to the insertion value; no other value of any set changes.
pub proof fn lemma_srrip_touch_values(p: PolicyView, set: int, way: int, access: MemAccess)
    requires
        p is Srrip,
        p.inv(),
        0 <= set < p.num_sets(),
        0 <= way < p.num_ways(),
    ensures
        ({
            let q = p.touched(set, way, access);
            let v = p->Srrip_0;
            &&& q matches Some(PolicyView::Srrip(v2))
            &&& access.hit == Some(true) ==> q->0->Srrip_0.rrpv[set][way] == 0
            &&& access.hit != Some(true) ==> q->0->Srrip_0.rrpv[set][way] == v.insertion_rrpv
            &&& q->0->Srrip_0.rrpv.len() == v.rrpv.len()
            &&& forall|s: int, w: int|
                0 <= s < v.rrpv.len() && 0 <= w < v.rrpv[s].len() && (s != set || w != way)
                    ==> #[trigger] q->0->Srrip_0.rrpv[s][w] == v.rrpv[s][w]
        }),
{
    let v = p->Srrip_0;
    assert(v.rrpv[set].len() == v.num_ways());
}

/// Touching keeps a well-formed policy well formed, with the same geometry.
pub proof fn lemma_policy_touch(p: PolicyView, set: int, way: int, access: MemAccess)
    requires
        p.inv(),
        0 <= set < p.num_sets(),
        0 <= way < p.num_ways(),
        p.touched(set, way, access) is Some,
    ensures
        p.touched(set, way, access)->0.inv(),
        p.touched(set, way, access)->0.num_sets() == p.num_sets(),
        p.touched(set, way, access)->0.num_ways() == p.num_ways(),
{
    match p {
        PolicyView::Lru(v) => {
            lemma_lru_touch(v, set, way);
        },
        PolicyView::Srrip(v) => {
            let t = v.touched(set, way, access);
            assert(t.rrpv.len() == v.rrpv.len());
            if set == 0 {
                assert(t.rrpv[0].len() == v.rrpv[0].len());
            }
            assert forall|s: int, w: int|
                0 <= s < t.rrpv.len() && 0 <= w < t.rrpv[s].len() implies #[trigger] t.rrpv[s][w]
                    <= t.max_rrpv by {
                if s != set || w != way {
                    assert(t.rrpv[s][w] == v.rrpv[s][w]);
                }
            }
        },
    }
}

/// The victim is a way of the set, and the choice keeps the policy well
/// formed with the same geometry.
pub proof fn lemma_policy_victim(p: PolicyView, set: int)
    requires
        p.inv(),
        0 <= set < p.num_sets(),
        p.victim(set) is Some,
    ensures
        0 <= (p.victim(set)->0).0 < p.num_ways(),
        (p.victim(set)->0).1.inv(),
        (p.victim(set)->0).1.num_sets() == p.num_sets(),
        (p.victim(set)->0).1.num_ways() == p.num_ways(),
{
    match p {
        PolicyView::Lru(v) => {
            lemma_first_min_index(v.timestamps[set]);
        },
        PolicyView::Srrip(v) => {
            lemma_srrip_victim(v, set);
        },
    }
}

impl View for Policy {
    type V = PolicyView;

    open spec fn view(&self) -> PolicyView {
        match self {
            Policy::Lru(p) => PolicyView::Lru(p@),
            Policy::Srrip(p) => PolicyView::Srrip(p@),
        }
    }
}

impl ReplacementPolicy for Policy {
    open spec fn num_sets(&self) -> nat {
        self@.num_sets()
    }

    open spec fn num_ways(&self) -> nat {
        self@.num_ways()
    }

    open spec fn inv(&self) -> bool {
        self@.inv()
    }

    open spec fn can_touch(&self) -> bool {
        match self@ {
            PolicyView::Lru(v) => v.can_touch(),
            PolicyView::Srrip(_) => true,
        }
    }

    open spec fn can_evict(&self, set: int) -> bool {
        self@.victim(set) is Some
    }

    fn update(&mut self, set: usize, way: usize, access: &MemAccess)
        ensures
            Some(final(self)@) == old(self)@.touched(set as int, way as int, *access),
    {
        match self {
            Policy::Lru(p) => p.update(set, way, access),
            Policy::Srrip(p) => p.update(set, way, access),
        }
    }

    fn find_victim(&mut self, set: usize) -> (way: usize)
        ensures
            old(self)@.victim(set as int) == Some((way as int, final(self)@)),
    {
        match self {
            Policy::Lru(p) => p.find_victim(set),
            Policy::Srrip(p) => p.find_victim(set),
        }
    }

    fn install(&mut self, set: usize, way: usize, access: &MemAccess)
        ensures
            Some(final(self)@) == old(self)@.touched(set as int, way as int, *access),
    {
        match self {
            Policy::Lru(p) => p.install(set, way, access),
            Policy::Srrip(p) => p.install(set, way, access),
        }
    }
}

impl Policy {
    /// Whether a way can be touched now (see [`PolicyView::touched`]).
    pub fn touch_ok(&self) -> (r: bool)
        ensures
            r == self@.can_touch(),
            forall|set: int, way: int, access: MemAccess|
                #[trigger] self@.touched(set, way, access) is Some <==> r,
    {
        match self {
            Policy::Lru(p) => p.clock_can_advance(),
            Policy::Srrip(_) => true,
        }
    }

    /// Whether the victim search on `set` ends (see [`PolicyView::victim`]).
    pub fn victim_ok(&self, set: usize) -> (r: bool)
        requires
            self@.inv(),
            set < self@.num_sets(),
        ensures
            r == (self@.victim(set as int) is Some),
    {
        match self {
            Policy::Lru(_) => true,
            Policy::Srrip(p) => p.victim_search_ends(set),
        }
    }
}

/// The message for a policy name that names none.
pub open spec fn unknown_policy_message() -> Seq<char> {
    "Unimplimented Policy"@
}

/// The policy that `config` describes, or the category and text of the
/// error its construction reports.
pub open spec fn policy_for(config: CacheConfig) -> Result<PolicyView, (ErrorKind, Seq<char>)> {
    let num_sets = sets_for(
        config.cache_size as nat,
        config.block_size as nat,
        config.associativity as nat,
    );
    if config.replacement_policy@ == "lru"@ {
        Ok(PolicyView::Lru(LruView::initial(num_sets, config.associativity as nat)))
    } else if config.replacement_policy@ == "srrip"@ {
        match config.repl_settings.srrip {
            Err(m) => Err((ErrorKind::InvalidPolicyConfig, m@)),
            Ok(s) => if s.max_rrpv < s.increment + s.insertion_rrpv {
                Err((ErrorKind::Config, no_aging_room_message()))
            } else {
                Ok(PolicyView::Srrip(SrripView::initial(s, num_sets, config.associativity as nat)))
            },
        }
    } else {
        Err((ErrorKind::InvalidPolicyConfig, unknown_policy_message()))
    }
}

/// Constructs the policy named by `config.replacement_policy`.
///
/// # Errors
/// Returns [`AsterError::InvalidPolicyConfig`] if the policy name is
/// unrecognized or its settings could not be read, and whatever the
/// policy's constructor returns.
pub fn make_policy(config: &CacheConfig) -> (r: Result<Policy, AsterError>)
    requires
        config.block_size * config.associativity > 0,
        config.block_size * config.associativity <= usize::MAX,
    ensures
        match policy_for(*config) {
            Ok(v) => r matches Ok(p) && p@ == v && p@.inv(),
            Err((kind, text)) => r matches Err(e) && error_is(e, kind, text),
        },
{
    let name = config.replacement_policy.as_str();
    if str_equal(name, "lru") {
        let p = Lru::new(
            config.cache_size,
            config.block_size,
            config.associativity,
            &config.repl_settings,
        )?;
        Ok(Policy::Lru(p))
    } else if str_equal(name, "srrip") {
        let p = Srrip::new(
            config.cache_size,
            config.block_size,
            config.associativity,
            &config.repl_settings,
        )?;
        Ok(Policy::Srrip(p))
    } else {
        Err(AsterError::InvalidPolicyConfig(String::from_str("Unimplimented Policy")))
    }
}

} // verus!
