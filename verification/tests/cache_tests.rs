use aster::cache::{AccessResult, Cache, CacheHierarchy};
use aster::config::{
    default_prefetch_settings, default_repl_settings, CacheConfig, Config, PrefetchSettings, ReplSettings,
};
use aster::policies::srrip::SrripSettings;
use aster::prefetchers::stream_buffer::StreamBufferSettings;
use aster::error::ErrorKind;
use aster::trace_reader::MemAccess;

fn dummy_access(addr: u64) -> MemAccess {
    MemAccess { addr, pc: 0, is_write: false, hit: None }
}

fn write_access(addr: u64) -> MemAccess {
    MemAccess { addr, pc: 0, is_write: true, hit: None }
}

fn cache_config(block_size: usize, cache_size: usize, associativity: usize) -> CacheConfig {
    CacheConfig {
        block_size,
        cache_size,
        associativity,
        replacement_policy: "lru".to_string(),
        prefetcher: None,
        repl_settings: default_repl_settings(),
        prefetch_settings: default_prefetch_settings(),
    }
}

fn cache_config_with_policy(
    block_size: usize,
    cache_size: usize,
    associativity: usize,
    policy: &str,
) -> CacheConfig {
    CacheConfig {
        replacement_policy: policy.to_string(),
        ..cache_config(block_size, cache_size, associativity)
    }
}

fn cache_config_with_prefetcher(
    block_size: usize,
    cache_size: usize,
    associativity: usize,
    prefetcher: &str,
) -> CacheConfig {
    CacheConfig {
        prefetcher: Some(prefetcher.to_string()),
        ..cache_config(block_size, cache_size, associativity)
    }
}

fn small_cache(associativity: usize, num_sets: usize) -> Cache {
    match Cache::new(&cache_config(64, 64 * associativity * num_sets, associativity)) {
        Ok(c) => c,
        Err(_) => panic!("valid geometry"),
    }
}

#[test]
fn lru_second_access_hits() {
    let mut cache = small_cache(4, 1);
    let mut a = dummy_access(0x1000);

    assert_eq!(cache.access(&mut a).result, AccessResult::Miss);
    assert_eq!(cache.access(&mut a).result, AccessResult::Hit);
}

#[test]
fn new_computes_num_sets_from_geometry() {
    let cache = match Cache::new(&cache_config(64, 32768, 8)) {
        Ok(c) => c,
        Err(_) => panic!("valid geometry"),
    };
    assert_eq!(cache.num_sets, 64); // 32768 / (64 * 8)
}

#[test]
fn new_rejects_geometry_where_block_times_assoc_exceeds_cache_size() {
    // block_size * associativity (64*8=512) > cache_size (256) -> num_sets would be 0.
    match Cache::new(&cache_config(64, 256, 8)) {
        Err(_) => {}
        Ok(_) => panic!("expected an error, not a panic, for invalid geometry"),
    }
}

#[test]
fn new_rejects_unknown_replacement_policy() {
    match Cache::new(&cache_config_with_policy(64, 32768, 8, "not_a_real_policy")) {
        Err(e) => assert_eq!(e.kind(), ErrorKind::InvalidPolicyConfig),
        Ok(_) => panic!("expected an error for an unrecognized replacement policy"),
    }
}

#[test]
fn new_rejects_unknown_prefetcher() {
    match Cache::new(&cache_config_with_prefetcher(64, 32768, 8, "not_a_real_prefetcher")) {
        Err(e) => assert_eq!(e.kind(), ErrorKind::Config),
        Ok(_) => panic!("expected an error for an unrecognized prefetcher"),
    }
}

#[test]
fn lru_evicts_the_correct_victim_once_associativity_is_full() {
    let mut cache = small_cache(2, 1);
    let (a, b, c) = (0x0000u64, 0x0040u64, 0x0080u64);

    assert_eq!(cache.access(&mut dummy_access(a)).result, AccessResult::Miss);
    assert_eq!(cache.access(&mut dummy_access(b)).result, AccessResult::Miss);
    // a and b now fill both ways; a is least recently used.
    assert_eq!(cache.access(&mut dummy_access(c)).result, AccessResult::Miss); // evicts a

    // Check b before re-probing a: a is now absent, so probing it is
    // itself a miss that would trigger a further eviction (of b, being
    // the new LRU) -- probe order matters here.
    assert_eq!(
        cache.access(&mut dummy_access(b)).result,
        AccessResult::Hit,
        "b should still be resident"
    );
    assert_eq!(
        cache.access(&mut dummy_access(a)).result,
        AccessResult::Miss,
        "a should have been evicted"
    );
}

#[test]
fn different_sets_do_not_interfere() {
    let mut cache = small_cache(1, 2); // 1-way, 2 sets
    let (a, b) = (0x0000u64, 0x0040u64); // block 0 -> set 0, block 1 -> set 1

    cache.access(&mut dummy_access(a));
    cache.access(&mut dummy_access(b));

    assert_eq!(cache.access(&mut dummy_access(a)).result, AccessResult::Hit);
    assert_eq!(cache.access(&mut dummy_access(b)).result, AccessResult::Hit);
}

#[test]
fn evicting_a_clean_line_produces_no_writeback() {
    let mut cache = small_cache(1, 1);
    cache.access(&mut dummy_access(0x0000)); // clean read
    let outcome = cache.access(&mut dummy_access(0x0040)); // evicts the clean line
    assert_eq!(outcome.writeback_addr, None);
}

#[test]
fn evicting_a_dirty_line_returns_its_block_aligned_address() {
    let mut cache = small_cache(1, 1);
    cache.access(&mut write_access(0x0000)); // dirty write
    let outcome = cache.access(&mut write_access(0x0040)); // evicts the dirty line
    assert_eq!(outcome.writeback_addr, Some(0x0000));
}

#[test]
fn writeback_to_an_absent_address_with_free_capacity_installs_without_evicting() {
    let mut cache = small_cache(2, 1);
    let outcome = cache.writeback(0x0000);
    assert_eq!(outcome.result, AccessResult::Miss);
    assert_eq!(outcome.writeback_addr, None);
}

#[test]
fn writeback_to_a_resident_address_marks_it_dirty_without_evicting() {
    let mut cache = small_cache(1, 1);
    cache.access(&mut dummy_access(0x0000)); // clean read, installs the line
    let outcome = cache.writeback(0x0000);
    assert_eq!(outcome.result, AccessResult::Hit);
    assert_eq!(outcome.writeback_addr, None);

    // The address is now dirty purely from the writeback call: evicting
    // it should surface a writeback_addr where a plain read wouldn't have.
    let evict = cache.access(&mut dummy_access(0x0040));
    assert_eq!(evict.writeback_addr, Some(0x0000));
}

#[test]
fn writeback_to_an_absent_address_that_evicts_a_dirty_line_reports_that_eviction() {
    let mut cache = small_cache(1, 1);
    cache.access(&mut write_access(0x0000)); // dirty
    let outcome = cache.writeback(0x0040); // absent, evicts 0x0000
    assert_eq!(outcome.result, AccessResult::Miss);
    assert_eq!(outcome.writeback_addr, Some(0x0000));
}

#[test]
fn install_prefetch_on_a_fresh_address_marks_the_line_prefetched() {
    let mut cache = small_cache(1, 1);
    cache.install_prefetch(0x0000);
    assert!(cache.line(0, 0).valid);
    assert!(cache.line(0, 0).prefetched);
    assert_eq!(cache.line(0, 0).tag, 0);
}

#[test]
fn install_prefetch_on_an_already_resident_address_is_a_no_op() {
    let mut cache = small_cache(2, 1);
    cache.access(&mut dummy_access(0x0000));
    cache.access(&mut dummy_access(0x0040));

    cache.install_prefetch(0x0000); // already resident, must not disturb 0x0040

    assert_eq!(cache.access(&mut dummy_access(0x0040)).result, AccessResult::Hit);
}

#[test]
fn demand_hit_on_a_prefetched_line_credits_prefetch_hits_and_clears_the_flag() {
    let mut cache = small_cache(1, 1);
    cache.install_prefetch(0x0000);
    assert_eq!(cache.get_prefetch_hits(), 0);

    cache.access(&mut dummy_access(0x0000));

    assert_eq!(cache.get_prefetch_hits(), 1);
    assert!(!cache.line(0, 0).prefetched);
}

#[test]
fn evicting_an_unused_prefetched_line_credits_prefetch_unused() {
    let mut cache = small_cache(1, 1);
    cache.install_prefetch(0x0000);
    assert_eq!(cache.get_prefetch_unused(), 0);

    cache.access(&mut dummy_access(0x0040)); // evicts the never-demanded prefetch

    assert_eq!(cache.get_prefetch_unused(), 1);
}

#[test]
fn stats_mirrors_hit_and_miss_getters() {
    let mut cache = small_cache(1, 1);
    cache.access(&mut dummy_access(0x0000)); // miss
    cache.access(&mut dummy_access(0x0000)); // hit

    let stats = cache.stats();
    assert_eq!(stats.hits, cache.get_hits() as u64);
    assert_eq!(stats.misses, cache.get_misses() as u64);
    assert_eq!((stats.hits, stats.misses), (1, 1));
}

#[test]
fn reset_stats_zeroes_counters_but_preserves_cache_contents() {
    let mut cache = small_cache(1, 1);
    cache.access(&mut dummy_access(0x0000)); // miss, installs the line

    cache.reset_stats();
    assert_eq!(cache.get_hits(), 0);
    assert_eq!(cache.get_misses(), 0);
    assert_eq!(cache.get_accesses(), 0);

    // the line itself must still be resident.
    assert_eq!(cache.access(&mut dummy_access(0x0000)).result, AccessResult::Hit);
    assert_eq!(cache.get_hits(), 1);
}

fn full_config(l1i: CacheConfig, l1d: CacheConfig, l2: CacheConfig, llc: CacheConfig) -> Config {
    Config { llc, l2, l1i, l1d }
}

fn uniform_config(block_size: usize, cache_size: usize, associativity: usize) -> Config {
    full_config(
        cache_config(block_size, cache_size, associativity),
        cache_config(block_size, cache_size, associativity),
        cache_config(block_size, cache_size, associativity),
        cache_config(block_size, cache_size, associativity),
    )
}

fn hierarchy(config: Config) -> CacheHierarchy {
    match CacheHierarchy::new(config) {
        Ok(h) => h,
        Err(_) => panic!("valid hierarchy"),
    }
}

#[test]
fn hierarchy_new_builds_all_four_levels() {
    let hierarchy = hierarchy(uniform_config(64, 32768, 8));
    assert_eq!(hierarchy.l1i.num_sets, 64);
    assert_eq!(hierarchy.l1d.num_sets, 64);
    assert_eq!(hierarchy.l2.num_sets, 64);
    assert_eq!(hierarchy.llc.num_sets, 64);
}

#[test]
fn hierarchy_new_propagates_an_invalid_l1i_config() {
    let config = full_config(
        cache_config(64, 256, 8), // invalid: block*assoc > cache_size
        cache_config(64, 32768, 8),
        cache_config(64, 32768, 8),
        cache_config(64, 32768, 8),
    );
    assert!(CacheHierarchy::new(config).is_err());
}

#[test]
fn hierarchy_new_propagates_an_invalid_l2_config() {
    let config = full_config(
        cache_config(64, 32768, 8),
        cache_config(64, 32768, 8),
        cache_config(64, 256, 8), // invalid
        cache_config(64, 32768, 8),
    );
    assert!(CacheHierarchy::new(config).is_err());
}

#[test]
fn access_instruction_never_touches_l1d() {
    let mut hierarchy = hierarchy(uniform_config(64, 32768, 8));
    hierarchy.access_instruction(0x1000);
    hierarchy.access_instruction(0x1000);
    hierarchy.access_instruction(0x2000);

    assert_eq!(hierarchy.l1d.get_hits(), 0);
    assert_eq!(hierarchy.l1d.get_misses(), 0);
}

#[test]
fn access_instruction_cascades_l1i_to_l2_to_llc_on_miss() {
    // l1i: 1 way / 1 set -> trivially evicted by any second address.
    // l2: 1 way / 4 sets -> retains a/b in different sets.
    let config = full_config(
        cache_config(64, 64, 1),
        cache_config(64, 32768, 8), // l1d, irrelevant here
        cache_config(64, 256, 1),   // l2: 4 sets, 1 way each
        cache_config(64, 32768, 8), // llc, generous
    );
    let mut hierarchy = hierarchy(config);
    let a = 0x0000u64; // l2 set 0
    let b = 0x0040u64; // l2 set 1 (block 1 & 3 == 1)

    hierarchy.access_instruction(a); // cold: l1i miss, l2 miss, llc miss
    assert_eq!(
        (hierarchy.l1i.get_misses(), hierarchy.l2.get_misses(), hierarchy.llc.get_misses()),
        (1, 1, 1)
    );

    hierarchy.access_instruction(b); // l1i (1-way) evicts a; l2 (different set) misses fresh for b
    assert_eq!(
        (hierarchy.l1i.get_misses(), hierarchy.l2.get_misses(), hierarchy.llc.get_misses()),
        (2, 2, 2)
    );

    hierarchy.access_instruction(a); // l1i misses again (b evicted a's slot), but l2 still holds a
    assert_eq!(hierarchy.l1i.get_misses(), 3);
    assert_eq!(hierarchy.l2.get_hits(), 1, "a should still be resident in l2");
    assert_eq!(hierarchy.llc.get_misses(), 2, "llc must not be reached once l2 hits");
}

#[test]
fn access_data_read_hits_never_reach_l2_or_llc() {
    let mut hierarchy = hierarchy(uniform_config(64, 32768, 8));
    hierarchy.access_data(&mut dummy_access(0x1000)); // cold miss: cascades to l2 and llc once
    hierarchy.access_data(&mut dummy_access(0x1000)); // repeated hit: l1d only
    hierarchy.access_data(&mut dummy_access(0x1000));

    assert_eq!((hierarchy.l1d.get_hits(), hierarchy.l1d.get_misses()), (2, 1));
    assert_eq!((hierarchy.l2.get_hits(), hierarchy.l2.get_misses()), (0, 1));
    assert_eq!((hierarchy.llc.get_hits(), hierarchy.llc.get_misses()), (0, 1));
}

#[test]
fn access_data_cascades_a_dirty_l1d_eviction_through_a_full_l2_into_llc() {
    // l1d, l2: 1 way / 1 set each, so any second distinct address forces
    // an eviction. llc: 4 ways / 1 set, generous enough not to evict.
    let config = full_config(
        cache_config(64, 32768, 8), // l1i, unused here
        cache_config(64, 64, 1),    // l1d
        cache_config(64, 64, 1),    // l2
        cache_config(64, 256, 4),   // llc
    );
    let mut hierarchy = hierarchy(config);
    let (w, z, x) = (0x0000u64, 0x0040u64, 0x0080u64);

    // Pre-seed l1d with a dirty W and l2 with a dirty Z, bypassing
    // access_data so the next access_data call forces both a l1d
    // eviction *and* a full l2 to evict something of its own in the
    // same step -- exercising the nested writeback-cascade branch.
    hierarchy.l1d.access(&mut write_access(w));
    hierarchy.l2.access(&mut write_access(z));

    hierarchy.access_data(&mut write_access(x));

    // l1d now holds only x.
    assert!(hierarchy.l1d.line(0, 0).valid);
    assert_eq!(hierarchy.l1d.line(0, 0).tag, x / 64);
    assert!(hierarchy.l1d.line(0, 0).dirty);

    // l2 now holds only x (w passed through and was itself evicted by x).
    assert_eq!(hierarchy.l2.line(0, 0).tag, x / 64);
    assert!(hierarchy.l2.line(0, 0).dirty);

    // llc must have absorbed both evicted dirty lines: w (via l1d's
    // writeback cascading through a full l2) and z (evicted from l2 to
    // make room for w), plus x itself once l2 missed for the demand access.
    let llc_lines: Vec<_> = (0..4).map(|way| hierarchy.llc.line(0, way)).collect();
    let llc_tags: Vec<u64> = llc_lines.iter().filter(|l| l.valid).map(|l| l.tag).collect();
    assert_eq!(llc_tags.len(), 3);
    assert!(llc_tags.contains(&(w / 64)));
    assert!(llc_tags.contains(&(z / 64)));
    assert!(llc_tags.contains(&(x / 64)));
    assert!(llc_lines.iter().all(|l| !l.valid || l.dirty));
}

#[test]
fn reset_stats_should_also_reset_l1i() {
    let mut hierarchy = hierarchy(uniform_config(64, 32768, 8));
    hierarchy.access_instruction(0x1000);
    hierarchy.access_instruction(0x1000);

    hierarchy.reset_stats();

    assert_eq!(hierarchy.l1i.get_hits(), 0, "l1i hits should be cleared like every other level");
    assert_eq!(
        hierarchy.l1i.get_misses(),
        0,
        "l1i misses should be cleared like every other level"
    );
}

#[test]
fn try_access_serves_a_defined_access() {
    let mut cache = small_cache(2, 1);
    let mut a = dummy_access(0x1000);
    let first = cache.try_access(&mut a).unwrap();
    assert_eq!(first.result, AccessResult::Miss);
    assert_eq!(a.hit, Some(false));
    let mut b = dummy_access(0x1000);
    assert_eq!(cache.try_access(&mut b).unwrap().result, AccessResult::Hit);
    assert_eq!(cache.get_hits(), 1);
    assert_eq!(cache.get_misses(), 1);
    assert!(cache.try_writeback(0x2000).is_some());
    assert!(cache.try_install_prefetch(0x3000));
    assert!(cache.line(0, 0).valid || cache.line(0, 1).valid);
}

#[test]
fn try_access_refuses_a_victim_search_that_never_ends() {
    // increment 0 and insertion below the maximum: once the set is full no
    // way ever reaches the maximum, so no victim can be found.
    let config = CacheConfig {
        replacement_policy: "srrip".to_string(),
        repl_settings: ReplSettings {
            srrip: Ok(SrripSettings { max_rrpv: 3, insertion_rrpv: 2, increment: 0 }),
            summary: String::new(),
        },
        ..cache_config(64, 128, 2)
    };
    let mut cache = match Cache::new(&config) {
        Ok(c) => c,
        Err(_) => panic!("valid settings"),
    };
    assert!(cache.try_access(&mut dummy_access(0x0)).is_some());
    assert!(cache.try_access(&mut dummy_access(0x40)).is_some());
    assert!(cache.try_access(&mut dummy_access(0x80)).is_none());
}

#[test]
fn try_access_refuses_a_prefetcher_without_slots() {
    let config = CacheConfig {
        prefetcher: Some("stream_buffer".to_string()),
        prefetch_settings: PrefetchSettings {
            stream_buffer: Ok(StreamBufferSettings { degree: 3, num_streams: 0 }),
            summary: String::new(),
        },
        ..cache_config(64, 1024, 2)
    };
    let mut cache = match Cache::new(&config) {
        Ok(c) => c,
        Err(_) => panic!("valid settings"),
    };
    assert!(cache.try_access(&mut dummy_access(0x1000)).is_none());
    assert!(cache.try_writeback(0x2000).is_some());
}
