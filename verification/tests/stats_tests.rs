use aster::cache::CacheHierarchy;
use aster::config::{default_prefetch_settings, default_repl_settings, CacheConfig, Config};
use aster::stats::SimStats;
use aster::trace_reader::MemAccess;

fn cache_config() -> CacheConfig {
    CacheConfig {
        block_size: 64,
        cache_size: 32768,
        associativity: 8,
        replacement_policy: "lru".to_string(),
        prefetcher: None,
        repl_settings: default_repl_settings(),
        prefetch_settings: default_prefetch_settings(),
    }
}

fn hierarchy() -> CacheHierarchy {
    let config = Config { llc: cache_config(), l2: cache_config(), l1i: cache_config(), l1d: cache_config() };
    match CacheHierarchy::new(config) {
        Ok(h) => h,
        Err(_) => panic!("valid hierarchy"),
    }
}

#[test]
fn collect_snapshots_every_level_and_the_instruction_count() {
    let mut h = hierarchy();
    h.access_instruction(0x1000);
    h.access_data(&mut MemAccess { addr: 0x2000, pc: 0, is_write: false, hit: None });

    let stats = SimStats::collect(&h, 42);
    assert_eq!(stats.instructions_simulated, 42);
    assert_eq!(stats.l1i.misses, 1);
    assert_eq!(stats.l1d.misses, 1);
}

#[test]
fn collect_mirrors_every_level_after_hits() {
    let mut h = hierarchy();
    h.access_instruction(0x1000);
    h.access_instruction(0x1000);
    h.access_data(&mut MemAccess { addr: 0x2000, pc: 0, is_write: false, hit: None });
    h.access_data(&mut MemAccess { addr: 0x2000, pc: 0, is_write: false, hit: None });
    let stats = SimStats::collect(&h, 7);
    assert_eq!((stats.l1i.hits, stats.l1i.misses), (1, 1));
    assert_eq!((stats.l1d.hits, stats.l1d.misses), (1, 1));
    assert_eq!((stats.l2.hits, stats.l2.misses), (0, 2));
    assert_eq!((stats.llc.hits, stats.llc.misses), (0, 2));
}
