use aster::cache::CacheLine;
use aster::config::{default_prefetch_settings, default_repl_settings, CacheConfig, ReplSettings};
use aster::error::ErrorKind;
use aster::policies::lru::Lru;
use aster::policies::srrip::{Srrip, SrripSettings};
use aster::policy::{make_policy, Policy, ReplacementPolicy};
use aster::trace_reader::MemAccess;

fn access() -> MemAccess {
    MemAccess { addr: 0, pc: 0, is_write: false, hit: None }
}

fn empty_settings() -> ReplSettings {
    default_repl_settings()
}

fn lru(cache_size: usize, block_size: usize, associativity: usize) -> Lru {
    match Lru::new(cache_size, block_size, associativity, &empty_settings()) {
        Ok(l) => l,
        Err(_) => panic!("lru never fails"),
    }
}

#[test]
fn cold_set_evicts_way_zero_first() {
    let mut lru = lru(32768, 64, 4);
    assert_eq!(lru.find_victim(0), 0);
}

#[test]
fn evicts_least_recently_used_way() {
    let mut lru = lru(32768, 64, 4);
    // touch every way except way 1, in order 0, 2, 3 -- way 1 remains oldest.
    lru.update(0, 0, &access());
    lru.update(0, 2, &access());
    lru.update(0, 3, &access());
    assert_eq!(lru.find_victim(0), 1);
}

#[test]
fn recently_touched_way_is_not_evicted() {
    let mut lru = lru(32768, 64, 2);
    lru.update(0, 0, &access());
    assert_eq!(lru.find_victim(0), 1, "way 1 never touched, should still be oldest");
    lru.update(0, 1, &access());
    assert_eq!(lru.find_victim(0), 0, "way 0 is now oldest");
}

#[test]
fn lru_sets_are_independent() {
    let mut lru = lru(65536, 64, 2);
    lru.update(0, 0, &access());
    lru.update(0, 1, &access());
    // set 1 untouched: way 0 should still be its victim.
    assert_eq!(lru.find_victim(1), 0);
}

#[test]
fn lru_install_behaves_like_update() {
    let mut lru = lru(32768, 64, 2);
    lru.install(0, 0, &access());
    assert_eq!(lru.find_victim(0), 1, "installed way 0 should no longer be the victim");
}

#[test]
fn settings_value_is_ignored() {
    // Lru has no tunables; any settings value should be accepted without error.
    let settings = ReplSettings {
        srrip: Ok(SrripSettings { max_rrpv: 3, insertion_rrpv: 2, increment: 1 }),
        summary: "unused=5".to_string(),
    };
    assert!(Lru::new(32768, 64, 4, &settings).is_ok());
    let unreadable = ReplSettings { srrip: Err("bad".to_string()), summary: "x=y".to_string() };
    assert!(Lru::new(32768, 64, 4, &unreadable).is_ok());
}

#[test]
fn lru_timestamps_start_at_the_way_index_and_touches_advance_the_clock() {
    let mut lru = lru(128, 64, 2);
    assert_eq!((lru.timestamp(0, 0), lru.timestamp(0, 1)), (0, 1));
    lru.update(0, 0, &access());
    assert_eq!(lru.timestamp(0, 0), 3);
    lru.install(0, 1, &access());
    assert_eq!(lru.timestamp(0, 1), 4);
}

fn settings(max_rrpv: u8, insertion_rrpv: u8, increment: u8) -> ReplSettings {
    ReplSettings {
        srrip: Ok(SrripSettings { max_rrpv, insertion_rrpv, increment }),
        summary: String::new(),
    }
}

fn hit() -> MemAccess {
    MemAccess { addr: 0, pc: 0, is_write: false, hit: Some(true) }
}

fn miss() -> MemAccess {
    MemAccess { addr: 0, pc: 0, is_write: false, hit: Some(false) }
}

fn srrip(cache_size: usize, block_size: usize, associativity: usize, s: &ReplSettings) -> Srrip {
    match Srrip::new(cache_size, block_size, associativity, s) {
        Ok(p) => p,
        Err(_) => panic!("valid settings"),
    }
}

#[test]
fn default_settings_construct_successfully() {
    // max_rrpv=3, insertion_rrpv=2, increment=1: 3 >= 1+2, so this must pass.
    assert!(Srrip::new(32768, 64, 8, &empty_settings()).is_ok());
}

#[test]
fn rejects_settings_where_max_rrpv_leaves_no_aging_room() {
    // max_rrpv (2) < increment (1) + insertion_rrpv (2) -> invalid.
    let s = settings(2, 2, 1);
    assert!(Srrip::new(32768, 64, 8, &s).is_err());
}

#[test]
fn accepts_settings_at_the_validation_boundary() {
    // max_rrpv exactly equal to increment + insertion_rrpv is accepted (not "<").
    let s = settings(3, 2, 1);
    assert!(Srrip::new(32768, 64, 8, &s).is_ok());
}

#[test]
fn srrip_reports_unreadable_settings_and_sums_that_exceed_a_byte() {
    let unreadable = ReplSettings { srrip: Err("invalid type".to_string()), summary: String::new() };
    match Srrip::new(32768, 64, 8, &unreadable) {
        Err(e) => {
            assert_eq!(e.kind(), ErrorKind::InvalidPolicyConfig);
            assert_eq!(e.message(), "Invalid replacement policy config: invalid type");
        }
        Ok(_) => panic!("unreadable settings must be rejected"),
    }
    match Srrip::new(32768, 64, 8, &settings(255, 200, 100)) {
        Err(e) => assert_eq!(e.kind(), ErrorKind::Config),
        Ok(_) => panic!("increment + insertion_rrpv above max_rrpv must be rejected"),
    }
}

#[test]
fn hit_resets_rrpv_to_zero() {
    let mut srrip = srrip(32768, 64, 4, &empty_settings());
    srrip.update(0, 0, &hit());
    assert_eq!(srrip.rrpv_values[0][0], 0);
}

#[test]
fn miss_inserts_at_insertion_rrpv() {
    let s = settings(3, 2, 1);
    let mut srrip = srrip(32768, 64, 4, &s);
    srrip.update(0, 0, &miss());
    assert_eq!(srrip.rrpv_values[0][0], 2);
}

#[test]
fn srrip_install_behaves_like_update() {
    let mut srrip = srrip(32768, 64, 4, &empty_settings());
    srrip.install(0, 0, &hit());
    assert_eq!(srrip.rrpv_values[0][0], 0);
}

#[test]
fn find_victim_picks_existing_max_rrpv_line_without_aging() {
    let mut srrip = srrip(32768, 64, 3, &empty_settings());
    // [0, 3, 1] -- way 1 is already at max_rrpv (3), so no aging pass is needed.
    srrip.rrpv_values[0] = vec![0, 3, 1];
    assert_eq!(srrip.find_victim(0), 1);
    assert_eq!(srrip.rrpv_values[0], vec![0, 3, 1], "no line should have aged");
}

#[test]
fn find_victim_ages_all_lines_until_one_reaches_max_rrpv() {
    let mut srrip = srrip(32768, 64, 3, &empty_settings());
    srrip.rrpv_values[0] = vec![0, 1, 0];
    assert_eq!(srrip.find_victim(0), 1);
    assert_eq!(srrip.rrpv_values[0], vec![2, 3, 2]);
}

#[test]
fn find_victim_stops_aging_at_max_rrpv_cap() {
    let mut srrip = srrip(32768, 64, 2, &empty_settings());
    srrip.rrpv_values[0] = vec![0, 0];
    // Neither line starts at max_rrpv (3); repeated aging must cap at 3,
    // not overflow past it.
    let victim = srrip.find_victim(0);
    assert!(srrip.rrpv_values[0][victim] == 3);
    assert!(srrip.rrpv_values[0].iter().all(|&v| v <= 3));
}

#[test]
fn srrip_sets_are_independent() {
    let mut srrip = srrip(65536, 64, 2, &empty_settings());
    srrip.rrpv_values[0] = vec![3, 0];
    srrip.rrpv_values[1] = vec![0, 3];
    assert_eq!(srrip.find_victim(0), 0);
    assert_eq!(srrip.find_victim(1), 1);
}

#[test]
fn srrip_aging_caps_a_large_increment_at_max_rrpv() {
    let mut srrip = srrip(192, 64, 3, &settings(250, 10, 240));
    srrip.rrpv_values[0] = vec![0, 5, 10];
    // one aging pass: 0+240, 5+240 and 10+240 (capped at 250)
    assert_eq!(srrip.find_victim(0), 2);
    assert_eq!(srrip.rrpv_values[0], vec![240, 245, 250]);
    assert_eq!(srrip.rrpv(0, 1), 245);
}

fn cache_config(policy: &str) -> CacheConfig {
    CacheConfig {
        block_size: 64,
        cache_size: 4096,
        associativity: 4,
        replacement_policy: policy.to_string(),
        prefetcher: None,
        repl_settings: default_repl_settings(),
        prefetch_settings: default_prefetch_settings(),
    }
}

#[test]
fn make_policy_picks_the_named_policy() {
    assert!(matches!(make_policy(&cache_config("lru")), Ok(Policy::Lru(_))));
    assert!(matches!(make_policy(&cache_config("srrip")), Ok(Policy::Srrip(_))));
    match make_policy(&cache_config("drrip")) {
        Err(e) => {
            assert_eq!(e.kind(), ErrorKind::InvalidPolicyConfig);
            assert_eq!(e.message(), "Invalid replacement policy config: Unimplimented Policy");
        }
        Ok(_) => panic!("unknown policy name must be rejected"),
    }
}

#[test]
fn cache_line_is_plain_data() {
    let l = CacheLine { valid: true, dirty: false, prefetched: true, tag: 7 };
    let m = l;
    assert_eq!(l, m);
}
