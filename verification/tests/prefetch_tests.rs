use aster::config::{default_prefetch_settings, default_repl_settings, CacheConfig, PrefetchSettings};
use aster::error::ErrorKind;
use aster::prefetch::{prefetcher_init, Prefetcher};
use aster::prefetchers::stream_buffer::{StreamBuffer, StreamBufferSettings};

fn cfg(prefetcher: Option<&str>) -> CacheConfig {
    CacheConfig {
        block_size: 64,
        cache_size: 32768,
        associativity: 8,
        replacement_policy: "lru".to_string(),
        prefetcher: prefetcher.map(str::to_string),
        repl_settings: default_repl_settings(),
        prefetch_settings: default_prefetch_settings(),
    }
}

#[test]
fn no_prefetcher_configured_returns_none() {
    let result = prefetcher_init(&cfg(None)).unwrap();
    assert!(result.is_none());
}

#[test]
fn stream_buffer_name_builds_a_prefetcher() {
    let result = prefetcher_init(&cfg(Some("stream_buffer"))).unwrap();
    assert!(result.is_some());
}

#[test]
fn unknown_prefetcher_name_is_an_error() {
    match prefetcher_init(&cfg(Some("not_a_real_prefetcher"))) {
        Err(e) => assert_eq!(e.kind(), ErrorKind::Config),
        Ok(_) => panic!("expected an error for an unrecognized prefetcher name"),
    }
}

const BLOCK_SIZE: usize = 64;

fn settings(degree: usize, num_streams: usize) -> PrefetchSettings {
    PrefetchSettings {
        stream_buffer: Ok(StreamBufferSettings { degree, num_streams }),
        summary: String::new(),
    }
}

fn buffer(degree: usize, num_streams: usize) -> StreamBuffer {
    match StreamBuffer::new(BLOCK_SIZE, &settings(degree, num_streams)) {
        Ok(b) => b,
        Err(_) => panic!("valid settings"),
    }
}

#[test]
fn stream_buffer_defaults_and_unreadable_settings() {
    let sb = match StreamBuffer::new(BLOCK_SIZE, &default_prefetch_settings()) {
        Ok(b) => b,
        Err(_) => panic!("defaults are valid"),
    };
    assert_eq!(sb.degree(), 3);
    assert_eq!(sb.streams().len(), 8);
    assert!(sb.streams().iter().all(|e| !e.active));
    let bad = PrefetchSettings { stream_buffer: Err("invalid type".to_string()), summary: String::new() };
    match StreamBuffer::new(BLOCK_SIZE, &bad) {
        Err(e) => assert_eq!(e.kind(), ErrorKind::InvalidPolicyConfig),
        Ok(_) => panic!("unreadable settings must be rejected"),
    }
}

#[test]
fn defaults_are_degree_three_num_streams_eight() {
    let sb = match StreamBuffer::new(BLOCK_SIZE, &default_prefetch_settings()) {
        Ok(b) => b,
        Err(_) => panic!("defaults are valid"),
    };
    assert_eq!(sb.degree(), 3);
    assert_eq!(sb.streams().len(), 8);
}

#[test]
fn settings_are_read_from_toml() {
    let sb = buffer(5, 2);
    assert_eq!(sb.degree(), 5);
    assert_eq!(sb.streams().len(), 2);
}

#[test]
fn first_observation_predicts_nothing_and_allocates_a_stream() {
    let mut sb = buffer(3, 4);
    let result = sb.observe(0x1000, 0, false);
    assert!(result.is_empty());
    assert_eq!(sb.streams()[0].last_addr, 0x1000);
    assert_eq!(sb.streams()[0].stride, None);
    assert!(sb.streams()[0].active);
}

#[test]
fn sequential_stride_confirms_on_third_access_then_predicts_ahead() {
    let mut sb = buffer(3, 2);
    let base = 0x2000u64;
    let step = BLOCK_SIZE as u64;

    assert!(sb.observe(base, 0, false).is_empty());
    assert!(sb.observe(base + step, 0, false).is_empty());
    let predicted = sb.observe(base + 2 * step, 0, false);

    assert_eq!(predicted, vec![base + 3 * step, base + 4 * step, base + 5 * step]);
    assert!(sb.streams()[0].confirmed);
    let next = sb.observe(base + 3 * step, 0, false);
    assert_eq!(next, vec![base + 4 * step, base + 5 * step, base + 6 * step]);
}

#[test]
fn non_matching_access_does_not_confirm_a_fresh_stream() {
    let mut sb = buffer(3, 1);
    assert!(sb.observe(0x4000, 0, false).is_empty());
    assert!(sb.observe(0x9000, 0, false).is_empty());
    assert!(!sb.streams()[0].confirmed);
}

#[test]
fn non_unit_stride_pattern_should_eventually_be_predicted() {
    let mut sb = buffer(2, 2);
    let base = 0x5000u64;
    let step = 2 * BLOCK_SIZE as u64;

    sb.observe(base, 0, false);
    sb.observe(base + step, 0, false);
    let predicted = sb.observe(base + 2 * step, 0, false);

    assert_eq!(predicted, vec![base + 3 * step, base + 4 * step]);
}

#[test]
fn a_changed_stride_resets_confirmation() {
    let mut sb = buffer(2, 2);
    sb.observe(0x5000, 9, false);
    sb.observe(0x5080, 9, false); // stride 2 blocks
    assert_eq!(sb.observe(0x5100, 9, false), vec![0x5180, 0x5200]); // repeated: confirmed
    assert!(sb.streams()[0].confirmed);
    assert!(sb.observe(0x5140, 9, false).is_empty()); // stride 1: mismatch
    assert!(!sb.streams()[0].confirmed);
    assert_eq!(sb.streams()[0].stride, Some(1));
}

#[test]
fn round_robin_replaces_slots_in_turn() {
    let mut sb = buffer(3, 2);
    sb.observe(0x10000, 1, false);
    assert_eq!(sb.next_evict(), 1);
    sb.observe(0x20000, 2, false);
    assert_eq!(sb.streams().len(), 2);
    assert_eq!(sb.next_evict(), 0);
    sb.observe(0x30000, 3, false); // replaces slot 0
    assert_eq!(sb.next_evict(), 1);
    assert_eq!(sb.streams()[0].pc, 3);
    sb.observe(0x40000, 4, false); // replaces slot 1
    assert_eq!(sb.next_evict(), 0);
    assert_eq!(sb.streams()[1].pc, 4);
}

#[test]
fn negative_strides_predict_downwards() {
    let mut sb = buffer(2, 1);
    let base = 0x9000u64;
    sb.observe(base, 5, false);
    sb.observe(base - 64, 5, false);
    assert_eq!(sb.observe(base - 128, 5, false), vec![base - 192, base - 256]);
}
