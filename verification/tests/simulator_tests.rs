use aster::cache::CacheHierarchy;
use aster::config::{default_prefetch_settings, default_repl_settings, CacheConfig, Config, PrefetchSettings};
use aster::prefetchers::stream_buffer::StreamBufferSettings;
use aster::simulator::{SimulationRun, HEARTBEAT_INTERVAL};
use aster::stats::SimStats;
use aster::trace_reader::InputInstruction;

fn cache_config(policy: &str) -> CacheConfig {
    CacheConfig {
        block_size: 64,
        cache_size: 4096,
        associativity: 4,
        replacement_policy: policy.to_string(),
        prefetcher: None,
        repl_settings: default_repl_settings(),
        prefetch_settings: default_prefetch_settings(),
    }
}

fn config_with_l2_policy(policy: &str) -> Config {
    Config {
        llc: cache_config("lru"),
        l2: cache_config(policy),
        l1i: cache_config("lru"),
        l1d: cache_config("lru"),
    }
}

fn instruction(ip: u64, addr: u64) -> InputInstruction {
    InputInstruction {
        ip,
        is_branch: 0,
        branch_taken: 0,
        dst_regs: [0, 0],
        src_regs: [0, 0, 0, 0],
        dst_mem: [0, 0],
        src_mem: [addr, 0, 0, 0],
    }
}

/// `n` instructions, each touching a distinct, never-repeated data
/// address (guaranteed cold miss) at a distinct ip.
fn distinct_instructions(n: u64, addr_base: u64) -> Vec<(u64, u64)> {
    (0..n).map(|i| (0x1000 + i * 4, addr_base + i * 4096)).collect()
}

/// Replays `instructions` the way the simulator's loop does: step until the
/// run is done or the trace ends, then collect the final stats.
fn run(config: Config, instructions: &[(u64, u64)], warmup: usize, simulation: usize) -> SimStats {
    let hierarchy = match CacheHierarchy::new(config) {
        Ok(h) => h,
        Err(_) => panic!("valid hierarchy"),
    };
    let mut sim = SimulationRun::new(hierarchy, warmup, simulation);
    for &(ip, addr) in instructions {
        if sim.is_done() {
            break;
        }
        if sim.step(&instruction(ip, addr)).done {
            break;
        }
    }
    sim.finish()
}

fn hit_rate(hits: u64, misses: u64) -> f64 {
    let total = hits + misses;
    if total == 0 {
        return 0.0;
    }
    hits as f64 / total as f64 * 100.0
}

#[test]
fn run_resets_stats_at_the_warmup_boundary() {
    let stats = run(config_with_l2_policy("lru"), &distinct_instructions(5, 0x10000), 2, 3);

    assert_eq!(stats.instructions_simulated, 3);
    assert_eq!(stats.l1d.misses, 3, "only the 3 post-warmup accesses should be counted");
}

#[test]
fn run_stops_early_when_trace_is_shorter_than_warmup_plus_simulation() {
    let stats = run(config_with_l2_policy("lru"), &distinct_instructions(3, 0x20000), 2, 5);

    // 3 instructions total, warmup consumes the first 2, leaving 1
    // measured instruction even though 5 were requested.
    assert_eq!(stats.instructions_simulated, 1);
    assert_eq!(stats.l1d.misses, 1);
}

#[test]
fn run_when_warmup_meets_or_exceeds_trace_length_never_resets_stats() {
    let stats = run(config_with_l2_policy("lru"), &distinct_instructions(2, 0x30000), 5, 10);

    assert_eq!(stats.instructions_simulated, 0);
    assert_eq!(
        stats.l1d.misses, 2,
        "both accesses ran before warmup was ever reached, and were never reset"
    );
}

#[test]
fn new_propagates_hierarchy_construction_errors_before_touching_the_trace() {
    let mut bad_config = config_with_l2_policy("lru");
    bad_config.l1i.cache_size = 32; // block_size(64) * associativity(4) > cache_size(32)
    assert!(CacheHierarchy::new(bad_config).is_err());
}

#[test]
fn config_validation_errors_surface_before_any_trace_is_touched() {
    let mut bad = config_with_l2_policy("lru");
    bad.l1d.cache_size = 32; // block_size(64) * associativity(4) > cache_size(32)
    assert!(CacheHierarchy::new(bad).is_err());
}

#[test]
fn full_pipeline_runs_over_a_repeating_working_set_and_warms_up() {
    let working_set = [0x10000u64, 0x10040, 0x10080, 0x100C0];
    let mut instructions = Vec::new();
    for (i, &addr) in std::iter::repeat_n(&working_set, 20).flatten().enumerate() {
        instructions.push((0x1000 + i as u64 * 4, addr));
    }
    let total = instructions.len();
    let warmup = 8; // a couple of full passes through the 4-address loop
    let simulation = total - warmup;
    let stats = run(config_with_l2_policy("lru"), &instructions, warmup, simulation);

    assert_eq!(stats.instructions_simulated as usize, simulation);
    let rate = hit_rate(stats.l1d.hits, stats.l1d.misses);
    assert!(
        rate > 50.0,
        "a small repeating working set should mostly hit in L1D once warm, got {}",
        rate
    );
}

#[test]
fn full_pipeline_works_with_srrip_configured_on_l2() {
    let instructions: Vec<(u64, u64)> =
        (0..10).map(|i| (0x2000 + i * 4, 0x40000 + (i % 3) * 4096)).collect();
    let stats = run(config_with_l2_policy("srrip"), &instructions, 2, 8);
    assert_eq!(stats.instructions_simulated, 8);
}

#[test]
fn cold_trace_has_a_zero_percent_l1d_hit_rate() {
    let instructions: Vec<(u64, u64)> =
        (0..6).map(|i| (0x3000 + i * 4, 0x50000 + i * 4096)).collect();
    let stats = run(config_with_l2_policy("lru"), &instructions, 0, 6);

    assert_eq!(stats.l1d.hits, 0);
    assert_eq!(stats.l1d.misses, 6);
    assert_eq!(hit_rate(stats.l1d.hits, stats.l1d.misses), 0.0);
}

#[test]
fn step_reports_done_exactly_at_warmup_plus_measurement() {
    let hierarchy = match CacheHierarchy::new(config_with_l2_policy("lru")) {
        Ok(h) => h,
        Err(_) => panic!("valid hierarchy"),
    };
    let mut sim = SimulationRun::new(hierarchy, 1, 2);
    assert_eq!(sim.total_instructions(), 3);
    assert!(!sim.step(&instruction(0x10, 0x100)).done);
    // the warmup boundary resets the counters of every level
    assert_eq!(sim.hierarchy().l1d.get_misses(), 0);
    assert!(!sim.step(&instruction(0x14, 0x200)).done);
    let last = sim.step(&instruction(0x18, 0x300));
    assert!(last.done);
    assert!(last.heartbeat.is_none());
    assert_eq!(sim.instructions_done(), 3);
    assert_eq!(sim.finish().instructions_simulated, 2);
}

#[test]
fn a_heartbeat_comes_every_interval() {
    let hierarchy = match CacheHierarchy::new(config_with_l2_policy("lru")) {
        Ok(h) => h,
        Err(_) => panic!("valid hierarchy"),
    };
    let mut sim = SimulationRun::new(hierarchy, 0, usize::MAX);
    let blank = instruction(0x40, 0);
    let mut beats = Vec::new();
    for i in 1..=HEARTBEAT_INTERVAL {
        if let Some(snapshot) = sim.step(&blank).heartbeat {
            beats.push((i, snapshot.instructions_simulated));
        }
    }
    assert_eq!(beats, vec![(HEARTBEAT_INTERVAL, HEARTBEAT_INTERVAL)]);
}

#[test]
fn an_empty_window_replays_nothing() {
    let hierarchy = match CacheHierarchy::new(config_with_l2_policy("lru")) {
        Ok(h) => h,
        Err(_) => panic!("valid hierarchy"),
    };
    let sim = SimulationRun::new(hierarchy, 0, 0);
    assert!(sim.is_done());
    let stats = run(config_with_l2_policy("lru"), &distinct_instructions(5, 0x10_0000), 0, 0);
    assert_eq!(stats.instructions_simulated, 0);
    assert_eq!(stats.l1d.hits + stats.l1d.misses, 0);
    assert_eq!(stats.l1i.hits + stats.l1i.misses, 0);
}

#[test]
fn a_run_hands_back_its_hierarchy() {
    let hierarchy = match CacheHierarchy::new(config_with_l2_policy("lru")) {
        Ok(h) => h,
        Err(_) => panic!("valid hierarchy"),
    };
    let mut sim = SimulationRun::new(hierarchy, 0, 1);
    assert!(!sim.is_done());
    assert!(sim.step(&instruction(0x10, 0x100)).done);
    assert!(sim.is_done());
    let back = sim.into_hierarchy();
    assert_eq!(back.l1d.get_misses(), 1);
}

#[test]
fn try_step_agrees_with_step_where_defined() {
    let build = || match CacheHierarchy::new(config_with_l2_policy("srrip")) {
        Ok(h) => h,
        Err(_) => panic!("valid hierarchy"),
    };
    let mut checked = SimulationRun::new(build(), 1, 2);
    let mut plain = SimulationRun::new(build(), 1, 2);
    for (ip, addr) in distinct_instructions(3, 0x20_0000) {
        let a = checked.try_step(&instruction(ip, addr)).unwrap();
        let b = plain.step(&instruction(ip, addr));
        assert_eq!(a.done, b.done);
    }
    assert_eq!(checked.finish(), plain.finish());
    assert!(checked.is_done());
}

#[test]
fn try_step_refuses_an_instruction_it_cannot_replay() {
    let mut config = config_with_l2_policy("lru");
    config.l1d.prefetcher = Some("stream_buffer".to_string());
    config.l1d.prefetch_settings = PrefetchSettings {
        stream_buffer: Ok(StreamBufferSettings { degree: 2, num_streams: 0 }),
        summary: String::new(),
    };
    let hierarchy = match CacheHierarchy::new(config) {
        Ok(h) => h,
        Err(_) => panic!("valid hierarchy"),
    };
    let mut sim = SimulationRun::new(hierarchy, 0, 10);
    assert!(sim.try_step(&instruction(0x10, 0x100)).is_none());
}
