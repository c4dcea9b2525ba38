use aster::config::{
    check_trace_path, default_policy, default_prefetch_settings, default_prefetcher,
    cache_config_problem, default_repl_settings, parse_count, parse_trace, validate_cache_config, CacheConfig,
};
use aster::error::{AsterError, ErrorKind};

#[test]
fn parse_count_handles_suffixes_and_separators() {
    assert_eq!(parse_count("50").unwrap(), 50);
    assert_eq!(parse_count("10K").unwrap(), 10_000);
    assert_eq!(parse_count("50m").unwrap(), 50_000_000);
    assert_eq!(parse_count("2B").unwrap(), 2_000_000_000);
    assert_eq!(parse_count("50_000_000").unwrap(), 50_000_000);
}

#[test]
fn parse_count_rejects_overflow_and_garbage() {
    assert!(parse_count("").is_err());
    assert!(parse_count("50X").is_err());
    assert!(parse_count("-1").is_err());
    assert!(parse_count(&format!("{}B", usize::MAX)).is_err());
}

#[test]
fn parse_count_trims_and_accepts_a_plus_sign() {
    assert_eq!(parse_count("  7k \t").unwrap(), 7_000);
    assert_eq!(parse_count("+12").unwrap(), 12);
    assert_eq!(parse_count("1_0 M").unwrap(), 10_000_000);
    assert!(parse_count("+").is_err());
    assert!(parse_count("K").is_err());
}

#[test]
fn parse_count_error_messages_quote_the_input() {
    assert_eq!(
        parse_count("50X").unwrap_err(),
        "`50X` is not a valid instruction count (try `50M`)"
    );
    let huge = format!("{}B", usize::MAX);
    assert_eq!(
        parse_count(&huge).unwrap_err(),
        format!("`{}` overflows the instruction counter", huge)
    );
    // a value too large for usize itself is not a valid count
    assert!(parse_count("99999999999999999999999").unwrap_err().contains("not a valid"));
}

#[test]
fn parse_trace_rejects_missing_file() {
    assert!(parse_trace("/nonexistent/aster/trace.xz").is_err());
}

#[test]
fn check_trace_path_decides_on_existence() {
    assert_eq!(check_trace_path("t.gz", true).unwrap(), "t.gz");
    assert_eq!(check_trace_path("t.gz", false).unwrap_err(), "trace file `t.gz` does not exist");
}

fn valid_cache_config() -> CacheConfig {
    CacheConfig {
        block_size: 64,
        cache_size: 32768,
        associativity: 8,
        replacement_policy: default_policy(),
        prefetcher: default_prefetcher(),
        repl_settings: default_repl_settings(),
        prefetch_settings: default_prefetch_settings(),
    }
}

#[test]
fn defaults_are_lru_and_no_prefetcher() {
    assert_eq!(default_policy(), "lru");
    assert!(default_prefetcher().is_none());
    let repl = default_repl_settings();
    let s = repl.srrip.unwrap();
    assert_eq!((s.max_rrpv, s.insertion_rrpv, s.increment), (3, 2, 1));
    assert_eq!(repl.summary, "");
    let pf = default_prefetch_settings();
    let p = pf.stream_buffer.unwrap();
    assert_eq!((p.degree, p.num_streams), (3, 8));
    assert_eq!(pf.summary, "");
}

#[test]
fn validate_cache_config_accepts_valid_geometry() {
    assert!(validate_cache_config("TEST", &valid_cache_config()).is_ok());
}

#[test]
fn validate_cache_config_rejects_non_po2_block_size() {
    let mut cfg = valid_cache_config();
    cfg.block_size = 60;
    let err = validate_cache_config("TEST", &cfg).unwrap_err();
    assert!(err.message().contains("block_size"));
}

#[test]
fn validate_cache_config_rejects_non_po2_associativity() {
    let mut cfg = valid_cache_config();
    cfg.associativity = 6;
    let err = validate_cache_config("TEST", &cfg).unwrap_err();
    assert!(err.message().contains("associativity"));
}

#[test]
fn validate_cache_config_rejects_non_po2_cache_size() {
    let mut cfg = valid_cache_config();
    cfg.cache_size = 30000;
    let err = validate_cache_config("TEST", &cfg).unwrap_err();
    assert!(err.message().contains("cache_size"));
}

#[test]
fn validate_cache_config_rejects_undersized_cache_relative_to_geometry() {
    // block_size * associativity (64*8=512) > cache_size (256): num_sets would be 0.
    let mut cfg = valid_cache_config();
    cfg.block_size = 64;
    cfg.associativity = 8;
    cfg.cache_size = 256;
    let err = validate_cache_config("TEST", &cfg).unwrap_err();
    assert!(err.message().to_lowercase().contains("cache_size"));
}

#[test]
fn validate_cache_config_boundary_block_times_assoc_equals_cache_size_is_ok() {
    let mut cfg = valid_cache_config();
    cfg.block_size = 64;
    cfg.associativity = 8;
    cfg.cache_size = 512; // exactly block_size * associativity -> num_sets == 1
    assert!(validate_cache_config("TEST", &cfg).is_ok());
}

#[test]
fn validate_cache_config_messages_name_the_level() {
    let mut cfg = valid_cache_config();
    cfg.block_size = 60;
    let err = validate_cache_config("L2", &cfg).unwrap_err();
    assert_eq!(err.kind(), ErrorKind::Io);
    assert!(err.message().contains("L2: block_size must be a power of two"));
    match &err {
        AsterError::Io(e) => assert_eq!(
            e.get_ref().map(|p| p.to_string()).as_deref(),
            Some("L2: block_size must be a power of two")
        ),
        _ => panic!("an I/O error"),
    }
    cfg.block_size = 64;
    cfg.cache_size = 256;
    let err = validate_cache_config("LLC", &cfg).unwrap_err();
    assert_eq!(err.kind(), ErrorKind::Io);
    assert!(err.message().contains("LLC: cache_size must be larger than BS * assoc."));
}

#[test]
fn cache_config_problem_names_the_first_broken_rule() {
    let mut cfg = valid_cache_config();
    assert_eq!(cache_config_problem("L1D", &cfg), None);
    cfg.associativity = 6;
    cfg.cache_size = 30000;
    assert_eq!(
        cache_config_problem("L1D", &cfg).as_deref(),
        Some("L1D: associativity must be a power of two")
    );
}
