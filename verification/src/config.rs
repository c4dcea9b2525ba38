//! Typed configuration of the cache hierarchy and of a simulation run.

use vstd::prelude::*;
use vstd::string::*;
use crate::error::{AsterError, ErrorKind, error_is, io_error_from_text, io_error_payload};
use crate::geometry::{is_pow2, power_of_two};
use crate::policies::srrip::{SrripSettings, default_max_rrpv, default_insertion_rrpv, default_increment};
use crate::prefetchers::stream_buffer::{StreamBufferSettings, default_degree, default_num_streams};
use crate::text::{
    chars_of,
    trim_chars,
    remove_underscores,
    parse_usize,
    trim,
    without_underscores,
    parse_unsigned,
};

verus! {

/// The replacement-policy settings of one cache level, as read from its
/// `repl_settings` table: what each policy made of the table (its settings,
/// or why they could not be read), and the table rendered for display.
pub struct ReplSettings {
    pub srrip: Result<SrripSettings, String>,
    pub summary: String,
}

/// The prefetcher settings of one cache level, as read from its
/// `prefetch_settings` table: what each prefetcher made of the table, and
/// the table rendered for display.
pub struct PrefetchSettings {
    pub stream_buffer: Result<StreamBufferSettings, String>,
    pub summary: String,
}

/// Cache-specific configuration.
pub struct CacheConfig {
    pub block_size: usize,
    pub cache_size: usize,
    pub associativity: usize,
    pub replacement_policy: String,
    pub prefetcher: Option<String>,
    pub repl_settings: ReplSettings,
    pub prefetch_settings: PrefetchSettings,
}

/// The configuration of every level of the hierarchy.
pub struct Config {
    pub llc: CacheConfig,
    pub l2: CacheConfig,
    pub l1i: CacheConfig,
    pub l1d: CacheConfig,
}

/// The arguments of a simulation run: the trace to replay, how many
/// instructions to measure after how many of warmup, and the hierarchy's
/// configuration file.
#[derive(Clone, Debug)]
pub struct Args {
    pub trace: String,
    pub simulation_instructions: usize,
    pub warmup_instructions: usize,
    pub config: String,
}

/// The digits of an instruction count and the factor its suffix stands for:
/// `K`/`k` a thousand, `M`/`m` a million, `B`/`b` a billion.
pub open spec fn split_suffix(t: Seq<char>) -> (Seq<char>, nat) {
    if t.len() > 0 && (t.last() == 'K' || t.last() == 'k') {
        (t.drop_last(), 1_000)
    } else if t.len() > 0 && (t.last() == 'M' || t.last() == 'm') {
        (t.drop_last(), 1_000_000)
    } else if t.len() > 0 && (t.last() == 'B' || t.last() == 'b') {
        (t.drop_last(), 1_000_000_000)
    } else {
        (t, 1)
    }
}

/// The message for text that is no instruction count.
pub open spec fn invalid_count_message(s: Seq<char>) -> Seq<char> {
    "`"@ + s + "` is not a valid instruction count (try `50M`)"@
}

/// The message for a count too large for the counter.
pub open spec fn overflow_count_message(s: Seq<char>) -> Seq<char> {
    "`"@ + s + "` overflows the instruction counter"@
}

/// The instruction count `s` spells: trimmed, an optional `K`/`M`/`B`
/// suffix (either case), underscores dropped and the rest trimmed again,
/// read as an unsigned number and multiplied by the suffix; or the message
/// saying why it is none.
pub open spec fn count_of(s: Seq<char>) -> Result<nat, Seq<char>> {
    let (digits, mult) = split_suffix(trim(s));
    match parse_unsigned(trim(without_underscores(digits))) {
        None => Err(invalid_count_message(s)),
        Some(n) => if n * mult <= usize::MAX {
            Ok(n * mult)
        } else {
            Err(overflow_count_message(s))
        },
    }
}

/// `"`" + s + tail`.
fn quoted(s: &str, tail: &str) -> (r: String)
    ensures
        r@ == "`"@ + s@ + tail@,
{
    let mut r = String::from_str("`");
    r.append(s);
    r.append(tail);
    r
}

/// Parses an instruction count, accepting `K`/`M`/`B` suffixes and `_`
/// separators (`50M`, `50_000_000`, `2B` are all valid).
pub fn parse_count(s: &str) -> (r: Result<usize, String>)
    ensures
        match count_of(s@) {
            Ok(n) => r == Ok::<usize, String>(n as usize),
            Err(m) => r matches Err(e) && e@ == m,
        },
{
    let all = chars_of(s);
    let t = trim_chars(&all);
    let n = t.len();
    let mut mult: usize = 1;
    let mut digits: Vec<char> = Vec::new();
    let mut cut: usize = n;
    if n > 0 {
        let last = t[n - 1];
        if last == 'K' || last == 'k' {
            mult = 1_000;
            cut = n - 1;
        } else if last == 'M' || last == 'm' {
            mult = 1_000_000;
            cut = n - 1;
        } else if last == 'B' || last == 'b' {
            mult = 1_000_000_000;
            cut = n - 1;
        }
    }
    let mut k: usize = 0;
    while k < cut
        invariant
            k <= cut <= n,
            n == t@.len(),
            digits@ == t@.subrange(0, k as int),
        decreases cut - k,
    {
        digits.push(t[k]);
        proof {
            assert(digits@ =~= t@.subrange(0, k as int + 1));
        }
        k = k + 1;
    }
    proof {
        let (ds, m) = split_suffix(trim(s@));
        assert(digits@ =~= ds);
        assert(mult == m);
    }
    let cleaned = remove_underscores(&digits);
    let trimmed = trim_chars(&cleaned);
    match parse_usize(&trimmed) {
        None => Err(quoted(s, "` is not a valid instruction count (try `50M`)")),
        Some(value) => match value.checked_mul(mult) {
            Some(total) => Ok(total),
            None => Err(quoted(s, "` overflows the instruction counter")),
        },
    }
}

/// Whether a file exists at `path`, by `std::path::Path::is_file`.
///
/// Nothing is claimed of the answer: it depends on the file system.
#[verifier::external_body]
fn path_is_file(path: &str) -> bool {
    std::path::Path::new(path).is_file()
}

/// The message for a trace path where there is no file.
pub open spec fn missing_trace_message(s: Seq<char>) -> Seq<char> {
    "trace file `"@ + s + "` does not exist"@
}

/// Accepts the trace path `s` where a file exists there (`exists`), and
/// rejects it otherwise.
pub fn check_trace_path(s: &str, exists: bool) -> (r: Result<String, String>)
    ensures
        exists ==> (r matches Ok(p) && p@ == s@),
        !exists ==> (r matches Err(e) && e@ == missing_trace_message(s@)),
{
    if !exists {
        let mut m = String::from_str("trace file `");
        m.append(s);
        m.append("` does not exist");
        return Err(m);
    }
    Ok(String::from_str(s))
}

/// Rejects a trace path that doesn't exist.
pub fn parse_trace(s: &str) -> (r: Result<String, String>)
    ensures
        r matches Ok(p) ==> p@ == s@,
        r matches Err(e) ==> e@ == missing_trace_message(s@),
{
    check_trace_path(s, path_is_file(s))
}

/// The default replacement policy name.
pub fn default_policy() -> (r: String)
    ensures
        r@ == "lru"@,
{
    String::from_str("lru")
}

/// The default prefetcher: none.
pub fn default_prefetcher() -> (r: Option<String>)
    ensures
        r is None,
{
    None
}

/// The settings of SRRIP when its table sets nothing.
pub open spec fn default_srrip_settings() -> SrripSettings {
    SrripSettings { max_rrpv: 3, insertion_rrpv: 2, increment: 1 }
}

/// The settings of the stream buffer when its table sets nothing.
pub open spec fn default_stream_buffer_settings() -> StreamBufferSettings {
    StreamBufferSettings { degree: 3, num_streams: 8 }
}

/// Default `repl_settings` (an empty table) used when a `CacheConfig`
/// omits policy-specific settings; each policy then falls back to its own
/// field defaults.
pub fn default_repl_settings() -> (r: ReplSettings)
    ensures
        r.srrip == Ok::<SrripSettings, String>(default_srrip_settings()),
        r.summary@ == Seq::<char>::empty(),
{
    ReplSettings {
        srrip: Ok(
            SrripSettings {
                max_rrpv: default_max_rrpv(),
                insertion_rrpv: default_insertion_rrpv(),
                increment: default_increment(),
            },
        ),
        summary: String::new(),
    }
}

/// Default `prefetch_settings` (an empty table).
pub fn default_prefetch_settings() -> (r: PrefetchSettings)
    ensures
        r.stream_buffer == Ok::<StreamBufferSettings, String>(default_stream_buffer_settings()),
        r.summary@ == Seq::<char>::empty(),
{
    PrefetchSettings {
        stream_buffer: Ok(
            StreamBufferSettings { degree: default_degree(), num_streams: default_num_streams() },
        ),
        summary: String::new(),
    }
}

/// The check of one level's geometry: the first rule it breaks, as the
/// message text after the level's name, if any.
pub open spec fn geometry_problem(cfg: CacheConfig) -> Option<Seq<char>> {
    if !is_pow2(cfg.block_size as nat) {
        Some(": block_size must be a power of two"@)
    } else if !is_pow2(cfg.associativity as nat) {
        Some(": associativity must be a power of two"@)
    } else if !is_pow2(cfg.cache_size as nat) {
        Some(": cache_size must be a power of two"@)
    } else if cfg.block_size * cfg.associativity > cfg.cache_size {
        Some(": cache_size must be larger than BS * assoc."@)
    } else {
        None
    }
}

/// The first rule that a level's geometry breaks, as the message that
/// names the level `name` and the rule, or `None` where it breaks none.
pub fn cache_config_problem(name: &str, cfg: &CacheConfig) -> (r: Option<String>)
    requires
        is_pow2(cfg.block_size as nat) && is_pow2(cfg.associativity as nat) ==> cfg.block_size
            * cfg.associativity <= usize::MAX,
    ensures
        match geometry_problem(*cfg) {
            None => r is None,
            Some(tail) => r matches Some(m) && m@ == name@ + tail,
        },
{
    if !power_of_two(cfg.block_size) {
        let mut m = String::from_str(name);
        m.append(": block_size must be a power of two");
        return Some(m);
    }
    if !power_of_two(cfg.associativity) {
        let mut m = String::from_str(name);
        m.append(": associativity must be a power of two");
        return Some(m);
    }
    if !power_of_two(cfg.cache_size) {
        let mut m = String::from_str(name);
        m.append(": cache_size must be a power of two");
        return Some(m);
    }
    if cfg.block_size * cfg.associativity > cfg.cache_size {
        let mut m = String::from_str(name);
        m.append(": cache_size must be larger than BS * assoc.");
        return Some(m);
    }
    None
}

/// Confirms that a level's block size, associativity and size are powers
/// of two and that the cache holds at least one set.
///
/// # Errors
/// Returns [`AsterError::Io`] whose payload is the message of
/// [`cache_config_problem`]: `name` and the first rule broken.
pub fn validate_cache_config(name: &str, cfg: &CacheConfig) -> (r: Result<(), AsterError>)
    requires
        is_pow2(cfg.block_size as nat) && is_pow2(cfg.associativity as nat) ==> cfg.block_size
            * cfg.associativity <= usize::MAX,
    ensures
        match geometry_problem(*cfg) {
            None => r is Ok,
            Some(tail) => r matches Err(AsterError::Io(e)) && io_error_payload(e) == name@ + tail,
        },
{
    match cache_config_problem(name, cfg) {
        None => Ok(()),
        Some(m) => Err(AsterError::Io(io_error_from_text(m))),
    }
}

} // verus!
