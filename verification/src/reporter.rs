//! What a run reports about itself before it starts: the trace, the window
//! and a summary of every cache level.

use vstd::prelude::*;
use vstd::string::*;
use crate::config::{Args, CacheConfig, Config};

verus! {

/// The configuration of a run, as reported when it starts.
#[derive(Debug, Clone)]
pub struct RunConfig {
    pub trace_path: String,
    pub warmup_insts: u64,
    pub sim_insts: u64,
    pub caches: Vec<CacheConfigSummary>,
}

/// One cache level as reported: its name, its geometry (as 32-bit numbers),
/// its policy and prefetcher, and their settings rendered for display.
#[derive(Debug, Clone)]
pub struct CacheConfigSummary {
    pub name: String,
    pub block_size: u32,
    pub cache_size: u32,
    pub associativity: u32,
    pub replacement_policy: String,
    pub prefetcher: Option<String>,
    pub repl_settings_debug: String,
    pub prefetch_settings_debug: String,
}

/// `s` describes the level `c` under `name`.
pub open spec fn summarizes(s: CacheConfigSummary, name: Seq<char>, c: CacheConfig) -> bool {
    &&& s.name@ == name
    &&& s.block_size == c.block_size as u32
    &&& s.cache_size == c.cache_size as u32
    &&& s.associativity == c.associativity as u32
    &&& s.replacement_policy@ == c.replacement_policy@
    &&& match (s.prefetcher, c.prefetcher) {
        (None, None) => true,
        (Some(a), Some(b)) => a@ == b@,
        _ => false,
    }
    &&& s.repl_settings_debug@ == c.repl_settings.summary@
    &&& s.prefetch_settings_debug@ == c.prefetch_settings.summary@
}

/// A copy of `s`.
fn copy_string(s: &String) -> (r: String)
    ensures
        r@ == s@,
{
    String::from_str(s.as_str())
}

impl CacheConfigSummary {
    /// Summarizes the level `c` under `name`.
    pub fn summarize(name: &str, c: &CacheConfig) -> (r: Self)
        ensures
            summarizes(r, name@, *c),
    {
        CacheConfigSummary {
            name: String::from_str(name),
            block_size: c.block_size as u32,
            cache_size: c.cache_size as u32,
            associativity: c.associativity as u32,
            replacement_policy: copy_string(&c.replacement_policy),
            prefetcher: match &c.prefetcher {
                Some(p) => Some(copy_string(p)),
                None => None,
            },
            repl_settings_debug: copy_string(&c.repl_settings.summary),
            prefetch_settings_debug: copy_string(&c.prefetch_settings.summary),
        }
    }
}

impl RunConfig {
    /// The report of a run of `args` over `config`: L1I, L1D, L2 and LLC
    /// in that order.
    pub fn from_args_and_config(args: &Args, config: &Config) -> (r: Self)
        ensures
            r.trace_path@ == args.trace@,
            r.warmup_insts == args.warmup_instructions as u64,
            r.sim_insts == args.simulation_instructions as u64,
            r.caches.len() == 4,
            summarizes(r.caches[0], "L1I"@, config.l1i),
            summarizes(r.caches[1], "L1D"@, config.l1d),
            summarizes(r.caches[2], "L2"@, config.l2),
            summarizes(r.caches[3], "LLC"@, config.llc),
    {
        let mut caches: Vec<CacheConfigSummary> = Vec::new();
        caches.push(CacheConfigSummary::summarize("L1I", &config.l1i));
        caches.push(CacheConfigSummary::summarize("L1D", &config.l1d));
        caches.push(CacheConfigSummary::summarize("L2", &config.l2));
        caches.push(CacheConfigSummary::summarize("LLC", &config.llc));
        RunConfig {
            trace_path: copy_string(&args.trace),
            warmup_insts: args.warmup_instructions as u64,
            sim_insts: args.simulation_instructions as u64,
            caches,
        }
    }
}

} // verus!
