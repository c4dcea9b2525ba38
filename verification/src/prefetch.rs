//! Prefetcher interface and construction from a cache's configuration.

use vstd::prelude::*;
use vstd::string::*;
use crate::config::CacheConfig;
use crate::error::{AsterError, ErrorKind, error_is};
use crate::prefetchers::stream_buffer::{StreamBuffer, StreamBufferView, fresh_view};
use crate::text::str_equal;

verus! {

/// A prefetcher watches demand accesses and predicts block addresses to
/// bring into the cache ahead of use.
pub trait Prefetcher {
    /// The prefetcher's own well-formedness.
    spec fn inv(&self) -> bool;

    /// `observe` can see an access to `addr` by `pc` without overflowing.
    spec fn can_observe(&self, addr: u64, pc: u64) -> bool;

    /// Observes a demand access and returns the addresses to prefetch.
    fn observe(&mut self, addr: u64, pc: u64, hit: bool) -> (r: Vec<u64>)
        requires
            old(self).inv(),
            old(self).can_observe(addr, pc),
        ensures
            final(self).inv(),
    ;
}

/// The message for a prefetcher name that names none.
pub open spec fn unknown_prefetcher_message() -> Seq<char> {
    "Prefetcher not implemented"@
}

/// The prefetcher that `config` describes, if any, or the category and text
/// of the error its construction reports.
pub open spec fn prefetcher_for(config: CacheConfig) -> Result<Option<StreamBufferView>, (ErrorKind, Seq<char>)> {
    match config.prefetcher {
        None => Ok(None),
        Some(name) => if name@ == "stream_buffer"@ {
            match config.prefetch_settings.stream_buffer {
                Err(m) => Err((ErrorKind::InvalidPolicyConfig, m@)),
                Ok(s) => Ok(
                    Some(fresh_view(s.num_streams as nat, s.degree as nat, config.block_size as nat)),
                ),
            }
        } else {
            Err((ErrorKind::Config, unknown_prefetcher_message()))
        },
    }
}

/// Constructs the prefetcher named by `config.prefetcher`, if any.
///
/// # Errors
/// Returns [`AsterError::Config`] for a name that names no prefetcher, and
/// whatever the prefetcher's constructor returns.
pub fn prefetcher_init(config: &CacheConfig) -> (r: Result<Option<StreamBuffer>, AsterError>)
    ensures
        match prefetcher_for(*config) {
            Ok(None) => r matches Ok(None),
            Ok(Some(v)) => r matches Ok(Some(p)) && p@ == v && p@.inv(),
            Err((kind, text)) => r matches Err(e) && error_is(e, kind, text),
        },
{
    match &config.prefetcher {
        Some(val) => {
            if str_equal(val.as_str(), "stream_buffer") {
                let sb = StreamBuffer::new(config.block_size, &config.prefetch_settings)?;
                Ok(Some(sb))
            } else {
                Err(AsterError::Config(String::from_str("Prefetcher not implemented")))
            }
        },
        None => Ok(None),
    }
}

} // verus!
