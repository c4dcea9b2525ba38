//! The replacement policies a cache can be configured with.

pub mod lru;
pub mod srrip;
