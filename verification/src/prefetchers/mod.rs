//! The prefetchers a cache can be configured with.

pub mod stream_buffer;
