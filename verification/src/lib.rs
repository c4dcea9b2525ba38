//! Aster: a trace-driven cache hierarchy simulator.

pub mod geometry;
pub mod text;
pub mod error;
pub mod seqs;
pub mod trace_reader;
pub mod policy;
pub mod config;
pub mod policies;
pub mod prefetch;
pub mod prefetchers;
pub mod cache;
pub mod stats;
pub mod simulator;
pub mod reporter;
