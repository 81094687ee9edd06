//! A set-associative cache simulator: address decomposition, per-set LRU
//! replacement, hit/miss/eviction counting, and trace-line parsing.

pub mod cache;
pub mod model;
pub mod parse;
pub mod render;
pub mod types;

pub use cache::Cache;
pub use parse::line_to_command;
pub use render::results_to_string;
pub use types::{CacheInstruction, CacheResult, Cmd};
