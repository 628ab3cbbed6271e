//! Core of a local-network file server: path sanitization, byte-range
//! parsing, partial-content stream planning, recursive directory
//! expansion, a bounded recency-ordered selection cache, and generation
//! of batch-download configuration text.

pub mod cache;
pub mod config;
pub mod decimal;
pub mod expand;
pub mod path;
pub mod range;
pub mod stream;
pub mod text;
