//! Post-processing of compiler invocation databases.
//!
//! The crate rewrites the argument list of each recorded compiler
//! invocation through a fixed sequence of passes (deduplication,
//! include-path normalization, pattern-based removal, substring
//! replacement, fixed-position insertion, quote stripping) and
//! reconciles whole collections of records (duplicate-key resolution
//! and ignore-pattern filtering).

pub mod compile_commands;
pub mod laws;
pub mod pathres;
pub mod pattern;
pub mod postprocess_config;
pub mod text;
