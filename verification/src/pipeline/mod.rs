//! The compiler as a whole.
pub mod compiler;
pub mod ct_invalidation;
pub mod ct_query_cache;
pub mod file_deps;
pub mod fingerprint;
pub mod literal_text;
pub mod phases;
pub mod provenance;
pub mod reason;
pub mod staging_diff;
pub mod tables;
pub mod timings;
