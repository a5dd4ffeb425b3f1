//! File-listing building blocks for a backup/dedup tool: a verified
//! directory-tree walk that collects per-file records keyed by a
//! name-plus-size composite key, and a streaming content digest.

pub mod digest;
pub mod keys;
pub mod record;
pub mod walk;
