//! An in-memory file cache fronted by an access-frequency admission policy.
//!
//! Given a byte path, the cache returns the file's bytes: from memory when a
//! copy is resident, otherwise through an injected reader.  On each miss the
//! cache decides whether to retain the freshly read file, and which resident
//! entries to evict when retention would exceed the configured byte limit.
//! Retention is driven by a per-path access count that outlives residency.

pub mod blob;
pub mod cache;
pub mod counter;
pub mod kv;
pub mod laws;
pub mod paths;
pub mod policy;
pub mod reader;
pub mod resident;
