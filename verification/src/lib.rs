//! Monorepo task orchestrator core: a dependency-aware round scheduler, a
//! content-hashing scheme that produces cache keys, and a cache that gates
//! command execution, together with the small utilities around them.
//!
//! The surrounding binary performs the actual I/O (walking the file tree,
//! spawning commands, persisting the cache, timing); this crate holds the
//! decisions and the data, each function with a verified contract.

pub mod args;
pub mod cache;
pub mod executor;
pub mod fingerprint;
pub mod report;
pub mod scheduler;
pub mod seqs;
pub mod workspace;
pub mod zipper;
