//! The storage side of a git host that keeps its repositories in an object
//! store: a sealed container format, content-defined deduplication of large
//! files, a plugin boundary for storage and notification transports, and the
//! rules by which each of them talks to a bucket.
//!
//! Every item here is verified. What reads a socket, awaits a future or holds a
//! raw pointer lives outside, in the crate under `app/`, and hands this library
//! plain values.
pub mod azure;
pub mod encrypted;
pub mod eval;
pub mod notify;
pub mod number;
pub mod plugin;
pub mod store;
pub mod xet;
