//! Content-defined chunking for large objects.
//!
//! An object is cut into content-defined chunks, novel chunks are packed into
//! xorbs, and the chunk-to-xorb mapping lives in one shard per repository. Two
//! objects that differ by a byte therefore share every chunk they have in common,
//! where whole-object storage keeps two complete copies.
//!
//! The shard is the index: it carries its own chunk lookup. It is rewritten under
//! a condition on its own version, so two concurrent writers cannot lose each
//! other's entries.
//!
//! Xorbs are written with their footer, so a read is one ranged read per term:
//! the footer maps a chunk range to the compressed byte range that holds it.
pub mod chunk;
pub mod defrag;
pub mod hash;
pub mod history;
pub mod laws;
pub mod loading;
pub mod pack;
pub mod repo;
pub mod shard;
pub mod storing;
pub mod terms;
pub mod writes;
pub mod xorb;
