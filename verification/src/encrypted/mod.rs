//! A store decorator that passes object bytes through a pluggable codec.
//!
//! This module holds no cryptography. It owns the container format, the
//! plaintext-range arithmetic and the order of the reads; a codec owns key
//! management and the cipher.
pub mod codec;
pub mod container;
pub mod layout;
pub mod object;
pub mod store;
