//! The boundary between a host and a storage plugin: how messages, streams and
//! listings cross it, and what each side makes of the other's answers.
//!
//! Metadata is bounded and separate from object bytes, which cross as pull-based
//! streams of bounded frames. A listing is a stream of newline-terminated records.
pub mod abi;
pub mod call;
pub mod frame;
pub mod handles;
pub mod listing;
