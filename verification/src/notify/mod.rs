//! Store notifications: how a finalized commit point reaches its subscribers when
//! the bucket cannot announce it itself.
//!
//! Notifications are latency, never correctness. Publishing is best-effort and off
//! the caller's path; a dropped message costs one sweep interval. What a transport
//! loses, a subscriber makes up for by sweeping.
pub mod announce;
pub mod endpoint;
pub mod subscribe;
