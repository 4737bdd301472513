//! Duplicate removal for delimiter-separated byte records.
//!
//! The crate splits a byte stream into records terminated by a single
//! delimiter byte, and either emits each distinct record once, in the order
//! of first occurrence (dedup mode), or emits every distinct record with the
//! number of times it occurred, optionally sorted by that count (count mode).
//! Record identity in dedup mode is a seeded 64-bit hash; count mode keys by
//! the full record bytes.

pub mod config;
pub mod count;
pub mod dedup;
pub mod hashing;
pub mod records;
