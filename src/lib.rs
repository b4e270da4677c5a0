//! Wire-format codec and structural validation for signed update metadata.
//!
//! - `shims`: the wire records of the four documents and the codecs between
//!   them and the validated in-memory form of `metadata`.
//! - `order`: the order of strings and the sorted, duplicate-free
//!   collections that make encoding deterministic.
//! - `datetime`: expiry timestamps, read leniently and written canonically.
//! - `version`: the accepted protocol versions.
//! - `key`, `description`: the leaf values the documents carry.
//! - `error`: the decode failures.

pub mod datetime;
pub mod description;
pub mod error;
pub mod key;
pub mod metadata;
pub mod order;
pub mod shims;
pub mod version;
