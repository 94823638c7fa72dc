//! An in-memory key-value cache with pluggable eviction policies and a
//! length-prefixed binary wire protocol.
//!
//! The cache maps byte-string keys to entries carrying access metadata; when
//! it is full, a policy (least recently used, least frequently used, or an
//! externally scored one) chooses a victim. The protocol module holds the
//! frame codec, the semantic version type, and the handshake rule.

pub mod cache;
pub mod model;
pub mod protocol;
