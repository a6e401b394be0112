//! A fixed-capacity key/value cache with least-recently-used eviction, built on
//! a doubly-linked list whose nodes live in a slab and are addressed by handles.

pub mod node;
pub mod lru;
