//! An in-memory key-value store speaking a compact binary protocol.
//!
//! The store keeps a tree of nested maps whose leaves are typed scalar
//! values.  A byte-code interpreter walks request buffers, descends the
//! tree by packed key segments, and performs store, swap, compare-and-swap
//! and fetch-add style operations on the leaves.  Retired leaf versions
//! are kept on per-thread free lists and reclaimed only once every
//! thread's observed time has passed them.

pub mod constants;
pub mod traits;
pub mod fast_output;
pub mod keys;
pub mod errors;
pub mod values;
pub mod circular;
pub mod trie;
pub mod hashtree;
pub mod shared;
pub mod containers;
pub mod processors;
pub mod threading;
pub mod requests;
pub mod responses;
pub mod settings;
pub mod database;
