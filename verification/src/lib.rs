//! The core of a log-structured merge-tree storage engine: the sorted-string
//! table format, the family of merging iterators, the compaction controllers
//! and the engine state that ties them together.
//!
//! Every executable function states its behaviour in a contract over
//! mathematical models: a key or a value is a `Seq<u8>`, a sorted run is a
//! sequence of key-value pairs ascending by key.

pub mod error;
pub mod handle;
pub mod key;
pub mod wire;
pub mod run;
pub mod block;
pub mod cache;
pub mod table;
pub mod iterators;
pub mod mem_table;
pub mod lsm_iterator;
pub mod lsm_storage;
pub mod compact;
