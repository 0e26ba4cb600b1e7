//! A single-node, append-only message store: a segmented commit log of
//! length-prefixed records and, per queue, an index of fixed-width units
//! that point into it. Every segment is a memory-mapped file of fixed capacity.

pub mod error;
pub mod codec;
pub mod mapping;
pub mod record;
pub mod mmap_file;
pub mod mapped_file_queue;
pub mod msg_index;
pub mod commit_log;
pub mod layout;
pub mod config;
pub mod message;
pub mod topic_mgr;
pub mod index;
pub mod index_store;
pub mod msg_store;
pub mod restart;
pub mod retention;
