//! The messages that producers hand in and consumers ask for.

use vstd::prelude::*;
use std::collections::HashMap;

verus! {

/// A message of a queue. A producer fills in the payload; a consumer names the
/// logical index it asks for in `offset`.
#[derive(Debug)]
pub struct Message {
    /// The topic of the queue.
    pub topic: String,
    /// The number of the queue in its topic.
    pub queue_id: u32,
    pub timestamp: u64,
    pub payload: Option<String>,
    /// The logical index of the message in its queue.
    pub offset: Option<u64>,
    pub key: Option<String>,
    pub header: Option<HashMap<String, String>>,
}

/// Where the record of a message went in the commit log, for the index of its queue.
#[derive(Debug)]
pub struct DispatchMessage {
    /// The topic of the queue.
    pub topic: String,
    /// The number of the queue in its topic.
    pub queue_id: u32,
    /// The address of the record in the commit log.
    pub msg_offset: usize,
    /// The footprint of the record.
    pub msg_size: usize,
    /// Not read by the index: the put answers with the logical index.
    pub index_offset: u64,
    pub timestamp: u64,
}

} // verus!
