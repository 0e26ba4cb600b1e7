//! What the store is configured with.

use vstd::prelude::*;

verus! {

/// The capacity of an index segment unless configured: 300 000 units of twelve bytes.
pub const DEFAULT_INDEX_FILE_SIZE: u64 = 3_600_000;

/// The capacity of a commit-log segment unless configured: one gibibyte.
pub const DEFAULT_MSG_STORE_FILE_SIZE: u64 = 1_073_741_824;

/// The directories and segment capacities of a store.
#[derive(Debug, Clone)]
pub struct ConfigOptions {
    /// The root directory of the commit log and the indexes.
    pub msg_store_path: String,
    /// The directory of the topic catalog.
    pub topic_store_path: String,
    /// The capacity of every index segment.
    pub index_file_size: u64,
    /// The capacity of every commit-log segment.
    pub msg_store_file_size: u64,
}

impl Default for ConfigOptions {
    fn default() -> (config: Self)
        ensures
            config.msg_store_path@ == Seq::<char>::empty(),
            config.topic_store_path@ == Seq::<char>::empty(),
            config.index_file_size == DEFAULT_INDEX_FILE_SIZE,
            config.msg_store_file_size == DEFAULT_MSG_STORE_FILE_SIZE,
    {
        ConfigOptions {
            msg_store_path: String::new(),
            topic_store_path: String::new(),
            index_file_size: DEFAULT_INDEX_FILE_SIZE,
            msg_store_file_size: DEFAULT_MSG_STORE_FILE_SIZE,
        }
    }
}

} // verus!
