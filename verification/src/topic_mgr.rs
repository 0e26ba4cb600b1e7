//! The topics of the catalog.

use vstd::prelude::*;

verus! {

/// A topic and the number of its queues.
#[derive(Debug, Clone)]
pub struct Topic {
    topic_name: String,
    partition_number: u32,
}

impl Topic {
    /// The name and the number of queues, as plain values.
    pub closed spec fn view(&self) -> (Seq<char>, u32) {
        (self.topic_name@, self.partition_number)
    }

    /// Makes a topic of its name and the number of its queues.
    pub fn new(topic_name: String, partition_number: u32) -> (topic: Self)
        ensures
            topic@ == (topic_name@, partition_number),
    {
        Topic { topic_name, partition_number }
    }

    /// The name of the topic.
    pub fn topic_name(&self) -> (name: &str)
        ensures
            name@ == self@.0,
    {
        self.topic_name.as_str()
    }

    /// The number of queues of the topic.
    pub fn partition_number(&self) -> (number: u32)
        ensures
            number == self@.1,
    {
        self.partition_number
    }
}

} // verus!
