//! A topic: its id and its partitions.

use vstd::prelude::*;

use super::partition::{Partition, PartitionView};

verus! {

/// What a topic is: the sixteen bytes of its UUID and its partitions in the
/// order in which the log lists them.
pub struct TopicView {
    pub id: Seq<u8>,
    pub partitions: Seq<PartitionView>,
}

/// The views of a sequence of partitions.
pub open spec fn partition_views(ps: Seq<Partition>) -> Seq<PartitionView> {
    ps.map_values(|p: Partition| p@)
}

/// A topic known to the cluster: its UUID and its partitions.
pub struct Topic {
    id: [u8; 16],
    partitions: Vec<Partition>,
}

impl View for Topic {
    type V = TopicView;

    closed spec fn view(&self) -> TopicView {
        TopicView { id: self.id@, partitions: partition_views(self.partitions@) }
    }
}

impl Topic {
    /// The topic with the given UUID bytes and partitions.
    pub fn new(id: [u8; 16], partitions: Vec<Partition>) -> (t: Self)
        ensures
            t@ == (TopicView { id: id@, partitions: partition_views(partitions@) }),
    {
        Self { id, partitions }
    }

    /// The topic's UUID, as its sixteen bytes.
    pub fn id(&self) -> (r: [u8; 16])
        ensures
            r@ == self@.id,
    {
        self.id
    }

    /// The partitions, in the order in which the log lists them.
    pub fn partitions(&self) -> (r: &[Partition])
        ensures
            partition_views(r@) == self@.partitions,
    {
        self.partitions.as_slice()
    }
}

} // verus!
