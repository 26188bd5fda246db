//! One partition of a topic, as a `PartitionRecord` of the metadata log
//! describes it.

use vstd::prelude::*;

verus! {

/// What a partition is: its index, leader, leader epoch, replicas and
/// in-sync replicas.
pub struct PartitionView {
    pub index: i32,
    pub leader_id: i32,
    pub leader_epoch: i32,
    pub replica_nodes: Seq<i32>,
    pub isr_nodes: Seq<i32>,
}

/// A partition of a topic; its fields are read through the getters.
pub struct Partition {
    index: i32,
    leader_id: i32,
    leader_epoch: i32,
    replica_nodes: Vec<i32>,
    isr_nodes: Vec<i32>,
}

impl View for Partition {
    type V = PartitionView;

    closed spec fn view(&self) -> PartitionView {
        PartitionView {
            index: self.index,
            leader_id: self.leader_id,
            leader_epoch: self.leader_epoch,
            replica_nodes: self.replica_nodes@,
            isr_nodes: self.isr_nodes@,
        }
    }
}

impl Partition {
    /// The partition with the given fields.
    pub fn new(
        index: i32,
        leader_id: i32,
        leader_epoch: i32,
        replica_nodes: Vec<i32>,
        isr_nodes: Vec<i32>,
    ) -> (p: Self)
        ensures
            p@ == (PartitionView {
                index,
                leader_id,
                leader_epoch,
                replica_nodes: replica_nodes@,
                isr_nodes: isr_nodes@,
            }),
    {
        Self { index, leader_id, leader_epoch, replica_nodes, isr_nodes }
    }

    /// The partition's index within its topic.
    pub fn index(&self) -> (r: i32)
        ensures
            r == self@.index,
    {
        self.index
    }

    /// The broker that leads the partition.
    pub fn leader_id(&self) -> (r: i32)
        ensures
            r == self@.leader_id,
    {
        self.leader_id
    }

    /// The leader epoch.
    pub fn leader_epoch(&self) -> (r: i32)
        ensures
            r == self@.leader_epoch,
    {
        self.leader_epoch
    }

    /// The brokers that hold replicas.
    pub fn replica_nodes(&self) -> (r: &[i32])
        ensures
            r@ == self@.replica_nodes,
    {
        self.replica_nodes.as_slice()
    }

    /// The in-sync replicas.
    pub fn isr_nodes(&self) -> (r: &[i32])
        ensures
            r@ == self@.isr_nodes,
    {
        self.isr_nodes.as_slice()
    }
}

} // verus!
