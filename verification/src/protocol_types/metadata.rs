//! The topics of the cluster-metadata log as plain records.

use vstd::prelude::*;
use vstd::slice::slice_to_vec;

use crate::cluster::metadata::{cluster_topics, parse};
use crate::cluster::partition::PartitionView;
use crate::cluster::topic::{partition_views, Topic, TopicView};
use crate::name_map::{distinct_keys, NameMap};

verus! {

/// One partition of a topic, with public fields.
pub struct PartitionMetadata {
    pub partition_index: i32,
    pub leader_id: i32,
    pub leader_epoch: i32,
    pub replica_nodes: Vec<i32>,
    pub isr_nodes: Vec<i32>,
}

impl View for PartitionMetadata {
    type V = PartitionView;

    open spec fn view(&self) -> PartitionView {
        PartitionView {
            index: self.partition_index,
            leader_id: self.leader_id,
            leader_epoch: self.leader_epoch,
            replica_nodes: self.replica_nodes@,
            isr_nodes: self.isr_nodes@,
        }
    }
}

/// A topic: its UUID and its partitions, with public fields.
pub struct TopicMetadata {
    /// The sixteen bytes of the topic's UUID.
    pub topic_id: [u8; 16],
    pub partitions: Vec<PartitionMetadata>,
}

impl View for TopicMetadata {
    type V = TopicView;

    open spec fn view(&self) -> TopicView {
        TopicView {
            id: self.topic_id@,
            partitions: self.partitions@.map_values(|p: PartitionMetadata| p@),
        }
    }
}

/// The same topic as plain records.
fn topic_metadata(topic: &Topic) -> (r: TopicMetadata)
    ensures
        r@ == topic@,
{
    let ps = topic.partitions();
    let mut partitions: Vec<PartitionMetadata> = Vec::new();
    let mut i: usize = 0;
    while i < ps.len()
        invariant
            i <= ps@.len(),
            partition_views(ps@) == topic@.partitions,
            partitions@.map_values(|p: PartitionMetadata| p@) == topic@.partitions.take(i as int),
        decreases ps@.len() - i,
    {
        let ghost before = partitions@.map_values(|p: PartitionMetadata| p@);
        let p = &ps[i];
        let m = PartitionMetadata {
            partition_index: p.index(),
            leader_id: p.leader_id(),
            leader_epoch: p.leader_epoch(),
            replica_nodes: slice_to_vec(p.replica_nodes()),
            isr_nodes: slice_to_vec(p.isr_nodes()),
        };
        partitions.push(m);
        assert(partition_views(ps@)[i as int] == ps@[i as int]@);
        assert(partitions@.map_values(|p: PartitionMetadata| p@) =~= before.push(m@));
        assert(partitions@.map_values(|p: PartitionMetadata| p@) =~= topic@.partitions.take(i + 1));
        i = i + 1;
    }
    assert(topic@.partitions.take(i as int) =~= topic@.partitions);
    TopicMetadata { topic_id: topic.id(), partitions }
}

/// Reads the topics of a cluster-metadata log, as `cluster::metadata::parse`
/// does, into plain records.
pub fn parse_cluster_metadata(data: &[u8]) -> (r: Option<NameMap<TopicMetadata>>)
    ensures
        match cluster_topics(data@) {
            Some(es) => r matches Some(m) && m.well_formed() && m.spec_entries() == es,
            None => r is None,
        },
{
    let topics = match parse(data) {
        Some(m) => m,
        None => return None,
    };
    let ghost es = topics.spec_entries();
    let entries = topics.into_entries();
    let mut out: Vec<(String, TopicMetadata)> = Vec::new();
    let mut i: usize = 0;
    while i < entries.len()
        invariant
            i <= entries@.len(),
            entries@.map_values(|e: (String, Topic)| (e.0@, e.1@)) == es,
            distinct_keys(es),
            out@.map_values(|e: (String, TopicMetadata)| (e.0@, e.1@)) == es.take(i as int),
        decreases entries@.len() - i,
    {
        let ghost before = out@.map_values(|e: (String, TopicMetadata)| (e.0@, e.1@));
        let name = entries[i].0.clone();
        let m = topic_metadata(&entries[i].1);
        out.push((name, m));
        assert(es[i as int] == (entries@[i as int].0@, entries@[i as int].1@));
        assert(out@.map_values(|e: (String, TopicMetadata)| (e.0@, e.1@)) =~= before.push((name@, m@)));
        assert(out@.map_values(|e: (String, TopicMetadata)| (e.0@, e.1@)) =~= es.take(i + 1));
        i = i + 1;
    }
    assert(es.take(i as int) =~= es);
    Some(NameMap::from_entries(out))
}

} // verus!
