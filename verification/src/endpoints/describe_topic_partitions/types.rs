//! The `DescribeTopicPartitions` request as the handler reads it (names
//! only), and the response it writes.

use bytes::BytesMut;
use vstd::prelude::*;
use vstd::slice::slice_subrange;

use crate::cluster::partition::{Partition, PartitionView};
use crate::cluster::topic::{partition_views, Topic};
use crate::protocol_types::describe_topic_partitions::{
    describe_checked_len, describe_request_bytes, describe_response_bytes, lemma_req_topic_placed,
    req_topic_bytes, req_topics_fit, describe_response_encodable, encode_describe_response, found_answer,
    nil_id, not_found_answer, resp_partition_of, resp_topic_views, RespPartition, RespTopic,
    RespTopicView,
};
use crate::protocol_types::kafka_encode::KafkaEncode;
use crate::text::{string_from_utf8_lossy, text_of};
use crate::wire::{
    bytes_in, concat_map, inside, lemma_bytes_in_inside, lemma_concat_map_first, lemma_inside_index, lemma_placed_byte,
    lemma_placed_split, placed,
};

verus! {

pub struct ReqTopic {
    pub name: String,
}

pub struct DescribeTopicPartitionsRequest {
    pub topics_array: Vec<ReqTopic>,
}

impl View for DescribeTopicPartitionsRequest {
    type V = Seq<Seq<char>>;

    open spec fn view(&self) -> Seq<Seq<char>> {
        self.topics_array@.map_values(|t: ReqTopic| t.name@)
    }
}

/// `done` before the items of `rest`, if there is a rest.
pub open spec fn prepend_names(done: Seq<Seq<u8>>, rest: Option<(Seq<Seq<u8>>, int)>) -> Option<(Seq<Seq<u8>>, int)> {
    match rest {
        Some((r, p)) => Some((done + r, p)),
        None => None,
    }
}

/// `n` requested topic names from `pos`: a length byte holding the length
/// plus one and the name's bytes, then a tag buffer whose length byte is
/// read and whose bytes are stepped over.
pub open spec fn request_names_from(data: Seq<u8>, pos: int, n: nat) -> Option<(Seq<Seq<u8>>, int)>
    decreases n,
{
    if n == 0 {
        Some((Seq::empty(), pos))
    } else if pos < 0 || pos >= data.len() || data[pos] == 0 {
        None
    } else {
        let tag_pos = pos + 1 + (data[pos] - 1);
        match bytes_in(data, pos + 1, tag_pos) {
            None => None,
            Some(name) => if tag_pos >= data.len() || tag_pos + 1 + data[tag_pos] > usize::MAX {
                None
            } else {
                prepend_names(
                    seq![name],
                    request_names_from(data, tag_pos + 1 + data[tag_pos], (n - 1) as nat),
                )
            },
        }
    }
}

/// A `DescribeTopicPartitions` request body at `body_offset`: a count byte
/// (the count plus one) and the topics; gives the raw names and the
/// position after the body.
pub open spec fn request_names_body_at(data: Seq<u8>, body_offset: int) -> Option<(Seq<Seq<u8>>, int)> {
    if body_offset < 0 || body_offset >= data.len() || data[body_offset] == 0 || body_offset + 1
        > usize::MAX {
        None
    } else {
        request_names_from(data, body_offset + 1, (data[body_offset] - 1) as nat)
    }
}

/// The raw names of a `DescribeTopicPartitions` request body at
/// `body_offset`.
pub open spec fn request_names_at(data: Seq<u8>, body_offset: int) -> Option<Seq<Seq<u8>>> {
    match request_names_body_at(data, body_offset) {
        Some((names, _end)) => Some(names),
        None => None,
    }
}

proof fn lemma_request_names_inside(p: Seq<u8>, data: Seq<u8>, s: Seq<u8>, pos: int, n: nat)
    requires
        request_names_from(data, pos, n) is Some,
        request_names_from(data, pos, n).unwrap().1 + p.len() <= usize::MAX,
    ensures
        request_names_from(data, pos, n).unwrap().1 >= pos,
        request_names_from(inside(p, data, s), pos + p.len(), n) == Some(
            (request_names_from(data, pos, n).unwrap().0, request_names_from(data, pos, n).unwrap().1 + p.len()),
        ),
    decreases n,
{
    if n > 0 {
        lemma_inside_index(p, data, s);
        let d = inside(p, data, s);
        let tag_pos = pos + 1 + (data[pos] - 1);
        lemma_bytes_in_inside(p, data, s, pos + 1, tag_pos);
        assert(d[pos + p.len()] == data[pos]);
        assert(d[tag_pos + p.len()] == data[tag_pos]);
        let next = tag_pos + 1 + data[tag_pos];
        assert(request_names_from(data, next, (n - 1) as nat).unwrap().1 == request_names_from(data, pos, n).unwrap().1);
        lemma_request_names_inside(p, data, s, next, (n - 1) as nat);
        assert(pos + p.len() + 1 + (d[pos + p.len()] - 1) == tag_pos + p.len());
        assert(tag_pos + p.len() + 1 + d[tag_pos + p.len()] == next + p.len());
    }
}

/// A `DescribeTopicPartitions` request body is read from its offset to its
/// end and no further: with any bytes before the offset and after the
/// body, the names read are the same as from the body alone. The body is
/// whole (it ends within its bytes), and the input fits in memory.
pub proof fn lemma_describe_request_local(p: Seq<u8>, b: Seq<u8>, s: Seq<u8>)
    requires
        request_names_body_at(b, 0) matches Some((_names, e)) && e <= b.len(),
        (p + b + s).len() <= usize::MAX,
    ensures
        request_names_at(p + b + s, p.len() as int) == request_names_at(b, 0),
{
    lemma_inside_index(p, b, s);
    let d = inside(p, b, s);
    assert(d[0int + p.len()] == b[0]);
    lemma_request_names_inside(p, b, s, 1, (b[0] - 1) as nat);
    assert(inside(p, b, s) == p + b + s);
}

proof fn lemma_request_names_read_back(data: Seq<u8>, pos: int, s: Seq<(Seq<u8>, Seq<u8>)>)
    requires
        forall|i: int| 0 <= i < s.len() ==> (#[trigger] s[i]).0.len() < 255 && s[i].1.len() < 256,
        placed(data, pos, concat_map(s, |t: (Seq<u8>, Seq<u8>)| req_topic_bytes(t))),
        data.len() <= usize::MAX,
    ensures
        request_names_from(data, pos, s.len()) == Some(
            (
                s.map_values(|t: (Seq<u8>, Seq<u8>)| t.0),
                pos + concat_map(s, |t: (Seq<u8>, Seq<u8>)| req_topic_bytes(t)).len(),
            ),
        ),
    decreases s.len(),
{
    let f = |t: (Seq<u8>, Seq<u8>)| req_topic_bytes(t);
    let g = |t: (Seq<u8>, Seq<u8>)| t.0;
    if s.len() == 0 {
        assert(s.map_values(g) =~= Seq::<Seq<u8>>::empty());
    } else {
        let rest = s.drop_first();
        lemma_concat_map_first(s, f);
        lemma_placed_split(data, pos, f(s[0]), concat_map(rest, f));
        lemma_req_topic_placed(data, pos, s[0]);
        assert forall|i: int| 0 <= i < rest.len() implies (#[trigger] rest[i]).0.len() < 255 && rest[i].1.len() < 256 by {
            assert(rest[i] == s[i + 1]);
        }
        let next = pos + f(s[0]).len();
        lemma_request_names_read_back(data, next, rest);
        assert(seq![s[0].0] + rest.map_values(g) =~= s.map_values(g));
        assert(pos + 1 + (data[pos] - 1) + 1 + data[pos + 1 + (data[pos] - 1)] as int == next);
        assert((s.len() - 1) as nat == rest.len());
    }
}

/// A `DescribeTopicPartitions` request body reads back as the names it asks
/// for, in order; the tag buffers are stepped over.
pub proof fn lemma_request_names_read_back_whole(topics: Seq<(Seq<u8>, Seq<u8>)>)
    requires
        req_topics_fit(topics),
        describe_request_bytes(topics).len() <= usize::MAX,
    ensures
        request_names_at(describe_request_bytes(topics), 0) == Some(
            topics.map_values(|t: (Seq<u8>, Seq<u8>)| t.0),
        ),
{
    let data = describe_request_bytes(topics);
    let f = |t: (Seq<u8>, Seq<u8>)| req_topic_bytes(t);
    assert(data.subrange(0, data.len() as int) =~= data);
    lemma_placed_split(data, 0, seq![(topics.len() + 1) as u8], concat_map(topics, f));
    lemma_placed_byte(data, 0, (topics.len() + 1) as u8);
    lemma_request_names_read_back(data, 1, topics);
}

/// The names that raw names stand for.
pub open spec fn names_view(raw: Seq<Seq<u8>>) -> Seq<Seq<char>> {
    raw.map_values(|b: Seq<u8>| text_of(b))
}

/// Reads the topic names of a `DescribeTopicPartitions` request body at
/// `body_offset`; `None` exactly where a read would run past the end of the
/// buffer or a position overflow.
pub fn try_parse_describe_topic_partitions_request(buffer: &[u8], body_offset: usize) -> (r: Option<
    DescribeTopicPartitionsRequest,
>)
    ensures
        match request_names_at(buffer@, body_offset as int) {
            Some(raw) => r matches Some(req) && req@ == names_view(raw),
            None => r is None,
        },
{
    if body_offset >= buffer.len() || buffer[body_offset] == 0 || body_offset == usize::MAX {
        return None;
    }
    let topics_array_length = (buffer[body_offset] - 1) as usize;
    let mut offset = body_offset + 1;
    let ghost target = request_names_from(buffer@, offset as int, topics_array_length as nat);
    let ghost mut raw_done: Seq<Seq<u8>> = Seq::empty();
    let mut topics_array: Vec<ReqTopic> = Vec::new();
    let mut k: usize = 0;
    while k < topics_array_length
        invariant
            k <= topics_array_length,
            body_offset < buffer@.len(),
            body_offset < usize::MAX,
            buffer@[body_offset as int] != 0,
            topics_array_length == buffer@[body_offset as int] - 1,
            target == request_names_from(buffer@, body_offset + 1, topics_array_length as nat),
            target == prepend_names(
                raw_done,
                request_names_from(buffer@, offset as int, (topics_array_length - k) as nat),
            ),
            topics_array@.map_values(|t: ReqTopic| t.name@) == names_view(raw_done),
        decreases topics_array_length - k,
    {
        if offset >= buffer.len() || buffer[offset] == 0 {
            return None;
        }
        let name_length = (buffer[offset] - 1) as usize;
        if name_length > buffer.len() - offset - 1 {
            return None;
        }
        let name_bytes = slice_subrange(buffer, offset + 1, offset + 1 + name_length);
        let name = string_from_utf8_lossy(name_bytes);
        let tag_pos = offset + 1 + name_length;
        if tag_pos >= buffer.len() {
            return None;
        }
        let tag_buffer_length = buffer[tag_pos] as usize;
        if tag_pos + 1 > usize::MAX - tag_buffer_length {
            return None;
        }
        let ghost before = topics_array@.map_values(|t: ReqTopic| t.name@);
        topics_array.push(ReqTopic { name });
        assert(topics_array@.map_values(|t: ReqTopic| t.name@) =~= before.push(text_of(name_bytes@)));
        offset = tag_pos + 1 + tag_buffer_length;
        proof {
            let item = name_bytes@;
            match request_names_from(buffer@, offset as int, (topics_array_length - k - 1) as nat) {
                Some((rest, q)) => {
                    assert(raw_done.push(item) + rest =~= raw_done + (seq![item] + rest));
                },
                None => {},
            }
            assert(names_view(raw_done.push(item)) =~= names_view(raw_done).push(text_of(item)));
            raw_done = raw_done.push(item);
        }
        k = k + 1;
    }
    assert(raw_done + Seq::<Seq<u8>>::empty() =~= raw_done);
    Some(DescribeTopicPartitionsRequest { topics_array })
}

/// Reads the topic names of a `DescribeTopicPartitions` request body at
/// `body_offset`.
pub fn parse_describe_topic_partitions_request(buffer: &[u8], body_offset: usize) -> (r: DescribeTopicPartitionsRequest)
    requires
        request_names_at(buffer@, body_offset as int) is Some,
    ensures
        r@ == names_view(request_names_at(buffer@, body_offset as int).unwrap()),
{
    try_parse_describe_topic_partitions_request(buffer, body_offset).unwrap()
}

impl RespPartition {
    /// The answer for a partition of a known topic.
    pub fn from(p: &Partition) -> (r: Self)
        ensures
            r@ == resp_partition_of(p@),
    {
        RespPartition {
            error_code: 0,
            partition_index: p.index(),
            leader_id: p.leader_id(),
            leader_epoch: p.leader_epoch(),
            replica_nodes: vstd::slice::slice_to_vec(p.replica_nodes()),
            isr_nodes: vstd::slice::slice_to_vec(p.isr_nodes()),
        }
    }
}

impl RespTopic {
    /// The answer for a known topic.
    pub fn found(name: String, topic: &Topic) -> (r: Self)
        ensures
            r@ == found_answer(name@, topic@),
    {
        let ps = topic.partitions();
        let ghost target = topic@.partitions.map_values(|p: PartitionView| resp_partition_of(p));
        let mut partitions: Vec<RespPartition> = Vec::new();
        let mut i: usize = 0;
        while i < ps.len()
            invariant
                i <= ps@.len(),
                partition_views(ps@) == topic@.partitions,
                target == topic@.partitions.map_values(|p: PartitionView| resp_partition_of(p)),
                partitions@.map_values(|p: RespPartition| p@) == target.take(i as int),
            decreases ps@.len() - i,
        {
            let ghost before = partitions@.map_values(|p: RespPartition| p@);
            let rp = RespPartition::from(&ps[i]);
            partitions.push(rp);
            assert(partition_views(ps@)[i as int] == ps@[i as int]@);
            assert(topic@.partitions[i as int] == ps@[i as int]@);
            assert(target[i as int] == rp@);
            assert(partitions@.map_values(|p: RespPartition| p@) =~= before.push(rp@));
            assert(partitions@.map_values(|p: RespPartition| p@) =~= target.take(i + 1));
            i = i + 1;
        }
        assert(target.take(i as int) =~= target);
        RespTopic {
            error_code: 0,
            topic_name: name,
            topic_id: topic.id(),
            is_internal: false,
            partitions,
            topic_authorized_operations: 0,
        }
    }

    /// The answer for a topic the broker does not know.
    pub fn not_found(name: String) -> (r: Self)
        ensures
            r@ == not_found_answer(name@),
    {
        let nil: [u8; 16] = [0u8, 0u8, 0u8, 0u8, 0u8, 0u8, 0u8, 0u8, 0u8, 0u8, 0u8, 0u8, 0u8, 0u8, 0u8, 0u8];
        assert(nil@ =~= nil_id());
        let r = RespTopic {
            error_code: 3,
            topic_name: name,
            topic_id: nil,
            is_internal: false,
            partitions: Vec::new(),
            topic_authorized_operations: 0,
        };
        assert(r@.partitions =~= Seq::<crate::protocol_types::describe_topic_partitions::RespPartitionView>::empty());
        r
    }
}

pub struct DescribeTopicPartitionsResponse {
    topics: Vec<RespTopic>,
}

impl View for DescribeTopicPartitionsResponse {
    type V = Seq<RespTopicView>;

    closed spec fn view(&self) -> Seq<RespTopicView> {
        resp_topic_views(self.topics@)
    }
}

impl DescribeTopicPartitionsResponse {
    pub fn new(topics: Vec<RespTopic>) -> (r: Self)
        ensures
            r@ == resp_topic_views(topics@),
    {
        Self { topics }
    }

    /// The length of the response body's bytes, or `None` where a count
    /// does not fit its length byte or the length does not fit a `usize`.
    pub fn checked_encoding_len(&self) -> (r: Option<usize>)
        ensures
            match r {
                Some(n) => self.encodable() && n == self.encoding().len(),
                None => !self.encodable() || self.encoding().len() > usize::MAX,
            },
    {
        describe_checked_len(&self.topics)
    }
}

impl KafkaEncode for DescribeTopicPartitionsResponse {
    open spec fn encoding(&self) -> Seq<u8> {
        describe_response_bytes(self@)
    }

    open spec fn encodable(&self) -> bool {
        describe_response_encodable(self@)
    }

    open spec fn header_version(&self) -> u8 {
        1
    }

    fn encode(&self, buf: &mut BytesMut) {
        encode_describe_response(&self.topics, buf);
    }

    fn response_header_version(&self) -> (v: u8) {
        1
    }
}

} // verus!
