//! The `DescribeTopicPartitions` request and response (v0).

use bytes::BytesMut;
use vstd::prelude::*;
use vstd::slice::{slice_subrange, slice_to_vec};
use vstd::utf8::{encode_utf8, valid_utf8};

use crate::buffer::{bytes_mut_contents, extend_from_slice, put_i16, put_i32, put_u8};
use crate::cluster::partition::PartitionView;
use crate::cluster::topic::TopicView;
use crate::name_map::NameMap;
use crate::protocol_types::kafka_encode::KafkaEncode;
use crate::protocol_types::metadata::{PartitionMetadata, TopicMetadata};
use crate::text::{string_from_utf8_lossy, text_of};
use crate::wire::{
    be_bytes, bytes_in, compact_array_len_at, compact_i32_array_at, compact_string_at, i16_at, i32_at,
    lemma_concat_map_first, lemma_placed_byte, lemma_placed_bytes, lemma_placed_i32_array, lemma_placed_ints, lemma_placed_len_byte, lemma_placed_split,
    lemma_placed_zero, placed, tag_buffer_at, uuid_at, compact_len_byte, concat_map, fits_len_byte, inside, lemma_bytes_in_inside,
    lemma_concat_map_prefix_len, lemma_concat_map_take, lemma_inside_index, len_byte,
};

verus! {

broadcast use crate::wire::lemma_be_bytes_len;

// ── Request ──────────────────────────────────────────────────────────────

/// A requested topic: its name and the bytes of its tag buffer.
pub struct ReqTopic {
    pub name: String,
    pub tag_buffer: Vec<u8>,
}

/// A `DescribeTopicPartitions` request: the topics asked for, in order.
pub struct DescribeTopicPartitionsRequest {
    pub topics_array: Vec<ReqTopic>,
}

/// `done` before the items of `rest`, if there is a rest.
pub open spec fn prepend_topics(done: Seq<(Seq<u8>, Seq<u8>)>, rest: Option<(Seq<(Seq<u8>, Seq<u8>)>, int)>) -> Option<
    (Seq<(Seq<u8>, Seq<u8>)>, int),
> {
    match rest {
        Some((r, p)) => Some((done + r, p)),
        None => None,
    }
}

/// `n` requested topics from `pos`, each a name (one length byte holding
/// the length plus one, then the bytes) and a tag buffer (one length byte,
/// then the bytes). A length byte of 0 cannot be read (the length would be
/// -1). Gives each name's raw bytes and each tag buffer's bytes.
pub open spec fn describe_topics_from(data: Seq<u8>, pos: int, n: nat) -> Option<(Seq<(Seq<u8>, Seq<u8>)>, int)>
    decreases n,
{
    if n == 0 {
        Some((Seq::empty(), pos))
    } else if pos < 0 || pos >= data.len() || data[pos] == 0 {
        None
    } else {
        let name_len = data[pos] - 1;
        let tag_pos = pos + 1 + name_len;
        match bytes_in(data, pos + 1, tag_pos) {
            None => None,
            Some(name) => if tag_pos >= data.len() {
                None
            } else {
                let tag_len = data[tag_pos] as int;
                match bytes_in(data, tag_pos + 1, tag_pos + 1 + tag_len) {
                    None => None,
                    Some(tag) => prepend_topics(
                        seq![(name, tag)],
                        describe_topics_from(data, tag_pos + 1 + tag_len, (n - 1) as nat),
                    ),
                }
            },
        }
    }
}

/// The topics of a `DescribeTopicPartitions` request body at `body_offset`:
/// a count byte (the count plus one) and the topics.
pub open spec fn describe_request_at(data: Seq<u8>, body_offset: int) -> Option<Seq<(Seq<u8>, Seq<u8>)>> {
    if body_offset < 0 || body_offset >= data.len() || data[body_offset] == 0 {
        None
    } else {
        match describe_topics_from(data, body_offset + 1, (data[body_offset] - 1) as nat) {
            Some((topics, _end)) => Some(topics),
            None => None,
        }
    }
}

proof fn lemma_describe_topics_inside(p: Seq<u8>, data: Seq<u8>, s: Seq<u8>, pos: int, n: nat)
    requires
        describe_topics_from(data, pos, n) is Some,
    ensures
        describe_topics_from(inside(p, data, s), pos + p.len(), n) == Some(
            (describe_topics_from(data, pos, n).unwrap().0, describe_topics_from(data, pos, n).unwrap().1 + p.len()),
        ),
    decreases n,
{
    if n > 0 {
        lemma_inside_index(p, data, s);
        let d = inside(p, data, s);
        let tag_pos = pos + 1 + (data[pos] - 1);
        let tag_len = data[tag_pos] as int;
        lemma_bytes_in_inside(p, data, s, pos + 1, tag_pos);
        lemma_bytes_in_inside(p, data, s, tag_pos + 1, tag_pos + 1 + tag_len);
        assert(d[pos + p.len()] == data[pos]);
        assert(d[tag_pos + p.len()] == data[tag_pos]);
        lemma_describe_topics_inside(p, data, s, tag_pos + 1 + tag_len, (n - 1) as nat);
        assert(pos + p.len() + 1 + (d[pos + p.len()] - 1) == tag_pos + p.len());
        assert(tag_pos + p.len() + 1 + d[tag_pos + p.len()] as int == (tag_pos + 1 + tag_len) + p.len());
    }
}

/// A `DescribeTopicPartitions` request body, with its tag buffers, is read
/// from its offset on and never past its end: with any bytes before the
/// offset and after the body, the request read is the same as from the
/// body alone.
pub proof fn lemma_describe_request_with_tags_local(p: Seq<u8>, b: Seq<u8>, s: Seq<u8>)
    requires
        describe_request_at(b, 0) is Some,
    ensures
        describe_request_at(p + b + s, p.len() as int) == describe_request_at(b, 0),
{
    lemma_inside_index(p, b, s);
    let d = inside(p, b, s);
    assert(d[0int + p.len()] == b[0]);
    lemma_describe_topics_inside(p, b, s, 1, (b[0] - 1) as nat);
    assert(inside(p, b, s) == p + b + s);
}

/// The bytes of one requested topic: a length byte (the name's length plus
/// one), the name, a tag-buffer length byte and the tag buffer's bytes.
pub open spec fn req_topic_bytes(t: (Seq<u8>, Seq<u8>)) -> Seq<u8> {
    seq![(t.0.len() + 1) as u8] + t.0 + seq![t.1.len() as u8] + t.1
}

/// The bytes of a `DescribeTopicPartitions` request body asking for
/// `topics` (each a name and its tag buffer's bytes): a count byte (the
/// count plus one), then the topics.
pub open spec fn describe_request_bytes(topics: Seq<(Seq<u8>, Seq<u8>)>) -> Seq<u8> {
    seq![(topics.len() + 1) as u8] + concat_map(topics, |t: (Seq<u8>, Seq<u8>)| req_topic_bytes(t))
}

/// Every count and length of a request fits its byte.
pub open spec fn req_topics_fit(topics: Seq<(Seq<u8>, Seq<u8>)>) -> bool {
    &&& topics.len() < 255
    &&& forall|i: int| 0 <= i < topics.len() ==> (#[trigger] topics[i]).0.len() < 255 && topics[i].1.len() < 256
}

/// One requested topic, placed, reads back as its name and tag buffer.
pub proof fn lemma_req_topic_placed(data: Seq<u8>, pos: int, t: (Seq<u8>, Seq<u8>))
    requires
        t.0.len() < 255,
        t.1.len() < 256,
        placed(data, pos, req_topic_bytes(t)),
    ensures
        data[pos] == t.0.len() + 1,
        data[pos + 1 + t.0.len()] == t.1.len(),
        bytes_in(data, pos + 1, pos + 1 + t.0.len()) == Some(t.0),
        bytes_in(data, pos + 2 + t.0.len(), pos + 2 + t.0.len() + t.1.len()) == Some(t.1),
        req_topic_bytes(t).len() == 2 + t.0.len() + t.1.len(),
{
    let a = seq![(t.0.len() + 1) as u8];
    let c = seq![t.1.len() as u8];
    lemma_placed_split(data, pos, a + t.0 + c, t.1);
    lemma_placed_split(data, pos, a + t.0, c);
    lemma_placed_split(data, pos, a, t.0);
    lemma_placed_byte(data, pos, (t.0.len() + 1) as u8);
    lemma_placed_byte(data, pos + 1 + t.0.len(), t.1.len() as u8);
    lemma_placed_bytes(data, pos + 1, t.0);
    lemma_placed_bytes(data, pos + 2 + t.0.len(), t.1);
}

proof fn lemma_describe_topics_read_back(data: Seq<u8>, pos: int, s: Seq<(Seq<u8>, Seq<u8>)>)
    requires
        forall|i: int| 0 <= i < s.len() ==> (#[trigger] s[i]).0.len() < 255 && s[i].1.len() < 256,
        placed(data, pos, concat_map(s, |t: (Seq<u8>, Seq<u8>)| req_topic_bytes(t))),
    ensures
        describe_topics_from(data, pos, s.len()) == Some(
            (s, pos + concat_map(s, |t: (Seq<u8>, Seq<u8>)| req_topic_bytes(t)).len()),
        ),
    decreases s.len(),
{
    let f = |t: (Seq<u8>, Seq<u8>)| req_topic_bytes(t);
    if s.len() == 0 {
        assert(s =~= Seq::<(Seq<u8>, Seq<u8>)>::empty());
    } else {
        let rest = s.drop_first();
        lemma_concat_map_first(s, f);
        lemma_placed_split(data, pos, f(s[0]), concat_map(rest, f));
        lemma_req_topic_placed(data, pos, s[0]);
        assert forall|i: int| 0 <= i < rest.len() implies (#[trigger] rest[i]).0.len() < 255 && rest[i].1.len() < 256 by {
            assert(rest[i] == s[i + 1]);
        }
        let next = pos + f(s[0]).len();
        lemma_describe_topics_read_back(data, next, rest);
        assert(seq![s[0]] + rest =~= s);
        assert(pos + 1 + (data[pos] - 1) + 1 + data[pos + 1 + (data[pos] - 1)] as int == next);
        assert((s.len() - 1) as nat == rest.len());
    }
}

/// A `DescribeTopicPartitions` request body reads back as the topics it
/// asks for, each name with its tag buffer's bytes, in order.
pub proof fn lemma_describe_request_reads_back(topics: Seq<(Seq<u8>, Seq<u8>)>)
    requires
        req_topics_fit(topics),
    ensures
        describe_request_at(describe_request_bytes(topics), 0) == Some(topics),
{
    let data = describe_request_bytes(topics);
    let f = |t: (Seq<u8>, Seq<u8>)| req_topic_bytes(t);
    assert(data.subrange(0, data.len() as int) =~= data);
    lemma_placed_split(data, 0, seq![(topics.len() + 1) as u8], concat_map(topics, f));
    lemma_placed_byte(data, 0, (topics.len() + 1) as u8);
    lemma_describe_topics_read_back(data, 1, topics);
}

/// A requested topic: its name and tag buffer.
pub struct ReqTopicView {
    pub name: Seq<char>,
    pub tag_buffer: Seq<u8>,
}

impl View for ReqTopic {
    type V = ReqTopicView;

    open spec fn view(&self) -> ReqTopicView {
        ReqTopicView { name: self.name@, tag_buffer: self.tag_buffer@ }
    }
}

impl View for DescribeTopicPartitionsRequest {
    type V = Seq<ReqTopicView>;

    open spec fn view(&self) -> Seq<ReqTopicView> {
        self.topics_array@.map_values(|t: ReqTopic| t@)
    }
}

/// The request that raw topics stand for, names read as text.
pub open spec fn describe_request_view(raw: Seq<(Seq<u8>, Seq<u8>)>) -> Seq<ReqTopicView> {
    raw.map_values(|t: (Seq<u8>, Seq<u8>)| ReqTopicView { name: text_of(t.0), tag_buffer: t.1 })
}

/// Reads a `DescribeTopicPartitions` request body at `body_offset`; `None`
/// exactly where a read would run past the end of the buffer.
pub fn try_parse_describe_topic_partitions_request(buffer: &[u8], body_offset: usize) -> (r: Option<
    DescribeTopicPartitionsRequest,
>)
    ensures
        match describe_request_at(buffer@, body_offset as int) {
            Some(raw) => r matches Some(req) && req@ == describe_request_view(raw),
            None => r is None,
        },
{
    if body_offset >= buffer.len() || buffer[body_offset] == 0 {
        return None;
    }
    let topics_array_length = (buffer[body_offset] - 1) as usize;
    let mut offset = body_offset + 1;
    let ghost target = describe_topics_from(buffer@, offset as int, topics_array_length as nat);
    let ghost mut raw_done: Seq<(Seq<u8>, Seq<u8>)> = Seq::empty();
    let mut topics_array: Vec<ReqTopic> = Vec::new();
    let mut k: usize = 0;
    while k < topics_array_length
        invariant
            k <= topics_array_length,
            body_offset < buffer@.len(),
            buffer@[body_offset as int] != 0,
            topics_array_length == buffer@[body_offset as int] - 1,
            target == describe_topics_from(buffer@, body_offset + 1, topics_array_length as nat),
            target == prepend_topics(
                raw_done,
                describe_topics_from(buffer@, offset as int, (topics_array_length - k) as nat),
            ),
            topics_array@.map_values(|t: ReqTopic| t@) == describe_request_view(raw_done),
        decreases topics_array_length - k,
    {
        if offset >= buffer.len() || buffer[offset] == 0 {
            return None;
        }
        let name_length = (buffer[offset] - 1) as usize;
        if name_length > buffer.len() - offset - 1 {
            return None;
        }
        let name_bytes = slice_subrange(buffer, offset + 1, offset + 1 + name_length);
        let name = string_from_utf8_lossy(name_bytes);
        let tag_pos = offset + 1 + name_length;
        if tag_pos >= buffer.len() {
            return None;
        }
        let tag_buffer_length = buffer[tag_pos] as usize;
        if tag_buffer_length > buffer.len() - tag_pos - 1 {
            return None;
        }
        let tag_buffer = slice_to_vec(slice_subrange(buffer, tag_pos + 1, tag_pos + 1 + tag_buffer_length));
        let ghost before = topics_array@.map_values(|t: ReqTopic| t@);
        let topic = ReqTopic { name, tag_buffer };
        topics_array.push(topic);
        offset = tag_pos + 1 + tag_buffer_length;
        proof {
            let item = (name_bytes@, tag_buffer@);
            match describe_topics_from(buffer@, offset as int, (topics_array_length - k - 1) as nat) {
                Some((rest, q)) => {
                    assert(raw_done.push(item) + rest =~= raw_done + (seq![item] + rest));
                },
                None => {},
            }
            raw_done = raw_done.push(item);
        }
        assert(topics_array@.map_values(|t: ReqTopic| t@) =~= before.push(topic@));
        assert(describe_request_view(raw_done) =~= before.push(topic@));
        k = k + 1;
    }
    assert(raw_done + Seq::<(Seq<u8>, Seq<u8>)>::empty() =~= raw_done);
    Some(DescribeTopicPartitionsRequest { topics_array })
}

/// Reads a `DescribeTopicPartitions` request body at `body_offset`.
pub fn parse_describe_topic_partitions_request(buffer: &[u8], body_offset: usize) -> (r: DescribeTopicPartitionsRequest)
    requires
        describe_request_at(buffer@, body_offset as int) is Some,
    ensures
        r@ == describe_request_view(describe_request_at(buffer@, body_offset as int).unwrap()),
{
    try_parse_describe_topic_partitions_request(buffer, body_offset).unwrap()
}

// ── Response ─────────────────────────────────────────────────────────────

/// The answer for one partition of a topic.
pub struct RespPartition {
    pub error_code: i16,
    pub partition_index: i32,
    pub leader_id: i32,
    pub leader_epoch: i32,
    pub replica_nodes: Vec<i32>,
    pub isr_nodes: Vec<i32>,
}

/// What a partition answer says.
pub struct RespPartitionView {
    pub error_code: i16,
    pub partition_index: i32,
    pub leader_id: i32,
    pub leader_epoch: i32,
    pub replica_nodes: Seq<i32>,
    pub isr_nodes: Seq<i32>,
}

impl View for RespPartition {
    type V = RespPartitionView;

    open spec fn view(&self) -> RespPartitionView {
        RespPartitionView {
            error_code: self.error_code,
            partition_index: self.partition_index,
            leader_id: self.leader_id,
            leader_epoch: self.leader_epoch,
            replica_nodes: self.replica_nodes@,
            isr_nodes: self.isr_nodes@,
        }
    }
}

/// The answer for one requested topic.
pub struct RespTopic {
    pub error_code: i16,
    pub topic_name: String,
    /// The sixteen bytes of the topic's UUID.
    pub topic_id: [u8; 16],
    pub is_internal: bool,
    pub partitions: Vec<RespPartition>,
    pub topic_authorized_operations: i32,
}

/// What a topic answer says.
pub struct RespTopicView {
    pub error_code: i16,
    pub topic_name: Seq<char>,
    pub topic_id: Seq<u8>,
    pub is_internal: bool,
    pub partitions: Seq<RespPartitionView>,
    pub topic_authorized_operations: i32,
}

impl View for RespTopic {
    type V = RespTopicView;

    open spec fn view(&self) -> RespTopicView {
        RespTopicView {
            error_code: self.error_code,
            topic_name: self.topic_name@,
            topic_id: self.topic_id@,
            is_internal: self.is_internal,
            partitions: self.partitions@.map_values(|p: RespPartition| p@),
            topic_authorized_operations: self.topic_authorized_operations,
        }
    }
}

/// A `DescribeTopicPartitions` response: one answer per requested topic.
pub struct DescribeTopicPartitionsResponse {
    pub topics: Vec<RespTopic>,
}

/// The views of a sequence of topic answers.
pub open spec fn resp_topic_views(ts: Seq<RespTopic>) -> Seq<RespTopicView> {
    ts.map_values(|t: RespTopic| t@)
}

impl View for DescribeTopicPartitionsResponse {
    type V = Seq<RespTopicView>;

    open spec fn view(&self) -> Seq<RespTopicView> {
        resp_topic_views(self.topics@)
    }
}

/// The answer for a partition of a known topic.
pub open spec fn resp_partition_of(p: PartitionView) -> RespPartitionView {
    RespPartitionView {
        error_code: 0,
        partition_index: p.index,
        leader_id: p.leader_id,
        leader_epoch: p.leader_epoch,
        replica_nodes: p.replica_nodes,
        isr_nodes: p.isr_nodes,
    }
}

/// The answer for a known topic: error 0, its id and its partitions.
pub open spec fn found_answer(name: Seq<char>, t: TopicView) -> RespTopicView {
    RespTopicView {
        error_code: 0,
        topic_name: name,
        topic_id: t.id,
        is_internal: false,
        partitions: t.partitions.map_values(|p: PartitionView| resp_partition_of(p)),
        topic_authorized_operations: 0,
    }
}

/// The nil UUID.
pub open spec fn nil_id() -> Seq<u8> {
    Seq::new(16, |i: int| 0u8)
}

/// The answer for an unknown topic: error 3 (`UNKNOWN_TOPIC_OR_PARTITION`),
/// the nil id, no partitions.
pub open spec fn not_found_answer(name: Seq<char>) -> RespTopicView {
    RespTopicView {
        error_code: 3,
        topic_name: name,
        topic_id: nil_id(),
        is_internal: false,
        partitions: Seq::empty(),
        topic_authorized_operations: 0,
    }
}

/// The answers to the requested names in order. A known name is answered
/// with its topic and then taken out of the known topics, so a name that
/// is asked for again is answered as unknown.
pub open spec fn describe_answers(names: Seq<Seq<char>>, known: Map<Seq<char>, TopicView>) -> Seq<RespTopicView>
    decreases names.len(),
{
    if names.len() == 0 {
        Seq::empty()
    } else {
        let n = names[0];
        if known.contains_key(n) {
            seq![found_answer(n, known[n])] + describe_answers(names.drop_first(), known.remove(n))
        } else {
            seq![not_found_answer(n)] + describe_answers(names.drop_first(), known)
        }
    }
}

/// Whether `names[i]` is a name of `known` that no earlier name repeats.
pub open spec fn first_known(names: Seq<Seq<char>>, known: Map<Seq<char>, TopicView>, i: int) -> bool {
    known.contains_key(names[i]) && forall|j: int| 0 <= j < i ==> names[j] != names[i]
}

/// The answers follow the request: one answer per requested name, in
/// order and under that name; a name is answered with its topic (error 0)
/// exactly when the broker knows it and it was not asked for before in the
/// same request; otherwise it is answered as unknown (error 3).
pub proof fn lemma_describe_answers(names: Seq<Seq<char>>, known: Map<Seq<char>, TopicView>)
    ensures
        describe_answers(names, known).len() == names.len(),
        forall|i: int|
            0 <= i < names.len() ==> #[trigger] describe_answers(names, known)[i] == (if known.contains_key(
                names[i],
            ) && forall|j: int| 0 <= j < i ==> names[j] != names[i] {
                found_answer(names[i], known[names[i]])
            } else {
                not_found_answer(names[i])
            }),
    decreases names.len(),
{
    if names.len() > 0 {
        let n = names[0];
        let rest = names.drop_first();
        let known2 = if known.contains_key(n) {
            known.remove(n)
        } else {
            known
        };
        lemma_describe_answers(rest, known2);
        let a = describe_answers(names, known);
        assert forall|i: int| 0 <= i < names.len() implies #[trigger] a[i] == (if first_known(names, known, i) {
            found_answer(names[i], known[names[i]])
        } else {
            not_found_answer(names[i])
        }) by {
            if i > 0 {
                assert(rest[i - 1] == names[i]);
                assert(a[i] == describe_answers(rest, known2)[i - 1]);
                if first_known(names, known, i) {
                    assert(names[0] != names[i]);
                    assert forall|j: int| 0 <= j < i - 1 implies #[trigger] rest[j] != rest[i - 1] by {
                        assert(rest[j] == names[j + 1]);
                    }
                    assert(first_known(rest, known2, i - 1));
                } else if first_known(rest, known2, i - 1) {
                    assert(known.contains_key(names[i]));
                    assert forall|j: int| 0 <= j < i implies names[j] != names[i] by {
                        if j > 0 {
                            assert(rest[j - 1] == names[j]);
                        }
                    }
                }
            }
        }
    }
}

/// A known topic is answered with error 0, its name and its id, and with its
/// partitions one for one and in order: each answer carries error 0 and the
/// partition's index, leader, leader epoch, replicas and in-sync replicas.
pub proof fn lemma_found_answer_partitions(name: Seq<char>, t: TopicView)
    ensures
        found_answer(name, t).error_code == 0,
        found_answer(name, t).topic_name == name,
        found_answer(name, t).topic_id == t.id,
        !found_answer(name, t).is_internal,
        found_answer(name, t).topic_authorized_operations == 0,
        found_answer(name, t).partitions.len() == t.partitions.len(),
        forall|j: int|
            0 <= j < t.partitions.len() ==> {
                let a = #[trigger] found_answer(name, t).partitions[j];
                let p = t.partitions[j];
                &&& a.error_code == 0
                &&& a.partition_index == p.index
                &&& a.leader_id == p.leader_id
                &&& a.leader_epoch == p.leader_epoch
                &&& a.replica_nodes == p.replica_nodes
                &&& a.isr_nodes == p.isr_nodes
            },
{
}

/// A name the broker does not know is answered under that name with error
/// 3 (`UNKNOWN_TOPIC_OR_PARTITION`), the nil id (sixteen zero bytes), no
/// partitions, not internal and no authorized operations.
pub proof fn lemma_not_found_answer(name: Seq<char>)
    ensures
        not_found_answer(name).error_code == 3,
        not_found_answer(name).topic_name == name,
        not_found_answer(name).topic_id == seq![0u8, 0, 0, 0, 0, 0, 0, 0, 0, 0, 0, 0, 0, 0, 0, 0],
        not_found_answer(name).partitions.len() == 0,
        !not_found_answer(name).is_internal,
        not_found_answer(name).topic_authorized_operations == 0,
{
    assert(nil_id() =~= seq![0u8, 0, 0, 0, 0, 0, 0, 0, 0, 0, 0, 0, 0, 0, 0, 0]);
}

/// Each requested name that the broker knows, asked for the first time, is
/// answered with the partitions of its topic, one for one and in order,
/// each with the partition's own index, leader, leader epoch, replicas and
/// in-sync replicas.
pub proof fn lemma_describe_answers_partitions(names: Seq<Seq<char>>, known: Map<Seq<char>, TopicView>, i: int)
    requires
        0 <= i < names.len(),
        known.contains_key(names[i]),
        forall|j: int| 0 <= j < i ==> names[j] != names[i],
    ensures
        ({
            let a = describe_answers(names, known)[i];
            let t = known[names[i]];
            &&& a.error_code == 0
            &&& a.topic_id == t.id
            &&& a.partitions.len() == t.partitions.len()
            &&& forall|j: int|
                0 <= j < t.partitions.len() ==> {
                    let ap = #[trigger] a.partitions[j];
                    &&& ap.partition_index == t.partitions[j].index
                    &&& ap.leader_id == t.partitions[j].leader_id
                    &&& ap.leader_epoch == t.partitions[j].leader_epoch
                    &&& ap.replica_nodes == t.partitions[j].replica_nodes
                    &&& ap.isr_nodes == t.partitions[j].isr_nodes
                }
        }),
{
    lemma_describe_answers(names, known);
    lemma_found_answer_partitions(names[i], known[names[i]]);
}

/// A name that is valid UTF-8 is answered under the very bytes it was
/// asked with.
pub proof fn lemma_valid_name_bytes_kept(b: Seq<u8>)
    requires
        valid_utf8(b),
    ensures
        encode_utf8(text_of(b)) == b,
{
    vstd::utf8::decode_utf8_encode_utf8(b);
}

/// The bytes of a sequence of `INT32`s.
pub open spec fn i32s_bytes(s: Seq<i32>) -> Seq<u8> {
    concat_map(s, |x: i32| be_bytes(x as int, 4))
}

/// The bytes of a partition answer: error code, index, leader, leader
/// epoch, replicas and in-sync replicas as compact arrays, three empty
/// compact arrays (eligible leader replicas, last known ELR, offline
/// replicas) and an empty tag buffer.
pub open spec fn resp_partition_bytes(p: RespPartitionView) -> Seq<u8> {
    be_bytes(p.error_code as int, 2) + be_bytes(p.partition_index as int, 4) + be_bytes(
        p.leader_id as int,
        4,
    ) + be_bytes(p.leader_epoch as int, 4) + seq![compact_len_byte(p.replica_nodes.len())] + i32s_bytes(
        p.replica_nodes,
    ) + seq![compact_len_byte(p.isr_nodes.len())] + i32s_bytes(p.isr_nodes) + seq![1u8, 1u8, 1u8, 0u8]
}

/// The bytes of a topic answer: error code, name (compact string), the
/// sixteen id bytes, the internal flag, the partitions (compact array),
/// authorized operations and an empty tag buffer.
pub open spec fn resp_topic_bytes(t: RespTopicView) -> Seq<u8> {
    be_bytes(t.error_code as int, 2) + seq![compact_len_byte(encode_utf8(t.topic_name).len())]
        + encode_utf8(t.topic_name) + t.topic_id + seq![if t.is_internal { 1u8 } else { 0u8 }] + seq![
        compact_len_byte(t.partitions.len()),
    ] + concat_map(t.partitions, |p: RespPartitionView| resp_partition_bytes(p)) + be_bytes(
        t.topic_authorized_operations as int,
        4,
    ) + seq![0u8]
}

/// The bytes of a `DescribeTopicPartitions` response body: throttle time 0,
/// the topics (compact array), a null next cursor and an empty tag buffer.
pub open spec fn describe_response_bytes(ts: Seq<RespTopicView>) -> Seq<u8> {
    be_bytes(0, 4) + seq![compact_len_byte(ts.len())] + concat_map(
        ts,
        |t: RespTopicView| resp_topic_bytes(t),
    ) + seq![0xFFu8, 0u8]
}

/// Whether the counts of a partition answer fit their length bytes.
pub open spec fn resp_partition_encodable(p: RespPartitionView) -> bool {
    fits_len_byte(p.replica_nodes.len()) && fits_len_byte(p.isr_nodes.len())
}

/// Whether the counts of a topic answer and of its partitions fit their
/// length bytes (and the id has its sixteen bytes).
pub open spec fn resp_topic_encodable(t: RespTopicView) -> bool {
    &&& fits_len_byte(encode_utf8(t.topic_name).len())
    &&& t.topic_id.len() == 16
    &&& fits_len_byte(t.partitions.len())
    &&& forall|i: int| 0 <= i < t.partitions.len() ==> resp_partition_encodable(#[trigger] t.partitions[i])
}

/// Whether every count of a response fits its length byte.
pub open spec fn describe_response_encodable(ts: Seq<RespTopicView>) -> bool {
    fits_len_byte(ts.len()) && forall|i: int| 0 <= i < ts.len() ==> resp_topic_encodable(#[trigger] ts[i])
}

// ── Reading a response back ──────────────────────────────────────────────

/// A `BOOLEAN` at `pos`: one byte, true unless zero.
pub open spec fn bool_at(data: Seq<u8>, pos: int) -> Option<(bool, int)> {
    if 0 <= pos < data.len() {
        Some((data[pos] != 0, pos + 1))
    } else {
        None
    }
}

/// One partition answer of a `DescribeTopicPartitions` response (v0) at
/// `pos`: `INT16` error code, `INT32` index, leader and leader epoch, the
/// replicas and in-sync replicas (compact arrays of `INT32`), the eligible
/// leader replicas, last known ELR and offline replicas (compact arrays of
/// `INT32`, not kept), and a tag buffer.
pub open spec fn resp_partition_at(data: Seq<u8>, pos: int) -> Option<(RespPartitionView, int)> {
    match i16_at(data, pos) {
        None => None,
        Some((error_code, p1)) => match i32_at(data, p1) {
            None => None,
            Some((partition_index, p2)) => match i32_at(data, p2) {
                None => None,
                Some((leader_id, p3)) => match i32_at(data, p3) {
                    None => None,
                    Some((leader_epoch, p4)) => match compact_i32_array_at(data, p4) {
                        None => None,
                        Some((replica_nodes, p5)) => match compact_i32_array_at(data, p5) {
                            None => None,
                            Some((isr_nodes, p6)) => match compact_i32_array_at(data, p6) {
                                None => None,
                                Some((_elr, p7)) => match compact_i32_array_at(data, p7) {
                                    None => None,
                                    Some((_last_known_elr, p8)) => match compact_i32_array_at(data, p8) {
                                        None => None,
                                        Some((_offline, p9)) => match tag_buffer_at(data, p9) {
                                            None => None,
                                            Some(p10) => Some(
                                                (
                                                    RespPartitionView {
                                                        error_code,
                                                        partition_index,
                                                        leader_id,
                                                        leader_epoch,
                                                        replica_nodes,
                                                        isr_nodes,
                                                    },
                                                    p10,
                                                ),
                                            ),
                                        },
                                    },
                                },
                            },
                        },
                    },
                },
            },
        },
    }
}

/// `n` partition answers one after the other from `pos`.
pub open spec fn resp_partitions_from(data: Seq<u8>, pos: int, n: nat) -> Option<(Seq<RespPartitionView>, int)>
    decreases n,
{
    if n == 0 {
        Some((Seq::empty(), pos))
    } else {
        match resp_partitions_from(data, pos, (n - 1) as nat) {
            None => None,
            Some((ps, p)) => match resp_partition_at(data, p) {
                None => None,
                Some((x, q)) => Some((ps.push(x), q)),
            },
        }
    }
}

/// A topic answer as a client reads it, with its name as raw bytes.
pub struct ReadTopicAnswer {
    pub error_code: i16,
    pub name: Seq<u8>,
    pub topic_id: Seq<u8>,
    pub is_internal: bool,
    pub partitions: Seq<RespPartitionView>,
    pub topic_authorized_operations: i32,
}

/// One topic answer at `pos`: `INT16` error code, the name (compact
/// string), the `UUID`, `is_internal` (`BOOLEAN`), the partition answers
/// (compact array), `INT32` authorized operations and a tag buffer.
pub open spec fn resp_topic_at(data: Seq<u8>, pos: int) -> Option<(ReadTopicAnswer, int)> {
    match i16_at(data, pos) {
        None => None,
        Some((error_code, p1)) => match compact_string_at(data, p1) {
            None => None,
            Some((name, p2)) => match uuid_at(data, p2) {
                None => None,
                Some((topic_id, p3)) => match bool_at(data, p3) {
                    None => None,
                    Some((is_internal, p4)) => match compact_array_len_at(data, p4) {
                        None => None,
                        Some((k, p5)) => match resp_partitions_from(data, p5, k as nat) {
                            None => None,
                            Some((partitions, p6)) => match i32_at(data, p6) {
                                None => None,
                                Some((topic_authorized_operations, p7)) => match tag_buffer_at(data, p7) {
                                    None => None,
                                    Some(p8) => Some(
                                        (
                                            ReadTopicAnswer {
                                                error_code,
                                                name,
                                                topic_id,
                                                is_internal,
                                                partitions,
                                                topic_authorized_operations,
                                            },
                                            p8,
                                        ),
                                    ),
                                },
                            },
                        },
                    },
                },
            },
        },
    }
}

/// `n` topic answers one after the other from `pos`.
pub open spec fn resp_topics_from(data: Seq<u8>, pos: int, n: nat) -> Option<(Seq<ReadTopicAnswer>, int)>
    decreases n,
{
    if n == 0 {
        Some((Seq::empty(), pos))
    } else {
        match resp_topics_from(data, pos, (n - 1) as nat) {
            None => None,
            Some((ts, p)) => match resp_topic_at(data, p) {
                None => None,
                Some((x, q)) => Some((ts.push(x), q)),
            },
        }
    }
}

/// A `DescribeTopicPartitions` response body (v0) at `pos`, as a client
/// reads it: `INT32` throttle time, the topic answers (compact array), a
/// null next cursor (the byte `0xFF`) and a tag buffer.
pub open spec fn describe_response_at(data: Seq<u8>, pos: int) -> Option<(Seq<ReadTopicAnswer>, int)> {
    match i32_at(data, pos) {
        None => None,
        Some((_throttle, p1)) => match compact_array_len_at(data, p1) {
            None => None,
            Some((n, p2)) => match resp_topics_from(data, p2, n as nat) {
                None => None,
                Some((ts, p3)) => if 0 <= p3 < data.len() && data[p3] == 0xFF {
                    match tag_buffer_at(data, p3 + 1) {
                        None => None,
                        Some(p4) => Some((ts, p4)),
                    }
                } else {
                    None
                },
            },
        },
    }
}

/// What a client reads of a topic answer.
pub open spec fn read_answer_of(t: RespTopicView) -> ReadTopicAnswer {
    ReadTopicAnswer {
        error_code: t.error_code,
        name: encode_utf8(t.topic_name),
        topic_id: t.topic_id,
        is_internal: t.is_internal,
        partitions: t.partitions,
        topic_authorized_operations: t.topic_authorized_operations,
    }
}

/// Every count of a response is below 127, where its one-byte length is the
/// varint Kafka specifies, and every id has sixteen bytes.
pub open spec fn describe_counts_small(ts: Seq<RespTopicView>) -> bool {
    &&& ts.len() < 127
    &&& forall|i: int|
        0 <= i < ts.len() ==> {
            let t = #[trigger] ts[i];
            &&& encode_utf8(t.topic_name).len() < 127
            &&& t.topic_id.len() == 16
            &&& t.partitions.len() < 127
            &&& forall|j: int|
                0 <= j < t.partitions.len() ==> (#[trigger] t.partitions[j]).replica_nodes.len() < 127
                    && t.partitions[j].isr_nodes.len() < 127
        }
}

#[verifier::spinoff_prover]
#[verifier::rlimit(50)]
proof fn lemma_resp_partition_reads_back(data: Seq<u8>, pos: int, p: RespPartitionView)
    requires
        p.replica_nodes.len() < 127,
        p.isr_nodes.len() < 127,
        placed(data, pos, resp_partition_bytes(p)),
    ensures
        resp_partition_at(data, pos) == Some((p, pos + resp_partition_bytes(p).len())),
{
    let g = |x: i32| be_bytes(x as int, 4);
    let a = be_bytes(p.error_code as int, 2);
    let b = be_bytes(p.partition_index as int, 4);
    let c = be_bytes(p.leader_id as int, 4);
    let d = be_bytes(p.leader_epoch as int, 4);
    let r = seq![compact_len_byte(p.replica_nodes.len())] + i32s_bytes(p.replica_nodes);
    let i = seq![compact_len_byte(p.isr_nodes.len())] + i32s_bytes(p.isr_nodes);
    let e = seq![1u8];
    let z = seq![0u8];
    assert(resp_partition_bytes(p) =~= a + b + c + d + r + i + e + e + e + z);
    lemma_placed_split(data, pos, a + b + c + d + r + i + e + e + e, z);
    lemma_placed_split(data, pos, a + b + c + d + r + i + e + e, e);
    lemma_placed_split(data, pos, a + b + c + d + r + i + e, e);
    lemma_placed_split(data, pos, a + b + c + d + r + i, e);
    lemma_placed_split(data, pos, a + b + c + d + r, i);
    lemma_placed_split(data, pos, a + b + c + d, r);
    lemma_placed_split(data, pos, a + b + c, d);
    lemma_placed_split(data, pos, a + b, c);
    lemma_placed_split(data, pos, a, b);
    lemma_placed_ints(data, pos, p.error_code, 0, 0);
    lemma_placed_ints(data, pos + 2, 0, p.partition_index, 0);
    lemma_placed_ints(data, pos + 6, 0, p.leader_id, 0);
    lemma_placed_ints(data, pos + 10, 0, p.leader_epoch, 0);
    lemma_placed_i32_array(data, pos + 14, p.replica_nodes);
    let q = pos + 14 + r.len();
    lemma_placed_i32_array(data, q, p.isr_nodes);
    let q2 = q + i.len();
    let empty = Seq::<i32>::empty();
    assert(e =~= seq![compact_len_byte(empty.len())] + concat_map(empty, g));
    lemma_placed_i32_array(data, q2, empty);
    lemma_placed_i32_array(data, q2 + 1, empty);
    lemma_placed_i32_array(data, q2 + 2, empty);
    lemma_placed_zero(data, q2 + 3);
    assert(r.len() == 1 + 4 * p.replica_nodes.len());
    assert(i.len() == 1 + 4 * p.isr_nodes.len());
    assert(i16_at(data, pos) == Some((p.error_code, pos + 2)));
    assert(i32_at(data, pos + 2) == Some((p.partition_index, pos + 6)));
    assert(i32_at(data, pos + 6) == Some((p.leader_id, pos + 10)));
    assert(i32_at(data, pos + 10) == Some((p.leader_epoch, pos + 14)));
    assert(compact_i32_array_at(data, pos + 14) == Some((p.replica_nodes, q)));
    assert(compact_i32_array_at(data, q) == Some((p.isr_nodes, q2)));
    assert(compact_i32_array_at(data, q2) == Some((empty, q2 + 1)));
    assert(compact_i32_array_at(data, q2 + 1) == Some((empty, q2 + 2)));
    assert(compact_i32_array_at(data, q2 + 2) == Some((empty, q2 + 3)));
    assert(tag_buffer_at(data, q2 + 3) == Some(q2 + 4));
    assert(q2 + 4 == pos + resp_partition_bytes(p).len());
}

#[verifier::spinoff_prover]
#[verifier::rlimit(50)]
proof fn lemma_resp_partitions_read_back(data: Seq<u8>, pos: int, s: Seq<RespPartitionView>)
    requires
        forall|j: int|
            0 <= j < s.len() ==> (#[trigger] s[j]).replica_nodes.len() < 127 && s[j].isr_nodes.len() < 127,
        placed(data, pos, concat_map(s, |p: RespPartitionView| resp_partition_bytes(p))),
    ensures
        resp_partitions_from(data, pos, s.len()) == Some(
            (s, pos + concat_map(s, |p: RespPartitionView| resp_partition_bytes(p)).len()),
        ),
    decreases s.len(),
{
    let f = |p: RespPartitionView| resp_partition_bytes(p);
    if s.len() > 0 {
        let init = s.drop_last();
        assert forall|j: int| 0 <= j < init.len() implies (#[trigger] init[j]).replica_nodes.len() < 127
            && init[j].isr_nodes.len() < 127 by {
            assert(init[j] == s[j]);
        }
        assert(s.last() == s[s.len() - 1]);
        lemma_placed_split(data, pos, concat_map(init, f), f(s.last()));
        lemma_resp_partitions_read_back(data, pos, init);
        lemma_resp_partition_reads_back(data, pos + concat_map(init, f).len(), s.last());
        assert(init.push(s.last()) =~= s);
        assert((init.len() + 1 - 1) as nat == init.len());
    }
}

#[verifier::spinoff_prover]
#[verifier::rlimit(50)]
proof fn lemma_resp_topic_reads_back(data: Seq<u8>, pos: int, t: RespTopicView)
    requires
        encode_utf8(t.topic_name).len() < 127,
        t.topic_id.len() == 16,
        t.partitions.len() < 127,
        forall|j: int|
            0 <= j < t.partitions.len() ==> (#[trigger] t.partitions[j]).replica_nodes.len() < 127
                && t.partitions[j].isr_nodes.len() < 127,
        placed(data, pos, resp_topic_bytes(t)),
    ensures
        resp_topic_at(data, pos) == Some((read_answer_of(t), pos + resp_topic_bytes(t).len())),
{
    let f = |p: RespPartitionView| resp_partition_bytes(p);
    let name = encode_utf8(t.topic_name);
    let a = be_bytes(t.error_code as int, 2);
    let nl = seq![compact_len_byte(name.len())];
    let id = t.topic_id;
    let bi = seq![if t.is_internal { 1u8 } else { 0u8 }];
    let pl = seq![compact_len_byte(t.partitions.len())];
    let ps = concat_map(t.partitions, f);
    let au = be_bytes(t.topic_authorized_operations as int, 4);
    let z = seq![0u8];
    assert(resp_topic_bytes(t) =~= a + nl + name + id + bi + pl + ps + au + z);
    lemma_placed_split(data, pos, a + nl + name + id + bi + pl + ps + au, z);
    lemma_placed_split(data, pos, a + nl + name + id + bi + pl + ps, au);
    lemma_placed_split(data, pos, a + nl + name + id + bi + pl, ps);
    lemma_placed_split(data, pos, a + nl + name + id + bi, pl);
    lemma_placed_split(data, pos, a + nl + name + id, bi);
    lemma_placed_split(data, pos, a + nl + name, id);
    lemma_placed_split(data, pos, a + nl, name);
    lemma_placed_split(data, pos, a, nl);
    lemma_placed_ints(data, pos, t.error_code, 0, 0);
    lemma_placed_len_byte(data, pos + 2, name.len());
    lemma_placed_bytes(data, pos + 3, name);
    let p3 = pos + 3 + name.len();
    lemma_placed_bytes(data, p3, id);
    let p4 = p3 + 16;
    assert(data[p4] == data.subrange(p4, p4 + 1)[0]);
    lemma_placed_len_byte(data, p4 + 1, t.partitions.len());
    lemma_resp_partitions_read_back(data, p4 + 2, t.partitions);
    let p6 = p4 + 2 + ps.len();
    lemma_placed_ints(data, p6, 0, t.topic_authorized_operations, 0);
    lemma_placed_zero(data, p6 + 4);
}

#[verifier::spinoff_prover]
#[verifier::rlimit(50)]
proof fn lemma_resp_topics_read_back(data: Seq<u8>, pos: int, s: Seq<RespTopicView>)
    requires
        describe_counts_small(s),
        placed(data, pos, concat_map(s, |t: RespTopicView| resp_topic_bytes(t))),
    ensures
        resp_topics_from(data, pos, s.len()) == Some(
            (
                s.map_values(|t: RespTopicView| read_answer_of(t)),
                pos + concat_map(s, |t: RespTopicView| resp_topic_bytes(t)).len(),
            ),
        ),
    decreases s.len(),
{
    let f = |t: RespTopicView| resp_topic_bytes(t);
    let g = |t: RespTopicView| read_answer_of(t);
    if s.len() == 0 {
        assert(s.map_values(g) =~= Seq::<ReadTopicAnswer>::empty());
    } else {
        let init = s.drop_last();
        assert(describe_counts_small(init)) by {
            assert forall|i: int| 0 <= i < init.len() implies #[trigger] init[i] == s[i] by {}
        }
        let last = s.last();
        assert(last == s[s.len() - 1]);
        lemma_placed_split(data, pos, concat_map(init, f), f(last));
        lemma_resp_topics_read_back(data, pos, init);
        lemma_resp_topic_reads_back(data, pos + concat_map(init, f).len(), last);
        assert(init.map_values(g).push(g(last)) =~= s.map_values(g));
        assert((init.len() + 1 - 1) as nat == init.len());
    }
}

/// A `DescribeTopicPartitions` response reads back as its answers: a client
/// that reads the bytes the broker writes with the v0 response grammar gets,
/// topic by topic and in order, each answer's error code, name (its UTF-8
/// bytes), id, internal flag, partition answers (error code, index, leader,
/// leader epoch, replicas, in-sync replicas) and authorized operations, then
/// a null cursor, and stops at the end of the bytes. The counts and names
/// are below 127, where their one-byte lengths are the varints Kafka
/// specifies.
#[verifier::spinoff_prover]
#[verifier::rlimit(50)]
pub proof fn lemma_describe_response_reads_back(ts: Seq<RespTopicView>)
    requires
        describe_counts_small(ts),
    ensures
        describe_response_at(describe_response_bytes(ts), 0) == Some(
            (ts.map_values(|t: RespTopicView| read_answer_of(t)), describe_response_bytes(ts).len() as int),
        ),
{
    let data = describe_response_bytes(ts);
    let f = |t: RespTopicView| resp_topic_bytes(t);
    let th = be_bytes(0, 4);
    let a = seq![compact_len_byte(ts.len())];
    let body = concat_map(ts, f);
    let tail = seq![0xFFu8, 0u8];
    assert(data.subrange(0, data.len() as int) =~= data);
    lemma_placed_split(data, 0, th + a + body, tail);
    lemma_placed_split(data, 0, th + a, body);
    lemma_placed_split(data, 0, th, a);
    lemma_placed_ints(data, 0, 0, 0, 0);
    lemma_placed_len_byte(data, 4, ts.len());
    lemma_resp_topics_read_back(data, 5, ts);
    let p3: int = 5int + body.len();
    assert(tail =~= seq![0xFFu8] + seq![0u8]);
    lemma_placed_split(data, p3, seq![0xFFu8], seq![0u8]);
    assert(data[p3] == data.subrange(p3, p3 + 1)[0]);
    lemma_placed_zero(data, p3 + 1);
}

/// Appends the `INT32`s of `v`.
fn put_i32s(buf: &mut BytesMut, v: &Vec<i32>)
    requires
        bytes_mut_contents(*old(buf)).len() + i32s_bytes(v@).len() <= isize::MAX,
    ensures
        bytes_mut_contents(*final(buf)) == bytes_mut_contents(*old(buf)) + i32s_bytes(v@),
{
    let ghost start = bytes_mut_contents(*buf);
    let ghost f = |x: i32| be_bytes(x as int, 4);
    assert(bytes_mut_contents(*buf) =~= start + concat_map(v@.take(0), f));
    let mut i: usize = 0;
    while i < v.len()
        invariant
            i <= v@.len(),
            f == (|x: i32| be_bytes(x as int, 4)),
            bytes_mut_contents(*buf) == start + concat_map(v@.take(i as int), f),
            start.len() + i32s_bytes(v@).len() <= isize::MAX,
        decreases v@.len() - i,
    {
        proof {
            lemma_concat_map_take(v@, f, i as int);
            lemma_concat_map_prefix_len(v@, f, i + 1);
        }
        put_i32(buf, v[i]);
        assert(bytes_mut_contents(*buf) =~= start + concat_map(v@.take(i + 1), f));
        i = i + 1;
    }
    assert(v@.take(i as int) =~= v@);
}

impl RespPartition {
    /// Appends the bytes of the partition answer.
    fn encode(&self, buf: &mut BytesMut)
        requires
            resp_partition_encodable(self@),
            bytes_mut_contents(*old(buf)).len() + resp_partition_bytes(self@).len() <= isize::MAX,
        ensures
            bytes_mut_contents(*final(buf)) == bytes_mut_contents(*old(buf)) + resp_partition_bytes(self@),
    {
        let ghost start = bytes_mut_contents(*buf);
        put_i16(buf, self.error_code);
        put_i32(buf, self.partition_index);
        put_i32(buf, self.leader_id);
        put_i32(buf, self.leader_epoch);
        put_u8(buf, len_byte(self.replica_nodes.len()));
        put_i32s(buf, &self.replica_nodes);
        put_u8(buf, len_byte(self.isr_nodes.len()));
        put_i32s(buf, &self.isr_nodes);
        put_u8(buf, 1);
        put_u8(buf, 1);
        put_u8(buf, 1);
        put_u8(buf, 0);
        assert(bytes_mut_contents(*buf) =~= start + resp_partition_bytes(self@));
    }
}

impl RespTopic {
    /// Appends the bytes of the topic answer.
    fn encode(&self, buf: &mut BytesMut)
        requires
            resp_topic_encodable(self@),
            bytes_mut_contents(*old(buf)).len() + resp_topic_bytes(self@).len() <= isize::MAX,
        ensures
            bytes_mut_contents(*final(buf)) == bytes_mut_contents(*old(buf)) + resp_topic_bytes(self@),
    {
        let ghost start = bytes_mut_contents(*buf);
        let ghost f = |p: RespPartitionView| resp_partition_bytes(p);
        let ghost ps = self@.partitions;
        put_i16(buf, self.error_code);
        let name_bytes = self.topic_name.as_str().as_bytes();
        assert(name_bytes@ == encode_utf8(self@.topic_name));
        put_u8(buf, len_byte(name_bytes.len()));
        extend_from_slice(buf, name_bytes);
        extend_from_slice(buf, vstd::array::array_as_slice(&self.topic_id));
        put_u8(buf, if self.is_internal { 1 } else { 0 });
        put_u8(buf, len_byte(self.partitions.len()));
        let ghost head = be_bytes(self@.error_code as int, 2) + seq![
            compact_len_byte(encode_utf8(self@.topic_name).len()),
        ] + encode_utf8(self@.topic_name) + self@.topic_id + seq![if self@.is_internal { 1u8 } else { 0u8 }]
            + seq![compact_len_byte(ps.len())];
        assert(bytes_mut_contents(*buf) =~= start + head + concat_map(ps.take(0), f));
        let mut i: usize = 0;
        while i < self.partitions.len()
            invariant
                i <= ps.len(),
                ps == self@.partitions,
                ps.len() == self.partitions@.len(),
                f == (|p: RespPartitionView| resp_partition_bytes(p)),
                forall|j: int| 0 <= j < ps.len() ==> resp_partition_encodable(#[trigger] ps[j]),
                bytes_mut_contents(*buf) == start + head + concat_map(ps.take(i as int), f),
                start.len() + resp_topic_bytes(self@).len() <= isize::MAX,
                resp_topic_bytes(self@) == head + concat_map(ps, f) + be_bytes(
                    self@.topic_authorized_operations as int,
                    4,
                ) + seq![0u8],
            decreases ps.len() - i,
        {
            proof {
                lemma_concat_map_take(ps, f, i as int);
                lemma_concat_map_prefix_len(ps, f, i + 1);
            }
            assert(ps[i as int] == self.partitions@[i as int]@);
            self.partitions[i].encode(buf);
            assert(bytes_mut_contents(*buf) =~= start + head + concat_map(ps.take(i + 1), f));
            i = i + 1;
        }
        assert(ps.take(i as int) =~= ps);
        assert(bytes_mut_contents(*buf) == start + head + concat_map(ps, f));
        put_i32(buf, self.topic_authorized_operations);
        put_u8(buf, 0);
        assert(bytes_mut_contents(*buf) =~= start + resp_topic_bytes(self@));
    }
}

/// Appends the body of a `DescribeTopicPartitions` response that answers
/// with `topics`.
pub fn encode_describe_response(topics: &Vec<RespTopic>, buf: &mut BytesMut)
    requires
        describe_response_encodable(resp_topic_views(topics@)),
        bytes_mut_contents(*old(buf)).len() + describe_response_bytes(resp_topic_views(topics@)).len()
            <= isize::MAX,
    ensures
        bytes_mut_contents(*final(buf)) == bytes_mut_contents(*old(buf)) + describe_response_bytes(
            resp_topic_views(topics@),
        ),
{
    let ghost start = bytes_mut_contents(*buf);
    let ghost f = |t: RespTopicView| resp_topic_bytes(t);
    let ghost ts = resp_topic_views(topics@);
    put_i32(buf, 0);
    put_u8(buf, len_byte(topics.len()));
    let ghost head = be_bytes(0, 4) + seq![compact_len_byte(ts.len())];
    assert(bytes_mut_contents(*buf) =~= start + head + concat_map(ts.take(0), f));
    let mut i: usize = 0;
    while i < topics.len()
        invariant
            i <= ts.len(),
            ts == resp_topic_views(topics@),
            ts.len() == topics@.len(),
            f == (|t: RespTopicView| resp_topic_bytes(t)),
            forall|j: int| 0 <= j < ts.len() ==> resp_topic_encodable(#[trigger] ts[j]),
            bytes_mut_contents(*buf) == start + head + concat_map(ts.take(i as int), f),
            start.len() + describe_response_bytes(ts).len() <= isize::MAX,
            describe_response_bytes(ts) == head + concat_map(ts, f) + seq![0xFFu8, 0u8],
        decreases ts.len() - i,
    {
        proof {
            lemma_concat_map_take(ts, f, i as int);
            lemma_concat_map_prefix_len(ts, f, i + 1);
        }
        assert(ts[i as int] == topics@[i as int]@);
        topics[i].encode(buf);
        assert(bytes_mut_contents(*buf) =~= start + head + concat_map(ts.take(i + 1), f));
        i = i + 1;
    }
    assert(ts.take(i as int) =~= ts);
    assert(bytes_mut_contents(*buf) == start + head + concat_map(ts, f));
    put_u8(buf, 0xFF);
    put_u8(buf, 0);
    assert(bytes_mut_contents(*buf) =~= start + describe_response_bytes(ts));
}

impl KafkaEncode for DescribeTopicPartitionsResponse {
    open spec fn encoding(&self) -> Seq<u8> {
        describe_response_bytes(self@)
    }

    open spec fn encodable(&self) -> bool {
        describe_response_encodable(self@)
    }

    open spec fn header_version(&self) -> u8 {
        1
    }

    fn encode(&self, buf: &mut BytesMut) {
        encode_describe_response(&self.topics, buf);
    }

    fn response_header_version(&self) -> (v: u8) {
        1
    }
}

impl RespPartition {
    /// The length of the partition answer's bytes, or `None` where a count
    /// does not fit its length byte or the length does not fit a `usize`.
    fn checked_len(&self) -> (r: Option<usize>)
        ensures
            match r {
                Some(n) => resp_partition_encodable(self@) && n == resp_partition_bytes(self@).len(),
                None => !resp_partition_encodable(self@) || resp_partition_bytes(self@).len() > usize::MAX,
            },
    {
        let nr = self.replica_nodes.len();
        let ni = self.isr_nodes.len();
        if nr % 256 == 255 || ni % 256 == 255 {
            return None;
        }
        let ghost f = |x: i32| be_bytes(x as int, 4);
        assert forall|x: i32| #[trigger] f(x).len() == 4 by {}
        proof {
            crate::wire::lemma_concat_map_len_const(self@.replica_nodes, f, 4);
            crate::wire::lemma_concat_map_len_const(self@.isr_nodes, f, 4);
        }
        assert(i32s_bytes(self@.replica_nodes).len() == 4 * nr);
        assert(i32s_bytes(self@.isr_nodes).len() == 4 * ni);
        assert(resp_partition_bytes(self@).len() == 20 + 4 * nr + 4 * ni);
        let q: usize = (usize::MAX - 20) / 4;
        if nr > q || ni > q - nr {
            assert(4 * nr + 4 * ni > usize::MAX - 20) by (nonlinear_arith)
                requires
                    q == (usize::MAX - 20) / 4,
                    nr > q || nr + ni > q,
                    ni >= 0,
                    nr >= 0;
            return None;
        }
        assert(4 * nr + 4 * ni <= usize::MAX - 20) by (nonlinear_arith)
            requires
                q == (usize::MAX - 20) / 4,
                nr + ni <= q,
                ni >= 0,
                nr >= 0;
        Some(20 + 4 * nr + 4 * ni)
    }
}

impl RespTopic {
    /// The length of the topic answer's bytes, or `None` where a count does
    /// not fit its length byte or the length does not fit a `usize`.
    fn checked_len(&self) -> (r: Option<usize>)
        ensures
            match r {
                Some(n) => resp_topic_encodable(self@) && n == resp_topic_bytes(self@).len(),
                None => !resp_topic_encodable(self@) || resp_topic_bytes(self@).len() > usize::MAX,
            },
    {
        let name_len = self.topic_name.as_str().as_bytes().len();
        assert(name_len == encode_utf8(self@.topic_name).len());
        if name_len % 256 == 255 || self.partitions.len() % 256 == 255 || name_len > usize::MAX - 26 {
            return None;
        }
        let ghost f = |p: RespPartitionView| resp_partition_bytes(p);
        let ghost ps = self@.partitions;
        let mut total: usize = 26 + name_len;
        let mut i: usize = 0;
        while i < self.partitions.len()
            invariant
                i <= ps.len(),
                ps == self@.partitions,
                ps.len() == self.partitions@.len(),
                f == (|p: RespPartitionView| resp_partition_bytes(p)),
                fits_len_byte(encode_utf8(self@.topic_name).len()),
                fits_len_byte(ps.len()),
                forall|j: int| 0 <= j < i ==> resp_partition_encodable(#[trigger] ps[j]),
                total == 26 + name_len + concat_map(ps.take(i as int), f).len(),
                name_len == encode_utf8(self@.topic_name).len(),
            decreases ps.len() - i,
        {
            proof {
                lemma_concat_map_take(ps, f, i as int);
                lemma_concat_map_prefix_len(ps, f, i + 1);
            }
            assert(ps[i as int] == self.partitions@[i as int]@);
            let n = match self.partitions[i].checked_len() {
                Some(n) => n,
                None => return None,
            };
            if total > usize::MAX - n {
                return None;
            }
            total = total + n;
            i = i + 1;
        }
        assert(ps.take(i as int) =~= ps);
        Some(total)
    }
}

/// The length of the body of a `DescribeTopicPartitions` response that
/// answers with `topics`, or `None` where a count does not fit its length
/// byte or the length does not fit a `usize`.
pub fn describe_checked_len(topics: &Vec<RespTopic>) -> (r: Option<usize>)
    ensures
        match r {
            Some(n) => describe_response_encodable(resp_topic_views(topics@)) && n == describe_response_bytes(
                resp_topic_views(topics@),
            ).len(),
            None => !describe_response_encodable(resp_topic_views(topics@)) || describe_response_bytes(
                resp_topic_views(topics@),
            ).len() > usize::MAX,
        },
{
    let ghost f = |t: RespTopicView| resp_topic_bytes(t);
    let ghost ts = resp_topic_views(topics@);
    if topics.len() % 256 == 255 {
        return None;
    }
    let mut total: usize = 7;
    let mut i: usize = 0;
    while i < topics.len()
        invariant
            i <= ts.len(),
            ts == resp_topic_views(topics@),
            ts.len() == topics@.len(),
            f == (|t: RespTopicView| resp_topic_bytes(t)),
            fits_len_byte(ts.len()),
            forall|j: int| 0 <= j < i ==> resp_topic_encodable(#[trigger] ts[j]),
            total == 7 + concat_map(ts.take(i as int), f).len(),
        decreases ts.len() - i,
    {
        proof {
            lemma_concat_map_take(ts, f, i as int);
            lemma_concat_map_prefix_len(ts, f, i + 1);
        }
        assert(ts[i as int] == topics@[i as int]@);
        let n = match topics[i].checked_len() {
            Some(n) => n,
            None => return None,
        };
        if total > usize::MAX - n {
            return None;
        }
        total = total + n;
        i = i + 1;
    }
    assert(ts.take(i as int) =~= ts);
    Some(total)
}

impl DescribeTopicPartitionsResponse {
    /// The length of the response body's bytes, or `None` where a count
    /// does not fit its length byte or the length does not fit a `usize`.
    pub fn checked_encoding_len(&self) -> (r: Option<usize>)
        ensures
            match r {
                Some(n) => self.encodable() && n == self.encoding().len(),
                None => !self.encodable() || self.encoding().len() > usize::MAX,
            },
    {
        describe_checked_len(&self.topics)
    }
}

/// The answer for a known topic, from its plain records.
fn found_topic(name: String, topic: TopicMetadata) -> (r: RespTopic)
    ensures
        r@ == found_answer(name@, topic@),
{
    let ghost target = topic@.partitions.map_values(|p: PartitionView| resp_partition_of(p));
    let TopicMetadata { topic_id, partitions: metas } = topic;
    let mut metas = metas;
    let ghost all = metas@.map_values(|p: PartitionMetadata| p@);
    let mut partitions: Vec<RespPartition> = Vec::new();
    let mut i: usize = 0;
    let n = metas.len();
    while metas.len() > 0
        invariant
            n == all.len(),
            i + metas@.len() == n,
            metas@.map_values(|p: PartitionMetadata| p@) == all.skip(i as int),
            target == all.map_values(|p: PartitionView| resp_partition_of(p)),
            partitions@.map_values(|p: RespPartition| p@) == target.take(i as int),
        decreases metas@.len(),
    {
        let ghost before = partitions@.map_values(|p: RespPartition| p@);
        let ghost rest = metas@.map_values(|p: PartitionMetadata| p@);
        let p = metas.remove(0);
        assert(rest[0] == all[i as int]);
        assert(metas@.map_values(|p: PartitionMetadata| p@) =~= rest.drop_first());
        assert(all.skip(i as int).drop_first() =~= all.skip(i + 1));
        let rp = RespPartition {
            error_code: 0,
            partition_index: p.partition_index,
            leader_id: p.leader_id,
            leader_epoch: p.leader_epoch,
            replica_nodes: p.replica_nodes,
            isr_nodes: p.isr_nodes,
        };
        partitions.push(rp);
        assert(partitions@.map_values(|p: RespPartition| p@) =~= before.push(rp@));
        assert(partitions@.map_values(|p: RespPartition| p@) =~= target.take(i + 1));
        i = i + 1;
    }
    assert(target.take(i as int) =~= target);
    RespTopic {
        error_code: 0,
        topic_name: name,
        topic_id,
        is_internal: false,
        partitions,
        topic_authorized_operations: 0,
    }
}

/// The answer for a topic the broker does not know.
fn not_found_topic(name: String) -> (r: RespTopic)
    ensures
        r@ == not_found_answer(name@),
{
    let nil: [u8; 16] = [0u8, 0u8, 0u8, 0u8, 0u8, 0u8, 0u8, 0u8, 0u8, 0u8, 0u8, 0u8, 0u8, 0u8, 0u8, 0u8];
    assert(nil@ =~= nil_id());
    let r = RespTopic {
        error_code: 3,
        topic_name: name,
        topic_id: nil,
        is_internal: false,
        partitions: Vec::new(),
        topic_authorized_operations: 0,
    };
    assert(r@.partitions =~= Seq::<RespPartitionView>::empty());
    r
}

/// Answers each requested name in order from the topics of the metadata
/// log; a known topic is answered once and then taken out of `metadata`.
pub fn handle_topic_partitions_request(
    request: DescribeTopicPartitionsRequest,
    metadata: NameMap<TopicMetadata>,
) -> (r: DescribeTopicPartitionsResponse)
    ensures
        r@ == describe_answers(request@.map_values(|t: ReqTopicView| t.name), metadata@),
{
    let ghost names = request@.map_values(|t: ReqTopicView| t.name);
    let ghost target = describe_answers(names, metadata@);
    proof {
        use_type_invariant(&metadata);
    }
    let mut metadata = metadata;
    let mut topics: Vec<RespTopic> = Vec::new();
    let mut i: usize = 0;
    assert(names.skip(0) =~= names);
    assert(resp_topic_views(topics@) + target =~= target);
    while i < request.topics_array.len()
        invariant
            i <= names.len(),
            names == request@.map_values(|t: ReqTopicView| t.name),
            names.len() == request.topics_array@.len(),
            metadata.well_formed(),
            target == resp_topic_views(topics@) + describe_answers(names.skip(i as int), metadata@),
        decreases names.len() - i,
    {
        let ghost before = resp_topic_views(topics@);
        let name = request.topics_array[i].name.clone();
        assert(names.skip(i as int)[0] == name@);
        assert(names.skip(i as int).drop_first() =~= names.skip(i + 1));
        let answer = match metadata.remove(&name) {
            Some(topic) => found_topic(name, topic),
            None => not_found_topic(name),
        };
        topics.push(answer);
        assert(resp_topic_views(topics@) =~= before.push(answer@));
        assert(before.push(answer@) + describe_answers(names.skip(i + 1), metadata@) =~= before + (seq![answer@]
            + describe_answers(names.skip(i + 1), metadata@)));
        i = i + 1;
    }
    assert(names.skip(i as int) =~= Seq::<Seq<char>>::empty());
    assert(resp_topic_views(topics@) + Seq::<RespTopicView>::empty() =~= resp_topic_views(topics@));
    DescribeTopicPartitionsResponse { topics }
}

} // verus!
