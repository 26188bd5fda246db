//! The `Produce` request (v11) as far as the broker reads it, and the
//! response it writes.

use bytes::BytesMut;
use vstd::prelude::*;
use vstd::utf8::encode_utf8;

use crate::buffer::{bytes_mut_contents, extend_from_slice, put_i16, put_i32, put_i64, put_u8};
use crate::cluster::topic::Topic;
use crate::name_map::NameMap;
use crate::protocol_types::kafka_encode::KafkaEncode;
use crate::text::text_of;
use crate::wire::{
    be_bytes, i16_at, i64_at, lemma_concat_map_first, lemma_placed_bytes, lemma_placed_ints,
    lemma_placed_skip_compact, uvarint_bytes, lemma_placed_len_byte, lemma_placed_split, lemma_placed_zero,
    placed, compact_array_len_at, compact_len_byte, compact_string_at, concat_map, fits_len_byte,
    i32_at, inside, lemma_compact_array_len_at_inside, lemma_compact_string_at_inside, lemma_i32_at_inside,
    lemma_skip_compact_at_inside, lemma_tag_buffer_at_inside, lemma_concat_map_prefix_len, lemma_concat_map_take, len_byte, read_compact_array_len,
    read_compact_string, read_i32, skip_compact_at, skip_compact_nullable_bytes,
    skip_compact_nullable_string, skip_tag_buffer, tag_buffer_at,
};

verus! {

broadcast use crate::wire::lemma_be_bytes_len;

// ── Request ──────────────────────────────────────────────────────────────

/// A partition of a requested topic, by its index.
pub struct ProducePartitionData {
    pub index: i32,
}

/// A requested topic: its name and partitions.
pub struct ProduceTopicData {
    pub name: String,
    pub partitions: Vec<ProducePartitionData>,
}

/// A `Produce` request: the topics it writes to, in order.
pub struct ProduceRequest {
    pub topics: Vec<ProduceTopicData>,
}

/// A topic of a `Produce` request: its name and the indices of its
/// partitions.
pub struct ProduceTopicView {
    pub name: Seq<char>,
    pub partitions: Seq<i32>,
}

impl View for ProduceTopicData {
    type V = ProduceTopicView;

    open spec fn view(&self) -> ProduceTopicView {
        ProduceTopicView {
            name: self.name@,
            partitions: self.partitions@.map_values(|p: ProducePartitionData| p.index),
        }
    }
}

impl View for ProduceRequest {
    type V = Seq<ProduceTopicView>;

    open spec fn view(&self) -> Seq<ProduceTopicView> {
        self.topics@.map_values(|t: ProduceTopicData| t@)
    }
}

/// `done` before the items of `rest`, if there is a rest.
pub open spec fn prepend<T>(done: Seq<T>, rest: Option<(Seq<T>, int)>) -> Option<(Seq<T>, int)> {
    match rest {
        Some((r, p)) => Some((done + r, p)),
        None => None,
    }
}

/// `n` partitions from `pos`: an index, the record batch
/// (`COMPACT_NULLABLE_BYTES`, stepped over) and a tag buffer each.
pub open spec fn produce_partitions_from(data: Seq<u8>, pos: int, n: nat) -> Option<(Seq<i32>, int)>
    decreases n,
{
    if n == 0 {
        Some((Seq::empty(), pos))
    } else {
        match i32_at(data, pos) {
            None => None,
            Some((index, p1)) => match skip_compact_at(data, p1) {
                None => None,
                Some(p2) => match tag_buffer_at(data, p2) {
                    None => None,
                    Some(p3) => prepend(seq![index], produce_partitions_from(data, p3, (n - 1) as nat)),
                },
            },
        }
    }
}

/// `n` topics from `pos`: a compact string name, a compact array of
/// partitions and a tag buffer each. Names are kept as raw bytes.
pub open spec fn produce_topics_from(data: Seq<u8>, pos: int, n: nat) -> Option<
    (Seq<(Seq<u8>, Seq<i32>)>, int),
>
    decreases n,
{
    if n == 0 {
        Some((Seq::empty(), pos))
    } else {
        match compact_string_at(data, pos) {
            None => None,
            Some((name, p1)) => match compact_array_len_at(data, p1) {
                None => None,
                Some((count, p2)) => match produce_partitions_from(data, p2, count as nat) {
                    None => None,
                    Some((indices, p3)) => match tag_buffer_at(data, p3) {
                        None => None,
                        Some(p4) => prepend(
                            seq![(name, indices)],
                            produce_topics_from(data, p4, (n - 1) as nat),
                        ),
                    },
                },
            },
        }
    }
}

/// A `Produce` request body at `body_offset`: a transactional id (stepped
/// over), acks and timeout (6 bytes), then the topics; gives the topics and
/// the position after the body.
pub open spec fn produce_body_at(data: Seq<u8>, body_offset: int) -> Option<(Seq<(Seq<u8>, Seq<i32>)>, int)> {
    match skip_compact_at(data, body_offset) {
        None => None,
        Some(p1) => if p1 + 6 > usize::MAX {
            None
        } else {
            match compact_array_len_at(data, p1 + 6) {
                None => None,
                Some((count, p2)) => produce_topics_from(data, p2, count as nat),
            }
        },
    }
}

/// The topics of a `Produce` request body at `body_offset`.
pub open spec fn produce_request_at(data: Seq<u8>, body_offset: int) -> Option<Seq<(Seq<u8>, Seq<i32>)>> {
    match produce_body_at(data, body_offset) {
        Some((topics, _end)) => Some(topics),
        None => None,
    }
}

proof fn lemma_produce_partitions_inside(p: Seq<u8>, data: Seq<u8>, s: Seq<u8>, pos: int, n: nat)
    requires
        produce_partitions_from(data, pos, n) is Some,
        produce_partitions_from(data, pos, n).unwrap().1 + p.len() <= usize::MAX,
    ensures
        produce_partitions_from(data, pos, n).unwrap().1 >= pos,
        produce_partitions_from(inside(p, data, s), pos + p.len(), n) == Some(
            (produce_partitions_from(data, pos, n).unwrap().0, produce_partitions_from(data, pos, n).unwrap().1 + p.len()),
        ),
    decreases n,
{
    if n > 0 {
        lemma_i32_at_inside(p, data, s, pos);
        let p1 = pos + 4;
        let p2 = skip_compact_at(data, p1).unwrap();
        let p3 = tag_buffer_at(data, p2).unwrap();
        let e = produce_partitions_from(data, pos, n).unwrap().1;
        assert(produce_partitions_from(data, p3, (n - 1) as nat) is Some);
        assert(produce_partitions_from(data, p3, (n - 1) as nat).unwrap().1 == e);
        lemma_produce_partitions_inside(p, data, s, p3, (n - 1) as nat);
        lemma_tag_buffer_at_inside(p, data, s, p2);
        lemma_skip_compact_at_inside(p, data, s, p1);
        assert(pos + p.len() + 4 == p1 + p.len());
    }
}

proof fn lemma_produce_topics_inside(p: Seq<u8>, data: Seq<u8>, s: Seq<u8>, pos: int, n: nat)
    requires
        produce_topics_from(data, pos, n) is Some,
        produce_topics_from(data, pos, n).unwrap().1 + p.len() <= usize::MAX,
    ensures
        produce_topics_from(data, pos, n).unwrap().1 >= pos,
        produce_topics_from(inside(p, data, s), pos + p.len(), n) == Some(
            (produce_topics_from(data, pos, n).unwrap().0, produce_topics_from(data, pos, n).unwrap().1 + p.len()),
        ),
    decreases n,
{
    if n > 0 {
        lemma_compact_string_at_inside(p, data, s, pos);
        let p1 = compact_string_at(data, pos).unwrap().1;
        lemma_compact_array_len_at_inside(p, data, s, p1);
        let (count, p2) = compact_array_len_at(data, p1).unwrap();
        let p3 = produce_partitions_from(data, p2, count as nat).unwrap().1;
        let p4 = tag_buffer_at(data, p3).unwrap();
        let e = produce_topics_from(data, pos, n).unwrap().1;
        assert(produce_topics_from(data, p4, (n - 1) as nat).unwrap().1 == e);
        lemma_produce_topics_inside(p, data, s, p4, (n - 1) as nat);
        lemma_tag_buffer_at_inside(p, data, s, p3);
        lemma_produce_partitions_inside(p, data, s, p2, count as nat);
    }
}

/// A `Produce` request body is read from its offset to its end and no
/// further: with any bytes before the offset and after the body, the
/// request read is the same as from the body alone. The body is whole (it
/// ends within its bytes), and the input fits in memory.
pub proof fn lemma_produce_request_local(p: Seq<u8>, b: Seq<u8>, s: Seq<u8>)
    requires
        produce_body_at(b, 0) matches Some((_t, e)) && e <= b.len(),
        (p + b + s).len() <= usize::MAX,
    ensures
        produce_request_at(p + b + s, p.len() as int) == produce_request_at(b, 0),
{
    let e = produce_body_at(b, 0).unwrap().1;
    let p1 = skip_compact_at(b, 0).unwrap();
    let (count, p2) = compact_array_len_at(b, p1 + 6).unwrap();
    lemma_produce_topics_inside(p, b, s, p2, count as nat);
    lemma_compact_array_len_at_inside(p, b, s, p1 + 6);
    lemma_skip_compact_at_inside(p, b, s, 0);
    assert(p1 + p.len() + 6 == (p1 + 6) + p.len());
    assert(inside(p, b, s) == p + b + s);
}

/// The request that raw topics stand for, names read as text.
pub open spec fn produce_request_view(raw: Seq<(Seq<u8>, Seq<i32>)>) -> Seq<ProduceTopicView> {
    raw.map_values(|t: (Seq<u8>, Seq<i32>)| ProduceTopicView { name: text_of(t.0), partitions: t.1 })
}

// ── Response ─────────────────────────────────────────────────────────────

/// The answer for one partition.
#[derive(Clone, Copy)]
pub struct PartitionResponse {
    index: i32,
    error_code: i16,
    base_offset: i64,
    log_start_offset: i64,
}

/// What a partition answer says.
pub struct PartitionResponseView {
    pub index: i32,
    pub error_code: i16,
    pub base_offset: i64,
    pub log_start_offset: i64,
}

impl View for PartitionResponse {
    type V = PartitionResponseView;

    closed spec fn view(&self) -> PartitionResponseView {
        PartitionResponseView {
            index: self.index,
            error_code: self.error_code,
            base_offset: self.base_offset,
            log_start_offset: self.log_start_offset,
        }
    }
}

/// The answer for one requested topic.
pub struct TopicResponse {
    name: String,
    partitions: Vec<PartitionResponse>,
}

/// What a topic answer says.
pub struct TopicResponseView {
    pub name: Seq<char>,
    pub partitions: Seq<PartitionResponseView>,
}

impl View for TopicResponse {
    type V = TopicResponseView;

    closed spec fn view(&self) -> TopicResponseView {
        TopicResponseView {
            name: self.name@,
            partitions: self.partitions@.map_values(|p: PartitionResponse| p@),
        }
    }
}

/// The answer for one partition: success (error 0, offsets 0) for a known
/// topic, error 3 (`UNKNOWN_TOPIC_OR_PARTITION`, offsets -1) otherwise.
pub open spec fn partition_answer(index: i32, known: bool) -> PartitionResponseView {
    if known {
        PartitionResponseView { index, error_code: 0, base_offset: 0, log_start_offset: 0 }
    } else {
        PartitionResponseView { index, error_code: 3, base_offset: -1i64, log_start_offset: -1i64 }
    }
}

/// The answer for one requested topic.
pub open spec fn produce_answer(t: ProduceTopicView, known: bool) -> TopicResponseView {
    TopicResponseView {
        name: t.name,
        partitions: t.partitions.map_values(|i: i32| partition_answer(i, known)),
    }
}

/// The answer for a topic keeps its name and its partitions in order, and
/// each partition is answered with success exactly when the topic is known.
pub proof fn lemma_produce_answer(t: ProduceTopicView, known: bool)
    ensures
        produce_answer(t, known).name == t.name,
        produce_answer(t, known).partitions.len() == t.partitions.len(),
        forall|i: int|
            0 <= i < t.partitions.len() ==> {
                let p = #[trigger] produce_answer(t, known).partitions[i];
                &&& p.index == t.partitions[i]
                &&& (p.error_code == 0) == known
                &&& (p.error_code == 3) == !known
                &&& p.base_offset == (if known { 0i64 } else { -1i64 })
                &&& p.log_start_offset == (if known { 0i64 } else { -1i64 })
            },
{
}

impl TopicResponse {
    /// The answer for `topic`, known or not.
    fn answer(topic: &ProduceTopicData, known: bool) -> (r: Self)
        ensures
            r@ == produce_answer(topic@, known),
    {
        let ghost target = produce_answer(topic@, known).partitions;
        let mut partitions: Vec<PartitionResponse> = Vec::new();
        let mut i: usize = 0;
        while i < topic.partitions.len()
            invariant
                i <= topic.partitions@.len(),
                target == topic@.partitions.map_values(|j: i32| partition_answer(j, known)),
                topic@.partitions.len() == topic.partitions@.len(),
                partitions@.map_values(|p: PartitionResponse| p@) == target.take(i as int),
            decreases topic.partitions@.len() - i,
        {
            let ghost before = partitions@.map_values(|p: PartitionResponse| p@);
            let index = topic.partitions[i].index;
            let p = if known {
                PartitionResponse { index, error_code: 0, base_offset: 0, log_start_offset: 0 }
            } else {
                PartitionResponse { index, error_code: 3, base_offset: -1, log_start_offset: -1 }
            };
            partitions.push(p);
            assert(topic@.partitions[i as int] == index);
            assert(partitions@.map_values(|p: PartitionResponse| p@) =~= before.push(p@));
            assert(partitions@.map_values(|p: PartitionResponse| p@) =~= target.take(i + 1));
            i = i + 1;
        }
        assert(target.take(i as int) =~= target);
        TopicResponse { name: topic.name.clone(), partitions }
    }

    /// The answer for a topic the broker knows.
    pub fn found(topic: &ProduceTopicData) -> (r: Self)
        ensures
            r@ == produce_answer(topic@, true),
    {
        Self::answer(topic, true)
    }

    /// The answer for a topic the broker does not know.
    pub fn not_found(topic: &ProduceTopicData) -> (r: Self)
        ensures
            r@ == produce_answer(topic@, false),
    {
        Self::answer(topic, false)
    }

    /// The answer for a requested topic, by whether `metadata` names it.
    pub fn from_request(topic: &ProduceTopicData, metadata: &NameMap<Topic>) -> (r: Self)
        ensures
            r@ == produce_answer(topic@, metadata@.contains_key(topic@.name)),
    {
        if metadata.contains_key(&topic.name) {
            Self::found(topic)
        } else {
            Self::not_found(topic)
        }
    }
}

/// A `Produce` response: one answer per requested topic.
pub struct ProduceResponse {
    topics: Vec<TopicResponse>,
}

impl View for ProduceResponse {
    type V = Seq<TopicResponseView>;

    closed spec fn view(&self) -> Seq<TopicResponseView> {
        self.topics@.map_values(|t: TopicResponse| t@)
    }
}

impl ProduceResponse {
    /// The response made of the given topic answers, in order.
    pub fn new(topics: Vec<TopicResponse>) -> (r: Self)
        ensures
            r@ == topics@.map_values(|t: TopicResponse| t@),
    {
        Self { topics }
    }
}

/// The bytes of a partition answer: index, error code, base offset, log
/// append time (-1), log start offset, empty record errors, null error
/// message, empty tag buffer.
pub open spec fn partition_response_bytes(p: PartitionResponseView) -> Seq<u8> {
    be_bytes(p.index as int, 4) + be_bytes(p.error_code as int, 2) + be_bytes(p.base_offset as int, 8)
        + be_bytes(-1, 8) + be_bytes(p.log_start_offset as int, 8) + seq![1u8, 0u8, 0u8]
}

/// The bytes of a topic answer: its name as a compact string, its
/// partitions as a compact array, an empty tag buffer.
pub open spec fn topic_response_bytes(t: TopicResponseView) -> Seq<u8> {
    seq![compact_len_byte(encode_utf8(t.name).len())] + encode_utf8(t.name) + seq![
        compact_len_byte(t.partitions.len()),
    ] + concat_map(t.partitions, |p: PartitionResponseView| partition_response_bytes(p))
        + seq![0u8]
}

/// The bytes of a `Produce` response body: the topics as a compact array,
/// throttle time 0, an empty tag buffer.
pub open spec fn produce_response_bytes(ts: Seq<TopicResponseView>) -> Seq<u8> {
    seq![compact_len_byte(ts.len())] + concat_map(ts, |t: TopicResponseView| topic_response_bytes(t))
        + be_bytes(0, 4) + seq![0u8]
}

/// Every count of a topic answer fits in its length byte.
pub open spec fn topic_response_encodable(t: TopicResponseView) -> bool {
    fits_len_byte(encode_utf8(t.name).len()) && fits_len_byte(t.partitions.len())
}

/// Every count of a `Produce` response fits in its length byte.
pub open spec fn produce_response_encodable(ts: Seq<TopicResponseView>) -> bool {
    &&& fits_len_byte(ts.len())
    &&& forall|i: int| 0 <= i < ts.len() ==> topic_response_encodable(#[trigger] ts[i])
}

impl PartitionResponse {
    /// Appends the bytes of the partition answer.
    fn encode(&self, buf: &mut BytesMut)
        requires
            bytes_mut_contents(*old(buf)).len() + partition_response_bytes(self@).len() <= isize::MAX,
        ensures
            bytes_mut_contents(*final(buf)) == bytes_mut_contents(*old(buf)) + partition_response_bytes(self@),
    {
        let ghost start = bytes_mut_contents(*buf);
        put_i32(buf, self.index);
        put_i16(buf, self.error_code);
        put_i64(buf, self.base_offset);
        put_i64(buf, -1);
        put_i64(buf, self.log_start_offset);
        put_u8(buf, 1);
        put_u8(buf, 0);
        put_u8(buf, 0);
        assert(bytes_mut_contents(*buf) =~= start + partition_response_bytes(self@));
    }
}

impl TopicResponse {
    /// Appends the bytes of the topic answer.
    fn encode(&self, buf: &mut BytesMut)
        requires
            topic_response_encodable(self@),
            bytes_mut_contents(*old(buf)).len() + topic_response_bytes(self@).len() <= isize::MAX,
        ensures
            bytes_mut_contents(*final(buf)) == bytes_mut_contents(*old(buf)) + topic_response_bytes(self@),
    {
        let ghost start = bytes_mut_contents(*buf);
        let ghost f = |p: PartitionResponseView| partition_response_bytes(p);
        let ghost ps = self@.partitions;
        let name_bytes = self.name.as_str().as_bytes();
        assert(name_bytes@ == encode_utf8(self@.name));
        put_u8(buf, len_byte(name_bytes.len()));
        extend_from_slice(buf, name_bytes);
        put_u8(buf, len_byte(self.partitions.len()));
        let ghost head = seq![compact_len_byte(encode_utf8(self@.name).len())] + encode_utf8(self@.name)
            + seq![compact_len_byte(ps.len())];
        assert(bytes_mut_contents(*buf) =~= start + head + concat_map(ps.take(0), f));
        let mut i: usize = 0;
        while i < self.partitions.len()
            invariant
                i <= ps.len(),
                ps == self@.partitions,
                ps.len() == self.partitions@.len(),
                f == (|p: PartitionResponseView| partition_response_bytes(p)),
                bytes_mut_contents(*buf) == start + head + concat_map(ps.take(i as int), f),
                start.len() + topic_response_bytes(self@).len() <= isize::MAX,
                topic_response_bytes(self@) == head + concat_map(ps, f) + seq![0u8],
            decreases ps.len() - i,
        {
            proof {
                lemma_concat_map_take(ps, f, i as int);
                lemma_concat_map_prefix_len(ps, f, i + 1);
            }
            assert(ps[i as int] == self.partitions@[i as int]@);
            self.partitions[i].encode(buf);
            assert(bytes_mut_contents(*buf) =~= start + head + concat_map(ps.take(i + 1), f));
            i = i + 1;
        }
        assert(ps.take(i as int) =~= ps);
        assert(bytes_mut_contents(*buf) == start + head + concat_map(ps, f));
        put_u8(buf, 0);
        assert(bytes_mut_contents(*buf) =~= start + topic_response_bytes(self@));
    }
}

impl KafkaEncode for ProduceResponse {
    open spec fn encoding(&self) -> Seq<u8> {
        produce_response_bytes(self@)
    }

    open spec fn encodable(&self) -> bool {
        produce_response_encodable(self@)
    }

    open spec fn header_version(&self) -> u8 {
        1
    }

    fn encode(&self, buf: &mut BytesMut) {
        let ghost start = bytes_mut_contents(*buf);
        let ghost f = |t: TopicResponseView| topic_response_bytes(t);
        let ghost ts = self@;
        put_u8(buf, len_byte(self.topics.len()));
        let ghost head = seq![compact_len_byte(ts.len())];
        assert(bytes_mut_contents(*buf) =~= start + head + concat_map(ts.take(0), f));
        let mut i: usize = 0;
        while i < self.topics.len()
            invariant
                i <= ts.len(),
                ts == self@,
                ts.len() == self.topics@.len(),
                f == (|t: TopicResponseView| topic_response_bytes(t)),
                forall|j: int| 0 <= j < ts.len() ==> topic_response_encodable(#[trigger] ts[j]),
                bytes_mut_contents(*buf) == start + head + concat_map(ts.take(i as int), f),
                start.len() + self.encoding().len() <= isize::MAX,
                self.encoding() == head + concat_map(ts, f) + be_bytes(0, 4) + seq![0u8],
            decreases ts.len() - i,
        {
            proof {
                lemma_concat_map_take(ts, f, i as int);
                lemma_concat_map_prefix_len(ts, f, i + 1);
            }
            assert(ts[i as int] == self.topics@[i as int]@);
            self.topics[i].encode(buf);
            assert(bytes_mut_contents(*buf) =~= start + head + concat_map(ts.take(i + 1), f));
            i = i + 1;
        }
        assert(ts.take(i as int) =~= ts);
        assert(bytes_mut_contents(*buf) == start + head + concat_map(ts, f));
        put_i32(buf, 0);
        put_u8(buf, 0);
        assert(bytes_mut_contents(*buf) =~= start + self.encoding());
    }

    fn response_header_version(&self) -> (v: u8) {
        1
    }
}

impl TopicResponse {
    /// The length of the topic answer's bytes, or `None` where a count does
    /// not fit its length byte or the length does not fit a `usize`.
    fn checked_len(&self) -> (r: Option<usize>)
        ensures
            match r {
                Some(n) => topic_response_encodable(self@) && n == topic_response_bytes(self@).len(),
                None => !topic_response_encodable(self@) || topic_response_bytes(self@).len() > usize::MAX,
            },
    {
        let name_len = self.name.as_str().as_bytes().len();
        assert(name_len == encode_utf8(self@.name).len());
        if name_len % 256 == 255 || self.partitions.len() % 256 == 255 {
            return None;
        }
        if name_len > usize::MAX - 3 {
            return None;
        }
        let ghost f = |p: PartitionResponseView| partition_response_bytes(p);
        let ghost ps = self@.partitions;
        assert forall|x: PartitionResponseView| #[trigger] f(x).len() == 33 by {}
        proof {
            crate::wire::lemma_concat_map_len_const(ps, f, 33);
        }
        let np = self.partitions.len();
        if np > (usize::MAX - 3 - name_len) / 33 {
            assert(topic_response_bytes(self@).len() == 3 + name_len + 33 * np);
            assert(33 * np > usize::MAX - 3 - name_len) by (nonlinear_arith)
                requires
                    np > (usize::MAX - 3 - name_len) / 33,
                    name_len <= usize::MAX - 3;
            return None;
        }
        assert(33 * np <= usize::MAX - 3 - name_len) by (nonlinear_arith)
            requires
                np <= (usize::MAX - 3 - name_len) / 33,
                name_len <= usize::MAX - 3;
        Some(3 + name_len + 33 * np)
    }
}

impl ProduceResponse {
    /// The length of the response body's bytes, or `None` where a count
    /// does not fit its length byte or the length does not fit a `usize`.
    pub fn checked_encoding_len(&self) -> (r: Option<usize>)
        ensures
            match r {
                Some(n) => self.encodable() && n == self.encoding().len(),
                None => !self.encodable() || self.encoding().len() > usize::MAX,
            },
    {
        let ghost f = |t: TopicResponseView| topic_response_bytes(t);
        let ghost ts = self@;
        if self.topics.len() % 256 == 255 {
            return None;
        }
        let mut total: usize = 0;
        let mut i: usize = 0;
        while i < self.topics.len()
            invariant
                i <= ts.len(),
                ts == self@,
                ts.len() == self.topics@.len(),
                f == (|t: TopicResponseView| topic_response_bytes(t)),
                fits_len_byte(ts.len()),
                forall|j: int| 0 <= j < i ==> topic_response_encodable(#[trigger] ts[j]),
                total == concat_map(ts.take(i as int), f).len(),
                self.encoding() == seq![compact_len_byte(ts.len())] + concat_map(ts, f) + be_bytes(0, 4)
                    + seq![0u8],
            decreases ts.len() - i,
        {
            proof {
                lemma_concat_map_take(ts, f, i as int);
                lemma_concat_map_prefix_len(ts, f, i + 1);
            }
            assert(ts[i as int] == self.topics@[i as int]@);
            let n = match self.topics[i].checked_len() {
                Some(n) => n,
                None => return None,
            };
            if total > usize::MAX - n {
                return None;
            }
            total = total + n;
            i = i + 1;
        }
        assert(ts.take(i as int) =~= ts);
        if total > usize::MAX - 6 {
            return None;
        }
        Some(total + 6)
    }
}

// ── Reading a response back ──────────────────────────────────────────────

/// One partition answer of a `Produce` response (v11) at `pos`: `INT32`
/// index, `INT16` error code, `INT64` base offset, `INT64` log append time,
/// `INT64` log start offset, an empty compact array of record errors, a
/// compact nullable error message (stepped over) and a tag buffer.
pub open spec fn partition_answer_at(data: Seq<u8>, pos: int) -> Option<(PartitionResponseView, int)> {
    match i32_at(data, pos) {
        None => None,
        Some((index, p1)) => match i16_at(data, p1) {
            None => None,
            Some((error_code, p2)) => match i64_at(data, p2) {
                None => None,
                Some((base_offset, p3)) => match i64_at(data, p3) {
                    None => None,
                    Some((_log_append_time, p4)) => match i64_at(data, p4) {
                        None => None,
                        Some((log_start_offset, p5)) => match compact_array_len_at(data, p5) {
                            None => None,
                            Some((record_errors, p6)) => if record_errors != 0 {
                                None
                            } else {
                                match skip_compact_at(data, p6) {
                                    None => None,
                                    Some(p7) => match tag_buffer_at(data, p7) {
                                        None => None,
                                        Some(p8) => Some(
                                            (
                                                PartitionResponseView {
                                                    index,
                                                    error_code,
                                                    base_offset,
                                                    log_start_offset,
                                                },
                                                p8,
                                            ),
                                        ),
                                    },
                                }
                            },
                        },
                    },
                },
            },
        },
    }
}

/// `n` partition answers one after the other from `pos`.
pub open spec fn partition_answers_from(data: Seq<u8>, pos: int, n: nat) -> Option<(Seq<PartitionResponseView>, int)>
    decreases n,
{
    if n == 0 {
        Some((Seq::empty(), pos))
    } else {
        match partition_answers_from(data, pos, (n - 1) as nat) {
            None => None,
            Some((ps, p)) => match partition_answer_at(data, p) {
                None => None,
                Some((x, q)) => Some((ps.push(x), q)),
            },
        }
    }
}

/// One topic answer at `pos`: its name (compact string, raw bytes), its
/// partition answers (compact array) and a tag buffer.
pub open spec fn topic_answer_at(data: Seq<u8>, pos: int) -> Option<((Seq<u8>, Seq<PartitionResponseView>), int)> {
    match compact_string_at(data, pos) {
        None => None,
        Some((name, p1)) => match compact_array_len_at(data, p1) {
            None => None,
            Some((k, p2)) => match partition_answers_from(data, p2, k as nat) {
                None => None,
                Some((ps, p3)) => match tag_buffer_at(data, p3) {
                    None => None,
                    Some(p4) => Some(((name, ps), p4)),
                },
            },
        },
    }
}

/// `n` topic answers one after the other from `pos`.
pub open spec fn topic_answers_from(data: Seq<u8>, pos: int, n: nat) -> Option<
    (Seq<(Seq<u8>, Seq<PartitionResponseView>)>, int),
>
    decreases n,
{
    if n == 0 {
        Some((Seq::empty(), pos))
    } else {
        match topic_answers_from(data, pos, (n - 1) as nat) {
            None => None,
            Some((ts, p)) => match topic_answer_at(data, p) {
                None => None,
                Some((x, q)) => Some((ts.push(x), q)),
            },
        }
    }
}

/// A `Produce` response body (v11) at `pos`, as a client reads it: the topic
/// answers (compact array), the throttle time and a tag buffer.
pub open spec fn produce_response_at(data: Seq<u8>, pos: int) -> Option<
    (Seq<(Seq<u8>, Seq<PartitionResponseView>)>, int),
> {
    match compact_array_len_at(data, pos) {
        None => None,
        Some((n, p1)) => match topic_answers_from(data, p1, n as nat) {
            None => None,
            Some((ts, p2)) => match i32_at(data, p2) {
                None => None,
                Some((_throttle, p3)) => match tag_buffer_at(data, p3) {
                    None => None,
                    Some(p4) => Some((ts, p4)),
                },
            },
        },
    }
}

proof fn lemma_partition_answer_reads_back(data: Seq<u8>, pos: int, p: PartitionResponseView)
    requires
        placed(data, pos, partition_response_bytes(p)),
    ensures
        partition_answer_at(data, pos) == Some((p, pos + 33)),
{
    let b4 = be_bytes(p.index as int, 4);
    let b2 = be_bytes(p.error_code as int, 2);
    let b8a = be_bytes(p.base_offset as int, 8);
    let b8b = be_bytes(-1, 8);
    let b8c = be_bytes(p.log_start_offset as int, 8);
    let tail = seq![1u8, 0u8, 0u8];
    lemma_placed_split(data, pos, b4 + b2 + b8a + b8b + b8c, tail);
    lemma_placed_split(data, pos, b4 + b2 + b8a + b8b, b8c);
    lemma_placed_split(data, pos, b4 + b2 + b8a, b8b);
    lemma_placed_split(data, pos, b4 + b2, b8a);
    lemma_placed_split(data, pos, b4, b2);
    lemma_placed_ints(data, pos, 0, p.index, 0);
    lemma_placed_ints(data, pos + 4, p.error_code, 0, 0);
    lemma_placed_ints(data, pos + 6, 0, 0, p.base_offset);
    lemma_placed_ints(data, pos + 14, 0, 0, -1i64);
    lemma_placed_ints(data, pos + 22, 0, 0, p.log_start_offset);
    assert(tail =~= seq![compact_len_byte(0)] + seq![0u8] + seq![0u8]);
    lemma_placed_split(data, pos + 30, seq![compact_len_byte(0)] + seq![0u8], seq![0u8]);
    lemma_placed_split(data, pos + 30, seq![compact_len_byte(0)], seq![0u8]);
    lemma_placed_len_byte(data, pos + 30, 0);
    lemma_placed_zero(data, pos + 31);
    lemma_placed_zero(data, pos + 32);
}

proof fn lemma_partition_answers_read_back(data: Seq<u8>, pos: int, s: Seq<PartitionResponseView>)
    requires
        placed(data, pos, concat_map(s, |p: PartitionResponseView| partition_response_bytes(p))),
    ensures
        partition_answers_from(data, pos, s.len()) == Some(
            (s, pos + concat_map(s, |p: PartitionResponseView| partition_response_bytes(p)).len()),
        ),
    decreases s.len(),
{
    let f = |p: PartitionResponseView| partition_response_bytes(p);
    if s.len() > 0 {
        let init = s.drop_last();
        lemma_placed_split(data, pos, concat_map(init, f), f(s.last()));
        lemma_partition_answers_read_back(data, pos, init);
        lemma_partition_answer_reads_back(data, pos + concat_map(init, f).len(), s.last());
        assert(init.push(s.last()) =~= s);
        assert((init.len() + 1 - 1) as nat == init.len());
    }
}

proof fn lemma_topic_answer_reads_back(data: Seq<u8>, pos: int, t: TopicResponseView)
    requires
        encode_utf8(t.name).len() < 127,
        t.partitions.len() < 127,
        placed(data, pos, topic_response_bytes(t)),
    ensures
        topic_answer_at(data, pos) == Some(((encode_utf8(t.name), t.partitions), pos + topic_response_bytes(t).len())),
{
    let f = |p: PartitionResponseView| partition_response_bytes(p);
    let name = encode_utf8(t.name);
    let a = seq![compact_len_byte(name.len())];
    let c = seq![compact_len_byte(t.partitions.len())];
    let ps = concat_map(t.partitions, f);
    lemma_placed_split(data, pos, a + name + c + ps, seq![0u8]);
    lemma_placed_split(data, pos, a + name + c, ps);
    lemma_placed_split(data, pos, a + name, c);
    lemma_placed_split(data, pos, a, name);
    lemma_placed_len_byte(data, pos, name.len());
    assert(data.subrange(pos + 1, pos + 1 + name.len()) == name);
    let p2 = pos + 1 + name.len() + 1;
    lemma_placed_len_byte(data, pos + 1 + name.len(), t.partitions.len());
    lemma_partition_answers_read_back(data, p2, t.partitions);
    lemma_placed_zero(data, p2 + ps.len());
}

proof fn lemma_topic_answers_read_back(data: Seq<u8>, pos: int, s: Seq<TopicResponseView>)
    requires
        forall|i: int|
            0 <= i < s.len() ==> encode_utf8((#[trigger] s[i]).name).len() < 127 && s[i].partitions.len() < 127,
        placed(data, pos, concat_map(s, |t: TopicResponseView| topic_response_bytes(t))),
    ensures
        topic_answers_from(data, pos, s.len()) == Some(
            (
                s.map_values(|t: TopicResponseView| (encode_utf8(t.name), t.partitions)),
                pos + concat_map(s, |t: TopicResponseView| topic_response_bytes(t)).len(),
            ),
        ),
    decreases s.len(),
{
    let f = |t: TopicResponseView| topic_response_bytes(t);
    let g = |t: TopicResponseView| (encode_utf8(t.name), t.partitions);
    if s.len() == 0 {
        assert(s.map_values(g) =~= Seq::<(Seq<u8>, Seq<PartitionResponseView>)>::empty());
    } else {
        let init = s.drop_last();
        assert forall|i: int| 0 <= i < init.len() implies encode_utf8((#[trigger] init[i]).name).len() < 127
            && init[i].partitions.len() < 127 by {
            assert(init[i] == s[i]);
        }
        assert(s.last() == s[s.len() - 1]);
        lemma_placed_split(data, pos, concat_map(init, f), f(s.last()));
        lemma_topic_answers_read_back(data, pos, init);
        lemma_topic_answer_reads_back(data, pos + concat_map(init, f).len(), s.last());
        assert(init.map_values(g).push(g(s.last())) =~= s.map_values(g));
        assert((init.len() + 1 - 1) as nat == init.len());
    }
}

/// A `Produce` response reads back as its answers: a client that reads the
/// bytes the broker writes with the v11 response grammar gets, topic by
/// topic and in order, each topic's name (its UTF-8 bytes) and its
/// partition answers (index, error code, base offset, log start offset),
/// and stops at the end of the bytes. The counts and names are below 127,
/// where their one-byte lengths are the varints Kafka specifies.
pub proof fn lemma_produce_response_reads_back(ts: Seq<TopicResponseView>)
    requires
        ts.len() < 127,
        forall|i: int|
            0 <= i < ts.len() ==> encode_utf8((#[trigger] ts[i]).name).len() < 127 && ts[i].partitions.len() < 127,
    ensures
        produce_response_at(produce_response_bytes(ts), 0) == Some(
            (
                ts.map_values(|t: TopicResponseView| (encode_utf8(t.name), t.partitions)),
                produce_response_bytes(ts).len() as int,
            ),
        ),
{
    let data = produce_response_bytes(ts);
    let f = |t: TopicResponseView| topic_response_bytes(t);
    let a = seq![compact_len_byte(ts.len())];
    let body = concat_map(ts, f);
    assert(data.subrange(0, data.len() as int) =~= data);
    assert(placed(data, 0, data));
    lemma_placed_split(data, 0, a + body + be_bytes(0, 4), seq![0u8]);
    lemma_placed_split(data, 0, a + body, be_bytes(0, 4));
    lemma_placed_split(data, 0, a, body);
    lemma_placed_len_byte(data, 0, ts.len());
    lemma_topic_answers_read_back(data, 1, ts);
    lemma_placed_ints(data, 1int + body.len(), 0, 0, 0);
    lemma_placed_zero(data, 1int + body.len() + 4);
}

// ── Reading a request back ───────────────────────────────────────────────

/// The bytes of one partition of a `Produce` request: its index, its record
/// batch as `COMPACT_NULLABLE_BYTES` (the varint of its length plus one,
/// then its bytes) and an empty tag buffer.
pub open spec fn produce_partition_bytes(p: (i32, Seq<u8>)) -> Seq<u8> {
    be_bytes(p.0 as int, 4) + uvarint_bytes((p.1.len() + 1) as u64) + p.1 + seq![0u8]
}

/// The bytes of one topic of a `Produce` request: its name (compact string
/// with a one-byte length), its partitions (compact array with a one-byte
/// count) and an empty tag buffer.
pub open spec fn produce_topic_bytes(t: (Seq<u8>, Seq<(i32, Seq<u8>)>)) -> Seq<u8> {
    seq![compact_len_byte(t.0.len())] + t.0 + seq![compact_len_byte(t.1.len())] + concat_map(
        t.1,
        |p: (i32, Seq<u8>)| produce_partition_bytes(p),
    ) + seq![0u8]
}

/// The bytes of a `Produce` request body: a null transactional id, the six
/// bytes of acks and timeout (`head`), and the topics (compact array with a
/// one-byte count).
pub open spec fn produce_request_bytes(head: Seq<u8>, topics: Seq<(Seq<u8>, Seq<(i32, Seq<u8>)>)>) -> Seq<u8> {
    seq![0u8] + head + seq![compact_len_byte(topics.len())] + concat_map(
        topics,
        |t: (Seq<u8>, Seq<(i32, Seq<u8>)>)| produce_topic_bytes(t),
    )
}

/// Every count and name length of a request is below 127, where its one
/// byte is the varint Kafka specifies.
pub open spec fn produce_topics_fit(topics: Seq<(Seq<u8>, Seq<(i32, Seq<u8>)>)>) -> bool {
    &&& topics.len() < 127
    &&& forall|i: int|
        0 <= i < topics.len() ==> (#[trigger] topics[i]).0.len() < 127 && topics[i].1.len() < 127 && forall|
            j: int,
        |
            0 <= j < topics[i].1.len() ==> (#[trigger] topics[i].1[j]).1.len() + 1 <= u64::MAX
}

/// What a parser keeps of requested topics: each name and the indices of
/// its partitions.
pub open spec fn produce_request_kept(topics: Seq<(Seq<u8>, Seq<(i32, Seq<u8>)>)>) -> Seq<(Seq<u8>, Seq<i32>)> {
    topics.map_values(
        |t: (Seq<u8>, Seq<(i32, Seq<u8>)>)| (t.0, t.1.map_values(|p: (i32, Seq<u8>)| p.0)),
    )
}

proof fn lemma_produce_partitions_read_back(data: Seq<u8>, pos: int, s: Seq<(i32, Seq<u8>)>)
    requires
        forall|j: int| 0 <= j < s.len() ==> (#[trigger] s[j]).1.len() + 1 <= u64::MAX,
        placed(data, pos, concat_map(s, |p: (i32, Seq<u8>)| produce_partition_bytes(p))),
        data.len() <= usize::MAX,
    ensures
        produce_partitions_from(data, pos, s.len()) == Some(
            (
                s.map_values(|p: (i32, Seq<u8>)| p.0),
                pos + concat_map(s, |p: (i32, Seq<u8>)| produce_partition_bytes(p)).len(),
            ),
        ),
    decreases s.len(),
{
    let f = |p: (i32, Seq<u8>)| produce_partition_bytes(p);
    let g = |p: (i32, Seq<u8>)| p.0;
    if s.len() == 0 {
        assert(s.map_values(g) =~= Seq::<i32>::empty());
    } else {
        let rest = s.drop_first();
        let p = s[0];
        lemma_concat_map_first(s, f);
        lemma_placed_split(data, pos, f(p), concat_map(rest, f));
        let b4 = be_bytes(p.0 as int, 4);
        let enc = uvarint_bytes((p.1.len() + 1) as u64);
        lemma_placed_split(data, pos, b4 + enc + p.1, seq![0u8]);
        assert(b4 + enc + p.1 =~= b4 + (enc + p.1));
        lemma_placed_split(data, pos, b4, enc + p.1);
        lemma_placed_ints(data, pos, 0, p.0, 0);
        lemma_placed_skip_compact(data, pos + 4, p.1);
        let p2 = pos + 4 + enc.len() + p.1.len();
        lemma_placed_zero(data, p2);
        assert forall|j: int| 0 <= j < rest.len() implies (#[trigger] rest[j]).1.len() + 1 <= u64::MAX by {
            assert(rest[j] == s[j + 1]);
        }
        lemma_produce_partitions_read_back(data, p2 + 1, rest);
        assert(seq![p.0] + rest.map_values(g) =~= s.map_values(g));
        assert((s.len() - 1) as nat == rest.len());
    }
}

proof fn lemma_produce_topics_read_back(data: Seq<u8>, pos: int, s: Seq<(Seq<u8>, Seq<(i32, Seq<u8>)>)>)
    requires
        produce_topics_fit(s),
        placed(data, pos, concat_map(s, |t: (Seq<u8>, Seq<(i32, Seq<u8>)>)| produce_topic_bytes(t))),
        data.len() <= usize::MAX,
    ensures
        produce_topics_from(data, pos, s.len()) == Some(
            (
                produce_request_kept(s),
                pos + concat_map(s, |t: (Seq<u8>, Seq<(i32, Seq<u8>)>)| produce_topic_bytes(t)).len(),
            ),
        ),
    decreases s.len(),
{
    let f = |t: (Seq<u8>, Seq<(i32, Seq<u8>)>)| produce_topic_bytes(t);
    let h = |p: (i32, Seq<u8>)| produce_partition_bytes(p);
    if s.len() == 0 {
        assert(produce_request_kept(s) =~= Seq::<(Seq<u8>, Seq<i32>)>::empty());
    } else {
        let rest = s.drop_first();
        let t = s[0];
        lemma_concat_map_first(s, f);
        lemma_placed_split(data, pos, f(t), concat_map(rest, f));
        let a = seq![compact_len_byte(t.0.len())];
        let c = seq![compact_len_byte(t.1.len())];
        let ps = concat_map(t.1, h);
        lemma_placed_split(data, pos, a + t.0 + c + ps, seq![0u8]);
        lemma_placed_split(data, pos, a + t.0 + c, ps);
        lemma_placed_split(data, pos, a + t.0, c);
        lemma_placed_split(data, pos, a, t.0);
        lemma_placed_len_byte(data, pos, t.0.len());
        lemma_placed_bytes(data, pos + 1, t.0);
        assert(compact_string_at(data, pos) == Some((t.0, pos + 1 + t.0.len())));
        let p1 = pos + 1 + t.0.len();
        lemma_placed_len_byte(data, p1, t.1.len());
        assert forall|j: int| 0 <= j < t.1.len() implies (#[trigger] t.1[j]).1.len() + 1 <= u64::MAX by {
            assert(s[0] == t);
        }
        lemma_produce_partitions_read_back(data, p1 + 1, t.1);
        let p3 = p1 + 1 + ps.len();
        lemma_placed_zero(data, p3);
        assert(produce_topics_fit(rest)) by {
            assert forall|i: int| 0 <= i < rest.len() implies #[trigger] rest[i] == s[i + 1] by {}
        }
        lemma_produce_topics_read_back(data, p3 + 1, rest);
        assert(seq![(t.0, t.1.map_values(|p: (i32, Seq<u8>)| p.0))] + produce_request_kept(rest)
            =~= produce_request_kept(s));
        assert((s.len() - 1) as nat == rest.len());
    }
}

/// A `Produce` request body reads back as the topics it writes to: each
/// name and, in order, the index of each partition, however long each
/// partition's record batch and its varint length prefix are.
pub proof fn lemma_produce_request_reads_back(head: Seq<u8>, topics: Seq<(Seq<u8>, Seq<(i32, Seq<u8>)>)>)
    requires
        head.len() == 6,
        produce_topics_fit(topics),
        produce_request_bytes(head, topics).len() <= usize::MAX,
    ensures
        produce_request_at(produce_request_bytes(head, topics), 0) == Some(produce_request_kept(topics)),
{
    let data = produce_request_bytes(head, topics);
    let f = |t: (Seq<u8>, Seq<(i32, Seq<u8>)>)| produce_topic_bytes(t);
    assert(data.subrange(0, data.len() as int) =~= data);
    let z = seq![0u8];
    let c = seq![compact_len_byte(topics.len())];
    lemma_placed_split(data, 0, z + head + c, concat_map(topics, f));
    lemma_placed_split(data, 0, z + head, c);
    lemma_placed_split(data, 0, z, head);
    lemma_placed_zero(data, 0);
    lemma_placed_len_byte(data, 7, topics.len());
    lemma_produce_topics_read_back(data, 8, topics);
}

// ── Parsing ──────────────────────────────────────────────────────────────

/// Reads `n` partitions from `*pos`.
fn read_produce_partitions(data: &[u8], pos: &mut usize, n: usize) -> (r: Option<Vec<ProducePartitionData>>)
    ensures
        match produce_partitions_from(data@, *old(pos) as int, n as nat) {
            Some((indices, p)) => r matches Some(v) && v@.map_values(|d: ProducePartitionData| d.index)
                == indices && *final(pos) as int == p,
            None => r is None,
        },
{
    let ghost target = produce_partitions_from(data@, *pos as int, n as nat);
    let mut partitions: Vec<ProducePartitionData> = Vec::new();
    let mut k: usize = 0;
    while k < n
        invariant
            k <= n,
            target == produce_partitions_from(data@, *old(pos) as int, n as nat),
            target == prepend(
                partitions@.map_values(|d: ProducePartitionData| d.index),
                produce_partitions_from(data@, *pos as int, (n - k) as nat),
            ),
        decreases n - k,
    {
        let ghost done = partitions@.map_values(|d: ProducePartitionData| d.index);
        let index = match read_i32(data, pos) {
            Some(v) => v,
            None => return None,
        };
        if skip_compact_nullable_bytes(data, pos).is_none() {
            return None;
        }
        if skip_tag_buffer(data, pos).is_none() {
            return None;
        }
        partitions.push(ProducePartitionData { index });
        assert(partitions@.map_values(|d: ProducePartitionData| d.index) =~= done.push(index));
        proof {
            match produce_partitions_from(data@, *pos as int, (n - k - 1) as nat) {
                Some((rest, q)) => {
                    assert(done.push(index) + rest =~= done + (seq![index] + rest));
                },
                None => {},
            }
        }
        k = k + 1;
    }
    assert(partitions@.map_values(|d: ProducePartitionData| d.index) + Seq::<i32>::empty()
        =~= partitions@.map_values(|d: ProducePartitionData| d.index));
    Some(partitions)
}

/// Reads `n` topics from `*pos`.
fn read_produce_topics(data: &[u8], pos: &mut usize, n: usize) -> (r: Option<Vec<ProduceTopicData>>)
    ensures
        match produce_topics_from(data@, *old(pos) as int, n as nat) {
            Some((raw, p)) => r matches Some(v) && v@.map_values(|t: ProduceTopicData| t@)
                == produce_request_view(raw) && *final(pos) as int == p,
            None => r is None,
        },
{
    let ghost target = produce_topics_from(data@, *pos as int, n as nat);
    let ghost mut raw_done: Seq<(Seq<u8>, Seq<i32>)> = Seq::empty();
    let mut topics: Vec<ProduceTopicData> = Vec::new();
    let mut k: usize = 0;
    while k < n
        invariant
            k <= n,
            target == produce_topics_from(data@, *old(pos) as int, n as nat),
            target == prepend(raw_done, produce_topics_from(data@, *pos as int, (n - k) as nat)),
            topics@.map_values(|t: ProduceTopicData| t@) == produce_request_view(raw_done),
        decreases n - k,
    {
        let ghost p0 = *pos as int;
        let name = match read_compact_string(data, pos) {
            Some(s) => s,
            None => return None,
        };
        let ghost raw_name = compact_string_at(data@, p0).unwrap().0;
        let count = match read_compact_array_len(data, pos) {
            Some(c) => c,
            None => return None,
        };
        let partitions = match read_produce_partitions(data, pos, count) {
            Some(v) => v,
            None => return None,
        };
        let ghost indices = partitions@.map_values(|d: ProducePartitionData| d.index);
        if skip_tag_buffer(data, pos).is_none() {
            return None;
        }
        let ghost before = topics@.map_values(|t: ProduceTopicData| t@);
        let topic = ProduceTopicData { name, partitions };
        topics.push(topic);
        proof {
            let item = (raw_name, indices);
            match produce_topics_from(data@, *pos as int, (n - k - 1) as nat) {
                Some((rest, q)) => {
                    assert(raw_done.push(item) + rest =~= raw_done + (seq![item] + rest));
                },
                None => {},
            }
            raw_done = raw_done.push(item);
        }
        assert(topics@.map_values(|t: ProduceTopicData| t@) =~= before.push(topic@));
        assert(produce_request_view(raw_done) =~= before.push(topic@));
        k = k + 1;
    }
    assert(raw_done + Seq::<(Seq<u8>, Seq<i32>)>::empty() =~= raw_done);
    Some(topics)
}

/// Reads a `Produce` request body at `body_offset`; `None` exactly where a
/// read would run past the end of the buffer or a position overflow.
pub fn try_parse_produce_request(buffer: &[u8], body_offset: usize) -> (r: Option<ProduceRequest>)
    ensures
        match produce_request_at(buffer@, body_offset as int) {
            Some(raw) => r matches Some(req) && req@ == produce_request_view(raw),
            None => r is None,
        },
{
    let mut pos = body_offset;
    if skip_compact_nullable_string(buffer, &mut pos).is_none() {
        return None;
    }
    if pos > usize::MAX - 6 {
        return None;
    }
    pos = pos + 2;
    pos = pos + 4;
    let topics_count = match read_compact_array_len(buffer, &mut pos) {
        Some(c) => c,
        None => return None,
    };
    match read_produce_topics(buffer, &mut pos, topics_count) {
        Some(topics) => Some(ProduceRequest { topics }),
        None => None,
    }
}

/// Reads a `Produce` request body at `body_offset`.
pub fn parse_produce_request(buffer: &[u8], body_offset: usize) -> (r: ProduceRequest)
    requires
        produce_request_at(buffer@, body_offset as int) is Some,
    ensures
        r@ == produce_request_view(produce_request_at(buffer@, body_offset as int).unwrap()),
{
    try_parse_produce_request(buffer, body_offset).unwrap()
}

} // verus!
