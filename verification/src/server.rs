//! What the broker answers to one request: the request is taken apart, the
//! handler for its API key answers it, and the answer is framed with its
//! size, the request's correlation id and (for header version 1) an empty
//! tag buffer.
//!
//! `respond` is the broker's server. It reads only the first eight bytes of
//! a request (API key, version, correlation id), serves `ApiVersions` alone
//! (its answer lists that one key, versions 0 to 4), and answers every other
//! key with error 35 and the message `Unsupported API key`; both answers are
//! framed with the bare correlation id (header version 0).
//!
//! `respond_with_endpoints` answers with the handlers of the endpoint
//! modules instead: the keys of `endpoints::api_key` (`Produce`,
//! `ApiVersions`, `DescribeTopicPartitions`) are served and listed by
//! `ApiVersions`; `Produce` and `DescribeTopicPartitions` read the whole v2
//! request header to find the body, take the topics from the
//! cluster-metadata log and answer with header version 1.

use bytes::BytesMut;
use vstd::prelude::*;

use crate::buffer::{
    bytes_mut_as_slice, bytes_mut_contents, bytes_mut_len, bytes_mut_new, extend_from_slice, put_i32,
    put_u8,
};
use crate::cluster::metadata::{cluster_topics, parse};
use crate::cluster::topic::TopicView;
use crate::endpoints::api_key::{all_api_keys, api_key_from_code, ApiKey};
use crate::endpoints::api_versions::{entry_of, handle_api_versions_request};
use crate::endpoints::describe_topic_partitions::handle_topic_partitions_request;
use crate::endpoints::describe_topic_partitions::types::{
    names_view, request_names_at, try_parse_describe_topic_partitions_request,
};
use crate::endpoints::error::{unsupported_key_message, ErrorResponse};
use crate::endpoints::produce::handle_produce_request;
use crate::endpoints::produce::types::{
    produce_answer, produce_request_at, produce_request_view, produce_response_bytes,
    produce_response_encodable, try_parse_produce_request, ProduceTopicView,
};
use crate::endpoints::request::{request_header_at, try_parse_request_header};
use crate::name_map::entries_map;
use crate::protocol_types::api_versions::{
    api_key_entry_bytes, api_versions_bytes, ApiKeyEntry, ApiVersionsResponse,
};
use crate::protocol_types::describe_topic_partitions::{
    describe_answers, describe_response_bytes, describe_response_encodable,
};
use crate::protocol_types::kafka_encode::KafkaEncode;
use crate::wire::{
    be_bytes, be_i16, be_i32, compact_len_byte, concat_map, i16_from_be, i32_from_be, lemma_i32_bytes_roundtrip, lemma_i32_roundtrip,
};

verus! {

broadcast use crate::wire::lemma_be_bytes_len;

/// A framed response: the size of what follows (as an `INT32`), the
/// correlation id, for header version 1 an empty tag buffer, and the body.
pub open spec fn response_frame(correlation_id: i32, header_version: u8, body: Seq<u8>) -> Seq<u8> {
    let header = if header_version == 0 {
        be_bytes(correlation_id as int, 4)
    } else {
        be_bytes(correlation_id as int, 4).push(0u8)
    };
    be_bytes(((header.len() + body.len()) as i32) as int, 4) + header + body
}

/// Frames `response` with `correlation_id`.
pub fn write_response<T: KafkaEncode>(correlation_id: i32, response: &T) -> (out: BytesMut)
    requires
        response.encodable(),
        response.encoding().len() + 9 <= isize::MAX,
    ensures
        bytes_mut_contents(out) == response_frame(
            correlation_id,
            response.header_version(),
            response.encoding(),
        ),
{
    let mut body = bytes_mut_new();
    response.encode(&mut body);
    assert(bytes_mut_contents(body) =~= response.encoding());
    let body_len = bytes_mut_len(&body);
    let version = response.response_header_version();
    let header_len: usize = if version == 0 {
        4
    } else {
        5
    };
    let mut out = bytes_mut_new();
    put_i32(&mut out, (header_len + body_len) as i32);
    put_i32(&mut out, correlation_id);
    if version != 0 {
        put_u8(&mut out, 0);
    }
    extend_from_slice(&mut out, bytes_mut_as_slice(&body));
    assert(bytes_mut_contents(out) =~= response_frame(
        correlation_id,
        response.header_version(),
        response.encoding(),
    ));
    out
}

/// `body` framed, where every count fits its length byte and the frame
/// fits in memory; `None` otherwise.
pub open spec fn framed(correlation_id: i32, header_version: u8, body: Seq<u8>, encodable: bool) -> Option<Seq<u8>> {
    if encodable && body.len() + 9 <= isize::MAX {
        Some(response_frame(correlation_id, header_version, body))
    } else {
        None
    }
}

/// The body of the answer to an `ApiVersions` request of version `version`.
pub open spec fn api_versions_answer(version: i16) -> Seq<u8> {
    api_versions_bytes(
        if version < 0 || version > 4 {
            35
        } else {
            0
        },
        all_api_keys().map_values(|k: ApiKey| entry_of(k)),
        0,
    )
}

/// The answers to the topics of a `Produce` request.
pub open spec fn produce_answers(request: Seq<ProduceTopicView>, known: Map<Seq<char>, TopicView>) -> Seq<
    crate::endpoints::produce::types::TopicResponseView,
> {
    request.map_values(|t: ProduceTopicView| produce_answer(t, known.contains_key(t.name)))
}

/// The topics that a cluster-metadata log holds, by name.
pub open spec fn known_topics(log: Seq<u8>) -> Option<Map<Seq<char>, TopicView>> {
    match cluster_topics(log) {
        Some(es) => Some(entries_map(es)),
        None => None,
    }
}

/// The body of the answer to a request for an API key that the broker does
/// not serve.
pub open spec fn unsupported_key_answer() -> Seq<u8> {
    be_bytes(35, 2) + unsupported_key_message()
}

/// The bytes that the endpoint handlers send back for the request in
/// `buffer`, with the cluster-metadata log `log`; `None` where they cannot
/// answer: the
/// request is shorter than its first eight bytes or runs past the end of
/// the buffer where the handler reads further, the log cannot be read where
/// the request needs it, or the answer cannot be encoded.
pub open spec fn endpoint_response(buffer: Seq<u8>, log: Seq<u8>) -> Option<Seq<u8>> {
    if buffer.len() < 8 {
        None
    } else {
        let api_key = be_i16(buffer.subrange(0, 2));
        let api_version = be_i16(buffer.subrange(2, 4));
        let cid = be_i32(buffer.subrange(4, 8));
        match api_key_from_code(api_key) {
            Ok(ApiKey::ApiVersions) => Some(response_frame(cid, 0, api_versions_answer(api_version))),
            Err(_) => Some(response_frame(cid, 0, unsupported_key_answer())),
            Ok(ApiKey::DescribeTopicPartitions) => describe_response(buffer, log, cid),
            Ok(ApiKey::Produce) => produce_response(buffer, log, cid),
        }
    }
}

/// The answer to a `DescribeTopicPartitions` request: the whole v2 header
/// is read to find the body.
pub open spec fn describe_response(buffer: Seq<u8>, log: Seq<u8>, cid: i32) -> Option<Seq<u8>> {
    match request_header_at(buffer) {
        None => None,
        Some((_h, body_offset)) => match (request_names_at(buffer, body_offset), known_topics(log)) {
            (Some(raw), Some(known)) => {
                let answers = describe_answers(names_view(raw), known);
                framed(cid, 1, describe_response_bytes(answers), describe_response_encodable(answers))
            },
            _ => None,
        },
    }
}

/// The answer to a `Produce` request: the whole v2 header is read to find
/// the body.
pub open spec fn produce_response(buffer: Seq<u8>, log: Seq<u8>, cid: i32) -> Option<Seq<u8>> {
    match request_header_at(buffer) {
        None => None,
        Some((_h, body_offset)) => match (produce_request_at(buffer, body_offset), known_topics(log)) {
            (Some(raw), Some(known)) => {
                let answers = produce_answers(produce_request_view(raw), known);
                framed(cid, 1, produce_response_bytes(answers), produce_response_encodable(answers))
            },
            _ => None,
        },
    }
}

/// Every request of eight bytes or more for `ApiVersions`, or for an API key
/// that the endpoints do not serve, gets an answer from them, framed with
/// header version 0; no more of it than those eight bytes is read.
pub proof fn lemma_endpoint_short_requests_answered(buffer: Seq<u8>, log: Seq<u8>)
    requires
        buffer.len() >= 8,
        api_key_from_code(be_i16(buffer.subrange(0, 2))) is Err || api_key_from_code(
            be_i16(buffer.subrange(0, 2)),
        ) == Ok::<ApiKey, i16>(ApiKey::ApiVersions),
    ensures
        endpoint_response(buffer, log) == Some(
            response_frame(
                be_i32(buffer.subrange(4, 8)),
                0,
                if api_key_from_code(be_i16(buffer.subrange(0, 2))) is Err {
                    unsupported_key_answer()
                } else {
                    api_versions_answer(be_i16(buffer.subrange(2, 4)))
                },
            ),
        ),
        endpoint_response(buffer, log) == endpoint_response(buffer.subrange(0, 8), Seq::empty()),
{
    let b8 = buffer.subrange(0, 8);
    assert(b8.subrange(0, 2) =~= buffer.subrange(0, 2));
    assert(b8.subrange(2, 4) =~= buffer.subrange(2, 4));
    assert(b8.subrange(4, 8) =~= buffer.subrange(4, 8));
}

/// The size field of a frame counts the bytes after it (as long as they are
/// fewer than 2^31, so that the count fits an `INT32`), and the correlation
/// id follows it.
pub proof fn lemma_frame_fields(correlation_id: i32, header_version: u8, body: Seq<u8>)
    requires
        body.len() + 5 < 0x8000_0000,
    ensures
        ({
            let frame = response_frame(correlation_id, header_version, body);
            &&& be_i32(frame.subrange(0, 4)) as int == frame.len() - 4
            &&& be_i32(frame.subrange(4, 8)) == correlation_id
            &&& header_version == 0 ==> frame.len() == 8 + body.len() && frame.subrange(8, frame.len() as int)
                == body
            &&& header_version != 0 ==> frame.len() == 9 + body.len() && frame[8] == 0 && frame.subrange(
                9,
                frame.len() as int,
            ) == body
        }),
{
    let frame = response_frame(correlation_id, header_version, body);
    let header = if header_version == 0 {
        be_bytes(correlation_id as int, 4)
    } else {
        be_bytes(correlation_id as int, 4).push(0u8)
    };
    let size = (header.len() + body.len()) as i32;
    assert(size as int == header.len() + body.len());
    lemma_i32_roundtrip(size);
    lemma_i32_roundtrip(correlation_id);
    assert(frame.subrange(0, 4) =~= be_bytes(size as int, 4));
    assert(frame.subrange(4, 8) =~= be_bytes(correlation_id as int, 4));
    if header_version == 0 {
        assert(frame.subrange(8, frame.len() as int) =~= body);
    } else {
        assert(frame.subrange(9, frame.len() as int) =~= body);
    }
}

/// The broker's server answers every request for an API key other than 18
/// (at least eight bytes) with this frame: size 25, the request's
/// correlation id, error code 35 and the message `Unsupported API key`.
pub proof fn lemma_unsupported_key_frame(buffer: Seq<u8>)
    requires
        buffer.len() >= 8,
        be_i16(buffer.subrange(0, 2)) != 18,
    ensures
        broker_response(buffer) == Some(
            seq![0u8, 0, 0, 25] + buffer.subrange(4, 8) + seq![
                0u8, 35, 0x55, 0x6e, 0x73, 0x75, 0x70, 0x70, 0x6f, 0x72, 0x74, 0x65, 0x64, 0x20, 0x41, 0x50,
                0x49, 0x20, 0x6b, 0x65, 0x79,
            ],
        ),
{
    let cid = be_i32(buffer.subrange(4, 8));
    lemma_i32_bytes_roundtrip(buffer.subrange(4, 8));
    assert(be_bytes(35, 2) =~= seq![0u8, 35]) by {
        reveal_with_fuel(be_bytes, 3);
    }
    assert(be_bytes(25, 4) =~= seq![0u8, 0, 0, 25]) by {
        reveal_with_fuel(be_bytes, 5);
    }
    let body = unsupported_key_answer();
    assert(body.len() == 21);
    assert((4 + body.len()) as i32 == 25);
    assert(response_frame(cid, 0, body) =~= seq![0u8, 0, 0, 25] + buffer.subrange(4, 8) + seq![
        0u8, 35, 0x55, 0x6e, 0x73, 0x75, 0x70, 0x70, 0x6f, 0x72, 0x74, 0x65, 0x64, 0x20, 0x41, 0x50, 0x49,
        0x20, 0x6b, 0x65, 0x79,
    ]);
}

/// Whatever the endpoint handlers answer starts, after the size field, with
/// the correlation id of the request, byte for byte.
pub proof fn lemma_endpoint_response_echoes_correlation_id(buffer: Seq<u8>, log: Seq<u8>)
    ensures
        endpoint_response(buffer, log) matches Some(b) ==> b.len() >= 8 && b.subrange(4, 8)
            == buffer.subrange(4, 8),
{
    if buffer.len() >= 8 {
        let cid = be_i32(buffer.subrange(4, 8));
        lemma_i32_bytes_roundtrip(buffer.subrange(4, 8));
        assert forall|hv: u8, body: Seq<u8>| #[trigger] response_frame(cid, hv, body).subrange(4, 8)
            == buffer.subrange(4, 8) && response_frame(cid, hv, body).len() >= 8 by {
            let frame = response_frame(cid, hv, body);
            assert(frame.subrange(4, 8) =~= be_bytes(cid as int, 4));
        }
    }
}

/// The largest body that can be framed.
fn max_body() -> (n: usize)
    ensures
        n + 9 == isize::MAX,
{
    (isize::MAX as usize) - 9
}

/// Answers a `DescribeTopicPartitions` request.
fn answer_describe(buffer: &[u8], metadata_log: &[u8], cid: i32) -> (r: Option<BytesMut>)
    ensures
        match describe_response(buffer@, metadata_log@, cid) {
            Some(b) => r matches Some(out) && bytes_mut_contents(out) == b,
            None => r is None,
        },
{
    let body_offset = match try_parse_request_header(buffer) {
        Some((_h, off)) => off,
        None => return None,
    };
    let request = match try_parse_describe_topic_partitions_request(buffer, body_offset) {
        Some(r) => r,
        None => return None,
    };
    let metadata = match parse(metadata_log) {
        Some(m) => m,
        None => return None,
    };
    let response = handle_topic_partitions_request(request, metadata);
    match response.checked_encoding_len() {
        Some(n) => {
            if n > max_body() {
                return None;
            }
            Some(write_response(cid, &response))
        },
        None => None,
    }
}

/// Answers a `Produce` request.
fn answer_produce(buffer: &[u8], metadata_log: &[u8], cid: i32) -> (r: Option<BytesMut>)
    ensures
        match produce_response(buffer@, metadata_log@, cid) {
            Some(b) => r matches Some(out) && bytes_mut_contents(out) == b,
            None => r is None,
        },
{
    let body_offset = match try_parse_request_header(buffer) {
        Some((_h, off)) => off,
        None => return None,
    };
    let request = match try_parse_produce_request(buffer, body_offset) {
        Some(r) => r,
        None => return None,
    };
    let metadata = match parse(metadata_log) {
        Some(m) => m,
        None => return None,
    };
    let response = handle_produce_request(request, &metadata);
    match response.checked_encoding_len() {
        Some(n) => {
            if n > max_body() {
                return None;
            }
            Some(write_response(cid, &response))
        },
        None => None,
    }
}

/// Answers the request in `buffer` (the bytes after its size field) with
/// the endpoint handlers and the topics of the cluster-metadata log
/// `metadata_log`, which is read only for requests that need it.
pub fn respond_with_endpoints(buffer: &[u8], metadata_log: &[u8]) -> (r: Option<BytesMut>)
    ensures
        match endpoint_response(buffer@, metadata_log@) {
            Some(b) => r matches Some(out) && bytes_mut_contents(out) == b,
            None => r is None,
        },
{
    if buffer.len() < 8 {
        return None;
    }
    let api_key = i16_from_be(buffer[0], buffer[1]);
    let api_version = i16_from_be(buffer[2], buffer[3]);
    let cid = i32_from_be(buffer[4], buffer[5], buffer[6], buffer[7]);
    assert(buffer@.subrange(0, 2) =~= seq![buffer@[0], buffer@[1]]);
    assert(buffer@.subrange(2, 4) =~= seq![buffer@[2], buffer@[3]]);
    assert(buffer@.subrange(4, 8) =~= seq![buffer@[4], buffer@[5], buffer@[6], buffer@[7]]);
    match ApiKey::try_from(api_key) {
        Ok(ApiKey::ApiVersions) => {
            let response = handle_api_versions_request(api_version);
            let ghost f = |e: ApiKeyEntry| api_key_entry_bytes(e);
            assert forall|e: ApiKeyEntry| #[trigger] f(e).len() == 7 by {}
            proof {
                crate::wire::lemma_concat_map_len_const(response.api_keys@, f, 7);
            }
            assert(response.encoding() =~= api_versions_answer(api_version));
            Some(write_response(cid, &response))
        },
        Ok(ApiKey::DescribeTopicPartitions) => answer_describe(buffer, metadata_log, cid),
        Ok(ApiKey::Produce) => answer_produce(buffer, metadata_log, cid),
        Err(_) => {
            let response = ErrorResponse::unsupported_key();
            assert(response.encoding() =~= unsupported_key_answer());
            Some(write_response(cid, &response))
        },
    }
}

/// The `ApiVersions` answer of the broker's server, which serves that one
/// key: error code 35 when `version` is outside 0..=4 (0 otherwise), the
/// entry of `ApiVersions` with versions 0 to 4, throttle time 0.
pub open spec fn served_api_versions_answer(version: i16) -> Seq<u8> {
    api_versions_bytes(
        if version < 0 || version > 4 {
            35
        } else {
            0
        },
        seq![entry_of(ApiKey::ApiVersions)],
        0,
    )
}

/// The bytes that the broker's server sends back for the request in
/// `buffer` (the bytes after its size field): `None` exactly when the
/// request is shorter than eight bytes; otherwise the answer to key 18
/// (`ApiVersions`), or error 35 with its message for any other key, framed
/// with the request's correlation id and no tag byte.
pub open spec fn broker_response(buffer: Seq<u8>) -> Option<Seq<u8>> {
    if buffer.len() < 8 {
        None
    } else {
        let api_key = be_i16(buffer.subrange(0, 2));
        let api_version = be_i16(buffer.subrange(2, 4));
        let cid = be_i32(buffer.subrange(4, 8));
        if api_key == 18 {
            Some(response_frame(cid, 0, served_api_versions_answer(api_version)))
        } else {
            Some(response_frame(cid, 0, unsupported_key_answer()))
        }
    }
}

/// Every request of eight bytes or more gets exactly one answer, which
/// depends on those eight bytes alone and starts, after its size field, with
/// the request's correlation id; the size field counts the bytes after it.
pub proof fn lemma_every_request_answered(buffer: Seq<u8>)
    requires
        buffer.len() >= 8,
    ensures
        broker_response(buffer) matches Some(b) && b.len() >= 8 && b.subrange(4, 8) == buffer.subrange(4, 8)
            && be_i32(b.subrange(0, 4)) as int == b.len() - 4,
        broker_response(buffer) == broker_response(buffer.subrange(0, 8)),
{
    let b8 = buffer.subrange(0, 8);
    assert(b8.subrange(0, 2) =~= buffer.subrange(0, 2));
    assert(b8.subrange(2, 4) =~= buffer.subrange(2, 4));
    assert(b8.subrange(4, 8) =~= buffer.subrange(4, 8));
    let cid = be_i32(buffer.subrange(4, 8));
    lemma_i32_bytes_roundtrip(buffer.subrange(4, 8));
    let body = if be_i16(buffer.subrange(0, 2)) == 18 {
        served_api_versions_answer(be_i16(buffer.subrange(2, 4)))
    } else {
        unsupported_key_answer()
    };
    assert(body.len() < 100) by {
        reveal_with_fuel(concat_map, 2);
    }
    lemma_frame_fields(cid, 0, body);
    let frame = response_frame(cid, 0, body);
    assert(frame.subrange(4, 8) =~= be_bytes(cid as int, 4));
}

/// The broker's server answers every `ApiVersions` request (API key 18, at
/// least eight bytes) with this frame: size 19, the request's correlation
/// id, error code 0 when the version is 0 to 4 and 35 otherwise, then one
/// key entry (key 18, versions 0 to 4, empty tag buffer), throttle time 0
/// and an empty tag buffer.
pub proof fn lemma_api_versions_frame(buffer: Seq<u8>)
    requires
        buffer.len() >= 8,
        be_i16(buffer.subrange(0, 2)) == 18,
    ensures
        ({
            let v = be_i16(buffer.subrange(2, 4));
            broker_response(buffer) == Some(
                seq![0u8, 0, 0, 19] + buffer.subrange(4, 8) + be_bytes(
                    if v < 0 || v > 4 {
                        35
                    } else {
                        0
                    },
                    2,
                ) + seq![2u8, 0, 18, 0, 0, 0, 4, 0, 0, 0, 0, 0, 0],
            )
        }),
{
    let v = be_i16(buffer.subrange(2, 4));
    let cid = be_i32(buffer.subrange(4, 8));
    lemma_i32_bytes_roundtrip(buffer.subrange(4, 8));
    let err: i16 = if v < 0 || v > 4 {
        35
    } else {
        0
    };
    let keys = seq![entry_of(ApiKey::ApiVersions)];
    let f = |e: ApiKeyEntry| api_key_entry_bytes(e);
    assert(keys.drop_last() =~= Seq::<ApiKeyEntry>::empty());
    assert(concat_map(keys, f) == concat_map(keys.drop_last(), f) + f(keys.last()));
    assert(be_bytes(18, 2) =~= seq![0u8, 18]) by {
        reveal_with_fuel(be_bytes, 3);
    }
    assert(be_bytes(0, 2) =~= seq![0u8, 0]) by {
        reveal_with_fuel(be_bytes, 3);
    }
    assert(be_bytes(4, 2) =~= seq![0u8, 4]) by {
        reveal_with_fuel(be_bytes, 3);
    }
    assert(be_bytes(0, 4) =~= seq![0u8, 0, 0, 0]) by {
        reveal_with_fuel(be_bytes, 5);
    }
    assert(be_bytes(19, 4) =~= seq![0u8, 0, 0, 19]) by {
        reveal_with_fuel(be_bytes, 5);
    }
    assert(compact_len_byte(1) == 2u8);
    let body = served_api_versions_answer(v);
    assert(body =~= be_bytes(err as int, 2) + seq![2u8, 0, 18, 0, 0, 0, 4, 0, 0, 0, 0, 0, 0]);
    assert((4 + body.len()) as i32 == 19);
    assert(response_frame(cid, 0, body) =~= seq![0u8, 0, 0, 19] + buffer.subrange(4, 8) + be_bytes(
        err as int,
        2,
    ) + seq![2u8, 0, 18, 0, 0, 0, 4, 0, 0, 0, 0, 0, 0]);
}

/// The endpoint handlers answer every `ApiVersions` request (API key 18,
/// at least eight bytes) with error code 0 when the version is 0 to 4 and
/// 35 otherwise, right after the correlation id.
pub proof fn lemma_endpoint_api_versions_error_code(buffer: Seq<u8>, log: Seq<u8>)
    requires
        buffer.len() >= 8,
        be_i16(buffer.subrange(0, 2)) == 18,
    ensures
        ({
            let v = be_i16(buffer.subrange(2, 4));
            endpoint_response(buffer, log) matches Some(b) && b.len() >= 10 && b.subrange(8, 10) == be_bytes(
                if v < 0 || v > 4 {
                    35
                } else {
                    0
                },
                2,
            )
        }),
{
    let v = be_i16(buffer.subrange(2, 4));
    let cid = be_i32(buffer.subrange(4, 8));
    let body = api_versions_answer(v);
    let frame = response_frame(cid, 0, body);
    let err: i16 = if v < 0 || v > 4 {
        35
    } else {
        0
    };
    assert(frame.subrange(8, 10) =~= be_bytes(err as int, 2));
}

/// The body of the endpoint handlers' `ApiVersions` answer, byte by byte.
#[verifier::spinoff_prover]
proof fn lemma_api_versions_answer_bytes(v: i16)
    ensures
        api_versions_answer(v) == be_bytes(
            if v < 0 || v > 4 {
                35
            } else {
                0
            },
            2,
        ) + seq![4u8, 0, 0, 0, 0, 0, 11, 0, 0, 18, 0, 0, 0, 4, 0, 0, 75, 0, 0, 0, 0, 0, 0, 0, 0, 0, 0],
{
    let err: i16 = if v < 0 || v > 4 {
        35
    } else {
        0
    };
    let keys = all_api_keys().map_values(|k: ApiKey| entry_of(k));
    let f = |e: ApiKeyEntry| api_key_entry_bytes(e);
    assert(be_bytes(0, 2) =~= seq![0u8, 0]) by {
        reveal_with_fuel(be_bytes, 3);
    }
    assert(be_bytes(11, 2) =~= seq![0u8, 11]) by {
        reveal_with_fuel(be_bytes, 3);
    }
    assert(be_bytes(18, 2) =~= seq![0u8, 18]) by {
        reveal_with_fuel(be_bytes, 3);
    }
    assert(be_bytes(4, 2) =~= seq![0u8, 4]) by {
        reveal_with_fuel(be_bytes, 3);
    }
    assert(be_bytes(75, 2) =~= seq![0u8, 75]) by {
        reveal_with_fuel(be_bytes, 3);
    }
    assert(be_bytes(0, 4) =~= seq![0u8, 0, 0, 0]) by {
        reveal_with_fuel(be_bytes, 5);
    }
    assert(keys.len() == 3);
    let k0 = keys.drop_last().drop_last();
    let k1 = keys.drop_last();
    assert(k0.drop_last() =~= Seq::<ApiKeyEntry>::empty());
    assert(f(keys[0]) =~= seq![0u8, 0, 0, 0, 0, 11, 0]);
    assert(f(keys[1]) =~= seq![0u8, 18, 0, 0, 0, 4, 0]);
    assert(f(keys[2]) =~= seq![0u8, 75, 0, 0, 0, 0, 0]);
    assert(k0.last() == keys[0]);
    assert(k1.last() == keys[1]);
    assert(concat_map(k0.drop_last(), f) =~= Seq::<u8>::empty());
    assert(concat_map(k0, f) == concat_map(k0.drop_last(), f) + f(k0.last()));
    assert(concat_map(k0, f) =~= f(keys[0]));
    assert(concat_map(k1, f) =~= f(keys[0]) + f(keys[1]));
    assert(concat_map(keys, f) =~= f(keys[0]) + f(keys[1]) + f(keys[2]));
    assert(compact_len_byte(3) == 4u8);
    assert(api_versions_answer(v) =~= be_bytes(err as int, 2) + seq![
        4u8, 0, 0, 0, 0, 0, 11, 0, 0, 18, 0, 0, 0, 4, 0, 0, 75, 0, 0, 0, 0, 0, 0, 0, 0, 0, 0,
    ]);
}

/// The endpoint handlers answer every `ApiVersions` request (API key 18, at
/// least eight bytes) with this frame: size 33, the request's correlation
/// id, error code 0 when the version is 0 to 4 and 35 otherwise, then three
/// key entries (`Produce` 0 with versions 0 to 11, `ApiVersions` 18 with 0
/// to 4, `DescribeTopicPartitions` 75 with 0 to 0, each with an empty tag
/// buffer), throttle time 0 and an empty tag buffer.
pub proof fn lemma_endpoint_api_versions_frame(buffer: Seq<u8>, log: Seq<u8>)
    requires
        buffer.len() >= 8,
        be_i16(buffer.subrange(0, 2)) == 18,
    ensures
        ({
            let v = be_i16(buffer.subrange(2, 4));
            endpoint_response(buffer, log) == Some(
                seq![0u8, 0, 0, 33] + buffer.subrange(4, 8) + be_bytes(
                    if v < 0 || v > 4 {
                        35
                    } else {
                        0
                    },
                    2,
                ) + seq![
                    4u8, 0, 0, 0, 0, 0, 11, 0, 0, 18, 0, 0, 0, 4, 0, 0, 75, 0, 0, 0, 0, 0, 0, 0, 0, 0, 0,
                ],
            )
        }),
{
    let v = be_i16(buffer.subrange(2, 4));
    let cid = be_i32(buffer.subrange(4, 8));
    lemma_i32_bytes_roundtrip(buffer.subrange(4, 8));
    lemma_api_versions_answer_bytes(v);
    let body = api_versions_answer(v);
    assert(body.len() == 29);
    assert(be_bytes(33, 4) =~= seq![0u8, 0, 0, 33]) by {
        reveal_with_fuel(be_bytes, 5);
    }
    assert((4 + body.len()) as i32 == 33);
    assert(api_key_from_code(18) == Ok::<ApiKey, i16>(ApiKey::ApiVersions));
    assert(response_frame(cid, 0, body) =~= seq![0u8, 0, 0, 33] + buffer.subrange(4, 8) + body);
}

/// The `ApiVersions` answer of the broker's server.
fn served_api_versions(version: i16) -> (r: ApiVersionsResponse)
    ensures
        r.encoding() == served_api_versions_answer(version),
        r.encodable(),
        r.encoding().len() == 15,
{
    let error_code: i16 = if version < 0 || version > 4 {
        35
    } else {
        0
    };
    let key = ApiKey::ApiVersions;
    let (min_version, max_version) = key.version_range();
    let mut api_keys: Vec<ApiKeyEntry> = Vec::new();
    api_keys.push(ApiKeyEntry { api_key: key.code(), min_version, max_version });
    let r = ApiVersionsResponse { error_code, api_keys, throttle_time_ms: 0 };
    assert(r.api_keys@ =~= seq![entry_of(ApiKey::ApiVersions)]);
    assert(r.encoding().len() == 15) by {
        let keys = seq![entry_of(ApiKey::ApiVersions)];
        let f = |e: ApiKeyEntry| api_key_entry_bytes(e);
        assert(keys.drop_last() =~= Seq::<ApiKeyEntry>::empty());
        assert(concat_map(keys, f) == concat_map(keys.drop_last(), f) + f(keys.last()));
        assert(concat_map(keys, f).len() == 7);
    }
    r
}

/// Answers the request in `buffer` (the bytes after its size field) as the
/// broker's server does: from its first eight bytes, `ApiVersions` for key
/// 18 and error 35 with its message for any other key.
pub fn respond(buffer: &[u8]) -> (r: Option<BytesMut>)
    ensures
        match broker_response(buffer@) {
            Some(b) => r matches Some(out) && bytes_mut_contents(out) == b,
            None => r is None,
        },
{
    if buffer.len() < 8 {
        return None;
    }
    let api_key = i16_from_be(buffer[0], buffer[1]);
    let api_version = i16_from_be(buffer[2], buffer[3]);
    let cid = i32_from_be(buffer[4], buffer[5], buffer[6], buffer[7]);
    assert(buffer@.subrange(0, 2) =~= seq![buffer@[0], buffer@[1]]);
    assert(buffer@.subrange(2, 4) =~= seq![buffer@[2], buffer@[3]]);
    assert(buffer@.subrange(4, 8) =~= seq![buffer@[4], buffer@[5], buffer@[6], buffer@[7]]);
    match ApiKey::try_from(api_key) {
        Ok(ApiKey::ApiVersions) => {
            let response = served_api_versions(api_version);
            Some(write_response(cid, &response))
        },
        _ => {
            let response = ErrorResponse::unsupported_key();
            assert(response.encoding() =~= unsupported_key_answer());
            Some(write_response(cid, &response))
        },
    }
}

} // verus!
