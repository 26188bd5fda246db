//! The request header (v2): API key, API version, correlation id, a
//! nullable client id (`NULLABLE_STRING`, `INT16` length) and a tag buffer
//! (one length byte, then that many bytes).

use vstd::prelude::*;
use vstd::slice::{slice_subrange, slice_to_vec};

use crate::text::{string_from_utf8_lossy, text_of};
use crate::wire::{
    be_bytes, be_i16, be_i32, bytes_in, i16_from_be, i32_from_be, lemma_be_bytes_len, lemma_i16_roundtrip,
    lemma_i32_roundtrip,
};

verus! {

/// The fields of a request header, with the client id as raw bytes.
pub struct HeaderFields {
    pub api_key: i16,
    pub api_version: i16,
    pub correlation_id: i32,
    pub client_id: Option<Seq<u8>>,
    pub tag_buffer: Seq<u8>,
}

/// The header at the start of `buffer`, and where the body starts; `None`
/// where a field would run past the end of the buffer.
pub open spec fn request_header_at(buffer: Seq<u8>) -> Option<(HeaderFields, int)> {
    if buffer.len() < 10 {
        None
    } else {
        let client_id_length = be_i16(buffer.subrange(8, 10));
        let (client_id, tag_start) = if client_id_length < 0 {
            (None::<Seq<u8>>, 10int)
        } else {
            (Some(buffer.subrange(10, 10 + client_id_length)), 10 + client_id_length)
        };
        if tag_start >= buffer.len() {
            None
        } else {
            let tag_len = buffer[tag_start] as int;
            match bytes_in(buffer, tag_start + 1, tag_start + 1 + tag_len) {
                None => None,
                Some(tag_buffer) => Some(
                    (
                        HeaderFields {
                            api_key: be_i16(buffer.subrange(0, 2)),
                            api_version: be_i16(buffer.subrange(2, 4)),
                            correlation_id: be_i32(buffer.subrange(4, 8)),
                            client_id,
                            tag_buffer,
                        },
                        tag_start + 1 + tag_len,
                    ),
                ),
            }
        }
    }
}

/// The bytes of a request header (v2): API key, API version, correlation
/// id, the client id as a `NULLABLE_STRING` (`INT16` length, -1 for null)
/// and a tag buffer (one length byte, then its bytes).
pub open spec fn request_header_bytes(f: HeaderFields) -> Seq<u8> {
    be_bytes(f.api_key as int, 2) + be_bytes(f.api_version as int, 2) + be_bytes(f.correlation_id as int, 4)
        + match f.client_id {
        None => be_bytes(-1, 2),
        Some(c) => be_bytes(c.len() as int, 2) + c,
    } + seq![f.tag_buffer.len() as u8] + f.tag_buffer
}

/// A request header reads back as its fields, whatever body follows it, and
/// the body starts right after it.
pub proof fn lemma_request_header_reads_back(f: HeaderFields, body: Seq<u8>)
    requires
        f.tag_buffer.len() < 256,
        f.client_id matches Some(c) ==> c.len() < 0x8000,
    ensures
        request_header_at(request_header_bytes(f) + body) == Some((f, request_header_bytes(f).len() as int)),
{
    let d = request_header_bytes(f) + body;
    let h = request_header_bytes(f);
    lemma_i16_roundtrip(f.api_key);
    lemma_i16_roundtrip(f.api_version);
    lemma_i32_roundtrip(f.correlation_id);
    lemma_be_bytes_len(f.api_key as int, 2);
    lemma_be_bytes_len(f.api_version as int, 2);
    lemma_be_bytes_len(f.correlation_id as int, 4);
    assert(d.subrange(0, 2) =~= be_bytes(f.api_key as int, 2));
    assert(d.subrange(2, 4) =~= be_bytes(f.api_version as int, 2));
    assert(d.subrange(4, 8) =~= be_bytes(f.correlation_id as int, 4));
    match f.client_id {
        None => {
            lemma_i16_roundtrip(-1i16);
            lemma_be_bytes_len(-1, 2);
            assert(d.subrange(8, 10) =~= be_bytes(-1, 2));
            assert(d[10] == f.tag_buffer.len() as u8);
            assert(d.subrange(11, 11 + f.tag_buffer.len() as int) =~= f.tag_buffer);
        },
        Some(c) => {
            lemma_i16_roundtrip(c.len() as i16);
            lemma_be_bytes_len(c.len() as int, 2);
            assert(d.subrange(8, 10) =~= be_bytes(c.len() as int, 2));
            let n = c.len() as int;
            assert(d.subrange(10, 10 + n) =~= c);
            assert(d[10 + n] == f.tag_buffer.len() as u8);
            assert(d.subrange(11 + n, 11 + n + f.tag_buffer.len()) =~= f.tag_buffer);
        },
    }
}

/// A request header (v2); the client id is read as text.
pub struct RequestHeader {
    pub request_api_key: i16,
    pub request_api_version: i16,
    pub correlation_id: i32,
    pub client_id: Option<String>,
    pub tag_buffer: Vec<u8>,
}

/// `h` holds the fields `f`, the client id read as text.
pub open spec fn header_matches(h: RequestHeader, f: HeaderFields) -> bool {
    &&& h.request_api_key == f.api_key
    &&& h.request_api_version == f.api_version
    &&& h.correlation_id == f.correlation_id
    &&& h.tag_buffer@ == f.tag_buffer
    &&& match (h.client_id, f.client_id) {
        (None, None) => true,
        (Some(s), Some(b)) => s@ == text_of(b),
        _ => false,
    }
}

/// Reads the request header at the start of `buffer`; `None` exactly where
/// a field would run past the end.
pub fn try_parse_request_header(buffer: &[u8]) -> (r: Option<(RequestHeader, usize)>)
    ensures
        match request_header_at(buffer@) {
            Some((f, end)) => r matches Some((h, e)) && header_matches(h, f) && e as int == end,
            None => r is None,
        },
{
    if buffer.len() < 10 {
        return None;
    }
    let request_api_key = i16_from_be(buffer[0], buffer[1]);
    let request_api_version = i16_from_be(buffer[2], buffer[3]);
    let correlation_id = i32_from_be(buffer[4], buffer[5], buffer[6], buffer[7]);
    let client_id_length = i16_from_be(buffer[8], buffer[9]);
    assert(buffer@.subrange(0, 2) =~= seq![buffer@[0], buffer@[1]]);
    assert(buffer@.subrange(2, 4) =~= seq![buffer@[2], buffer@[3]]);
    assert(buffer@.subrange(4, 8) =~= seq![buffer@[4], buffer@[5], buffer@[6], buffer@[7]]);
    assert(buffer@.subrange(8, 10) =~= seq![buffer@[8], buffer@[9]]);
    let (client_id, tag_buffer_start) = if client_id_length < 0 {
        (None, 10usize)
    } else {
        let len = client_id_length as usize;
        if len > buffer.len() - 10 {
            return None;
        }
        let bytes = slice_subrange(buffer, 10, 10 + len);
        (Some(string_from_utf8_lossy(bytes)), 10 + len)
    };
    if tag_buffer_start >= buffer.len() {
        return None;
    }
    let tag_buffer_length = buffer[tag_buffer_start] as usize;
    if tag_buffer_length > buffer.len() - tag_buffer_start - 1 {
        return None;
    }
    let tag_buffer = slice_to_vec(
        slice_subrange(buffer, tag_buffer_start + 1, tag_buffer_start + 1 + tag_buffer_length),
    );
    Some(
        (
            RequestHeader {
                request_api_key,
                request_api_version,
                correlation_id,
                client_id,
                tag_buffer,
            },
            tag_buffer_start + 1 + tag_buffer_length,
        ),
    )
}

/// Reads the request header at the start of `buffer` and returns it with
/// the offset at which the request body starts.
pub fn parse_request_header(buffer: &[u8]) -> (r: (RequestHeader, usize))
    requires
        request_header_at(buffer@) is Some,
    ensures
        header_matches(r.0, request_header_at(buffer@).unwrap().0),
        r.1 as int == request_header_at(buffer@).unwrap().1,
{
    try_parse_request_header(buffer).unwrap()
}

} // verus!
