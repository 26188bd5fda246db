//! The `ApiVersions` response.

use bytes::BytesMut;
use vstd::prelude::*;

use crate::buffer::{bytes_mut_contents, put_i16, put_i32, put_u8};
use crate::protocol_types::kafka_encode::KafkaEncode;
use crate::wire::{
    be_bytes, compact_len_byte, concat_map, fits_len_byte, lemma_concat_map_prefix_len,
    lemma_concat_map_take, len_byte,
};

verus! {

broadcast use crate::wire::lemma_be_bytes_len;

/// One supported API key with its version range.
#[derive(Clone, Copy)]
pub struct ApiKeyEntry {
    pub api_key: i16,
    pub min_version: i16,
    pub max_version: i16,
}

/// The bytes of an entry: key, min and max version, an empty tag buffer.
pub open spec fn api_key_entry_bytes(e: ApiKeyEntry) -> Seq<u8> {
    be_bytes(e.api_key as int, 2) + be_bytes(e.min_version as int, 2) + be_bytes(
        e.max_version as int,
        2,
    ) + seq![0u8]
}

impl KafkaEncode for ApiKeyEntry {
    open spec fn encoding(&self) -> Seq<u8> {
        api_key_entry_bytes(*self)
    }

    open spec fn encodable(&self) -> bool {
        true
    }

    open spec fn header_version(&self) -> u8 {
        1
    }

    fn encode(&self, buf: &mut BytesMut) {
        put_i16(buf, self.api_key);
        put_i16(buf, self.min_version);
        put_i16(buf, self.max_version);
        put_u8(buf, 0);
    }

    fn response_header_version(&self) -> (v: u8) {
        1
    }
}

/// The `ApiVersions` response body: an error code, the supported API keys
/// and a throttle time.
pub struct ApiVersionsResponse {
    pub error_code: i16,
    pub api_keys: Vec<ApiKeyEntry>,
    pub throttle_time_ms: i32,
}

/// The bytes of an `ApiVersions` response body (v3/v4): error code, the
/// entries as a compact array, throttle time, an empty tag buffer.
pub open spec fn api_versions_bytes(error_code: i16, api_keys: Seq<ApiKeyEntry>, throttle_time_ms: i32) -> Seq<u8> {
    be_bytes(error_code as int, 2) + seq![compact_len_byte(api_keys.len())] + concat_map(
        api_keys,
        |e: ApiKeyEntry| api_key_entry_bytes(e),
    ) + be_bytes(throttle_time_ms as int, 4) + seq![0u8]
}

impl KafkaEncode for ApiVersionsResponse {
    open spec fn encoding(&self) -> Seq<u8> {
        api_versions_bytes(self.error_code, self.api_keys@, self.throttle_time_ms)
    }

    open spec fn encodable(&self) -> bool {
        fits_len_byte(self.api_keys@.len())
    }

    /// `ApiVersions` answers with response header version 0.
    open spec fn header_version(&self) -> u8 {
        0
    }

    fn encode(&self, buf: &mut BytesMut) {
        let ghost start = bytes_mut_contents(*buf);
        let ghost f = |e: ApiKeyEntry| api_key_entry_bytes(e);
        let ghost keys = self.api_keys@;
        put_i16(buf, self.error_code);
        put_u8(buf, len_byte(self.api_keys.len()));
        let ghost head = be_bytes(self.error_code as int, 2) + seq![compact_len_byte(keys.len())];
        assert(bytes_mut_contents(*buf) =~= start + head + concat_map(keys.take(0), f));
        let mut i: usize = 0;
        while i < self.api_keys.len()
            invariant
                i <= keys.len(),
                keys == self.api_keys@,
                f == (|e: ApiKeyEntry| api_key_entry_bytes(e)),
                bytes_mut_contents(*buf) == start + head + concat_map(keys.take(i as int), f),
                start.len() + self.encoding().len() <= isize::MAX,
                self.encoding() == head + concat_map(keys, f) + be_bytes(self.throttle_time_ms as int, 4)
                    + seq![0u8],
            decreases keys.len() - i,
        {
            proof {
                lemma_concat_map_take(keys, f, i as int);
                lemma_concat_map_prefix_len(keys, f, i + 1);
            }
            self.api_keys[i].encode(buf);
            assert(bytes_mut_contents(*buf) =~= start + head + concat_map(keys.take(i + 1), f));
            i = i + 1;
        }
        assert(keys.take(i as int) =~= keys);
        assert(bytes_mut_contents(*buf) == start + head + concat_map(keys, f));
        assert(bytes_mut_contents(*buf).len() + 5 == start.len() + self.encoding().len());
        put_i32(buf, self.throttle_time_ms);
        put_u8(buf, 0);
        assert(bytes_mut_contents(*buf) =~= start + self.encoding());
    }

    fn response_header_version(&self) -> (v: u8) {
        0
    }
}

} // verus!
