//! The answer to a request whose API key the broker does not serve: error
//! code 35 followed by a message, framed with the bare correlation id
//! (response header version 0), as the broker's server writes it.

use bytes::BytesMut;
use vstd::prelude::*;
use vstd::utf8::encode_utf8;

use crate::buffer::{extend_from_slice, put_i16};
use crate::protocol_types::kafka_encode::KafkaEncode;
use crate::wire::be_bytes;

verus! {

broadcast use crate::wire::lemma_be_bytes_len;

/// The answer to a request for an API key that the broker does not serve.
pub struct ErrorResponse {
    pub error_msg: String,
}

/// The bytes of the message `Unsupported API key`.
pub open spec fn unsupported_key_message() -> Seq<u8> {
    seq![
        0x55u8, 0x6e, 0x73, 0x75, 0x70, 0x70, 0x6f, 0x72, 0x74, 0x65, 0x64, 0x20, 0x41, 0x50, 0x49,
        0x20, 0x6b, 0x65, 0x79,
    ]
}

impl ErrorResponse {
    /// The answer that the broker sends for an API key it does not serve,
    /// with the message `Unsupported API key`.
    pub fn unsupported_key() -> (r: Self)
        ensures
            encode_utf8(r.error_msg@) == unsupported_key_message(),
    {
        let text = "Unsupported API key";
        proof {
            reveal_strlit("Unsupported API key");
        }
        let error_msg = text.to_owned();
        proof {
            vstd::utf8::is_ascii_chars_encode_utf8(error_msg@);
        }
        assert(encode_utf8(error_msg@) =~= unsupported_key_message());
        ErrorResponse { error_msg }
    }
}

impl KafkaEncode for ErrorResponse {
    /// Error code 35 (`UNSUPPORTED_VERSION`), then the bytes of the message.
    open spec fn encoding(&self) -> Seq<u8> {
        be_bytes(35, 2) + encode_utf8(self.error_msg@)
    }

    open spec fn encodable(&self) -> bool {
        true
    }

    /// Framed with the bare correlation id.
    open spec fn header_version(&self) -> u8 {
        0
    }

    fn encode(&self, buf: &mut BytesMut) {
        put_i16(buf, 35);
        extend_from_slice(buf, self.error_msg.as_str().as_bytes());
    }

    fn response_header_version(&self) -> (v: u8) {
        0
    }
}

} // verus!
