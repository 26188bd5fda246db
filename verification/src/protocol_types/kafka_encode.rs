//! Responses that can be written into a buffer.

use bytes::BytesMut;
use vstd::prelude::*;

use crate::buffer::bytes_mut_contents;

verus! {

/// A response body that writes itself in the Kafka wire format.
pub trait KafkaEncode {
    /// The bytes that `encode` appends.
    spec fn encoding(&self) -> Seq<u8>;

    /// Whether every count that `encode` writes as a single byte fits in it.
    spec fn encodable(&self) -> bool;

    /// The response header version that goes with this body.
    spec fn header_version(&self) -> u8;

    /// Appends the encoding of `self` to `buf`.
    fn encode(&self, buf: &mut BytesMut)
        requires
            self.encodable(),
            bytes_mut_contents(*old(buf)).len() + self.encoding().len() <= isize::MAX,
        ensures
            bytes_mut_contents(*final(buf)) == bytes_mut_contents(*old(buf)) + self.encoding(),
    ;

    /// The response header version: 1 (correlation id and a tag buffer)
    /// unless the response says otherwise.
    fn response_header_version(&self) -> (v: u8)
        ensures
            v == self.header_version(),
    ;
}

} // verus!
