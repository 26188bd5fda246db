//! The byte buffer that responses are encoded into, `bytes::BytesMut`,
//! seen through the sequence of bytes it holds.
//!
//! Each call that appends requires the contents to stay within `isize::MAX`
//! bytes, past which growing the buffer panics. What happens when memory
//! runs out before that is left unsaid, as vstd leaves it unsaid for `Vec`.

use bytes::{BufMut, BytesMut};
use vstd::prelude::*;

use crate::wire::be_bytes;

verus! {

/// `bytes::BytesMut`, carried through the encoders as an opaque value.
#[verifier::external_type_specification]
#[verifier::external_body]
pub struct ExBytesMut(BytesMut);

/// The bytes that a `BytesMut` holds, from its first to its last.
pub uninterp spec fn bytes_mut_contents(buf: BytesMut) -> Seq<u8>;

/// `BytesMut::new`: a buffer that holds no bytes.
#[verifier::external_body]
pub(crate) fn bytes_mut_new() -> (buf: BytesMut)
    ensures
        bytes_mut_contents(buf) == Seq::<u8>::empty(),
{
    BytesMut::new()
}

/// `BytesMut::len`: the number of bytes held.
#[verifier::external_body]
pub(crate) fn bytes_mut_len(buf: &BytesMut) -> (n: usize)
    ensures
        n == bytes_mut_contents(*buf).len(),
{
    buf.len()
}

/// `<BytesMut as AsRef<[u8]>>::as_ref`: the bytes held, as a slice.
#[verifier::external_body]
pub(crate) fn bytes_mut_as_slice(buf: &BytesMut) -> (s: &[u8])
    ensures
        s@ == bytes_mut_contents(*buf),
{
    buf.as_ref()
}

/// `BufMut::put_u8` on a `BytesMut`: appends the byte. The buffer grows as
/// needed; growth panics past `isize::MAX` bytes, which `requires` rules out.
#[verifier::external_body]
pub(crate) fn put_u8(buf: &mut BytesMut, n: u8)
    requires
        bytes_mut_contents(*old(buf)).len() + 1 <= isize::MAX,
    ensures
        bytes_mut_contents(*final(buf)) == bytes_mut_contents(*old(buf)).push(n),
{
    buf.put_u8(n)
}

/// `BufMut::put_i16` on a `BytesMut`: appends the two bytes of `n` in
/// big-endian order (two's complement).
#[verifier::external_body]
pub(crate) fn put_i16(buf: &mut BytesMut, n: i16)
    requires
        bytes_mut_contents(*old(buf)).len() + 2 <= isize::MAX,
    ensures
        bytes_mut_contents(*final(buf)) == bytes_mut_contents(*old(buf)) + be_bytes(n as int, 2),
{
    buf.put_i16(n)
}

/// `BufMut::put_i32` on a `BytesMut`: appends the four bytes of `n` in
/// big-endian order (two's complement).
#[verifier::external_body]
pub(crate) fn put_i32(buf: &mut BytesMut, n: i32)
    requires
        bytes_mut_contents(*old(buf)).len() + 4 <= isize::MAX,
    ensures
        bytes_mut_contents(*final(buf)) == bytes_mut_contents(*old(buf)) + be_bytes(n as int, 4),
{
    buf.put_i32(n)
}

/// `BufMut::put_i64` on a `BytesMut`: appends the eight bytes of `n` in
/// big-endian order (two's complement).
#[verifier::external_body]
pub(crate) fn put_i64(buf: &mut BytesMut, n: i64)
    requires
        bytes_mut_contents(*old(buf)).len() + 8 <= isize::MAX,
    ensures
        bytes_mut_contents(*final(buf)) == bytes_mut_contents(*old(buf)) + be_bytes(n as int, 8),
{
    buf.put_i64(n)
}

/// `BytesMut::extend_from_slice`: appends the bytes of `src` in order.
#[verifier::external_body]
pub(crate) fn extend_from_slice(buf: &mut BytesMut, src: &[u8])
    requires
        bytes_mut_contents(*old(buf)).len() + src@.len() <= isize::MAX,
    ensures
        bytes_mut_contents(*final(buf)) == bytes_mut_contents(*old(buf)) + src@,
{
    buf.extend_from_slice(src)
}

} // verus!
