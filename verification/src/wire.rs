//! The primitive encodings of the Kafka wire format and the readers that
//! take them apart: big-endian integers, unsigned varints (LEB128, at most
//! ten bytes), zig-zag varints, compact strings and compact arrays.
//!
//! Each reader takes the input and a cursor. It returns `None` exactly on
//! the inputs on which reading would run past the end of the input, meet a
//! varint longer than ten bytes, or overflow the cursor; otherwise it
//! returns the value read and leaves the cursor just after it. The `spec`
//! functions here say which bytes make up each value.

use vstd::prelude::*;
use vstd::slice::slice_subrange;

use crate::text::{string_from_utf8_lossy, text_of};

verus! {

/// The `k` low-order bytes of `v` in big-endian order (for negative `v`,
/// its two's complement).
pub open spec fn be_bytes(v: int, k: nat) -> Seq<u8>
    decreases k,
{
    if k == 0 {
        Seq::empty()
    } else {
        be_bytes(v / 256, (k - 1) as nat).push((v % 256) as u8)
    }
}

/// `be_bytes(v, k)` has `k` bytes.
pub broadcast proof fn lemma_be_bytes_len(v: int, k: nat)
    ensures
        #[trigger] be_bytes(v, k).len() == k,
    decreases k,
{
    if k > 0 {
        lemma_be_bytes_len(v / 256, (k - 1) as nat);
    }
}

/// The unsigned big-endian value of a byte sequence.
pub open spec fn be_value(b: Seq<u8>) -> nat
    decreases b.len(),
{
    if b.len() == 0 {
        0
    } else {
        be_value(b.drop_last()) * 256 + b.last() as nat
    }
}

/// Two's complement reading of an unsigned value `u` whose top bit is worth
/// `half`.
pub open spec fn signed_of(u: nat, half: nat) -> int {
    if u >= half {
        u - 2 * half
    } else {
        u as int
    }
}

/// The `i16` stored big-endian in the two bytes of `b`.
pub open spec fn be_i16(b: Seq<u8>) -> i16 {
    signed_of(be_value(b), 0x8000) as i16
}

/// The `i32` stored big-endian in the four bytes of `b`.
pub open spec fn be_i32(b: Seq<u8>) -> i32 {
    signed_of(be_value(b), 0x8000_0000) as i32
}

/// The bytes of `data` from `pos` (inclusive) to `end` (exclusive), where
/// both lie within `data`.
pub open spec fn bytes_in(data: Seq<u8>, pos: int, end: int) -> Option<Seq<u8>> {
    if 0 <= pos <= end <= data.len() {
        Some(data.subrange(pos, end))
    } else {
        None
    }
}

/// An `i32` read big-endian at `pos`, and the position after it.
pub open spec fn i32_at(data: Seq<u8>, pos: int) -> Option<(i32, int)> {
    match bytes_in(data, pos, pos + 4) {
        Some(b) => Some((be_i32(b), pos + 4)),
        None => None,
    }
}

/// Continues decoding an unsigned varint that starts at `pos`, of which
/// `i` bytes were read so far, with `acc` holding their payload bits.
/// Byte `i` brings its low seven bits to bits `7 * i ..` of the value (cut
/// to 64 bits); a clear high bit ends the number. A number that has not
/// ended after ten bytes cannot be read (the eleventh shift leaves `u64`).
pub open spec fn uvarint_from(data: Seq<u8>, pos: int, i: nat, acc: u64) -> Option<(u64, int)>
    decreases 10 - i,
{
    if i >= 10 || pos + i < 0 || pos + i >= data.len() {
        None
    } else {
        let b = data[pos + i];
        let acc2 = acc | (((b & 0x7f) as u64) << ((7 * i) as u64));
        if b & 0x80 == 0 {
            Some((acc2, pos + i + 1))
        } else {
            uvarint_from(data, pos, i + 1, acc2)
        }
    }
}

/// The unsigned varint at `pos`, and the position after it.
pub open spec fn uvarint_at(data: Seq<u8>, pos: int) -> Option<(u64, int)> {
    uvarint_from(data, pos, 0, 0)
}

/// The LEB128 encoding of `v`: its bits seven at a time, lowest first, with
/// the high bit set on every byte but the last.
pub open spec fn uvarint_bytes(v: u64) -> Seq<u8>
    decreases v,
{
    if v < 128 {
        seq![v as u8]
    } else {
        seq![(v % 128 + 128) as u8] + uvarint_bytes(v / 128)
    }
}

/// A varint read stops at most ten bytes after its start.
proof fn lemma_uvarint_from_end(data: Seq<u8>, pos: int, i: nat, acc: u64)
    ensures
        uvarint_from(data, pos, i, acc) matches Some((_v, e)) ==> e <= pos + 10,
    decreases 10 - i,
{
    if i < 10 && 0 <= pos + i < data.len() {
        let b = data[pos + i];
        let acc2 = acc | (((b & 0x7f) as u64) << ((7 * i) as u64));
        lemma_uvarint_from_end(data, pos, i + 1, acc2);
    }
}

/// Reading the encoding of `v >> 7 * i` as byte `i` on, with the lower
/// `7 * i` bits of `v` read already, gives `v`.
proof fn lemma_uvarint_from_bytes(data: Seq<u8>, pos: int, i: nat, v: u64)
    requires
        i <= 9,
        pos >= 0,
        pos + i + uvarint_bytes(v >> ((7 * i) as u64)).len() <= data.len(),
        data.subrange(pos + i, pos + i + uvarint_bytes(v >> ((7 * i) as u64)).len()) == uvarint_bytes(
            v >> ((7 * i) as u64),
        ),
    ensures
        uvarint_from(data, pos, i, v & !(0xffff_ffff_ffff_ffffu64 << ((7 * i) as u64))) == Some(
            (v, pos + i + uvarint_bytes(v >> ((7 * i) as u64)).len()),
        ),
    decreases 9 - i,
{
    let sh: u64 = (7 * i) as u64;
    let x: u64 = v >> sh;
    let m: u64 = !(0xffff_ffff_ffff_ffffu64 << sh);
    let enc = uvarint_bytes(x);
    let b = data[pos + i];
    assert(b == data.subrange(pos + i, pos + i + enc.len())[0]);
    if x < 128 {
        assert(enc =~= seq![x as u8]);
        assert(b == x as u8);
        assert((b & 0x80) == 0 && (m & v) | (((b & 0x7f) as u64) << sh) == v) by (bit_vector)
            requires
                x == v >> sh,
                x < 128,
                sh <= 63,
                b == x as u8,
                m == !(0xffff_ffff_ffff_ffffu64 << sh);
        assert(v & m == m & v) by (bit_vector);
    } else {
        let rest = uvarint_bytes(x / 128);
        assert(enc == seq![(x % 128 + 128) as u8] + rest);
        assert(b == (x % 128 + 128) as u8);
        let sh2: u64 = (sh + 7) as u64;
        assert(sh < 57) by (bit_vector)
            requires
                x == v >> sh,
                x >= 128,
                sh <= 63;
        assert((b & 0x80) != 0 && (m & v) | (((b & 0x7f) as u64) << sh) == v & !(0xffff_ffff_ffff_ffffu64 << sh2)
            && v >> sh2 == x / 128) by (bit_vector)
            requires
                x == v >> sh,
                sh < 57,
                sh2 == sh + 7,
                b == (x % 128 + 128) as u8,
                m == !(0xffff_ffff_ffff_ffffu64 << sh);
        assert(v & m == m & v) by (bit_vector);
        assert(i < 9);
        assert(sh2 == (7 * (i + 1)) as u64);
        assert(data.subrange(pos + i + 1, pos + i + 1 + rest.len()) =~= data.subrange(
            pos + i,
            pos + i + enc.len(),
        ).subrange(1, enc.len() as int));
        assert(enc.subrange(1, enc.len() as int) =~= rest);
        lemma_uvarint_from_bytes(data, pos, i + 1, v);
    }
}

/// Decoding the LEB128 encoding of a value gives the value back and stops
/// just after the encoding, which is at most ten bytes long; the bytes
/// before and after it are not read.
pub proof fn lemma_uvarint_roundtrip(p: Seq<u8>, v: u64, s: Seq<u8>)
    ensures
        uvarint_bytes(v).len() <= 10,
        uvarint_at(p + uvarint_bytes(v) + s, p.len() as int) == Some((v, (p.len() + uvarint_bytes(v).len()) as int)),
{
    let data = p + uvarint_bytes(v) + s;
    let enc = uvarint_bytes(v);
    assert(v >> 0u64 == v && v & !(0xffff_ffff_ffff_ffffu64 << 0u64) == 0) by (bit_vector);
    assert(data.subrange(p.len() as int, (p.len() + enc.len()) as int) =~= enc);
    lemma_uvarint_from_bytes(data, p.len() as int, 0, v);
    lemma_uvarint_from_end(data, p.len() as int, 0, 0);
}

/// Stepping over a `COMPACT_NULLABLE_STRING` or `COMPACT_NULLABLE_BYTES`
/// lands right after its bytes, however many bytes its varint length prefix
/// (`n + 1`) takes; a null one (prefix 0) is one byte long. The bytes
/// themselves and whatever surrounds the field are not looked at.
pub proof fn lemma_skip_compact_lands_after_bytes(p: Seq<u8>, b: Seq<u8>, s: Seq<u8>)
    requires
        b.len() + 1 <= u64::MAX,
        p.len() + uvarint_bytes((b.len() + 1) as u64).len() + b.len() <= usize::MAX,
    ensures
        skip_compact_at(p + uvarint_bytes((b.len() + 1) as u64) + b + s, p.len() as int) == Some(
            (p.len() + uvarint_bytes((b.len() + 1) as u64).len() + b.len()) as int,
        ),
        skip_compact_at(p + seq![0u8] + s, p.len() as int) == Some(p.len() + 1int),
{
    let n = (b.len() + 1) as u64;
    let enc = uvarint_bytes(n);
    lemma_uvarint_roundtrip(p, n, b + s);
    assert(p + enc + b + s =~= p + enc + (b + s));
    lemma_one_byte_uvarint(p, 0, s);
}

/// A `COMPACT_STRING` reads back as its bytes, however many bytes its varint
/// length prefix (`n + 1`) takes, and reading ends right after them.
pub proof fn lemma_compact_string_reads_back(p: Seq<u8>, b: Seq<u8>, s: Seq<u8>)
    requires
        b.len() + 1 <= u64::MAX,
        b.len() + 1 <= usize::MAX,
    ensures
        compact_string_at(p + uvarint_bytes((b.len() + 1) as u64) + b + s, p.len() as int) == Some(
            (b, (p.len() + uvarint_bytes((b.len() + 1) as u64).len() + b.len()) as int),
        ),
{
    let n = (b.len() + 1) as u64;
    let enc = uvarint_bytes(n);
    let d = p + enc + b + s;
    lemma_uvarint_roundtrip(p, n, b + s);
    assert(d =~= p + enc + (b + s));
    let q = p.len() + enc.len();
    assert(d.subrange(q as int, (q + b.len()) as int) =~= b);
}

/// A byte below 128 is a whole unsigned varint, of its own value.
pub proof fn lemma_one_byte_uvarint(p: Seq<u8>, b: u8, s: Seq<u8>)
    requires
        b < 128,
    ensures
        uvarint_at(p + seq![b] + s, p.len() as int) == Some(((b as u64), p.len() + 1int)),
{
    let d = p + seq![b] + s;
    assert(d[p.len() as int] == b);
    assert(b & 0x80 == 0 && (b & 0x7f) == b) by (bit_vector)
        requires
            b < 128;
    assert((((b & 0x7f) as u64) << 0u64) == b as u64) by (bit_vector)
        requires
            b < 128;
    assert(0u64 | (b as u64) == b as u64) by (bit_vector);
}

/// Zig-zag decoding of the low 32 bits of `u`: `0, 1, 2, 3, ...` stand for
/// `0, -1, 1, -2, ...`.
pub open spec fn zigzag32(u: u64) -> i32 {
    let n = u as int % 0x1_0000_0000;
    if n % 2 == 0 {
        (n / 2) as i32
    } else {
        (-(n / 2) - 1) as i32
    }
}

/// Zig-zag decoding of all 64 bits of `u`.
pub open spec fn zigzag64(u: u64) -> i64 {
    let n = u as int;
    if n % 2 == 0 {
        (n / 2) as i64
    } else {
        (-(n / 2) - 1) as i64
    }
}

/// The zig-zag form of `v`: `2 * v` for `v >= 0`, `-2 * v - 1` otherwise.
pub open spec fn zigzag_of(v: int) -> int {
    if v >= 0 {
        2 * v
    } else {
        -2 * v - 1
    }
}

/// Zig-zag decoding undoes the zig-zag form, for `VARINT` (32 bits) and
/// `VARLONG` (64 bits) alike: `0, 1, 2, 3, ...` read as `0, -1, 1, -2, ...`.
pub proof fn lemma_zigzag_roundtrip(v32: i32, v64: i64)
    ensures
        zigzag32(zigzag_of(v32 as int) as u64) == v32,
        zigzag64(zigzag_of(v64 as int) as u64) == v64,
{
}

/// A zig-zag varint (`VARINT`, 32 bits) at `pos`.
pub open spec fn varint_at(data: Seq<u8>, pos: int) -> Option<(i32, int)> {
    match uvarint_at(data, pos) {
        Some((u, p)) => Some((zigzag32(u), p)),
        None => None,
    }
}

/// A zig-zag varlong (`VARLONG`, 64 bits) at `pos`.
pub open spec fn varlong_at(data: Seq<u8>, pos: int) -> Option<(i64, int)> {
    match uvarint_at(data, pos) {
        Some((u, p)) => Some((zigzag64(u), p)),
        None => None,
    }
}

/// The length prefix of a compact string or array: the varint taken as a
/// `usize` (it stores the length plus one; zero stands for null).
pub open spec fn compact_len_at(data: Seq<u8>, pos: int) -> Option<(usize, int)> {
    match uvarint_at(data, pos) {
        Some((u, p)) => Some((u as usize, p)),
        None => None,
    }
}

/// A `COMPACT_STRING` at `pos`: its raw bytes, and the position after it.
/// A null string (prefix zero) reads as no bytes.
pub open spec fn compact_string_at(data: Seq<u8>, pos: int) -> Option<(Seq<u8>, int)> {
    match compact_len_at(data, pos) {
        Some((n, p)) => if n == 0 {
            Some((Seq::empty(), p))
        } else {
            match bytes_in(data, p, p + n - 1) {
                Some(b) => Some((b, p + n - 1)),
                None => None,
            }
        },
        None => None,
    }
}

/// `count` big-endian `i32`s one after the other from `pos`.
pub open spec fn i32s_at(data: Seq<u8>, pos: int, count: nat) -> Option<(Seq<i32>, int)>
    decreases count,
{
    if count == 0 {
        Some((Seq::empty(), pos))
    } else {
        match i32s_at(data, pos, (count - 1) as nat) {
            Some((vs, p)) => match i32_at(data, p) {
                Some((v, q)) => Some((vs.push(v), q)),
                None => None,
            },
            None => None,
        }
    }
}

/// A `COMPACT_ARRAY` of `INT32` at `pos`. A null array reads as empty.
pub open spec fn compact_i32_array_at(data: Seq<u8>, pos: int) -> Option<(Seq<i32>, int)> {
    match compact_len_at(data, pos) {
        Some((n, p)) => if n == 0 {
            Some((Seq::empty(), p))
        } else {
            i32s_at(data, p, (n - 1) as nat)
        },
        None => None,
    }
}

/// The sixteen bytes of a `UUID` at `pos`.
pub open spec fn uuid_at(data: Seq<u8>, pos: int) -> Option<(Seq<u8>, int)> {
    match bytes_in(data, pos, pos + 16) {
        Some(b) => Some((b, pos + 16)),
        None => None,
    }
}

/// The element count of a `COMPACT_ARRAY` at `pos` (a null array counts as
/// empty).
pub open spec fn compact_array_len_at(data: Seq<u8>, pos: int) -> Option<(usize, int)> {
    match compact_len_at(data, pos) {
        Some((n, p)) => Some((if n == 0 { 0 } else { (n - 1) as usize }, p)),
        None => None,
    }
}

/// The position after a `COMPACT_NULLABLE_STRING` or `COMPACT_NULLABLE_BYTES`
/// at `pos`. Its bytes are stepped over without being looked at, so they
/// need not lie within `data`; only the position must fit in a `usize`.
pub open spec fn skip_compact_at(data: Seq<u8>, pos: int) -> Option<int> {
    match compact_len_at(data, pos) {
        Some((n, p)) => if n == 0 {
            Some(p)
        } else if p + n - 1 <= usize::MAX {
            Some(p + n - 1)
        } else {
            None
        },
        None => None,
    }
}

/// The position after `count` tagged fields from `pos`: each is a varint
/// tag, a varint size and that many bytes, which are stepped over.
pub open spec fn tag_fields_from(data: Seq<u8>, pos: int, count: nat) -> Option<int>
    decreases count,
{
    if count == 0 {
        Some(pos)
    } else {
        match uvarint_at(data, pos) {
            Some((_tag, p)) => match compact_len_at(data, p) {
                Some((size, q)) => if q + size <= usize::MAX {
                    tag_fields_from(data, q + size, (count - 1) as nat)
                } else {
                    None
                },
                None => None,
            },
            None => None,
        }
    }
}

/// The position after a `TAG_BUFFER` at `pos`: a varint field count and
/// then the fields.
pub open spec fn tag_buffer_at(data: Seq<u8>, pos: int) -> Option<int> {
    match compact_len_at(data, pos) {
        Some((count, p)) => tag_fields_from(data, p, count as nat),
        None => None,
    }
}

/// The byte that a compact array or string of `n` elements starts with, as
/// the broker writes it: one byte, `n + 1`, of `n` cut to a byte. Kafka
/// specifies the unsigned varint of `n + 1` there; for fewer than 127
/// elements that varint is this one byte, but for 127 or more it takes two
/// bytes or more, so the single byte written then is not a valid Kafka
/// encoding (`lemma_compact_len_roundtrip` states the range where it is).
pub open spec fn compact_len_byte(n: nat) -> u8 {
    ((n % 256) + 1) as u8
}

/// Whether `compact_len_byte(n)` can be computed as the broker does it,
/// `n as u8 + 1`, without overflowing a byte.
pub open spec fn fits_len_byte(n: nat) -> bool {
    n % 256 < 255
}

/// The bytes `f` gives for each element of `s`, one after the other.
pub open spec fn concat_map<T>(s: Seq<T>, f: spec_fn(T) -> Seq<u8>) -> Seq<u8>
    decreases s.len(),
{
    if s.len() == 0 {
        Seq::empty()
    } else {
        concat_map(s.drop_last(), f) + f(s.last())
    }
}

/// One more element adds its bytes at the end.
pub proof fn lemma_concat_map_take<T>(s: Seq<T>, f: spec_fn(T) -> Seq<u8>, i: int)
    requires
        0 <= i < s.len(),
    ensures
        concat_map(s.take(i + 1), f) == concat_map(s.take(i), f) + f(s[i]),
{
    assert(s.take(i + 1).drop_last() =~= s.take(i));
}

/// A prefix of the elements gives a prefix of the bytes, no longer than all.
pub proof fn lemma_concat_map_prefix_len<T>(s: Seq<T>, f: spec_fn(T) -> Seq<u8>, i: int)
    requires
        0 <= i <= s.len(),
    ensures
        concat_map(s.take(i), f).len() <= concat_map(s, f).len(),
    decreases s.len() - i,
{
    if i < s.len() {
        lemma_concat_map_take(s, f, i);
        lemma_concat_map_prefix_len(s, f, i + 1);
    } else {
        assert(s.take(i) =~= s);
    }
}

/// When every element gives at least one byte, there are at least as many
/// bytes as elements.
pub proof fn lemma_concat_map_at_least<T>(s: Seq<T>, f: spec_fn(T) -> Seq<u8>)
    requires
        forall|i: int| 0 <= i < s.len() ==> #[trigger] f(s[i]).len() >= 1,
    ensures
        concat_map(s, f).len() >= s.len(),
    decreases s.len(),
{
    if s.len() > 0 {
        assert forall|i: int| 0 <= i < s.drop_last().len() implies #[trigger] f(s.drop_last()[i]).len() >= 1 by {
            assert(s.drop_last()[i] == s[i]);
        }
        lemma_concat_map_at_least(s.drop_last(), f);
        assert(f(s[s.len() - 1]).len() >= 1);
    }
}

/// When every element gives `k` bytes, `n` elements give `k * n`.
pub proof fn lemma_concat_map_len_const<T>(s: Seq<T>, f: spec_fn(T) -> Seq<u8>, k: nat)
    requires
        forall|x: T| #[trigger] f(x).len() == k,
    ensures
        concat_map(s, f).len() == k * s.len(),
    decreases s.len(),
{
    if s.len() > 0 {
        lemma_concat_map_len_const(s.drop_last(), f, k);
        assert(k * (s.len() - 1) + k == k * s.len()) by (nonlinear_arith);
    }
}

// ── Reading inside a longer input ────────────────────────────────────────
//
// Each reader looks only at the bytes it reads: inside `p + data + s`,
// reading at `pos + p.len()` gives what reading `data` at `pos` gives, with
// the end position moved by `p.len()`, as long as that end still fits in a
// `usize`.

/// `data` with `p` before it and `s` after it.
pub open spec fn inside(p: Seq<u8>, data: Seq<u8>, s: Seq<u8>) -> Seq<u8> {
    p + data + s
}

/// The bytes of `data` sit in `inside(p, data, s)` at offset `p.len()`.
pub proof fn lemma_inside_index(p: Seq<u8>, data: Seq<u8>, s: Seq<u8>)
    ensures
        inside(p, data, s).len() == p.len() + data.len() + s.len(),
        forall|i: int| 0 <= i < data.len() ==> #[trigger] inside(p, data, s)[i + p.len()] == data[i],
{
    assert forall|i: int| 0 <= i < data.len() implies #[trigger] inside(p, data, s)[i + p.len()] == data[i] by {
        assert((p + data)[i + p.len()] == data[i]);
    }
}

pub proof fn lemma_bytes_in_inside(p: Seq<u8>, data: Seq<u8>, s: Seq<u8>, a: int, b: int)
    requires
        bytes_in(data, a, b) is Some,
    ensures
        bytes_in(inside(p, data, s), a + p.len(), b + p.len()) == bytes_in(data, a, b),
{
    lemma_inside_index(p, data, s);
    let d = inside(p, data, s);
    assert(d.subrange(a + p.len(), b + p.len()) =~= data.subrange(a, b)) by {
        assert forall|j: int| 0 <= j < b - a implies d.subrange(a + p.len(), b + p.len())[j] == data.subrange(a, b)[j] by {
            assert(d[(a + j) + p.len()] == data[a + j]);
        }
    }
}

pub proof fn lemma_uvarint_from_inside(p: Seq<u8>, data: Seq<u8>, s: Seq<u8>, pos: int, i: nat, acc: u64)
    requires
        uvarint_from(data, pos, i, acc) is Some,
    ensures
        uvarint_from(data, pos, i, acc).unwrap().1 > pos,
        uvarint_from(inside(p, data, s), pos + p.len(), i, acc) == Some(
            (uvarint_from(data, pos, i, acc).unwrap().0, uvarint_from(data, pos, i, acc).unwrap().1 + p.len()),
        ),
    decreases 10 - i,
{
    lemma_inside_index(p, data, s);
    let d = inside(p, data, s);
    assert(d[(pos + i) + p.len()] == data[pos + i]);
    assert(pos + p.len() + i == (pos + i) + p.len());
    let b = data[pos + i];
    let acc2 = acc | (((b & 0x7f) as u64) << ((7 * i) as u64));
    if b & 0x80 != 0 {
        lemma_uvarint_from_inside(p, data, s, pos, i + 1, acc2);
    }
}

pub proof fn lemma_uvarint_at_inside(p: Seq<u8>, data: Seq<u8>, s: Seq<u8>, pos: int)
    requires
        uvarint_at(data, pos) is Some,
    ensures
        uvarint_at(data, pos).unwrap().1 > pos,
        uvarint_at(inside(p, data, s), pos + p.len()) == Some(
            (uvarint_at(data, pos).unwrap().0, uvarint_at(data, pos).unwrap().1 + p.len()),
        ),
{
    lemma_uvarint_from_inside(p, data, s, pos, 0, 0);
}

pub proof fn lemma_i32_at_inside(p: Seq<u8>, data: Seq<u8>, s: Seq<u8>, pos: int)
    requires
        i32_at(data, pos) is Some,
    ensures
        i32_at(data, pos).unwrap().1 == pos + 4,
        i32_at(inside(p, data, s), pos + p.len()) == Some((i32_at(data, pos).unwrap().0, pos + 4 + p.len())),
{
    lemma_bytes_in_inside(p, data, s, pos, pos + 4);
}

pub proof fn lemma_uuid_at_inside(p: Seq<u8>, data: Seq<u8>, s: Seq<u8>, pos: int)
    requires
        uuid_at(data, pos) is Some,
    ensures
        uuid_at(data, pos).unwrap().1 == pos + 16,
        uuid_at(inside(p, data, s), pos + p.len()) == Some((uuid_at(data, pos).unwrap().0, pos + 16 + p.len())),
{
    lemma_bytes_in_inside(p, data, s, pos, pos + 16);
}

pub proof fn lemma_compact_string_at_inside(p: Seq<u8>, data: Seq<u8>, s: Seq<u8>, pos: int)
    requires
        compact_string_at(data, pos) is Some,
    ensures
        compact_string_at(data, pos).unwrap().1 > pos,
        compact_string_at(inside(p, data, s), pos + p.len()) == Some(
            (compact_string_at(data, pos).unwrap().0, compact_string_at(data, pos).unwrap().1 + p.len()),
        ),
{
    lemma_uvarint_at_inside(p, data, s, pos);
    let (n, q) = compact_len_at(data, pos).unwrap();
    if n != 0 {
        lemma_bytes_in_inside(p, data, s, q, q + n - 1);
        assert(q + p.len() + n - 1 == (q + n - 1) + p.len());
    }
}

pub proof fn lemma_i32s_at_inside(p: Seq<u8>, data: Seq<u8>, s: Seq<u8>, pos: int, count: nat)
    requires
        i32s_at(data, pos, count) is Some,
    ensures
        i32s_at(data, pos, count).unwrap().1 == pos + 4 * count,
        i32s_at(inside(p, data, s), pos + p.len(), count) == Some(
            (i32s_at(data, pos, count).unwrap().0, pos + 4 * count + p.len()),
        ),
    decreases count,
{
    if count > 0 {
        lemma_i32s_at_inside(p, data, s, pos, (count - 1) as nat);
        let q = i32s_at(data, pos, (count - 1) as nat).unwrap().1;
        lemma_i32_at_inside(p, data, s, q);
        assert(q + p.len() + 4 == pos + 4 * count + p.len());
    }
}

pub proof fn lemma_compact_i32_array_at_inside(p: Seq<u8>, data: Seq<u8>, s: Seq<u8>, pos: int)
    requires
        compact_i32_array_at(data, pos) is Some,
    ensures
        compact_i32_array_at(data, pos).unwrap().1 > pos,
        compact_i32_array_at(inside(p, data, s), pos + p.len()) == Some(
            (compact_i32_array_at(data, pos).unwrap().0, compact_i32_array_at(data, pos).unwrap().1 + p.len()),
        ),
{
    lemma_uvarint_at_inside(p, data, s, pos);
    let (n, q) = compact_len_at(data, pos).unwrap();
    if n != 0 {
        lemma_i32s_at_inside(p, data, s, q, (n - 1) as nat);
    }
}

pub proof fn lemma_compact_array_len_at_inside(p: Seq<u8>, data: Seq<u8>, s: Seq<u8>, pos: int)
    requires
        compact_array_len_at(data, pos) is Some,
    ensures
        compact_array_len_at(data, pos).unwrap().1 > pos,
        compact_array_len_at(inside(p, data, s), pos + p.len()) == Some(
            (compact_array_len_at(data, pos).unwrap().0, compact_array_len_at(data, pos).unwrap().1 + p.len()),
        ),
{
    lemma_uvarint_at_inside(p, data, s, pos);
}

pub proof fn lemma_skip_compact_at_inside(p: Seq<u8>, data: Seq<u8>, s: Seq<u8>, pos: int)
    requires
        skip_compact_at(data, pos) is Some,
        skip_compact_at(data, pos).unwrap() + p.len() <= usize::MAX,
    ensures
        skip_compact_at(data, pos).unwrap() > pos,
        skip_compact_at(inside(p, data, s), pos + p.len()) == Some(skip_compact_at(data, pos).unwrap() + p.len()),
{
    lemma_uvarint_at_inside(p, data, s, pos);
}

pub proof fn lemma_tag_fields_from_inside(p: Seq<u8>, data: Seq<u8>, s: Seq<u8>, pos: int, count: nat)
    requires
        tag_fields_from(data, pos, count) is Some,
        tag_fields_from(data, pos, count).unwrap() + p.len() <= usize::MAX,
    ensures
        tag_fields_from(data, pos, count).unwrap() >= pos,
        tag_fields_from(inside(p, data, s), pos + p.len(), count) == Some(
            tag_fields_from(data, pos, count).unwrap() + p.len(),
        ),
    decreases count,
{
    if count > 0 {
        lemma_uvarint_at_inside(p, data, s, pos);
        let q0 = uvarint_at(data, pos).unwrap().1;
        lemma_uvarint_at_inside(p, data, s, q0);
        let (size, q) = compact_len_at(data, q0).unwrap();
        lemma_tag_fields_from_inside(p, data, s, q + size, (count - 1) as nat);
        assert(q + p.len() + size == (q + size) + p.len());
    }
}

pub proof fn lemma_tag_buffer_at_inside(p: Seq<u8>, data: Seq<u8>, s: Seq<u8>, pos: int)
    requires
        tag_buffer_at(data, pos) is Some,
        tag_buffer_at(data, pos).unwrap() + p.len() <= usize::MAX,
    ensures
        tag_buffer_at(data, pos).unwrap() > pos,
        tag_buffer_at(inside(p, data, s), pos + p.len()) == Some(tag_buffer_at(data, pos).unwrap() + p.len()),
{
    lemma_uvarint_at_inside(p, data, s, pos);
    let (count, q) = compact_len_at(data, pos).unwrap();
    lemma_tag_fields_from_inside(p, data, s, q, count as nat);
}

/// `256` to the power `k`.
pub open spec fn pow256(k: nat) -> int
    decreases k,
{
    if k == 0 {
        1
    } else {
        256 * pow256((k - 1) as nat)
    }
}

/// The `k` bytes of `be_bytes(v, k)` read back as `v` modulo `256^k`.
pub proof fn lemma_be_value_bytes(v: int, k: nat)
    ensures
        pow256(k) > 0,
        be_value(be_bytes(v, k)) == v % pow256(k),
    decreases k,
{
    if k > 0 {
        lemma_be_value_bytes(v / 256, (k - 1) as nat);
        let m = pow256((k - 1) as nat);
        let x = be_bytes(v / 256, (k - 1) as nat);
        let y = (v % 256) as u8;
        assert(be_bytes(v, k).drop_last() =~= x);
        let q = (v / 256) / m;
        let r1 = (v / 256) % m;
        let r0 = v % 256;
        assert(v / 256 == m * q + r1) by {
            vstd::arithmetic::div_mod::lemma_fundamental_div_mod(v / 256, m);
        }
        assert(v == (256 * m) * q + (256 * r1 + r0)) by (nonlinear_arith)
            requires
                v == 256 * (v / 256) + r0,
                v / 256 == m * q + r1,
        ;
        vstd::arithmetic::div_mod::lemma_fundamental_div_mod_converse(v, 256 * m, q, 256 * r1 + r0);
        assert(y as int == r0);
    }
}

/// The `i64` stored big-endian in the eight bytes of `b`.
pub open spec fn be_i64(b: Seq<u8>) -> i64 {
    signed_of(be_value(b), 0x8000_0000_0000_0000) as i64
}

/// An `i16` read big-endian at `pos`, and the position after it.
pub open spec fn i16_at(data: Seq<u8>, pos: int) -> Option<(i16, int)> {
    match bytes_in(data, pos, pos + 2) {
        Some(b) => Some((be_i16(b), pos + 2)),
        None => None,
    }
}

/// An `i64` read big-endian at `pos`, and the position after it.
pub open spec fn i64_at(data: Seq<u8>, pos: int) -> Option<(i64, int)> {
    match bytes_in(data, pos, pos + 8) {
        Some(b) => Some((be_i64(b), pos + 8)),
        None => None,
    }
}

/// The two bytes that `put_i16` writes for `v` read back as `v`.
pub proof fn lemma_i16_roundtrip(v: i16)
    ensures
        be_i16(be_bytes(v as int, 2)) == v,
{
    lemma_be_value_bytes(v as int, 2);
    assert(pow256(2) == 0x1_0000) by {
        reveal_with_fuel(pow256, 3);
    }
}

/// The eight bytes that `put_i64` writes for `v` read back as `v`.
pub proof fn lemma_i64_roundtrip(v: i64)
    ensures
        be_i64(be_bytes(v as int, 8)) == v,
{
    lemma_be_value_bytes(v as int, 8);
    assert(pow256(8) == 0x1_0000_0000_0000_0000) by {
        reveal_with_fuel(pow256, 9);
    }
}

/// The bytes `x` stand in `data` from `pos` on.
pub open spec fn placed(data: Seq<u8>, pos: int, x: Seq<u8>) -> bool {
    0 <= pos && pos + x.len() <= data.len() && data.subrange(pos, pos + x.len()) == x
}

/// Bytes placed one after the other are each placed.
pub proof fn lemma_placed_split(data: Seq<u8>, pos: int, a: Seq<u8>, b: Seq<u8>)
    requires
        placed(data, pos, a + b),
    ensures
        placed(data, pos, a),
        placed(data, pos + a.len(), b),
{
    let w = data.subrange(pos, pos + (a + b).len());
    assert(w == a + b);
    assert(data.subrange(pos, pos + a.len()) =~= w.subrange(0, a.len() as int));
    assert(w.subrange(0, a.len() as int) =~= a);
    assert(data.subrange(pos + a.len(), pos + a.len() + b.len()) =~= w.subrange(
        a.len() as int,
        (a + b).len() as int,
    ));
    assert(w.subrange(a.len() as int, (a + b).len() as int) =~= b);
}

/// A placed `INT16`, `INT32` or `INT64` reads back as its value.
pub proof fn lemma_placed_ints(data: Seq<u8>, pos: int, v16: i16, v32: i32, v64: i64)
    ensures
        placed(data, pos, be_bytes(v16 as int, 2)) ==> i16_at(data, pos) == Some((v16, pos + 2)),
        placed(data, pos, be_bytes(v32 as int, 4)) ==> i32_at(data, pos) == Some((v32, pos + 4)),
        placed(data, pos, be_bytes(v64 as int, 8)) ==> i64_at(data, pos) == Some((v64, pos + 8)),
{
    lemma_i16_roundtrip(v16);
    lemma_i32_roundtrip(v32);
    lemma_i64_roundtrip(v64);
    lemma_be_bytes_len(v16 as int, 2);
    lemma_be_bytes_len(v32 as int, 4);
    lemma_be_bytes_len(v64 as int, 8);
}

/// A placed one-byte compact length of a count below 127 reads back as the
/// count (`compact_array_len_at`), or as the count plus one
/// (`compact_len_at`).
pub proof fn lemma_placed_len_byte(data: Seq<u8>, pos: int, n: nat)
    requires
        n < 127,
        placed(data, pos, seq![compact_len_byte(n)]),
    ensures
        compact_len_at(data, pos) == Some(((n + 1) as usize, pos + 1)),
        compact_array_len_at(data, pos) == Some((n as usize, pos + 1)),
{
    let b = compact_len_byte(n);
    assert(b == n + 1);
    assert(data =~= data.subrange(0, pos) + seq![b] + data.subrange(pos + 1, data.len() as int)) by {
        assert(data[pos] == data.subrange(pos, pos + 1)[0]);
    }
    lemma_one_byte_uvarint(data.subrange(0, pos), b, data.subrange(pos + 1, data.len() as int));
}

/// A placed zero byte is an empty tag buffer, and a null compact string or
/// bytes that is stepped over.
pub proof fn lemma_placed_zero(data: Seq<u8>, pos: int)
    requires
        placed(data, pos, seq![0u8]),
    ensures
        tag_buffer_at(data, pos) == Some(pos + 1),
        skip_compact_at(data, pos) == Some(pos + 1),
{
    assert(data =~= data.subrange(0, pos) + seq![0u8] + data.subrange(pos + 1, data.len() as int)) by {
        assert(data[pos] == data.subrange(pos, pos + 1)[0]);
    }
    lemma_one_byte_uvarint(data.subrange(0, pos), 0, data.subrange(pos + 1, data.len() as int));
}

/// A placed run of bytes reads back as itself (`bytes_in`, `uuid_at`).
pub proof fn lemma_placed_bytes(data: Seq<u8>, pos: int, x: Seq<u8>)
    requires
        placed(data, pos, x),
    ensures
        bytes_in(data, pos, pos + x.len()) == Some(x),
        x.len() == 16 ==> uuid_at(data, pos) == Some((x, pos + 16)),
{
}

/// Placed big-endian `INT32`s read back as themselves.
pub proof fn lemma_placed_i32s(data: Seq<u8>, pos: int, s: Seq<i32>)
    requires
        placed(data, pos, concat_map(s, |x: i32| be_bytes(x as int, 4))),
    ensures
        i32s_at(data, pos, s.len()) == Some((s, pos + 4 * s.len())),
        concat_map(s, |x: i32| be_bytes(x as int, 4)).len() == 4 * s.len(),
    decreases s.len(),
{
    let f = |x: i32| be_bytes(x as int, 4);
    if s.len() > 0 {
        let init = s.drop_last();
        lemma_placed_split(data, pos, concat_map(init, f), f(s.last()));
        lemma_placed_i32s(data, pos, init);
        lemma_be_bytes_len(s.last() as int, 4);
        lemma_placed_ints(data, pos + 4 * init.len(), 0, s.last(), 0);
        assert(init.push(s.last()) =~= s);
        assert((init.len() + 1 - 1) as nat == init.len());
    }
}

/// A placed compact array of `INT32` (one length byte, below 127) reads
/// back as its elements.
pub proof fn lemma_placed_i32_array(data: Seq<u8>, pos: int, s: Seq<i32>)
    requires
        s.len() < 127,
        placed(
            data,
            pos,
            seq![compact_len_byte(s.len())] + concat_map(s, |x: i32| be_bytes(x as int, 4)),
        ),
    ensures
        compact_i32_array_at(data, pos) == Some((s, pos + 1 + 4 * s.len())),
        concat_map(s, |x: i32| be_bytes(x as int, 4)).len() == 4 * s.len(),
{
    lemma_placed_split(data, pos, seq![compact_len_byte(s.len())], concat_map(s, |x: i32| be_bytes(x as int, 4)));
    lemma_placed_len_byte(data, pos, s.len());
    lemma_placed_i32s(data, pos + 1, s);
}

/// The first element's bytes come first.
pub proof fn lemma_concat_map_first<T>(s: Seq<T>, f: spec_fn(T) -> Seq<u8>)
    requires
        s.len() > 0,
    ensures
        concat_map(s, f) == f(s[0]) + concat_map(s.drop_first(), f),
    decreases s.len(),
{
    if s.len() == 1 {
        assert(s.drop_last() =~= Seq::<T>::empty());
        assert(s.drop_first() =~= Seq::<T>::empty());
        assert(concat_map(s.drop_last(), f) =~= Seq::<u8>::empty());
        assert(concat_map(s.drop_first(), f) =~= Seq::<u8>::empty());
        assert(f(s[0]) + Seq::<u8>::empty() =~= f(s[0]));
        assert(Seq::<u8>::empty() + f(s[0]) =~= f(s[0]));
    } else {
        lemma_concat_map_first(s.drop_last(), f);
        assert(s.drop_last().drop_first() =~= s.drop_first().drop_last());
        assert(s.drop_first().last() == s.last());
        assert(s.drop_last()[0] == s[0]);
        assert(f(s[0]) + concat_map(s.drop_last().drop_first(), f) + f(s.last()) =~= f(s[0]) + (concat_map(
            s.drop_first().drop_last(),
            f,
        ) + f(s.drop_first().last())));
    }
}

/// A placed byte reads as itself.
pub proof fn lemma_placed_byte(data: Seq<u8>, pos: int, b: u8)
    requires
        placed(data, pos, seq![b]),
    ensures
        0 <= pos < data.len(),
        data[pos] == b,
{
    assert(data[pos] == data.subrange(pos, pos + 1)[0]);
}

/// A placed unsigned varint reads back as its value.
pub proof fn lemma_placed_uvarint(data: Seq<u8>, pos: int, v: u64)
    requires
        placed(data, pos, uvarint_bytes(v)),
    ensures
        uvarint_at(data, pos) == Some((v, pos + uvarint_bytes(v).len())),
{
    let enc = uvarint_bytes(v);
    let pre = data.subrange(0, pos);
    let post = data.subrange(pos + enc.len(), data.len() as int);
    assert(data =~= pre + enc + post);
    lemma_uvarint_roundtrip(pre, v, post);
}

/// A placed compact nullable field (varint length `n + 1`, then `n` bytes)
/// is stepped over to just after its bytes.
pub proof fn lemma_placed_skip_compact(data: Seq<u8>, pos: int, b: Seq<u8>)
    requires
        b.len() + 1 <= u64::MAX,
        placed(data, pos, uvarint_bytes((b.len() + 1) as u64) + b),
        data.len() <= usize::MAX,
    ensures
        skip_compact_at(data, pos) == Some(pos + uvarint_bytes((b.len() + 1) as u64).len() + b.len()),
{
    let enc = uvarint_bytes((b.len() + 1) as u64);
    lemma_placed_split(data, pos, enc, b);
    lemma_placed_uvarint(data, pos, (b.len() + 1) as u64);
}

/// The bytes of a tagged field: its tag and its size as unsigned varints,
/// then its bytes.
pub open spec fn tag_field_bytes(f: (u64, Seq<u8>)) -> Seq<u8> {
    uvarint_bytes(f.0) + uvarint_bytes(f.1.len() as u64) + f.1
}

/// The bytes of a `TAG_BUFFER`: the field count as an unsigned varint, then
/// the fields.
pub open spec fn tag_buffer_bytes(fs: Seq<(u64, Seq<u8>)>) -> Seq<u8> {
    uvarint_bytes(fs.len() as u64) + concat_map(fs, |f: (u64, Seq<u8>)| tag_field_bytes(f))
}

proof fn lemma_placed_tag_fields(data: Seq<u8>, pos: int, fs: Seq<(u64, Seq<u8>)>)
    requires
        placed(data, pos, concat_map(fs, |f: (u64, Seq<u8>)| tag_field_bytes(f))),
        data.len() <= usize::MAX,
    ensures
        tag_fields_from(data, pos, fs.len()) == Some(
            pos + concat_map(fs, |f: (u64, Seq<u8>)| tag_field_bytes(f)).len(),
        ),
    decreases fs.len(),
{
    let g = |f: (u64, Seq<u8>)| tag_field_bytes(f);
    if fs.len() > 0 {
        let f = fs[0];
        let rest = fs.drop_first();
        lemma_concat_map_first(fs, g);
        lemma_placed_split(data, pos, g(f), concat_map(rest, g));
        let t = uvarint_bytes(f.0);
        let z = uvarint_bytes(f.1.len() as u64);
        lemma_placed_split(data, pos, t + z, f.1);
        lemma_placed_split(data, pos, t, z);
        lemma_placed_uvarint(data, pos, f.0);
        lemma_placed_uvarint(data, pos + t.len(), f.1.len() as u64);
        lemma_placed_tag_fields(data, pos + g(f).len(), rest);
        assert((fs.len() - 1) as nat == rest.len());
        assert(((f.1.len() as u64) as usize) as int == f.1.len());
    }
}

/// A `TAG_BUFFER` is stepped over exactly, however many fields it holds and
/// however long their varints and bytes are; the bytes around it are not
/// looked at.
pub proof fn lemma_tag_buffer_stepped_over(p: Seq<u8>, fs: Seq<(u64, Seq<u8>)>, s: Seq<u8>)
    requires
        (p + tag_buffer_bytes(fs) + s).len() <= usize::MAX,
    ensures
        tag_buffer_at(p + tag_buffer_bytes(fs) + s, p.len() as int) == Some(
            (p.len() + tag_buffer_bytes(fs).len()) as int,
        ),
{
    let d = p + tag_buffer_bytes(fs) + s;
    let g = |f: (u64, Seq<u8>)| tag_field_bytes(f);
    let c = uvarint_bytes(fs.len() as u64);
    let pos = p.len() as int;
    assert(d.subrange(pos, pos + tag_buffer_bytes(fs).len()) =~= tag_buffer_bytes(fs));
    lemma_placed_split(d, pos, c, concat_map(fs, g));
    lemma_placed_uvarint(d, pos, fs.len() as u64);
    assert forall|i: int| 0 <= i < fs.len() implies #[trigger] g(fs[i]).len() >= 1 by {
        assert(uvarint_bytes(fs[i].0).len() >= 1);
    }
    lemma_concat_map_at_least(fs, g);
    assert(fs.len() <= usize::MAX);
    assert(((fs.len() as u64) as usize) as nat == fs.len());
    lemma_placed_tag_fields(d, pos + c.len(), fs);
}

/// The big-endian bytes of `v` as an `i32`, for the `INT32` writer.
pub open spec fn be_i32_bytes(v: i32) -> Seq<u8> {
    be_bytes(v as int, 4)
}

/// The one-byte compact length of `n` elements, `n as u8 + 1`.
pub fn len_byte(n: usize) -> (b: u8)
    requires
        fits_len_byte(n as nat),
    ensures
        b == compact_len_byte(n as nat),
{
    ((n % 256) as u8) + 1
}

/// The four bytes that `put_i32` writes for `v` read back as `v`.
pub proof fn lemma_i32_roundtrip(v: i32)
    ensures
        be_i32(be_bytes(v as int, 4)) == v,
        i32_at(be_bytes(v as int, 4), 0) == Some((v, 4int)),
{
    let x = v as int;
    let q1 = x / 256;
    let q2 = q1 / 256;
    let q3 = q2 / 256;
    let q4 = q3 / 256;
    let s = be_bytes(x, 4);
    assert(s == seq![(q3 % 256) as u8, (q2 % 256) as u8, (q1 % 256) as u8, (x % 256) as u8]) by {
        reveal_with_fuel(be_bytes, 5);
        assert(be_bytes(q3, 1) =~= seq![(q3 % 256) as u8]) by {
            reveal_with_fuel(be_bytes, 2);
        }
    }
    assert(s.drop_last() =~= seq![(q3 % 256) as u8, (q2 % 256) as u8, (q1 % 256) as u8]);
    assert(s.drop_last().drop_last() =~= seq![(q3 % 256) as u8, (q2 % 256) as u8]);
    assert(s.drop_last().drop_last().drop_last() =~= seq![(q3 % 256) as u8]);
    assert(s.drop_last().drop_last().drop_last().drop_last() =~= Seq::<u8>::empty());
    assert(be_value(s) == (q3 % 256) * 0x100_0000 + (q2 % 256) * 0x1_0000 + (q1 % 256) * 0x100 + x % 256) by {
        reveal_with_fuel(be_value, 5);
    }
    assert(x == 256 * q1 + x % 256);
    assert(q1 == 256 * q2 + q1 % 256);
    assert(q2 == 256 * q3 + q2 % 256);
    assert(q3 == 256 * q4 + q3 % 256);
    assert(x >= 0 ==> q4 == 0);
    assert(x < 0 ==> q4 == -1);
    assert(s.subrange(0, 4) =~= s);
}

/// An `INT32` read from four bytes and written back gives the same bytes.
#[verifier::spinoff_prover]
#[verifier::rlimit(40)]
pub proof fn lemma_i32_bytes_roundtrip(b: Seq<u8>)
    requires
        b.len() == 4,
    ensures
        be_bytes(be_i32(b) as int, 4) == b,
{
    let u = b[0] * 0x100_0000 + b[1] * 0x1_0000 + b[2] * 0x100 + b[3];
    assert(b.drop_last() =~= seq![b[0], b[1], b[2]]);
    assert(b.drop_last().drop_last() =~= seq![b[0], b[1]]);
    assert(b.drop_last().drop_last().drop_last() =~= seq![b[0]]);
    assert(b.drop_last().drop_last().drop_last().drop_last() =~= Seq::<u8>::empty());
    assert(be_value(b) == u) by {
        reveal_with_fuel(be_value, 5);
    }
    let x = be_i32(b) as int;
    assert(x == u || x == u - 0x1_0000_0000);
    let q1 = x / 256;
    let q2 = q1 / 256;
    let q3 = q2 / 256;
    assert(be_bytes(x, 4) == seq![(q3 % 256) as u8, (q2 % 256) as u8, (q1 % 256) as u8, (x % 256) as u8]) by {
        reveal_with_fuel(be_bytes, 5);
        assert(be_bytes(q3, 1) =~= seq![(q3 % 256) as u8]) by {
            reveal_with_fuel(be_bytes, 2);
        }
    }
    assert(x % 256 == b[3]);
    assert(q1 % 256 == b[2]);
    assert(q2 % 256 == b[1]);
    assert(q3 % 256 == b[0]);
    assert(be_bytes(x, 4) =~= b);
}

/// A count written as one compact length byte reads back as the count.
pub proof fn lemma_compact_len_roundtrip(n: nat)
    requires
        n < 127,
    ensures
        compact_array_len_at(seq![compact_len_byte(n)], 0) == Some(((n as usize), 1int)),
{
    let b = compact_len_byte(n);
    assert(b == n + 1);
    assert(b & 0x80 == 0 && (b & 0x7f) == b) by (bit_vector)
        requires
            b < 128;
    assert((((b & 0x7f) as u64) << 0u64) == b as u64) by (bit_vector)
        requires
            b < 128;
    assert(0u64 | (b as u64) == b as u64) by (bit_vector);
    assert(uvarint_at(seq![b], 0) == Some(((b as u64), 1int)));
}

/// The `i32` whose big-endian bytes are `b0 b1 b2 b3`.
pub fn i32_from_be(b0: u8, b1: u8, b2: u8, b3: u8) -> (v: i32)
    ensures
        v == be_i32(seq![b0, b1, b2, b3]),
{
    let ghost s = seq![b0, b1, b2, b3];
    assert(s.drop_last() =~= seq![b0, b1, b2]);
    assert(s.drop_last().drop_last() =~= seq![b0, b1]);
    assert(s.drop_last().drop_last().drop_last() =~= seq![b0]);
    assert(s.drop_last().drop_last().drop_last().drop_last() =~= Seq::<u8>::empty());
    assert(be_value(s) == b0 * 0x100_0000 + b1 * 0x1_0000 + b2 * 0x100 + b3) by {
        reveal_with_fuel(be_value, 5);
    }
    let u: u64 = (b0 as u64) * 0x100_0000 + (b1 as u64) * 0x1_0000 + (b2 as u64) * 0x100 + (b3 as u64);
    if u >= 0x8000_0000 {
        ((u as i64) - 0x1_0000_0000) as i32
    } else {
        u as i32
    }
}

/// The `i16` whose big-endian bytes are `b0 b1`.
pub fn i16_from_be(b0: u8, b1: u8) -> (v: i16)
    ensures
        v == be_i16(seq![b0, b1]),
{
    let ghost s = seq![b0, b1];
    assert(s.drop_last() =~= seq![b0]);
    assert(s.drop_last().drop_last() =~= Seq::<u8>::empty());
    assert(be_value(s) == b0 * 0x100 + b1) by {
        reveal_with_fuel(be_value, 3);
    }
    let u: u32 = (b0 as u32) * 0x100 + (b1 as u32);
    if u >= 0x8000 {
        ((u as i32) - 0x1_0000) as i16
    } else {
        u as i16
    }
}

/// Reads an unsigned varint at `*pos`.
pub fn read_unsigned_varint(data: &[u8], pos: &mut usize) -> (r: Option<u64>)
    ensures
        match uvarint_at(data@, *old(pos) as int) {
            Some((v, p)) => r == Some(v) && *final(pos) as int == p,
            None => r is None,
        },
{
    let ghost start = *pos as int;
    let mut result: u64 = 0;
    let mut shift: u64 = 0;
    let mut i: usize = 0;
    loop
        invariant
            i <= 10,
            shift == 7 * i,
            start == *old(pos) as int,
            *pos as int == start + i,
            uvarint_at(data@, start) == uvarint_from(data@, start, i as nat, result),
        decreases 10 - i,
    {
        if i == 10 || *pos >= data.len() {
            return None;
        }
        let byte = data[*pos];
        *pos = *pos + 1;
        result = result | (((byte & 0x7f) as u64) << shift);
        if byte & 0x80 == 0 {
            return Some(result);
        }
        shift = shift + 7;
        i = i + 1;
    }
}

/// Reads a zig-zag `VARINT` at `*pos`.
pub fn read_varint(data: &[u8], pos: &mut usize) -> (r: Option<i32>)
    ensures
        match varint_at(data@, *old(pos) as int) {
            Some((v, p)) => r == Some(v) && *final(pos) as int == p,
            None => r is None,
        },
{
    match read_unsigned_varint(data, pos) {
        Some(u) => {
            let n = u % 0x1_0000_0000;
            let half = n / 2;
            if n % 2 == 0 {
                Some(half as i32)
            } else {
                Some(-(half as i32) - 1)
            }
        },
        None => None,
    }
}

/// Reads a zig-zag `VARLONG` at `*pos`.
pub fn read_varlong(data: &[u8], pos: &mut usize) -> (r: Option<i64>)
    ensures
        match varlong_at(data@, *old(pos) as int) {
            Some((v, p)) => r == Some(v) && *final(pos) as int == p,
            None => r is None,
        },
{
    match read_unsigned_varint(data, pos) {
        Some(n) => {
            let half = n / 2;
            if n % 2 == 0 {
                Some(half as i64)
            } else {
                Some(-(half as i64) - 1)
            }
        },
        None => None,
    }
}

/// Reads a big-endian `INT32` at `*pos`.
pub fn read_i32(data: &[u8], pos: &mut usize) -> (r: Option<i32>)
    ensures
        match i32_at(data@, *old(pos) as int) {
            Some((v, p)) => r == Some(v) && *final(pos) as int == p,
            None => r is None,
        },
{
    if data.len() < 4 || *pos > data.len() - 4 {
        return None;
    }
    let p = *pos;
    let v = i32_from_be(data[p], data[p + 1], data[p + 2], data[p + 3]);
    assert(data@.subrange(p as int, p + 4) =~= seq![data@[p as int], data@[p + 1], data@[p + 2], data@[p + 3]]);
    *pos = p + 4;
    Some(v)
}

/// Reads the length prefix of a compact string or array at `*pos`.
pub fn read_compact_len(data: &[u8], pos: &mut usize) -> (r: Option<usize>)
    ensures
        match compact_len_at(data@, *old(pos) as int) {
            Some((n, p)) => r == Some(n) && *final(pos) as int == p,
            None => r is None,
        },
{
    match read_unsigned_varint(data, pos) {
        Some(u) => Some(u as usize),
        None => None,
    }
}

/// Reads a `COMPACT_STRING` at `*pos`; a null string reads as empty.
pub fn read_compact_string(data: &[u8], pos: &mut usize) -> (r: Option<String>)
    ensures
        match compact_string_at(data@, *old(pos) as int) {
            Some((b, p)) => r is Some && r->0@ == text_of(b) && *final(pos) as int == p,
            None => r is None,
        },
{
    let len = match read_compact_len(data, pos) {
        Some(n) => n,
        None => return None,
    };
    if len == 0 {
        proof {
            crate::text::lemma_text_of_empty();
        }
        return Some(String::new());
    }
    let n = len - 1;
    if *pos > data.len() || n > data.len() - *pos {
        return None;
    }
    let bytes = slice_subrange(data, *pos, *pos + n);
    let s = string_from_utf8_lossy(bytes);
    *pos = *pos + n;
    Some(s)
}

/// Reads `count` big-endian `INT32`s from `*pos` on.
pub fn read_i32s(data: &[u8], pos: &mut usize, count: usize) -> (r: Option<Vec<i32>>)
    ensures
        match i32s_at(data@, *old(pos) as int, count as nat) {
            Some((vs, p)) => r is Some && r->0@ == vs && *final(pos) as int == p,
            None => r is None,
        },
{
    let ghost start = *pos as int;
    let mut out: Vec<i32> = Vec::new();
    let mut k: usize = 0;
    while k < count
        invariant
            k <= count,
            start == *old(pos) as int,
            i32s_at(data@, start, k as nat) == Some((out@, *pos as int)),
        decreases count - k,
    {
        let ghost before = *pos as int;
        match read_i32(data, pos) {
            Some(v) => {
                out.push(v);
            },
            None => {
                assert(i32s_at(data@, start, (k + 1) as nat) is None);
                proof {
                    lemma_i32s_fail(data@, start, (k + 1) as nat, count as nat);
                }
                return None;
            },
        }
        k = k + 1;
    }
    Some(out)
}

/// Once reading `i32`s fails, reading more of them fails too.
proof fn lemma_i32s_fail(data: Seq<u8>, pos: int, k: nat, count: nat)
    requires
        k <= count,
        i32s_at(data, pos, k) is None,
    ensures
        i32s_at(data, pos, count) is None,
    decreases count - k,
{
    if k < count {
        lemma_i32s_fail(data, pos, k + 1, count);
    }
}

/// Reads a `COMPACT_ARRAY` of `INT32` at `*pos`; a null array reads as empty.
pub fn read_compact_array_i32(data: &[u8], pos: &mut usize) -> (r: Option<Vec<i32>>)
    ensures
        match compact_i32_array_at(data@, *old(pos) as int) {
            Some((vs, p)) => r is Some && r->0@ == vs && *final(pos) as int == p,
            None => r is None,
        },
{
    let count = match read_compact_len(data, pos) {
        Some(n) => n,
        None => return None,
    };
    if count == 0 {
        return Some(Vec::new());
    }
    read_i32s(data, pos, count - 1)
}

/// Reads the sixteen bytes of a `UUID` at `*pos`.
pub fn read_uuid(data: &[u8], pos: &mut usize) -> (r: Option<[u8; 16]>)
    ensures
        match uuid_at(data@, *old(pos) as int) {
            Some((b, p)) => r is Some && r->0@ == b && *final(pos) as int == p,
            None => r is None,
        },
{
    if data.len() < 16 || *pos > data.len() - 16 {
        return None;
    }
    let p = *pos;
    let id: [u8; 16] = [
        data[p], data[p + 1], data[p + 2], data[p + 3],
        data[p + 4], data[p + 5], data[p + 6], data[p + 7],
        data[p + 8], data[p + 9], data[p + 10], data[p + 11],
        data[p + 12], data[p + 13], data[p + 14], data[p + 15],
    ];
    assert(id@ =~= data@.subrange(p as int, p + 16));
    *pos = p + 16;
    Some(id)
}

/// Reads the element count of a `COMPACT_ARRAY` at `*pos`.
pub fn read_compact_array_len(data: &[u8], pos: &mut usize) -> (r: Option<usize>)
    ensures
        match compact_array_len_at(data@, *old(pos) as int) {
            Some((n, p)) => r == Some(n) && *final(pos) as int == p,
            None => r is None,
        },
{
    match read_compact_len(data, pos) {
        Some(n) => Some(if n == 0 { 0 } else { n - 1 }),
        None => None,
    }
}

/// Steps over the compact length prefix at `*pos` and the bytes it counts.
fn skip_compact(data: &[u8], pos: &mut usize) -> (r: Option<()>)
    ensures
        match skip_compact_at(data@, *old(pos) as int) {
            Some(p) => r is Some && *final(pos) as int == p,
            None => r is None,
        },
{
    let len = match read_compact_len(data, pos) {
        Some(n) => n,
        None => return None,
    };
    if len > 0 {
        if *pos > usize::MAX - (len - 1) {
            return None;
        }
        *pos = *pos + (len - 1);
    }
    Some(())
}

/// Steps over a `COMPACT_NULLABLE_STRING` at `*pos`.
pub fn skip_compact_nullable_string(data: &[u8], pos: &mut usize) -> (r: Option<()>)
    ensures
        match skip_compact_at(data@, *old(pos) as int) {
            Some(p) => r is Some && *final(pos) as int == p,
            None => r is None,
        },
{
    skip_compact(data, pos)
}

/// Steps over a `COMPACT_NULLABLE_BYTES` at `*pos`.
pub fn skip_compact_nullable_bytes(data: &[u8], pos: &mut usize) -> (r: Option<()>)
    ensures
        match skip_compact_at(data@, *old(pos) as int) {
            Some(p) => r is Some && *final(pos) as int == p,
            None => r is None,
        },
{
    skip_compact(data, pos)
}

/// Steps over a `TAG_BUFFER` at `*pos`.
pub fn skip_tag_buffer(data: &[u8], pos: &mut usize) -> (r: Option<()>)
    ensures
        match tag_buffer_at(data@, *old(pos) as int) {
            Some(p) => r is Some && *final(pos) as int == p,
            None => r is None,
        },
{
    let count = match read_compact_len(data, pos) {
        Some(n) => n,
        None => return None,
    };
    let mut k: usize = 0;
    while k < count
        invariant
            k <= count,
            tag_buffer_at(data@, *old(pos) as int) == tag_fields_from(data@, *pos as int, (count - k) as nat),
        decreases count - k,
    {
        if read_unsigned_varint(data, pos).is_none() {
            return None;
        }
        let size = match read_compact_len(data, pos) {
            Some(n) => n,
            None => return None,
        };
        if *pos > usize::MAX - size {
            return None;
        }
        *pos = *pos + size;
        k = k + 1;
    }
    Some(())
}

} // verus!
