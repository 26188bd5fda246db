use kafka_broker::wire::{
    read_compact_array_i32, read_compact_array_len, read_compact_string, read_i32, read_uuid,
    read_unsigned_varint, read_varint, read_varlong, skip_compact_nullable_bytes,
    skip_compact_nullable_string, skip_tag_buffer,
};

#[test]
fn unsigned_varint_reads_leb128() {
    let data = [0x96u8, 0x01, 0xff];
    let mut pos = 0usize;
    assert_eq!(read_unsigned_varint(&data, &mut pos), Some(150));
    assert_eq!(pos, 2);
}

#[test]
fn unsigned_varint_single_byte() {
    let data = [0x7fu8];
    let mut pos = 0usize;
    assert_eq!(read_unsigned_varint(&data, &mut pos), Some(127));
    assert_eq!(pos, 1);
}

#[test]
fn unsigned_varint_ten_bytes_is_the_longest() {
    let mut data = vec![0xffu8; 9];
    data.push(0x01);
    let mut pos = 0usize;
    assert_eq!(read_unsigned_varint(&data, &mut pos), Some(u64::MAX));
    assert_eq!(pos, 10);
}

#[test]
fn unsigned_varint_eleven_bytes_cannot_be_read() {
    let mut data = vec![0x80u8; 10];
    data.push(0x00);
    let mut pos = 0usize;
    assert_eq!(read_unsigned_varint(&data, &mut pos), None);
}

#[test]
fn unsigned_varint_running_past_the_end() {
    let data = [0x80u8, 0x80];
    let mut pos = 0usize;
    assert_eq!(read_unsigned_varint(&data, &mut pos), None);
    let mut pos = 5usize;
    assert_eq!(read_unsigned_varint(&data, &mut pos), None);
}

#[test]
fn varint_is_zigzag() {
    for (byte, value) in [(0u8, 0i32), (1, -1), (2, 1), (3, -2), (4, 2), (0x7f, -64)] {
        let data = [byte];
        let mut pos = 0usize;
        assert_eq!(read_varint(&data, &mut pos), Some(value));
        assert_eq!(pos, 1);
    }
}

#[test]
fn varint_keeps_the_low_32_bits() {
    // 2^32 + 2 as an unsigned varint: the low 32 bits are 2, which is 1.
    let data = [0x82u8, 0x80, 0x80, 0x80, 0x10];
    let mut pos = 0usize;
    assert_eq!(read_varint(&data, &mut pos), Some(1));
    assert_eq!(pos, 5);
}

#[test]
fn varlong_is_zigzag_on_64_bits() {
    let data = [0x82u8, 0x80, 0x80, 0x80, 0x10];
    let mut pos = 0usize;
    assert_eq!(read_varlong(&data, &mut pos), Some(0x8000_0001));
    let data = [0xffu8, 0xff, 0xff, 0xff, 0xff, 0xff, 0xff, 0xff, 0xff, 0x01];
    let mut pos = 0usize;
    assert_eq!(read_varlong(&data, &mut pos), Some(i64::MIN));
}

#[test]
fn i32_is_big_endian() {
    let data = [0u8, 0, 1, 0, 0xff, 0xff, 0xff, 0xfe];
    let mut pos = 0usize;
    assert_eq!(read_i32(&data, &mut pos), Some(256));
    assert_eq!(read_i32(&data, &mut pos), Some(-2));
    assert_eq!(pos, 8);
    assert_eq!(read_i32(&data, &mut pos), None);
}

#[test]
fn i32_needs_four_bytes() {
    let data = [0u8, 0, 1];
    let mut pos = 0usize;
    assert_eq!(read_i32(&data, &mut pos), None);
}

#[test]
fn compact_string_stores_length_plus_one() {
    let data = [6u8, b'h', b'e', b'l', b'l', b'o', 0];
    let mut pos = 0usize;
    assert_eq!(read_compact_string(&data, &mut pos), Some("hello".to_string()));
    assert_eq!(pos, 6);
}

#[test]
fn compact_string_null_and_empty() {
    let data = [0u8, 1];
    let mut pos = 0usize;
    assert_eq!(read_compact_string(&data, &mut pos), Some(String::new()));
    assert_eq!(pos, 1);
    assert_eq!(read_compact_string(&data, &mut pos), Some(String::new()));
    assert_eq!(pos, 2);
}

#[test]
fn compact_string_invalid_utf8_is_replaced() {
    let data = [3u8, b'a', 0xff];
    let mut pos = 0usize;
    assert_eq!(read_compact_string(&data, &mut pos), Some("a\u{FFFD}".to_string()));
}

#[test]
fn compact_string_running_past_the_end() {
    let data = [6u8, b'h', b'e'];
    let mut pos = 0usize;
    assert_eq!(read_compact_string(&data, &mut pos), None);
}

#[test]
fn compact_array_of_i32() {
    let data = [3u8, 0, 0, 0, 1, 0, 0, 0, 2];
    let mut pos = 0usize;
    assert_eq!(read_compact_array_i32(&data, &mut pos), Some(vec![1, 2]));
    assert_eq!(pos, 9);
    let data = [0u8];
    let mut pos = 0usize;
    assert_eq!(read_compact_array_i32(&data, &mut pos), Some(vec![]));
    let data = [3u8, 0, 0, 0, 1];
    let mut pos = 0usize;
    assert_eq!(read_compact_array_i32(&data, &mut pos), None);
}

#[test]
fn compact_array_len() {
    let data = [0u8, 1, 5];
    let mut pos = 0usize;
    assert_eq!(read_compact_array_len(&data, &mut pos), Some(0));
    assert_eq!(read_compact_array_len(&data, &mut pos), Some(0));
    assert_eq!(read_compact_array_len(&data, &mut pos), Some(4));
    assert_eq!(pos, 3);
}

#[test]
fn uuid_is_sixteen_bytes() {
    let data: Vec<u8> = (0u8..20).collect();
    let mut pos = 2usize;
    let id = read_uuid(&data, &mut pos).unwrap();
    assert_eq!(id.to_vec(), (2u8..18).collect::<Vec<u8>>());
    assert_eq!(pos, 18);
    assert_eq!(read_uuid(&data, &mut pos), None);
}

#[test]
fn skipping_nullable_string_and_bytes() {
    let data = [4u8, 9, 9, 9, 0];
    let mut pos = 0usize;
    assert_eq!(skip_compact_nullable_string(&data, &mut pos), Some(()));
    assert_eq!(pos, 4);
    assert_eq!(skip_compact_nullable_bytes(&data, &mut pos), Some(()));
    assert_eq!(pos, 5);
    // The skipped bytes are not looked at, so they may lie past the end.
    let data = [10u8];
    let mut pos = 0usize;
    assert_eq!(skip_compact_nullable_bytes(&data, &mut pos), Some(()));
    assert_eq!(pos, 10);
}

#[test]
fn skipping_a_tag_buffer() {
    // Two fields: tag 1 with 2 bytes, tag 5 with 0 bytes.
    let data = [2u8, 1, 2, 0xaa, 0xbb, 5, 0, 7];
    let mut pos = 0usize;
    assert_eq!(skip_tag_buffer(&data, &mut pos), Some(()));
    assert_eq!(pos, 7);
    let data = [0u8];
    let mut pos = 0usize;
    assert_eq!(skip_tag_buffer(&data, &mut pos), Some(()));
    assert_eq!(pos, 1);
    let data = [1u8];
    let mut pos = 0usize;
    assert_eq!(skip_tag_buffer(&data, &mut pos), None);
}

fn leb128(mut v: u64) -> Vec<u8> {
    let mut out = Vec::new();
    loop {
        if v < 128 {
            out.push(v as u8);
            return out;
        }
        out.push((v % 128) as u8 | 0x80);
        v /= 128;
    }
}

#[test]
fn leb128_encoding_reads_back_between_other_bytes() {
    for v in [0u64, 1, 127, 128, 300, 16384, u32::MAX as u64, u64::MAX] {
        let enc = leb128(v);
        assert!(enc.len() <= 10);
        let mut data = vec![0xaau8, 0xbb];
        data.extend_from_slice(&enc);
        data.extend_from_slice(&[0x81, 0x82]);
        let mut pos = 2usize;
        assert_eq!(read_unsigned_varint(&data, &mut pos), Some(v));
        assert_eq!(pos, 2 + enc.len());
    }
}
