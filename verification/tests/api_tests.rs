use bytes::BytesMut;
use kafka_broker::endpoints::api_key::ApiKey;
use kafka_broker::endpoints::api_versions::handle_api_versions_request;
use kafka_broker::endpoints::error::ErrorResponse;
use kafka_broker::endpoints::request::{parse_request_header, try_parse_request_header};
use kafka_broker::protocol_types::api_versions::{ApiKeyEntry, ApiVersionsResponse};
use kafka_broker::protocol_types::describe_topic_partitions::DescribeTopicPartitionsResponse;
use kafka_broker::protocol_types::kafka_encode::KafkaEncode;
use kafka_broker::server::write_response;

#[test]
fn api_key_numbers_read_back() {
    for key in ApiKey::all() {
        assert!(matches!(ApiKey::try_from(key.code()), Ok(k) if k == *key));
    }
    assert!(matches!(ApiKey::try_from(0), Ok(ApiKey::Produce)));
    assert!(matches!(ApiKey::try_from(18), Ok(ApiKey::ApiVersions)));
    assert!(matches!(ApiKey::try_from(75), Ok(ApiKey::DescribeTopicPartitions)));
    assert!(matches!(ApiKey::try_from(1), Err(1)));
    assert!(matches!(ApiKey::try_from(-7), Err(-7)));
}

#[test]
fn api_key_version_ranges() {
    assert_eq!(ApiKey::Produce.version_range(), (0, 11));
    assert_eq!(ApiKey::ApiVersions.version_range(), (0, 4));
    assert_eq!(ApiKey::DescribeTopicPartitions.version_range(), (0, 0));
    assert_eq!(ApiKey::all().len(), 3);
}

#[test]
fn api_versions_lists_every_key() {
    let r = handle_api_versions_request(4);
    assert_eq!(r.error_code, 0);
    assert_eq!(r.throttle_time_ms, 0);
    let keys: Vec<(i16, i16, i16)> =
        r.api_keys.iter().map(|e| (e.api_key, e.min_version, e.max_version)).collect();
    assert_eq!(keys, vec![(0, 0, 11), (18, 0, 4), (75, 0, 0)]);
}

#[test]
fn api_versions_rejects_unsupported_versions() {
    assert_eq!(handle_api_versions_request(0).error_code, 0);
    assert_eq!(handle_api_versions_request(5).error_code, 35);
    assert_eq!(handle_api_versions_request(-1).error_code, 35);
    assert_eq!(handle_api_versions_request(5).api_keys.len(), 3);
}

#[test]
fn api_key_entry_encoding() {
    let e = ApiKeyEntry { api_key: 18, min_version: 0, max_version: 4 };
    let mut buf = BytesMut::new();
    e.encode(&mut buf);
    assert_eq!(&buf[..], &[0, 18, 0, 0, 0, 4, 0]);
}

#[test]
fn api_versions_encoding() {
    let r = ApiVersionsResponse {
        error_code: 35,
        api_keys: vec![ApiKeyEntry { api_key: 18, min_version: 0, max_version: 4 }],
        throttle_time_ms: 7,
    };
    let mut buf = BytesMut::new();
    buf.extend_from_slice(&[9]);
    r.encode(&mut buf);
    assert_eq!(&buf[..], &[9, 0, 35, 2, 0, 18, 0, 0, 0, 4, 0, 0, 0, 0, 7, 0]);
    assert_eq!(r.response_header_version(), 0);
}

#[test]
fn error_response_encoding() {
    let mut buf = BytesMut::new();
    let r = ErrorResponse::unsupported_key();
    assert_eq!(r.error_msg, "Unsupported API key");
    r.encode(&mut buf);
    let mut expected = vec![0u8, 35];
    expected.extend_from_slice(b"Unsupported API key");
    assert_eq!(&buf[..], &expected[..]);
    assert_eq!(r.response_header_version(), 0);
}

#[test]
fn error_response_framed_without_tag_byte() {
    let frame = write_response(7, &ErrorResponse { error_msg: String::new() });
    assert_eq!(&frame[..], &[0, 0, 0, 6, 0, 0, 0, 7, 0, 35]);
}

#[test]
fn framing_with_header_version_zero() {
    let r = handle_api_versions_request(4);
    let frame = write_response(0x01020304, &r);
    let mut body = BytesMut::new();
    r.encode(&mut body);
    assert_eq!(body.len(), 29);
    assert_eq!(&frame[0..4], &(4 + 29i32).to_be_bytes());
    assert_eq!(&frame[4..8], &[1, 2, 3, 4]);
    assert_eq!(&frame[8..], &body[..]);
}

#[test]
fn framing_with_header_version_one() {
    let r = DescribeTopicPartitionsResponse { topics: vec![] };
    let frame = write_response(-1, &r);
    assert_eq!(&frame[..], &[0, 0, 0, 12, 0xff, 0xff, 0xff, 0xff, 0, 0, 0, 0, 0, 1, 0xff, 0]);
}

fn header_bytes(key: i16, version: i16, cid: i32, client: Option<&[u8]>, tag: &[u8]) -> Vec<u8> {
    let mut v = Vec::new();
    v.extend_from_slice(&key.to_be_bytes());
    v.extend_from_slice(&version.to_be_bytes());
    v.extend_from_slice(&cid.to_be_bytes());
    match client {
        Some(c) => {
            v.extend_from_slice(&(c.len() as i16).to_be_bytes());
            v.extend_from_slice(c);
        }
        None => v.extend_from_slice(&(-1i16).to_be_bytes()),
    }
    v.push(tag.len() as u8);
    v.extend_from_slice(tag);
    v
}

#[test]
fn request_header_with_client_id() {
    let mut buf = header_bytes(18, 4, 7, Some(b"kafka-cli"), &[]);
    buf.extend_from_slice(&[0xaa, 0xbb]);
    let (h, offset) = parse_request_header(&buf);
    assert_eq!(h.request_api_key, 18);
    assert_eq!(h.request_api_version, 4);
    assert_eq!(h.correlation_id, 7);
    assert_eq!(h.client_id.as_deref(), Some("kafka-cli"));
    assert!(h.tag_buffer.is_empty());
    assert_eq!(offset, 20);
}

#[test]
fn request_header_without_client_id() {
    let buf = header_bytes(75, 0, -5, None, &[1, 2, 3]);
    let (h, offset) = parse_request_header(&buf);
    assert_eq!(h.request_api_key, 75);
    assert_eq!(h.correlation_id, -5);
    assert!(h.client_id.is_none());
    assert_eq!(h.tag_buffer, vec![1, 2, 3]);
    assert_eq!(offset, 14);
}

#[test]
fn request_header_too_short() {
    assert!(try_parse_request_header(&[0, 18, 0, 4, 0, 0, 0, 7, 0]).is_none());
    // The client id claims more bytes than there are.
    assert!(try_parse_request_header(&[0, 18, 0, 4, 0, 0, 0, 7, 0, 5, b'a']).is_none());
    // The tag buffer claims more bytes than there are.
    assert!(try_parse_request_header(&[0, 18, 0, 4, 0, 0, 0, 7, 0xff, 0xff, 2, 0]).is_none());
}
