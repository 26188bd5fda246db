use kafka_broker::server::{respond, respond_with_endpoints};

fn request(key: i16, version: i16, cid: i32, body: &[u8]) -> Vec<u8> {
    let mut v = Vec::new();
    v.extend_from_slice(&key.to_be_bytes());
    v.extend_from_slice(&version.to_be_bytes());
    v.extend_from_slice(&cid.to_be_bytes());
    v.extend_from_slice(&(3i16).to_be_bytes());
    v.extend_from_slice(b"cli");
    v.push(0);
    v.extend_from_slice(body);
    v
}

#[test]
fn api_versions_round_trip() {
    let out = respond_with_endpoints(&request(18, 4, 1234, &[]), &[]).unwrap();
    assert_eq!(out.len(), 4 + 4 + 29);
    assert_eq!(&out[0..4], &33i32.to_be_bytes());
    assert_eq!(&out[4..8], &1234i32.to_be_bytes());
    // Header version 0: the body follows the correlation id at once.
    assert_eq!(&out[8..11], &[0, 0, 4]);
    assert_eq!(&out[11..14], &[0, 0, 0]);
}

#[test]
fn api_versions_with_unsupported_version() {
    let out = respond_with_endpoints(&request(18, 7, 5, &[]), &[]).unwrap();
    assert_eq!(&out[8..10], &[0, 35]);
}

#[test]
fn unknown_api_key_gets_error_response() {
    let out = respond_with_endpoints(&request(3, 0, 77, &[]), &[]).unwrap();
    let mut expected = vec![0u8, 0, 0, 25, 0, 0, 0, 77, 0, 35];
    expected.extend_from_slice(b"Unsupported API key");
    assert_eq!(&out[..], &expected[..]);
}

#[test]
fn eight_byte_api_versions_request_is_answered() {
    let out = respond_with_endpoints(&[0, 18, 0, 4, 0, 0, 0, 7], &[]).unwrap();
    assert_eq!(out.len(), 4 + 33);
    assert_eq!(&out[0..4], &33i32.to_be_bytes());
    assert_eq!(&out[4..8], &[0, 0, 0, 7]);
    assert_eq!(&out[8..11], &[0, 0, 4]);
}

#[test]
fn eight_byte_unknown_key_request_is_answered() {
    let out = respond_with_endpoints(&[0, 1, 0, 0, 0, 0, 0, 7], &[]).unwrap();
    assert_eq!(&out[0..10], &[0, 0, 0, 25, 0, 0, 0, 7, 0, 35]);
    assert_eq!(&out[10..], b"Unsupported API key");
}

#[test]
fn short_requests_for_other_keys_get_no_answer() {
    // Seven bytes are not a request header.
    assert!(respond_with_endpoints(&[0, 18, 0, 4, 0, 0, 0], &[]).is_none());
    // Describe needs the whole v2 header to find its body.
    assert!(respond_with_endpoints(&[0, 75, 0, 0, 0, 0, 0, 7], &[]).is_none());
}

#[test]
fn correlation_id_is_echoed() {
    for (key, body) in [(18i16, vec![]), (3, vec![]), (75, vec![1u8, 0xff, 0])] {
        let req = request(key, 0, -123456, &body);
        let out = respond_with_endpoints(&req, &[]).unwrap();
        assert_eq!(&out[4..8], &req[4..8]);
        let size = i32::from_be_bytes([out[0], out[1], out[2], out[3]]);
        assert_eq!(size as usize, out.len() - 4);
    }
}

#[test]
fn describe_with_empty_log() {
    let mut body = vec![2u8, 4, b'f', b'o', b'o', 0];
    body.extend_from_slice(&[0, 0, 0, 100, 0xff, 0]);
    let out = respond_with_endpoints(&request(75, 0, 9, &body), &[]).unwrap();
    // Header version 1: a tag byte after the correlation id.
    assert_eq!(out[8], 0);
    // throttle time, one topic, error 3.
    assert_eq!(&out[9..16], &[0, 0, 0, 0, 2, 0, 3]);
}

#[test]
fn produce_with_empty_log() {
    let mut body = vec![0u8, 0xff, 0xff, 0, 0, 0, 100, 2, 4, b'f', b'o', b'o', 2];
    body.extend_from_slice(&1i32.to_be_bytes());
    body.extend_from_slice(&[1, 0, 0, 0]);
    let out = respond_with_endpoints(&request(0, 11, 9, &body), &[]).unwrap();
    assert_eq!(out[8], 0);
    assert_eq!(&out[9..15], &[2, 4, b'f', b'o', b'o', 2]);
    assert_eq!(&out[15..21], &[0, 0, 0, 1, 0, 3]);
}

#[test]
fn malformed_requests_get_no_answer() {
    assert!(respond_with_endpoints(&[0, 18], &[]).is_none());
    // Describe with a count byte of zero.
    assert!(respond_with_endpoints(&request(75, 0, 1, &[0]), &[]).is_none());
    // Produce running past the end.
    assert!(respond_with_endpoints(&request(0, 11, 1, &[0, 0xff]), &[]).is_none());
}

#[test]
fn malformed_log_only_matters_where_it_is_read() {
    // A batch that claims one record and has none.
    let mut log = Vec::new();
    log.extend_from_slice(&0i64.to_be_bytes());
    log.extend_from_slice(&49i32.to_be_bytes());
    log.extend_from_slice(&0i32.to_be_bytes());
    log.push(2);
    log.extend_from_slice(&[0u8; 40]);
    log.extend_from_slice(&1i32.to_be_bytes());
    assert!(respond_with_endpoints(&request(18, 4, 1, &[]), &log).is_some());
    let body = [2u8, 4, b'f', b'o', b'o', 0];
    assert!(respond_with_endpoints(&request(75, 0, 1, &body), &log).is_none());
}

#[test]
fn server_answers_api_versions_v4_exactly() {
    let out = respond(&[0, 18, 0, 4, 0, 0, 0, 7]).unwrap();
    assert_eq!(
        &out[..],
        &[0, 0, 0, 19, 0, 0, 0, 7, 0, 0, 2, 0, 18, 0, 0, 0, 4, 0, 0, 0, 0, 0, 0]
    );
    // The rest of a longer request is not read.
    let out2 = respond(&request(18, 4, 7, &[1, 2, 3])).unwrap();
    assert_eq!(&out2[..], &out[..]);
}

#[test]
fn server_api_versions_with_unsupported_version() {
    let out = respond(&[0, 18, 0, 5, 0, 0, 0, 1]).unwrap();
    assert_eq!(&out[8..10], &[0, 35]);
    assert_eq!(out.len(), 23);
}

#[test]
fn server_answers_every_other_key_with_error_35() {
    for key in [0i16, 1, 3, 75, -1] {
        let mut req = key.to_be_bytes().to_vec();
        req.extend_from_slice(&[0, 0, 0, 0, 0, 9]);
        let out = respond(&req).unwrap();
        let mut expected = vec![0u8, 0, 0, 25, 0, 0, 0, 9, 0, 35];
        expected.extend_from_slice(b"Unsupported API key");
        assert_eq!(&out[..], &expected[..]);
    }
}

#[test]
fn server_needs_eight_bytes() {
    assert!(respond(&[0, 18, 0, 4, 0, 0, 0]).is_none());
    assert!(respond(&[]).is_none());
}
