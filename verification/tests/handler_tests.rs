use bytes::BytesMut;
use kafka_broker::cluster::partition::Partition;
use kafka_broker::cluster::topic::Topic;
use kafka_broker::endpoints::describe_topic_partitions::handle_topic_partitions_request;
use kafka_broker::endpoints::describe_topic_partitions::types::{
    parse_describe_topic_partitions_request, try_parse_describe_topic_partitions_request,
};
use kafka_broker::endpoints::produce::handle_produce_request;
use kafka_broker::endpoints::produce::types::{
    parse_produce_request, try_parse_produce_request, ProducePartitionData, ProduceRequest,
    ProduceTopicData, TopicResponse, ProduceResponse,
};
use kafka_broker::name_map::NameMap;
use kafka_broker::protocol_types::describe_topic_partitions as wire_dtp;
use kafka_broker::protocol_types::kafka_encode::KafkaEncode;
use kafka_broker::protocol_types::metadata::{PartitionMetadata, TopicMetadata};

fn known() -> NameMap<Topic> {
    let mut m = NameMap::new();
    m.insert_new(
        "foo".to_string(),
        Topic::new([7u8; 16], vec![Partition::new(0, 1, 2, vec![1, 2], vec![1])]),
    );
    m
}

fn describe_body(names: &[&str]) -> Vec<u8> {
    let mut v = vec![names.len() as u8 + 1];
    for n in names {
        v.push(n.len() as u8 + 1);
        v.extend_from_slice(n.as_bytes());
        v.push(0);
    }
    v.extend_from_slice(&[0, 0, 0, 100, 0xff, 0]);
    v
}

#[test]
fn describe_request_names() {
    let mut buf = vec![9u8, 9];
    buf.extend_from_slice(&describe_body(&["foo", "bar"]));
    let req = parse_describe_topic_partitions_request(&buf, 2);
    let names: Vec<&str> = req.topics_array.iter().map(|t| t.name.as_str()).collect();
    assert_eq!(names, vec!["foo", "bar"]);
}

#[test]
fn describe_request_tag_bytes_are_stepped_over() {
    let buf = [2u8, 2, b'x', 2, 0xaa, 0xbb];
    let req = parse_describe_topic_partitions_request(&buf, 0);
    assert_eq!(req.topics_array.len(), 1);
    assert_eq!(req.topics_array[0].name, "x");
}

#[test]
fn describe_request_malformed() {
    // A count byte of zero cannot be read.
    assert!(try_parse_describe_topic_partitions_request(&[0u8], 0).is_none());
    // A name running past the end.
    assert!(try_parse_describe_topic_partitions_request(&[2u8, 5, b'a'], 0).is_none());
    // No byte at the body offset.
    assert!(try_parse_describe_topic_partitions_request(&[2u8], 1).is_none());
}

#[test]
fn describe_answers_known_and_unknown_topics() {
    let mut buf = Vec::new();
    buf.extend_from_slice(&describe_body(&["foo", "nope"]));
    let req = parse_describe_topic_partitions_request(&buf, 0);
    let resp = handle_topic_partitions_request(req, known());
    let mut out = BytesMut::new();
    resp.encode(&mut out);
    let mut expected = vec![0u8, 0, 0, 0, 3];
    // foo
    expected.extend_from_slice(&[0, 0, 4, b'f', b'o', b'o']);
    expected.extend_from_slice(&[7u8; 16]);
    expected.extend_from_slice(&[0, 2]);
    expected.extend_from_slice(&[0, 0, 0, 0, 0, 0, 0, 0, 0, 1, 0, 0, 0, 2]);
    expected.extend_from_slice(&[3, 0, 0, 0, 1, 0, 0, 0, 2, 2, 0, 0, 0, 1, 1, 1, 1, 0]);
    expected.extend_from_slice(&[0, 0, 0, 0, 0]);
    // nope
    expected.extend_from_slice(&[0, 3, 5, b'n', b'o', b'p', b'e']);
    expected.extend_from_slice(&[0u8; 16]);
    expected.extend_from_slice(&[0, 1, 0, 0, 0, 0, 0]);
    expected.extend_from_slice(&[0xff, 0]);
    assert_eq!(&out[..], &expected[..]);
    assert_eq!(resp.checked_encoding_len(), Some(expected.len()));
}

#[test]
fn describe_answers_a_repeated_name_as_unknown() {
    let buf = describe_body(&["foo", "foo"]);
    let req = parse_describe_topic_partitions_request(&buf, 0);
    let resp = handle_topic_partitions_request(req, known());
    let mut out = BytesMut::new();
    resp.encode(&mut out);
    // The first answer carries error 0, the second error 3.
    assert_eq!(&out[5..7], &[0, 0]);
    let first_len = 2 + 4 + 16 + 2 + (14 + 18) + 5;
    assert_eq!(&out[5 + first_len..5 + first_len + 2], &[0, 3]);
}

#[test]
fn wire_layer_describe_request_keeps_tag_bytes() {
    let buf = [2u8, 2, b'x', 2, 0xaa, 0xbb];
    let req = wire_dtp::parse_describe_topic_partitions_request(&buf, 0);
    assert_eq!(req.topics_array[0].name, "x");
    assert_eq!(req.topics_array[0].tag_buffer, vec![0xaa, 0xbb]);
    // Here the tag bytes are read, so they must be there.
    assert!(wire_dtp::try_parse_describe_topic_partitions_request(&[2u8, 2, b'x', 2, 0xaa], 0).is_none());
}

#[test]
fn wire_layer_describe_handler() {
    let mut m: NameMap<TopicMetadata> = NameMap::new();
    m.insert_new(
        "foo".to_string(),
        TopicMetadata {
            topic_id: [7u8; 16],
            partitions: vec![PartitionMetadata {
                partition_index: 0,
                leader_id: 1,
                leader_epoch: 2,
                replica_nodes: vec![1, 2],
                isr_nodes: vec![1],
            }],
        },
    );
    let buf = describe_body(&["foo", "nope"]);
    let req = wire_dtp::parse_describe_topic_partitions_request(&buf, 0);
    let resp = wire_dtp::handle_topic_partitions_request(req, m);
    assert_eq!(resp.topics.len(), 2);
    assert_eq!(resp.topics[0].error_code, 0);
    assert_eq!(resp.topics[0].topic_id, [7u8; 16]);
    assert_eq!(resp.topics[0].partitions[0].replica_nodes, vec![1, 2]);
    assert_eq!(resp.topics[1].error_code, 3);
    assert_eq!(resp.topics[1].topic_name, "nope");
    assert_eq!(resp.topics[1].topic_id, [0u8; 16]);
    // Same bytes as the handler layer gives.
    let mut a = BytesMut::new();
    resp.encode(&mut a);
    let mut b = BytesMut::new();
    let req2 = parse_describe_topic_partitions_request(&buf, 0);
    handle_topic_partitions_request(req2, known()).encode(&mut b);
    assert_eq!(&a[..], &b[..]);
}

fn produce_body(topics: &[(&str, &[i32])]) -> Vec<u8> {
    let mut v = vec![0u8]; // transactional id: null
    v.extend_from_slice(&(-1i16).to_be_bytes());
    v.extend_from_slice(&1000i32.to_be_bytes());
    v.push(topics.len() as u8 + 1);
    for (name, parts) in topics {
        v.push(name.len() as u8 + 1);
        v.extend_from_slice(name.as_bytes());
        v.push(parts.len() as u8 + 1);
        for p in *parts {
            v.extend_from_slice(&p.to_be_bytes());
            v.push(4); // records: 3 bytes
            v.extend_from_slice(&[1, 2, 3]);
            v.push(0);
        }
        v.push(0);
    }
    v.push(0);
    v
}

#[test]
fn produce_request_is_read() {
    let buf = produce_body(&[("foo", &[0, 1]), ("bar", &[])]);
    let req = parse_produce_request(&buf, 0);
    assert_eq!(req.topics.len(), 2);
    assert_eq!(req.topics[0].name, "foo");
    let idx: Vec<i32> = req.topics[0].partitions.iter().map(|p| p.index).collect();
    assert_eq!(idx, vec![0, 1]);
    assert_eq!(req.topics[1].name, "bar");
    assert!(req.topics[1].partitions.is_empty());
}

#[test]
fn produce_request_with_transactional_id() {
    let mut buf = vec![3u8, b't', b'x'];
    buf.extend_from_slice(&produce_body(&[("foo", &[5])])[1..]);
    let req = parse_produce_request(&buf, 0);
    assert_eq!(req.topics.len(), 1);
    assert_eq!(req.topics[0].partitions[0].index, 5);
}

#[test]
fn produce_request_malformed() {
    let buf = produce_body(&[("foo", &[0])]);
    assert!(try_parse_produce_request(&buf[..10], 0).is_none());
    assert!(try_parse_produce_request(&[], 0).is_none());
}

#[test]
fn produce_answers_known_and_unknown_topics() {
    let buf = produce_body(&[("foo", &[0]), ("nope", &[3])]);
    let req = parse_produce_request(&buf, 0);
    let resp = handle_produce_request(req, &known());
    let mut out = BytesMut::new();
    resp.encode(&mut out);
    let mut expected = vec![3u8];
    expected.extend_from_slice(&[4, b'f', b'o', b'o', 2]);
    expected.extend_from_slice(&0i32.to_be_bytes());
    expected.extend_from_slice(&0i16.to_be_bytes());
    expected.extend_from_slice(&0i64.to_be_bytes());
    expected.extend_from_slice(&(-1i64).to_be_bytes());
    expected.extend_from_slice(&0i64.to_be_bytes());
    expected.extend_from_slice(&[1, 0, 0, 0]);
    expected.extend_from_slice(&[5, b'n', b'o', b'p', b'e', 2]);
    expected.extend_from_slice(&3i32.to_be_bytes());
    expected.extend_from_slice(&3i16.to_be_bytes());
    expected.extend_from_slice(&(-1i64).to_be_bytes());
    expected.extend_from_slice(&(-1i64).to_be_bytes());
    expected.extend_from_slice(&(-1i64).to_be_bytes());
    expected.extend_from_slice(&[1, 0, 0, 0]);
    expected.extend_from_slice(&[0, 0, 0, 0, 0]);
    assert_eq!(&out[..], &expected[..]);
    assert_eq!(resp.checked_encoding_len(), Some(expected.len()));
    assert_eq!(resp.response_header_version(), 1);
}

#[test]
fn produce_topic_answers() {
    let t = ProduceTopicData { name: "foo".to_string(), partitions: vec![ProducePartitionData { index: 2 }] };
    let mut a = BytesMut::new();
    ProduceResponse::new(vec![TopicResponse::found(&t)]).encode(&mut a);
    let mut b = BytesMut::new();
    ProduceResponse::new(vec![TopicResponse::not_found(&t)]).encode(&mut b);
    assert_eq!(&a[10..12], &[0, 0]);
    assert_eq!(&b[10..12], &[0, 3]);
    let mut c = BytesMut::new();
    ProduceResponse::new(vec![TopicResponse::from_request(&t, &known())]).encode(&mut c);
    assert_eq!(&a[..], &c[..]);
    let req = ProduceRequest { topics: vec![] };
    let mut d = BytesMut::new();
    handle_produce_request(req, &known()).encode(&mut d);
    assert_eq!(&d[..], &[1, 0, 0, 0, 0, 0]);
}

fn names_of(r: &kafka_broker::endpoints::describe_topic_partitions::types::DescribeTopicPartitionsRequest) -> Vec<String> {
    r.topics_array.iter().map(|t| t.name.clone()).collect()
}

#[test]
fn describe_request_reads_only_its_body() {
    let body = describe_body(&["foo", "ba"]);
    let mut framed = vec![9u8, 9, 9];
    framed.extend_from_slice(&body);
    framed.extend_from_slice(&[7, 7, 7, 7]);
    let alone = try_parse_describe_topic_partitions_request(&body, 0).unwrap();
    let inside = try_parse_describe_topic_partitions_request(&framed, 3).unwrap();
    assert_eq!(names_of(&alone), names_of(&inside));
    assert_eq!(names_of(&alone), vec!["foo".to_string(), "ba".to_string()]);
    let alone = wire_dtp::try_parse_describe_topic_partitions_request(&body, 0).unwrap();
    let inside = wire_dtp::try_parse_describe_topic_partitions_request(&framed, 3).unwrap();
    assert_eq!(alone.topics_array.len(), inside.topics_array.len());
    assert_eq!(alone.topics_array[1].name, inside.topics_array[1].name);
}

#[test]
fn produce_request_reads_only_its_body() {
    let body = produce_body(&[("foo", &[0, 3]), ("x", &[])]);
    let mut framed = vec![1u8, 2, 3, 4, 5];
    framed.extend_from_slice(&body);
    framed.extend_from_slice(&[0xff, 0x00]);
    let alone = try_parse_produce_request(&body, 0).unwrap();
    let inside = try_parse_produce_request(&framed, 5).unwrap();
    let view = |r: &ProduceRequest| -> Vec<(String, Vec<i32>)> {
        r.topics.iter().map(|t| (t.name.clone(), t.partitions.iter().map(|p| p.index).collect())).collect()
    };
    assert_eq!(view(&alone), view(&inside));
    assert_eq!(view(&alone), vec![("foo".to_string(), vec![0, 3]), ("x".to_string(), vec![])]);
}
