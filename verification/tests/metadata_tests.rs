use kafka_broker::cluster::metadata::parse;
use kafka_broker::cluster::partition::Partition;
use kafka_broker::cluster::topic::Topic;
use kafka_broker::name_map::NameMap;
use kafka_broker::protocol_types::metadata::parse_cluster_metadata;

fn uvarint(mut v: u64, out: &mut Vec<u8>) {
    loop {
        let b = (v & 0x7f) as u8;
        v >>= 7;
        if v == 0 {
            out.push(b);
            return;
        }
        out.push(b | 0x80);
    }
}

fn varint(v: i64, out: &mut Vec<u8>) {
    uvarint(((v << 1) ^ (v >> 63)) as u64, out);
}

fn record(value: &[u8]) -> Vec<u8> {
    let mut body = vec![0u8]; // attributes
    varint(0, &mut body); // timestamp delta
    varint(0, &mut body); // offset delta
    varint(-1, &mut body); // key length: null
    varint(value.len() as i64, &mut body);
    body.extend_from_slice(value);
    uvarint(0, &mut body); // headers
    let mut rec = Vec::new();
    varint(body.len() as i64, &mut rec);
    rec.extend_from_slice(&body);
    rec
}

fn topic_value(name: &str, id: [u8; 16]) -> Vec<u8> {
    let mut v = vec![1u8, 2, 0];
    uvarint(name.len() as u64 + 1, &mut v);
    v.extend_from_slice(name.as_bytes());
    v.extend_from_slice(&id);
    v.push(0);
    v
}

fn i32_array(xs: &[i32], out: &mut Vec<u8>) {
    uvarint(xs.len() as u64 + 1, out);
    for x in xs {
        out.extend_from_slice(&x.to_be_bytes());
    }
}

fn partition_value(index: i32, id: [u8; 16], replicas: &[i32], isr: &[i32], leader: i32, epoch: i32) -> Vec<u8> {
    let mut v = vec![1u8, 3, 1];
    v.extend_from_slice(&index.to_be_bytes());
    v.extend_from_slice(&id);
    i32_array(replicas, &mut v);
    i32_array(isr, &mut v);
    i32_array(&[], &mut v);
    i32_array(&[], &mut v);
    v.extend_from_slice(&leader.to_be_bytes());
    v.extend_from_slice(&epoch.to_be_bytes());
    v.extend_from_slice(&0i32.to_be_bytes()); // partition epoch
    v.push(0);
    v
}

fn batch(magic: u8, records: &[Vec<u8>]) -> Vec<u8> {
    let mut after_length = Vec::new();
    after_length.extend_from_slice(&0i32.to_be_bytes()); // partition leader epoch
    after_length.push(magic);
    after_length.extend_from_slice(&[0u8; 40]);
    after_length.extend_from_slice(&(records.len() as i32).to_be_bytes());
    for r in records {
        after_length.extend_from_slice(r);
    }
    let mut b = Vec::new();
    b.extend_from_slice(&0i64.to_be_bytes());
    b.extend_from_slice(&(after_length.len() as i32).to_be_bytes());
    b.extend_from_slice(&after_length);
    b
}

fn id(n: u8) -> [u8; 16] {
    [n; 16]
}

fn replicas(p: &Partition) -> Vec<i32> {
    p.replica_nodes().to_vec()
}

fn topic<'a>(m: &'a NameMap<Topic>, name: &str) -> Option<&'a Topic> {
    m.get(&name.to_string())
}

#[test]
fn empty_log_holds_no_topics() {
    let m = parse(&[]).unwrap();
    assert_eq!(m.len(), 0);
    // Fewer than 12 bytes are not a batch.
    assert_eq!(parse(&[0u8; 11]).unwrap().len(), 0);
}

#[test]
fn topic_and_partitions_are_read() {
    let log = batch(
        2,
        &[
            record(&topic_value("foo", id(1))),
            record(&partition_value(0, id(1), &[1, 2], &[1], 1, 5)),
            record(&partition_value(1, id(1), &[3], &[3], 3, 6)),
        ],
    );
    let m = parse(&log).unwrap();
    assert_eq!(m.len(), 1);
    let t = topic(&m, "foo").unwrap();
    assert_eq!(t.id(), id(1));
    let ps = t.partitions();
    assert_eq!(ps.len(), 2);
    assert_eq!((ps[0].index(), ps[0].leader_id(), ps[0].leader_epoch()), (0, 1, 5));
    assert_eq!(replicas(&ps[0]), vec![1, 2]);
    assert_eq!(ps[0].isr_nodes().to_vec(), vec![1]);
    assert_eq!((ps[1].index(), ps[1].leader_id(), ps[1].leader_epoch()), (1, 3, 6));
}

#[test]
fn partitions_may_come_before_their_topic() {
    let log = [
        batch(2, &[record(&partition_value(4, id(2), &[1], &[1], 1, 0))]),
        batch(2, &[record(&topic_value("bar", id(2)))]),
    ]
    .concat();
    let m = parse(&log).unwrap();
    let t = topic(&m, "bar").unwrap();
    assert_eq!(t.partitions().len(), 1);
    assert_eq!(t.partitions()[0].index(), 4);
}

#[test]
fn latest_topic_record_gives_the_id() {
    let log = batch(
        2,
        &[record(&topic_value("baz", id(1))), record(&topic_value("baz", id(7))), record(&topic_value("qux", id(3)))],
    );
    let m = parse(&log).unwrap();
    assert_eq!(m.len(), 2);
    assert_eq!(topic(&m, "baz").unwrap().id(), id(7));
    assert_eq!(topic(&m, "qux").unwrap().id(), id(3));
    assert!(topic(&m, "nope").is_none());
}

#[test]
fn other_records_and_magic_are_skipped() {
    let other = vec![1u8, 12, 0, 0, 0];
    let log = [
        batch(1, &[record(&topic_value("old", id(9)))]),
        batch(2, &[record(&other), record(&topic_value("new", id(4)))]),
    ]
    .concat();
    let m = parse(&log).unwrap();
    assert_eq!(m.len(), 1);
    assert!(topic(&m, "old").is_none());
    assert_eq!(topic(&m, "new").unwrap().id(), id(4));
}

#[test]
fn batch_past_the_end_stops_reading() {
    let mut log = batch(2, &[record(&topic_value("foo", id(1)))]);
    let mut second = batch(2, &[record(&topic_value("bar", id(2)))]);
    second.truncate(second.len() - 1);
    log.extend_from_slice(&second);
    let m = parse(&log).unwrap();
    assert_eq!(m.len(), 1);
    assert!(topic(&m, "foo").is_some());
}

#[test]
fn truncated_record_cannot_be_read() {
    // A batch whose length covers the header but whose record count
    // claims a record that is not there.
    let mut b = Vec::new();
    b.extend_from_slice(&0i64.to_be_bytes());
    let mut rest = Vec::new();
    rest.extend_from_slice(&0i32.to_be_bytes());
    rest.push(2);
    rest.extend_from_slice(&[0u8; 40]);
    rest.extend_from_slice(&1i32.to_be_bytes());
    b.extend_from_slice(&(rest.len() as i32).to_be_bytes());
    b.extend_from_slice(&rest);
    assert!(parse(&b).is_none());
}

#[test]
fn cluster_metadata_as_plain_records() {
    let log = batch(
        2,
        &[record(&topic_value("foo", id(1))), record(&partition_value(0, id(1), &[1, 2], &[2], 2, 9))],
    );
    let m = parse_cluster_metadata(&log).unwrap();
    let t = m.get(&"foo".to_string()).unwrap();
    assert_eq!(t.topic_id, id(1));
    assert_eq!(t.partitions.len(), 1);
    let p = &t.partitions[0];
    assert_eq!((p.partition_index, p.leader_id, p.leader_epoch), (0, 2, 9));
    assert_eq!(p.replica_nodes, vec![1, 2]);
    assert_eq!(p.isr_nodes, vec![2]);
    assert!(parse_cluster_metadata(&log[..log.len() - 3]).is_some());
}

#[test]
fn name_map_operations() {
    let mut m: NameMap<Topic> = NameMap::new();
    m.insert_new("a".to_string(), Topic::new(id(1), vec![]));
    m.insert_new("b".to_string(), Topic::new(id(2), vec![Partition::new(0, 1, 2, vec![1], vec![1])]));
    assert_eq!(m.len(), 2);
    assert!(m.contains_key(&"a".to_string()));
    let b = m.remove(&"b".to_string()).unwrap();
    assert_eq!(b.id(), id(2));
    assert!(m.remove(&"b".to_string()).is_none());
    assert!(!m.contains_key(&"b".to_string()));
    assert_eq!(m.len(), 1);
    assert_eq!(m.entries()[0].0, "a");
}

#[test]
fn partitions_follow_log_order_per_topic_id() {
    let log = [
        batch(
            2,
            &[
                record(&partition_value(2, id(5), &[1], &[1], 1, 0)),
                record(&topic_value("five", id(5))),
                record(&partition_value(0, id(6), &[2], &[2], 2, 0)),
                record(&partition_value(7, id(9), &[3], &[3], 3, 0)),
            ],
        ),
        batch(
            2,
            &[
                record(&topic_value("six", id(6))),
                record(&partition_value(0, id(5), &[1], &[1], 1, 1)),
                record(&partition_value(1, id(6), &[2], &[2], 2, 1)),
            ],
        ),
    ]
    .concat();
    let m = parse(&log).unwrap();
    assert_eq!(m.len(), 2);
    let five: Vec<(i32, i32)> =
        topic(&m, "five").unwrap().partitions().iter().map(|p| (p.index(), p.leader_epoch())).collect();
    assert_eq!(five, vec![(2, 0), (0, 1)]);
    let six: Vec<(i32, i32)> =
        topic(&m, "six").unwrap().partitions().iter().map(|p| (p.index(), p.leader_epoch())).collect();
    assert_eq!(six, vec![(0, 0), (1, 1)]);
}

fn summary(log: &[u8]) -> Vec<(String, [u8; 16], Vec<i32>)> {
    let m = parse(log).unwrap();
    m.entries().iter().map(|(n, t)| (n.clone(), t.id(), t.partitions().iter().map(|p| p.index()).collect())).collect()
}

#[test]
fn batch_of_other_magic_changes_nothing() {
    let a = batch(2, &[record(&topic_value("foo", id(1))), record(&partition_value(0, id(1), &[1], &[1], 1, 0))]);
    let b = batch(1, &[record(&topic_value("foo", id(8))), record(&partition_value(5, id(1), &[1], &[1], 1, 0))]);
    let c = batch(2, &[record(&topic_value("bar", id(2))), record(&partition_value(1, id(1), &[1], &[1], 1, 0))]);
    let with_b = [a.clone(), b, c.clone()].concat();
    let without_b = [a, c].concat();
    assert_eq!(summary(&with_b), summary(&without_b));
    assert_eq!(summary(&with_b).len(), 2);
}

#[test]
fn truncated_trailing_batch_changes_nothing() {
    let a = batch(2, &[record(&topic_value("foo", id(1)))]);
    let full = batch(2, &[record(&topic_value("bar", id(2)))]);
    for cut in [3usize, 11, 12, 20, full.len() - 1] {
        let log = [a.clone(), full[..cut].to_vec()].concat();
        assert_eq!(summary(&log), summary(&a));
    }
}
