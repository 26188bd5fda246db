//! The reader of the cluster-metadata log (`__cluster_metadata-0`): a
//! sequence of record batches, from which the broker learns the topics
//! (`TopicRecord`) and their partitions (`PartitionRecord`).
//!
//! `batches_from` says which records a log holds; `fold_records` what the
//! broker keeps of them (the last id of each name, and every partition in
//! order); `assemble` the topics it then knows: each name with its id and
//! the partitions of that id that no earlier name took.

use vstd::prelude::*;

use crate::name_map::{
    distinct_keys, entries_map, key_index, lemma_key_index, lemma_key_index_same_keys, position_of, NameMap,
};
use crate::text::text_of;
use crate::wire::{
    be_bytes, be_i32, compact_i32_array_at, compact_len_byte, compact_string_at, concat_map, i32_at,
    i32_from_be, inside, lemma_be_bytes_len, lemma_bytes_in_inside, lemma_compact_i32_array_at_inside,
    lemma_compact_string_at_inside, lemma_concat_map_first, lemma_i32_at_inside, lemma_inside_index,
    lemma_placed_byte, lemma_placed_bytes, lemma_placed_i32_array, lemma_placed_ints, lemma_placed_len_byte,
    lemma_concat_map_at_least, lemma_placed_split, lemma_placed_uvarint, lemma_uuid_at_inside, lemma_uvarint_at_inside,
    lemma_uvarint_roundtrip, lemma_zigzag_roundtrip, placed, read_compact_array_i32, read_compact_string,
    read_i32, read_uuid, read_varint, read_varlong, uuid_at, uvarint_bytes, varint_at, varlong_at,
    zigzag_of,
};

use super::partition::{Partition, PartitionView};
use super::topic::{partition_views, Topic, TopicView};

verus! {

/// A record of the log, as far as the broker looks at it. Names are kept as
/// their raw bytes.
pub enum LogRecord {
    TopicRecord { name: Seq<u8>, id: Seq<u8> },
    PartitionRecord { id: Seq<u8>, partition: PartitionView },
    Other,
}

/// The fields of a `PartitionRecord` value from `pos` on: the partition id,
/// the topic id, replicas, in-sync replicas, removing and adding replicas,
/// leader and leader epoch.
pub open spec fn partition_record_at(data: Seq<u8>, pos: int) -> Option<(Seq<u8>, PartitionView)> {
    match i32_at(data, pos) {
        None => None,
        Some((index, p1)) => match uuid_at(data, p1) {
            None => None,
            Some((id, p2)) => match compact_i32_array_at(data, p2) {
                None => None,
                Some((replicas, p3)) => match compact_i32_array_at(data, p3) {
                    None => None,
                    Some((isr, p4)) => match compact_i32_array_at(data, p4) {
                        None => None,
                        Some((_removing, p5)) => match compact_i32_array_at(data, p5) {
                            None => None,
                            Some((_adding, p6)) => match i32_at(data, p6) {
                                None => None,
                                Some((leader_id, p7)) => match i32_at(data, p7) {
                                    None => None,
                                    Some((leader_epoch, _p8)) => Some(
                                        (
                                            id,
                                            PartitionView {
                                                index,
                                                leader_id,
                                                leader_epoch,
                                                replica_nodes: replicas,
                                                isr_nodes: isr,
                                            },
                                        ),
                                    ),
                                },
                            },
                        },
                    },
                },
            },
        },
    }
}

/// A record value from `pos` on: frame version, record type and version
/// bytes, then a `TopicRecord` (type 2: name and id) or a
/// `PartitionRecord` (type 3); other types are not looked into.
pub open spec fn value_at(data: Seq<u8>, pos: int) -> Option<LogRecord> {
    if pos < 0 || pos + 3 > data.len() {
        None
    } else {
        let record_type = data[pos + 1];
        if record_type == 2 {
            match compact_string_at(data, pos + 3) {
                None => None,
                Some((name, p)) => match uuid_at(data, p) {
                    None => None,
                    Some((id, _q)) => Some(LogRecord::TopicRecord { name, id }),
                },
            }
        } else if record_type == 3 {
            match partition_record_at(data, pos + 3) {
                None => None,
                Some((id, partition)) => Some(LogRecord::PartitionRecord { id, partition }),
            }
        } else {
            Some(LogRecord::Other)
        }
    }
}

/// The record at `pos` and the position its length field points past: a
/// varint length, an attributes byte, a varlong timestamp delta, a varint
/// offset delta, a varint key length and key, a varint value length and
/// the value (only a value of positive length is looked into).
#[verifier::opaque]
pub open spec fn record_at(data: Seq<u8>, pos: int) -> Option<(LogRecord, int)> {
    match varint_at(data, pos) {
        None => None,
        Some((rec_len, p0)) => {
            let rec_end = p0 + (rec_len as usize) as int;
            if rec_end > usize::MAX || p0 + 1 > usize::MAX {
                None
            } else {
                match varlong_at(data, p0 + 1) {
                    None => None,
                    Some((_ts, p1)) => match varint_at(data, p1) {
                        None => None,
                        Some((_off, p2)) => match varint_at(data, p2) {
                            None => None,
                            Some((key_len, p3)) => {
                                let p4 = if key_len > 0 { p3 + key_len } else { p3 };
                                if p4 > usize::MAX {
                                    None
                                } else {
                                    match varint_at(data, p4) {
                                        None => None,
                                        Some((val_len, p5)) => if val_len <= 0 {
                                            Some((LogRecord::Other, rec_end))
                                        } else {
                                            match value_at(data, p5) {
                                                None => None,
                                                Some(e) => Some((e, rec_end)),
                                            }
                                        },
                                    }
                                }
                            },
                        },
                    },
                }
            }
        },
    }
}

/// `n` records, each read where the previous one's length points.
pub open spec fn records_from(data: Seq<u8>, pos: int, n: nat) -> Option<Seq<LogRecord>>
    decreases n,
{
    if n == 0 {
        Some(Seq::empty())
    } else {
        match record_at(data, pos) {
            None => None,
            Some((e, end)) => match records_from(data, end, (n - 1) as nat) {
                None => None,
                Some(es) => Some(seq![e] + es),
            },
        }
    }
}

/// The records of the batches from `pos` on. A batch is a base offset
/// (8 bytes), a length (4 bytes) counting the bytes after it, a leader
/// epoch, a magic byte, and (for magic 2) 40 bytes of batch fields, a
/// record count and the records. Reading stops when fewer than 12 bytes are
/// left or a batch claims to run past the end; batches of another magic are
/// stepped over.
pub open spec fn batches_from(data: Seq<u8>, pos: int) -> Option<Seq<LogRecord>>
    decreases data.len() - pos,
{
    if pos < 0 || pos + 12 > data.len() {
        Some(Seq::empty())
    } else {
        let batch_length = be_i32(data.subrange(pos + 8, pos + 12));
        let p = pos + 12;
        let batch_end = p + (batch_length as usize) as int;
        if batch_end > usize::MAX {
            None
        } else if batch_end > data.len() {
            Some(Seq::empty())
        } else if p + 4 >= data.len() {
            None
        } else if data[p + 4] != 2 {
            batches_from(data, batch_end)
        } else {
            match i32_at(data, p + 45) {
                None => None,
                Some((count, q)) => match records_from(
                    data,
                    q,
                    if count > 0 {
                        count as nat
                    } else {
                        0
                    },
                ) {
                    None => None,
                    Some(es) => match batches_from(data, batch_end) {
                        None => None,
                        Some(rest) => Some(es + rest),
                    },
                },
            }
        }
    }
}

/// What the broker keeps while reading: each topic name with the id of its
/// latest `TopicRecord`, in order of first appearance, and every partition
/// with its topic id, in log order.
pub struct MetadataState {
    pub names: Seq<(Seq<char>, Seq<u8>)>,
    pub parts: Seq<(Seq<u8>, PartitionView)>,
}

pub open spec fn empty_state() -> MetadataState {
    MetadataState { names: Seq::empty(), parts: Seq::empty() }
}

/// Sets the value of key `k` in the entries `s`, appending it if it is new.
pub open spec fn upsert<K, V>(s: Seq<(K, V)>, k: K, v: V) -> Seq<(K, V)> {
    let i = key_index(s, k);
    if i >= 0 {
        s.update(i, (k, v))
    } else {
        s.push((k, v))
    }
}

pub open spec fn apply_record(s: MetadataState, e: LogRecord) -> MetadataState {
    match e {
        LogRecord::TopicRecord { name, id } => MetadataState {
            names: upsert(s.names, text_of(name), id),
            parts: s.parts,
        },
        LogRecord::PartitionRecord { id, partition } => MetadataState {
            names: s.names,
            parts: s.parts.push((id, partition)),
        },
        LogRecord::Other => s,
    }
}

pub open spec fn fold_records(s: MetadataState, es: Seq<LogRecord>) -> MetadataState
    decreases es.len(),
{
    if es.len() == 0 {
        s
    } else {
        fold_records(apply_record(s, es[0]), es.drop_first())
    }
}

/// The partitions of topic id `id`, in order.
pub open spec fn with_id(parts: Seq<(Seq<u8>, PartitionView)>, id: Seq<u8>) -> Seq<PartitionView>
    decreases parts.len(),
{
    if parts.len() == 0 {
        Seq::empty()
    } else if parts[0].0 == id {
        seq![parts[0].1] + with_id(parts.drop_first(), id)
    } else {
        with_id(parts.drop_first(), id)
    }
}

/// The partitions of other topic ids, in order.
pub open spec fn without_id(parts: Seq<(Seq<u8>, PartitionView)>, id: Seq<u8>) -> Seq<(Seq<u8>, PartitionView)>
    decreases parts.len(),
{
    if parts.len() == 0 {
        Seq::empty()
    } else if parts[0].0 == id {
        without_id(parts.drop_first(), id)
    } else {
        seq![parts[0]] + without_id(parts.drop_first(), id)
    }
}

/// The topics: each name in order, with its id and the partitions of that
/// id that no earlier name took.
pub open spec fn assemble(
    names: Seq<(Seq<char>, Seq<u8>)>,
    parts: Seq<(Seq<u8>, PartitionView)>,
) -> Seq<(Seq<char>, TopicView)>
    decreases names.len(),
{
    if names.len() == 0 {
        Seq::empty()
    } else {
        let (name, id) = names[0];
        seq![(name, TopicView { id, partitions: with_id(parts, id) })] + assemble(
            names.drop_first(),
            without_id(parts, id),
        )
    }
}

/// What the broker knows after reading the whole log, or `None` where a
/// read would run past the end of the log or a position would overflow.
pub open spec fn cluster_state(data: Seq<u8>) -> Option<MetadataState> {
    match batches_from(data, 0) {
        Some(es) => Some(fold_records(empty_state(), es)),
        None => None,
    }
}

/// The topics of a metadata log, in order of their names' first appearance.
pub open spec fn cluster_topics(data: Seq<u8>) -> Option<Seq<(Seq<char>, TopicView)>> {
    match cluster_state(data) {
        Some(s) => Some(assemble(s.names, s.parts)),
        None => None,
    }
}

/// What the broker knows after the batches from `pos` on, having known `s`
/// before them.
pub open spec fn continue_from(data: Seq<u8>, pos: int, s: MetadataState) -> Option<MetadataState> {
    match batches_from(data, pos) {
        Some(es) => Some(fold_records(s, es)),
        None => None,
    }
}

/// What the broker knows after `n` records from `pos` and then the batches
/// from `batch_end` on, having known `s` before them.
pub open spec fn after_records(
    data: Seq<u8>,
    pos: int,
    n: nat,
    batch_end: int,
    s: MetadataState,
) -> Option<MetadataState> {
    match records_from(data, pos, n) {
        Some(es) => continue_from(data, batch_end, fold_records(s, es)),
        None => None,
    }
}

proof fn lemma_fold_append(s: MetadataState, a: Seq<LogRecord>, b: Seq<LogRecord>)
    ensures
        fold_records(s, a + b) == fold_records(fold_records(s, a), b),
    decreases a.len(),
{
    if a.len() == 0 {
        assert(a + b =~= b);
    } else {
        assert((a + b)[0] == a[0]);
        assert((a + b).drop_first() =~= a.drop_first() + b);
        lemma_fold_append(apply_record(s, a[0]), a.drop_first(), b);
    }
}

proof fn lemma_after_records_step(data: Seq<u8>, pos: int, n: nat, batch_end: int, s: MetadataState)
    requires
        n > 0,
        record_at(data, pos) is Some,
    ensures
        after_records(data, pos, n, batch_end, s) == after_records(
            data,
            record_at(data, pos).unwrap().1,
            (n - 1) as nat,
            batch_end,
            apply_record(s, record_at(data, pos).unwrap().0),
        ),
{
    let (e, end) = record_at(data, pos)->0;
    match records_from(data, end, (n - 1) as nat) {
        Some(es) => {
            assert((seq![e] + es)[0] == e);
            assert((seq![e] + es).drop_first() =~= es);
        },
        None => {},
    }
}

proof fn lemma_magic_batch(data: Seq<u8>, pos: int, s: MetadataState)
    requires
        0 <= pos,
        data.len() <= usize::MAX,
        pos + 12 <= data.len(),
        pos + 12 + (be_i32(data.subrange(pos + 8, pos + 12)) as usize) as int <= data.len(),
        pos + 16 < data.len(),
        data[pos + 16] == 2,
        i32_at(data, pos + 57) is Some,
    ensures
        ({
            let batch_end = pos + 12 + (be_i32(data.subrange(pos + 8, pos + 12)) as usize) as int;
            let count = i32_at(data, pos + 57).unwrap().0;
            continue_from(data, pos, s) == after_records(
                data,
                pos + 61,
                if count > 0 {
                    count as nat
                } else {
                    0
                },
                batch_end,
                s,
            )
        }),
{
    let batch_end = pos + 12 + (be_i32(data.subrange(pos + 8, pos + 12)) as usize) as int;
    let count = i32_at(data, pos + 57).unwrap().0;
    let n: nat = if count > 0 {
        count as nat
    } else {
        0
    };
    match records_from(data, pos + 61, n) {
        Some(es) => match batches_from(data, batch_end) {
            Some(rest) => {
                lemma_fold_append(s, es, rest);
            },
            None => {},
        },
        None => {},
    }
}

/// The id of the latest `TopicRecord` named `k` among `es`, if any.
pub open spec fn latest_topic_id(es: Seq<LogRecord>, k: Seq<char>) -> Option<Seq<u8>>
    decreases es.len(),
{
    if es.len() == 0 {
        None
    } else {
        match es.last() {
            LogRecord::TopicRecord { name, id } => if text_of(name) == k {
                Some(id)
            } else {
                latest_topic_id(es.drop_last(), k)
            },
            _ => latest_topic_id(es.drop_last(), k),
        }
    }
}

proof fn lemma_upsert_key<K, V>(s: Seq<(K, V)>, k: K, v: V, x: K)
    ensures
        x == k ==> key_index(upsert(s, k, v), x) >= 0 && upsert(s, k, v)[key_index(upsert(s, k, v), x)].1 == v,
        x != k ==> key_index(upsert(s, k, v), x) == key_index(s, x),
        x != k && key_index(s, x) >= 0 ==> upsert(s, k, v)[key_index(s, x)] == s[key_index(s, x)],
{
    lemma_key_index(s, k);
    lemma_key_index(s, x);
    let t = upsert(s, k, v);
    lemma_key_index(t, x);
    if x != k {
        if key_index(s, k) >= 0 {
            lemma_key_index_same_keys(t, s, x);
        } else {
            if key_index(s, x) >= 0 {
                let i = key_index(s, x);
                assert(t[i] == s[i]);
                assert forall|j: int| 0 <= j < i implies t[j].0 != x by {
                    assert(t[j] == s[j]);
                }
                if key_index(t, x) < i {
                    assert(t[key_index(t, x)] == s[key_index(t, x)]);
                }
            } else {
                assert forall|j: int| 0 <= j < t.len() implies t[j].0 != x by {
                    if j < s.len() {
                        assert(t[j] == s[j]);
                    }
                }
            }
        }
    } else {
        if key_index(s, k) >= 0 {
            lemma_key_index_same_keys(t, s, x);
        } else {
            assert(t[s.len() as int].0 == k);
            if key_index(t, x) < s.len() {
                assert(t[key_index(t, x)] == s[key_index(t, x)]);
            }
        }
    }
}

/// After reading `es`, the broker holds each name with the id of its latest
/// `TopicRecord`, and holds no name that no `TopicRecord` carries.
proof fn lemma_fold_names(es: Seq<LogRecord>, k: Seq<char>)
    ensures
        ({
            let names = fold_records(empty_state(), es).names;
            match latest_topic_id(es, k) {
                Some(id) => key_index(names, k) >= 0 && names[key_index(names, k)].1 == id,
                None => key_index(names, k) < 0,
            }
        }),
    decreases es.len(),
{
    if es.len() == 0 {
        lemma_key_index(empty_state().names, k);
    } else {
        let prev = es.drop_last();
        lemma_fold_names(prev, k);
        lemma_fold_append(empty_state(), prev, seq![es.last()]);
        assert(prev + seq![es.last()] =~= es);
        let s0 = fold_records(empty_state(), prev);
        assert(fold_records(apply_record(s0, es.last()), Seq::empty()) == apply_record(s0, es.last()));
        assert(seq![es.last()].drop_first() =~= Seq::<LogRecord>::empty());
        match es.last() {
            LogRecord::TopicRecord { name, id } => {
                lemma_upsert_key(s0.names, text_of(name), id, k);
            },
            _ => {},
        }
    }
}

proof fn lemma_assemble_keys(names: Seq<(Seq<char>, Seq<u8>)>, parts: Seq<(Seq<u8>, PartitionView)>)
    ensures
        assemble(names, parts).len() == names.len(),
        forall|i: int|
            0 <= i < names.len() ==> (#[trigger] assemble(names, parts)[i]).0 == names[i].0
                && assemble(names, parts)[i].1.id == names[i].1,
    decreases names.len(),
{
    if names.len() > 0 {
        let id = names[0].1;
        lemma_assemble_keys(names.drop_first(), without_id(parts, id));
        let a = assemble(names, parts);
        assert forall|i: int| 0 <= i < names.len() implies (#[trigger] a[i]).0 == names[i].0 && a[i].1.id
            == names[i].1 by {
            if i > 0 {
                assert(a[i] == assemble(names.drop_first(), without_id(parts, id))[i - 1]);
                assert(names.drop_first()[i - 1] == names[i]);
            }
        }
    }
}

/// The topics read from a log are exactly the names that its
/// `TopicRecord`s carry, each with the id of the latest such record.
pub proof fn lemma_topics_from_latest_records(data: Seq<u8>, k: Seq<char>)
    requires
        batches_from(data, 0) is Some,
    ensures
        ({
            let es = batches_from(data, 0).unwrap();
            let m = entries_map(cluster_topics(data).unwrap());
            &&& m.contains_key(k) <==> latest_topic_id(es, k) is Some
            &&& m.contains_key(k) ==> m[k].id == latest_topic_id(es, k).unwrap()
        }),
{
    let es = batches_from(data, 0).unwrap();
    let s = fold_records(empty_state(), es);
    lemma_fold_names(es, k);
    lemma_assemble_keys(s.names, s.parts);
    let a = assemble(s.names, s.parts);
    lemma_key_index_same_keys(a, s.names, k);
    lemma_key_index(a, k);
}

/// The `PartitionRecord`s among `es`, each with its topic id, in order.
pub open spec fn partition_records(es: Seq<LogRecord>) -> Seq<(Seq<u8>, PartitionView)>
    decreases es.len(),
{
    if es.len() == 0 {
        Seq::empty()
    } else {
        let prev = partition_records(es.drop_last());
        match es.last() {
            LogRecord::PartitionRecord { id, partition } => prev.push((id, partition)),
            _ => prev,
        }
    }
}

/// Reading `es` keeps every partition record, in order, and no two names.
proof fn lemma_fold_parts(es: Seq<LogRecord>)
    ensures
        fold_records(empty_state(), es).parts == partition_records(es),
        distinct_keys(fold_records(empty_state(), es).names),
    decreases es.len(),
{
    if es.len() > 0 {
        let prev = es.drop_last();
        lemma_fold_parts(prev);
        lemma_fold_append(empty_state(), prev, seq![es.last()]);
        assert(prev + seq![es.last()] =~= es);
        let s0 = fold_records(empty_state(), prev);
        assert(seq![es.last()].drop_first() =~= Seq::<LogRecord>::empty());
        assert(fold_records(apply_record(s0, es.last()), Seq::empty()) == apply_record(s0, es.last()));
        match es.last() {
            LogRecord::TopicRecord { name, id } => {
                lemma_upsert_distinct(s0.names, text_of(name), id);
            },
            _ => {},
        }
    }
}

/// Leaving out the partitions of another id keeps those of `d`.
proof fn lemma_with_id_without_id(parts: Seq<(Seq<u8>, PartitionView)>, x: Seq<u8>, d: Seq<u8>)
    requires
        x != d,
    ensures
        with_id(without_id(parts, x), d) == with_id(parts, d),
    decreases parts.len(),
{
    if parts.len() > 0 {
        lemma_with_id_without_id(parts.drop_first(), x, d);
        if parts[0].0 != x {
            let w = seq![parts[0]] + without_id(parts.drop_first(), x);
            assert(w[0] == parts[0]);
            assert(w.drop_first() =~= without_id(parts.drop_first(), x));
        }
    }
}

/// A name whose id no earlier name carries gets every partition of that id.
proof fn lemma_assemble_partitions(
    names: Seq<(Seq<char>, Seq<u8>)>,
    parts: Seq<(Seq<u8>, PartitionView)>,
    i: int,
)
    requires
        0 <= i < names.len(),
        forall|j: int| 0 <= j < i ==> (#[trigger] names[j]).1 != names[i].1,
    ensures
        assemble(names, parts)[i].1.partitions == with_id(parts, names[i].1),
    decreases names.len(),
{
    lemma_assemble_keys(names, parts);
    if i > 0 {
        let id0 = names[0].1;
        let rest = names.drop_first();
        assert forall|j: int| 0 <= j < i - 1 implies (#[trigger] rest[j]).1 != rest[i - 1].1 by {
            assert(rest[j] == names[j + 1]);
        }
        lemma_assemble_partitions(rest, without_id(parts, id0), i - 1);
        assert(assemble(names, parts)[i] == assemble(rest, without_id(parts, id0))[i - 1]);
        assert(rest[i - 1] == names[i]);
        lemma_with_id_without_id(parts, id0, names[i].1);
    }
}

/// The partitions that the `PartitionRecord`s among `es` carry for topic id
/// `d`, in the order of `es`.
pub open spec fn partitions_of_id(es: Seq<LogRecord>, d: Seq<u8>) -> Seq<PartitionView>
    decreases es.len(),
{
    if es.len() == 0 {
        Seq::empty()
    } else {
        let prev = partitions_of_id(es.drop_last(), d);
        match es.last() {
            LogRecord::PartitionRecord { id, partition } => if id == d {
                prev.push(partition)
            } else {
                prev
            },
            _ => prev,
        }
    }
}

proof fn lemma_with_id_push(s: Seq<(Seq<u8>, PartitionView)>, x: (Seq<u8>, PartitionView), d: Seq<u8>)
    ensures
        with_id(s.push(x), d) == if x.0 == d {
            with_id(s, d).push(x.1)
        } else {
            with_id(s, d)
        },
    decreases s.len(),
{
    if s.len() == 0 {
        assert(s =~= Seq::<(Seq<u8>, PartitionView)>::empty());
        assert(s.push(x).drop_first() =~= Seq::<(Seq<u8>, PartitionView)>::empty());
        assert(with_id(s.push(x).drop_first(), d) =~= Seq::<PartitionView>::empty());
        assert(with_id(s, d) =~= Seq::<PartitionView>::empty());
        assert(seq![x.1] + Seq::<PartitionView>::empty() =~= Seq::<PartitionView>::empty().push(x.1));
        assert(s.push(x)[0] == x);
    } else {
        lemma_with_id_push(s.drop_first(), x, d);
        assert(s.push(x).drop_first() =~= s.drop_first().push(x));
        assert(s.push(x)[0] == s[0]);
        if s[0].0 == d {
            assert(seq![s[0].1] + with_id(s.drop_first(), d).push(x.1) =~= (seq![s[0].1] + with_id(
                s.drop_first(),
                d,
            )).push(x.1));
        }
    }
}

proof fn lemma_with_id_records(es: Seq<LogRecord>, d: Seq<u8>)
    ensures
        with_id(partition_records(es), d) == partitions_of_id(es, d),
    decreases es.len(),
{
    if es.len() > 0 {
        lemma_with_id_records(es.drop_last(), d);
        match es.last() {
            LogRecord::PartitionRecord { id, partition } => {
                lemma_with_id_push(partition_records(es.drop_last()), (id, partition), d);
            },
            _ => {},
        }
    }
}

/// A topic whose id no other topic of the log carries has as its partitions
/// the log's `PartitionRecord`s for that id, in the order of the log.
pub proof fn lemma_topic_partitions_from_records(data: Seq<u8>, k: Seq<char>)
    requires
        batches_from(data, 0) is Some,
    ensures
        ({
            let es = batches_from(data, 0).unwrap();
            let m = entries_map(cluster_topics(data).unwrap());
            m.contains_key(k) && (forall|k2: Seq<char>|
                #![trigger m[k2]]
                m.contains_key(k2) && k2 != k ==> m[k2].id != m[k].id) ==> m[k].partitions
                == partitions_of_id(es, m[k].id)
        }),
{
    let es = batches_from(data, 0).unwrap();
    let s = fold_records(empty_state(), es);
    let a = assemble(s.names, s.parts);
    let m = entries_map(a);
    lemma_fold_parts(es);
    lemma_assemble_keys(s.names, s.parts);
    lemma_key_index(a, k);
    if m.contains_key(k) && (forall|k2: Seq<char>|
        #![trigger m[k2]]
        m.contains_key(k2) && k2 != k ==> m[k2].id != m[k].id) {
        let i = key_index(a, k);
        assert forall|j: int| 0 <= j < i implies (#[trigger] s.names[j]).1 != s.names[i].1 by {
            let kj = a[j].0;
            lemma_key_index(a, kj);
            lemma_key_index_same_keys(a, s.names, kj);
            assert(s.names[j].0 == kj);
            assert(key_index(s.names, kj) == j) by {
                crate::name_map::lemma_key_index_at(s.names, j);
            }
            assert(m.contains_key(kj));
            assert(m[kj] == a[j].1);
            assert(kj != k);
        }
        lemma_assemble_partitions(s.names, s.parts, i);
        lemma_with_id_records(es, m[k].id);
    }
}

// ── Whole batches ────────────────────────────────────────────────────────

proof fn lemma_partition_record_inside(p: Seq<u8>, data: Seq<u8>, s: Seq<u8>, pos: int)
    requires
        partition_record_at(data, pos) is Some,
    ensures
        partition_record_at(inside(p, data, s), pos + p.len()) == partition_record_at(data, pos),
{
    lemma_i32_at_inside(p, data, s, pos);
    let p1 = pos + 4;
    lemma_uuid_at_inside(p, data, s, p1);
    let p2 = p1 + 16;
    lemma_compact_i32_array_at_inside(p, data, s, p2);
    let p3 = compact_i32_array_at(data, p2).unwrap().1;
    lemma_compact_i32_array_at_inside(p, data, s, p3);
    let p4 = compact_i32_array_at(data, p3).unwrap().1;
    lemma_compact_i32_array_at_inside(p, data, s, p4);
    let p5 = compact_i32_array_at(data, p4).unwrap().1;
    lemma_compact_i32_array_at_inside(p, data, s, p5);
    let p6 = compact_i32_array_at(data, p5).unwrap().1;
    lemma_i32_at_inside(p, data, s, p6);
    lemma_i32_at_inside(p, data, s, p6 + 4);
    assert(pos + p.len() + 4 == p1 + p.len());
    assert(p1 + p.len() + 16 == p2 + p.len());
    assert(p6 + p.len() + 4 == (p6 + 4) + p.len());
}

proof fn lemma_value_at_inside(p: Seq<u8>, data: Seq<u8>, s: Seq<u8>, pos: int)
    requires
        value_at(data, pos) is Some,
    ensures
        value_at(inside(p, data, s), pos + p.len()) == value_at(data, pos),
{
    lemma_inside_index(p, data, s);
    let d = inside(p, data, s);
    assert(d[(pos + 1) + p.len()] == data[pos + 1]);
    assert(pos + p.len() + 1 == (pos + 1) + p.len());
    assert(pos + p.len() + 3 == (pos + 3) + p.len());
    let record_type = data[pos + 1];
    if record_type == 2 {
        lemma_compact_string_at_inside(p, data, s, pos + 3);
        let q = compact_string_at(data, pos + 3).unwrap().1;
        lemma_uuid_at_inside(p, data, s, q);
    } else if record_type == 3 {
        lemma_partition_record_inside(p, data, s, pos + 3);
    }
}

proof fn lemma_record_at_inside(p: Seq<u8>, data: Seq<u8>, s: Seq<u8>, pos: int)
    requires
        record_at(data, pos) is Some,
        record_at(data, pos).unwrap().1 + p.len() <= usize::MAX,
        inside(p, data, s).len() <= usize::MAX,
    ensures
        record_at(data, pos).unwrap().1 > pos,
        record_at(inside(p, data, s), pos + p.len()) == Some(
            (record_at(data, pos).unwrap().0, record_at(data, pos).unwrap().1 + p.len()),
        ),
{
    reveal(record_at);
    let k = p.len() as int;
    lemma_uvarint_at_inside(p, data, s, pos);
    let (rec_len, p0) = varint_at(data, pos).unwrap();
    lemma_uvarint_at_inside(p, data, s, p0 + 1);
    let p1 = varlong_at(data, p0 + 1).unwrap().1;
    lemma_uvarint_at_inside(p, data, s, p1);
    let p2 = varint_at(data, p1).unwrap().1;
    lemma_uvarint_at_inside(p, data, s, p2);
    let (key_len, p3) = varint_at(data, p2).unwrap();
    let p4 = if key_len > 0 { p3 + key_len } else { p3 };
    lemma_uvarint_at_inside(p, data, s, p4);
    let (val_len, p5) = varint_at(data, p4).unwrap();
    assert(p0 + k + 1 == (p0 + 1) + k);
    assert((if key_len > 0 { p3 + k + key_len } else { p3 + k }) == p4 + k);
    if val_len > 0 {
        lemma_value_at_inside(p, data, s, p5);
    }
}

/// The `n` records from `pos` can be read, and each ends (its length field
/// points) no later than `limit`.
pub open spec fn records_within(data: Seq<u8>, pos: int, n: nat, limit: int) -> bool
    decreases n,
{
    if n == 0 {
        true
    } else {
        match record_at(data, pos) {
            None => false,
            Some((_e, end)) => end <= limit && records_within(data, end, (n - 1) as nat, limit),
        }
    }
}

proof fn lemma_records_inside(p: Seq<u8>, data: Seq<u8>, s: Seq<u8>, pos: int, n: nat, limit: int)
    requires
        records_within(data, pos, n, limit),
        limit + p.len() <= usize::MAX,
        inside(p, data, s).len() <= usize::MAX,
    ensures
        records_from(data, pos, n) is Some,
        records_from(inside(p, data, s), pos + p.len(), n) == records_from(data, pos, n),
    decreases n,
{
    if n > 0 {
        let end = record_at(data, pos).unwrap().1;
        lemma_record_at_inside(p, data, s, pos);
        lemma_records_inside(p, data, s, end, (n - 1) as nat, limit);
    }
}

/// The end of the whole, well-formed batch at `pos`: its header and all the
/// bytes its length counts lie within `data`, and, for magic 2, its records
/// can be read and each ends within the batch.
pub open spec fn whole_batch_at(data: Seq<u8>, pos: int) -> Option<int> {
    if pos < 0 || pos + 12 > data.len() {
        None
    } else {
        let batch_length = be_i32(data.subrange(pos + 8, pos + 12));
        let p = pos + 12;
        let batch_end = p + (batch_length as usize) as int;
        if batch_end > data.len() || p + 4 >= data.len() {
            None
        } else if data[p + 4] != 2 {
            Some(batch_end)
        } else {
            match i32_at(data, p + 45) {
                None => None,
                Some((count, q)) => if records_within(
                    data,
                    q,
                    if count > 0 {
                        count as nat
                    } else {
                        0
                    },
                    batch_end,
                ) {
                    Some(batch_end)
                } else {
                    None
                },
            }
        }
    }
}

/// From `pos` to its end, `data` is a sequence of whole, well-formed
/// batches.
pub open spec fn whole_batches_from(data: Seq<u8>, pos: int) -> bool
    decreases data.len() - pos,
{
    if pos == data.len() {
        true
    } else {
        match whole_batch_at(data, pos) {
            Some(e) => pos < e <= data.len() && 0 <= pos && whole_batches_from(data, e),
            None => false,
        }
    }
}

/// `es` before the records of `rest`, if they can be read.
pub open spec fn prepend_records(es: Seq<LogRecord>, rest: Option<Seq<LogRecord>>) -> Option<Seq<LogRecord>> {
    match rest {
        Some(r) => Some(es + r),
        None => None,
    }
}

/// Whole batches are read the same inside a longer log, and reading goes
/// on after them as it would from their end.
proof fn lemma_whole_batches_inside(p: Seq<u8>, data: Seq<u8>, s: Seq<u8>, pos: int)
    requires
        0 <= pos <= data.len(),
        whole_batches_from(data, pos),
        inside(p, data, s).len() <= usize::MAX,
    ensures
        batches_from(data, pos) is Some,
        batches_from(inside(p, data, s), pos + p.len()) == prepend_records(
            batches_from(data, pos).unwrap(),
            batches_from(inside(p, data, s), (data.len() + p.len()) as int),
        ),
    decreases data.len() - pos,
{
    let d = inside(p, data, s);
    let k = p.len() as int;
    lemma_inside_index(p, data, s);
    if pos == data.len() {
        match batches_from(d, data.len() + k) {
            Some(r) => {
                assert(Seq::<LogRecord>::empty() + r =~= r);
            },
            None => {},
        }
    } else {
        let e = whole_batch_at(data, pos).unwrap();
        lemma_bytes_in_inside(p, data, s, pos + 8, pos + 12);
        assert(d.subrange(pos + k + 8, pos + k + 12) == data.subrange(pos + 8, pos + 12));
        assert(d[(pos + 16) + k] == data[pos + 16]);
        assert(pos + k + 12 + 4 == (pos + 16) + k);
        lemma_whole_batches_inside(p, data, s, e);
        let tail = batches_from(d, data.len() + k);
        let re = batches_from(data, e).unwrap();
        if data[pos + 16] == 2 {
            let (count, q) = i32_at(data, pos + 57).unwrap();
            lemma_i32_at_inside(p, data, s, pos + 57);
            assert(pos + k + 12 + 45 == (pos + 57) + k);
            let n: nat = if count > 0 {
                count as nat
            } else {
                0
            };
            lemma_records_inside(p, data, s, q, n, e);
            let es = records_from(data, q, n).unwrap();
            match tail {
                Some(r) => {
                    assert((es + re) + r =~= es + (re + r));
                },
                None => {},
            }
        }
    }
}

/// The records of whole batches that end the log.
proof fn lemma_whole_batches_end(p: Seq<u8>, data: Seq<u8>)
    requires
        whole_batches_from(data, 0),
        (p + data).len() <= usize::MAX,
    ensures
        batches_from(data, 0) is Some,
        batches_from(p + data, p.len() as int) == batches_from(data, 0),
{
    lemma_whole_batches_inside(p, data, Seq::empty(), 0);
    assert(inside(p, data, Seq::empty()) =~= p + data);
    let es = batches_from(data, 0).unwrap();
    assert(es + Seq::<LogRecord>::empty() =~= es);
}

/// A whole batch whose magic byte is not 2 is stepped over, and changes
/// nothing: between whole, well-formed batches `a` and `c`, the log
/// `a ++ b ++ c` holds the same topics as `a ++ c`.
pub proof fn lemma_other_magic_batch_skipped(a: Seq<u8>, b: Seq<u8>, c: Seq<u8>)
    requires
        whole_batches_from(a, 0),
        whole_batches_from(c, 0),
        b.len() >= 17,
        be_i32(b.subrange(8, 12)) == b.len() - 12,
        b[16] != 2,
        (a + b + c).len() <= usize::MAX,
    ensures
        cluster_topics(a + b + c) == cluster_topics(a + c),
{
    let d1 = a + b + c;
    let d2 = a + c;
    lemma_whole_batches_inside(Seq::empty(), a, b + c, 0);
    assert(inside(Seq::empty(), a, b + c) =~= d1);
    lemma_whole_batches_inside(Seq::empty(), a, c, 0);
    assert(inside(Seq::empty(), a, c) =~= d2);
    let pos = a.len() as int;
    assert(d1.subrange(pos + 8, pos + 12) =~= b.subrange(8, 12));
    assert(d1[pos + 16] == b[16]);
    let bl = be_i32(b.subrange(8, 12));
    assert((bl as usize) as int == bl);
    assert(d1 =~= (a + b) + c);
    lemma_whole_batches_end(a + b, c);
    lemma_whole_batches_end(a, c);
    assert(batches_from(d1, pos) == batches_from(d1, pos + b.len()));
}

/// A batch cut short at the end of the log is not read, and changes
/// nothing: after whole, well-formed batches `a`, the log `a ++ t` holds
/// the same topics as `a` when `t` is too short for a batch header or
/// claims more bytes than it has (without a position past `usize::MAX`).
pub proof fn lemma_truncated_batch_ignored(a: Seq<u8>, t: Seq<u8>)
    requires
        whole_batches_from(a, 0),
        t.len() < 12 || (t.len() < 12 + (be_i32(t.subrange(8, 12)) as usize) as int && a.len() + 12 + (be_i32(
            t.subrange(8, 12),
        ) as usize) as int <= usize::MAX),
        (a + t).len() <= usize::MAX,
    ensures
        cluster_topics(a + t) == cluster_topics(a),
{
    lemma_whole_batches_inside(Seq::empty(), a, t, 0);
    assert(inside(Seq::empty(), a, t) =~= a + t);
    lemma_whole_batches_inside(Seq::empty(), a, Seq::empty(), 0);
    assert(inside(Seq::empty(), a, Seq::empty()) =~= a);
    let pos = a.len() as int;
    if t.len() >= 12 {
        assert((a + t).subrange(pos + 8, pos + 12) =~= t.subrange(8, 12));
    }
    let es = batches_from(a, 0).unwrap();
    assert(es + Seq::<LogRecord>::empty() =~= es);
}

// ── Reading records back ─────────────────────────────────────────────────

/// A compact array of `INT32` with a one-byte count.
pub open spec fn i32_array_bytes(s: Seq<i32>) -> Seq<u8> {
    seq![compact_len_byte(s.len())] + concat_map(s, |x: i32| be_bytes(x as int, 4))
}

/// The value of a `TopicRecord`: frame version 1, type 2, version 0, the
/// name (compact string with a one-byte length), the sixteen id bytes and
/// an empty tag buffer.
pub open spec fn topic_value_bytes(name: Seq<u8>, id: Seq<u8>) -> Seq<u8> {
    seq![1u8, 2u8, 0u8] + seq![compact_len_byte(name.len())] + name + id + seq![0u8]
}

/// The value of a `PartitionRecord`: frame version 1, type 3, version 0,
/// the partition index, the sixteen topic id bytes, replicas, in-sync
/// replicas, empty removing and adding replicas, leader, leader epoch,
/// partition epoch 0 and an empty tag buffer.
pub open spec fn partition_value_bytes(id: Seq<u8>, p: PartitionView) -> Seq<u8> {
    seq![1u8, 3u8, 0u8] + be_bytes(p.index as int, 4) + id + i32_array_bytes(p.replica_nodes)
        + i32_array_bytes(p.isr_nodes) + i32_array_bytes(Seq::empty()) + i32_array_bytes(Seq::empty())
        + be_bytes(p.leader_id as int, 4) + be_bytes(p.leader_epoch as int, 4) + be_bytes(0, 4) + seq![0u8]
}

/// A `TopicRecord` value reads back as its name and id.
pub proof fn lemma_topic_value_reads_back(name: Seq<u8>, id: Seq<u8>)
    requires
        name.len() < 127,
        id.len() == 16,
    ensures
        value_at(topic_value_bytes(name, id), 0) == Some(LogRecord::TopicRecord { name, id }),
{
    let d = topic_value_bytes(name, id);
    assert(d.subrange(0, d.len() as int) =~= d);
    let h = seq![1u8, 2u8, 0u8];
    let l = seq![compact_len_byte(name.len())];
    lemma_placed_split(d, 0, h + l + name + id, seq![0u8]);
    lemma_placed_split(d, 0, h + l + name, id);
    lemma_placed_split(d, 0, h + l, name);
    lemma_placed_split(d, 0, h, l);
    assert(d[1] == 2u8);
    lemma_placed_len_byte(d, 3, name.len());
    lemma_placed_bytes(d, 4, name);
    lemma_placed_bytes(d, 4int + name.len(), id);
    assert(compact_string_at(d, 3) == Some((name, 4int + name.len())));
}

/// A `PartitionRecord` value reads back as its topic id and partition.
#[verifier::spinoff_prover]
#[verifier::rlimit(50)]
pub proof fn lemma_partition_value_reads_back(id: Seq<u8>, p: PartitionView)
    requires
        id.len() == 16,
        p.replica_nodes.len() < 127,
        p.isr_nodes.len() < 127,
    ensures
        value_at(partition_value_bytes(id, p), 0) == Some(LogRecord::PartitionRecord { id, partition: p }),
{
    let d = partition_value_bytes(id, p);
    assert(d.subrange(0, d.len() as int) =~= d);
    let h = seq![1u8, 3u8, 0u8];
    let bi = be_bytes(p.index as int, 4);
    let r = i32_array_bytes(p.replica_nodes);
    let i = i32_array_bytes(p.isr_nodes);
    let e = i32_array_bytes(Seq::<i32>::empty());
    let bl = be_bytes(p.leader_id as int, 4);
    let be = be_bytes(p.leader_epoch as int, 4);
    let tail = be_bytes(0, 4) + seq![0u8];
    assert(d =~= h + bi + id + r + i + e + e + bl + be + tail);
    lemma_placed_split(d, 0, h + bi + id + r + i + e + e + bl + be, tail);
    lemma_placed_split(d, 0, h + bi + id + r + i + e + e + bl, be);
    lemma_placed_split(d, 0, h + bi + id + r + i + e + e, bl);
    lemma_placed_split(d, 0, h + bi + id + r + i + e, e);
    lemma_placed_split(d, 0, h + bi + id + r + i, e);
    lemma_placed_split(d, 0, h + bi + id + r, i);
    lemma_placed_split(d, 0, h + bi + id, r);
    lemma_placed_split(d, 0, h + bi, id);
    lemma_placed_split(d, 0, h, bi);
    assert(d[1] == 3u8);
    lemma_be_bytes_len(p.index as int, 4);
    lemma_be_bytes_len(p.leader_id as int, 4);
    lemma_be_bytes_len(p.leader_epoch as int, 4);
    lemma_placed_ints(d, 3, 0, p.index, 0);
    lemma_placed_bytes(d, 7, id);
    lemma_placed_i32_array(d, 23, p.replica_nodes);
    let q1: int = 23int + r.len();
    lemma_placed_i32_array(d, q1, p.isr_nodes);
    let q2: int = q1 + i.len();
    lemma_placed_i32_array(d, q2, Seq::<i32>::empty());
    lemma_placed_i32_array(d, q2 + 1, Seq::<i32>::empty());
    lemma_placed_ints(d, q2 + 2, 0, p.leader_id, 0);
    lemma_placed_ints(d, q2 + 6, 0, p.leader_epoch, 0);
    assert(partition_record_at(d, 3) == Some((id, p)));
}

/// A record around `value`: its length (a zig-zag varint counting what
/// follows it), attributes 0, timestamp delta 0, offset delta 0, a null key
/// (length -1), the value's length (a zig-zag varint) and the value, and no
/// headers.
pub open spec fn record_bytes(value: Seq<u8>) -> Seq<u8> {
    let body = seq![0u8, 0u8, 0u8, 1u8] + uvarint_bytes(zigzag_of(value.len() as int) as u64) + value + seq![0u8];
    uvarint_bytes(zigzag_of(body.len() as int) as u64) + body
}

/// A placed zig-zag varint of a non-negative `i32` reads back as it.
proof fn lemma_placed_zigzag(data: Seq<u8>, pos: int, n: i32)
    requires
        n >= 0,
        placed(data, pos, uvarint_bytes(zigzag_of(n as int) as u64)),
    ensures
        varint_at(data, pos) == Some((n, pos + uvarint_bytes(zigzag_of(n as int) as u64).len())),
{
    lemma_placed_uvarint(data, pos, zigzag_of(n as int) as u64);
    lemma_zigzag_roundtrip(n, 0);
}

/// A record reads back as the record its value holds, and its length field
/// points just past it; the bytes around it are not read.
#[verifier::spinoff_prover]
#[verifier::rlimit(50)]
pub proof fn lemma_record_reads_back(data: Seq<u8>, pos: int, value: Seq<u8>)
    requires
        value.len() > 0,
        value.len() + 16 < 0x8000_0000,
        value_at(value, 0) is Some,
        placed(data, pos, record_bytes(value)),
        data.len() <= usize::MAX,
    ensures
        record_at(data, pos) == Some((value_at(value, 0).unwrap(), pos + record_bytes(value).len())),
{
    reveal(record_at);
    let vl = uvarint_bytes(zigzag_of(value.len() as int) as u64);
    lemma_uvarint_roundtrip(Seq::empty(), zigzag_of(value.len() as int) as u64, Seq::empty());
    let head = seq![0u8, 0u8, 0u8, 1u8];
    let body = head + vl + value + seq![0u8];
    let bl = uvarint_bytes(zigzag_of(body.len() as int) as u64);
    assert(record_bytes(value) == bl + body);
    lemma_placed_split(data, pos, bl, body);
    lemma_placed_zigzag(data, pos, body.len() as i32);
    let p0 = pos + bl.len();
    lemma_placed_split(data, p0, head + vl + value, seq![0u8]);
    lemma_placed_split(data, p0, head + vl, value);
    lemma_placed_split(data, p0, head, vl);
    assert(head =~= seq![0u8] + seq![0u8] + seq![0u8] + seq![1u8]);
    lemma_placed_split(data, p0, seq![0u8] + seq![0u8] + seq![0u8], seq![1u8]);
    lemma_placed_split(data, p0, seq![0u8] + seq![0u8], seq![0u8]);
    lemma_placed_split(data, p0, seq![0u8], seq![0u8]);
    assert(uvarint_bytes(0) =~= seq![0u8]);
    assert(uvarint_bytes(1) =~= seq![1u8]);
    lemma_placed_uvarint(data, p0 + 1, 0);
    lemma_placed_uvarint(data, p0 + 2, 0);
    lemma_placed_uvarint(data, p0 + 3, 1);
    lemma_zigzag_roundtrip(-1i32, 0);
    lemma_zigzag_roundtrip(0i32, 0);
    assert(zigzag_of(-1) == 1);
    lemma_placed_zigzag(data, p0 + 4, value.len() as i32);
    let p5 = p0 + 4 + vl.len();
    let pre = data.subrange(0, p5);
    let post = data.subrange(p5 + value.len(), data.len() as int);
    assert(data =~= pre + value + post);
    lemma_value_at_inside(pre, value, post, 0);
    assert(inside(pre, value, post) == data);
    assert(((body.len() as i32) as usize) as int == body.len());
}

/// A batch (magic 2) holding `values`, each framed as a record: base
/// offset 0, its length, leader epoch 0, magic 2, forty bytes of batch
/// fields, the record count and the records.
pub open spec fn batch_bytes(values: Seq<Seq<u8>>) -> Seq<u8> {
    let records = concat_map(values, |v: Seq<u8>| record_bytes(v));
    let after_length = be_bytes(0, 4) + seq![2u8] + Seq::new(40, |i: int| 0u8) + be_bytes(values.len() as int, 4)
        + records;
    be_bytes(0, 8) + be_bytes(after_length.len() as int, 4) + after_length
}

proof fn lemma_records_read_back(data: Seq<u8>, pos: int, vs: Seq<Seq<u8>>)
    requires
        forall|i: int|
            0 <= i < vs.len() ==> (#[trigger] vs[i]).len() > 0 && vs[i].len() + 16 < 0x8000_0000 && value_at(
                vs[i],
                0,
            ) is Some,
        placed(data, pos, concat_map(vs, |v: Seq<u8>| record_bytes(v))),
        data.len() <= usize::MAX,
    ensures
        records_from(data, pos, vs.len()) == Some(vs.map_values(|v: Seq<u8>| value_at(v, 0).unwrap())),
    decreases vs.len(),
{
    let f = |v: Seq<u8>| record_bytes(v);
    let g = |v: Seq<u8>| value_at(v, 0).unwrap();
    if vs.len() == 0 {
        assert(vs.map_values(g) =~= Seq::<LogRecord>::empty());
    } else {
        let rest = vs.drop_first();
        lemma_concat_map_first(vs, f);
        lemma_placed_split(data, pos, f(vs[0]), concat_map(rest, f));
        lemma_record_reads_back(data, pos, vs[0]);
        assert forall|i: int| 0 <= i < rest.len() implies (#[trigger] rest[i]).len() > 0 && rest[i].len() + 16
            < 0x8000_0000 && value_at(rest[i], 0) is Some by {
            assert(rest[i] == vs[i + 1]);
        }
        lemma_records_read_back(data, pos + f(vs[0]).len(), rest);
        assert(seq![g(vs[0])] + rest.map_values(g) =~= vs.map_values(g));
        assert((vs.len() - 1) as nat == rest.len());
    }
}

/// A batch reads back as the records its values hold, in order, and the
/// log that is this one batch holds exactly those records.
#[verifier::spinoff_prover]
#[verifier::rlimit(50)]
pub proof fn lemma_batch_reads_back(values: Seq<Seq<u8>>)
    requires
        forall|i: int|
            0 <= i < values.len() ==> (#[trigger] values[i]).len() > 0 && values[i].len() + 16 < 0x8000_0000
                && value_at(values[i], 0) is Some,
        batch_bytes(values).len() < 0x8000_0000,
    ensures
        batches_from(batch_bytes(values), 0) == Some(values.map_values(|v: Seq<u8>| value_at(v, 0).unwrap())),
{
    let d = batch_bytes(values);
    let records = concat_map(values, |v: Seq<u8>| record_bytes(v));
    let z40 = Seq::new(40, |i: int| 0u8);
    let after_length = be_bytes(0, 4) + seq![2u8] + z40 + be_bytes(values.len() as int, 4) + records;
    let b8 = be_bytes(0, 8);
    let bl = be_bytes(after_length.len() as int, 4);
    lemma_be_bytes_len(0, 8);
    lemma_be_bytes_len(0, 4);
    lemma_be_bytes_len(after_length.len() as int, 4);
    lemma_be_bytes_len(values.len() as int, 4);
    assert(d.subrange(0, d.len() as int) =~= d);
    lemma_placed_split(d, 0, b8 + bl, after_length);
    lemma_placed_split(d, 0, b8, bl);
    assert(after_length.len() < 0x8000_0000);
    assert((after_length.len() as i32) as int == after_length.len());
    assert(values.len() <= records.len()) by {
        assert forall|i: int| 0 <= i < values.len() implies #[trigger] record_bytes(values[i]).len() >= 1 by {}
        lemma_concat_map_at_least(values, |v: Seq<u8>| record_bytes(v));
    }
    assert((values.len() as i32) as int == values.len());
    lemma_placed_ints(d, 8, 0, after_length.len() as i32, 0);
    assert(d.subrange(8, 12) == bl);
    assert(d.len() == 12 + after_length.len());
    let c4 = be_bytes(values.len() as int, 4);
    lemma_placed_split(d, 12, be_bytes(0, 4) + seq![2u8] + z40 + c4, records);
    lemma_placed_split(d, 12, be_bytes(0, 4) + seq![2u8] + z40, c4);
    lemma_placed_split(d, 12, be_bytes(0, 4) + seq![2u8], z40);
    lemma_placed_split(d, 12, be_bytes(0, 4), seq![2u8]);
    lemma_placed_byte(d, 16, 2u8);
    lemma_placed_ints(d, 57, 0, values.len() as i32, 0);
    lemma_records_read_back(d, 61, values);
    assert(((after_length.len() as i32) as usize) as int == after_length.len());
    assert(batches_from(d, d.len() as int) == Some(Seq::<LogRecord>::empty()));
    let es = values.map_values(|v: Seq<u8>| value_at(v, 0).unwrap());
    assert(es + Seq::<LogRecord>::empty() =~= es);
}

/// The exec form of a record.
enum Record {
    Topic(String, [u8; 16]),
    Partition([u8; 16], Partition),
    Other,
}

spec fn record_matches(r: Record, e: LogRecord) -> bool {
    match r {
        Record::Topic(n, id) => e matches LogRecord::TopicRecord { name, id: eid } && n@ == text_of(
            name,
        ) && id@ == eid,
        Record::Partition(id, p) => e matches LogRecord::PartitionRecord { id: eid, partition } && id@
            == eid && p@ == partition,
        Record::Other => e is Other,
    }
}

/// The view of the broker's working state.
spec fn state_of(names: Seq<(String, [u8; 16])>, parts: Seq<([u8; 16], Partition)>) -> MetadataState {
    MetadataState {
        names: names.map_values(|e: (String, [u8; 16])| (e.0@, e.1@)),
        parts: parts.map_values(|e: ([u8; 16], Partition)| (e.0@, e.1@)),
    }
}

/// Reads the fields of a `PartitionRecord` value at `pos`.
fn read_partition_record(data: &[u8], pos: usize) -> (r: Option<([u8; 16], Partition)>)
    ensures
        match partition_record_at(data@, pos as int) {
            Some((id, pv)) => r matches Some((rid, rp)) && rid@ == id && rp@ == pv,
            None => r is None,
        },
{
    let mut pos = pos;
    let index = match read_i32(data, &mut pos) {
        Some(v) => v,
        None => return None,
    };
    let topic_id = match read_uuid(data, &mut pos) {
        Some(v) => v,
        None => return None,
    };
    let replica_nodes = match read_compact_array_i32(data, &mut pos) {
        Some(v) => v,
        None => return None,
    };
    let isr_nodes = match read_compact_array_i32(data, &mut pos) {
        Some(v) => v,
        None => return None,
    };
    if read_compact_array_i32(data, &mut pos).is_none() {
        return None;
    }
    if read_compact_array_i32(data, &mut pos).is_none() {
        return None;
    }
    let leader_id = match read_i32(data, &mut pos) {
        Some(v) => v,
        None => return None,
    };
    let leader_epoch = match read_i32(data, &mut pos) {
        Some(v) => v,
        None => return None,
    };
    Some((topic_id, Partition::new(index, leader_id, leader_epoch, replica_nodes, isr_nodes)))
}

/// Reads a record value at `pos`.
fn read_value(data: &[u8], pos: usize) -> (r: Option<Record>)
    ensures
        match value_at(data@, pos as int) {
            Some(e) => r is Some && record_matches(r->0, e),
            None => r is None,
        },
{
    if data.len() < 3 || pos > data.len() - 3 {
        return None;
    }
    let record_type = data[pos + 1];
    if record_type == 2 {
        let mut p = pos + 3;
        let name = match read_compact_string(data, &mut p) {
            Some(s) => s,
            None => return None,
        };
        let topic_id = match read_uuid(data, &mut p) {
            Some(v) => v,
            None => return None,
        };
        Some(Record::Topic(name, topic_id))
    } else if record_type == 3 {
        match read_partition_record(data, pos + 3) {
            Some((id, p)) => Some(Record::Partition(id, p)),
            None => None,
        }
    } else {
        Some(Record::Other)
    }
}

/// Reads the record at `*pos` and moves to where its length points.
fn read_record(data: &[u8], pos: &mut usize) -> (r: Option<Record>)
    ensures
        match record_at(data@, *old(pos) as int) {
            Some((e, end)) => r is Some && record_matches(r->0, e) && *final(pos) as int == end,
            None => r is None,
        },
{
    reveal(record_at);
    let rec_len = match read_varint(data, pos) {
        Some(v) => v,
        None => return None,
    };
    let p0 = *pos;
    let rl = rec_len as usize;
    if rl > usize::MAX - p0 || p0 == usize::MAX {
        return None;
    }
    let rec_end = p0 + rl;
    *pos = p0 + 1;
    if read_varlong(data, pos).is_none() {
        return None;
    }
    if read_varint(data, pos).is_none() {
        return None;
    }
    let key_len = match read_varint(data, pos) {
        Some(v) => v,
        None => return None,
    };
    if key_len > 0 {
        let k = key_len as usize;
        if *pos > usize::MAX - k {
            return None;
        }
        *pos = *pos + k;
    }
    let val_len = match read_varint(data, pos) {
        Some(v) => v,
        None => return None,
    };
    let rec = if val_len > 0 {
        match read_value(data, *pos) {
            Some(r) => r,
            None => return None,
        }
    } else {
        Record::Other
    };
    *pos = rec_end;
    Some(rec)
}

proof fn lemma_upsert_distinct<K, V>(s: Seq<(K, V)>, k: K, v: V)
    requires
        distinct_keys(s),
    ensures
        distinct_keys(upsert(s, k, v)),
{
    lemma_key_index(s, k);
    let t = upsert(s, k, v);
    assert forall|a: int, b: int| 0 <= a < b < t.len() implies t[a].0 != t[b].0 by {
        if key_index(s, k) < 0 && b == s.len() {
            assert(t[a] == s[a]);
        }
    }
}

/// Applies one record to the broker's working state.
fn apply(
    names: &mut Vec<(String, [u8; 16])>,
    parts: &mut Vec<([u8; 16], Partition)>,
    rec: Record,
    Ghost(e): Ghost<LogRecord>,
)
    requires
        record_matches(rec, e),
        distinct_keys(state_of(old(names)@, old(parts)@).names),
    ensures
        state_of(final(names)@, final(parts)@) == apply_record(state_of(old(names)@, old(parts)@), e),
        distinct_keys(state_of(final(names)@, final(parts)@).names),
{
    let ghost s = state_of(names@, parts@);
    match rec {
        Record::Topic(name, id) => {
            proof {
                lemma_upsert_distinct(s.names, name@, id@);
                lemma_key_index(s.names, name@);
            }
            assert(names@.map_values(|e: (String, [u8; 16])| (e.0@, e.1@)) == s.names);
            match position_of(names, &name) {
                Some(i) => {
                    names.set(i, (name, id));
                },
                None => {
                    names.push((name, id));
                },
            }
            assert(state_of(names@, parts@).names =~= upsert(s.names, text_of(e->name), e->TopicRecord_id));
            assert(state_of(names@, parts@).parts =~= s.parts);
        },
        Record::Partition(id, p) => {
            parts.push((id, p));
            assert(state_of(names@, parts@).parts =~= s.parts.push((id@, p@)));
            assert(state_of(names@, parts@).names =~= s.names);
        },
        Record::Other => {},
    }
}

/// Whether two topic ids are the same.
fn same_id(a: &[u8; 16], b: &[u8; 16]) -> (r: bool)
    ensures
        r == (a@ == b@),
{
    let mut i: usize = 0;
    while i < 16
        invariant
            i <= 16,
            forall|j: int| 0 <= j < i ==> a@[j] == b@[j],
        decreases 16 - i,
    {
        if a[i] != b[i] {
            return false;
        }
        i = i + 1;
    }
    assert(a@ =~= b@);
    true
}

/// Splits the partitions into those of topic id `id` and the others, each
/// in order.
fn take_partitions(parts: Vec<([u8; 16], Partition)>, id: &[u8; 16]) -> (r: (
    Vec<Partition>,
    Vec<([u8; 16], Partition)>,
))
    ensures
        partition_views(r.0@) == with_id(state_of(Seq::empty(), parts@).parts, id@),
        state_of(Seq::empty(), r.1@).parts == without_id(state_of(Seq::empty(), parts@).parts, id@),
{
    let ghost p0 = state_of(Seq::empty(), parts@).parts;
    let mut src = parts;
    let mut taken: Vec<Partition> = Vec::new();
    let mut kept: Vec<([u8; 16], Partition)> = Vec::new();
    assert(partition_views(taken@) =~= Seq::<PartitionView>::empty());
    assert(state_of(Seq::empty(), kept@).parts =~= Seq::<(Seq<u8>, PartitionView)>::empty());
    while src.len() > 0
        invariant
            with_id(p0, id@) == partition_views(taken@) + with_id(state_of(Seq::empty(), src@).parts, id@),
            without_id(p0, id@) == state_of(Seq::empty(), kept@).parts + without_id(
                state_of(Seq::empty(), src@).parts,
                id@,
            ),
        decreases src@.len(),
    {
        let ghost v = state_of(Seq::empty(), src@).parts;
        let e = src.remove(0);
        assert(state_of(Seq::empty(), src@).parts =~= v.drop_first());
        assert(v[0] == (e.0@, e.1@));
        if same_id(&e.0, id) {
            let ghost tv = partition_views(taken@);
            taken.push(e.1);
            assert(partition_views(taken@) =~= tv.push(e.1@));
            assert(tv.push(e.1@) + with_id(v.drop_first(), id@) =~= tv + (seq![e.1@] + with_id(
                v.drop_first(),
                id@,
            )));
        } else {
            let ghost kv = state_of(Seq::empty(), kept@).parts;
            kept.push(e);
            assert(state_of(Seq::empty(), kept@).parts =~= kv.push(v[0]));
            assert(kv.push(v[0]) + without_id(v.drop_first(), id@) =~= kv + (seq![v[0]] + without_id(
                v.drop_first(),
                id@,
            )));
        }
    }
    assert(with_id(state_of(Seq::empty(), src@).parts, id@) =~= Seq::<PartitionView>::empty());
    assert(partition_views(taken@) + Seq::<PartitionView>::empty() =~= partition_views(taken@));
    assert(state_of(Seq::empty(), kept@).parts + Seq::<(Seq<u8>, PartitionView)>::empty()
        =~= state_of(Seq::empty(), kept@).parts);
    (taken, kept)
}

/// The topics that the working state describes.
fn assemble_topics(names: Vec<(String, [u8; 16])>, parts: Vec<([u8; 16], Partition)>) -> (m: NameMap<
    Topic,
>)
    requires
        distinct_keys(state_of(names@, parts@).names),
    ensures
        m.well_formed(),
        m.spec_entries() == assemble(state_of(names@, parts@).names, state_of(names@, parts@).parts),
{
    let ghost nv = state_of(names@, parts@).names;
    let ghost target = assemble(nv, state_of(names@, parts@).parts);
    let mut out: Vec<(String, Topic)> = Vec::new();
    let mut rest = parts;
    let mut i: usize = 0;
    assert(nv.skip(0) =~= nv);
    assert(out@.map_values(|e: (String, Topic)| (e.0@, e.1@)) + target =~= target);
    while i < names.len()
        invariant
            i <= names@.len(),
            nv == state_of(names@, Seq::empty()).names,
            nv.len() == names@.len(),
            distinct_keys(nv),
            out@.len() == i,
            forall|j: int| 0 <= j < i ==> (#[trigger] out@[j]).0@ == nv[j].0,
            target == out@.map_values(|e: (String, Topic)| (e.0@, e.1@)) + assemble(
                nv.skip(i as int),
                state_of(Seq::empty(), rest@).parts,
            ),
        decreases names@.len() - i,
    {
        let ghost ov = out@.map_values(|e: (String, Topic)| (e.0@, e.1@));
        let ghost rv = state_of(Seq::empty(), rest@).parts;
        assert(nv.skip(i as int)[0] == nv[i as int]);
        assert(nv.skip(i as int).drop_first() =~= nv.skip(i + 1));
        let name = names[i].0.clone();
        let id = names[i].1;
        assert(nv[i as int] == (name@, id@));
        let (taken, r2) = take_partitions(rest, &id);
        let topic = Topic::new(id, taken);
        out.push((name, topic));
        rest = r2;
        assert(out@.map_values(|e: (String, Topic)| (e.0@, e.1@)) =~= ov.push((name@, topic@)));
        assert(ov.push((name@, topic@)) + assemble(nv.skip(i + 1), state_of(Seq::empty(), rest@).parts)
            =~= ov + (seq![(name@, topic@)] + assemble(
            nv.skip(i + 1),
            state_of(Seq::empty(), rest@).parts,
        )));
        i = i + 1;
    }
    assert(nv.skip(i as int) =~= Seq::<(Seq<char>, Seq<u8>)>::empty());
    let ghost ov = out@.map_values(|e: (String, Topic)| (e.0@, e.1@));
    assert(ov + Seq::<(Seq<char>, TopicView)>::empty() =~= ov);
    assert forall|a: int, b: int| 0 <= a < b < ov.len() implies ov[a].0 != ov[b].0 by {
        assert(out@[a].0@ == nv[a].0);
        assert(out@[b].0@ == nv[b].0);
    }
    NameMap::from_entries(out)
}

/// Applies the `n` records from `*pos` to the working state; `false` where
/// one of them cannot be read.
fn process_records(
    data: &[u8],
    pos: &mut usize,
    n: u32,
    Ghost(batch_end): Ghost<int>,
    names: &mut Vec<(String, [u8; 16])>,
    parts: &mut Vec<([u8; 16], Partition)>,
) -> (ok: bool)
    requires
        distinct_keys(state_of(old(names)@, old(parts)@).names),
    ensures
        distinct_keys(state_of(final(names)@, final(parts)@).names),
        ok ==> after_records(data@, *old(pos) as int, n as nat, batch_end, state_of(old(names)@, old(parts)@))
            == continue_from(data@, batch_end, state_of(final(names)@, final(parts)@)),
        !ok ==> after_records(data@, *old(pos) as int, n as nat, batch_end, state_of(old(names)@, old(parts)@)) is None,
{
    let ghost target = after_records(data@, *pos as int, n as nat, batch_end, state_of(names@, parts@));
    let mut k: u32 = 0;
    while k < n
        invariant
            k <= n,
            target == after_records(data@, *old(pos) as int, n as nat, batch_end, state_of(old(names)@, old(parts)@)),
            target == after_records(data@, *pos as int, (n - k) as nat, batch_end, state_of(names@, parts@)),
            distinct_keys(state_of(names@, parts@).names),
        decreases n - k,
    {
        let ghost before = *pos as int;
        let rec = match read_record(data, pos) {
            Some(r) => r,
            None => {
                assert(records_from(data@, before, (n - k) as nat) is None);
                return false;
            },
        };
        let ghost e = record_at(data@, before).unwrap().0;
        proof {
            lemma_after_records_step(data@, before, (n - k) as nat, batch_end, state_of(names@, parts@));
        }
        apply(names, parts, rec, Ghost(e));
        k = k + 1;
    }
    assert(fold_records(state_of(names@, parts@), Seq::empty()) == state_of(names@, parts@));
    true
}

/// What reading one batch comes to.
enum BatchStep {
    /// Go on with the batch that starts here.
    Next(usize),
    /// The log ends here.
    Stop,
    /// A read ran past the end or a position overflowed.
    Fail,
}

/// Reads the batch at `pos` into the working state.
fn process_batch(
    data: &[u8],
    pos: usize,
    names: &mut Vec<(String, [u8; 16])>,
    parts: &mut Vec<([u8; 16], Partition)>,
) -> (r: BatchStep)
    requires
        pos + 12 <= data.len(),
        distinct_keys(state_of(old(names)@, old(parts)@).names),
    ensures
        distinct_keys(state_of(final(names)@, final(parts)@).names),
        match r {
            BatchStep::Next(q) => pos < q <= data@.len() && continue_from(
                data@,
                pos as int,
                state_of(old(names)@, old(parts)@),
            ) == continue_from(data@, q as int, state_of(final(names)@, final(parts)@)),
            BatchStep::Stop => continue_from(data@, pos as int, state_of(old(names)@, old(parts)@))
                == Some(state_of(final(names)@, final(parts)@)),
            BatchStep::Fail => continue_from(data@, pos as int, state_of(old(names)@, old(parts)@)) is None,
        },
{
    let batch_length = i32_from_be(data[pos + 8], data[pos + 9], data[pos + 10], data[pos + 11]);
    assert(data@.subrange(pos + 8, pos + 12) =~= seq![data@[pos + 8], data@[pos + 9], data@[pos + 10], data@[pos + 11]]);
    let p = pos + 12;
    let bl = batch_length as usize;
    if bl > usize::MAX - p {
        return BatchStep::Fail;
    }
    let batch_end = p + bl;
    if batch_end > data.len() {
        assert(fold_records(state_of(names@, parts@), Seq::empty()) == state_of(names@, parts@));
        return BatchStep::Stop;
    }
    if data.len() - p <= 4 {
        return BatchStep::Fail;
    }
    if data[p + 4] != 2 {
        return BatchStep::Next(batch_end);
    }
    if data.len() - p < 45 {
        return BatchStep::Fail;
    }
    let mut rpos: usize = p + 45;
    let count = match read_i32(data, &mut rpos) {
        Some(c) => c,
        None => return BatchStep::Fail,
    };
    let n: u32 = if count > 0 {
        count as u32
    } else {
        0
    };
    proof {
        lemma_magic_batch(data@, pos as int, state_of(names@, parts@));
    }
    if process_records(data, &mut rpos, n, Ghost(batch_end as int), names, parts) {
        BatchStep::Next(batch_end)
    } else {
        BatchStep::Fail
    }
}

/// Reads the topics of a cluster-metadata log. `None` exactly where reading
/// would run past the end of the log or overflow a position.
pub fn parse(data: &[u8]) -> (r: Option<NameMap<Topic>>)
    ensures
        match cluster_topics(data@) {
            Some(es) => r matches Some(m) && m.well_formed() && m.spec_entries() == es,
            None => r is None,
        },
{
    let mut names: Vec<(String, [u8; 16])> = Vec::new();
    let mut parts: Vec<([u8; 16], Partition)> = Vec::new();
    let mut pos: usize = 0;
    let ghost target = cluster_state(data@);
    assert(state_of(names@, parts@).names =~= empty_state().names);
    assert(state_of(names@, parts@).parts =~= empty_state().parts);
    while data.len() >= 12 && pos <= data.len() - 12
        invariant
            pos <= data@.len(),
            target == cluster_state(data@),
            target == continue_from(data@, pos as int, state_of(names@, parts@)),
            distinct_keys(state_of(names@, parts@).names),
        decreases data@.len() - pos,
    {
        match process_batch(data, pos, &mut names, &mut parts) {
            BatchStep::Next(q) => {
                pos = q;
            },
            BatchStep::Stop => {
                return Some(assemble_topics(names, parts));
            },
            BatchStep::Fail => {
                return None;
            },
        }
    }
    assert(fold_records(state_of(names@, parts@), Seq::empty()) == state_of(names@, parts@));
    Some(assemble_topics(names, parts))
}

} // verus!
