use std::collections::BTreeMap;

use bytes::Bytes;
use roaring::RoaringTreemap;
use turbolay_graph::bitmap::{read_bitmap, without};
use turbolay_graph::error::{Error, Fault};
use turbolay_graph::fixed::{
    decode_i64_le, decode_u64_be, decode_u64_le, encode_u32_le, encode_u64_be, encode_u64_le,
};
use turbolay_graph::ids::{Direction, LabelId, PredId, SchemaKind, Uid};
use turbolay_graph::merge::merge_node_record;
use turbolay_graph::node::NodeRecord;
use turbolay_graph::schema::SchemaCache;
use turbolay_graph::stats::{record_write_outcome, Outcome, Phase, WriteOp, WriteStats};
use turbolay_graph::store::{bump_degree, degree_key, latest_seq_key, Key, RecordOp};
use turbolay_graph::value::TypedValue;

fn labels(ids: &[u32]) -> Vec<LabelId> {
    ids.iter().map(|id| LabelId(*id)).collect()
}

fn meta(key: Key) -> Vec<u8> {
    match key {
        Key::Meta(name) => name.to_vec(),
        _ => panic!("not a meta key"),
    }
}

#[test]
fn integers_have_exact_encodings() {
    assert_eq!(encode_u32_le(0x01020304).as_ref(), [4, 3, 2, 1]);
    assert_eq!(encode_u64_le(0x0102).as_ref(), [2, 1, 0, 0, 0, 0, 0, 0]);
    assert_eq!(encode_u64_be(0x0102).as_ref(), [0, 0, 0, 0, 0, 0, 1, 2]);
}

#[test]
fn integers_read_back_as_written() {
    for v in [0, 1, 0x0102030405060708, u64::MAX] {
        assert_eq!(decode_u64_le(&encode_u64_le(v), "n"), Ok(v));
        assert_eq!(decode_u64_be(&encode_u64_be(v), "n"), Ok(v));
    }
    assert_eq!(decode_u64_be(&[1, 2, 3, 4, 5, 6, 7, 8], "n"), Ok(0x0102030405060708));
    assert_eq!(decode_i64_le(&[0xff; 8], "n"), Ok(-1));
    assert_eq!(decode_i64_le(&[0, 0, 0, 0, 0, 0, 0, 0x80], "n"), Ok(i64::MIN));
    assert_eq!(decode_i64_le(&[5, 0, 0, 0, 0, 0, 0, 0], "n"), Ok(5));
}

#[test]
fn integers_of_another_width_are_refused() {
    let fault = Err(Error::Encoding(Fault::WrongWidth { what: "n", got: 7 }));
    assert_eq!(decode_u64_le(&[0; 7], "n"), fault);
    assert_eq!(decode_u64_be(&[0; 7], "n"), fault);
    assert_eq!(
        decode_i64_le(&[0; 9], "n"),
        Err(Error::Encoding(Fault::WrongWidth { what: "n", got: 9 }))
    );
}

#[test]
fn degree_keys_are_exact() {
    let mut expected = b"count/".to_vec();
    expected.extend([0, 0, 0, 7, 0, 0, 0, 0, 0, 0, 0, 1, 2]);
    assert_eq!(meta(degree_key(PredId(7), Direction::Out, Uid(0x0102))), expected);
    assert_eq!(meta(latest_seq_key()), b"latest_seq");
}

#[test]
fn every_counter_has_a_key_of_its_own() {
    let base = meta(degree_key(PredId(1), Direction::Out, Uid(1)));
    assert_ne!(base, meta(degree_key(PredId(2), Direction::Out, Uid(1))));
    assert_ne!(base, meta(degree_key(PredId(1), Direction::In, Uid(1))));
    assert_ne!(base, meta(degree_key(PredId(1), Direction::Out, Uid(2))));
    assert_ne!(base, meta(latest_seq_key()));
}

#[test]
fn a_bump_is_a_signed_operand() {
    match bump_degree(PredId(1), Direction::In, Uid(9), -1) {
        RecordOp::Merge { key, operand } => {
            assert_eq!(meta(key), meta(degree_key(PredId(1), Direction::In, Uid(9))));
            assert_eq!(operand.as_ref(), [0xff; 8]);
        }
        _ => panic!("not a merge"),
    }
}

#[test]
fn a_new_node_has_its_labels_sorted_and_once() {
    let (node, delta) = merge_node_record(
        None,
        labels(&[9, 2, 9, 5]),
        BTreeMap::new(),
        "n".to_string(),
    );
    assert_eq!(node.labels, labels(&[2, 5, 9]));
    assert_eq!(delta.added, labels(&[2, 5, 9]));
    assert!(delta.removed.is_empty());
    assert_eq!(node.xid, "n");
}

#[test]
fn labels_add_up_and_properties_overlay() {
    let mut before = BTreeMap::new();
    before.insert(1, TypedValue::Int(1));
    before.insert(2, TypedValue::Int(2));
    let prior = NodeRecord { labels: labels(&[7, 3]), props: before, xid: "old".to_string() };
    let mut new_props = BTreeMap::new();
    new_props.insert(2, TypedValue::Int(20));
    new_props.insert(3, TypedValue::Int(30));
    let (node, delta) =
        merge_node_record(Some(prior), labels(&[3, 1]), new_props, "new".to_string());
    assert_eq!(node.labels, labels(&[1, 3, 7]));
    assert_eq!(delta.added, labels(&[1]));
    assert!(delta.removed.is_empty());
    assert_eq!(node.props.len(), 3);
    assert_eq!(node.props.get(&1), Some(&TypedValue::Int(1)));
    assert_eq!(node.props.get(&2), Some(&TypedValue::Int(20)));
    assert_eq!(node.props.get(&3), Some(&TypedValue::Int(30)));
    assert_eq!(node.xid, "new");
}

#[test]
fn merging_the_same_again_changes_nothing() {
    let mut props = BTreeMap::new();
    props.insert(4, TypedValue::Bool(true));
    let (once, _) = merge_node_record(None, labels(&[2, 1]), props, "n".to_string());
    let bytes_before = once.labels.clone();
    let mut props = BTreeMap::new();
    props.insert(4, TypedValue::Bool(true));
    let (twice, delta) = merge_node_record(Some(once), labels(&[2, 1]), props, "n".to_string());
    assert_eq!(twice.labels, bytes_before);
    assert_eq!(twice.props.get(&4), Some(&TypedValue::Bool(true)));
    assert!(delta.added.is_empty());
}

#[test]
fn a_cache_knows_the_last_id_of_a_name() {
    let mut cache = SchemaCache::new();
    assert_eq!(cache.id_of(SchemaKind::Label, "Person"), None);
    cache.insert(SchemaKind::Label, 3, "Person");
    cache.insert(SchemaKind::Predicate, 4, "Person");
    cache.insert(SchemaKind::Label, 5, "Place");
    assert_eq!(cache.id_of(SchemaKind::Label, "Person"), Some(3));
    assert_eq!(cache.id_of(SchemaKind::Predicate, "Person"), Some(4));
    assert_eq!(cache.id_of(SchemaKind::PropertyKey, "Person"), None);
    cache.insert(SchemaKind::Label, 8, "Person");
    assert_eq!(cache.id_of(SchemaKind::Label, "Person"), Some(8));
}

#[test]
fn a_stored_bitmap_is_read() {
    let set: RoaringTreemap = [1u64, 5, 1 << 40].into_iter().collect();
    let mut bytes = Vec::new();
    set.serialize_into(&mut bytes).unwrap();
    assert_eq!(read_bitmap(&Some(Bytes::from(bytes)), "deleted").unwrap(), set);
    assert!(read_bitmap(&None, "deleted").unwrap().is_empty());
}

#[test]
fn a_corrupt_bitmap_is_refused() {
    let cause = RoaringTreemap::deserialize_from(&[9u8, 9, 9][..]).unwrap_err().to_string();
    assert_eq!(
        read_bitmap(&Some(Bytes::from_static(&[9, 9, 9])), "deleted"),
        Err(Error::Encoding(Fault::CorruptBitmap { what: "deleted", cause }))
    );
}

#[test]
fn deleted_members_are_taken_off() {
    let posting: RoaringTreemap = (1u64..6).collect();
    let deleted: RoaringTreemap = [2u64, 4, 9].into_iter().collect();
    let live: Vec<u64> = without(posting, &deleted).iter().collect();
    assert_eq!(live, vec![1, 3, 5]);
}

#[test]
fn only_what_was_measured_is_reported_and_in_order() {
    let stats = WriteStats {
        latest_seq: Some(6),
        encode_out: Some(2),
        batch_commit: Some(5),
        ..WriteStats::default()
    };
    let (phases, seq) = stats.emit(77);
    assert_eq!(
        phases,
        vec![(Phase::EncodeOut, 2), (Phase::BatchCommit, 5), (Phase::LatestSeq, 6)]
    );
    assert_eq!(seq, 77);
    assert!(WriteStats::default().emit(0).0.is_empty());
    let all = WriteStats {
        encode_node: Some(1),
        encode_out: Some(2),
        encode_in: Some(3),
        index_fanout: Some(4),
        batch_commit: Some(5),
        latest_seq: Some(6),
    };
    assert_eq!(all.emit(1).0.len(), 6);
}

#[test]
fn outcomes_tell_an_oversize_node_from_other_failures() {
    assert_eq!(
        record_write_outcome(WriteOp::UpsertEdge, &Ok(3)),
        (WriteOp::UpsertEdge, Outcome::Committed)
    );
    assert_eq!(
        record_write_outcome(WriteOp::UpsertNode, &Err(Error::OversizeNode { size: 2, cap: 1 })),
        (WriteOp::UpsertNode, Outcome::OversizeNode)
    );
    assert_eq!(
        record_write_outcome(WriteOp::Delete, &Err(Error::Storage)),
        (WriteOp::Delete, Outcome::Failed)
    );
    assert_eq!(
        record_write_outcome(WriteOp::Delete, &Err(Error::Encoding(Fault::TruncatedCount))).1,
        Outcome::Failed
    );
}

#[test]
fn ids_give_their_numbers() {
    assert_eq!(Uid(7).get(), 7);
    assert_eq!(PredId(8).get(), 8);
    assert_eq!(LabelId(9).get(), 9);
    assert_eq!(Direction::Out.as_byte(), 0);
    assert_eq!(Direction::In.as_byte(), 1);
}
