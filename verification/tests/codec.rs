use std::collections::BTreeMap;

use bytes::{BufMut, Bytes, BytesMut};
use turbolay_graph::change::{ChangeOp, ChangeRecord, LabelDelta};
use turbolay_graph::error::{Error, Fault, Part};
use turbolay_graph::ids::{LabelId, PredId, Uid};
use turbolay_graph::node::{NodeCodec, NodeRecord, V0NodeCodec, DEFAULT_NODE_SIZE_CAP};
use turbolay_graph::props::{decode_edge_props, encodable, encode_edge_props, EdgeProps};
use turbolay_graph::text::utf8_text;
use turbolay_graph::value::TypedValue;

fn float(x: f64) -> TypedValue {
    TypedValue::Float(x.to_bits())
}

fn v0_roundtrip(record: &NodeRecord) {
    let bytes = V0NodeCodec::encode(record).unwrap();
    assert_eq!(V0NodeCodec::decode(&bytes).unwrap(), *record);
}

fn encoded(v: &TypedValue) -> Vec<u8> {
    let mut buf = BytesMut::new();
    v.write_to(&mut buf);
    buf.to_vec()
}

fn plain_change(seq: u64, op: ChangeOp) -> ChangeRecord {
    ChangeRecord {
        seq,
        op,
        subject_uid: Uid(1),
        pred_id: None,
        object_uid: None,
        value: None,
        label_delta: None,
    }
}

#[test]
fn should_roundtrip_typed_value_every_variant() {
    let values = [
        TypedValue::Null,
        TypedValue::Bool(true),
        TypedValue::Bool(false),
        TypedValue::Int(i64::MIN),
        TypedValue::Int(i64::MAX),
        float(1.5),
        float(-0.0),
        TypedValue::String(String::new()),
        TypedValue::String("hello, 世界!".to_string()),
        TypedValue::Bytes(Bytes::from_static(b"\x00\x01\xff")),
        TypedValue::DateTime(1_700_000_000_000),
    ];
    for v in values {
        let mut buf = BytesMut::new();
        v.write_to(&mut buf);
        let mut cur = &buf[..];
        let back = TypedValue::read_from(&mut cur).unwrap();
        assert_eq!(back, v);
        assert!(cur.is_empty());
    }
}

#[test]
fn should_roundtrip_node_record_with_labels_props_and_xid() {
    let mut props = BTreeMap::new();
    props.insert(1, TypedValue::String("Alice".to_string()));
    props.insert(2, TypedValue::Int(30));
    let record = NodeRecord {
        labels: vec![LabelId(5), LabelId(9)],
        props,
        xid: "user:alice".to_string(),
    };
    v0_roundtrip(&record);
}

#[test]
fn should_roundtrip_node_record_with_no_labels_or_props() {
    let record = NodeRecord {
        labels: Vec::new(),
        props: BTreeMap::new(),
        xid: String::new(),
    };
    v0_roundtrip(&record);
}

#[test]
fn should_reject_oversize_node() {
    let mut props = BTreeMap::new();
    props.insert(1, TypedValue::Bytes(Bytes::from(vec![0u8; 100])));
    let record = NodeRecord {
        labels: Vec::new(),
        props,
        xid: String::new(),
    };
    assert!(V0NodeCodec::encode_with_cap(&record, 10).is_err());
    assert!(V0NodeCodec::encode_with_cap(&record, 10_000).is_ok());
}

#[test]
fn should_reject_truncated_and_trailing_node_record_bytes() {
    let mut props = BTreeMap::new();
    props.insert(1, TypedValue::Int(7));
    let record = NodeRecord {
        labels: vec![LabelId(1)],
        props,
        xid: "x".to_string(),
    };
    let bytes = V0NodeCodec::encode(&record).unwrap();

    for cut in 0..bytes.len() {
        assert!(V0NodeCodec::decode(&bytes[..cut]).is_err());
    }
    let mut extended = bytes.to_vec();
    extended.push(0xAB);
    assert!(V0NodeCodec::decode(&extended).is_err());
}

#[test]
fn should_roundtrip_edge_props_empty_and_populated() {
    let empty: EdgeProps = BTreeMap::new();
    assert_eq!(
        decode_edge_props(&encode_edge_props(&empty)).unwrap(),
        empty
    );

    let mut props: EdgeProps = BTreeMap::new();
    props.insert(1, TypedValue::String("blue".to_string()));
    props.insert(2, TypedValue::Int(42));
    props.insert(3, TypedValue::Null);
    assert_eq!(
        decode_edge_props(&encode_edge_props(&props)).unwrap(),
        props
    );
}

#[test]
fn should_reject_truncated_and_trailing_edge_props_bytes() {
    let mut props: EdgeProps = BTreeMap::new();
    props.insert(1, TypedValue::Bool(true));
    props.insert(9, float(1.5));
    let bytes = encode_edge_props(&props);

    for cut in 0..bytes.len() {
        assert!(decode_edge_props(&bytes[..cut]).is_err());
    }
    let mut extended = bytes.to_vec();
    extended.push(0xAB);
    assert!(decode_edge_props(&extended).is_err());
}

#[test]
fn should_roundtrip_change_record_upsert_node_with_label_delta() {
    let record = ChangeRecord {
        seq: 42,
        op: ChangeOp::UpsertNode,
        subject_uid: Uid(1),
        pred_id: None,
        object_uid: None,
        value: Some(TypedValue::Int(9)),
        label_delta: Some(LabelDelta {
            added: vec![LabelId(1), LabelId(2)],
            removed: vec![LabelId(3)],
        }),
    };
    let bytes = record.encode();
    assert_eq!(ChangeRecord::decode(&bytes).unwrap(), record);
}

#[test]
fn should_roundtrip_change_record_upsert_edge() {
    let record = ChangeRecord {
        seq: 7,
        op: ChangeOp::UpsertEdge,
        subject_uid: Uid(10),
        pred_id: Some(PredId(3)),
        object_uid: Some(Uid(20)),
        value: None,
        label_delta: None,
    };
    let bytes = record.encode();
    assert_eq!(ChangeRecord::decode(&bytes).unwrap(), record);
}

#[test]
fn should_roundtrip_change_record_delete_ops() {
    for op in [ChangeOp::DeleteNode, ChangeOp::DeleteEdge] {
        let record = ChangeRecord {
            seq: 1,
            op,
            subject_uid: Uid(1),
            pred_id: None,
            object_uid: None,
            value: None,
            label_delta: None,
        };
        let bytes = record.encode();
        assert_eq!(ChangeRecord::decode(&bytes).unwrap(), record);
    }
}

#[test]
fn should_reject_unknown_change_record_op_byte() {
    let mut buf = BytesMut::new();
    buf.put_u64_le(1);
    buf.put_u8(0xFF);
    assert!(ChangeRecord::decode(&buf).is_err());
}

#[test]
fn should_reject_truncated_and_trailing_change_record_bytes() {
    let record = ChangeRecord {
        seq: 1,
        op: ChangeOp::UpsertEdge,
        subject_uid: Uid(1),
        pred_id: Some(PredId(1)),
        object_uid: Some(Uid(2)),
        value: Some(TypedValue::Bool(true)),
        label_delta: Some(LabelDelta::default()),
    };
    let bytes = record.encode();

    for cut in 0..bytes.len() {
        assert!(ChangeRecord::decode(&bytes[..cut]).is_err());
    }
    let mut extended = bytes.to_vec();
    extended.push(0xAB);
    assert!(ChangeRecord::decode(&extended).is_err());
}

#[test]
fn should_not_panic_on_arbitrary_adversarial_bytes() {
    let adversarial: &[&[u8]] = &[
        &[],
        &[0x00],
        &[0xff; 20],
        &[0x01, 0x00, 0x00, 0x00, 0x00, 0x00, 0x00, 0x00, 0x00, 0xFF],
    ];
    for bytes in adversarial {
        let _ = V0NodeCodec::decode(bytes);
        let _ = ChangeRecord::decode(bytes);
    }
}

#[test]
fn negative_integers_round_trip_in_a_node() {
    let offset = 3;
    let mut props = BTreeMap::new();
    props.insert(offset, TypedValue::Int(-42));
    let record = NodeRecord {
        labels: Vec::new(),
        props,
        xid: "vertex/signed".to_string(),
    };
    let bytes = V0NodeCodec::encode(&record).unwrap();
    let back = V0NodeCodec::decode(&bytes).unwrap();
    assert_eq!(back, record);
    assert_eq!(back.props.get(&offset), Some(&TypedValue::Int(-42)));
    assert_ne!(encoded(&TypedValue::Int(-1)), encoded(&TypedValue::Int(1)));
}

#[test]
fn values_have_exact_encodings() {
    assert_eq!(encoded(&TypedValue::Null), [0]);
    assert_eq!(encoded(&TypedValue::Bool(false)), [1, 0]);
    assert_eq!(encoded(&TypedValue::Bool(true)), [1, 1]);
    assert_eq!(
        encoded(&TypedValue::Int(-2)),
        [2, 0xfe, 0xff, 0xff, 0xff, 0xff, 0xff, 0xff, 0xff]
    );
    assert_eq!(encoded(&float(1.5)), [3, 0, 0, 0, 0, 0, 0, 0xf8, 0x3f]);
    assert_eq!(
        encoded(&TypedValue::String("ab".to_string())),
        [4, 2, 0, 0, 0, b'a', b'b']
    );
    assert_eq!(
        encoded(&TypedValue::Bytes(Bytes::from_static(b"\xff"))),
        [5, 1, 0, 0, 0, 0xff]
    );
    assert_eq!(
        encoded(&TypedValue::DateTime(0x0102)),
        [6, 2, 1, 0, 0, 0, 0, 0, 0]
    );
}

#[test]
fn encoded_len_is_the_length_of_the_encoding() {
    let values = [
        TypedValue::Null,
        TypedValue::Bool(true),
        TypedValue::Int(7),
        float(2.5),
        TypedValue::String("世界".to_string()),
        TypedValue::Bytes(Bytes::from(vec![1u8; 300])),
        TypedValue::DateTime(-1),
    ];
    for v in values {
        assert_eq!(v.encoded_len(), encoded(&v).len() as u128);
    }
}

#[test]
fn a_cloned_value_is_the_same_value() {
    let v = TypedValue::String("kept".to_string());
    assert_eq!(v.clone(), v);
    let b = TypedValue::Bytes(Bytes::from_static(b"kept too"));
    assert_eq!(b.clone(), b);
}

#[test]
fn property_maps_have_an_exact_encoding_in_ascending_order() {
    let mut props: EdgeProps = BTreeMap::new();
    props.insert(0x0102, TypedValue::Bool(true));
    props.insert(7, TypedValue::Null);
    assert_eq!(
        encode_edge_props(&props).as_ref(),
        [2, 0, 7, 0, 0, 0, 0, 2, 1, 0, 0, 1, 1]
    );
    assert!(encodable(&props));
}

#[test]
fn of_two_pairs_with_one_id_the_later_one_is_read() {
    let bytes = [2, 0, 7, 0, 0, 0, 1, 0, 7, 0, 0, 0, 1, 1];
    let props = decode_edge_props(&bytes).unwrap();
    assert_eq!(props.len(), 1);
    assert_eq!(props.get(&7), Some(&TypedValue::Bool(true)));
}

#[test]
fn node_records_have_an_exact_encoding() {
    let mut props = BTreeMap::new();
    props.insert(4, TypedValue::Null);
    let record = NodeRecord {
        labels: vec![LabelId(9), LabelId(1)],
        props,
        xid: "é".to_string(),
    };
    assert!(record.encodable());
    assert_eq!(
        V0NodeCodec::encode(&record).unwrap().as_ref(),
        [2, 0, 9, 0, 0, 0, 1, 0, 0, 0, 1, 0, 4, 0, 0, 0, 0, 2, 0, 0, 0, 0xc3, 0xa9]
    );
}

#[test]
fn labels_keep_the_order_that_they_were_given_in() {
    let record = NodeRecord {
        labels: vec![LabelId(9), LabelId(1), LabelId(9)],
        props: BTreeMap::new(),
        xid: String::new(),
    };
    let back = V0NodeCodec::decode(&V0NodeCodec::encode(&record).unwrap()).unwrap();
    assert_eq!(back.labels, vec![LabelId(9), LabelId(1), LabelId(9)]);
}

#[test]
fn the_cap_is_met_exactly() {
    let mut props = BTreeMap::new();
    let filler = DEFAULT_NODE_SIZE_CAP - 17;
    props.insert(0, TypedValue::Bytes(Bytes::from(vec![0u8; filler])));
    let mut record = NodeRecord {
        labels: Vec::new(),
        props,
        xid: String::new(),
    };
    assert_eq!(V0NodeCodec::encode(&record).unwrap().len(), 1_048_576);
    record.xid.push('x');
    assert_eq!(
        V0NodeCodec::encode(&record),
        Err(Error::OversizeNode { size: 1_048_577, cap: 1_048_576 })
    );
}

#[test]
fn too_many_labels_are_not_encodable() {
    let record = NodeRecord {
        labels: vec![LabelId(0); 0x1_0000],
        props: BTreeMap::new(),
        xid: String::new(),
    };
    assert!(!record.encodable());
}

#[test]
fn too_many_properties_are_not_encodable() {
    let mut props: EdgeProps = BTreeMap::new();
    for id in 0..0xffff {
        props.insert(id, TypedValue::Null);
    }
    assert!(encodable(&props));
    props.insert(0xffff, TypedValue::Null);
    assert!(!encodable(&props));
    assert!(!NodeRecord { labels: Vec::new(), props, xid: String::new() }.encodable());
}

#[test]
fn change_records_have_an_exact_encoding() {
    let record = ChangeRecord {
        seq: 5,
        op: ChangeOp::UpsertEdge,
        subject_uid: Uid(1),
        pred_id: Some(PredId(3)),
        object_uid: Some(Uid(2)),
        value: None,
        label_delta: Some(LabelDelta { added: vec![LabelId(6)], removed: Vec::new() }),
    };
    let expected: Vec<u8> = vec![
        5, 0, 0, 0, 0, 0, 0, 0, 1, 1, 0, 0, 0, 0, 0, 0, 0, 1, 3, 0, 0, 0, 1, 2, 0, 0, 0, 0, 0, 0, 0,
        0, 1, 1, 0, 6, 0, 0, 0, 0, 0,
    ];
    assert_eq!(record.encode().to_vec(), expected);
}

#[test]
fn different_records_have_different_encodings() {
    let a = plain_change(1, ChangeOp::DeleteNode);
    let b = plain_change(1, ChangeOp::DeleteEdge);
    let c = plain_change(2, ChangeOp::DeleteNode);
    assert_ne!(a.encode(), b.encode());
    assert_ne!(a.encode(), c.encode());
}

#[test]
fn operations_and_bytes_go_both_ways() {
    for (byte, op) in [
        (0, ChangeOp::UpsertNode),
        (1, ChangeOp::UpsertEdge),
        (2, ChangeOp::DeleteNode),
        (3, ChangeOp::DeleteEdge),
    ] {
        assert_eq!(op.as_byte(), byte);
        assert_eq!(ChangeOp::from_byte(byte), Ok(op));
    }
    assert_eq!(
        ChangeOp::from_byte(4),
        Err(Error::Encoding(Fault::InvalidOp { byte: 4 }))
    );
}

#[test]
fn every_fault_has_its_error() {
    let fault = |r: Result<EdgeProps, Error>| match r {
        Err(Error::Encoding(f)) => f,
        other => panic!("no fault: {:?}", other),
    };
    assert_eq!(fault(decode_edge_props(&[1])), Fault::TruncatedCount);
    assert_eq!(
        fault(decode_edge_props(&[1, 0, 7, 0])),
        Fault::Truncated { what: "edge-prop prop id", part: Part::Body, need: 4, got: 2 }
    );
    assert_eq!(
        fault(decode_edge_props(&[1, 0, 7, 0, 0, 0, 9])),
        Fault::InvalidTag { byte: 9 }
    );
    assert!(matches!(
        fault(decode_edge_props(&[1, 0, 7, 0, 0, 0, 1, 2])),
        Fault::InvalidBool { part: Part::Body, byte: 2, .. }
    ));
    assert!(matches!(
        fault(decode_edge_props(&[1, 0, 7, 0, 0, 0, 4, 1, 0, 0, 0, 0xff])),
        Fault::InvalidUtf8 { what: "string value", .. }
    ));
    assert!(matches!(
        fault(decode_edge_props(&[1, 0, 7, 0, 0, 0, 5, 1, 0])),
        Fault::Truncated { part: Part::Length, need: 4, got: 2, .. }
    ));
    assert_eq!(
        fault(decode_edge_props(&[0, 0, 1, 2, 3])),
        Fault::Trailing { what: "edge props", extra: 3 }
    );
    let mut change = plain_change(1, ChangeOp::DeleteNode).encode().to_vec();
    change[17] = 7;
    assert!(matches!(
        ChangeRecord::decode(&change),
        Err(Error::Encoding(Fault::InvalidBool { part: Part::Presence, byte: 7, .. }))
    ));
}

#[test]
fn text_is_read_only_from_utf8() {
    assert_eq!(utf8_text("aé世".as_bytes()).unwrap(), "aé世");
    assert_eq!(
        utf8_text(&[0xc3, 0x28]).unwrap_err(),
        "invalid utf-8 sequence of 1 bytes from index 0"
    );
    assert_eq!(
        utf8_text(&[b'a', 0xc3]).unwrap_err(),
        "incomplete utf-8 byte sequence from index 1"
    );
}

#[test]
fn whatever_decodes_as_a_change_encodes_to_the_same_bytes() {
    let bytes: [u8; 35] = [
        5, 0, 0, 0, 0, 0, 0, 0, // seq
        0, // op
        9, 0, 0, 0, 0, 0, 0, 0, // subject
        0, // no predicate
        0, // no object
        1, 4, 1, 0, 0, 0, b'x', // a text
        1, 1, 0, 3, 0, 0, 0, 0, 0, // one label added, none removed
    ];
    let change = ChangeRecord::decode(&bytes).unwrap();
    assert_eq!(change.seq, 5);
    assert_eq!(change.encode().as_ref(), bytes);
}

#[test]
fn every_error_has_its_text() {
    let texts = [
        (
            Error::OversizeNode { size: 1048577, cap: 1048576 },
            "oversize_node: encoded NodeRecord is 1048577 bytes, cap is 1048576 bytes",
        ),
        (Error::Storage, "storage failed"),
        (
            Error::Encoding(Fault::Truncated {
                what: "node prop id",
                part: Part::Body,
                need: 4,
                got: 0,
            }),
            "truncated node prop id: need 4 bytes, got 0",
        ),
        (
            Error::Encoding(Fault::Truncated {
                what: "node xid",
                part: Part::Length,
                need: 4,
                got: 3,
            }),
            "truncated node xid length: need 4 bytes, got 3",
        ),
        (
            Error::Encoding(Fault::Truncated {
                what: "typed-value tag",
                part: Part::Body,
                need: 1,
                got: 0,
            }),
            "truncated typed-value tag: need 1 byte",
        ),
        (
            Error::Encoding(Fault::InvalidBool {
                what: "change-record value",
                part: Part::Presence,
                byte: 0xa7,
            }),
            "invalid boolean byte for change-record value presence flag: 0xa7",
        ),
        (Error::Encoding(Fault::InvalidTag { byte: 9 }), "invalid typed-value tag: 0x09"),
        (Error::Encoding(Fault::InvalidOp { byte: 0xfe }), "invalid change-record op byte: 0xfe"),
        (
            Error::Encoding(Fault::InvalidUtf8 { what: "string value", cause: "c".to_string() }),
            "invalid utf-8 in string value: c",
        ),
        (
            Error::Encoding(Fault::XidNotUtf8 { cause: "c".to_string() }),
            "xid must be valid utf-8: c",
        ),
        (
            Error::Encoding(Fault::Trailing { what: "edge props", extra: 12 }),
            "trailing bytes after edge props: 12 extra",
        ),
        (
            Error::Encoding(Fault::WrongWidth { what: "Xid mapping", got: 5 }),
            "Xid mapping: expected 8 bytes, got 5",
        ),
        (
            Error::Encoding(Fault::CorruptBitmap {
                what: "deleted_nodes",
                cause: "c".to_string(),
            }),
            "corrupt deleted_nodes bitmap: c",
        ),
        (Error::Encoding(Fault::TruncatedCount), "Buffer too short for array count"),
    ];
    for (error, text) in texts {
        assert_eq!(error.message(), text);
    }
}

#[test]
fn a_truncated_count_reads_as_the_crate_that_reads_it_says() {
    let mut short: &[u8] = &[1];
    let said = common::serde::encoding::decode_array_count(&mut short).unwrap_err();
    assert_eq!(Fault::TruncatedCount.message(), said.message);
}

#[test]
fn a_blob_that_is_missing_says_how_long_it_is() {
    let missing = decode_edge_props(&[1, 0, 7, 0, 0, 0, 5, 1, 0, 0, 0]).unwrap_err();
    assert_eq!(
        missing,
        Error::Encoding(Fault::Truncated {
            what: "typed-value bytes",
            part: Part::Blob,
            need: 1,
            got: 0
        })
    );
    assert_eq!(missing.message(), "truncated typed-value bytes: need 1 bytes, got 0");
    let missing = decode_edge_props(&[1, 0, 7, 0, 0, 0]).unwrap_err();
    assert_eq!(missing.message(), "truncated typed-value tag: need 1 byte");
}

#[test]
fn text_that_is_no_utf8_says_why() {
    let bad = decode_edge_props(&[1, 0, 7, 0, 0, 0, 4, 2, 0, 0, 0, b'a', 0xff]).unwrap_err();
    let cause = String::from_utf8(vec![b'a', 0xff]).unwrap_err();
    assert_eq!(bad.message(), format!("invalid utf-8 in string value: {cause}"));
    let bad = V0NodeCodec::decode(&[0, 0, 0, 0, 1, 0, 0, 0, 0xff]).unwrap_err();
    assert_eq!(
        bad.message(),
        "invalid utf-8 in xid: invalid utf-8 sequence of 1 bytes from index 0"
    );
}

#[test]
fn doubles_are_equal_as_numbers() {
    assert_eq!(float(1.5), float(1.5));
    assert_ne!(float(1.5), float(-1.5));
    assert_eq!(float(0.0), float(-0.0));
    assert_ne!(float(f64::NAN), float(f64::NAN));
    assert_eq!(float(f64::INFINITY), float(f64::INFINITY));
    assert_ne!(float(f64::INFINITY), float(f64::NEG_INFINITY));
    assert_eq!(float(5e-324), float(5e-324));
    assert_ne!(float(5e-324), float(0.0));
    let samples = [0.0, -0.0, 1.0, -1.0, f64::NAN, f64::INFINITY, f64::MIN_POSITIVE, f64::MAX];
    for a in samples {
        for b in samples {
            assert_eq!(float(a) == float(b), a == b);
        }
    }
}

#[test]
fn values_are_equal_by_variant_and_content() {
    let text = |s: &str| TypedValue::String(s.to_string());
    let bytes = |b: &'static [u8]| TypedValue::Bytes(Bytes::from_static(b));
    assert_eq!(TypedValue::Null, TypedValue::Null);
    assert_eq!(text("a"), text("a"));
    assert_ne!(text("a"), text("b"));
    assert_eq!(bytes(b"ab"), bytes(b"ab"));
    assert_ne!(bytes(b"ab"), bytes(b"a"));
    assert_ne!(bytes(b"ab"), bytes(b"ac"));
    assert_ne!(TypedValue::Int(1), TypedValue::DateTime(1));
    assert_ne!(TypedValue::Bool(true), TypedValue::Bool(false));
}

#[test]
fn records_are_cloned_whole() {
    let mut props = BTreeMap::new();
    props.insert(4, TypedValue::Int(-9));
    let node = NodeRecord { labels: vec![LabelId(2)], props, xid: "x".to_string() };
    assert_eq!(node.clone(), node);
    let mut change = plain_change(3, ChangeOp::UpsertNode);
    change.value = Some(TypedValue::String("v".to_string()));
    change.label_delta = Some(LabelDelta { added: vec![LabelId(1)], removed: Vec::new() });
    assert_eq!(change.clone(), change);
}
