use std::collections::BTreeMap;
use std::future::Future;
use std::sync::Arc;
use std::task::{Context, Poll, Wake, Waker};

use bytes::Bytes;
use common::storage::in_memory::InMemoryStorage;
use common::storage::{MergeOperator, RecordOp as StorageOp};
use common::{Record, SequenceAllocator, Storage, StorageRead};
use roaring::RoaringTreemap;
use turbolay_graph::allocators::GraphAllocators;
use turbolay_graph::change::{ChangeOp, ChangeRecord};
use turbolay_graph::error::{Error, Fault};
use turbolay_graph::ids::{Direction, LabelId, PredId, SchemaKind, Uid};
use turbolay_graph::node::{NodeRecord, DEFAULT_NODE_SIZE_CAP};
use turbolay_graph::props::{encode_edge_props, EdgeProps};
use turbolay_graph::schema::{Directives, SchemaCache, SchemaEntry, ValType};
use turbolay_graph::store::{degree_key, latest_seq_key, Key, Payload, RecordOp};
use turbolay_graph::value::TypedValue;
use turbolay_graph::write::{named_fit, Batch, EdgeDraft, Resolution, Step, Writer};

struct Idle;

impl Wake for Idle {
    fn wake(self: Arc<Self>) {}
}

fn ready<F: Future>(future: F) -> F::Output {
    let waker = Waker::from(Arc::new(Idle));
    let mut context = Context::from_waker(&waker);
    let mut future = Box::pin(future);
    loop {
        if let Poll::Ready(out) = future.as_mut().poll(&mut context) {
            return out;
        }
    }
}

fn set_bytes(set: &RoaringTreemap) -> Bytes {
    let mut out = Vec::new();
    set.serialize_into(&mut out).unwrap();
    Bytes::from(out)
}

fn one(member: u64) -> Bytes {
    set_bytes(&[member].into_iter().collect())
}

/// Sums counters and unites sets.
struct Combine;

impl MergeOperator for Combine {
    fn merge_batch(&self, key: &Bytes, existing: Option<Bytes>, operands: &[Bytes]) -> Bytes {
        if key.starts_with(b"M/count/") {
            let number = |b: &Bytes| i64::from_le_bytes(b.as_ref().try_into().unwrap());
            let start = existing.as_ref().map(number).unwrap_or(0);
            let sum: i64 = start + operands.iter().map(number).sum::<i64>();
            return Bytes::copy_from_slice(&sum.to_le_bytes());
        }
        let mut set = RoaringTreemap::new();
        if let Some(b) = existing {
            set |= RoaringTreemap::deserialize_from(b.as_ref()).unwrap();
        }
        for b in operands {
            set |= RoaringTreemap::deserialize_from(b.as_ref()).unwrap();
        }
        set_bytes(&set)
    }
}

fn kind_byte(kind: SchemaKind) -> u8 {
    match kind {
        SchemaKind::Label => b'l',
        SchemaKind::Predicate => b'p',
        SchemaKind::PropertyKey => b'k',
    }
}

fn joined(parts: &[&[u8]]) -> Bytes {
    Bytes::from(parts.concat())
}

fn key_bytes(key: &Key) -> Bytes {
    match key {
        Key::Node(uid) => joined(&[b"N/", &uid.get().to_be_bytes()]),
        Key::Xid(xid) => joined(&[b"X/", xid]),
        Key::Log(seq) => joined(&[b"L/", &seq.to_be_bytes()]),
        Key::Meta(name) => joined(&[b"M/", name]),
        Key::SchemaName(kind, name) => joined(&[b"S/", &[kind_byte(*kind)], name]),
        Key::SchemaId(kind, id) => joined(&[b"I/", &[kind_byte(*kind)], &id.to_be_bytes()]),
        Key::EdgeProp(src, pred, dst) => joined(&[
            b"E/",
            &src.get().to_be_bytes(),
            &pred.get().to_be_bytes(),
            &dst.get().to_be_bytes(),
        ]),
        Key::Block(bytes) | Key::Raw(bytes) => bytes.clone(),
    }
}

fn entry_bytes(entry: &SchemaEntry) -> Bytes {
    joined(&[&[entry.directives.reverse as u8], entry.name.as_bytes()])
}

fn entry_of(bytes: &Bytes) -> SchemaEntry {
    SchemaEntry {
        name: std::str::from_utf8(&bytes[1..]).unwrap().to_string(),
        value_type: ValType::Untyped,
        directives: Directives { reverse: bytes[0] == 1 },
    }
}

/// The tests define far fewer names than this; a reopened writer numbers new ones from the end of
/// the last block.
const FIRST_IDS: u32 = 3 * 4096;

fn deleted_nodes() -> Key {
    Key::Meta(Bytes::from_static(b"deleted_nodes"))
}

fn deleted_edges(pred: PredId, anchor: Uid) -> Key {
    Key::Meta(joined(&[
        b"deleted_edges/",
        &pred.get().to_be_bytes(),
        &anchor.get().to_be_bytes(),
    ]))
}

fn posting(dir: Direction, anchor: Uid, pred: PredId) -> Bytes {
    joined(&[
        b"P/",
        &[dir.as_byte()],
        &anchor.get().to_be_bytes(),
        &pred.get().to_be_bytes(),
    ])
}

fn added((dir, anchor, pred, other): (Direction, Uid, PredId, Uid)) -> Vec<RecordOp> {
    posting_add(dir, anchor, pred, other)
}

fn posting_add(dir: Direction, anchor: Uid, pred: PredId, other: Uid) -> Vec<RecordOp> {
    vec![RecordOp::Merge {
        key: Key::Raw(posting(dir, anchor, pred)),
        operand: one(other.get()),
    }]
}

fn put(key: Bytes, value: Bytes) -> StorageOp {
    StorageOp::Put(Record::new(key, value).into())
}

fn merge(key: Bytes, operand: Bytes) -> StorageOp {
    StorageOp::Merge(Record::new(key, operand).into())
}

fn storage_op(op: &RecordOp) -> StorageOp {
    match op {
        RecordOp::Put { key, value } => match value {
            Payload::Raw(bytes) => put(key_bytes(key), bytes.clone()),
            Payload::Entry(entry) => put(key_bytes(key), entry_bytes(entry)),
        },
        RecordOp::Merge { key, operand } => merge(key_bytes(key), operand.clone()),
        RecordOp::Delete { key } => StorageOp::Delete(key_bytes(key)),
        RecordOp::DeleteNode { uid } => merge(key_bytes(&deleted_nodes()), one(uid.get())),
        RecordOp::DeleteEdge { pred, anchor, other } => {
            merge(key_bytes(&deleted_edges(*pred, *anchor)), one(other.get()))
        }
    }
}

type Store = Arc<InMemoryStorage>;

fn empty_store() -> Store {
    Arc::new(InMemoryStorage::with_merge_operator(Arc::new(Combine)))
}

fn allocator(store: &Store, name: &'static [u8]) -> SequenceAllocator {
    ready(SequenceAllocator::load(store.as_ref(), Bytes::from_static(name))).unwrap()
}

fn load_allocators(store: &Store) -> GraphAllocators {
    GraphAllocators {
        uid: allocator(store, b"A/uid"),
        label: allocator(store, b"A/label"),
        pred: allocator(store, b"A/pred"),
        prop: allocator(store, b"A/prop"),
        seq: allocator(store, b"A/seq"),
    }
}

fn get(store: &Store, key: &Key) -> Option<Bytes> {
    ready(store.get(key_bytes(key))).unwrap().map(|r| r.value)
}

/// A graph over a store, driven the way a caller of the library drives it.
struct Graph {
    writer: Writer<Store>,
    fail_next: bool,
}

impl Graph {
    fn open(store: &Store) -> Graph {
        let mut definitions = Vec::new();
        for kind in [SchemaKind::Label, SchemaKind::Predicate, SchemaKind::PropertyKey] {
            for id in 0..FIRST_IDS {
                if let Some(entry) = get(store, &Key::SchemaId(kind, id)) {
                    definitions.push((kind, id, entry_of(&entry)));
                }
            }
        }
        let schema = SchemaCache::rebuild(&definitions);
        let latest = get(store, &latest_seq_key());
        let allocs = load_allocators(store);
        Graph {
            writer: Writer::from_storage(store.clone(), allocs, schema, latest).unwrap(),
            fail_next: false,
        }
    }

    fn new() -> Graph {
        Graph::open(&empty_store())
    }

    fn get(&self, key: Key) -> Option<Bytes> {
        get(self.writer.storage(), &key)
    }

    fn apply(&mut self, batch: Batch) -> Result<u64, Error> {
        assert!(batch.options.await_durable);
        let seq = batch.options.seqnum;
        let applied = if self.fail_next {
            self.fail_next = false;
            Err(Error::Storage)
        } else {
            let ops: Vec<StorageOp> = batch.ops.iter().map(storage_op).collect();
            ready(self.writer.storage().apply(ops)).unwrap();
            Ok(())
        };
        self.writer.settle(seq, applied)
    }

    fn xid(&self, xid: &[u8]) -> Option<Bytes> {
        self.get(Key::Xid(Bytes::copy_from_slice(xid)))
    }

    fn lookup_uid(&self, xid: &[u8]) -> Option<Uid> {
        self.writer.lookup_uid(self.xid(xid)).unwrap()
    }

    fn node(&self, uid: Uid) -> Option<NodeRecord> {
        self.writer.get_node(self.get(Key::Node(uid))).unwrap()
    }

    fn upsert_node(
        &mut self,
        xid: &[u8],
        labels: &[String],
        props: Vec<(String, TypedValue)>,
    ) -> Result<u64, Error> {
        assert!(self.writer.has_room(labels.len(), 1, props.len(), 2));
        let stored = self.xid(xid);
        let resolved = self.writer.resolve_or_create_xid(xid, stored)?;
        let prior = Ok(self.get(Key::Node(resolved.uid)));
        let draft = self.writer.draft_node(xid, labels, props, resolved, prior)?;
        assert!(draft.record.encodable());
        let batch = self.writer.upsert_node(draft)?;
        self.apply(batch)
    }

    fn draft_edge(&mut self, src: &[u8], pred: &str, dst: &[u8]) -> Result<EdgeDraft, Error> {
        let src_stored = self.xid(src);
        let dst_stored = self.xid(dst);
        self.writer.draft_edge(src, src_stored, pred, dst, Ok(dst_stored))
    }

    fn upsert_edge(&mut self, src: &[u8], pred: &str, dst: &[u8]) -> Result<u64, Error> {
        let draft = self.draft_edge(src, pred, dst)?;
        let (to_out, to_in) = draft.posting_adds();
        let (out_ops, in_ops) = (added(to_out), added(to_in));
        let batch = self.writer.upsert_edge(draft, out_ops, in_ops);
        self.apply(batch)
    }

    fn upsert_edge_with_props(
        &mut self,
        src: &[u8],
        pred: &str,
        dst: &[u8],
        props: Vec<(String, TypedValue)>,
    ) -> Result<u64, Error> {
        let draft = self.draft_edge(src, pred, dst)?;
        let (to_out, to_in) = draft.posting_adds();
        let (out_ops, in_ops) = (added(to_out), added(to_in));
        let batch = self.writer.upsert_edge_with_props(draft, out_ops, in_ops, props);
        self.apply(batch)
    }

    fn finish(&mut self, step: Step) -> Result<u64, Error> {
        match step {
            Step::Done(seq) => Ok(seq),
            Step::Apply(batch) => self.apply(batch),
        }
    }

    fn delete_node(&mut self, xid: &[u8]) -> Result<u64, Error> {
        let stored = self.xid(xid);
        let step = self.writer.delete_node(stored)?;
        self.finish(step)
    }

    fn delete_edge(&mut self, src: &[u8], pred: &str, dst: &[u8]) -> Result<u64, Error> {
        let src_stored = self.xid(src);
        let dst_stored = self.xid(dst);
        let step = self.writer.delete_edge(src_stored, pred, dst_stored)?;
        self.finish(step)
    }

    fn pred(&self, name: &str) -> PredId {
        PredId(self.writer.schema_id(SchemaKind::Predicate, name).unwrap())
    }

    fn edge_props(&self, src: Uid, pred: PredId, dst: Uid) -> Option<EdgeProps> {
        self.writer.edge_props(self.get(Key::EdgeProp(src, pred, dst))).unwrap()
    }

    fn degree(&self, pred: PredId, dir: Direction, anchor: Uid) -> i64 {
        self.writer.degree(self.get(degree_key(pred, dir, anchor))).unwrap()
    }

    fn neighbors(&self, anchor: Uid, pred: PredId, dir: Direction) -> RoaringTreemap {
        let set = |b: Option<Bytes>| match b {
            Some(b) => RoaringTreemap::deserialize_from(b.as_ref()).unwrap(),
            None => RoaringTreemap::new(),
        };
        let all = set(self.get(Key::Raw(posting(dir, anchor, pred))));
        let gone = set(self.get(deleted_edges(pred, anchor)));
        self.writer.neighbors(all - gone, self.get(deleted_nodes())).unwrap()
    }

    fn change(&self, seq: u64) -> ChangeRecord {
        ChangeRecord::decode(&self.get(Key::Log(seq)).unwrap()).unwrap()
    }
}

fn not_utf8(xid: &[u8]) -> Error {
    let cause = String::from_utf8(xid.to_vec()).unwrap_err().to_string();
    Error::Encoding(Fault::XidNotUtf8 { cause })
}

fn batch_keys(batch: &Batch) -> Vec<Bytes> {
    batch
        .ops
        .iter()
        .map(|op| match op {
            RecordOp::Put { key, .. } | RecordOp::Merge { key, .. } | RecordOp::Delete { key } => {
                key_bytes(key)
            }
            _ => panic!("a deletion"),
        })
        .collect()
}

fn storage_text(op: &RecordOp) -> String {
    format!("{:?}", storage_op(op))
}

fn props(pairs: &[(&str, TypedValue)]) -> Vec<(String, TypedValue)> {
    let sorted: BTreeMap<String, TypedValue> =
        pairs.iter().map(|(k, v)| (k.to_string(), v.clone())).collect();
    sorted.into_iter().collect()
}

fn since() -> Vec<(String, TypedValue)> {
    props(&[("since", TypedValue::Int(2020))])
}

#[test]
fn should_upsert_node_and_read_it_back() {
    let mut graph = Graph::new();
    let seq = graph
        .upsert_node(
            b"user:alice",
            &["Person".to_string()],
            props(&[("name", TypedValue::String("Alice".to_string()))]),
        )
        .unwrap();
    assert_eq!(seq, 1, "first commit on a fresh writer is logical seq 1");

    let uid = graph.lookup_uid(b"user:alice").unwrap();
    let node = graph.node(uid).unwrap();
    assert_eq!(node.xid, "user:alice");
    assert_eq!(node.labels.len(), 1);
    assert_eq!(node.props.len(), 1);
}

#[test]
fn should_be_idempotent_on_repeat_upsert_of_the_same_xid() {
    let mut graph = Graph::new();
    graph.upsert_node(b"user:bob", &["Person".to_string()], Vec::new()).unwrap();
    let uid1 = graph.lookup_uid(b"user:bob").unwrap();

    graph.upsert_node(b"user:bob", &[], props(&[("age", TypedValue::Int(30))])).unwrap();
    let uid2 = graph.lookup_uid(b"user:bob").unwrap();

    assert_eq!(uid1, uid2, "re-upserting the same xid must not mint a new uid");
    let node = graph.node(uid1).unwrap();
    assert_eq!(node.labels.len(), 1, "label from the first upsert persists");
    assert_eq!(node.props.len(), 1, "prop from the second upsert merges in");
}

#[test]
fn should_reject_oversize_node_without_writing_anything() {
    let mut graph = Graph::new();
    let huge = TypedValue::Bytes(Bytes::from(vec![0u8; 2 * 1024 * 1024]));
    let err = graph.upsert_node(b"doc:huge", &[], props(&[("blob", huge)])).unwrap_err();
    assert!(matches!(err, Error::OversizeNode { cap: DEFAULT_NODE_SIZE_CAP, .. }));
    assert!(
        err.message().contains("oversize_node"),
        "expected oversize_node error, got: {}",
        err.message()
    );

    assert_eq!(
        graph.lookup_uid(b"doc:huge"),
        None,
        "a rejected upsert must not create the xid mapping either"
    );
    assert_eq!(
        graph.writer.latest_seq(),
        0,
        "no seq should be consumed by a rejected write"
    );
}

#[test]
fn should_fan_out_upsert_edge_atomically_at_one_seq() {
    let mut graph = Graph::new();
    let durable = graph.writer.storage().subscribe_durable();
    assert_eq!(*durable.borrow(), 0);

    let token = graph.upsert_edge(b"user:a", "knows", b"user:b").unwrap();
    assert_eq!(*durable.borrow(), token);
    assert_eq!(token, 1, "first commit on a fresh writer is logical seq 1");

    let src = graph.lookup_uid(b"user:a").unwrap();
    let dst = graph.lookup_uid(b"user:b").unwrap();
    let pred = graph.pred("knows");

    assert!(graph.node(src).is_some());
    assert!(graph.node(dst).is_some());

    assert!(graph.neighbors(src, pred, Direction::Out).contains(dst.get()));
    assert!(graph.neighbors(dst, pred, Direction::In).contains(src.get()));

    assert_eq!(graph.degree(pred, Direction::Out, src), 1);
    assert_eq!(graph.degree(pred, Direction::In, dst), 1);

    let change = graph.change(token);
    assert_eq!(change.seq, token);
    assert_eq!(change.op, ChangeOp::UpsertEdge);
    assert_eq!(graph.writer.latest_seq(), token);
}

#[test]
fn should_write_and_read_back_valued_edge_props() {
    let mut graph = Graph::new();
    graph.upsert_edge_with_props(b"user:a", "knows", b"user:b", since()).unwrap();

    let src = graph.lookup_uid(b"user:a").unwrap();
    let dst = graph.lookup_uid(b"user:b").unwrap();
    let pred = graph.pred("knows");

    let got = graph.edge_props(src, pred, dst).unwrap();
    let prop_id = graph.writer.schema_id(SchemaKind::PropertyKey, "since").unwrap();
    assert_eq!(got.len(), 1);
    assert_eq!(got.get(&prop_id), Some(&TypedValue::Int(2020)));
}

#[test]
fn should_commit_edge_props_at_the_same_seq_as_the_edge() {
    let mut graph = Graph::new();
    let token = graph.upsert_edge_with_props(b"user:a", "knows", b"user:b", since()).unwrap();

    let src = graph.lookup_uid(b"user:a").unwrap();
    let dst = graph.lookup_uid(b"user:b").unwrap();
    assert!(graph.edge_props(src, graph.pred("knows"), dst).is_some());

    let change = graph.change(token);
    assert_eq!(change.seq, token);
    assert_eq!(change.op, ChangeOp::UpsertEdge);
}

#[test]
fn should_remove_companion_on_delete_edge() {
    let mut graph = Graph::new();
    graph.upsert_edge_with_props(b"user:a", "knows", b"user:b", since()).unwrap();

    let src = graph.lookup_uid(b"user:a").unwrap();
    let dst = graph.lookup_uid(b"user:b").unwrap();
    let pred = graph.pred("knows");
    assert!(graph.edge_props(src, pred, dst).is_some());

    graph.delete_edge(b"user:a", "knows", b"user:b").unwrap();
    assert_eq!(graph.edge_props(src, pred, dst), None);
}

#[test]
fn should_preserve_props_on_plain_re_upsert_of_a_valued_edge() {
    let mut graph = Graph::new();
    graph.upsert_edge_with_props(b"user:a", "knows", b"user:b", since()).unwrap();
    graph.upsert_edge(b"user:a", "knows", b"user:b").unwrap();

    let src = graph.lookup_uid(b"user:a").unwrap();
    let dst = graph.lookup_uid(b"user:b").unwrap();
    let got = graph.edge_props(src, graph.pred("knows"), dst).unwrap();
    assert_eq!(got.len(), 1, "prior props must survive a plain re-upsert");
}

#[test]
fn should_write_no_companion_for_empty_props_map() {
    let mut graph = Graph::new();
    graph.upsert_edge_with_props(b"user:a", "knows", b"user:b", Vec::new()).unwrap();

    let src = graph.lookup_uid(b"user:a").unwrap();
    let dst = graph.lookup_uid(b"user:b").unwrap();
    assert_eq!(graph.edge_props(src, graph.pred("knows"), dst), None);
}

#[test]
fn should_write_no_companion_for_plain_upsert_edge() {
    let mut graph = Graph::new();
    graph.upsert_edge(b"user:a", "knows", b"user:b").unwrap();

    let src = graph.lookup_uid(b"user:a").unwrap();
    let dst = graph.lookup_uid(b"user:b").unwrap();
    assert_eq!(graph.edge_props(src, graph.pred("knows"), dst), None);
}

#[test]
fn should_filter_deleted_edge_both_directions_and_update_degree() {
    let mut graph = Graph::new();
    graph.upsert_edge(b"user:a", "knows", b"user:b").unwrap();

    let src = graph.lookup_uid(b"user:a").unwrap();
    let dst = graph.lookup_uid(b"user:b").unwrap();
    let pred = graph.pred("knows");

    graph.delete_edge(b"user:a", "knows", b"user:b").unwrap();

    let out = graph.neighbors(src, pred, Direction::Out);
    assert!(!out.contains(dst.get()), "Out side must filter the deleted edge");
    let inn = graph.neighbors(dst, pred, Direction::In);
    assert!(!inn.contains(src.get()), "In side must filter the deleted edge too");

    assert_eq!(graph.degree(pred, Direction::Out, src), 0);
    assert_eq!(graph.degree(pred, Direction::In, dst), 0);
}

#[test]
fn should_filter_deleted_node_from_neighbors_in_both_directions() {
    let mut graph = Graph::new();
    graph.upsert_edge(b"user:a", "knows", b"user:b").unwrap();
    graph.upsert_edge(b"user:c", "knows", b"user:a").unwrap();

    let a = graph.lookup_uid(b"user:a").unwrap();
    let b = graph.lookup_uid(b"user:b").unwrap();
    let c = graph.lookup_uid(b"user:c").unwrap();
    let pred = graph.pred("knows");

    graph.delete_node(b"user:a").unwrap();

    let b_in = graph.neighbors(b, pred, Direction::In);
    assert!(!b_in.contains(a.get()), "deleted anchor must be filtered from downstream reads");

    let a_out = graph.neighbors(a, pred, Direction::Out);
    assert!(a_out.contains(b.get()), "the raw posting is untouched");

    let c_out = graph.neighbors(c, pred, Direction::Out);
    assert!(
        !c_out.contains(a.get()),
        "a deleted node is filtered from neighbor reads in every position"
    );
}

#[test]
fn should_no_op_delete_of_unknown_xid_or_edge() {
    let mut graph = Graph::new();
    assert_eq!(graph.delete_node(b"nope").unwrap(), 0);
    assert_eq!(graph.delete_edge(b"nope", "knows", b"also-nope").unwrap(), 0);
    assert_eq!(graph.writer.latest_seq(), 0);
}

#[test]
fn should_keep_xid_stable_and_uids_monotonic_across_restart() {
    let store = empty_store();

    let (alice_uid, bob_uid, seq1) = {
        let mut graph = Graph::open(&store);
        let seq = graph.upsert_edge(b"user:alice", "knows", b"user:bob").unwrap();
        let alice = graph.lookup_uid(b"user:alice").unwrap();
        let bob = graph.lookup_uid(b"user:bob").unwrap();
        (alice, bob, seq)
    };

    let mut graph2 = Graph::open(&store);
    assert_eq!(graph2.writer.latest_seq(), seq1, "recovery resumes latest_seq");
    assert_eq!(graph2.lookup_uid(b"user:alice"), Some(alice_uid));
    assert_eq!(graph2.lookup_uid(b"user:bob"), Some(bob_uid));

    let seq2 = graph2.upsert_edge(b"user:carol", "knows", b"user:alice").unwrap();
    assert!(seq2 > seq1, "seq must be strictly monotonic across restart");
    let carol_uid = graph2.lookup_uid(b"user:carol").unwrap();
    assert!(
        carol_uid.get() > alice_uid.get() && carol_uid.get() > bob_uid.get(),
        "post-restart uid must exceed every pre-restart uid"
    );
}

#[test]
fn should_read_a_committed_write_through_a_separate_reader_handle() {
    let mut graph = Graph::new();
    let reader: Store = graph.writer.storage().clone();
    let token = graph.upsert_edge(b"user:a", "knows", b"user:b").unwrap();
    assert!(token > 0, "a committed write must yield a durable token");

    let uid = graph.lookup_uid(b"user:a").unwrap();
    assert!(get(&reader, &Key::Node(uid)).is_some());
}

#[test]
fn should_leave_no_partial_state_when_a_batch_fails_to_apply() {
    let store = empty_store();
    let mut graph = Graph::open(&store);
    let baseline = graph.upsert_edge(b"user:a", "knows", b"user:b").unwrap();
    assert_eq!(baseline, 1);

    graph.fail_next = true;
    let result = graph.upsert_edge(b"user:c", "knows", b"user:d");
    assert!(result.is_err(), "the injected failure must surface as an error");

    assert_eq!(graph.lookup_uid(b"user:c"), None);
    assert_eq!(
        graph.writer.latest_seq(),
        baseline,
        "latest_seq must not advance on a failed commit"
    );

    let mut recovered = Graph::open(&store);
    assert_eq!(recovered.writer.latest_seq(), baseline);
    assert!(recovered.lookup_uid(b"user:a").is_some());
    assert_eq!(recovered.lookup_uid(b"user:c"), None);

    let next = recovered.upsert_edge(b"user:e", "knows", b"user:f").unwrap();
    assert!(next > baseline);
}

#[test]
fn sequence_numbers_go_up_by_one_even_past_a_failure() {
    let mut graph = Graph::new();
    assert_eq!(graph.upsert_node(b"a", &[], Vec::new()), Ok(1));
    assert_eq!(graph.upsert_node(b"b", &[], Vec::new()), Ok(2));
    graph.fail_next = true;
    assert_eq!(graph.upsert_node(b"c", &[], Vec::new()), Err(Error::Storage));
    assert_eq!(graph.writer.latest_seq(), 2);
    assert_eq!(graph.upsert_node(b"c", &[], Vec::new()), Ok(4));
    assert_eq!(graph.writer.latest_seq(), 4);
}

#[test]
fn a_rejected_node_uses_up_no_sequence_number() {
    let mut graph = Graph::new();
    let huge = TypedValue::Bytes(Bytes::from(vec![0u8; DEFAULT_NODE_SIZE_CAP]));
    assert!(graph.upsert_node(b"doc", &[], props(&[("blob", huge)])).is_err());
    assert_eq!(graph.upsert_node(b"doc", &[], Vec::new()), Ok(1));
}

#[test]
fn the_changelog_tells_which_labels_a_node_gained() {
    let mut graph = Graph::new();
    let first = graph
        .upsert_node(b"n", &["B".to_string(), "A".to_string(), "B".to_string()], Vec::new())
        .unwrap();
    let second = graph
        .upsert_node(b"n", &["A".to_string(), "C".to_string()], Vec::new())
        .unwrap();
    assert_eq!(graph.writer.schema_id(SchemaKind::Label, "B"), Some(0));
    assert_eq!(graph.writer.schema_id(SchemaKind::Label, "A"), Some(1));
    assert_eq!(graph.writer.schema_id(SchemaKind::Label, "C"), Some(2));

    let delta = graph.change(first).label_delta.unwrap();
    assert_eq!(delta.added, vec![LabelId(0), LabelId(1)]);
    assert!(delta.removed.is_empty());
    let delta = graph.change(second).label_delta.unwrap();
    assert_eq!(delta.added, vec![LabelId(2)]);

    let uid = graph.lookup_uid(b"n").unwrap();
    assert_eq!(graph.change(first).subject_uid, uid);
    assert_eq!(graph.node(uid).unwrap().labels, vec![LabelId(0), LabelId(1), LabelId(2)]);
}

#[test]
fn a_new_endpoint_is_a_node_with_nothing_but_its_xid() {
    let mut graph = Graph::new();
    graph.upsert_edge(b"user:a", "knows", b"user:b").unwrap();
    let uid = graph.lookup_uid(b"user:b").unwrap();
    let node = graph.node(uid).unwrap();
    assert_eq!(node.xid, "user:b");
    assert!(node.labels.is_empty());
    assert!(node.props.is_empty());
}

#[test]
fn an_edge_to_a_known_node_leaves_its_record() {
    let mut graph = Graph::new();
    graph.upsert_node(b"user:a", &["Person".to_string()], Vec::new()).unwrap();
    graph.upsert_edge(b"user:a", "knows", b"user:b").unwrap();
    let uid = graph.lookup_uid(b"user:a").unwrap();
    assert_eq!(graph.node(uid).unwrap().labels.len(), 1);
}

#[test]
fn upserting_a_node_leaves_other_nodes_and_edges() {
    let mut graph = Graph::new();
    graph.upsert_node(b"a", &["Person".to_string()], Vec::new()).unwrap();
    graph.upsert_edge_with_props(b"a", "knows", b"b", since()).unwrap();
    graph.upsert_node(b"b", &["Place".to_string()], props(&[("x", TypedValue::Int(1))])).unwrap();
    let a = graph.lookup_uid(b"a").unwrap();
    let b = graph.lookup_uid(b"b").unwrap();
    let node = graph.node(a).unwrap();
    assert_eq!(node.xid, "a");
    assert_eq!(node.labels, vec![LabelId(0)]);
    assert!(node.props.is_empty());
    assert!(graph.edge_props(a, graph.pred("knows"), b).is_some());
}

#[test]
fn a_plain_upsert_leaves_the_properties_of_other_edges() {
    let mut graph = Graph::new();
    graph.upsert_edge_with_props(b"a", "knows", b"b", since()).unwrap();
    graph.upsert_edge(b"b", "knows", b"a").unwrap();
    let a = graph.lookup_uid(b"a").unwrap();
    let b = graph.lookup_uid(b"b").unwrap();
    let pred = graph.pred("knows");
    assert!(graph.edge_props(a, pred, b).is_some());
    assert_eq!(graph.edge_props(b, pred, a), None);
}

#[test]
fn degrees_count_every_upsert() {
    let mut graph = Graph::new();
    graph.upsert_edge(b"a", "knows", b"b").unwrap();
    graph.upsert_edge(b"a", "knows", b"c").unwrap();
    graph.upsert_edge(b"a", "likes", b"b").unwrap();
    graph.upsert_edge(b"a", "knows", b"b").unwrap();
    let a = graph.lookup_uid(b"a").unwrap();
    let b = graph.lookup_uid(b"b").unwrap();
    let knows = graph.pred("knows");
    let likes = graph.pred("likes");
    assert_eq!(graph.degree(knows, Direction::Out, a), 3);
    assert_eq!(graph.degree(knows, Direction::In, a), 0);
    assert_eq!(graph.degree(knows, Direction::In, b), 2);
    assert_eq!(graph.degree(likes, Direction::In, b), 1);
    graph.delete_edge(b"a", "likes", b"b").unwrap();
    graph.delete_edge(b"a", "likes", b"b").unwrap();
    assert_eq!(graph.degree(likes, Direction::Out, a), -1);
    assert_eq!(graph.degree(knows, Direction::Out, a), 3);
}

#[test]
fn deletions_are_in_the_changelog() {
    let mut graph = Graph::new();
    graph.upsert_edge(b"a", "knows", b"b").unwrap();
    let a = graph.lookup_uid(b"a").unwrap();
    let b = graph.lookup_uid(b"b").unwrap();
    let pred = graph.pred("knows");
    let seq = graph.delete_edge(b"a", "knows", b"b").unwrap();
    let change = graph.change(seq);
    assert_eq!(change.op, ChangeOp::DeleteEdge);
    assert_eq!(change.subject_uid, a);
    assert_eq!(change.pred_id, Some(pred));
    assert_eq!(change.object_uid, Some(b));
    assert!(change.label_delta.is_none());
    let seq = graph.delete_node(b"b").unwrap();
    let change = graph.change(seq);
    assert_eq!(change.op, ChangeOp::DeleteNode);
    assert_eq!(change.subject_uid, b);
    assert_eq!(change.pred_id, None);
    assert_eq!(graph.writer.latest_seq(), 3);
}

#[test]
fn deleting_over_an_unknown_predicate_is_a_no_op() {
    let mut graph = Graph::new();
    graph.upsert_edge(b"a", "knows", b"b").unwrap();
    assert_eq!(graph.delete_edge(b"a", "likes", b"b"), Ok(1));
    assert_eq!(graph.delete_edge(b"a", "knows", b"zz"), Ok(1));
    assert_eq!(graph.delete_edge(b"zz", "knows", b"b"), Ok(1));
    assert_eq!(graph.writer.latest_seq(), 1);
    assert_eq!(graph.writer.schema_id(SchemaKind::Predicate, "likes"), None);
}

#[test]
fn malformed_mappings_are_errors() {
    let mut graph = Graph::new();
    let bad = || Some(Bytes::from_static(b"short"));
    let fault = Error::Encoding(Fault::WrongWidth { what: "Xid mapping", got: 5 });
    assert_eq!(graph.writer.lookup_uid(bad()), Err(fault.clone()));
    assert_eq!(graph.writer.resolve_or_create_xid(b"x", bad()).err(), Some(fault.clone()));
    assert_eq!(graph.writer.delete_node(bad()).err(), Some(fault.clone()));
    assert_eq!(graph.writer.delete_edge(None, "p", bad()).err(), Some(fault.clone()));
    assert_eq!(graph.writer.delete_edge(bad(), "p", None).err(), Some(fault.clone()));
    assert_eq!(
        graph.writer.degree(bad()),
        Err(Error::Encoding(Fault::WrongWidth { what: "degree counter", got: 5 }))
    );
    assert!(graph.writer.get_node(bad()).is_err());
    assert!(graph.writer.edge_props(bad()).is_err());
    let cause = RoaringTreemap::deserialize_from(&b"short"[..]).unwrap_err().to_string();
    assert!(!cause.is_empty());
    let corrupt = Error::Encoding(Fault::CorruptBitmap { what: "deleted_nodes", cause });
    assert_eq!(graph.writer.neighbors(RoaringTreemap::new(), bad()), Err(corrupt.clone()));
    assert!(corrupt.message().starts_with("corrupt deleted_nodes bitmap: "));
}

#[test]
fn a_malformed_cursor_is_an_error() {
    let store = empty_store();
    let allocs = load_allocators(&store);
    let opened = Writer::from_storage(
        store.clone(),
        allocs,
        SchemaCache::new(),
        Some(Bytes::from_static(b"123")),
    );
    assert_eq!(
        opened.err(),
        Some(Error::Encoding(Fault::WrongWidth { what: "Meta[latest_seq]", got: 3 }))
    );
}

#[test]
fn an_xid_that_is_no_text_is_refused() {
    let mut graph = Graph::new();
    let fault = not_utf8(&[0xff]);
    assert_eq!(graph.upsert_node(&[0xff], &[], Vec::new()), Err(fault.clone()));
    assert_eq!(graph.upsert_edge(&[0xff], "knows", b"b"), Err(fault.clone()));
    assert_eq!(graph.upsert_edge(b"a", "knows", &[0xff]), Err(fault.clone()));
    assert_eq!(
        fault.message(),
        "xid must be valid utf-8: invalid utf-8 sequence of 1 bytes from index 0"
    );
    assert_eq!(graph.writer.latest_seq(), 0);
}

#[test]
fn an_xid_over_the_cap_is_refused_as_an_endpoint() {
    let mut graph = Graph::new();
    let longest = vec![b'x'; DEFAULT_NODE_SIZE_CAP - 8];
    assert_eq!(graph.upsert_edge(&longest, "knows", b"b"), Ok(1));
    let long = vec![b'x'; DEFAULT_NODE_SIZE_CAP];
    assert_eq!(
        graph.upsert_edge(&long, "knows", b"b"),
        Err(Error::OversizeNode {
            size: DEFAULT_NODE_SIZE_CAP + 8,
            cap: DEFAULT_NODE_SIZE_CAP
        })
    );
}

#[test]
fn failed_reads_come_back_as_they_are() {
    let mut graph = Graph::new();
    let resolved = Resolution { uid: Uid(4), ops: Vec::new(), places: Vec::new() };
    let drafted = graph.writer.draft_node(
        b"x",
        &["Kept".to_string()],
        Vec::new(),
        resolved,
        Err(Error::Storage),
    );
    assert_eq!(drafted.err(), Some(Error::Storage));
    let drafted = graph.writer.draft_edge(b"a", None, "p", b"b", Err(Error::Storage));
    assert_eq!(drafted.err(), Some(Error::Storage));
    assert!(graph.writer.schema_id(SchemaKind::Predicate, "p").is_none());
}

#[test]
fn a_corrupt_prior_record_stops_the_upsert() {
    let mut graph = Graph::new();
    let resolved = Resolution { uid: Uid(4), ops: Vec::new(), places: Vec::new() };
    let drafted = graph.writer.draft_node(
        b"x",
        &[],
        Vec::new(),
        resolved,
        Ok(Some(Bytes::from_static(b"\x00"))),
    );
    assert_eq!(drafted.err(), Some(Error::Encoding(Fault::TruncatedCount)));
}

#[test]
fn names_get_ids_in_order_and_keep_them() {
    let mut graph = Graph::new();
    let a = graph.writer.intern(SchemaKind::PropertyKey, "a");
    let b = graph.writer.intern(SchemaKind::PropertyKey, "b");
    assert_eq!((a, b), (0, 1));
    assert_eq!(graph.writer.owed_len(), 5, "a block, and two records for each name");
    assert_eq!(graph.writer.intern(SchemaKind::PropertyKey, "a"), 0);
    assert_eq!(graph.writer.intern(SchemaKind::Label, "a"), 0);
    assert_eq!(graph.writer.owed_len(), 8);
}

#[test]
fn a_new_name_is_recorded_under_its_name_and_its_id() {
    let mut graph = Graph::new();
    graph.upsert_edge(b"a", "knows", b"b").unwrap();
    graph.upsert_edge(b"a", "likes", b"b").unwrap();
    let name = Key::SchemaName(SchemaKind::Predicate, Bytes::from_static(b"likes"));
    assert_eq!(graph.get(name).unwrap().as_ref(), [1, 0, 0, 0]);
    let entry = graph.get(Key::SchemaId(SchemaKind::Predicate, 1)).unwrap();
    assert_eq!(entry.as_ref(), b"\x01likes", "a predicate has its reverse projection");
    graph.upsert_node(b"a", &["Person".to_string()], Vec::new()).unwrap();
    let entry = graph.get(Key::SchemaId(SchemaKind::Label, 0)).unwrap();
    assert_eq!(entry.as_ref(), b"\x00Person");
}

#[test]
fn of_two_values_under_one_name_the_later_one_stays() {
    let mut graph = Graph::new();
    let named = vec![
        ("k".to_string(), TypedValue::Int(1)),
        ("j".to_string(), TypedValue::Int(2)),
        ("k".to_string(), TypedValue::Int(3)),
    ];
    graph.upsert_edge_with_props(b"a", "knows", b"b", named).unwrap();
    let a = graph.lookup_uid(b"a").unwrap();
    let b = graph.lookup_uid(b"b").unwrap();
    let keyed = graph.edge_props(a, graph.pred("knows"), b).unwrap();
    assert_eq!(keyed.len(), 2);
    assert_eq!(keyed.get(&0), Some(&TypedValue::Int(3)));
    assert_eq!(keyed.get(&1), Some(&TypedValue::Int(2)));
}

#[test]
fn a_block_is_reserved_with_the_first_id_and_when_it_is_used_up() {
    let store = empty_store();
    let mut allocs = load_allocators(&store);
    let (first, block) = allocs.allocate_uid();
    assert_eq!(first, Uid(0));
    let (key, value) = block.unwrap();
    assert_eq!(key.as_ref(), b"A/uid");
    assert_eq!(value.as_ref(), [0, 0, 0, 0, 0, 0, 0, 0, 0, 0, 0, 0, 0, 0, 0x10, 0]);
    for n in 1..4096 {
        let (uid, block) = allocs.allocate_uid();
        assert_eq!(uid, Uid(n));
        assert!(block.is_none());
    }
    let (uid, block) = allocs.allocate_uid();
    assert_eq!(uid, Uid(4096));
    let (_, value) = block.unwrap();
    assert_eq!(value.as_ref(), [0, 0, 0, 0, 0, 0, 0x10, 0, 0, 0, 0, 0, 0, 0, 0x10, 0]);
}

#[test]
fn every_id_space_counts_for_itself() {
    let mut allocs = load_allocators(&empty_store());
    assert_eq!(allocs.allocate_label().0, LabelId(0));
    assert_eq!(allocs.allocate_label().0, LabelId(1));
    assert_eq!(allocs.allocate_pred().0, PredId(0));
    assert_eq!(allocs.allocate_prop().0, 0);
    assert_eq!(allocs.next_seq().0, 0);
    assert_eq!(allocs.allocate_name(SchemaKind::Label).0, 2);
    assert_eq!(allocs.allocate_name(SchemaKind::Predicate).0, 1);
    assert_eq!(allocs.allocate_name(SchemaKind::PropertyKey).0, 1);
}

#[test]
fn each_id_space_has_its_own_room() {
    let allocs = load_allocators(&empty_store());
    let names = 0x1_0000_0000;
    assert!(allocs.has_room(names, names, names, names));
    assert!(!allocs.has_room(names + 1, 0, 0, 0));
    assert!(!allocs.has_room(0, names + 1, 0, 0));
    assert!(!allocs.has_room(0, 0, names + 1, 0));
    assert!(allocs.has_room(0, 0, 0, names + 1));
    assert!(!allocs.has_room(0, 0, 0, usize::MAX));
}

#[test]
fn a_batch_holds_its_parts_in_order() {
    let mut graph = Graph::new();
    let draft = EdgeDraft {
        src: Uid(1),
        pred: PredId(2),
        dst: Uid(3),
        ops: Vec::new(),
        places: Vec::new(),
    };
    let out_ops = posting_add(Direction::Out, Uid(1), PredId(2), Uid(3));
    let in_ops = posting_add(Direction::In, Uid(3), PredId(2), Uid(1));
    let batch = graph.writer.upsert_edge(draft, out_ops, in_ops);
    let keys = batch_keys(&batch);
    let expected = vec![
        posting(Direction::Out, Uid(1), PredId(2)),
        posting(Direction::In, Uid(3), PredId(2)),
        key_bytes(&degree_key(PredId(2), Direction::Out, Uid(1))),
        key_bytes(&degree_key(PredId(2), Direction::In, Uid(3))),
        Bytes::from_static(b"A/seq"),
        key_bytes(&Key::Log(1)),
        key_bytes(&latest_seq_key()),
    ];
    assert_eq!(keys, expected);
    assert_eq!(batch.options.seqnum, 1);
}

#[test]
fn a_split_is_a_batch_of_its_own_or_none() {
    let graph = Graph::new();
    assert!(graph.writer.split_batch(Vec::new(), Vec::new()).is_none());
    let out_ops = posting_add(Direction::Out, Uid(1), PredId(2), Uid(3));
    let in_ops = posting_add(Direction::In, Uid(3), PredId(2), Uid(1));
    assert_eq!(graph.writer.split_batch(out_ops, in_ops).unwrap().len(), 2);
    let in_ops = posting_add(Direction::In, Uid(3), PredId(2), Uid(1));
    assert_eq!(graph.writer.split_batch(Vec::new(), in_ops).unwrap().len(), 1);
}

#[test]
fn a_name_drawn_by_a_refused_write_is_stored_with_the_next_one() {
    let store = empty_store();
    let mut graph = Graph::open(&store);
    let huge = TypedValue::Bytes(Bytes::from(vec![0u8; DEFAULT_NODE_SIZE_CAP]));
    assert!(graph.upsert_node(b"doc", &[], props(&[("blob", huge)])).is_err());
    let id = graph.writer.schema_id(SchemaKind::PropertyKey, "blob").unwrap();
    assert_eq!(get(&store, &Key::SchemaId(SchemaKind::PropertyKey, id)), None);
    assert!(graph.writer.owed_len() > 0);

    graph.upsert_node(b"doc", &[], props(&[("blob", TypedValue::Int(1))])).unwrap();
    assert_eq!(graph.writer.owed_len(), 0, "an applied batch pays what was owed");

    let reopened = Graph::open(&store);
    assert_eq!(reopened.writer.schema_id(SchemaKind::PropertyKey, "blob"), Some(id));
    let uid = reopened.lookup_uid(b"doc").unwrap();
    assert_eq!(reopened.node(uid).unwrap().props.get(&id), Some(&TypedValue::Int(1)));
}

#[test]
fn a_name_drawn_before_a_failed_read_is_stored_with_the_next_write() {
    let store = empty_store();
    let mut graph = Graph::open(&store);
    let resolved = Resolution { uid: Uid(4), ops: Vec::new(), places: Vec::new() };
    let drafted = graph.writer.draft_node(
        b"x",
        &["Kept".to_string()],
        Vec::new(),
        resolved,
        Err(Error::Storage),
    );
    assert_eq!(drafted.err(), Some(Error::Storage));
    let id = graph.writer.schema_id(SchemaKind::Label, "Kept").unwrap();

    graph.upsert_edge(b"a", "knows", b"b").unwrap();
    let reopened = Graph::open(&store);
    assert_eq!(reopened.writer.schema_id(SchemaKind::Label, "Kept"), Some(id));
}

#[test]
fn what_a_failed_batch_held_goes_into_the_next_one() {
    let store = empty_store();
    let mut graph = Graph::open(&store);
    graph.fail_next = true;
    assert!(graph.upsert_edge(b"a", "knows", b"b").is_err());
    let knows = graph.pred("knows");
    assert!(graph.writer.owed_len() > 0);
    assert_eq!(graph.upsert_edge(b"c", "knows", b"d"), Ok(2));
    assert_eq!(graph.writer.owed_len(), 0);
    let d = graph.lookup_uid(b"d").unwrap();
    assert_eq!(d, Uid(3), "the uids of the failed batch are gone");

    let mut reopened = Graph::open(&store);
    assert_eq!(reopened.pred("knows"), knows);
    assert_eq!(reopened.writer.latest_seq(), 2);
    let next = reopened.upsert_edge(b"e", "likes", b"f").unwrap();
    assert!(next > 2);
    let e = reopened.lookup_uid(b"e").unwrap();
    let f = reopened.lookup_uid(b"f").unwrap();
    assert!(e > d && f > e, "no uid in the store is handed out again");
    assert!(reopened.pred("likes") > knows);
}

#[test]
fn a_writer_that_only_failed_leaves_an_empty_store() {
    let store = empty_store();
    let mut graph = Graph::open(&store);
    graph.fail_next = true;
    assert!(graph.upsert_edge(b"a", "knows", b"b").is_err());
    let mut reopened = Graph::open(&store);
    assert_eq!(reopened.writer.latest_seq(), 0);
    assert_eq!(reopened.writer.schema_id(SchemaKind::Predicate, "knows"), None);
    assert_eq!(reopened.upsert_edge(b"a", "knows", b"b"), Ok(1));
}

#[test]
fn an_older_batch_pays_nothing_that_a_later_one_still_carries() {
    let mut graph = Graph::new();
    let resolved = graph.writer.resolve_or_create_xid(b"a", None).unwrap();
    let draft = graph.writer.draft_node(b"a", &[], Vec::new(), resolved, Ok(None)).unwrap();
    let first = graph.writer.upsert_node(draft).unwrap();
    let resolved = graph.writer.resolve_or_create_xid(b"b", None).unwrap();
    let draft = graph.writer.draft_node(b"b", &[], Vec::new(), resolved, Ok(None)).unwrap();
    let second = graph.writer.upsert_node(draft).unwrap();
    let owed = graph.writer.owed_len();
    assert_eq!(graph.writer.settle(first.options.seqnum, Ok(())), Ok(1));
    assert_eq!(graph.writer.owed_len(), owed);
    assert_eq!(graph.writer.settle(second.options.seqnum, Ok(())), Ok(2));
    assert_eq!(graph.writer.owed_len(), 0);
}

#[test]
fn both_new_endpoints_are_in_the_batch_of_the_edge() {
    let mut graph = Graph::new();
    let draft = graph.draft_edge(b"user:a", "knows", b"user:b").unwrap();
    let (src, dst) = (draft.src, draft.dst);
    let batch = graph.writer.upsert_edge(draft, Vec::new(), Vec::new());
    for (xid, uid) in [(&b"user:a"[..], src), (&b"user:b"[..], dst)] {
        let mapped = batch.ops.iter().any(|op| match op {
            RecordOp::Put { key: Key::Xid(k), value: Payload::Raw(v) } => {
                k.as_ref() == xid && v.as_ref() == uid.get().to_be_bytes()
            }
            _ => false,
        });
        assert!(mapped);
        let stub = batch.ops.iter().find_map(|op| match op {
            RecordOp::Put { key: Key::Node(u), value: Payload::Raw(v) } if *u == uid => Some(v),
            _ => None,
        });
        let node = graph.writer.get_node(stub.cloned()).unwrap().unwrap();
        assert_eq!(node.xid.as_bytes(), xid);
        assert!(node.labels.is_empty() && node.props.is_empty());
    }
}

#[test]
fn a_failed_end_leaves_the_operations_made_before_it() {
    let mut graph = Graph::new();
    let mut ops = Vec::new();
    let mut places = Vec::new();
    let ended = graph.writer.resolve_and_stub_node(&[0xff], None, &mut ops, &mut places);
    assert_eq!(ended.err(), Some(not_utf8(&[0xff])));
    assert_eq!(places, [0], "the block of the uid goes before the mapping");
    assert_eq!(ops.len(), 1, "the mapping is there, the node is not");
    let mapping = RecordOp::Put {
        key: Key::Xid(Bytes::from_static(&[0xff])),
        value: Payload::Raw(Bytes::from_static(&[0; 8])),
    };
    assert_eq!(storage_text(&ops[0]), storage_text(&mapping));
}

#[test]
fn deleting_a_node_leaves_everything_else() {
    let mut graph = Graph::new();
    graph.upsert_edge_with_props(b"a", "knows", b"b", since()).unwrap();
    let a = graph.lookup_uid(b"a").unwrap();
    let b = graph.lookup_uid(b"b").unwrap();
    let pred = graph.pred("knows");
    let before = graph.writer.latest_seq();
    let seq = graph.delete_node(b"b").unwrap();
    assert!(seq > before);
    assert_eq!(graph.lookup_uid(b"b"), Some(b));
    assert_eq!(graph.node(b).unwrap().xid, "b");
    assert!(graph.edge_props(a, pred, b).is_some());
    assert_eq!(graph.degree(pred, Direction::Out, a), 1);
    assert!(!graph.neighbors(a, pred, Direction::Out).contains(b.get()));
    graph.upsert_edge(b"a", "knows", b"c").unwrap();
    let out = graph.neighbors(a, pred, Direction::Out);
    assert!(!out.contains(b.get()), "a deleted node stays out");
    assert!(out.contains(graph.lookup_uid(b"c").unwrap().get()));
}

#[test]
fn a_restart_keeps_properties_and_degrees() {
    let store = empty_store();
    let mut graph = Graph::open(&store);
    graph.upsert_edge_with_props(b"a", "knows", b"b", since()).unwrap();
    graph.fail_next = true;
    assert!(graph.delete_edge(b"a", "knows", b"b").is_err());
    let mut graph = Graph::open(&store);
    graph.upsert_edge(b"a", "knows", b"b").unwrap();
    let a = graph.lookup_uid(b"a").unwrap();
    let b = graph.lookup_uid(b"b").unwrap();
    let pred = graph.pred("knows");
    assert!(graph.edge_props(a, pred, b).is_some());
    assert_eq!(graph.degree(pred, Direction::Out, a), 2);
    graph.delete_edge(b"a", "knows", b"b").unwrap();
    assert_eq!(graph.edge_props(a, pred, b), None);
    assert_eq!(graph.degree(pred, Direction::Out, a), 1);
}

#[test]
fn named_values_fit_up_to_the_range_of_a_count() {
    let named = |n: usize| -> Vec<(String, TypedValue)> {
        (0..n).map(|i| (format!("k{i}"), TypedValue::Null)).collect()
    };
    assert!(named_fit(&named(0)));
    assert!(named_fit(&named(0xffff)));
    assert!(!named_fit(&named(0x1_0000)));
}

#[test]
fn a_cache_rebuilt_from_definitions_knows_each_name() {
    let entry = |name: &str| SchemaEntry {
        name: name.to_string(),
        value_type: ValType::Untyped,
        directives: Directives { reverse: false },
    };
    let definitions = vec![
        (SchemaKind::Label, 7, entry("a")),
        (SchemaKind::Predicate, 3, entry("a")),
        (SchemaKind::Label, 9, entry("b")),
    ];
    let cache = SchemaCache::rebuild(&definitions);
    assert_eq!(cache.id_of(SchemaKind::Label, "a"), Some(7));
    assert_eq!(cache.id_of(SchemaKind::Predicate, "a"), Some(3));
    assert_eq!(cache.id_of(SchemaKind::Label, "b"), Some(9));
    assert_eq!(cache.id_of(SchemaKind::PropertyKey, "a"), None);
}

#[test]
fn signed_integer_property_records_round_trip() {
    let mut graph = Graph::new();
    let metadata = props(&[("offset", TypedValue::Int(-42))]);
    graph.upsert_node(b"vertex/signed", &[], metadata).unwrap();
    let offset = graph.writer.schema_id(SchemaKind::PropertyKey, "offset").unwrap();
    let uid = graph.lookup_uid(b"vertex/signed").unwrap();
    let node = graph.node(uid).unwrap();
    assert_eq!(node.xid, "vertex/signed");
    assert_eq!(node.props.len(), 1);
    assert_eq!(node.props.get(&offset), Some(&TypedValue::Int(-42)));

    let encoded = |value: i64| {
        let mut map = EdgeProps::new();
        map.insert(offset, TypedValue::Int(value));
        encode_edge_props(&map)
    };
    assert_ne!(encoded(-1), encoded(1));
}

#[test]
fn the_batch_of_a_new_node_is_in_order() {
    let mut graph = Graph::new();
    let resolved = graph.writer.resolve_or_create_xid(b"a", None).unwrap();
    let labels = ["L".to_string()];
    let named = props(&[("p", TypedValue::Int(1)), ("q", TypedValue::Int(2))]);
    let draft = graph.writer.draft_node(b"a", &labels, named, resolved, Ok(None)).unwrap();
    let batch = graph.writer.upsert_node(draft).unwrap();
    let name = |kind, text: &'static [u8]| {
        key_bytes(&Key::SchemaName(kind, Bytes::from_static(text)))
    };
    let id = |kind, id| key_bytes(&Key::SchemaId(kind, id));
    let expected = vec![
        Bytes::from_static(b"A/uid"),
        key_bytes(&Key::Xid(Bytes::from_static(b"a"))),
        Bytes::from_static(b"A/label"),
        name(SchemaKind::Label, b"L"),
        id(SchemaKind::Label, 0),
        Bytes::from_static(b"A/prop"),
        name(SchemaKind::PropertyKey, b"p"),
        id(SchemaKind::PropertyKey, 0),
        name(SchemaKind::PropertyKey, b"q"),
        id(SchemaKind::PropertyKey, 1),
        key_bytes(&Key::Node(Uid(0))),
        Bytes::from_static(b"A/seq"),
        key_bytes(&Key::Log(1)),
        key_bytes(&latest_seq_key()),
    ];
    assert_eq!(batch_keys(&batch), expected);
}

#[test]
fn the_batch_of_a_new_edge_is_in_order() {
    let mut graph = Graph::new();
    let draft = graph.draft_edge(b"a", "knows", b"b").unwrap();
    let (a, pred, b) = (draft.src, draft.pred, draft.dst);
    let (to_out, to_in) = draft.posting_adds();
    assert_eq!(to_out, (Direction::Out, a, pred, b));
    assert_eq!(to_in, (Direction::In, b, pred, a));
    let (out_ops, in_ops) = (added(to_out), added(to_in));
    let batch = graph.writer.upsert_edge_with_props(draft, out_ops, in_ops, since());
    let expected = vec![
        Bytes::from_static(b"A/uid"),
        key_bytes(&Key::Xid(Bytes::from_static(b"a"))),
        key_bytes(&Key::Node(a)),
        key_bytes(&Key::Xid(Bytes::from_static(b"b"))),
        key_bytes(&Key::Node(b)),
        Bytes::from_static(b"A/pred"),
        key_bytes(&Key::SchemaName(SchemaKind::Predicate, Bytes::from_static(b"knows"))),
        key_bytes(&Key::SchemaId(SchemaKind::Predicate, 0)),
        posting(Direction::Out, a, pred),
        posting(Direction::In, b, pred),
        key_bytes(&degree_key(pred, Direction::Out, a)),
        key_bytes(&degree_key(pred, Direction::In, b)),
        Bytes::from_static(b"A/prop"),
        key_bytes(&Key::SchemaName(SchemaKind::PropertyKey, Bytes::from_static(b"since"))),
        key_bytes(&Key::SchemaId(SchemaKind::PropertyKey, 0)),
        key_bytes(&Key::EdgeProp(a, pred, b)),
        Bytes::from_static(b"A/seq"),
        key_bytes(&Key::Log(1)),
        key_bytes(&latest_seq_key()),
    ];
    assert_eq!(batch_keys(&batch), expected);
}

#[test]
fn what_earlier_writes_owe_goes_first() {
    let mut graph = Graph::new();
    graph.upsert_node(b"a", &["L".to_string()], Vec::new()).unwrap();
    graph.fail_next = true;
    assert!(graph.upsert_edge(b"a", "knows", b"b").is_err());
    let draft = graph.draft_edge(b"a", "likes", b"c").unwrap();
    let batch = graph.writer.upsert_edge(draft, Vec::new(), Vec::new());
    let keys = batch_keys(&batch);
    let pred = |text: &'static [u8]| {
        key_bytes(&Key::SchemaName(SchemaKind::Predicate, Bytes::from_static(text)))
    };
    let id = |id| key_bytes(&Key::SchemaId(SchemaKind::Predicate, id));
    assert_eq!(keys[..3], [Bytes::from_static(b"A/pred"), pred(b"knows"), id(0)]);
    assert_eq!(keys[3], key_bytes(&Key::Xid(Bytes::from_static(b"c"))));
    assert_eq!(keys[5..7], [pred(b"likes"), id(1)]);
}

#[test]
fn nothing_to_delete_asks_for_no_number() {
    let mut graph = Graph::new();
    graph.upsert_edge(b"a", "knows", b"b").unwrap();
    let owed = graph.writer.owed_len();
    assert_eq!(graph.delete_edge(b"a", "likes", b"b"), Ok(1));
    assert_eq!(graph.delete_node(b"zz"), Ok(1));
    assert_eq!(graph.writer.owed_len(), owed);
    assert_eq!(graph.upsert_node(b"c", &[], Vec::new()), Ok(2));
}
