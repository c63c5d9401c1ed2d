//! The node record and its byte format: labels, properties, external id.

use bytes::{Bytes, BytesMut};
use vstd::prelude::*;

use crate::buffer;
use crate::cursor::Parse;
use crate::error;
use crate::error::{Error, ErrorView, Fault};
use crate::ids::{LabelId, PropId};
use crate::labels;
use crate::props;
use crate::props::EdgeProps;
use crate::value;
use crate::value::ValueView;

verus! {

/// The cap on a node's encoding unless another is given: 1 MiB.
pub const DEFAULT_NODE_SIZE_CAP: usize = 1_048_576;

/// The whole of a node as one value, so that one read returns every property.
#[derive(Debug, PartialEq)]
pub struct NodeRecord {
    /// Label ids. The write path keeps them sorted; the codec keeps whatever order it is given.
    pub labels: Vec<LabelId>,
    /// Property values by interned name.
    pub props: EdgeProps,
    /// The external id.
    pub xid: String,
}

impl Clone for NodeRecord {
    fn clone(&self) -> (r: NodeRecord)
        ensures
            r@ == self@,
    {
        let r = NodeRecord {
            labels: self.labels.clone(),
            props: self.props.clone(),
            xid: self.xid.clone(),
        };
        proof {
            assert(r.labels@ =~= self.labels@);
            assert(props::props_view(r.props) =~= props::props_view(self.props));
        }
        r
    }
}

/// What a [`NodeRecord`] holds.
pub struct NodeView {
    pub labels: Seq<LabelId>,
    pub props: Map<PropId, ValueView>,
    pub xid: Seq<char>,
}

impl View for NodeRecord {
    type V = NodeView;

    open spec fn view(&self) -> NodeView {
        NodeView { labels: self.labels@, props: props::props_view(self.props), xid: self.xid@ }
    }
}

impl NodeRecord {
    /// Whether this record can be encoded, as far as counts and buffers go.
    pub fn encodable(&self) -> (r: bool)
        ensures
            r == node_encodable(self@),
    {
        if self.labels.len() > 0xffff || !props::few(&self.props) {
            return false;
        }
        proof {
            labels::lemma_labels_bytes_len(self@.labels);
            value::lemma_blob_bytes_len(vstd::utf8::encode_utf8(self@.xid));
            assert(node_bytes(self@).len() == labels::labels_bytes(self@.labels).len()
                + props::props_bytes(self@.props).len() + value::blob_bytes(
                vstd::utf8::encode_utf8(self@.xid),
            ).len());
        }
        let size: u128 = 2 + 4 * self.labels.len() as u128 + props::encoded_len(&self.props) + 4
            + self.xid.as_str().as_bytes().len() as u128;
        size <= (isize::MAX / 2) as u128
    }
}

/// The encoding of a node record.
pub open spec fn node_bytes(n: NodeView) -> Seq<u8> {
    labels::labels_bytes(n.labels) + props::props_bytes(n.props) + value::blob_bytes(
        vstd::utf8::encode_utf8(n.xid),
    )
}

/// Whether a node record can be encoded: each count has two bytes, and the whole has to fit
/// in a buffer.
pub open spec fn node_encodable(n: NodeView) -> bool {
    &&& n.labels.len() <= 0xffff
    &&& n.props.len() <= 0xffff
    &&& node_bytes(n).len() <= buffer::buffer_limit()
}

/// Labels, then properties, then the external id.
pub open spec fn parse_node(s: Seq<u8>) -> Parse<NodeView> {
    let l = labels::parse_labels(s, "node label id");
    match l.out {
        Err(e) => Parse { out: Err(e), rest: l.rest },
        Ok(ids) => {
            let p = props::parse_props(l.rest, "node prop id");
            match p.out {
                Err(e) => Parse { out: Err(e), rest: p.rest },
                Ok(m) => {
                    let x = value::parse_text(p.rest, "node xid", "xid");
                    match x.out {
                        Err(e) => Parse { out: Err(e), rest: x.rest },
                        Ok(xid) => Parse {
                            out: Ok(NodeView { labels: ids, props: m, xid }),
                            rest: x.rest,
                        },
                    }
                },
            }
        },
    }
}

/// The node record that `s` encodes, or why it encodes none.
pub open spec fn decoded_node(s: Seq<u8>) -> Result<NodeView, ErrorView> {
    props::complete(parse_node(s), "node record")
}

/// A serialization of [`NodeRecord`]. Another one can take the place of [`V0NodeCodec`] without
/// its callers changing.
pub trait NodeCodec {
    /// The records that this codec can be handed.
    spec fn accepts(n: NodeView) -> bool;

    fn encode(record: &NodeRecord) -> Result<Bytes, Error>
        requires
            Self::accepts(record@),
    ;

    fn decode(bytes: &[u8]) -> Result<NodeRecord, Error>;
}

/// The first codec: little-endian, and closed to anything that it did not write itself.
pub struct V0NodeCodec;

impl V0NodeCodec {
    /// Encodes `record`, unless its encoding has more than `cap` bytes.
    pub fn encode_with_cap(record: &NodeRecord, cap: usize) -> (r: Result<Bytes, Error>)
        requires
            node_encodable(record@),
        ensures
            node_bytes(record@).len() <= cap ==> r is Ok && buffer::content(r->Ok_0) == node_bytes(
                record@,
            ),
            node_bytes(record@).len() > cap ==> error::fails(
                r,
                ErrorView::OversizeNode { size: node_bytes(record@).len() as usize, cap },
            ),
    {
        let mut buf = BytesMut::new();
        proof {
            assert(node_bytes(record@).len() == labels::labels_bytes(record@.labels).len()
                + props::props_bytes(record@.props).len() + value::blob_bytes(
                vstd::utf8::encode_utf8(record@.xid),
            ).len());
        }
        labels::write_label_ids(&record.labels, &mut buf);
        props::write_props(&record.props, &mut buf);
        value::write_blob(record.xid.as_str().as_bytes(), &mut buf);
        proof {
            assert(buffer::written(buf) =~= node_bytes(record@));
        }
        let size: usize = buf.len();
        if size > cap {
            return Err(Error::OversizeNode { size, cap });
        }
        Ok(buf.freeze())
    }
}

impl NodeCodec for V0NodeCodec {
    open spec fn accepts(n: NodeView) -> bool {
        node_encodable(n)
    }

    fn encode(record: &NodeRecord) -> (r: Result<Bytes, Error>)
        ensures
            node_bytes(record@).len() <= DEFAULT_NODE_SIZE_CAP ==> r is Ok && buffer::content(
                r->Ok_0,
            ) == node_bytes(record@),
            node_bytes(record@).len() > DEFAULT_NODE_SIZE_CAP ==> error::fails(
                r,
                ErrorView::OversizeNode {
                    size: node_bytes(record@).len() as usize,
                    cap: DEFAULT_NODE_SIZE_CAP,
                },
            ),
    {
        Self::encode_with_cap(record, DEFAULT_NODE_SIZE_CAP)
    }

    fn decode(bytes: &[u8]) -> (r: Result<NodeRecord, Error>)
        ensures
            match decoded_node(bytes@) {
                Ok(n) => r is Ok && r->Ok_0@ == n,
                Err(e) => error::fails(r, e),
            },
    {
        let mut cur = bytes;
        let labels = match labels::read_label_ids(&mut cur, "node label id") {
            Err(e) => {
                return Err(e);
            },
            Ok(labels) => labels,
        };
        let props = match props::read_props(&mut cur, "node prop id") {
            Err(e) => {
                return Err(e);
            },
            Ok(props) => props,
        };
        let xid = match value::read_text(&mut cur, "node xid", "xid") {
            Err(e) => {
                return Err(e);
            },
            Ok(xid) => xid,
        };
        if cur.len() != 0 {
            return Err(Error::Encoding(Fault::Trailing { what: "node record", extra: cur.len() }));
        }
        Ok(NodeRecord { labels, props, xid })
    }
}

} // verus!
