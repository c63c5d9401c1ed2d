//! The node, edge and changelog records of a property graph, their byte formats, and the
//! write path that lowers graph mutations to atomic batches of storage operations.

pub mod allocators;
pub mod batch_laws;
pub mod bitmap;
pub mod buffer;
pub mod canonical;
pub mod change;
pub mod codec_laws;
pub mod coherence;
pub mod cursor;
pub mod endian;
pub mod error;
pub mod fixed;
pub mod format_laws;
pub mod history;
pub mod identity_laws;
pub mod ids;
pub mod labels;
pub mod meaning;
pub mod merge;
pub mod message;
pub mod model;
pub mod node;
pub mod props;
pub mod schema;
pub mod stats;
pub mod step_laws;
pub mod store;
pub mod store_laws;
pub mod text;
pub mod value;
pub mod view_laws;
pub mod weave_laws;
pub mod write;
pub mod write_laws;
