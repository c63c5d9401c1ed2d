//! What a write reports about itself.

use vstd::prelude::*;

use crate::error::Error;

verus! {

/// A step of a write that is timed.
#[derive(Debug, Clone, Copy, PartialEq, Eq, Structural)]
pub enum Phase {
    EncodeNode,
    EncodeOut,
    EncodeIn,
    IndexFanout,
    BatchCommit,
    LatestSeq,
}

/// How long the steps of one write took, in nanoseconds. A step that the write does not have is
/// absent, not zero.
#[derive(Debug, Clone, Copy, PartialEq, Eq, Structural)]
pub struct WriteStats {
    pub encode_node: Option<u64>,
    pub encode_out: Option<u64>,
    pub encode_in: Option<u64>,
    pub index_fanout: Option<u64>,
    pub batch_commit: Option<u64>,
    pub latest_seq: Option<u64>,
}

impl Default for WriteStats {
    fn default() -> (r: WriteStats)
        ensures
            r.encode_node is None,
            r.encode_out is None,
            r.encode_in is None,
            r.index_fanout is None,
            r.batch_commit is None,
            r.latest_seq is None,
    {
        WriteStats {
            encode_node: None,
            encode_out: None,
            encode_in: None,
            index_fanout: None,
            batch_commit: None,
            latest_seq: None,
        }
    }
}

/// One measurement, if it was taken.
pub open spec fn measured(phase: Phase, nanos: Option<u64>) -> Seq<(Phase, u64)> {
    match nanos {
        Some(n) => seq![(phase, n)],
        None => Seq::empty(),
    }
}

impl WriteStats {
    /// The measurements that were taken, in the order of the steps.
    pub open spec fn phases(self) -> Seq<(Phase, u64)> {
        measured(Phase::EncodeNode, self.encode_node) + measured(Phase::EncodeOut, self.encode_out)
            + measured(Phase::EncodeIn, self.encode_in) + measured(
            Phase::IndexFanout,
            self.index_fanout,
        ) + measured(Phase::BatchCommit, self.batch_commit) + measured(
            Phase::LatestSeq,
            self.latest_seq,
        )
    }

    /// The measurements to report, and the sequence number that the write committed.
    pub fn emit(&self, seq: u64) -> (r: (Vec<(Phase, u64)>, u64))
        ensures
            r.0@ == self.phases(),
            r.1 == seq,
    {
        let mut out: Vec<(Phase, u64)> = Vec::new();
        add_phase(&mut out, Phase::EncodeNode, self.encode_node);
        add_phase(&mut out, Phase::EncodeOut, self.encode_out);
        add_phase(&mut out, Phase::EncodeIn, self.encode_in);
        add_phase(&mut out, Phase::IndexFanout, self.index_fanout);
        add_phase(&mut out, Phase::BatchCommit, self.batch_commit);
        add_phase(&mut out, Phase::LatestSeq, self.latest_seq);
        proof {
            assert(out@ =~= self.phases());
        }
        (out, seq)
    }
}

fn add_phase(out: &mut Vec<(Phase, u64)>, phase: Phase, nanos: Option<u64>)
    ensures
        final(out)@ == old(out)@ + measured(phase, nanos),
{
    match nanos {
        Some(n) => {
            out.push((phase, n));
            proof {
                assert(out@ =~= old(out)@ + measured(phase, nanos));
            }
        },
        None => {
            proof {
                assert(out@ =~= old(out)@ + measured(phase, nanos));
            }
        },
    }
}

/// How a write request ended.
#[derive(Debug, Clone, Copy, PartialEq, Eq, Structural)]
pub enum Outcome {
    Committed,
    OversizeNode,
    Failed,
}

/// What a write request asked for.
#[derive(Debug, Clone, Copy, PartialEq, Eq, Structural)]
pub enum WriteOp {
    UpsertNode,
    UpsertEdge,
    Delete,
}

/// What to count a finished write request under: what it asked for, and how it ended. A node over
/// the cap is told apart from every other failure.
pub fn record_write_outcome(op: WriteOp, result: &Result<u64, Error>) -> (r: (WriteOp, Outcome))
    ensures
        r.0 == op,
        r.1 == match *result {
            Ok(_) => Outcome::Committed,
            Err(Error::OversizeNode { .. }) => Outcome::OversizeNode,
            Err(_) => Outcome::Failed,
        },
{
    let outcome = match result {
        Ok(_) => Outcome::Committed,
        Err(Error::OversizeNode { .. }) => Outcome::OversizeNode,
        Err(_) => Outcome::Failed,
    };
    (op, outcome)
}

} // verus!
