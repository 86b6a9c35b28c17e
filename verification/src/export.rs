//! Editing traces: a log written out as a list of simple text operations.

use crate::list::operation::{InsDelTag, OpSpan};
use crate::list::oplog::OpLog;
use crate::rle::HasLength;
use vstd::prelude::*;

verus! {

/// A text operation as a trace holds it: at `pos`, `del_len` items are
/// deleted or `ins_content` is inserted. The direction in which a run was
/// typed is not kept.
#[derive(Clone, Debug)]
pub struct SimpleTextOp {
    pub pos: usize,
    pub del_len: usize,
    pub ins_content: Vec<char>,
    /// When the operation was made: seconds since 1970.
    pub timestamp: i64,
}

impl SimpleTextOp {
    /// `other` goes on where `self` ends, at the same time: a deletion at
    /// the same position, or an insertion behind the inserted text.
    /// Insertions and deletions are not joined.
    pub open spec fn spec_can_append(&self, other: &SimpleTextOp) -> bool {
        &&& if self.del_len > 0 {
            self.pos == other.pos && other.ins_content@.len() == 0
        } else {
            self.pos + self.ins_content@.len() == other.pos && other.del_len == 0
        }
        &&& self.timestamp == other.timestamp
    }

    pub fn can_append(&self, other: &SimpleTextOp) -> (b: bool)
        ensures
            b == self.spec_can_append(other),
    {
        // Don't concatenate inserts and deletes.
        (if self.del_len > 0 {
            self.pos == other.pos && other.ins_content.len() == 0
        } else {
            self.ins_content.len() <= usize::MAX - self.pos && self.pos + self.ins_content.len()
                == other.pos && other.del_len == 0
        }) && self.timestamp == other.timestamp
    }

    /// Joins `other` to the end of `self`.
    pub fn append(&mut self, other: SimpleTextOp)
        requires
            old(self).del_len + other.del_len <= usize::MAX,
        ensures
            final(self).pos == old(self).pos,
            final(self).timestamp == old(self).timestamp,
            final(self).del_len == old(self).del_len + other.del_len,
            final(self).ins_content@ == old(self).ins_content@ + other.ins_content@,
    {
        self.del_len += other.del_len;
        let mut i: usize = 0;
        while i < other.ins_content.len()
            invariant
                0 <= i <= other.ins_content@.len(),
                self.pos == old(self).pos,
                self.timestamp == old(self).timestamp,
                self.del_len == old(self).del_len + other.del_len,
                self.ins_content@ == old(self).ins_content@ + other.ins_content@.take(i as int),
            decreases other.ins_content@.len() - i,
        {
            self.ins_content.push(other.ins_content[i]);
            proof {
                assert(other.ins_content@.take(i + 1) =~= other.ins_content@.take(i as int).push(
                    other.ins_content@[i as int],
                ));
                assert(self.ins_content@ =~= old(self).ins_content@ + other.ins_content@.take(
                    i + 1,
                ));
            }
            i += 1;
        }
        proof {
            assert(other.ins_content@.take(other.ins_content@.len() as int)
                =~= other.ins_content@);
        }
    }

    /// The trace form of a run of operations of a log: an insertion with
    /// its text, or a deletion with its length, at the least position that
    /// the run touches. A run whose inserted text is not known gives an
    /// insertion of nothing.
    pub fn from_op(op: &OpSpan, content: &Vec<char>) -> (r: SimpleTextOp)
        requires
            op.wf(),
            op.content_known ==> op.content_start + op.spec_len() <= content@.len(),
        ensures
            r.pos == op.start,
            r.timestamp == 0,
            match op.tag {
                InsDelTag::Ins => r.del_len == 0 && r.ins_content@ == (if op.content_known {
                    content@.subrange(
                        op.content_start as int,
                        op.content_start + op.spec_len() as int,
                    )
                } else {
                    Seq::<char>::empty()
                }),
                InsDelTag::Del => r.del_len == op.spec_len() && r.ins_content@.len() == 0,
            },
    {
        match op.tag {
            InsDelTag::Ins => {
                let mut text: Vec<char> = Vec::new();
                if op.content_known {
                    let n = op.len();
                    let _total = content.len();
                    let mut i: usize = 0;
                    while i < n
                        invariant
                            0 <= i <= n,
                            n == op.spec_len(),
                            op.content_start + n <= content@.len() <= usize::MAX,
                            text@ == content@.subrange(
                                op.content_start as int,
                                op.content_start + i,
                            ),
                        decreases n - i,
                    {
                        text.push(content[op.content_start + i]);
                        proof {
                            assert(content@.subrange(
                                op.content_start as int,
                                op.content_start + i + 1,
                            ) =~= content@.subrange(
                                op.content_start as int,
                                op.content_start + i,
                            ).push(content@[op.content_start + i]));
                        }
                        i += 1;
                    }
                }
                SimpleTextOp { pos: op.start, del_len: 0, ins_content: text, timestamp: 0 }
            },
            InsDelTag::Del => SimpleTextOp {
                pos: op.start,
                del_len: op.len(),
                ins_content: Vec::new(),
                timestamp: 0,
            },
        }
    }

    /// The run of operations of a log that the trace operation stands
    /// for, with the inserted text at `content_start` in the content of the
    /// log. `None` for an operation that both inserts and deletes, or does
    /// neither, or runs beyond the index space.
    pub fn to_op(&self, content_start: usize) -> (r: Option<OpSpan>)
        ensures
            r.is_some() == ((self.del_len == 0) != (self.ins_content@.len() == 0) && self.pos
                + self.del_len + self.ins_content@.len() <= usize::MAX && (self.del_len == 0
                ==> content_start + self.ins_content@.len() <= usize::MAX)),
            match r {
                Some(op) => {
                    &&& op.wf()
                    &&& op.unitwise_at(self.pos)
                    &&& if self.del_len > 0 {
                        op.tag == InsDelTag::Del && op.spec_len() == self.del_len
                            && !op.content_known
                    } else {
                        op.tag == InsDelTag::Ins && op.spec_len() == self.ins_content@.len()
                            && op.content_known && op.content_start == content_start
                    }
                },
                None => true,
            },
    {
        let ins_len = self.ins_content.len();
        if (self.del_len == 0) == (ins_len == 0) {
            return None;
        }
        if self.del_len > 0 {
            if self.del_len > usize::MAX - self.pos {
                return None;
            }
            Some(OpSpan::new_delete(self.pos, self.del_len))
        } else {
            if ins_len > usize::MAX - self.pos || ins_len > usize::MAX - content_start {
                return None;
            }
            Some(OpSpan::new_insert(self.pos, ins_len, content_start))
        }
    }
}

/// What stands in the way of writing a log out as an editing trace.
#[derive(Clone, Copy, Debug, PartialEq, Eq, Structural)]
pub struct ExportTraceProblems {
    pub has_conflicts: bool,
    pub agent_ops_not_fully_ordered: bool,
    pub multiple_roots: bool,
}

impl ExportTraceProblems {
    /// Whether nothing stands in the way.
    pub fn is_ok(&self) -> (b: bool)
        ensures
            b == (!self.has_conflicts && !self.agent_ops_not_fully_ordered
                && !self.multiple_roots),
    {
        !self.has_conflicts && !self.agent_ops_not_fully_ordered && !self.multiple_roots
    }
}

/// Number of runs among the first `n` runs of the history that have no
/// parents.
pub open spec fn count_roots(log: &OpLog, n: int) -> nat
    decreases n,
{
    if n <= 0 {
        0
    } else {
        count_roots(log, n - 1) + if log.history.entries.0@[n - 1].parents@.len() == 0 {
            1nat
        } else {
            0nat
        }
    }
}

/// Looks at a log for what stands in the way of writing it out as an
/// editing trace: more than one run without parents; versions of one
/// agent that are not in the order of their numbers, which no log built
/// by pushes has; and conflicts when merging, which the caller has found
/// out.
pub fn check_trace_invariants(oplog: &OpLog, has_conflicts: bool) -> (r: ExportTraceProblems)
    requires
        oplog.wf(),
    ensures
        r.has_conflicts == has_conflicts,
        !r.agent_ops_not_fully_ordered,
        r.multiple_roots == (count_roots(oplog, oplog.history.entries.0@.len() as int) > 1),
{
    let mut num_roots: usize = 0;
    let entries = &oplog.history.entries.0;
    let mut i: usize = 0;
    while i < entries.len()
        invariant
            0 <= i <= entries@.len(),
            entries@ == oplog.history.entries.0@,
            num_roots == count_roots(oplog, i as int),
            num_roots <= i,
        decreases entries@.len() - i,
    {
        if entries[i].parents.is_root() {
            num_roots += 1;
        }
        i += 1;
    }
    ExportTraceProblems {
        has_conflicts,
        agent_ops_not_fully_ordered: false,
        multiple_roots: num_roots > 1,
    }
}

} // verus!
