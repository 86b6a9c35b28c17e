//! Runs of insertions and deletions.

use crate::rle::{HasLength, HasUnits, MergableSpan, SplitAndMerge, SplitableSpan};
use vstd::prelude::*;

verus! {

/// What an operation does.
#[derive(Copy, Clone, Debug, PartialEq, Eq, Structural)]
pub enum InsDelTag {
    Ins,
    Del,
}

/// One keystroke: an item inserted or deleted at a position. For an
/// insertion with known content, `content` is the index of its character
/// in the content of the log.
#[derive(Copy, Clone, Debug, PartialEq, Eq, Structural)]
pub struct UnitOp {
    pub tag: InsDelTag,
    pub pos: usize,
    pub content_known: bool,
    pub content: usize,
}

/// A run of keystrokes of one kind at adjacent places.
///
/// - An insertion of `start..end` puts its items at the positions from
///   `start` on, one after the other.
/// - A forward deletion of `start..end` deletes at `start` once for each
///   of its items: the items that stood at `start..end`.
/// - A backward deletion (`fwd` not set) of `start..end` deletes the item
///   at `end - 1`, then the one before it, and so on: what backspace does.
#[derive(Copy, Clone, Debug, PartialEq, Eq, Structural)]
pub struct OpSpan {
    pub tag: InsDelTag,
    pub start: usize,
    pub end: usize,
    pub fwd: bool,
    /// Whether the inserted characters are known.
    pub content_known: bool,
    /// Index in the content of the log of the first character.
    pub content_start: usize,
}

impl OpSpan {
    /// An insertion of `len` items at `pos`, with its characters at
    /// `content_start` in the content of the log.
    pub fn new_insert(pos: usize, len: usize, content_start: usize) -> (op: OpSpan)
        requires
            len > 0,
            pos + len <= usize::MAX,
            content_start + len <= usize::MAX,
        ensures
            op.wf(),
            op.spec_len() == len,
            op.tag == InsDelTag::Ins,
            op.unitwise_at(pos),
            op.content_known,
            op.content_start == content_start,
            forall|k: nat|
                k < len ==> #[trigger] op.spec_unit(k) == (UnitOp {
                    tag: InsDelTag::Ins,
                    pos: (pos + k) as usize,
                    content_known: true,
                    content: (content_start + k) as usize,
                }),
    {
        OpSpan {
            tag: InsDelTag::Ins,
            start: pos,
            end: pos + len,
            fwd: true,
            content_known: true,
            content_start,
        }
    }

    /// A forward deletion of the `len` items at `pos`.
    pub fn new_delete(pos: usize, len: usize) -> (op: OpSpan)
        requires
            len > 0,
            pos + len <= usize::MAX,
        ensures
            op.wf(),
            op.spec_len() == len,
            op.tag == InsDelTag::Del,
            op.unitwise_at(pos),
            !op.content_known,
            forall|k: nat|
                k < len ==> #[trigger] op.spec_unit(k) == (UnitOp {
                    tag: InsDelTag::Del,
                    pos,
                    content_known: false,
                    content: 0,
                }),
    {
        OpSpan {
            tag: InsDelTag::Del,
            start: pos,
            end: pos + len,
            fwd: true,
            content_known: false,
            content_start: 0,
        }
    }

    /// The run goes forwards from position `pos`.
    pub open spec fn unitwise_at(&self, pos: usize) -> bool {
        self.start == pos && self.fwd
    }

    /// Keystroke `k` of the run.
    pub fn unit(&self, k: usize) -> (u: UnitOp)
        requires
            self.wf(),
            k < self.spec_len(),
        ensures
            u == self.spec_unit(k as nat),
    {
        let pos = match self.tag {
            InsDelTag::Ins => self.start + k,
            InsDelTag::Del => if self.fwd {
                self.start
            } else {
                self.end - 1 - k
            },
        };
        UnitOp {
            tag: self.tag,
            pos,
            content_known: self.content_known,
            content: if self.content_known {
                self.content_start + k
            } else {
                0
            },
        }
    }
}

impl HasLength for OpSpan {
    /// The run is not empty; an insertion runs forwards; and the
    /// characters of known content lie within the index space.
    open spec fn wf(&self) -> bool {
        &&& self.start < self.end
        &&& self.tag == InsDelTag::Ins ==> self.fwd
        &&& self.end - self.start == 1 ==> self.fwd
        &&& if self.content_known {
            self.tag == InsDelTag::Ins && self.content_start + (self.end - self.start)
                <= usize::MAX
        } else {
            self.content_start == 0
        }
    }

    open spec fn spec_len(&self) -> nat {
        (self.end - self.start) as nat
    }

    fn len(&self) -> (n: usize) {
        self.end - self.start
    }
}

impl SplitableSpan for OpSpan {
    open spec fn spec_head(self, at: nat) -> OpSpan {
        let (start, end) = if self.tag == InsDelTag::Del && !self.fwd {
            ((self.end - at) as usize, self.end)
        } else {
            (self.start, (self.start + at) as usize)
        };
        OpSpan { start, end, fwd: self.fwd || at == 1, ..self }
    }

    open spec fn spec_tail(self, at: nat) -> OpSpan {
        let len = self.end - self.start;
        let (start, end) = match self.tag {
            InsDelTag::Ins => ((self.start + at) as usize, self.end),
            InsDelTag::Del => (self.start, (self.end - at) as usize),
        };
        OpSpan {
            start,
            end,
            fwd: self.fwd || len - at == 1,
            content_start: if self.content_known {
                (self.content_start + at) as usize
            } else {
                0
            },
            ..self
        }
    }

    proof fn lemma_split_lengths(self, at: nat) {
    }

    fn truncate(&mut self, at: usize) -> (rem: OpSpan) {
        let len = self.end - self.start;
        let (start, end) = match self.tag {
            InsDelTag::Ins => (self.start + at, self.end),
            InsDelTag::Del => (self.start, self.end - at),
        };
        let rem = OpSpan {
            tag: self.tag,
            start,
            end,
            fwd: self.fwd || len - at == 1,
            content_known: self.content_known,
            content_start: if self.content_known {
                self.content_start + at
            } else {
                0
            },
        };
        if !self.fwd {
            self.start = self.end - at;
        } else {
            self.end = self.start + at;
        }
        self.fwd = self.fwd || at == 1;
        rem
    }

    fn truncate_keeping_right(&mut self, at: usize) -> (head: OpSpan) {
        let len = self.end - self.start;
        let (start, end) = if !self.fwd {
            (self.end - at, self.end)
        } else {
            (self.start, self.start + at)
        };
        let head = OpSpan {
            tag: self.tag,
            start,
            end,
            fwd: self.fwd || at == 1,
            content_known: self.content_known,
            content_start: self.content_start,
        };
        match self.tag {
            InsDelTag::Ins => {
                self.start = self.start + at;
            },
            InsDelTag::Del => {
                self.end = self.end - at;
            },
        }
        self.fwd = self.fwd || len - at == 1;
        if self.content_known {
            self.content_start = self.content_start + at;
        }
        head
    }
}

impl MergableSpan for OpSpan {
    /// `other` goes on where `self` ends: an insertion behind the last
    /// inserted item; a forward deletion at the same position; a backward
    /// deletion just before the position. Insertions and deletions are
    /// never joined, nor runs of which only one has known content; known
    /// content has to go on without a gap.
    open spec fn spec_can_append(&self, other: &OpSpan) -> bool {
        &&& self.tag == other.tag
        &&& self.content_known == other.content_known
        &&& self.content_known ==> other.content_start == self.content_start + (self.end
            - self.start)
        &&& match self.tag {
            InsDelTag::Ins => other.start == self.end,
            InsDelTag::Del => {
                ||| ((self.end - self.start == 1 || self.fwd) && (other.end - other.start == 1
                    || other.fwd) && other.start == self.start && self.end + (other.end
                    - other.start) <= usize::MAX)
                ||| ((self.end - self.start == 1 || !self.fwd) && (other.end - other.start == 1
                    || !other.fwd) && other.end == self.start)
            },
        }
    }

    open spec fn spec_append(self, other: OpSpan) -> OpSpan {
        let len = other.end - other.start;
        if self.tag == InsDelTag::Ins || other.start == self.start {
            OpSpan { end: (self.end + len) as usize, fwd: true, ..self }
        } else {
            OpSpan { start: other.start, fwd: false, ..self }
        }
    }

    proof fn lemma_append_length(self, other: OpSpan) {
    }

    fn can_append(&self, other: &OpSpan) -> (b: bool) {
        if self.tag != other.tag || self.content_known != other.content_known {
            return false;
        }
        let self_len = self.end - self.start;
        if self.content_known && other.content_start != self.content_start + self_len {
            return false;
        }
        match self.tag {
            InsDelTag::Ins => other.start == self.end,
            InsDelTag::Del => {
                let self_len_1 = self_len == 1;
                let other_len_1 = other.end - other.start == 1;
                ((self_len_1 || self.fwd) && (other_len_1 || other.fwd) && other.start
                    == self.start && other.end - other.start <= usize::MAX - self.end) || ((
                self_len_1 || !self.fwd) && (other_len_1 || !other.fwd) && other.end
                    == self.start)
            },
        }
    }

    fn append(&mut self, other: OpSpan) {
        let len = other.end - other.start;
        if self.tag == InsDelTag::Ins || other.start == self.start {
            self.end = self.end + len;
            self.fwd = true;
        } else {
            self.start = other.start;
            self.fwd = false;
        }
    }

    fn prepend(&mut self, other: OpSpan) {
        let mut joined = other;
        joined.append(*self);
        *self = joined;
    }
}

impl SplitAndMerge for OpSpan {
    proof fn lemma_split_then_append(self, at: nat) {
    }
}

impl HasUnits for OpSpan {
    type Unit = UnitOp;

    open spec fn spec_unit(&self, k: nat) -> UnitOp {
        UnitOp {
            tag: self.tag,
            pos: match self.tag {
                InsDelTag::Ins => (self.start + k) as usize,
                InsDelTag::Del => if self.fwd {
                    self.start
                } else {
                    (self.end - 1 - k) as usize
                },
            },
            content_known: self.content_known,
            content: if self.content_known {
                (self.content_start + k) as usize
            } else {
                0
            },
        }
    }

    proof fn lemma_append_units(self, other: OpSpan, k: nat) {
    }
}

/// Cutting a run keeps its keystrokes: the first half has the first `at`,
/// the second half the rest.
pub proof fn law_split_keeps_units(op: OpSpan, at: nat, k: nat)
    requires
        op.wf(),
        0 < at < op.spec_len(),
        k < op.spec_len(),
    ensures
        op.spec_unit(k) == (if k < at {
            op.spec_head(at).spec_unit(k)
        } else {
            op.spec_tail(at).spec_unit((k - at) as nat)
        }),
{
}

} // verus!
