//! Ranges of versions that are walked forwards or backwards.

use crate::dtrange::DTRange;
use crate::rle::{HasLength, MergableSpan, SplitAndMerge, SplitableSpan};
use vstd::prelude::*;

verus! {

/// A range that stands for its versions in ascending order (`fwd`) or in
/// descending order. The inner span itself always runs upwards.
#[derive(Copy, Clone, Debug, Default)]
pub struct RangeRev {
    /// The inner span.
    pub span: DTRange,
    /// Whether the versions of `1..4` come as 1, 2, 3 or as 3, 2, 1.
    pub fwd: bool,
}

impl RangeRev {
    /// The version at the given place in the order of the range.
    pub fn lv_at_offset(&self, offset: usize) -> (v: usize)
        requires
            self.span.start <= self.span.end,
            offset < self.span.end - self.span.start,
        ensures
            v == (if self.fwd {
                self.span.start + offset
            } else {
                self.span.end - offset - 1
            }),
            self.span.start <= v < self.span.end,
    {
        if self.fwd {
            self.span.start + offset
        } else {
            self.span.end - offset - 1
        }
    }

    /// The versions at the places from `offset_start` up to `offset_end`
    /// in the order of the range, as a span.
    pub fn range(&self, offset_start: usize, offset_end: usize) -> (r: DTRange)
        requires
            self.span.start <= self.span.end,
            offset_start <= offset_end,
            self.span.start + offset_end <= self.span.end,
        ensures
            r == (if self.fwd {
                DTRange {
                    start: (self.span.start + offset_start) as usize,
                    end: (self.span.start + offset_end) as usize,
                }
            } else {
                DTRange {
                    start: (self.span.end - offset_end) as usize,
                    end: (self.span.end - offset_start) as usize,
                }
            }),
            r.end - r.start == offset_end - offset_start,
            self.span.start <= r.start <= r.end <= self.span.end,
    {
        if self.fwd {
            DTRange { start: self.span.start + offset_start, end: self.span.start + offset_end }
        } else {
            DTRange { start: self.span.end - offset_end, end: self.span.end - offset_start }
        }
    }

    /// The range of a span, forwards.
    pub fn from_span(target: DTRange) -> (r: RangeRev)
        ensures
            r == (RangeRev { span: target, fwd: true }),
    {
        RangeRev { span: target, fwd: true }
    }

    /// Whether the two ranges stand for the same versions in the same
    /// order: the spans are equal, and the directions too unless the
    /// ranges hold at most one version.
    pub open spec fn same_as(&self, other: &RangeRev) -> bool {
        self.span == other.span && (self.fwd == other.fwd || self.span.end - self.span.start <= 1)
    }

    pub fn same(&self, other: &RangeRev) -> (b: bool)
        requires
            self.span.start <= self.span.end,
        ensures
            b == self.same_as(other),
    {
        self.span == other.span && (self.fwd == other.fwd || self.span.end - self.span.start <= 1)
    }
}

impl HasLength for RangeRev {
    /// A range holds at least one version.
    open spec fn wf(&self) -> bool {
        self.span.start < self.span.end
    }

    open spec fn spec_len(&self) -> nat {
        (self.span.end - self.span.start) as nat
    }

    fn len(&self) -> (n: usize) {
        self.span.end - self.span.start
    }
}

impl SplitableSpan for RangeRev {
    open spec fn spec_head(self, at: nat) -> RangeRev {
        if self.fwd {
            RangeRev {
                span: DTRange { start: self.span.start, end: (self.span.start + at) as usize },
                fwd: true,
            }
        } else {
            RangeRev {
                span: DTRange { start: (self.span.end - at) as usize, end: self.span.end },
                fwd: false,
            }
        }
    }

    open spec fn spec_tail(self, at: nat) -> RangeRev {
        if self.fwd {
            RangeRev {
                span: DTRange { start: (self.span.start + at) as usize, end: self.span.end },
                fwd: true,
            }
        } else {
            RangeRev {
                span: DTRange { start: self.span.start, end: (self.span.end - at) as usize },
                fwd: false,
            }
        }
    }

    proof fn lemma_split_lengths(self, at: nat) {
    }

    fn truncate(&mut self, at: usize) -> (rem: RangeRev) {
        if self.fwd {
            let split = self.span.start + at;
            let rem = RangeRev { span: DTRange { start: split, end: self.span.end }, fwd: true };
            self.span.end = split;
            rem
        } else {
            let split = self.span.end - at;
            let rem = RangeRev { span: DTRange { start: self.span.start, end: split }, fwd: false };
            self.span.start = split;
            rem
        }
    }

    fn truncate_keeping_right(&mut self, at: usize) -> (head: RangeRev) {
        if self.fwd {
            let split = self.span.start + at;
            let head = RangeRev { span: DTRange { start: self.span.start, end: split }, fwd: true };
            self.span.start = split;
            head
        } else {
            let split = self.span.end - at;
            let head = RangeRev { span: DTRange { start: split, end: self.span.end }, fwd: false };
            self.span.end = split;
            head
        }
    }
}

impl MergableSpan for RangeRev {
    /// `other` goes on where `self` ends, in a direction that both can
    /// have: a range of one version has either.
    open spec fn spec_can_append(&self, other: &RangeRev) -> bool {
        let self_len_1 = self.span.end - self.span.start == 1;
        let other_len_1 = other.span.end - other.span.start == 1;
        ||| ((self_len_1 || self.fwd) && (other_len_1 || other.fwd) && other.span.start
            == self.span.end)
        ||| ((self_len_1 || !self.fwd) && (other_len_1 || !other.fwd) && other.span.end
            == self.span.start)
    }

    open spec fn spec_append(self, other: RangeRev) -> RangeRev {
        if other.span.start >= self.span.start {
            RangeRev { span: DTRange { start: self.span.start, end: other.span.end }, fwd: true }
        } else {
            RangeRev { span: DTRange { start: other.span.start, end: self.span.end }, fwd: false }
        }
    }

    proof fn lemma_append_length(self, other: RangeRev) {
    }

    fn can_append(&self, other: &RangeRev) -> (b: bool) {
        let self_len_1 = self.span.end - self.span.start == 1;
        let other_len_1 = other.span.end - other.span.start == 1;
        // Can we append forward?
        if (self_len_1 || self.fwd) && (other_len_1 || other.fwd) && other.span.start
            == self.span.end {
            return true;
        }
        // Can we append backwards?

        if (self_len_1 || !self.fwd) && (other_len_1 || !other.fwd) && other.span.end
            == self.span.start {
            return true;
        }
        false
    }

    fn append(&mut self, other: RangeRev) {
        self.fwd = other.span.start >= self.span.start;
        if self.fwd {
            self.span.end = other.span.end;
        } else {
            self.span.start = other.span.start;
        }
    }

    fn prepend(&mut self, other: RangeRev) {
        let fwd = self.span.start >= other.span.start;
        if fwd {
            self.span.start = other.span.start;
        } else {
            self.span.end = other.span.end;
        }
        self.fwd = fwd;
    }
}

impl SplitAndMerge for RangeRev {
    proof fn lemma_split_then_append(self, at: nat) {
    }
}

} // verus!
