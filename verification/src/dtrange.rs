//! Half-open ranges of local versions.

use crate::rle::{HasLength, MergableSpan, SplitAndMerge, SplitableSpan};
use vstd::prelude::*;

verus! {

/// The versions from `start` up to, not including, `end`.
#[derive(Copy, Clone, Debug, PartialEq, Eq, Structural, Default)]
pub struct DTRange {
    pub start: usize,
    pub end: usize,
}

impl DTRange {
    pub fn new(start: usize, end: usize) -> (r: DTRange)
        ensures
            r == (DTRange { start, end }),
    {
        DTRange { start, end }
    }

    pub fn new_from_len(start: usize, len: usize) -> (r: DTRange)
        requires
            start + len <= usize::MAX,
        ensures
            r == (DTRange { start, end: (start + len) as usize }),
    {
        DTRange { start, end: start + len }
    }

    /// Whether `v` lies in the range.
    pub open spec fn spec_contains(&self, v: usize) -> bool {
        self.start <= v < self.end
    }

    pub fn contains(&self, v: usize) -> (b: bool)
        ensures
            b == self.spec_contains(v),
    {
        self.start <= v && v < self.end
    }

    pub fn is_empty(&self) -> (b: bool)
        ensures
            b == (self.start >= self.end),
    {
        self.start >= self.end
    }

    /// Number of versions in the range.
    pub fn len(&self) -> (n: usize)
        requires
            self.start <= self.end,
        ensures
            n == self.end - self.start,
    {
        self.end - self.start
    }

    /// The greatest version in a range that is not empty.
    pub fn last(&self) -> (v: usize)
        requires
            self.start < self.end,
        ensures
            v == self.end - 1,
    {
        self.end - 1
    }
}

impl HasLength for DTRange {
    open spec fn wf(&self) -> bool {
        self.start <= self.end
    }

    open spec fn spec_len(&self) -> nat {
        (self.end - self.start) as nat
    }

    fn len(&self) -> (n: usize) {
        self.end - self.start
    }
}

impl SplitableSpan for DTRange {
    open spec fn spec_head(self, at: nat) -> DTRange {
        DTRange { start: self.start, end: (self.start + at) as usize }
    }

    open spec fn spec_tail(self, at: nat) -> DTRange {
        DTRange { start: (self.start + at) as usize, end: self.end }
    }

    proof fn lemma_split_lengths(self, at: nat) {
    }

    fn truncate(&mut self, at: usize) -> (rem: DTRange) {
        let split = self.start + at;
        let rem = DTRange { start: split, end: self.end };
        self.end = split;
        rem
    }

    fn truncate_keeping_right(&mut self, at: usize) -> (head: DTRange) {
        let split = self.start + at;
        let head = DTRange { start: self.start, end: split };
        self.start = split;
        head
    }
}

impl MergableSpan for DTRange {
    open spec fn spec_can_append(&self, other: &DTRange) -> bool {
        self.end == other.start
    }

    open spec fn spec_append(self, other: DTRange) -> DTRange {
        DTRange { start: self.start, end: other.end }
    }

    proof fn lemma_append_length(self, other: DTRange) {
    }

    fn can_append(&self, other: &DTRange) -> (b: bool) {
        self.end == other.start
    }

    fn append(&mut self, other: DTRange) {
        self.end = other.end;
    }

    fn prepend(&mut self, other: DTRange) {
        self.start = other.start;
    }
}

impl SplitAndMerge for DTRange {
    proof fn lemma_split_then_append(self, at: nat) {
    }
}

} // verus!
