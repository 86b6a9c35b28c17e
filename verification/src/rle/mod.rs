//! Run-length encoded spans: values that stand for a run of adjacent items
//! and can be measured, split in two and merged with a neighbour.

use vstd::prelude::*;

pub mod rle_vec;
pub mod take_max_iter;

verus! {

/// Key type of keyed runs: the position of a run's first item.
pub type RleKey = usize;

/// A value that covers a run of items.
pub trait HasLength {
    /// The value is internally consistent, so that its length is defined.
    spec fn wf(&self) -> bool;

    /// Number of items that the run covers.
    spec fn spec_len(&self) -> nat;

    fn len(&self) -> (n: usize)
        requires
            self.wf(),
        ensures
            n == self.spec_len(),
    ;
}

/// A run that knows the position of its first item.
pub trait RleKeyed {
    spec fn spec_rle_key(&self) -> nat;

    fn get_rle_key(&self) -> (k: RleKey)
        ensures
            k == self.spec_rle_key(),
    ;
}

/// The position just behind a keyed run.
pub open spec fn run_end<V: RleKeyed + HasLength>(v: &V) -> nat {
    v.spec_rle_key() + v.spec_len()
}

/// What follows from a key and a length.
pub trait RleSpanHelpers: RleKeyed + HasLength + Sized {
    /// The position just behind the run.
    fn end(&self) -> (e: RleKey)
        requires
            self.wf(),
            run_end(self) <= usize::MAX,
        ensures
            e == run_end(self),
    {
        self.get_rle_key() + self.len()
    }
}

impl<V: RleKeyed + HasLength + Sized> RleSpanHelpers for V {

}

/// A run that can be cut in two at any inner offset.
pub trait SplitableSpan: HasLength + Sized {
    /// The run made of the first `at` items.
    spec fn spec_head(self, at: nat) -> Self;

    /// The run made of the items from offset `at` on.
    spec fn spec_tail(self, at: nat) -> Self;

    /// Both halves of a cut are consistent and their lengths add up.
    proof fn lemma_split_lengths(self, at: nat)
        requires
            self.wf(),
            0 < at < self.spec_len(),
        ensures
            self.spec_head(at).wf(),
            self.spec_tail(at).wf(),
            self.spec_head(at).spec_len() == at,
            self.spec_tail(at).spec_len() == self.spec_len() - at,
    ;

    /// Keeps the first `at` items in `self` and returns the rest.
    fn truncate(&mut self, at: usize) -> (rem: Self)
        requires
            old(self).wf(),
            0 < at < old(self).spec_len(),
        ensures
            *final(self) == old(self).spec_head(at as nat),
            rem == old(self).spec_tail(at as nat),
    ;

    /// Keeps the items from offset `at` on in `self` and returns the first `at`.
    fn truncate_keeping_right(&mut self, at: usize) -> (head: Self)
        requires
            old(self).wf(),
            0 < at < old(self).spec_len(),
        ensures
            *final(self) == old(self).spec_tail(at as nat),
            head == old(self).spec_head(at as nat),
    ;
}

/// A run that can absorb the run that directly follows it.
pub trait MergableSpan: HasLength + Sized {
    /// `other` continues `self` without a gap, so that the two can be one run.
    spec fn spec_can_append(&self, other: &Self) -> bool;

    /// The single run that stands for `self` followed by `other`.
    spec fn spec_append(self, other: Self) -> Self;

    /// A merged run is consistent and as long as its two parts together.
    proof fn lemma_append_length(self, other: Self)
        requires
            self.wf(),
            other.wf(),
            self.spec_can_append(&other),
            self.spec_len() + other.spec_len() <= usize::MAX,
        ensures
            self.spec_append(other).wf(),
            self.spec_append(other).spec_len() == self.spec_len() + other.spec_len(),
    ;

    fn can_append(&self, other: &Self) -> (b: bool)
        requires
            self.wf(),
            other.wf(),
        ensures
            b == self.spec_can_append(other),
    ;

    fn append(&mut self, other: Self)
        requires
            old(self).wf(),
            other.wf(),
            old(self).spec_can_append(&other),
            old(self).spec_len() + other.spec_len() <= usize::MAX,
        ensures
            *final(self) == old(self).spec_append(other),
    ;

    fn prepend(&mut self, other: Self)
        requires
            old(self).wf(),
            other.wf(),
            other.spec_can_append(old(self)),
            old(self).spec_len() + other.spec_len() <= usize::MAX,
        ensures
            *final(self) == other.spec_append(*old(self)),
    ;
}

/// Runs for which cutting and merging are inverse to each other.
pub trait SplitAndMerge: SplitableSpan + MergableSpan {
    /// The two halves of a cut can be merged again, and give the run back.
    proof fn lemma_split_then_append(self, at: nat)
        requires
            self.wf(),
            0 < at < self.spec_len(),
        ensures
            self.spec_head(at).spec_can_append(&self.spec_tail(at)),
            self.spec_head(at).spec_append(self.spec_tail(at)) == self,
    ;
}

/// Cutting a run and merging the halves gives the run back.
pub proof fn law_split_append_round_trip<S: SplitAndMerge>(s: S, at: nat)
    requires
        s.wf(),
        0 < at < s.spec_len(),
    ensures
        s.spec_head(at).wf(),
        s.spec_tail(at).wf(),
        s.spec_head(at).spec_len() + s.spec_tail(at).spec_len() == s.spec_len(),
        s.spec_head(at).spec_can_append(&s.spec_tail(at)),
        s.spec_head(at).spec_append(s.spec_tail(at)) == s,
{
    s.lemma_split_lengths(at);
    s.lemma_split_then_append(at);
}

/// Same, for the executable operations: after `truncate` and `append` the
/// value is what it was.
pub fn split_append_round_trip<S: SplitAndMerge>(s: &mut S, at: usize)
    requires
        old(s).wf(),
        0 < at < old(s).spec_len(),
    ensures
        *final(s) == *old(s),
{
    let _len = s.len();
    proof {
        old(s).lemma_split_lengths(at as nat);
        old(s).lemma_split_then_append(at as nat);
    }
    let rem = s.truncate(at);
    s.append(rem);
}

/// A run of `len` equal values.
#[derive(Copy, Clone, Debug, PartialEq, Eq, Structural, Default)]
pub struct RleRun<T> {
    pub val: T,
    pub len: usize,
}

impl<T: Copy> RleRun<T> {
    pub fn new(val: T, len: usize) -> (r: Self)
        ensures
            r == (RleRun { val, len }),
    {
        RleRun { val, len }
    }
}

impl<T: Copy> HasLength for RleRun<T> {
    open spec fn wf(&self) -> bool {
        true
    }

    open spec fn spec_len(&self) -> nat {
        self.len as nat
    }

    fn len(&self) -> (n: usize) {
        self.len
    }
}

impl<T: Copy> SplitableSpan for RleRun<T> {
    open spec fn spec_head(self, at: nat) -> Self {
        RleRun { val: self.val, len: at as usize }
    }

    open spec fn spec_tail(self, at: nat) -> Self {
        RleRun { val: self.val, len: (self.len - at) as usize }
    }

    proof fn lemma_split_lengths(self, at: nat) {
    }

    fn truncate(&mut self, at: usize) -> (rem: Self) {
        let rem = RleRun { val: self.val, len: self.len - at };
        self.len = at;
        rem
    }

    fn truncate_keeping_right(&mut self, at: usize) -> (head: Self) {
        let head = RleRun { val: self.val, len: at };
        self.len = self.len - at;
        head
    }
}

/// A run with the position of its first item.
#[derive(Copy, Clone, Debug, PartialEq, Eq, Structural)]
pub struct KVPair<V>(pub RleKey, pub V);

impl<V> RleKeyed for KVPair<V> {
    open spec fn spec_rle_key(&self) -> nat {
        self.0 as nat
    }

    fn get_rle_key(&self) -> (k: RleKey) {
        self.0
    }
}

impl<V: HasLength> HasLength for KVPair<V> {
    /// The run is consistent, and ends within the key space.
    open spec fn wf(&self) -> bool {
        self.1.wf() && self.0 + self.1.spec_len() <= usize::MAX
    }

    open spec fn spec_len(&self) -> nat {
        self.1.spec_len()
    }

    fn len(&self) -> (n: usize) {
        self.1.len()
    }
}

impl<V: SplitableSpan> SplitableSpan for KVPair<V> {
    open spec fn spec_head(self, at: nat) -> Self {
        KVPair(self.0, self.1.spec_head(at))
    }

    /// The right half starts `at` positions further on.
    open spec fn spec_tail(self, at: nat) -> Self {
        KVPair((self.0 + at) as usize, self.1.spec_tail(at))
    }

    proof fn lemma_split_lengths(self, at: nat) {
        self.1.lemma_split_lengths(at);
    }

    fn truncate(&mut self, at: usize) -> (rem: Self) {
        let _len = self.1.len();
        let remainder = self.1.truncate(at);
        KVPair(self.0 + at, remainder)
    }

    fn truncate_keeping_right(&mut self, at: usize) -> (head: Self) {
        let _len = self.1.len();
        let old_key = self.0;
        self.0 += at;
        let trimmed = self.1.truncate_keeping_right(at);
        KVPair(old_key, trimmed)
    }
}

impl<V: MergableSpan> MergableSpan for KVPair<V> {
    open spec fn spec_can_append(&self, other: &Self) -> bool {
        other.0 == self.0 + self.1.spec_len() && self.1.spec_can_append(&other.1)
    }

    open spec fn spec_append(self, other: Self) -> Self {
        KVPair(self.0, self.1.spec_append(other.1))
    }

    proof fn lemma_append_length(self, other: Self) {
        self.1.lemma_append_length(other.1);
    }

    fn can_append(&self, other: &Self) -> (b: bool) {
        other.0 == self.0 + self.1.len() && self.1.can_append(&other.1)
    }

    fn append(&mut self, other: Self) {
        self.1.append(other.1);
    }

    fn prepend(&mut self, other: Self) {
        self.1.prepend(other.1);
        self.0 = other.0;
    }
}

impl<V: SplitAndMerge> SplitAndMerge for KVPair<V> {
    proof fn lemma_split_then_append(self, at: nat) {
        self.1.lemma_split_lengths(at);
        self.1.lemma_split_then_append(at);
    }
}

impl<T: SplitableSpan + Copy> crate::rle::take_max_iter::TakeMaxFns<T> for Vec<T> {
    /// The list, to be handed out in pieces.
    fn take_max(self) -> (r: crate::rle::take_max_iter::TakeMaxIter<T>)
        ensures
            r.items == self,
            r.pos == 0,
            r.remainder.0.is_none(),
    {
        crate::rle::take_max_iter::TakeMaxIter {
            items: self,
            pos: 0,
            remainder: crate::rle::take_max_iter::Rem(None),
        }
    }
}

/// Cuts a run in two.
pub trait SplitableSpanHelpers: SplitableSpan {
    /// The two halves of the run, cut at `at`.
    fn split_h(self, at: usize) -> (r: (Self, Self))
        requires
            self.wf(),
            0 < at < self.spec_len(),
        ensures
            r.0 == self.spec_head(at as nat),
            r.1 == self.spec_tail(at as nat),
    {
        let mut head = self;
        let tail = head.truncate(at);
        (head, tail)
    }
}

impl<S: SplitableSpan> SplitableSpanHelpers for S {

}

/// A run of versions given by its first version and its length.
#[derive(Copy, Clone, Debug, PartialEq, Eq, Structural, Default)]
pub struct TimeSpan {
    pub start: usize,
    pub len: usize,
}

impl HasLength for TimeSpan {
    open spec fn wf(&self) -> bool {
        self.start + self.len <= usize::MAX
    }

    open spec fn spec_len(&self) -> nat {
        self.len as nat
    }

    fn len(&self) -> (n: usize) {
        self.len
    }
}

impl SplitableSpan for TimeSpan {
    open spec fn spec_head(self, at: nat) -> TimeSpan {
        TimeSpan { start: self.start, len: at as usize }
    }

    open spec fn spec_tail(self, at: nat) -> TimeSpan {
        TimeSpan { start: (self.start + at) as usize, len: (self.len - at) as usize }
    }

    proof fn lemma_split_lengths(self, at: nat) {
    }

    fn truncate(&mut self, at: usize) -> (rem: TimeSpan) {
        let rem = TimeSpan { start: self.start + at, len: self.len - at };
        self.len = at;
        rem
    }

    fn truncate_keeping_right(&mut self, at: usize) -> (head: TimeSpan) {
        let head = TimeSpan { start: self.start, len: at };
        self.start = self.start + at;
        self.len = self.len - at;
        head
    }
}

impl MergableSpan for TimeSpan {
    open spec fn spec_can_append(&self, other: &TimeSpan) -> bool {
        other.start == self.start + self.len
    }

    open spec fn spec_append(self, other: TimeSpan) -> TimeSpan {
        TimeSpan { start: self.start, len: (self.len + other.len) as usize }
    }

    proof fn lemma_append_length(self, other: TimeSpan) {
    }

    fn can_append(&self, other: &TimeSpan) -> (b: bool) {
        other.start == self.start + self.len
    }

    fn append(&mut self, other: TimeSpan) {
        self.len = self.len + other.len;
    }

    fn prepend(&mut self, other: TimeSpan) {
        self.start = other.start;
        self.len = self.len + other.len;
    }
}

impl SplitAndMerge for TimeSpan {
    proof fn lemma_split_then_append(self, at: nat) {
    }
}

/// A run whose items can be told apart: item `k` of the run is a value
/// of its own, and merging runs keeps the items.
pub trait HasUnits: MergableSpan {
    type Unit;

    /// Item `k` of the run.
    spec fn spec_unit(&self, k: nat) -> Self::Unit;

    /// A merged run has the items of its first part, then those of its
    /// second.
    proof fn lemma_append_units(self, other: Self, k: nat)
        requires
            self.wf(),
            other.wf(),
            self.spec_can_append(&other),
            k < self.spec_len() + other.spec_len(),
        ensures
            self.spec_append(other).spec_unit(k) == (if k < self.spec_len() {
                self.spec_unit(k)
            } else {
                other.spec_unit((k - self.spec_len()) as nat)
            }),
    ;
}

impl<V: HasUnits> HasUnits for KVPair<V> {
    type Unit = V::Unit;

    open spec fn spec_unit(&self, k: nat) -> V::Unit {
        self.1.spec_unit(k)
    }

    proof fn lemma_append_units(self, other: Self, k: nat) {
        self.1.lemma_append_units(other.1, k);
    }
}

/// A run in which an item can be looked up.
pub trait Searchable: HasLength {
    type Item;

    /// The item at the given place of the run.
    spec fn spec_at_offset(&self, offset: nat) -> Self::Item;

    /// The place of `loc` in the run, if the run holds it.
    fn get_offset(&self, loc: Self::Item) -> (r: Option<usize>)
        requires
            self.wf(),
        ensures
            match r {
                Some(k) => k < self.spec_len() && self.spec_at_offset(k as nat) == loc,
                None => forall|k: nat| k < self.spec_len() ==> self.spec_at_offset(k) != loc,
            },
    ;

    /// The item at the given place of the run.
    fn at_offset(&self, offset: usize) -> (item: Self::Item)
        requires
            self.wf(),
            offset < self.spec_len(),
        ensures
            item == self.spec_at_offset(offset as nat),
    ;
}

impl Searchable for TimeSpan {
    type Item = usize;

    open spec fn spec_at_offset(&self, offset: nat) -> usize {
        (self.start + offset) as usize
    }

    fn get_offset(&self, loc: usize) -> (r: Option<usize>) {
        if loc >= self.start && loc - self.start < self.len {
            Some(loc - self.start)
        } else {
            None
        }
    }

    fn at_offset(&self, offset: usize) -> (item: usize) {
        self.start + offset
    }
}

impl<V: Searchable> Searchable for KVPair<V> {
    type Item = V::Item;

    open spec fn spec_at_offset(&self, offset: nat) -> V::Item {
        self.1.spec_at_offset(offset)
    }

    fn get_offset(&self, loc: V::Item) -> (r: Option<usize>) {
        self.1.get_offset(loc)
    }

    fn at_offset(&self, offset: usize) -> (item: V::Item) {
        self.1.at_offset(offset)
    }
}

impl<V: Default> Default for KVPair<V> {
    fn default() -> (r: Self)
        ensures
            r.0 == 0,
    {
        KVPair(0, V::default())
    }
}

} // verus!
