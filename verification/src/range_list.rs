//! Lists of version ranges, stored inline when short, and what it means for
//! such a list to stand for a set of versions.

use crate::dtrange::DTRange;
use crate::frontier::LV;
use smallvec::SmallVec;
use vstd::prelude::*;

verus! {

/// A list of ranges, kept inline while it is short.
#[verifier::external_body]
#[derive(Debug)]
pub struct RangeList(SmallVec<[DTRange; 4]>);

/// The ranges that a list holds, in order.
pub uninterp spec fn range_list_items(l: RangeList) -> Seq<DTRange>;

impl View for RangeList {
    type V = Seq<DTRange>;

    open spec fn view(&self) -> Seq<DTRange> {
        range_list_items(*self)
    }
}

/// Whether one of the ranges holds `v`.
pub open spec fn spans_contain(spans: Seq<DTRange>, v: LV) -> bool {
    exists|i: int| 0 <= i < spans.len() && (#[trigger] spans[i]).start <= v < spans[i].end
}

/// No range is empty, and each lies wholly below the one before it, with a
/// gap between the two: the list names a set of versions in one way only.
pub open spec fn spans_descending(spans: Seq<DTRange>) -> bool {
    &&& forall|i: int| 0 <= i < spans.len() ==> (#[trigger] spans[i]).start < spans[i].end
    &&& forall|i: int, j: int|
        0 <= i < j < spans.len() ==> (#[trigger] spans[j]).end < (#[trigger] spans[i]).start
}

/// No range is empty, and each lies wholly above the one before it, with a
/// gap between the two.
pub open spec fn spans_ascending(spans: Seq<DTRange>) -> bool {
    &&& forall|i: int| 0 <= i < spans.len() ==> (#[trigger] spans[i]).start < spans[i].end
    &&& forall|i: int, j: int|
        0 <= i < j < spans.len() ==> (#[trigger] spans[i]).end < (#[trigger] spans[j]).start
}

/// Inverting a descending list gives an ascending list of the same set.
pub proof fn lemma_reverse_spans(spans: Seq<DTRange>)
    requires
        spans_descending(spans),
    ensures
        spans_ascending(spans.reverse()),
        forall|v: LV| #[trigger] spans_contain(spans.reverse(), v) == spans_contain(spans, v),
{
    let r = spans.reverse();
    assert forall|v: LV| #[trigger] spans_contain(r, v) == spans_contain(spans, v) by {
        if spans_contain(r, v) {
            let i = choose|i: int| 0 <= i < r.len() && (#[trigger] r[i]).start <= v < r[i].end;
            assert(spans[spans.len() - 1 - i].start <= v);
        }
        if spans_contain(spans, v) {
            let i = choose|i: int|
                0 <= i < spans.len() && (#[trigger] spans[i]).start <= v < spans[i].end;
            assert(r[spans.len() - 1 - i].start <= v);
        }
    }
}

impl RangeList {
    /// `SmallVec::new`: a list that holds nothing.
    #[verifier::external_body]
    fn raw_new() -> (r: RangeList)
        ensures
            range_list_items(r) == Seq::<DTRange>::empty(),
    {
        RangeList(SmallVec::new())
    }

    /// `SmallVec::push`: the value is appended at the end.
    #[verifier::external_body]
    fn raw_push(&mut self, x: DTRange)
        ensures
            range_list_items(*final(self)) == range_list_items(*old(self)).push(x),
    {
        self.0.push(x)
    }

    /// `SmallVec::pop`: the last item leaves the list and is returned; an
    /// empty list stays as it is and gives `None`.
    #[verifier::external_body]
    fn raw_pop(&mut self) -> (r: Option<DTRange>)
        ensures
            match r {
                Some(x) => range_list_items(*old(self)).len() > 0 && x == range_list_items(
                    *old(self),
                ).last() && range_list_items(*final(self)) == range_list_items(
                    *old(self),
                ).drop_last(),
                None => range_list_items(*old(self)).len() == 0 && range_list_items(*final(self))
                    == range_list_items(*old(self)),
            },
    {
        self.0.pop()
    }

    /// `SmallVec::as_slice`: the items, as a slice.
    #[verifier::external_body]
    fn raw_as_slice(&self) -> (r: &[DTRange])
        ensures
            r@ == range_list_items(*self),
    {
        self.0.as_slice()
    }

    /// `<[T]>::reverse` on the vector's items: the order is inverted.
    #[verifier::external_body]
    fn raw_reverse(&mut self)
        ensures
            range_list_items(*final(self)) == range_list_items(*old(self)).reverse(),
    {
        self.0.reverse()
    }

    pub fn new() -> (r: RangeList)
        ensures
            r@ == Seq::<DTRange>::empty(),
    {
        RangeList::raw_new()
    }

    pub fn as_slice(&self) -> (r: &[DTRange])
        ensures
            r@ == self@,
    {
        self.raw_as_slice()
    }

    pub fn len(&self) -> (n: usize)
        ensures
            n == self@.len(),
    {
        self.raw_as_slice().len()
    }

    pub fn is_empty(&self) -> (b: bool)
        ensures
            b == (self@.len() == 0),
    {
        self.raw_as_slice().len() == 0
    }

    pub fn get(&self, i: usize) -> (r: DTRange)
        requires
            i < self@.len(),
        ensures
            r == self@[i as int],
    {
        self.raw_as_slice()[i]
    }

    pub fn push(&mut self, span: DTRange)
        ensures
            final(self)@ == old(self)@.push(span),
    {
        self.raw_push(span)
    }

    pub fn reverse(&mut self)
        ensures
            final(self)@ == old(self)@.reverse(),
    {
        self.raw_reverse()
    }

    /// What `push_reversed_rle` leaves: the last range grown downwards by
    /// `span` where `span` ends at its start, else `span` as a new last.
    pub open spec fn spec_push_reversed(spans: Seq<DTRange>, span: DTRange) -> Seq<DTRange> {
        if spans.len() > 0 && span.end == spans.last().start {
            spans.update(spans.len() - 1, DTRange { start: span.start, end: spans.last().end })
        } else {
            spans.push(span)
        }
    }

    /// Adds a range to a list that runs downwards; returns whether it was
    /// merged into the last range.
    pub fn push_reversed_rle(&mut self, span: DTRange) -> (merged: bool)
        ensures
            final(self)@ == Self::spec_push_reversed(old(self)@, span),
            merged == (old(self)@.len() > 0 && span.end == old(self)@.last().start),
    {
        match self.raw_pop() {
            Some(last) => {
                if span.end == last.start {
                    self.raw_push(DTRange { start: span.start, end: last.end });
                    assert(self@ =~= Self::spec_push_reversed(old(self)@, span));
                    true
                } else {
                    self.raw_push(last);
                    self.raw_push(span);
                    assert(self@ =~= Self::spec_push_reversed(old(self)@, span));
                    false
                }
            },
            None => {
                self.raw_push(span);
                false
            },
        }
    }
}

/// Adding a range below a descending list keeps it descending, and adds
/// the versions of the range to the set.
pub proof fn lemma_push_reversed(spans: Seq<DTRange>, span: DTRange)
    requires
        spans_descending(spans),
        span.start < span.end,
        forall|i: int| 0 <= i < spans.len() ==> span.end <= (#[trigger] spans[i]).start,
    ensures
        spans_descending(RangeList::spec_push_reversed(spans, span)),
        forall|v: LV|
            #[trigger] spans_contain(RangeList::spec_push_reversed(spans, span), v) == (
            spans_contain(spans, v) || span.start <= v < span.end),
        forall|i: int|
            0 <= i < RangeList::spec_push_reversed(spans, span).len() ==> span.start <= (
            #[trigger] RangeList::spec_push_reversed(spans, span)[i]).start,
{
    let r = RangeList::spec_push_reversed(spans, span);
    let n = spans.len() as int;
    assert forall|v: LV| #[trigger] spans_contain(r, v) == (spans_contain(spans, v) || span.start
        <= v < span.end) by {
        if spans_contain(r, v) {
            let i = choose|i: int| 0 <= i < r.len() && (#[trigger] r[i]).start <= v < r[i].end;
            if n > 0 && span.end == spans.last().start {
                if i == n - 1 {
                    if v >= span.end {
                        assert(spans[n - 1].start <= v < spans[n - 1].end);
                    }
                } else {
                    assert(spans[i].start <= v < spans[i].end);
                }
            } else {
                if i < n {
                    assert(spans[i].start <= v < spans[i].end);
                }
            }
        }
        if spans_contain(spans, v) {
            let i = choose|i: int|
                0 <= i < spans.len() && (#[trigger] spans[i]).start <= v < spans[i].end;
            assert(r[i].start <= v < r[i].end);
        }
        if span.start <= v < span.end {
            if n > 0 && span.end == spans.last().start {
                assert(r[n - 1].start <= v < r[n - 1].end);
            } else {
                assert(r[n].start <= v < r[n].end);
            }
        }
    }
    assert forall|i: int, j: int| 0 <= i < j < r.len() implies (#[trigger] r[j]).end < (
    #[trigger] r[i]).start by {
        if n > 0 && span.end == spans.last().start {
            assert(spans[j].end < spans[i].start);
        } else {
            if j < n {
                assert(spans[j].end < spans[i].start);
            } else {
                assert(span.end <= spans[i].start);
                assert(n > 0 ==> span.end != spans[n - 1].start);
                if i < n - 1 {
                    assert(spans[n - 1].end < spans[i].start);
                }
            }
        }
    }
}

} // verus!
