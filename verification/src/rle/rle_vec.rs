//! A list of keyed runs in key order, in which a pushed run is merged into
//! the last one where it continues it.

use crate::rle::{run_end, HasLength, HasUnits, MergableSpan, RleKeyed, RleSpanHelpers};
use vstd::prelude::*;

verus! {

pub struct RleVec<V>(pub Vec<V>);

impl<V: HasLength + RleKeyed> RleVec<V> {
    /// Every run is consistent, not empty, and ends within the key space.
    pub open spec fn runs_wf(&self) -> bool {
        forall|i: int|
            0 <= i < self.0@.len() ==> {
                &&& (#[trigger] self.0@[i]).wf()
                &&& self.0@[i].spec_len() > 0
                &&& run_end(&self.0@[i]) <= usize::MAX
            }
    }

    /// The runs are in key order and do not overlap.
    pub open spec fn is_sorted(&self) -> bool {
        forall|i: int, j: int|
            0 <= i < j < self.0@.len() ==> #[trigger] run_end(&self.0@[i]) <= (
            #[trigger] self.0@[j]).spec_rle_key()
    }

    /// The runs cover the positions from 0 on without a gap.
    pub open spec fn is_packed(&self) -> bool {
        &&& self.0@.len() > 0 ==> self.0@[0].spec_rle_key() == 0
        &&& forall|i: int|
            0 <= i < self.0@.len() - 1 ==> #[trigger] run_end(&self.0@[i]) == self.0@[i
                + 1].spec_rle_key()
    }

    /// The position behind the last run; 0 for an empty list.
    pub open spec fn spec_end(&self) -> nat {
        if self.0@.len() == 0 {
            0
        } else {
            run_end(&self.0@.last())
        }
    }

    /// Whether run `i` covers position `pos`.
    pub open spec fn covers(&self, i: int, pos: nat) -> bool {
        &&& 0 <= i < self.0@.len()
        &&& self.0@[i].spec_rle_key() <= pos < run_end(&self.0@[i])
    }

    /// In a packed list, consecutive keys imply global key order.
    pub proof fn lemma_packed_is_sorted(&self)
        requires
            self.runs_wf(),
            self.is_packed(),
        ensures
            self.is_sorted(),
    {
        assert forall|i: int, j: int| 0 <= i < j < self.0@.len() implies #[trigger] run_end(&self.0@[i]) <= (#[trigger] self.0@[j]).spec_rle_key() by {
            self.lemma_packed_order(i, j);
        }
    }

    proof fn lemma_packed_order(&self, i: int, j: int)
        requires
            self.runs_wf(),
            self.is_packed(),
            0 <= i < j < self.0@.len(),
        ensures
            run_end(&self.0@[i]) <= self.0@[j].spec_rle_key(),
        decreases j - i,
    {
        if j > i + 1 {
            self.lemma_packed_order(i, j - 1);
            assert(run_end(&self.0@[j - 1]) == self.0@[j].spec_rle_key());
            assert(self.0@[j - 1].spec_len() > 0);
        }
    }

    /// In a packed list every position below the end is covered.
    pub proof fn lemma_packed_covered(&self, pos: nat)
        requires
            self.runs_wf(),
            self.is_packed(),
            pos < self.spec_end(),
        ensures
            exists|i: int| self.covers(i, pos),
    {
        self.lemma_packed_covered_upto(pos, self.0@.len() - 1);
    }

    proof fn lemma_packed_covered_upto(&self, pos: nat, k: int)
        requires
            self.runs_wf(),
            self.is_packed(),
            0 <= k < self.0@.len(),
            pos < run_end(&self.0@[k]),
        ensures
            exists|i: int| self.covers(i, pos),
        decreases k,
    {
        if self.0@[k].spec_rle_key() <= pos {
            assert(self.covers(k, pos));
        } else {
            assert(k > 0);
            assert(run_end(&self.0@[k - 1]) == self.0@[k].spec_rle_key());
            self.lemma_packed_covered_upto(pos, k - 1);
        }
    }

    pub fn new() -> (r: Self)
        ensures
            r.0@.len() == 0,
    {
        RleVec(Vec::new())
    }

    pub fn num_entries(&self) -> (n: usize)
        ensures
            n == self.0@.len(),
    {
        self.0.len()
    }

    pub fn is_empty(&self) -> (b: bool)
        ensures
            b == (self.0@.len() == 0),
    {
        self.0.len() == 0
    }

    /// The position behind the last run.
    pub fn end(&self) -> (e: usize)
        requires
            self.runs_wf(),
        ensures
            e == self.spec_end(),
    {
        let n = self.0.len();
        if n == 0 {
            0
        } else {
            self.0[n - 1].end()
        }
    }

    /// Index of the run that covers `needle`, found by binary search.
    #[verifier::rlimit(50)]
    pub fn find_index(&self, needle: usize) -> (r: Option<usize>)
        requires
            self.runs_wf(),
            self.is_sorted(),
        ensures
            match r {
                Some(i) => self.covers(i as int, needle as nat),
                None => forall|i: int| !self.covers(i, needle as nat),
            },
    {
        let mut lo: usize = 0;
        let mut hi: usize = self.0.len();
        while lo < hi
            invariant
                self.runs_wf(),
                self.is_sorted(),
                0 <= lo <= hi <= self.0@.len(),
                forall|i: int| 0 <= i < lo ==> #[trigger] run_end(&self.0@[i]) <= needle,
                forall|i: int|
                    hi <= i < self.0@.len() ==> needle < (#[trigger] self.0@[i]).spec_rle_key(),
            decreases hi - lo,
        {
            let mid: usize = lo + (hi - lo) / 2;
            let e = &self.0[mid];
            if needle < e.get_rle_key() {
                proof {
                    assert forall|i: int| mid <= i < self.0@.len() implies needle < (
                    #[trigger] self.0@[i]).spec_rle_key() by {
                        if i > mid {
                            assert(run_end(&self.0@[mid as int]) <= self.0@[i].spec_rle_key());
                        }
                    }
                }
                hi = mid;
            } else if needle >= e.end() {
                proof {
                    assert forall|i: int| 0 <= i < mid + 1 implies #[trigger] run_end(&self.0@[i]) <= needle by {
                        if i < mid {
                            assert(run_end(&self.0@[i]) <= self.0@[mid as int].spec_rle_key());
                        }
                    }
                }
                lo = mid + 1;
            } else {
                return Some(mid);
            }
        }
        None
    }

    /// The run that covers `needle`, if there is one.
    pub fn find(&self, needle: usize) -> (r: Option<&V>)
        requires
            self.runs_wf(),
            self.is_sorted(),
        ensures
            match r {
                Some(e) => exists|i: int| self.covers(i, needle as nat) && *e == self.0@[i],
                None => forall|i: int| !self.covers(i, needle as nat),
            },
    {
        match self.find_index(needle) {
            Some(i) => {
                assert(self.covers(i as int, needle as nat));
                Some(&self.0[i])
            },
            None => None,
        }
    }

    /// The run that covers `needle`, in a list without gaps.
    pub fn find_packed(&self, needle: usize) -> (e: &V)
        requires
            self.runs_wf(),
            self.is_packed(),
            needle < self.spec_end(),
        ensures
            exists|i: int| self.covers(i, needle as nat) && *e == self.0@[i],
    {
        let (e, _offset) = self.find_packed_with_offset(needle);
        e
    }

    /// The run that covers `needle`, and the offset of `needle` in it.
    pub fn find_packed_with_offset(&self, needle: usize) -> (r: (&V, usize))
        requires
            self.runs_wf(),
            self.is_packed(),
            needle < self.spec_end(),
        ensures
            exists|i: int|
                self.covers(i, needle as nat) && *r.0 == self.0@[i] && r.1 == needle
                    - self.0@[i].spec_rle_key(),
    {
        proof {
            self.lemma_packed_is_sorted();
            self.lemma_packed_covered(needle as nat);
        }
        match self.find_index(needle) {
            Some(i) => {
                assert(self.covers(i as int, needle as nat));
                let e = &self.0[i];
                (e, needle - e.get_rle_key())
            },
            None => {
                proof {
                    let i = choose|i: int| self.covers(i, needle as nat);
                    assert(self.covers(i, needle as nat));
                    assert(false);
                }
                (&self.0[0], 0)
            },
        }
    }
}

impl<V: HasLength + RleKeyed + MergableSpan> RleVec<V> {
    /// What `push` leaves in the list: the last run grown by `val` where
    /// `val` continues it, else `val` as a new last run.
    pub open spec fn spec_push(runs: Seq<V>, val: V) -> Seq<V> {
        if runs.len() > 0 && runs.last().spec_can_append(&val) {
            runs.update(runs.len() - 1, runs.last().spec_append(val))
        } else {
            runs.push(val)
        }
    }

    /// Appends a run at the end; returns whether it was merged into the last.
    pub fn push(&mut self, val: V) -> (merged: bool)
        requires
            old(self).runs_wf(),
            val.wf(),
            old(self).0@.len() > 0 ==> old(self).0@.last().spec_len() + val.spec_len()
                <= usize::MAX,
        ensures
            final(self).0@ == Self::spec_push(old(self).0@, val),
            merged == (old(self).0@.len() > 0 && old(self).0@.last().spec_can_append(&val)),
    {
        let n = self.0.len();
        if n > 0 {
            let mut last = self.0.pop().unwrap();
            assert(last == old(self).0@.last());
            assert(self.0@ == old(self).0@.drop_last());
            if last.can_append(&val) {
                last.append(val);
                self.0.push(last);
                assert(self.0@ == Self::spec_push(old(self).0@, val));
                return true;
            }
            self.0.push(last);
            assert(self.0@ == old(self).0@);
        }
        self.0.push(val);
        false
    }
}

impl<V: HasLength + RleKeyed + HasUnits> RleVec<V> {
    /// The item at position `pos`: that item of the run that covers the
    /// position.
    pub open spec fn unit_at(&self, pos: nat) -> V::Unit {
        let i = choose|i: int| self.covers(i, pos);
        self.0@[i].spec_unit((pos - self.0@[i].spec_rle_key()) as nat)
    }

    /// The item at a position covered by run `i` is an item of that run.
    pub proof fn lemma_unit_at(&self, i: int, pos: nat)
        requires
            self.runs_wf(),
            self.is_packed(),
            self.covers(i, pos),
        ensures
            self.unit_at(pos) == self.0@[i].spec_unit((pos - self.0@[i].spec_rle_key()) as nat),
    {
        self.lemma_packed_is_sorted();
        let j = choose|j: int| self.covers(j, pos);
        assert(self.covers(j, pos));
    }

    /// What pushing a run that starts at the end of a packed list does to
    /// the items: those that were there stay, and the items of the run
    /// follow them.
    #[verifier::rlimit(50)]
    pub proof fn lemma_push_units(&self, later: &Self, val: V)
        requires
            self.runs_wf(),
            self.is_packed(),
            val.wf(),
            val.spec_len() > 0,
            val.spec_rle_key() == self.spec_end(),
            self.spec_end() + val.spec_len() <= usize::MAX,
            later.0@ == Self::spec_push(self.0@, val),
            // A merged run starts where its first part starts.
            self.0@.len() > 0 && self.0@.last().spec_can_append(&val) ==> self.0@.last().spec_append(
                val,
            ).spec_rle_key() == self.0@.last().spec_rle_key(),
        ensures
            later.runs_wf(),
            later.is_packed(),
            later.spec_end() == self.spec_end() + val.spec_len(),
            forall|pos: nat| pos < self.spec_end() ==> #[trigger] later.unit_at(pos) == self.unit_at(pos),
            forall|k: nat|
                k < val.spec_len() ==> #[trigger] later.unit_at(self.spec_end() + k)
                    == val.spec_unit(k),
    {
        let a = self.0@;
        let b = later.0@;
        let n = a.len() as int;
        let merged = n > 0 && a.last().spec_can_append(&val);
        if merged {
            a.last().lemma_append_length(val);
        }
        assert forall|i: int| 0 <= i < b.len() implies (#[trigger] b[i]).wf() && b[i].spec_len() > 0
            && run_end(&b[i]) <= usize::MAX by {
            if i < n - 1 || (i == n - 1 && !merged) {
                assert(a[i].wf());
            }
        }
        assert(later.is_packed()) by {
            assert forall|i: int| 0 <= i < b.len() - 1 implies #[trigger] run_end(&b[i]) == b[i
                + 1].spec_rle_key() by {
                if i + 1 < n {
                    assert(run_end(&a[i]) == a[i + 1].spec_rle_key());
                }
            }
            if n > 0 {
                assert(a[0].spec_rle_key() == 0);
            }
        }
        assert forall|pos: nat| pos < self.spec_end() implies #[trigger] later.unit_at(pos)
            == self.unit_at(pos) by {
            self.lemma_packed_covered(pos);
            let i = choose|i: int| self.covers(i, pos);
            self.lemma_unit_at(i, pos);
            assert(later.covers(i, pos));
            later.lemma_unit_at(i, pos);
            if merged && i == n - 1 {
                a.last().lemma_append_units(val, (pos - a[i].spec_rle_key()) as nat);
            }
        }
        assert forall|k: nat| k < val.spec_len() implies #[trigger] later.unit_at(
            self.spec_end() + k,
        ) == val.spec_unit(k) by {
            let pos = self.spec_end() + k;
            let top = b.len() - 1;
            assert(later.covers(top, pos));
            later.lemma_unit_at(top, pos);
            if merged {
                a.last().lemma_append_units(val, (pos - a[n - 1].spec_rle_key()) as nat);
            }
        }
    }
}

} // verus!
