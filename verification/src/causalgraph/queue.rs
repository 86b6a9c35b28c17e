//! A priority queue that hands out its greatest item first, kept as a list
//! in ascending order of rank.

use vstd::prelude::*;

verus! {

/// A value with an integer rank, by which a queue orders it.
pub trait Ranked {
    spec fn rank(&self) -> int;

    /// Whether `self` ranks no higher than `other`.
    fn rank_le(&self, other: &Self) -> (b: bool)
        ensures
            b == (self.rank() <= other.rank()),
    ;
}

impl Ranked for usize {
    open spec fn rank(&self) -> int {
        *self as int
    }

    fn rank_le(&self, other: &usize) -> (b: bool) {
        *self <= *other
    }
}

/// Ascending by rank.
pub open spec fn ranks_ascend<T: Ranked>(s: Seq<T>) -> bool {
    forall|i: int, j: int| 0 <= i <= j < s.len() ==> s[i].rank() <= s[j].rank()
}

pub struct MaxQueue<T> {
    pub items: Vec<T>,
}

impl<T: Ranked> View for MaxQueue<T> {
    type V = Seq<T>;

    /// The items that wait in the queue, the greatest last.
    open spec fn view(&self) -> Seq<T> {
        self.items@
    }
}

impl<T: Ranked> MaxQueue<T> {
    pub open spec fn wf(&self) -> bool {
        ranks_ascend(self@)
    }

    pub fn new() -> (q: Self)
        ensures
            q.wf(),
            q@ == Seq::<T>::empty(),
    {
        MaxQueue { items: Vec::new() }
    }

    pub fn len(&self) -> (n: usize)
        ensures
            n == self@.len(),
    {
        self.items.len()
    }

    pub fn is_empty(&self) -> (b: bool)
        ensures
            b == (self@.len() == 0),
    {
        self.items.len() == 0
    }

    /// Adds an item. It comes to stand behind the items that rank no higher.
    pub fn push(&mut self, x: T)
        requires
            old(self).wf(),
        ensures
            final(self).wf(),
            final(self)@.len() == old(self)@.len() + 1,
            exists|i: int| 0 <= i <= old(self)@.len() && final(self)@ == old(self)@.insert(i, x),
            forall|y: T| final(self)@.contains(y) <==> (old(self)@.contains(y) || y == x),
    {
        let mut i: usize = self.items.len();
        while i > 0 && !self.items[i - 1].rank_le(&x)
            invariant
                0 <= i <= self.items@.len(),
                self.items@ == old(self)@,
                forall|k: int| i <= k < self.items@.len() ==> x.rank() < self.items@[k].rank(),
            decreases i,
        {
            i -= 1;
        }
        self.items.insert(i, x);
        proof {
            let before = old(self)@;
            let after = self.items@;
            assert(after == before.insert(i as int, x));
            assert forall|a: int, b: int| 0 <= a <= b < after.len() implies after[a].rank()
                <= after[b].rank() by {
                if a < i && b > i {
                    assert(before[a].rank() <= before[b - 1].rank());
                } else if a < i && b == i {
                    assert(before[a].rank() <= before[i - 1].rank());
                }
            }
            assert forall|y: T| after.contains(y) <==> (before.contains(y) || y == x) by {
                if after.contains(y) {
                    let k = choose|k: int| 0 <= k < after.len() && after[k] == y;
                    if k < i {
                        assert(before[k] == y);
                    } else if k > i {
                        assert(before[k - 1] == y);
                    }
                }
                if before.contains(y) {
                    let k = choose|k: int| 0 <= k < before.len() && before[k] == y;
                    if k < i {
                        assert(after[k] == y);
                    } else {
                        assert(after[k + 1] == y);
                    }
                }
                if y == x {
                    assert(after[i as int] == y);
                }
            }
        }
    }

    /// Takes the greatest item out.
    pub fn pop(&mut self) -> (r: Option<T>)
        requires
            old(self).wf(),
        ensures
            final(self).wf(),
            match r {
                Some(x) => {
                    &&& old(self)@.len() > 0
                    &&& x == old(self)@.last()
                    &&& final(self)@ == old(self)@.drop_last()
                    &&& forall|i: int| 0 <= i < old(self)@.len() ==> old(self)@[i].rank() <= x.rank()
                },
                None => old(self)@.len() == 0 && final(self)@ == old(self)@,
            },
    {
        self.items.pop()
    }

    /// The greatest item, which `pop` would take.
    pub fn peek(&self) -> (r: Option<&T>)
        requires
            self.wf(),
        ensures
            match r {
                Some(x) => {
                    &&& self@.len() > 0
                    &&& *x == self@.last()
                    &&& forall|i: int| 0 <= i < self@.len() ==> self@[i].rank() <= x.rank()
                },
                None => self@.len() == 0,
            },
    {
        let n = self.items.len();
        if n == 0 {
            None
        } else {
            Some(&self.items[n - 1])
        }
    }
}

} // verus!
