//! Frontiers: sorted lists of local versions, stored inline when short.

use smallvec::SmallVec;
use vstd::prelude::*;

verus! {

/// A local version: the dense index of one operation at this replica.
pub type LV = usize;

/// A list of versions, kept inline while it is short. The empty list stands
/// for the root, the version before any operation.
#[verifier::external_body]
#[derive(Debug)]
pub struct Frontier(SmallVec<[LV; 2]>);

/// The versions that a frontier holds, in order.
pub uninterp spec fn frontier_items(f: Frontier) -> Seq<LV>;

/// Strictly ascending: sorted and free of duplicates.
pub open spec fn is_sorted_strict(s: Seq<LV>) -> bool {
    forall|i: int, j: int| 0 <= i < j < s.len() ==> s[i] < s[j]
}

impl View for Frontier {
    type V = Seq<LV>;

    open spec fn view(&self) -> Seq<LV> {
        frontier_items(*self)
    }
}

impl Clone for Frontier {
    /// `SmallVec::clone`: the copy holds the same items in the same order.
    #[verifier::external_body]
    fn clone(&self) -> (r: Self)
        ensures
            frontier_items(r) == frontier_items(*self),
    {
        Frontier(self.0.clone())
    }
}

impl Frontier {
    /// `SmallVec::new`: a list that holds nothing.
    #[verifier::external_body]
    fn raw_new() -> (r: Frontier)
        ensures
            frontier_items(r) == Seq::<LV>::empty(),
    {
        Frontier(SmallVec::new())
    }

    /// `SmallVec::from_slice`: a list with the items of the slice, in order.
    #[verifier::external_body]
    fn raw_from_slice(data: &[LV]) -> (r: Frontier)
        ensures
            frontier_items(r) == data@,
    {
        Frontier(SmallVec::from_slice(data))
    }

    /// `SmallVec::push`: the value is appended at the end.
    #[verifier::external_body]
    fn raw_push(&mut self, x: LV)
        ensures
            frontier_items(*final(self)) == frontier_items(*old(self)).push(x),
    {
        self.0.push(x)
    }

    /// `SmallVec::as_slice`: the items, as a slice.
    #[verifier::external_body]
    fn raw_as_slice(&self) -> (r: &[LV])
        ensures
            r@ == frontier_items(*self),
    {
        self.0.as_slice()
    }

    /// `<[T]>::reverse` on the vector's items: the order is inverted.
    #[verifier::external_body]
    fn raw_reverse(&mut self)
        ensures
            frontier_items(*final(self)) == frontier_items(*old(self)).reverse(),
    {
        self.0.reverse()
    }

    /// The root: the frontier before any operation.
    pub fn root() -> (r: Frontier)
        ensures
            r@ == Seq::<LV>::empty(),
    {
        Frontier::raw_new()
    }

    /// The frontier made of one version.
    pub fn new_1(v: LV) -> (r: Frontier)
        ensures
            r@ == seq![v],
    {
        let mut f = Frontier::raw_new();
        f.raw_push(v);
        f
    }

    /// The frontier with the given versions, which the caller has in order.
    pub fn from_sorted(data: &[LV]) -> (r: Frontier)
        ensures
            r@ == data@,
    {
        Frontier::raw_from_slice(data)
    }

    pub fn as_slice(&self) -> (r: &[LV])
        ensures
            r@ == self@,
    {
        self.raw_as_slice()
    }

    pub fn len(&self) -> (n: usize)
        ensures
            n == self@.len(),
    {
        self.raw_as_slice().len()
    }

    pub fn is_root(&self) -> (b: bool)
        ensures
            b == (self@.len() == 0),
    {
        self.raw_as_slice().len() == 0
    }

    pub fn get(&self, i: usize) -> (v: LV)
        requires
            i < self@.len(),
        ensures
            v == self@[i as int],
    {
        self.raw_as_slice()[i]
    }

    /// Appends a version at the end.
    pub fn push(&mut self, v: LV)
        ensures
            final(self)@ == old(self)@.push(v),
    {
        self.raw_push(v)
    }

    /// Inverts the order of the versions.
    pub fn reverse(&mut self)
        ensures
            final(self)@ == old(self)@.reverse(),
    {
        self.raw_reverse()
    }

    pub fn contains(&self, v: LV) -> (b: bool)
        ensures
            b == self@.contains(v),
    {
        slice_contains(self.raw_as_slice(), v)
    }

    /// Whether the frontier holds exactly the versions of `other`, in order.
    pub fn eq_slice(&self, other: &[LV]) -> (b: bool)
        ensures
            b == (self@ == other@),
    {
        slice_eq(self.raw_as_slice(), other)
    }
}

/// Whether `v` occurs in `s`.
pub fn slice_contains(s: &[LV], v: LV) -> (b: bool)
    ensures
        b == s@.contains(v),
{
    let mut i: usize = 0;
    while i < s.len()
        invariant
            0 <= i <= s@.len(),
            forall|k: int| 0 <= k < i ==> s@[k] != v,
        decreases s@.len() - i,
    {
        if s[i] == v {
            return true;
        }
        i += 1;
    }
    false
}

/// Whether the two slices hold the same versions in the same order.
pub fn slice_eq(a: &[LV], b: &[LV]) -> (r: bool)
    ensures
        r == (a@ == b@),
{
    if a.len() != b.len() {
        return false;
    }
    let mut i: usize = 0;
    while i < a.len()
        invariant
            a@.len() == b@.len(),
            0 <= i <= a@.len(),
            forall|k: int| 0 <= k < i ==> a@[k] == b@[k],
        decreases a@.len() - i,
    {
        if a[i] != b[i] {
            return false;
        }
        i += 1;
    }
    assert(a@ =~= b@);
    true
}

/// Whether the slice is strictly ascending.
pub fn frontier_is_sorted(s: &[LV]) -> (b: bool)
    ensures
        b == is_sorted_strict(s@),
{
    if s.len() < 2 {
        return true;
    }
    let mut i: usize = 1;
    while i < s.len()
        invariant
            1 <= i <= s@.len(),
            forall|a: int, b: int| 0 <= a < b < i ==> s@[a] < s@[b],
        decreases s@.len() - i,
    {
        if s[i - 1] >= s[i] {
            return false;
        }
        proof {
            assert forall|a: int, b: int| 0 <= a < b < i + 1 implies s@[a] < s@[b] by {
                if b == i {
                    if a < i - 1 {
                        assert(s@[a] < s@[i - 1]);
                    }
                }
            }
        }
        i += 1;
    }
    true
}

} // verus!
