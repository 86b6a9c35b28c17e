//! Taking runs from a list in pieces of bounded length: a run that is
//! longer than asked for is cut, and its rest handed out next.

use crate::rle::{HasLength, SplitableSpan};
use vstd::prelude::*;

verus! {

/// What is left of a run that was cut.
#[derive(Debug, Clone)]
pub struct Rem<T>(pub Option<T>);

/// What a piece of at most `max_size` items taken from `chunk` leaves
/// behind.
pub open spec fn rest_after<T: SplitableSpan>(chunk: T, max_size: usize) -> Option<T> {
    if chunk.spec_len() > max_size {
        Some(chunk.spec_tail(max_size as nat))
    } else {
        None
    }
}

/// The piece of at most `max_size` items at the start of `chunk`.
pub open spec fn piece_of<T: SplitableSpan>(chunk: T, max_size: usize) -> T {
    if chunk.spec_len() > max_size {
        chunk.spec_head(max_size as nat)
    } else {
        chunk
    }
}

impl<T: SplitableSpan> Rem<T> {
    /// The run that is kept, if there is one, is consistent and not empty.
    pub open spec fn wf(&self) -> bool {
        self.0.is_some() ==> self.0.unwrap().wf() && self.0.unwrap().spec_len() > 0
    }

    pub fn new() -> (r: Self)
        ensures
            r.0.is_none(),
            r.wf(),
    {
        Rem(None)
    }

    /// Whether the next piece has to come from a new run: no run is
    /// kept. A caller asks this before it fetches the run that follows,
    /// so that no run is fetched in vain.
    pub fn wants_next(&self) -> (b: bool)
        ensures
            b == self.0.is_none(),
    {
        self.0.is_none()
    }

    /// Fills an empty remainder with the next run.
    pub fn prime(&mut self, next: Option<T>)
        ensures
            final(self).0 == (if old(self).0.is_none() {
                next
            } else {
                old(self).0
            }),
    {
        if self.0.is_none() {
            self.0 = next;
        }
    }

    /// Takes a piece of at most `max_size` items from the run that is
    /// kept.
    pub fn take_max_primed(&mut self, max_size: usize) -> (r: T)
        requires
            old(self).0.is_some(),
            old(self).wf(),
            max_size > 0,
        ensures
            r == piece_of(old(self).0.unwrap(), max_size),
            final(self).0 == rest_after(old(self).0.unwrap(), max_size),
            final(self).wf(),
            r.wf(),
            0 < r.spec_len() <= max_size,
    {
        let mut r = self.0.take().unwrap();
        if r.len() > max_size {
            proof {
                r.lemma_split_lengths(max_size as nat);
            }
            self.0 = Some(r.truncate(max_size));
        }
        r
    }

    /// Takes a piece of at most `max_size` items: from the run that is
    /// kept, else from `next`, the run that follows. Where a run is kept,
    /// `next` is not looked at: hand in `None` then, as `wants_next`
    /// tells.
    pub fn take_max_opt(&mut self, max_size: usize, next: Option<T>) -> (r: Option<T>)
        requires
            old(self).wf(),
            max_size > 0,
            next.is_some() ==> next.unwrap().wf() && next.unwrap().spec_len() > 0,
        ensures
            final(self).wf(),
            match (if old(self).0.is_some() {
                old(self).0
            } else {
                next
            }) {
                Some(chunk) => r == Some(piece_of(chunk, max_size)) && final(self).0 == rest_after(
                    chunk,
                    max_size,
                ),
                None => r.is_none() && final(self).0.is_none(),
            },
    {
        let mut chunk = match self.0.take() {
            Some(chunk) => chunk,
            None => match next {
                Some(chunk) => chunk,
                None => {
                    return None;
                },
            },
        };
        if chunk.len() > max_size {
            proof {
                chunk.lemma_split_lengths(max_size as nat);
            }
            let new_remainder = chunk.truncate(max_size);
            self.0 = Some(new_remainder);
        }
        Some(chunk)
    }

    /// As `take_max_opt`, where getting the next run can fail: the error
    /// is handed on where the next run was needed.
    pub fn take_max_result<E>(&mut self, max_size: usize, next: Result<T, E>) -> (r: Result<T, E>)
        requires
            old(self).wf(),
            max_size > 0,
            match next {
                Ok(chunk) => chunk.wf() && chunk.spec_len() > 0,
                Err(_) => true,
            },
        ensures
            final(self).wf(),
            match old(self).0 {
                Some(chunk) => r == Ok::<T, E>(piece_of(chunk, max_size)) && final(self).0
                    == rest_after(chunk, max_size),
                None => match next {
                    Ok(chunk) => r == Ok::<T, E>(piece_of(chunk, max_size)) && final(self).0
                        == rest_after(chunk, max_size),
                    Err(e) => r == Err::<T, E>(e) && final(self).0.is_none(),
                },
            },
    {
        let mut chunk = match self.0.take() {
            Some(chunk) => chunk,
            None => match next {
                Ok(chunk) => chunk,
                Err(e) => {
                    return Err(e);
                },
            },
        };
        if chunk.len() > max_size {
            proof {
                chunk.lemma_split_lengths(max_size as nat);
            }
            let new_remainder = chunk.truncate(max_size);
            self.0 = Some(new_remainder);
        }
        Ok(chunk)
    }
}

/// A list of runs that is handed out in pieces of bounded length.
pub struct TakeMaxIter<T> {
    pub items: Vec<T>,
    pub pos: usize,
    pub remainder: Rem<T>,
}

/// Every run is consistent and not empty.
pub open spec fn runs_nonempty<T: SplitableSpan>(items: Seq<T>) -> bool {
    forall|i: int| 0 <= i < items.len() ==> (#[trigger] items[i]).wf() && items[i].spec_len() > 0
}

impl<T: SplitableSpan + Copy> TakeMaxIter<T> {
    pub open spec fn wf(&self) -> bool {
        &&& self.pos <= self.items@.len()
        &&& self.remainder.wf()
        &&& runs_nonempty(self.items@)
    }

    /// The runs that are still to come, a kept remainder first.
    pub open spec fn remaining(&self) -> Seq<T> {
        let rest = self.items@.subrange(self.pos as int, self.items@.len() as int);
        match self.remainder.0 {
            Some(r) => seq![r] + rest,
            None => rest,
        }
    }

    /// What is still to come after a piece of at most `max_size` items has
    /// been taken from `runs`.
    pub open spec fn remaining_after(runs: Seq<T>, max_size: usize) -> Seq<T> {
        match rest_after(runs[0], max_size) {
            Some(r) => seq![r] + runs.skip(1),
            None => runs.skip(1),
        }
    }

    pub fn new(items: Vec<T>) -> (r: Self)
        requires
            runs_nonempty(items@),
        ensures
            r.wf(),
            r.remaining() == items@,
    {
        let r = TakeMaxIter { items, pos: 0, remainder: Rem::new() };
        assert(r.remaining() =~= r.items@);
        r
    }

    /// The next run of the list, which leaves the list.
    fn next_item(&mut self) -> (r: Option<T>)
        requires
            old(self).wf(),
        ensures
            final(self).wf(),
            final(self).remainder == old(self).remainder,
            final(self).items == old(self).items,
            match r {
                Some(x) => old(self).pos < old(self).items@.len() && x == old(self).items@[old(
                    self,
                ).pos as int] && final(self).pos == old(self).pos + 1 && x.wf() && x.spec_len()
                    > 0,
                None => old(self).pos == old(self).items@.len() && final(self).pos == old(
                    self,
                ).pos,
            },
    {
        if self.pos < self.items.len() {
            let x = self.items[self.pos];
            self.pos += 1;
            Some(x)
        } else {
            None
        }
    }

    /// The next piece, of at most `max_size` items; `None` at the end.
    pub fn next(&mut self, max_size: usize) -> (r: Option<T>)
        requires
            old(self).wf(),
            max_size > 0,
        ensures
            final(self).wf(),
            old(self).remaining().len() == 0 ==> r.is_none() && final(self).remaining().len() == 0,
            old(self).remaining().len() > 0 ==> r == Some(
                piece_of(old(self).remaining()[0], max_size),
            ) && final(self).remaining() == Self::remaining_after(old(self).remaining(), max_size),
    {
        let ghost before = self.remaining();
        let next = if self.remainder.0.is_none() {
            self.next_item()
        } else {
            None
        };
        let r = self.remainder.take_max_opt(max_size, next);
        proof {
            let rest = self.items@.subrange(self.pos as int, self.items@.len() as int);
            if before.len() > 0 {
                assert(before.skip(1) =~= rest);
                assert(self.remaining() =~= Self::remaining_after(before, max_size));
            } else {
                assert(self.remaining() =~= rest);
            }
        }
        r
    }

    /// As `next`; kept for callers that pass a context.
    pub fn next_ctx(&mut self, max_size: usize) -> (r: Option<T>)
        requires
            old(self).wf(),
            max_size > 0,
        ensures
            final(self).wf(),
            old(self).remaining().len() == 0 ==> r.is_none() && final(self).remaining().len() == 0,
            old(self).remaining().len() > 0 ==> r == Some(
                piece_of(old(self).remaining()[0], max_size),
            ) && final(self).remaining() == Self::remaining_after(old(self).remaining(), max_size),
    {
        self.next(max_size)
    }

    /// The run that the next piece will be taken from. What is still to
    /// come stays as it is.
    pub fn peek(&mut self) -> (r: Option<T>)
        requires
            old(self).wf(),
        ensures
            final(self).wf(),
            final(self).remaining() == old(self).remaining(),
            r == (if old(self).remaining().len() > 0 {
                Some(old(self).remaining()[0])
            } else {
                None
            }),
            r == final(self).remainder.0,
    {
        let ghost before = self.remaining();
        if self.remainder.0.is_none() {
            let next = self.next_item();
            self.remainder.prime(next);
        }
        proof {
            assert(self.remaining() =~= before);
        }
        self.remainder.0
    }
}

/// Takes from two lists a piece each, both of the same length: the most
/// that `max_size` and the next run of each list allow. `None` where one
/// of the lists is at its end.
pub fn zip_next<A: SplitableSpan + Copy, B: SplitableSpan + Copy>(
    a: &mut TakeMaxIter<A>,
    b: &mut TakeMaxIter<B>,
    max_size: usize,
) -> (r: Option<(A, B)>)
    requires
        old(a).wf(),
        old(b).wf(),
        max_size > 0,
    ensures
        final(a).wf(),
        final(b).wf(),
        r.is_some() == (old(a).remaining().len() > 0 && old(b).remaining().len() > 0),
        match r {
            Some((x, y)) => {
                let take = zip_len(old(a).remaining()[0], old(b).remaining()[0], max_size);
                &&& x == piece_of(old(a).remaining()[0], take)
                &&& y == piece_of(old(b).remaining()[0], take)
                &&& x.spec_len() == take
                &&& y.spec_len() == take
                &&& final(a).remaining() == TakeMaxIter::<A>::remaining_after(
                    old(a).remaining(),
                    take,
                )
                &&& final(b).remaining() == TakeMaxIter::<B>::remaining_after(
                    old(b).remaining(),
                    take,
                )
            },
            None => final(a).remaining() == old(a).remaining() && final(b).remaining() == old(
                b,
            ).remaining(),
        },
{
    let pa = a.peek();
    let pb = b.peek();
    match (pa, pb) {
        (Some(aa), Some(bb)) => {
            let len1 = aa.len();
            let len2 = bb.len();
            let mut take_here = max_size;
            if len1 < take_here {
                take_here = len1;
            }
            if len2 < take_here {
                take_here = len2;
            }
            let ghost ra = a.remaining();
            let ghost rb = b.remaining();
            let x = a.remainder.take_max_primed(take_here);
            let y = b.remainder.take_max_primed(take_here);
            proof {
                if take_here < len1 {
                    aa.lemma_split_lengths(take_here as nat);
                }
                if take_here < len2 {
                    bb.lemma_split_lengths(take_here as nat);
                }
                let rest_a = a.items@.subrange(a.pos as int, a.items@.len() as int);
                let rest_b = b.items@.subrange(b.pos as int, b.items@.len() as int);
                assert(ra.skip(1) =~= rest_a);
                assert(rb.skip(1) =~= rest_b);
                assert(a.remaining() =~= TakeMaxIter::<A>::remaining_after(ra, take_here));
                assert(b.remaining() =~= TakeMaxIter::<B>::remaining_after(rb, take_here));
            }
            Some((x, y))
        },
        _ => None,
    }
}

/// Length of the pieces that `zip_next` takes.
pub open spec fn zip_len<A: HasLength, B: HasLength>(a: A, b: B, max_size: usize) -> usize {
    let m = if a.spec_len() < max_size {
        a.spec_len()
    } else {
        max_size as nat
    };
    if b.spec_len() < m {
        b.spec_len() as usize
    } else {
        m as usize
    }
}

/// Lists that can be handed out in pieces.
pub trait TakeMaxFns<T>: Sized {
    fn take_max(self) -> TakeMaxIter<T>;
}

} // verus!
