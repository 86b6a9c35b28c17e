//! What the history of a log is made of when it is read from a file:
//! pieces of one agent and one run of the graph each, and runs of
//! operations that are dealt out to the versions of the pieces.

use crate::encoding::varint::spec_decode;
use crate::frontier::{is_sorted_strict, LV};
use crate::list::encoding::{spec_numbers, spec_ops, valid_run};
use crate::list::operation::{OpSpan, UnitOp};
use crate::list::oplog::{AgentId, CRDTId, OpLog};
use crate::rle::{HasLength, HasUnits, SplitableSpan};
use vstd::prelude::*;

verus! {

/// Number of operations in the first `k` runs.
pub open spec fn units_before(runs: Seq<OpSpan>, k: nat) -> nat
    decreases k,
{
    if k == 0 || k > runs.len() {
        0
    } else {
        units_before(runs, (k - 1) as nat) + runs[k - 1].spec_len()
    }
}

/// Operation `j` of the runs taken together.
pub open spec fn flat_unit(runs: Seq<OpSpan>, j: nat) -> UnitOp
    decreases runs.len(),
{
    if runs.len() == 0 {
        arbitrary()
    } else if j >= units_before(runs, (runs.len() - 1) as nat) {
        runs.last().spec_unit((j - units_before(runs, (runs.len() - 1) as nat)) as nat)
    } else {
        flat_unit(runs.drop_last(), j)
    }
}

/// The operations before a run are those before any later run, or fewer.
pub proof fn lemma_units_grow(runs: Seq<OpSpan>, k: nat, m: nat)
    requires
        k <= m <= runs.len(),
    ensures
        units_before(runs, k) <= units_before(runs, m),
    decreases m,
{
    if k < m {
        lemma_units_grow(runs, k, (m - 1) as nat);
    }
}

/// The operations before a run do not depend on the runs behind it.
pub proof fn lemma_units_drop(runs: Seq<OpSpan>, k: nat)
    requires
        k < runs.len(),
    ensures
        units_before(runs.drop_last(), k) == units_before(runs, k),
    decreases k,
{
    if k > 0 {
        lemma_units_drop(runs, (k - 1) as nat);
    }
}

/// Operation `i` of run `k` is the operation of the runs taken together
/// that comes behind the operations of the runs before it.
pub proof fn lemma_flat_unit(runs: Seq<OpSpan>, k: nat, i: nat)
    requires
        k < runs.len(),
        i < runs[k as int].spec_len(),
    ensures
        flat_unit(runs, units_before(runs, k) + i) == runs[k as int].spec_unit(i),
    decreases runs.len(),
{
    let last = (runs.len() - 1) as nat;
    if k < last {
        lemma_units_grow(runs, k + 1, last);
        lemma_units_drop(runs, k);
        lemma_flat_unit(runs.drop_last(), k, i);
    }
}

/// Both halves of a run that a file may hold are runs that it may hold.
pub proof fn lemma_valid_split(op: OpSpan, at: nat, content_len: usize)
    requires
        valid_run(op, content_len),
        0 < at < op.spec_len(),
    ensures
        valid_run(op.spec_head(at), content_len),
        valid_run(op.spec_tail(at), content_len),
{
    op.lemma_split_lengths(at);
}

/// The names of `len` versions in a row of one agent, from its number
/// `seq` on.
pub open spec fn run_ids(agent: usize, seq: usize, len: nat) -> Seq<CRDTId> {
    Seq::new(len, |k: int| CRDTId { agent, seq: (seq + k) as usize })
}

/// The parents of `len` versions in a row from version `start` on: those
/// given for the first, and for each other the version before it.
pub open spec fn run_parents_list(first: Seq<LV>, start: nat, len: nat) -> Seq<Seq<LV>> {
    Seq::new(
        len,
        |k: int|
            if k == 0 {
                first
            } else {
                seq![(start + k - 1) as usize]
            },
    )
}

/// Whether one of the versions with the given names is the version
/// number `seq` of agent number `agent`.
pub open spec fn id_held(ids: Seq<CRDTId>, agent: u64, seq: u64) -> bool {
    exists|t: int| 0 <= t < ids.len() && (#[trigger] ids[t]).agent == agent && ids[t].seq == seq
}

/// The version that is the version number `seq` of agent number `agent`.
pub open spec fn version_held(ids: Seq<CRDTId>, agent: u64, seq: u64) -> LV {
    (choose|t: int| 0 <= t < ids.len() && (#[trigger] ids[t]).agent == agent && ids[t].seq == seq)
        as usize
}

/// Whether numbers `2 * k` and `2 * k + 1` of `vs` name, as agent and
/// number, one of the versions.
pub open spec fn pair_held(ids: Seq<CRDTId>, vs: Seq<u64>, k: int) -> bool {
    id_held(ids, vs[2 * k], vs[2 * k + 1])
}

/// The versions that the first `count` pairs of `vs` name.
pub open spec fn versions_held(ids: Seq<CRDTId>, vs: Seq<u64>, count: nat) -> Seq<LV> {
    Seq::new(count, |k: int| version_held(ids, vs[2 * k], vs[2 * k + 1]))
}

/// The `count` parents that stand in `bytes`, among the versions with
/// the given names, and the number of bytes that they take.
pub open spec fn parents_in(ids: Seq<CRDTId>, bytes: Seq<u8>, count: nat) -> Option<
    (Seq<LV>, nat),
> {
    match spec_numbers(bytes, 2 * count) {
        Some((vs, used)) => if (forall|k: int| 0 <= k < count ==> #[trigger] pair_held(ids, vs, k))
            && is_sorted_strict(versions_held(ids, vs, count)) {
            Some((versions_held(ids, vs, count), used))
        } else {
            None
        },
        None => None,
    }
}

/// The number of bytes that the `count` parents take that stand in
/// `bytes`.
pub open spec fn spec_pieces_more(ids: Seq<CRDTId>, bytes: Seq<u8>, count: nat) -> nat {
    match parents_in(ids, bytes, count) {
        Some((_, more)) => more,
        None => 0,
    }
}

/// What the pieces of history that stand in `bytes` make of a history
/// that has the versions named `ids`, whose agents have given out the
/// numbers below `nexts`, and to which the versions with the parents
/// `parents` have been added already. Pieces are read until there are
/// `total` versions; nothing may stand behind them.
///
/// A piece is the number of its agent, the number of its first version
/// with that agent, its length, the number of its parents, and the
/// parents. The agent has to be known and the number the next that it
/// gives out; the piece may not be empty nor go beyond `total`; the
/// parents have to be among the versions before the piece, in their
/// order. `None` where the bytes are not of that form.
pub open spec fn spec_pieces(
    ids: Seq<CRDTId>,
    nexts: Seq<usize>,
    parents: Seq<Seq<LV>>,
    bytes: Seq<u8>,
    total: nat,
) -> Option<(Seq<CRDTId>, Seq<usize>, Seq<Seq<LV>>)>
    decreases total - ids.len(),
{
    if ids.len() >= total {
        if bytes.len() == 0 {
            Some((ids, nexts, parents))
        } else {
            None
        }
    } else {
        match spec_numbers(bytes, 4) {
            Some((hd, used)) => {
                let agent = hd[0];
                let seq = hd[1];
                let len = hd[2];
                let count = hd[3];
                if agent < nexts.len() && seq == nexts[agent as int] && seq
                    <= OpLog::spec_size_limit() && 0 < len <= total - ids.len() && count
                    <= usize::MAX && used <= bytes.len() {
                    match parents_in(ids, bytes.skip(used as int), count as nat) {
                        Some((ps, more)) => spec_pieces(
                            ids + run_ids(agent as usize, seq as usize, len as nat),
                            nexts.update(agent as int, (seq + len) as usize),
                            parents + run_parents_list(ps, ids.len(), len as nat),
                            bytes.skip((used + more) as int),
                            total,
                        ),
                        None => None,
                    }
                } else {
                    None
                }
            },
            None => None,
        }
    }
}

/// The runs are dealt out up to operation `pos`: the first `taken` of
/// them, but for the rest `cur` of the last of these, which holds the
/// operations that come next.
pub open spec fn dealt_out(
    runs: Seq<OpSpan>,
    taken: usize,
    cur: Option<OpSpan>,
    pos: nat,
    content_len: usize,
) -> bool {
    let pending: nat = match cur {
        Some(c) => c.spec_len(),
        None => 0,
    };
    &&& taken <= runs.len()
    &&& units_before(runs, taken as nat) == pos + pending
    &&& match cur {
        Some(c) => valid_run(c, content_len) && forall|i: nat|
            i < c.spec_len() ==> #[trigger] c.spec_unit(i) == flat_unit(runs, pos + i),
        None => true,
    }
}

/// Takes the next operations out of the runs: no more than `remaining`,
/// and no more than the run at hand holds.
#[verifier::rlimit(50)]
pub(crate) fn take_units(
    runs: &Vec<OpSpan>,
    taken: &mut usize,
    cur: &mut Option<OpSpan>,
    remaining: usize,
    Ghost(pos): Ghost<nat>,
    Ghost(content_len): Ghost<usize>,
) -> (piece: OpSpan)
    requires
        remaining > 0,
        forall|k: int| 0 <= k < runs@.len() ==> valid_run(#[trigger] runs@[k], content_len),
        dealt_out(runs@, *old(taken), *old(cur), pos, content_len),
        units_before(runs@, runs@.len()) > pos,
    ensures
        valid_run(piece, content_len),
        0 < piece.spec_len() <= remaining,
        forall|i: nat|
            i < piece.spec_len() ==> #[trigger] piece.spec_unit(i) == flat_unit(runs@, pos + i),
        dealt_out(runs@, *final(taken), *final(cur), pos + piece.spec_len(), content_len),
{
    let op = match cur.take() {
        Some(c) => c,
        None => {
            let _count = runs.len();
            let c = runs[*taken];
            proof {
                assert forall|i: nat| i < c.spec_len() implies #[trigger] c.spec_unit(i)
                    == flat_unit(runs@, pos + i) by {
                    lemma_flat_unit(runs@, *taken as nat, i);
                }
            }
            *taken = *taken + 1;
            c
        },
    };
    proof {
        assert(valid_run(op, content_len));
        assert(units_before(runs@, *taken as nat) == pos + op.spec_len());
    }
    let mut piece = op;
    if piece.len() > remaining {
        proof {
            lemma_valid_split(op, remaining as nat, content_len);
            assert forall|i: nat| i < op.spec_len() implies op.spec_unit(i) == (if i < remaining {
                op.spec_head(remaining as nat).spec_unit(i)
            } else {
                op.spec_tail(remaining as nat).spec_unit((i - remaining) as nat)
            }) by {
                crate::list::operation::law_split_keeps_units(op, remaining as nat, i);
            }
        }
        let rest = piece.truncate(remaining);
        *cur = Some(rest);
        proof {
            assert forall|i: nat| i < rest.spec_len() implies #[trigger] rest.spec_unit(i)
                == flat_unit(runs@, (pos + remaining + i) as nat) by {
                let j = (remaining + i) as nat;
                assert(op.spec_unit(j) == flat_unit(runs@, pos + j));
            }
            assert forall|i: nat| i < piece.spec_len() implies #[trigger] piece.spec_unit(i)
                == flat_unit(runs@, pos + i) by {
                assert(op.spec_unit(i) == flat_unit(runs@, pos + i));
            }
        }
    }
    piece
}

impl OpLog {
    /// The names of the versions of the log, in the order of the
    /// versions.
    pub open spec fn ids(&self) -> Seq<CRDTId> {
        Seq::new(self.spec_len(), |t: int| self.id_at(t as usize))
    }

    /// For each agent of the log, the number that it gives out next.
    pub open spec fn nexts(&self) -> Seq<usize> {
        Seq::new(self.client_data@.len(), |a: int| self.client_data@[a].next_seq)
    }

    /// The parents of the versions of the log from version `base` on.
    pub open spec fn parents_from(&self, base: nat) -> Seq<Seq<LV>> {
        Seq::new(
            (self.spec_len() - base) as nat,
            |j: int| self.history.parents_of((base + j) as usize),
        )
    }

    /// The parents that stand in the bytes are the same whether they are
    /// looked up in the log or among the names of its versions.
    pub proof fn lemma_parents_in(&self, bytes: Seq<u8>, count: nat)
        requires
            self.wf(),
        ensures
            self.spec_parents(bytes, count) == parents_in(self.ids(), bytes, count),
    {
        let ids = self.ids();
        if spec_numbers(bytes, 2 * count).is_some() {
            let vs = spec_numbers(bytes, 2 * count).unwrap().0;
            assert forall|a: u64, s: u64| self.holds_id(a, s) == id_held(ids, a, s) by {
                if self.holds_id(a, s) {
                    let t = choose|t: LV|
                        t < self.spec_len() && (#[trigger] self.id_at(t)).agent == a
                            && self.id_at(t).seq == s;
                    assert(ids[t as int] == self.id_at(t));
                }
                if id_held(ids, a, s) {
                    let t = choose|t: int|
                        0 <= t < ids.len() && (#[trigger] ids[t]).agent == a && ids[t].seq == s;
                    assert(self.id_at(t as usize).agent == a);
                }
            }
            assert forall|k: int| 0 <= k < count implies #[trigger] self.names_version(vs, k)
                == pair_held(ids, vs, k) by {
            }
            if forall|k: int| 0 <= k < count ==> #[trigger] self.names_version(vs, k) {
                assert forall|k: int| 0 <= k < count implies #[trigger] pair_held(ids, vs, k) by {
                    assert(self.names_version(vs, k));
                }
                assert(self.versions_named(vs, count) =~= versions_held(ids, vs, count)) by {
                    assert forall|k: int| 0 <= k < count implies self.versions_named(vs, count)[k]
                        == versions_held(ids, vs, count)[k] by {
                        assert(self.names_version(vs, k));
                        assert(pair_held(ids, vs, k));
                        let a = vs[2 * k];
                        let s = vs[2 * k + 1];
                        let t1 = self.version_of(a, s);
                        let t2 = choose|t: int|
                            0 <= t < ids.len() && (#[trigger] ids[t]).agent == a && ids[t].seq
                                == s;
                        assert(ids[t2] == self.id_at(t2 as usize));
                        self.lemma_ids(t1, t2 as usize);
                    }
                }
            } else {
                let k = choose|k: int| 0 <= k < count && !#[trigger] self.names_version(vs, k);
                assert(!pair_held(ids, vs, k));
            }
        }
    }

    /// The runs are dealt out as far as the log has versions behind
    /// `base`: the first `taken` of them, but for the rest `cur` of the
    /// last of these, which holds the operations that come next.
    pub open spec fn cursor_ok(
        &self,
        runs: Seq<OpSpan>,
        taken: usize,
        cur: Option<OpSpan>,
        base: nat,
        content_len: usize,
    ) -> bool {
        &&& base <= self.spec_len()
        &&& dealt_out(runs, taken, cur, (self.spec_len() - base) as nat, content_len)
    }

    /// What the first `done` versions of a piece of history add to the log
    /// `before`: as many versions of `agent` with the numbers that it
    /// gives out next, the first with the given parents and each other
    /// with the version before it as its parent, and for each the
    /// operation that comes next in the runs.
    pub open spec fn piece_pushed(
        &self,
        before: &OpLog,
        agent: AgentId,
        parents: Seq<LV>,
        done: nat,
        runs: Seq<OpSpan>,
        base: nat,
    ) -> bool {
        let start = before.spec_len();
        let next = before.client_data@[agent as int].next_seq;
        &&& self.holds_all(before)
        &&& self.ins_content == before.ins_content
        &&& self.client_data@.len() == before.client_data@.len()
        &&& self.spec_len() == start + done
        &&& self.nexts() == before.nexts().update(agent as int, (next + done) as usize)
        &&& forall|t: LV|
            start <= t < start + done ==> #[trigger] self.id_at(t) == (CRDTId {
                agent,
                seq: (next + (t - start)) as usize,
            })
        &&& done > 0 ==> self.history.parents_of(start as usize) == parents
        &&& forall|t: LV|
            start < t < start + done ==> #[trigger] self.history.parents_of(t) == seq![
                (t - 1) as usize,
            ]
        &&& forall|t: LV|
            start <= t < start + done ==> #[trigger] self.op_at(t) == flat_unit(
                runs,
                (t - base) as nat,
            )
    }

    /// A log takes part of a piece of history where nothing of it has
    /// been pushed.
    pub proof fn lemma_piece_begun(&self, agent: AgentId, parents: Seq<LV>, runs: Seq<OpSpan>, base: nat)
        requires
            self.wf(),
            agent < self.client_data@.len(),
        ensures
            self.piece_pushed(self, agent, parents, 0, runs, base),
    {
        self.lemma_holds_all_refl();
        assert(self.nexts() =~= self.nexts().update(
            agent as int,
            self.client_data@[agent as int].next_seq,
        ));
    }

    /// What a push of the next `n` versions of a piece makes of a log
    /// that held the first `done` versions of it.
    #[verifier::rlimit(100)]
    pub proof fn lemma_piece_goes_on(
        &self,
        before: &OpLog,
        later: &OpLog,
        agent: AgentId,
        parents: Seq<LV>,
        done: nat,
        piece: OpSpan,
        runs: Seq<OpSpan>,
        base: nat,
    )
        requires
            self.wf(),
            agent < self.client_data@.len(),
            self.piece_pushed(before, agent, parents, done, runs, base),
            base <= before.spec_len(),
            piece.spec_len() > 0,
            self.spec_len() + piece.spec_len() <= usize::MAX,
            before.client_data@[agent as int].next_seq + done + piece.spec_len() <= usize::MAX,
            later.grown_from(self, agent, piece.spec_len()),
            later.ins_content == self.ins_content,
            forall|k: nat|
                k < piece.spec_len() ==> #[trigger] later.op_at((self.spec_len() + k) as usize)
                    == piece.spec_unit(k),
            later.history.parents_of(self.spec_len() as usize) == (if done == 0 {
                parents
            } else {
                seq![(self.spec_len() - 1) as usize]
            }),
            forall|v: LV|
                self.spec_len() < v < self.spec_len() + piece.spec_len()
                    ==> #[trigger] later.history.parents_of(v) == seq![(v - 1) as usize],
            forall|i: nat|
                i < piece.spec_len() ==> #[trigger] piece.spec_unit(i) == flat_unit(
                    runs,
                    (self.spec_len() - base + i) as nat,
                ),
        ensures
            later.piece_pushed(before, agent, parents, done + piece.spec_len(), runs, base),
    {
        let n = piece.spec_len();
        let start = before.spec_len();
        let next = before.client_data@[agent as int].next_seq;
        later.lemma_grown_holds_all(self, agent, n);
        before.lemma_holds_all_trans(self, later);
        assert forall|a: int| 0 <= a < later.client_data@.len() implies later.nexts()[a]
            == before.nexts().update(agent as int, (next + done + n) as usize)[a] by {
            assert(later.client_data@[a].next_seq == self.client_data@[a].next_seq + if a
                == agent {
                n as int
            } else {
                0
            });
            assert(self.nexts()[a] == self.client_data@[a].next_seq);
            assert(before.nexts()[a] == before.client_data@[a].next_seq);
        }
        assert(later.nexts() =~= before.nexts().update(agent as int, (next + done + n) as usize));
        assert forall|t: LV| t < self.spec_len() implies later.history.parents_of(t)
            == self.history.parents_of(t) by {
            assert(later.history.run_start(t) == self.history.run_start(t));
        }
        assert forall|t: LV| start <= t < start + done + n implies #[trigger] later.id_at(t) == (
        CRDTId { agent, seq: (next + (t - start)) as usize }) by {
            if t >= self.spec_len() {
                let k = (t - self.spec_len()) as nat;
                assert(later.id_at((self.spec_len() + k) as usize) == (CRDTId {
                    agent,
                    seq: (self.client_data@[agent as int].next_seq + k) as usize,
                }));
                assert(self.nexts()[agent as int] == next + done);
            } else {
                assert(later.id_at(t) == self.id_at(t));
            }
        }
        assert forall|t: LV| start <= t < start + done + n implies #[trigger] later.op_at(t)
            == flat_unit(runs, (t - base) as nat) by {
            if t >= self.spec_len() {
                let k = (t - self.spec_len()) as nat;
                assert(later.op_at((self.spec_len() + k) as usize) == piece.spec_unit(k));
                assert(piece.spec_unit(k) == flat_unit(runs, (self.spec_len() - base + k) as nat));
            } else {
                assert(later.id_at(t) == self.id_at(t));
                assert(later.op_at(t) == self.op_at(t));
                assert(self.op_at(t) == flat_unit(runs, (t - base) as nat));
            }
        }
        assert forall|t: LV| start < t < start + done + n implies #[trigger] later.history.parents_of(
            t,
        ) == seq![(t - 1) as usize] by {
            if t < self.spec_len() {
                assert(later.history.parents_of(t) == self.history.parents_of(t));
            }
        }
        if done > 0 {
            assert(later.history.parents_of(start as usize) == self.history.parents_of(
                start as usize,
            ));
        }
    }

    /// Pushes onto the log the `len` versions of a piece of history, each
    /// with the operation that comes next in the runs.
    #[verifier::rlimit(100)]
    pub(crate) fn push_versions(
        &mut self,
        agent: AgentId,
        parents: &Vec<LV>,
        len: usize,
        runs: &Vec<OpSpan>,
        taken: &mut usize,
        cur: &mut Option<OpSpan>,
        Ghost(base): Ghost<nat>,
    )
        requires
            old(self).wf(),
            agent < old(self).client_data@.len(),
            old(self).client_data@[agent as int].next_seq + len <= usize::MAX,
            old(self).history.valid_frontier(parents@),
            len > 0,
            old(self).spec_len() + len <= usize::MAX,
            forall|k: int|
                0 <= k < runs@.len() ==> valid_run(
                    #[trigger] runs@[k],
                    old(self).ins_content@.len() as usize,
                ),
            old(self).cursor_ok(
                runs@,
                *old(taken),
                *old(cur),
                base,
                old(self).ins_content@.len() as usize,
            ),
            base <= old(self).spec_len(),
            units_before(runs@, runs@.len()) >= (old(self).spec_len() - base) + len,
        ensures
            final(self).wf(),
            final(self).piece_pushed(old(self), agent, parents@, len as nat, runs@, base),
            final(self).cursor_ok(
                runs@,
                *final(taken),
                *final(cur),
                base,
                old(self).ins_content@.len() as usize,
            ),
    {
        let ghost before = *self;
        let content_len = self.ins_content.len();
        let mut remaining = len;
        proof {
            self.lemma_piece_begun(agent, parents@, runs@, base);
        }
        while remaining > 0
            invariant
                self.wf(),
                before.wf(),
                self.piece_pushed(&before, agent, parents@, (len - remaining) as nat, runs@, base),
                content_len == before.ins_content@.len(),
                agent < before.client_data@.len(),
                0 <= remaining <= len,
                before.spec_len() + len <= usize::MAX,
                before.client_data@[agent as int].next_seq + len <= usize::MAX,
                before.history.valid_frontier(parents@),
                forall|k: int| 0 <= k < runs@.len() ==> valid_run(#[trigger] runs@[k], content_len),
                self.cursor_ok(runs@, *taken, *cur, base, content_len),
                base <= before.spec_len(),
                units_before(runs@, runs@.len()) >= (before.spec_len() - base) + len,
            decreases remaining,
        {
            let ghost mid = *self;
            let ghost pos = (self.spec_len() - base) as nat;
            let ghost done = (len - remaining) as nat;
            proof {
                assert(dealt_out(runs@, *taken, *cur, pos, content_len));
            }
            let piece = take_units(runs, taken, cur, remaining, Ghost(pos), Ghost(content_len));
            let n = piece.len();
            let now = self.len();
            proof {
                assert forall|i: nat| i < n implies #[trigger] piece.spec_unit(i) == flat_unit(
                    runs@,
                    (mid.spec_len() - base + i) as nat,
                ) by {
                    assert(piece.spec_unit(i) == flat_unit(runs@, pos + i));
                }
                assert(mid.nexts()[agent as int] == mid.client_data@[agent as int].next_seq);
            }
            if remaining == len {
                self.push_op(agent, parents.as_slice(), piece);
            } else {
                let prev = [now - 1];
                proof {
                    assert(prev@.len() == 1);
                    assert(prev@[0] == now - 1);
                }
                self.push_op(agent, prev.as_slice(), piece);
                proof {
                    assert(self.history.parents_of(now) =~= seq![(now - 1) as usize]);
                }
            }
            proof {
                mid.lemma_piece_goes_on(&before, self, agent, parents@, done, piece, runs@, base);
            }
            remaining -= n;
        }
    }

    /// What a piece of history that has been pushed makes of the names
    /// and the parents of the versions of the log, and of the operations
    /// of the versions behind `base`.
    #[verifier::rlimit(100)]
    pub proof fn lemma_piece_step(
        &self,
        later: &OpLog,
        agent: AgentId,
        parents: Seq<LV>,
        len: nat,
        runs: Seq<OpSpan>,
        base: nat,
    )
        requires
            self.wf(),
            later.wf(),
            agent < self.client_data@.len(),
            len > 0,
            base <= self.spec_len(),
            self.spec_len() + len <= usize::MAX,
            self.client_data@[agent as int].next_seq + len <= usize::MAX,
            later.piece_pushed(self, agent, parents, len, runs, base),
            forall|t: LV|
                base <= t < self.spec_len() ==> #[trigger] self.op_at(t) == flat_unit(
                    runs,
                    (t - base) as nat,
                ),
        ensures
            later.ids() == self.ids() + run_ids(
                agent,
                self.client_data@[agent as int].next_seq,
                len,
            ),
            later.parents_from(base) == self.parents_from(base) + run_parents_list(
                parents,
                self.spec_len(),
                len,
            ),
            forall|t: LV|
                base <= t < later.spec_len() ==> #[trigger] later.op_at(t) == flat_unit(
                    runs,
                    (t - base) as nat,
                ),
    {
        let start = self.spec_len();
        let next = self.client_data@[agent as int].next_seq;
        let a = later.ids();
        let b = self.ids() + run_ids(agent, next, len);
        assert(a.len() == b.len());
        assert forall|t: int| 0 <= t < a.len() implies a[t] == b[t] by {
            if t < start {
                assert(later.id_at(t as usize) == self.id_at(t as usize));
            } else {
                assert(later.id_at(t as usize) == (CRDTId {
                    agent,
                    seq: (next + (t - start)) as usize,
                }));
            }
        }
        assert(a =~= b);
        let p = later.parents_from(base);
        let q = self.parents_from(base) + run_parents_list(parents, start, len);
        assert(p.len() == q.len());
        assert forall|j: int| 0 <= j < p.len() implies p[j] == q[j] by {
            let t = (base + j) as usize;
            if t < start {
                assert(later.history.run_start(t) == self.history.run_start(t));
            } else if t == start {
            } else {
                assert(later.history.parents_of(t) == seq![(t - 1) as usize]);
            }
        }
        assert(p =~= q);
        assert forall|t: LV| base <= t < later.spec_len() implies #[trigger] later.op_at(t)
            == flat_unit(runs, (t - base) as nat) by {
            if t < start {
                assert(later.id_at(t) == self.id_at(t));
                assert(later.op_at(t) == self.op_at(t));
            }
        }
    }

    /// What reading the history and the operations of a file makes of the
    /// log: the names of all its versions, the numbers that its agents
    /// give out next, the parents of the new versions, and the runs of
    /// operations of the new versions.
    ///
    /// The history is the number of versions that the log is to have in
    /// the end, which is within the size limit, and the pieces that add
    /// the versions missing, as `spec_pieces` reads them. The operations
    /// are as `spec_ops` reads them, one for each new version. `None`
    /// where the bytes are not of that form.
    pub open spec fn spec_history(&self, graph: Seq<u8>, ops: Seq<u8>) -> Option<
        (Seq<CRDTId>, Seq<usize>, Seq<Seq<LV>>, Seq<OpSpan>),
    > {
        spec_history_in(
            self.ids(),
            self.nexts(),
            self.ins_content@.len() as usize,
            graph,
            ops,
        )
    }

    /// The log holds all that `before` held, with the same agents and the
    /// same content, and behind it the versions of the history `h` as
    /// `spec_history` gives it: each with its name, its parents and its
    /// operation.
    pub open spec fn holds_history(
        &self,
        before: &OpLog,
        h: (Seq<CRDTId>, Seq<usize>, Seq<Seq<LV>>, Seq<OpSpan>),
    ) -> bool {
        &&& self.holds_all(before)
        &&& self.ins_content == before.ins_content
        &&& self.client_data@.len() == before.client_data@.len()
        &&& self.ids() == h.0
        &&& self.nexts() == h.1
        &&& self.parents_from(before.spec_len()) == h.2
        &&& forall|t: LV|
            before.spec_len() <= t < self.spec_len() ==> #[trigger] self.op_at(t) == flat_unit(
                h.3,
                (t - before.spec_len()) as nat,
            )
    }
}

/// What reading the history and the operations of a file makes of a
/// history with the versions named `ids`, whose agents give out the
/// numbers `nexts` next and whose content has `content_len` characters:
/// see `OpLog::spec_history`.
pub open spec fn spec_history_in(
    ids: Seq<CRDTId>,
    nexts: Seq<usize>,
    content_len: usize,
    graph: Seq<u8>,
    ops: Seq<u8>,
) -> Option<(Seq<CRDTId>, Seq<usize>, Seq<Seq<LV>>, Seq<OpSpan>)> {
    match spec_decode(graph) {
        Some((total, l)) => if total <= OpLog::spec_size_limit() {
            match spec_ops(ops, content_len) {
                Some(runs) => if units_before(runs, runs.len()) == new_count(
                    total as nat,
                    ids.len(),
                ) {
                    match spec_pieces(
                        ids,
                        nexts,
                        Seq::<Seq<LV>>::empty(),
                        graph.skip(l as int),
                        total as nat,
                    ) {
                        Some((ids, nexts, parents)) => Some((ids, nexts, parents, runs)),
                        None => None,
                    }
                } else {
                    None
                },
                None => None,
            }
        } else {
            None
        },
        None => None,
    }
}

/// Number of versions that a log of `len` versions lacks to have `total`.
pub open spec fn new_count(total: nat, len: nat) -> nat {
    if total > len {
        (total - len) as nat
    } else {
        0
    }
}

/// Whether the runs hold `want` operations.
pub(crate) fn count_units(runs: &Vec<OpSpan>, want: usize, Ghost(content_len): Ghost<usize>) -> (ok:
    bool)
    requires
        forall|k: int| 0 <= k < runs@.len() ==> valid_run(#[trigger] runs@[k], content_len),
    ensures
        ok == (units_before(runs@, runs@.len()) == want),
{
    let mut sum: usize = 0;
    let mut k: usize = 0;
    while k < runs.len()
        invariant
            0 <= k <= runs@.len(),
            sum == units_before(runs@, k as nat),
            sum <= want,
            forall|j: int| 0 <= j < runs@.len() ==> valid_run(#[trigger] runs@[j], content_len),
        decreases runs@.len() - k,
    {
        let n = runs[k].len();
        if n > want - sum {
            proof {
                lemma_units_grow(runs@, (k + 1) as nat, runs@.len());
            }
            return false;
        }
        sum += n;
        k += 1;
    }
    sum == want
}

} // verus!
