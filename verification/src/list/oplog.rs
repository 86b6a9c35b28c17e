//! The operation log: the causal graph, the agent that made each version,
//! and the operation that each version stands for.

use crate::causalgraph::graph::Graph;
use crate::dtrange::DTRange;
use crate::frontier::{Frontier, LV};
use crate::list::operation::{InsDelTag, OpSpan, UnitOp};
use crate::rle::rle_vec::RleVec;
use crate::rle::{run_end, HasLength, HasUnits, KVPair, MergableSpan, RleKeyed, SplitableSpan};
use vstd::prelude::*;
use vstd::string::StrSliceExecFns;

verus! {

/// Index of an agent in the list of agents of a log.
pub type AgentId = usize;

/// The name of a version that all replicas share: the agent that made it
/// and its number among the versions of that agent.
#[derive(Copy, Clone, Debug, PartialEq, Eq, Structural)]
pub struct CRDTId {
    pub agent: AgentId,
    pub seq: usize,
}

/// A run of versions of one agent with consecutive numbers.
#[derive(Copy, Clone, Debug, PartialEq, Eq, Structural)]
pub struct CRDTSpan {
    pub agent: AgentId,
    pub seq_start: usize,
    pub len: usize,
}

impl HasLength for CRDTSpan {
    open spec fn wf(&self) -> bool {
        self.seq_start + self.len <= usize::MAX
    }

    open spec fn spec_len(&self) -> nat {
        self.len as nat
    }

    fn len(&self) -> (n: usize) {
        self.len
    }
}

impl MergableSpan for CRDTSpan {
    open spec fn spec_can_append(&self, other: &CRDTSpan) -> bool {
        other.agent == self.agent && other.seq_start == self.seq_start + self.len
    }

    open spec fn spec_append(self, other: CRDTSpan) -> CRDTSpan {
        CRDTSpan { len: (self.len + other.len) as usize, ..self }
    }

    proof fn lemma_append_length(self, other: CRDTSpan) {
    }

    fn can_append(&self, other: &CRDTSpan) -> (b: bool) {
        other.agent == self.agent && other.seq_start == self.seq_start + self.len
    }

    fn append(&mut self, other: CRDTSpan) {
        self.len = self.len + other.len;
    }

    fn prepend(&mut self, other: CRDTSpan) {
        self.seq_start = other.seq_start;
        self.len = self.len + other.len;
    }
}

impl HasUnits for CRDTSpan {
    type Unit = CRDTId;

    open spec fn spec_unit(&self, k: nat) -> CRDTId {
        CRDTId { agent: self.agent, seq: (self.seq_start + k) as usize }
    }

    proof fn lemma_append_units(self, other: CRDTSpan, k: nat) {
    }
}

/// What a log knows of an agent: its name, and how many versions it has
/// made.
pub struct ClientData {
    pub name: String,
    pub next_seq: usize,
}

pub struct OpLog {
    pub client_data: Vec<ClientData>,
    /// For each version, the agent that made it and its number.
    pub client_with_localtime: RleVec<KVPair<CRDTSpan>>,
    /// For each version, what it does.
    pub operations: RleVec<KVPair<OpSpan>>,
    /// The inserted characters, in the order of their insertion.
    pub ins_content: Vec<char>,
    pub history: Graph,
}

impl OpLog {
    /// Number of versions in the log.
    pub open spec fn spec_len(&self) -> nat {
        self.history.spec_len()
    }

    /// The shared name of version `t`.
    pub open spec fn id_at(&self, t: LV) -> CRDTId {
        self.client_with_localtime.unit_at(t as nat)
    }

    /// The keystroke of version `t`.
    pub open spec fn op_at(&self, t: LV) -> UnitOp {
        self.operations.unit_at(t as nat)
    }

    pub open spec fn name_of(&self, agent: AgentId) -> Seq<char> {
        self.client_data@[agent as int].name@
    }

    /// The runs of the table of agents are consistent: each names an agent
    /// of the log and numbers that the agent has given out, and the runs of
    /// one agent come in the order of their numbers.
    pub open spec fn assignment_wf(&self) -> bool {
        let runs = self.client_with_localtime.0@;
        &&& self.client_with_localtime.runs_wf()
        &&& self.client_with_localtime.is_packed()
        &&& self.client_with_localtime.spec_end() == self.spec_len()
        &&& forall|i: int|
            0 <= i < runs.len() ==> (#[trigger] runs[i]).1.agent < self.client_data@.len()
                && runs[i].1.seq_start + runs[i].1.len <= self.client_data@[runs[i].1.agent as int].next_seq
        &&& forall|i: int, j: int|
            0 <= i < j < runs.len() && (#[trigger] runs[i]).1.agent == (#[trigger] runs[j]).1.agent
                ==> runs[i].1.seq_start + runs[i].1.len <= runs[j].1.seq_start
    }

    /// The runs of the table of operations are consistent, and the known
    /// characters lie within the content of the log.
    pub open spec fn operations_wf(&self) -> bool {
        let runs = self.operations.0@;
        &&& self.operations.runs_wf()
        &&& self.operations.is_packed()
        &&& self.operations.spec_end() == self.spec_len()
        &&& forall|i: int|
            0 <= i < runs.len() && (#[trigger] runs[i]).1.content_known ==> runs[i].1.content_start
                + runs[i].1.spec_len() <= self.ins_content@.len()
    }

    /// No two agents have one name.
    pub open spec fn names_distinct(&self) -> bool {
        forall|a: AgentId, b: AgentId|
            a < b < self.client_data@.len() ==> #[trigger] self.name_of(a) != #[trigger] self.name_of(
                b,
            )
    }

    /// Whether some version of the log is the version number `seq` of
    /// `agent`.
    pub open spec fn gave_out(&self, agent: AgentId, seq: usize) -> bool {
        exists|t: LV| t < self.spec_len() && #[trigger] self.id_at(t) == (CRDTId { agent, seq })
    }

    /// Every number below the one that an agent gives out next is the
    /// number of a version of the log: the agents count without gaps.
    pub open spec fn numbers_dense(&self) -> bool {
        forall|a: AgentId, s: usize|
            a < self.client_data@.len() && s < self.client_data@[a as int].next_seq
                ==> #[trigger] self.gave_out(a, s)
    }

    /// The graph and the tables of the log are consistent.
    pub open spec fn tables_wf(&self) -> bool {
        &&& self.history.wf()
        &&& self.assignment_wf()
        &&& self.operations_wf()
        &&& self.names_distinct()
    }

    pub open spec fn wf(&self) -> bool {
        &&& self.tables_wf()
        &&& self.numbers_dense()
    }

    /// A log with the graph and the tables of a consistent log, whatever
    /// its content, counts without gaps as that log does.
    pub proof fn lemma_dense_kept(&self, later: &OpLog)
        requires
            self.wf(),
            later.history == self.history,
            later.client_with_localtime == self.client_with_localtime,
            later.client_data@.len() >= self.client_data@.len(),
            forall|a: int|
                0 <= a < self.client_data@.len() ==> (#[trigger] later.client_data@[a]).next_seq
                    == self.client_data@[a].next_seq,
            forall|a: int|
                self.client_data@.len() <= a < later.client_data@.len() ==> (
                #[trigger] later.client_data@[a]).next_seq == 0,
        ensures
            later.numbers_dense(),
    {
        assert forall|a: AgentId, s: usize|
            a < later.client_data@.len() && s
                < later.client_data@[a as int].next_seq implies #[trigger] later.gave_out(a, s) by {
            assert(a < self.client_data@.len());
            assert(self.gave_out(a, s));
            let t = choose|t: LV|
                t < self.spec_len() && #[trigger] self.id_at(t) == (CRDTId { agent: a, seq: s });
            assert(later.id_at(t) == (CRDTId { agent: a, seq: s }));
        }
    }

    /// The names of versions are names of agents of the log with numbers
    /// that they have given out, and no two versions have one name.
    pub proof fn lemma_ids(&self, t1: LV, t2: LV)
        requires
            self.assignment_wf(),
            t1 < self.spec_len(),
            t2 < self.spec_len(),
        ensures
            self.id_at(t1).agent < self.client_data@.len(),
            self.id_at(t1).seq < self.client_data@[self.id_at(t1).agent as int].next_seq,
            t1 != t2 ==> self.id_at(t1) != self.id_at(t2),
    {
        let table = &self.client_with_localtime;
        table.lemma_packed_covered(t1 as nat);
        table.lemma_packed_covered(t2 as nat);
        let i = choose|i: int| table.covers(i, t1 as nat);
        let j = choose|j: int| table.covers(j, t2 as nat);
        table.lemma_unit_at(i, t1 as nat);
        table.lemma_unit_at(j, t2 as nat);
        table.lemma_packed_is_sorted();
        let runs = table.0@;
        assert(runs[i].wf() && runs[j].wf());
        if t1 != t2 && self.id_at(t1) == self.id_at(t2) {
            if i < j {
                assert(runs[i].1.seq_start + runs[i].1.len <= runs[j].1.seq_start);
            } else if j < i {
                assert(runs[j].1.seq_start + runs[j].1.len <= runs[i].1.seq_start);
            }
        }
    }

    /// Of two versions of one agent, the one with the lower number comes
    /// first.
    pub proof fn lemma_order(&self, t1: LV, t2: LV)
        requires
            self.assignment_wf(),
            t1 < self.spec_len(),
            t2 < self.spec_len(),
            self.id_at(t1).agent == self.id_at(t2).agent,
            self.id_at(t1).seq < self.id_at(t2).seq,
        ensures
            t1 < t2,
    {
        let table = &self.client_with_localtime;
        table.lemma_packed_covered(t1 as nat);
        table.lemma_packed_covered(t2 as nat);
        let i = choose|i: int| table.covers(i, t1 as nat);
        let j = choose|j: int| table.covers(j, t2 as nat);
        table.lemma_unit_at(i, t1 as nat);
        table.lemma_unit_at(j, t2 as nat);
        table.lemma_packed_is_sorted();
        let runs = table.0@;
        assert(runs[i].wf() && runs[j].wf());
        if j < i {
            assert(runs[j].1.seq_start + runs[j].1.len <= runs[i].1.seq_start);
        }
    }

    /// The known character of a version lies within the content.
    pub proof fn lemma_content(&self, t: LV)
        requires
            self.operations_wf(),
            t < self.spec_len(),
        ensures
            self.op_at(t).content_known ==> self.op_at(t).content < self.ins_content@.len(),
    {
        let table = &self.operations;
        table.lemma_packed_covered(t as nat);
        let i = choose|i: int| table.covers(i, t as nat);
        table.lemma_unit_at(i, t as nat);
        assert(table.0@[i].wf());
    }

    /// An empty log: no agents, no versions, no operations and no
    /// content, with the root as its frontier.
    pub fn new() -> (r: OpLog)
        ensures
            r.wf(),
            r.spec_len() == 0,
            r.client_data@.len() == 0,
            r.client_with_localtime.0@.len() == 0,
            r.operations.0@.len() == 0,
            r.ins_content@.len() == 0,
            r.history.entries.0@.len() == 0,
            r.history.version@ == Seq::<LV>::empty(),
    {
        OpLog {
            client_data: Vec::new(),
            client_with_localtime: RleVec::new(),
            operations: RleVec::new(),
            ins_content: Vec::new(),
            history: Graph::new(),
        }
    }

    /// Number of versions in the log.
    pub fn len(&self) -> (n: usize)
        requires
            self.wf(),
        ensures
            n == self.spec_len(),
    {
        self.history.len()
    }

    pub fn is_empty(&self) -> (b: bool)
        requires
            self.wf(),
        ensures
            b == (self.spec_len() == 0),
    {
        self.history.len() == 0
    }

    /// The frontier of all that the log holds.
    pub fn frontier(&self) -> (f: &Frontier)
        ensures
            f@ == self.history.version@,
    {
        self.history.frontier()
    }

    /// Whether some agent of the log has the given name.
    pub open spec fn has_agent(&self, name: Seq<char>) -> bool {
        exists|a: AgentId| a < self.client_data@.len() && #[trigger] self.name_of(a) == name
    }

    /// The agent with the given name, if the log has one.
    pub fn get_agent_id(&self, name: &str) -> (r: Option<AgentId>)
        ensures
            match r {
                Some(a) => a < self.client_data@.len() && self.name_of(a) == name@,
                None => !self.has_agent(name@),
            },
    {
        let owned = name.to_owned();
        let mut i: usize = 0;
        while i < self.client_data.len()
            invariant
                0 <= i <= self.client_data@.len(),
                owned@ == name@,
                forall|a: int| 0 <= a < i ==> (#[trigger] self.client_data@[a]).name@ != name@,
            decreases self.client_data@.len() - i,
        {
            if self.client_data[i].name == owned {
                return Some(i);
            }
            i += 1;
        }
        proof {
            if self.has_agent(name@) {
                let a = choose|a: AgentId|
                    a < self.client_data@.len() && #[trigger] self.name_of(a) == name@;
                assert(self.client_data@[a as int].name@ != name@);
            }
        }
        None
    }

    /// The agent with the given name, which joins the log where it is
    /// new.
    pub fn get_or_create_agent_id(&mut self, name: &str) -> (a: AgentId)
        requires
            old(self).wf(),
        ensures
            final(self).wf(),
            a < final(self).client_data@.len(),
            final(self).name_of(a) == name@,
            final(self).history == old(self).history,
            final(self).client_with_localtime == old(self).client_with_localtime,
            final(self).operations == old(self).operations,
            final(self).ins_content == old(self).ins_content,
            if old(self).has_agent(name@) {
                final(self).client_data == old(self).client_data
            } else {
                &&& final(self).client_data@.len() == old(self).client_data@.len() + 1
                &&& a == old(self).client_data@.len()
                &&& final(self).client_data@[a as int].next_seq == 0
                &&& forall|b: int|
                    0 <= b < old(self).client_data@.len() ==> final(self).client_data@[b] == old(
                        self,
                    ).client_data@[b]
            },
    {
        match self.get_agent_id(name) {
            Some(a) => a,
            None => {
                let a = self.client_data.len();
                self.client_data.push(ClientData { name: name.to_owned(), next_seq: 0 });
                proof {
                    assert forall|x: AgentId, y: AgentId|
                        x < y < self.client_data@.len() implies #[trigger] self.name_of(x)
                        != #[trigger] self.name_of(y) by {
                        assert(self.client_data@[x as int] == old(self).client_data@[x as int]);
                        assert(old(self).name_of(x) == self.name_of(x));
                        if y < a {
                            assert(self.client_data@[y as int] == old(self).client_data@[y as int]);
                            assert(old(self).name_of(x) != old(self).name_of(y));
                        }
                    }
                    let runs = self.client_with_localtime.0@;
                    assert forall|i: int| 0 <= i < runs.len() implies (#[trigger] runs[i]).1.agent
                        < self.client_data@.len() && runs[i].1.seq_start + runs[i].1.len
                        <= self.client_data@[runs[i].1.agent as int].next_seq by {
                        assert(self.client_data@[runs[i].1.agent as int] == old(
                            self,
                        ).client_data@[runs[i].1.agent as int]);
                    }
                    assert forall|b: int| 0 <= b < old(self).client_data@.len() implies (
                    #[trigger] self.client_data@[b]).next_seq == old(
                        self,
                    ).client_data@[b].next_seq by {
                        assert(self.client_data@[b] == old(self).client_data@[b]);
                    }
                    old(self).lemma_dense_kept(self);
                }
                a
            },
        }
    }

    /// The shared name of version `t`.
    pub fn time_to_crdt_id(&self, t: LV) -> (id: CRDTId)
        requires
            self.wf(),
            t < self.spec_len(),
        ensures
            id == self.id_at(t),
            id.agent < self.client_data@.len(),
            id.seq < self.client_data@[id.agent as int].next_seq,
    {
        let (run, offset) = self.client_with_localtime.find_packed_with_offset(t);
        proof {
            let i = choose|i: int|
                self.client_with_localtime.covers(i, t as nat) && *run
                    == self.client_with_localtime.0@[i] && offset == t
                    - self.client_with_localtime.0@[i].spec_rle_key();
            self.client_with_localtime.lemma_unit_at(i, t as nat);
            self.lemma_ids(t, t);
            assert(run.wf());
        }
        CRDTId { agent: run.1.agent, seq: run.1.seq_start + offset }
    }

    /// The version with the given shared name, if the log holds it.
    #[verifier::rlimit(50)]
    pub fn crdt_id_to_time(&self, id: CRDTId) -> (r: Option<LV>)
        requires
            self.wf(),
        ensures
            match r {
                Some(t) => t < self.spec_len() && self.id_at(t) == id,
                None => forall|t: LV| t < self.spec_len() ==> self.id_at(t) != id,
            },
    {
        let table = &self.client_with_localtime;
        let mut i: usize = 0;
        while i < table.0.len()
            invariant
                0 <= i <= table.0@.len(),
                self.wf(),
                table == &self.client_with_localtime,
                forall|j: int, t: nat|
                    0 <= j < i && #[trigger] table.covers(j, t) ==> table.0@[j].spec_unit(
                        (t - table.0@[j].spec_rle_key()) as nat,
                    ) != id,
            decreases table.0@.len() - i,
        {
            let run = &table.0[i];
            proof {
                assert(run.wf());
                assert(table.0@[i as int].spec_len() > 0);
            }
            if run.1.agent == id.agent && run.1.seq_start <= id.seq && id.seq - run.1.seq_start
                < run.1.len {
                let t = run.0 + (id.seq - run.1.seq_start);
                proof {
                    assert(table.covers(i as int, t as nat));
                    table.lemma_unit_at(i as int, t as nat);
                    table.lemma_packed_is_sorted();
                    let last = table.0@.len() - 1;
                    assert(run_end(&table.0@[last]) == self.spec_len());
                    if i < last {
                        assert(run_end(&table.0@[i as int]) <= table.0@[last].spec_rle_key());
                    }
                }
                return Some(t);
            }
            i += 1;
        }
        proof {
            assert forall|t: LV| t < self.spec_len() implies self.id_at(t) != id by {
                table.lemma_packed_covered(t as nat);
                let j = choose|j: int| table.covers(j, t as nat);
                table.lemma_unit_at(j, t as nat);
            }
        }
        None
    }

    /// The keystroke of version `t`.
    pub fn op_unit_at(&self, t: LV) -> (u: UnitOp)
        requires
            self.wf(),
            t < self.spec_len(),
        ensures
            u == self.op_at(t),
            u.content_known ==> u.content < self.ins_content@.len(),
            u.content_known ==> u.tag == InsDelTag::Ins,
            u.pos < usize::MAX,
    {
        let (run, offset) = self.operations.find_packed_with_offset(t);
        proof {
            let i = choose|i: int|
                self.operations.covers(i, t as nat) && *run == self.operations.0@[i] && offset == t
                    - self.operations.0@[i].spec_rle_key();
            self.operations.lemma_unit_at(i, t as nat);
            self.lemma_content(t);
            assert(run.wf());
        }
        run.1.unit(offset)
    }

    /// What a push leaves of the log as it was: the agents, with only the
    /// count of the pushing agent grown; the names and keystrokes of the
    /// versions that were there; and the content, perhaps with more at its
    /// end.
    pub open spec fn grown_from(&self, before: &OpLog, agent: AgentId, n: nat) -> bool {
        &&& self.client_data@.len() == before.client_data@.len()
        &&& forall|a: int|
            0 <= a < self.client_data@.len() ==> (#[trigger] self.client_data@[a]).name@
                == before.client_data@[a].name@ && self.client_data@[a].next_seq
                == before.client_data@[a].next_seq + if a == agent {
                n
            } else {
                0
            }
        &&& self.spec_len() == before.spec_len() + n
        &&& before.ins_content@.len() <= self.ins_content@.len()
        &&& self.ins_content@.take(before.ins_content@.len() as int) == before.ins_content@
        &&& forall|t: LV|
            t < before.spec_len() ==> #[trigger] self.id_at(t) == before.id_at(t) && self.op_at(t)
                == before.op_at(t)
        &&& forall|k: nat|
            k < n ==> #[trigger] self.id_at((before.spec_len() + k) as usize) == (CRDTId {
                agent,
                seq: (before.client_data@[agent as int].next_seq + k) as usize,
            })
        &&& before.history.extended_by(&self.history)
    }

    /// The versions of `range` have the parents of a run that was pushed
    /// with `parents`: the first has these, and each other the version
    /// before it.
    pub open spec fn run_has_parents(&self, range: DTRange, parents: Seq<LV>) -> bool {
        &&& range.start < range.end ==> self.history.parents_of(range.start) == parents
        &&& forall|v: LV|
            range.start < v < range.end ==> #[trigger] self.history.parents_of(v) == seq![
                (v - 1) as usize,
            ]
    }

    /// Appends a run of operations by `agent`, made knowing `parents`.
    /// Returns the versions given to it.
    #[verifier::rlimit(50)]
    pub fn push_op(&mut self, agent: AgentId, parents: &[LV], op: OpSpan) -> (range: DTRange)
        requires
            old(self).wf(),
            agent < old(self).client_data@.len(),
            old(self).history.valid_frontier(parents@),
            op.wf(),
            old(self).spec_len() + op.spec_len() <= usize::MAX,
            old(self).client_data@[agent as int].next_seq + op.spec_len() <= usize::MAX,
            op.content_known ==> op.content_start + op.spec_len() <= old(self).ins_content@.len(),
        ensures
            final(self).wf(),
            range.start == old(self).spec_len(),
            range.end == old(self).spec_len() + op.spec_len(),
            final(self).grown_from(old(self), agent, op.spec_len()),
            final(self).ins_content == old(self).ins_content,
            forall|k: nat|
                k < op.spec_len() ==> #[trigger] final(self).op_at((range.start + k) as usize)
                    == op.spec_unit(k),
            old(self).history.joined_run(&final(self).history, parents@, range),
            Graph::advanced(
                old(self).history.version@,
                parents@,
                (range.end - 1) as usize,
                final(self).history.version@,
            ),
            final(self).history.parents_of(range.start) == parents@,
            forall|v: LV|
                range.start < v < range.end ==> #[trigger] final(self).history.parents_of(v)
                    == seq![(v - 1) as usize],
    {
        let ghost before = *self;
        let n = op.len();
        let time = self.history.len();
        let range = DTRange { start: time, end: time + n };
        self.history.push(parents, range);

        let seq_start = self.client_data[agent].next_seq;
        let span = KVPair(time, CRDTSpan { agent, seq_start, len: n });
        proof {
            if before.client_with_localtime.0@.len() > 0 {
                assert(before.client_with_localtime.0@.last().wf());
            }
            if before.operations.0@.len() > 0 {
                assert(before.operations.0@.last().wf());
            }
        }
        self.client_with_localtime.push(span);
        let name = self.client_data[agent].name.clone();
        self.client_data.set(agent, ClientData { name, next_seq: seq_start + n });
        self.operations.push(KVPair(time, op));
        proof {
            before.client_with_localtime.lemma_push_units(&self.client_with_localtime, span);
            before.operations.lemma_push_units(&self.operations, KVPair(time, op));
            before.lemma_push_tables(self, agent, span, KVPair(time, op));
            assert forall|t: LV| t < before.spec_len() implies #[trigger] self.id_at(t)
                == before.id_at(t) && self.op_at(t) == before.op_at(t) by {
                assert(self.client_with_localtime.unit_at(t as nat)
                    == before.client_with_localtime.unit_at(t as nat));
                assert(self.operations.unit_at(t as nat) == before.operations.unit_at(t as nat));
            }
            assert forall|k: nat| k < n implies #[trigger] self.id_at(
                (before.spec_len() + k) as usize,
            ) == (CRDTId { agent, seq: (seq_start + k) as usize }) by {
                assert(self.client_with_localtime.unit_at(
                    before.client_with_localtime.spec_end() + k,
                ) == span.spec_unit(k));
            }
            assert forall|k: nat| k < n implies #[trigger] self.op_at((range.start + k) as usize)
                == op.spec_unit(k) by {
                assert(self.operations.unit_at(before.operations.spec_end() + k) == KVPair(
                    time,
                    op,
                ).spec_unit(k));
            }
            assert(self.ins_content@.take(before.ins_content@.len() as int)
                =~= before.ins_content@);
            before.lemma_push_dense(self, agent, n as nat);
        }
        range
    }

    /// After a push the agents count without gaps as before.
    pub proof fn lemma_push_dense(&self, later: &OpLog, agent: AgentId, n: nat)
        requires
            self.wf(),
            agent < self.client_data@.len(),
            later.client_data@.len() == self.client_data@.len(),
            later.spec_len() == self.spec_len() + n,
            forall|a: int|
                0 <= a < self.client_data@.len() ==> (#[trigger] later.client_data@[a]).next_seq
                    == self.client_data@[a].next_seq + if a == agent {
                    n as int
                } else {
                    0
                },
            forall|t: LV| t < self.spec_len() ==> #[trigger] later.id_at(t) == self.id_at(t),
            forall|k: nat|
                k < n ==> #[trigger] later.id_at((self.spec_len() + k) as usize) == (CRDTId {
                    agent,
                    seq: (self.client_data@[agent as int].next_seq + k) as usize,
                }),
        ensures
            later.numbers_dense(),
    {
        let seq_start = self.client_data@[agent as int].next_seq;
        assert forall|a: AgentId, s: usize|
            a < later.client_data@.len() && s
                < later.client_data@[a as int].next_seq implies #[trigger] later.gave_out(a, s) by {
            assert(later.client_data@[a as int].next_seq == self.client_data@[a as int].next_seq
                + if a == agent {
                n as int
            } else {
                0
            });
            if a == agent && s >= seq_start {
                let k = (s - seq_start) as nat;
                assert(later.id_at((self.spec_len() + k) as usize) == (CRDTId {
                    agent,
                    seq: (seq_start + k) as usize,
                }));
            } else {
                assert(self.gave_out(a, s));
                let t = choose|t: LV|
                    t < self.spec_len() && #[trigger] self.id_at(t) == (CRDTId {
                        agent: a,
                        seq: s,
                    });
                assert(later.id_at(t) == self.id_at(t));
            }
        }
    }

    /// After a push the tables of agents and of operations are
    /// consistent.
    #[verifier::rlimit(50)]
    pub proof fn lemma_push_tables(
        &self,
        later: &OpLog,
        agent: AgentId,
        span: KVPair<CRDTSpan>,
        op: KVPair<OpSpan>,
    )
        requires
            self.wf(),
            agent < self.client_data@.len(),
            span.wf(),
            op.wf(),
            span.1.agent == agent,
            span.1.seq_start == self.client_data@[agent as int].next_seq,
            span.1.len == op.1.spec_len(),
            span.1.len > 0,
            span.0 == self.spec_len(),
            op.0 == self.spec_len(),
            op.1.content_known ==> op.1.content_start + op.1.spec_len() <= self.ins_content@.len(),
            later.history.spec_len() == self.spec_len() + span.1.len,
            later.history.wf(),
            later.ins_content == self.ins_content,
            later.client_with_localtime.0@ == RleVec::<KVPair<CRDTSpan>>::spec_push(
                self.client_with_localtime.0@,
                span,
            ),
            later.operations.0@ == RleVec::<KVPair<OpSpan>>::spec_push(self.operations.0@, op),
            later.client_with_localtime.runs_wf(),
            later.client_with_localtime.is_packed(),
            later.client_with_localtime.spec_end() == later.spec_len(),
            later.operations.runs_wf(),
            later.operations.is_packed(),
            later.operations.spec_end() == later.spec_len(),
            later.client_data@.len() == self.client_data@.len(),
            forall|a: int|
                0 <= a < self.client_data@.len() ==> (#[trigger] later.client_data@[a]).name@
                    == self.client_data@[a].name@ && later.client_data@[a].next_seq
                    == self.client_data@[a].next_seq + if a == agent {
                    span.1.len as int
                } else {
                    0
                },
        ensures
            later.tables_wf(),
    {
        let a = self.client_with_localtime.0@;
        let b = later.client_with_localtime.0@;
        let n = a.len() as int;
        let merged = n > 0 && a.last().spec_can_append(&span);
        assert forall|i: int| 0 <= i < b.len() implies (#[trigger] b[i]).1.agent
            < later.client_data@.len() && b[i].1.seq_start + b[i].1.len
            <= later.client_data@[b[i].1.agent as int].next_seq by {
            if i < n {
                assert(a[i].1.agent < self.client_data@.len());
                assert(a[i].wf());
            }
        }
        assert forall|i: int, j: int|
            0 <= i < j < b.len() && (#[trigger] b[i]).1.agent == (#[trigger] b[j]).1.agent implies b[i].1.seq_start
            + b[i].1.len <= b[j].1.seq_start by {
            assert(a[i].1.agent < self.client_data@.len());
            assert(a[i].wf());
            if j < n {
                assert(a[j].1.agent < self.client_data@.len());
                assert(a[i].1.seq_start + a[i].1.len <= a[j].1.seq_start);
            }
        }
        let oa = self.operations.0@;
        let ob = later.operations.0@;
        let on = oa.len() as int;
        assert forall|i: int| 0 <= i < ob.len() && (#[trigger] ob[i]).1.content_known implies ob[i].1.content_start
            + ob[i].1.spec_len() <= later.ins_content@.len() by {
            if i < on {
                assert(oa[i].wf());
                if oa[i].1.content_known {
                    assert(oa[i].1.content_start + oa[i].1.spec_len() <= self.ins_content@.len());
                }
                if i == on - 1 && oa.last().spec_can_append(&op) {
                    oa.last().lemma_append_length(op);
                }
            }
        }
        assert forall|x: AgentId, y: AgentId| x < y < later.client_data@.len() implies #[trigger] later.name_of(
            x,
        ) != #[trigger] later.name_of(y) by {
            assert(self.name_of(x) != self.name_of(y));
            assert(later.client_data@[x as int].name@ == self.client_data@[x as int].name@);
            assert(later.client_data@[y as int].name@ == self.client_data@[y as int].name@);
        }
    }

    /// Appends the insertion of `content` at position `pos` by `agent`,
    /// made knowing `parents`. Returns the versions given to it: one for
    /// each character. An empty insertion changes nothing.
    #[verifier::rlimit(50)]
    pub fn push_insert_at(&mut self, agent: AgentId, parents: &[LV], pos: usize, content: &str) -> (range:
        DTRange)
        requires
            old(self).wf(),
            agent < old(self).client_data@.len(),
            old(self).history.valid_frontier(parents@),
            old(self).spec_len() + content@.len() <= usize::MAX,
            old(self).client_data@[agent as int].next_seq + content@.len() <= usize::MAX,
            old(self).ins_content@.len() + content@.len() <= usize::MAX,
            pos + content@.len() <= usize::MAX,
        ensures
            final(self).wf(),
            range.start == old(self).spec_len(),
            range.end == old(self).spec_len() + content@.len(),
            final(self).grown_from(old(self), agent, content@.len()),
            final(self).ins_content@ == old(self).ins_content@ + content@,
            forall|k: nat|
                k < content@.len() ==> #[trigger] final(self).op_at((range.start + k) as usize) == (
                UnitOp {
                    tag: InsDelTag::Ins,
                    pos: (pos + k) as usize,
                    content_known: true,
                    content: (old(self).ins_content@.len() + k) as usize,
                }),
            content@.len() > 0 ==> old(self).history.joined_run(
                &final(self).history,
                parents@,
                range,
            ) && Graph::advanced(
                old(self).history.version@,
                parents@,
                (range.end - 1) as usize,
                final(self).history.version@,
            ),
            content@.len() == 0 ==> *final(self) == *old(self),
            final(self).run_has_parents(range, parents@),
    {
        let n = content.unicode_len();
        let time = self.history.len();
        if n == 0 {
            proof {
                self.lemma_grown_refl(agent);
                assert(self.ins_content@ =~= self.ins_content@ + content@);
            }
            return DTRange { start: time, end: time };
        }
        let ghost before = *self;
        let content_start = self.ins_content.len();
        let mut i: usize = 0;
        while i < n
            invariant
                0 <= i <= n,
                n == content@.len(),
                self.ins_content@ == before.ins_content@ + content@.take(i as int),
                self.history == before.history,
                self.client_data == before.client_data,
                self.client_with_localtime == before.client_with_localtime,
                self.operations == before.operations,
            decreases n - i,
        {
            self.ins_content.push(content.get_char(i));
            proof {
                assert(content@.take(i + 1) =~= content@.take(i as int).push(content@[i as int]));
                assert(self.ins_content@ =~= before.ins_content@ + content@.take(i + 1));
            }
            i += 1;
        }
        proof {
            assert(content@.take(n as int) =~= content@);
            before.lemma_content_grown(self);
            assert(self.ins_content@.take(before.ins_content@.len() as int)
                =~= before.ins_content@);
        }
        let ghost mid = *self;
        let op = OpSpan::new_insert(pos, n, content_start);
        let range = self.push_op(agent, parents, op);
        proof {
            mid.lemma_grown_content(&before, self, agent, n as nat);
        }
        range
    }

    /// Appends the deletion of the `len` items at position `pos` by
    /// `agent`, made knowing `parents`. Returns the versions given to it:
    /// one for each item. A deletion of nothing changes nothing.
    pub fn push_delete_at(&mut self, agent: AgentId, parents: &[LV], pos: usize, len: usize) -> (range:
        DTRange)
        requires
            old(self).wf(),
            agent < old(self).client_data@.len(),
            old(self).history.valid_frontier(parents@),
            old(self).spec_len() + len <= usize::MAX,
            old(self).client_data@[agent as int].next_seq + len <= usize::MAX,
            pos + len <= usize::MAX,
        ensures
            final(self).wf(),
            range.start == old(self).spec_len(),
            range.end == old(self).spec_len() + len,
            final(self).grown_from(old(self), agent, len as nat),
            final(self).ins_content == old(self).ins_content,
            forall|k: nat|
                k < len ==> #[trigger] final(self).op_at((range.start + k) as usize) == (UnitOp {
                    tag: InsDelTag::Del,
                    pos,
                    content_known: false,
                    content: 0,
                }),
            len > 0 ==> old(self).history.joined_run(&final(self).history, parents@, range)
                && Graph::advanced(
                old(self).history.version@,
                parents@,
                (range.end - 1) as usize,
                final(self).history.version@,
            ),
            len == 0 ==> *final(self) == *old(self),
            final(self).run_has_parents(range, parents@),
    {
        let time = self.history.len();
        if len == 0 {
            proof {
                self.lemma_grown_refl(agent);
            }
            return DTRange { start: time, end: time };
        }
        let op = OpSpan::new_delete(pos, len);
        self.push_op(agent, parents, op)
    }

    /// Appends an insertion made knowing all that the log holds.
    pub fn push_insert(&mut self, agent: AgentId, pos: usize, content: &str) -> (range: DTRange)
        requires
            old(self).wf(),
            agent < old(self).client_data@.len(),
            old(self).spec_len() + content@.len() <= usize::MAX,
            old(self).client_data@[agent as int].next_seq + content@.len() <= usize::MAX,
            old(self).ins_content@.len() + content@.len() <= usize::MAX,
            pos + content@.len() <= usize::MAX,
        ensures
            final(self).wf(),
            range.start == old(self).spec_len(),
            range.end == old(self).spec_len() + content@.len(),
            final(self).grown_from(old(self), agent, content@.len()),
            final(self).ins_content@ == old(self).ins_content@ + content@,
            content@.len() > 0 ==> final(self).history.version@ == seq![(range.end - 1) as usize],
            content@.len() == 0 ==> *final(self) == *old(self),
            final(self).run_has_parents(range, old(self).history.version@),
            forall|k: nat|
                k < content@.len() ==> #[trigger] final(self).op_at((range.start + k) as usize) == (
                UnitOp {
                    tag: InsDelTag::Ins,
                    pos: (pos + k) as usize,
                    content_known: true,
                    content: (old(self).ins_content@.len() + k) as usize,
                }),
    {
        let parents = self.history.version.clone();
        let range = self.push_insert_at(agent, parents.as_slice(), pos, content);
        proof {
            if content@.len() > 0 {
                lemma_advance_all(
                    old(self).history.version@,
                    (range.end - 1) as usize,
                    self.history.version@,
                );
            }
        }
        range
    }

    /// Appends a deletion made knowing all that the log holds.
    pub fn push_delete(&mut self, agent: AgentId, pos: usize, len: usize) -> (range: DTRange)
        requires
            old(self).wf(),
            agent < old(self).client_data@.len(),
            old(self).spec_len() + len <= usize::MAX,
            old(self).client_data@[agent as int].next_seq + len <= usize::MAX,
            pos + len <= usize::MAX,
        ensures
            final(self).wf(),
            range.start == old(self).spec_len(),
            range.end == old(self).spec_len() + len,
            final(self).grown_from(old(self), agent, len as nat),
            final(self).ins_content == old(self).ins_content,
            len > 0 ==> final(self).history.version@ == seq![(range.end - 1) as usize],
            len == 0 ==> *final(self) == *old(self),
            final(self).run_has_parents(range, old(self).history.version@),
            forall|k: nat|
                k < len ==> #[trigger] final(self).op_at((range.start + k) as usize) == (UnitOp {
                    tag: InsDelTag::Del,
                    pos,
                    content_known: false,
                    content: 0,
                }),
    {
        let parents = self.history.version.clone();
        let range = self.push_delete_at(agent, parents.as_slice(), pos, len);
        proof {
            if len > 0 {
                lemma_advance_all(
                    old(self).history.version@,
                    (range.end - 1) as usize,
                    self.history.version@,
                );
            }
        }
        range
    }

    /// A log has grown from itself by nothing.
    pub proof fn lemma_grown_refl(&self, agent: AgentId)
        requires
            self.wf(),
        ensures
            self.grown_from(self, agent, 0),
    {
        assert(self.ins_content@.take(self.ins_content@.len() as int) =~= self.ins_content@);
    }

    /// More content at the end leaves the log consistent, and the names
    /// and keystrokes of its versions as they were.
    pub proof fn lemma_content_grown(&self, later: &OpLog)
        requires
            self.wf(),
            later.history == self.history,
            later.client_data == self.client_data,
            later.client_with_localtime == self.client_with_localtime,
            later.operations == self.operations,
            self.ins_content@.len() <= later.ins_content@.len(),
        ensures
            later.wf(),
    {
        let runs = self.operations.0@;
        assert forall|i: int| 0 <= i < runs.len() && (#[trigger] runs[i]).1.content_known implies runs[i].1.content_start
            + runs[i].1.spec_len() <= later.ins_content@.len() by {
            assert(runs[i].1.content_start + runs[i].1.spec_len() <= self.ins_content@.len());
        }
        assert forall|x: AgentId, y: AgentId| x < y < later.client_data@.len() implies #[trigger] later.name_of(
            x,
        ) != #[trigger] later.name_of(y) by {
            assert(self.name_of(x) != self.name_of(y));
        }
        self.lemma_dense_kept(later);
    }

    /// A push onto a log whose content had grown is a push onto the log
    /// before that.
    pub proof fn lemma_grown_content(&self, before: &OpLog, later: &OpLog, agent: AgentId, n: nat)
        requires
            later.grown_from(self, agent, n),
            self.history == before.history,
            self.client_data == before.client_data,
            self.client_with_localtime == before.client_with_localtime,
            self.operations == before.operations,
            before.ins_content@.len() <= self.ins_content@.len(),
            self.ins_content@.take(before.ins_content@.len() as int) == before.ins_content@,
        ensures
            later.grown_from(before, agent, n),
    {
        assert(later.ins_content@.take(before.ins_content@.len() as int) =~= before.ins_content@) by {
            assert forall|k: int| 0 <= k < before.ins_content@.len() implies later.ins_content@[k]
                == before.ins_content@[k] by {
                assert(later.ins_content@.take(self.ins_content@.len() as int)[k]
                    == self.ins_content@[k]);
                assert(self.ins_content@.take(before.ins_content@.len() as int)[k]
                    == before.ins_content@[k]);
            }
        }
        assert forall|t: LV| t < before.spec_len() implies #[trigger] later.id_at(t)
            == before.id_at(t) && later.op_at(t) == before.op_at(t) by {
            assert(later.id_at(t) == self.id_at(t));
        }
        assert forall|k: nat| k < n implies #[trigger] later.id_at(
            (before.spec_len() + k) as usize,
        ) == (CRDTId {
            agent,
            seq: (before.client_data@[agent as int].next_seq + k) as usize,
        }) by {
            assert(later.id_at((self.spec_len() + k) as usize) == (CRDTId {
                agent,
                seq: (self.client_data@[agent as int].next_seq + k) as usize,
            }));
        }
    }
}

/// Where the parents are the whole frontier, the frontier becomes the new
/// version alone.
pub proof fn lemma_advance_all(version: Seq<LV>, last: LV, next: Seq<LV>)
    requires
        Graph::advanced(version, version, last, next),
    ensures
        next == seq![last],
{
    assert(next.contains(last));
    assert forall|i: int| 0 <= i < next.len() implies next[i] == last by {
        assert(next.contains(next[i]));
    }
    if next.len() > 1 {
        assert(next[0] < next[1]);
    }
    assert(next =~= seq![last]);
}

} // verus!
