//! Equality of operation logs. Two logs are equal where they hold the same
//! operations with the same parents, whatever numbers the agents and the
//! versions have in each: a version is known in every log by the name of
//! its agent and its number among the versions of that agent.

use crate::frontier::{slice_contains, slice_eq, LV};
use crate::list::operation::{InsDelTag, UnitOp};
use crate::list::oplog::{AgentId, CRDTId, OpLog};
use vstd::prelude::*;

verus! {

impl OpLog {
    /// Whether version `t` of `self` and version `t2` of `other` are one
    /// version: made by agents of one name, with one number.
    pub open spec fn corresponds(&self, other: &OpLog, t: LV, t2: LV) -> bool {
        &&& t < self.spec_len()
        &&& t2 < other.spec_len()
        &&& self.name_of(self.id_at(t).agent) == other.name_of(other.id_at(t2).agent)
        &&& self.id_at(t).seq == other.id_at(t2).seq
    }

    /// What version `t` does: insert or delete, where, and which
    /// character, where that is known.
    pub open spec fn op_value(&self, t: LV) -> (InsDelTag, usize, Option<char>) {
        let u = self.op_at(t);
        (
            u.tag,
            u.pos,
            if u.content_known {
                Some(self.ins_content@[u.content as int])
            } else {
                None
            },
        )
    }

    /// The parents of version `t`: those of its run for the first version
    /// of a run, else the version before it.
    pub open spec fn parents_at(&self, t: LV) -> Seq<LV> {
        self.history.parents_of(t)
    }

    /// Whether version `p` of `self` is one of the versions `qs` of
    /// `other`.
    pub open spec fn has_partner(&self, other: &OpLog, p: LV, qs: Seq<LV>) -> bool {
        exists|j: int| 0 <= j < qs.len() && self.corresponds(other, p, #[trigger] qs[j])
    }

    /// Whether version `q` of `other` is one of the versions `ps` of
    /// `self`.
    pub open spec fn has_partner_rev(&self, other: &OpLog, ps: Seq<LV>, q: LV) -> bool {
        exists|i: int| 0 <= i < ps.len() && self.corresponds(other, #[trigger] ps[i], q)
    }

    /// Whether the two lists of versions name the same versions.
    pub open spec fn same_versions(&self, other: &OpLog, ps: Seq<LV>, qs: Seq<LV>) -> bool {
        &&& forall|i: int| 0 <= i < ps.len() ==> #[trigger] self.has_partner(other, ps[i], qs)
        &&& forall|j: int| 0 <= j < qs.len() ==> #[trigger] self.has_partner_rev(other, ps, qs[j])
    }

    /// Whether `other` holds version `t` of `self`: a version of the same
    /// name that does the same and has the same parents.
    pub open spec fn version_matches(&self, other: &OpLog, t: LV) -> bool {
        exists|t2: LV| #[trigger]
            self.corresponds(other, t, t2) && self.op_value(t) == other.op_value(t2)
                && self.same_versions(other, self.parents_at(t), other.parents_at(t2))
    }

    /// Whether agent `a` of `self` fits `other`: `other` knows an agent of
    /// that name with as many versions, or does not know the name and the
    /// agent has made nothing.
    pub open spec fn agent_matches(&self, other: &OpLog, a: AgentId) -> bool {
        if other.has_agent(self.name_of(a)) {
            forall|b: AgentId|
                b < other.client_data@.len() && #[trigger] other.name_of(b) == self.name_of(a)
                    ==> other.client_data@[b as int].next_seq == self.client_data@[a as int].next_seq
        } else {
            self.client_data@[a as int].next_seq == 0
        }
    }

    /// Whether `other` holds all that `self` holds.
    pub open spec fn half_eq(&self, other: &OpLog) -> bool {
        &&& forall|a: AgentId| a < self.client_data@.len() ==> #[trigger] self.agent_matches(other, a)
        &&& forall|t: LV| t < self.spec_len() ==> #[trigger] self.version_matches(other, t)
    }

    /// Whether the logs are equal: they have the same frontier, and each
    /// holds all that the other holds.
    pub open spec fn spec_eq(&self, other: &OpLog) -> bool {
        &&& self.history.version@ == other.history.version@
        &&& self.half_eq(other)
        &&& other.half_eq(self)
    }

    /// A version of `self` is at most one version of `other`.
    pub proof fn lemma_corresponds_unique(&self, other: &OpLog, t: LV, x: LV, y: LV)
        requires
            other.wf(),
            self.corresponds(other, t, x),
            self.corresponds(other, t, y),
        ensures
            x == y,
    {
        other.lemma_ids(x, y);
        other.lemma_ids(y, x);
        other.lemma_name_unique(other.id_at(x).agent, other.id_at(y).agent);
    }

    /// The parents of version `t`.
    pub fn parents_vec(&self, t: LV) -> (r: Vec<LV>)
        requires
            self.wf(),
            t < self.spec_len(),
        ensures
            r@ == self.parents_at(t),
            forall|i: int| 0 <= i < r@.len() ==> #[trigger] r@[i] < t,
            crate::frontier::is_sorted_strict(r@),
    {
        let e = self.history.entry_for(t);
        proof {
            self.history.lemma_entry_of(t);
        }
        if e.span.start == t {
            let ps = e.parents.as_slice();
            let mut r: Vec<LV> = Vec::new();
            let mut i: usize = 0;
            while i < ps.len()
                invariant
                    0 <= i <= ps@.len(),
                    r@ == ps@.take(i as int),
                decreases ps@.len() - i,
            {
                r.push(ps[i]);
                assert(ps@.take(i + 1) =~= ps@.take(i as int).push(ps@[i as int]));
                i += 1;
            }
            assert(ps@.take(ps@.len() as int) =~= ps@);
            r
        } else {
            let mut r: Vec<LV> = Vec::new();
            r.push(t - 1);
            assert(r@ =~= seq![(t - 1) as usize]);
            r
        }
    }

    /// For each agent of `self`, the agent of `other` with its name, if
    /// there is one; `None` where an agent does not fit `other`.
    #[verifier::rlimit(50)]
    fn agent_map(&self, other: &OpLog) -> (r: Option<Vec<Option<AgentId>>>)
        requires
            self.wf(),
            other.wf(),
        ensures
            match r {
                Some(map) => {
                    &&& self.agents_mapped(other, map@)
                    &&& forall|a: AgentId|
                        a < self.client_data@.len() ==> #[trigger] self.agent_matches(other, a)
                },
                None => exists|a: AgentId|
                    a < self.client_data@.len() && !#[trigger] self.agent_matches(other, a),
            },
    {
        let mut map: Vec<Option<AgentId>> = Vec::new();
        let mut a: usize = 0;
        while a < self.client_data.len()
            invariant
                0 <= a <= self.client_data@.len(),
                other.wf(),
                map@.len() == a,
                forall|x: AgentId| x < a ==> #[trigger] self.agent_matches(other, x),
                forall|x: AgentId|
                    x < a ==> match #[trigger] map@[x as int] {
                        Some(b) => b < other.client_data@.len() && other.name_of(b) == self.name_of(
                            x,
                        ),
                        None => !other.has_agent(self.name_of(x)),
                    },
            decreases self.client_data@.len() - a,
        {
            let c = &self.client_data[a];
            match other.get_agent_id(c.name.as_str()) {
                Some(b) => {
                    proof {
                        other.lemma_has_agent(b);
                    }
                    if other.client_data[b].next_seq != c.next_seq {
                        proof {
                            assert(other.name_of(b) == self.name_of(a));
                            assert(!self.agent_matches(other, a));
                        }
                        return None;
                    }
                    proof {
                        assert forall|b2: AgentId|
                            b2 < other.client_data@.len() && #[trigger] other.name_of(b2)
                                == self.name_of(a) implies other.client_data@[b2 as int].next_seq
                            == self.client_data@[a as int].next_seq by {
                            other.lemma_name_unique(b, b2);
                        }
                    }
                    map.push(Some(b));
                },
                None => {
                    if c.next_seq != 0 {
                        proof {
                            assert(!self.agent_matches(other, a));
                        }
                        return None;
                    }
                    map.push(None);
                },
            }
            a += 1;
        }
        Some(map)
    }

    /// An agent of the log is an agent under its name.
    pub proof fn lemma_has_agent(&self, a: AgentId)
        requires
            a < self.client_data@.len(),
        ensures
            self.has_agent(self.name_of(a)),
    {
        assert(self.name_of(a) == self.name_of(a));
    }

    /// Agents of one name are one agent.
    pub proof fn lemma_name_unique(&self, a: AgentId, b: AgentId)
        requires
            self.names_distinct(),
            a < self.client_data@.len(),
            b < self.client_data@.len(),
            self.name_of(a) == self.name_of(b),
        ensures
            a == b,
    {
        if a < b {
            assert(self.name_of(a) != self.name_of(b));
        } else if b < a {
            assert(self.name_of(b) != self.name_of(a));
        }
    }

    /// `map` gives for each agent of `self` the agent of `other` with its
    /// name, if there is one.
    pub open spec fn agents_mapped(&self, other: &OpLog, map: Seq<Option<AgentId>>) -> bool {
        &&& map.len() == self.client_data@.len()
        &&& forall|a: AgentId|
            a < map.len() ==> match #[trigger] map[a as int] {
                Some(b) => b < other.client_data@.len() && other.name_of(b) == self.name_of(a),
                None => !other.has_agent(self.name_of(a)),
            }
    }

    /// Where the one version of `other` that is version `t` does not do
    /// the same or has other parents, `other` does not hold version `t`.
    pub proof fn lemma_only_candidate(&self, other: &OpLog, t: LV, t2: LV)
        requires
            other.wf(),
            self.corresponds(other, t, t2),
            !(self.op_value(t) == other.op_value(t2) && self.same_versions(
                other,
                self.parents_at(t),
                other.parents_at(t2),
            )),
        ensures
            !self.version_matches(other, t),
    {
        if self.version_matches(other, t) {
            let w = choose|w: LV| #[trigger]
                self.corresponds(other, t, w) && self.op_value(t) == other.op_value(w)
                    && self.same_versions(other, self.parents_at(t), other.parents_at(w));
            self.lemma_corresponds_unique(other, t, w, t2);
        }
    }

    /// The version of `other` that is version `t` of `self`, if `other`
    /// holds it.
    pub(crate) fn map_time(&self, other: &OpLog, map: &Vec<Option<AgentId>>, t: LV) -> (r: Option<LV>)
        requires
            self.wf(),
            other.wf(),
            self.agents_mapped(other, map@),
            t < self.spec_len(),
        ensures
            match r {
                Some(t2) => self.corresponds(other, t, t2),
                None => forall|t2: LV| !self.corresponds(other, t, t2),
            },
    {
        let id = self.time_to_crdt_id(t);
        match map[id.agent] {
            None => {
                proof {
                    assert forall|t2: LV| !self.corresponds(other, t, t2) by {
                        if self.corresponds(other, t, t2) {
                            other.lemma_ids(t2, t2);
                            other.lemma_has_agent(other.id_at(t2).agent);
                        }
                    }
                }
                None
            },
            Some(b) => {
                let r = other.crdt_id_to_time(CRDTId { agent: b, seq: id.seq });
                proof {
                    if r.is_none() {
                        assert forall|t2: LV| !self.corresponds(other, t, t2) by {
                            if self.corresponds(other, t, t2) {
                                other.lemma_ids(t2, t2);
                                let b2 = other.id_at(t2).agent;
                                other.lemma_name_unique(b, b2);
                                assert(other.id_at(t2) == (CRDTId { agent: b, seq: id.seq }));
                            }
                        }
                    }
                }
                r
            },
        }
    }

    /// Whether `other` holds version `t` of `self`.
    #[verifier::rlimit(50)]
    pub(crate) fn check_version(&self, other: &OpLog, map: &Vec<Option<AgentId>>, t: LV) -> (r: bool)
        requires
            self.wf(),
            other.wf(),
            self.agents_mapped(other, map@),
            t < self.spec_len(),
        ensures
            r == self.version_matches(other, t),
    {
        let t2 = match self.map_time(other, map, t) {
            Some(t2) => t2,
            None => {
                return false;
            },
        };
        // The operations.
        let u1 = self.op_unit_at(t);
        let u2 = other.op_unit_at(t2);
        if u1.tag != u2.tag || u1.pos != u2.pos || u1.content_known != u2.content_known {
            proof {
                self.lemma_only_candidate(other, t, t2);
            }
            return false;
        }
        if u1.content_known && self.ins_content[u1.content] != other.ins_content[u2.content] {
            proof {
                self.lemma_only_candidate(other, t, t2);
            }
            return false;
        }
        assert(self.op_value(t) == other.op_value(t2));
        // The parents.
        let ps = self.parents_vec(t);
        let qs = other.parents_vec(t2);
        let mut mapped: Vec<LV> = Vec::new();
        let mut i: usize = 0;
        while i < ps.len()
            invariant
                0 <= i <= ps@.len(),
                self.wf(),
                other.wf(),
                self.agents_mapped(other, map@),
                t < self.spec_len(),
                self.corresponds(other, t, t2),
                ps@ == self.parents_at(t),
                qs@ == other.parents_at(t2),
                forall|k: int| 0 <= k < ps@.len() ==> #[trigger] ps@[k] < t,
                mapped@.len() == i,
                forall|k: int|
                    0 <= k < i ==> self.corresponds(other, #[trigger] ps@[k], #[trigger] mapped@[k])
                        && qs@.contains(mapped@[k]),
            decreases ps@.len() - i,
        {
            match self.map_time(other, map, ps[i]) {
                Some(q) => {
                    if !slice_contains(qs.as_slice(), q) {
                        proof {
                            self.lemma_no_partner(other, ps@, qs@, i as int, q);
                            self.lemma_only_candidate(other, t, t2);
                        }
                        return false;
                    }
                    mapped.push(q);
                },
                None => {
                    proof {
                        if self.same_versions(other, ps@, qs@) {
                            assert(self.has_partner(other, ps@[i as int], qs@));
                        }
                        self.lemma_only_candidate(other, t, t2);
                    }
                    return false;
                },
            }
            i += 1;
        }
        let mut j: usize = 0;
        while j < qs.len()
            invariant
                0 <= j <= qs@.len(),
                forall|k: int|
                    0 <= k < ps@.len() ==> self.corresponds(
                        other,
                        #[trigger] ps@[k],
                        #[trigger] mapped@[k],
                    ) && qs@.contains(mapped@[k]),
                mapped@.len() == ps@.len(),
                forall|k: int| 0 <= k < j ==> mapped@.contains(#[trigger] qs@[k]),
                self.wf(),
                other.wf(),
                self.corresponds(other, t, t2),
                ps@ == self.parents_at(t),
                qs@ == other.parents_at(t2),
            decreases qs@.len() - j,
        {
            if !slice_contains(mapped.as_slice(), qs[j]) {
                proof {
                    self.lemma_no_partner_rev(other, ps@, mapped@, qs@, j as int);
                    self.lemma_only_candidate(other, t, t2);
                }
                return false;
            }
            j += 1;
        }
        proof {
            assert forall|k: int| 0 <= k < ps@.len() implies #[trigger] self.has_partner(
                other,
                ps@[k],
                qs@,
            ) by {
                let q = mapped@[k];
                assert(self.corresponds(other, ps@[k], mapped@[k]));
                let m = choose|m: int| 0 <= m < qs@.len() && qs@[m] == q;
                assert(self.corresponds(other, ps@[k], qs@[m]));
            }
            assert forall|m: int| 0 <= m < qs@.len() implies #[trigger] self.has_partner_rev(
                other,
                ps@,
                qs@[m],
            ) by {
                assert(mapped@.contains(qs@[m]));
                let k = choose|k: int| 0 <= k < mapped@.len() && mapped@[k] == qs@[m];
                assert(self.corresponds(other, ps@[k], mapped@[k]));
                assert(self.corresponds(other, ps@[k], qs@[m]));
            }
            assert(self.same_versions(other, self.parents_at(t), other.parents_at(t2)));
            assert(self.corresponds(other, t, t2));
        }
        true
    }

    /// Where the one version of `other` that is `ps[i]` is not among `qs`,
    /// the lists do not name the same versions.
    pub proof fn lemma_no_partner(&self, other: &OpLog, ps: Seq<LV>, qs: Seq<LV>, i: int, q: LV)
        requires
            other.wf(),
            0 <= i < ps.len(),
            self.corresponds(other, ps[i], q),
            !qs.contains(q),
        ensures
            !self.same_versions(other, ps, qs),
    {
        if self.same_versions(other, ps, qs) {
            assert(self.has_partner(other, ps[i], qs));
            let j = choose|j: int| 0 <= j < qs.len() && self.corresponds(other, ps[i], #[trigger] qs[j]);
            self.lemma_corresponds_unique(other, ps[i], q, qs[j]);
            assert(qs.contains(qs[j]));
        }
    }

    /// Where `qs[j]` is none of the versions that the versions of `ps`
    /// are in `other`, the lists do not name the same versions.
    pub proof fn lemma_no_partner_rev(
        &self,
        other: &OpLog,
        ps: Seq<LV>,
        mapped: Seq<LV>,
        qs: Seq<LV>,
        j: int,
    )
        requires
            other.wf(),
            0 <= j < qs.len(),
            mapped.len() == ps.len(),
            forall|k: int|
                0 <= k < ps.len() ==> self.corresponds(other, #[trigger] ps[k], #[trigger] mapped[k]),
            !mapped.contains(qs[j]),
        ensures
            !self.same_versions(other, ps, qs),
    {
        if self.same_versions(other, ps, qs) {
            assert(self.has_partner_rev(other, ps, qs[j]));
            let i = choose|i: int| 0 <= i < ps.len() && self.corresponds(other, #[trigger] ps[i], qs[j]);
            assert(self.corresponds(other, ps[i], mapped[i]));
            self.lemma_corresponds_unique(other, ps[i], mapped[i], qs[j]);
            assert(mapped.contains(mapped[i]));
        }
    }

    /// Whether `other` holds all that `self` holds.
    pub fn half_eq_exec(&self, other: &OpLog) -> (r: bool)
        requires
            self.wf(),
            other.wf(),
        ensures
            r == self.half_eq(other),
    {
        let map = match self.agent_map(other) {
            Some(map) => map,
            None => {
                return false;
            },
        };
        let n = self.len();
        let mut t: usize = 0;
        while t < n
            invariant
                0 <= t <= n,
                n == self.spec_len(),
                self.wf(),
                other.wf(),
                self.agents_mapped(other, map@),
                forall|x: LV| x < t ==> #[trigger] self.version_matches(other, x),
            decreases n - t,
        {
            if !self.check_version(other, &map, t) {
                return false;
            }
            t += 1;
        }
        true
    }

    /// Whether the logs are equal: they have the same frontier, and each
    /// holds the operations of the other, with the same parents.
    pub fn eq(&self, other: &OpLog) -> (r: bool)
        requires
            self.wf(),
            other.wf(),
        ensures
            r == self.spec_eq(other),
    {
        if !slice_eq(self.history.version.as_slice(), other.history.version.as_slice()) {
            return false;
        }
        self.half_eq_exec(other) && other.half_eq_exec(self)
    }
}

/// Equality of logs does not depend on the side from which it is asked.
pub proof fn law_eq_symmetric(a: &OpLog, b: &OpLog)
    ensures
        a.spec_eq(b) == b.spec_eq(a),
{
}

/// Every log is equal to itself.
pub proof fn law_eq_reflexive(a: &OpLog)
    requires
        a.wf(),
    ensures
        a.spec_eq(a),
{
    assert forall|x: AgentId| x < a.client_data@.len() implies #[trigger] a.agent_matches(a, x) by {
        a.lemma_has_agent(x);
        assert forall|y: AgentId|
            y < a.client_data@.len() && #[trigger] a.name_of(y) == a.name_of(
                x,
            ) implies a.client_data@[y as int].next_seq == a.client_data@[x as int].next_seq by {
            a.lemma_name_unique(x, y);
        }
    }
    assert forall|t: LV| t < a.spec_len() implies #[trigger] a.version_matches(a, t) by {
        let ps = a.parents_at(t);
        a.history.lemma_entry_of(t);
        assert forall|i: int| 0 <= i < ps.len() implies a.corresponds(a, #[trigger] ps[i], ps[i]) by {
            if a.history.run_start(t) == t {
                assert(ps[i] < t);
            }
        }
        assert forall|i: int| 0 <= i < ps.len() implies #[trigger] a.has_partner(a, ps[i], ps) by {
            assert(a.corresponds(a, ps[i], ps[i]));
        }
        assert forall|i: int| 0 <= i < ps.len() implies #[trigger] a.has_partner_rev(
            a,
            ps,
            ps[i],
        ) by {
            assert(a.corresponds(a, ps[i], ps[i]));
        }
        assert(a.same_versions(a, ps, ps));
        assert(a.corresponds(a, t, t));
    }
}

/// Logs that are equal to one log are equal to each other.
pub proof fn law_eq_transitive(a: &OpLog, b: &OpLog, c: &OpLog)
    requires
        a.wf(),
        b.wf(),
        c.wf(),
        a.spec_eq(b),
        b.spec_eq(c),
    ensures
        a.spec_eq(c),
{
    assert forall|x: AgentId| x < a.client_data@.len() implies #[trigger] a.agent_matches(c, x) by {
        lemma_agent_transitive(a, b, c, x);
    }
    assert forall|x: AgentId| x < c.client_data@.len() implies #[trigger] c.agent_matches(a, x) by {
        lemma_agent_transitive(c, b, a, x);
    }
    assert forall|t: LV| t < a.spec_len() implies #[trigger] a.version_matches(c, t) by {
        lemma_version_transitive(a, b, c, t);
    }
    assert forall|t: LV| t < c.spec_len() implies #[trigger] c.version_matches(a, t) by {
        lemma_version_transitive(c, b, a, t);
    }
}

/// An agent of `a` that fits `b` fits `c`, where the agents of `b` fit
/// `c` and those of `c` fit `b`.
proof fn lemma_agent_transitive(a: &OpLog, b: &OpLog, c: &OpLog, x: AgentId)
    requires
        b.wf(),
        c.wf(),
        x < a.client_data@.len(),
        a.agent_matches(b, x),
        forall|y: AgentId| y < b.client_data@.len() ==> #[trigger] b.agent_matches(c, y),
        forall|z: AgentId| z < c.client_data@.len() ==> #[trigger] c.agent_matches(b, z),
    ensures
        a.agent_matches(c, x),
{
    let name = a.name_of(x);
    if b.has_agent(name) {
        let y = choose|y: AgentId| y < b.client_data@.len() && #[trigger] b.name_of(y) == name;
        assert(b.agent_matches(c, y));
        assert(b.client_data@[y as int].next_seq == a.client_data@[x as int].next_seq);
        if c.has_agent(name) {
            assert forall|z: AgentId|
                z < c.client_data@.len() && #[trigger] c.name_of(z)
                    == name implies c.client_data@[z as int].next_seq
                == a.client_data@[x as int].next_seq by {
                assert(c.client_data@[z as int].next_seq == b.client_data@[y as int].next_seq);
            }
        }
    } else {
        if c.has_agent(name) {
            assert forall|z: AgentId|
                z < c.client_data@.len() && #[trigger] c.name_of(z)
                    == name implies c.client_data@[z as int].next_seq
                == a.client_data@[x as int].next_seq by {
                assert(c.agent_matches(b, z));
            }
        }
    }
}

/// A version of `a` that `b` holds is held by `c`, where `c` holds the
/// versions of `b`.
proof fn lemma_version_transitive(a: &OpLog, b: &OpLog, c: &OpLog, t: LV)
    requires
        a.version_matches(b, t),
        forall|t2: LV| t2 < b.spec_len() ==> #[trigger] b.version_matches(c, t2),
    ensures
        a.version_matches(c, t),
{
    let t2 = choose|t2: LV| #[trigger]
        a.corresponds(b, t, t2) && a.op_value(t) == b.op_value(t2) && a.same_versions(
            b,
            a.parents_at(t),
            b.parents_at(t2),
        );
    assert(b.version_matches(c, t2));
    let t3 = choose|t3: LV| #[trigger]
        b.corresponds(c, t2, t3) && b.op_value(t2) == c.op_value(t3) && b.same_versions(
            c,
            b.parents_at(t2),
            c.parents_at(t3),
        );
    lemma_same_versions_transitive(a, b, c, a.parents_at(t), b.parents_at(t2), c.parents_at(t3));
    assert(a.corresponds(c, t, t3));
}

/// Lists that name the same versions as one list name the same versions.
proof fn lemma_same_versions_transitive(
    a: &OpLog,
    b: &OpLog,
    c: &OpLog,
    ps: Seq<LV>,
    qs: Seq<LV>,
    rs: Seq<LV>,
)
    requires
        a.same_versions(b, ps, qs),
        b.same_versions(c, qs, rs),
    ensures
        a.same_versions(c, ps, rs),
{
    assert forall|i: int| 0 <= i < ps.len() implies #[trigger] a.has_partner(c, ps[i], rs) by {
        assert(a.has_partner(b, ps[i], qs));
        let j = choose|j: int| 0 <= j < qs.len() && a.corresponds(b, ps[i], #[trigger] qs[j]);
        assert(b.has_partner(c, qs[j], rs));
        let k = choose|k: int| 0 <= k < rs.len() && b.corresponds(c, qs[j], #[trigger] rs[k]);
        assert(a.corresponds(c, ps[i], rs[k]));
    }
    assert forall|k: int| 0 <= k < rs.len() implies #[trigger] a.has_partner_rev(c, ps, rs[k]) by {
        assert(b.has_partner_rev(c, qs, rs[k]));
        let j = choose|j: int| 0 <= j < qs.len() && b.corresponds(c, #[trigger] qs[j], rs[k]);
        assert(a.has_partner_rev(b, ps, qs[j]));
        let i = choose|i: int| 0 <= i < ps.len() && a.corresponds(b, #[trigger] ps[i], qs[j]);
        assert(a.corresponds(c, ps[i], rs[k]));
    }
}

} // verus!
