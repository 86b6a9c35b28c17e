//! Merging logs: a log takes over the versions of another log that it
//! does not hold yet, each under the name that replicas know it by.

use crate::encoding::varint::ParseError;
use crate::frontier::{is_sorted_strict, Frontier, LV};
use crate::list::encoding::{decode, has_magic, spec_log};
use crate::list::operation::{InsDelTag, OpSpan};
use crate::list::oplog::{AgentId, OpLog};
use crate::rle::{HasLength, HasUnits};
use vstd::prelude::*;

verus! {

impl OpLog {
    /// `self` holds all that `before` held, under the same numbers: its
    /// agents, versions, operations and content, and the history of each
    /// version.
    pub open spec fn holds_all(&self, before: &OpLog) -> bool {
        &&& before.client_data@.len() <= self.client_data@.len()
        &&& forall|a: AgentId|
            a < before.client_data@.len() ==> #[trigger] self.name_of(a) == before.name_of(a)
        &&& before.spec_len() <= self.spec_len()
        &&& before.ins_content@.len() <= self.ins_content@.len()
        &&& self.ins_content@.take(before.ins_content@.len() as int) == before.ins_content@
        &&& forall|t: LV|
            t < before.spec_len() ==> #[trigger] self.id_at(t) == before.id_at(t) && self.op_at(t)
                == before.op_at(t)
        &&& before.history.extended_by(&self.history)
    }

    /// A log holds all that it holds.
    pub proof fn lemma_holds_all_refl(&self)
        requires
            self.wf(),
        ensures
            self.holds_all(self),
    {
        assert(self.ins_content@.take(self.ins_content@.len() as int) =~= self.ins_content@);
    }

    /// What holds all of a log that holds all of another holds all of that
    /// one.
    pub proof fn lemma_holds_all_trans(&self, mid: &OpLog, later: &OpLog)
        requires
            mid.holds_all(self),
            later.holds_all(mid),
        ensures
            later.holds_all(self),
    {
        let n = self.ins_content@.len() as int;
        assert(later.ins_content@.take(n) =~= later.ins_content@.take(
            mid.ins_content@.len() as int,
        ).take(n));
        assert forall|t: LV| t < self.spec_len() implies #[trigger] later.id_at(t) == self.id_at(t)
            && later.op_at(t) == self.op_at(t) by {
            assert(mid.id_at(t) == self.id_at(t));
        }
        assert forall|a: AgentId| a < self.client_data@.len() implies #[trigger] later.name_of(a)
            == self.name_of(a) by {
            assert(mid.name_of(a) == self.name_of(a));
        }
        assert forall|v: LV| v < self.history.spec_len() implies #[trigger] later.history.run_start(
            v,
        ) == self.history.run_start(v) && later.history.run_parents(v) == self.history.run_parents(
            v,
        ) by {
            assert(mid.history.run_start(v) == self.history.run_start(v));
        }
    }

    /// A log that has grown by a push holds all that it held.
    pub proof fn lemma_grown_holds_all(&self, before: &OpLog, agent: AgentId, n: nat)
        requires
            self.grown_from(before, agent, n),
        ensures
            self.holds_all(before),
    {
        assert forall|a: AgentId| a < before.client_data@.len() implies #[trigger] self.name_of(a)
            == before.name_of(a) by {
            assert(self.client_data@[a as int].name@ == before.client_data@[a as int].name@);
        }
    }

    /// A version that a log holds under a name, it holds under that name
    /// after it has grown.
    pub proof fn lemma_corresponds_kept(&self, held: &OpLog, later: &OpLog, t: LV, t2: LV)
        requires
            held.wf(),
            later.holds_all(held),
            self.corresponds(held, t, t2),
        ensures
            self.corresponds(later, t, t2),
    {
        held.lemma_ids(t2, t2);
        assert(later.id_at(t2) == held.id_at(t2));
        assert(later.name_of(held.id_at(t2).agent) == held.name_of(held.id_at(t2).agent));
    }

    /// A version of `self` that a log holds, it holds after it has grown.
    pub proof fn lemma_matches_kept(&self, held: &OpLog, later: &OpLog, t: LV)
        requires
            held.wf(),
            later.holds_all(held),
            self.version_matches(held, t),
        ensures
            self.version_matches(later, t),
    {
        let w = choose|w: LV| #[trigger]
            self.corresponds(held, t, w) && self.op_value(t) == held.op_value(w)
                && self.same_versions(held, self.parents_at(t), held.parents_at(w));
        self.lemma_corresponds_kept(held, later, t, w);
        held.lemma_content(w);
        held.lemma_ids(w, w);
        assert(later.op_at(w) == held.op_at(w));
        let u = held.op_at(w);
        if u.content_known {
            assert(later.ins_content@.take(held.ins_content@.len() as int)[u.content as int]
                == later.ins_content@[u.content as int]);
        }
        assert(later.op_value(w) == held.op_value(w));
        assert(later.history.run_start(w) == held.history.run_start(w));
        assert(later.parents_at(w) == held.parents_at(w));
        let ps = self.parents_at(t);
        let qs = held.parents_at(w);
        assert forall|i: int| 0 <= i < ps.len() implies #[trigger] self.has_partner(
            later,
            ps[i],
            qs,
        ) by {
            assert(self.has_partner(held, ps[i], qs));
            let j = choose|j: int| 0 <= j < qs.len() && self.corresponds(held, ps[i], #[trigger] qs[j]);
            self.lemma_corresponds_kept(held, later, ps[i], qs[j]);
        }
        assert forall|j: int| 0 <= j < qs.len() implies #[trigger] self.has_partner_rev(
            later,
            ps,
            qs[j],
        ) by {
            assert(self.has_partner_rev(held, ps, qs[j]));
            let i = choose|i: int| 0 <= i < ps.len() && self.corresponds(held, #[trigger] ps[i], qs[j]);
            self.lemma_corresponds_kept(held, later, ps[i], qs[j]);
        }
        assert(self.corresponds(later, t, w) && self.op_value(t) == later.op_value(w)
            && self.same_versions(later, self.parents_at(t), later.parents_at(w)));
    }

    /// Makes every agent of `other` known to `self`. Returns for each agent
    /// of `other` the agent of `self` with its name.
    fn merge_agents(&mut self, other: &OpLog) -> (map: Vec<Option<AgentId>>)
        requires
            old(self).wf(),
            other.wf(),
        ensures
            final(self).wf(),
            final(self).holds_all(old(self)),
            final(self).spec_len() == old(self).spec_len(),
            final(self).ins_content == old(self).ins_content,
            other.agents_mapped(final(self), map@),
            forall|b: int| 0 <= b < map@.len() ==> (#[trigger] map@[b]).is_some(),
    {
        let mut map: Vec<Option<AgentId>> = Vec::new();
        let mut b: usize = 0;
        proof {
            self.lemma_holds_all_refl();
        }
        while b < other.client_data.len()
            invariant
                0 <= b <= other.client_data@.len(),
                self.wf(),
                other.wf(),
                self.holds_all(old(self)),
                self.spec_len() == old(self).spec_len(),
                self.ins_content == old(self).ins_content,
                map@.len() == b,
                forall|x: AgentId|
                    x < b ==> match #[trigger] map@[x as int] {
                        Some(a) => a < self.client_data@.len() && self.name_of(a) == other.name_of(
                            x,
                        ),
                        None => false,
                    },
            decreases other.client_data@.len() - b,
        {
            let ghost before = *self;
            let a = self.get_or_create_agent_id(other.client_data[b].name.as_str());
            proof {
                assert forall|x: AgentId| x < before.client_data@.len() implies #[trigger] self.name_of(
                    x,
                ) == before.name_of(x) by {
                    assert(self.client_data@[x as int] == before.client_data@[x as int]);
                }
                assert(self.ins_content@.take(before.ins_content@.len() as int)
                    =~= before.ins_content@);
                assert(self.holds_all(&before));
                old(self).lemma_holds_all_trans(&before, self);
            }
            map.push(Some(a));
            b += 1;
        }
        map
    }

    /// For each agent of `other` the agent of `self` with its name, if
    /// there is one.
    fn lookup_agents(&self, other: &OpLog) -> (map: Vec<Option<AgentId>>)
        ensures
            other.agents_mapped(self, map@),
    {
        let mut map: Vec<Option<AgentId>> = Vec::new();
        let mut b: usize = 0;
        while b < other.client_data.len()
            invariant
                0 <= b <= other.client_data@.len(),
                map@.len() == b,
                forall|x: AgentId|
                    x < b ==> match #[trigger] map@[x as int] {
                        Some(a) => a < self.client_data@.len() && self.name_of(a) == other.name_of(
                            x,
                        ),
                        None => !self.has_agent(other.name_of(x)),
                    },
            decreases other.client_data@.len() - b,
        {
            let a = self.get_agent_id(other.client_data[b].name.as_str());
            map.push(a);
            b += 1;
        }
        map
    }

    /// Whether `log` agrees with `self`: every version of `self` that
    /// `log` holds by name, it holds as `self` has it, with the same
    /// operation and the same parents.
    pub open spec fn agrees_with(&self, log: &OpLog) -> bool {
        forall|t: LV, t2: LV| #[trigger]
            self.corresponds(log, t, t2) ==> self.version_matches(log, t)
    }

    /// Whether `self` agrees with `other`, as `agrees_with` says.
    pub fn agrees(&self, other: &OpLog) -> (b: bool)
        requires
            self.wf(),
            other.wf(),
        ensures
            b == other.agrees_with(self),
    {
        let map = self.lookup_agents(other);
        let n = other.len();
        let mut t: usize = 0;
        while t < n
            invariant
                0 <= t <= n,
                n == other.spec_len(),
                self.wf(),
                other.wf(),
                other.agents_mapped(self, map@),
                forall|u: LV, t2: LV|
                    u < t && #[trigger] other.corresponds(self, u, t2) ==> other.version_matches(
                        self,
                        u,
                    ),
            decreases n - t,
        {
            if other.map_time(self, &map, t).is_some() {
                if !other.check_version(self, &map, t) {
                    return false;
                }
            }
            t += 1;
        }
        true
    }

    /// A version of `self` that a log holds after it has grown, with a
    /// version that the log had before as its partner, the log held
    /// before.
    pub proof fn lemma_matches_back(&self, held: &OpLog, later: &OpLog, t: LV, t2: LV)
        requires
            held.wf(),
            later.wf(),
            later.holds_all(held),
            self.version_matches(later, t),
            self.corresponds(held, t, t2),
        ensures
            self.version_matches(held, t),
    {
        let w = choose|w: LV| #[trigger]
            self.corresponds(later, t, w) && self.op_value(t) == later.op_value(w)
                && self.same_versions(later, self.parents_at(t), later.parents_at(w));
        self.lemma_corresponds_kept(held, later, t, t2);
        self.lemma_corresponds_unique(later, t, w, t2);
        held.lemma_content(t2);
        held.lemma_ids(t2, t2);
        assert(later.op_at(t2) == held.op_at(t2));
        let u = held.op_at(t2);
        if u.content_known {
            assert(later.ins_content@.take(held.ins_content@.len() as int)[u.content as int]
                == later.ins_content@[u.content as int]);
        }
        assert(later.op_value(t2) == held.op_value(t2));
        assert(later.history.run_start(t2) == held.history.run_start(t2));
        assert(later.parents_at(t2) == held.parents_at(t2));
        let ps = self.parents_at(t);
        let qs = held.parents_at(t2);
        held.history.lemma_entry_of(t2);
        assert forall|j: int| 0 <= j < qs.len() implies #[trigger] qs[j] < held.spec_len() by {
        }
        assert forall|p: LV, j: int|
            0 <= j < qs.len() && self.corresponds(later, p, qs[j]) implies self.corresponds(
            held,
            p,
            qs[j],
        ) by {
            held.lemma_ids(qs[j], qs[j]);
            assert(later.id_at(qs[j]) == held.id_at(qs[j]));
            assert(later.name_of(held.id_at(qs[j]).agent) == held.name_of(
                held.id_at(qs[j]).agent,
            ));
        }
        assert forall|i: int| 0 <= i < ps.len() implies #[trigger] self.has_partner(
            held,
            ps[i],
            qs,
        ) by {
            assert(self.has_partner(later, ps[i], qs));
            let j = choose|j: int|
                0 <= j < qs.len() && self.corresponds(later, ps[i], #[trigger] qs[j]);
            assert(self.corresponds(held, ps[i], qs[j]));
        }
        assert forall|j: int| 0 <= j < qs.len() implies #[trigger] self.has_partner_rev(
            held,
            ps,
            qs[j],
        ) by {
            assert(self.has_partner_rev(later, ps, qs[j]));
            let i = choose|i: int|
                0 <= i < ps.len() && self.corresponds(later, #[trigger] ps[i], qs[j]);
            assert(self.corresponds(held, ps[i], qs[j]));
        }
        assert(self.corresponds(held, t, t2) && self.op_value(t) == held.op_value(t2)
            && self.same_versions(held, self.parents_at(t), held.parents_at(t2)));
    }

    /// The versions of `self` that are the parents of version `t` of
    /// `other`, in the order of `other`.
    fn merge_parents(&self, other: &OpLog, map: &Vec<Option<AgentId>>, t: LV) -> (mapped: Vec<LV>)
        requires
            self.wf(),
            other.wf(),
            other.agents_mapped(self, map@),
            t < other.spec_len(),
            forall|u: LV| u < t ==> #[trigger] other.version_matches(self, u),
        ensures
            mapped@.len() == other.parents_at(t).len(),
            forall|k: int|
                0 <= k < mapped@.len() ==> other.corresponds(
                    self,
                    other.parents_at(t)[k],
                    #[trigger] mapped@[k],
                ),
    {
        let ps = other.parents_vec(t);
        let mut mapped: Vec<LV> = Vec::new();
        let mut k: usize = 0;
        while k < ps.len()
            invariant
                0 <= k <= ps@.len(),
                self.wf(),
                other.wf(),
                other.agents_mapped(self, map@),
                ps@ == other.parents_at(t),
                forall|i: int| 0 <= i < ps@.len() ==> #[trigger] ps@[i] < t,
                t < other.spec_len(),
                forall|u: LV| u < t ==> #[trigger] other.version_matches(self, u),
                mapped@.len() == k,
                forall|i: int|
                    0 <= i < k ==> other.corresponds(self, ps@[i], #[trigger] mapped@[i]),
            decreases ps@.len() - k,
        {
            let q = match other.map_time(self, map, ps[k]) {
                Some(q) => q,
                None => {
                    proof {
                        assert(other.version_matches(self, ps@[k as int]));
                        let w = choose|w: LV| #[trigger]
                            other.corresponds(self, ps@[k as int], w);
                        assert(false);
                    }
                    vstd::pervasive::unreached()
                },
            };
            mapped.push(q);
            k += 1;
        }
        mapped
    }
}

/// The versions in ascending order.
fn sorted_versions(items: &Vec<LV>) -> (r: Vec<LV>)
    requires
        forall|i: int, j: int| 0 <= i < j < items@.len() ==> items@[i] != items@[j],
    ensures
        is_sorted_strict(r@),
        r@.len() == items@.len(),
        forall|v: LV| r@.contains(v) == items@.contains(v),
{
    let mut r: Vec<LV> = Vec::new();
    let mut k: usize = 0;
    while k < items.len()
        invariant
            0 <= k <= items@.len(),
            is_sorted_strict(r@),
            r@.len() == k,
            forall|v: LV| r@.contains(v) == items@.take(k as int).contains(v),
            forall|i: int, j: int| 0 <= i < j < items@.len() ==> items@[i] != items@[j],
        decreases items@.len() - k,
    {
        let x = items[k];
        let ghost before = r@;
        let mut i: usize = 0;
        while i < r.len() && r[i] < x
            invariant
                0 <= i <= r@.len(),
                forall|j: int| 0 <= j < i ==> r@[j] < x,
            decreases r@.len() - i,
        {
            i += 1;
        }
        proof {
            if before.contains(x) {
                assert(items@.take(k as int).contains(x));
                let m = choose|m: int|
                    0 <= m < items@.take(k as int).len() && items@.take(k as int)[m] == x;
                assert(items@[m] == items@[k as int]);
            }
            if i < before.len() {
                assert(before.contains(before[i as int]));
            }
        }
        r.insert(i, x);
        proof {
            assert forall|a: int, b: int| 0 <= a < b < r@.len() implies r@[a] < r@[b] by {
                if b == i {
                } else if a == i {
                    assert(before[i as int] <= before[b - 1]) by {
                        if i < b - 1 {
                            assert(before[i as int] < before[b - 1]);
                        }
                    }
                } else {
                    let a0 = if a < i {
                        a
                    } else {
                        a - 1
                    };
                    let b0 = if b < i {
                        b
                    } else {
                        b - 1
                    };
                    assert(before[a0] < before[b0]);
                }
            }
            assert forall|v: LV| r@.contains(v) == items@.take(k + 1).contains(v) by {
                let now = items@.take(k + 1);
                let was = items@.take(k as int);
                if r@.contains(v) {
                    let m = choose|m: int| 0 <= m < r@.len() && r@[m] == v;
                    if m == i {
                        assert(now[k as int] == v);
                    } else {
                        let m0 = if m < i {
                            m
                        } else {
                            m - 1
                        };
                        assert(before[m0] == v);
                        assert(before.contains(v));
                        let w = choose|w: int| 0 <= w < was.len() && was[w] == v;
                        assert(now[w] == v);
                    }
                }
                if now.contains(v) {
                    let w = choose|w: int| 0 <= w < now.len() && now[w] == v;
                    if w == k {
                        assert(r@[i as int] == v);
                    } else {
                        assert(was[w] == v);
                        assert(was.contains(v));
                        assert(before.contains(v));
                        let m0 = choose|m0: int| 0 <= m0 < before.len() && before[m0] == v;
                        let m = if m0 < i {
                            m0
                        } else {
                            m0 + 1
                        };
                        assert(r@[m] == v);
                    }
                }
            }
        }
        k += 1;
    }
    proof {
        assert(items@.take(items@.len() as int) =~= items@);
    }
    r
}

impl OpLog {
    /// Every version that `self` holds behind those of `orig` is one of
    /// the first `t` versions of `other`.
    pub open spec fn taken_from(&self, orig: &OpLog, other: &OpLog, t: LV) -> bool {
        forall|t2: LV|
            orig.spec_len() <= t2 < self.spec_len() ==> #[trigger] self.is_one_of(other, t, t2)
    }

    /// Whether version `t2` of `self` is one of the first `t` versions of
    /// `other`.
    pub open spec fn is_one_of(&self, other: &OpLog, t: LV, t2: LV) -> bool {
        exists|u: LV| u < t && #[trigger] other.corresponds(self, u, t2)
    }

    /// Takes over version `t` of `other`, where `self` does not hold it
    /// yet.
    #[verifier::rlimit(100)]
    fn merge_version(
        &mut self,
        other: &OpLog,
        map: &Vec<Option<AgentId>>,
        t: LV,
        Ghost(orig): Ghost<OpLog>,
    )
        requires
            old(self).wf(),
            other.wf(),
            orig.wf(),
            other.agents_mapped(old(self), map@),
            forall|b: int| 0 <= b < map@.len() ==> (#[trigger] map@[b]).is_some(),
            t < other.spec_len(),
            old(self).holds_all(&orig),
            other.agrees_with(&orig),
            old(self).taken_from(&orig, other, t),
            forall|u: LV| u < t ==> #[trigger] other.version_matches(old(self), u),
            old(self).spec_len() <= orig.spec_len() + t,
            old(self).ins_content@.len() <= orig.ins_content@.len() + t,
            orig.spec_len() + other.spec_len() <= usize::MAX,
            orig.ins_content@.len() + other.spec_len() <= usize::MAX,
        ensures
            final(self).wf(),
            final(self).holds_all(old(self)),
            final(self).client_data@.len() == old(self).client_data@.len(),
            other.agents_mapped(final(self), map@),
            other.version_matches(final(self), t),
            final(self).taken_from(&orig, other, (t + 1) as usize),
            final(self).spec_len() <= orig.spec_len() + t + 1,
            final(self).ins_content@.len() <= orig.ins_content@.len() + t + 1,
    {
        let ghost before = *self;
        proof {
            self.lemma_holds_all_refl();
        }
        if let Some(t2) = other.map_time(self, map, t) {
            proof {
                if t2 >= orig.spec_len() {
                    assert(self.is_one_of(other, t, t2));
                    let u = choose|u: LV| u < t && #[trigger] other.corresponds(self, u, t2);
                    other.lemma_ids(u, t);
                    self.lemma_name_unique_other(other, u, t, t2);
                    assert(false);
                }
                self.lemma_ids(t2, t2);
                orig.lemma_ids(t2, t2);
                assert(self.id_at(t2) == orig.id_at(t2));
                assert(self.name_of(orig.id_at(t2).agent) == orig.name_of(orig.id_at(t2).agent));
                assert(other.corresponds(&orig, t, t2));
                assert(other.version_matches(&orig, t));
                other.lemma_matches_kept(&orig, self, t);
                assert forall|w: LV|
                    orig.spec_len() <= w < self.spec_len() implies #[trigger] self.is_one_of(
                    other,
                    (t + 1) as usize,
                    w,
                ) by {
                    assert(self.is_one_of(other, t, w));
                    let u = choose|u: LV| u < t && #[trigger] other.corresponds(self, u, w);
                    assert(u < t + 1 && other.corresponds(self, u, w));
                }
            }
            return ;
        }
        let id = other.time_to_crdt_id(t);
        let a = match map[id.agent] {
            Some(a) => a,
            None => {
                vstd::pervasive::unreached()
            },
        };
        proof {
            self.lemma_next_is(other, t, a);
        }
        let mapped = self.merge_parents(other, map, t);
        proof {
            let ps = other.parents_at(t);
            other.history.lemma_entry_of(t);
            assert(is_sorted_strict(ps)) by {
                if other.history.run_start(t) == t {
                } else {
                }
            }
            assert forall|i: int, j: int| 0 <= i < j < mapped@.len() implies mapped@[i]
                != mapped@[j] by {
                if mapped@[i] == mapped@[j] {
                    assert(other.corresponds(self, ps[i], mapped@[i]));
                    assert(other.corresponds(self, ps[j], mapped@[j]));
                    self.lemma_name_unique_other(other, ps[i], ps[j], mapped@[i]);
                    assert(ps[i] < ps[j]);
                }
            }
        }
        let parents = sorted_versions(&mapped);
        let u = other.op_unit_at(t);
        let op = if u.content_known {
            let content_start = self.ins_content.len();
            self.ins_content.push(other.ins_content[u.content]);
            proof {
                before.lemma_content_grown(self);
                assert(self.ins_content@.take(before.ins_content@.len() as int)
                    =~= before.ins_content@);
            }
            OpSpan {
                tag: InsDelTag::Ins,
                start: u.pos,
                end: u.pos + 1,
                fwd: true,
                content_known: true,
                content_start,
            }
        } else {
            OpSpan {
                tag: u.tag,
                start: u.pos,
                end: u.pos + 1,
                fwd: true,
                content_known: false,
                content_start: 0,
            }
        };
        let ghost mid = *self;
        proof {
            assert(mid.holds_all(&before));
            assert(op.wf());
            assert(op.spec_len() == 1);
            assert forall|k: int| 0 <= k < parents@.len() implies #[trigger] parents@[k]
                < mid.history.spec_len() by {
                assert(parents@.contains(parents@[k]));
                assert(mapped@.contains(parents@[k]));
                let i = choose|i: int| 0 <= i < mapped@.len() && mapped@[i] == parents@[k];
                assert(other.corresponds(&before, other.parents_at(t)[i], mapped@[i]));
            }
        }
        let range = self.push_op(a, parents.as_slice(), op);
        proof {
            let t2 = range.start;
            self.lemma_grown_holds_all(&mid, a, 1);
            before.lemma_holds_all_trans(&mid, self);
            assert(self.id_at((mid.spec_len() + 0nat) as usize) == (crate::list::oplog::CRDTId {
                agent: a,
                seq: (mid.client_data@[a as int].next_seq + 0nat) as usize,
            }));
            assert(self.client_data@[a as int].name@ == mid.client_data@[a as int].name@);
            assert(other.corresponds(self, t, t2));
            assert(self.op_at((range.start + 0nat) as usize) == op.spec_unit(0nat));
            assert(other.op_value(t) == self.op_value(t2));
            let ps = other.parents_at(t);
            let qs = self.parents_at(t2);
            assert(qs == parents@);
            assert forall|i: int| 0 <= i < ps.len() implies #[trigger] other.has_partner(
                self,
                ps[i],
                qs,
            ) by {
                assert(mapped@.contains(mapped@[i]));
                assert(parents@.contains(mapped@[i]));
                let j = choose|j: int| 0 <= j < qs.len() && qs[j] == mapped@[i];
                other.lemma_corresponds_kept(&before, self, ps[i], mapped@[i]);
                assert(other.corresponds(self, ps[i], qs[j]));
            }
            assert forall|j: int| 0 <= j < qs.len() implies #[trigger] other.has_partner_rev(
                self,
                ps,
                qs[j],
            ) by {
                assert(parents@.contains(qs[j]));
                assert(mapped@.contains(qs[j]));
                let i = choose|i: int| 0 <= i < mapped@.len() && mapped@[i] == qs[j];
                other.lemma_corresponds_kept(&before, self, ps[i], mapped@[i]);
                assert(other.corresponds(self, ps[i], qs[j]));
            }
            assert(other.same_versions(self, ps, qs));
            assert forall|x: AgentId| x < map@.len() implies match #[trigger] map@[x as int] {
                Some(b) => b < self.client_data@.len() && self.name_of(b) == other.name_of(x),
                None => !self.has_agent(other.name_of(x)),
            } by {
                let b = map@[x as int].unwrap();
                assert(self.name_of(b) == before.name_of(b));
            }
            assert forall|w: LV|
                orig.spec_len() <= w < self.spec_len() implies #[trigger] self.is_one_of(
                other,
                (t + 1) as usize,
                w,
            ) by {
                if w < before.spec_len() {
                    assert(before.is_one_of(other, t, w));
                    let u = choose|u: LV| u < t && #[trigger] other.corresponds(&before, u, w);
                    other.lemma_corresponds_kept(&before, self, u, w);
                    assert(u < t + 1 && other.corresponds(self, u, w));
                } else {
                    assert(t < t + 1 && other.corresponds(self, t, w));
                }
            }
        }
    }

    /// Two versions of `other` that are one version of `self` are one
    /// version.
    pub proof fn lemma_name_unique_other(&self, other: &OpLog, u: LV, t: LV, t2: LV)
        requires
            other.wf(),
            other.corresponds(self, u, t2),
            other.corresponds(self, t, t2),
        ensures
            u == t,
    {
        other.lemma_ids(u, t);
        other.lemma_ids(t, u);
        other.lemma_name_unique(other.id_at(u).agent, other.id_at(t).agent);
    }

    /// The number of a version of `other` that `self` does not hold, while
    /// it holds all versions of `other` before it, is the number that its
    /// agent gives out next in `self`.
    pub proof fn lemma_next_is(&self, other: &OpLog, t: LV, a: AgentId)
        requires
            self.wf(),
            other.wf(),
            t < other.spec_len(),
            a < self.client_data@.len(),
            self.name_of(a) == other.name_of(other.id_at(t).agent),
            forall|t2: LV| !other.corresponds(self, t, t2),
            forall|u: LV| u < t ==> #[trigger] other.version_matches(self, u),
        ensures
            self.client_data@[a as int].next_seq == other.id_at(t).seq,
    {
        let id = other.id_at(t);
        let s = id.seq;
        let next = self.client_data@[a as int].next_seq;
        other.lemma_ids(t, t);
        if s < next {
            assert(self.gave_out(a, s));
            let t2 = choose|t2: LV|
                t2 < self.spec_len() && #[trigger] self.id_at(t2) == (crate::list::oplog::CRDTId {
                    agent: a,
                    seq: s,
                });
            assert(other.corresponds(self, t, t2));
        }
        if s > 0 && s > next {
            let before = (s - 1) as usize;
            assert(other.gave_out(id.agent, before));
            let u = choose|u: LV|
                u < other.spec_len() && #[trigger] other.id_at(u) == (crate::list::oplog::CRDTId {
                    agent: id.agent,
                    seq: before,
                });
            other.lemma_order(u, t);
            assert(other.version_matches(self, u));
            let w = choose|w: LV| #[trigger] other.corresponds(self, u, w);
            self.lemma_ids(w, w);
            self.lemma_name_unique(self.id_at(w).agent, a);
        }
    }

    /// Takes over the versions of `other` that `self` does not hold yet:
    /// each with its operation, under the name that `other` has for it,
    /// and with the parents that it has there. When that is done, `self`
    /// holds every version of `other`, and all that it held, under the
    /// same numbers.
    ///
    /// Fails where the logs contradict each other: one version does
    /// different things in them or has different parents. `self` is then
    /// as it was.
    pub fn merge_from(&mut self, other: &OpLog) -> (r: Result<(), ParseError>)
        requires
            old(self).wf(),
            other.wf(),
            old(self).spec_len() + other.spec_len() <= usize::MAX,
            old(self).ins_content@.len() + other.spec_len() <= usize::MAX,
        ensures
            final(self).wf(),
            r.is_ok() == other.agrees_with(old(self)),
            match r {
                Ok(()) => {
                    &&& final(self).holds_all(old(self))
                    &&& forall|t: LV|
                        t < other.spec_len() ==> #[trigger] other.version_matches(final(self), t)
                },
                Err(e) => e == ParseError::IntegrityError && *final(self) == *old(self),
            },
    {
        if !self.agrees(other) {
            return Err(ParseError::IntegrityError);
        }
        let map = self.merge_agents(other);
        let n = other.len();
        let mut t: usize = 0;
        while t < n
            invariant
                0 <= t <= n,
                n == other.spec_len(),
                self.wf(),
                other.wf(),
                old(self).wf(),
                self.holds_all(old(self)),
                other.agrees_with(old(self)),
                other.agents_mapped(self, map@),
                forall|b: int| 0 <= b < map@.len() ==> (#[trigger] map@[b]).is_some(),
                forall|x: LV| x < t ==> #[trigger] other.version_matches(self, x),
                self.taken_from(old(self), other, t),
                self.spec_len() <= old(self).spec_len() + t,
                self.ins_content@.len() <= old(self).ins_content@.len() + t,
                old(self).spec_len() + other.spec_len() <= usize::MAX,
                old(self).ins_content@.len() + other.spec_len() <= usize::MAX,
            decreases n - t,
        {
            let ghost before = *self;
            self.merge_version(other, &map, t, Ghost(*old(self)));
            proof {
                old(self).lemma_holds_all_trans(&before, self);
                assert forall|x: LV| x < t implies #[trigger] other.version_matches(self, x) by {
                    other.lemma_matches_kept(&before, self, x);
                }
            }
            t += 1;
        }
        Ok(())
    }

    /// Whether `self` can take over the file `f`, as `spec_log` gives it:
    /// the versions and the content of both fit the machine, and every
    /// log that holds the file agrees with `self`.
    pub open spec fn takes_file(
        &self,
        f: (
            Seq<Seq<char>>,
            Seq<u64>,
            (Seq<crate::list::oplog::CRDTId>, Seq<usize>, Seq<Seq<LV>>, Seq<OpSpan>),
        ),
    ) -> bool {
        &&& self.spec_len() + f.2.0.len() <= usize::MAX
        &&& self.ins_content@.len() + f.2.0.len() <= usize::MAX
        &&& forall|other: OpLog|
            other.wf() && #[trigger] other.holds_file(f) ==> other.agrees_with(self)
    }

    /// Reads a log from bytes and takes over what `self` does not hold of
    /// it. Returns the frontier of `self` with all of it taken over. Where
    /// the bytes cannot be read, or hold a log that contradicts `self`,
    /// `self` stays as it is.
    pub fn decode_and_merge(&mut self, bytes: &[u8]) -> (r: Result<Frontier, ParseError>)
        requires
            old(self).wf(),
        ensures
            final(self).wf(),
            match r {
                Ok(f) => {
                    &&& final(self).holds_all(old(self))
                    &&& f@ == final(self).history.version@
                    &&& spec_log(bytes@).is_some()
                    &&& exists|other: OpLog|
                        {
                            &&& #[trigger] other.holds_file(spec_log(bytes@).unwrap())
                            &&& other.wf()
                            &&& other.agrees_with(old(self))
                            &&& forall|t: LV|
                                t < other.spec_len() ==> #[trigger] other.version_matches(
                                    final(self),
                                    t,
                                )
                        }
                },
                Err(e) => *final(self) == *old(self) && ((e == ParseError::BadMagic)
                    == !has_magic(bytes@)),
            },
            spec_log(bytes@).is_some() && old(self).takes_file(spec_log(bytes@).unwrap())
                ==> r.is_ok(),
            forall|l: OpLog|
                l.wf() && l.encodable() && #[trigger] l.spec_snapshot() == bytes@ && l.agrees_with(
                    old(self),
                ) && old(self).spec_len() + l.spec_len() <= usize::MAX && old(
                    self,
                ).ins_content@.len() + l.spec_len() <= usize::MAX ==> r.is_ok(),
    {
        let other = match decode(bytes) {
            Ok(other) => other,
            Err(e) => {
                return Err(e);
            },
        };
        proof {
            assert(other.ids().len() == other.spec_len());
            assert(has_magic(bytes@));
            assert forall|l: OpLog|
                l.wf() && l.encodable() && #[trigger] l.spec_snapshot() == bytes@ && l.agrees_with(
                    old(self),
                ) implies other.agrees_with(old(self)) && other.spec_len() == l.spec_len() by {
                l.lemma_file_gives_numbers(&other);
                l.lemma_agrees_same(&other, old(self));
            }
        }
        let len = self.len();
        let more = other.len();
        if more > usize::MAX - len || more > usize::MAX - self.ins_content.len() {
            return Err(ParseError::IntegrityError);
        }
        match self.merge_from(&other) {
            Ok(()) => {
                proof {
                    assert(other.holds_file(spec_log(bytes@).unwrap()));
                }
                Ok(self.frontier().clone())
            },
            Err(e) => Err(e),
        }
    }
}

} // verus!
