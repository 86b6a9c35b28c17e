//! What is written is read: the parts of a file that `encode` writes are
//! found in it again, and hold what the log holds.

use crate::encoding::varint::{law_varint_round_trip, spec_decode, spec_encode, spec_encoded_len};
use crate::list::encoding::{
    is_char_code, lemma_numbers_first, lemma_numbers_prefix, spec_agent_names,
    spec_content_codes, spec_numbers, spec_strings,
};
use vstd::utf8::{decode_utf8, encode_utf8, valid_utf8};
use crate::encoding::varint::{
    law_mix_bit_round_trip, law_zigzag_round_trip, spec_mix_bit, spec_zigzag,
};
use crate::frontier::LV;
use crate::encoding::encode_tools::{
    law_chunk_round_trip, spec_chunk, spec_chunk_header, spec_u32_le, ListChunkType,
};
use crate::list::encoding::{
    has_magic, prev_of, spec_checksum, spec_chunk_at, spec_file, spec_log, spec_magic, spec_op,
    spec_op_runs, spec_ops, spec_stored_u32, valid_run,
};
use crate::frontier::is_sorted_strict;
use crate::list::history::{
    flat_unit, id_held, lemma_flat_unit, pair_held, parents_in, run_ids, run_parents_list,
    spec_history_in, spec_pieces, units_before, version_held, versions_held,
};
use crate::list::oplog::{AgentId, CRDTId};
use crate::list::operation::{InsDelTag, OpSpan};
use crate::list::oplog::OpLog;
use crate::rle::{run_end, HasLength, HasUnits, RleKeyed};
use vstd::prelude::*;

verus! {

/// Where `k` numbers stand in the bytes and the encoding of `v` behind
/// them, `k + 1` numbers stand there: those, and `v`.
pub proof fn lemma_numbers_more(bytes: Seq<u8>, k: nat, v: u64, rest: Seq<u8>)
    requires
        spec_numbers(bytes, k).is_some(),
        spec_numbers(bytes, k).unwrap().1 <= bytes.len(),
        bytes.skip(spec_numbers(bytes, k).unwrap().1 as int) == spec_encode(v as nat) + rest,
    ensures
        spec_numbers(bytes, k + 1) == Some(
            (
                spec_numbers(bytes, k).unwrap().0.push(v),
                spec_numbers(bytes, k).unwrap().1 + spec_encode(v as nat).len(),
            ),
        ),
{
    law_varint_round_trip(v, rest);
}

impl OpLog {
    /// The codes of the first `n` characters of the content.
    pub open spec fn content_codes(&self, n: nat) -> Seq<u64> {
        Seq::new(n, |i: int| (self.ins_content@[i] as u32) as u64)
    }

    /// The bytes of the first characters are the start of the bytes of
    /// more characters.
    pub proof fn lemma_chars_prefix(&self, n: nat, m: nat)
        requires
            n <= m,
        ensures
            self.spec_chars_bytes(n).len() <= self.spec_chars_bytes(m).len(),
            self.spec_chars_bytes(m).take(self.spec_chars_bytes(n).len() as int)
                == self.spec_chars_bytes(n),
        decreases m,
    {
        if n < m {
            self.lemma_chars_prefix(n, (m - 1) as nat);
            let a = self.spec_chars_bytes((m - 1) as nat);
            let l = self.spec_chars_bytes(n).len() as int;
            assert(self.spec_chars_bytes(m).take(l) =~= a.take(l));
        } else {
            let a = self.spec_chars_bytes(m);
            assert(a.take(a.len() as int) =~= a);
        }
    }

    /// The content that was written is read: the first `n` characters.
    pub proof fn lemma_content_read(&self, n: nat)
        requires
            n <= self.ins_content@.len() <= usize::MAX,
        ensures
            spec_numbers(self.spec_content_payload(), n + 1) == Some(
                (
                    seq![self.ins_content@.len() as u64] + self.content_codes(n),
                    spec_encode(self.ins_content@.len()).len() + self.spec_chars_bytes(n).len(),
                ),
            ),
        decreases n,
    {
        let total = self.ins_content@.len();
        let bytes = self.spec_content_payload();
        let head = spec_encode(total);
        let all = self.spec_chars_bytes(total);
        if n == 0 {
            law_varint_round_trip(total as u64, all);
            lemma_numbers_first(bytes);
            assert(seq![total as u64] + self.content_codes(0) =~= seq![total as u64]);
        } else {
            self.lemma_content_read((n - 1) as nat);
            self.lemma_chars_prefix((n - 1) as nat, n);
            self.lemma_chars_prefix(n, total);
            let before = self.spec_chars_bytes((n - 1) as nat);
            let now = self.spec_chars_bytes(n);
            let code = (self.ins_content@[n - 1] as u32) as u64;
            let used = head.len() + before.len();
            let rest = all.skip(now.len() as int);
            assert(now == before + spec_encode(code as nat));
            assert(all == all.take(now.len() as int) + rest);
            assert(bytes.skip(used as int) =~= spec_encode(code as nat) + rest) by {
                assert(bytes =~= head + (before + spec_encode(code as nat)) + rest);
            }
            lemma_numbers_more(bytes, n, code, rest);
            assert((seq![total as u64] + self.content_codes((n - 1) as nat)).push(code) =~= seq![
                total as u64,
            ] + self.content_codes(n));
        }
    }

    /// The content that was written is read.
    pub proof fn law_content_is_read(&self)
        requires
            self.ins_content@.len() <= usize::MAX,
        ensures
            spec_content_codes(self.spec_content_payload()) == Some(
                self.content_codes(self.ins_content@.len()),
            ),
    {
        let total = self.ins_content@.len();
        let bytes = self.spec_content_payload();
        self.lemma_content_read(total);
        law_varint_round_trip(total as u64, self.spec_chars_bytes(total));
        let vs = seq![total as u64] + self.content_codes(total);
        assert forall|j: int| 1 <= j <= total implies is_char_code(#[trigger] vs[j]) by {
            vstd::utf8::char_is_scalar(self.ins_content@[j - 1]);
        }
        assert(vs.skip(1) =~= self.content_codes(total));
    }

    /// The names of the first `n` agents in UTF-8.
    pub open spec fn names_utf8(&self, n: nat) -> Seq<Seq<u8>> {
        Seq::new(n, |i: int| encode_utf8(self.name_of(i as usize)))
    }

    /// The names of the agents of the log.
    pub open spec fn names(&self) -> Seq<Seq<char>> {
        Seq::new(self.client_data@.len(), |i: int| self.client_data@[i].name@)
    }

    /// The bytes of the first names are the start of the bytes of more
    /// names.
    pub proof fn lemma_names_prefix(&self, n: nat, m: nat)
        requires
            n <= m,
        ensures
            self.spec_names_bytes(n).len() <= self.spec_names_bytes(m).len(),
            self.spec_names_bytes(m).take(self.spec_names_bytes(n).len() as int)
                == self.spec_names_bytes(n),
        decreases m,
    {
        if n < m {
            self.lemma_names_prefix(n, (m - 1) as nat);
            let a = self.spec_names_bytes((m - 1) as nat);
            let l = self.spec_names_bytes(n).len() as int;
            assert(self.spec_names_bytes(m).take(l) =~= a.take(l));
        } else {
            let a = self.spec_names_bytes(m);
            assert(a.take(a.len() as int) =~= a);
        }
    }

    /// The names that were written are read: the first `n` of them.
    pub proof fn lemma_names_read(&self, n: nat)
        requires
            n <= self.client_data@.len() <= usize::MAX,
            self.spec_names_bytes(self.client_data@.len()).len() <= usize::MAX,
        ensures
            spec_strings(self.spec_names_bytes(self.client_data@.len()), n) == Some(
                (self.names_utf8(n), self.spec_names_bytes(n).len()),
            ),
        decreases n,
    {
        let total = self.client_data@.len();
        let body = self.spec_names_bytes(total);
        if n == 0 {
            assert(self.names_utf8(0) =~= Seq::<Seq<u8>>::empty());
        } else {
            self.lemma_names_read((n - 1) as nat);
            self.lemma_names_prefix((n - 1) as nat, n);
            self.lemma_names_prefix(n, total);
            let before = self.spec_names_bytes((n - 1) as nat);
            let now = self.spec_names_bytes(n);
            let name = encode_utf8(self.name_of((n - 1) as usize));
            let head = spec_encode(name.len());
            let rest = body.skip(now.len() as int);
            assert(now == before + head + name);
            assert(body == body.take(now.len() as int) + rest);
            assert(body.skip(before.len() as int) =~= head + (name + rest)) by {
                assert(body =~= before + head + name + rest);
            }
            law_varint_round_trip(name.len() as u64, name + rest);
            assert(body.subrange(
                (before.len() + head.len()) as int,
                (before.len() + head.len() + name.len()) as int,
            )
                =~= name) by {
                assert(body =~= before + head + name + rest);
            }
            assert(self.names_utf8((n - 1) as nat).push(name) =~= self.names_utf8(n));
        }
    }

    /// The names of the agents that were written are read.
    pub proof fn law_names_are_read(&self)
        requires
            self.names_distinct(),
            self.client_data@.len() <= usize::MAX,
            self.spec_agents_payload().len() <= usize::MAX,
        ensures
            spec_agent_names(self.spec_agents_payload()) == Some(self.names()),
    {
        let total = self.client_data@.len();
        let bytes = self.spec_agents_payload();
        let body = self.spec_names_bytes(total);
        let head = spec_encode(total);
        law_varint_round_trip(total as u64, body);
        assert(bytes.skip(head.len() as int) =~= body);
        self.lemma_names_read(total);
        let raw = self.names_utf8(total);
        assert forall|i: int| 0 <= i < raw.len() implies valid_utf8(#[trigger] raw[i])
            && decode_utf8(raw[i]) == self.client_data@[i].name@ by {
            vstd::utf8::encode_utf8_valid_utf8(self.name_of(i as usize));
            vstd::utf8::encode_utf8_decode_utf8(self.name_of(i as usize));
        }
        assert forall|i: int, j: int| 0 <= i < j < raw.len() implies decode_utf8(
            #[trigger] raw[i],
        ) != decode_utf8(#[trigger] raw[j]) by {
            assert(valid_utf8(raw[i]) && valid_utf8(raw[j]));
            assert(self.name_of(i as usize) != self.name_of(j as usize));
        }
        assert(Seq::new(raw.len(), |i: int| decode_utf8(raw[i])) =~= self.names());
    }
}

/// A run of operations that was written is read, whatever follows it.
#[verifier::rlimit(100)]
pub proof fn lemma_op_read(op: OpSpan, prev: usize, content_len: usize, rest: Seq<u8>)
    requires
        valid_run(op, content_len),
        prev <= OpLog::spec_size_limit(),
    ensures
        spec_op(OpLog::spec_op_bytes(op, prev) + rest, prev, content_len) == Some(
            (op, OpLog::spec_op_bytes(op, prev).len()),
        ),
{
    let len = op.end - op.start;
    let m1 = spec_mix_bit(len, op.content_known);
    let m2 = spec_mix_bit(m1, op.fwd);
    let head = spec_mix_bit(m2, op.tag == InsDelTag::Del);
    law_mix_bit_round_trip(len, op.content_known);
    law_mix_bit_round_trip(m1, op.fwd);
    law_mix_bit_round_trip(m2, op.tag == InsDelTag::Del);
    let d = op.start - prev;
    let zz = spec_zigzag(d);
    law_zigzag_round_trip(d, 0);
    let e1 = spec_encode(head as nat);
    let e2 = spec_encode(zz as nat);
    let e3 = if op.content_known {
        spec_encode(op.content_start as nat)
    } else {
        Seq::<u8>::empty()
    };
    let bytes = OpLog::spec_op_bytes(op, prev) + rest;
    assert(bytes =~= e1 + (e2 + e3 + rest));
    assert(spec_numbers(bytes, 0) == Some((Seq::<u64>::empty(), 0nat)));
    assert(bytes.skip(0) =~= bytes);
    lemma_numbers_more(bytes, 0, head as u64, e2 + e3 + rest);
    assert(bytes.skip(e1.len() as int) =~= e2 + (e3 + rest));
    lemma_numbers_more(bytes, 1, zz as u64, e3 + rest);
    let hd = spec_numbers(bytes, 2).unwrap().0;
    assert(hd[0] == head && hd[1] == zz);
    assert(head / 2 == m2);
    assert(head / 4 == m1) by {
        assert(m2 / 2 == m1);
    }
    assert(head / 8 == len) by {
        assert(m1 / 2 == len);
    }
    if op.content_known {
        assert(bytes.skip((e1.len() + e2.len()) as int) =~= e3 + rest);
        lemma_numbers_more(bytes, 2, op.content_start as u64, rest);
        assert(spec_numbers(bytes, 3).unwrap().0[2] == op.content_start);
    }
}

impl OpLog {
    /// The runs of operations of the log, without their keys.
    pub open spec fn op_runs(&self) -> Seq<OpSpan> {
        Seq::new(self.operations.0@.len(), |i: int| self.operations.0@[i].1)
    }

    /// The bytes of the first runs are the start of the bytes of more
    /// runs.
    pub proof fn lemma_ops_prefix(&self, n: nat, m: nat)
        requires
            n <= m,
        ensures
            self.spec_ops_bytes(n).len() <= self.spec_ops_bytes(m).len(),
            self.spec_ops_bytes(m).take(self.spec_ops_bytes(n).len() as int) == self.spec_ops_bytes(
                n,
            ),
        decreases m,
    {
        if n < m {
            self.lemma_ops_prefix(n, (m - 1) as nat);
            let a = self.spec_ops_bytes((m - 1) as nat);
            let l = self.spec_ops_bytes(n).len() as int;
            assert(self.spec_ops_bytes(m).take(l) =~= a.take(l));
        } else {
            let a = self.spec_ops_bytes(m);
            assert(a.take(a.len() as int) =~= a);
        }
    }

    /// Every run of operations of a log that can be written is as a file
    /// may hold it.
    pub proof fn lemma_runs_valid(&self, i: int)
        requires
            self.operations_wf(),
            self.encodable(),
            self.ins_content@.len() <= usize::MAX,
            0 <= i < self.operations.0@.len(),
        ensures
            valid_run(self.operations.0@[i].1, self.ins_content@.len() as usize),
            self.operations.0@[i].1.start <= Self::spec_size_limit(),
    {
        let run = self.operations.0@[i];
        assert(run.wf());
        assert(run.1.wf());
        assert(run.1.end <= Self::spec_size_limit());
        if run.1.content_known {
            assert(run.1.content_start + run.1.spec_len() <= self.ins_content@.len());
        }
    }

    /// The runs of operations that were written are read: the first `n`
    /// of them.
    #[verifier::rlimit(50)]
    pub proof fn lemma_ops_read(&self, n: nat)
        requires
            self.wf(),
            self.encodable(),
            n <= self.operations.0@.len(),
            self.ins_content@.len() <= usize::MAX,
        ensures
            spec_op_runs(
                self.spec_ops_bytes(self.operations.0@.len()),
                n,
                self.ins_content@.len() as usize,
            ) == Some((self.op_runs().take(n as int), self.spec_ops_bytes(n).len())),
        decreases n,
    {
        let total = self.operations.0@.len();
        let content_len = self.ins_content@.len() as usize;
        let body = self.spec_ops_bytes(total);
        if n == 0 {
            assert(self.op_runs().take(0) =~= Seq::<OpSpan>::empty());
        } else {
            self.lemma_ops_read((n - 1) as nat);
            self.lemma_ops_prefix((n - 1) as nat, n);
            self.lemma_ops_prefix(n, total);
            let before = self.spec_ops_bytes((n - 1) as nat);
            let now = self.spec_ops_bytes(n);
            let op = self.operations.0@[n - 1].1;
            let prev = self.spec_prev_start(n - 1);
            let piece = Self::spec_op_bytes(op, prev);
            let rest = body.skip(now.len() as int);
            self.lemma_runs_valid(n - 1);
            if n > 1 {
                self.lemma_runs_valid(n - 2);
            }
            let runs = self.op_runs().take(n - 1);
            assert(prev_of(runs) == prev) by {
                if n > 1 {
                    assert(runs.last() == self.operations.0@[n - 2].1);
                }
            }
            assert(now == before + piece);
            assert(body == body.take(now.len() as int) + rest);
            assert(body.skip(before.len() as int) =~= piece + rest) by {
                assert(body =~= before + piece + rest);
            }
            lemma_op_read(op, prev, content_len, rest);
            assert(runs.push(op) =~= self.op_runs().take(n as int));
        }
    }

    /// The runs of operations that were written are read.
    pub proof fn law_ops_are_read(&self)
        requires
            self.wf(),
            self.encodable(),
            self.ins_content@.len() <= usize::MAX,
            self.operations.0@.len() <= usize::MAX,
        ensures
            spec_ops(self.spec_ops_payload(), self.ins_content@.len() as usize) == Some(
                self.op_runs(),
            ),
    {
        let total = self.operations.0@.len();
        let bytes = self.spec_ops_payload();
        let body = self.spec_ops_bytes(total);
        let head = spec_encode(total);
        law_varint_round_trip(total as u64, body);
        assert(bytes.skip(head.len() as int) =~= body);
        self.lemma_ops_read(total);
        assert(self.op_runs().take(total as int) =~= self.op_runs());
    }

    /// The operations before a run of the table are as many as its key
    /// says.
    pub proof fn lemma_units_are_keys(&self, k: nat)
        requires
            self.wf(),
            k <= self.operations.0@.len(),
        ensures
            units_before(self.op_runs(), k) == (if k < self.operations.0@.len() {
                self.operations.0@[k as int].0 as nat
            } else {
                self.spec_len()
            }),
        decreases k,
    {
        let runs = self.operations.0@;
        if k > 0 {
            self.lemma_units_are_keys((k - 1) as nat);
            assert(self.op_runs()[k - 1] == runs[k - 1].1);
            assert(runs[k - 1].wf());
            if k < runs.len() {
                assert(run_end(&runs[k - 1]) == runs[k as int].0);
            } else {
                assert(runs.last() == runs[k - 1]);
            }
        } else {
            if runs.len() > 0 {
                assert(runs[0].0 == 0);
            }
        }
    }

    /// The operation of a version is the operation at its place in the
    /// runs taken together.
    pub proof fn lemma_flat_is_op(&self, t: LV)
        requires
            self.wf(),
            t < self.spec_len(),
        ensures
            flat_unit(self.op_runs(), t as nat) == self.op_at(t),
    {
        let table = &self.operations;
        table.lemma_packed_covered(t as nat);
        let i = choose|i: int| table.covers(i, t as nat);
        table.lemma_unit_at(i, t as nat);
        self.lemma_units_are_keys(i as nat);
        let off = (t - table.0@[i].0) as nat;
        assert(self.op_runs()[i] == table.0@[i].1);
        lemma_flat_unit(self.op_runs(), i as nat, off);
    }

    /// A piece of history lies within the log, within one run of one
    /// agent and within one run of the graph: its versions have the
    /// numbers of the agent in a row, and each but the first has the
    /// version before it as its parent. The parents of the first come
    /// before it, in order.
    #[verifier::rlimit(100)]
    pub proof fn lemma_piece(&self, t: LV)
        requires
            self.wf(),
            t < self.spec_len(),
        ensures
            t < self.spec_piece_end(t) <= self.spec_len(),
            forall|v: LV|
                t <= v < self.spec_piece_end(t) ==> #[trigger] self.id_at(v) == (CRDTId {
                    agent: self.id_at(t).agent,
                    seq: (self.id_at(t).seq + (v - t)) as usize,
                }),
            forall|v: LV|
                t < v < self.spec_piece_end(t) ==> #[trigger] self.history.parents_of(v) == seq![
                    (v - 1) as usize,
                ],
            is_sorted_strict(self.parents_at(t)),
            forall|k: int| 0 <= k < self.parents_at(t).len() ==> #[trigger] self.parents_at(t)[k] < t,
    {
        let table = &self.client_with_localtime;
        table.lemma_packed_covered(t as nat);
        let a = choose|a: int| table.covers(a, t as nat);
        table.lemma_packed_is_sorted();
        let run = table.0@[a];
        assert(run.wf());
        let last = table.0@.len() - 1;
        if a < last {
            assert(run_end(&table.0@[a]) <= table.0@[last].spec_rle_key());
        }
        self.history.lemma_entry_of(t);
        let i = choose|i: int|
            self.history.entries.covers(i, t as nat) && self.history.entry_of(t)
                == self.history.entries.0@[i] && self.history.entry_wf(i);
        let e = self.spec_piece_end(t);
        table.lemma_unit_at(a, t as nat);
        assert forall|v: LV| t <= v < e implies #[trigger] self.id_at(v) == (CRDTId {
            agent: self.id_at(t).agent,
            seq: (self.id_at(t).seq + (v - t)) as usize,
        }) by {
            assert(table.covers(a, v as nat));
            table.lemma_unit_at(a, v as nat);
        }
        assert forall|v: LV| t < v < e implies #[trigger] self.history.parents_of(v) == seq![
            (v - 1) as usize,
        ] by {
            assert(self.history.entries.covers(i, v as nat));
            self.history.lemma_entry_of_index(i, v);
        }
    }

    /// An agent has given out no more numbers before a version than
    /// there are versions before it.
    pub proof fn lemma_seq_le(&self, t: LV)
        requires
            self.wf(),
            t < self.spec_len(),
        ensures
            self.id_at(t).seq <= t,
        decreases t,
    {
        let id = self.id_at(t);
        self.lemma_ids(t, t);
        if id.seq > 0 {
            let before = (id.seq - 1) as usize;
            assert(self.gave_out(id.agent, before));
            let u = choose|u: LV|
                u < self.spec_len() && #[trigger] self.id_at(u) == (CRDTId {
                    agent: id.agent,
                    seq: before,
                });
            self.lemma_order(u, t);
            self.lemma_seq_le(u);
        }
    }

    /// The names of the first `n` of the versions, as numbers: for each
    /// the agent and the number.
    pub open spec fn id_numbers(&self, versions: Seq<LV>, n: nat) -> Seq<u64> {
        Seq::new(
            2 * n,
            |j: int|
                if j % 2 == 0 {
                    self.id_at(versions[j / 2]).agent as u64
                } else {
                    self.id_at(versions[j / 2]).seq as u64
                },
        )
    }

    /// The names of versions that were written are read as numbers,
    /// whatever follows them.
    pub proof fn lemma_ids_read(&self, versions: Seq<LV>, n: nat, rest: Seq<u8>)
        requires
            n <= versions.len(),
        ensures
            spec_numbers(self.spec_ids_bytes(versions, n) + rest, 2 * n) == Some(
                (self.id_numbers(versions, n), self.spec_ids_bytes(versions, n).len()),
            ),
        decreases n,
    {
        let bytes = self.spec_ids_bytes(versions, n) + rest;
        if n == 0 {
            assert(self.id_numbers(versions, 0) =~= Seq::<u64>::empty());
        } else {
            let t = versions[n - 1];
            let before = self.spec_ids_bytes(versions, (n - 1) as nat);
            let e1 = spec_encode(self.id_at(t).agent as nat);
            let e2 = spec_encode(self.id_at(t).seq as nat);
            assert(bytes =~= before + (e1 + e2 + rest));
            self.lemma_ids_read(versions, (n - 1) as nat, e1 + e2 + rest);
            assert(bytes.skip(before.len() as int) =~= e1 + (e2 + rest));
            lemma_numbers_more(bytes, 2 * (n - 1) as nat, self.id_at(t).agent as u64, e2 + rest);
            assert(bytes.skip((before.len() + e1.len()) as int) =~= e2 + rest);
            lemma_numbers_more(bytes, (2 * (n - 1) + 1) as nat, self.id_at(t).seq as u64, rest);
            assert(self.id_numbers(versions, (n - 1) as nat).push(
                self.id_at(t).agent as u64,
            ).push(self.id_at(t).seq as u64) =~= self.id_numbers(versions, n));
            assert(self.spec_ids_bytes(versions, n).len() == before.len() + e1.len() + e2.len());
        }
    }

    /// Parents that were written are read, among the versions before
    /// `t`, whatever follows them.
    #[verifier::rlimit(50)]
    pub proof fn lemma_parents_read(&self, parents: Seq<LV>, t: LV, rest: Seq<u8>)
        requires
            self.wf(),
            t <= self.spec_len(),
            is_sorted_strict(parents),
            forall|k: int| 0 <= k < parents.len() ==> #[trigger] parents[k] < t,
        ensures
            parents_in(
                self.ids().take(t as int),
                self.spec_ids_bytes(parents, parents.len()) + rest,
                parents.len(),
            ) == Some((parents, self.spec_ids_bytes(parents, parents.len()).len())),
    {
        let n = parents.len();
        let ids = self.ids().take(t as int);
        let bytes = self.spec_ids_bytes(parents, n) + rest;
        self.lemma_ids_read(parents, n, rest);
        let vs = self.id_numbers(parents, n);
        assert forall|k: int| 0 <= k < n implies #[trigger] pair_held(ids, vs, k) && version_held(
            ids,
            vs[2 * k],
            vs[2 * k + 1],
        ) == parents[k] by {
            let p = parents[k];
            assert(vs[2 * k] == self.id_at(p).agent);
            assert(vs[2 * k + 1] == self.id_at(p).seq);
            assert(ids[p as int] == self.id_at(p));
            assert(id_held(ids, vs[2 * k], vs[2 * k + 1]));
            let w = choose|w: int|
                0 <= w < ids.len() && (#[trigger] ids[w]).agent == vs[2 * k] && ids[w].seq == vs[2
                    * k + 1];
            assert(ids[w] == self.id_at(w as usize));
            self.lemma_ids(p, w as usize);
        }
        assert forall|k: int| 0 <= k < n implies versions_held(ids, vs, n)[k] == parents[k] by {
            assert(pair_held(ids, vs, k));
        }
        assert(versions_held(ids, vs, n) =~= parents);
    }
}

/// A list of versions in strictly ascending order below `bound` has no
/// more versions than `bound`.
pub proof fn lemma_sorted_len(s: Seq<LV>, bound: nat)
    requires
        is_sorted_strict(s),
        forall|k: int| 0 <= k < s.len() ==> #[trigger] s[k] < bound,
    ensures
        s.len() <= bound,
{
    if s.len() > 0 {
        lemma_sorted_above(s, s.len() - 1);
    }
}

proof fn lemma_sorted_above(s: Seq<LV>, k: int)
    requires
        is_sorted_strict(s),
        0 <= k < s.len(),
    ensures
        s[k] >= k,
    decreases k,
{
    if k > 0 {
        lemma_sorted_above(s, k - 1);
        assert(s[k - 1] < s[k]);
    }
}

impl OpLog {
    /// Whether some version before `t` is the version number `s` of
    /// `agent`.
    pub open spec fn given_before(&self, t: nat, agent: AgentId, s: int) -> bool {
        exists|u: LV|
            u < t && u < self.spec_len() && #[trigger] self.id_at(u) == (CRDTId {
                agent,
                seq: s as usize,
            })
    }

    /// `nexts` holds for each agent the number that it gives out next
    /// after the versions before `t`: above the number of each of these,
    /// and just above the number of one of them where it is not 0.
    pub open spec fn next_at(&self, t: nat, nexts: Seq<usize>) -> bool {
        &&& nexts.len() == self.client_data@.len()
        &&& forall|u: LV|
            u < t && u < self.spec_len() ==> (#[trigger] self.id_at(u)).seq
                < nexts[self.id_at(u).agent as int]
        &&& forall|a: AgentId|
            a < nexts.len() ==> #[trigger] nexts[a as int] == 0 || self.given_before(
                t,
                a,
                nexts[a as int] - 1,
            )
    }

    /// The number of a version is the number that its agent gives out
    /// next after the versions before it.
    pub proof fn lemma_next_is_seq(&self, t: LV, nexts: Seq<usize>)
        requires
            self.wf(),
            t < self.spec_len(),
            self.next_at(t as nat, nexts),
        ensures
            self.id_at(t).agent < nexts.len(),
            nexts[self.id_at(t).agent as int] == self.id_at(t).seq,
    {
        let id = self.id_at(t);
        let a = id.agent;
        let s = id.seq;
        self.lemma_ids(t, t);
        let n = nexts[a as int];
        if n > s {
            assert(self.given_before(t as nat, a, n - 1));
            let u = choose|u: LV|
                u < t && u < self.spec_len() && #[trigger] self.id_at(u) == (CRDTId {
                    agent: a,
                    seq: (n - 1) as usize,
                });
            self.lemma_ids(u, t);
            if n - 1 > s {
                self.lemma_order(t, u);
            }
        }
        if n < s {
            let before = (s - 1) as usize;
            assert(self.gave_out(a, before));
            let u = choose|u: LV|
                u < self.spec_len() && #[trigger] self.id_at(u) == (CRDTId {
                    agent: a,
                    seq: before,
                });
            self.lemma_order(u, t);
            assert(self.id_at(u).seq < nexts[self.id_at(u).agent as int]);
        }
    }

    /// After a piece of history, its agent gives out next the number
    /// behind those of the piece.
    #[verifier::rlimit(50)]
    pub proof fn lemma_next_step(&self, t: LV, nexts: Seq<usize>)
        requires
            self.wf(),
            t < self.spec_len(),
            self.next_at(t as nat, nexts),
            self.id_at(t).seq + (self.spec_piece_end(t) - t) <= usize::MAX,
        ensures
            self.next_at(
                self.spec_piece_end(t) as nat,
                nexts.update(
                    self.id_at(t).agent as int,
                    (self.id_at(t).seq + (self.spec_piece_end(t) - t)) as usize,
                ),
            ),
    {
        let e = self.spec_piece_end(t);
        let id = self.id_at(t);
        let a = id.agent;
        let s = id.seq;
        self.lemma_piece(t);
        self.lemma_next_is_seq(t, nexts);
        let later = nexts.update(a as int, (s + (e - t)) as usize);
        assert forall|u: LV| u < e && u < self.spec_len() implies (#[trigger] self.id_at(u)).seq
            < later[self.id_at(u).agent as int] by {
            self.lemma_ids(u, u);
            if u < t {
                assert(self.id_at(u).seq < nexts[self.id_at(u).agent as int]);
            } else {
                assert(self.id_at(u) == (CRDTId { agent: a, seq: (s + (u - t)) as usize }));
            }
        }
        assert forall|b: AgentId| b < later.len() implies #[trigger] later[b as int] == 0
            || self.given_before(e as nat, b, later[b as int] - 1) by {
            if b == a {
                let u = (e - 1) as usize;
                assert(self.id_at(u) == (CRDTId { agent: a, seq: (s + (u - t)) as usize }));
                assert(self.given_before(e as nat, b, later[b as int] - 1));
            } else {
                assert(later[b as int] == nexts[b as int]);
                if nexts[b as int] != 0 {
                    assert(self.given_before(t as nat, b, nexts[b as int] - 1));
                    let u = choose|u: LV|
                        u < t && u < self.spec_len() && #[trigger] self.id_at(u) == (CRDTId {
                            agent: b,
                            seq: (nexts[b as int] - 1) as usize,
                        });
                    assert(u < e);
                    assert(self.given_before(e as nat, b, later[b as int] - 1));
                }
            }
        }
    }

    /// After all versions, the agents give out next what the log says.
    pub proof fn lemma_next_end(&self, nexts: Seq<usize>)
        requires
            self.wf(),
            self.client_data@.len() <= usize::MAX,
            self.next_at(self.spec_len(), nexts),
        ensures
            nexts == self.nexts(),
    {
        assert forall|a: int| 0 <= a < nexts.len() implies nexts[a] == self.nexts()[a] by {
            let b = a as usize;
            let n = nexts[a];
            let next = self.client_data@[a].next_seq;
            if n > next {
                assert(nexts[b as int] == 0 || self.given_before(
                    self.spec_len(),
                    b,
                    nexts[b as int] - 1,
                ));
                assert(self.given_before(self.spec_len(), b, n - 1));
                let u = choose|u: LV|
                    u < self.spec_len() && u < self.spec_len() && #[trigger] self.id_at(u) == (
                    CRDTId { agent: b, seq: (n - 1) as usize });
                self.lemma_ids(u, u);
            }
            if n < next {
                assert(self.gave_out(b, (next - 1) as usize));
                let u = choose|u: LV|
                    u < self.spec_len() && #[trigger] self.id_at(u) == (CRDTId {
                        agent: b,
                        seq: (next - 1) as usize,
                    });
                assert(self.id_at(u).seq < nexts[self.id_at(u).agent as int]);
            }
        }
        assert(nexts =~= self.nexts());
    }

    /// The four numbers at the head of a piece of history that was
    /// written are read: the agent, its number, the length and the number
    /// of parents. Behind them stand the parents and the later pieces.
    #[verifier::rlimit(50)]
    pub proof fn lemma_piece_head(&self, t: LV)
        requires
            t < self.spec_len(),
            t < self.spec_piece_end(t) <= self.spec_len(),
            self.parents_at(t).len() <= usize::MAX,
        ensures
            spec_numbers(self.spec_graph_bytes(t), 4).is_some(),
            spec_numbers(self.spec_graph_bytes(t), 4).unwrap().0 == seq![
                self.id_at(t).agent as u64,
                self.id_at(t).seq as u64,
                (self.spec_piece_end(t) - t) as u64,
                self.parents_at(t).len() as u64,
            ],
            spec_numbers(self.spec_graph_bytes(t), 4).unwrap().1 <= self.spec_graph_bytes(t).len(),
            self.spec_graph_bytes(t).skip(spec_numbers(self.spec_graph_bytes(t), 4).unwrap().1 as int)
                == self.spec_ids_bytes(self.parents_at(t), self.parents_at(t).len())
                + self.spec_graph_bytes(self.spec_piece_end(t)),
    {
        let e = self.spec_piece_end(t);
        let id = self.id_at(t);
        let parents = self.parents_at(t);
        let tail = self.spec_graph_bytes(e);
        let bytes = self.spec_graph_bytes(t);
        let e1 = spec_encode(id.agent as nat);
        let e2 = spec_encode(id.seq as nat);
        let e3 = spec_encode((e - t) as nat);
        let e4 = spec_encode(parents.len());
        let e5 = self.spec_ids_bytes(parents, parents.len());
        assert(bytes =~= e1 + (e2 + e3 + e4 + e5 + tail));
        assert(spec_numbers(bytes, 0) == Some((Seq::<u64>::empty(), 0nat)));
        assert(bytes.skip(0) =~= bytes);
        lemma_numbers_more(bytes, 0, id.agent as u64, e2 + e3 + e4 + e5 + tail);
        assert(bytes.skip(e1.len() as int) =~= e2 + (e3 + e4 + e5 + tail));
        lemma_numbers_more(bytes, 1, id.seq as u64, e3 + e4 + e5 + tail);
        assert(bytes.skip((e1.len() + e2.len()) as int) =~= e3 + (e4 + e5 + tail));
        lemma_numbers_more(bytes, 2, (e - t) as u64, e4 + e5 + tail);
        assert(bytes.skip((e1.len() + e2.len() + e3.len()) as int) =~= e4 + (e5 + tail));
        lemma_numbers_more(bytes, 3, parents.len() as u64, e5 + tail);
        let used = (e1.len() + e2.len() + e3.len() + e4.len()) as nat;
        assert(bytes.skip(used as int) =~= e5 + tail);
        assert(spec_numbers(bytes, 4).unwrap().0 =~= seq![
            id.agent as u64,
            id.seq as u64,
            (e - t) as u64,
            parents.len() as u64,
        ]);
    }

    /// The names and the parents of the versions up to the end of a piece
    /// are those up to its start, and those of the piece.
    pub proof fn lemma_piece_state(&self, t: LV)
        requires
            self.wf(),
            t < self.spec_len(),
        ensures
            self.ids().take(t as int) + run_ids(
                self.id_at(t).agent,
                self.id_at(t).seq,
                (self.spec_piece_end(t) - t) as nat,
            ) == self.ids().take(self.spec_piece_end(t) as int),
            self.parents_from(0).take(t as int) + run_parents_list(
                self.parents_at(t),
                t as nat,
                (self.spec_piece_end(t) - t) as nat,
            ) == self.parents_from(0).take(self.spec_piece_end(t) as int),
    {
        self.lemma_piece(t);
        let e = self.spec_piece_end(t);
        let id = self.id_at(t);
        let a = self.ids().take(t as int) + run_ids(id.agent, id.seq, (e - t) as nat);
        let b = self.ids().take(e as int);
        assert(a.len() == b.len());
        assert forall|j: int| 0 <= j < a.len() implies a[j] == b[j] by {
            if j >= t {
                assert(self.id_at(j as usize) == (CRDTId {
                    agent: id.agent,
                    seq: (id.seq + (j - t)) as usize,
                }));
            }
        }
        assert(a =~= b);
        let p = self.parents_from(0).take(t as int) + run_parents_list(
            self.parents_at(t),
            t as nat,
            (e - t) as nat,
        );
        let q = self.parents_from(0).take(e as int);
        assert(p.len() == q.len());
        assert forall|j: int| 0 <= j < p.len() implies p[j] == q[j] by {
            if j > t {
                assert(self.history.parents_of(j as usize) == seq![(j - 1) as usize]);
            }
        }
        assert(p =~= q);
    }

    /// The pieces of history that were written from version `t` on are
    /// read, and make of the versions before `t` the whole log.
    #[verifier::rlimit(100)]
    pub proof fn lemma_pieces_read(&self, t: LV, nexts: Seq<usize>)
        requires
            self.wf(),
            self.encodable(),
            self.client_data@.len() <= usize::MAX,
            t <= self.spec_len(),
            self.next_at(t as nat, nexts),
        ensures
            spec_pieces(
                self.ids().take(t as int),
                nexts,
                self.parents_from(0).take(t as int),
                self.spec_graph_bytes(t),
                self.spec_len(),
            ) == Some((self.ids(), self.nexts(), self.parents_from(0))),
        decreases self.spec_len() - t,
    {
        let total = self.spec_len();
        let ids = self.ids().take(t as int);
        let acc = self.parents_from(0).take(t as int);
        if t >= total {
            assert(ids =~= self.ids());
            assert(acc =~= self.parents_from(0));
            self.lemma_next_end(nexts);
        } else {
            self.lemma_piece(t);
            self.lemma_next_is_seq(t, nexts);
            self.lemma_seq_le(t);
            let e = self.spec_piece_end(t);
            let id = self.id_at(t);
            let parents = self.parents_at(t);
            lemma_sorted_len(parents, t as nat);
            self.lemma_piece_head(t);
            let bytes = self.spec_graph_bytes(t);
            let tail = self.spec_graph_bytes(e);
            let used = spec_numbers(bytes, 4).unwrap().1;
            let hd = spec_numbers(bytes, 4).unwrap().0;
            assert(hd[0] == id.agent && hd[1] == id.seq && hd[2] == e - t && hd[3]
                == parents.len());
            self.lemma_parents_read(parents, t, tail);
            let more = self.spec_ids_bytes(parents, parents.len()).len();
            let later = nexts.update(id.agent as int, (id.seq + (e - t)) as usize);
            self.lemma_next_step(t, nexts);
            self.lemma_piece_state(t);
            assert(bytes.skip((used + more) as int) =~= tail) by {
                assert(bytes.skip(used as int).skip(more as int) =~= tail);
            }
            self.lemma_pieces_read(e, later);
        }
    }

    /// After no version, every agent gives out 0 next.
    pub proof fn lemma_next_start(&self)
        ensures
            self.next_at(0, Seq::new(self.client_data@.len(), |a: int| 0usize)),
    {
    }

    /// The history and the operations that were written are read.
    #[verifier::rlimit(50)]
    pub proof fn law_history_is_read(&self)
        requires
            self.wf(),
            self.encodable(),
            self.client_data@.len() <= usize::MAX,
            self.ins_content@.len() <= usize::MAX,
            self.operations.0@.len() <= usize::MAX,
        ensures
            spec_history_in(
                Seq::<CRDTId>::empty(),
                Seq::new(self.client_data@.len(), |a: int| 0usize),
                self.ins_content@.len() as usize,
                self.spec_graph_payload(),
                self.spec_ops_payload(),
            ) == Some((self.ids(), self.nexts(), self.parents_from(0), self.op_runs())),
    {
        let total = self.spec_len();
        let graph = self.spec_graph_payload();
        let body = self.spec_graph_bytes(0);
        law_varint_round_trip(total as u64, body);
        assert(graph.skip(spec_encode(total).len() as int) =~= body);
        self.law_ops_are_read();
        self.lemma_units_are_keys(self.operations.0@.len());
        self.lemma_next_start();
        assert(self.ids().take(0) =~= Seq::<CRDTId>::empty());
        assert(self.parents_from(0).take(0) =~= Seq::<Seq<LV>>::empty());
        self.lemma_pieces_read(0, Seq::new(self.client_data@.len(), |a: int| 0usize));
        assert(self.op_runs().len() == self.operations.0@.len());
    }
}

/// A chunk that was written at `pos` is found there, whatever follows it.
pub proof fn lemma_chunk_at(
    bytes: Seq<u8>,
    pos: int,
    kind: ListChunkType,
    data: Seq<u8>,
    rest: Seq<u8>,
)
    requires
        0 <= pos <= bytes.len() <= usize::MAX,
        bytes.subrange(pos, bytes.len() as int) == spec_chunk(kind, data) + rest,
    ensures
        spec_chunk_at(bytes, pos, kind) == Some(
            (
                pos + spec_chunk_header(kind, data.len()).len(),
                pos + spec_chunk(kind, data).len(),
            ),
        ),
        bytes.subrange(
            pos + spec_chunk_header(kind, data.len()).len(),
            pos + spec_chunk(kind, data).len(),
        ) == data,
        bytes.subrange(pos + spec_chunk(kind, data).len(), bytes.len() as int) == rest,
{
    let part = bytes.subrange(pos, bytes.len() as int);
    law_chunk_round_trip(kind, data, rest);
    let hdr = spec_chunk_header(kind, data.len()).len() as int;
    let all = spec_chunk(kind, data).len() as int;
    assert(bytes.subrange(pos + hdr, pos + all) =~= part.subrange(hdr, all));
    assert(bytes.subrange(pos + all, bytes.len() as int) =~= rest) by {
        assert(part.skip(all) =~= rest);
    }
}

/// The four bytes that hold a number, the lowest first, hold it.
pub proof fn lemma_stored_u32(bytes: Seq<u8>, at: int, val: u32)
    requires
        0 <= at,
        at + 4 <= bytes.len(),
        bytes.subrange(at, at + 4) == spec_u32_le(val),
    ensures
        spec_stored_u32(bytes, at) == val,
{
    let four = bytes.subrange(at, at + 4);
    assert(four[0] == bytes[at] && four[1] == bytes[at + 1] && four[2] == bytes[at + 2] && four[3]
        == bytes[at + 3]);
    let b0 = (val % 256) as u8;
    let b1 = (val / 256 % 256) as u8;
    let b2 = (val / 65536 % 256) as u8;
    let b3 = (val / 16777216) as u8;
    assert(spec_u32_le(val)[0] == b0 && spec_u32_le(val)[1] == b1 && spec_u32_le(val)[2] == b2
        && spec_u32_le(val)[3] == b3);
    let v = val as int;
    assert(b0 == v % 256 && b1 == v / 256 % 256 && b2 == v / 65536 % 256 && b3 == v / 16777216);
    assert(v == (v / 256) * 256 + v % 256);
    assert(v / 256 == (v / 65536) * 256 + v / 256 % 256);
    assert(v / 65536 == (v / 16777216) * 256 + v / 65536 % 256);
}

impl OpLog {
    /// The parts of a file that was written are found in it.
    #[verifier::rlimit(100)]
    pub proof fn law_file_is_found(&self)
        requires
            self.spec_snapshot().len() <= usize::MAX,
        ensures
            spec_file(self.spec_snapshot()) == Some(
                (
                    self.spec_agents_payload(),
                    self.spec_graph_payload(),
                    self.spec_ops_payload(),
                    self.spec_content_payload(),
                ),
            ),
    {
        let bytes = self.spec_snapshot();
        let body = self.spec_body();
        let a = self.spec_agents_payload();
        let g = self.spec_graph_payload();
        let o = self.spec_ops_payload();
        let c = self.spec_content_payload();
        let crc = spec_u32_le(spec_checksum(body));
        let c1 = spec_chunk(ListChunkType::AgentNames, a);
        let c2 = spec_chunk(ListChunkType::CausalGraph, g);
        let c3 = spec_chunk(ListChunkType::Operations, o);
        let c4 = spec_chunk(ListChunkType::Content, c);
        let c5 = spec_chunk(ListChunkType::Crc, crc);
        assert(bytes =~= spec_magic() + c1 + c2 + c3 + c4 + c5);
        assert(spec_magic().len() == 8);
        assert(bytes.subrange(0, 8) =~= spec_magic());
        assert(has_magic(bytes));
        assert(bytes.subrange(8, bytes.len() as int) =~= c1 + (c2 + c3 + c4 + c5));
        lemma_chunk_at(bytes, 8, ListChunkType::AgentNames, a, c2 + c3 + c4 + c5);
        let at2 = 8 + c1.len();
        assert(bytes.subrange(at2 as int, bytes.len() as int) =~= c2 + (c3 + c4 + c5));
        lemma_chunk_at(bytes, at2 as int, ListChunkType::CausalGraph, g, c3 + c4 + c5);
        let at3 = at2 + c2.len();
        assert(bytes.subrange(at3 as int, bytes.len() as int) =~= c3 + (c4 + c5));
        lemma_chunk_at(bytes, at3 as int, ListChunkType::Operations, o, c4 + c5);
        let at4 = at3 + c3.len();
        assert(bytes.subrange(at4 as int, bytes.len() as int) =~= c4 + c5);
        lemma_chunk_at(bytes, at4 as int, ListChunkType::Content, c, c5);
        let at5 = at4 + c4.len();
        assert(bytes.subrange(at5 as int, bytes.len() as int) =~= c5 + Seq::<u8>::empty());
        lemma_chunk_at(bytes, at5 as int, ListChunkType::Crc, crc, Seq::<u8>::empty());
        let k0 = at5 + spec_chunk_header(ListChunkType::Crc, 4).len();
        assert(crc.len() == 4);
        assert(bytes.subrange(0, at5 as int) =~= body);
        lemma_stored_u32(bytes, k0 as int, spec_checksum(body));
    }

    /// The tables of a log hold no more than the machine can count.
    pub proof fn lemma_table_sizes(&self)
        ensures
            self.client_data@.len() <= usize::MAX,
            self.ins_content@.len() <= usize::MAX,
            self.operations.0@.len() <= usize::MAX,
    {
        assert(self.client_data.len() == self.client_data@.len());
        assert(self.ins_content.len() == self.ins_content@.len());
        assert(self.operations.0.len() == self.operations.0@.len());
    }

    /// What a log holds, as a file holds it: the names of its agents, the
    /// codes of its characters, and its history.
    pub open spec fn as_file(&self) -> (
        Seq<Seq<char>>,
        Seq<u64>,
        (Seq<CRDTId>, Seq<usize>, Seq<Seq<LV>>, Seq<OpSpan>),
    ) {
        (
            self.names(),
            self.content_codes(self.ins_content@.len()),
            (self.ids(), self.nexts(), self.parents_from(0), self.op_runs()),
        )
    }

    /// A log holds itself as a file.
    pub proof fn lemma_holds_itself(&self)
        requires
            self.wf(),
        ensures
            self.holds_file(self.as_file()),
    {
        assert forall|t: LV| t < self.spec_len() implies #[trigger] self.op_at(t) == flat_unit(
            self.op_runs(),
            t as nat,
        ) by {
            self.lemma_flat_is_op(t);
        }
    }

    /// What is written is read: in the file that `encode` writes for a
    /// log, `spec_log` finds what the log holds. So `decode` reads every
    /// file that `encode` has written, and gives a log that holds the
    /// same.
    pub proof fn law_snapshot_is_read(&self)
        requires
            self.wf(),
            self.encodable(),
            self.spec_snapshot().len() <= usize::MAX,
        ensures
            spec_log(self.spec_snapshot()) == Some(self.as_file()),
            self.holds_file(self.as_file()),
    {
        self.lemma_table_sizes();
        self.law_file_is_found();
        assert(self.spec_agents_payload().len() <= usize::MAX) by {
            let bytes = self.spec_snapshot();
            let a = self.spec_agents_payload();
            assert(spec_chunk(ListChunkType::AgentNames, a).len() >= a.len());
            assert(self.spec_body().len() >= spec_chunk(ListChunkType::AgentNames, a).len());
        }
        self.law_names_are_read();
        self.law_content_is_read();
        self.law_history_is_read();
        self.lemma_holds_itself();
        assert(self.names().len() == self.client_data@.len());
        assert(self.content_codes(self.ins_content@.len()).len() == self.ins_content@.len());
    }

    /// `other` has the agents, the versions and the content of `self`,
    /// each under the same number: the same names, names of versions,
    /// operations with their characters, and parents.
    pub open spec fn same_under_numbers(&self, other: &OpLog) -> bool {
        &&& other.client_data@.len() == self.client_data@.len()
        &&& forall|a: AgentId|
            a < self.client_data@.len() ==> #[trigger] other.name_of(a) == self.name_of(a)
                && other.client_data@[a as int].next_seq == self.client_data@[a as int].next_seq
        &&& other.spec_len() == self.spec_len()
        &&& forall|t: LV|
            t < self.spec_len() ==> #[trigger] other.id_at(t) == self.id_at(t) && other.op_value(t)
                == self.op_value(t) && other.parents_at(t) == self.parents_at(t)
    }

    /// A log that holds what `self` holds as a file has all of `self`
    /// under the same numbers.
    #[verifier::rlimit(50)]
    pub proof fn lemma_file_gives_numbers(&self, other: &OpLog)
        requires
            self.wf(),
            other.wf(),
            other.holds_file(self.as_file()),
        ensures
            self.same_under_numbers(other),
            other.same_under_numbers(self),
    {
        let f = self.as_file();
        self.lemma_table_sizes();
        assert(other.ids().len() == self.ids().len());
        assert forall|a: AgentId| a < self.client_data@.len() implies #[trigger] other.name_of(a)
            == self.name_of(a) && other.client_data@[a as int].next_seq
            == self.client_data@[a as int].next_seq by {
            assert(other.client_data@[a as int].name@ == f.0[a as int]);
            assert(other.nexts()[a as int] == self.nexts()[a as int]);
        }
        assert forall|t: LV| t < self.spec_len() implies #[trigger] other.id_at(t) == self.id_at(t)
            && other.op_value(t) == self.op_value(t) && other.parents_at(t) == self.parents_at(
            t,
        ) by {
            assert(other.ids()[t as int] == self.ids()[t as int]);
            assert(other.id_at(t) == self.id_at(t));
            assert(other.parents_from(0)[t as int] == self.parents_from(0)[t as int]);
            assert(other.parents_at(t) == self.parents_at(t));
            self.lemma_flat_is_op(t);
            assert(other.op_at(t) == flat_unit(f.2.3, t as nat));
            assert(other.op_at(t) == self.op_at(t));
            let u = self.op_at(t);
            if u.content_known {
                self.lemma_content(t);
                let i = u.content as int;
                let c1 = other.ins_content@[i];
                let c2 = self.ins_content@[i];
                assert(f.1[i] == (c2 as u32) as u64);
                assert((c1 as u32) == f.1[i]);
                assert(c1 as u32 == c2 as u32);
                vstd::utf8::char_u32_cast(c1, c1 as u32);
                vstd::utf8::char_u32_cast(c2, c1 as u32);
                assert(c1 == c2);
            }
            assert(other.op_value(t) == self.op_value(t));
        }
        assert forall|a: AgentId| a < other.client_data@.len() implies #[trigger] self.name_of(a)
            == other.name_of(a) && self.client_data@[a as int].next_seq
            == other.client_data@[a as int].next_seq by {
            assert(other.name_of(a) == self.name_of(a));
        }
        assert forall|t: LV| t < other.spec_len() implies #[trigger] self.id_at(t) == other.id_at(t)
            && self.op_value(t) == other.op_value(t) && self.parents_at(t) == other.parents_at(
            t,
        ) by {
            assert(other.id_at(t) == self.id_at(t));
        }
    }

    /// A log holds every version of a log that has all of it under the
    /// same numbers.
    pub proof fn lemma_numbers_give_half(&self, other: &OpLog)
        requires
            self.wf(),
            other.wf(),
            self.same_under_numbers(other),
        ensures
            self.half_eq(other),
    {
        assert forall|a: AgentId| a < self.client_data@.len() implies #[trigger] self.agent_matches(
            other,
            a,
        ) by {
            assert(other.name_of(a) == self.name_of(a));
            assert(other.has_agent(self.name_of(a)));
            assert forall|b: AgentId|
                b < other.client_data@.len() && #[trigger] other.name_of(b) == self.name_of(
                    a,
                ) implies other.client_data@[b as int].next_seq
                == self.client_data@[a as int].next_seq by {
                other.lemma_name_unique(a, b);
            }
        }
        assert forall|t: LV| t < self.spec_len() implies #[trigger] self.version_matches(other, t) by {
            self.lemma_ids(t, t);
            assert(other.id_at(t) == self.id_at(t));
            assert(other.name_of(self.id_at(t).agent) == self.name_of(self.id_at(t).agent));
            assert(self.corresponds(other, t, t));
            let ps = self.parents_at(t);
            crate::causalgraph::laws::law_history_by_parents(&self.history, t, t);
            assert forall|i: int| 0 <= i < ps.len() implies self.corresponds(other, ps[i], ps[i]) by {
                let p = ps[i];
                self.lemma_ids(p, p);
                assert(other.id_at(p) == self.id_at(p));
                assert(other.name_of(self.id_at(p).agent) == self.name_of(self.id_at(p).agent));
            }
            assert forall|i: int| 0 <= i < ps.len() implies #[trigger] self.has_partner(
                other,
                ps[i],
                ps,
            ) by {
                assert(self.corresponds(other, ps[i], ps[i]));
            }
            assert forall|j: int| 0 <= j < ps.len() implies #[trigger] self.has_partner_rev(
                other,
                ps,
                ps[j],
            ) by {
                assert(self.corresponds(other, ps[j], ps[j]));
            }
            assert(self.same_versions(other, ps, other.parents_at(t)));
        }
    }

    /// A log that holds what `self` holds as a file is equal to `self`.
    /// So the log that `decode` reads from what `encode` wrote is equal
    /// to the log that was written.
    pub proof fn law_written_and_read_are_equal(&self, other: &OpLog)
        requires
            self.wf(),
            other.wf(),
            other.holds_file(self.as_file()),
        ensures
            self.spec_eq(other),
    {
        self.lemma_file_gives_numbers(other);
        self.lemma_numbers_give_half(other);
        other.lemma_numbers_give_half(self);
        assert forall|u: LV| u < self.history.spec_len() implies #[trigger] self.history.parents_of(
            u,
        ) == other.history.parents_of(u) by {
            assert(other.id_at(u) == self.id_at(u));
            assert(other.parents_at(u) == self.parents_at(u));
        }
        crate::causalgraph::laws::law_same_parents_same_frontier(&self.history, &other.history);
    }

    /// Logs that have each other's versions under the same numbers agree
    /// with the same logs.
    #[verifier::rlimit(50)]
    pub proof fn lemma_agrees_same(&self, other: &OpLog, log: &OpLog)
        requires
            self.wf(),
            other.wf(),
            self.same_under_numbers(other),
            self.agrees_with(log),
        ensures
            other.agrees_with(log),
    {
        assert forall|t: LV, t2: LV| #[trigger]
            other.corresponds(log, t, t2) implies other.version_matches(log, t) by {
            other.lemma_ids(t, t);
            assert(other.id_at(t) == self.id_at(t));
            assert(other.name_of(self.id_at(t).agent) == self.name_of(self.id_at(t).agent));
            assert(self.corresponds(log, t, t2));
            assert(self.version_matches(log, t));
            let w = choose|w: LV| #[trigger]
                self.corresponds(log, t, w) && self.op_value(t) == log.op_value(w)
                    && self.same_versions(log, self.parents_at(t), log.parents_at(w));
            let ps = self.parents_at(t);
            let qs = log.parents_at(w);
            assert(other.parents_at(t) == ps);
            crate::causalgraph::laws::law_history_by_parents(&self.history, t, t);
            assert forall|p: LV, q: LV| p < t && self.corresponds(log, p, q) implies other.corresponds(
                log,
                p,
                q,
            ) by {
                self.lemma_ids(p, p);
                assert(other.id_at(p) == self.id_at(p));
                assert(other.name_of(self.id_at(p).agent) == self.name_of(self.id_at(p).agent));
            }
            assert forall|i: int| 0 <= i < ps.len() implies #[trigger] other.has_partner(
                log,
                ps[i],
                qs,
            ) by {
                assert(self.has_partner(log, ps[i], qs));
                let j = choose|j: int|
                    0 <= j < qs.len() && self.corresponds(log, ps[i], #[trigger] qs[j]);
                assert(other.corresponds(log, ps[i], qs[j]));
            }
            assert forall|j: int| 0 <= j < qs.len() implies #[trigger] other.has_partner_rev(
                log,
                ps,
                qs[j],
            ) by {
                assert(self.has_partner_rev(log, ps, qs[j]));
                let i = choose|i: int|
                    0 <= i < ps.len() && self.corresponds(log, #[trigger] ps[i], qs[j]);
                assert(other.corresponds(log, ps[i], qs[j]));
            }
            assert(other.corresponds(log, t, w) && other.op_value(t) == log.op_value(w)
                && other.same_versions(log, other.parents_at(t), log.parents_at(w)));
        }
    }
}

} // verus!
