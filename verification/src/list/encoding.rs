//! The file format of an operation log: a magic number, then chunks with
//! the names of the agents, the causal graph, the operations, the inserted
//! characters, and a checksum.

use crate::encoding::encode_tools::{
    push_bytes, push_leb_chunk, push_leb_str, push_leb_u32, push_leb_usize, push_u32_le,
    spec_chunk, spec_u32_le, ListChunkType,
};
use crate::encoding::varint::{
    mix_bit_usize, num_encode_zigzag_i64, spec_encode, spec_mix_bit, spec_zigzag,
};
use crate::encoding::encode_tools::{
    push_leb_u64, read_leb_chunk, slice_from, spec_read_chunk, ChunkError,
};
use crate::encoding::varint::{
    decode_u64, lemma_decode_len, num_decode_u64_with_extra_bit, num_decode_zigzag_i64,
    spec_decode, spec_unzigzag, ParseError,
};
use crate::frontier::{frontier_is_sorted, is_sorted_strict};
use crate::frontier::LV;
use crate::list::operation::{InsDelTag, OpSpan};
use crate::list::history::{
    count_units, flat_unit, new_count, spec_history_in, spec_pieces, spec_pieces_more,
    units_before,
};
use crate::list::oplog::{CRDTId, OpLog};
use crate::rle::{run_end, HasLength, RleKeyed};
use vstd::prelude::*;
use vstd::string::StringSliceAdditionalSpecFns;
use vstd::utf8::{decode_utf8, encode_utf8, valid_utf8};

verus! {

/// The eight bytes that every file starts with.
pub open spec fn spec_magic() -> Seq<u8> {
    seq![0x44u8, 0x4d, 0x4e, 0x44, 0x54, 0x59, 0x50, 0x53]
}

/// Appends the magic number.
pub fn push_magic(into: &mut Vec<u8>)
    ensures
        final(into)@ == old(into)@ + spec_magic(),
{
    into.push(0x44);
    into.push(0x4d);
    into.push(0x4e);
    into.push(0x44);
    into.push(0x54);
    into.push(0x59);
    into.push(0x50);
    into.push(0x53);
    assert(into@ =~= old(into)@ + spec_magic());
}

/// One step of the checksum: `crc` after the bits of `byte` have gone
/// through it, the lowest first.
pub open spec fn spec_crc_byte(crc: u32, byte: u8) -> u32 {
    spec_crc_bits(crc ^ (byte as u32), 8)
}

/// `crc` shifted down by `n` bits, the polynomial mixed in for each bit
/// that was set.
pub open spec fn spec_crc_bits(crc: u32, n: nat) -> u32
    decreases n,
{
    if n == 0 {
        crc
    } else {
        let prev = spec_crc_bits(crc, (n - 1) as nat);
        if prev & 1 == 1 {
            (prev >> 1) ^ 0xedb8_8320u32
        } else {
            prev >> 1
        }
    }
}

/// The running checksum after `bytes`.
pub open spec fn spec_crc_run(bytes: Seq<u8>) -> u32
    decreases bytes.len(),
{
    if bytes.len() == 0 {
        0xffff_ffffu32
    } else {
        spec_crc_byte(spec_crc_run(bytes.drop_last()), bytes.last())
    }
}

/// The checksum of `bytes`: the cyclic redundancy check with the
/// polynomial `0xedb88320`.
pub open spec fn spec_checksum(bytes: Seq<u8>) -> u32 {
    spec_crc_run(bytes) ^ 0xffff_ffffu32
}

/// The checksum of `bytes`.
pub fn checksum(bytes: &[u8]) -> (crc: u32)
    ensures
        crc == spec_checksum(bytes@),
{
    let mut crc: u32 = 0xffff_ffff;
    let mut i: usize = 0;
    assert(bytes@.take(0) =~= Seq::<u8>::empty());
    while i < bytes.len()
        invariant
            0 <= i <= bytes@.len(),
            crc == spec_crc_run(bytes@.take(i as int)),
        decreases bytes@.len() - i,
    {
        let mut c: u32 = crc ^ (bytes[i] as u32);
        let ghost start = c;
        let mut k: usize = 0;
        while k < 8
            invariant
                0 <= k <= 8,
                c == spec_crc_bits(start, k as nat),
            decreases 8 - k,
        {
            if c & 1 == 1 {
                c = (c >> 1) ^ 0xedb8_8320u32;
            } else {
                c = c >> 1;
            }
            k += 1;
        }
        proof {
            assert(bytes@.take(i + 1).drop_last() =~= bytes@.take(i as int));
            assert(bytes@.take(i + 1).last() == bytes@[i as int]);
        }
        crc = c;
        i += 1;
    }
    proof {
        assert(bytes@.take(bytes@.len() as int) =~= bytes@);
    }
    crc ^ 0xffff_ffff
}

impl OpLog {
    /// The names of the first `n` agents: each as the number of its bytes
    /// and the bytes.
    pub open spec fn spec_names_bytes(&self, n: nat) -> Seq<u8>
        decreases n,
    {
        if n == 0 {
            Seq::<u8>::empty()
        } else {
            let name = encode_utf8(self.name_of((n - 1) as usize));
            self.spec_names_bytes((n - 1) as nat) + spec_encode(name.len()) + name
        }
    }

    /// What the chunk of agent names holds: the number of agents, then
    /// their names.
    pub open spec fn spec_agents_payload(&self) -> Seq<u8> {
        spec_encode(self.client_data@.len()) + self.spec_names_bytes(self.client_data@.len())
    }

    /// The first `n` inserted characters, each as its code point.
    pub open spec fn spec_chars_bytes(&self, n: nat) -> Seq<u8>
        decreases n,
    {
        if n == 0 {
            Seq::<u8>::empty()
        } else {
            self.spec_chars_bytes((n - 1) as nat) + spec_encode(
                (self.ins_content@[n - 1] as u32) as nat,
            )
        }
    }

    /// What the chunk of content holds: the number of characters, then
    /// the characters.
    pub open spec fn spec_content_payload(&self) -> Seq<u8> {
        spec_encode(self.ins_content@.len()) + self.spec_chars_bytes(self.ins_content@.len())
    }

    /// A run of operations in bytes: its length with three flags in its
    /// lowest bits (whether it deletes, whether it goes forwards, whether
    /// its characters are known); how far its position lies from that of
    /// the run before, as a signed number; and for known characters the
    /// index of the first.
    pub open spec fn spec_op_bytes(op: OpSpan, prev_start: usize) -> Seq<u8> {
        let len = op.end - op.start;
        let head = spec_mix_bit(
            spec_mix_bit(spec_mix_bit(len, op.content_known), op.fwd),
            op.tag == InsDelTag::Del,
        );
        spec_encode(head as nat) + spec_encode(spec_zigzag(op.start - prev_start) as nat) + if op.content_known {
            spec_encode(op.content_start as nat)
        } else {
            Seq::<u8>::empty()
        }
    }

    /// The position from which run `i` of the operations counts its own:
    /// that of the run before it, or 0.
    pub open spec fn spec_prev_start(&self, i: int) -> usize {
        if i == 0 {
            0
        } else {
            self.operations.0@[i - 1].1.start
        }
    }

    /// The first `n` runs of operations in bytes.
    pub open spec fn spec_ops_bytes(&self, n: nat) -> Seq<u8>
        decreases n,
    {
        if n == 0 {
            Seq::<u8>::empty()
        } else {
            self.spec_ops_bytes((n - 1) as nat) + Self::spec_op_bytes(
                self.operations.0@[n - 1].1,
                self.spec_prev_start(n - 1),
            )
        }
    }

    /// What the chunk of operations holds: the number of runs, then the
    /// runs.
    pub open spec fn spec_ops_payload(&self) -> Seq<u8> {
        spec_encode(self.operations.0@.len()) + self.spec_ops_bytes(self.operations.0@.len())
    }

    /// A version as replicas name it to each other, in bytes: the index of
    /// the agent and the number of the version.
    pub open spec fn spec_id_bytes(&self, t: LV) -> Seq<u8> {
        spec_encode(self.id_at(t).agent as nat) + spec_encode(self.id_at(t).seq as nat)
    }

    /// The first `n` of the given versions, each as `spec_id_bytes`.
    pub open spec fn spec_ids_bytes(&self, versions: Seq<LV>, n: nat) -> Seq<u8>
        decreases n,
    {
        if n == 0 || n > versions.len() {
            Seq::<u8>::empty()
        } else {
            self.spec_ids_bytes(versions, (n - 1) as nat) + self.spec_id_bytes(versions[n - 1])
        }
    }

    /// Where the piece of history that starts at version `t` ends: where
    /// the run of the graph ends, or the run of the agent if that is
    /// earlier.
    pub open spec fn spec_piece_end(&self, t: LV) -> usize {
        let a = choose|i: int| self.client_with_localtime.covers(i, t as nat);
        let agent_end = run_end(&self.client_with_localtime.0@[a]);
        let graph_end = self.history.entry_of(t).span.end;
        if agent_end < graph_end {
            agent_end as usize
        } else {
            graph_end
        }
    }

    /// The piece of history that starts at version `t`, in bytes: its
    /// first version as `spec_id_bytes`, its length, the number of its
    /// parents, and its parents.
    pub open spec fn spec_piece_bytes(&self, t: LV) -> Seq<u8> {
        let parents = self.parents_at(t);
        self.spec_id_bytes(t) + spec_encode((self.spec_piece_end(t) - t) as nat) + spec_encode(
            parents.len(),
        ) + self.spec_ids_bytes(parents, parents.len())
    }

    /// The pieces of history from version `t` on, in bytes.
    pub open spec fn spec_graph_bytes(&self, t: LV) -> Seq<u8>
        decreases self.spec_len() - t,
    {
        if t >= self.spec_len() || self.spec_piece_end(t) <= t || self.spec_piece_end(t)
            > self.spec_len() {
            Seq::<u8>::empty()
        } else {
            self.spec_piece_bytes(t) + self.spec_graph_bytes(self.spec_piece_end(t))
        }
    }

    /// What the chunk of the causal graph holds: the number of versions,
    /// then the pieces of history.
    pub open spec fn spec_graph_payload(&self) -> Seq<u8> {
        spec_encode(self.spec_len()) + self.spec_graph_bytes(0)
    }

    /// The file without its checksum.
    pub open spec fn spec_body(&self) -> Seq<u8> {
        spec_magic() + spec_chunk(ListChunkType::AgentNames, self.spec_agents_payload())
            + spec_chunk(ListChunkType::CausalGraph, self.spec_graph_payload()) + spec_chunk(
            ListChunkType::Operations,
            self.spec_ops_payload(),
        ) + spec_chunk(ListChunkType::Content, self.spec_content_payload())
    }

    /// The whole log as a file.
    pub open spec fn spec_snapshot(&self) -> Seq<u8> {
        self.spec_body() + spec_chunk(
            ListChunkType::Crc,
            spec_u32_le(spec_checksum(self.spec_body())),
        )
    }

    /// The chunk of agent names.
    fn encode_agents(&self) -> (out: Vec<u8>)
        ensures
            out@ == self.spec_agents_payload(),
    {
        let mut out: Vec<u8> = Vec::new();
        push_leb_usize(&mut out, self.client_data.len());
        let mut a: usize = 0;
        while a < self.client_data.len()
            invariant
                0 <= a <= self.client_data@.len(),
                out@ == spec_encode(self.client_data@.len()) + self.spec_names_bytes(a as nat),
            decreases self.client_data@.len() - a,
        {
            let ghost before = out@;
            push_leb_str(&mut out, self.client_data[a].name.as_str());
            proof {
                let name = encode_utf8(self.name_of(a));
                assert(out@ =~= spec_encode(self.client_data@.len()) + (self.spec_names_bytes(
                    a as nat,
                ) + spec_encode(name.len()) + name));
            }
            a += 1;
        }
        out
    }

    /// The chunk of content.
    fn encode_content(&self) -> (out: Vec<u8>)
        ensures
            out@ == self.spec_content_payload(),
    {
        let mut out: Vec<u8> = Vec::new();
        push_leb_usize(&mut out, self.ins_content.len());
        let mut i: usize = 0;
        while i < self.ins_content.len()
            invariant
                0 <= i <= self.ins_content@.len(),
                out@ == spec_encode(self.ins_content@.len()) + self.spec_chars_bytes(i as nat),
            decreases self.ins_content@.len() - i,
        {
            push_leb_u32(&mut out, self.ins_content[i] as u32);
            proof {
                assert(out@ =~= spec_encode(self.ins_content@.len()) + (self.spec_chars_bytes(
                    i as nat,
                ) + spec_encode((self.ins_content@[i as int] as u32) as nat)));
            }
            i += 1;
        }
        out
    }

    /// Most versions, and the greatest position, that a file holds: the
    /// lengths of runs are written with three flags in their lowest bits.
    pub open spec fn spec_size_limit() -> nat {
        (usize::MAX / 16) as nat
    }

    /// The log is small enough to be written out.
    pub open spec fn encodable(&self) -> bool {
        &&& self.spec_len() <= Self::spec_size_limit()
        &&& forall|i: int|
            0 <= i < self.operations.0@.len() ==> (#[trigger] self.operations.0@[i]).1.end
                <= Self::spec_size_limit()
    }

    /// Whether the log is small enough to be written out.
    pub fn is_encodable(&self) -> (b: bool)
        requires
            self.wf(),
        ensures
            b == self.encodable(),
    {
        let limit = usize::MAX / 16;
        if self.history.len() > limit {
            return false;
        }
        let mut i: usize = 0;
        while i < self.operations.0.len()
            invariant
                0 <= i <= self.operations.0@.len(),
                limit == Self::spec_size_limit(),
                forall|j: int|
                    0 <= j < i ==> (#[trigger] self.operations.0@[j]).1.end <= limit,
            decreases self.operations.0@.len() - i,
        {
            if self.operations.0[i].1.end > limit {
                return false;
            }
            i += 1;
        }
        true
    }

    /// Appends a run of operations in bytes.
    fn push_op_bytes(out: &mut Vec<u8>, op: OpSpan, prev_start: usize)
        requires
            op.wf(),
            op.end <= Self::spec_size_limit(),
            prev_start <= Self::spec_size_limit(),
        ensures
            final(out)@ == old(out)@ + Self::spec_op_bytes(op, prev_start),
    {
        let len = op.end - op.start;
        let h1 = mix_bit_usize(len, op.content_known);
        let h2 = mix_bit_usize(h1, op.fwd);
        let head = mix_bit_usize(h2, op.tag == InsDelTag::Del);
        let delta: i64 = (op.start as i64) - (prev_start as i64);
        push_leb_usize(out, head);
        push_leb_u64(out, num_encode_zigzag_i64(delta));
        if op.content_known {
            push_leb_usize(out, op.content_start);
        }
        proof {
            assert(out@ =~= old(out)@ + Self::spec_op_bytes(op, prev_start));
        }
    }

    /// The chunk of operations.
    fn encode_ops(&self) -> (out: Vec<u8>)
        requires
            self.wf(),
            self.encodable(),
        ensures
            out@ == self.spec_ops_payload(),
    {
        let mut out: Vec<u8> = Vec::new();
        let runs = &self.operations.0;
        push_leb_usize(&mut out, runs.len());
        let mut prev_start: usize = 0;
        let mut i: usize = 0;
        while i < runs.len()
            invariant
                0 <= i <= runs@.len(),
                runs@ == self.operations.0@,
                self.operations.runs_wf(),
                self.encodable(),
                prev_start == self.spec_prev_start(i as int),
                prev_start <= Self::spec_size_limit(),
                out@ == spec_encode(runs@.len()) + self.spec_ops_bytes(i as nat),
            decreases runs@.len() - i,
        {
            let op = runs[i].1;
            proof {
                assert(runs@[i as int].wf());
            }
            Self::push_op_bytes(&mut out, op, prev_start);
            proof {
                assert(out@ =~= spec_encode(runs@.len()) + (self.spec_ops_bytes(i as nat)
                    + Self::spec_op_bytes(op, prev_start)));
            }
            prev_start = op.start;
            i += 1;
        }
        out
    }

    /// The bytes of the given versions, each as `spec_id_bytes`.
    fn push_ids(&self, out: &mut Vec<u8>, versions: &Vec<LV>)
        requires
            self.wf(),
            forall|k: int| 0 <= k < versions@.len() ==> #[trigger] versions@[k] < self.spec_len(),
        ensures
            final(out)@ == old(out)@ + self.spec_ids_bytes(versions@, versions@.len()),
    {
        let mut k: usize = 0;
        proof {
            assert(out@ =~= old(out)@ + self.spec_ids_bytes(versions@, 0));
        }
        while k < versions.len()
            invariant
                0 <= k <= versions@.len(),
                self.wf(),
                forall|j: int|
                    0 <= j < versions@.len() ==> #[trigger] versions@[j] < self.spec_len(),
                out@ == old(out)@ + self.spec_ids_bytes(versions@, k as nat),
            decreases versions@.len() - k,
        {
            let id = self.time_to_crdt_id(versions[k]);
            push_leb_usize(out, id.agent);
            push_leb_usize(out, id.seq);
            proof {
                assert(out@ =~= old(out)@ + (self.spec_ids_bytes(versions@, k as nat)
                    + self.spec_id_bytes(versions@[k as int])));
            }
            k += 1;
        }
    }

    /// Where the piece of history that starts at version `t` ends.
    #[verifier::rlimit(50)]
    pub fn piece_end(&self, t: LV) -> (end: usize)
        requires
            self.wf(),
            t < self.spec_len(),
        ensures
            end == self.spec_piece_end(t),
            t < end <= self.spec_len(),
    {
        let e = self.history.entry_for(t);
        let (run, _offset) = self.client_with_localtime.find_packed_with_offset(t);
        proof {
            let table = &self.client_with_localtime;
            let i = choose|i: int|
                table.covers(i, t as nat) && *run == table.0@[i] && _offset == t
                    - table.0@[i].spec_rle_key();
            let a = choose|a: int| table.covers(a, t as nat);
            table.lemma_packed_is_sorted();
            assert(table.covers(a, t as nat));
            assert(a == i);
            assert(run.wf());
            let last = table.0@.len() - 1;
            if i < last {
                assert(run_end(&table.0@[i]) <= table.0@[last].spec_rle_key());
            }
        }
        let agent_end = run.0 + run.1.len;
        if agent_end < e.span.end {
            agent_end
        } else {
            e.span.end
        }
    }

    /// Appends the piece of history that starts at version `t`. Returns
    /// where it ends.
    #[verifier::rlimit(50)]
    fn push_piece(&self, out: &mut Vec<u8>, t: LV) -> (end: usize)
        requires
            self.wf(),
            t < self.spec_len(),
        ensures
            final(out)@ == old(out)@ + self.spec_piece_bytes(t),
            end == self.spec_piece_end(t),
            t < end <= self.spec_len(),
    {
        let end = self.piece_end(t);
        let parents = self.parents_vec(t);
        let id = self.time_to_crdt_id(t);
        push_leb_usize(out, id.agent);
        push_leb_usize(out, id.seq);
        push_leb_usize(out, end - t);
        push_leb_usize(out, parents.len());
        let ghost head = out@;
        self.push_ids(out, &parents);
        proof {
            assert(head =~= old(out)@ + (self.spec_id_bytes(t) + spec_encode((end - t) as nat)
                + spec_encode(parents@.len())));
            assert(out@ =~= old(out)@ + self.spec_piece_bytes(t));
        }
        end
    }

    /// The pieces of history from `t` on are the piece at `t` and the
    /// pieces from its end on.
    proof fn lemma_graph_bytes_step(&self, t: LV)
        requires
            t < self.spec_len(),
            t < self.spec_piece_end(t) <= self.spec_len(),
        ensures
            self.spec_graph_bytes(t) == self.spec_piece_bytes(t) + self.spec_graph_bytes(
                self.spec_piece_end(t),
            ),
    {
    }

    /// The chunk of the causal graph.
    #[verifier::rlimit(50)]
    fn encode_graph(&self) -> (out: Vec<u8>)
        requires
            self.wf(),
        ensures
            out@ == self.spec_graph_payload(),
    {
        let mut out: Vec<u8> = Vec::new();
        let n = self.len();
        push_leb_usize(&mut out, n);
        let mut t: usize = 0;
        let ghost mut done: Seq<u8> = Seq::<u8>::empty();
        proof {
            assert(out@ =~= spec_encode(self.spec_len()) + done);
            assert(done + self.spec_graph_bytes(0) =~= self.spec_graph_bytes(0));
        }
        while t < n
            invariant
                0 <= t <= n,
                n == self.spec_len(),
                self.wf(),
                out@ == spec_encode(self.spec_len()) + done,
                done + self.spec_graph_bytes(t) == self.spec_graph_bytes(0),
            decreases n - t,
        {
            let ghost piece = self.spec_piece_bytes(t);
            let end = self.push_piece(&mut out, t);
            proof {
                self.lemma_graph_bytes_step(t);
                assert((done + piece) + self.spec_graph_bytes(end) =~= done + (piece
                    + self.spec_graph_bytes(end)));
                assert(out@ =~= spec_encode(self.spec_len()) + (done + piece));
                done = done + piece;
            }
            t = end;
        }
        proof {
            assert(self.spec_graph_bytes(t) =~= Seq::<u8>::empty());
            assert(done =~= self.spec_graph_bytes(0));
        }
        out
    }

    /// The whole log as a file: the magic number; the names of the agents;
    /// the causal graph in pieces of one agent and one run each, the
    /// parents named by agent and number; the runs of operations; the
    /// inserted characters; and the checksum of all that.
    pub fn encode(&self) -> (out: Vec<u8>)
        requires
            self.wf(),
            self.encodable(),
        ensures
            out@ == self.spec_snapshot(),
    {
        let mut out: Vec<u8> = Vec::new();
        push_magic(&mut out);
        let agents = self.encode_agents();
        push_leb_chunk(&mut out, ListChunkType::AgentNames, agents.as_slice());
        let graph = self.encode_graph();
        push_leb_chunk(&mut out, ListChunkType::CausalGraph, graph.as_slice());
        let ops = self.encode_ops();
        push_leb_chunk(&mut out, ListChunkType::Operations, ops.as_slice());
        let content = self.encode_content();
        push_leb_chunk(&mut out, ListChunkType::Content, content.as_slice());
        proof {
            assert(out@ =~= self.spec_body());
        }
        let crc = checksum(out.as_slice());
        let mut crc_bytes: Vec<u8> = Vec::new();
        push_u32_le(&mut crc_bytes, crc);
        proof {
            assert(crc_bytes@ =~= spec_u32_le(crc));
        }
        push_leb_chunk(&mut out, ListChunkType::Crc, crc_bytes.as_slice());
        out
    }
}

/// `String::from_utf8`: the string whose bytes are the given bytes, where
/// they are UTF-8; `None` where they are not.
#[verifier::external_body]
fn string_from_utf8(bytes: &[u8]) -> (r: Option<String>)
    ensures
        match r {
            Some(s) => encode_utf8(s@) == bytes@,
            None => !vstd::utf8::valid_utf8(bytes@),
        },
{
    String::from_utf8(bytes.to_vec()).ok()
}

/// `char::from_u32`: the character with the given code point; `None`
/// where the number is no code point of a character, that is, a surrogate
/// or above `0x10FFFF`.
#[verifier::external_body]
fn char_from_u32(code: u32) -> (r: Option<char>)
    ensures
        match r {
            Some(c) => c as u32 == code,
            None => 0xD800 <= code <= 0xDFFF || code > 0x10FFFF,
        },
{
    char::from_u32(code)
}

/// A place in a buffer from which numbers and bytes are read, up to an
/// end.
pub struct Reader<'a> {
    pub buf: &'a [u8],
    pub pos: usize,
    pub end: usize,
}

impl<'a> Reader<'a> {
    pub open spec fn wf(&self) -> bool {
        self.pos <= self.end <= self.buf@.len()
    }

    /// What is still to be read.
    pub open spec fn rest(&self) -> Seq<u8> {
        self.buf@.subrange(self.pos as int, self.end as int)
    }

    pub fn new(buf: &'a [u8], pos: usize, end: usize) -> (r: Reader<'a>)
        requires
            pos <= end <= buf@.len(),
        ensures
            r.wf(),
            r.buf == buf,
            r.pos == pos,
            r.end == end,
    {
        Reader { buf, pos, end }
    }

    pub fn is_empty(&self) -> (b: bool)
        ensures
            b == (self.pos >= self.end),
    {
        self.pos >= self.end
    }

    /// Reads a number.
    pub fn next_u64(&mut self) -> (r: Result<u64, ParseError>)
        requires
            old(self).wf(),
        ensures
            final(self).wf(),
            final(self).buf == old(self).buf,
            final(self).end == old(self).end,
            match r {
                Ok(v) => spec_decode(old(self).rest()) == Some(
                    (v, (final(self).pos - old(self).pos) as usize),
                ) && final(self).pos > old(self).pos,
                Err(e) => spec_decode(old(self).rest()).is_none() && e == ParseError::InvalidVarint
                    && final(self).pos == old(self).pos,
            },
    {
        let rest = vstd::slice::slice_subrange(self.buf, self.pos, self.end);
        match decode_u64(rest) {
            Ok((v, n)) => {
                proof {
                    lemma_decode_len(rest@);
                }
                self.pos = self.pos + n;
                Ok(v)
            },
            Err(e) => Err(e),
        }
    }

    /// Reads a number that fits `usize` and is not above `limit`.
    pub fn next_usize(&mut self, limit: usize) -> (r: Result<usize, ParseError>)
        requires
            old(self).wf(),
        ensures
            final(self).wf(),
            final(self).buf == old(self).buf,
            final(self).end == old(self).end,
            final(self).pos >= old(self).pos,
            match r {
                Ok(v) => v <= limit && spec_decode(old(self).rest()) == Some(
                    (v as u64, (final(self).pos - old(self).pos) as usize),
                ),
                Err(e) => e == ParseError::InvalidVarint && match spec_decode(old(self).rest()) {
                    Some(v) => v.0 > limit,
                    None => true,
                },
            },
    {
        match self.next_u64() {
            Ok(v) => {
                if v > limit as u64 {
                    Err(ParseError::InvalidVarint)
                } else {
                    Ok(v as usize)
                }
            },
            Err(e) => Err(e),
        }
    }

    /// Reads `n` bytes: `None` where fewer are left.
    pub fn next_bytes(&mut self, n: usize) -> (r: Option<&'a [u8]>)
        requires
            old(self).wf(),
        ensures
            final(self).wf(),
            final(self).buf == old(self).buf,
            final(self).end == old(self).end,
            match r {
                Some(bytes) => n <= old(self).end - old(self).pos && bytes@ == old(
                    self,
                ).buf@.subrange(old(self).pos as int, old(self).pos + n) && final(self).pos == old(
                    self,
                ).pos + n,
                None => n > old(self).end - old(self).pos && final(self).pos == old(self).pos,
            },
    {
        if n > self.end - self.pos {
            return None;
        }
        let bytes = vstd::slice::slice_subrange(self.buf, self.pos, self.pos + n);
        self.pos = self.pos + n;
        Some(bytes)
    }
}

/// Whether `bytes` starts with the magic number.
pub open spec fn has_magic(bytes: Seq<u8>) -> bool {
    bytes.len() >= 8 && bytes.subrange(0, 8) == spec_magic()
}

/// Whether `bytes` starts with the magic number.
pub fn check_magic(bytes: &[u8]) -> (b: bool)
    ensures
        b == has_magic(bytes@),
{
    if bytes.len() < 8 {
        return false;
    }
    let ok = bytes[0] == 0x44 && bytes[1] == 0x4d && bytes[2] == 0x4e && bytes[3] == 0x44
        && bytes[4] == 0x54 && bytes[5] == 0x59 && bytes[6] == 0x50 && bytes[7] == 0x53;
    proof {
        let head = bytes@.subrange(0, 8);
        if ok {
            assert(head =~= spec_magic());
        } else {
            assert(head[0] == bytes@[0] && head[1] == bytes@[1] && head[2] == bytes@[2] && head[3]
                == bytes@[3] && head[4] == bytes@[4] && head[5] == bytes@[5] && head[6]
                == bytes@[6] && head[7] == bytes@[7]);
            assert(spec_magic()[0] == 0x44 && spec_magic()[1] == 0x4d && spec_magic()[2] == 0x4e
                && spec_magic()[3] == 0x44 && spec_magic()[4] == 0x54 && spec_magic()[5] == 0x59
                && spec_magic()[6] == 0x50 && spec_magic()[7] == 0x53);
        }
    }
    ok
}

/// Where the content of the chunk of the given kind starts and ends
/// that stands at `pos` in `bytes`. `None` where no such chunk stands
/// there.
pub open spec fn spec_chunk_at(bytes: Seq<u8>, pos: int, kind: ListChunkType) -> Option<
    (int, int),
> {
    if 0 <= pos <= bytes.len() {
        match spec_read_chunk(bytes.subrange(pos, bytes.len() as int)) {
            Ok(header) => if header.chunk_type == kind {
                Some((pos + header.start, pos + header.end))
            } else {
                None
            },
            Err(_) => None,
        }
    } else {
        None
    }
}

/// Reads the chunk at `pos`, which has to be of the given kind. Returns
/// where its content starts and ends.
fn expect_chunk(bytes: &[u8], pos: usize, kind: ListChunkType) -> (r: Result<
    (usize, usize),
    ParseError,
>)
    requires
        pos <= bytes@.len(),
    ensures
        match r {
            Ok((start, end)) => pos <= start <= end <= bytes@.len() && spec_chunk_at(
                bytes@,
                pos as int,
                kind,
            ) == Some((start as int, end as int)),
            Err(e) => spec_chunk_at(bytes@, pos as int, kind).is_none() && (e
                == ParseError::InvalidVarint || e == ParseError::UnexpectedChunk || e
                == ParseError::TruncatedChunk),
        },
{
    let rest = slice_from(bytes, pos);
    let read = read_leb_chunk(rest);
    let _total = bytes.len();
    assert(rest@.len() == bytes@.len() - pos);
    match read {
        Ok(header) => {
            if header.chunk_type != kind {
                return Err(ParseError::UnexpectedChunk);
            }
            Ok((pos + header.start, pos + header.end))
        },
        Err(ChunkError::InvalidVarint) => Err(ParseError::InvalidVarint),
        Err(ChunkError::UnexpectedChunk) => Err(ParseError::UnexpectedChunk),
        Err(ChunkError::TruncatedChunk) => Err(ParseError::TruncatedChunk),
    }
}

/// The four bytes from `at` on as a number, the lowest byte first.
pub open spec fn spec_stored_u32(bytes: Seq<u8>, at: int) -> int {
    bytes[at] + bytes[at + 1] * 256 + bytes[at + 2] * 65536 + bytes[at + 3] * 16777216
}

/// The parts of a file: the bytes that hold the names of the agents, the
/// history, the operations and the content. The file starts with the
/// magic number; then come the chunks with these parts, in this order;
/// then, and last, a chunk of four bytes with the checksum of all before
/// it. `None` where the bytes are not of that form.
pub open spec fn spec_file(bytes: Seq<u8>) -> Option<(Seq<u8>, Seq<u8>, Seq<u8>, Seq<u8>)> {
    if !has_magic(bytes) {
        None
    } else {
        match spec_chunk_at(bytes, 8, ListChunkType::AgentNames) {
            Some((a0, a1)) => match spec_chunk_at(bytes, a1, ListChunkType::CausalGraph) {
                Some((g0, g1)) => match spec_chunk_at(bytes, g1, ListChunkType::Operations) {
                    Some((o0, o1)) => match spec_chunk_at(bytes, o1, ListChunkType::Content) {
                        Some((c0, c1)) => match spec_chunk_at(bytes, c1, ListChunkType::Crc) {
                            Some((k0, k1)) => if k1 - k0 == 4 && k1 == bytes.len()
                                && spec_checksum(bytes.subrange(0, c1)) == spec_stored_u32(
                                bytes,
                                k0,
                            ) {
                                Some(
                                    (
                                        bytes.subrange(a0, a1),
                                        bytes.subrange(g0, g1),
                                        bytes.subrange(o0, o1),
                                        bytes.subrange(c0, c1),
                                    ),
                                )
                            } else {
                                None
                            },
                            None => None,
                        },
                        None => None,
                    },
                    None => None,
                },
                None => None,
            },
            None => None,
        }
    }
}

/// The log that a file holds: the names of its agents, the codes of the
/// characters of its content, and its history: the names of its versions,
/// the numbers that its agents give out next, the parents of its
/// versions, and the runs of its operations. `None` where the bytes are no
/// file, or its parts are not as `spec_agent_names`, `spec_content_codes`
/// and `spec_history_in` ask.
pub open spec fn spec_log(bytes: Seq<u8>) -> Option<
    (Seq<Seq<char>>, Seq<u64>, (Seq<CRDTId>, Seq<usize>, Seq<Seq<LV>>, Seq<OpSpan>)),
> {
    match spec_file(bytes) {
        Some((agents, graph, ops, content)) => match (
            spec_agent_names(agents),
            spec_content_codes(content),
        ) {
            (Some(names), Some(codes)) => match spec_history_in(
                Seq::<CRDTId>::empty(),
                Seq::new(names.len(), |a: int| 0usize),
                codes.len() as usize,
                graph,
                ops,
            ) {
                Some(h) => Some((names, codes, h)),
                None => None,
            },
            _ => None,
        },
        None => None,
    }
}

/// Whether `v` is the code of a character: no surrogate, and not above
/// `0x10FFFF`.
pub open spec fn is_char_code(v: u64) -> bool {
    v <= 0x10FFFF && !(0xD800 <= v <= 0xDFFF)
}

/// The codes of the characters that stand in `bytes`: first their
/// number, then as many numbers, each the code of a character, and
/// nothing behind them. `None` where the bytes are not of that form.
pub open spec fn spec_content_codes(bytes: Seq<u8>) -> Option<Seq<u64>> {
    match spec_decode(bytes) {
        Some((n, _)) => match spec_numbers(bytes, n as nat + 1) {
            Some((vs, used)) => if used == bytes.len() && forall|j: int|
                1 <= j <= n ==> is_char_code(#[trigger] vs[j]) {
                Some(vs.skip(1))
            } else {
                None
            },
            None => None,
        },
        None => None,
    }
}

/// The first `k` numbers that stand in `bytes` one behind the other, and
/// the number of bytes that they take. `None` where fewer stand there.
pub open spec fn spec_numbers(bytes: Seq<u8>, k: nat) -> Option<(Seq<u64>, nat)>
    decreases k,
{
    if k == 0 {
        Some((Seq::<u64>::empty(), 0nat))
    } else {
        match spec_numbers(bytes, (k - 1) as nat) {
            Some((vs, used)) => if used <= bytes.len() {
                match spec_decode(bytes.skip(used as int)) {
                    Some((v, n)) => Some((vs.push(v), (used + n) as nat)),
                    None => None,
                }
            } else {
                None
            },
            None => None,
        }
    }
}

/// Where `m` numbers stand in the bytes, any fewer stand there: the first
/// of the `m`, in no more bytes, and within the bytes.
pub proof fn lemma_numbers_prefix(bytes: Seq<u8>, k: nat, m: nat)
    requires
        k <= m,
        spec_numbers(bytes, m).is_some(),
    ensures
        spec_numbers(bytes, k).is_some(),
        spec_numbers(bytes, m).unwrap().0.len() == m,
        spec_numbers(bytes, k).unwrap().0 == spec_numbers(bytes, m).unwrap().0.take(k as int),
        spec_numbers(bytes, k).unwrap().1 <= spec_numbers(bytes, m).unwrap().1 <= bytes.len(),
        m <= spec_numbers(bytes, m).unwrap().1,
    decreases m,
{
    if m > 0 {
        let (vs, used) = spec_numbers(bytes, (m - 1) as nat).unwrap();
        lemma_decode_len(bytes.skip(used as int));
        if k < m {
            lemma_numbers_prefix(bytes, k, (m - 1) as nat);
            assert(spec_numbers(bytes, m).unwrap().0.take(k as int) =~= vs.take(k as int));
        } else {
            lemma_numbers_prefix(bytes, (m - 1) as nat, (m - 1) as nat);
            let all = spec_numbers(bytes, m).unwrap().0;
            assert(all.take(m as int) =~= all);
        }
    } else {
        assert(spec_numbers(bytes, 0).unwrap().0.take(0) =~= spec_numbers(bytes, 0).unwrap().0);
    }
}

impl<'a> Reader<'a> {
    /// `self` is the reader `start` after `used` bytes have been read.
    pub open spec fn follows(&self, start: &Reader<'a>, used: nat) -> bool {
        &&& self.wf()
        &&& start.wf()
        &&& self.buf == start.buf
        &&& self.end == start.end
        &&& self.pos == start.pos + used
    }

    /// What is left after `used` bytes is what was left without those
    /// bytes.
    pub proof fn lemma_follows(&self, start: &Reader<'a>, used: nat)
        requires
            self.follows(start, used),
        ensures
            self.rest() == start.rest().skip(used as int),
            used <= start.rest().len(),
    {
        assert(self.rest() =~= start.rest().skip(used as int));
    }

    /// Reads number `k` of a row of numbers, where the numbers before it
    /// have been read.
    pub(crate) fn next_in_row(&mut self, Ghost(start): Ghost<Reader<'a>>, Ghost(k): Ghost<nat>) -> (r:
        Result<u64, ParseError>)
        requires
            spec_numbers(start.rest(), k).is_some(),
            old(self).follows(&start, spec_numbers(start.rest(), k).unwrap().1),
        ensures
            match r {
                Ok(v) => {
                    &&& spec_numbers(start.rest(), k + 1).is_some()
                    &&& spec_numbers(start.rest(), k + 1).unwrap().0 == spec_numbers(
                        start.rest(),
                        k,
                    ).unwrap().0.push(v)
                    &&& final(self).follows(&start, spec_numbers(start.rest(), k + 1).unwrap().1)
                },
                Err(e) => {
                    &&& e == ParseError::InvalidVarint
                    &&& spec_numbers(start.rest(), k + 1).is_none()
                    &&& *final(self) == *old(self)
                },
            },
    {
        proof {
            self.lemma_follows(&start, spec_numbers(start.rest(), k).unwrap().1);
        }
        self.next_u64()
    }
}

/// A row of one number is the number that the bytes start with.
pub proof fn lemma_numbers_first(bytes: Seq<u8>)
    ensures
        spec_numbers(bytes, 1) == match spec_decode(bytes) {
            Some((v, n)) => Some((seq![v], n as nat)),
            None => None,
        },
{
    reveal_with_fuel(spec_numbers, 3);
    assert(bytes.skip(0) =~= bytes);
    assert(spec_numbers(bytes, 0) == Some((Seq::<u64>::empty(), 0nat)));
    match spec_decode(bytes) {
        Some((v, n)) => {
            assert(Seq::<u64>::empty().push(v) =~= seq![v]);
        },
        None => {},
    }
}

/// No row of `m` numbers stands where no row of fewer stands.
pub proof fn lemma_numbers_none(bytes: Seq<u8>, k: nat, m: nat)
    requires
        k <= m,
        spec_numbers(bytes, k).is_none(),
    ensures
        spec_numbers(bytes, m).is_none(),
{
    if spec_numbers(bytes, m).is_some() {
        lemma_numbers_prefix(bytes, k, m);
    }
}

/// Whether a run of operations is as a file may hold it: consistent,
/// within the size limit, and with its known characters within the
/// `content_len` characters of the content.
pub open spec fn valid_run(op: OpSpan, content_len: usize) -> bool {
    &&& op.wf()
    &&& op.end <= OpLog::spec_size_limit()
    &&& op.content_known ==> op.content_start + op.spec_len() <= content_len
}

/// The run of operations that stands at the start of `bytes`, and the
/// number of bytes that it takes. First comes a number that holds the
/// length of the run and above its three lowest bits, which say from the
/// lowest on whether the run deletes, whether it goes forward, and whether
/// its characters are known; then how far its position lies from
/// `prev_start`, as a zig-zag code; then, for known characters, the index
/// of the first. `None` where no run as `valid_run` asks stands there.
pub open spec fn spec_op(bytes: Seq<u8>, prev_start: usize, content_len: usize) -> Option<
    (OpSpan, nat),
> {
    match spec_numbers(bytes, 2) {
        Some((hd, used)) => {
            let head = hd[0] as int;
            let is_del = head % 2 == 1;
            let fwd = (head / 2) % 2 == 1;
            let content_known = (head / 4) % 2 == 1;
            let len = head / 8;
            let start = prev_start + spec_unzigzag(hd[1] as int);
            let limit = OpLog::spec_size_limit() as int;
            let tag = if is_del {
                InsDelTag::Del
            } else {
                InsDelTag::Ins
            };
            if 0 < len <= limit && 0 <= start <= limit && len <= limit - start && (is_del || fwd)
                && (len > 1 || fwd) && !(content_known && is_del) {
                if content_known {
                    match spec_numbers(bytes, 3) {
                        Some((all, used3)) => if all[2] + len <= content_len {
                            Some(
                                (
                                    OpSpan {
                                        tag,
                                        start: start as usize,
                                        end: (start + len) as usize,
                                        fwd,
                                        content_known,
                                        content_start: all[2] as usize,
                                    },
                                    used3,
                                ),
                            )
                        } else {
                            None
                        },
                        None => None,
                    }
                } else {
                    Some(
                        (
                            OpSpan {
                                tag,
                                start: start as usize,
                                end: (start + len) as usize,
                                fwd,
                                content_known,
                                content_start: 0,
                            },
                            used,
                        ),
                    )
                }
            } else {
                None
            }
        },
        None => None,
    }
}

/// The position from which the run behind the given runs counts its own:
/// that of the last of them, or 0.
pub open spec fn prev_of(runs: Seq<OpSpan>) -> usize {
    if runs.len() == 0 {
        0
    } else {
        runs.last().start
    }
}

/// The first `k` runs of operations that stand in `bytes` one behind the
/// other, and the number of bytes that they take. `None` where fewer
/// stand there.
pub open spec fn spec_op_runs(bytes: Seq<u8>, k: nat, content_len: usize) -> Option<
    (Seq<OpSpan>, nat),
>
    decreases k,
{
    if k == 0 {
        Some((Seq::<OpSpan>::empty(), 0nat))
    } else {
        match spec_op_runs(bytes, (k - 1) as nat, content_len) {
            Some((runs, used)) => if used <= bytes.len() && prev_of(runs)
                <= OpLog::spec_size_limit() {
                match spec_op(bytes.skip(used as int), prev_of(runs), content_len) {
                    Some((op, n)) => Some((runs.push(op), (used + n) as nat)),
                    None => None,
                }
            } else {
                None
            },
            None => None,
        }
    }
}

/// A run that stands in the bytes takes two bytes at least, and no more
/// than there are.
pub proof fn lemma_op_len(bytes: Seq<u8>, prev_start: usize, content_len: usize)
    requires
        spec_op(bytes, prev_start, content_len).is_some(),
    ensures
        2 <= spec_op(bytes, prev_start, content_len).unwrap().1 <= bytes.len(),
        valid_run(spec_op(bytes, prev_start, content_len).unwrap().0, content_len),
{
    lemma_numbers_prefix(bytes, 2, 2);
    if spec_numbers(bytes, 3).is_some() {
        lemma_numbers_prefix(bytes, 2, 3);
    }
}

/// Where `m` runs stand in the bytes, any fewer stand there: the first of
/// the `m`, in no more bytes, and within the bytes. They take a byte each
/// at least, and each is as `valid_run` asks.
pub proof fn lemma_runs_prefix(bytes: Seq<u8>, k: nat, m: nat, content_len: usize)
    requires
        k <= m,
        spec_op_runs(bytes, m, content_len).is_some(),
    ensures
        spec_op_runs(bytes, k, content_len).is_some(),
        spec_op_runs(bytes, m, content_len).unwrap().0.len() == m,
        spec_op_runs(bytes, k, content_len).unwrap().0 == spec_op_runs(
            bytes,
            m,
            content_len,
        ).unwrap().0.take(k as int),
        spec_op_runs(bytes, k, content_len).unwrap().1 <= spec_op_runs(
            bytes,
            m,
            content_len,
        ).unwrap().1 <= bytes.len(),
        m <= spec_op_runs(bytes, m, content_len).unwrap().1,
        forall|j: int|
            0 <= j < m ==> valid_run(
                #[trigger] spec_op_runs(bytes, m, content_len).unwrap().0[j],
                content_len,
            ),
    decreases m,
{
    if m > 0 {
        let (runs, used) = spec_op_runs(bytes, (m - 1) as nat, content_len).unwrap();
        lemma_op_len(bytes.skip(used as int), prev_of(runs), content_len);
        lemma_runs_prefix(bytes, (m - 1) as nat, (m - 1) as nat, content_len);
        let all = spec_op_runs(bytes, m, content_len).unwrap().0;
        assert forall|j: int| 0 <= j < m implies valid_run(#[trigger] all[j], content_len) by {
            if j < m - 1 {
                assert(all[j] == runs[j]);
            }
        }
        if k < m {
            lemma_runs_prefix(bytes, k, (m - 1) as nat, content_len);
            assert(all.take(k as int) =~= runs.take(k as int));
        } else {
            assert(all.take(m as int) =~= all);
        }
    } else {
        let none = spec_op_runs(bytes, 0, content_len).unwrap().0;
        assert(none.take(0) =~= none);
    }
}

/// No row of `m` runs stands where no row of fewer stands.
pub proof fn lemma_runs_none(bytes: Seq<u8>, k: nat, m: nat, content_len: usize)
    requires
        k <= m,
        spec_op_runs(bytes, k, content_len).is_none(),
    ensures
        spec_op_runs(bytes, m, content_len).is_none(),
{
    if spec_op_runs(bytes, m, content_len).is_some() {
        lemma_runs_prefix(bytes, k, m, content_len);
    }
}

/// The runs of operations that stand in `bytes`: first their number, then
/// the runs, each counting its position from that of the run before it,
/// and nothing behind them. `None` where the bytes are not of that form.
pub open spec fn spec_ops(bytes: Seq<u8>, content_len: usize) -> Option<Seq<OpSpan>> {
    match spec_decode(bytes) {
        Some((n, l0)) => match spec_op_runs(bytes.skip(l0 as int), n as nat, content_len) {
            Some((runs, used)) => if l0 + used == bytes.len() {
                Some(runs)
            } else {
                None
            },
            None => None,
        },
        None => None,
    }
}

/// The first `n` strings of bytes that stand in `bytes` one behind the
/// other, each behind its length, and the number of bytes that they take
/// with their lengths. `None` where fewer stand there.
pub open spec fn spec_strings(bytes: Seq<u8>, n: nat) -> Option<(Seq<Seq<u8>>, nat)>
    decreases n,
{
    if n == 0 {
        Some((Seq::<Seq<u8>>::empty(), 0nat))
    } else {
        match spec_strings(bytes, (n - 1) as nat) {
            Some((raw, used)) => if used <= bytes.len() {
                match spec_decode(bytes.skip(used as int)) {
                    Some((len, l)) => if used + l + len <= bytes.len() {
                        Some(
                            (
                                raw.push(bytes.subrange(used + l, used + l + len)),
                                (used + l + len) as nat,
                            ),
                        )
                    } else {
                        None
                    },
                    None => None,
                }
            } else {
                None
            },
            None => None,
        }
    }
}

/// Where `m` strings stand in the bytes, any fewer stand there: the first
/// of the `m`, in no more bytes, and within the bytes. They take a byte
/// each at least.
pub proof fn lemma_strings_prefix(bytes: Seq<u8>, k: nat, m: nat)
    requires
        k <= m,
        spec_strings(bytes, m).is_some(),
    ensures
        spec_strings(bytes, k).is_some(),
        spec_strings(bytes, m).unwrap().0.len() == m,
        spec_strings(bytes, k).unwrap().0 == spec_strings(bytes, m).unwrap().0.take(k as int),
        spec_strings(bytes, k).unwrap().1 <= spec_strings(bytes, m).unwrap().1 <= bytes.len(),
        m <= spec_strings(bytes, m).unwrap().1,
    decreases m,
{
    if m > 0 {
        let (raw, used) = spec_strings(bytes, (m - 1) as nat).unwrap();
        lemma_decode_len(bytes.skip(used as int));
        if k < m {
            lemma_strings_prefix(bytes, k, (m - 1) as nat);
            assert(spec_strings(bytes, m).unwrap().0.take(k as int) =~= raw.take(k as int));
        } else {
            lemma_strings_prefix(bytes, (m - 1) as nat, (m - 1) as nat);
            let all = spec_strings(bytes, m).unwrap().0;
            assert(all.take(m as int) =~= all);
        }
    } else {
        assert(spec_strings(bytes, 0).unwrap().0.take(0) =~= spec_strings(bytes, 0).unwrap().0);
    }
}

/// No row of `m` strings stands where no row of fewer stands.
pub proof fn lemma_strings_none(bytes: Seq<u8>, k: nat, m: nat)
    requires
        k <= m,
        spec_strings(bytes, k).is_none(),
    ensures
        spec_strings(bytes, m).is_none(),
{
    if spec_strings(bytes, m).is_some() {
        lemma_strings_prefix(bytes, k, m);
    }
}

/// The names of the agents that stand in `bytes`: first their number,
/// then each name in UTF-8 behind its length, no name twice, and nothing
/// behind them. `None` where the bytes are not of that form.
pub open spec fn spec_agent_names(bytes: Seq<u8>) -> Option<Seq<Seq<char>>> {
    match spec_decode(bytes) {
        Some((n, l0)) => match spec_strings(bytes.skip(l0 as int), n as nat) {
            Some((raw, used)) => if l0 + used == bytes.len() && (forall|i: int|
                0 <= i < raw.len() ==> valid_utf8(#[trigger] raw[i])) && (forall|i: int, j: int|
                0 <= i < j < raw.len() ==> decode_utf8(#[trigger] raw[i]) != decode_utf8(
                    #[trigger] raw[j],
                )) {
                Some(Seq::new(raw.len(), |i: int| decode_utf8(raw[i])))
            } else {
                None
            },
            None => None,
        },
        None => None,
    }
}

impl<'a> Reader<'a> {
    /// Reads string `k` of a row of strings, where the strings before it
    /// have been read.
    fn next_string(&mut self, Ghost(start): Ghost<Reader<'a>>, Ghost(k): Ghost<nat>) -> (r: Result<
        &'a [u8],
        ParseError,
    >)
        requires
            spec_strings(start.rest(), k).is_some(),
            old(self).follows(&start, spec_strings(start.rest(), k).unwrap().1),
        ensures
            final(self).wf(),
            match r {
                Ok(bytes) => {
                    &&& spec_strings(start.rest(), k + 1).is_some()
                    &&& spec_strings(start.rest(), k + 1).unwrap().0 == spec_strings(
                        start.rest(),
                        k,
                    ).unwrap().0.push(bytes@)
                    &&& final(self).follows(&start, spec_strings(start.rest(), k + 1).unwrap().1)
                },
                Err(e) => {
                    &&& (e == ParseError::InvalidVarint || e == ParseError::TruncatedChunk)
                    &&& spec_strings(start.rest(), k + 1).is_none()
                },
            },
    {
        let ghost used = spec_strings(start.rest(), k).unwrap().1;
        let _total = self.buf.len();
        proof {
            self.lemma_follows(&start, used);
        }
        let len = match self.next_u64() {
            Ok(len) => len,
            Err(e) => {
                return Err(e);
            },
        };
        if len > usize::MAX as u64 {
            return Err(ParseError::InvalidVarint);
        }
        let ghost l = (self.pos - start.pos - used) as nat;
        match self.next_bytes(len as usize) {
            Some(bytes) => {
                proof {
                    assert(bytes@ =~= start.rest().subrange((used + l) as int, used + l + len));
                }
                Ok(bytes)
            },
            None => Err(ParseError::TruncatedChunk),
        }
    }
}

impl OpLog {
    /// Reads the names of the agents into a log without versions: their
    /// number, then each name behind its length. Each name makes a new
    /// agent of the log, in the order of the names. Fails where the bytes
    /// are not as `spec_agent_names` asks, or name an agent that the log
    /// has; the agents read before the fault have then joined the log.
    #[verifier::rlimit(100)]
    fn decode_agents(&mut self, reader: &mut Reader) -> (r: Result<(), ParseError>)
        requires
            old(self).wf(),
            old(reader).wf(),
            old(self).spec_len() == 0,
            old(self).operations.0@.len() == 0,
        ensures
            final(self).wf(),
            final(reader).wf(),
            final(self).spec_len() == 0,
            final(self).operations.0@.len() == 0,
            final(self).ins_content == old(self).ins_content,
            old(self).client_data@.len() <= final(self).client_data@.len(),
            forall|b: int|
                0 <= b < old(self).client_data@.len() ==> #[trigger] final(self).client_data@[b]
                    == old(self).client_data@[b],
            match r {
                Ok(()) => {
                    &&& old(self).takes_names(spec_agent_names(old(reader).rest()))
                    &&& final(self).joined_by(
                        old(self),
                        spec_agent_names(old(reader).rest()).unwrap(),
                    )
                },
                Err(e) => {
                    &&& !old(self).takes_names(spec_agent_names(old(reader).rest()))
                    &&& (e == ParseError::InvalidVarint || e == ParseError::TruncatedChunk || e
                        == ParseError::IntegrityError)
                },
            },
    {
        let ghost start = *reader;
        let ghost bytes = reader.rest();
        let ghost base = self.client_data@;
        let _total = reader.buf.len();
        proof {
            assert(reader.follows(&start, 0));
            assert(spec_numbers(bytes, 0) == Some((Seq::<u64>::empty(), 0nat)));
            lemma_numbers_first(bytes);
        }
        let n = match reader.next_in_row(Ghost(start), Ghost(0)) {
            Ok(n) => n,
            Err(e) => {
                return Err(e);
            },
        };
        let ghost l0 = spec_decode(bytes).unwrap().1;
        let ghost start2 = *reader;
        let ghost body = reader.rest();
        proof {
            assert(spec_numbers(bytes, 1).unwrap().0[0] == n);
            assert(seq![spec_decode(bytes).unwrap().0][0] == n);
            reader.lemma_follows(&start, l0 as nat);
            assert(body == bytes.skip(l0 as int));
            assert(reader.follows(&start2, 0));
        }
        if n > usize::MAX as u64 {
            proof {
                if spec_strings(body, n as nat).is_some() {
                    lemma_strings_prefix(body, n as nat, n as nat);
                }
            }
            return Err(ParseError::InvalidVarint);
        }
        let n = n as usize;
        let mut a: usize = 0;
        while a < n
            invariant
                0 <= a <= n,
                start == *old(reader),
                bytes == start.rest(),
                base == old(self).client_data@,
                spec_decode(bytes) == Some((n as u64, l0)),
                body == bytes.skip(l0 as int),
                body == start2.rest(),
                l0 <= bytes.len(),
                spec_strings(body, a as nat).is_some(),
                reader.follows(&start2, spec_strings(body, a as nat).unwrap().1),
                self.wf(),
                self.spec_len() == 0,
                self.operations.0@.len() == 0,
                self.ins_content == old(self).ins_content,
                self.client_data@.len() == base.len() + a,
                forall|b: int| 0 <= b < base.len() ==> #[trigger] self.client_data@[b] == base[b],
                forall|j: int|
                    0 <= j < a ==> {
                        &&& valid_utf8(#[trigger] spec_strings(body, a as nat).unwrap().0[j])
                        &&& self.client_data@[base.len() + j].name@ == decode_utf8(
                            spec_strings(body, a as nat).unwrap().0[j],
                        )
                        &&& self.client_data@[base.len() + j].next_seq == 0
                        &&& !old(self).has_agent(
                            decode_utf8(spec_strings(body, a as nat).unwrap().0[j]),
                        )
                    },
            decreases n - a,
        {
            let ghost before = spec_strings(body, a as nat).unwrap().0;
            let raw = match reader.next_string(Ghost(start2), Ghost(a as nat)) {
                Ok(raw) => raw,
                Err(e) => {
                    proof {
                        lemma_strings_none(body, a as nat + 1, n as nat);
                    }
                    return Err(e);
                },
            };
            let ghost after = spec_strings(body, a as nat + 1).unwrap().0;
            proof {
                lemma_strings_prefix(body, a as nat, a as nat);
                assert(after == before.push(raw@));
                assert(after[a as int] == raw@);
                assert forall|j: int| 0 <= j < a implies #[trigger] after[j] == before[j] by {
                }
                if spec_strings(body, n as nat).is_some() {
                    lemma_strings_prefix(body, a as nat + 1, n as nat);
                    let all = spec_strings(body, n as nat).unwrap().0;
                    assert forall|j: int| 0 <= j <= a implies #[trigger] all[j] == after[j] by {
                    }
                }
            }
            let name = match string_from_utf8(raw) {
                Some(name) => name,
                None => {
                    return Err(ParseError::IntegrityError);
                },
            };
            proof {
                vstd::utf8::encode_utf8_valid_utf8(name@);
                vstd::utf8::encode_utf8_decode_utf8(name@);
                assert(decode_utf8(raw@) == name@);
            }
            // No name twice.
            match self.get_agent_id(name.as_str()) {
                Some(x) => {
                    proof {
                        if old(self).takes_names(spec_agent_names(bytes)) {
                            let all = spec_strings(body, n as nat).unwrap().0;
                            let names = spec_agent_names(bytes).unwrap();
                            assert(names[a as int] == decode_utf8(all[a as int]));
                            if x < base.len() {
                                assert(self.client_data@[x as int] == base[x as int]);
                                assert(old(self).name_of(x) == name@);
                                assert(old(self).has_agent(names[a as int]));
                            } else {
                                let j = x - base.len();
                                assert(decode_utf8(all[j]) == decode_utf8(all[a as int]));
                            }
                        }
                    }
                    return Err(ParseError::IntegrityError);
                },
                None => {},
            }
            let ghost mid = *self;
            self.get_or_create_agent_id(name.as_str());
            proof {
                assert(!old(self).has_agent(name@)) by {
                    if old(self).has_agent(name@) {
                        let x = choose|x: crate::list::oplog::AgentId|
                            x < old(self).client_data@.len() && #[trigger] old(self).name_of(x)
                                == name@;
                        assert(mid.client_data@[x as int] == base[x as int]);
                        assert(mid.name_of(x) == name@);
                    }
                }
                assert forall|b: int| 0 <= b < base.len() implies #[trigger] self.client_data@[b]
                    == base[b] by {
                    assert(mid.client_data@[b] == base[b]);
                }
                assert(spec_strings(body, (a + 1) as nat).unwrap().0 == after);
                assert forall|j: int| 0 <= j < a + 1 implies {
                    &&& valid_utf8(#[trigger] after[j])
                    &&& self.client_data@[base.len() + j].name@ == decode_utf8(after[j])
                    &&& self.client_data@[base.len() + j].next_seq == 0
                    &&& !old(self).has_agent(decode_utf8(after[j]))
                } by {
                    if j < a {
                        assert(after[j] == before[j]);
                        assert(valid_utf8(before[j]));
                        assert(self.client_data@[base.len() + j] == mid.client_data@[base.len()
                            + j]);
                    } else {
                        assert(after[j] == raw@);
                    }
                }
            }
            a += 1;
        }
        proof {
            lemma_strings_prefix(body, n as nat, n as nat);
            reader.lemma_follows(&start2, spec_strings(body, n as nat).unwrap().1);
        }
        if !reader.is_empty() {
            return Err(ParseError::IntegrityError);
        }
        let agents = self.client_data.len();
        proof {
            let all = spec_strings(body, n as nat).unwrap().0;
            assert(all.len() == n);
            assert(agents == base.len() + n);
            assert forall|i: int, j: int| 0 <= i < j < all.len() implies decode_utf8(
                #[trigger] all[i],
            ) != decode_utf8(#[trigger] all[j]) by {
                let x = (base.len() + i) as usize;
                let y = (base.len() + j) as usize;
                assert(valid_utf8(all[i]) && valid_utf8(all[j]));
                assert(self.client_data@[base.len() + i].name@ == decode_utf8(all[i]));
                assert(self.client_data@[base.len() + j].name@ == decode_utf8(all[j]));
                assert(x < y < self.client_data@.len());
                assert(self.name_of(x) != self.name_of(y));
            }
            let names = Seq::new(all.len(), |i: int| decode_utf8(all[i]));
            assert(spec_agent_names(bytes) == Some(names));
            assert forall|i: int| 0 <= i < names.len() implies !old(self).has_agent(
                #[trigger] names[i],
            ) by {
                assert(valid_utf8(all[i]));
            }
            assert(old(self).takes_names(spec_agent_names(bytes)));
            assert(names.len() == n);
            assert forall|i: int| 0 <= i < names.len() implies {
                &&& self.client_data@[base.len() + i].name@ == #[trigger] names[i]
                &&& self.client_data@[base.len() + i].next_seq == 0
            } by {
                assert(valid_utf8(all[i]));
                assert(names[i] == decode_utf8(all[i]));
            }
            assert(self.joined_by(old(self), names));
        }
        Ok(())
    }

    /// The agents of `self` are those of `before` and behind them one of
    /// each of the given names, in their order, that has made nothing yet.
    pub open spec fn joined_by(&self, before: &OpLog, names: Seq<Seq<char>>) -> bool {
        &&& self.client_data@.len() == before.client_data@.len() + names.len()
        &&& forall|i: int|
            0 <= i < names.len() ==> {
                &&& self.client_data@[before.client_data@.len() + i].name@ == #[trigger] names[i]
                &&& self.client_data@[before.client_data@.len() + i].next_seq == 0
            }
    }

    /// Whether the log can take agents of the given names: there are
    /// such names, and none of them is the name of an agent of the log.
    pub open spec fn takes_names(&self, names: Option<Seq<Seq<char>>>) -> bool {
        match names {
            Some(names) => forall|i: int|
                0 <= i < names.len() ==> !self.has_agent(#[trigger] names[i]),
            None => false,
        }
    }

    /// Reads the inserted characters into a log without operations: their
    /// number, then the code of each. The characters join the content of
    /// the log; where the bytes are not as `spec_content_codes` asks, as
    /// many as were read before the fault.
    #[verifier::rlimit(50)]
    fn decode_content(&mut self, reader: &mut Reader) -> (r: Result<(), ParseError>)
        requires
            old(self).wf(),
            old(reader).wf(),
            old(self).spec_len() == 0,
            old(self).operations.0@.len() == 0,
        ensures
            final(self).wf(),
            final(reader).wf(),
            final(self).spec_len() == 0,
            final(self).client_data == old(self).client_data,
            final(self).history == old(self).history,
            final(self).client_with_localtime == old(self).client_with_localtime,
            final(self).operations == old(self).operations,
            old(self).ins_content@.len() <= final(self).ins_content@.len(),
            final(self).ins_content@.take(old(self).ins_content@.len() as int) == old(
                self,
            ).ins_content@,
            match r {
                Ok(()) => {
                    &&& spec_content_codes(old(reader).rest()).is_some()
                    &&& final(self).ins_content@.len() == old(self).ins_content@.len()
                        + spec_content_codes(old(reader).rest()).unwrap().len()
                    &&& forall|i: int|
                        0 <= i < spec_content_codes(old(reader).rest()).unwrap().len() ==> (
                        final(self).ins_content@[old(self).ins_content@.len() + i]) as u32
                            == #[trigger] spec_content_codes(old(reader).rest()).unwrap()[i]
                },
                Err(e) => {
                    &&& spec_content_codes(old(reader).rest()).is_none()
                    &&& (e == ParseError::InvalidVarint || e == ParseError::IntegrityError)
                },
            },
    {
        let ghost start = *reader;
        let ghost bytes = reader.rest();
        let ghost base = self.ins_content@;
        let _total = reader.buf.len();
        proof {
            assert(reader.follows(&start, 0));
            assert(bytes.skip(0) =~= bytes);
            assert(self.ins_content@.take(base.len() as int) =~= base);
        }
        let n = match reader.next_in_row(Ghost(start), Ghost(0)) {
            Ok(n) => n,
            Err(e) => {
                return Err(e);
            },
        };
        proof {
            lemma_numbers_first(bytes);
            assert(spec_numbers(bytes, 0) == Some((Seq::<u64>::empty(), 0nat)));
            assert(spec_numbers(bytes, 1).unwrap().0[0] == n);
            assert(spec_decode(bytes).is_some());
            assert(seq![spec_decode(bytes).unwrap().0][0] == n);
        }
        if n >= usize::MAX as u64 {
            proof {
                if spec_numbers(bytes, n as nat + 1).is_some() {
                    lemma_numbers_prefix(bytes, n as nat + 1, n as nat + 1);
                }
            }
            return Err(ParseError::InvalidVarint);
        }
        let n = n as usize;
        let mut i: usize = 0;
        while i < n
            invariant
                0 <= i <= n < usize::MAX,
                start == *old(reader),
                bytes == start.rest(),
                base == old(self).ins_content@,
                spec_decode(bytes).is_some() && spec_decode(bytes).unwrap().0 == n,
                spec_numbers(bytes, i as nat + 1).is_some(),
                reader.follows(&start, spec_numbers(bytes, i as nat + 1).unwrap().1),
                old(self).wf(),
                old(self).spec_len() == 0,
                old(self).operations.0@.len() == 0,
                self.history == old(self).history,
                self.client_data == old(self).client_data,
                self.client_with_localtime == old(self).client_with_localtime,
                self.operations == old(self).operations,
                self.ins_content@.len() == base.len() + i,
                self.ins_content@.take(base.len() as int) == base,
                forall|j: int|
                    1 <= j <= i ==> is_char_code(
                        #[trigger] spec_numbers(bytes, i as nat + 1).unwrap().0[j],
                    ) && self.ins_content@[base.len() + j - 1] as u32 == spec_numbers(
                        bytes,
                        i as nat + 1,
                    ).unwrap().0[j],
            decreases n - i,
        {
            let ghost before = spec_numbers(bytes, i as nat + 1).unwrap().0;
            let code = match reader.next_in_row(Ghost(start), Ghost(i as nat + 1)) {
                Ok(code) => code,
                Err(e) => {
                    proof {
                        old(self).lemma_content_any(self);
                        lemma_numbers_none(bytes, i as nat + 2, n as nat + 1);
                    }
                    return Err(e);
                },
            };
            let ghost after = spec_numbers(bytes, i as nat + 2).unwrap().0;
            proof {
                lemma_numbers_prefix(bytes, i as nat + 1, i as nat + 1);
                assert(after == before.push(code));
                assert(after[i as int + 1] == code);
                assert forall|j: int| 1 <= j <= i implies #[trigger] after[j] == before[j] by {
                }
            }
            let c = if code > 0xffff_ffff {
                None
            } else {
                char_from_u32(code as u32)
            };
            match c {
                Some(c) => {
                    self.ins_content.push(c);
                    proof {
                        assert(self.ins_content@.take(base.len() as int) =~= base);
                        assert(is_char_code(code)) by {
                            vstd::utf8::char_is_scalar(c);
                        }
                    }
                },
                None => {
                    proof {
                        old(self).lemma_content_any(self);
                        assert(!is_char_code(code));
                        if spec_numbers(bytes, n as nat + 1).is_some() {
                            lemma_numbers_prefix(bytes, i as nat + 2, n as nat + 1);
                            let all = spec_numbers(bytes, n as nat + 1).unwrap().0;
                            assert(all[i as int + 1] == after[i as int + 1]);
                        }
                    }
                    return Err(ParseError::IntegrityError);
                },
            }
            i += 1;
        }
        proof {
            old(self).lemma_content_any(self);
            lemma_numbers_prefix(bytes, n as nat + 1, n as nat + 1);
            reader.lemma_follows(&start, spec_numbers(bytes, n as nat + 1).unwrap().1);
        }
        if !reader.is_empty() {
            return Err(ParseError::IntegrityError);
        }
        proof {
            let all = spec_numbers(bytes, n as nat + 1).unwrap().0;
            let codes = all.skip(1);
            assert(spec_content_codes(bytes) == Some(codes));
            assert forall|j: int| 0 <= j < codes.len() implies self.ins_content@[base.len() + j]
                as u32 == #[trigger] codes[j] by {
                assert(is_char_code(all[j + 1]));
            }
        }
        Ok(())
    }

    /// A log without operations is consistent with any content.
    pub proof fn lemma_content_any(&self, later: &OpLog)
        requires
            self.wf(),
            self.operations.0@.len() == 0,
            later.history == self.history,
            later.client_data == self.client_data,
            later.client_with_localtime == self.client_with_localtime,
            later.operations == self.operations,
        ensures
            later.wf(),
    {
        assert forall|x: crate::list::oplog::AgentId, y: crate::list::oplog::AgentId|
            x < y < later.client_data@.len() implies #[trigger] later.name_of(x)
            != #[trigger] later.name_of(y) by {
            assert(self.name_of(x) != self.name_of(y));
        }
        self.lemma_dense_kept(later);
    }

    /// Reads a run of operations, whose position is counted from
    /// `prev_start`. The run has to be consistent, within the size limit,
    /// and its known characters within the `content_len` characters of the
    /// content.
    #[verifier::rlimit(100)]
    fn decode_op(reader: &mut Reader, prev_start: usize, content_len: usize) -> (r: Result<
        OpSpan,
        ParseError,
    >)
        requires
            old(reader).wf(),
            prev_start <= Self::spec_size_limit(),
        ensures
            final(reader).wf(),
            final(reader).buf == old(reader).buf,
            final(reader).end == old(reader).end,
            match r {
                Ok(op) => {
                    &&& final(reader).pos >= old(reader).pos
                    &&& spec_op(old(reader).rest(), prev_start, content_len) == Some(
                        (op, (final(reader).pos - old(reader).pos) as nat),
                    )
                    &&& valid_run(op, content_len)
                },
                Err(e) => {
                    &&& spec_op(old(reader).rest(), prev_start, content_len).is_none()
                    &&& (e == ParseError::InvalidVarint || e == ParseError::IntegrityError)
                },
            },
    {
        let ghost start = *reader;
        let ghost bytes = reader.rest();
        proof {
            assert(reader.follows(&start, 0));
            assert(spec_numbers(bytes, 0) == Some((Seq::<u64>::empty(), 0nat)));
        }
        let limit = usize::MAX / 16;
        let head = match reader.next_in_row(Ghost(start), Ghost(0)) {
            Ok(head) => head,
            Err(e) => {
                proof {
                    lemma_numbers_none(bytes, 1, 2);
                }
                return Err(e);
            },
        };
        let (h2, is_del) = num_decode_u64_with_extra_bit(head);
        let (h1, fwd) = num_decode_u64_with_extra_bit(h2);
        let (len64, content_known) = num_decode_u64_with_extra_bit(h1);
        let code = match reader.next_in_row(Ghost(start), Ghost(1)) {
            Ok(code) => code,
            Err(e) => {
                return Err(e);
            },
        };
        proof {
            lemma_numbers_prefix(bytes, 1, 2);
            let hd = spec_numbers(bytes, 2).unwrap().0;
            assert(hd[0] == head);
            assert(hd[1] == code);
            assert(is_del == (head as int % 2 == 1));
            assert(fwd == ((head as int / 2) % 2 == 1));
            assert(content_known == ((head as int / 4) % 2 == 1));
            assert(len64 as int == head as int / 8);
        }
        let delta = num_decode_zigzag_i64(code);
        if len64 == 0 || len64 > limit as u64 {
            return Err(ParseError::IntegrityError);
        }
        let len = len64 as usize;
        let start_pos: usize = if delta >= 0 {
            if delta as u64 > (limit - prev_start) as u64 {
                return Err(ParseError::IntegrityError);
            }
            prev_start + delta as usize
        } else {
            let back: u64 = (-(delta + 1)) as u64 + 1;
            if back > prev_start as u64 {
                return Err(ParseError::IntegrityError);
            }
            prev_start - back as usize
        };
        if len > limit - start_pos {
            return Err(ParseError::IntegrityError);
        }
        let tag = if is_del {
            InsDelTag::Del
        } else {
            InsDelTag::Ins
        };
        if (!is_del && !fwd) || (len == 1 && !fwd) || (content_known && is_del) {
            return Err(ParseError::IntegrityError);
        }
        let content_start = if content_known {
            let content_start = match reader.next_in_row(Ghost(start), Ghost(2)) {
                Ok(content_start) => content_start,
                Err(e) => {
                    return Err(e);
                },
            };
            proof {
                lemma_numbers_prefix(bytes, 2, 3);
                assert(spec_numbers(bytes, 3).unwrap().0[2] == content_start);
            }
            if content_start > content_len as u64 || len as u64 > content_len as u64
                - content_start {
                return Err(ParseError::IntegrityError);
            }
            content_start as usize
        } else {
            0
        };
        Ok(OpSpan { tag, start: start_pos, end: start_pos + len, fwd, content_known, content_start })
    }

    /// Reads the runs of operations of a file: their number, then each
    /// run, its position counted from that of the run before it.
    #[verifier::rlimit(100)]
    fn decode_ops(reader: &mut Reader, content_len: usize) -> (r: Result<Vec<OpSpan>, ParseError>)
        requires
            old(reader).wf(),
        ensures
            final(reader).wf(),
            match r {
                Ok(runs) => {
                    &&& spec_ops(old(reader).rest(), content_len) == Some(runs@)
                    &&& forall|k: int|
                        0 <= k < runs@.len() ==> valid_run(#[trigger] runs@[k], content_len)
                },
                Err(e) => {
                    &&& spec_ops(old(reader).rest(), content_len).is_none()
                    &&& (e == ParseError::InvalidVarint || e == ParseError::IntegrityError)
                },
            },
    {
        let ghost start = *reader;
        let ghost bytes = reader.rest();
        let _total = reader.buf.len();
        proof {
            assert(reader.follows(&start, 0));
            assert(spec_numbers(bytes, 0) == Some((Seq::<u64>::empty(), 0nat)));
            lemma_numbers_first(bytes);
        }
        let n = match reader.next_in_row(Ghost(start), Ghost(0)) {
            Ok(n) => n,
            Err(e) => {
                return Err(e);
            },
        };
        let ghost l0 = spec_decode(bytes).unwrap().1;
        let ghost start2 = *reader;
        let ghost body = reader.rest();
        proof {
            assert(spec_numbers(bytes, 1).unwrap().0[0] == n);
            assert(seq![spec_decode(bytes).unwrap().0][0] == n);
            reader.lemma_follows(&start, l0 as nat);
            assert(body == bytes.skip(l0 as int));
            assert(reader.follows(&start2, 0));
        }
        if n > usize::MAX as u64 {
            proof {
                if spec_op_runs(body, n as nat, content_len).is_some() {
                    lemma_runs_prefix(body, n as nat, n as nat, content_len);
                }
            }
            return Err(ParseError::InvalidVarint);
        }
        let n = n as usize;
        let mut runs: Vec<OpSpan> = Vec::new();
        let mut prev_start: usize = 0;
        let mut k: usize = 0;
        while k < n
            invariant
                0 <= k <= n,
                start == *old(reader),
                bytes == start.rest(),
                spec_decode(bytes) == Some((n as u64, l0)),
                body == bytes.skip(l0 as int),
                body == start2.rest(),
                l0 <= bytes.len(),
                spec_op_runs(body, k as nat, content_len).is_some(),
                spec_op_runs(body, k as nat, content_len).unwrap().0 == runs@,
                reader.follows(&start2, spec_op_runs(body, k as nat, content_len).unwrap().1),
                runs@.len() == k,
                prev_start == prev_of(runs@),
                prev_start <= Self::spec_size_limit(),
                forall|j: int| 0 <= j < runs@.len() ==> valid_run(#[trigger] runs@[j], content_len),
            decreases n - k,
        {
            let ghost used = spec_op_runs(body, k as nat, content_len).unwrap().1;
            proof {
                reader.lemma_follows(&start2, used);
            }
            let op = match Self::decode_op(reader, prev_start, content_len) {
                Ok(op) => op,
                Err(e) => {
                    proof {
                        lemma_runs_none(body, k as nat + 1, n as nat, content_len);
                    }
                    return Err(e);
                },
            };
            prev_start = op.start;
            runs.push(op);
            k += 1;
        }
        proof {
            lemma_runs_prefix(body, n as nat, n as nat, content_len);
            reader.lemma_follows(&start2, spec_op_runs(body, n as nat, content_len).unwrap().1);
        }
        if !reader.is_empty() {
            return Err(ParseError::IntegrityError);
        }
        Ok(runs)
    }

    /// Whether the log holds a version that agent number `agent` made as
    /// its version number `seq`.
    pub open spec fn holds_id(&self, agent: u64, seq: u64) -> bool {
        exists|t: LV|
            t < self.spec_len() && (#[trigger] self.id_at(t)).agent == agent && self.id_at(t).seq
                == seq
    }

    /// The version that agent number `agent` made as its version number
    /// `seq`.
    pub open spec fn version_of(&self, agent: u64, seq: u64) -> LV {
        choose|t: LV|
            t < self.spec_len() && (#[trigger] self.id_at(t)).agent == agent && self.id_at(t).seq
                == seq
    }

    /// Whether numbers `2 * k` and `2 * k + 1` of `vs` name, as agent and
    /// number, a version that the log holds.
    pub open spec fn names_version(&self, vs: Seq<u64>, k: int) -> bool {
        self.holds_id(vs[2 * k], vs[2 * k + 1])
    }

    /// The versions that the first `count` pairs of `vs` name.
    pub open spec fn versions_named(&self, vs: Seq<u64>, count: nat) -> Seq<LV> {
        Seq::new(count, |k: int| self.version_of(vs[2 * k], vs[2 * k + 1]))
    }

    /// The `count` parents that stand in `bytes`, and the number of bytes
    /// that they take: each as the number of its agent and its number
    /// with that agent, all of them versions that the log holds, in the
    /// order of the versions. `None` where no such parents stand there.
    pub open spec fn spec_parents(&self, bytes: Seq<u8>, count: nat) -> Option<(Seq<LV>, nat)> {
        match spec_numbers(bytes, 2 * count) {
            Some((vs, used)) => if (forall|k: int|
                0 <= k < count ==> #[trigger] self.names_version(vs, k)) && is_sorted_strict(
                self.versions_named(vs, count),
            ) {
                Some((self.versions_named(vs, count), used))
            } else {
                None
            },
            None => None,
        }
    }

    /// Where one of the pairs names no version of the log, no parents
    /// stand in the bytes.
    proof fn lemma_parents_fail(&self, bytes: Seq<u8>, count: nat, k: nat)
        requires
            k < count,
            spec_numbers(bytes, 2 * k + 2).is_some(),
            !self.names_version(spec_numbers(bytes, 2 * k + 2).unwrap().0, k as int),
        ensures
            self.spec_parents(bytes, count).is_none(),
    {
        if spec_numbers(bytes, 2 * count).is_some() {
            lemma_numbers_prefix(bytes, 2 * k + 2, 2 * count);
            lemma_numbers_prefix(bytes, 2 * k + 2, 2 * k + 2);
            let all = spec_numbers(bytes, 2 * count).unwrap().0;
            let part = spec_numbers(bytes, 2 * k + 2).unwrap().0;
            assert(part[2 * k as int] == all[2 * k as int]);
            assert(part[2 * k as int + 1] == all[2 * k as int + 1]);
            assert(!self.names_version(all, k as int));
        }
    }

    /// Reads the parents of a piece of history: for each the agent and the
    /// number of the version, which the log has to hold. The parents have
    /// to come in the order of their versions in the log.
    #[verifier::rlimit(50)]
    fn decode_parents(&self, reader: &mut Reader, count: usize) -> (r: Result<Vec<LV>, ParseError>)
        requires
            self.wf(),
            old(reader).wf(),
        ensures
            final(reader).wf(),
            final(reader).buf == old(reader).buf,
            final(reader).end == old(reader).end,
            match r {
                Ok(parents) => {
                    &&& final(reader).pos >= old(reader).pos
                    &&& self.spec_parents(old(reader).rest(), count as nat) == Some(
                        (parents@, (final(reader).pos - old(reader).pos) as nat),
                    )
                    &&& self.history.valid_frontier(parents@)
                },
                Err(e) => {
                    &&& self.spec_parents(old(reader).rest(), count as nat).is_none()
                    &&& (e == ParseError::InvalidVarint || e == ParseError::UnknownAgent || e
                        == ParseError::MissingParent || e == ParseError::IntegrityError)
                },
            },
    {
        let ghost start = *reader;
        let ghost bytes = reader.rest();
        let mut parents: Vec<LV> = Vec::new();
        let mut k: usize = 0;
        proof {
            assert(reader.follows(&start, 0));
        }
        while k < count
            invariant
                0 <= k <= count,
                self.wf(),
                start == *old(reader),
                bytes == start.rest(),
                spec_numbers(bytes, 2 * k as nat).is_some(),
                reader.follows(&start, spec_numbers(bytes, 2 * k as nat).unwrap().1),
                parents@.len() == k,
                forall|j: int|
                    0 <= j < k ==> #[trigger] self.names_version(
                        spec_numbers(bytes, 2 * k as nat).unwrap().0,
                        j,
                    ),
                parents@ == self.versions_named(
                    spec_numbers(bytes, 2 * k as nat).unwrap().0,
                    k as nat,
                ),
                forall|j: int| 0 <= j < parents@.len() ==> #[trigger] parents@[j] < self.spec_len(),
            decreases count - k,
        {
            let ghost before = spec_numbers(bytes, 2 * k as nat).unwrap().0;
            let agent = match reader.next_in_row(Ghost(start), Ghost(2 * k as nat)) {
                Ok(agent) => agent,
                Err(e) => {
                    proof {
                        lemma_numbers_none(bytes, 2 * k as nat + 1, 2 * count as nat);
                    }
                    return Err(e);
                },
            };
            let seq = match reader.next_in_row(Ghost(start), Ghost(2 * k as nat + 1)) {
                Ok(seq) => seq,
                Err(e) => {
                    proof {
                        lemma_numbers_none(bytes, 2 * k as nat + 2, 2 * count as nat);
                    }
                    return Err(e);
                },
            };
            let ghost after = spec_numbers(bytes, 2 * k as nat + 2).unwrap().0;
            proof {
                lemma_numbers_prefix(bytes, 2 * k as nat, 2 * k as nat);
                assert(after == before.push(agent).push(seq));
                assert(after[2 * k as int] == agent);
                assert(after[2 * k as int + 1] == seq);
                assert forall|j: int| 0 <= j < k implies #[trigger] self.names_version(
                    after,
                    j,
                ) by {
                    assert(self.names_version(before, j));
                    assert(after[2 * j] == before[2 * j]);
                    assert(after[2 * j + 1] == before[2 * j + 1]);
                }
                assert(self.versions_named(after, k as nat) =~= self.versions_named(
                    before,
                    k as nat,
                )) by {
                    assert forall|j: int| 0 <= j < k implies self.versions_named(after, k as nat)[j]
                        == self.versions_named(before, k as nat)[j] by {
                        assert(after[2 * j] == before[2 * j]);
                        assert(after[2 * j + 1] == before[2 * j + 1]);
                    }
                }
                assert forall|t: LV| t < self.spec_len() implies (#[trigger] self.id_at(t)).agent
                    < self.client_data@.len() by {
                    self.lemma_ids(t, t);
                }
            }
            if agent > usize::MAX as u64 || seq > usize::MAX as u64 {
                proof {
                    assert(!self.holds_id(agent, seq));
                    self.lemma_parents_fail(bytes, count as nat, k as nat);
                }
                return Err(ParseError::InvalidVarint);
            }
            if agent as usize >= self.client_data.len() {
                proof {
                    assert(!self.holds_id(agent, seq));
                    self.lemma_parents_fail(bytes, count as nat, k as nat);
                }
                return Err(ParseError::UnknownAgent);
            }
            match self.crdt_id_to_time(CRDTId { agent: agent as usize, seq: seq as usize }) {
                Some(t) => {
                    proof {
                        assert(self.id_at(t).agent == agent && self.id_at(t).seq == seq);
                        assert(self.holds_id(agent, seq));
                        let w = self.version_of(agent, seq);
                        self.lemma_ids(t, w);
                        assert(w == t);
                        assert(parents@.push(t) =~= self.versions_named(after, (k + 1) as nat));
                    }
                    parents.push(t);
                },
                None => {
                    proof {
                        assert(!self.holds_id(agent, seq));
                        self.lemma_parents_fail(bytes, count as nat, k as nat);
                    }
                    return Err(ParseError::MissingParent);
                },
            }
            k += 1;
        }
        if !frontier_is_sorted(parents.as_slice()) {
            return Err(ParseError::IntegrityError);
        }
        Ok(parents)
    }

    /// Reads the history and the operations, and pushes them onto the
    /// log piece by piece: the versions that the log lacks to have the
    /// number of versions that the history names, each with its name, its
    /// parents and its operation. Fails where the bytes are not as
    /// `spec_history` asks; the pieces read before the fault have then
    /// been pushed.
    #[verifier::rlimit(100)]
    fn decode_history(&mut self, graph: &mut Reader, ops: &mut Reader) -> (r: Result<
        (),
        ParseError,
    >)
        requires
            old(self).wf(),
            old(graph).wf(),
            old(ops).wf(),
        ensures
            final(self).wf(),
            final(graph).wf(),
            final(ops).wf(),
            match r {
                Ok(()) => {
                    &&& old(self).spec_history(old(graph).rest(), old(ops).rest()).is_some()
                    &&& final(self).holds_history(
                        old(self),
                        old(self).spec_history(old(graph).rest(), old(ops).rest()).unwrap(),
                    )
                },
                Err(e) => {
                    &&& old(self).spec_history(old(graph).rest(), old(ops).rest()).is_none()
                    &&& (e == ParseError::InvalidVarint || e == ParseError::UnknownAgent || e
                        == ParseError::MissingParent || e == ParseError::IntegrityError)
                },
            },
    {
        let ghost before = *self;
        let ghost gstart = *graph;
        let ghost gbytes = graph.rest();
        let ghost obytes = ops.rest();
        let limit = usize::MAX / 16;
        let content_len = self.ins_content.len();
        proof {
            assert(graph.follows(&gstart, 0));
            assert(spec_numbers(gbytes, 0) == Some((Seq::<u64>::empty(), 0nat)));
            lemma_numbers_first(gbytes);
        }
        let total = match graph.next_in_row(Ghost(gstart), Ghost(0)) {
            Ok(total) => total,
            Err(e) => {
                return Err(e);
            },
        };
        let ghost l0 = spec_decode(gbytes).unwrap().1;
        proof {
            assert(spec_numbers(gbytes, 1).unwrap().0[0] == total);
            assert(seq![spec_decode(gbytes).unwrap().0][0] == total);
            graph.lemma_follows(&gstart, l0 as nat);
        }
        if total > limit as u64 {
            return Err(ParseError::InvalidVarint);
        }
        let total = total as usize;
        let runs = match Self::decode_ops(ops, content_len) {
            Ok(runs) => runs,
            Err(e) => {
                return Err(e);
            },
        };
        let base = self.len();
        let want = if total > base {
            total - base
        } else {
            0
        };
        if !count_units(&runs, want, Ghost(content_len)) {
            return Err(ParseError::IntegrityError);
        }
        let mut taken: usize = 0;
        let mut cur: Option<OpSpan> = None;
        let mut now = base;
        proof {
            self.lemma_holds_all_refl();
            assert(self.parents_from(base as nat) =~= Seq::<Seq<LV>>::empty());
        }
        while now < total
            invariant
                self.wf(),
                before.wf(),
                graph.wf(),
                ops.wf(),
                before == *old(self),
                gbytes == old(graph).rest(),
                obytes == old(ops).rest(),
                limit == Self::spec_size_limit(),
                total <= limit,
                content_len == before.ins_content@.len(),
                spec_decode(gbytes) == Some((total as u64, l0)),
                spec_ops(obytes, content_len) == Some(runs@),
                base == before.spec_len(),
                units_before(runs@, runs@.len()) == new_count(total as nat, base as nat),
                now == self.spec_len(),
                base <= now,
                spec_pieces(
                    before.ids(),
                    before.nexts(),
                    Seq::<Seq<LV>>::empty(),
                    gbytes.skip(l0 as int),
                    total as nat,
                ) == spec_pieces(
                    self.ids(),
                    self.nexts(),
                    self.parents_from(base as nat),
                    graph.rest(),
                    total as nat,
                ),
                self.holds_all(&before),
                self.ins_content == before.ins_content,
                self.client_data@.len() == before.client_data@.len(),
                forall|k: int| 0 <= k < runs@.len() ==> valid_run(#[trigger] runs@[k], content_len),
                self.cursor_ok(runs@, taken, cur, base as nat, content_len),
                forall|t: LV|
                    base <= t < self.spec_len() ==> #[trigger] self.op_at(t) == flat_unit(
                        runs@,
                        (t - base) as nat,
                    ),
            decreases total - now,
        {
            let ghost mid = *self;
            let ghost it = *graph;
            let ghost rest = graph.rest();
            let _agents = self.client_data.len();
            proof {
                assert(graph.follows(&it, 0));
                assert(spec_numbers(rest, 0) == Some((Seq::<u64>::empty(), 0nat)));
            }
            let agent = match graph.next_in_row(Ghost(it), Ghost(0)) {
                Ok(agent) => agent,
                Err(e) => {
                    proof {
                        lemma_numbers_none(rest, 1, 4);
                    }
                    return Err(e);
                },
            };
            let seq = match graph.next_in_row(Ghost(it), Ghost(1)) {
                Ok(seq) => seq,
                Err(e) => {
                    proof {
                        lemma_numbers_none(rest, 2, 4);
                    }
                    return Err(e);
                },
            };
            let len = match graph.next_in_row(Ghost(it), Ghost(2)) {
                Ok(len) => len,
                Err(e) => {
                    proof {
                        lemma_numbers_none(rest, 3, 4);
                    }
                    return Err(e);
                },
            };
            let count = match graph.next_in_row(Ghost(it), Ghost(3)) {
                Ok(count) => count,
                Err(e) => {
                    return Err(e);
                },
            };
            let ghost used = spec_numbers(rest, 4).unwrap().1;
            proof {
                lemma_numbers_prefix(rest, 4, 4);
                let hd = spec_numbers(rest, 4).unwrap().0;
                assert(hd[0] == agent && hd[1] == seq && hd[2] == len && hd[3] == count);
                assert(self.nexts().len() == self.client_data@.len());
                graph.lemma_follows(&it, used);
            }
            if agent >= self.client_data.len() as u64 {
                return Err(ParseError::UnknownAgent);
            }
            let agent = agent as usize;
            let next_seq = self.client_data[agent].next_seq;
            proof {
                assert(self.nexts()[agent as int] == next_seq);
            }
            if seq != next_seq as u64 || next_seq > limit || len == 0 || len > (total - now) as u64
            {
                return Err(ParseError::IntegrityError);
            }
            if count > usize::MAX as u64 {
                return Err(ParseError::InvalidVarint);
            }
            let len = len as usize;
            let parents = match self.decode_parents(graph, count as usize) {
                Ok(parents) => parents,
                Err(e) => {
                    proof {
                        self.lemma_parents_in(rest.skip(used as int), count as nat);
                    }
                    return Err(e);
                },
            };
            let ghost more = spec_pieces_more(self.ids(), rest.skip(used as int), count as nat);
            proof {
                self.lemma_parents_in(rest.skip(used as int), count as nat);
                assert(graph.follows(&it, used + more));
                graph.lemma_follows(&it, used + more);
                if total > base {
                } else {
                    assert(false);
                }
            }
            self.push_versions(
                agent,
                &parents,
                len,
                &runs,
                &mut taken,
                &mut cur,
                Ghost(base as nat),
            );
            proof {
                mid.lemma_piece_step(self, agent, parents@, len as nat, runs@, base as nat);
                before.lemma_holds_all_trans(&mid, self);
            }
            now = self.len();
        }
        if !graph.is_empty() {
            return Err(ParseError::IntegrityError);
        }
        Ok(())
    }
}

/// Whether the two slices hold the same bytes.
pub fn bytes_eq(a: &[u8], b: &[u8]) -> (r: bool)
    ensures
        r == (a@ == b@),
{
    if a.len() != b.len() {
        return false;
    }
    let mut i: usize = 0;
    while i < a.len()
        invariant
            a@.len() == b@.len(),
            0 <= i <= a@.len(),
            forall|k: int| 0 <= k < i ==> a@[k] == b@[k],
        decreases a@.len() - i,
    {
        if a[i] != b[i] {
            return false;
        }
        i += 1;
    }
    assert(a@ =~= b@);
    true
}

impl OpLog {
    /// The log holds what the file `f` holds, as `spec_log` gives it:
    /// agents of the names in their order, the content, and the versions,
    /// each with its name, its parents and its operation.
    pub open spec fn holds_file(
        &self,
        f: (Seq<Seq<char>>, Seq<u64>, (Seq<CRDTId>, Seq<usize>, Seq<Seq<LV>>, Seq<OpSpan>)),
    ) -> bool {
        &&& self.client_data@.len() == f.0.len()
        &&& forall|a: int| 0 <= a < f.0.len() ==> self.client_data@[a].name@ == #[trigger] f.0[a]
        &&& self.ins_content@.len() == f.1.len()
        &&& forall|i: int| 0 <= i < f.1.len() ==> (self.ins_content@[i]) as u32 == #[trigger] f.1[i]
        &&& self.ids() == f.2.0
        &&& self.nexts() == f.2.1
        &&& self.parents_from(0) == f.2.2
        &&& forall|t: LV| t < self.spec_len() ==> #[trigger] self.op_at(t) == flat_unit(f.2.3, t as nat)
    }
}

/// Where the parts of a file lie in its bytes.
pub struct FileParts {
    pub agents: (usize, usize),
    pub graph: (usize, usize),
    pub ops: (usize, usize),
    pub content: (usize, usize),
}

impl FileParts {
    /// The parts lie within the bytes.
    pub open spec fn within(&self, len: nat) -> bool {
        &&& self.agents.0 <= self.agents.1 <= len
        &&& self.graph.0 <= self.graph.1 <= len
        &&& self.ops.0 <= self.ops.1 <= len
        &&& self.content.0 <= self.content.1 <= len
    }

    /// The bytes of the four parts.
    pub open spec fn cut(&self, bytes: Seq<u8>) -> (Seq<u8>, Seq<u8>, Seq<u8>, Seq<u8>) {
        (
            bytes.subrange(self.agents.0 as int, self.agents.1 as int),
            bytes.subrange(self.graph.0 as int, self.graph.1 as int),
            bytes.subrange(self.ops.0 as int, self.ops.1 as int),
            bytes.subrange(self.content.0 as int, self.content.1 as int),
        )
    }
}

/// Finds the parts of a file, and checks its checksum.
#[verifier::rlimit(100)]
pub fn read_parts(bytes: &[u8]) -> (r: Result<FileParts, ParseError>)
    ensures
        match r {
            Ok(parts) => parts.within(bytes@.len()) && spec_file(bytes@) == Some(
                parts.cut(bytes@),
            ),
            Err(e) => spec_file(bytes@).is_none() && ((e == ParseError::BadMagic) == !has_magic(
                bytes@,
            )),
        },
{
    if !check_magic(bytes) {
        return Err(ParseError::BadMagic);
    }
    let (a_start, a_end) = match expect_chunk(bytes, 8, ListChunkType::AgentNames) {
        Ok(range) => range,
        Err(e) => {
            return Err(e);
        },
    };
    let (g_start, g_end) = match expect_chunk(bytes, a_end, ListChunkType::CausalGraph) {
        Ok(range) => range,
        Err(e) => {
            return Err(e);
        },
    };
    let (o_start, o_end) = match expect_chunk(bytes, g_end, ListChunkType::Operations) {
        Ok(range) => range,
        Err(e) => {
            return Err(e);
        },
    };
    let (c_start, c_end) = match expect_chunk(bytes, o_end, ListChunkType::Content) {
        Ok(range) => range,
        Err(e) => {
            return Err(e);
        },
    };
    let (k_start, k_end) = match expect_chunk(bytes, c_end, ListChunkType::Crc) {
        Ok(range) => range,
        Err(e) => {
            return Err(e);
        },
    };
    if k_end - k_start != 4 || k_end != bytes.len() {
        return Err(ParseError::IntegrityError);
    }
    let stored: u32 = (bytes[k_start] as u32) + (bytes[k_start + 1] as u32) * 256 + (bytes[k_start
        + 2] as u32) * 65536 + (bytes[k_start + 3] as u32) * 16777216;
    if checksum(vstd::slice::slice_subrange(bytes, 0, c_end)) != stored {
        return Err(ParseError::ChecksumMismatch);
    }
    Ok(
        FileParts {
            agents: (a_start, a_end),
            graph: (g_start, g_end),
            ops: (o_start, o_end),
            content: (c_start, c_end),
        },
    )
}

impl OpLog {
    /// A log that was read from the parts of a file holds the file.
    pub proof fn lemma_holds_file(
        &self,
        empty: &OpLog,
        named: &OpLog,
        mid: &OpLog,
        names: Seq<Seq<char>>,
        codes: Seq<u64>,
        h: (Seq<CRDTId>, Seq<usize>, Seq<Seq<LV>>, Seq<OpSpan>),
    )
        requires
            empty.client_data@.len() == 0,
            empty.ins_content@.len() == 0,
            names.len() <= usize::MAX,
            named.joined_by(empty, names),
            named.ins_content == empty.ins_content,
            mid.client_data == named.client_data,
            mid.spec_len() == 0,
            mid.ins_content@.len() == codes.len(),
            forall|i: int|
                0 <= i < codes.len() ==> (mid.ins_content@[0 + i]) as u32 == #[trigger] codes[i],
            self.holds_history(mid, h),
        ensures
            self.holds_file((names, codes, h)),
            mid.ids() == Seq::<CRDTId>::empty(),
            mid.nexts() == Seq::new(names.len(), |a: int| 0usize),
    {
        assert(mid.ids() =~= Seq::<CRDTId>::empty());
        assert(mid.client_data@.len() == names.len());
        assert forall|a: int| 0 <= a < names.len() implies #[trigger] mid.nexts()[a] == 0usize by {
            let name = names[a];
            assert(named.client_data@[empty.client_data@.len() + a].next_seq == 0);
        }
        assert(mid.nexts() =~= Seq::new(names.len(), |a: int| 0usize));
        assert forall|a: int| 0 <= a < names.len() implies self.client_data@[a].name@
            == #[trigger] names[a] by {
            let b = a as usize;
            assert(self.name_of(b) == mid.name_of(b));
            assert(named.client_data@[empty.client_data@.len() + a].name@ == names[a]);
        }
        assert forall|i: int| 0 <= i < codes.len() implies (self.ins_content@[i]) as u32
            == #[trigger] codes[i] by {
            assert((mid.ins_content@[0 + i]) as u32 == codes[i]);
        }
    }
}

/// Reads a log from a file: the log that `spec_log` finds in the bytes,
/// where it finds one. Every file that `encode` has written is read, and
/// gives a log that holds what the log held that was written. A file
/// that does not start with the magic number is refused as such; of the
/// other errors none is `BadMagic`.
#[verifier::rlimit(100)]
pub fn decode(bytes: &[u8]) -> (r: Result<OpLog, ParseError>)
    ensures
        match r {
            Ok(log) => log.wf() && spec_log(bytes@).is_some() && log.holds_file(
                spec_log(bytes@).unwrap(),
            ),
            Err(e) => spec_log(bytes@).is_none() && ((e == ParseError::BadMagic) == !has_magic(
                bytes@,
            )),
        },
        forall|l: OpLog|
            l.wf() && l.encodable() && #[trigger] l.spec_snapshot() == bytes@ ==> match r {
                Ok(log) => log.holds_file(l.as_file()) && l.spec_eq(&log),
                Err(_) => false,
            },
{
    let _size = bytes.len();
    proof {
        assert forall|l: OpLog|
            l.wf() && l.encodable() && #[trigger] l.spec_snapshot() == bytes@ implies spec_log(
            bytes@,
        ) == Some(l.as_file()) by {
            l.law_snapshot_is_read();
        }
    }
    let parts = match read_parts(bytes) {
        Ok(parts) => parts,
        Err(e) => {
            return Err(e);
        },
    };
    let mut log = OpLog::new();
    let ghost empty = log;
    let mut agents = Reader::new(bytes, parts.agents.0, parts.agents.1);
    proof {
        assert forall|name: Seq<char>| !empty.has_agent(name) by {
        }
    }
    match log.decode_agents(&mut agents) {
        Ok(()) => {},
        Err(e) => {
            return Err(e);
        },
    }
    let ghost names = spec_agent_names(parts.cut(bytes@).0).unwrap();
    let ghost named = log;
    let mut content = Reader::new(bytes, parts.content.0, parts.content.1);
    match log.decode_content(&mut content) {
        Ok(()) => {},
        Err(e) => {
            return Err(e);
        },
    }
    let ghost codes = spec_content_codes(parts.cut(bytes@).3).unwrap();
    let ghost mid = log;
    let _chars = log.ins_content.len();
    let _agents = log.client_data.len();
    proof {
        assert(mid.ids() =~= Seq::<CRDTId>::empty());
        assert(mid.client_data@.len() == names.len());
        assert forall|a: int| 0 <= a < names.len() implies #[trigger] mid.nexts()[a] == 0usize by {
            let name = names[a];
            assert(named.client_data@[empty.client_data@.len() + a].next_seq == 0);
        }
        assert(mid.nexts() =~= Seq::new(names.len(), |a: int| 0usize));
    }
    let mut graph = Reader::new(bytes, parts.graph.0, parts.graph.1);
    let mut ops = Reader::new(bytes, parts.ops.0, parts.ops.1);
    match log.decode_history(&mut graph, &mut ops) {
        Ok(()) => {},
        Err(e) => {
            return Err(e);
        },
    }
    proof {
        let h = mid.spec_history(parts.cut(bytes@).1, parts.cut(bytes@).2).unwrap();
        log.lemma_holds_file(&empty, &named, &mid, names, codes, h);
        assert forall|l: OpLog|
            l.wf() && l.encodable() && #[trigger] l.spec_snapshot() == bytes@ implies l.spec_eq(
            &log,
        ) by {
            l.law_written_and_read_are_equal(&log);
        }
    }
    Ok(log)
}

} // verus!
