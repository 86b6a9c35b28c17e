//! Writing numbers, strings and chunk headers onto the end of a buffer,
//! and reading chunk headers back.

use crate::encoding::varint::{
    decode_u32, decode_u64, law_varint_round_trip, lemma_encoded_len_bound, lemma_encoded_len_pow,
    mix_bit_usize, spec_decode, spec_encode, spec_encoded_len, spec_mix_bit, ParseError,
};
use crate::rle::{HasLength, MergableSpan, RleRun};
use vstd::prelude::*;
use vstd::string::StringSliceAdditionalSpecFns;

verus! {

/// Appends the encoding of `value`.
fn push_varint(into: &mut Vec<u8>, value: u64)
    ensures
        final(into)@ == old(into)@ + spec_encode(value as nat),
{
    let mut rest: u64 = value;
    while rest >= 128
        invariant
            into@ + spec_encode(rest as nat) == old(into)@ + spec_encode(value as nat),
        decreases rest,
    {
        let ghost before = into@;
        let byte: u8 = (rest % 128) as u8 + 128;
        into.push(byte);
        proof {
            assert(spec_encode(rest as nat) =~= seq![byte] + spec_encode((rest / 128) as nat));
            assert(into@ + spec_encode((rest / 128) as nat) =~= before + spec_encode(rest as nat));
        }
        rest = rest / 128;
    }
    let ghost before = into@;
    into.push(rest as u8);
    proof {
        assert(spec_encode(rest as nat) =~= seq![rest as u8]);
        assert(into@ =~= before + spec_encode(rest as nat));
    }
}

/// Appends the encoding of `val`.
pub fn push_leb_u32(into: &mut Vec<u8>, val: u32)
    ensures
        final(into)@ == old(into)@ + spec_encode(val as nat),
{
    push_varint(into, val as u64)
}

/// Appends the encoding of `val`.
pub fn push_leb_u64(into: &mut Vec<u8>, val: u64)
    ensures
        final(into)@ == old(into)@ + spec_encode(val as nat),
{
    push_varint(into, val)
}

/// Appends the encoding of `val`.
pub fn push_leb_usize(into: &mut Vec<u8>, val: usize)
    ensures
        final(into)@ == old(into)@ + spec_encode(val as nat),
{
    push_varint(into, val as u64)
}

/// Appends the given bytes.
pub fn push_bytes(into: &mut Vec<u8>, data: &[u8])
    ensures
        final(into)@ == old(into)@ + data@,
{
    let mut i: usize = 0;
    while i < data.len()
        invariant
            0 <= i <= data@.len(),
            into@ == old(into)@ + data@.take(i as int),
        decreases data@.len() - i,
    {
        into.push(data[i]);
        assert(data@.take(i + 1) =~= data@.take(i as int).push(data@[i as int]));
        assert(into@ =~= old(into)@ + data@.take(i + 1));
        i += 1;
    }
    assert(data@.take(data@.len() as int) =~= data@);
}

/// Appends a string: the number of its bytes, then the bytes.
pub fn push_leb_str(into: &mut Vec<u8>, val: &str)
    ensures
        final(into)@ == old(into)@ + spec_encode(val.spec_bytes().len()) + val.spec_bytes(),
{
    let bytes = val.as_bytes();
    push_leb_usize(into, bytes.len());
    push_bytes(into, bytes);
}

/// The four bytes of `val`, the lowest first.
pub open spec fn spec_u32_le(val: u32) -> Seq<u8> {
    seq![
        (val % 256) as u8,
        (val / 256 % 256) as u8,
        (val / 65536 % 256) as u8,
        (val / 16777216) as u8,
    ]
}

/// Appends the four bytes of `val`, the lowest first.
pub fn push_u32_le(into: &mut Vec<u8>, val: u32)
    ensures
        final(into)@ == old(into)@ + spec_u32_le(val),
{
    into.push((val % 256) as u8);
    into.push((val / 256 % 256) as u8);
    into.push((val / 65536 % 256) as u8);
    into.push((val / 16777216) as u8);
    assert(into@ =~= old(into)@ + spec_u32_le(val));
}

/// The kinds of chunk that a file is made of.
#[derive(Copy, Clone, Debug, PartialEq, Eq, Structural)]
pub enum ListChunkType {
    FileInfo,
    AgentNames,
    Version,
    Content,
    Operations,
    CausalGraph,
    Crc,
}

impl ListChunkType {
    /// The number that stands for the kind in a file.
    pub open spec fn spec_code(self) -> u32 {
        match self {
            ListChunkType::FileInfo => 1,
            ListChunkType::AgentNames => 3,
            ListChunkType::Version => 12,
            ListChunkType::Content => 13,
            ListChunkType::Operations => 20,
            ListChunkType::CausalGraph => 23,
            ListChunkType::Crc => 100,
        }
    }

    pub fn code(self) -> (c: u32)
        ensures
            c == self.spec_code(),
    {
        match self {
            ListChunkType::FileInfo => 1,
            ListChunkType::AgentNames => 3,
            ListChunkType::Version => 12,
            ListChunkType::Content => 13,
            ListChunkType::Operations => 20,
            ListChunkType::CausalGraph => 23,
            ListChunkType::Crc => 100,
        }
    }

    /// The kind that a number stands for, if it stands for one.
    pub fn from_code(c: u32) -> (r: Option<ListChunkType>)
        ensures
            match r {
                Some(t) => t.spec_code() == c,
                None => forall|t: ListChunkType| t.spec_code() != c,
            },
    {
        if c == 1 {
            Some(ListChunkType::FileInfo)
        } else if c == 3 {
            Some(ListChunkType::AgentNames)
        } else if c == 12 {
            Some(ListChunkType::Version)
        } else if c == 13 {
            Some(ListChunkType::Content)
        } else if c == 20 {
            Some(ListChunkType::Operations)
        } else if c == 23 {
            Some(ListChunkType::CausalGraph)
        } else if c == 100 {
            Some(ListChunkType::Crc)
        } else {
            None
        }
    }
}

/// The header of a chunk: its kind, then the number of bytes in it.
pub open spec fn spec_chunk_header(chunk_type: ListChunkType, len: nat) -> Seq<u8> {
    spec_encode(chunk_type.spec_code() as nat) + spec_encode(len)
}

/// A whole chunk: its header, then its bytes.
pub open spec fn spec_chunk(chunk_type: ListChunkType, data: Seq<u8>) -> Seq<u8> {
    spec_chunk_header(chunk_type, data.len()) + data
}

/// Appends the header of a chunk of `len` bytes.
pub fn push_leb_chunk_header(into: &mut Vec<u8>, chunk_type: ListChunkType, len: usize)
    ensures
        final(into)@ == old(into)@ + spec_chunk_header(chunk_type, len as nat),
{
    push_leb_u32(into, chunk_type.code());
    push_leb_usize(into, len);
    assert(into@ =~= old(into)@ + spec_chunk_header(chunk_type, len as nat));
}

/// Appends a chunk.
pub fn push_leb_chunk(into: &mut Vec<u8>, chunk_type: ListChunkType, data: &[u8])
    ensures
        final(into)@ == old(into)@ + spec_chunk(chunk_type, data@),
{
    push_leb_chunk_header(into, chunk_type, data.len());
    push_bytes(into, data);
    assert(into@ =~= old(into)@ + spec_chunk(chunk_type, data@));
}

/// A chunk as it was read: its kind, and where its bytes lie in the
/// buffer.
#[derive(Copy, Clone, Debug, PartialEq, Eq, Structural)]
pub struct ChunkHeader {
    pub chunk_type: ListChunkType,
    /// Index of the first byte of the chunk's content.
    pub start: usize,
    /// Index behind the last byte of the chunk's content.
    pub end: usize,
}

/// Why a chunk could not be read.
#[derive(Copy, Clone, Debug, PartialEq, Eq, Structural)]
pub enum ChunkError {
    /// A number of the header is no variable-length integer.
    InvalidVarint,
    /// The kind is none of the known kinds.
    UnexpectedChunk,
    /// The buffer ends before the chunk does.
    TruncatedChunk,
}

/// What reading a chunk from the start of `buf` gives.
pub open spec fn spec_read_chunk(buf: Seq<u8>) -> Result<ChunkHeader, ChunkError> {
    match spec_decode(buf) {
        None => Err(ChunkError::InvalidVarint),
        Some((code, n1)) => {
            if code > u32::MAX {
                Err(ChunkError::InvalidVarint)
            } else if forall|t: ListChunkType| t.spec_code() != code {
                Err(ChunkError::UnexpectedChunk)
            } else {
                match spec_decode(buf.subrange(n1 as int, buf.len() as int)) {
                    None => Err(ChunkError::InvalidVarint),
                    Some((len, n2)) => {
                        if n1 + n2 + len > buf.len() {
                            Err(ChunkError::TruncatedChunk)
                        } else {
                            Ok(
                                ChunkHeader {
                                    chunk_type: choose|t: ListChunkType| t.spec_code() == code,
                                    start: (n1 + n2) as usize,
                                    end: (n1 + n2 + len) as usize,
                                },
                            )
                        }
                    },
                }
            }
        },
    }
}

/// Reads the chunk that `buf` starts with.
#[verifier::rlimit(50)]
pub fn read_leb_chunk(buf: &[u8]) -> (r: Result<ChunkHeader, ChunkError>)
    ensures
        r == spec_read_chunk(buf@),
        match r {
            Ok(header) => header.start <= header.end <= buf@.len(),
            Err(_) => true,
        },
{
    let (code, n1) = match decode_u32(buf) {
        Ok(v) => v,
        Err(_) => {
            return Err(ChunkError::InvalidVarint);
        },
    };
    let chunk_type = match ListChunkType::from_code(code) {
        Some(t) => t,
        None => {
            return Err(ChunkError::UnexpectedChunk);
        },
    };
    proof {
        let t = choose|t: ListChunkType| t.spec_code() == code;
        assert(chunk_type.spec_code() == code);
        assert(t == chunk_type);
        crate::encoding::varint::lemma_decode_len(buf@);
    }
    let rest = slice_from(buf, n1);
    let (len, n2) = match decode_u64(rest) {
        Ok(v) => v,
        Err(_) => {
            return Err(ChunkError::InvalidVarint);
        },
    };
    proof {
        crate::encoding::varint::lemma_decode_len(rest@);
    }
    if len > (buf.len() - n1 - n2) as u64 {
        return Err(ChunkError::TruncatedChunk);
    }
    Ok(ChunkHeader { chunk_type, start: n1 + n2, end: n1 + n2 + len as usize })
}

/// The bytes of `buf` from index `from` on.
pub fn slice_from(buf: &[u8], from: usize) -> (r: &[u8])
    requires
        from <= buf@.len(),
    ensures
        r@ == buf@.subrange(from as int, buf@.len() as int),
{
    vstd::slice::slice_subrange(buf, from, buf.len())
}

/// Reading a chunk that was written gives its kind and its bytes back,
/// whatever follows the chunk.
pub proof fn law_chunk_round_trip(chunk_type: ListChunkType, data: Seq<u8>, rest: Seq<u8>)
    requires
        data.len() <= usize::MAX,
        (spec_chunk(chunk_type, data) + rest).len() <= usize::MAX,
    ensures
        match spec_read_chunk(spec_chunk(chunk_type, data) + rest) {
            Ok(h) => h.chunk_type == chunk_type && (spec_chunk(chunk_type, data) + rest).subrange(
                h.start as int,
                h.end as int,
            ) == data && h.start == spec_chunk_header(chunk_type, data.len()).len() && h.end
                == spec_chunk(chunk_type, data).len(),
            Err(_) => false,
        },
{
    let code = chunk_type.spec_code();
    let h1 = spec_encode(code as nat);
    let h2 = spec_encode(data.len());
    let buf = spec_chunk(chunk_type, data) + rest;
    assert(buf =~= h1 + (h2 + data + rest));
    law_varint_round_trip(code as u64, h2 + data + rest);
    let n1 = spec_encoded_len(code as nat);
    assert(buf.subrange(n1 as int, buf.len() as int) =~= h2 + (data + rest));
    law_varint_round_trip(data.len() as u64, data + rest);
    let n2 = spec_encoded_len(data.len());
    let t = choose|t: ListChunkType| t.spec_code() == code;
    assert(t == chunk_type);
    assert(buf.subrange((n1 + n2) as int, (n1 + n2 + data.len()) as int) =~= data);
}

/// Appends a run of equal flags: its length with the flag in the lowest
/// bit.
pub fn write_leb_bit_run(run: RleRun<bool>, into: &mut Vec<u8>)
    requires
        run.len < usize::MAX / 2,
    ensures
        final(into)@ == old(into)@ + spec_encode(spec_mix_bit(run.len as int, run.val) as nat),
{
    let n = mix_bit_usize(run.len, run.val);
    push_leb_usize(into, n);
}

/// Collects runs and hands them on merged: a run that continues the one
/// before it is joined to it.
pub struct Merger<S> {
    pub last: Option<S>,
}

impl<S: MergableSpan> Merger<S> {
    pub fn new() -> (m: Self)
        ensures
            m.last.is_none(),
    {
        Merger { last: None }
    }

    /// Whether `span` would be joined to the run that waits.
    pub open spec fn joins(&self, span: &S) -> bool {
        self.last.is_some() && self.last.unwrap().spec_can_append(span)
    }

    /// Takes a run in. The run that waited is joined with it, or handed
    /// out at the end of `out`.
    pub fn push2(&mut self, span: S, out: &mut Vec<S>)
        requires
            span.wf(),
            old(self).last.is_some() ==> old(self).last.unwrap().wf() && old(
                self,
            ).last.unwrap().spec_len() + span.spec_len() <= usize::MAX,
        ensures
            final(self).last.is_some(),
            final(self).last.unwrap().wf(),
            old(self).joins(&span) ==> final(self).last.unwrap() == old(
                self,
            ).last.unwrap().spec_append(span) && final(out)@ == old(out)@,
            !old(self).joins(&span) ==> final(self).last.unwrap() == span && final(out)@ == (
            if old(self).last.is_some() {
                old(out)@.push(old(self).last.unwrap())
            } else {
                old(out)@
            }),
    {
        match self.last.take() {
            Some(mut last) => {
                if last.can_append(&span) {
                    proof {
                        last.lemma_append_length(span);
                    }
                    last.append(span);
                    self.last = Some(last);
                } else {
                    out.push(last);
                    self.last = Some(span);
                }
            },
            None => {
                self.last = Some(span);
            },
        }
    }

    /// Hands out the run that waits, if there is one.
    pub fn flush2(self, out: &mut Vec<S>)
        ensures
            final(out)@ == (if self.last.is_some() {
                old(out)@.push(self.last.unwrap())
            } else {
                old(out)@
            }),
    {
        let mut this = self;
        match this.last.take() {
            Some(span) => {
                out.push(span);
            },
            None => {},
        }
    }

    /// Takes a run in, and returns the run that waited where the two
    /// could not be joined.
    pub fn push(&mut self, span: S) -> (flushed: Option<S>)
        requires
            span.wf(),
            old(self).last.is_some() ==> old(self).last.unwrap().wf() && old(
                self,
            ).last.unwrap().spec_len() + span.spec_len() <= usize::MAX,
        ensures
            final(self).last.is_some(),
            final(self).last.unwrap().wf(),
            old(self).joins(&span) ==> final(self).last.unwrap() == old(
                self,
            ).last.unwrap().spec_append(span) && flushed.is_none(),
            !old(self).joins(&span) ==> final(self).last.unwrap() == span && flushed == old(
                self,
            ).last,
    {
        match self.last.take() {
            Some(mut last) => {
                if last.can_append(&span) {
                    proof {
                        last.lemma_append_length(span);
                    }
                    last.append(span);
                    self.last = Some(last);
                    None
                } else {
                    self.last = Some(span);
                    Some(last)
                }
            },
            None => {
                self.last = Some(span);
                None
            },
        }
    }

    /// Returns the run that waits, if there is one.
    pub fn flush(self) -> (flushed: Option<S>)
        ensures
            flushed == self.last,
    {
        self.last
    }
}

} // verus!
