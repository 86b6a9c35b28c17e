//! Variable-length integers: seven bits to a byte, the low bits first, the
//! high bit of a byte set where another byte follows.

use vstd::prelude::*;

verus! {

/// Why bytes could not be read.
#[derive(Copy, Clone, Debug, PartialEq, Eq, Structural)]
pub enum ParseError {
    /// The bytes are no variable-length integer: they end before its last
    /// byte, run on beyond ten bytes, or hold more than 64 bits, or the
    /// number does not fit the type asked for.
    InvalidVarint,
    /// The file does not start with the magic number.
    BadMagic,
    /// A chunk of another kind stands where one was expected.
    UnexpectedChunk,
    /// The file ends within a chunk.
    TruncatedChunk,
    /// The checksum of the file is not the one written in it.
    ChecksumMismatch,
    /// A version names an agent that the file does not define.
    UnknownAgent,
    /// A parent is a version that is not known at that point.
    MissingParent,
    /// What the file describes is no consistent log.
    IntegrityError,
}

/// 128 to the power of `i`.
pub open spec fn pow128(i: nat) -> nat
    decreases i,
{
    if i == 0 {
        1
    } else {
        128 * pow128((i - 1) as nat)
    }
}

/// The encoding of `value`.
pub open spec fn spec_encode(value: nat) -> Seq<u8>
    decreases value,
{
    if value < 128 {
        seq![value as u8]
    } else {
        seq![(value % 128 + 128) as u8] + spec_encode(value / 128)
    }
}

/// Number of bytes of the encoding of `value`.
pub open spec fn spec_encoded_len(value: nat) -> nat
    decreases value,
{
    if value < 128 {
        1
    } else {
        1 + spec_encoded_len(value / 128)
    }
}

/// The number that the bytes from index `i` on add to `acc`, and the index
/// behind its last byte; `None` where the bytes are no encoding of a 64-bit
/// number.
pub open spec fn spec_decode_from(bytes: Seq<u8>, i: nat, acc: nat) -> Option<(u64, usize)>
    decreases 10 - i,
{
    if i >= 10 || i >= bytes.len() {
        None
    } else {
        let b = bytes[i as int];
        let payload = (b % 128) as nat;
        if i == 9 && payload > 1 {
            None
        } else if b < 128 {
            Some(((acc + payload * pow128(i)) as u64, (i + 1) as usize))
        } else {
            spec_decode_from(bytes, i + 1, acc + payload * pow128(i))
        }
    }
}

/// The number that the bytes start with, and how many bytes it takes.
pub open spec fn spec_decode(bytes: Seq<u8>) -> Option<(u64, usize)> {
    spec_decode_from(bytes, 0, 0)
}

/// The first ten powers of 128.
pub proof fn lemma_pow128_values()
    ensures
        pow128(0) == 1,
        pow128(1) == 0x80,
        pow128(2) == 0x4000,
        pow128(3) == 0x20_0000,
        pow128(4) == 0x1000_0000,
        pow128(5) == 0x8_0000_0000,
        pow128(6) == 0x400_0000_0000,
        pow128(7) == 0x2_0000_0000_0000,
        pow128(8) == 0x100_0000_0000_0000,
        pow128(9) == 0x8000_0000_0000_0000,
{
    reveal_with_fuel(pow128, 11);
}

/// A 64-bit number takes at most ten bytes, a 32-bit number at most five.
pub proof fn lemma_encoded_len_bound(value: nat)
    ensures
        spec_encode(value).len() == spec_encoded_len(value),
        1 <= spec_encoded_len(value),
        value <= u32::MAX ==> spec_encoded_len(value) <= 5,
        value <= u64::MAX ==> spec_encoded_len(value) <= 10,
        spec_encoded_len(value) == 10 && value <= u64::MAX ==> value >= 0x8000_0000_0000_0000,
{
    lemma_encoded_len_pow(value, 5);
    lemma_encoded_len_pow(value, 10);
    lemma_encoded_len_pow(value, 9);
    lemma_pow128_values();
    assert(pow128(5) == 0x8_0000_0000) by {
        reveal_with_fuel(pow128, 6);
    }
    assert(pow128(10) == 0x8000_0000_0000_0000 * 128) by {
        reveal_with_fuel(pow128, 2);
    }
}

/// A number below 128 to the `k` takes at most `k` bytes, and no other
/// does.
pub proof fn lemma_encoded_len_pow(value: nat, k: nat)
    requires
        k >= 1,
    ensures
        spec_encode(value).len() == spec_encoded_len(value),
        1 <= spec_encoded_len(value),
        (value < pow128(k)) == (spec_encoded_len(value) <= k),
    decreases value,
{
    reveal_with_fuel(pow128, 2);
    if value < 128 {
        assert(pow128(k) >= 128) by {
            lemma_pow128_grows(1, k);
        }
    } else {
        if k == 1 {
            lemma_encoded_len_pow(value / 128, 1);
        } else {
            lemma_encoded_len_pow(value / 128, (k - 1) as nat);
            assert((value / 128 < pow128((k - 1) as nat)) == (value < 128 * pow128(
                (k - 1) as nat,
            )));
        }
    }
}

/// The powers of 128 grow, from 1.
pub proof fn lemma_pow128_grows(i: nat, j: nat)
    requires
        i <= j,
    ensures
        pow128(i) <= pow128(j),
        pow128(i) >= 1,
    decreases j,
{
    if i < j {
        lemma_pow128_grows(i, (j - 1) as nat);
    } else if i > 0 {
        lemma_pow128_grows((i - 1) as nat, (i - 1) as nat);
    }
}

/// Reading the encoding of `value` from index `i` on, where the bytes
/// before it have given `acc`: the number read is `acc` and `value` times
/// 128 to the `i`.
#[verifier::rlimit(50)]
pub proof fn lemma_decode_encode_from(bytes: Seq<u8>, i: nat, acc: nat, value: nat)
    requires
        i + spec_encoded_len(value) <= 10,
        i + spec_encoded_len(value) <= bytes.len(),
        bytes.subrange(i as int, (i + spec_encoded_len(value)) as int) == spec_encode(value),
        acc + value * pow128(i) <= u64::MAX,
    ensures
        spec_decode_from(bytes, i, acc) == Some(
            ((acc + value * pow128(i)) as u64, (i + spec_encoded_len(value)) as usize),
        ),
    decreases value,
{
    let n = spec_encoded_len(value);
    let enc = spec_encode(value);
    lemma_encoded_len_pow(value, 1);
    assert(bytes[i as int] == enc[0]);
    lemma_pow128_grows(0, i);
    if value < 128 {
        assert(enc[0] == value as u8);
        if i == 9 && value > 1 {
            lemma_pow128_values();
            assert(value * pow128(9) >= 2 * pow128(9)) by (nonlinear_arith)
                requires
                    value >= 2,
            ;
        }
    } else {
        let rest = value / 128;
        let low = value % 128;
        assert(enc[0] == (low + 128) as u8);
        assert(enc.subrange(1, n as int) =~= spec_encode(rest));
        assert(bytes.subrange((i + 1) as int, (i + 1 + spec_encoded_len(rest)) as int)
            =~= spec_encode(rest)) by {
            assert forall|k: int| 0 <= k < spec_encoded_len(rest) implies bytes[i + 1 + k]
                == spec_encode(rest)[k] by {
                lemma_encoded_len_pow(rest, 1);
                assert(bytes[i + 1 + k] == enc[1 + k]);
                assert(enc[1 + k] == enc.subrange(1, n as int)[k]);
            }
            lemma_encoded_len_pow(rest, 1);
        }
        reveal_with_fuel(pow128, 2);
        assert(low * pow128(i) + rest * pow128(i + 1) == value * pow128(i)) by (nonlinear_arith)
            requires
                value == rest * 128 + low,
                pow128(i + 1) == 128 * pow128(i),
        ;
        assert(i < 9);
        lemma_decode_encode_from(bytes, i + 1, acc + low * pow128(i), rest);
    }
}

/// Reading what was written gives the number back, and the number of bytes
/// written, whatever follows the encoding.
pub proof fn law_varint_round_trip(value: u64, rest: Seq<u8>)
    ensures
        spec_decode(spec_encode(value as nat) + rest) == Some(
            (value, spec_encoded_len(value as nat) as usize),
        ),
        spec_encode(value as nat).len() == spec_encoded_len(value as nat),
        1 <= spec_encoded_len(value as nat) <= 10,
{
    let enc = spec_encode(value as nat);
    let bytes = enc + rest;
    lemma_encoded_len_bound(value as nat);
    assert(bytes.subrange(0, enc.len() as int) =~= enc);
    reveal_with_fuel(pow128, 1);
    assert(value * pow128(0) == value) by (nonlinear_arith)
        requires
            pow128(0) == 1,
    ;
    lemma_decode_encode_from(bytes, 0, 0, value as nat);
}

/// The first `n` bytes of `after` are `bytes`; the rest of the buffer is
/// as in `before`.
pub open spec fn written(before: Seq<u8>, after: Seq<u8>, bytes: Seq<u8>) -> bool {
    &&& after.len() == before.len()
    &&& bytes.len() <= after.len()
    &&& after.subrange(0, bytes.len() as int) == bytes
    &&& after.subrange(bytes.len() as int, after.len() as int) == before.subrange(
        bytes.len() as int,
        before.len() as int,
    )
}

/// Writes the encoding of `value` at the start of `buf`.
fn encode_into(value: u64, buf: &mut [u8]) -> (n: usize)
    requires
        old(buf)@.len() >= spec_encoded_len(value as nat),
    ensures
        n == spec_encoded_len(value as nat),
        written(old(buf)@, final(buf)@, spec_encode(value as nat)),
{
    proof {
        lemma_encoded_len_bound(value as nat);
    }
    let mut rest: u64 = value;
    let mut i: usize = 0;
    while rest >= 128
        invariant
            buf@.len() == old(buf)@.len(),
            i + spec_encoded_len(rest as nat) == spec_encoded_len(value as nat),
            spec_encoded_len(value as nat) <= buf@.len(),
            buf@.subrange(0, i as int) + spec_encode(rest as nat) == spec_encode(value as nat),
            forall|j: int| i <= j < buf@.len() ==> #[trigger] buf@[j] == old(buf)@[j],
        decreases rest,
    {
        let ghost before = buf@;
        let byte: u8 = (rest % 128) as u8 + 128;
        proof {
            lemma_encoded_len_pow(rest as nat, 1);
            lemma_encoded_len_pow((rest / 128) as nat, 1);
        }
        buf[i] = byte;
        proof {
            assert(buf@.subrange(0, i + 1) =~= before.subrange(0, i as int).push(byte));
            assert(spec_encode(rest as nat) =~= seq![byte] + spec_encode((rest / 128) as nat));
            assert(buf@.subrange(0, i + 1) + spec_encode((rest / 128) as nat) =~= before.subrange(
                0,
                i as int,
            ) + spec_encode(rest as nat));
        }
        rest = rest / 128;
        i += 1;
    }
    let ghost before = buf@;
    proof {
        lemma_encoded_len_pow(rest as nat, 1);
    }
    buf[i] = rest as u8;
    proof {
        let enc = spec_encode(value as nat);
        assert(spec_encode(rest as nat) =~= seq![rest as u8]);
        assert(buf@.subrange(0, i + 1) =~= before.subrange(0, i as int) + seq![rest as u8]);
        assert(buf@.subrange(0, i + 1) == enc);
        assert(buf@.subrange(i + 1, buf@.len() as int) =~= old(buf)@.subrange(
            i + 1,
            buf@.len() as int,
        ));
    }
    i + 1
}

/// Writes the encoding of `value` at the start of `buf`, which holds at
/// least ten bytes. Returns the number of bytes written.
pub fn encode_u64(value: u64, buf: &mut [u8]) -> (n: usize)
    requires
        old(buf)@.len() >= 10,
    ensures
        n == spec_encoded_len(value as nat),
        1 <= n <= 10,
        written(old(buf)@, final(buf)@, spec_encode(value as nat)),
{
    proof {
        lemma_encoded_len_bound(value as nat);
    }
    encode_into(value, buf)
}

/// Writes the encoding of `value` at the start of `buf`, which holds at
/// least five bytes. Returns the number of bytes written.
pub fn encode_u32(value: u32, buf: &mut [u8]) -> (n: usize)
    requires
        old(buf)@.len() >= 5,
    ensures
        n == spec_encoded_len(value as nat),
        1 <= n <= 5,
        written(old(buf)@, final(buf)@, spec_encode(value as nat)),
{
    proof {
        lemma_encoded_len_bound(value as nat);
    }
    encode_into(value as u64, buf)
}

/// Writes the encoding of `value` at the start of `buf`, which holds at
/// least ten bytes.
pub fn encode_usize(value: usize, buf: &mut [u8]) -> (n: usize)
    requires
        old(buf)@.len() >= 10,
    ensures
        n == spec_encoded_len(value as nat),
        1 <= n <= 10,
        written(old(buf)@, final(buf)@, spec_encode(value as nat)),
{
    encode_u64(value as u64, buf)
}

/// Reads the number that `buf` starts with, byte by byte. Returns it with
/// the number of bytes read.
#[verifier::rlimit(50)]
pub fn decode_u64_slow(buf: &[u8]) -> (r: Result<(u64, usize), ParseError>)
    ensures
        match r {
            Ok(v) => spec_decode(buf@) == Some(v),
            Err(e) => spec_decode(buf@).is_none() && e == ParseError::InvalidVarint,
        },
{
    let mut acc: u64 = 0;
    let mut mult: u64 = 1;
    let mut i: usize = 0;
    proof {
        lemma_pow128_values();
    }
    loop
        invariant
            0 <= i <= 9,
            mult == pow128(i as nat),
            acc < pow128(i as nat),
            spec_decode(buf@) == spec_decode_from(buf@, i as nat, acc as nat),
        decreases 10 - i,
    {
        if i >= buf.len() {
            return Err(ParseError::InvalidVarint);
        }
        let b = buf[i];
        let payload: u8 = b % 128;
        if i == 9 && payload > 1 {
            return Err(ParseError::InvalidVarint);
        }
        proof {
            lemma_pow128_values();
            reveal_with_fuel(pow128, 2);
            assert(payload * mult + acc < 128 * mult) by (nonlinear_arith)
                requires
                    payload < 128,
                    acc < mult,
            ;
            if i == 9 {
                assert(payload * mult + acc <= u64::MAX) by (nonlinear_arith)
                    requires
                        payload <= 1,
                        acc < mult,
                        mult == 0x8000_0000_0000_0000,
                ;
            } else {
                lemma_pow128_grows((i + 1) as nat, 9);
                assert(128 * mult <= 0x8000_0000_0000_0000);
            }
            assert(payload * mult <= payload * mult + acc);
        }
        acc = acc + (payload as u64) * mult;
        if b < 128 {
            return Ok((acc, i + 1));
        }
        if i == 9 {
            // A tenth byte that asks for an eleventh.
            proof {
                reveal_with_fuel(spec_decode_from, 2);
            }
            return Err(ParseError::InvalidVarint);
        }
        mult = mult * 128;
        i += 1;
    }
}

/// Reads the number that `buf` starts with. Returns it with the number of
/// bytes read.
pub fn decode_u64(buf: &[u8]) -> (r: Result<(u64, usize), ParseError>)
    ensures
        match r {
            Ok(v) => spec_decode(buf@) == Some(v),
            Err(e) => spec_decode(buf@).is_none() && e == ParseError::InvalidVarint,
        },
{
    if buf.len() == 0 {
        Err(ParseError::InvalidVarint)
    } else if buf[0] < 128 {
        // The most common case.
        proof {
            lemma_pow128_values();
            let b0 = buf@[0];
            assert((b0 % 128) as nat * pow128(0) == b0) by (nonlinear_arith)
                requires
                    pow128(0) == 1,
                    b0 < 128,
            ;
        }
        Ok((buf[0] as u64, 1))
    } else if buf.len() >= 2 && buf[1] < 128 {
        // Two bytes.
        proof {
            lemma_pow128_values();
            reveal_with_fuel(spec_decode_from, 2);
            let b0 = buf@[0];
            let b1 = buf@[1];
            assert((b0 % 128) as nat * pow128(0) == b0 % 128) by (nonlinear_arith)
                requires
                    pow128(0) == 1,
            ;
            assert((b1 % 128) as nat * pow128(1) == b1 * 128) by (nonlinear_arith)
                requires
                    pow128(1) == 128,
                    b1 < 128,
            ;
        }
        Ok(((buf[0] % 128) as u64 + (buf[1] as u64) * 128, 2))
    } else {
        decode_u64_slow(buf)
    }
}

/// Reads the 32-bit number that `buf` starts with. A number above
/// `u32::MAX` is refused.
pub fn decode_u32(buf: &[u8]) -> (r: Result<(u32, usize), ParseError>)
    ensures
        match r {
            Ok(v) => spec_decode(buf@) == Some((v.0 as u64, v.1)),
            Err(e) => e == ParseError::InvalidVarint && match spec_decode(buf@) {
                Some(v) => v.0 > u32::MAX,
                None => true,
            },
        },
{
    match decode_u64(buf) {
        Ok((val, bytes_consumed)) => {
            if val <= u32::MAX as u64 {
                Ok((val as u32, bytes_consumed))
            } else {
                Err(ParseError::InvalidVarint)
            }
        },
        Err(e) => Err(e),
    }
}

/// The zig-zag code of a signed number: twice the number where it is not
/// negative, else one less than twice its amount, so that numbers near
/// zero of either sign get small codes.
pub open spec fn spec_zigzag(n: int) -> int {
    if n >= 0 {
        2 * n
    } else {
        -2 * n - 1
    }
}

/// The signed number with the given zig-zag code.
pub open spec fn spec_unzigzag(code: int) -> int {
    if code % 2 == 0 {
        code / 2
    } else {
        -(code / 2) - 1
    }
}

/// Decoding a zig-zag code gives the number back, and every code is the
/// code of the number it decodes to.
pub proof fn law_zigzag_round_trip(n: int, code: int)
    requires
        code >= 0,
    ensures
        spec_unzigzag(spec_zigzag(n)) == n,
        spec_zigzag(n) >= 0,
        spec_zigzag(spec_unzigzag(code)) == code,
{
}

pub fn num_encode_zigzag_i64(val: i64) -> (code: u64)
    ensures
        code == spec_zigzag(val as int),
{
    if val >= 0 {
        (val as u64) * 2
    } else {
        ((-(val + 1)) as u64) * 2 + 1
    }
}

pub fn num_encode_zigzag_i32(val: i32) -> (code: u32)
    ensures
        code == spec_zigzag(val as int),
{
    if val >= 0 {
        (val as u32) * 2
    } else {
        ((-(val + 1)) as u32) * 2 + 1
    }
}

pub fn num_decode_zigzag_i32(val: u32) -> (n: i32)
    ensures
        n == spec_unzigzag(val as int),
        spec_zigzag(n as int) == val,
{
    if val % 2 == 0 {
        (val / 2) as i32
    } else {
        -((val / 2) as i32) - 1
    }
}

pub fn num_decode_zigzag_i64(val: u64) -> (n: i64)
    ensures
        n == spec_unzigzag(val as int),
        spec_zigzag(n as int) == val,
{
    if val % 2 == 0 {
        (val / 2) as i64
    } else {
        -((val / 2) as i64) - 1
    }
}

/// Writes the zig-zag code of `value` at the start of `buf`.
pub fn encode_i64(value: i64, buf: &mut [u8]) -> (n: usize)
    requires
        old(buf)@.len() >= 10,
    ensures
        n == spec_encoded_len(spec_zigzag(value as int) as nat),
        1 <= n <= 10,
        written(old(buf)@, final(buf)@, spec_encode(spec_zigzag(value as int) as nat)),
{
    encode_u64(num_encode_zigzag_i64(value), buf)
}

/// Writes the zig-zag code of `value` at the start of `buf`.
pub fn encode_i32(value: i32, buf: &mut [u8]) -> (n: usize)
    requires
        old(buf)@.len() >= 5,
    ensures
        n == spec_encoded_len(spec_zigzag(value as int) as nat),
        1 <= n <= 5,
        written(old(buf)@, final(buf)@, spec_encode(spec_zigzag(value as int) as nat)),
{
    encode_u32(num_encode_zigzag_i32(value), buf)
}

/// A number with a flag in its lowest bit.
pub open spec fn spec_mix_bit(value: int, extra: bool) -> int {
    value * 2 + if extra {
        1int
    } else {
        0int
    }
}

/// Taking the flag out of a mixed number gives the number and the flag
/// back.
pub proof fn law_mix_bit_round_trip(value: int, extra: bool)
    requires
        value >= 0,
    ensures
        spec_mix_bit(value, extra) / 2 == value,
        (spec_mix_bit(value, extra) % 2 == 1) == extra,
{
}

pub fn mix_bit_u64(value: u64, extra: bool) -> (r: u64)
    requires
        value < u64::MAX / 2,
    ensures
        r == spec_mix_bit(value as int, extra),
{
    value * 2 + if extra {
        1
    } else {
        0
    }
}

pub fn mix_bit_u32(value: u32, extra: bool) -> (r: u32)
    requires
        value < u32::MAX / 2,
    ensures
        r == spec_mix_bit(value as int, extra),
{
    value * 2 + if extra {
        1
    } else {
        0
    }
}

pub fn mix_bit_usize(value: usize, extra: bool) -> (r: usize)
    requires
        value < usize::MAX / 2,
    ensures
        r == spec_mix_bit(value as int, extra),
{
    value * 2 + if extra {
        1
    } else {
        0
    }
}

/// Writes `value` with `extra` in its lowest bit.
pub fn encode_u32_with_extra_bit(value: u32, extra: bool, buf: &mut [u8]) -> (n: usize)
    requires
        value < u32::MAX / 2,
        old(buf)@.len() >= 5,
    ensures
        n == spec_encoded_len(spec_mix_bit(value as int, extra) as nat),
        1 <= n <= 5,
        written(old(buf)@, final(buf)@, spec_encode(spec_mix_bit(value as int, extra) as nat)),
{
    let val_2 = mix_bit_u32(value, extra);
    encode_u32(val_2, buf)
}

/// Writes `value` with `extra_1` and `extra_2` in its two lowest bits.
pub fn encode_u32_with_extra_bit_2(value: u32, extra_1: bool, extra_2: bool, buf: &mut [u8]) -> (n:
    usize)
    requires
        value < u32::MAX / 4,
        old(buf)@.len() >= 5,
    ensures
        n == spec_encoded_len(
            spec_mix_bit(spec_mix_bit(value as int, extra_1), extra_2) as nat,
        ),
        1 <= n <= 5,
        written(
            old(buf)@,
            final(buf)@,
            spec_encode(spec_mix_bit(spec_mix_bit(value as int, extra_1), extra_2) as nat),
        ),
{
    let val_1 = mix_bit_u32(value, extra_1);
    let val_2 = mix_bit_u32(val_1, extra_2);
    encode_u32(val_2, buf)
}

/// The zig-zag code of `value` with `extra` in its lowest bit.
pub fn num_encode_i64_with_extra_bit(value: i64, extra: bool) -> (r: u64)
    requires
        -(i64::MAX / 2) < value < i64::MAX / 2,
    ensures
        r == spec_mix_bit(spec_zigzag(value as int), extra),
{
    let val_1 = num_encode_zigzag_i64(value);
    mix_bit_u64(val_1, extra)
}

/// Writes the zig-zag code of `value` with `extra` in its lowest bit.
pub fn encode_i64_with_extra_bit(value: i64, extra: bool, buf: &mut [u8]) -> (n: usize)
    requires
        -(i64::MAX / 2) < value < i64::MAX / 2,
        old(buf)@.len() >= 10,
    ensures
        n == spec_encoded_len(spec_mix_bit(spec_zigzag(value as int), extra) as nat),
        1 <= n <= 10,
        written(
            old(buf)@,
            final(buf)@,
            spec_encode(spec_mix_bit(spec_zigzag(value as int), extra) as nat),
        ),
{
    encode_u64(num_encode_i64_with_extra_bit(value, extra), buf)
}

/// Splits a mixed number into the number and the flag of its lowest bit.
pub fn num_decode_u32_with_extra_bit(value: u32) -> (r: (u32, bool))
    ensures
        spec_mix_bit(r.0 as int, r.1) == value,
{
    let bit = value % 2 != 0;
    (value / 2, bit)
}

/// Splits a mixed number into the number and the flag of its lowest bit.
pub fn num_decode_u64_with_extra_bit(value: u64) -> (r: (u64, bool))
    ensures
        spec_mix_bit(r.0 as int, r.1) == value,
{
    let bit = value % 2 != 0;
    (value / 2, bit)
}

/// Splits a mixed zig-zag code into the signed number and the flag.
pub fn num_decode_i64_with_extra_bit(value: u64) -> (r: (i64, bool))
    ensures
        spec_mix_bit(spec_zigzag(r.0 as int), r.1) == value,
{
    let bit = value % 2 != 0;
    (num_decode_zigzag_i64(value / 2), bit)
}

/// A number that was read took at least one byte and no more than ten,
/// and no more than there are.
pub proof fn lemma_decode_len(bytes: Seq<u8>)
    ensures
        match spec_decode(bytes) {
            Some(v) => 1 <= v.1 <= 10 && v.1 <= bytes.len(),
            None => true,
        },
{
    lemma_decode_len_from(bytes, 0, 0);
}

proof fn lemma_decode_len_from(bytes: Seq<u8>, i: nat, acc: nat)
    ensures
        match spec_decode_from(bytes, i, acc) {
            Some(v) => i + 1 <= v.1 <= 10 && v.1 <= bytes.len(),
            None => true,
        },
    decreases 10 - i,
{
    if i < 10 && i < bytes.len() {
        let b = bytes[i as int];
        let payload = (b % 128) as nat;
        if !(i == 9 && payload > 1) && b >= 128 {
            lemma_decode_len_from(bytes, i + 1, acc + payload * pow128(i));
        }
    }
}

} // verus!
