use diamond_types::encoding::varint::{
    decode_u32, decode_u64, decode_u64_slow, encode_i32, encode_i64, encode_i64_with_extra_bit,
    encode_u32, encode_u32_with_extra_bit, encode_u32_with_extra_bit_2, encode_u64, encode_usize,
    mix_bit_u32, mix_bit_u64, mix_bit_usize, num_decode_i64_with_extra_bit,
    num_decode_u32_with_extra_bit, num_decode_u64_with_extra_bit, num_decode_zigzag_i32,
    num_decode_zigzag_i64, num_encode_i64_with_extra_bit, num_encode_zigzag_i32,
    num_encode_zigzag_i64, ParseError,
};
use rand::rngs::SmallRng;
use rand::{Rng, SeedableRng};

fn check_enc_dec_unsigned(val: u64) {
    let mut buf = [0u8; 10];
    let bytes_used = encode_u64(val, &mut buf);

    let v1 = decode_u64_slow(&buf);
    assert_eq!(v1, Ok((val, bytes_used)));
    let v2 = decode_u64(&buf);
    assert_eq!(v2, Ok((val, bytes_used)));
    let v3 = decode_u64_slow(&buf[..bytes_used]);
    assert_eq!(v3, Ok((val, bytes_used)));

    if val < u32::MAX as u64 {
        let mut buf2 = [0u8; 5];
        let bytes_used_2 = encode_u32(val as u32, &mut buf2);
        assert_eq!(buf[..5], buf2);
        assert_eq!(bytes_used, bytes_used_2);
    }
}

#[test]
fn simple_encode_u32() {
    // Encoding example from the protocol buffers documentation.
    let mut result = [0u8; 5];
    assert_eq!(2, encode_u32(300, &mut result[..]));
    assert_eq!(result[0], 0b10101100);
    assert_eq!(result[1], 0b00000010);
}

#[test]
fn enc_edge_cases() {
    check_enc_dec_unsigned(0);
    check_enc_dec_unsigned(1);
    check_enc_dec_unsigned(u64::MAX);
}

fn check_zigzag(val: i64) {
    let zz = num_encode_zigzag_i64(val);
    let actual = num_decode_zigzag_i64(zz);
    assert_eq!(val, actual);

    if val.abs() < i64::MAX / 2 {
        let zz_true = num_encode_i64_with_extra_bit(val, true);
        assert_eq!((val, true), num_decode_i64_with_extra_bit(zz_true));
        let zz_false = num_encode_i64_with_extra_bit(val, false);
        assert_eq!((val, false), num_decode_i64_with_extra_bit(zz_false));
    }

    if val.abs() <= i32::MAX as i64 {
        let val = val as i32;
        let zz = num_encode_zigzag_i32(val);
        let actual = num_decode_zigzag_i32(zz);
        assert_eq!(val, actual);
    }
}

#[test]
fn fuzz_encode() {
    let mut rng = SmallRng::seed_from_u64(20);

    for _i in 0..5000 {
        let x: u64 = rng.gen();

        for bits in 0..64 {
            let val = x >> bits;
            check_enc_dec_unsigned(val);

            // Negating the least 64-bit number overflows.
            if val as i64 != i64::MIN {
                check_zigzag(val as i64);
                check_zigzag(-(val as i64));
            }
        }
    }
}

#[test]
fn varint_300_decodes_to_300() {
    let mut buf = [0u8; 5];
    let n = encode_u32(300, &mut buf);
    assert_eq!(&buf[..n], &[0xAC, 0x02]);
    assert_eq!(decode_u32(&buf), Ok((300, 2)));
    assert_eq!(decode_u64(&[0xAC, 0x02]), Ok((300, 2)));
}

#[test]
fn varint_boundary_values() {
    let cases: [(u64, usize); 12] = [
        (0, 1),
        (127, 1),
        (128, 2),
        (16383, 2),
        (16384, 3),
        (2097151, 3),
        (2097152, 4),
        (u32::MAX as u64, 5),
        (u32::MAX as u64 + 1, 5),
        (1 << 63, 10),
        ((1 << 63) - 1, 9),
        (u64::MAX, 10),
    ];
    for (val, len) in cases {
        let mut buf = [0xffu8; 12];
        let n = encode_u64(val, &mut buf);
        assert_eq!(n, len, "length of {}", val);
        // The rest of the buffer is untouched.
        assert_eq!(buf[n..], [0xffu8; 12][n..]);
        assert_eq!(decode_u64(&buf), Ok((val, len)));
        assert_eq!(decode_u64_slow(&buf[..n]), Ok((val, len)));
    }
}

#[test]
fn zero_is_one_zero_byte() {
    let mut buf = [0xffu8; 10];
    assert_eq!(encode_u64(0, &mut buf), 1);
    assert_eq!(buf[0], 0);
}

#[test]
fn u64_max_is_ten_bytes() {
    let mut buf = [0u8; 10];
    assert_eq!(encode_u64(u64::MAX, &mut buf), 10);
    assert_eq!(buf, [0xff, 0xff, 0xff, 0xff, 0xff, 0xff, 0xff, 0xff, 0xff, 0x01]);
}

#[test]
fn malformed_varints_are_refused() {
    // The buffer ends before the number does.
    assert_eq!(decode_u64(&[]), Err(ParseError::InvalidVarint));
    assert_eq!(decode_u64(&[0x80]), Err(ParseError::InvalidVarint));
    assert_eq!(decode_u64_slow(&[0xff, 0xff]), Err(ParseError::InvalidVarint));
    // A run of more than ten bytes.
    assert_eq!(decode_u64(&[0x80; 11]), Err(ParseError::InvalidVarint));
    assert_eq!(decode_u64_slow(&[0xff; 11]), Err(ParseError::InvalidVarint));
    // A tenth byte with more than its lowest bit set.
    let mut buf = [0xffu8; 10];
    buf[9] = 0x02;
    assert_eq!(decode_u64(&buf), Err(ParseError::InvalidVarint));
    assert_eq!(decode_u64_slow(&buf), Err(ParseError::InvalidVarint));
    buf[9] = 0x01;
    assert_eq!(decode_u64(&buf), Ok((u64::MAX, 10)));
}

#[test]
fn decode_u32_refuses_what_does_not_fit() {
    let mut buf = [0u8; 10];
    encode_u64(u32::MAX as u64 - 1, &mut buf);
    assert_eq!(decode_u32(&buf), Ok((u32::MAX - 1, 5)));
    encode_u64(u32::MAX as u64, &mut buf);
    assert_eq!(decode_u32(&buf), Ok((u32::MAX, 5)));
    let mut five = [0u8; 5];
    assert_eq!(encode_u32(u32::MAX, &mut five), 5);
    assert_eq!(decode_u32(&five), Ok((u32::MAX, 5)));
    encode_u64(u32::MAX as u64 + 1, &mut buf);
    assert_eq!(decode_u32(&buf), Err(ParseError::InvalidVarint));
    encode_u64(1 << 40, &mut buf);
    assert_eq!(decode_u32(&buf), Err(ParseError::InvalidVarint));
}

#[test]
fn encode_usize_is_encode_u64() {
    let mut a = [0u8; 10];
    let mut b = [0u8; 10];
    assert_eq!(encode_usize(123456, &mut a), encode_u64(123456, &mut b));
    assert_eq!(a, b);
}

#[test]
fn zigzag_codes() {
    assert_eq!(num_encode_zigzag_i64(0), 0);
    assert_eq!(num_encode_zigzag_i64(-1), 1);
    assert_eq!(num_encode_zigzag_i64(1), 2);
    assert_eq!(num_encode_zigzag_i64(-2), 3);
    assert_eq!(num_encode_zigzag_i64(i64::MAX), u64::MAX - 1);
    assert_eq!(num_encode_zigzag_i64(i64::MIN), u64::MAX);
    assert_eq!(num_encode_zigzag_i32(-3), 5);
    assert_eq!(num_encode_zigzag_i32(i32::MIN), u32::MAX);
    assert_eq!(num_decode_zigzag_i64(u64::MAX), i64::MIN);
    assert_eq!(num_decode_zigzag_i32(5), -3);
    for n in [-1000i64, -3, -1, 0, 1, 2, 77, i64::MAX, i64::MIN] {
        assert_eq!(num_decode_zigzag_i64(num_encode_zigzag_i64(n)), n);
        // The same as shifting and xor-ing.
        assert_eq!(num_encode_zigzag_i64(n), ((n << 1) ^ (n >> 63)) as u64);
    }
}

#[test]
fn signed_encoding() {
    let mut buf = [0u8; 10];
    assert_eq!(encode_i64(-1, &mut buf), 1);
    assert_eq!(buf[0], 1);
    assert_eq!(encode_i32(-64, &mut buf), 1);
    assert_eq!(buf[0], 127);
    assert_eq!(encode_i32(64, &mut buf), 2);
    assert_eq!(&buf[..2], &[0x80, 0x01]);
    assert_eq!(encode_i64_with_extra_bit(-1, true, &mut buf), 1);
    assert_eq!(buf[0], 3);
}

#[test]
fn mixed_bits() {
    assert_eq!(mix_bit_u64(5, true), 11);
    assert_eq!(mix_bit_u32(5, false), 10);
    assert_eq!(mix_bit_usize(0, true), 1);
    assert_eq!(num_decode_u32_with_extra_bit(11), (5, true));
    assert_eq!(num_decode_u64_with_extra_bit(10), (5, false));
    let mut buf = [0u8; 5];
    assert_eq!(encode_u32_with_extra_bit(5, true, &mut buf), 1);
    assert_eq!(buf[0], 11);
    assert_eq!(encode_u32_with_extra_bit_2(5, true, false, &mut buf), 1);
    assert_eq!(buf[0], 22);
    assert_eq!(encode_u32_with_extra_bit_2(5, false, true, &mut buf), 1);
    assert_eq!(buf[0], 21);
}
