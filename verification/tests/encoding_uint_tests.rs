use compress_wi_primes::dyn_bit_string::DynBitString;
use compress_wi_primes::encoding_uint::{
    append_uint32_len, decode_uint32, encode_uint32, read_uint32_len,
};
use std::str::FromStr;

// expect a dynamic bitstring specified by the text string parameter
// useful for regression testing
fn expect_dbstr(bs: DynBitString, expected_bitstring_text: &str) {
    let r = DynBitString::from_str(expected_bitstring_text);
    match r {
        Err(e) => {
            panic!("ERROR - {}", e);
        },
        Ok(expected_bs) => {
            if expected_bs != bs {
                panic!("expected bitstring {:?}, got bitstring {:?}\n", expected_bs, bs);
            }
        },
    }
}

// each bit string length test expected value is encoded as the sum of the
// length of the length and the length of the actual value
#[test]
pub fn encoding_uint_test_encode_uint32() {
    let mut sm = encode_uint32(0);
    expect_dbstr(sm, "b0000");

    sm = encode_uint32(1);
    expect_dbstr(sm, "b0001");

    sm = encode_uint32(2);
    expect_dbstr(sm, "b10001");

    sm = encode_uint32(3);
    expect_dbstr(sm, "b10011");

    sm = encode_uint32(7);
    expect_dbstr(sm, "b010111");

    sm = encode_uint32(8);
    expect_dbstr(sm, "b1100001");

    sm = encode_uint32(65535);
    expect_dbstr(sm, "b1111101111111111111111");

    sm = encode_uint32(0xffffffff);
    expect_dbstr(sm, "b111111111111111111111111111111111111111");
}

#[test]
pub fn encoding_uint_test_decode_uint32() {
    for j in 0..2 << 20 {
        let sm = encode_uint32(j as u32);
        let v: u32 = decode_uint32(&sm).unwrap();
        assert!(v == (j as u32));
    }
}

#[test]
pub fn test_uint32_len_encoding() {
    for l in 0..8 {
        let mut sm: DynBitString = DynBitString::null();
        append_uint32_len(l, &mut sm);
        let mut bs_cursor: usize = 0;
        let l2 = read_uint32_len(&sm, &mut bs_cursor).unwrap();
        assert!(l == l2);
    }
}

#[test]
pub fn test_uint_codec_named_values() {
    // the named values survive the round trip exactly
    for v in [0u32, 1, 2, 3, 7, 8, 65535, 0xffffffff] {
        let sm = encode_uint32(v);
        assert_eq!(decode_uint32(&sm).unwrap(), v);
    }
}
