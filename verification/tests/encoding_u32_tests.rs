use compress_wi_primes::dyn_bit_string::DynBitString;
use compress_wi_primes::encoding_u32::U32Encoding;
use std::str::FromStr;

// expect a dynamic bitstring specified by the text string parameter
// useful for regression testing
fn expect_dbstr(bs: DynBitString, expected_bitstring_text: &str) {
    let r = DynBitString::from_str(expected_bitstring_text);
    match r {
        Err(e) => {
            panic!("ERROR - {}", e);
        },
        Ok(expected_bs) => {
            if expected_bs != bs {
                panic!("expected bitstring {:?}, got bitstring {:?}\n", expected_bs, bs);
            }
        },
    }
}

// encode a single integer, not an integer sequence
fn encode_uint32(v_in: u32) -> DynBitString {
    let mut int_encoding = U32Encoding::new();
    int_encoding.append_uint32(v_in);
    int_encoding.get_bitstr_encoding()
}

// when you only need to decode a single integer, not an integer sequence
fn decode_uint32(enc_len_val: &DynBitString) -> u32 {
    let mut bitstring_cursor: usize = 0;
    let u32_enc = U32Encoding::from_bitstr_encoding(enc_len_val.duplicate());
    u32_enc.read_uint32(&mut bitstring_cursor).unwrap()
}

// each bit string length test expected value is encoded as the sum of the
// length of the length and the length of the actual value
#[test]
pub fn encoding_u32_test_encode_uint32() {
    let mut sm = encode_uint32(0);
    expect_dbstr(sm, "b0000");

    sm = encode_uint32(1);
    expect_dbstr(sm, "b0001");

    sm = encode_uint32(2);
    expect_dbstr(sm, "b10001");

    sm = encode_uint32(3);
    expect_dbstr(sm, "b10011");

    sm = encode_uint32(7);
    expect_dbstr(sm, "b010111");

    sm = encode_uint32(8);
    expect_dbstr(sm, "b1100001");

    sm = encode_uint32(65535);
    expect_dbstr(sm, "b1111101111111111111111");

    sm = encode_uint32(0xffffffff);
    expect_dbstr(sm, "b11111111111111111111111111111111111111");
}

#[test]
pub fn encoding_u32_test_decode_uint32() {
    for j in 0..2 << 20 {
        let sm = encode_uint32(j as u32);
        let v: u32 = decode_uint32(&sm);
        assert_eq!(v, j as u32);
    }
}

#[test]
pub fn test_u32_codec_named_values() {
    // the named values survive the round trip exactly
    for v in [0u32, 1, 2, 3, 7, 8, 65535, 0xffffffff] {
        let sm = encode_uint32(v);
        assert_eq!(decode_uint32(&sm), v);
    }
}

#[test]
pub fn test_u32_codec_read_past_end() {
    let enc = U32Encoding::new();
    let mut cursor: usize = 0;
    assert!(enc.read_uint32(&mut cursor).is_err());
    // a length field announcing more value bits than remain
    let truncated = DynBitString::from_str("b111111").unwrap();
    let enc2 = U32Encoding::from_bitstr_encoding(truncated);
    let mut cursor2: usize = 0;
    assert!(enc2.read_uint32(&mut cursor2).is_err());
}
