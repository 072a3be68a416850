use compress_wi_primes::dyn_bit_string::DynBitString;
use compress_wi_primes::encoding_small_int::SmallIntEncoding;
use std::str::FromStr;

#[test]
pub fn test_append_uint32() {
    let test_cases = vec![
        (0, "b00"),
        (1, "b10"),
        (2, "b01100"),
        (5, "b11010"),
        (6, "b01110"),
        (7, "b11110"),
        (15, "b1111110"),
        (16, "b0100101"),
        (31, "b1111111"),
    ];

    for (v, enc_str) in test_cases {
        let mut t = SmallIntEncoding::new();
        t.append_uint32(v);
        let bs = t.get_bitstr_encoding();
        let expected_bs = DynBitString::from_str(enc_str).unwrap();
        assert_eq!(bs, expected_bs);
    }
}

#[test]
pub fn test_read_uint32() {
    let mut t = SmallIntEncoding::new();
    let v_in: [u32; 5] = [0, 1, 2, 6, 7];
    for k in 0..5 {
        t.append_uint32(v_in[k]);
    }
    let mut cursor: usize = 0;
    for i in 0..5 {
        assert_eq!(t.read_uint32(&mut cursor).unwrap(), v_in[i]);
    }
}

#[test]
pub fn test_small_codec_round_trip_all() {
    // every value of the bounded domain survives the round trip
    for v in 0..32u32 {
        let mut t = SmallIntEncoding::new();
        t.append_uint32(v);
        let mut cursor: usize = 0;
        assert_eq!(t.read_uint32(&mut cursor).unwrap(), v);
        assert_eq!(cursor, t.get_bitstr_encoding().len());
    }
}

#[test]
pub fn test_small_codec_read_past_end() {
    let t = SmallIntEncoding::new();
    let mut cursor: usize = 0;
    assert!(t.read_uint32(&mut cursor).is_err());
    let mut one_bit = SmallIntEncoding::new();
    one_bit.append_uint32(0);
    let mut cursor2: usize = 1;
    // one flag bit short of a full second value
    assert!(one_bit.read_uint32(&mut cursor2).is_err());
}
