use compress_wi_primes::dyn_bit_string::{append_bits, get_bits, DBSGetBitErr, DynBitString};
use std::str::FromStr;

#[test]
pub fn test_null() {
    let bs = DynBitString::null();
    assert_eq!(bs.len(), 0);
}

#[test]
pub fn test_append() {
    let mut bs = DynBitString::null();
    bs.append(true);
    assert_eq!(bs.len(), 1);
    assert!(bs.get(0));
    bs.append(false);
    assert_eq!(bs.len(), 2);
    assert!(!bs.get(1));
}

#[test]
pub fn test_append_bits() {
    let mut bs = DynBitString::null();
    bs.append(true);
    let mut bs2 = DynBitString::null();
    bs2.append(false);
    bs2.append(true);
    append_bits(&mut bs, &bs2);
    assert!(bs.get(0) && !bs.get(1) && bs.get(2));
}

#[test]
pub fn test_setget() {
    let mut bs = DynBitString::null();
    bs.append(false);
    bs.set(0, true);
    assert!(bs.get(0));
    bs.set(0, false);
    assert!(!bs.get(0));
    bs.set(0, true);
    assert!(bs.get(0));
    bs.append(true);
    assert_eq!(bs.b[0], 3);
}

#[test]
pub fn test_debug_fmt() {
    let bs = DynBitString::from_str("b011").unwrap();
    println!("debug format for empty string: {:?}", bs)
}

#[test]
pub fn test_parse() {
    let bs_result1 = DynBitString::from_str("");
    match bs_result1 {
        Err(_) => {},
        Ok(_) => {
            assert!(false);
        },
    }
    let bs2 = DynBitString::from_str("b").unwrap();
    assert_eq!(bs2.len(), 0);
    let bs3 = DynBitString::from_str("b1").unwrap();
    assert!(bs3.len() == 1 && bs3.get(0));
    let bs4 = DynBitString::from_str("b01").unwrap();
    assert!(bs4.len() == 2 && !bs4.get(0) && bs4.get(1));
}

#[test]
pub fn test_flip() {
    let mut bs = DynBitString::null();
    bs.append(false);
    bs.flip(0);
    assert!(bs.get(0));
    bs.flip(0);
    assert!(!bs.get(0));
}

#[test]
pub fn test_clip() {
    let mut bs = DynBitString::null();
    for k in 0..9 {
        bs.append(k % 2 == 1);
    }
    assert_eq!(bs.len(), 9);
    for k in 0..9 {
        assert_eq!(bs.get(k), k % 2 == 1);
    }
    // case where bitstring shrinks
    bs.clip(2);
    assert_eq!(bs.len(), 2);
    // previously existing bits should be unchanged
    assert!(!bs.get(0));
    assert!(bs.get(1));

    // case where bitstring grows
    bs.clip(15);
    assert_eq!(bs.len(), 15);
    // check that the buffer length is right
    assert_eq!(bs.b.len(), 2);
    // previously existing bits should be unchanged
    assert!(!bs.get(0));
    assert!(bs.get(1));
    // newly allocated bits should be set to zero
    for k in 2..15 {
        assert!(!bs.get(k));
    }
}

#[test]
pub fn test_get_bits() {
    let mut bs = DynBitString::null();
    bs.append(false);
    bs.append(true);
    bs.append(true);
    match get_bits(&bs, 2, 2) {
        Err(ecode) => {
            assert_eq!(ecode, DBSGetBitErr::CountPastEnd);
        },
        Ok(_) => {},
    }
    match get_bits(&bs, 3, 2) {
        Err(ecode) => {
            assert_eq!(ecode, DBSGetBitErr::StartingAtTooBig);
        },
        Ok(_) => {},
    }
    let substr = get_bits(&bs, 1, 2).unwrap();
    assert!(substr.get(0) && substr.get(1));
}

#[test]
pub fn test_clip_idempotent_scenario() {
    // clipping twice to one size leaves exactly one clip's outcome
    let mut a = DynBitString::from_str("b10110").unwrap();
    let mut b = DynBitString::from_str("b10110").unwrap();
    a.clip(3);
    b.clip(3);
    b.clip(3);
    assert_eq!(a.to_text(), "b101");
    assert_eq!(b.to_text(), "b101");
    // growing appends zero bits only
    a.clip(6);
    assert_eq!(a.to_text(), "b101000");
}

#[test]
pub fn test_same_bits() {
    // bit-by-bit equality disregards how the backing bytes came about
    let mut a = DynBitString::from_str("b101110").unwrap();
    a.clip(3);
    let b = DynBitString::from_str("b101").unwrap();
    assert!(a.same_bits(&b));
    let c = DynBitString::from_str("b100").unwrap();
    assert!(!a.same_bits(&c));
}

#[test]
pub fn test_parse_format_round_trip() {
    let bs = DynBitString::parse_text("b101").unwrap();
    assert_eq!(bs.to_text(), "b101");
    let empty = DynBitString::parse_text("b").unwrap();
    assert_eq!(empty.to_text(), "b");
    assert!(DynBitString::parse_text("101").is_err());
    assert!(DynBitString::parse_text("b102").is_err());
}
