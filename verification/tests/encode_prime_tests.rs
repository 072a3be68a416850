use compress_wi_primes::dyn_bit_string::DynBitString;
use compress_wi_primes::encode_prime::{
    decode_factors, encode_factors, factors_to_int_as_prms, format_factor_encoding_as_string,
};
use compress_wi_primes::primes;

fn encode_it(n: u32, prms: &Vec<u32>) -> DynBitString {
    let f = primes::factor(n, prms).unwrap();
    encode_factors(&f)
}

fn encoded_int_as_str(bs: &DynBitString) -> String {
    let ixs = decode_factors(bs).unwrap();
    let iap = factors_to_int_as_prms(&ixs);
    let lenstr = iap.prm_powers.len().to_string();
    let mut bstr = lenstr.to_string();
    bstr += "[";
    for prmpwr in iap.prm_powers {
        bstr += "(";
        bstr += prmpwr.prm_idx.to_string().as_str();
        bstr += "_";
        bstr += prmpwr.exp.to_string().as_str();
        bstr += ")";
    }
    bstr += "]";
    bstr
}

fn prod(factors: Vec<u32>) -> u32 {
    let mut product: u32 = 1;
    for next_factor in factors {
        product *= next_factor;
    }
    product
}

#[test]
pub fn test_factors_to_int_as_prms() {
    let f: Vec<u32> = [2u32, 2u32, 3u32, 5u32].to_vec();
    let iap = factors_to_int_as_prms(&f);

    assert_eq!(iap.prm_powers.len(), 3);

    let a1 = &iap.prm_powers[0];
    assert_eq!(a1.exp, 2);
    assert_eq!(a1.prm_idx, 2);

    let a2 = &iap.prm_powers[1];
    assert_eq!(a2.exp, 1);
    assert_eq!(a2.prm_idx, 3);

    let a3 = &iap.prm_powers[2];
    assert_eq!(a3.prm_idx, 5);
    assert_eq!(a3.exp, 1);
}

#[test]
pub fn test_encode_factors() {
    let prms: Vec<u32> = primes::gen_primes_up_to(1 << 16);
    let mut two_to_the_k: u32 = 2;
    for _k in 1..15 {
        two_to_the_k *= 2;
        for j in 0..3 {
            let next_to_factor = two_to_the_k + j - 1;
            let bs = encode_it(next_to_factor, &prms);
            let f = primes::factor(next_to_factor, &prms);
            let encoded_str = format_factor_encoding_as_string(&f.unwrap().as_slice());
            println!(
                "bitstring for {} len {} bitstring {} binary {:?} formatted {}",
                next_to_factor,
                bs.len(),
                encoded_int_as_str(&bs),
                bs,
                encoded_str
            );
        }
    }
}

#[test]
pub fn test_decode_factors() {
    let prms: Vec<u32> = primes::gen_primes_up_to(1 << 16);

    for k in 1 << 1..1 << 15 {
        let bs = encode_it(k, &prms);
        let idx_out = decode_factors(&bs).unwrap();
        let mut f_out: Vec<u32> = vec![];
        for idx in idx_out {
            f_out.push(prms[idx as usize]);
        }
        assert_eq!(prod(f_out), k);
    }
}

#[test]
pub fn test_int_as_prm_to_string() {
    let prms: Vec<u32> = primes::gen_primes_up_to(1 << 8);
    let bs = encode_it(30, &prms);
    println!("encoded_int_to_string {}", encoded_int_as_str(&bs));
}

#[test]
pub fn test_concrete_scenario_thirty() {
    // factoring 30 yields the first three table indices, whose runs all
    // carry exponent one, and the encoding decodes back to them
    let prms: Vec<u32> = primes::gen_primes_up_to(271);
    let f = primes::factor(30, &prms).unwrap();
    assert_eq!(f, vec![0u32, 1, 2]);
    let iap = factors_to_int_as_prms(&f);
    assert_eq!(iap.prm_powers.len(), 3);
    for k in 0..3 {
        assert_eq!(iap.prm_powers[k].prm_idx, k as u32);
        assert_eq!(iap.prm_powers[k].exp, 1);
    }
    let bs = encode_factors(&f);
    assert_eq!(decode_factors(&bs).unwrap(), vec![0u32, 1, 2]);
}

#[test]
pub fn test_factor_round_trips() {
    // assorted shapes: repeated runs, large deltas, single factors
    let cases: Vec<Vec<u32>> = vec![
        vec![0],
        vec![0, 0, 0, 0, 0],
        vec![0, 1, 2],
        vec![5, 5, 5, 9],
        vec![0, 0, 1, 1, 2, 2],
        vec![7],
        vec![0, 4000000000],
        vec![123, 456, 789, 789, 789],
    ];
    for f in cases {
        let bs = encode_factors(&f);
        assert_eq!(decode_factors(&bs).unwrap(), f);
    }
}

#[test]
pub fn test_decode_truncated_errors() {
    // cutting bits off the tail of a valid encoding must be reported,
    // never crash
    let f: Vec<u32> = vec![0, 1, 2, 2];
    let bs = encode_factors(&f);
    let full = bs.len();
    for keep in 0..full {
        let mut cut = bs.duplicate();
        cut.clip(keep);
        match decode_factors(&cut) {
            Ok(out) => {
                // a shorter prefix may still decode; it must then be a
                // well-formed factorization, not the original
                assert!(out != f);
            },
            Err(_) => {},
        }
    }
    let empty = DynBitString::null();
    assert!(decode_factors(&empty).is_err());
}

#[test]
pub fn test_format_factor_encoding_exact() {
    // three runs of one each: count bits, three exponent fields, three
    // index deltas
    let f: Vec<u32> = vec![0, 1, 2];
    let s = format_factor_encoding_as_string(&f);
    assert_eq!(s, "b01100 [ b00 b00 b00 ] [ b0000 b0001 b0001  ] ");
}
