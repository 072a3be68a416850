use compress_wi_primes::prime_store::{primes_from_be_bytes, primes_to_be_bytes};
use compress_wi_primes::primes::{
    append_prime_chunk, factor, gen_primes_in_range, gen_primes_up_to, index_in_prime_list,
    is_prime, indices_to_prime_factors, round_robin_ranges, shard_prime_calc,
    test_factors_in_range, u32_isqrt, FactorPrimesErrcode, GenPrimesErrcode, PrimeIndexError,
};

fn starter_primes() -> Vec<u32> {
    vec![2, 3, 5]
}

fn primes_up_to_271() -> Vec<u32> {
    vec![
        2, 3, 5, 7, 11, 13, 17, 19, 23, 29, 31, 37, 41, 43, 47, 53, 59, 61, 67, 71, 73, 79, 83,
        89, 97, 101, 103, 107, 109, 113, 127, 131, 137, 139, 149, 151, 157, 163, 167, 173, 179,
        181, 191, 193, 197, 199, 211, 223, 227, 229, 233, 239, 241, 251, 257, 263, 269, 271,
    ]
}

#[test]
pub fn test_index_in_prime_list() {
    let test_prms: Vec<u32> = starter_primes();
    assert_eq!(index_in_prime_list(5, &test_prms), Ok(2));
    assert_eq!(index_in_prime_list(4, &test_prms), Err(PrimeIndexError::NotInList));
    assert_eq!(index_in_prime_list(1, &test_prms), Err(PrimeIndexError::NotInList));
}

#[test]
pub fn test_is_prime() {
    let test_prms: Vec<u32> = starter_primes();
    assert!(is_prime(2, &test_prms));
    assert!(!is_prime(4, &test_prms));
}

#[test]
pub fn test_indices_to_prime_factors() {
    let test_prms: Vec<u32> = primes_up_to_271();
    let f = [0, 1, 2].to_vec();
    let fct = indices_to_prime_factors(&f, &test_prms);
    assert!(fct.len() == 3 && fct[0] == 2 && fct[1] == 3 && fct[2] == 5);
}

#[test]
pub fn test_factors() {
    let prms: Vec<u32> = primes_up_to_271();

    // must have enough primes so that sqrt(n) <= largest prime

    let too_big_to_factor = 271 * 271 + 1;
    let rslt = factor(too_big_to_factor, &prms);
    match rslt {
        Ok(_) => {
            assert!(false);
        },
        Err(e) => {
            assert!(e == FactorPrimesErrcode::NotEnoughPrimesToFactorIt);
        },
    };

    // n could be prime but larger than any in prms
    let big_prime = 23;
    let small_prime_list = starter_primes();
    let rslt2 = factor(big_prime, &small_prime_list);
    match rslt2 {
        Ok(_) => {
            assert!(false);
        },
        Err(e) => {
            assert!(e == FactorPrimesErrcode::NIsBigPrime);
        },
    };

    // check it for primes that we know of already

    for i in 2..272 {
        let f = factor(i, &prms).unwrap();
        println!("{} factors {:?}", i, f);
        let mut prod: u32 = 1;
        let mut last_val: u32 = 0;
        // test that elements are non-decreasing and prime
        // test that product of these elements is the number being factored, i
        for k in f {
            let next_prime = prms[k as usize];

            prod *= next_prime;

            let factors_of_prime = factor(next_prime, &prms).unwrap();
            assert!(factors_of_prime.len() == 1);
            assert!(factors_of_prime[0] == k);

            assert!(last_val <= k);
            last_val = k;
        }
        assert!(prod == i);
    }
}

#[test]
pub fn test_factor_leftover_cofactor() {
    // a composite whose large prime cofactor the table cannot name
    let prms: Vec<u32> = vec![2, 3, 5, 7];
    assert_eq!(factor(46, &prms), Err(FactorPrimesErrcode::AlgorithmFailed));
}

#[test]
pub fn test_gen_primes_in_range() {
    let mut old_prms: Vec<u32> = primes_up_to_271();
    let gen_primes_result = gen_primes_in_range(&old_prms, 271, 1000000, 2000000);
    match gen_primes_result {
        Err(GenPrimesErrcode::PrimesNotEnoughForRange) => {},
        Ok(_) => {
            assert!(false);
        },
    }
    let lower_bound: u32 = 273;
    let upper_bound: u32 = 1000;
    let mut new_prms = gen_primes_in_range(&old_prms, 271, lower_bound, upper_bound).unwrap();
    let mut old_and_new_prms: Vec<u32> = Vec::new();
    old_and_new_prms.append(&mut old_prms);
    println!("primes in range [{}, {}] = {:?}", lower_bound, upper_bound, new_prms);
    old_and_new_prms.append(&mut new_prms);
    let nonmut_old_and_new = &old_and_new_prms;

    for j in 0..old_and_new_prms.len() {
        let next_primes_factors = factor(old_and_new_prms[j], nonmut_old_and_new).unwrap();
        assert!(next_primes_factors.len() == 1 && next_primes_factors[0] == j as u32);
    }
}

#[test]
pub fn test_gen_primes_up_to_271() {
    // the 58 primes up to 271, exactly and in order
    let prms = gen_primes_up_to(271);
    assert_eq!(prms, primes_up_to_271());
    let mut last_k: u32 = 0;
    for k in &prms {
        assert!(*k > last_k);
        last_k = *k;
        assert!(is_prime(*k, &prms));
    }
}

#[test]
pub fn test_u32_isqrt() {
    assert_eq!(u32_isqrt(0), 0);
    assert_eq!(u32_isqrt(1), 1);
    assert_eq!(u32_isqrt(3), 1);
    assert_eq!(u32_isqrt(4), 2);
    assert_eq!(u32_isqrt(24), 4);
    assert_eq!(u32_isqrt(25), 5);
    assert_eq!(u32_isqrt(26), 5);
    assert_eq!(u32_isqrt(u32::MAX), 65535);
}

#[test]
pub fn test_shard_prime_calc_partition() {
    let shards = shard_prime_calc(4, 101, 2);
    assert_eq!(shards.len(), 4);
    assert_eq!(shards[0].lower, 2);
    assert_eq!(shards[3].upper, 101);
    for i in 0..3 {
        assert_eq!(shards[i].upper + 1, shards[i + 1].lower);
    }
    // more shards than candidates still covers the interval
    let tiny = shard_prime_calc(5, 4, 2);
    assert_eq!(tiny.len(), 5);
    assert_eq!(tiny[0].lower, 2);
    assert_eq!(tiny[4].upper, 4);
    for i in 0..4 {
        assert_eq!(tiny[i].upper + 1, tiny[i + 1].lower);
    }
}

#[test]
pub fn test_round_robin_ranges() {
    let shards = shard_prime_calc(6, 1000, 10);
    let assigned = round_robin_ranges(2, 3, &shards);
    assert_eq!(assigned.len(), 2);
    for t in 0..2 {
        assert_eq!(assigned[t].thread_index, t as u32);
        assert_eq!(assigned[t].ranges.len(), 3);
        for k in 0..3 {
            assert_eq!(assigned[t].ranges[k], shards[t + 2 * k]);
        }
    }
}

#[test]
pub fn test_append_prime_chunk() {
    let mut prms: Vec<u32> = vec![2, 3, 5];
    assert!(append_prime_chunk(&mut prms, &vec![7, 11]));
    assert_eq!(prms, vec![2, 3, 5, 7, 11]);
    // a chunk overlapping what is merged already is refused
    assert!(!append_prime_chunk(&mut prms, &vec![11, 13]));
    assert_eq!(prms, vec![2, 3, 5, 7, 11]);
    // an unsorted chunk is refused
    assert!(!append_prime_chunk(&mut prms, &vec![17, 13]));
    assert_eq!(prms, vec![2, 3, 5, 7, 11]);
}

#[test]
pub fn test_factors_in_range_small() {
    let prms = gen_primes_up_to(1000);
    assert_eq!(test_factors_in_range(2, 100, &prms), 100);
}

#[test]
pub fn test_persistence_round_trip() {
    // serializing the table of primes up to 271 and reading it back gives
    // the table unchanged
    let prms = gen_primes_up_to(271);
    let bytes = primes_to_be_bytes(&prms);
    assert_eq!(bytes.len(), 4 * 58);
    // records are big endian: the first prime is 2
    assert_eq!(bytes[0], 0);
    assert_eq!(bytes[1], 0);
    assert_eq!(bytes[2], 0);
    assert_eq!(bytes[3], 2);
    let back = primes_from_be_bytes(&bytes);
    assert_eq!(back, prms);
}

#[test]
pub fn test_be_bytes_large_value() {
    let prms: Vec<u32> = vec![0x12345678, 0xffffffff];
    let bytes = primes_to_be_bytes(&prms);
    assert_eq!(bytes, vec![0x12, 0x34, 0x56, 0x78, 0xff, 0xff, 0xff, 0xff]);
    assert_eq!(primes_from_be_bytes(&bytes), prms);
}
