//! The prime table engine: querying an ascending table of primes, and
//! factoring integers by trial division against it.

use crate::encode_prime::non_decreasing;
use crate::primality::{
    first_divisor_from, lemma_divides_trans, lemma_multiple_mod_zero, lemma_prime_factor,
    spec_prime,
};
use vstd::arithmetic::div_mod::lemma_fundamental_div_mod;
use vstd::prelude::*;

verus! {

/// Errors of range-wise prime generation.
#[derive(Debug, PartialEq, Eq, Structural)]
pub enum GenPrimesErrcode {
    PrimesNotEnoughForRange,
}

/// Errors of the factoring algorithm.
#[derive(Debug, PartialEq, Eq, Structural)]
pub enum FactorPrimesErrcode {
    /// the table cannot prove a remaining cofactor prime
    NotEnoughPrimesToFactorIt,
    /// the number is prime but stands beyond the table
    NIsBigPrime,
    /// a leftover cofactor that the table could neither split nor name
    AlgorithmFailed,
}

/// Error of the index lookup.
#[derive(Debug, PartialEq, Eq, Structural)]
pub enum PrimeIndexError {
    NotInList,
}

/// Every element is strictly below the ones after it.
pub open spec fn strictly_increasing(s: Seq<u32>) -> bool {
    forall|i: int, j: int| 0 <= i < j < s.len() ==> s[i] < s[j]
}

/// A well-formed prime table: strictly ascending entries, none below two.
pub open spec fn prms_wf(prms: Seq<u32>) -> bool {
    &&& strictly_increasing(prms)
    &&& forall|i: int| 0 <= i < prms.len() ==> (#[trigger] prms[i]) >= 2
}

/// The table holds every prime up to `bound`.
pub open spec fn contains_all_primes_upto(prms: Seq<u32>, bound: nat) -> bool {
    forall|p: nat| 2 <= p <= bound && #[trigger] spec_prime(p) ==> prms.contains(p as u32)
}

/// The product of the table entries at the given indices.
pub open spec fn table_product(prms: Seq<u32>, ixs: Seq<u32>) -> nat
    decreases ixs.len(),
{
    if ixs.len() == 0 {
        1
    } else {
        table_product(prms, ixs.drop_last()) * (prms[ixs.last() as int] as nat)
    }
}

/// Appending an index multiplies the product by its table entry.
pub proof fn lemma_table_product_push(prms: Seq<u32>, ixs: Seq<u32>, ix: u32)
    ensures
        table_product(prms, ixs.push(ix)) == table_product(prms, ixs) * (prms[ix as int] as nat),
{
    assert(ixs.push(ix).drop_last() =~= ixs);
    assert(ixs.push(ix).last() == ix);
}

/// Find the zero-based index of `k` in the ascending table by binary search.
pub fn index_in_prime_list(k: u32, prms: &[u32]) -> (r: Result<u32, PrimeIndexError>)
    requires
        prms@.len() >= 1,
        strictly_increasing(prms@),
        prms@.len() <= u32::MAX,
    ensures
        r matches Ok(ix) ==> ix < prms@.len() && prms@[ix as int] == k,
        r is Err ==> r == Err::<u32, PrimeIndexError>(PrimeIndexError::NotInList)
            && !prms@.contains(k),
        prms@.contains(k) ==> r is Ok,
{
    let mut lo: usize = 0;
    let mut hi: usize = prms.len();
    while lo < hi
        invariant
            lo <= hi <= prms@.len(),
            prms@.len() <= u32::MAX,
            strictly_increasing(prms@),
            forall|i: int| 0 <= i < lo ==> (#[trigger] prms@[i]) < k,
            forall|i: int| hi <= i < prms@.len() ==> (#[trigger] prms@[i]) > k,
        decreases hi - lo,
    {
        let mid = lo + (hi - lo) / 2;
        proof {
            assert(mid < hi) by (nonlinear_arith)
                requires
                    lo < hi,
                    mid == lo + (hi - lo) / 2,
            ;
        }
        let v = prms[mid];
        if v == k {
            proof {
                assert(prms@[mid as int] == k);
                assert(mid < prms@.len());
                assert(mid <= u32::MAX);
            }
            return Ok(mid as u32);
        } else if v < k {
            proof {
                assert forall|i: int| 0 <= i < mid + 1 implies (#[trigger] prms@[i]) < k by {
                    if i < mid {
                        assert(prms@[i] < prms@[mid as int]);
                    }
                }
            }
            lo = mid + 1;
        } else {
            proof {
                assert forall|i: int| mid <= i < prms@.len() implies (#[trigger] prms@[i])
                    > k by {
                    if i > mid {
                        assert(prms@[mid as int] < prms@[i]);
                    }
                }
            }
            hi = mid;
        }
    }
    Err(PrimeIndexError::NotInList)
}

/// Whether `n` stands in the prime table.
pub fn is_prime(n: u32, prms: &[u32]) -> (r: bool)
    requires
        prms@.len() >= 1,
        strictly_increasing(prms@),
        prms@.len() <= u32::MAX,
    ensures
        r == prms@.contains(n),
{
    index_in_prime_list(n, prms).is_ok()
}

/// Replace each table index by the prime it names.
pub fn indices_to_prime_factors(ixs: &Vec<u32>, prms: &[u32]) -> (f: Vec<u32>)
    requires
        forall|i: int| 0 <= i < ixs@.len() ==> (#[trigger] ixs@[i]) < prms@.len(),
    ensures
        f@.len() == ixs@.len(),
        forall|i: int| 0 <= i < ixs@.len() ==> #[trigger] f@[i] == prms@[ixs@[i] as int],
{
    let mut f: Vec<u32> = Vec::new();
    let mut k: usize = 0;
    while k < ixs.len()
        invariant
            k <= ixs@.len(),
            forall|i: int| 0 <= i < ixs@.len() ==> (#[trigger] ixs@[i]) < prms@.len(),
            f@.len() == k,
            forall|i: int| 0 <= i < k ==> #[trigger] f@[i] == prms@[ixs@[i] as int],
        decreases ixs@.len() - k,
    {
        f.push(prms[ixs[k] as usize]);
        k = k + 1;
    }
    f
}

/// Factor `n` into a non-decreasing list of table indices by trial division,
/// restarting the scan from the table's start after every hit.
///
/// The result's product over the table is exactly `n`. The table is reported
/// too small exactly when its largest entry squared is below `n`; and a
/// table holding every prime up to `n` whose largest entry squared reaches
/// `n` never fails.
#[verifier::rlimit(100)]
pub fn factor(n: u32, prms: &[u32]) -> (r: Result<Vec<u32>, FactorPrimesErrcode>)
    requires
        prms@.len() >= 1,
        prms_wf(prms@),
        prms@.len() <= u32::MAX,
        n >= 2,
    ensures
        r matches Ok(ixs) ==> {
            &&& ixs@.len() >= 1
            &&& non_decreasing(ixs@)
            &&& (forall|i: int| 0 <= i < ixs@.len() ==> (#[trigger] ixs@[i]) < prms@.len())
            &&& table_product(prms@, ixs@) == n
        },
        r == Err::<Vec<u32>, FactorPrimesErrcode>(FactorPrimesErrcode::NotEnoughPrimesToFactorIt)
            <==> (prms@.last() as nat) * (prms@.last() as nat) < n,
        r == Err::<Vec<u32>, FactorPrimesErrcode>(FactorPrimesErrcode::NIsBigPrime) ==> {
            &&& !prms@.contains(n)
            &&& forall|i: int|
                0 <= i < prms@.len() && (prms@[i] as nat) * (prms@[i] as nat) <= n ==> (n as nat)
                    % (#[trigger] prms@[i] as nat) != 0
        },
        (contains_all_primes_upto(prms@, n as nat) && (prms@.last() as nat) * (
        prms@.last() as nat) >= n) ==> r is Ok,
{
    let last_prime = prms[prms.len() - 1];
    proof {
        assert((last_prime as u64) * (last_prime as u64) <= u64::MAX) by (nonlinear_arith)
            requires
                last_prime <= u32::MAX,
        ;
    }
    if (last_prime as u64) * (last_prime as u64) < n as u64 {
        return Err(FactorPrimesErrcode::NotEnoughPrimesToFactorIt);
    }
    let mut num_to_factor = n;
    let mut factors: Vec<u32> = Vec::new();
    let mut stuck = false;
    proof {
        assert(factors@ =~= Seq::<u32>::empty());
        assert(table_product(prms@, factors@) == 1);
    }
    while num_to_factor > 1 && !stuck
        invariant
            prms@.len() >= 1,
            prms_wf(prms@),
            prms@.len() <= u32::MAX,
            n >= 2,
            (prms@.last() as nat) * (prms@.last() as nat) >= n,
            1 <= num_to_factor <= n,
            (num_to_factor as nat) * table_product(prms@, factors@) == n,
            non_decreasing(factors@),
            forall|i: int| 0 <= i < factors@.len() ==> (#[trigger] factors@[i]) < prms@.len(),
            factors@.len() > 0 ==> forall|j: int|
                0 <= j < factors@.last() ==> (num_to_factor as nat) % ((
                #[trigger] prms@[j]) as nat) != 0,
            stuck ==> {
                &&& num_to_factor >= 2
                &&& !prms@.contains(num_to_factor)
                &&& forall|i: int|
                    0 <= i < prms@.len() && (prms@[i] as nat) * (prms@[i] as nat) <= n ==> (
                    num_to_factor as nat) % ((#[trigger] prms@[i]) as nat) != 0
            },
        decreases num_to_factor, (if stuck {
            0int
        } else {
            1int
        }),
    {
        let ghost old_factors = factors@;
        let ghost old_num = num_to_factor;
        match index_in_prime_list(num_to_factor, prms) {
            Ok(ix) => {
                proof {
                    lemma_multiple_mod_zero(1, num_to_factor as nat);
                    assert(1 * (num_to_factor as nat) == num_to_factor as nat);
                    assert((num_to_factor as nat) % (num_to_factor as nat) == 0);
                    if factors@.len() > 0 && ix < factors@.last() {
                        assert((num_to_factor as nat) % ((prms@[ix as int]) as nat) != 0);
                        assert(false);
                    }
                    lemma_table_product_push(prms@, factors@, ix);
                }
                factors.push(ix);
                proof {
                    assert(non_decreasing(factors@)) by {
                        assert forall|a: int, b: int|
                            0 <= a <= b < factors@.len() implies factors@[a] <= factors@[b] by {
                            if b < factors@.len() - 1 {
                                assert(old_factors[a] <= old_factors[b]);
                            } else if a < factors@.len() - 1 {
                                assert(old_factors[a] <= old_factors[old_factors.len() - 1]);
                            }
                        }
                    }
                    assert((num_to_factor as nat) * table_product(prms@, old_factors) == n);
                    assert(table_product(prms@, factors@) == table_product(prms@, old_factors)
                        * (num_to_factor as nat));
                    assert(table_product(prms@, factors@) == n) by (nonlinear_arith)
                        requires
                            (num_to_factor as nat) * table_product(prms@, old_factors) == n,
                            table_product(prms@, factors@) == table_product(prms@, old_factors)
                                * (num_to_factor as nat),
                    ;
                    assert(factors@.len() >= 1);
                    assert(forall|i: int|
                        0 <= i < factors@.len() ==> (#[trigger] factors@[i]) < prms@.len());
                }
                return Ok(factors);
            },
            Err(_) => {},
        }
        let mut j: usize = 0;
        let mut found = false;
        let mut past = false;
        while j < prms.len() && !found && !past
            invariant
                prms@.len() >= 1,
                prms_wf(prms@),
                prms@.len() <= u32::MAX,
                n >= 2,
                2 <= num_to_factor <= n,
                j <= prms@.len(),
                forall|i: int|
                    0 <= i < j ==> (num_to_factor as nat) % ((#[trigger] prms@[i]) as nat) != 0,
                found ==> j < prms@.len() && (num_to_factor as nat) % ((prms@[j as int]) as nat)
                    == 0,
                past ==> j < prms@.len() && (prms@[j as int] as nat) * (prms@[j as int] as nat)
                    > n && (num_to_factor as nat) % ((prms@[j as int]) as nat) != 0,
            decreases prms@.len() - j, (if found || past {
                0int
            } else {
                1int
            }),
        {
            let p = prms[j];
            proof {
                assert((p as u64) * (p as u64) <= u64::MAX) by (nonlinear_arith)
                    requires
                        p <= u32::MAX,
                ;
            }
            if num_to_factor % p == 0 {
                found = true;
            } else if (p as u64) * (p as u64) > n as u64 {
                past = true;
            } else {
                j = j + 1;
            }
        }
        if found {
            let p = prms[j];
            proof {
                lemma_fundamental_div_mod(num_to_factor as int, p as int);
                if factors@.len() > 0 && j < factors@.last() {
                    assert((num_to_factor as nat) % ((prms@[j as int]) as nat) != 0);
                    assert(false);
                }
                lemma_table_product_push(prms@, factors@, j as u32);
            }
            factors.push(j as u32);
            proof {
                assert(non_decreasing(factors@)) by {
                    assert forall|a: int, b: int|
                        0 <= a <= b < factors@.len() implies factors@[a] <= factors@[b] by {
                        if b < factors@.len() - 1 {
                            assert(old_factors[a] <= old_factors[b]);
                        } else if a < factors@.len() - 1 {
                            assert(old_factors[a] <= old_factors[old_factors.len() - 1]);
                        }
                    }
                }
            }
            let q = num_to_factor / p;
            proof {
                assert(old_num == p * q);
                assert(1 <= q < old_num) by (nonlinear_arith)
                    requires
                        old_num == p * q,
                        old_num >= 2,
                        p >= 2,
                ;
                assert((q as nat) * table_product(prms@, factors@) == n) by (nonlinear_arith)
                    requires
                        (old_num as nat) * table_product(prms@, old_factors) == n,
                        table_product(prms@, factors@) == table_product(prms@, old_factors) * (
                        prms@[j as int] as nat),
                        old_num == p * q,
                        p == prms@[j as int],
                ;
                // entries before the found index still divide nothing left
                assert forall|jj: int| 0 <= jj < j implies (q as nat) % ((
                #[trigger] prms@[jj]) as nat) != 0 by {
                    if (q as nat) % ((prms@[jj]) as nat) == 0 {
                        assert((old_num as nat) % (q as nat) == 0) by {
                            assert(old_num == q * p) by (nonlinear_arith)
                                requires
                                    old_num == p * q,
                            ;
                            lemma_multiple_mod_zero(p as nat, q as nat);
                        }
                        lemma_divides_trans(prms@[jj] as nat, q as nat, old_num as nat);
                    }
                }
            }
            num_to_factor = q;
        } else {
            proof {
                // every table entry whose square is within n was tested
                assert forall|i: int|
                    0 <= i < prms@.len() && (prms@[i] as nat) * (prms@[i] as nat)
                        <= n implies (num_to_factor as nat) % ((#[trigger] prms@[i]) as nat)
                    != 0 by {
                    if past {
                        if i > j {
                            assert(prms@[j as int] < prms@[i]);
                            assert((prms@[i] as nat) * (prms@[i] as nat) > n)
                                by (nonlinear_arith)
                                requires
                                    (prms@[j as int] as nat) < (prms@[i] as nat),
                                    (prms@[j as int] as nat) * (prms@[j as int] as nat) > n,
                            ;
                        }
                    }
                }
            }
            stuck = true;
        }
    }
    if factors.len() == 0 {
        proof {
            assert(factors@ =~= Seq::<u32>::empty());
            assert(table_product(prms@, factors@) == 1);
            assert((num_to_factor as nat) * 1 == n as nat);
            assert(num_to_factor == n);
            lemma_no_factor_contradiction(prms@, n, n);
        }
        return Err(FactorPrimesErrcode::NIsBigPrime);
    }
    if num_to_factor > 1 {
        proof {
            lemma_no_factor_contradiction(prms@, n, num_to_factor);
        }
        return Err(FactorPrimesErrcode::AlgorithmFailed);
    }
    proof {
        assert(table_product(prms@, factors@) == n);
    }
    Ok(factors)
}

/// A base table fit for sieving a range: well formed, holding exactly
/// primes, all of them at most `primes_up_to`, and all primes up to there.
pub open spec fn gen_base_ok(prms: Seq<u32>, primes_up_to: u32) -> bool {
    &&& prms.len() >= 1
    &&& prms_wf(prms)
    &&& primes_up_to >= 2
    &&& contains_all_primes_upto(prms, primes_up_to as nat)
    &&& forall|i: int| 0 <= i < prms.len() ==> (#[trigger] prms[i]) <= primes_up_to
}

/// No table entry from `start` on divides `m`.
pub open spec fn no_slice_divisor(m: u32, prms: Seq<u32>, start: int) -> bool {
    forall|j: int| start <= j < prms.len() ==> (m as nat) % ((#[trigger] prms[j]) as nat) != 0
}

/// Find the primes in `[lower_bound, upper_bound]` by trial division of the
/// odd candidates against the base table; the base must cover the square
/// root of the range's top, else the range is refused. With a base holding
/// exactly the primes up to `primes_up_to`, the survivors are exactly the
/// primes of the range above the base.
#[verifier::rlimit(100)]
pub fn gen_primes_in_range(
    old_prms: &Vec<u32>,
    primes_up_to: u32,
    lower_bound: u32,
    upper_bound: u32,
) -> (r: Result<Vec<u32>, GenPrimesErrcode>)
    requires
        old_prms@.len() >= 1,
        prms_wf(old_prms@),
    ensures
        r is Err <==> (primes_up_to as nat) * (primes_up_to as nat) < upper_bound,
        r matches Ok(new_prms) ==> {
            &&& strictly_increasing(new_prms@)
            &&& forall|i: int|
                0 <= i < new_prms@.len() ==> lower_bound <= (#[trigger] new_prms@[i])
                    <= upper_bound && new_prms@[i] % 2 == 1
            &&& (gen_base_ok(old_prms@, primes_up_to) && lower_bound >= 2 ==> forall|i: int|
                0 <= i < new_prms@.len() ==> spec_prime((#[trigger] new_prms@[i]) as nat))
            &&& (gen_base_ok(old_prms@, primes_up_to) ==> forall|m: u32|
                lower_bound <= m <= upper_bound && m > primes_up_to && #[trigger] spec_prime(
                    m as nat,
                ) ==> new_prms@.contains(m))
        },
{
    proof {
        assert((primes_up_to as u64) * (primes_up_to as u64) <= u64::MAX) by (nonlinear_arith)
            requires
                primes_up_to <= u32::MAX,
        ;
    }
    if (primes_up_to as u64) * (primes_up_to as u64) < upper_bound as u64 {
        return Err(GenPrimesErrcode::PrimesNotEnoughForRange);
    }
    let mut candidate = lower_bound;
    if candidate % 2 == 0 {
        candidate = candidate + 1;
    }
    let mut new_prms: Vec<u32> = Vec::new();
    // even numbers are never candidates, so the entry 2 need not be tested
    let start: usize = if old_prms[0] == 2 {
        1
    } else {
        0
    };
    let mut stop = false;
    while candidate <= upper_bound && !stop
        invariant
            old_prms@.len() >= 1,
            prms_wf(old_prms@),
            start == if old_prms@[0] == 2 {
                1int
            } else {
                0int
            },
            (primes_up_to as nat) * (primes_up_to as nat) >= upper_bound,
            lower_bound <= candidate,
            candidate % 2 == 1,
            strictly_increasing(new_prms@),
            forall|i: int|
                0 <= i < new_prms@.len() ==> lower_bound <= (#[trigger] new_prms@[i])
                    <= upper_bound && new_prms@[i] % 2 == 1,
            forall|i: int| 0 <= i < new_prms@.len() ==> (#[trigger] new_prms@[i]) <= candidate,
            !stop ==> forall|i: int| 0 <= i < new_prms@.len() ==> (#[trigger] new_prms@[i])
                < candidate,
            stop ==> candidate == u32::MAX,
            forall|i: int|
                0 <= i < new_prms@.len() ==> no_slice_divisor(
                    #[trigger] new_prms@[i],
                    old_prms@,
                    start as int,
                ),
            forall|m: u32|
                lower_bound <= m <= upper_bound && (m < candidate || (stop && m == candidate))
                    && m % 2 == 1 && no_slice_divisor(m, old_prms@, start as int)
                    ==> new_prms@.contains(m),
        decreases upper_bound + 2 - candidate, (if stop {
            0int
        } else {
            1int
        }),
    {
        let ghost c0 = candidate;
        let ghost np0 = new_prms@;
        let mut factor_found = false;
        let mut j = start;
        while j < old_prms.len() && !factor_found
            invariant
                old_prms@.len() >= 1,
                prms_wf(old_prms@),
                start <= j <= old_prms@.len(),
                forall|i: int|
                    start <= i < j ==> (candidate as nat) % ((#[trigger] old_prms@[i]) as nat)
                        != 0,
                factor_found ==> j < old_prms@.len() && (candidate as nat) % ((
                old_prms@[j as int]) as nat) == 0,
            decreases old_prms@.len() - j, (if factor_found {
                0int
            } else {
                1int
            }),
        {
            if candidate % old_prms[j] == 0 {
                factor_found = true;
            } else {
                j = j + 1;
            }
        }
        proof {
            if factor_found {
                assert(!no_slice_divisor(c0, old_prms@, start as int));
            } else {
                assert(no_slice_divisor(c0, old_prms@, start as int));
            }
        }
        if !factor_found {
            new_prms.push(candidate);
        }
        if candidate < u32::MAX - 1 {
            candidate = candidate + 2;
        } else {
            // stepping further would overflow; the candidate space is spent
            stop = true;
        }
        proof {
            assert forall|m: u32|
                lower_bound <= m <= upper_bound && (m < candidate || (stop && m == candidate))
                    && m % 2 == 1 && no_slice_divisor(m, old_prms@, start as int)
                    implies new_prms@.contains(m) by {
                if m == c0 {
                    assert(!factor_found);
                    assert(new_prms@.last() == m);
                    assert(new_prms@.contains(m));
                } else if m < c0 {
                    assert(np0.contains(m));
                    let ii = choose|ii: int| 0 <= ii < np0.len() && np0[ii] == m;
                    assert(new_prms@[ii] == m);
                } else {
                    // only the even successor lies between the old and new candidate
                    assert(m == c0 + 1);
                    assert((m % 2) == 0);
                }
            }
        }
    }
    proof {
        lemma_gen_range_result(
            old_prms@,
            new_prms@,
            primes_up_to,
            lower_bound,
            upper_bound,
            start as int,
        );
        if gen_base_ok(old_prms@, primes_up_to) {
            assert forall|m: u32|
                lower_bound <= m <= upper_bound && m > primes_up_to && #[trigger] spec_prime(
                    m as nat,
                ) implies new_prms@.contains(m) by {
                assert(m % 2 == 1) by {
                    if (m as nat) % 2 == 0 {
                        assert(2 <= 2 < m as nat);
                        assert((m as nat) % 2 != 0);
                    }
                }
                assert(no_slice_divisor(m, old_prms@, start as int)) by {
                    assert forall|j: int| start <= j < old_prms@.len() implies (m as nat) % ((
                    #[trigger] old_prms@[j]) as nat) != 0 by {
                        assert(2 <= old_prms@[j] <= primes_up_to);
                        assert(2 <= (old_prms@[j] as nat) < m as nat);
                    }
                }
            }
        }
    }
    Ok(new_prms)
}

/// Survivors of the sieve scan are prime, and every range prime above the
/// base survives, once the base holds exactly the primes up to its bound.
proof fn lemma_gen_range_result(
    old_prms: Seq<u32>,
    new_prms: Seq<u32>,
    primes_up_to: u32,
    lower_bound: u32,
    upper_bound: u32,
    start: int,
)
    requires
        old_prms.len() >= 1,
        prms_wf(old_prms),
        start == if old_prms[0] == 2 {
            1int
        } else {
            0int
        },
        (primes_up_to as nat) * (primes_up_to as nat) >= upper_bound,
        forall|i: int|
            0 <= i < new_prms.len() ==> lower_bound <= (#[trigger] new_prms[i]) <= upper_bound
                && new_prms[i] % 2 == 1,
        forall|i: int|
            0 <= i < new_prms.len() ==> no_slice_divisor(#[trigger] new_prms[i], old_prms, start),
    ensures
        gen_base_ok(old_prms, primes_up_to) && lower_bound >= 2 ==> forall|i: int|
            0 <= i < new_prms.len() ==> spec_prime((#[trigger] new_prms[i]) as nat),
{
    if gen_base_ok(old_prms, primes_up_to) && lower_bound >= 2 {
        assert forall|i: int| 0 <= i < new_prms.len() implies spec_prime(
            (#[trigger] new_prms[i]) as nat,
        ) by {
            let e = new_prms[i];
            if !spec_prime(e as nat) {
                assert(e >= 2);
                lemma_prime_factor(e as nat);
                let d = first_divisor_from(e as nat, 2);
                assert(d != e as nat) by {
                    if d == e as nat {
                        assert(spec_prime(e as nat));
                    }
                }
                assert(d * d <= e as nat);
                assert(d <= primes_up_to as nat) by (nonlinear_arith)
                    requires
                        d * d <= e as nat,
                        (e as nat) <= upper_bound as nat,
                        (primes_up_to as nat) * (primes_up_to as nat) >= upper_bound as nat,
                        d >= 0,
                ;
                assert(old_prms.contains(d as u32));
                let jd = choose|jj: int|
                    0 <= jj < old_prms.len() && old_prms[jj] == d as u32;
                assert(d != 2) by {
                    if d == 2 {
                        // an odd survivor has no even divisor
                        assert((e as nat) % 2 == 0);
                        assert((e as nat) % 2 == 1);
                    }
                }
                assert(jd >= start) by {
                    if start == 1 && jd == 0 {
                        assert(old_prms[0] == 2);
                    }
                }
                assert((e as nat) % ((old_prms[jd]) as nat) != 0);
            }
        }
    }
}

/// The largest integer whose square is at most `n`.
pub fn u32_isqrt(n: u32) -> (r: u32)
    ensures
        (r as nat) * (r as nat) <= n,
        (n as nat) < ((r + 1) as nat) * ((r + 1) as nat),
        r <= 65535,
{
    let mut lo: u32 = 0;
    let mut hi: u32 = 65535;
    proof {
        assert((65536 as nat) * (65536 as nat) > u32::MAX) by (nonlinear_arith);
    }
    while lo < hi
        invariant
            lo <= hi <= 65535,
            (lo as nat) * (lo as nat) <= n,
            (n as nat) < ((hi + 1) as nat) * ((hi + 1) as nat),
        decreases hi - lo,
    {
        let mid = lo + (hi - lo + 1) / 2;
        proof {
            assert(lo < mid <= hi) by (nonlinear_arith)
                requires
                    lo < hi,
                    mid == lo + (hi - lo + 1) / 2,
            ;
        }
        proof {
            assert((mid as u64) * (mid as u64) <= u64::MAX) by (nonlinear_arith)
                requires
                    mid <= u32::MAX,
            ;
        }
        if (mid as u64) * (mid as u64) <= n as u64 {
            lo = mid;
        } else {
            hi = mid - 1;
        }
    }
    lo
}

/// Grow a table that holds exactly the primes up to `put` into one that
/// holds exactly the primes up to `ub`, by sieving `(put, ub]` against it.
fn extend_primes(prms: Vec<u32>, put: u32, ub: u32) -> (r: Vec<u32>)
    requires
        gen_base_ok(prms@, put),
        forall|i: int| 0 <= i < prms@.len() ==> spec_prime((#[trigger] prms@[i]) as nat),
        (put as nat) * (put as nat) >= ub,
        2 <= put <= ub,
        put < u32::MAX - 1,
    ensures
        r@.len() >= prms@.len(),
        forall|i: int| 0 <= i < prms@.len() ==> #[trigger] r@[i] == prms@[i],
        prms_wf(r@),
        forall|i: int| 0 <= i < r@.len() ==> spec_prime((#[trigger] r@[i]) as nat),
        forall|i: int| 0 <= i < r@.len() ==> 2 <= (#[trigger] r@[i]) <= ub,
        contains_all_primes_upto(r@, ub as nat),
{
    let gen_result = gen_primes_in_range(&prms, put, put + 1, ub);
    let mut new_part = match gen_result {
        Ok(v) => v,
        Err(_) => {
            proof {
                assert(false);
            }
            Vec::new()
        },
    };
    let ghost old_table = prms@;
    let ghost extra = new_part@;
    let mut out = prms;
    out.append(&mut new_part);
    proof {
        assert(out@ == old_table + extra);
        assert forall|i: int, j: int| 0 <= i < j < out@.len() implies out@[i] < out@[j] by {
            if i < old_table.len() && j >= old_table.len() {
                assert(old_table[i] <= put);
                assert(extra[j - old_table.len()] >= put + 1);
            }
        }
        assert forall|p: nat| 2 <= p <= ub as nat && #[trigger] spec_prime(p) implies
            out@.contains(p as u32) by {
            if p <= put as nat {
                assert(old_table.contains(p as u32));
                let ii = choose|ii: int| 0 <= ii < old_table.len() && old_table[ii] == p as u32;
                assert(out@[ii] == p as u32);
            } else {
                assert(extra.contains(p as u32));
                let ii = choose|ii: int| 0 <= ii < extra.len() && extra[ii] == p as u32;
                assert(out@[old_table.len() + ii] == p as u32);
            }
        }
    }
    out
}

/// Build the full ascending table of primes up to `n`: the table for the
/// range's square root certifies a sieve of the rest. The result holds
/// exactly the primes up to `n`, in order, starting 2, 3, 5.
pub fn gen_primes_up_to(n: u32) -> (prms: Vec<u32>)
    requires
        n >= 5,
    ensures
        prms@.len() >= 3,
        prms@[0] == 2 && prms@[1] == 3 && prms@[2] == 5,
        prms_wf(prms@),
        forall|i: int| 0 <= i < prms@.len() ==> spec_prime((#[trigger] prms@[i]) as nat),
        forall|i: int| 0 <= i < prms@.len() ==> 2 <= (#[trigger] prms@[i]) <= n,
        contains_all_primes_upto(prms@, n as nat),
    decreases n,
{
    let seed: Vec<u32> = vec![2u32, 3u32, 5u32];
    proof {
        lemma_small_primes();
        assert(seed@.len() == 3 && seed@[0] == 2 && seed@[1] == 3 && seed@[2] == 5);
        assert(gen_base_ok(seed@, 5));
    }
    if n == 5 {
        return seed;
    }
    if n <= 25 {
        let out = extend_primes(seed, 5, n);
        return out;
    }
    let r = u32_isqrt(n);
    proof {
        assert(r >= 5) by (nonlinear_arith)
            requires
                (n as nat) < ((r + 1) as nat) * ((r + 1) as nat),
                n >= 26,
        ;
        assert(r + 1 < n) by (nonlinear_arith)
            requires
                (r as nat) * (r as nat) <= n,
                n >= 26,
                r >= 5,
        ;
    }
    let base = gen_primes_up_to(r + 1);
    proof {
        assert(gen_base_ok(base@, (r + 1) as u32));
        assert(((r + 1) as nat) * ((r + 1) as nat) >= n);
    }
    let out = extend_primes(base, r + 1, n);
    proof {
        assert(out@[0] == 2 && out@[1] == 3 && out@[2] == 5);
    }
    out
}

/// The three seed entries are prime, and they are all primes up to five.
proof fn lemma_small_primes()
    ensures
        spec_prime(2),
        spec_prime(3),
        spec_prime(5),
        contains_all_primes_upto(seq![2u32, 3u32, 5u32], 5),
{
    assert(spec_prime(2)) by {
        assert forall|d: nat| 2 <= d < 2 implies #[trigger] (2nat % d) != 0 by {}
    }
    assert(spec_prime(3)) by {
        assert forall|d: nat| 2 <= d < 3 implies #[trigger] (3nat % d) != 0 by {
            assert(d == 2);
            assert(3nat % 2 == 1);
        }
    }
    assert(spec_prime(5)) by {
        assert forall|d: nat| 2 <= d < 5 implies #[trigger] (5nat % d) != 0 by {
            assert(5nat % 2 == 1);
            assert(5nat % 3 == 2);
            assert(5nat % 4 == 1);
        }
    }
    let s = seq![2u32, 3u32, 5u32];
    assert forall|p: nat| 2 <= p <= 5 && #[trigger] spec_prime(p) implies s.contains(
        p as u32,
    ) by {
        if p == 4 {
            assert(4nat % 2 == 0);
        } else {
            assert(p == 2 || p == 3 || p == 5);
            if p == 2 {
                assert(s[0] == p as u32);
            } else if p == 3 {
                assert(s[1] == p as u32);
            } else {
                assert(s[2] == p as u32);
            }
        }
    }
}

/// A number at least two with all its prime factors inside a sufficient
/// table cannot be rejected by the scan: being stuck refutes completeness.
proof fn lemma_no_factor_contradiction(prms: Seq<u32>, n: u32, m: u32)
    requires
        prms.len() >= 1,
        prms_wf(prms),
        m >= 2,
        m <= n,
        !prms.contains(m),
        forall|i: int|
            0 <= i < prms.len() && (prms[i] as nat) * (prms[i] as nat) <= n ==> (m as nat) % ((
            #[trigger] prms[i]) as nat) != 0,
    ensures
        !(contains_all_primes_upto(prms, n as nat) && (prms.last() as nat) * (
        prms.last() as nat) >= n),
{
    if contains_all_primes_upto(prms, n as nat) && (prms.last() as nat) * (prms.last() as nat)
        >= n {
        lemma_prime_factor(m as nat);
        let d = first_divisor_from(m as nat, 2);
        assert(spec_prime(d));
        assert(d <= m <= n);
        assert(prms.contains(d as u32));
        let id = choose|i: int| 0 <= i < prms.len() && prms[i] == d as u32;
        if d == m {
            assert(prms.contains(m));
        } else {
            assert(d * d <= m <= n);
            assert((m as nat) % ((prms[id]) as nat) != 0);
        }
    }
}

/// The product of indexed table entries reaches two to the index count,
/// as every entry is at least two.
proof fn lemma_table_product_lower(prms: Seq<u32>, ixs: Seq<u32>)
    requires
        forall|i: int| 0 <= i < prms.len() ==> (#[trigger] prms[i]) >= 2,
        forall|i: int| 0 <= i < ixs.len() ==> (#[trigger] ixs[i]) < prms.len(),
    ensures
        table_product(prms, ixs) >= vstd::arithmetic::power2::pow2(ixs.len()),
    decreases ixs.len(),
{
    vstd::arithmetic::power2::lemma2_to64();
    if ixs.len() > 0 {
        let t = ixs.drop_last();
        assert(forall|i: int| 0 <= i < t.len() ==> (#[trigger] t[i]) < prms.len());
        lemma_table_product_lower(prms, t);
        vstd::arithmetic::power2::lemma_pow2_adds((ixs.len() - 1) as nat, 1);
        assert(table_product(prms, t) * (prms[ixs.last() as int] as nat)
            >= vstd::arithmetic::power2::pow2((ixs.len() - 1) as nat) * 2) by (nonlinear_arith)
            requires
                table_product(prms, t) >= vstd::arithmetic::power2::pow2(
                    (ixs.len() - 1) as nat,
                ),
                (prms[ixs.last() as int] as nat) >= 2,
        ;
    }
}

/// Every factorization the engine returns can be encoded: a sequence of
/// table indices whose entry product is a 32-bit value has at most 31
/// elements, so its run count and run lengths fit the small-value codec.
pub proof fn lemma_factor_result_encodable(prms: Seq<u32>, ixs: Seq<u32>, n: u32)
    requires
        forall|i: int| 0 <= i < prms.len() ==> (#[trigger] prms[i]) >= 2,
        forall|i: int| 0 <= i < ixs.len() ==> (#[trigger] ixs[i]) < prms.len(),
        ixs.len() >= 1,
        non_decreasing(ixs),
        table_product(prms, ixs) == n,
        n >= 2,
    ensures
        crate::encode_prime::encodable_factors(ixs),
{
    lemma_table_product_lower(prms, ixs);
    vstd::arithmetic::power2::lemma2_to64();
    if ixs.len() >= 32 {
        crate::bit_arith::lemma_pow2_le(32, ixs.len());
        assert(vstd::arithmetic::power2::pow2(ixs.len()) > u32::MAX);
    }
    crate::encode_prime::lemma_rle_sorted(ixs);
}

/// A closed interval `[lower, upper]` of candidate integers assigned to one
/// worker.
#[derive(PartialEq, Eq, Structural, Clone, Copy, Debug)]
pub struct PrimeComputeRange {
    /// bottom of the interval
    pub lower: u32,
    /// top of the interval
    pub upper: u32,
}

/// The ranges one worker processes, in submission order.
#[derive(PartialEq, Clone, Debug)]
pub struct PerThreadRanges {
    /// which worker these ranges belong to
    pub thread_index: u32,
    /// the worker's ranges, in the order they are worked
    pub ranges: Vec<PrimeComputeRange>,
}

/// The lower end of shard `i` when `[lb, lb + total]` is cut into `chunks`
/// proportional pieces.
pub open spec fn shard_lower(lb: u32, total: nat, chunks: nat, i: int) -> int {
    lb + (i * total) / (chunks as int)
}

/// Cut `[prime_lower_bound, prime_upper_bound]` into `chunks` consecutive,
/// non-overlapping intervals that cover it completely.
#[verifier::rlimit(100)]
pub fn shard_prime_calc(chunks: usize, prime_upper_bound: u32, prime_lower_bound: u32) -> (r: Vec<
    PrimeComputeRange,
>)
    requires
        chunks >= 1,
        1 <= prime_lower_bound <= prime_upper_bound,
    ensures
        r@.len() == chunks,
        r@[0].lower == prime_lower_bound,
        r@[chunks - 1].upper == prime_upper_bound,
        forall|i: int| 0 <= i < chunks - 1 ==> (#[trigger] r@[i]).upper + 1 == r@[i + 1].lower,
        forall|i: int|
            0 <= i < chunks ==> prime_lower_bound <= (#[trigger] r@[i]).lower && r@[i].lower
                <= r@[i].upper + 1 && r@[i].upper <= prime_upper_bound,
{
    let ghost lb = prime_lower_bound;
    let ghost ub = prime_upper_bound;
    let total: u128 = (prime_upper_bound - prime_lower_bound) as u128;
    let mut out: Vec<PrimeComputeRange> = Vec::new();
    let mut i: usize = 0;
    while i < chunks
        invariant
            chunks >= 1,
            lb == prime_lower_bound,
            ub == prime_upper_bound,
            1 <= lb <= ub,
            total == (ub - lb) as nat,
            i <= chunks,
            out@.len() == i,
            forall|k: int|
                0 <= k < i ==> (#[trigger] out@[k]).lower == shard_lower(
                    lb,
                    total as nat,
                    chunks as nat,
                    k,
                ),
            forall|k: int|
                0 <= k < i ==> (#[trigger] out@[k]).upper == if k == chunks - 1 {
                    ub as int
                } else {
                    shard_lower(lb, total as nat, chunks as nat, k + 1) - 1
                },
        decreases chunks - i,
    {
        proof {
            lemma_shard_lower_bounds(lb, total as nat, chunks as nat, i as int);
            lemma_shard_lower_bounds(lb, total as nat, chunks as nat, i + 1);
            assert((i as u128) * total <= u128::MAX && ((i + 1) as u128) * total <= u128::MAX)
                by (nonlinear_arith)
                requires
                    i as u128 <= u64::MAX,
                    i + 1 <= u64::MAX,
                    total <= u32::MAX,
            ;
        }
        let cur: u128 = prime_lower_bound as u128 + (i as u128 * total) / chunks as u128;
        let nxt: u128 = prime_lower_bound as u128 + ((i + 1) as u128 * total) / chunks as u128;
        proof {
            assert(cur as int == shard_lower(lb, total as nat, chunks as nat, i as int));
            assert(nxt as int == shard_lower(lb, total as nat, chunks as nat, i + 1));
            assert(lb <= cur <= ub);
            assert(lb <= nxt <= ub);
        }
        let rng_upper: u32 = if i == chunks - 1 {
            prime_upper_bound
        } else {
            (nxt as u32) - 1
        };
        let next_child_state = PrimeComputeRange { upper: rng_upper, lower: cur as u32 };
        out.push(next_child_state);
        i = i + 1;
    }
    proof {
        assert(shard_lower(lb, total as nat, chunks as nat, 0) == lb) by {
            assert((0 * total as int) / (chunks as int) == 0) by (nonlinear_arith)
                requires
                    chunks >= 1,
            ;
        }
        assert forall|k: int| 0 <= k < chunks - 1 implies (#[trigger] out@[k]).upper + 1 == out@[
            k + 1].lower by {}
        assert forall|k: int|
            0 <= k < chunks implies lb <= (#[trigger] out@[k]).lower && out@[k].lower <= out@[
            k].upper + 1 && out@[k].upper <= ub by {
            lemma_shard_lower_bounds(lb, total as nat, chunks as nat, k);
            lemma_shard_lower_bounds(lb, total as nat, chunks as nat, k + 1);
            lemma_shard_lower_mono(lb, total as nat, chunks as nat, k, k + 1);
        }
    }
    out
}

/// A shard's lower end stays inside the whole interval.
proof fn lemma_shard_lower_bounds(lb: u32, total: nat, chunks: nat, i: int)
    requires
        chunks >= 1,
        0 <= i <= chunks,
        lb + total <= u32::MAX,
    ensures
        lb <= shard_lower(lb, total, chunks, i) <= lb + total,
{
    assert(0 <= (i * total) / (chunks as int) <= total) by (nonlinear_arith)
        requires
            chunks >= 1,
            0 <= i <= chunks,
            total >= 0,
    ;
}

/// Shard lower ends never move backwards.
proof fn lemma_shard_lower_mono(lb: u32, total: nat, chunks: nat, i: int, j: int)
    requires
        chunks >= 1,
        0 <= i <= j,
    ensures
        shard_lower(lb, total, chunks, i) <= shard_lower(lb, total, chunks, j),
{
    assert((i * total) / (chunks as int) <= (j * total) / (chunks as int)) by (nonlinear_arith)
        requires
            chunks >= 1,
            0 <= i <= j,
            total >= 0,
    ;
}

/// Deal the shards out to the workers round robin: worker `t` gets shards
/// `t`, `t + nthreads`, `t + 2 * nthreads`, and so on, in that order.
pub fn round_robin_ranges(
    nthreads: usize,
    per_thread_range_count: usize,
    small_ranges: &Vec<PrimeComputeRange>,
) -> (r: Vec<PerThreadRanges>)
    requires
        1 <= nthreads <= u32::MAX,
        per_thread_range_count >= 1,
        small_ranges@.len() == nthreads * per_thread_range_count,
    ensures
        r@.len() == nthreads,
        forall|t: int|
            0 <= t < nthreads ==> (#[trigger] r@[t]).thread_index == t && r@[t].ranges@.len()
                == per_thread_range_count,
        forall|t: int, k: int|
            0 <= t < nthreads && 0 <= k < per_thread_range_count ==> (#[trigger] r@[t].ranges@[k])
                == small_ranges@[t + nthreads * k],
{
    let total_len = small_ranges.len();
    let mut r: Vec<PerThreadRanges> = Vec::new();
    let mut t: usize = 0;
    while t < nthreads
        invariant
            1 <= nthreads <= u32::MAX,
            per_thread_range_count >= 1,
            small_ranges@.len() == nthreads * per_thread_range_count,
            small_ranges@.len() <= usize::MAX,
            t <= nthreads,
            r@.len() == t,
            forall|tt: int|
                0 <= tt < t ==> (#[trigger] r@[tt]).thread_index == tt && r@[tt].ranges@.len()
                    == per_thread_range_count,
            forall|tt: int, k: int|
                0 <= tt < t && 0 <= k < per_thread_range_count ==> (
                #[trigger] r@[tt].ranges@[k]) == small_ranges@[tt + nthreads * k],
        decreases nthreads - t,
    {
        let mut per_thread_range = PerThreadRanges { thread_index: t as u32, ranges: Vec::new() };
        let mut k: usize = 0;
        while k < per_thread_range_count
            invariant
                1 <= nthreads <= u32::MAX,
                t < nthreads,
                small_ranges@.len() == nthreads * per_thread_range_count,
                small_ranges@.len() <= usize::MAX,
                k <= per_thread_range_count,
                per_thread_range.thread_index == t,
                per_thread_range.ranges@.len() == k,
                forall|kk: int|
                    0 <= kk < k ==> (#[trigger] per_thread_range.ranges@[kk]) == small_ranges@[t
                        + nthreads * kk],
            decreases per_thread_range_count - k,
        {
            proof {
                assert(nthreads * k <= nthreads * per_thread_range_count && t + nthreads * k
                    < nthreads * per_thread_range_count) by (nonlinear_arith)
                    requires
                        t < nthreads,
                        0 <= k < per_thread_range_count,
                        nthreads >= 1,
                ;
            }
            let next_range_index = t + nthreads * k;
            let next_small_range = small_ranges[next_range_index];
            per_thread_range.ranges.push(next_small_range);
            k = k + 1;
        }
        r.push(per_thread_range);
        t = t + 1;
    }
    r
}

/// Let the coordinator take one worker's shard result into the global table:
/// the chunk must be ascending and lie wholly above what is merged already,
/// else nothing changes and the merge is refused.
pub fn append_prime_chunk(prms: &mut Vec<u32>, chunk: &Vec<u32>) -> (ok: bool)
    requires
        strictly_increasing(old(prms)@),
    ensures
        ok <==> strictly_increasing(chunk@) && (old(prms)@.len() == 0 || chunk@.len() == 0 || old(
            prms,
        )@.last() < chunk@[0]),
        ok ==> final(prms)@ == old(prms)@ + chunk@ && strictly_increasing(final(prms)@),
        !ok ==> final(prms)@ == old(prms)@,
{
    let mut k: usize = 1;
    while k < chunk.len()
        invariant
            1 <= k,
            chunk@.len() >= 1 ==> k <= chunk@.len(),
            forall|i: int, j: int| 0 <= i < j < k && j < chunk@.len() ==> chunk@[i] < chunk@[j],
        decreases chunk@.len() - k,
    {
        if chunk[k - 1] >= chunk[k] {
            proof {
                assert(!strictly_increasing(chunk@));
            }
            return false;
        }
        k = k + 1;
    }
    proof {
        assert(strictly_increasing(chunk@));
    }
    if prms.len() > 0 && chunk.len() > 0 && prms[prms.len() - 1] >= chunk[0] {
        return false;
    }
    let mut i: usize = 0;
    while i < chunk.len()
        invariant
            i <= chunk@.len(),
            prms@ == old(prms)@ + chunk@.take(i as int),
        decreases chunk@.len() - i,
    {
        prms.push(chunk[i]);
        i = i + 1;
        proof {
            assert(old(prms)@ + chunk@.take(i - 1) + seq![chunk@[i - 1]] =~= old(prms)@
                + chunk@.take(i as int));
        }
    }
    proof {
        assert(chunk@.take(chunk@.len() as int) =~= chunk@);
        assert forall|a: int, b: int| 0 <= a < b < prms@.len() implies prms@[a] < prms@[b] by {
            if a < old(prms)@.len() && b >= old(prms)@.len() {
                assert(old(prms)@[a] <= old(prms)@.last());
                assert(chunk@[0] <= chunk@[b - old(prms)@.len()]) by {
                    if b - old(prms)@.len() > 0 {
                        assert(chunk@[0] < chunk@[b - old(prms)@.len()]);
                    }
                }
            }
        }
    }
    true
}

/// Factor every integer of `[lo, hi)` against the table and confirm each
/// outcome; returns `hi`, the first integer past the verified interval.
/// What the workers of the parallel self-check once asserted at run time is
/// here a consequence of the factoring contract.
pub fn test_factors_in_range(lo: u32, hi: u32, prms: &[u32]) -> (r: u32)
    requires
        prms@.len() >= 1,
        prms_wf(prms@),
        prms@.len() <= u32::MAX,
        2 <= lo,
        contains_all_primes_upto(prms@, hi as nat),
        (prms@.last() as nat) * (prms@.last() as nat) >= hi,
    ensures
        r == hi,
{
    let mut k = lo;
    while k < hi
        invariant
            prms@.len() >= 1,
            prms_wf(prms@),
            prms@.len() <= u32::MAX,
            2 <= lo <= k,
            contains_all_primes_upto(prms@, hi as nat),
            (prms@.last() as nat) * (prms@.last() as nat) >= hi,
        decreases hi - k,
    {
        let r = factor(k, prms);
        match r {
            Ok(ixs) => {
                proof {
                    // the product of the returned factors is the candidate
                    assert(table_product(prms@, ixs@) == k);
                }
            },
            Err(_) => {
                proof {
                    assert(contains_all_primes_upto(prms@, k as nat));
                    assert(false);
                }
                return k;
            },
        }
        k = k + 1;
    }
    hi
}

} // verus!
