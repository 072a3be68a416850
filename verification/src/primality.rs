//! Primality as a specification, and the divisor facts the prime engine's
//! proofs rest on.

use vstd::arithmetic::div_mod::{lemma_fundamental_div_mod, lemma_mod_multiples_basic};
use vstd::prelude::*;

verus! {

/// `n` is prime: at least two, with no divisor strictly between one and
/// itself.
pub open spec fn spec_prime(n: nat) -> bool {
    n >= 2 && forall|d: nat| 2 <= d < n ==> #[trigger] (n % d) != 0
}

/// The least divisor of `m` that is at least `c`; `m` itself when no smaller
/// one exists.
pub open spec fn first_divisor_from(m: nat, c: nat) -> nat
    decreases m - c,
{
    if c >= m || m - c < 0 {
        m
    } else if m % c == 0 {
        c
    } else {
        first_divisor_from(m, c + 1)
    }
}

/// A multiple of `d` leaves no remainder by `d`.
pub proof fn lemma_multiple_mod_zero(k: nat, d: nat)
    requires
        d >= 1,
    ensures
        (k * d) % d == 0,
{
    lemma_mod_multiples_basic(k as int, d as int);
}

/// Divisibility is transitive: what divides a divisor divides the number.
pub proof fn lemma_divides_trans(a: nat, b: nat, c: nat)
    requires
        1 <= a,
        1 <= b,
        b % a == 0,
        c % b == 0,
    ensures
        c % a == 0,
{
    lemma_fundamental_div_mod(c as int, b as int);
    lemma_fundamental_div_mod(b as int, a as int);
    let qc = c as int / b as int;
    let qb = b as int / a as int;
    assert(c == b * qc);
    assert(b == a * qb);
    assert(c == (qb * qc) * a) by (nonlinear_arith)
        requires
            c == b * qc,
            b == a * qb,
    ;
    assert(qc >= 0) by (nonlinear_arith)
        requires
            c == b * qc,
            c >= 0,
            b >= 1,
    ;
    assert(qb >= 0) by (nonlinear_arith)
        requires
            b == a * qb,
            b >= 1,
            a >= 1,
    ;
    lemma_multiple_mod_zero((qb * qc) as nat, a);
}

/// Properties of the least divisor search: it finds a divisor, and nothing
/// below it divides.
pub proof fn lemma_first_divisor(m: nat, c: nat)
    requires
        2 <= c <= m,
    ensures
        c <= first_divisor_from(m, c) <= m,
        m % first_divisor_from(m, c) == 0,
        forall|e: nat| c <= e < first_divisor_from(m, c) ==> #[trigger] (m % e) != 0,
    decreases m - c,
{
    if c >= m {
        lemma_multiple_mod_zero(1, m);
    } else if m % c == 0 {
    } else {
        lemma_first_divisor(m, c + 1);
    }
}

/// The least divisor of `m` from two upward is prime; it divides `m`, and
/// when it is a proper divisor its square stays within `m`.
pub proof fn lemma_prime_factor(m: nat)
    requires
        m >= 2,
    ensures
        spec_prime(first_divisor_from(m, 2)),
        m % first_divisor_from(m, 2) == 0,
        2 <= first_divisor_from(m, 2) <= m,
        first_divisor_from(m, 2) != m ==> first_divisor_from(m, 2) * first_divisor_from(m, 2)
            <= m,
{
    lemma_first_divisor(m, 2);
    let d = first_divisor_from(m, 2);
    // d is prime: a proper divisor of d would divide m below d
    assert forall|e: nat| 2 <= e < d implies #[trigger] (d % e) != 0 by {
        if d % e == 0 {
            lemma_divides_trans(e, d, m);
        }
    }
    if d != m {
        // the cofactor is a divisor of m that is at least d
        lemma_fundamental_div_mod(m as int, d as int);
        let q = m as int / d as int;
        assert(m == d * q);
        assert(q >= 2) by (nonlinear_arith)
            requires
                m == d * q,
                2 <= d < m,
        ;
        assert(m % (q as nat) == 0) by {
            lemma_multiple_mod_zero(d, q as nat);
            assert(d * q == q * d) by (nonlinear_arith);
        }
        if q < d {
            assert(m % (q as nat) != 0);
        }
        assert(d * d <= m) by (nonlinear_arith)
            requires
                m == d * q,
                q >= d,
                d >= 2,
        ;
    }
}

} // verus!
