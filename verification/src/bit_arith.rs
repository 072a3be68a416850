//! Bit-level views of unsigned integers shared by the variable-length codecs:
//! single-bit projection, bit length, and the value denoted by a
//! least-significant-first bit sequence.

use vstd::arithmetic::div_mod::{lemma_mod_breakdown, lemma_small_mod};
use vstd::arithmetic::power2::{lemma2_to64, lemma_pow2_adds, lemma_pow2_pos, pow2};
use vstd::prelude::*;

verus! {

/// Bit `k` of `v`, least significant bit being bit 0.
pub open spec fn bit_of(v: u32, k: nat) -> bool {
    (v >> (k as u32)) & 1 == 1
}

/// Number of binary digits needed to write `v`; zero for zero.
pub open spec fn bit_len(v: nat) -> nat
    decreases v,
{
    if v == 0 {
        0
    } else {
        1 + bit_len(v / 2)
    }
}

/// The first `n` bits of `v`, least significant first.
pub open spec fn bits_lsb(v: u32, n: nat) -> Seq<bool> {
    Seq::new(n, |j: int| bit_of(v, j as nat))
}

/// The number denoted by a bit sequence read least significant bit first.
pub open spec fn val_of(s: Seq<bool>) -> nat
    decreases s.len(),
{
    if s.len() == 0 {
        0
    } else {
        (if s[0] {
            1nat
        } else {
            0nat
        }) + 2 * val_of(s.subrange(1, s.len() as int))
    }
}

/// The value bits a codec emits for `v`: one zero bit for zero, otherwise the
/// binary digits of `v` from least to most significant.
pub open spec fn vbits(v: u32) -> Seq<bool> {
    if v == 0 {
        seq![false]
    } else {
        bits_lsb(v, bit_len(v as nat))
    }
}

/// The biased length field the codecs emit before the value bits: the bit
/// length of `v` minus one, with zero standing for both the values 0 and 1.
pub open spec fn len_field_val(v: u32) -> nat {
    if v == 0 {
        0
    } else {
        (bit_len(v as nat) - 1) as nat
    }
}

/// `v` written in `bit_len(v)` digits: upper bound, and lower bound when
/// `v > 0`.
pub proof fn lemma_bit_len_bounds(v: nat)
    ensures
        v < pow2(bit_len(v)),
        v > 0 ==> pow2((bit_len(v) - 1) as nat) <= v,
    decreases v,
{
    lemma2_to64();
    if v != 0 {
        lemma_bit_len_bounds(v / 2);
        lemma_pow2_adds((bit_len(v) - 1) as nat, 1);
        if v / 2 > 0 {
            lemma_pow2_adds((bit_len(v) - 2) as nat, 1);
        }
    }
}

/// `bit_len` is the least number of digits: `v` fits in `n` digits exactly
/// when `bit_len(v) <= n`.
pub proof fn lemma_bit_len_le_iff(v: nat, n: nat)
    ensures
        bit_len(v) <= n <==> v < pow2(n),
    decreases n,
{
    lemma_bit_len_bounds(v);
    if bit_len(v) <= n {
        lemma_pow2_le(bit_len(v), n);
    }
    if v < pow2(n) && bit_len(v) > n {
        lemma_pow2_le(n, (bit_len(v) - 1) as nat);
    }
}

/// Monotonicity of `pow2`.
pub proof fn lemma_pow2_le(a: nat, b: nat)
    requires
        a <= b,
    ensures
        pow2(a) <= pow2(b),
{
    lemma_pow2_adds(a, (b - a) as nat);
    lemma_pow2_pos((b - a) as nat);
    assert(pow2(a) * 1 <= pow2(a) * pow2((b - a) as nat)) by (nonlinear_arith)
        requires
            pow2((b - a) as nat) >= 1,
            pow2(a) >= 0,
    ;
}

/// A `u32` needs at most 32 digits.
pub proof fn lemma_bit_len_u32(v: u32)
    ensures
        bit_len(v as nat) <= 32,
{
    lemma_bit_len_le_iff(v as nat, 32);
    lemma2_to64();
}

/// Dropping the first of `n` bits of `v` leaves the first `n - 1` bits of
/// `v / 2`.
proof fn lemma_bits_lsb_shift(v: u32, n: nat)
    requires
        n >= 1,
        n <= 32,
    ensures
        bits_lsb(v, n).subrange(1, n as int) =~= bits_lsb(v / 2, (n - 1) as nat),
{
    assert forall|j: int| 0 <= j < n - 1 implies #[trigger] bit_of(v, (j + 1) as nat) == bit_of(
        v / 2,
        j as nat,
    ) by {
        let ju = j as u32;
        assert((v >> vstd::prelude::add(ju, 1)) & 1 == ((v / 2) >> ju) & 1) by (bit_vector)
            requires
                ju < 32,
        ;
    }
}

/// Reading back the first `n` bits of `v` yields `v` modulo `2^n`.
pub proof fn lemma_val_of_bits_lsb(v: u32, n: nat)
    requires
        n <= 32,
    ensures
        val_of(bits_lsb(v, n)) == (v as nat) % pow2(n),
    decreases n,
{
    lemma2_to64();
    if n == 0 {
    } else {
        lemma_bits_lsb_shift(v, n);
        lemma_val_of_bits_lsb(v / 2, (n - 1) as nat);
        let s = bits_lsb(v, n);
        assert(s[0] == bit_of(v, 0));
        assert((v >> 0u32) & 1 == v % 2) by (bit_vector);
        assert(v / 2 == v >> 1u32) by (bit_vector);
        lemma_pow2_pos((n - 1) as nat);
        lemma_mod_breakdown(v as int, 2, pow2((n - 1) as nat) as int);
        lemma_pow2_adds(1, (n - 1) as nat);
    }
}

/// A shifted-out low bit is zero or one.
pub proof fn lemma_bit01(v: u32, k: u32)
    by (bit_vector)
    requires
        k < 32,
    ensures
        ((v >> k) & 1) == 0 || ((v >> k) & 1) == 1,
{
}

/// A value below 2 is its own lowest bit.
pub proof fn lemma_reconstruct2(v: u32)
    by (bit_vector)
    requires
        v < 2,
    ensures
        ((v >> 0u32) & 1) == v,
{
}

/// A value below 4 is the weighted sum of its two lowest bits.
pub proof fn lemma_reconstruct4(v: u32)
    by (bit_vector)
    requires
        v < 4,
    ensures
        ((v >> 0u32) & 1) + 2 * ((v >> 1u32) & 1) == v,
{
}

/// A value below 8 is the weighted sum of its three lowest bits.
pub proof fn lemma_reconstruct8(v: u32)
    by (bit_vector)
    requires
        v < 8,
    ensures
        ((v >> 0u32) & 1) + 2 * ((v >> 1u32) & 1) + 4 * ((v >> 2u32) & 1) == v,
{
}

/// A value below 16 is the weighted sum of its four lowest bits.
pub proof fn lemma_reconstruct16(v: u32)
    by (bit_vector)
    requires
        v < 16,
    ensures
        ((v >> 0u32) & 1) + 2 * ((v >> 1u32) & 1) + 4 * ((v >> 2u32) & 1) + 8 * ((v >> 3u32) & 1)
            == v,
{
}

/// A value below 32 is the weighted sum of its five lowest bits.
pub proof fn lemma_reconstruct32(v: u32)
    by (bit_vector)
    requires
        v < 32,
    ensures
        ((v >> 0u32) & 1) + 2 * ((v >> 1u32) & 1) + 4 * ((v >> 2u32) & 1) + 8 * ((v >> 3u32) & 1)
            + 16 * ((v >> 4u32) & 1) == v,
{
}

/// Appending a bit at the end adds its weight at the sequence's length.
pub proof fn lemma_val_of_snoc(t: Seq<bool>, b: bool)
    ensures
        val_of(t.push(b)) == val_of(t) + if b {
            pow2(t.len())
        } else {
            0nat
        },
    decreases t.len(),
{
    let s = t.push(b);
    lemma2_to64();
    if t.len() == 0 {
        assert(s.len() == 1 && s[0] == b);
        assert(s.subrange(1, 1) =~= Seq::<bool>::empty());
        assert(val_of(Seq::<bool>::empty()) == 0);
        assert(val_of(s) == if b {
            1nat
        } else {
            0nat
        });
    } else {
        let tail = t.subrange(1, t.len() as int);
        assert(s.subrange(1, s.len() as int) =~= tail.push(b));
        lemma_val_of_snoc(tail, b);
        lemma_pow2_adds(1, (t.len() - 1) as nat);
        assert(s[0] == t[0]);
        assert(val_of(s) == (if s[0] {
            1nat
        } else {
            0nat
        }) + 2 * val_of(tail.push(b)));
        assert(val_of(t) == (if t[0] {
            1nat
        } else {
            0nat
        }) + 2 * val_of(tail));
    }
}

/// A bit sequence denotes a value below two to its length.
pub proof fn lemma_val_of_bound(s: Seq<bool>)
    ensures
        val_of(s) < pow2(s.len()),
    decreases s.len(),
{
    lemma2_to64();
    if s.len() > 0 {
        lemma_val_of_bound(s.subrange(1, s.len() as int));
        lemma_pow2_adds(1, (s.len() - 1) as nat);
    }
}

/// The value bits of `v` denote `v` itself.
pub proof fn lemma_val_of_vbits(v: u32)
    ensures
        val_of(vbits(v)) == v,
        vbits(v).len() == len_field_val(v) + 1,
{
    if v == 0 {
        let s = seq![false];
        assert(s.len() == 1 && !s[0]);
        assert(s.subrange(1, 1) =~= Seq::<bool>::empty());
        assert(val_of(s) == 2 * val_of(s.subrange(1, 1)));
        assert(val_of(Seq::<bool>::empty()) == 0);
    } else {
        lemma_bit_len_u32(v);
        lemma_val_of_bits_lsb(v, bit_len(v as nat));
        lemma_bit_len_bounds(v as nat);
        lemma_small_mod(v as nat, pow2(bit_len(v as nat)));
    }
}

} // verus!
