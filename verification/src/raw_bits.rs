//! Emitting and reading the raw value bits shared by the variable-length
//! codecs: a value's binary digits least significant first, with a single
//! zero bit standing for the value zero.

use crate::bit_arith::{
    bit_len, bit_of, bits_lsb, lemma_bit01, lemma_bit_len_le_iff, lemma_bit_len_u32,
    lemma_pow2_le, lemma_val_of_snoc, val_of, vbits,
};
use crate::dyn_bit_string::DynBitString;
use vstd::arithmetic::div_mod::{lemma_div_denominator, lemma_div_non_zero};
use vstd::arithmetic::power2::{lemma2_to64, lemma_pow2_adds, lemma_pow2_pos, pow2};
use vstd::bits::{lemma_u32_shl_is_mul, lemma_u32_shr_is_div};
use vstd::prelude::*;

verus! {

/// Append the raw value bits of `v` to `bs`: its binary digits least
/// significant first, or one zero bit when `v` is zero.
pub(crate) fn append_raw_bits(bs: &mut DynBitString, v: u32)
    requires
        old(bs).wf(),
        old(bs)@.len() + 32 <= usize::MAX,
    ensures
        final(bs).wf(),
        final(bs)@ =~= old(bs)@ + vbits(v),
{
    if v == 0 {
        bs.append(false);
        assert(final(bs)@ =~= old(bs)@ + vbits(0u32));
        return ;
    }
    let ghost base = bs@;
    let mut j: u32 = 0;
    let mut y = v;
    proof {
        lemma_bit_len_u32(v);
        lemma2_to64();
    }
    while y > 0
        invariant
            bs.wf(),
            v > 0,
            j <= bit_len(v as nat),
            bit_len(v as nat) <= 32,
            y as nat == v as nat / pow2(j as nat),
            bs@ =~= base + bits_lsb(v, j as nat),
            base.len() + 32 <= usize::MAX,
        decreases y,
    {
        proof {
            // y > 0 means bit j exists: j < bit_len(v)
            lemma_pow2_pos(j as nat);
            lemma_bit_len_le_iff(v as nat, j as nat);
            if v as nat >= pow2(j as nat) {
            } else {
                assert(v as nat / pow2(j as nat) == 0) by (nonlinear_arith)
                    requires
                        (v as nat) < pow2(j as nat),
                        pow2(j as nat) > 0,
                ;
            }
            lemma_u32_shr_is_div(v, j);
            assert(v >> j == y);
            lemma_bit01(v, j);
            assert((y & 1) == (y >> 0u32) & 1) by (bit_vector);
            lemma_bit01(y, 0);
        }
        let ghost prev_j = j as nat;
        let ghost prev_y = y;
        bs.append((y & 1) != 0);
        proof {
            assert(bit_of(v, prev_j) == ((y & 1) != 0));
            assert(bits_lsb(v, prev_j + 1) =~= bits_lsb(v, prev_j).push(bit_of(v, prev_j)));
        }
        y = y >> 1u32;
        j = j + 1;
        proof {
            lemma2_to64();
            assert(prev_y >> 1u32 == prev_y / 2) by (bit_vector);
            lemma_pow2_pos(prev_j);
            lemma_div_denominator(v as int, pow2(prev_j) as int, 2);
            lemma_pow2_adds(prev_j, 1);
            assert(y as nat == v as nat / pow2(j as nat));
        }
    }
    proof {
        // the loop stops exactly after the last binary digit
        lemma_pow2_pos(j as nat);
        if v as nat >= pow2(j as nat) {
            lemma_div_non_zero(v as int, pow2(j as nat) as int);
        }
        lemma_bit_len_le_iff(v as nat, j as nat);
        assert(j == bit_len(v as nat));
        assert(bits_lsb(v, j as nat) =~= vbits(v));
    }
}

/// Read `lf + 1` raw value bits of `bs` starting at `q`, least significant
/// first.
pub(crate) fn read_raw_bits(bs: &DynBitString, q: usize, lf: u32) -> (v: u32)
    requires
        bs.wf(),
        lf <= 31,
        q + lf + 1 <= bs@.len(),
    ensures
        v as nat == val_of(bs@.subrange(q as int, q + lf + 1)),
{
    let mut v: u32 = 0;
    let mut j: u32 = 0;
    proof {
        lemma2_to64();
        assert(bs@.subrange(q as int, q as int) =~= Seq::<bool>::empty());
    }
    while j <= lf
        invariant
            bs.wf(),
            lf <= 31,
            j <= lf + 1,
            q + lf + 1 <= bs@.len(),
            v as nat == val_of(bs@.subrange(q as int, q + j)),
            v < pow2(j as nat),
        decreases lf + 1 - j,
    {
        let ghost prefix = bs@.subrange(q as int, q + j);
        proof {
            lemma_pow2_le(j as nat, 31);
            lemma2_to64();
            lemma_u32_shl_is_mul(1u32, j);
            assert(bs@.subrange(q as int, q + j + 1) =~= prefix.push(bs@[q + j]));
            lemma_val_of_snoc(prefix, bs@[q + j]);
        }
        let bitv = bs.get(q + j as usize);
        if bitv {
            v = v + (1u32 << j);
        }
        j = j + 1;
        proof {
            lemma_pow2_adds((j - 1) as nat, 1);
        }
    }
    v
}

} // verus!
