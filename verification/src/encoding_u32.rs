//! Variable-length codec for the full `u32` range. An encoded value is a
//! length field followed by the raw value bits, least significant first.
//! The length field holds the value's bit length minus one (zero for the
//! value zero): its two lowest bits, then a flag; a set flag announces three
//! more length bits. The value itself takes exactly length-plus-one bits,
//! a single zero bit for the value zero.

use crate::bit_arith::{
    bit_len, bit_of, lemma_bit01, lemma_bit_len_u32, lemma_reconstruct32, lemma_reconstruct4,
    lemma_val_of_bound, lemma_val_of_vbits, len_field_val, val_of, vbits,
};
use crate::dyn_bit_string::DynBitString;
use crate::encoding_uint_trait::{CodecReadErr, UintEncoding};
use vstd::prelude::*;

verus! {

/// Codec state for general 32-bit values.
pub struct U32Encoding {
    /// the bits emitted or consumed so far
    pub encoding: UintEncoding,
}

/// The length field emitted for a biased bit length `lf < 32`: two low bits
/// and a stop flag, or two low bits, a continue flag, and the three high bits.
pub open spec fn u32_len_field(lf: u32) -> Seq<bool> {
    if lf < 4 {
        seq![bit_of(lf, 0), bit_of(lf, 1), false]
    } else {
        seq![bit_of(lf, 0), bit_of(lf, 1), true, bit_of(lf, 2), bit_of(lf, 3), bit_of(lf, 4)]
    }
}

/// The exact bit sequence this codec emits for `v`.
pub open spec fn u32_enc(v: u32) -> Seq<bool> {
    u32_len_field(len_field_val(v) as u32) + vbits(v)
}

/// Read `lf + 1` raw value bits at `pos`.
pub open spec fn u32_dec_value(s: Seq<bool>, pos: int, lf: int) -> Option<(u32, int)> {
    if pos + lf + 1 > s.len() {
        None
    } else {
        Some((val_of(s.subrange(pos, pos + lf + 1)) as u32, pos + lf + 1))
    }
}

/// Total decoder for this codec's format: the value read at `pos` and the
/// position just past it, or `None` when the bits run out first.
pub open spec fn u32_dec(s: Seq<bool>, pos: int) -> Option<(u32, int)> {
    if pos < 0 || pos + 3 > s.len() {
        None
    } else {
        let b0: int = if s[pos] {
            1
        } else {
            0
        };
        let b1: int = if s[pos + 1] {
            1
        } else {
            0
        };
        if !s[pos + 2] {
            u32_dec_value(s, pos + 3, b0 + 2 * b1)
        } else if pos + 6 > s.len() {
            None
        } else {
            let b2: int = if s[pos + 3] {
                1
            } else {
                0
            };
            let b3: int = if s[pos + 4] {
                1
            } else {
                0
            };
            let b4: int = if s[pos + 5] {
                1
            } else {
                0
            };
            u32_dec_value(s, pos + 6, b0 + 2 * b1 + 4 * b2 + 8 * b3 + 16 * b4)
        }
    }
}

/// Compute the biased bit length of `v`: bit length minus one, and zero for
/// the value zero.
pub(crate) fn bit_length_minus_one(v: u32) -> (lf: u32)
    ensures
        lf == len_field_val(v),
{
    let mut lf: u32 = 0;
    let mut x = v;
    proof {
        lemma_bit_len_u32(v);
    }
    while x > 1
        invariant
            lf <= 31,
            v == 0 ==> x == 0 && lf == 0,
            v > 0 ==> x >= 1 && bit_len(v as nat) == bit_len(x as nat) + lf,
        decreases x,
    {
        proof {
            assert(x >> 1u32 == x / 2) by (bit_vector);
            assert(x / 2 < x) by (nonlinear_arith)
                requires
                    x >= 1,
            ;
            assert(bit_len(x as nat) == 1 + bit_len((x / 2) as nat));
            lemma_bit_len_u32(v);
        }
        x = x >> 1u32;
        lf = lf + 1;
    }
    proof {
        if v > 0 {
            assert(bit_len(1nat) == 1 + bit_len(0nat));
            assert(bit_len(0nat) == 0);
        }
    }
    lf
}

impl U32Encoding {
    /// The bit buffer underneath is well formed.
    pub open spec fn wf(&self) -> bool {
        self.encoding.bstr.wf()
    }

    /// A fresh, empty encoding.
    pub fn new() -> (r: Self)
        ensures
            r.wf(),
            r.encoding.bstr@ =~= Seq::<bool>::empty(),
    {
        U32Encoding { encoding: UintEncoding { bstr: DynBitString::null() } }
    }

    /// The bits emitted so far.
    pub fn get_bitstr_encoding(&self) -> (r: DynBitString)
        requires
            self.wf(),
        ensures
            r.wf(),
            r@ =~= self.encoding.bstr@,
    {
        self.encoding.bstr.duplicate()
    }

    /// Wrap an already encoded bit string for reading.
    pub fn from_bitstr_encoding(bs: DynBitString) -> (r: Self)
        ensures
            r.encoding.bstr == bs,
    {
        U32Encoding { encoding: UintEncoding { bstr: bs } }
    }

    /// Append the encoding of `v_in`.
    pub fn append_uint32(&mut self, v_in: u32)
        requires
            old(self).wf(),
            old(self).encoding.bstr@.len() + 38 <= usize::MAX,
        ensures
            final(self).wf(),
            final(self).encoding.bstr@ =~= old(self).encoding.bstr@ + u32_enc(v_in),
    {
        let lf = bit_length_minus_one(v_in);
        proof {
            lemma_bit_len_u32(v_in);
            lemma_bit01(lf, 0);
            lemma_bit01(lf, 1);
            lemma_bit01(lf, 2);
            lemma_bit01(lf, 3);
            lemma_bit01(lf, 4);
            assert((lf & 1) == (lf >> 0u32) & 1) by (bit_vector);
            assert((lf >> 2u32 == 0) == (lf < 4)) by (bit_vector);
        }
        self.encoding.bstr.append((lf & 1) != 0);
        self.encoding.bstr.append(((lf >> 1u32) & 1) != 0);
        if lf >> 2u32 == 0 {
            self.encoding.bstr.append(false);
        } else {
            self.encoding.bstr.append(true);
            self.encoding.bstr.append(((lf >> 2u32) & 1) != 0);
            self.encoding.bstr.append(((lf >> 3u32) & 1) != 0);
            self.encoding.bstr.append(((lf >> 4u32) & 1) != 0);
        }
        assert(self.encoding.bstr@ =~= old(self).encoding.bstr@ + u32_len_field(lf));
        crate::raw_bits::append_raw_bits(&mut self.encoding.bstr, v_in);
        proof {
            assert(final(self).encoding.bstr@ =~= old(self).encoding.bstr@ + u32_enc(v_in));
        }
    }

    /// Read the next value at the cursor, advancing it past the bits
    /// consumed; reports an error when the bits run out first.
    pub fn read_uint32(&self, bitstring_cursor: &mut usize) -> (r: Result<u32, CodecReadErr>)
        requires
            self.wf(),
        ensures
            match u32_dec(self.encoding.bstr@, *old(bitstring_cursor) as int) {
                Some(vp) => r == Ok::<u32, CodecReadErr>(vp.0) && *final(bitstring_cursor) == vp.1,
                None => r is Err && *final(bitstring_cursor) == *old(bitstring_cursor),
            },
    {
        let bs = &self.encoding.bstr;
        let n = bs.len();
        let cur = *bitstring_cursor;
        if cur >= n || n - cur < 3 {
            return Err(CodecReadErr::OutOfBits);
        }
        let b0: u32 = if bs.get(cur) {
            1
        } else {
            0
        };
        let b1: u32 = if bs.get(cur + 1) {
            1
        } else {
            0
        };
        let lf: u32;
        let q: usize;
        if !bs.get(cur + 2) {
            lf = b0 + 2 * b1;
            q = cur + 3;
        } else {
            if n - cur < 6 {
                return Err(CodecReadErr::OutOfBits);
            }
            let b2: u32 = if bs.get(cur + 3) {
                1
            } else {
                0
            };
            let b3: u32 = if bs.get(cur + 4) {
                1
            } else {
                0
            };
            let b4: u32 = if bs.get(cur + 5) {
                1
            } else {
                0
            };
            lf = b0 + 2 * b1 + 4 * b2 + 8 * b3 + 16 * b4;
            q = cur + 6;
        }
        if lf as usize + 1 > n - q {
            return Err(CodecReadErr::OutOfBits);
        }
        let v = crate::raw_bits::read_raw_bits(&self.encoding.bstr, q, lf);
        *bitstring_cursor = q + lf as usize + 1;
        Ok(v)
    }

}

/// An encoding of this codec takes between four and 38 bits.
pub proof fn lemma_u32_enc_len(v: u32)
    ensures
        4 <= u32_enc(v).len() <= 38,
{
    lemma_bit_len_u32(v);
    lemma_val_of_vbits(v);
}

/// Decoding finds an encoding of this codec wherever it stands inside a
/// larger bit string, and yields back the encoded value.
pub proof fn lemma_u32_codec_prefix(pre: Seq<bool>, v: u32, suf: Seq<bool>)
    ensures
        u32_dec(pre + u32_enc(v) + suf, pre.len() as int) == Some(
            (v, pre.len() + u32_enc(v).len() as int),
        ),
{
    let s = pre + u32_enc(v) + suf;
    let p = pre.len() as int;
    let e = u32_enc(v);
    let lf = len_field_val(v) as u32;
    lemma_bit_len_u32(v);
    lemma_val_of_vbits(v);
    lemma_val_of_bound(vbits(v));
    assert forall|i: int| 0 <= i < e.len() implies s[p + i] == e[i] by {
        assert((pre + e)[p + i] == e[i]);
    }
    lemma_bit01(lf, 0);
    lemma_bit01(lf, 1);
    lemma_bit01(lf, 2);
    lemma_bit01(lf, 3);
    lemma_bit01(lf, 4);
    let fieldlen: int = if lf < 4 {
        3
    } else {
        6
    };
    if lf < 4 {
        lemma_reconstruct4(lf);
    } else {
        lemma_reconstruct32(lf);
    }
    assert(s.subrange(p + fieldlen, p + fieldlen + lf + 1) =~= vbits(v));
}

/// Decoding the encoding of any value yields that value.
pub proof fn lemma_u32_codec_round_trip(v: u32)
    ensures
        u32_dec(u32_enc(v), 0) == Some((v, u32_enc(v).len() as int)),
{
    lemma_u32_codec_prefix(Seq::empty(), v, Seq::empty());
    assert(Seq::empty() + u32_enc(v) + Seq::empty() =~= u32_enc(v));
}

} // verus!
