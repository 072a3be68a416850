//! Variable-length codec for very small unsigned integers (below 32): the
//! value is written least significant bit first in chunks, a one-bit chunk
//! and then two-bit chunks, each inner chunk followed by a flag bit that says
//! whether more chunks follow. The final possible chunk carries no flag, as
//! the domain is exhausted after five value bits.

use crate::bit_arith::{bit_of, lemma_bit01, lemma_reconstruct2, lemma_reconstruct8, lemma_reconstruct32};
use crate::dyn_bit_string::DynBitString;
use crate::encoding_uint_trait::{CodecReadErr, UintEncoding};
use vstd::prelude::*;

verus! {

/// Codec state for small values in `[0, 31]`.
pub struct SmallIntEncoding {
    /// the bits emitted or consumed so far
    pub encoding: UintEncoding,
}

/// The exact bit sequence the small-value codec emits for `v < 32`:
/// bit 0, then either a stop flag, or a continue flag, bits 1-2, and again
/// either a stop flag or a continue flag and bits 3-4.
pub open spec fn small_enc(v: u32) -> Seq<bool> {
    if v < 2 {
        seq![bit_of(v, 0), false]
    } else if v < 8 {
        seq![bit_of(v, 0), true, bit_of(v, 1), bit_of(v, 2), false]
    } else {
        seq![bit_of(v, 0), true, bit_of(v, 1), bit_of(v, 2), true, bit_of(v, 3), bit_of(v, 4)]
    }
}

/// Total decoder for the small-value format: the value read at `pos` and the
/// position just past it, or `None` when the bits run out first.
pub open spec fn small_dec(s: Seq<bool>, pos: int) -> Option<(u32, int)> {
    if pos < 0 || pos + 2 > s.len() {
        None
    } else {
        let b0: int = if s[pos] {
            1
        } else {
            0
        };
        if !s[pos + 1] {
            Some(((b0) as u32, pos + 2))
        } else if pos + 5 > s.len() {
            None
        } else {
            let b1: int = if s[pos + 2] {
                1
            } else {
                0
            };
            let b2: int = if s[pos + 3] {
                1
            } else {
                0
            };
            if !s[pos + 4] {
                Some(((b0 + 2 * b1 + 4 * b2) as u32, pos + 5))
            } else if pos + 7 > s.len() {
                None
            } else {
                let b3: int = if s[pos + 5] {
                    1
                } else {
                    0
                };
                let b4: int = if s[pos + 6] {
                    1
                } else {
                    0
                };
                Some(((b0 + 2 * b1 + 4 * b2 + 8 * b3 + 16 * b4) as u32, pos + 7))
            }
        }
    }
}

proof fn lemma_small_ranges(v: u32)
    by (bit_vector)
    ensures
        (v >> 1u32 == 0) == (v < 2),
        (v >> 3u32 == 0) == (v < 8),
{
}

/// Whatever bits are read, a decoded small value stays below 32.
pub proof fn lemma_small_dec_bound(s: Seq<bool>, pos: int)
    ensures
        small_dec(s, pos) matches Some(vp) ==> vp.0 <= 31,
{
}

/// A small-value encoding takes between two and seven bits.
pub proof fn lemma_small_enc_len(v: u32)
    ensures
        2 <= small_enc(v).len() <= 7,
{
}

/// Decoding finds a small-value encoding wherever it stands inside a larger
/// bit string, and yields back the encoded value.
pub proof fn lemma_small_codec_prefix(pre: Seq<bool>, v: u32, suf: Seq<bool>)
    requires
        v < 32,
    ensures
        small_dec(pre + small_enc(v) + suf, pre.len() as int) == Some(
            (v, pre.len() + small_enc(v).len() as int),
        ),
{
    let s = pre + small_enc(v) + suf;
    let p = pre.len() as int;
    let e = small_enc(v);
    assert forall|i: int| 0 <= i < e.len() implies s[p + i] == e[i] by {
        assert((pre + e)[p + i] == e[i]);
    }
    lemma_bit01(v, 0);
    lemma_bit01(v, 1);
    lemma_bit01(v, 2);
    lemma_bit01(v, 3);
    lemma_bit01(v, 4);
    if v < 2 {
        lemma_reconstruct2(v);
    } else if v < 8 {
        lemma_reconstruct8(v);
    } else {
        lemma_reconstruct32(v);
    }
}

/// Decoding the encoding of any small value yields that value.
pub proof fn lemma_small_codec_round_trip(v: u32)
    requires
        v < 32,
    ensures
        small_dec(small_enc(v), 0) == Some((v, small_enc(v).len() as int)),
{
    lemma_small_codec_prefix(Seq::empty(), v, Seq::empty());
    assert(Seq::empty() + small_enc(v) + Seq::empty() =~= small_enc(v));
}

impl SmallIntEncoding {
    /// The bit buffer underneath is well formed.
    pub open spec fn wf(&self) -> bool {
        self.encoding.bstr.wf()
    }

    /// A fresh, empty encoding.
    pub fn new() -> (r: Self)
        ensures
            r.wf(),
            r.encoding.bstr@ =~= Seq::<bool>::empty(),
    {
        SmallIntEncoding { encoding: UintEncoding { bstr: DynBitString::null() } }
    }

    /// The bits emitted so far.
    pub fn get_bitstr_encoding(&self) -> (r: DynBitString)
        requires
            self.wf(),
        ensures
            r.wf(),
            r@ =~= self.encoding.bstr@,
    {
        self.encoding.bstr.duplicate()
    }

    /// Wrap an already encoded bit string for reading.
    pub fn from_bitstr_encoding(bs: DynBitString) -> (r: Self)
        ensures
            r.encoding.bstr == bs,
    {
        SmallIntEncoding { encoding: UintEncoding { bstr: bs } }
    }

    /// Append the encoding of `v_in`, which must be below 32.
    pub fn append_uint32(&mut self, v_in: u32)
        requires
            old(self).wf(),
            v_in < 32,
            old(self).encoding.bstr@.len() + 7 <= usize::MAX,
        ensures
            final(self).wf(),
            final(self).encoding.bstr@ =~= old(self).encoding.bstr@ + small_enc(v_in),
    {
        proof {
            lemma_small_ranges(v_in);
            lemma_bit01(v_in, 0);
            lemma_bit01(v_in, 1);
            lemma_bit01(v_in, 2);
            lemma_bit01(v_in, 3);
            lemma_bit01(v_in, 4);
        }
        self.encoding.bstr.append((v_in & 1) != 0);
        if v_in >> 1u32 == 0 {
            self.encoding.bstr.append(false);
        } else {
            self.encoding.bstr.append(true);
            self.encoding.bstr.append(((v_in >> 1u32) & 1) != 0);
            self.encoding.bstr.append(((v_in >> 2u32) & 1) != 0);
            if v_in >> 3u32 == 0 {
                self.encoding.bstr.append(false);
            } else {
                self.encoding.bstr.append(true);
                self.encoding.bstr.append(((v_in >> 3u32) & 1) != 0);
                self.encoding.bstr.append(((v_in >> 4u32) & 1) != 0);
            }
        }
        proof {
            assert((v_in & 1) == (v_in >> 0u32) & 1) by (bit_vector);
            assert(final(self).encoding.bstr@ =~= old(self).encoding.bstr@ + small_enc(v_in));
        }
    }

    /// Read the next small value at the cursor, advancing it past the bits
    /// consumed; reports an error when the bits run out first.
    pub fn read_uint32(&self, bitstring_cursor: &mut usize) -> (r: Result<u32, CodecReadErr>)
        requires
            self.wf(),
        ensures
            match small_dec(self.encoding.bstr@, *old(bitstring_cursor) as int) {
                Some(vp) => r == Ok::<u32, CodecReadErr>(vp.0) && *final(bitstring_cursor) == vp.1,
                None => r is Err && *final(bitstring_cursor) == *old(bitstring_cursor),
            },
    {
        let bs = &self.encoding.bstr;
        let n = bs.len();
        let cur = *bitstring_cursor;
        if cur >= n || n - cur < 2 {
            return Err(CodecReadErr::OutOfBits);
        }
        let b0: u32 = if bs.get(cur) {
            1
        } else {
            0
        };
        if !bs.get(cur + 1) {
            *bitstring_cursor = cur + 2;
            return Ok(b0);
        }
        if n - cur < 5 {
            return Err(CodecReadErr::OutOfBits);
        }
        let b1: u32 = if bs.get(cur + 2) {
            1
        } else {
            0
        };
        let b2: u32 = if bs.get(cur + 3) {
            1
        } else {
            0
        };
        if !bs.get(cur + 4) {
            *bitstring_cursor = cur + 5;
            return Ok(b0 + 2 * b1 + 4 * b2);
        }
        if n - cur < 7 {
            return Err(CodecReadErr::OutOfBits);
        }
        let b3: u32 = if bs.get(cur + 5) {
            1
        } else {
            0
        };
        let b4: u32 = if bs.get(cur + 6) {
            1
        } else {
            0
        };
        *bitstring_cursor = cur + 7;
        Ok(b0 + 2 * b1 + 4 * b2 + 8 * b3 + 16 * b4)
    }
}

} // verus!
