//! Free-function variable-length codec for `u32` values, an earlier flavour
//! of the scheme in [`crate::encoding_u32`] with one more continuation
//! checkpoint in the length field: two length bits and a flag, optionally two
//! more length bits and a flag, optionally one final length bit. The raw
//! value bits follow as in the other flavour. Also offers a fixed three-bit
//! code for lengths below eight.

use crate::bit_arith::{
    bit_of, lemma_bit01, lemma_bit_len_u32, lemma_reconstruct16, lemma_reconstruct32,
    lemma_reconstruct4, lemma_reconstruct8, lemma_val_of_bound, lemma_val_of_vbits, len_field_val,
    val_of, vbits,
};
use crate::dyn_bit_string::DynBitString;
use crate::encoding_uint_trait::CodecReadErr;
use crate::raw_bits::{append_raw_bits, read_raw_bits};
use vstd::prelude::*;

verus! {

/// The three-bit fixed-width encoding of a length below eight.
pub open spec fn len3_enc(v: u32) -> Seq<bool> {
    seq![bit_of(v, 0), bit_of(v, 1), bit_of(v, 2)]
}

/// Total decoder for the three-bit fixed-width length code.
pub open spec fn len3_dec(s: Seq<bool>, pos: int) -> Option<(u32, int)> {
    if pos < 0 || pos + 3 > s.len() {
        None
    } else {
        let b0: int = if s[pos] {
            1
        } else {
            0
        };
        let b1: int = if s[pos + 1] {
            1
        } else {
            0
        };
        let b2: int = if s[pos + 2] {
            1
        } else {
            0
        };
        Some(((b0 + 2 * b1 + 4 * b2) as u32, pos + 3))
    }
}

/// The length field this flavour emits for a biased bit length `lf < 32`.
pub open spec fn uint_len_field(lf: u32) -> Seq<bool> {
    if lf < 4 {
        seq![bit_of(lf, 0), bit_of(lf, 1), false]
    } else if lf < 16 {
        seq![bit_of(lf, 0), bit_of(lf, 1), true, bit_of(lf, 2), bit_of(lf, 3), false]
    } else {
        seq![
            bit_of(lf, 0),
            bit_of(lf, 1),
            true,
            bit_of(lf, 2),
            bit_of(lf, 3),
            true,
            bit_of(lf, 4),
        ]
    }
}

/// The exact bit sequence this codec flavour emits for `v`.
pub open spec fn uint_enc(v: u32) -> Seq<bool> {
    uint_len_field(len_field_val(v) as u32) + vbits(v)
}

/// Read `lf + 1` raw value bits at `pos`.
pub open spec fn uint_dec_value(s: Seq<bool>, pos: int, lf: int) -> Option<(u32, int)> {
    if pos + lf + 1 > s.len() {
        None
    } else {
        Some((val_of(s.subrange(pos, pos + lf + 1)) as u32, pos + lf + 1))
    }
}

/// Total decoder for this codec flavour.
pub open spec fn uint_dec(s: Seq<bool>, pos: int) -> Option<(u32, int)> {
    if pos < 0 || pos + 3 > s.len() {
        None
    } else {
        let b0: int = if s[pos] {
            1
        } else {
            0
        };
        let b1: int = if s[pos + 1] {
            1
        } else {
            0
        };
        if !s[pos + 2] {
            uint_dec_value(s, pos + 3, b0 + 2 * b1)
        } else if pos + 6 > s.len() {
            None
        } else {
            let b2: int = if s[pos + 3] {
                1
            } else {
                0
            };
            let b3: int = if s[pos + 4] {
                1
            } else {
                0
            };
            if !s[pos + 5] {
                uint_dec_value(s, pos + 6, b0 + 2 * b1 + 4 * b2 + 8 * b3)
            } else if pos + 7 > s.len() {
                None
            } else {
                let b4: int = if s[pos + 6] {
                    1
                } else {
                    0
                };
                uint_dec_value(s, pos + 7, b0 + 2 * b1 + 4 * b2 + 8 * b3 + 16 * b4)
            }
        }
    }
}

/// Append the fixed three-bit encoding of a length below eight.
pub fn append_uint32_len(len_in: u32, length_and_val: &mut DynBitString)
    requires
        old(length_and_val).wf(),
        len_in < 8,
        old(length_and_val)@.len() + 3 <= usize::MAX,
    ensures
        final(length_and_val).wf(),
        final(length_and_val)@ =~= old(length_and_val)@ + len3_enc(len_in),
{
    proof {
        lemma_bit01(len_in, 0);
        lemma_bit01(len_in, 1);
        lemma_bit01(len_in, 2);
        assert((len_in & 1) == (len_in >> 0u32) & 1) by (bit_vector);
    }
    length_and_val.append((len_in & 1) != 0);
    length_and_val.append(((len_in >> 1u32) & 1) != 0);
    length_and_val.append(((len_in >> 2u32) & 1) != 0);
    assert(final(length_and_val)@ =~= old(length_and_val)@ + len3_enc(len_in));
}

/// Read back a fixed three-bit length at the cursor, advancing it; reports
/// an error when fewer than three bits remain.
pub fn read_uint32_len(enc_len_val: &DynBitString, bitstring_cursor: &mut usize) -> (r: Result<
    u32,
    CodecReadErr,
>)
    requires
        enc_len_val.wf(),
    ensures
        match len3_dec(enc_len_val@, *old(bitstring_cursor) as int) {
            Some(vp) => r == Ok::<u32, CodecReadErr>(vp.0) && *final(bitstring_cursor) == vp.1,
            None => r is Err && *final(bitstring_cursor) == *old(bitstring_cursor),
        },
{
    let n = enc_len_val.len();
    let cur = *bitstring_cursor;
    if cur >= n || n - cur < 3 {
        return Err(CodecReadErr::OutOfBits);
    }
    let b0: u32 = if enc_len_val.get(cur) {
        1
    } else {
        0
    };
    let b1: u32 = if enc_len_val.get(cur + 1) {
        1
    } else {
        0
    };
    let b2: u32 = if enc_len_val.get(cur + 2) {
        1
    } else {
        0
    };
    *bitstring_cursor = cur + 3;
    Ok(b0 + 2 * b1 + 4 * b2)
}

/// Append the encoding of `v_in` to `length_and_val`.
pub fn append_uint32(v_in: u32, length_and_val: &mut DynBitString)
    requires
        old(length_and_val).wf(),
        old(length_and_val)@.len() + 39 <= usize::MAX,
    ensures
        final(length_and_val).wf(),
        final(length_and_val)@ =~= old(length_and_val)@ + uint_enc(v_in),
{
    let lf = crate::encoding_u32::bit_length_minus_one(v_in);
    proof {
        lemma_bit_len_u32(v_in);
        lemma_bit01(lf, 0);
        lemma_bit01(lf, 1);
        lemma_bit01(lf, 2);
        lemma_bit01(lf, 3);
        lemma_bit01(lf, 4);
        assert((lf & 1) == (lf >> 0u32) & 1) by (bit_vector);
        assert((lf >> 2u32 == 0) == (lf < 4)) by (bit_vector);
        assert((lf >> 4u32 == 0) == (lf < 16)) by (bit_vector);
    }
    length_and_val.append((lf & 1) != 0);
    length_and_val.append(((lf >> 1u32) & 1) != 0);
    if lf >> 2u32 == 0 {
        length_and_val.append(false);
    } else {
        length_and_val.append(true);
        length_and_val.append(((lf >> 2u32) & 1) != 0);
        length_and_val.append(((lf >> 3u32) & 1) != 0);
        if lf >> 4u32 == 0 {
            length_and_val.append(false);
        } else {
            length_and_val.append(true);
            length_and_val.append(((lf >> 4u32) & 1) != 0);
        }
    }
    assert(length_and_val@ =~= old(length_and_val)@ + uint_len_field(lf));
    append_raw_bits(length_and_val, v_in);
    proof {
        assert(final(length_and_val)@ =~= old(length_and_val)@ + uint_enc(v_in));
    }
}

/// Encode a single value into a fresh bit string.
pub fn encode_uint32(v_in: u32) -> (r: DynBitString)
    ensures
        r.wf(),
        r@ =~= uint_enc(v_in),
{
    let mut l_and_v = DynBitString::null();
    append_uint32(v_in, &mut l_and_v);
    l_and_v
}

/// Read the next value at the cursor, advancing it past the bits consumed;
/// reports an error when the bits run out first.
#[verifier::rlimit(60)]
pub fn read_uint32(enc_len_val: &DynBitString, bitstring_cursor: &mut usize) -> (r: Result<
    u32,
    CodecReadErr,
>)
    requires
        enc_len_val.wf(),
    ensures
        match uint_dec(enc_len_val@, *old(bitstring_cursor) as int) {
            Some(vp) => r == Ok::<u32, CodecReadErr>(vp.0) && *final(bitstring_cursor) == vp.1,
            None => r is Err && *final(bitstring_cursor) == *old(bitstring_cursor),
        },
{
    let n = enc_len_val.len();
    let cur = *bitstring_cursor;
    if cur >= n || n - cur < 3 {
        return Err(CodecReadErr::OutOfBits);
    }
    let b0: u32 = if enc_len_val.get(cur) {
        1
    } else {
        0
    };
    let b1: u32 = if enc_len_val.get(cur + 1) {
        1
    } else {
        0
    };
    let lf: u32;
    let q: usize;
    if !enc_len_val.get(cur + 2) {
        lf = b0 + 2 * b1;
        q = cur + 3;
    } else {
        if n - cur < 6 {
            return Err(CodecReadErr::OutOfBits);
        }
        let b2: u32 = if enc_len_val.get(cur + 3) {
            1
        } else {
            0
        };
        let b3: u32 = if enc_len_val.get(cur + 4) {
            1
        } else {
            0
        };
        if !enc_len_val.get(cur + 5) {
            lf = b0 + 2 * b1 + 4 * b2 + 8 * b3;
            q = cur + 6;
        } else {
            if n - cur < 7 {
                return Err(CodecReadErr::OutOfBits);
            }
            let b4: u32 = if enc_len_val.get(cur + 6) {
                1
            } else {
                0
            };
            lf = b0 + 2 * b1 + 4 * b2 + 8 * b3 + 16 * b4;
            q = cur + 7;
        }
    }
    if lf as usize + 1 > n - q {
        return Err(CodecReadErr::OutOfBits);
    }
    let v = read_raw_bits(enc_len_val, q, lf);
    *bitstring_cursor = q + lf as usize + 1;
    Ok(v)
}

/// Decode a single value from the start of a bit string.
pub fn decode_uint32(enc_len_val: &DynBitString) -> (r: Result<u32, CodecReadErr>)
    requires
        enc_len_val.wf(),
    ensures
        match uint_dec(enc_len_val@, 0) {
            Some(vp) => r == Ok::<u32, CodecReadErr>(vp.0),
            None => r is Err,
        },
{
    let mut bitstring_cursor: usize = 0;
    read_uint32(enc_len_val, &mut bitstring_cursor)
}

/// Decoding finds an encoding of this codec flavour wherever it stands
/// inside a larger bit string, and yields back the encoded value.
pub proof fn lemma_uint_codec_prefix(pre: Seq<bool>, v: u32, suf: Seq<bool>)
    ensures
        uint_dec(pre + uint_enc(v) + suf, pre.len() as int) == Some(
            (v, pre.len() + uint_enc(v).len() as int),
        ),
{
    let s = pre + uint_enc(v) + suf;
    let p = pre.len() as int;
    let e = uint_enc(v);
    let lf = len_field_val(v) as u32;
    lemma_bit_len_u32(v);
    lemma_val_of_vbits(v);
    lemma_val_of_bound(vbits(v));
    assert forall|i: int| 0 <= i < e.len() implies s[p + i] == e[i] by {
        assert((pre + e)[p + i] == e[i]);
    }
    lemma_bit01(lf, 0);
    lemma_bit01(lf, 1);
    lemma_bit01(lf, 2);
    lemma_bit01(lf, 3);
    lemma_bit01(lf, 4);
    let fieldlen: int = if lf < 4 {
        3
    } else if lf < 16 {
        6
    } else {
        7
    };
    if lf < 4 {
        lemma_reconstruct4(lf);
    } else if lf < 16 {
        lemma_reconstruct16(lf);
    } else {
        lemma_reconstruct32(lf);
    }
    assert(s.subrange(p + fieldlen, p + fieldlen + lf + 1) =~= vbits(v));
}

/// Decoding the encoding of any value yields that value.
pub proof fn lemma_uint_codec_round_trip(v: u32)
    ensures
        uint_dec(uint_enc(v), 0) == Some((v, uint_enc(v).len() as int)),
{
    lemma_uint_codec_prefix(Seq::empty(), v, Seq::empty());
    assert(Seq::empty() + uint_enc(v) + Seq::empty() =~= uint_enc(v));
}

/// Reading back a three-bit length wherever it stands yields it unchanged.
pub proof fn lemma_len3_round_trip(pre: Seq<bool>, v: u32, suf: Seq<bool>)
    requires
        v < 8,
    ensures
        len3_dec(pre + len3_enc(v) + suf, pre.len() as int) == Some((v, pre.len() + 3int)),
{
    let s = pre + len3_enc(v) + suf;
    let p = pre.len() as int;
    let e = len3_enc(v);
    assert forall|i: int| 0 <= i < e.len() implies s[p + i] == e[i] by {
        assert((pre + e)[p + i] == e[i]);
    }
    lemma_bit01(v, 0);
    lemma_bit01(v, 1);
    lemma_bit01(v, 2);
    lemma_reconstruct8(v);
}

} // verus!
