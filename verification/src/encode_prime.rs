//! Encoding a factorization (a non-decreasing sequence of prime-table
//! indices) as bits, and decoding it back. The sequence is first run-length
//! coded into (index, exponent) pairs; the wire format is the biased run
//! count, then each biased exponent, both in the small-value codec, then each
//! index delta against the previous distinct index in the general codec.

use crate::dyn_bit_string::{text_of_bits, DynBitString};
use vstd::string::*;
use crate::encoding_small_int::{
    lemma_small_codec_prefix, small_dec, small_enc, SmallIntEncoding,
};
use crate::encoding_u32::{lemma_u32_codec_prefix, u32_dec, u32_enc, U32Encoding};
use vstd::prelude::*;

verus! {

/// A (prime index, exponent) pair: one run of equal indices in a
/// factorization.
#[derive(Debug, Clone, Copy, PartialEq, Eq, Structural)]
pub struct PrmPwr {
    /// exponent
    pub exp: u8,
    /// prime number zero-based index
    pub prm_idx: u32,
}

/// An integer written as an ordered, non-empty list of prime powers with
/// strictly increasing indices.
#[derive(Debug)]
pub struct IntAsPrms {
    /// the runs of the factorization's index sequence
    pub prm_powers: Vec<PrmPwr>,
}

/// Every element is at most the ones after it.
pub open spec fn non_decreasing(s: Seq<u32>) -> bool {
    forall|i: int, j: int| 0 <= i <= j < s.len() ==> s[i] <= s[j]
}

/// Run-length code of a sequence: one (value, run length) pair per maximal
/// run of adjacent equal values, in order.
pub open spec fn rle(s: Seq<u32>) -> Seq<(u32, nat)>
    decreases s.len(),
{
    if s.len() == 0 {
        Seq::empty()
    } else {
        let rest = rle(s.drop_last());
        let x = s.last();
        if rest.len() > 0 && rest.last().0 == x {
            rest.update(rest.len() - 1, (x, (rest.last().1 + 1) as nat))
        } else {
            rest.push((x, 1nat))
        }
    }
}

/// Repeat each pair's value as many times as its run length, in order.
pub open spec fn expand(rs: Seq<(u32, nat)>) -> Seq<u32>
    decreases rs.len(),
{
    if rs.len() == 0 {
        Seq::empty()
    } else {
        Seq::new(rs.first().1, |i: int| rs.first().0) + expand(rs.drop_first())
    }
}

/// The exec prime powers seen as spec (value, run length) pairs.
pub open spec fn powers_view(ps: Seq<PrmPwr>) -> Seq<(u32, nat)> {
    ps.map(|i: int, p: PrmPwr| (p.prm_idx, p.exp as nat))
}

/// Appending a pair appends its repeated value to the expansion.
pub proof fn lemma_expand_push(rs: Seq<(u32, nat)>, r: (u32, nat))
    ensures
        expand(rs.push(r)) =~= expand(rs) + Seq::new(r.1, |i: int| r.0),
    decreases rs.len(),
{
    let rep = Seq::new(r.1, |i: int| r.0);
    if rs.len() == 0 {
        assert(rs.push(r).drop_first() =~= Seq::<(u32, nat)>::empty());
        assert(rs.push(r).first() == r);
        assert(expand(rs.push(r)) == rep + expand(Seq::<(u32, nat)>::empty()));
        assert(expand(Seq::<(u32, nat)>::empty()) =~= Seq::<u32>::empty());
        assert(expand(rs) =~= Seq::<u32>::empty());
        assert(rep + Seq::<u32>::empty() =~= rep);
        assert(Seq::<u32>::empty() + rep =~= rep);
    } else {
        assert(rs.push(r).drop_first() =~= rs.drop_first().push(r));
        lemma_expand_push(rs.drop_first(), r);
        assert(rs.push(r).first() == rs.first());
        let head = Seq::new(rs.first().1, |i: int| rs.first().0);
        assert(expand(rs.push(r)) == head + expand(rs.drop_first().push(r)));
        assert(expand(rs.push(r)) == head + (expand(rs.drop_first()) + rep));
        assert(expand(rs) == head + expand(rs.drop_first()));
        assert(head + (expand(rs.drop_first()) + rep) =~= (head + expand(rs.drop_first())) + rep);
    }
}

/// Expanding the run-length code of a sequence gives the sequence back.
pub proof fn lemma_expand_rle(s: Seq<u32>)
    ensures
        expand(rle(s)) =~= s,
    decreases s.len(),
{
    if s.len() > 0 {
        let t = s.drop_last();
        let x = s.last();
        let rest = rle(t);
        lemma_expand_rle(t);
        if rest.len() > 0 && rest.last().0 == x {
            let e = rest.last().1;
            let head = rest.take(rest.len() - 1);
            assert(rest =~= head.push(rest.last()));
            assert(rle(s) =~= head.push((x, (e + 1) as nat)));
            lemma_expand_push(head, rest.last());
            lemma_expand_push(head, (x, (e + 1) as nat));
            assert(Seq::new((e + 1) as nat, |i: int| x) =~= Seq::new(e, |i: int| x).push(x));
            assert(expand(rle(s)) =~= expand(rest).push(x));
            assert(expand(rle(s)) =~= t.push(x));
            assert(t.push(x) =~= s);
        } else {
            lemma_expand_push(rest, (x, 1nat));
            assert(Seq::new(1nat, |i: int| x) =~= seq![x]);
            assert(expand(rle(s)) =~= t.push(x));
            assert(t.push(x) =~= s);
        }
    }
}

/// Shape of the run-length code of a non-decreasing sequence: every run is
/// non-empty and no longer than the input, values strictly increase, and the
/// last run carries the last value.
pub proof fn lemma_rle_sorted(s: Seq<u32>)
    requires
        non_decreasing(s),
    ensures
        rle(s).len() <= s.len(),
        s.len() > 0 ==> rle(s).len() >= 1 && rle(s).last().0 == s.last(),
        forall|i: int| 0 <= i < rle(s).len() ==> 1 <= (#[trigger] rle(s)[i]).1 <= s.len(),
        forall|i: int, j: int|
            0 <= i < j < rle(s).len() ==> (#[trigger] rle(s)[i]).0 < (#[trigger] rle(s)[j]).0,
    decreases s.len(),
{
    if s.len() > 0 {
        let t = s.drop_last();
        let x = s.last();
        let rest = rle(t);
        assert(non_decreasing(t)) by {
            assert forall|i: int, j: int| 0 <= i <= j < t.len() implies t[i] <= t[j] by {
                assert(s[i] <= s[j]);
            }
        }
        lemma_rle_sorted(t);
        if rest.len() > 0 && rest.last().0 == x {
        } else {
            if rest.len() > 0 {
                // the new run's value exceeds every earlier one
                assert(t.last() <= x);
                assert(rest.last().0 == t.last());
                assert forall|i: int, j: int|
                    0 <= i < j < rle(s).len() implies (#[trigger] rle(s)[i]).0 < (
                #[trigger] rle(s)[j]).0 by {
                    if j < rle(s).len() - 1 {
                        assert(rest[i].0 < rest[j].0);
                    } else {
                        if i < rest.len() - 1 {
                            assert(rest[i].0 < rest[rest.len() - 1].0);
                        }
                    }
                }
            }
        }
    }
}

/// The run-length code of a prefix follows the full code run by run: earlier
/// runs agree, and the final run is a non-empty lower part of the full run
/// at its place.
pub proof fn lemma_rle_prefix(s: Seq<u32>, k: int)
    requires
        0 < k <= s.len(),
    ensures
        rle(s.take(k)).len() >= 1,
        rle(s.take(k)).len() <= rle(s).len(),
        forall|i: int|
            0 <= i < rle(s.take(k)).len() - 1 ==> #[trigger] rle(s.take(k))[i] == rle(s)[i],
        rle(s.take(k)).last().0 == rle(s)[rle(s.take(k)).len() - 1].0,
        rle(s.take(k)).last().1 <= rle(s)[rle(s.take(k)).len() - 1].1,
    decreases s.len(),
{
    if k == s.len() {
        assert(s.take(k) =~= s);
    } else {
        let t = s.drop_last();
        assert(s.take(k) =~= t.take(k));
        lemma_rle_prefix(t, k);
        let a = rle(t.take(k));
        let rest = rle(t);
        let x = s.last();
        if rest.len() > 0 && rest.last().0 == x {
            assert(rle(s) =~= rest.update(rest.len() - 1, (x, (rest.last().1 + 1) as nat)));
        } else {
            assert(rle(s) =~= rest.push((x, 1nat)));
        }
    }
}

impl IntAsPrms {
    /// The runs have strictly increasing indices and positive exponents.
    pub open spec fn wf(&self) -> bool {
        &&& forall|i: int| 0 <= i < self.prm_powers@.len() ==> (#[trigger] self.prm_powers@[i]).exp
            >= 1
        &&& forall|i: int, j: int|
            0 <= i < j < self.prm_powers@.len() ==> (#[trigger] self.prm_powers@[i]).prm_idx < (
            #[trigger] self.prm_powers@[j]).prm_idx
    }
}

/// Run-length code a non-empty, non-decreasing index sequence into prime
/// powers: each maximal run of one index becomes that index with the run's
/// length as exponent.
pub fn factors_to_int_as_prms(prm_factors: &[u32]) -> (iap: IntAsPrms)
    requires
        prm_factors@.len() > 0,
        non_decreasing(prm_factors@),
        forall|i: int|
            0 <= i < rle(prm_factors@).len() ==> (#[trigger] rle(prm_factors@)[i]).1 <= 255,
    ensures
        powers_view(iap.prm_powers@) == rle(prm_factors@),
        iap.wf(),
        iap.prm_powers@.len() >= 1,
{
    let ghost s = prm_factors@;
    let n = prm_factors.len();
    let mut powers: Vec<PrmPwr> = Vec::new();
    let first_prmpwr = PrmPwr { exp: 1, prm_idx: prm_factors[0] };
    powers.push(first_prmpwr);
    proof {
        assert(s.take(1).len() == 1);
        assert(s.take(1).last() == s[0]);
        assert(s.take(1).drop_last() =~= Seq::<u32>::empty());
        assert(rle(Seq::<u32>::empty()) =~= Seq::<(u32, nat)>::empty());
        assert(rle(s.take(1)) =~= Seq::<(u32, nat)>::empty().push((s[0], 1nat)));
        assert(powers_view(powers@) =~= rle(s.take(1)));
    }
    let mut k: usize = 1;
    while k < n
        invariant
            1 <= k <= n,
            n == s.len(),
            prm_factors@ == s,
            non_decreasing(s),
            forall|i: int| 0 <= i < rle(s).len() ==> (#[trigger] rle(s)[i]).1 <= 255,
            powers@.len() >= 1,
            powers_view(powers@) == rle(s.take(k as int)),
        decreases n - k,
    {
        proof {
            assert(s.take(k + 1).drop_last() =~= s.take(k as int));
            assert(s.take(k + 1).last() == s[k as int]);
            lemma_rle_prefix(s, k + 1);
        }
        let last_iap_index = powers.len() - 1;
        let last_idx = powers[last_iap_index].prm_idx;
        let x = prm_factors[k];
        if last_idx == x {
            proof {
                // the grown run still fits the exponent's byte
                assert(rle(s.take(k + 1)).last().1 <= 255);
            }
            let old_exp = powers[last_iap_index].exp;
            let updated = PrmPwr { exp: old_exp + 1, prm_idx: last_idx };
            powers.set(last_iap_index, updated);
            proof {
                assert(powers_view(powers@) =~= rle(s.take(k + 1)));
            }
        } else {
            let next_prmpwr = PrmPwr { exp: 1, prm_idx: x };
            powers.push(next_prmpwr);
            proof {
                assert(powers_view(powers@) =~= rle(s.take(k + 1)));
            }
        }
        k = k + 1;
    }
    proof {
        assert(s.take(n as int) =~= s);
        lemma_rle_sorted(s);
        assert forall|i: int| 0 <= i < powers@.len() implies (#[trigger] powers@[i]).exp >= 1 by {
            assert(powers_view(powers@)[i] == (powers@[i].prm_idx, powers@[i].exp as nat));
            assert(rle(s)[i].1 >= 1);
        }
        assert forall|i: int, j: int| 0 <= i < j < powers@.len() implies (
        #[trigger] powers@[i]).prm_idx < (#[trigger] powers@[j]).prm_idx by {
            assert(powers_view(powers@)[i] == (powers@[i].prm_idx, powers@[i].exp as nat));
            assert(powers_view(powers@)[j] == (powers@[j].prm_idx, powers@[j].exp as nat));
            assert(rle(s)[i].0 < rle(s)[j].0);
        }
    }
    IntAsPrms { prm_powers: powers }
}

/// The bits of every biased exponent of the runs, each in the small-value
/// codec, in order.
pub open spec fn exps_bits(rs: Seq<(u32, nat)>) -> Seq<bool>
    decreases rs.len(),
{
    if rs.len() == 0 {
        Seq::empty()
    } else {
        small_enc((rs.first().1 - 1) as u32) + exps_bits(rs.drop_first())
    }
}

/// The bits of every index delta of the runs against the previous distinct
/// index, each in the general codec, in order.
pub open spec fn deltas_bits(rs: Seq<(u32, nat)>, prev: u32) -> Seq<bool>
    decreases rs.len(),
{
    if rs.len() == 0 {
        Seq::empty()
    } else {
        u32_enc((rs.first().0 - prev) as u32) + deltas_bits(rs.drop_first(), rs.first().0)
    }
}

/// The exact wire format of a factorization: the biased run count, the
/// biased exponents, then the index deltas.
pub open spec fn encode_factors_spec(s: Seq<u32>) -> Seq<bool> {
    small_enc((rle(s).len() - 1) as u32) + exps_bits(rle(s)) + deltas_bits(rle(s), 0)
}

/// The inputs the factor encoder accepts: a non-empty, non-decreasing index
/// sequence whose run count and run lengths both fit the small-value codec.
pub open spec fn encodable_factors(s: Seq<u32>) -> bool {
    &&& s.len() > 0
    &&& non_decreasing(s)
    &&& 1 <= rle(s).len() <= 32
    &&& forall|i: int| 0 <= i < rle(s).len() ==> 1 <= (#[trigger] rle(s)[i]).1 <= 32
}

/// Encode a non-empty, non-decreasing index sequence into its wire format.
pub fn encode_factors(v: &[u32]) -> (bs: DynBitString)
    requires
        encodable_factors(v@),
    ensures
        bs.wf(),
        bs@ == encode_factors_spec(v@),
{
    let ghost s = v@;
    let ghost rs = rle(s);
    let iap = factors_to_int_as_prms(v);
    let l = iap.prm_powers.len();
    proof {
        assert(powers_view(iap.prm_powers@).len() == rs.len());
    }
    let mut small_int_encoding = SmallIntEncoding::new();
    proof {
        crate::encoding_small_int::lemma_small_enc_len((l - 1) as u32);
    }
    small_int_encoding.append_uint32((l - 1) as u32);
    proof {
        assert(small_int_encoding.encoding.bstr@ =~= small_enc((l - 1) as u32) + exps_bits(
            rs.skip(0),
        ).take(0));
        assert(rs.skip(0) =~= rs);
    }
    let mut k: usize = 0;
    while k < l
        invariant
            k <= l,
            l == rs.len(),
            1 <= l <= 32,
            powers_view(iap.prm_powers@) == rs,
            iap.prm_powers@.len() == l,
            forall|i: int| 0 <= i < rs.len() ==> 1 <= (#[trigger] rs[i]).1 <= 32,
            small_int_encoding.wf(),
            small_int_encoding.encoding.bstr@.len() <= 7 + 7 * k,
            small_int_encoding.encoding.bstr@ + exps_bits(rs.skip(k as int)) =~= small_enc(
                (l - 1) as u32,
            ) + exps_bits(rs),
        decreases l - k,
    {
        let ghost pre = small_int_encoding.encoding.bstr@;
        let nxt_exp = iap.prm_powers[k].exp;
        proof {
            assert(powers_view(iap.prm_powers@)[k as int] == (
                iap.prm_powers@[k as int].prm_idx,
                iap.prm_powers@[k as int].exp as nat,
            ));
            assert(1 <= nxt_exp <= 32);
            crate::encoding_small_int::lemma_small_enc_len((nxt_exp - 1) as u32);
        }
        small_int_encoding.append_uint32((nxt_exp - 1) as u32);
        k = k + 1;
        proof {
            assert(rs.skip(k - 1).first() == rs[k - 1]);
            assert(rs.skip(k - 1).drop_first() =~= rs.skip(k as int));
            assert(exps_bits(rs.skip(k - 1)) == small_enc((nxt_exp - 1) as u32) + exps_bits(
                rs.skip(k as int),
            ));
            assert(small_int_encoding.encoding.bstr@ + exps_bits(rs.skip(k as int)) =~= pre
                + exps_bits(rs.skip(k - 1)));
        }
    }
    proof {
        assert(exps_bits(rs.skip(l as int)) =~= Seq::<bool>::empty());
        assert(small_int_encoding.encoding.bstr@ =~= small_enc((l - 1) as u32) + exps_bits(rs));
    }
    let encoding_so_far = small_int_encoding.get_bitstr_encoding();
    let mut index_encoding = U32Encoding::from_bitstr_encoding(encoding_so_far);
    let ghost exps_part = small_enc((l - 1) as u32) + exps_bits(rs);
    let mut prev_index: u32 = 0;
    let mut k2: usize = 0;
    proof {
        lemma_rle_sorted(s);
        assert(rs.skip(0) =~= rs);
    }
    while k2 < l
        invariant
            k2 <= l,
            l == rs.len(),
            1 <= l <= 32,
            powers_view(iap.prm_powers@) == rs,
            iap.prm_powers@.len() == l,
            forall|i: int, j: int| 0 <= i < j < rs.len() ==> (#[trigger] rs[i]).0 < (
            #[trigger] rs[j]).0,
            index_encoding.wf(),
            exps_part.len() <= 231,
            index_encoding.encoding.bstr@.len() <= exps_part.len() + 38 * k2,
            prev_index == if k2 == 0 {
                0u32
            } else {
                rs[k2 - 1].0
            },
            index_encoding.encoding.bstr@ + deltas_bits(rs.skip(k2 as int), prev_index)
                =~= exps_part + deltas_bits(rs, 0),
        decreases l - k2,
    {
        let ghost pre = index_encoding.encoding.bstr@;
        let ghost prev0 = prev_index;
        let nxt_idx = iap.prm_powers[k2].prm_idx;
        proof {
            assert(powers_view(iap.prm_powers@)[k2 as int] == (
                iap.prm_powers@[k2 as int].prm_idx,
                iap.prm_powers@[k2 as int].exp as nat,
            ));
            if k2 > 0 {
                assert(rs[k2 - 1].0 < rs[k2 as int].0);
            }
            crate::encoding_u32::lemma_u32_enc_len((nxt_idx - prev_index) as u32);
        }
        index_encoding.append_uint32(nxt_idx - prev_index);
        prev_index = nxt_idx;
        k2 = k2 + 1;
        proof {
            assert(rs.skip(k2 - 1).first() == rs[k2 - 1]);
            assert(rs.skip(k2 - 1).drop_first() =~= rs.skip(k2 as int));
            assert(deltas_bits(rs.skip(k2 - 1), prev0) == u32_enc((nxt_idx - prev0) as u32)
                + deltas_bits(rs.skip(k2 as int), nxt_idx));
            assert(index_encoding.encoding.bstr@ + deltas_bits(rs.skip(k2 as int), prev_index)
                =~= pre + deltas_bits(rs.skip(k2 - 1), prev0));
        }
    }
    proof {
        assert(deltas_bits(rs.skip(l as int), prev_index) =~= Seq::<bool>::empty());
        assert(index_encoding.encoding.bstr@ =~= exps_part + deltas_bits(rs, 0));
        assert(exps_part + deltas_bits(rs, 0) =~= encode_factors_spec(s));
    }
    index_encoding.get_bitstr_encoding()
}

/// The exponent pieces of the readable rendering: each run's biased
/// exponent bits as text, each followed by one space.
pub open spec fn exps_text(rs: Seq<(u32, nat)>) -> Seq<char>
    decreases rs.len(),
{
    if rs.len() == 0 {
        Seq::empty()
    } else {
        text_of_bits(small_enc((rs.first().1 - 1) as u32)) + seq![' '] + exps_text(rs.drop_first())
    }
}

/// The delta pieces of the readable rendering: each run's index delta bits
/// as text, each followed by one space.
pub open spec fn deltas_text(rs: Seq<(u32, nat)>, prev: u32) -> Seq<char>
    decreases rs.len(),
{
    if rs.len() == 0 {
        Seq::empty()
    } else {
        text_of_bits(u32_enc((rs.first().0 - prev) as u32)) + seq![' '] + deltas_text(
            rs.drop_first(),
            rs.first().0,
        )
    }
}

/// The readable rendering of a factorization's encoding, piece by piece: the
/// run count bits, the exponent bits in brackets, the delta bits in brackets.
pub open spec fn format_factors_spec(s: Seq<u32>) -> Seq<char> {
    text_of_bits(small_enc((rle(s).len() - 1) as u32)) + seq![' ', '[', ' '] + exps_text(rle(s))
        + seq![']', ' ', '[', ' '] + deltas_text(rle(s), 0) + seq![' ', ']', ' ']
}

/// Render a factorization's encoding piece by piece, showing how many bits
/// each component takes. The pieces follow [`encode_factors`] exactly.
pub fn format_factor_encoding_as_string(v: &[u32]) -> (r: String)
    requires
        encodable_factors(v@),
    ensures
        r@ == format_factors_spec(v@),
{
    let ghost s = v@;
    let ghost rs = rle(s);
    proof {
        reveal_strlit(" [ ");
        reveal_strlit("] [ ");
        reveal_strlit(" ] ");
        reveal_strlit(" ");
        lemma_rle_sorted(s);
    }
    let iap = factors_to_int_as_prms(v);
    let l = iap.prm_powers.len();
    let mut length_encoding = SmallIntEncoding::new();
    length_encoding.append_uint32((l - 1) as u32);
    let length_bs = length_encoding.get_bitstr_encoding();
    let mut out_str = length_bs.to_text();
    out_str.append(" [ ");
    let ghost base1 = text_of_bits(small_enc((l - 1) as u32)) + seq![' ', '[', ' '];
    proof {
        assert(out_str@ =~= base1);
        assert(rs.skip(0) =~= rs);
        assert(out_str@ + exps_text(rs.skip(0)) =~= base1 + exps_text(rs));
    }
    let mut k: usize = 0;
    while k < l
        invariant
            k <= l,
            l == rs.len(),
            1 <= l <= 32,
            powers_view(iap.prm_powers@) == rs,
            iap.prm_powers@.len() == l,
            forall|i: int| 0 <= i < rs.len() ==> 1 <= (#[trigger] rs[i]).1 <= 32,
            " "@ =~= seq![' '],
            out_str@ + exps_text(rs.skip(k as int)) =~= base1 + exps_text(rs),
        decreases l - k,
    {
        let ghost pre = out_str@;
        let nxt_exp = iap.prm_powers[k].exp;
        proof {
            assert(powers_view(iap.prm_powers@)[k as int] == (
                iap.prm_powers@[k as int].prm_idx,
                iap.prm_powers@[k as int].exp as nat,
            ));
        }
        let mut small_int_encoding = SmallIntEncoding::new();
        small_int_encoding.append_uint32((nxt_exp - 1) as u32);
        let piece = small_int_encoding.get_bitstr_encoding().to_text();
        out_str.append(piece.as_str());
        out_str.append(" ");
        k = k + 1;
        proof {
            assert(rs.skip(k - 1).first() == rs[k - 1]);
            assert(rs.skip(k - 1).drop_first() =~= rs.skip(k as int));
            assert(exps_text(rs.skip(k - 1)) == text_of_bits(small_enc((nxt_exp - 1) as u32))
                + seq![' '] + exps_text(rs.skip(k as int)));
            assert(out_str@ + exps_text(rs.skip(k as int)) =~= pre + exps_text(rs.skip(k - 1)));
        }
    }
    proof {
        assert(exps_text(rs.skip(l as int)) =~= Seq::<char>::empty());
        assert(out_str@ =~= base1 + exps_text(rs));
    }
    out_str.append("] [ ");
    let ghost base2 = base1 + exps_text(rs) + seq![']', ' ', '[', ' '];
    let mut prev_index: u32 = 0;
    let mut k2: usize = 0;
    proof {
        assert(out_str@ =~= base2);
        assert(rs.skip(0) =~= rs);
        assert(out_str@ + deltas_text(rs.skip(0), 0) =~= base2 + deltas_text(rs, 0));
    }
    while k2 < l
        invariant
            k2 <= l,
            l == rs.len(),
            1 <= l <= 32,
            powers_view(iap.prm_powers@) == rs,
            iap.prm_powers@.len() == l,
            forall|i: int, j: int| 0 <= i < j < rs.len() ==> (#[trigger] rs[i]).0 < (
            #[trigger] rs[j]).0,
            " "@ =~= seq![' '],
            prev_index == if k2 == 0 {
                0u32
            } else {
                rs[k2 - 1].0
            },
            out_str@ + deltas_text(rs.skip(k2 as int), prev_index) =~= base2 + deltas_text(rs, 0),
        decreases l - k2,
    {
        let ghost pre = out_str@;
        let ghost prev0 = prev_index;
        let nxt_idx = iap.prm_powers[k2].prm_idx;
        proof {
            assert(powers_view(iap.prm_powers@)[k2 as int] == (
                iap.prm_powers@[k2 as int].prm_idx,
                iap.prm_powers@[k2 as int].exp as nat,
            ));
            if k2 > 0 {
                assert(rs[k2 - 1].0 < rs[k2 as int].0);
            }
        }
        let mut index_encoding = U32Encoding::new();
        index_encoding.append_uint32(nxt_idx - prev_index);
        let piece = index_encoding.get_bitstr_encoding().to_text();
        out_str.append(piece.as_str());
        out_str.append(" ");
        prev_index = nxt_idx;
        k2 = k2 + 1;
        proof {
            assert(rs.skip(k2 - 1).first() == rs[k2 - 1]);
            assert(rs.skip(k2 - 1).drop_first() =~= rs.skip(k2 as int));
            assert(deltas_text(rs.skip(k2 - 1), prev0) == text_of_bits(
                u32_enc((nxt_idx - prev0) as u32),
            ) + seq![' '] + deltas_text(rs.skip(k2 as int), nxt_idx));
            assert(out_str@ + deltas_text(rs.skip(k2 as int), prev_index) =~= pre + deltas_text(
                rs.skip(k2 - 1),
                prev0,
            ));
        }
    }
    proof {
        assert(deltas_text(rs.skip(l as int), prev_index) =~= Seq::<char>::empty());
        assert(out_str@ =~= base2 + deltas_text(rs, 0));
    }
    out_str.append(" ] ");
    proof {
        assert(out_str@ =~= format_factors_spec(s));
    }
    out_str
}

/// Error reported when untrusted bits do not hold a factorization: the bits
/// run out before the announced fields, or an index delta overflows.
#[derive(Debug, Clone, Copy, PartialEq, Eq, Structural)]
pub enum FactorDecodeErr {
    BadEncoding,
}

/// Read `n` small values in sequence, with the value and the final position,
/// or `None` when the bits run out.
pub open spec fn read_exps(s: Seq<bool>, pos: int, n: nat) -> Option<(Seq<u32>, int)>
    decreases n,
{
    if n == 0 {
        Some((Seq::empty(), pos))
    } else {
        match small_dec(s, pos) {
            Option::None => None,
            Option::Some(vp) => match read_exps(s, vp.1, (n - 1) as nat) {
                Option::None => None,
                Option::Some(rest) => Some((seq![vp.0] + rest.0, rest.1)),
            },
        }
    }
}

/// Read `n` general values in sequence, turning each delta into an absolute
/// index by running sum; `None` when the bits run out or a sum leaves `u32`.
pub open spec fn read_deltas(s: Seq<bool>, pos: int, n: nat, prev: u32) -> Option<(Seq<u32>, int)>
    decreases n,
{
    if n == 0 {
        Some((Seq::empty(), pos))
    } else {
        match u32_dec(s, pos) {
            Option::None => None,
            Option::Some(vp) => {
                if prev + vp.0 > u32::MAX {
                    None
                } else {
                    let idx = (prev + vp.0) as u32;
                    match read_deltas(s, vp.1, (n - 1) as nat, idx) {
                        Option::None => None,
                        Option::Some(rest) => Some((seq![idx] + rest.0, rest.1)),
                    }
                }
            },
        }
    }
}

/// Prepend already-read values to a partial read's outcome.
pub open spec fn combine_read(prefix: Seq<u32>, r: Option<(Seq<u32>, int)>) -> Option<
    (Seq<u32>, int),
> {
    match r {
        Option::None => None,
        Option::Some(t) => Some((prefix + t.0, t.1)),
    }
}

/// Total decoder for the wire format: the factor index sequence the bits
/// hold, or `None` when they are malformed.
pub open spec fn decode_factors_spec(bits: Seq<bool>) -> Option<Seq<u32>> {
    match small_dec(bits, 0) {
        Option::None => None,
        Option::Some(cp) => {
            let n = (cp.0 + 1) as nat;
            match read_exps(bits, cp.1, n) {
                Option::None => None,
                Option::Some(ep) => match read_deltas(bits, ep.1, n, 0) {
                    Option::None => None,
                    Option::Some(ip) => Some(
                        expand(
                            Seq::new(
                                ip.0.len(),
                                |i: int| (ip.0[i], (ep.0[i] + 1) as nat),
                            ),
                        ),
                    ),
                },
            }
        },
    }
}

/// Decode untrusted bits into the factor index sequence they hold; malformed
/// bits are reported as an error, never a crash.
#[verifier::rlimit(100)]
pub fn decode_factors(bs: &DynBitString) -> (r: Result<Vec<u32>, FactorDecodeErr>)
    requires
        bs.wf(),
    ensures
        match decode_factors_spec(bs@) {
            Option::Some(f) => r matches Ok(v) && v@ == f,
            Option::None => r is Err,
        },
{
    let ghost bits = bs@;
    let small_int_encoding = SmallIntEncoding::from_bitstr_encoding(bs.duplicate());
    let mut cursor: usize = 0;
    proof {
        crate::encoding_small_int::lemma_small_dec_bound(bits, 0);
    }
    let c = match small_int_encoding.read_uint32(&mut cursor) {
        Ok(x) => x,
        Err(_) => {
            return Err(FactorDecodeErr::BadEncoding);
        },
    };
    let l = c + 1;
    let ghost p1 = cursor as int;
    let mut exponents: Vec<u32> = Vec::new();
    proof {
        assert(read_exps(bits, p1, l as nat) == combine_read(
            exponents@,
            read_exps(bits, cursor as int, l as nat),
        )) by {
            assert(exponents@ + read_exps(bits, p1, l as nat)->Some_0.0 =~= read_exps(
                bits,
                p1,
                l as nat,
            )->Some_0.0);
        }
    }
    let mut k: usize = 0;
    while k < l as usize
        invariant
            small_int_encoding.wf(),
            small_int_encoding.encoding.bstr@ == bits,
            k <= l,
            l == c + 1,
            c <= 31,
            bits == bs@,
            bs.wf(),
            small_dec(bits, 0) == Some((c, p1)),
            exponents@.len() == k,
            forall|i: int| 0 <= i < k ==> exponents@[i] <= 31,
            read_exps(bits, p1, l as nat) == combine_read(
                exponents@,
                read_exps(bits, cursor as int, (l - k as u32) as nat),
            ),
        decreases l - k,
    {
        let ghost oc = cursor as int;
        let ghost prefix = exponents@;
        proof {
            crate::encoding_small_int::lemma_small_dec_bound(bits, oc);
        }
        let e = match small_int_encoding.read_uint32(&mut cursor) {
            Ok(x) => x,
            Err(_) => {
                proof {
                    assert(small_dec(bits, oc) is None);
                    assert(read_exps(bits, oc, (l - k as u32) as nat) is None);
                    assert(read_exps(bits, p1, l as nat) is None);
                    assert(decode_factors_spec(bits) is None);
                }
                return Err(FactorDecodeErr::BadEncoding);
            },
        };
        exponents.push(e);
        k = k + 1;
        proof {
            let rem = read_exps(bits, cursor as int, (l - k as u32) as nat);
            match rem {
                Option::None => {},
                Option::Some(t) => {
                    assert(prefix + (seq![e] + t.0) =~= exponents@ + t.0);
                },
            }
        }
    }
    proof {
        assert(read_exps(bits, cursor as int, 0) == Some((Seq::<u32>::empty(), cursor as int)));
        assert(exponents@ + Seq::<u32>::empty() =~= exponents@);
        assert(read_exps(bits, p1, l as nat) == Some((exponents@, cursor as int)));
    }
    let ghost p2 = cursor as int;
    let index_encoding = U32Encoding::from_bitstr_encoding(
        small_int_encoding.get_bitstr_encoding(),
    );
    let mut idxs: Vec<u32> = Vec::new();
    let mut prev_index: u32 = 0;
    proof {
        assert(read_deltas(bits, p2, l as nat, 0) == combine_read(
            idxs@,
            read_deltas(bits, cursor as int, l as nat, 0),
        )) by {
            match read_deltas(bits, p2, l as nat, 0u32) {
                Option::None => {},
                Option::Some(t) => {
                    assert(idxs@ + t.0 =~= t.0);
                },
            }
        }
    }
    let mut k2: usize = 0;
    while k2 < l as usize
        invariant
            index_encoding.wf(),
            index_encoding.encoding.bstr@ == bits,
            k2 <= l,
            l == c + 1,
            c <= 31,
            bits == bs@,
            bs.wf(),
            small_dec(bits, 0) == Some((c, p1)),
            read_exps(bits, p1, l as nat) == Some((exponents@, p2)),
            exponents@.len() == l,
            forall|i: int| 0 <= i < l ==> exponents@[i] <= 31,
            idxs@.len() == k2,
            read_deltas(bits, p2, l as nat, 0) == combine_read(
                idxs@,
                read_deltas(bits, cursor as int, (l - k2 as u32) as nat, prev_index),
            ),
        decreases l - k2,
    {
        let ghost oc = cursor as int;
        let ghost prefix = idxs@;
        let ghost prev0 = prev_index;
        let d = match index_encoding.read_uint32(&mut cursor) {
            Ok(x) => x,
            Err(_) => {
                proof {
                    assert(u32_dec(bits, oc) is None);
                    assert(read_deltas(bits, oc, (l - k2 as u32) as nat, prev0) is None);
                    assert(read_deltas(bits, p2, l as nat, 0) is None);
                    assert(decode_factors_spec(bits) is None);
                }
                return Err(FactorDecodeErr::BadEncoding);
            },
        };
        if d > u32::MAX - prev_index {
            proof {
                assert(read_deltas(bits, oc, (l - k2 as u32) as nat, prev0) is None);
                assert(read_deltas(bits, p2, l as nat, 0) is None);
                assert(decode_factors_spec(bits) is None);
            }
            return Err(FactorDecodeErr::BadEncoding);
        }
        let idx = prev_index + d;
        idxs.push(idx);
        prev_index = idx;
        k2 = k2 + 1;
        proof {
            let rem = read_deltas(bits, cursor as int, (l - k2 as u32) as nat, prev_index);
            match rem {
                Option::None => {},
                Option::Some(t) => {
                    assert(prefix + (seq![idx] + t.0) =~= idxs@ + t.0);
                },
            }
        }
    }
    proof {
        assert(read_deltas(bits, cursor as int, 0, prev_index) == Some(
            (Seq::<u32>::empty(), cursor as int),
        ));
        assert(idxs@ + Seq::<u32>::empty() =~= idxs@);
        assert(read_deltas(bits, p2, l as nat, 0) == Some((idxs@, cursor as int)));
    }
    let ghost p3 = cursor as int;
    let ghost pairs = Seq::new(idxs@.len(), |i: int| (idxs@[i], (exponents@[i] + 1) as nat));
    let mut factors: Vec<u32> = Vec::new();
    proof {
        assert(pairs.take(0) =~= Seq::<(u32, nat)>::empty());
        assert(factors@ =~= expand(pairs.take(0)));
    }
    let mut k3: usize = 0;
    while k3 < l as usize
        invariant
            k3 <= l,
            l == c + 1,
            bits == bs@,
            bs.wf(),
            small_dec(bits, 0) == Some((c, p1)),
            read_exps(bits, p1, l as nat) == Some((exponents@, p2)),
            read_deltas(bits, p2, l as nat, 0) == Some((idxs@, p3)),
            idxs@.len() == l,
            exponents@.len() == l,
            forall|i: int| 0 <= i < l ==> exponents@[i] <= 31,
            pairs == Seq::new(idxs@.len(), |i: int| (idxs@[i], (exponents@[i] + 1) as nat)),
            factors@ == expand(pairs.take(k3 as int)),
        decreases l - k3,
    {
        let e = exponents[k3];
        let idx = idxs[k3];
        let ghost before = factors@;
        let mut j: u32 = 0;
        while j < e + 1
            invariant
                j <= e + 1,
                e <= 31,
                factors@ == before + Seq::new(j as nat, |i: int| idx),
            decreases e + 1 - j,
        {
            factors.push(idx);
            j = j + 1;
            proof {
                assert(before + Seq::new((j - 1) as nat, |i: int| idx) + seq![idx] =~= before
                    + Seq::new(j as nat, |i: int| idx));
            }
        }
        k3 = k3 + 1;
        proof {
            assert(pairs.take(k3 as int) =~= pairs.take(k3 - 1).push(pairs[k3 - 1]));
            lemma_expand_push(pairs.take(k3 - 1), pairs[k3 - 1]);
            assert(factors@ == expand(pairs.take(k3 as int)));
        }
    }
    proof {
        assert(pairs.take(l as int) =~= pairs);
    }
    Ok(factors)
}

/// Reading run exponents finds the emitted biased exponents wherever the
/// exponent bits stand inside a larger bit string.
proof fn lemma_read_exps_of_bits(pre: Seq<bool>, rs: Seq<(u32, nat)>, suf: Seq<bool>)
    requires
        forall|i: int| 0 <= i < rs.len() ==> 1 <= (#[trigger] rs[i]).1 <= 32,
    ensures
        read_exps(pre + exps_bits(rs) + suf, pre.len() as int, rs.len()) == Some(
            (
                Seq::new(rs.len(), |i: int| (rs[i].1 - 1) as u32),
                pre.len() + exps_bits(rs).len() as int,
            ),
        ),
    decreases rs.len(),
{
    if rs.len() == 0 {
        assert(exps_bits(rs) =~= Seq::<bool>::empty());
        assert(Seq::new(0, |i: int| (rs[i].1 - 1) as u32) =~= Seq::<u32>::empty());
    } else {
        let e0 = (rs.first().1 - 1) as u32;
        let rest = rs.drop_first();
        let tail_bits = exps_bits(rest);
        assert(exps_bits(rs) == small_enc(e0) + tail_bits);
        let s = pre + exps_bits(rs) + suf;
        assert(s =~= pre + small_enc(e0) + (tail_bits + suf));
        lemma_small_codec_prefix(pre, e0, tail_bits + suf);
        let pre2 = pre + small_enc(e0);
        assert(s =~= pre2 + tail_bits + suf);
        lemma_read_exps_of_bits(pre2, rest, suf);
        let tail_vals = Seq::new(rest.len(), |i: int| (rest[i].1 - 1) as u32);
        assert(read_exps(s, pre2.len() as int, rest.len()) == Some(
            (tail_vals, pre2.len() + tail_bits.len() as int),
        ));
        assert(seq![e0] + tail_vals =~= Seq::new(rs.len(), |i: int| (rs[i].1 - 1) as u32));
    }
}

/// Reading index deltas reconstructs the absolute indices wherever the delta
/// bits stand inside a larger bit string.
proof fn lemma_read_deltas_of_bits(pre: Seq<bool>, rs: Seq<(u32, nat)>, suf: Seq<bool>, prev: u32)
    requires
        forall|i: int, j: int|
            0 <= i < j < rs.len() ==> (#[trigger] rs[i]).0 < (#[trigger] rs[j]).0,
        rs.len() > 0 ==> prev <= rs[0].0,
    ensures
        read_deltas(pre + deltas_bits(rs, prev) + suf, pre.len() as int, rs.len(), prev) == Some(
            (Seq::new(rs.len(), |i: int| rs[i].0), pre.len() + deltas_bits(rs, prev).len() as int),
        ),
    decreases rs.len(),
{
    if rs.len() == 0 {
        assert(deltas_bits(rs, prev) =~= Seq::<bool>::empty());
        assert(Seq::new(0, |i: int| rs[i].0) =~= Seq::<u32>::empty());
    } else {
        let x0 = rs.first().0;
        let d0 = (x0 - prev) as u32;
        let rest = rs.drop_first();
        let tail_bits = deltas_bits(rest, x0);
        assert(deltas_bits(rs, prev) == u32_enc(d0) + tail_bits);
        let s = pre + deltas_bits(rs, prev) + suf;
        assert(s =~= pre + u32_enc(d0) + (tail_bits + suf));
        lemma_u32_codec_prefix(pre, d0, tail_bits + suf);
        let pre2 = pre + u32_enc(d0);
        assert(s =~= pre2 + tail_bits + suf);
        assert(prev + d0 == x0);
        assert forall|i: int, j: int|
            0 <= i < j < rest.len() implies (#[trigger] rest[i]).0 < (#[trigger] rest[j]).0 by {
            assert(rs[i + 1].0 < rs[j + 1].0);
        }
        if rest.len() > 0 {
            assert(rs[0].0 < rs[1].0);
        }
        lemma_read_deltas_of_bits(pre2, rest, suf, x0);
        let tail_vals = Seq::new(rest.len(), |i: int| rest[i].0);
        assert(seq![x0] + tail_vals =~= Seq::new(rs.len(), |i: int| rs[i].0));
    }
}

/// Round trip: decoding the wire format of any encodable factor index
/// sequence yields back exactly that sequence.
pub proof fn lemma_decode_encode_factors(s: Seq<u32>)
    requires
        encodable_factors(s),
    ensures
        decode_factors_spec(encode_factors_spec(s)) == Some(s),
{
    let rs = rle(s);
    let c = (rs.len() - 1) as u32;
    lemma_rle_sorted(s);
    let bits = encode_factors_spec(s);
    let head = small_enc(c);
    let ebits = exps_bits(rs);
    let dbits = deltas_bits(rs, 0);
    assert(bits == head + ebits + dbits);
    // the run count field
    assert(bits =~= Seq::<bool>::empty() + small_enc(c) + (ebits + dbits));
    lemma_small_codec_prefix(Seq::empty(), c, ebits + dbits);
    assert(small_dec(bits, 0) == Some((c, head.len() as int)));
    // the exponent fields
    assert(bits =~= head + ebits + dbits);
    lemma_read_exps_of_bits(head, rs, dbits);
    let exps = Seq::new(rs.len(), |i: int| (rs[i].1 - 1) as u32);
    assert(read_exps(bits, head.len() as int, rs.len()) == Some(
        (exps, head.len() + ebits.len() as int),
    ));
    // the delta fields
    let pre2 = head + ebits;
    assert(bits =~= pre2 + dbits + Seq::<bool>::empty());
    lemma_read_deltas_of_bits(pre2, rs, Seq::empty(), 0);
    let idxs = Seq::new(rs.len(), |i: int| rs[i].0);
    assert(read_deltas(bits, pre2.len() as int, rs.len(), 0) == Some(
        (idxs, pre2.len() + dbits.len() as int),
    ));
    // the reconstructed pairs are the runs themselves
    assert((c + 1) as nat == rs.len());
    let pairs = Seq::new(idxs.len(), |i: int| (idxs[i], (exps[i] + 1) as nat));
    assert(pairs =~= rs);
    lemma_expand_rle(s);
    assert(decode_factors_spec(bits) == Some(expand(pairs)));
    assert(expand(pairs) == s);
}

} // verus!
