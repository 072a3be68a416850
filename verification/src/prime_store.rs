//! The persisted form of a prime table: one big-endian four-byte record per
//! prime, in ascending order, with no header. Turning tables into bytes and
//! back is verified here; reading and writing the file itself stays outside
//! the library.

use vstd::prelude::*;

verus! {

/// The four big-endian bytes of one value.
pub open spec fn u32_be_bytes(v: u32) -> Seq<u8> {
    seq![
        (v >> 24u32) as u8,
        ((v >> 16u32) & 0xff) as u8,
        ((v >> 8u32) & 0xff) as u8,
        (v & 0xff) as u8,
    ]
}

/// The byte image of a whole table: each value's record, in order.
pub open spec fn primes_be_bytes(prms: Seq<u32>) -> Seq<u8>
    decreases prms.len(),
{
    if prms.len() == 0 {
        Seq::empty()
    } else {
        primes_be_bytes(prms.drop_last()) + u32_be_bytes(prms.last())
    }
}

/// The value of record `i` of a byte image.
pub open spec fn be_record_val(b: Seq<u8>, i: int) -> u32 {
    ((b[4 * i] as int) * 0x1000000 + (b[4 * i + 1] as int) * 0x10000 + (b[4 * i + 2] as int)
        * 0x100 + (b[4 * i + 3] as int)) as u32
}

/// The table a byte image denotes: one value per whole four-byte record;
/// trailing bytes of a partial record carry no value.
pub open spec fn primes_of_be_bytes(b: Seq<u8>) -> Seq<u32> {
    Seq::new((b.len() / 4) as nat, |i: int| be_record_val(b, i))
}

/// A table's byte image holds four bytes per value.
pub proof fn lemma_primes_be_bytes_len(prms: Seq<u32>)
    ensures
        primes_be_bytes(prms).len() == 4 * prms.len(),
    decreases prms.len(),
{
    if prms.len() > 0 {
        lemma_primes_be_bytes_len(prms.drop_last());
    }
}

/// The four big-endian bytes of a value put that value back together.
proof fn lemma_be_reconstruct(v: u32)
    by (bit_vector)
    ensures
        (((v >> 24u32) as u8) as int) * 0x1000000 + ((((v >> 16u32) & 0xff) as u8) as int)
            * 0x10000 + ((((v >> 8u32) & 0xff) as u8) as int) * 0x100 + (((v & 0xff) as u8) as int)
            == v,
{
}

/// Round trip: the byte image of a table reads back as that table.
pub proof fn lemma_primes_bytes_round_trip(prms: Seq<u32>)
    ensures
        primes_of_be_bytes(primes_be_bytes(prms)) =~= prms,
    decreases prms.len(),
{
    lemma_primes_be_bytes_len(prms);
    if prms.len() > 0 {
        let t = prms.drop_last();
        let v = prms.last();
        let bytes = primes_be_bytes(prms);
        let tb = primes_be_bytes(t);
        lemma_primes_be_bytes_len(t);
        lemma_primes_bytes_round_trip(t);
        assert forall|i: int| 0 <= i < prms.len() implies be_record_val(bytes, i) == prms[i] by {
            if i < prms.len() - 1 {
                assert(bytes[4 * i] == tb[4 * i] && bytes[4 * i + 1] == tb[4 * i + 1] && bytes[4
                    * i + 2] == tb[4 * i + 2] && bytes[4 * i + 3] == tb[4 * i + 3]) by {
                    assert(4 * i + 3 < 4 * t.len()) by (nonlinear_arith)
                        requires
                            0 <= i < t.len(),
                    ;
                }
                assert(be_record_val(tb, i) == t[i]);
            } else {
                assert(bytes[4 * i] == u32_be_bytes(v)[0] && bytes[4 * i + 1] == u32_be_bytes(v)[1]
                    && bytes[4 * i + 2] == u32_be_bytes(v)[2] && bytes[4 * i + 3] == u32_be_bytes(
                    v,
                )[3]) by {
                    assert(4 * i == tb.len() as int) by (nonlinear_arith)
                        requires
                            i == t.len(),
                            tb.len() == 4 * t.len(),
                    ;
                }
                lemma_be_reconstruct(v);
            }
        }
    }
}

/// Serialize a table as its big-endian byte image.
pub fn primes_to_be_bytes(prms: &Vec<u32>) -> (r: Vec<u8>)
    ensures
        r@ == primes_be_bytes(prms@),
        r@.len() == 4 * prms@.len(),
{
    proof {
        lemma_primes_be_bytes_len(prms@);
    }
    let mut out: Vec<u8> = Vec::new();
    let mut k: usize = 0;
    proof {
        assert(prms@.take(0) =~= Seq::<u32>::empty());
        assert(out@ =~= primes_be_bytes(prms@.take(0)));
    }
    while k < prms.len()
        invariant
            k <= prms@.len(),
            out@ == primes_be_bytes(prms@.take(k as int)),
            out@.len() == 4 * k,
        decreases prms@.len() - k,
    {
        let v = prms[k];
        proof {
            lemma_primes_be_bytes_len(prms@.take(k as int));
            assert((v >> 24u32) <= 0xff && ((v >> 16u32) & 0xff) <= 0xff && ((v >> 8u32) & 0xff)
                <= 0xff && (v & 0xff) <= 0xff) by (bit_vector);
        }
        out.push((v >> 24u32) as u8);
        out.push(((v >> 16u32) & 0xff) as u8);
        out.push(((v >> 8u32) & 0xff) as u8);
        out.push((v & 0xff) as u8);
        k = k + 1;
        proof {
            assert(prms@.take(k as int).drop_last() =~= prms@.take(k - 1));
            assert(prms@.take(k as int).last() == v);
            assert(out@ =~= primes_be_bytes(prms@.take(k - 1)) + u32_be_bytes(v));
            assert(out@ == primes_be_bytes(prms@.take(k as int)));
        }
    }
    proof {
        assert(prms@.take(prms@.len() as int) =~= prms@);
    }
    out
}

/// Rebuild a table from its big-endian byte image; a trailing partial
/// record, were one present, is ignored.
pub fn primes_from_be_bytes(bytes: &Vec<u8>) -> (r: Vec<u32>)
    ensures
        r@ =~= primes_of_be_bytes(bytes@),
{
    let n = bytes.len();
    let cnt = n / 4;
    let mut out: Vec<u32> = Vec::new();
    let mut i: usize = 0;
    while i < cnt
        invariant
            cnt == bytes@.len() / 4,
            bytes@.len() <= usize::MAX,
            i <= cnt,
            out@.len() == i,
            forall|j: int| 0 <= j < i ==> #[trigger] out@[j] == be_record_val(bytes@, j),
        decreases cnt - i,
    {
        proof {
            assert(4 * i + 3 < bytes@.len()) by (nonlinear_arith)
                requires
                    0 <= i,
                    i < bytes@.len() / 4,
            ;
            assert(4 * i + 3 <= usize::MAX);
        }
        let b0 = bytes[4 * i];
        let b1 = bytes[4 * i + 1];
        let b2 = bytes[4 * i + 2];
        let b3 = bytes[4 * i + 3];
        let v: u32 = (b0 as u32) * 0x1000000 + (b1 as u32) * 0x10000 + (b2 as u32) * 0x100 + (
        b3 as u32);
        out.push(v);
        i = i + 1;
    }
    out
}

} // verus!
