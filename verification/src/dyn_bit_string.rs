//! A growable, randomly addressable sequence of bits backed by a byte vector.

use vstd::prelude::*;
use vstd::string::*;

verus! {

/// Number of bits stored in one backing byte.
pub const BITS_PER_BYTE: usize = 8;

/// A dynamically sized bit string. The logical length is `cnt` bits; the
/// backing vector `b` always holds at least `cnt` bits. Bits at positions
/// `cnt` and beyond inside the last partial byte carry no meaning.
#[derive(Debug, PartialEq)]
pub struct DynBitString {
    /// number of bits
    pub cnt: usize,
    /// byte-aligned backing storage
    pub b: Vec<u8>,
}

/// Errors returned when asking for a sub-range of bits.
#[derive(PartialEq, Eq, Structural, Debug)]
pub enum DBSGetBitErr {
    CountPastEnd,
    StartingAtTooBig,
}

/// The bit stored at position `i` of a packed byte sequence: bit `i` lives in
/// byte `i / 8` at in-byte position `i % 8`, least significant bit first.
pub open spec fn nth_bit(bytes: Seq<u8>, i: int) -> bool {
    bytes[i / 8] & (1u8 << ((i % 8) as u8)) != 0
}

/// Truncating to `n` bits keeps the prefix; growing to `n` bits appends zeros.
pub open spec fn clip_spec(s: Seq<bool>, n: nat) -> Seq<bool> {
    if n <= s.len() {
        s.take(n as int)
    } else {
        s + Seq::new((n - s.len()) as nat, |i: int| false)
    }
}

/// Textual form of a bit string: a `'b'` prefix followed by one `'0'` or `'1'`
/// per bit, in index order.
pub open spec fn text_of_bits(s: Seq<bool>) -> Seq<char> {
    seq!['b'] + Seq::new(s.len(), |i: int| if s[i] { '1' } else { '0' })
}

/// Whether a character sequence is a well-formed textual bit string.
pub open spec fn is_bit_text(s: Seq<char>) -> bool {
    &&& s.len() >= 1
    &&& s[0] == 'b'
    &&& forall|i: int| 1 <= i < s.len() ==> s[i] == '0' || s[i] == '1'
}

/// The bits denoted by a well-formed textual bit string.
pub open spec fn bits_of_text(s: Seq<char>) -> Seq<bool> {
    Seq::new((s.len() - 1) as nat, |i: int| s[i + 1] == '1')
}

/// The clip laws: clipping twice to one size is clipping once; shrinking
/// keeps the prefix unchanged; growing appends only zero bits.
pub proof fn lemma_clip_laws(s: Seq<bool>, n: nat)
    ensures
        clip_spec(clip_spec(s, n), n) == clip_spec(s, n),
        n <= s.len() ==> forall|i: int| 0 <= i < n ==> #[trigger] clip_spec(s, n)[i] == s[i],
        n >= s.len() ==> forall|i: int|
            s.len() <= i < n ==> #[trigger] clip_spec(s, n)[i] == false,
{
    assert(clip_spec(s, n).len() == n);
    assert(clip_spec(clip_spec(s, n), n) =~= clip_spec(s, n));
}

/// Round trip between a bit string and its textual form: rendering parses
/// back, and any well-formed text renders back letter for letter.
pub proof fn lemma_text_round_trip(b: Seq<bool>, t: Seq<char>)
    ensures
        is_bit_text(text_of_bits(b)),
        bits_of_text(text_of_bits(b)) == b,
        is_bit_text(t) ==> text_of_bits(bits_of_text(t)) == t,
{
    assert(bits_of_text(text_of_bits(b)) =~= b);
    if is_bit_text(t) {
        assert(text_of_bits(bits_of_text(t)) =~= t);
    }
}

proof fn lemma_or_bit_set(x: u8, k: u8)
    by (bit_vector)
    requires
        k < 8,
    ensures
        (x | (1u8 << k)) & (1u8 << k) != 0,
{
}

proof fn lemma_or_bit_other(x: u8, j: u8, k: u8)
    by (bit_vector)
    requires
        j < 8,
        k < 8,
        j != k,
    ensures
        ((x | (1u8 << k)) & (1u8 << j)) == (x & (1u8 << j)),
{
}

proof fn lemma_andnot_bit_clear(x: u8, k: u8)
    by (bit_vector)
    requires
        k < 8,
    ensures
        (x & !(1u8 << k)) & (1u8 << k) == 0,
{
}

proof fn lemma_andnot_bit_other(x: u8, j: u8, k: u8)
    by (bit_vector)
    requires
        j < 8,
        k < 8,
        j != k,
    ensures
        ((x & !(1u8 << k)) & (1u8 << j)) == (x & (1u8 << j)),
{
}

/// Two distinct positions inside the same byte use distinct in-byte offsets.
proof fn lemma_same_byte_distinct_offset(i: int, n: int)
    requires
        0 <= i,
        0 <= n,
        i != n,
        i / 8 == n / 8,
    ensures
        i % 8 != n % 8,
{
    vstd::arithmetic::div_mod::lemma_fundamental_div_mod(i, 8);
    vstd::arithmetic::div_mod::lemma_fundamental_div_mod(n, 8);
}

/// A bit position below the bit capacity addresses a valid byte.
proof fn lemma_bit_pos_byte_valid(i: int, len: int)
    by (nonlinear_arith)
    requires
        0 <= i,
        i < len * 8,
    ensures
        0 <= i / 8 < len,
{
}

impl View for DynBitString {
    type V = Seq<bool>;

    open spec fn view(&self) -> Seq<bool> {
        Seq::new(self.cnt as nat, |i: int| nth_bit(self.b@, i))
    }
}

impl DynBitString {
    /// The backing storage covers every logical bit.
    pub open spec fn wf(&self) -> bool {
        self.cnt <= self.b@.len() * (BITS_PER_BYTE as int)
    }

    /// An empty bit string.
    pub fn null() -> (r: Self)
        ensures
            r.wf(),
            r@ =~= Seq::<bool>::empty(),
    {
        DynBitString { cnt: 0, b: Vec::new() }
    }

    /// Number of bits held.
    pub fn len(&self) -> (r: usize)
        ensures
            r == self@.len(),
    {
        self.cnt
    }

    /// Read the bit at position `ndx`.
    pub fn get(&self, ndx: usize) -> (r: bool)
        requires
            self.wf(),
            ndx < self@.len(),
        ensures
            r == self@[ndx as int],
    {
        proof {
            lemma_bit_pos_byte_valid(ndx as int, self.b@.len() as int);
        }
        let byte_index = ndx / BITS_PER_BYTE;
        let bit_index_within_byte = (ndx % BITS_PER_BYTE) as u8;
        self.b[byte_index] & (1u8 << bit_index_within_byte) != 0
    }

    /// Overwrite the bit at position `ndx`.
    pub fn set(&mut self, ndx: usize, bit: bool)
        requires
            old(self).wf(),
            ndx < old(self)@.len(),
        ensures
            final(self).wf(),
            final(self)@ =~= old(self)@.update(ndx as int, bit),
    {
        proof {
            lemma_bit_pos_byte_valid(ndx as int, self.b@.len() as int);
        }
        let byte_index = ndx / BITS_PER_BYTE;
        let k = (ndx % BITS_PER_BYTE) as u8;
        let bit_shift: u8 = 1u8 << k;
        let old_byte = self.b[byte_index];
        let new_byte = if bit {
            old_byte | bit_shift
        } else {
            old_byte & !bit_shift
        };
        self.b.set(byte_index, new_byte);
        proof {
            if bit {
                lemma_or_bit_set(old_byte, k);
            } else {
                lemma_andnot_bit_clear(old_byte, k);
            }
            assert forall|i: int| 0 <= i < self.cnt && i != ndx implies nth_bit(
                self.b@,
                i,
            ) == nth_bit(old(self).b@, i) by {
                if i / 8 == ndx as int / 8 {
                    lemma_same_byte_distinct_offset(i, ndx as int);
                    let j = (i % 8) as u8;
                    if bit {
                        lemma_or_bit_other(old_byte, j, k);
                    } else {
                        lemma_andnot_bit_other(old_byte, j, k);
                    }
                }
            }
        }
    }

    /// Invert the bit at position `ndx`.
    pub fn flip(&mut self, ndx: usize)
        requires
            old(self).wf(),
            ndx < old(self)@.len(),
        ensures
            final(self).wf(),
            final(self)@ =~= old(self)@.update(ndx as int, !old(self)@[ndx as int]),
    {
        let cur = self.get(ndx);
        self.set(ndx, !cur);
    }

    /// Append one bit at the end, growing the length by one.
    pub fn append(&mut self, bit: bool)
        requires
            old(self).wf(),
            old(self)@.len() < usize::MAX,
        ensures
            final(self).wf(),
            final(self)@ =~= old(self)@.push(bit),
    {
        if self.cnt % BITS_PER_BYTE == 0 && self.cnt / BITS_PER_BYTE == self.b.len() {
            self.b.push(0);
        }
        proof {
            assert(self.cnt < self.b@.len() * 8) by (nonlinear_arith)
                requires
                    self.cnt <= self.b@.len() * 8,
                    self.cnt % 8 != 0 || self.cnt / 8 < self.b@.len(),
            ;
            lemma_bit_pos_byte_valid(self.cnt as int, self.b@.len() as int);
        }
        let byte_index = self.cnt / BITS_PER_BYTE;
        let k = (self.cnt % BITS_PER_BYTE) as u8;
        let bit_shift: u8 = 1u8 << k;
        let old_byte = self.b[byte_index];
        let new_byte = if bit {
            old_byte | bit_shift
        } else {
            old_byte & !bit_shift
        };
        self.b.set(byte_index, new_byte);
        let ghost prev_cnt = self.cnt as int;
        self.cnt = self.cnt + 1;
        proof {
            if bit {
                lemma_or_bit_set(old_byte, k);
            } else {
                lemma_andnot_bit_clear(old_byte, k);
            }
            assert forall|i: int| 0 <= i < prev_cnt implies nth_bit(self.b@, i) == nth_bit(
                old(self).b@,
                i,
            ) by {
                if i / 8 == prev_cnt / 8 {
                    lemma_same_byte_distinct_offset(i, prev_cnt);
                    let j = (i % 8) as u8;
                    if bit {
                        lemma_or_bit_other(old_byte, j, k);
                    } else {
                        lemma_andnot_bit_other(old_byte, j, k);
                    }
                }
            }
        }
    }

    /// Resize to `newsz` bits: shrinking keeps the prefix, growing appends
    /// zero bits, and resizing to the current length changes nothing.
    pub fn clip(&mut self, newsz: usize)
        requires
            old(self).wf(),
        ensures
            final(self).wf(),
            final(self)@ =~= clip_spec(old(self)@, newsz as nat),
    {
        if newsz < self.cnt {
            let mut k = newsz;
            while k < self.cnt
                invariant
                    newsz <= k <= self.cnt,
                    self.wf(),
                    self.cnt == old(self).cnt,
                    self@.len() == old(self)@.len(),
                    forall|i: int| 0 <= i < newsz ==> self@[i] == old(self)@[i],
                decreases self.cnt - k,
            {
                self.set(k, false);
                k = k + 1;
            }
            self.cnt = newsz;
        } else if newsz > self.cnt {
            while self.cnt < newsz
                invariant
                    old(self).cnt <= self.cnt <= newsz,
                    self.wf(),
                    self@ =~= old(self)@ + Seq::new(
                        (self.cnt - old(self).cnt) as nat,
                        |i: int| false,
                    ),
                decreases newsz - self.cnt,
            {
                self.append(false);
            }
        }
    }

    /// Bit-by-bit equality: same length and the same bit at every position.
    pub fn same_bits(&self, other: &DynBitString) -> (r: bool)
        requires
            self.wf(),
            other.wf(),
        ensures
            r == (self@ =~= other@),
    {
        if self.cnt != other.cnt {
            return false;
        }
        let mut k: usize = 0;
        while k < self.cnt
            invariant
                self.wf(),
                other.wf(),
                self.cnt == other.cnt,
                k <= self.cnt,
                forall|i: int| 0 <= i < k ==> self@[i] == other@[i],
            decreases self.cnt - k,
        {
            if self.get(k) != other.get(k) {
                return false;
            }
            k = k + 1;
        }
        proof {
            assert(self@ =~= other@);
        }
        true
    }

    /// A copy holding the same bits.
    pub fn duplicate(&self) -> (r: Self)
        requires
            self.wf(),
        ensures
            r.wf(),
            r@ =~= self@,
    {
        let mut nb: Vec<u8> = Vec::new();
        let mut i: usize = 0;
        while i < self.b.len()
            invariant
                i <= self.b@.len(),
                nb@ =~= self.b@.take(i as int),
            decreases self.b@.len() - i,
        {
            nb.push(self.b[i]);
            i = i + 1;
        }
        assert(nb@ =~= self.b@);
        DynBitString { cnt: self.cnt, b: nb }
    }

    /// Render as text: `'b'` followed by one `'0'`/`'1'` character per bit.
    pub fn to_text(&self) -> (r: String)
        requires
            self.wf(),
        ensures
            r@ =~= text_of_bits(self@),
    {
        proof {
            reveal_strlit("b");
            reveal_strlit("0");
            reveal_strlit("1");
        }
        let mut out = String::from_str("b");
        let mut k: usize = 0;
        while k < self.len()
            invariant
                self.wf(),
                k <= self@.len(),
                out@ =~= text_of_bits(self@.take(k as int)),
                "b"@ =~= seq!['b'],
                "0"@ =~= seq!['0'],
                "1"@ =~= seq!['1'],
            decreases self@.len() - k,
        {
            if self.get(k) {
                out.append("1");
            } else {
                out.append("0");
            }
            k = k + 1;
            assert(out@ =~= text_of_bits(self@.take(k as int)));
        }
        assert(self@.take(self@.len() as int) =~= self@);
        out
    }

    /// Parse the textual form produced by [`DynBitString::to_text`]: a `'b'`
    /// prefix, then `'0'`/`'1'` characters. Any other shape is rejected.
    pub fn parse_text(s: &str) -> (r: Result<Self, String>)
        ensures
            r is Ok <==> is_bit_text(s@),
            r matches Ok(bs) ==> bs.wf() && bs@ =~= bits_of_text(s@),
    {
        let n = s.unicode_len();
        if n == 0 || s.get_char(0) != 'b' {
            return Err(String::from_str("prefix for DynBitString not seen"));
        }
        let mut bitstr = DynBitString::null();
        let mut k: usize = 1;
        while k < n
            invariant
                n == s@.len(),
                1 <= k <= n,
                bitstr.wf(),
                forall|i: int| 1 <= i < k ==> s@[i] == '0' || s@[i] == '1',
                bitstr@ =~= bits_of_text(s@.take(k as int)),
            decreases n - k,
        {
            let c = s.get_char(k);
            if c == '1' {
                bitstr.append(true);
            } else if c == '0' {
                bitstr.append(false);
            } else {
                return Err(String::from_str("bits in DynBitString must be 0 or 1"));
            }
            k = k + 1;
            assert(bitstr@ =~= bits_of_text(s@.take(k as int)));
        }
        assert(s@.take(n as int) =~= s@);
        Ok(bitstr)
    }
}

impl core::str::FromStr for DynBitString {
    type Err = String;

    fn from_str(s: &str) -> Result<Self, String> {
        DynBitString::parse_text(s)
    }
}

/// Append every bit of `bits` to the end of `dest`, in order.
pub fn append_bits(dest: &mut DynBitString, bits: &DynBitString)
    requires
        old(dest).wf(),
        bits.wf(),
        old(dest)@.len() + bits@.len() <= usize::MAX,
    ensures
        final(dest).wf(),
        final(dest)@ =~= old(dest)@ + bits@,
{
    let n = bits.len();
    let mut k: usize = 0;
    while k < n
        invariant
            n == bits@.len(),
            k <= n,
            dest.wf(),
            bits.wf(),
            old(dest)@.len() + n <= usize::MAX,
            dest@ =~= old(dest)@ + bits@.take(k as int),
        decreases n - k,
    {
        dest.append(bits.get(k));
        k = k + 1;
        assert(dest@ =~= old(dest)@ + bits@.take(k as int));
    }
    assert(bits@.take(n as int) =~= bits@);
}

/// Copy out `count` bits starting at position `starting_at`.
pub fn get_bits(bs: &DynBitString, starting_at: u32, count: u32) -> (r: Result<
    DynBitString,
    DBSGetBitErr,
>)
    requires
        bs.wf(),
        bs@.len() <= u32::MAX,
    ensures
        r is Ok <==> starting_at < bs@.len() && starting_at + count <= bs@.len(),
        r matches Ok(sub) ==> sub.wf() && sub@ =~= bs@.subrange(
            starting_at as int,
            starting_at + count,
        ),
        r == Err::<DynBitString, DBSGetBitErr>(DBSGetBitErr::StartingAtTooBig) <==> starting_at
            >= bs@.len(),
        r == Err::<DynBitString, DBSGetBitErr>(DBSGetBitErr::CountPastEnd) <==> starting_at
            < bs@.len() && starting_at + count > bs@.len(),
{
    let len = bs.len();
    if starting_at as usize >= len {
        return Err(DBSGetBitErr::StartingAtTooBig);
    }
    if count as usize > len - starting_at as usize {
        return Err(DBSGetBitErr::CountPastEnd);
    }
    let mut substr = DynBitString::null();
    let mut k: usize = 0;
    while k < count as usize
        invariant
            k <= count,
            bs.wf(),
            substr.wf(),
            starting_at + count <= bs@.len(),
            bs@.len() <= u32::MAX,
            substr@ =~= bs@.subrange(starting_at as int, starting_at + k),
        decreases count - k,
    {
        substr.append(bs.get(starting_at as usize + k));
        k = k + 1;
        assert(substr@ =~= bs@.subrange(starting_at as int, starting_at + k));
    }
    Ok(substr)
}

} // verus!
