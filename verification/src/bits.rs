//! Bit-level packing shared by the bit-oriented pixel encodings.
//!
//! Bits are stored most-significant-bit-first within each byte. The spec
//! functions here define what a byte's bits are and how a bit sequence maps
//! to bytes; the executable `BitWriter` and `BitCursor` produce and consume
//! such sequences one bit at a time.

use vstd::prelude::*;

use crate::error::DecodeError;

verus! {

/// Bit `i` of byte `b`, counting from the most significant bit.
pub open spec fn bit_at(b: u8, i: int) -> bool
    recommends
        0 <= i < 8,
{
    ((b >> ((7 - i) as u8)) & 1) == 1
}

/// The eight bits of a byte, most significant first.
pub open spec fn bits_of_byte(b: u8) -> Seq<bool> {
    Seq::new(8, |i: int| bit_at(b, i))
}

/// A bit as the integer 0 or 1.
pub open spec fn bool_u8(b: bool) -> u8 {
    if b {
        1
    } else {
        0
    }
}

/// The value of a bit sequence read as a big-endian binary numeral.
pub open spec fn bits_val(s: Seq<bool>) -> int
    decreases s.len(),
{
    if s.len() == 0 {
        0
    } else {
        bits_val(s.drop_last()) * 2 + bool_u8(s.last())
    }
}

/// The byte whose bits (most significant first) are the eight bits of `s`.
pub open spec fn byte_of_bits(s: Seq<bool>) -> u8
    recommends
        s.len() == 8,
{
    bits_val(s) as u8
}

/// All bits of a byte sequence, in stream order.
pub open spec fn bytes_to_bits(s: Seq<u8>) -> Seq<bool> {
    Seq::new(s.len() * 8, |i: int| bit_at(s[i / 8], i % 8))
}

/// The bytes whose bits are `s`; `s` must be a whole number of bytes.
pub open spec fn bits_to_bytes(s: Seq<bool>) -> Seq<u8>
    recommends
        s.len() % 8 == 0,
{
    Seq::new(s.len() / 8, |k: int| byte_of_bits(s.subrange(8 * k, 8 * k + 8)))
}

pub open spec fn two_pow(n: nat) -> int
    decreases n,
{
    if n == 0 {
        1
    } else {
        2 * two_pow((n - 1) as nat)
    }
}

/// A numeral of `n` bits is below 2^n.
pub proof fn lemma_bits_val_bound(s: Seq<bool>)
    ensures
        0 <= bits_val(s) < two_pow(s.len()),
    decreases s.len(),
{
    if s.len() > 0 {
        lemma_bits_val_bound(s.drop_last());
    }
}

/// The numeral of at most eight bits fits in a byte.
pub proof fn lemma_bits_val_u8(s: Seq<bool>)
    requires
        s.len() <= 8,
    ensures
        0 <= bits_val(s) < 256,
        s.len() <= 7 ==> bits_val(s) < 128,
{
    lemma_bits_val_bound(s);
    reveal_with_fuel(two_pow, 9);
    assert(two_pow(s.len()) <= two_pow(8)) by {
        lemma_two_pow_le(s.len(), 8);
    }
    if s.len() <= 7 {
        assert(two_pow(s.len()) <= two_pow(7)) by {
            lemma_two_pow_le(s.len(), 7);
        }
    }
}

proof fn lemma_two_pow_le(m: nat, n: nat)
    requires
        m <= n,
    ensures
        two_pow(m) <= two_pow(n),
    decreases n,
{
    if m < n {
        lemma_two_pow_le(m, (n - 1) as nat);
        assert(two_pow((n - 1) as nat) >= 1) by {
            lemma_two_pow_pos((n - 1) as nat);
        }
    }
}

proof fn lemma_two_pow_pos(n: nat)
    ensures
        two_pow(n) >= 1,
    decreases n,
{
    if n > 0 {
        lemma_two_pow_pos((n - 1) as nat);
    }
}

/// Unfolds `bits_val` over exactly eight bits.
pub proof fn lemma_bits_val8(s: Seq<bool>)
    requires
        s.len() == 8,
    ensures
        bits_val(s) == bool_u8(s[0]) * 128 + bool_u8(s[1]) * 64 + bool_u8(s[2]) * 32 + bool_u8(
            s[3],
        ) * 16 + bool_u8(s[4]) * 8 + bool_u8(s[5]) * 4 + bool_u8(s[6]) * 2 + bool_u8(s[7]),
{
    assert(s.take(8) =~= s);
    assert(s.take(0) =~= Seq::<bool>::empty());
    assert(bits_val(s.take(0)) == 0);
    assert forall|k: int| 1 <= k <= 8 implies bits_val(#[trigger] s.take(k)) == bits_val(
        s.take(k - 1),
    ) * 2 + bool_u8(s[k - 1]) by {
        assert(s.take(k).drop_last() =~= s.take(k - 1));
        assert(s.take(k).last() == s[k - 1]);
    }
    assert(bits_val(s.take(1)) == bool_u8(s[0]));
    assert(bits_val(s.take(2)) == bool_u8(s[0]) * 2 + bool_u8(s[1]));
    assert(bits_val(s.take(3)) == bool_u8(s[0]) * 4 + bool_u8(s[1]) * 2 + bool_u8(s[2]));
    assert(bits_val(s.take(4)) == bool_u8(s[0]) * 8 + bool_u8(s[1]) * 4 + bool_u8(s[2]) * 2
        + bool_u8(s[3]));
    assert(bits_val(s.take(5)) == bool_u8(s[0]) * 16 + bool_u8(s[1]) * 8 + bool_u8(s[2]) * 4
        + bool_u8(s[3]) * 2 + bool_u8(s[4]));
    assert(bits_val(s.take(6)) == bool_u8(s[0]) * 32 + bool_u8(s[1]) * 16 + bool_u8(s[2]) * 8
        + bool_u8(s[3]) * 4 + bool_u8(s[4]) * 2 + bool_u8(s[5]));
    assert(bits_val(s.take(7)) == bool_u8(s[0]) * 64 + bool_u8(s[1]) * 32 + bool_u8(s[2]) * 16
        + bool_u8(s[3]) * 8 + bool_u8(s[4]) * 4 + bool_u8(s[5]) * 2 + bool_u8(s[6]));
}

/// Reassembling the bits of a byte gives the byte back.
pub proof fn lemma_byte_of_bits_of_byte(b: u8)
    ensures
        byte_of_bits(bits_of_byte(b)) == b,
{
    let s = bits_of_byte(b);
    lemma_bits_val8(s);
    assert(((b >> 7u8) & 1) * 128 + ((b >> 6u8) & 1) * 64 + ((b >> 5u8) & 1) * 32 + ((b >> 4u8)
        & 1) * 16 + ((b >> 3u8) & 1) * 8 + ((b >> 2u8) & 1) * 4 + ((b >> 1u8) & 1) * 2 + ((b >> 0u8)
        & 1) == b) by (bit_vector);
    assert(forall|i: int| 0 <= i < 8 ==> bool_u8(s[i]) == (b >> ((7 - i) as u8)) & 1) by {
        assert forall|i: int| 0 <= i < 8 implies bool_u8(s[i]) == (b >> ((7 - i) as u8)) & 1 by {
            let sh = (7 - i) as u8;
            assert((b >> sh) & 1 == 0 || (b >> sh) & 1 == 1) by (bit_vector);
        }
    }
}

/// The bits of the byte assembled from eight bits are those bits.
pub proof fn lemma_bits_of_byte_of_bits(s: Seq<bool>)
    requires
        s.len() == 8,
    ensures
        bits_of_byte(byte_of_bits(s)) =~= s,
{
    lemma_bits_val8(s);
    lemma_bits_val_u8(s);
    let b0 = bool_u8(s[0]);
    let b1 = bool_u8(s[1]);
    let b2 = bool_u8(s[2]);
    let b3 = bool_u8(s[3]);
    let b4 = bool_u8(s[4]);
    let b5 = bool_u8(s[5]);
    let b6 = bool_u8(s[6]);
    let b7 = bool_u8(s[7]);
    let v = byte_of_bits(s);
    assert(v == (b0 * 128 + b1 * 64 + b2 * 32 + b3 * 16 + b4 * 8 + b5 * 4 + b6 * 2 + b7) as u8);
    assert forall|i: int| 0 <= i < 8 implies bits_of_byte(v)[i] == s[i] by {
        let w = (b0 * 128 + b1 * 64 + b2 * 32 + b3 * 16 + b4 * 8 + b5 * 4 + b6 * 2 + b7) as u8;
        assert(b0 <= 1 && b1 <= 1 && b2 <= 1 && b3 <= 1 && b4 <= 1 && b5 <= 1 && b6 <= 1 && b7
            <= 1);
        assert((w >> 7u8) & 1 == b0 && (w >> 6u8) & 1 == b1 && (w >> 5u8) & 1 == b2 && (w >> 4u8)
            & 1 == b3 && (w >> 3u8) & 1 == b4 && (w >> 2u8) & 1 == b5 && (w >> 1u8) & 1 == b6 && (w
            >> 0u8) & 1 == b7) by (bit_vector)
            requires
                b0 <= 1 && b1 <= 1 && b2 <= 1 && b3 <= 1 && b4 <= 1 && b5 <= 1 && b6 <= 1 && b7
                    <= 1,
                w == (b0 * 128 + b1 * 64 + b2 * 32 + b3 * 16 + b4 * 8 + b5 * 4 + b6 * 2
                    + b7) as u8,
        ;
        if i == 0 {
            assert(bool_u8(s[0]) == (w >> 7u8) & 1);
        }
    }
}

/// Bits of a concatenation are the concatenated bits.
pub proof fn lemma_bytes_to_bits_concat(a: Seq<u8>, b: Seq<u8>)
    ensures
        bytes_to_bits(a + b) =~= bytes_to_bits(a) + bytes_to_bits(b),
{
    assert forall|i: int| 0 <= i < (a.len() + b.len()) * 8 implies bytes_to_bits(a + b)[i] == (
    bytes_to_bits(a) + bytes_to_bits(b))[i] by {
        if i < a.len() * 8 {
            assert(i / 8 < a.len());
            assert((a + b)[i / 8] == a[i / 8]);
        } else {
            let j = i - a.len() * 8;
            assert(j / 8 == i / 8 - a.len() && j % 8 == i % 8) by (nonlinear_arith)
                requires
                    j == i - a.len() * 8 && i >= a.len() * 8,
            ;
            assert((a + b)[i / 8] == b[j / 8]);
        }
    }
}

/// Bytes-to-bits then bits-to-bytes is the identity.
pub proof fn lemma_bits_bytes_id(s: Seq<u8>)
    ensures
        bits_to_bytes(bytes_to_bits(s)) =~= s,
{
    let bits = bytes_to_bits(s);
    assert forall|k: int| 0 <= k < s.len() implies bits_to_bytes(bits)[k] == s[k] by {
        assert(bits.subrange(8 * k, 8 * k + 8) =~= bits_of_byte(s[k])) by {
            assert forall|j: int| 0 <= j < 8 implies bits.subrange(8 * k, 8 * k + 8)[j]
                == bits_of_byte(s[k])[j] by {
                let i = 8 * k + j;
                assert(i / 8 == k && i % 8 == j) by (nonlinear_arith)
                    requires
                        i == 8 * k + j && 0 <= j < 8,
                ;
            }
        }
        lemma_byte_of_bits_of_byte(s[k]);
    }
}

/// Bits-to-bytes then bytes-to-bits is the identity on whole-byte sequences.
pub proof fn lemma_bytes_bits_id(s: Seq<bool>)
    requires
        s.len() % 8 == 0,
    ensures
        bytes_to_bits(bits_to_bytes(s)) =~= s,
{
    let bytes = bits_to_bytes(s);
    assert(bytes.len() * 8 == s.len());
    assert forall|i: int| 0 <= i < s.len() implies bytes_to_bits(bytes)[i] == s[i] by {
        let k = i / 8;
        let j = i % 8;
        assert(0 <= k < bytes.len() && 0 <= j < 8 && i == 8 * k + j) by (nonlinear_arith)
            requires
                0 <= i < s.len() && k == i / 8 && j == i % 8 && bytes.len() * 8 == s.len(),
        ;
        let sub = s.subrange(8 * k, 8 * k + 8);
        lemma_bits_of_byte_of_bits(sub);
        assert(bits_of_byte(bytes[k])[j] == sub[j]);
    }
}


/// Number of padding bits that align a bit count to a byte boundary.
pub open spec fn pad_len(l: int) -> int {
    (8 - l % 8) % 8
}

pub open spec fn zero_bits(n: int) -> Seq<bool>
    recommends
        n >= 0,
{
    Seq::new(n as nat, |i: int| false)
}

/// `s` padded with zero bits to a whole number of bytes.
pub open spec fn pad8(s: Seq<bool>) -> Seq<bool> {
    s + zero_bits(pad_len(s.len() as int))
}

/// Accumulates a bit sequence and packs it into bytes, most significant
/// bit first.
pub struct BitWriter {
    pub out: Vec<u8>,
    pub cur: u8,
    pub nbits: u8,
}

impl BitWriter {
    pub open spec fn wf(&self) -> bool {
        self.nbits < 8 && forall|j: int| self.nbits <= j < 8 ==> !bit_at(self.cur, j)
    }

    /// The bits written so far.
    pub open spec fn bits(&self) -> Seq<bool> {
        bytes_to_bits(self.out@) + bits_of_byte(self.cur).take(self.nbits as int)
    }

    pub fn new() -> (w: BitWriter)
        ensures
            w.wf(),
            w.bits() =~= Seq::<bool>::empty(),
    {
        let w = BitWriter { out: Vec::new(), cur: 0, nbits: 0 };
        proof {
            assert forall|j: int| 0 <= j < 8 implies !bit_at(0u8, j) by {
                let sh = (7 - j) as u8;
                assert((0u8 >> sh) & 1 == 0) by (bit_vector);
            }
        }
        w
    }

    pub fn push_bit(&mut self, b: bool)
        requires
            old(self).wf(),
        ensures
            final(self).wf(),
            final(self).bits() =~= old(self).bits().push(b),
    {
        let ghost prev = *self;
        let n = self.nbits;
        if b {
            let sh: u8 = 7 - n;
            self.cur = self.cur | (1u8 << sh);
            proof {
                let c = prev.cur;
                let c2 = self.cur;
                assert forall|j: int| 0 <= j < 8 && j != n implies bit_at(c2, j) == bit_at(
                    c,
                    j,
                ) by {
                    let shj = (7 - j) as u8;
                    assert(((c | (1u8 << ((7 - n) as u8))) >> shj) & 1 == (c >> shj) & 1)
                        by (bit_vector)
                        requires
                            n < 8,
                            shj < 8,
                            shj != (7 - n) as u8,
                            c2 == c | (1u8 << ((7 - n) as u8)),
                    ;
                }
                assert(bit_at(c2, n as int)) by {
                    assert(((c | (1u8 << ((7 - n) as u8))) >> ((7 - n) as u8)) & 1 == 1)
                        by (bit_vector)
                        requires
                            n < 8,
                    ;
                }
            }
        } else {
            proof {
                assert(!bit_at(self.cur, n as int));
            }
        }
        self.nbits = self.nbits + 1;
        proof {
            assert(bits_of_byte(self.cur).take(self.nbits as int) =~= bits_of_byte(
                prev.cur,
            ).take(prev.nbits as int).push(b));
        }
        if self.nbits == 8 {
            let ghost mid = *self;
            let full = self.cur;
            self.out.push(full);
            self.cur = 0;
            self.nbits = 0;
            proof {
                lemma_bytes_to_bits_concat(prev.out@, seq![full]);
                assert(bytes_to_bits(seq![full]) =~= bits_of_byte(full)) by {
                    assert forall|i: int| 0 <= i < 8 implies bytes_to_bits(seq![full])[i]
                        == bits_of_byte(full)[i] by {
                        assert(i / 8 == 0 && i % 8 == i);
                    }
                }
                assert(bits_of_byte(full).take(8) =~= bits_of_byte(full));
                assert forall|j: int| 0 <= j < 8 implies !bit_at(0u8, j) by {
                    let sh = (7 - j) as u8;
                    assert((0u8 >> sh) & 1 == 0) by (bit_vector);
                }
                assert(self.bits() =~= mid.bits());
            }
        }
    }

    /// Writes the eight bits of `v`, most significant first.
    pub fn push_byte_bits(&mut self, v: u8)
        requires
            old(self).wf(),
        ensures
            final(self).wf(),
            final(self).bits() =~= old(self).bits() + bits_of_byte(v),
    {
        let ghost start = *self;
        for j in 0..8usize
            invariant
                self.wf(),
                self.bits() =~= start.bits() + bits_of_byte(v).take(j as int),
        {
            let sh: u8 = 7 - (j as u8);
            let b = ((v >> sh) & 1) == 1;
            proof {
                assert(sh == (7 - (j as int)) as u8);
                assert(b == bit_at(v, j as int));
                assert((start.bits() + bits_of_byte(v).take(j as int)).push(b) =~= start.bits()
                    + bits_of_byte(v).take(j as int + 1));
            }
            self.push_bit(b);
        }
        proof {
            assert(bits_of_byte(v).take(8) =~= bits_of_byte(v));
        }
    }

    /// Writes zero bits up to the next byte boundary.
    pub fn pad_to_byte(&mut self)
        requires
            old(self).wf(),
        ensures
            final(self).wf(),
            final(self).nbits() == 0,
            final(self).bits() =~= pad8(old(self).bits()),
    {
        let ghost start = *self;
        proof {
            assert(bits_of_byte(start.cur).take(start.nbits as int).len() == start.nbits as int);
            assert(start.bits().len() as int % 8 == start.nbits as int);
        }
        let pad: u8 = if self.nbits == 0 {
            0
        } else {
            8 - self.nbits
        };
        for j in 0..pad as usize
            invariant
                self.wf(),
                pad as int == pad_len(start.bits().len() as int),
                self.bits() =~= start.bits() + zero_bits(j as int),
        {
            proof {
                assert((start.bits() + zero_bits(j as int)).push(false) =~= start.bits()
                    + zero_bits(j as int + 1));
            }
            self.push_bit(false);
        }
        proof {
            assert(self.bits().len() as int % 8 == self.nbits as int);
            assert(self.bits() =~= pad8(start.bits()));
            assert(self.nbits as int == 0);
        }
    }

    pub open spec fn nbits(&self) -> u8 {
        self.nbits
    }

    /// Hands out the accumulated whole bytes.
    pub fn into_bytes(self) -> (r: Vec<u8>)
        requires
            self.wf(),
            self.nbits() == 0,
        ensures
            r@ =~= bits_to_bytes(self.bits()),
    {
        proof {
            assert(self.bits() =~= bytes_to_bits(self.out@));
            lemma_bits_bytes_id(self.out@);
        }
        self.out
    }
}

/// A read position inside a byte buffer, with sub-byte resolution.
pub struct BitCursor {
    pub byte_pos: usize,
    pub bit: u8,
}

impl BitCursor {
    pub open spec fn wf(&self) -> bool {
        self.bit < 8
    }

    /// Absolute bit position.
    pub open spec fn pos(&self) -> int {
        self.byte_pos * 8 + self.bit
    }

    pub fn new_at(byte_pos: usize) -> (c: BitCursor)
        ensures
            c.wf(),
            c.pos() == byte_pos * 8,
            c.byte_pos == byte_pos,
    {
        BitCursor { byte_pos, bit: 0 }
    }

    /// Reads one bit; fails once the buffer is exhausted.
    pub fn read_bit(&mut self, bytes: &[u8]) -> (r: Result<bool, DecodeError>)
        requires
            old(self).wf(),
        ensures
            final(self).wf(),
            old(self).pos() < bytes@.len() * 8 ==> r == Ok::<bool, DecodeError>(
                bytes_to_bits(bytes@)[old(self).pos()],
            ) && final(self).pos() == old(self).pos() + 1 && final(self).byte_pos <= bytes@.len(),
            old(self).pos() >= bytes@.len() * 8 ==> r == Err::<bool, DecodeError>(
                DecodeError::TruncatedStream,
            ) && *final(self) == *old(self),
            old(self).byte_pos <= bytes@.len() ==> final(self).byte_pos <= bytes@.len(),
    {
        proof {
            let bp = old(self).byte_pos as int;
            let bi = old(self).bit as int;
            let ln = bytes@.len() as int;
            assert(bp < ln <==> bp * 8 + bi < ln * 8) by (nonlinear_arith)
                requires
                    0 <= bi < 8,
            ;
        }
        if self.byte_pos < bytes.len() {
            let b = bytes[self.byte_pos];
            let sh: u8 = 7 - self.bit;
            let v = ((b >> sh) & 1) == 1;
            proof {
                let p = old(self).pos();
                let bp = old(self).byte_pos as int;
                let bi = old(self).bit as int;
                assert(p / 8 == bp && p % 8 == bi) by (nonlinear_arith)
                    requires
                        0 <= bi < 8,
                        p == bp * 8 + bi,
                ;
                assert(v == bit_at(b, old(self).bit as int));
            }
            if self.bit == 7 {
                self.byte_pos = self.byte_pos + 1;
                self.bit = 0;
            } else {
                self.bit = self.bit + 1;
            }
            Ok(v)
        } else {
            Err(DecodeError::TruncatedStream)
        }
    }

    /// Reads eight bits as one byte, most significant bit first.
    pub fn read_byte_bits(&mut self, bytes: &[u8]) -> (r: Result<u8, DecodeError>)
        requires
            old(self).wf(),
        ensures
            final(self).wf(),
            old(self).pos() + 8 <= bytes@.len() * 8 ==> r == Ok::<u8, DecodeError>(
                byte_of_bits(bytes_to_bits(bytes@).subrange(old(self).pos(), old(self).pos() + 8)),
            ) && final(self).pos() == old(self).pos() + 8 && final(self).byte_pos <= bytes@.len(),
            old(self).pos() + 8 > bytes@.len() * 8 ==> r == Err::<u8, DecodeError>(
                DecodeError::TruncatedStream,
            ) && *final(self) == *old(self),
            old(self).byte_pos <= bytes@.len() ==> final(self).byte_pos <= bytes@.len(),
    {
        let ghost p0 = old(self).pos();
        let ghost allbits = bytes_to_bits(bytes@);
        let enough = if self.bit == 0 {
            self.byte_pos < bytes.len()
        } else {
            self.byte_pos < bytes.len() && bytes.len() - self.byte_pos > 1
        };
        proof {
            let bp = old(self).byte_pos as int;
            let bi = old(self).bit as int;
            let ln = bytes@.len() as int;
            assert((if bi == 0 {
                bp < ln
            } else {
                bp < ln && ln - bp > 1
            }) <==> bp * 8 + bi + 8 <= ln * 8) by (nonlinear_arith)
                requires
                    0 <= bi < 8,
                    0 <= bp,
                    0 <= ln,
            ;
        }
        if !enough {
            return Err(DecodeError::TruncatedStream);
        }
        let mut v: u8 = 0;
        for j in 0..8usize
            invariant
                self.wf(),
                self.pos() == p0 + j,
                0 <= p0,
                p0 + 8 <= allbits.len(),
                v as int == bits_val(allbits.subrange(p0, p0 + j)),
                allbits == bytes_to_bits(bytes@),
                old(self).byte_pos <= bytes@.len() ==> self.byte_pos <= bytes@.len(),
        {
            proof {
                lemma_bits_val_u8(allbits.subrange(p0, p0 + j));
            }
            match self.read_bit(bytes) {
                Ok(b) => {
                    proof {
                        assert(allbits.subrange(p0, p0 + j + 1).drop_last() =~= allbits.subrange(
                            p0,
                            p0 + j,
                        ));
                        assert(allbits.subrange(p0, p0 + j + 1).last() == allbits[p0 + j]);
                    }
                    v = v * 2 + (if b {
                        1
                    } else {
                        0
                    });
                },
                Err(_) => {
                    proof {
                        assert(false);
                    }
                    return Err(DecodeError::TruncatedStream);
                },
            }
        }
        proof {
            assert(v == byte_of_bits(allbits.subrange(p0, p0 + 8)));
        }
        Ok(v)
    }

    /// Advances to the next byte boundary, consuming any padding bits.
    pub fn align_to_byte(&mut self)
        requires
            old(self).wf(),
            old(self).bit != 0 ==> old(self).byte_pos < usize::MAX,
        ensures
            final(self).wf(),
            final(self).bit == 0,
            final(self).pos() == final(self).byte_pos * 8,
            old(self).pos() <= final(self).pos() < old(self).pos() + 8,
            final(self).pos() % 8 == 0,
            old(self).bit == 0 ==> *final(self) == *old(self),
            final(self).byte_pos == if old(self).bit == 0 {
                old(self).byte_pos as int
            } else {
                old(self).byte_pos + 1
            },
    {
        if self.bit != 0 {
            self.byte_pos = self.byte_pos + 1;
            self.bit = 0;
        }
    }
}

} // verus!
