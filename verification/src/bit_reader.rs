use vstd::prelude::*;
use vstd::arithmetic::power2::{pow2, lemma_pow2_adds, lemma_pow2_pos, lemma2_to64};
use vstd::arithmetic::div_mod::{
    lemma_breakdown, lemma_small_mod, lemma_mod_division_less_than_divisor,
};
use vstd::bits::{
    lemma_u16_shr_is_div, lemma_u16_low_bits_mask_is_mod, lemma_u32_shl_is_mul,
    lemma_u32_low_bits_mask_is_mod, low_bits_mask,
};
use crate::Error;

verus! {

/// The value of the bit of `data` at absolute bit position `p`, counting
/// bits from the least significant end of each byte, as DEFLATE does.
pub open spec fn stream_bit(data: Seq<u8>, p: int) -> nat {
    ((data[p / 8] as nat) / pow2((p % 8) as nat)) % 2
}

/// The value of the `n` bits of `data` starting at absolute bit position
/// `p`, with the bit at `p` in the least significant position.
pub open spec fn bits_at(data: Seq<u8>, p: int, n: nat) -> nat
    decreases n,
{
    if n == 0 {
        0
    } else {
        stream_bit(data, p) + 2 * bits_at(data, p + 1, (n - 1) as nat)
    }
}

/// Any run of `n` bits has a value below `pow2(n)`.
pub proof fn lemma_bits_at_bound(data: Seq<u8>, p: int, n: nat)
    ensures
        bits_at(data, p, n) < pow2(n),
    decreases n,
{
    if n == 0 {
        lemma2_to64();
    } else {
        lemma_bits_at_bound(data, p + 1, (n - 1) as nat);
        lemma_pow2_adds(1, (n - 1) as nat);
        lemma2_to64();
    }
}

/// A run of `a + b` bits splits into its first `a` bits and, scaled by
/// `pow2(a)`, the `b` bits that follow.
#[verifier::rlimit(50)]
pub proof fn lemma_bits_at_split(data: Seq<u8>, p: int, a: nat, b: nat)
    ensures
        bits_at(data, p, a + b) == bits_at(data, p, a) + pow2(a) * bits_at(data, p + a, b),
    decreases a,
{
    if a == 0 {
        lemma2_to64();
        assert(pow2(a) == 1);
        assert(bits_at(data, p, a) == 0);
        assert(pow2(a) * bits_at(data, p + a, b) == bits_at(data, p + a, b))
            by (nonlinear_arith)
            requires pow2(a) == 1,
        ;
        assert(bits_at(data, p, a + b) == bits_at(data, p, a) + pow2(a) * bits_at(data, p + a, b));
    } else {
        lemma_bits_at_split(data, p + 1, (a - 1) as nat, b);
        lemma_pow2_adds(1, (a - 1) as nat);
        lemma2_to64();
        assert(pow2(a) == 2 * pow2((a - 1) as nat));
        assert(bits_at(data, p, a + b) == stream_bit(data, p) + 2 * bits_at(
            data,
            p + 1,
            (a + b - 1) as nat,
        ));
        assert(2 * (bits_at(data, p + 1, (a - 1) as nat) + pow2((a - 1) as nat) * bits_at(
            data,
            p + a,
            b,
        )) == 2 * bits_at(data, p + 1, (a - 1) as nat) + (2 * pow2((a - 1) as nat)) * bits_at(
            data,
            p + a,
            b,
        )) by (nonlinear_arith);
        assert(bits_at(data, p + 1, (a + b - 1) as nat) == bits_at(data, p + 1, (a - 1) as nat)
            + pow2((a - 1) as nat) * bits_at(data, p + a, b));
        assert(bits_at(data, p, a) == stream_bit(data, p) + 2 * bits_at(data, p + 1, (a - 1) as nat));
        assert((2 * pow2((a - 1) as nat)) * bits_at(data, p + a, b) == pow2(a) * bits_at(
            data,
            p + a,
            b,
        ));
        assert(bits_at(data, p, a + b) == bits_at(data, p, a) + pow2(a) * bits_at(data, p + a, b));
    }
}

/// Within one byte, a run of bits is a division followed by a remainder:
/// the `n` bits starting `j` bits into byte `k` are `data[k] / 2^j mod 2^n`.
#[verifier::rlimit(50)]
pub proof fn lemma_bits_at_in_byte(data: Seq<u8>, k: int, j: nat, n: nat)
    requires
        j + n <= 8,
    ensures
        bits_at(data, 8 * k + j, n) == ((data[k] as nat) / pow2(j)) % pow2(n),
    decreases n,
{
    let d: nat = data[k] as nat;
    lemma_pow2_pos(j);
    if n == 0 {
        lemma2_to64();
        assert(d / pow2(j) % pow2(0) == 0) by {
            lemma_small_mod(0, 1);
            assert(pow2(0) == 1);
            assert(d / pow2(j) % 1 == 0) by (nonlinear_arith);
        }
    } else {
        let p: int = 8 * k + j;
        assert(p == k * 8 + j);
        vstd::arithmetic::div_mod::lemma_fundamental_div_mod_converse_div(p, 8, k, j as int);
        vstd::arithmetic::div_mod::lemma_fundamental_div_mod_converse_mod(p, 8, k, j as int);
        assert(stream_bit(data, p) == d / pow2(j) % 2);
        lemma_bits_at_in_byte(data, k, (j + 1) as nat, (n - 1) as nat);
        assert(bits_at(data, p + 1, (n - 1) as nat) == d / pow2(j + 1) % pow2((n - 1) as nat));
        let x: nat = d / pow2(j);
        assert(d / pow2(j + 1) == x / 2) by {
            lemma_pow2_adds(j, 1);
            lemma2_to64();
            lemma_pow2_pos(j);
            vstd::arithmetic::div_mod::lemma_div_denominator(d as int, pow2(j) as int, 2);
        }
        lemma_pow2_pos((n - 1) as nat);
        assert(0 < pow2((n - 1) as nat));
        assert(0 <= x as int);
        lemma_breakdown(x as int, 2, pow2((n - 1) as nat) as int);
        lemma_pow2_adds(1, (n - 1) as nat);
        lemma2_to64();
        assert(pow2(n) == 2 * pow2((n - 1) as nat));
        assert(x % pow2(n) == 2 * ((x / 2) % pow2((n - 1) as nat)) + x % 2);
    }
}

/// The eight bits at byte boundary `8 * k` are exactly byte `k`.
pub proof fn lemma_bits_at_byte(data: Seq<u8>, k: int)
    ensures
        bits_at(data, 8 * k, 8) == data[k] as nat,
    decreases 0nat,
{
    lemma_bits_at_in_byte(data, k, 0, 8);
    lemma2_to64();
    assert(pow2(0) == 1);
    assert((data[k] as nat) / 1 == data[k] as nat) by (nonlinear_arith);
    lemma_small_mod(data[k] as nat, pow2(8));
}

/// The first `n` bits of a longer run are its value modulo `pow2(n)`.
pub proof fn lemma_bits_at_prefix(data: Seq<u8>, p: int, n: nat, m: nat)
    requires
        n <= m,
    ensures
        bits_at(data, p, n) == bits_at(data, p, m) % pow2(n),
{
    lemma_bits_at_split(data, p, n, (m - n) as nat);
    lemma_bits_at_bound(data, p, n);
    lemma_pow2_pos(n);
    assert((bits_at(data, p, n) + pow2(n) * bits_at(data, p + n, (m - n) as nat)) % pow2(n)
        == bits_at(data, p, n)) by {
        vstd::arithmetic::div_mod::lemma_mod_multiples_vanish(
            bits_at(data, p + n, (m - n) as nat) as int,
            bits_at(data, p, n) as int,
            pow2(n) as int,
        );
        lemma_small_mod(bits_at(data, p, n), pow2(n));
    }
}

/// Low bits below one power of two and high bits below the
/// complementary one stay below their product.
proof fn lemma_refill_no_overflow(low: nat, acc: nat, rl: nat, m: nat, len: nat)
    requires
        len == rl + m,
        low < pow2(m),
        acc < pow2(rl),
    ensures
        low * pow2(rl) + acc < pow2(len),
{
    lemma_pow2_adds(rl, m);
    lemma_pow2_pos(rl);
    assert(low * pow2(rl) <= (pow2(m) - 1) * pow2(rl)) by (nonlinear_arith)
        requires low <= pow2(m) - 1, pow2(rl) >= 1,
    ;
    assert((pow2(m) - 1) * pow2(rl) == pow2(m) * pow2(rl) - pow2(rl)) by (nonlinear_arith);
    assert(pow2(m) * pow2(rl) == pow2(rl) * pow2(m)) by (nonlinear_arith);
    assert(pow2(len) == pow2(rl) * pow2(m));
}

/// Sixteen or fewer bits have a value that fits in sixteen bits.
pub proof fn lemma_pow2_le_u16_bound(n: nat)
    requires
        n <= 16,
    ensures
        1 <= pow2(n) <= 0x10000,
{
    lemma2_to64();
    lemma_pow2_pos(n);
    if n < 16 {
        vstd::arithmetic::power2::lemma_pow2_strictly_increases(n, 16);
    }
}

/// The value of the `n` bits starting at absolute bit position `p`,
/// with the bit at `p` in the most significant position: the order in
/// which Huffman codewords are packed.
pub open spec fn msb_bits(data: Seq<u8>, p: int, n: nat) -> nat
    decreases n,
{
    if n == 0 {
        0
    } else {
        2 * msb_bits(data, p, (n - 1) as nat) + stream_bit(data, p + n - 1)
    }
}

/// A most-significant-first run of `n` bits also stays below
/// `pow2(n)`.
pub proof fn lemma_msb_bits_bound(data: Seq<u8>, p: int, n: nat)
    ensures
        msb_bits(data, p, n) < pow2(n),
    decreases n,
{
    if n == 0 {
        lemma2_to64();
    } else {
        lemma_msb_bits_bound(data, p, (n - 1) as nat);
        lemma_pow2_adds(1, (n - 1) as nat);
        lemma2_to64();
        lemma_pow2_pos((n - 1) as nat);
        assert(stream_bit(data, p + n - 1) < 2) by {
            let x = (data[(p + n - 1) / 8] as nat) / pow2(((p + n - 1) % 8) as nat);
            vstd::arithmetic::div_mod::lemma_mod_division_less_than_divisor(x as int, 2);
        }
    }
}

/// A value carrying up to sixteen bits together with their count.
/// The bits above the count are always zero.
#[derive(Clone, Copy, Debug, PartialEq, Eq, Hash, Structural)]
pub struct BitSequence {
    bits: u16,
    len: u8,
}

impl BitSequence {
    /// The carried bits, as a number.
    pub closed spec fn spec_bits(self) -> nat {
        self.bits as nat
    }

    /// The number of carried bits.
    pub closed spec fn spec_len(self) -> nat {
        self.len as nat
    }

    #[verifier::type_invariant]
    closed spec fn type_inv(self) -> bool {
        self.len <= 16 && (self.bits as nat) < pow2(self.len as nat)
    }

    /// The sequence with the given bits and count, at the spec level.
    pub closed spec fn spec_make(bits: nat, len: nat) -> BitSequence {
        BitSequence { bits: bits as u16, len: len as u8 }
    }

    /// `spec_make` carries its arguments through unchanged.
    pub proof fn lemma_spec_make(bits: nat, len: nat)
        requires
            bits < 0x10000,
            len <= 255,
        ensures
            Self::spec_make(bits, len).spec_bits() == bits,
            Self::spec_make(bits, len).spec_len() == len,
    {
    }

    /// A sequence is determined by its bits and their count.
    pub proof fn lemma_ext(self)
        ensures
            self == Self::spec_make(self.spec_bits(), self.spec_len()),
    {
    }

    /// Builds a sequence of `len` bits from the low bits of `bits`;
    /// the positions at `len` and above are cleared.
    pub fn new(bits: u16, len: u8) -> (r: Self)
        requires
            len <= 16,
        ensures
            r.spec_len() == len as nat,
            r.spec_bits() == (bits as nat) % pow2(len as nat),
            r.spec_bits() < 0x10000,
            forall|i: nat| len as nat <= i ==> #[trigger] (r.spec_bits() / pow2(i)) % 2 == 0,
    {
        proof {
            lemma_pow2_le_u16_bound(len as nat);
            lemma_u32_shl_is_mul(1u32, len as u32);
        }
        let mask32: u32 = (1u32 << len) - 1;
        proof {
            lemma_u32_low_bits_mask_is_mod(bits as u32, len as nat);
            assert(mask32 as nat == low_bits_mask(len as nat));
            lemma_mod_division_less_than_divisor(bits as int, pow2(len as nat) as int);
        }
        let masked: u16 = ((bits as u32) & mask32) as u16;
        proof {
            let v: nat = (bits as nat) % pow2(len as nat);
            assert forall|i: nat| len as nat <= i implies #[trigger] (v / pow2(i)) % 2 == 0 by {
                if (len as nat) < i {
                    vstd::arithmetic::power2::lemma_pow2_strictly_increases(len as nat, i);
                }
                lemma_pow2_pos(i);
                assert(v / pow2(i) == 0) by (nonlinear_arith)
                    requires v < pow2(i), pow2(i) > 0,
                ;
                lemma_small_mod(0, 2);
            }
        }
        BitSequence { bits: masked, len }
    }

    /// The carried bits, as a number; the positions at the count and
    /// above are zero.
    pub fn bits(&self) -> (r: u16)
        ensures
            r as nat == self.spec_bits(),
            (r as nat) < pow2(self.spec_len()),
    {
        proof {
            use_type_invariant(&*self);
        }
        self.bits
    }

    /// The number of carried bits, at most sixteen.
    pub fn len(&self) -> (r: u8)
        ensures
            r as nat == self.spec_len(),
            r <= 16,
    {
        proof {
            use_type_invariant(&*self);
        }
        self.len
    }

    /// Removes the low `k` bits and returns them; the remaining bits
    /// move down by `k` places.
    pub fn drop_low(&mut self, k: u8) -> (r: u16)
        requires
            k as nat <= old(self).spec_len(),
        ensures
            r as nat == old(self).spec_bits() % pow2(k as nat),
            final(self).spec_bits() == old(self).spec_bits() / pow2(k as nat),
            final(self).spec_len() == old(self).spec_len() - k as nat,
    {
        proof {
            use_type_invariant(&*self);
            lemma_pow2_le_u16_bound(k as nat);
            lemma_u32_shl_is_mul(1u32, k as u32);
        }
        let mask32: u32 = (1u32 << k) - 1;
        proof {
            lemma_u32_low_bits_mask_is_mod(self.bits as u32, k as nat);
            assert(mask32 as nat == low_bits_mask(k as nat));
            lemma_mod_division_less_than_divisor(self.bits as int, pow2(k as nat) as int);
        }
        let to_ret: u16 = ((self.bits as u32) & mask32) as u16;
        let shifted: u32 = (self.bits as u32) >> (k as u32);
        proof {
            vstd::bits::lemma_u32_shr_is_div(self.bits as u32, k as u32);
            // the remaining bits stay below pow2 of the remaining count
            lemma_pow2_adds(k as nat, (self.len - k) as nat);
            vstd::arithmetic::div_mod::lemma_multiply_divide_lt(
                self.bits as int,
                pow2(k as nat) as int,
                pow2((self.len - k) as nat) as int,
            );
            lemma_pow2_le_u16_bound((self.len - k) as nat);
        }
        self.bits = shifted as u16;
        self.len = self.len - k;
        to_ret
    }

    /// Joins two sequences; the bits of `other` take the low positions
    /// and the bits of `self` move above them.
    pub fn concat(self, other: Self) -> (r: Self)
        requires
            self.spec_len() + other.spec_len() <= 16,
        ensures
            r.spec_len() == self.spec_len() + other.spec_len(),
            r.spec_bits() == other.spec_bits() + self.spec_bits() * pow2(other.spec_len()),
            r.spec_bits() < 0x10000,
    {
        proof {
            use_type_invariant(self);
            use_type_invariant(other);
            lemma_pow2_le_u16_bound(other.len as nat);
            lemma_u32_shl_is_mul(1u32, other.len as u32);
            lemma_pow2_adds(self.len as nat, other.len as nat);
            assert((self.bits as nat) * pow2(other.len as nat) + (other.bits as nat)
                < pow2((self.len + other.len) as nat)) by {
                assert((self.bits as nat) * pow2(other.len as nat)
                    <= (pow2(self.len as nat) - 1) * pow2(other.len as nat)) by (nonlinear_arith)
                    requires (self.bits as nat) < pow2(self.len as nat),
                ;
                assert((pow2(self.len as nat) - 1) * pow2(other.len as nat)
                    == pow2(self.len as nat) * pow2(other.len as nat) - pow2(other.len as nat))
                    by (nonlinear_arith);
            }
            lemma_pow2_le_u16_bound((self.len + other.len) as nat);
        }
        let bits32: u32 = (self.bits as u32) * (1u32 << other.len) + other.bits as u32;
        BitSequence { bits: bits32 as u16, len: self.len + other.len }
    }
}


/// The index of the first zero byte of `b` at or after `from`, or the
/// length of `b` when no zero byte follows.
pub open spec fn first_zero(b: Seq<u8>, from: int) -> int
    decreases b.len() - from,
{
    if from < 0 || from >= b.len() {
        b.len() as int
    } else if b[from] == 0 {
        from
    } else {
        first_zero(b, from + 1)
    }
}

/// A byte source: a buffer of input bytes and the position of the next
/// unread one.
pub struct ByteReader {
    data: Vec<u8>,
    pos: usize,
}

impl ByteReader {
    /// The whole input.
    pub closed spec fn spec_bytes(self) -> Seq<u8> {
        self.data@
    }

    /// The position of the next unread byte.
    pub closed spec fn spec_pos(self) -> nat {
        self.pos as nat
    }

    #[verifier::type_invariant]
    closed spec fn type_inv(self) -> bool {
        self.pos <= self.data.len()
    }

    /// Wraps a buffer of input bytes, starting at its first byte.
    pub fn new(data: Vec<u8>) -> (r: Self)
        ensures
            r.spec_bytes() == data@,
            r.spec_pos() == 0,
    {
        ByteReader { data, pos: 0 }
    }

    /// Whether every byte has been read.
    pub fn at_eof(&self) -> (r: bool)
        ensures
            r == (self.spec_pos() == self.spec_bytes().len()),
            self.spec_pos() <= self.spec_bytes().len(),
    {
        proof {
            use_type_invariant(&*self);
        }
        self.pos == self.data.len()
    }

    /// The position of the next unread byte.
    pub fn position(&self) -> (r: usize)
        ensures
            r == self.spec_pos(),
            self.spec_pos() <= self.spec_bytes().len(),
    {
        proof {
            use_type_invariant(&*self);
        }
        self.pos
    }

    /// Reads the next byte.
    pub fn read_u8(&mut self) -> (r: Result<u8, Error>)
        ensures
            final(self).spec_bytes() == old(self).spec_bytes(),
            final(self).spec_pos() <= final(self).spec_bytes().len(),
            old(self).spec_pos() < old(self).spec_bytes().len() ==> {
                &&& r == Ok::<u8, Error>(old(self).spec_bytes()[old(self).spec_pos() as int])
                &&& final(self).spec_pos() == old(self).spec_pos() + 1
            },
            old(self).spec_pos() >= old(self).spec_bytes().len() ==> {
                &&& r == Err::<u8, Error>(Error::UnexpectedEof)
                &&& final(self).spec_pos() == old(self).spec_pos()
            },
    {
        if self.pos < self.data.len() {
            let b = self.data[self.pos];
            self.pos = self.pos + 1;
            Ok(b)
        } else {
            proof {
                use_type_invariant(&*self);
            }
            Err(Error::UnexpectedEof)
        }
    }

    /// Reads a two-byte little-endian integer.
    pub fn read_u16_le(&mut self) -> (r: Result<u16, Error>)
        ensures
            final(self).spec_bytes() == old(self).spec_bytes(),
            final(self).spec_pos() <= final(self).spec_bytes().len(),
            old(self).spec_pos() + 2 <= old(self).spec_bytes().len() ==> {
                &&& r is Ok
                &&& r->Ok_0 as nat == old(self).spec_bytes()[old(self).spec_pos() as int] as nat
                    + 0x100 * (old(self).spec_bytes()[old(self).spec_pos() as int + 1] as nat)
                &&& final(self).spec_pos() == old(self).spec_pos() + 2
            },
            old(self).spec_pos() + 2 > old(self).spec_bytes().len() ==> {
                &&& r == Err::<u16, Error>(Error::UnexpectedEof)
                &&& final(self).spec_pos() >= old(self).spec_pos()
            },
    {
        let b0 = self.read_u8()?;
        let b1 = self.read_u8()?;
        Ok(b0 as u16 + 0x100 * (b1 as u16))
    }

    /// Reads a four-byte little-endian integer.
    pub fn read_u32_le(&mut self) -> (r: Result<u32, Error>)
        ensures
            final(self).spec_bytes() == old(self).spec_bytes(),
            final(self).spec_pos() <= final(self).spec_bytes().len(),
            old(self).spec_pos() + 4 <= old(self).spec_bytes().len() ==> {
                &&& r is Ok
                &&& r->Ok_0 as nat == old(self).spec_bytes()[old(self).spec_pos() as int] as nat
                    + 0x100 * (old(self).spec_bytes()[old(self).spec_pos() as int + 1] as nat)
                    + 0x10000 * (old(self).spec_bytes()[old(self).spec_pos() as int + 2] as nat)
                    + 0x1000000 * (old(self).spec_bytes()[old(self).spec_pos() as int + 3] as nat)
                &&& final(self).spec_pos() == old(self).spec_pos() + 4
            },
            old(self).spec_pos() + 4 > old(self).spec_bytes().len() ==> {
                &&& r == Err::<u32, Error>(Error::UnexpectedEof)
                &&& final(self).spec_pos() >= old(self).spec_pos()
            },
    {
        let b0 = self.read_u8()?;
        let b1 = self.read_u8()?;
        let b2 = self.read_u8()?;
        let b3 = self.read_u8()?;
        Ok(b0 as u32 + 0x100 * (b1 as u32) + 0x10000 * (b2 as u32) + 0x1000000 * (b3 as u32))
    }

    /// Reads exactly `n` bytes.
    pub fn read_exact(&mut self, n: usize) -> (r: Result<Vec<u8>, Error>)
        ensures
            final(self).spec_bytes() == old(self).spec_bytes(),
            final(self).spec_pos() <= final(self).spec_bytes().len(),
            old(self).spec_pos() + n <= old(self).spec_bytes().len() ==> {
                &&& r is Ok
                &&& r->Ok_0@ == old(self).spec_bytes().subrange(
                    old(self).spec_pos() as int,
                    old(self).spec_pos() + n,
                )
                &&& final(self).spec_pos() == old(self).spec_pos() + n
            },
            old(self).spec_pos() + n > old(self).spec_bytes().len() ==> {
                &&& r == Err::<Vec<u8>, Error>(Error::UnexpectedEof)
                &&& final(self).spec_pos() == old(self).spec_pos()
            },
    {
        proof {
            use_type_invariant(&*self);
        }
        if n > self.data.len() - self.pos {
            return Err(Error::UnexpectedEof);
        }
        let mut out: Vec<u8> = Vec::new();
        let mut i: usize = 0;
        while i < n
            invariant
                i <= n,
                self.pos + n <= self.data.len(),
                out@ == self.data@.subrange(self.pos as int, self.pos + i),
            decreases n - i,
        {
            out.push(self.data[self.pos + i]);
            i = i + 1;
            proof {
                assert(out@ == self.data@.subrange(self.pos as int, self.pos + i));
            }
        }
        self.pos = self.pos + n;
        Ok(out)
    }

    /// Copies the bytes of the half-open range `from..to`, without
    /// moving the position.
    pub fn copy_range(&self, from: usize, to: usize) -> (r: Vec<u8>)
        requires
            from <= to <= self.spec_bytes().len(),
        ensures
            r@ == self.spec_bytes().subrange(from as int, to as int),
    {
        let mut out: Vec<u8> = Vec::new();
        let mut i: usize = from;
        while i < to
            invariant
                from <= i <= to <= self.spec_bytes().len(),
                out@ == self.spec_bytes().subrange(from as int, i as int),
            decreases to - i,
        {
            out.push(self.data[i]);
            proof {
                assert(self.spec_bytes().subrange(from as int, i as int).push(
                    self.spec_bytes()[i as int],
                ) =~= self.spec_bytes().subrange(from as int, i + 1));
            }
            i = i + 1;
        }
        out
    }

    /// Reads bytes up to the next zero byte; returns the bytes before
    /// the zero and consumes the zero as well. Yields nothing when no
    /// zero byte remains.
    pub fn read_until_zero(&mut self) -> (r: Option<Vec<u8>>)
        ensures
            final(self).spec_bytes() == old(self).spec_bytes(),
            final(self).spec_pos() <= final(self).spec_bytes().len(),
            final(self).spec_pos() >= old(self).spec_pos(),
            ({
                let q = first_zero(old(self).spec_bytes(), old(self).spec_pos() as int);
                if q < old(self).spec_bytes().len() {
                    &&& r is Some
                    &&& r->0@ == old(self).spec_bytes().subrange(old(self).spec_pos() as int, q)
                    &&& final(self).spec_pos() == q + 1
                } else {
                    &&& r is None
                    &&& final(self).spec_pos() == old(self).spec_pos()
                }
            }),
    {
        proof {
            use_type_invariant(&*self);
        }
        let ghost start = self.pos as int;
        let mut q: usize = self.pos;
        while q < self.data.len() && self.data[q] != 0
            invariant
                self.pos <= q <= self.data.len(),
                first_zero(self.data@, start) == first_zero(self.data@, q as int),
                start == self.pos as int,
            decreases self.data.len() - q,
        {
            q = q + 1;
        }
        if q == self.data.len() {
            return None;
        }
        let n = q - self.pos;
        let mut out: Vec<u8> = Vec::new();
        let mut i: usize = 0;
        while i < n
            invariant
                i <= n,
                self.pos + n < self.data.len(),
                out@ == self.data@.subrange(self.pos as int, self.pos + i),
            decreases n - i,
        {
            out.push(self.data[self.pos + i]);
            i = i + 1;
        }
        self.pos = q + 1;
        Some(out)
    }
}

/// Reads one to sixteen bits at a time from a byte source, keeping the
/// unread bits of the byte consumed most recently.
pub struct BitReader {
    stream: ByteReader,
    leftover: BitSequence,
}

impl BitReader {
    /// The underlying byte source.
    pub closed spec fn spec_stream(self) -> ByteReader {
        self.stream
    }

    /// The bits left over from the byte consumed most recently.
    pub closed spec fn spec_leftover(self) -> BitSequence {
        self.leftover
    }

    /// The whole input.
    pub open spec fn spec_data(self) -> Seq<u8> {
        self.spec_stream().spec_bytes()
    }

    /// The absolute position of the next unread bit.
    pub open spec fn spec_bitpos(self) -> int {
        8 * self.spec_stream().spec_pos() - self.spec_leftover().spec_len()
    }

    /// The leftover holds fewer than eight bits, and they are exactly
    /// the next bits of the stream.
    pub open spec fn wf(self) -> bool {
        &&& self.spec_leftover().spec_len() < 8
        &&& self.spec_leftover().spec_len() <= 8 * self.spec_stream().spec_pos()
        &&& self.spec_stream().spec_pos() <= self.spec_data().len()
        &&& self.spec_leftover().spec_bits() == bits_at(
            self.spec_data(),
            self.spec_bitpos(),
            self.spec_leftover().spec_len(),
        )
    }

    /// Starts reading bits at the byte source's current position.
    pub fn new(stream: ByteReader) -> (r: Self)
        ensures
            r.wf(),
            r.spec_data() == stream.spec_bytes(),
            r.spec_bitpos() == 8 * stream.spec_pos(),
    {
        proof {
            use_type_invariant(&stream);
            lemma2_to64();
        }
        BitReader { stream, leftover: BitSequence::new(0, 0) }
    }

    /// Reads the next `len` bits of the stream, least significant first.
    pub fn read_bits(&mut self, len: u8) -> (r: Result<BitSequence, Error>)
        requires
            old(self).wf(),
            len <= 16,
        ensures
            final(self).wf(),
            final(self).spec_data() == old(self).spec_data(),
            match r {
                Ok(bs) => {
                    &&& old(self).spec_bitpos() + len as int <= 8 * old(self).spec_data().len()
                    &&& bs.spec_len() == len as nat
                    &&& bs.spec_bits() == bits_at(
                        old(self).spec_data(),
                        old(self).spec_bitpos(),
                        len as nat,
                    )
                    &&& bs.spec_bits() < pow2(len as nat)
                    &&& final(self).spec_bitpos() == old(self).spec_bitpos() + len as int
                },
                Err(e) => {
                    &&& e == Error::UnexpectedEof
                    &&& old(self).spec_bitpos() + (len as int) > 8 * old(self).spec_data().len()
                    &&& final(self).spec_bitpos() == 8 * old(self).spec_data().len()
                },
            },
    {
        let ghost data = old(self).spec_data();
        let ghost p0 = old(self).spec_bitpos();
        let llen = self.leftover.len();
        if llen >= len {
            let ghost lv = self.leftover.spec_bits();
            let bits = self.leftover.drop_low(len);
            proof {
                lemma_bits_at_prefix(data, p0, len as nat, llen as nat);
                lemma_bits_at_split(data, p0, len as nat, (llen - len) as nat);
                lemma_bits_at_bound(data, p0, len as nat);
                lemma_pow2_pos(len as nat);
                vstd::arithmetic::div_mod::lemma_fundamental_div_mod_converse_div(
                    lv as int,
                    pow2(len as nat) as int,
                    bits_at(data, p0 + len, (llen - len) as nat) as int,
                    bits_at(data, p0, len as nat) as int,
                );
                lemma_bits_at_bound(data, p0 + len, (llen - len) as nat);
                lemma_small_mod(bits as nat, pow2(len as nat));
            }
            Ok(BitSequence::new(bits, len))
        } else {
            self.read_bits_refill(len)
        }
    }

    /// Serves a `read_bits` call that needs one or two fresh bytes.
    #[verifier::rlimit(100)]
    fn read_bits_refill(&mut self, len: u8) -> (r: Result<BitSequence, Error>)
        requires
            old(self).wf(),
            len <= 16,
            old(self).spec_leftover().spec_len() < len as nat,
        ensures
            final(self).wf(),
            final(self).spec_data() == old(self).spec_data(),
            match r {
                Ok(bs) => {
                    &&& old(self).spec_bitpos() + len as int <= 8 * old(self).spec_data().len()
                    &&& bs.spec_len() == len as nat
                    &&& bs.spec_bits() == bits_at(
                        old(self).spec_data(),
                        old(self).spec_bitpos(),
                        len as nat,
                    )
                    &&& bs.spec_bits() < pow2(len as nat)
                    &&& final(self).spec_bitpos() == old(self).spec_bitpos() + len as int
                },
                Err(e) => {
                    &&& e == Error::UnexpectedEof
                    &&& old(self).spec_bitpos() + (len as int) > 8 * old(self).spec_data().len()
                    &&& final(self).spec_bitpos() == 8 * old(self).spec_data().len()
                },
            },
    {
        let ghost data = old(self).spec_data();
        let ghost p0 = old(self).spec_bitpos();
        let llen = self.leftover.len();
        let mut acc: u16 = self.leftover.bits();
        let mut read_len: u8 = llen;
        self.leftover = BitSequence::new(0, 0);
        proof {
            use_type_invariant(&self.stream);
            lemma2_to64();
            assert(acc as nat == bits_at(data, p0, read_len as nat));
        }
        let b1 = match self.stream.read_u8() {
            Ok(b) => b,
            Err(e) => {
                return Err(e);
            },
        };
        let ghost k1 = old(self).spec_stream().spec_pos() as int;
        proof {
            lemma_bits_at_byte(data, k1);
            lemma_bits_at_split(data, p0, read_len as nat, 8);
            lemma_pow2_le_u16_bound(read_len as nat);
            lemma_bits_at_bound(data, p0, read_len as nat);
        }
        let mut next_byte: u8 = b1;
        if len - read_len > 8 {
            proof {
                assert(pow2(read_len as nat) <= 128) by {
                    lemma2_to64();
                    if (read_len as nat) < 7 {
                        vstd::arithmetic::power2::lemma_pow2_strictly_increases(read_len as nat, 7);
                    }
                }
                assert((next_byte as u16) * pow2(read_len as nat) <= 255 * 128) by (nonlinear_arith)
                    requires (next_byte as nat) < 256, pow2(read_len as nat) <= 128,
                ;
                vstd::bits::lemma_u16_shl_is_mul(next_byte as u16, read_len as u16);
                assert(bits_at(data, p0, read_len as nat + 8) == bits_at(data, p0, read_len as nat)
                    + pow2(read_len as nat) * bits_at(data, p0 + read_len as nat, 8));
                assert(bits_at(data, p0 + read_len as nat, 8) == next_byte as nat);
                assert(pow2(read_len as nat) * (next_byte as nat)
                    == (next_byte as nat) * pow2(read_len as nat)) by (nonlinear_arith);
                assert((acc as nat) + (next_byte as nat) * pow2(read_len as nat)
                    == bits_at(data, p0, read_len as nat + 8));
            }
            acc = acc + ((next_byte as u16) << (read_len as u16));
            read_len = read_len + 8;
            next_byte = match self.stream.read_u8() {
                Ok(b) => b,
                Err(e) => {
                    return Err(e);
                },
            };
            proof {
                lemma_bits_at_byte(data, k1 + 1);
                lemma_bits_at_split(data, p0, read_len as nat, 8);
                lemma_pow2_le_u16_bound(read_len as nat);
                lemma_bits_at_bound(data, p0, read_len as nat);
            }
        }
        let ghost kb: int = self.spec_stream().spec_pos() - 1;
        let mut pending = BitSequence::new(next_byte as u16, 8);
        proof {
            lemma_small_mod(next_byte as nat, pow2(8));
            lemma2_to64();
        }
        let m = len - read_len;
        let low = pending.drop_low(m);
        proof {
            // the low `m` bits of the fresh byte follow the bits read so far
            lemma_bits_at_in_byte(data, kb, 0, m as nat);
            lemma_bits_at_in_byte(data, kb, m as nat, (8 - m) as nat);
            assert(pow2(0) == 1);
            assert((next_byte as nat) / 1 == next_byte as nat) by (nonlinear_arith);
            lemma_pow2_le_u16_bound(m as nat);
            lemma_pow2_pos(m as nat);
            lemma_mod_division_less_than_divisor(next_byte as int, pow2(m as nat) as int);
            lemma_bits_at_bound(data, p0, read_len as nat);
            assert(acc as nat == bits_at(data, p0, read_len as nat));
            assert((low as nat) < pow2(m as nat));
            lemma_refill_no_overflow(low as nat, acc as nat, read_len as nat, m as nat, len as nat);
            lemma_pow2_le_u16_bound(len as nat);
            vstd::bits::lemma_u16_shl_is_mul(low, read_len as u16);
        }
        acc = acc + (low << (read_len as u16));
        self.leftover = pending;
        proof {
            lemma_bits_at_split(data, p0, read_len as nat, m as nat);
            assert(p0 + read_len as nat == 8 * kb);
            assert(bits_at(data, 8 * kb, m as nat) == (next_byte as nat) % pow2(m as nat));
            assert(low as nat == (next_byte as nat) % pow2(m as nat));
            assert(pow2(read_len as nat) * (low as nat) == (low as nat) * pow2(read_len as nat))
                by (nonlinear_arith);
            assert(acc as nat == bits_at(data, p0, len as nat));
            lemma_small_mod(acc as nat, pow2(len as nat));
            // the remaining high bits of the byte become the new leftover
            let d: nat = next_byte as nat;
            lemma_pow2_pos(m as nat);
            lemma_pow2_adds(m as nat, (8 - m) as nat);
            assert(d < pow2(m as nat) * pow2((8 - m) as nat));
            vstd::arithmetic::div_mod::lemma_multiply_divide_lt(
                d as int,
                pow2(m as nat) as int,
                pow2((8 - m) as nat) as int,
            );
            lemma_small_mod((d / pow2(m as nat)) as nat, pow2((8 - m) as nat));
            lemma_bits_at_bound(data, p0, len as nat);
        }
        Ok(BitSequence::new(acc, len))
    }

    /// Discards the unread bits of the current byte and hands out the
    /// underlying byte source, aligned to the next byte boundary.
    pub fn borrow_reader_from_boundary(&mut self) -> (r: &mut ByteReader)
        ensures
            *r == old(self).spec_stream(),
            final(self).spec_stream() == *final(r),
            final(self).spec_leftover().spec_len() == 0,
            final(self).spec_leftover().spec_bits() == 0,
    {
        proof {
            lemma2_to64();
        }
        self.leftover = BitSequence::new(0, 0);
        &mut self.stream
    }

    /// Gives the underlying byte source back, discarding any unread
    /// bits of the current byte.
    pub fn inner(self) -> (r: ByteReader)
        ensures
            r == self.spec_stream(),
    {
        self.stream
    }
}

} // verus!