use vstd::prelude::*;
use vstd::arithmetic::power2::{pow2, lemma2_to64, lemma_pow2_strictly_increases};
use crate::bit_reader::{BitReader, BitSequence, msb_bits, bits_at, stream_bit, lemma_pow2_le_u16_bound};
use crate::Error;

verus! {

/// The numeric index of a symbol within its Huffman alphabet.
pub struct HuffmanCodeWord(pub u16);

/// A symbol alphabet: a fallible mapping from a code word's numeric
/// index to the decoded symbol.
pub trait CodeSymbol: Sized + Copy {
    /// The symbol a given index stands for, if the index belongs to
    /// the alphabet.
    spec fn spec_from(w: u16) -> Option<Self>;

    /// Converts an index into its symbol; an index outside the
    /// alphabet is a bad code.
    fn try_from(word: HuffmanCodeWord) -> (r: Result<Self, Error>)
        ensures
            match Self::spec_from(word.0) {
                Some(t) => r == Ok::<Self, Error>(t),
                None => r == Err::<Self, Error>(Error::BadHuffmanCode),
            },
    ;
}

/// A symbol of the code-length alphabet of a dynamic block
/// (RFC 1951, section 3.2.7).
#[derive(Clone, Copy, Debug, PartialEq, Eq, Structural)]
pub enum TreeCodeToken {
    /// A literal code length.
    Length(u8),
    /// Repeat the previous length three to six times.
    CopyPrev,
    /// Emit a run of zero lengths.
    RepeatZero { base: u16, extra_bits: u8 },
}

impl CodeSymbol for TreeCodeToken {
    open spec fn spec_from(w: u16) -> Option<Self> {
        if w <= 15 {
            Some(TreeCodeToken::Length(w as u8))
        } else if w == 16 {
            Some(TreeCodeToken::CopyPrev)
        } else if w == 17 {
            Some(TreeCodeToken::RepeatZero { base: 3, extra_bits: 3 })
        } else if w == 18 {
            Some(TreeCodeToken::RepeatZero { base: 11, extra_bits: 7 })
        } else {
            None
        }
    }

    fn try_from(word: HuffmanCodeWord) -> (r: Result<Self, Error>) {
        let w = word.0;
        if w <= 15 {
            Ok(TreeCodeToken::Length(w as u8))
        } else if w == 16 {
            Ok(TreeCodeToken::CopyPrev)
        } else if w == 17 {
            Ok(TreeCodeToken::RepeatZero { base: 3, extra_bits: 3 })
        } else if w == 18 {
            Ok(TreeCodeToken::RepeatZero { base: 11, extra_bits: 7 })
        } else {
            Err(Error::BadHuffmanCode)
        }
    }
}

/// A symbol of the literal/length alphabet (RFC 1951, section 3.2.5).
#[derive(Clone, Copy, Debug, PartialEq, Eq, Structural)]
pub enum LitLenToken {
    /// A literal output byte.
    Literal(u8),
    /// The end of the current block.
    EndOfBlock,
    /// A match length: `base` plus `extra_bits` further bits.
    Length { base: u16, extra_bits: u8 },
}

impl CodeSymbol for LitLenToken {
    open spec fn spec_from(w: u16) -> Option<Self> {
        if w <= 255 {
            Some(LitLenToken::Literal(w as u8))
        } else if w == 256 {
            Some(LitLenToken::EndOfBlock)
        } else if w <= 264 {
            Some(LitLenToken::Length { base: (w - 254) as u16, extra_bits: 0 })
        } else if w <= 284 {
            let used = (w - 261) as nat;
            let eb = used / 4;
            let step = pow2(eb);
            Some(
                LitLenToken::Length {
                    base: (4 * step + 3 + (used % 4) * step) as u16,
                    extra_bits: eb as u8,
                },
            )
        } else if w == 285 {
            Some(LitLenToken::Length { base: 258, extra_bits: 0 })
        } else {
            None
        }
    }

    fn try_from(word: HuffmanCodeWord) -> (r: Result<Self, Error>) {
        let w = word.0;
        if w <= 255 {
            Ok(LitLenToken::Literal(w as u8))
        } else if w == 256 {
            Ok(LitLenToken::EndOfBlock)
        } else if w <= 264 {
            Ok(LitLenToken::Length { base: w - 254, extra_bits: 0 })
        } else if w <= 284 {
            let used: u16 = w - 261;
            let extra_bits: u16 = used / 4;
            let n_in_block: u16 = used % 4;
            proof {
                lemma2_to64();
                assert(used / 4 <= 5) by (nonlinear_arith)
                    requires used <= 23,
                ;
                assert(pow2((used / 4) as nat) <= 32) by {
                    if ((used / 4) as nat) < 5 {
                        lemma_pow2_strictly_increases((used / 4) as nat, 5);
                    }
                }
                vstd::bits::lemma_u16_shl_is_mul(1u16, extra_bits);
            }
            let block_step: u16 = 1u16 << extra_bits;
            proof {
                assert(n_in_block * block_step <= 3 * 32) by (nonlinear_arith)
                    requires n_in_block <= 3, block_step <= 32,
                ;
                assert((n_in_block as nat) * (block_step as nat)
                    == ((used % 4) as nat) * pow2((used / 4) as nat));
            }
            let base: u16 = 4 * block_step + 3 + n_in_block * block_step;
            Ok(LitLenToken::Length { base, extra_bits: extra_bits as u8 })
        } else if w == 285 {
            Ok(LitLenToken::Length { base: 258, extra_bits: 0 })
        } else {
            Err(Error::BadHuffmanCode)
        }
    }
}

/// A symbol of the distance alphabet (RFC 1951, section 3.2.5):
/// `base` plus `extra_bits` further bits.
#[derive(Clone, Copy, Debug, PartialEq, Eq, Structural)]
pub struct DistanceToken {
    pub base: u16,
    pub extra_bits: u8,
}

impl CodeSymbol for DistanceToken {
    open spec fn spec_from(w: u16) -> Option<Self> {
        if w <= 3 {
            Some(DistanceToken { base: (w + 1) as u16, extra_bits: 0 })
        } else if w <= 29 {
            let eb = (w / 2 - 1) as nat;
            let step = pow2(eb);
            Some(
                DistanceToken {
                    base: (2 * step + 1 + ((w % 2) as nat) * step) as u16,
                    extra_bits: eb as u8,
                },
            )
        } else {
            None
        }
    }

    fn try_from(word: HuffmanCodeWord) -> (r: Result<Self, Error>) {
        let w = word.0;
        if w <= 3 {
            Ok(DistanceToken { base: w + 1, extra_bits: 0 })
        } else if w <= 29 {
            let extra_bits: u16 = w / 2 - 1;
            let n_in_block: u16 = w % 2;
            proof {
                lemma2_to64();
                assert(w / 2 <= 14) by (nonlinear_arith)
                    requires w <= 29,
                ;
                assert(w / 2 >= 2) by (nonlinear_arith)
                    requires w >= 4,
                ;
                assert(pow2((w / 2 - 1) as nat) <= 8192) by {
                    if ((w / 2 - 1) as nat) < 13 {
                        lemma_pow2_strictly_increases((w / 2 - 1) as nat, 13);
                    }
                }
                vstd::bits::lemma_u16_shl_is_mul(1u16, extra_bits);
            }
            let block_step: u16 = 1u16 << extra_bits;
            proof {
                assert(n_in_block * block_step <= 8192) by (nonlinear_arith)
                    requires n_in_block <= 1, block_step <= 8192,
                ;
                assert((n_in_block as nat) * (block_step as nat)
                    == ((w % 2) as nat) * pow2((w / 2 - 1) as nat));
            }
            let base: u16 = 2 * block_step + 1 + n_in_block * block_step;
            Ok(DistanceToken { base, extra_bits: extra_bits as u8 })
        } else {
            Err(Error::BadHuffmanCode)
        }
    }
}

/// The symbol a codeword maps to: the pair added most recently wins,
/// as a map insert would.
pub open spec fn assoc<T>(pairs: Seq<(BitSequence, T)>, key: BitSequence) -> Option<T>
    decreases pairs.len(),
{
    if pairs.len() == 0 {
        None
    } else if pairs.last().0 == key {
        Some(pairs.last().1)
    } else {
        assoc(pairs.drop_last(), key)
    }
}

/// The first codeword length at or above `n` whose bits match a pair,
/// together with its symbol; the search gives up beyond sixteen bits.
pub open spec fn spec_find_symbol<T>(
    pairs: Seq<(BitSequence, T)>,
    data: Seq<u8>,
    pos: int,
    n: nat,
) -> Option<(T, nat)>
    decreases 17 - n,
{
    if n > 16 {
        None
    } else {
        match assoc(pairs, BitSequence::spec_make(msb_bits(data, pos, n), n)) {
            Some(t) => Some((t, n)),
            None => spec_find_symbol(pairs, data, pos, n + 1),
        }
    }
}

/// A matching codeword found at or above length `n0` is no shorter
/// than `n0` and no longer than sixteen bits.
pub proof fn lemma_find_symbol_min<T>(pairs: Seq<(BitSequence, T)>, data: Seq<u8>, pos: int, n0: nat)
    ensures
        match spec_find_symbol(pairs, data, pos, n0) {
            Some((t, n)) => n0 <= n <= 16,
            None => true,
        },
    decreases 17 - n0,
{
    if n0 <= 16 {
        lemma_find_symbol_min(pairs, data, pos, n0 + 1);
    }
}

/// A canonical Huffman decoder: a mapping from codewords, with their
/// exact bit length, to symbols.
pub struct HuffmanCoding<T> {
    map: Vec<(BitSequence, T)>,
}

impl<T: CodeSymbol> HuffmanCoding<T> {
    /// The codeword-to-symbol pairs, in the order they were added.
    pub closed spec fn spec_pairs(self) -> Seq<(BitSequence, T)> {
        self.map@
    }

    /// Wraps a ready list of codeword-to-symbol pairs.
    pub fn new(map: Vec<(BitSequence, T)>) -> (r: Self)
        ensures
            r.spec_pairs() == map@,
    {
        HuffmanCoding { map }
    }

    /// Looks one bit sequence up in the code.
    pub fn decode_symbol(&self, seq: BitSequence) -> (r: Option<T>)
        ensures
            r == assoc(self.spec_pairs(), seq),
    {
        let ghost pairs = self.map@;
        proof {
            assert(pairs.take(pairs.len() as int) =~= pairs);
        }
        let mut i: usize = self.map.len();
        while i > 0
            invariant
                i <= pairs.len(),
                pairs == self.map@,
                assoc(pairs, seq) == assoc(pairs.take(i as int), seq),
            decreases i,
        {
            i = i - 1;
            proof {
                assert(pairs.take(i + 1).drop_last() =~= pairs.take(i as int));
                assert(pairs.take(i + 1).last() == pairs[i as int]);
            }
            if self.map[i].0 == seq {
                return Some(self.map[i].1);
            }
        }
        proof {
            assert(pairs.take(0) =~= Seq::<(BitSequence, T)>::empty());
        }
        None
    }

    /// Reads bits one at a time until the accumulated sequence is a
    /// codeword of this code, and returns its symbol. The first bit
    /// read lands in the most significant position, as DEFLATE packs
    /// codewords.
    pub fn read_symbol(&self, bit_reader: &mut BitReader) -> (r: Result<T, Error>)
        requires
            old(bit_reader).wf(),
        ensures
            final(bit_reader).wf(),
            final(bit_reader).spec_data() == old(bit_reader).spec_data(),
            final(bit_reader).spec_bitpos() >= old(bit_reader).spec_bitpos(),
            ({
                let d = old(bit_reader).spec_data();
                let p = old(bit_reader).spec_bitpos();
                match spec_find_symbol(self.spec_pairs(), d, p, 1) {
                    Some((t, n)) => {
                        if p + n <= 8 * d.len() {
                            &&& r == Ok::<T, Error>(t)
                            &&& final(bit_reader).spec_bitpos() == p + n
                        } else {
                            r == Err::<T, Error>(Error::UnexpectedEof)
                        }
                    },
                    None => {
                        if p + 16 <= 8 * d.len() {
                            r == Err::<T, Error>(Error::BadHuffmanCode)
                        } else {
                            r == Err::<T, Error>(Error::UnexpectedEof)
                        }
                    },
                }
            }),
    {
        let ghost d = old(bit_reader).spec_data();
        let ghost p = old(bit_reader).spec_bitpos();
        let ghost pairs = self.spec_pairs();
        let mut seq = BitSequence::new(0, 0);
        let mut k: u8 = 0;
        proof {
            lemma2_to64();
        }
        while k < 16
            invariant
                old(bit_reader).wf(),
                bit_reader.wf(),
                bit_reader.spec_data() == d,
                bit_reader.spec_bitpos() == p + k as int,
                k <= 16,
                pairs == self.spec_pairs(),
                d == old(bit_reader).spec_data(),
                p == old(bit_reader).spec_bitpos(),
                seq.spec_len() == k as nat,
                seq.spec_bits() == msb_bits(d, p, k as nat),
                spec_find_symbol(pairs, d, p, 1) == spec_find_symbol(pairs, d, p, k as nat + 1),
            decreases 16 - k,
        {
            let bit = match bit_reader.read_bits(1) {
                Ok(b) => b,
                Err(e) => {
                    proof {
                        lemma_find_symbol_min(pairs, d, p, k as nat + 1);
                    }
                    return Err(e);
                },
            };
            let ghost sprev = seq;
            seq = seq.concat(bit);
            k = k + 1;
            proof {
                lemma2_to64();
                assert(bits_at(d, p + k, 0) == 0);
                assert(bits_at(d, p + k - 1, 1) == stream_bit(d, p + k - 1));
                assert(bit.spec_bits() == stream_bit(d, p + k - 1));
                assert(msb_bits(d, p, k as nat)
                    == 2 * msb_bits(d, p, (k - 1) as nat) + stream_bit(d, p + k - 1));
                assert(sprev.spec_bits() == msb_bits(d, p, (k - 1) as nat));
                assert(seq.spec_bits() == bit.spec_bits() + sprev.spec_bits() * pow2(bit.spec_len()));
                assert(pow2(bit.spec_len()) == 2);
                assert(sprev.spec_bits() * pow2(bit.spec_len()) == sprev.spec_bits() * 2)
                    by (nonlinear_arith)
                    requires pow2(bit.spec_len()) == 2,
                ;
                assert(seq.spec_bits() == msb_bits(d, p, k as nat));
                seq.lemma_ext();
                BitSequence::lemma_spec_make(seq.spec_bits(), seq.spec_len());
            }
            match self.decode_symbol(seq) {
                Some(value) => {
                    proof {
                        assert(spec_find_symbol(pairs, d, p, k as nat)
                            == Some((value, k as nat)));
                    }
                    return Ok(value);
                },
                None => {
                    proof {
                        assert(spec_find_symbol(pairs, d, p, k as nat)
                            == spec_find_symbol(pairs, d, p, k as nat + 1));
                    }
                },
            }
        }
        proof {
            assert(spec_find_symbol(pairs, d, p, 17) is None);
        }
        Err(Error::BadHuffmanCode)
    }
}


/// The number of symbols among the first `upto` whose code length is `l`.
pub open spec fn count_len(lengths: Seq<u8>, l: nat, upto: int) -> nat
    decreases upto,
{
    if upto <= 0 {
        0
    } else {
        count_len(lengths, l, upto - 1) + if lengths[upto - 1] == l {
            1nat
        } else {
            0nat
        }
    }
}

/// Counting over a longer prefix sees at least as many symbols, and at
/// most one more per extra position.
pub proof fn lemma_count_len_mono(lengths: Seq<u8>, l: nat, a: int, b: int)
    requires
        a <= b,
    ensures
        count_len(lengths, l, a) <= count_len(lengths, l, b),
        count_len(lengths, l, b) - count_len(lengths, l, a) <= b - a,
    decreases b - a,
{
    if a < b {
        lemma_count_len_mono(lengths, l, a, b - 1);
    }
}

/// The first canonical codeword of length `l`: the cumulative
/// left-shift recurrence of RFC 1951, section 3.2.2.
pub open spec fn first_code(lengths: Seq<u8>, l: nat) -> nat
    decreases l,
{
    if l == 0 {
        0
    } else {
        (first_code(lengths, (l - 1) as nat) + if l == 1 {
            0nat
        } else {
            count_len(lengths, (l - 1) as nat, lengths.len() as int)
        }) * 2
    }
}

/// The canonical codeword of symbol `i`, truncated to its bit length.
pub open spec fn code_of(lengths: Seq<u8>, i: int) -> nat {
    (first_code(lengths, lengths[i] as nat) + count_len(lengths, lengths[i] as nat, i)) % pow2(
        lengths[i] as nat,
    )
}

/// Whether every canonical codeword fits in its own bit length; it
/// holds of every length vector that satisfies Kraft's inequality.
pub open spec fn codes_fit(lengths: Seq<u8>) -> bool {
    forall|i: int|
        0 <= i < lengths.len() && lengths[i] != 0 ==> first_code(
            lengths,
            (#[trigger] lengths[i]) as nat,
        ) + count_len(lengths, lengths[i] as nat, i) < pow2(lengths[i] as nat)
}

/// The codeword table that the canonical construction yields for the
/// first `upto` symbols: each symbol of non-zero length takes the next
/// codeword of that length, and a symbol outside the alphabet consumes
/// its codeword without appearing in the table.
pub open spec fn canonical_entries<T: CodeSymbol>(lengths: Seq<u8>, upto: int) -> Seq<
    (BitSequence, T),
>
    decreases upto,
{
    if upto <= 0 {
        Seq::empty()
    } else {
        let rest = canonical_entries(lengths, upto - 1);
        if lengths[upto - 1] == 0 {
            rest
        } else {
            match T::spec_from((upto - 1) as u16) {
                Some(t) => rest.push(
                    (
                        BitSequence::spec_make(
                            code_of(lengths, upto - 1),
                            lengths[upto - 1] as nat,
                        ),
                        t,
                    ),
                ),
                None => rest,
            }
        }
    }
}

/// Every symbol the table maps to comes from the alphabet.
pub proof fn lemma_entries_token<T: CodeSymbol>(lengths: Seq<u8>, upto: int, key: BitSequence)
    ensures
        match assoc(canonical_entries::<T>(lengths, upto), key) {
            Some(t) => exists|w: u16| #[trigger] T::spec_from(w) == Some(t),
            None => true,
        },
    decreases upto,
{
    if upto > 0 {
        let rest = canonical_entries::<T>(lengths, upto - 1);
        lemma_entries_token::<T>(lengths, upto - 1, key);
        if lengths[upto - 1] != 0 {
            match T::spec_from((upto - 1) as u16) {
                Some(t) => {
                    let e = (
                        BitSequence::spec_make(
                            code_of(lengths, upto - 1),
                            lengths[upto - 1] as nat,
                        ),
                        t,
                    );
                    assert(rest.push(e).drop_last() =~= rest);
                    if key == e.0 {
                        assert(T::spec_from((upto - 1) as u16) == Some(t));
                    }
                },
                None => {},
            }
        }
    }
}

/// Every symbol of non-zero length decodes, uniquely, from the exact
/// bits of its canonical codeword: looking that codeword up in the
/// table yields exactly that symbol. The requirement that the raw
/// codewords fit their bit lengths holds of every length vector that
/// satisfies Kraft's inequality; an oversubscribed vector such as
/// three lengths of one breaks it, and there later symbols overwrite
/// earlier codewords.
pub proof fn lemma_canonical_code_decodes<T: CodeSymbol>(lengths: Seq<u8>, i: int, upto: int)
    requires
        lengths.len() <= 0x10000,
        forall|j: int| 0 <= j < lengths.len() ==> lengths[j] <= 16,
        codes_fit(lengths),
        0 <= i < upto <= lengths.len(),
        lengths[i] != 0,
        T::spec_from(i as u16) is Some,
    ensures
        assoc(
            canonical_entries::<T>(lengths, upto),
            BitSequence::spec_make(code_of(lengths, i), lengths[i] as nat),
        ) == T::spec_from(i as u16),
    decreases upto,
{
    let li: nat = lengths[i] as nat;
    let key_i = BitSequence::spec_make(code_of(lengths, i), li);
    lemma_pow2_le_u16_bound(li);
    vstd::arithmetic::div_mod::lemma_mod_division_less_than_divisor(
        (first_code(lengths, li) + count_len(lengths, li, i)) as int,
        pow2(li) as int,
    );
    BitSequence::lemma_spec_make(code_of(lengths, i), li);
    let rest = canonical_entries::<T>(lengths, upto - 1);
    if upto - 1 == i {
        let t = T::spec_from(i as u16)->Some_0;
        let e = (key_i, t);
        assert(canonical_entries::<T>(lengths, upto) == rest.push(e));
        assert(rest.push(e).last() == e);
    } else {
        lemma_canonical_code_decodes::<T>(lengths, i, upto - 1);
        let j = upto - 1;
        if lengths[j] != 0 {
            match T::spec_from(j as u16) {
                Some(t) => {
                    let lj: nat = lengths[j] as nat;
                    let key_j = BitSequence::spec_make(code_of(lengths, j), lj);
                    lemma_pow2_le_u16_bound(lj);
                    vstd::arithmetic::div_mod::lemma_mod_division_less_than_divisor(
                        (first_code(lengths, lj) + count_len(lengths, lj, j)) as int,
                        pow2(lj) as int,
                    );
                    BitSequence::lemma_spec_make(code_of(lengths, j), lj);
                    assert(key_j != key_i) by {
                        if lj == li {
                            // later symbols of the same length take
                            // strictly larger codewords
                            lemma_count_len_mono(lengths, li, i + 1, j);
                            vstd::arithmetic::div_mod::lemma_small_mod(
                                first_code(lengths, li) + count_len(lengths, li, i),
                                pow2(li),
                            );
                            vstd::arithmetic::div_mod::lemma_small_mod(
                                first_code(lengths, lj) + count_len(lengths, lj, j),
                                pow2(lj),
                            );
                            assert(count_len(lengths, li, i + 1) == count_len(lengths, li, i) + 1);
                            assert(code_of(lengths, j) > code_of(lengths, i));
                        } else {
                            assert(key_j.spec_len() != key_i.spec_len());
                        }
                    }
                    assert(rest.push((key_j, t)).drop_last() =~= rest);
                },
                None => {},
            }
        }
    }
}

impl<T: CodeSymbol> HuffmanCoding<T> {
    /// Builds the canonical code of RFC 1951, section 3.2.2 from a
    /// vector of code lengths. A zero length leaves its symbol out; a
    /// non-zero-length symbol outside the alphabet takes part in the
    /// construction but decodes to nothing, so reading its codeword
    /// later fails as a bad code.
    pub fn from_lengths(code_lengths: &[u8]) -> (r: Result<Self, Error>)
        requires
            code_lengths@.len() <= 0x10000,
            forall|i: int| 0 <= i < code_lengths@.len() ==> code_lengths@[i] <= 16,
        ensures
            r is Ok,
            r->Ok_0.spec_pairs() == canonical_entries::<T>(
                code_lengths@,
                code_lengths@.len() as int,
            ),
    {
        let ghost lengths = code_lengths@;
        let n = code_lengths.len();

        // count the symbols of each length
        let mut bl_count: Vec<u64> = Vec::new();
        while bl_count.len() < 17
            invariant
                forall|l: int| 0 <= l < bl_count.len() ==> bl_count[l] == 0,
                bl_count.len() <= 17,
            decreases 17 - bl_count.len(),
        {
            bl_count.push(0);
        }
        let mut idx: usize = 0;
        while idx < n
            invariant
                n == lengths.len(),
                lengths == code_lengths@,
                forall|i: int| 0 <= i < n ==> lengths[i] <= 16,
                idx <= n,
                bl_count.len() == 17,
                bl_count[0] == 0,
                forall|l: int|
                    1 <= l <= 16 ==> bl_count[l] == count_len(lengths, l as nat, idx as int),
                forall|l: int| 0 <= l <= 16 ==> bl_count[l] <= idx,
            decreases n - idx,
        {
            let l = code_lengths[idx];
            if l != 0 {
                let c = bl_count[l as usize];
                bl_count.set(l as usize, c + 1);
            }
            idx = idx + 1;
        }

        // the cumulative left-shift recurrence for the first codeword
        // of each length
        let mut next_code: Vec<u64> = Vec::new();
        while next_code.len() < 17
            invariant
                next_code.len() <= 17,
            decreases 17 - next_code.len(),
        {
            next_code.push(0);
        }
        let mut code: u64 = 0;
        let mut nb: usize = 1;
        proof {
            lemma2_to64();
        }
        while nb <= 16
            invariant
                n == lengths.len() <= 0x10000,
                lengths == code_lengths@,
                1 <= nb <= 17,
                bl_count.len() == 17,
                next_code.len() == 17,
                bl_count[0] == 0,
                forall|l: int|
                    1 <= l <= 16 ==> bl_count[l] == count_len(lengths, l as nat, n as int),
                forall|l: int| 0 <= l <= 16 ==> bl_count[l] <= n,
                code == first_code(lengths, (nb - 1) as nat),
                code + 0x20000 <= pow2((nb + 16) as nat),
                forall|l: int| 1 <= l < nb ==> next_code[l] == first_code(lengths, l as nat),
                forall|l: int|
                    1 <= l < nb ==> next_code[l] + 0x20000 <= pow2((l + 17) as nat),
            decreases 17 - nb,
        {
            proof {
                lemma2_to64();
                vstd::arithmetic::power2::lemma_pow2_adds((nb + 16) as nat, 1);
                vstd::arithmetic::power2::lemma_pow2_strictly_increases(17, (nb + 17) as nat);
                assert(pow2((nb + 17) as nat) == pow2((nb + 16) as nat) * 2);
                vstd::arithmetic::power2::lemma2_to64_rest();
                assert(pow2((nb + 16) as nat) <= pow2(33)) by {
                    if ((nb + 16) as nat) < 33 {
                        vstd::arithmetic::power2::lemma_pow2_strictly_increases(
                            (nb + 16) as nat,
                            33,
                        );
                    }
                }
            }
            code = (code + bl_count[nb - 1]) * 2;
            next_code.set(nb, code);
            nb = nb + 1;
        }

        // hand each symbol of non-zero length the next codeword of
        // that length
        let mut map: Vec<(BitSequence, T)> = Vec::new();
        let mut value: usize = 0;
        proof {
            assert(map@ =~= canonical_entries::<T>(lengths, 0));
            assert forall|l: int| 1 <= l <= 16 implies #[trigger] first_code(lengths, l as nat)
                + 0x20000 <= pow2((l + 17) as nat) by {
                assert(next_code[l] == first_code(lengths, l as nat));
                assert(next_code[l] + 0x20000 <= pow2((l + 17) as nat));
            }
        }
        while value < n
            invariant
                n == lengths.len() <= 0x10000,
                lengths == code_lengths@,
                forall|i: int| 0 <= i < n ==> lengths[i] <= 16,
                value <= n,
                next_code.len() == 17,
                map@ == canonical_entries::<T>(lengths, value as int),
                forall|l: int|
                    1 <= l <= 16 ==> next_code[l] == first_code(lengths, l as nat) + count_len(
                        lengths,
                        l as nat,
                        value as int,
                    ),
                forall|l: int|
                    1 <= l <= 16 ==> #[trigger] first_code(lengths, l as nat) + 0x20000 <= pow2(
                        (l + 17) as nat,
                    ),
            decreases n - value,
        {
            let l = code_lengths[value];
            let ghost entries_before = map@;
            if l != 0 {
                proof {
                    lemma_count_len_mono(lengths, l as nat, value as int, n as int);
                    lemma_count_len_mono(lengths, l as nat, 0, value as int);
                    vstd::arithmetic::power2::lemma2_to64_rest();
                    assert(pow2((l + 17) as nat) <= pow2(33)) by {
                        if ((l + 17) as nat) < 33 {
                            vstd::arithmetic::power2::lemma_pow2_strictly_increases(
                                (l + 17) as nat,
                                33,
                            );
                        }
                    }
                    lemma2_to64();
                }
                let nc = next_code[l as usize];
                proof {
                    assert(nc == first_code(lengths, l as nat) + count_len(
                        lengths,
                        l as nat,
                        value as int,
                    ));
                    assert(first_code(lengths, l as nat) + 0x20000 <= pow2((l + 17) as nat));
                    assert(count_len(lengths, l as nat, value as int) <= value);
                    vstd::arithmetic::power2::lemma2_to64_rest();
                    assert(nc + 1 <= 0x300000000);
                }
                match T::try_from(HuffmanCodeWord(value as u16)) {
                    Ok(t) => {
                        let key = BitSequence::new((nc % 0x10000) as u16, l);
                        proof {
                            lemma_pow2_le_u16_bound(l as nat);
                            vstd::arithmetic::power2::lemma_pow2_adds(
                                l as nat,
                                (16 - l) as nat,
                            );
                            vstd::arithmetic::div_mod::lemma_mod_mod(
                                nc as int,
                                pow2(l as nat) as int,
                                pow2((16 - l) as nat) as int,
                            );
                            vstd::arithmetic::power2::lemma_pow2_pos((16 - l) as nat);
                            vstd::arithmetic::power2::lemma_pow2_pos(l as nat);
                            assert(key.spec_bits() == code_of(lengths, value as int));
                            key.lemma_ext();
                        }
                        map.push((key, t));
                    },
                    Err(_) => {},
                }
                next_code.set(l as usize, nc + 1);
            }
            value = value + 1;
            proof {
                assert(map@ == canonical_entries::<T>(lengths, value as int));
                assert forall|ll: int| 1 <= ll <= 16 implies next_code[ll] == first_code(
                    lengths,
                    ll as nat,
                ) + count_len(lengths, ll as nat, value as int) by {
                    assert(count_len(lengths, ll as nat, value as int) == count_len(
                        lengths,
                        ll as nat,
                        value - 1,
                    ) + if lengths[value - 1] == ll {
                        1nat
                    } else {
                        0nat
                    });
                }
            }
        }
        Ok(HuffmanCoding { map })
    }
}

/// Whether every symbol a code can decode to comes from `T`'s
/// alphabet.
pub open spec fn alphabet_only<T: CodeSymbol>(pairs: Seq<(BitSequence, T)>) -> bool {
    forall|key: BitSequence|
        match #[trigger] assoc(pairs, key) {
            Some(t) => exists|w: u16| #[trigger] T::spec_from(w) == Some(t),
            None => true,
        }
}

/// A canonical table only decodes to symbols of the alphabet.
pub proof fn lemma_entries_alphabet_only<T: CodeSymbol>(lengths: Seq<u8>, upto: int)
    ensures
        alphabet_only(canonical_entries::<T>(lengths, upto)),
{
    assert forall|key: BitSequence|
        match #[trigger] assoc(canonical_entries::<T>(lengths, upto), key) {
            Some(t) => exists|w: u16| #[trigger] T::spec_from(w) == Some(t),
            None => true,
        } by {
        lemma_entries_token::<T>(lengths, upto, key);
    }
}

/// A found symbol is one some codeword maps to.
pub proof fn lemma_find_symbol_assoc<T>(
    pairs: Seq<(BitSequence, T)>,
    data: Seq<u8>,
    pos: int,
    n0: nat,
)
    ensures
        match spec_find_symbol(pairs, data, pos, n0) {
            Some((t, n)) => assoc(
                pairs,
                BitSequence::spec_make(msb_bits(data, pos, n), n),
            ) == Some(t),
            None => true,
        },
    decreases 17 - n0,
{
    if n0 <= 16 {
        lemma_find_symbol_assoc(pairs, data, pos, n0 + 1);
    }
}

/// The ranges of the literal/length alphabet: a match length's base
/// never passes 258 and needs at most five extra bits.
pub proof fn lemma_litlen_token_bounds(t: LitLenToken)
    requires
        exists|w: u16| #[trigger] LitLenToken::spec_from(w) == Some(t),
    ensures
        match t {
            LitLenToken::Length { base, extra_bits } => 3 <= base <= 258 && extra_bits <= 5,
            _ => true,
        },
{
    let w = choose|w: u16| #[trigger] LitLenToken::spec_from(w) == Some(t);
    lemma2_to64();
    if 265 <= w <= 284 {
        let used = (w - 261) as nat;
        let eb = used / 4;
        assert(used / 4 <= 5) by (nonlinear_arith)
            requires used <= 23,
        ;
        assert(used % 4 <= 3) by (nonlinear_arith);
        assert(pow2(eb) <= 32) by {
            if eb < 5 {
                lemma_pow2_strictly_increases(eb, 5);
            }
        }
        assert((used % 4) * pow2(eb) <= 3 * 32) by (nonlinear_arith)
            requires used % 4 <= 3, pow2(eb) <= 32,
        ;
        assert(pow2(eb) >= 1) by {
            vstd::arithmetic::power2::lemma_pow2_pos(eb);
        }
    }
}

/// The ranges of the distance alphabet: a base never passes 24577 and
/// needs at most thirteen extra bits.
pub proof fn lemma_distance_token_bounds(t: DistanceToken)
    requires
        exists|w: u16| #[trigger] DistanceToken::spec_from(w) == Some(t),
    ensures
        1 <= t.base <= 24577,
        t.extra_bits <= 13,
{
    let w = choose|w: u16| #[trigger] DistanceToken::spec_from(w) == Some(t);
    lemma2_to64();
    if 4 <= w <= 29 {
        let eb = (w / 2 - 1) as nat;
        assert(w / 2 <= 14) by (nonlinear_arith)
            requires w <= 29,
        ;
        assert(w / 2 >= 2) by (nonlinear_arith)
            requires w >= 4,
        ;
        assert(w % 2 <= 1) by (nonlinear_arith);
        assert(pow2(eb) <= 8192) by {
            if eb < 13 {
                lemma_pow2_strictly_increases(eb, 13);
            }
        }
        assert(((w % 2) as nat) * pow2(eb) <= 8192) by (nonlinear_arith)
            requires w % 2 <= 1, pow2(eb) <= 8192,
        ;
        assert(pow2(eb) >= 1) by {
            vstd::arithmetic::power2::lemma_pow2_pos(eb);
        }
    }
}

/// The ranges of the code-length alphabet: literal lengths stay below
/// sixteen and a repeat reads at most seven extra bits.
pub proof fn lemma_tree_token_bounds(t: TreeCodeToken)
    requires
        exists|w: u16| #[trigger] TreeCodeToken::spec_from(w) == Some(t),
    ensures
        match t {
            TreeCodeToken::Length(x) => x <= 15,
            TreeCodeToken::CopyPrev => true,
            TreeCodeToken::RepeatZero { base, extra_bits } => (base == 3 && extra_bits == 3) || (
            base == 11 && extra_bits == 7),
        },
{
    let w = choose|w: u16| #[trigger] TreeCodeToken::spec_from(w) == Some(t);
}

/// The code length of literal/length symbol `i` in the fixed code
/// (RFC 1951, section 3.2.6).
pub open spec fn static_litlen_length(i: int) -> u8 {
    if i < 144 {
        8
    } else if i < 256 {
        9
    } else if i < 280 {
        7
    } else {
        8
    }
}

/// The code lengths of the fixed literal/length code.
pub open spec fn static_litlen_lengths() -> Seq<u8> {
    Seq::new(288, |i: int| static_litlen_length(i))
}

/// The code lengths of the fixed distance code: five bits each.
pub open spec fn static_distance_lengths() -> Seq<u8> {
    Seq::new(32, |i: int| 5u8)
}

/// The length table of the fixed literal/length code.
fn litlen_static_code_lengths() -> (r: Vec<u8>)
    ensures
        r@ == static_litlen_lengths(),
{
    let mut v: Vec<u8> = Vec::new();
    let mut i: usize = 0;
    while i < 288
        invariant
            i <= 288,
            v@.len() == i,
            forall|j: int| 0 <= j < i ==> v@[j] == static_litlen_length(j),
        decreases 288 - i,
    {
        if i < 144 {
            v.push(8);
        } else if i < 256 {
            v.push(9);
        } else if i < 280 {
            v.push(7);
        } else {
            v.push(8);
        }
        i = i + 1;
    }
    proof {
        assert(v@ =~= static_litlen_lengths());
    }
    v
}

/// Builds the fixed literal/length and distance codes of
/// RFC 1951, section 3.2.6.
pub fn static_litlen_distance_trees() -> (r: Result<
    (HuffmanCoding<LitLenToken>, HuffmanCoding<DistanceToken>),
    Error,
>)
    ensures
        r is Ok,
        r->Ok_0.0.spec_pairs() == canonical_entries::<LitLenToken>(static_litlen_lengths(), 288),
        r->Ok_0.1.spec_pairs() == canonical_entries::<DistanceToken>(
            static_distance_lengths(),
            32,
        ),
{
    let litlen_lengths = litlen_static_code_lengths();
    let mut dist_lengths: Vec<u8> = Vec::new();
    let mut i: usize = 0;
    while i < 32
        invariant
            i <= 32,
            dist_lengths@.len() == i,
            forall|j: int| 0 <= j < i ==> dist_lengths@[j] == 5u8,
        decreases 32 - i,
    {
        dist_lengths.push(5);
        i = i + 1;
    }
    proof {
        assert(dist_lengths@ =~= static_distance_lengths());
    }
    let litlen = HuffmanCoding::<LitLenToken>::from_lengths(litlen_lengths.as_slice())?;
    let dist = HuffmanCoding::<DistanceToken>::from_lengths(dist_lengths.as_slice())?;
    Ok((litlen, dist))
}

/// The order in which a dynamic block stores the code lengths of the
/// code-length alphabet (RFC 1951, section 3.2.7).
pub open spec fn spec_len_code_order(i: int) -> int {
    if i == 0 { 16 } else if i == 1 { 17 } else if i == 2 { 18 } else if i == 3 { 0 }
    else if i == 4 { 8 } else if i == 5 { 7 } else if i == 6 { 9 } else if i == 7 { 6 }
    else if i == 8 { 10 } else if i == 9 { 5 } else if i == 10 { 11 } else if i == 11 { 4 }
    else if i == 12 { 12 } else if i == 13 { 3 } else if i == 14 { 13 } else if i == 15 { 2 }
    else if i == 16 { 14 } else if i == 17 { 1 } else { 15 }
}

/// The storage order of the code-length code's lengths.
fn len_code_order(i: usize) -> (r: usize)
    requires
        i < 19,
    ensures
        r == spec_len_code_order(i as int),
        r < 19,
{
    if i == 0 { 16 } else if i == 1 { 17 } else if i == 2 { 18 } else if i == 3 { 0 }
    else if i == 4 { 8 } else if i == 5 { 7 } else if i == 6 { 9 } else if i == 7 { 6 }
    else if i == 8 { 10 } else if i == 9 { 5 } else if i == 10 { 11 } else if i == 11 { 4 }
    else if i == 12 { 12 } else if i == 13 { 3 } else if i == 14 { 13 } else if i == 15 { 2 }
    else if i == 16 { 14 } else if i == 17 { 1 } else { 15 }
}


/// The nineteen code lengths of the code-length alphabet after the
/// first `i` three-bit fields, each stored at its place in the fixed
/// permutation; the places not yet written hold zero.
pub open spec fn spec_code_length_table(data: Seq<u8>, p14: int, i: int) -> Seq<u8>
    decreases i,
{
    if i <= 0 {
        Seq::new(19, |j: int| 0u8)
    } else {
        spec_code_length_table(data, p14, i - 1).update(
            spec_len_code_order(i - 1),
            bits_at(data, p14 + 3 * (i - 1), 3) as u8,
        )
    }
}

/// Run-length decoding of the combined length vector
/// (RFC 1951, section 3.2.7): a symbol is a literal length, a copy of
/// the previous length three to six times, or a run of zeros. A copy
/// that comes first or a run that overruns `total` is a bad repeat;
/// short bits and unmatched bit patterns keep their own kinds.
#[verifier::opaque]
pub open spec fn spec_expand_lengths(
    data: Seq<u8>,
    p: int,
    lcode: Seq<(BitSequence, TreeCodeToken)>,
    total: int,
    acc: Seq<u8>,
) -> Result<(Seq<u8>, int), Error>
    decreases 8 * data.len() - p,
{
    if acc.len() >= total {
        if acc.len() == total {
            Ok((acc, p))
        } else {
            Err(Error::BadRepeat)
        }
    } else if p < 0 || p > 8 * data.len() {
        Err(Error::UnexpectedEof)
    } else {
        match spec_find_symbol(lcode, data, p, 1) {
            None => if p + 16 <= 8 * data.len() {
                Err(Error::BadHuffmanCode)
            } else {
                Err(Error::UnexpectedEof)
            },
            Some((t, n)) => {
                let p1 = p + n;
                if n < 1 || p1 > 8 * data.len() {
                    Err(Error::UnexpectedEof)
                } else {
                    match t {
                        TreeCodeToken::Length(x) => spec_expand_lengths(
                            data,
                            p1,
                            lcode,
                            total,
                            acc.push(x),
                        ),
                        TreeCodeToken::CopyPrev => {
                            if p1 + 2 > 8 * data.len() {
                                Err(Error::UnexpectedEof)
                            } else {
                                let cnt = 3 + bits_at(data, p1, 2);
                                if acc.len() == 0 || acc.len() + cnt > total {
                                    Err(Error::BadRepeat)
                                } else {
                                    spec_expand_lengths(
                                        data,
                                        p1 + 2,
                                        lcode,
                                        total,
                                        acc + Seq::new(cnt as nat, |q: int| acc.last()),
                                    )
                                }
                            }
                        },
                        TreeCodeToken::RepeatZero { base, extra_bits } => {
                            if p1 + extra_bits > 8 * data.len() {
                                Err(Error::UnexpectedEof)
                            } else {
                                let cnt = base + bits_at(data, p1, extra_bits as nat);
                                if acc.len() + cnt > total {
                                    Err(Error::BadRepeat)
                                } else {
                                    spec_expand_lengths(
                                        data,
                                        p1 + extra_bits,
                                        lcode,
                                        total,
                                        acc + Seq::new(cnt as nat, |q: int| 0u8),
                                    )
                                }
                            }
                        },
                    }
                }
            },
        }
    }
}

/// The dynamic code descriptions stored at bit position `p`
/// (RFC 1951, section 3.2.7): the two canonical codes and the bit
/// position just after them, or the kind of the first failure.
pub open spec fn spec_dynamic_tables(data: Seq<u8>, p: int) -> Result<
    (Seq<(BitSequence, LitLenToken)>, Seq<(BitSequence, DistanceToken)>, int),
    Error,
> {
    if p < 0 || p + 14 > 8 * data.len() {
        Err(Error::UnexpectedEof)
    } else {
        let hlit = bits_at(data, p, 5) + 257;
        let hdist = bits_at(data, p + 5, 5) + 1;
        let hclen = bits_at(data, p + 10, 4) + 4;
        if p + 14 + 3 * hclen > 8 * data.len() {
            Err(Error::UnexpectedEof)
        } else {
            let lcode = canonical_entries::<TreeCodeToken>(
                spec_code_length_table(data, p + 14, hclen as int),
                19,
            );
            match spec_expand_lengths(
                data,
                p + 14 + 3 * hclen,
                lcode,
                (hlit + hdist) as int,
                Seq::empty(),
            ) {
                Err(e) => Err(e),
                Ok((lengths, p2)) => Ok(
                    (
                        canonical_entries::<LitLenToken>(lengths.take(hlit as int), hlit as int),
                        canonical_entries::<DistanceToken>(
                            lengths.skip(hlit as int),
                            hdist as int,
                        ),
                        p2,
                    ),
                ),
            }
        }
    }
}

/// One literal length extends the accumulator/// One literal length extends the accumulator by one entry.
proof fn lemma_expand_literal(
    d: Seq<u8>,
    p: int,
    lcode: Seq<(BitSequence, TreeCodeToken)>,
    total: int,
    acc: Seq<u8>,
    x: u8,
    n: nat,
)
    requires
        acc.len() < total,
        0 <= p,
        spec_find_symbol(lcode, d, p, 1) == Some((TreeCodeToken::Length(x), n)),
        1 <= n,
        p + n <= 8 * d.len(),
    ensures
        spec_expand_lengths(d, p, lcode, total, acc) == spec_expand_lengths(
            d,
            p + n,
            lcode,
            total,
            acc.push(x),
        ),
{
    reveal(spec_expand_lengths);
}

/// A copy token repeats the previous length.
proof fn lemma_expand_copy(
    d: Seq<u8>,
    p: int,
    lcode: Seq<(BitSequence, TreeCodeToken)>,
    total: int,
    acc: Seq<u8>,
    n: nat,
)
    requires
        acc.len() < total,
        0 <= p,
        spec_find_symbol(lcode, d, p, 1) == Some((TreeCodeToken::CopyPrev, n)),
        1 <= n,
        p + n + 2 <= 8 * d.len(),
        acc.len() > 0,
        acc.len() + 3 + bits_at(d, p + n, 2) <= total,
    ensures
        spec_expand_lengths(d, p, lcode, total, acc) == spec_expand_lengths(
            d,
            p + n + 2,
            lcode,
            total,
            acc + Seq::new((3 + bits_at(d, p + n, 2)) as nat, |q: int| acc.last()),
        ),
{
    reveal(spec_expand_lengths);
}

/// A zero-run token appends a run of zero lengths.
proof fn lemma_expand_zeros(
    d: Seq<u8>,
    p: int,
    lcode: Seq<(BitSequence, TreeCodeToken)>,
    total: int,
    acc: Seq<u8>,
    base: u16,
    eb: u8,
    n: nat,
)
    requires
        acc.len() < total,
        0 <= p,
        spec_find_symbol(lcode, d, p, 1) == Some(
            (TreeCodeToken::RepeatZero { base, extra_bits: eb }, n),
        ),
        1 <= n,
        p + n + eb <= 8 * d.len(),
        acc.len() + base + bits_at(d, p + n, eb as nat) <= total,
    ensures
        spec_expand_lengths(d, p, lcode, total, acc) == spec_expand_lengths(
            d,
            p + n + eb,
            lcode,
            total,
            acc + Seq::new((base + bits_at(d, p + n, eb as nat)) as nat, |q: int| 0u8),
        ),
{
    reveal(spec_expand_lengths);
}

/// The expansion fails when the next symbol cannot be taken, with
/// the kind the failure carries: a bad code or short bits from the
/// symbol read, short bits under a repeat's extra bits, and a bad
/// repeat for a leading copy or an overrun.
proof fn lemma_expand_err(
    d: Seq<u8>,
    p: int,
    lcode: Seq<(BitSequence, TreeCodeToken)>,
    total: int,
    acc: Seq<u8>,
)
    requires
        acc.len() < total,
        0 <= p <= 8 * d.len(),
        match spec_find_symbol(lcode, d, p, 1) {
            None => true,
            Some((t, n)) => n < 1 || p + n > 8 * d.len() || match t {
                TreeCodeToken::Length(x) => false,
                TreeCodeToken::CopyPrev => p + n + 2 > 8 * d.len() || acc.len() == 0
                    || acc.len() + 3 + bits_at(d, p + n, 2) > total,
                TreeCodeToken::RepeatZero { base, extra_bits } => p + n + extra_bits > 8
                    * d.len() || acc.len() + base + bits_at(d, p + n, extra_bits as nat)
                    > total,
            },
        },
    ensures
        spec_expand_lengths(d, p, lcode, total, acc) == (match spec_find_symbol(
            lcode,
            d,
            p,
            1,
        ) {
            None => if p + 16 <= 8 * d.len() {
                Err::<(Seq<u8>, int), Error>(Error::BadHuffmanCode)
            } else {
                Err::<(Seq<u8>, int), Error>(Error::UnexpectedEof)
            },
            Some((t, n)) => if n < 1 || p + n > 8 * d.len() {
                Err::<(Seq<u8>, int), Error>(Error::UnexpectedEof)
            } else {
                match t {
                    TreeCodeToken::Length(x) => Err::<(Seq<u8>, int), Error>(
                        Error::UnexpectedEof,
                    ),
                    TreeCodeToken::CopyPrev => if p + n + 2 > 8 * d.len() {
                        Err::<(Seq<u8>, int), Error>(Error::UnexpectedEof)
                    } else {
                        Err::<(Seq<u8>, int), Error>(Error::BadRepeat)
                    },
                    TreeCodeToken::RepeatZero { base, extra_bits } => if p + n + extra_bits > 8
                        * d.len() {
                        Err::<(Seq<u8>, int), Error>(Error::UnexpectedEof)
                    } else {
                        Err::<(Seq<u8>, int), Error>(Error::BadRepeat)
                    },
                }
            },
        }),
{
    reveal(spec_expand_lengths);
}

/// A full accumulator ends the expansion/// A full accumulator ends the expansion where it stands.
proof fn lemma_expand_done(
    d: Seq<u8>,
    p: int,
    lcode: Seq<(BitSequence, TreeCodeToken)>,
    total: int,
    acc: Seq<u8>,
)
    requires
        acc.len() == total,
    ensures
        spec_expand_lengths(d, p, lcode, total, acc) == Ok::<(Seq<u8>, int), Error>((acc, p)),
{
    reveal(spec_expand_lengths);
}

/// Decodes the run-length-encoded vector of `total` code lengths of a
/// dynamic block, using the code-length code.
#[verifier::rlimit(100)]
fn expand_lengths(
    bit_reader: &mut BitReader,
    lengths_coding: &HuffmanCoding<TreeCodeToken>,
    total: usize,
) -> (r: Result<Vec<u8>, Error>)
    requires
        old(bit_reader).wf(),
        alphabet_only(lengths_coding.spec_pairs()),
        total <= 320,
    ensures
        final(bit_reader).wf(),
        final(bit_reader).spec_data() == old(bit_reader).spec_data(),
        final(bit_reader).spec_bitpos() >= old(bit_reader).spec_bitpos(),
        ({
            let run = spec_expand_lengths(
                old(bit_reader).spec_data(),
                old(bit_reader).spec_bitpos(),
                lengths_coding.spec_pairs(),
                total as int,
                Seq::empty(),
            );
            match r {
                Ok(v) => {
                    &&& run == Ok::<(Seq<u8>, int), Error>(
                        (v@, final(bit_reader).spec_bitpos()),
                    )
                    &&& v@.len() == total
                    &&& (forall|j: int| 0 <= j < total ==> v@[j] <= 15)
                },
                Err(e) => run == Err::<(Seq<u8>, int), Error>(e),
            }
        }),
{
    let ghost d = old(bit_reader).spec_data();
    let ghost p_exp = old(bit_reader).spec_bitpos();
    let ghost lcode = lengths_coding.spec_pairs();
    let mut lengths: Vec<u8> = Vec::new();
    while lengths.len() < total
        invariant
            lengths@.len() <= total,
            forall|j: int| 0 <= j < lengths@.len() ==> lengths@[j] == 0,
        decreases total - lengths.len(),
    {
        lengths.push(0);
    }
    proof {
        assert(lengths@.take(0) =~= Seq::<u8>::empty());
        if total == 0 {
            lemma_expand_done(d, p_exp, lcode, total as int, Seq::empty());
        }
    }
    let mut idx2: usize = 0;
    while idx2 < total
        invariant
            d == old(bit_reader).spec_data(),
            p_exp == old(bit_reader).spec_bitpos(),
            bit_reader.wf(),
            bit_reader.spec_data() == d,
            bit_reader.spec_bitpos() >= p_exp,
            idx2 <= total,
            total <= 320,
            lengths@.len() == total,
            forall|j: int| 0 <= j < total ==> lengths@[j] <= 15,
            forall|j: int| idx2 <= j < total ==> lengths@[j] == 0,
            alphabet_only(lengths_coding.spec_pairs()),
            lcode == lengths_coding.spec_pairs(),
            spec_expand_lengths(d, p_exp, lcode, total as int, Seq::empty())
                == spec_expand_lengths(
                d,
                bit_reader.spec_bitpos(),
                lcode,
                total as int,
                lengths@.take(idx2 as int),
            ),
        decreases total - idx2,
    {
        let ghost pre = bit_reader.spec_bitpos();
        let ghost acc = lengths@.take(idx2 as int);
        proof {
            lemma_find_symbol_min(lcode, d, pre, 1);
        }
        let token = match lengths_coding.read_symbol(bit_reader) {
            Ok(t) => t,
            Err(e) => {
                proof {
                    lemma_expand_err(d, pre, lcode, total as int, acc);
                }
                return Err(e);
            },
        };
        let ghost sym = spec_find_symbol(lcode, d, pre, 1);
        let ghost nbits = (sym->0).1;
        proof {
            lemma_find_symbol_assoc(lcode, d, pre, 1);
            lemma_tree_token_bounds(token);
            assert(sym == Some((token, nbits)));
        }
        match token {
            TreeCodeToken::Length(len) => {
                lengths.set(idx2, len);
                idx2 = idx2 + 1;
                proof {
                    lemma_expand_literal(d, pre, lcode, total as int, acc, len, nbits);
                    assert(lengths@.take(idx2 as int) =~= acc.push(len));
                }
            },
            TreeCodeToken::CopyPrev => {
                let reps = match bit_reader.read_bits(2) {
                    Ok(b) => b,
                    Err(e) => {
                        proof {
                            lemma_expand_err(d, pre, lcode, total as int, acc);
                        }
                        return Err(e);
                    },
                };
                proof {
                    lemma2_to64();
                }
                let n_copies = reps.bits() as usize + 3;
                if idx2 == 0 {
                    proof {
                        lemma_expand_err(d, pre, lcode, total as int, acc);
                    }
                    return Err(Error::BadRepeat);
                }
                if n_copies > total - idx2 {
                    proof {
                        lemma_expand_err(d, pre, lcode, total as int, acc);
                    }
                    return Err(Error::BadRepeat);
                }
                let to_copy = lengths[idx2 - 1];
                let ghost start_idx = idx2 as int;
                let stop = idx2 + n_copies;
                proof {
                    assert(to_copy == acc.last());
                    lemma_expand_copy(d, pre, lcode, total as int, acc, nbits);
                }
                while idx2 < stop
                    invariant
                        d == old(bit_reader).spec_data(),
                        p_exp == old(bit_reader).spec_bitpos(),
                        bit_reader.wf(),
                        bit_reader.spec_data() == d,
                        bit_reader.spec_bitpos() >= p_exp,
                        lcode == lengths_coding.spec_pairs(),
                        alphabet_only(lengths_coding.spec_pairs()),
                        total <= 320,
                        start_idx <= idx2 <= stop <= total,
                        stop == start_idx + n_copies,
                        lengths@.len() == total,
                        to_copy <= 15,
                        forall|j: int| 0 <= j < total ==> lengths@[j] <= 15,
                        forall|j: int| idx2 <= j < total ==> lengths@[j] == 0,
                        lengths@.take(idx2 as int) =~= acc + Seq::new(
                            (idx2 - start_idx) as nat,
                            |q: int| to_copy,
                        ),
                        acc.len() == start_idx,
                    decreases stop - idx2,
                {
                    let ghost before = lengths@;
                    let ghost i0 = idx2 as int;
                    lengths.set(idx2, to_copy);
                    idx2 = idx2 + 1;
                    proof {
                        assert(lengths@ == before.update(i0, to_copy));
                        assert forall|t: int|
                            0 <= t < i0 + 1 implies #[trigger] lengths@.take(i0 + 1)[t] == (acc
                            + Seq::new((i0 + 1 - start_idx) as nat, |q: int| to_copy))[t] by {
                            if t < i0 {
                                assert(before.take(i0)[t] == (acc + Seq::new(
                                    (i0 - start_idx) as nat,
                                    |q: int| to_copy,
                                ))[t]);
                            }
                        }
                        assert(lengths@.take(idx2 as int) =~= acc + Seq::new(
                            (idx2 - start_idx) as nat,
                            |q: int| to_copy,
                        ));
                    }
                }
                proof {
                    assert(lengths@.take(idx2 as int) =~= acc + Seq::new(
                        n_copies as nat,
                        |q: int| acc.last(),
                    ));
                }
            },
            TreeCodeToken::RepeatZero { base, extra_bits } => {
                let extra = match bit_reader.read_bits(extra_bits) {
                    Ok(b) => b,
                    Err(e) => {
                        proof {
                            lemma_expand_err(d, pre, lcode, total as int, acc);
                        }
                        return Err(e);
                    },
                };
                proof {
                    lemma2_to64();
                }
                let n_zeros = base as usize + extra.bits() as usize;
                if n_zeros > total - idx2 {
                    proof {
                        lemma_expand_err(d, pre, lcode, total as int, acc);
                    }
                    return Err(Error::BadRepeat);
                }
                idx2 = idx2 + n_zeros;
                proof {
                    lemma_expand_zeros(
                        d,
                        pre,
                        lcode,
                        total as int,
                        acc,
                        base,
                        extra_bits,
                        nbits,
                    );
                    assert(lengths@.take(idx2 as int) =~= acc + Seq::new(
                        n_zeros as nat,
                        |q: int| 0u8,
                    ));
                }
            },
        }
    }
    proof {
        assert(lengths@.take(total as int) =~= lengths@);
        lemma_expand_done(d, bit_reader.spec_bitpos(), lcode, total as int, lengths@);
    }
    Ok(lengths)
}

/// Reads the dynamic-block code descriptions of RFC 1951,
/// section 3.2.7 and builds the literal/length and distance codes.
/// Succeeds exactly when the stored description is well-formed, and
/// then the codes are the ones the description names.
#[verifier::rlimit(100)]
pub fn decode_litlen_distance_trees(bit_reader: &mut BitReader) -> (r: Result<
    (HuffmanCoding<LitLenToken>, HuffmanCoding<DistanceToken>),
    Error,
>)
    requires
        old(bit_reader).wf(),
    ensures
        final(bit_reader).wf(),
        final(bit_reader).spec_data() == old(bit_reader).spec_data(),
        final(bit_reader).spec_bitpos() >= old(bit_reader).spec_bitpos(),
        ({
            let tables = spec_dynamic_tables(
                old(bit_reader).spec_data(),
                old(bit_reader).spec_bitpos(),
            );
            match r {
                Ok(codes) => tables == Ok::<
                    (Seq<(BitSequence, LitLenToken)>, Seq<(BitSequence, DistanceToken)>, int),
                    Error,
                >(
                    (
                        codes.0.spec_pairs(),
                        codes.1.spec_pairs(),
                        final(bit_reader).spec_bitpos(),
                    ),
                ),
                Err(e) => tables == Err::<
                    (Seq<(BitSequence, LitLenToken)>, Seq<(BitSequence, DistanceToken)>, int),
                    Error,
                >(e),
            }
        }),
{
    let ghost d = old(bit_reader).spec_data();
    let ghost p0 = old(bit_reader).spec_bitpos();

    // the three counts
    let hlit_bits = match bit_reader.read_bits(5) {
        Ok(b) => b,
        Err(e) => {
            return Err(e);
        },
    };
    let hdist_bits = match bit_reader.read_bits(5) {
        Ok(b) => b,
        Err(e) => {
            return Err(e);
        },
    };
    let hclen_bits = match bit_reader.read_bits(4) {
        Ok(b) => b,
        Err(e) => {
            return Err(e);
        },
    };
    proof {
        lemma2_to64();
    }
    let hlit = hlit_bits.bits() as usize + 257;
    let hdist = hdist_bits.bits() as usize + 1;
    let hclen = hclen_bits.bits() as usize + 4;
    proof {
        assert(hlit == bits_at(d, p0, 5) + 257);
        assert(hdist == bits_at(d, p0 + 5, 5) + 1);
        assert(hclen == bits_at(d, p0 + 10, 4) + 4);
    }
    let ghost p14 = p0 + 14;

    // the code lengths of the code-length alphabet, in storage order
    let mut code_lengths: Vec<u8> = Vec::new();
    let mut i: usize = 0;
    while i < 19
        invariant
            i <= 19,
            code_lengths@.len() == i,
            forall|j: int| 0 <= j < i ==> code_lengths@[j] == 0,
        decreases 19 - i,
    {
        code_lengths.push(0);
        i = i + 1;
    }
    proof {
        assert(code_lengths@ =~= spec_code_length_table(d, p14, 0));
    }
    let mut idx: usize = 0;
    while idx < hclen
        invariant
            d == old(bit_reader).spec_data(),
            p14 == old(bit_reader).spec_bitpos() + 14,
            p0 == old(bit_reader).spec_bitpos(),
            hclen == bits_at(d, p0 + 10, 4) + 4,
            bit_reader.wf(),
            bit_reader.spec_data() == d,
            bit_reader.spec_bitpos() == p14 + 3 * idx,
            p14 + 3 * hclen <= 8 * d.len() || idx < hclen,
            bit_reader.spec_bitpos() >= p0,
            hclen <= 19,
            idx <= hclen,
            code_lengths@.len() == 19,
            code_lengths@ == spec_code_length_table(d, p14, idx as int),
            forall|j: int| 0 <= j < 19 ==> code_lengths@[j] <= 16,
        decreases hclen - idx,
    {
        let bits = match bit_reader.read_bits(3) {
            Ok(b) => b,
            Err(e) => {
                proof {
                    assert(p14 + 3 * hclen > 8 * d.len());
                }
                return Err(e);
            },
        };
        let pos = len_code_order(idx);
        proof {
            lemma2_to64();
            assert(code_lengths@.update(pos as int, bits.spec_bits() as u8)
                == spec_code_length_table(d, p14, idx + 1));
        }
        code_lengths.set(pos, bits.bits() as u8);
        idx = idx + 1;
    }
    proof {
        assert(p14 + 3 * hclen <= 8 * d.len());
    }

    let lengths_coding = HuffmanCoding::<TreeCodeToken>::from_lengths(code_lengths.as_slice())?;
    proof {
        lemma_entries_alphabet_only::<TreeCodeToken>(code_lengths@, 19);
    }
    let ghost lcode = lengths_coding.spec_pairs();
    let ghost p_exp = p14 + 3 * hclen;

    // decode the combined literal/length and distance length vector
    let total = hlit + hdist;
    let lengths = match expand_lengths(bit_reader, &lengths_coding, total) {
        Ok(v) => v,
        Err(e) => {
            return Err(e);
        },
    };

    // split at the literal/length count and build both codes
    let mut lit_lengths: Vec<u8> = Vec::new();
    let mut k: usize = 0;
    while k < hlit
        invariant
            k <= hlit,
            hlit <= lengths@.len(),
            forall|j: int| 0 <= j < lengths@.len() ==> lengths@[j] <= 15,
            lit_lengths@ == lengths@.take(k as int),
        decreases hlit - k,
    {
        lit_lengths.push(lengths[k]);
        proof {
            assert(lengths@.take(k as int).push(lengths@[k as int]) =~= lengths@.take(k + 1));
        }
        k = k + 1;
    }
    let mut dist_lengths: Vec<u8> = Vec::new();
    let mut k2: usize = hlit;
    while k2 < total
        invariant
            hlit <= k2 <= total,
            total == lengths@.len(),
            forall|j: int| 0 <= j < lengths@.len() ==> lengths@[j] <= 15,
            dist_lengths@ == lengths@.subrange(hlit as int, k2 as int),
        decreases total - k2,
    {
        dist_lengths.push(lengths[k2]);
        proof {
            assert(lengths@.subrange(hlit as int, k2 as int).push(lengths@[k2 as int])
                =~= lengths@.subrange(hlit as int, k2 + 1));
        }
        k2 = k2 + 1;
    }
    let litlen = HuffmanCoding::<LitLenToken>::from_lengths(lit_lengths.as_slice())?;
    let dist = HuffmanCoding::<DistanceToken>::from_lengths(dist_lengths.as_slice())?;
    proof {
        assert(lit_lengths@ =~= lengths@.take(hlit as int));
        assert(dist_lengths@ =~= lengths@.skip(hlit as int));
        assert(spec_dynamic_tables(d, p0) == Ok::<
            (Seq<(BitSequence, LitLenToken)>, Seq<(BitSequence, DistanceToken)>, int),
            Error,
        >((litlen.spec_pairs(), dist.spec_pairs(), bit_reader.spec_bitpos())));
    }
    Ok((litlen, dist))
}


/// A symbol's codeword counter stays below the count of its length
/// class.
proof fn lemma_count_strict(lengths: Seq<u8>, i: int)
    requires
        0 <= i < lengths.len(),
    ensures
        count_len(lengths, lengths[i] as nat, i) < count_len(
            lengths,
            lengths[i] as nat,
            lengths.len() as int,
        ),
{
    lemma_count_len_mono(lengths, lengths[i] as nat, i + 1, lengths.len() as int);
}

/// The first codeword of a longer length class sits beyond every
/// codeword of a shorter one, scaled up to the longer length.
proof fn lemma_first_code_growth(lengths: Seq<u8>, l1: nat, l2: nat)
    requires
        1 <= l1 < l2,
    ensures
        first_code(lengths, l2) >= pow2((l2 - l1) as nat) * (first_code(lengths, l1)
            + count_len(lengths, l1, lengths.len() as int)),
    decreases l2 - l1,
{
    let full = count_len(lengths, l1, lengths.len() as int);
    if l2 == l1 + 1 {
        lemma2_to64();
        assert(first_code(lengths, l2) == (first_code(lengths, l1) + full) * 2);
        assert(pow2(1) * (first_code(lengths, l1) + full) == 2 * (first_code(lengths, l1)
            + full)) by (nonlinear_arith)
            requires pow2(1) == 2,
        ;
    } else {
        lemma_first_code_growth(lengths, l1, (l2 - 1) as nat);
        let prev = first_code(lengths, (l2 - 1) as nat);
        let scale = pow2((l2 - 1 - l1) as nat);
        let base = first_code(lengths, l1) + full;
        assert(first_code(lengths, l2) == (prev + count_len(
            lengths,
            (l2 - 1) as nat,
            lengths.len() as int,
        )) * 2);
        assert(first_code(lengths, l2) >= 2 * prev);
        assert(2 * prev >= 2 * (scale * base)) by (nonlinear_arith)
            requires prev >= scale * base,
        ;
        vstd::arithmetic::power2::lemma_pow2_adds(1, (l2 - 1 - l1) as nat);
        lemma2_to64();
        assert(2 * (scale * base) == (2 * scale) * base) by (nonlinear_arith);
        assert(pow2((l2 - l1) as nat) == 2 * scale);
    }
}

/// A codeword of a shorter length is never a prefix of a longer
/// codeword: the longer one, cut to the shorter length, is strictly
/// larger.
proof fn lemma_prefix_free(lengths: Seq<u8>, i: int, j: int)
    requires
        forall|t: int| 0 <= t < lengths.len() ==> lengths[t] <= 16,
        codes_fit(lengths),
        0 <= i < lengths.len(),
        0 <= j < lengths.len(),
        lengths[i] != 0,
        lengths[j] != 0,
        (lengths[j] as nat) < (lengths[i] as nat),
    ensures
        code_of(lengths, i) / pow2((lengths[i] - lengths[j]) as nat) > code_of(lengths, j),
{
    let li = lengths[i] as nat;
    let lj = lengths[j] as nat;
    let delta = (li - lj) as nat;
    let raw_i = first_code(lengths, li) + count_len(lengths, li, i);
    let raw_j = first_code(lengths, lj) + count_len(lengths, lj, j);
    lemma_count_strict(lengths, j);
    lemma_count_len_mono(lengths, li, 0, i);
    lemma_first_code_growth(lengths, lj, li);
    assert(raw_i >= first_code(lengths, li));
    assert(first_code(lengths, li) >= pow2(delta) * (raw_j + 1)) by {
        assert(first_code(lengths, lj) + count_len(lengths, lj, lengths.len() as int)
            >= raw_j + 1);
        assert(pow2(delta) * (first_code(lengths, lj) + count_len(
            lengths,
            lj,
            lengths.len() as int,
        )) >= pow2(delta) * (raw_j + 1)) by (nonlinear_arith)
            requires
                first_code(lengths, lj) + count_len(lengths, lj, lengths.len() as int) >= raw_j
                    + 1,
                pow2(delta) >= 0,
        ;
    }
    vstd::arithmetic::power2::lemma_pow2_pos(delta);
    assert(raw_i / pow2(delta) >= raw_j + 1) by {
        vstd::arithmetic::div_mod::lemma_div_multiples_vanish(
            (raw_j + 1) as int,
            pow2(delta) as int,
        );
        vstd::arithmetic::div_mod::lemma_div_is_ordered(
            (pow2(delta) * (raw_j + 1)) as int,
            raw_i as int,
            pow2(delta) as int,
        );
        assert((pow2(delta) * (raw_j + 1)) as int == (pow2(delta) as int) * ((raw_j
            + 1) as int));
    }
    // the truncated codewords equal the raw ones under `codes_fit`
    lemma_pow2_le_u16_bound(li);
    lemma_pow2_le_u16_bound(lj);
    vstd::arithmetic::div_mod::lemma_small_mod(raw_i, pow2(li));
    vstd::arithmetic::div_mod::lemma_small_mod(raw_j, pow2(lj));
}

/// A codeword the table maps comes from some symbol, with its
/// canonical codeword and length.
proof fn lemma_assoc_entry_key<T: CodeSymbol>(
    lengths: Seq<u8>,
    upto: int,
    key: BitSequence,
    t: T,
)
    requires
        assoc(canonical_entries::<T>(lengths, upto), key) == Some(t),
    ensures
        exists|j: int|
            {
                &&& 0 <= j < upto
                &&& (#[trigger] lengths[j]) != 0
                &&& key == BitSequence::spec_make(code_of(lengths, j), lengths[j] as nat)
            },
    decreases upto,
{
    if upto > 0 {
        let rest = canonical_entries::<T>(lengths, upto - 1);
        if lengths[upto - 1] != 0 {
            match T::spec_from((upto - 1) as u16) {
                Some(tok) => {
                    let e = (
                        BitSequence::spec_make(
                            code_of(lengths, upto - 1),
                            lengths[upto - 1] as nat,
                        ),
                        tok,
                    );
                    assert(rest.push(e).drop_last() =~= rest);
                    if key == e.0 {
                        assert(0 <= upto - 1 < upto && lengths[upto - 1] != 0 && key
                            == BitSequence::spec_make(
                            code_of(lengths, upto - 1),
                            lengths[upto - 1] as nat,
                        ));
                    } else {
                        lemma_assoc_entry_key::<T>(lengths, upto - 1, key, t);
                    }
                },
                None => {
                    lemma_assoc_entry_key::<T>(lengths, upto - 1, key, t);
                },
            }
        } else {
            lemma_assoc_entry_key::<T>(lengths, upto - 1, key, t);
        }
    }
}

/// The first `n` bits of a longer most-significant-first run are its
/// value shifted down.
proof fn lemma_msb_bits_prefix(d: Seq<u8>, p: int, n: nat, big: nat)
    requires
        n <= big,
    ensures
        msb_bits(d, p, n) == msb_bits(d, p, big) / pow2((big - n) as nat),
    decreases big - n,
{
    if big == n {
        lemma2_to64();
        assert(msb_bits(d, p, big) / pow2(0) == msb_bits(d, p, big)) by {
            assert(pow2(0) == 1);
            assert(msb_bits(d, p, big) / 1 == msb_bits(d, p, big)) by (nonlinear_arith);
        }
    } else {
        lemma_msb_bits_prefix(d, p, n, (big - 1) as nat);
        let a = msb_bits(d, p, (big - 1) as nat);
        let b = stream_bit(d, p + big - 1);
        assert(msb_bits(d, p, big) == 2 * a + b);
        assert(b < 2);
        assert((2 * a + b) / 2 == a) by {
            vstd::arithmetic::div_mod::lemma_fundamental_div_mod_converse_div(
                (2 * a + b) as int,
                2,
                a as int,
                b as int,
            );
        }
        lemma2_to64();
        vstd::arithmetic::power2::lemma_pow2_adds(1, (big - 1 - n) as nat);
        vstd::arithmetic::power2::lemma_pow2_pos((big - 1 - n) as nat);
        assert(msb_bits(d, p, big) / pow2((big - n) as nat) == ((2 * a + b) / 2) / pow2(
            (big - 1 - n) as nat,
        )) by {
            vstd::arithmetic::div_mod::lemma_div_denominator(
                (2 * a + b) as int,
                2,
                pow2((big - 1 - n) as nat) as int,
            );
        }
    }
}

/// Item of the stated properties: when the stream holds the canonical
/// codeword of a symbol of non-zero length, reading a symbol finds
/// exactly that symbol, consumes exactly its codeword's bits, and no
/// shorter codeword matches first. The requirement that the raw
/// codewords fit their bit lengths holds of every length vector that
/// satisfies Kraft's inequality.
pub proof fn lemma_canonical_read_symbol<T: CodeSymbol>(
    lengths: Seq<u8>,
    s: int,
    d: Seq<u8>,
    p: int,
)
    requires
        lengths.len() <= 0x10000,
        forall|t: int| 0 <= t < lengths.len() ==> lengths[t] <= 16,
        codes_fit(lengths),
        0 <= s < lengths.len(),
        lengths[s] != 0,
        T::spec_from(s as u16) is Some,
        msb_bits(d, p, lengths[s] as nat) == code_of(lengths, s),
    ensures
        spec_find_symbol(
            canonical_entries::<T>(lengths, lengths.len() as int),
            d,
            p,
            1,
        ) == Some((T::spec_from(s as u16)->0, lengths[s] as nat)),
{
    lemma_canonical_find_from::<T>(lengths, s, d, p, 1);
}

/// The search from length `n` on finds the symbol whose codeword the
/// stream holds.
proof fn lemma_canonical_find_from<T: CodeSymbol>(
    lengths: Seq<u8>,
    s: int,
    d: Seq<u8>,
    p: int,
    n: nat,
)
    requires
        lengths.len() <= 0x10000,
        forall|t: int| 0 <= t < lengths.len() ==> lengths[t] <= 16,
        codes_fit(lengths),
        0 <= s < lengths.len(),
        lengths[s] != 0,
        T::spec_from(s as u16) is Some,
        msb_bits(d, p, lengths[s] as nat) == code_of(lengths, s),
        1 <= n <= lengths[s] as nat,
    ensures
        spec_find_symbol(
            canonical_entries::<T>(lengths, lengths.len() as int),
            d,
            p,
            n,
        ) == Some((T::spec_from(s as u16)->0, lengths[s] as nat)),
    decreases lengths[s] as nat - n,
{
    let ls = lengths[s] as nat;
    let pairs = canonical_entries::<T>(lengths, lengths.len() as int);
    let key_n = BitSequence::spec_make(msb_bits(d, p, n), n);
    lemma_msb_bits_prefix(d, p, n, ls);
    crate::bit_reader::lemma_msb_bits_bound(d, p, n);
    lemma_pow2_le_u16_bound(n);
    BitSequence::lemma_spec_make(msb_bits(d, p, n), n);
    if n == ls {
        lemma_canonical_code_decodes::<T>(lengths, s, lengths.len() as int);
        assert(key_n == BitSequence::spec_make(code_of(lengths, s), ls));
        assert(assoc(pairs, key_n) == T::spec_from(s as u16));
    } else {
        assert(assoc(pairs, key_n) is None) by {
            match assoc(pairs, key_n) {
                Some(t) => {
                    lemma_assoc_entry_key::<T>(
                        lengths,
                        lengths.len() as int,
                        key_n,
                        t,
                    );
                    let j = choose|j: int|
                        {
                            &&& 0 <= j < lengths.len()
                            &&& (#[trigger] lengths[j]) != 0
                            &&& key_n == BitSequence::spec_make(
                                code_of(lengths, j),
                                lengths[j] as nat,
                            )
                        };
                    lemma_pow2_le_u16_bound(lengths[j] as nat);
                    vstd::arithmetic::power2::lemma_pow2_pos(lengths[j] as nat);
                    vstd::arithmetic::div_mod::lemma_mod_division_less_than_divisor(
                        (first_code(lengths, lengths[j] as nat) + count_len(
                            lengths,
                            lengths[j] as nat,
                            j,
                        )) as int,
                        pow2(lengths[j] as nat) as int,
                    );
                    BitSequence::lemma_spec_make(code_of(lengths, j), lengths[j] as nat);
                    assert(lengths[j] as nat == n);
                    assert(code_of(lengths, j) == msb_bits(d, p, n));
                    lemma_prefix_free(lengths, s, j);
                    lemma_pow2_le_u16_bound(ls);
                    vstd::arithmetic::div_mod::lemma_mod_division_less_than_divisor(
                        (first_code(lengths, ls) + count_len(lengths, ls, s)) as int,
                        pow2(ls) as int,
                    );
                    assert(false);
                },
                None => {},
            }
        }
        lemma_canonical_find_from::<T>(lengths, s, d, p, n + 1);
    }
}

} // verus!
