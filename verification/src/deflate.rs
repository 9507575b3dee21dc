use vstd::prelude::*;
use vstd::arithmetic::power2::{pow2, lemma2_to64, lemma_pow2_strictly_increases};
use crate::bit_reader::{BitReader, BitSequence, bits_at};
use crate::huffman_coding::{
    HuffmanCoding, LitLenToken, DistanceToken, alphabet_only, canonical_entries,
    decode_litlen_distance_trees, static_litlen_distance_trees, lemma_entries_alphabet_only,
    lemma_find_symbol_assoc, lemma_find_symbol_min, lemma_litlen_token_bounds,
    lemma_distance_token_bounds, static_litlen_lengths, static_distance_lengths,
    spec_find_symbol, spec_dynamic_tables, spec_code_length_table, spec_expand_lengths,
    TreeCodeToken,
};
use crate::tracking_writer::{TrackingWriter, back_ref_bytes};
use crate::Error;

verus! {

/// The three-bit header of a DEFLATE block.
#[derive(Debug)]
pub struct BlockHeader {
    pub is_final: bool,
    pub compression_type: CompressionType,
}

/// The two-bit block type of a DEFLATE block.
#[derive(Clone, Copy, Debug, PartialEq, Eq, Structural)]
pub enum CompressionType {
    Uncompressed,
    FixedTree,
    DynamicTree,
    Reserved,
}

impl CompressionType {
    /// The block type a two-bit field names.
    pub open spec fn spec_from_bits(value: nat) -> CompressionType {
        if value == 0 {
            CompressionType::Uncompressed
        } else if value == 1 {
            CompressionType::FixedTree
        } else if value == 2 {
            CompressionType::DynamicTree
        } else {
            CompressionType::Reserved
        }
    }

    /// Reads the block type out of its two-bit field.
    pub fn try_from(value: u16) -> (r: Result<Self, Error>)
        ensures
            value <= 3 ==> r == Ok::<CompressionType, Error>(
                Self::spec_from_bits(value as nat),
            ),
            value > 3 ==> r == Err::<CompressionType, Error>(Error::UnsupportedBlockType),
    {
        if value == 0 {
            Ok(CompressionType::Uncompressed)
        } else if value == 1 {
            Ok(CompressionType::FixedTree)
        } else if value == 2 {
            Ok(CompressionType::DynamicTree)
        } else if value == 3 {
            Ok(CompressionType::Reserved)
        } else {
            Err(Error::UnsupportedBlockType)
        }
    }
}


/// The result of decoding one compressed block's symbol run: the
/// member output after the end-of-block symbol and the bit position
/// just past it, or the kind of the first failure. `out` is the
/// member output so far — the window that back-references copy from.
pub open spec fn spec_inflate_symbols(
    data: Seq<u8>,
    p: int,
    litlen: Seq<(BitSequence, LitLenToken)>,
    dist: Seq<(BitSequence, DistanceToken)>,
    out: Seq<u8>,
) -> Result<(Seq<u8>, int), Error>
    decreases 8 * data.len() - p,
{
    if p < 0 || p > 8 * data.len() {
        Err(Error::UnexpectedEof)
    } else {
        match spec_find_symbol(litlen, data, p, 1) {
            None => if p + 16 <= 8 * data.len() {
                Err(Error::BadHuffmanCode)
            } else {
                Err(Error::UnexpectedEof)
            },
            Some((t, n)) => {
                let p1 = p + n;
                if n < 1 || p1 > 8 * data.len() {
                    Err(Error::UnexpectedEof)
                } else {
                    match t {
                        LitLenToken::EndOfBlock => Ok((out, p1)),
                        LitLenToken::Literal(b) => spec_inflate_symbols(
                            data,
                            p1,
                            litlen,
                            dist,
                            out.push(b),
                        ),
                        LitLenToken::Length { base, extra_bits } => {
                            let run = base + bits_at(data, p1, extra_bits as nat);
                            let p2 = p1 + extra_bits;
                            if p2 > 8 * data.len() {
                                Err(Error::UnexpectedEof)
                            } else {
                                match spec_find_symbol(dist, data, p2, 1) {
                                    None => if p2 + 16 <= 8 * data.len() {
                                        Err(Error::BadHuffmanCode)
                                    } else {
                                        Err(Error::UnexpectedEof)
                                    },
                                    Some((dt, m)) => {
                                        let p3 = p2 + m;
                                        if m < 1 || p3 > 8 * data.len() {
                                            Err(Error::UnexpectedEof)
                                        } else {
                                            let dd = dt.base + bits_at(
                                                data,
                                                p3,
                                                dt.extra_bits as nat,
                                            );
                                            let p4 = p3 + dt.extra_bits;
                                            if p4 > 8 * data.len() {
                                                Err(Error::UnexpectedEof)
                                            } else if dd == 0 || dd > 32768 {
                                                Err(Error::BadDistance)
                                            } else if dd > out.len() {
                                                Err(Error::DistanceExceedsWritten)
                                            } else {
                                                spec_inflate_symbols(
                                                    data,
                                                    p4,
                                                    litlen,
                                                    dist,
                                                    out + back_ref_bytes(
                                                        out.skip(out.len() - dd),
                                                        run as nat,
                                                    ),
                                                )
                                            }
                                        }
                                    },
                                }
                            }
                        },
                    }
                }
            },
        }
    }
}

/// A stored block whose three header bits end at bit position `p`:
/// skip to the next byte boundary, check the one's-complement length
/// pair, and pass the bytes through; or the kind of the first failure.
pub open spec fn spec_stored_block(data: Seq<u8>, p: int, out: Seq<u8>) -> Result<
    (Seq<u8>, int),
    Error,
> {
    if p < 0 {
        Err(Error::UnexpectedEof)
    } else {
        let b = (p + 7) / 8;
        if b + 4 > data.len() {
            Err(Error::UnexpectedEof)
        } else {
            let blen = data[b] as int + 0x100 * (data[b + 1] as int);
            let nlen = data[b + 2] as int + 0x100 * (data[b + 3] as int);
            if nlen != 0xffff - blen {
                Err(Error::StoredLengthMismatch)
            } else if b + 4 + blen > data.len() {
                Err(Error::UnexpectedEof)
            } else {
                Ok((out + data.subrange(b + 4, b + 4 + blen), 8 * (b + 4 + blen)))
            }
        }
    }
}

/// The numeric code of a block type.
pub open spec fn spec_type_code(t: CompressionType) -> nat {
    match t {
        CompressionType::Uncompressed => 0,
        CompressionType::FixedTree => 1,
        CompressionType::DynamicTree => 2,
        CompressionType::Reserved => 3,
    }
}

/// The body of one block of the given two-bit type, starting at bit
/// position `p`; the reserved type is refused.
pub open spec fn spec_block_body(data: Seq<u8>, p: int, ty: nat, out: Seq<u8>) -> Result<
    (Seq<u8>, int),
    Error,
> {
    if ty == 0 {
        spec_stored_block(data, p, out)
    } else if ty == 1 {
        spec_inflate_symbols(
            data,
            p,
            canonical_entries::<LitLenToken>(static_litlen_lengths(), 288),
            canonical_entries::<DistanceToken>(static_distance_lengths(), 32),
            out,
        )
    } else if ty == 2 {
        match spec_dynamic_tables(data, p) {
            Err(e) => Err(e),
            Ok((ll, dd, p2)) => spec_inflate_symbols(data, p2, ll, dd, out),
        }
    } else {
        Err(Error::UnsupportedBlockType)
    }
}

/// One whole block: the final-block bit and the two-bit type, then
/// the body.
pub open spec fn spec_block(data: Seq<u8>, p: int, out: Seq<u8>) -> Result<
    (Seq<u8>, int, bool),
    Error,
> {
    if p < 0 || p + 3 > 8 * data.len() {
        Err(Error::UnexpectedEof)
    } else {
        match spec_block_body(data, p + 3, bits_at(data, p + 1, 2), out) {
            Err(e) => Err(e),
            Ok((out2, p2)) => Ok((out2, p2, bits_at(data, p, 1) == 1)),
        }
    }
}

/// Blocks until one marked final, under a recursion budget. Every
/// block consumes at least its three header bits, so a budget beyond
/// the input's bit count never runs out first.
pub open spec fn spec_blocks(data: Seq<u8>, p: int, out: Seq<u8>, fuel: nat) -> Result<
    (Seq<u8>, int),
    Error,
>
    decreases fuel,
{
    if fuel == 0 {
        Err(Error::UnexpectedEof)
    } else {
        match spec_block(data, p, out) {
            Err(e) => Err(e),
            Ok((out2, p2, fin)) => if fin {
                Ok((out2, p2))
            } else {
                spec_blocks(data, p2, out2, (fuel - 1) as nat)
            },
        }
    }
}

/// A whole DEFLATE member payload starting at bit position `p`: the
/// appended member bytes and the bit position just after the final
/// block, or the kind of the first failure.
pub open spec fn spec_deflate_payload(data: Seq<u8>, p: int, out: Seq<u8>) -> Result<
    (Seq<u8>, int),
    Error,
> {
    spec_blocks(data, p, out, (8 * data.len() + 8) as nat)
}

/// Decodes the DEFLATE blocks of one member/// Decodes the DEFLATE blocks of one member, emitting the decompressed
/// bytes into the tracking writer.
pub struct DeflateReader {
    bit_reader: BitReader,
    tracking_writer: TrackingWriter,
}

impl DeflateReader {
    /// The bit-level input.
    pub closed spec fn spec_reader(self) -> BitReader {
        self.bit_reader
    }

    /// The output writer.
    pub closed spec fn spec_writer(self) -> TrackingWriter {
        self.tracking_writer
    }

    /// Both halves are in their ordinary states.
    pub open spec fn wf(self) -> bool {
        self.spec_reader().wf() && self.spec_writer().wf()
    }

    /// Pairs a bit reader with a tracking writer.
    pub fn new(bit_reader: BitReader, tracking_writer: TrackingWriter) -> (r: Self)
        requires
            bit_reader.wf(),
            tracking_writer.wf(),
        ensures
            r.wf(),
            r.spec_reader() == bit_reader,
            r.spec_writer() == tracking_writer,
    {
        DeflateReader { bit_reader, tracking_writer }
    }

    /// Reads one block header: the final-block bit, then the type.
    fn read_block_header(&mut self) -> (r: Result<BlockHeader, Error>)
        requires
            old(self).wf(),
        ensures
            final(self).wf(),
            final(self).spec_reader().spec_data() == old(self).spec_reader().spec_data(),
            final(self).spec_writer() == old(self).spec_writer(),
            final(self).spec_reader().spec_bitpos() >= old(self).spec_reader().spec_bitpos(),
            match r {
                Ok(h) => {
                    let d = old(self).spec_reader().spec_data();
                    let p = old(self).spec_reader().spec_bitpos();
                    &&& final(self).spec_reader().spec_bitpos() == p + 3
                    &&& h.is_final == (bits_at(d, p, 1) == 1)
                    &&& h.compression_type == CompressionType::spec_from_bits(
                        bits_at(d, p + 1, 2),
                    )
                },
                Err(e) => e == Error::UnexpectedEof && old(self).spec_reader().spec_bitpos() + 3
                    > 8 * old(self).spec_reader().spec_data().len(),
            },
    {
        let fin = self.bit_reader.read_bits(1)?;
        let ty = self.bit_reader.read_bits(2)?;
        proof {
            lemma2_to64();
        }
        let compression_type = match CompressionType::try_from(ty.bits()) {
            Ok(t) => t,
            Err(e) => {
                // two bits never name a value above three
                proof {
                    assert(ty.spec_bits() < pow2(2));
                    assert(false);
                }
                vstd::pervasive::unreached()
            },
        };
        Ok(BlockHeader { is_final: fin.bits() != 0, compression_type })
    }

    /// Reads a stored block: realigns to the byte boundary, checks the
    /// one's-complement length pair, and passes the bytes through.
    fn read_uncompressed_block(&mut self) -> (r: Result<(), Error>)
        requires
            old(self).wf(),
        ensures
            final(self).wf(),
            final(self).spec_reader().spec_data() == old(self).spec_reader().spec_data(),
            final(self).spec_reader().spec_bitpos() >= old(self).spec_reader().spec_bitpos(),
            ({
                let d = old(self).spec_reader().spec_data();
                let q = old(self).spec_reader().spec_stream().spec_pos() as int;
                let blen = d[q] + 0x100 * d[q + 1];
                let nlen = d[q + 2] + 0x100 * d[q + 3];
                match r {
                    Ok(()) => {
                        &&& q + 4 + blen <= d.len()
                        &&& nlen == 0xffff - blen
                        &&& final(self).spec_writer().spec_written() == old(
                            self,
                        ).spec_writer().spec_written() + d.subrange(q + 4, q + 4 + blen)
                        &&& final(self).spec_reader().spec_bitpos() == 8 * (q + 4 + blen)
                    },
                    Err(e) => {
                        &&& final(self).spec_writer().spec_written() == old(
                            self,
                        ).spec_writer().spec_written()
                        &&& (e == Error::UnexpectedEof || (e == Error::StoredLengthMismatch
                            && q + 4 <= d.len() && nlen != 0xffff - blen))
                    },
                }
            }),
            ({
                let run = spec_stored_block(
                    old(self).spec_reader().spec_data(),
                    old(self).spec_reader().spec_bitpos(),
                    old(self).spec_writer().spec_written(),
                );
                match r {
                    Ok(()) => run == Ok::<(Seq<u8>, int), Error>(
                        (
                            final(self).spec_writer().spec_written(),
                            final(self).spec_reader().spec_bitpos(),
                        ),
                    ),
                    Err(e) => run == Err::<(Seq<u8>, int), Error>(e),
                }
            }),
    {
        proof {
            // the byte after the header bits is the aligned boundary
            let p0 = old(self).spec_reader().spec_bitpos();
            let q0 = old(self).spec_reader().spec_stream().spec_pos() as int;
            let llen = old(self).spec_reader().spec_leftover().spec_len() as int;
            vstd::arithmetic::div_mod::lemma_fundamental_div_mod_converse_div(
                p0 + 7,
                8,
                q0,
                7 - llen,
            );
        }
        let reader = self.bit_reader.borrow_reader_from_boundary();
        let blen = reader.read_u16_le()?;
        let nlen = reader.read_u16_le()?;
        if blen != !nlen {
            proof {
                assert(!nlen == 0xffffu16 - nlen) by (bit_vector);
            }
            return Err(Error::StoredLengthMismatch);
        }
        proof {
            assert(!nlen == 0xffffu16 - nlen) by (bit_vector);
        }
        let buf = match reader.read_exact(blen as usize) {
            Ok(v) => v,
            Err(e) => {
                return Err(e);
            },
        };
        self.tracking_writer.write(buf.as_slice());
        Ok(())
    }

    /// Runs the shared compressed-block loop: literals pass through,
    /// and each length/distance pair copies bytes from the window,
    /// until the end-of-block symbol.
    fn read_compressed_block(
        &mut self,
        litlen: &HuffmanCoding<LitLenToken>,
        dist: &HuffmanCoding<DistanceToken>,
    ) -> (r: Result<(), Error>)
        requires
            old(self).wf(),
            alphabet_only(litlen.spec_pairs()),
            alphabet_only(dist.spec_pairs()),
        ensures
            final(self).wf(),
            final(self).spec_reader().spec_data() == old(self).spec_reader().spec_data(),
            final(self).spec_reader().spec_bitpos() >= old(self).spec_reader().spec_bitpos(),
            old(self).spec_writer().spec_written().is_prefix_of(
                final(self).spec_writer().spec_written(),
            ),
            ({
                let run = spec_inflate_symbols(
                    old(self).spec_reader().spec_data(),
                    old(self).spec_reader().spec_bitpos(),
                    litlen.spec_pairs(),
                    dist.spec_pairs(),
                    old(self).spec_writer().spec_written(),
                );
                match r {
                    Ok(()) => run == Ok::<(Seq<u8>, int), Error>(
                        (
                            final(self).spec_writer().spec_written(),
                            final(self).spec_reader().spec_bitpos(),
                        ),
                    ),
                    Err(e) => run == Err::<(Seq<u8>, int), Error>(e),
                }
            }),
    {
        let ghost d = old(self).spec_reader().spec_data();
        let ghost ll = litlen.spec_pairs();
        let ghost dd = dist.spec_pairs();
        proof {
            lemma_prefix_refl(old(self).spec_writer().spec_written());
        }
        loop
            invariant
                self.wf(),
                self.spec_reader().spec_data() == d,
                d == old(self).spec_reader().spec_data(),
                ll == litlen.spec_pairs(),
                dd == dist.spec_pairs(),
                self.spec_reader().spec_bitpos() >= old(self).spec_reader().spec_bitpos(),
                alphabet_only(litlen.spec_pairs()),
                alphabet_only(dist.spec_pairs()),
                old(self).spec_writer().spec_written().is_prefix_of(
                    self.spec_writer().spec_written(),
                ),
                spec_inflate_symbols(
                    d,
                    old(self).spec_reader().spec_bitpos(),
                    ll,
                    dd,
                    old(self).spec_writer().spec_written(),
                ) == spec_inflate_symbols(
                    d,
                    self.spec_reader().spec_bitpos(),
                    ll,
                    dd,
                    self.spec_writer().spec_written(),
                ),
            decreases 8 * d.len() - self.spec_reader().spec_bitpos(),
        {
            let ghost p = self.spec_reader().spec_bitpos();
            let ghost w = self.spec_writer().spec_written();
            proof {
                lemma_find_symbol_min(litlen.spec_pairs(), d, p, 1);
            }
            let token = match litlen.read_symbol(&mut self.bit_reader) {
                Ok(t) => t,
                Err(e) => {
                    proof {
                        assert(spec_inflate_symbols(d, p, ll, dd, w) == Err::<
                            (Seq<u8>, int),
                            Error,
                        >(e));
                    }
                    return Err(e);
                },
            };
            proof {
                lemma_find_symbol_assoc(litlen.spec_pairs(), d, p, 1);
                lemma_litlen_token_bounds(token);
            }
            match token {
                LitLenToken::Literal(value) => {
                    let ghost w_prev = self.spec_writer().spec_written();
                    self.tracking_writer.write_u8(value);
                    proof {
                        lemma_prefix_snoc(old(self).spec_writer().spec_written(), w_prev, value);
                        assert(spec_inflate_symbols(d, p, ll, dd, w) == spec_inflate_symbols(
                            d,
                            self.spec_reader().spec_bitpos(),
                            ll,
                            dd,
                            self.spec_writer().spec_written(),
                        ));
                    }
                },
                LitLenToken::EndOfBlock => {
                    proof {
                        assert(spec_inflate_symbols(d, p, ll, dd, w) == Ok::<
                            (Seq<u8>, int),
                            Error,
                        >((w, self.spec_reader().spec_bitpos())));
                    }
                    return Ok(());
                },
                LitLenToken::Length { base: len_base, extra_bits: len_extra } => {
                    let ghost p1 = self.spec_reader().spec_bitpos();
                    let extra = match self.bit_reader.read_bits(len_extra) {
                        Ok(b) => b,
                        Err(e) => {
                            proof {
                                assert(spec_inflate_symbols(d, p, ll, dd, w) == Err::<
                                    (Seq<u8>, int),
                                    Error,
                                >(e));
                            }
                            return Err(e);
                        },
                    };
                    proof {
                        lemma2_to64();
                        lemma_pow2_increases_16(len_extra as nat, 5);
                    }
                    let len = len_base + extra.bits();
                    let ghost p2 = self.spec_reader().spec_bitpos();
                    proof {
                        lemma_find_symbol_min(dist.spec_pairs(), d, p2, 1);
                    }
                    let dist_token = match dist.read_symbol(&mut self.bit_reader) {
                        Ok(t) => t,
                        Err(e) => {
                            proof {
                                assert(spec_inflate_symbols(d, p, ll, dd, w) == Err::<
                                    (Seq<u8>, int),
                                    Error,
                                >(e));
                            }
                            return Err(e);
                        },
                    };
                    proof {
                        lemma_find_symbol_assoc(dist.spec_pairs(), d, p2, 1);
                        lemma_distance_token_bounds(dist_token);
                    }
                    let ghost p3 = self.spec_reader().spec_bitpos();
                    let extra2 = match self.bit_reader.read_bits(dist_token.extra_bits) {
                        Ok(b) => b,
                        Err(e) => {
                            proof {
                                assert(spec_inflate_symbols(d, p, ll, dd, w) == Err::<
                                    (Seq<u8>, int),
                                    Error,
                                >(e));
                            }
                            return Err(e);
                        },
                    };
                    proof {
                        lemma2_to64();
                        lemma_pow2_increases_16(dist_token.extra_bits as nat, 13);
                    }
                    let distance = dist_token.base + extra2.bits();
                    let ghost w_prev = self.spec_writer().spec_written();
                    match self.tracking_writer.write_previous(distance as usize, len as usize) {
                        Ok(()) => {
                            proof {
                                lemma_prefix_concat(
                                    old(self).spec_writer().spec_written(),
                                    w_prev,
                                    self.spec_writer().spec_written().skip(w_prev.len() as int),
                                );
                                assert(w_prev + self.spec_writer().spec_written().skip(
                                    w_prev.len() as int,
                                ) =~= self.spec_writer().spec_written());
                                assert(spec_inflate_symbols(d, p, ll, dd, w)
                                    == spec_inflate_symbols(
                                    d,
                                    self.spec_reader().spec_bitpos(),
                                    ll,
                                    dd,
                                    self.spec_writer().spec_written(),
                                ));
                            }
                        },
                        Err(e) => {
                            proof {
                                assert(spec_inflate_symbols(d, p, ll, dd, w) == Err::<
                                    (Seq<u8>, int),
                                    Error,
                                >(e));
                            }
                            return Err(e);
                        },
                    }
                },
            }
        }
    }

    /// Reads a block compressed with the fixed codes.
    fn read_fixed_tree_block(&mut self) -> (r: Result<(), Error>)
        requires
            old(self).wf(),
        ensures
            final(self).wf(),
            final(self).spec_reader().spec_data() == old(self).spec_reader().spec_data(),
            final(self).spec_reader().spec_bitpos() >= old(self).spec_reader().spec_bitpos(),
            old(self).spec_writer().spec_written().is_prefix_of(
                final(self).spec_writer().spec_written(),
            ),
            ({
                let run = spec_block_body(
                    old(self).spec_reader().spec_data(),
                    old(self).spec_reader().spec_bitpos(),
                    1,
                    old(self).spec_writer().spec_written(),
                );
                match r {
                    Ok(()) => run == Ok::<(Seq<u8>, int), Error>(
                        (
                            final(self).spec_writer().spec_written(),
                            final(self).spec_reader().spec_bitpos(),
                        ),
                    ),
                    Err(e) => run == Err::<(Seq<u8>, int), Error>(e),
                }
            }),
    {
        let (litlen, dist) = static_litlen_distance_trees()?;
        proof {
            lemma_entries_alphabet_only::<LitLenToken>(static_litlen_lengths(), 288);
            lemma_entries_alphabet_only::<DistanceToken>(static_distance_lengths(), 32);
        }
        self.read_compressed_block(&litlen, &dist)
    }

    /// Reads a block compressed with codes described in the block
    /// itself.
    fn read_dynamic_tree_block(&mut self) -> (r: Result<(), Error>)
        requires
            old(self).wf(),
        ensures
            final(self).wf(),
            final(self).spec_reader().spec_data() == old(self).spec_reader().spec_data(),
            final(self).spec_reader().spec_bitpos() >= old(self).spec_reader().spec_bitpos(),
            old(self).spec_writer().spec_written().is_prefix_of(
                final(self).spec_writer().spec_written(),
            ),
            ({
                let run = spec_block_body(
                    old(self).spec_reader().spec_data(),
                    old(self).spec_reader().spec_bitpos(),
                    2,
                    old(self).spec_writer().spec_written(),
                );
                match r {
                    Ok(()) => run == Ok::<(Seq<u8>, int), Error>(
                        (
                            final(self).spec_writer().spec_written(),
                            final(self).spec_reader().spec_bitpos(),
                        ),
                    ),
                    Err(e) => run == Err::<(Seq<u8>, int), Error>(e),
                }
            }),
    {
        let ghost d = old(self).spec_reader().spec_data();
        let ghost p0 = old(self).spec_reader().spec_bitpos();
        let (litlen, dist) = match decode_litlen_distance_trees(&mut self.bit_reader) {
            Ok(codes) => codes,
            Err(e) => {
                return Err(e);
            },
        };
        proof {
            // the tables are the canonical codes of the decoded length
            // vector; every symbol they map to is in its alphabet
            let hl = bits_at(d, p0, 5) + 257;
            let hd = bits_at(d, p0 + 5, 5) + 1;
            let hc = bits_at(d, p0 + 10, 4) + 4;
            let lcode = canonical_entries::<TreeCodeToken>(
                spec_code_length_table(d, p0 + 14, hc as int),
                19,
            );
            let ex = spec_expand_lengths(
                d,
                p0 + 14 + 3 * hc,
                lcode,
                (hl + hd) as int,
                Seq::empty(),
            );
            assert(ex is Ok);
            let lengths = (ex->Ok_0).0;
            lemma_entries_alphabet_only::<LitLenToken>(lengths.take(hl as int), hl as int);
            lemma_entries_alphabet_only::<DistanceToken>(lengths.skip(hl as int), hd as int);
            assert(alphabet_only(litlen.spec_pairs()));
            assert(alphabet_only(dist.spec_pairs()));
        }
        self.read_compressed_block(&litlen, &dist)
    }

    /// Reads the contents of one block of the given type.
    fn read_block(&mut self, compression_type: CompressionType) -> (r: Result<(), Error>)
        requires
            old(self).wf(),
        ensures
            final(self).wf(),
            final(self).spec_reader().spec_data() == old(self).spec_reader().spec_data(),
            final(self).spec_reader().spec_bitpos() >= old(self).spec_reader().spec_bitpos(),
            old(self).spec_writer().spec_written().is_prefix_of(
                final(self).spec_writer().spec_written(),
            ),
            ({
                let run = spec_block_body(
                    old(self).spec_reader().spec_data(),
                    old(self).spec_reader().spec_bitpos(),
                    spec_type_code(compression_type),
                    old(self).spec_writer().spec_written(),
                );
                match r {
                    Ok(()) => run == Ok::<(Seq<u8>, int), Error>(
                        (
                            final(self).spec_writer().spec_written(),
                            final(self).spec_reader().spec_bitpos(),
                        ),
                    ),
                    Err(e) => run == Err::<(Seq<u8>, int), Error>(e),
                }
            }),
    {
        match compression_type {
            CompressionType::Uncompressed => {
                let r = self.read_uncompressed_block();
                proof {
                    lemma_prefix_refl(old(self).spec_writer().spec_written());
                    if r is Ok {
                        lemma_prefix_concat(
                            old(self).spec_writer().spec_written(),
                            old(self).spec_writer().spec_written(),
                            self.spec_writer().spec_written().skip(
                                old(self).spec_writer().spec_written().len() as int,
                            ),
                        );
                        assert(old(self).spec_writer().spec_written()
                            + self.spec_writer().spec_written().skip(
                            old(self).spec_writer().spec_written().len() as int,
                        ) =~= self.spec_writer().spec_written());
                    }
                }
                r
            },
            CompressionType::FixedTree => self.read_fixed_tree_block(),
            CompressionType::DynamicTree => self.read_dynamic_tree_block(),
            CompressionType::Reserved => Err(Error::UnsupportedBlockType),
        }
    }

    /// Reads blocks until one marked final has been consumed, then
    /// hands the reader and the writer back. Succeeds exactly when the
    /// bit stream holds a well-formed run of blocks, and then the
    /// writer holds the decoded bytes and the reader stands just past
    /// the final block.
    pub fn read(self) -> (r: Result<(BitReader, TrackingWriter), Error>)
        requires
            self.wf(),
        ensures
            ({
                let run = spec_deflate_payload(
                    self.spec_reader().spec_data(),
                    self.spec_reader().spec_bitpos(),
                    self.spec_writer().spec_written(),
                );
                match r {
                    Ok((br, tw)) => {
                        &&& br.wf()
                        &&& tw.wf()
                        &&& br.spec_data() == self.spec_reader().spec_data()
                        &&& br.spec_bitpos() >= self.spec_reader().spec_bitpos()
                        &&& self.spec_writer().spec_written().is_prefix_of(tw.spec_written())
                        &&& run == Ok::<(Seq<u8>, int), Error>(
                            (tw.spec_written(), br.spec_bitpos()),
                        )
                    },
                    Err(e) => run == Err::<(Seq<u8>, int), Error>(e),
                }
            }),
    {
        let mut this = self;
        let ghost init = this;
        let ghost d = init.spec_reader().spec_data();
        let ghost fuel0: nat = (8 * d.len() + 8) as nat;
        let ghost mut fuel: nat = fuel0;
        proof {
            lemma_prefix_refl(init.spec_writer().spec_written());
        }
        loop
            invariant
                this.wf(),
                init == self,
                d == init.spec_reader().spec_data(),
                fuel0 == (8 * d.len() + 8) as nat,
                this.spec_reader().spec_data() == d,
                this.spec_reader().spec_bitpos() >= init.spec_reader().spec_bitpos(),
                init.spec_writer().spec_written().is_prefix_of(
                    this.spec_writer().spec_written(),
                ),
                fuel > 8 * d.len() - this.spec_reader().spec_bitpos(),
                spec_blocks(
                    d,
                    init.spec_reader().spec_bitpos(),
                    init.spec_writer().spec_written(),
                    fuel0,
                ) == spec_blocks(
                    d,
                    this.spec_reader().spec_bitpos(),
                    this.spec_writer().spec_written(),
                    fuel,
                ),
            decreases 8 * init.spec_reader().spec_data().len()
                - this.spec_reader().spec_bitpos(),
        {
            let ghost p = this.spec_reader().spec_bitpos();
            let ghost w = this.spec_writer().spec_written();
            let header = match this.read_block_header() {
                Ok(h) => h,
                Err(e) => {
                    proof {
                        assert(spec_block(d, p, w) == Err::<(Seq<u8>, int, bool), Error>(e));
                        assert(spec_blocks(d, p, w, fuel) == Err::<(Seq<u8>, int), Error>(e));
                    }
                    return Err(e);
                },
            };
            proof {
                crate::bit_reader::lemma_bits_at_bound(d, p + 1, 2);
                lemma2_to64();
                assert(spec_type_code(header.compression_type) == bits_at(d, p + 1, 2));
            }
            match this.read_block(header.compression_type) {
                Ok(()) => {},
                Err(e) => {
                    proof {
                        assert(spec_block_body(d, p + 3, bits_at(d, p + 1, 2), w) == Err::<
                            (Seq<u8>, int),
                            Error,
                        >(e));
                        assert(spec_block(d, p, w) == Err::<(Seq<u8>, int, bool), Error>(e));
                        assert(spec_blocks(d, p, w, fuel) == Err::<(Seq<u8>, int), Error>(e));
                    }
                    return Err(e);
                },
            }
            proof {
                assert(spec_block(d, p, w) == Ok::<(Seq<u8>, int, bool), Error>(
                    (
                        this.spec_writer().spec_written(),
                        this.spec_reader().spec_bitpos(),
                        header.is_final,
                    ),
                ));
            }
            if header.is_final {
                proof {
                    assert(spec_blocks(d, p, w, fuel) == Ok::<(Seq<u8>, int), Error>(
                        (this.spec_writer().spec_written(), this.spec_reader().spec_bitpos()),
                    ));
                }
                return Ok((this.bit_reader, this.tracking_writer));
            }
            proof {
                assert(spec_blocks(d, p, w, fuel) == spec_blocks(
                    d,
                    this.spec_reader().spec_bitpos(),
                    this.spec_writer().spec_written(),
                    (fuel - 1) as nat,
                ));
                fuel = (fuel - 1) as nat;
            }
        }
    }
}

/// Shorter powers of two stay within sixteen bits.
proof fn lemma_pow2_increases_16(a: nat, b: nat)
    requires
        a <= b,
        b <= 16,
    ensures
        pow2(a) <= pow2(b),
{
    if a < b {
        lemma_pow2_strictly_increases(a, b);
    }
}

/// Every sequence is a prefix of itself.
proof fn lemma_prefix_refl(a: Seq<u8>)
    ensures
        a.is_prefix_of(a),
{
    assert(a.subrange(0, a.len() as int) =~= a);
}

/// A prefix stays a prefix after one more byte.
proof fn lemma_prefix_snoc(a: Seq<u8>, x: Seq<u8>, y: u8)
    requires
        a.is_prefix_of(x),
    ensures
        a.is_prefix_of(x.push(y)),
{
    assert(x.push(y).subrange(0, a.len() as int) =~= x.subrange(0, a.len() as int));
}

/// A prefix stays a prefix after appending a chunk.
proof fn lemma_prefix_concat(a: Seq<u8>, x: Seq<u8>, y: Seq<u8>)
    requires
        a.is_prefix_of(x),
    ensures
        a.is_prefix_of(x + y),
{
    assert((x + y).subrange(0, a.len() as int) =~= x.subrange(0, a.len() as int));
}

} // verus!
