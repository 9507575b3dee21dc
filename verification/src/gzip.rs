use vstd::prelude::*;
use crate::bit_reader::{BitReader, ByteReader};
use crate::checksum::{crc32_of, crc32_bytes};
use crate::deflate::DeflateReader;
use crate::tracking_writer::TrackingWriter;
use crate::Error;

verus! {

/// The first gzip magic byte.
pub const ID1: u8 = 0x1f;

/// The second gzip magic byte.
pub const ID2: u8 = 0x8b;

/// The method code of DEFLATE, the one method gzip defines.
pub const CM_DEFLATE: u8 = 8;

pub const FTEXT_OFFSET: u8 = 0;

pub const FHCRC_OFFSET: u8 = 1;

pub const FEXTRA_OFFSET: u8 = 2;

pub const FNAME_OFFSET: u8 = 3;

pub const FCOMMENT_OFFSET: u8 = 4;

/// The compression method a member names in its header.
#[derive(Clone, Copy, Debug, PartialEq, Eq, Structural)]
pub enum CompressionMethod {
    Deflate,
    Unknown(u8),
}

/// The method a method byte names.
pub open spec fn spec_method_of(value: u8) -> CompressionMethod {
    if value == CM_DEFLATE {
        CompressionMethod::Deflate
    } else {
        CompressionMethod::Unknown(value)
    }
}

/// The byte that names a method.
pub open spec fn spec_method_byte(method: CompressionMethod) -> u8 {
    match method {
        CompressionMethod::Deflate => CM_DEFLATE,
        CompressionMethod::Unknown(x) => x,
    }
}

impl From<u8> for CompressionMethod {
    /// The method the byte names.
    fn from(value: u8) -> (r: Self) {
        if value == CM_DEFLATE {
            CompressionMethod::Deflate
        } else {
            CompressionMethod::Unknown(value)
        }
    }
}

impl vstd::std_specs::convert::FromSpecImpl<u8> for CompressionMethod {
    open spec fn obeys_from_spec() -> bool {
        true
    }

    open spec fn from_spec(v: u8) -> Self {
        spec_method_of(v)
    }
}

impl From<CompressionMethod> for u8 {
    /// The byte that names the method.
    fn from(method: CompressionMethod) -> (r: u8) {
        match method {
            CompressionMethod::Deflate => CM_DEFLATE,
            CompressionMethod::Unknown(x) => x,
        }
    }
}

impl vstd::std_specs::convert::FromSpecImpl<CompressionMethod> for u8 {
    open spec fn obeys_from_spec() -> bool {
        true
    }

    open spec fn from_spec(v: CompressionMethod) -> Self {
        spec_method_byte(v)
    }
}

/// The flag byte of a member header (RFC 1952, section 2.3.1).
#[derive(Debug)]
pub struct MemberFlags(u8);

impl MemberFlags {
    /// The raw flag byte.
    pub closed spec fn spec_byte(self) -> u8 {
        self.0
    }

    /// Whether flag bit `n` is set.
    pub open spec fn spec_bit(self, n: u8) -> bool {
        (self.spec_byte() >> n) & 1 == 1
    }

    fn bit(&self, n: u8) -> (r: bool)
        requires
            n < 8,
        ensures
            r == self.spec_bit(n),
    {
        proof {
            let x = self.0;
            assert((x >> n) & 1 == 0 || (x >> n) & 1 == 1) by (bit_vector);
        }
        (self.0 >> n) & 1 != 0
    }

    #[verifier::rlimit(100)]
    fn set_bit(&mut self, n: u8, value: bool)
        requires
            n < 8,
        ensures
            forall|m: u8|
                m < 8 ==> final(self).spec_bit(m) == if m == n {
                    value
                } else {
                    old(self).spec_bit(m)
                },
    {
        let x = self.0;
        if value {
            self.0 = x | (1u8 << n);
            assert forall|m: u8| m < 8 implies self.spec_bit(m) == if m == n {
                value
            } else {
                old(self).spec_bit(m)
            } by {
                assert(((x | (1u8 << n)) >> m) & 1 == if m == n {
                    1u8
                } else {
                    (x >> m) & 1
                }) by (bit_vector)
                    requires m < 8, n < 8,
                ;
            }
        } else {
            self.0 = x & !(1u8 << n);
            assert forall|m: u8| m < 8 implies self.spec_bit(m) == if m == n {
                value
            } else {
                old(self).spec_bit(m)
            } by {
                assert(((x & !(1u8 << n)) >> m) & 1 == if m == n {
                    0u8
                } else {
                    (x >> m) & 1
                }) by (bit_vector)
                    requires m < 8, n < 8,
                ;
            }
        }
    }

    /// Whether the member says its data is text.
    pub fn is_text(&self) -> (r: bool)
        ensures
            r == self.spec_bit(FTEXT_OFFSET),
    {
        self.bit(FTEXT_OFFSET)
    }

    /// Marks the member's data as text or binary.
    pub fn set_is_text(&mut self, value: bool)
        ensures
            forall|m: u8|
                m < 8 ==> final(self).spec_bit(m) == if m == FTEXT_OFFSET {
                    value
                } else {
                    old(self).spec_bit(m)
                },
    {
        self.set_bit(FTEXT_OFFSET, value)
    }

    /// Whether the header carries its own checksum.
    pub fn has_crc(&self) -> (r: bool)
        ensures
            r == self.spec_bit(FHCRC_OFFSET),
    {
        self.bit(FHCRC_OFFSET)
    }

    /// Marks the header as carrying its own checksum.
    pub fn set_has_crc(&mut self, value: bool)
        ensures
            forall|m: u8|
                m < 8 ==> final(self).spec_bit(m) == if m == FHCRC_OFFSET {
                    value
                } else {
                    old(self).spec_bit(m)
                },
    {
        self.set_bit(FHCRC_OFFSET, value)
    }

    /// Whether an extra field follows the fixed header.
    pub fn has_extra(&self) -> (r: bool)
        ensures
            r == self.spec_bit(FEXTRA_OFFSET),
    {
        self.bit(FEXTRA_OFFSET)
    }

    /// Marks the header as carrying an extra field.
    pub fn set_has_extra(&mut self, value: bool)
        ensures
            forall|m: u8|
                m < 8 ==> final(self).spec_bit(m) == if m == FEXTRA_OFFSET {
                    value
                } else {
                    old(self).spec_bit(m)
                },
    {
        self.set_bit(FEXTRA_OFFSET, value)
    }

    /// Whether a zero-terminated name follows the fixed header.
    pub fn has_name(&self) -> (r: bool)
        ensures
            r == self.spec_bit(FNAME_OFFSET),
    {
        self.bit(FNAME_OFFSET)
    }

    /// Marks the header as carrying a name.
    pub fn set_has_name(&mut self, value: bool)
        ensures
            forall|m: u8|
                m < 8 ==> final(self).spec_bit(m) == if m == FNAME_OFFSET {
                    value
                } else {
                    old(self).spec_bit(m)
                },
    {
        self.set_bit(FNAME_OFFSET, value)
    }

    /// Whether a zero-terminated comment follows the fixed header.
    pub fn has_comment(&self) -> (r: bool)
        ensures
            r == self.spec_bit(FCOMMENT_OFFSET),
    {
        self.bit(FCOMMENT_OFFSET)
    }

    /// Marks the header as carrying a comment.
    pub fn set_has_comment(&mut self, value: bool)
        ensures
            forall|m: u8|
                m < 8 ==> final(self).spec_bit(m) == if m == FCOMMENT_OFFSET {
                    value
                } else {
                    old(self).spec_bit(m)
                },
    {
        self.set_bit(FCOMMENT_OFFSET, value)
    }
}

/// The two bytes of a sixteen-bit little-endian value.
pub open spec fn u16_le_bytes_of(n: nat) -> Seq<u8> {
    seq![(n % 0x100) as u8, ((n / 0x100) % 0x100) as u8]
}

/// The four bytes of a thirty-two-bit little-endian value.
pub open spec fn u32_le_bytes_of(n: nat) -> Seq<u8> {
    seq![
        (n % 0x100) as u8,
        ((n / 0x100) % 0x100) as u8,
        ((n / 0x10000) % 0x100) as u8,
        ((n / 0x1000000) % 0x100) as u8,
    ]
}

/// The thirty-two-bit little-endian value stored at `q`.
pub open spec fn le32_at(d: Seq<u8>, q: int) -> nat {
    d[q] as nat + 0x100 * (d[q + 1] as nat) + 0x10000 * (d[q + 2] as nat) + 0x1000000 * (d[q
        + 3] as nat)
}

/// A parsed member header (RFC 1952, section 2.3). The name and the
/// comment are kept as the raw bytes that preceded their terminating
/// zero.
#[derive(Debug)]
pub struct MemberHeader {
    pub compression_method: CompressionMethod,
    pub modification_time: u32,
    pub extra: Option<Vec<u8>>,
    pub name: Option<Vec<u8>>,
    pub comment: Option<Vec<u8>>,
    pub extra_flags: u8,
    pub os: u8,
    pub has_crc: bool,
    pub is_text: bool,
}

impl MemberHeader {
    /// An extra field fits its two-byte length prefix.
    pub open spec fn wf(self) -> bool {
        self.extra is Some ==> self.extra->0@.len() <= 0xffff
    }

    /// The flag byte this header serialises to.
    pub open spec fn spec_flags_byte(self) -> u8 {
        ((if self.is_text {
            1nat
        } else {
            0nat
        }) + (if self.has_crc {
            2nat
        } else {
            0nat
        }) + (if self.extra is Some {
            4nat
        } else {
            0nat
        }) + (if self.name is Some {
            8nat
        } else {
            0nat
        }) + (if self.comment is Some {
            16nat
        } else {
            0nat
        })) as u8
    }

    /// The serialised header bytes that precede the optional header
    /// checksum.
    pub open spec fn spec_bytes(self) -> Seq<u8> {
        seq![ID1, ID2, spec_method_byte(self.compression_method), self.spec_flags_byte()]
            + u32_le_bytes_of(self.modification_time as nat) + seq![self.extra_flags, self.os]
            + (match self.extra {
            Some(e) => u16_le_bytes_of(e@.len()) + e@,
            None => Seq::empty(),
        }) + (match self.name {
            Some(nm) => nm@ + seq![0u8],
            None => Seq::empty(),
        }) + (match self.comment {
            Some(c) => c@ + seq![0u8],
            None => Seq::empty(),
        })
    }

    /// The low sixteen bits of the CRC-32 digest of the serialised
    /// header, as the FHCRC field stores them.
    #[verifier::rlimit(100)]
    pub fn crc16(&self) -> (r: u16)
        requires
            self.wf(),
        ensures
            r as nat == crc32_of(self.spec_bytes()) % 0x10000,
    {
        let mut v: Vec<u8> = Vec::new();
        v.push(ID1);
        v.push(ID2);
        v.push(u8::from(self.compression_method));
        let flags = self.flags();
        v.push(flags.0);
        let m = self.modification_time;
        v.push((m % 0x100) as u8);
        v.push(((m / 0x100) % 0x100) as u8);
        v.push(((m / 0x10000) % 0x100) as u8);
        v.push(((m / 0x1000000) % 0x100) as u8);
        v.push(self.extra_flags);
        v.push(self.os);
        let ghost fixed = v@;
        match &self.extra {
            Some(e) => {
                let xl = e.len();
                v.push((xl % 0x100) as u8);
                v.push(((xl / 0x100) % 0x100) as u8);
                let ghost with_len = v@;
                let mut i: usize = 0;
                while i < e.len()
                    invariant
                        i <= e.len(),
                        v@ == with_len + e@.take(i as int),
                    decreases e.len() - i,
                {
                    v.push(e[i]);
                    proof {
                        assert(with_len + e@.take(i as int).push(e@[i as int]) =~= with_len
                            + e@.take(i + 1));
                    }
                    i = i + 1;
                }
                proof {
                    assert(v@ =~= fixed + u16_le_bytes_of(e@.len()) + e@);
                }
            },
            None => {},
        }
        let ghost with_extra = v@;
        match &self.name {
            Some(nm) => {
                let mut i: usize = 0;
                while i < nm.len()
                    invariant
                        i <= nm.len(),
                        v@ == with_extra + nm@.take(i as int),
                    decreases nm.len() - i,
                {
                    v.push(nm[i]);
                    proof {
                        assert(with_extra + nm@.take(i as int).push(nm@[i as int]) =~= with_extra
                            + nm@.take(i + 1));
                    }
                    i = i + 1;
                }
                v.push(0);
                proof {
                    assert(v@ =~= with_extra + (nm@ + seq![0u8]));
                }
            },
            None => {},
        }
        let ghost with_name = v@;
        match &self.comment {
            Some(c) => {
                let mut i: usize = 0;
                while i < c.len()
                    invariant
                        i <= c.len(),
                        v@ == with_name + c@.take(i as int),
                    decreases c.len() - i,
                {
                    v.push(c[i]);
                    proof {
                        assert(with_name + c@.take(i as int).push(c@[i as int]) =~= with_name
                            + c@.take(i + 1));
                    }
                    i = i + 1;
                }
                v.push(0);
                proof {
                    assert(v@ =~= with_name + (c@ + seq![0u8]));
                }
            },
            None => {},
        }
        proof {
            assert(v@ =~= self.spec_bytes());
        }
        let crc = crc32_bytes(&v);
        proof {
            vstd::bits::lemma_u32_low_bits_mask_is_mod(crc, 16);
            vstd::bits::lemma_low_bits_mask_values();
            vstd::arithmetic::power2::lemma2_to64();
        }
        (crc & 0xffff) as u16
    }

    /// The flag byte of this header.
    pub fn flags(&self) -> (r: MemberFlags)
        ensures
            r.spec_byte() == self.spec_flags_byte(),
            r.spec_bit(FTEXT_OFFSET) == self.is_text,
            r.spec_bit(FHCRC_OFFSET) == self.has_crc,
            r.spec_bit(FEXTRA_OFFSET) == (self.extra is Some),
            r.spec_bit(FNAME_OFFSET) == (self.name is Some),
            r.spec_bit(FCOMMENT_OFFSET) == (self.comment is Some),
    {
        let mut b: u8 = 0;
        let a0: u8 = if self.is_text {
            1
        } else {
            0
        };
        let a1: u8 = if self.has_crc {
            1
        } else {
            0
        };
        let a2: u8 = if self.extra.is_some() {
            1
        } else {
            0
        };
        let a3: u8 = if self.name.is_some() {
            1
        } else {
            0
        };
        let a4: u8 = if self.comment.is_some() {
            1
        } else {
            0
        };
        b = a0 + 2 * a1 + 4 * a2 + 8 * a3 + 16 * a4;
        proof {
            let x = b;
            assert(x == a0 + 2 * a1 + 4 * a2 + 8 * a3 + 16 * a4 && a0 <= 1 && a1 <= 1 && a2 <= 1
                && a3 <= 1 && a4 <= 1 ==> ((x >> 0) & 1 == a0) && ((x >> 1) & 1 == a1) && ((x >> 2)
                & 1 == a2) && ((x >> 3) & 1 == a3) && ((x >> 4) & 1 == a4)) by (bit_vector);
        }
        MemberFlags(b)
    }
}

/// The footer of a member: the digest and size of its decompressed
/// data (RFC 1952, section 2.3).
#[derive(Debug)]
pub struct MemberFooter {
    pub data_crc32: u32,
    pub data_size: u32,
}


/// The sixteen-bit little-endian value stored at `q`.
pub open spec fn le16_at(d: Seq<u8>, q: int) -> nat {
    d[q] as nat + 0x100 * (d[q + 1] as nat)
}

/// The position after the optional extra field.
pub open spec fn spec_after_extra(data: Seq<u8>, flg: u8, q1: int) -> Option<int> {
    if (flg >> FEXTRA_OFFSET) & 1 == 1 {
        if q1 + 2 > data.len() {
            None
        } else {
            let xlen = le16_at(data, q1);
            if q1 + 2 + xlen > data.len() {
                None
            } else {
                Some(q1 + 2 + xlen)
            }
        }
    } else {
        Some(q1)
    }
}

/// The position after an optional zero-terminated field.
pub open spec fn spec_after_zero_str(data: Seq<u8>, on: bool, q: int) -> Option<int> {
    if on {
        let z = crate::bit_reader::first_zero(data, q);
        if z < data.len() {
            Some(z + 1)
        } else {
            None
        }
    } else {
        Some(q)
    }
}

/// The position of the first payload byte of a member header stored
/// at `q`, when the header is well-formed — the magic pair, the fixed
/// fields, the optional fields its flag byte names, and a header
/// checksum over the stored header bytes that matches when one is
/// present — or the kind of the first failure.
pub open spec fn spec_header_end(data: Seq<u8>, q: int) -> Result<int, Error> {
    if q < 0 || q >= data.len() {
        Err(Error::UnexpectedEof)
    } else if data[q] != ID1 {
        Err(Error::BadMagic)
    } else if q + 2 > data.len() {
        Err(Error::UnexpectedEof)
    } else if data[q + 1] != ID2 {
        Err(Error::BadMagic)
    } else if q + 10 > data.len() {
        Err(Error::UnexpectedEof)
    } else {
        let flg = data[q + 3];
        match spec_after_extra(data, flg, q + 10) {
            None => Err(Error::UnexpectedEof),
            Some(q2) => match spec_after_zero_str(data, (flg >> FNAME_OFFSET) & 1 == 1, q2) {
                None => Err(Error::InvalidName),
                Some(q3) => match spec_after_zero_str(
                    data,
                    (flg >> FCOMMENT_OFFSET) & 1 == 1,
                    q3,
                ) {
                    None => Err(Error::InvalidComment),
                    Some(q4) => if (flg >> FHCRC_OFFSET) & 1 == 1 {
                        if q4 + 2 > data.len() {
                            Err(Error::UnexpectedEof)
                        } else if le16_at(data, q4) == crc32_of(data.subrange(q, q4))
                            % 0x10000 {
                            Ok(q4 + 2)
                        } else {
                            Err(Error::HeaderCrcMismatch)
                        }
                    } else {
                        Ok(q4)
                    },
                },
            },
        }
    }
}

/// A member's payload and footer, the header ending at byte `q5`: the
/// DEFLATE payload must decode, and the footer must record the CRC-32
/// and the length modulo 2^32 of the decoded bytes; else the kind of
/// the first failure.
pub open spec fn spec_member_rest(data: Seq<u8>, q5: int) -> Result<(Seq<u8>, int), Error> {
    match crate::deflate::spec_deflate_payload(data, 8 * q5, Seq::empty()) {
        Err(e) => Err(e),
        Ok((m, p_end)) => {
            let qf = (p_end + 7) / 8;
            if qf + 8 > data.len() {
                Err(Error::UnexpectedEof)
            } else if le32_at(data, qf + 4) != m.len() % 0x100000000 {
                Err(Error::LengthMismatch)
            } else if le32_at(data, qf) != crc32_of(m) as nat {
                Err(Error::DataCrcMismatch)
            } else {
                Ok((m, qf + 8))
            }
        },
    }
}

/// One whole member stored at byte `q`: its decoded bytes and the
/// position after its footer, or the kind of the first failure.
pub open spec fn spec_member(data: Seq<u8>, q: int) -> Result<(Seq<u8>, int), Error> {
    match spec_header_end(data, q) {
        Err(e) => Err(e),
        Ok(q5) => if data[q + 2] == CM_DEFLATE {
            spec_member_rest(data, q5)
        } else {
            Err(Error::UnsupportedCompressionMethod(data[q + 2]))
        },
    }
}

/// Members from byte `q` until the input ends exactly at a member
/// boundary, under a recursion budget; each member consumes at least
/// one byte, so a budget beyond the byte count never runs out first.
pub open spec fn spec_members(data: Seq<u8>, q: int, fuel: nat) -> Result<Seq<u8>, Error>
    decreases fuel,
{
    if q == data.len() {
        Ok(Seq::empty())
    } else if fuel == 0 {
        Err(Error::UnexpectedEof)
    } else {
        match spec_member(data, q) {
            Err(e) => Err(e),
            Ok((m, q2)) => match spec_members(data, q2, (fuel - 1) as nat) {
                Err(e) => Err(e),
                Ok(rest) => Ok(m + rest),
            },
        }
    }
}

/// The decompression of the whole input from byte `q`: the
/// concatenated decoded bytes of its members, or the kind of the
/// first failure when the input is not a well-formed sequence of
/// members.
pub open spec fn spec_gzip_members(data: Seq<u8>, q: int) -> Result<Seq<u8>, Error> {
    spec_members(data, q, (data.len() + 1) as nat)
}

/// The concatenated decoded bytes of the leading run of fully valid
/// members from byte `q`, stopping at the first member that fails:
/// the partial output decompression leaves behind on an error.
pub open spec fn spec_decoded_prefix(data: Seq<u8>, q: int, fuel: nat) -> Seq<u8>
    decreases fuel,
{
    if fuel == 0 {
        Seq::empty()
    } else {
        match spec_member(data, q) {
            Err(_) => Seq::empty(),
            Ok((m, q2)) => m + spec_decoded_prefix(data, q2, (fuel - 1) as nat),
        }
    }
}

/// The partial output of decompressing from byte `q`: the decoded
/// bytes of the members before the first failure.
pub open spec fn spec_gzip_decoded_prefix(data: Seq<u8>, q: int) -> Seq<u8> {
    spec_decoded_prefix(data, q, (data.len() + 1) as nat)
}

/// Consumes concatenated gzip members from a byte source, appending
/// the decompressed bytes of each to the output.
pub struct GzipReader {
    reader: ByteReader,
    writer: Vec<u8>,
}

impl GzipReader {
    /// The byte source.
    pub closed spec fn spec_reader(self) -> ByteReader {
        self.reader
    }

    /// The decompressed output collected so far.
    pub closed spec fn spec_output(self) -> Seq<u8> {
        self.writer@
    }

    /// Pairs a byte source with an output buffer to append to.
    pub fn new(reader: ByteReader, writer: Vec<u8>) -> (r: Self)
        ensures
            r.spec_reader() == reader,
            r.spec_output() == writer@,
    {
        GzipReader { reader, writer }
    }

    /// Hands the collected output back.
    pub fn into_writer(self) -> (r: Vec<u8>)
        ensures
            r@ == self.spec_output(),
    {
        self.writer
    }

    /// Parses a member header after its first magic byte. Succeeds
    /// exactly when the header stored at the magic byte is
    /// well-formed.
    #[verifier::rlimit(100)]
    fn read_header_except_id1(&mut self) -> (r: Result<MemberHeader, Error>)
        requires
            old(self).spec_reader().spec_pos() >= 1,
            old(self).spec_reader().spec_bytes()[old(self).spec_reader().spec_pos() - 1]
                == ID1,
        ensures
            final(self).spec_output() == old(self).spec_output(),
            final(self).spec_reader().spec_bytes() == old(self).spec_reader().spec_bytes(),
            final(self).spec_reader().spec_pos() >= old(self).spec_reader().spec_pos(),
            final(self).spec_reader().spec_pos() <= final(self).spec_reader().spec_bytes().len(),
            ({
                let d = old(self).spec_reader().spec_bytes();
                let q = old(self).spec_reader().spec_pos() - 1;
                match r {
                    Ok(h) => {
                        &&& spec_header_end(d, q) == Ok::<int, Error>(
                            final(self).spec_reader().spec_pos() as int,
                        )
                        &&& h.wf()
                        &&& h.compression_method == spec_method_of(d[q + 2])
                    },
                    Err(e) => spec_header_end(d, q) == Err::<int, Error>(e),
                }
            }),
    {
        let ghost d = self.reader.spec_bytes();
        let ghost q = self.reader.spec_pos() - 1;
        let start = self.reader.position() - 1;
        let id2 = self.reader.read_u8()?;
        if id2 != ID2 {
            return Err(Error::BadMagic);
        }
        let method_byte = self.reader.read_u8()?;
        let compression_method = CompressionMethod::from(method_byte);
        let flags = MemberFlags(self.reader.read_u8()?);
        let ghost flg = d[q + 3];
        let modification_time = self.reader.read_u32_le()?;
        let extra_flags = self.reader.read_u8()?;
        let os = self.reader.read_u8()?;
        proof {
            assert(self.reader.spec_pos() == q + 10);
        }

        let mut extra: Option<Vec<u8>> = None;
        if flags.has_extra() {
            let xlen = self.reader.read_u16_le()?;
            let data = self.reader.read_exact(xlen as usize)?;
            extra = Some(data);
        }
        let ghost q2 = self.reader.spec_pos() as int;
        proof {
            assert(spec_after_extra(d, flg, q + 10) == Some(q2));
        }

        let mut name: Option<Vec<u8>> = None;
        if flags.has_name() {
            name = match self.reader.read_until_zero() {
                Some(bytes) => Some(bytes),
                None => {
                    return Err(Error::InvalidName);
                },
            };
        }
        let ghost q3 = self.reader.spec_pos() as int;
        proof {
            assert(spec_after_zero_str(d, (flg >> FNAME_OFFSET) & 1 == 1, q2) == Some(q3));
        }

        let mut comment: Option<Vec<u8>> = None;
        if flags.has_comment() {
            comment = match self.reader.read_until_zero() {
                Some(bytes) => Some(bytes),
                None => {
                    return Err(Error::InvalidComment);
                },
            };
        }
        let ghost q4 = self.reader.spec_pos() as int;
        proof {
            assert(spec_after_zero_str(d, (flg >> FCOMMENT_OFFSET) & 1 == 1, q3) == Some(q4));
        }

        let header = MemberHeader {
            compression_method,
            modification_time,
            extra,
            name,
            comment,
            extra_flags,
            os,
            has_crc: flags.has_crc(),
            is_text: flags.is_text(),
        };

        if flags.has_crc() {
            // the checksum covers the stored header bytes, from the
            // first magic byte to just before the checksum field
            let here = self.reader.position();
            let raw = self.reader.copy_range(start, here);
            let digest = crc32_bytes(&raw);
            proof {
                vstd::bits::lemma_u32_low_bits_mask_is_mod(digest, 16);
                vstd::bits::lemma_low_bits_mask_values();
                vstd::arithmetic::power2::lemma2_to64();
            }
            let actual: u16 = (digest & 0xffff) as u16;
            let recorded = self.reader.read_u16_le()?;
            if recorded != actual {
                return Err(Error::HeaderCrcMismatch);
            }
        }

        Ok(header)
    }

    /// Reads one member header, or reports that the input ended
    /// cleanly before one began.
    fn read_header(&mut self) -> (r: Option<Result<MemberHeader, Error>>)
        ensures
            final(self).spec_output() == old(self).spec_output(),
            final(self).spec_reader().spec_bytes() == old(self).spec_reader().spec_bytes(),
            ({
                let d = old(self).spec_reader().spec_bytes();
                let q = old(self).spec_reader().spec_pos() as int;
                match r {
                    None => final(self).spec_reader() == old(self).spec_reader() && q == d.len(),
                    Some(rr) => {
                        &&& q < d.len()
                        &&& final(self).spec_reader().spec_pos() > q
                        &&& final(self).spec_reader().spec_pos() <= d.len()
                        &&& match rr {
                            Ok(h) => {
                                &&& spec_header_end(d, q) == Ok::<int, Error>(
                                    final(self).spec_reader().spec_pos() as int,
                                )
                                &&& h.wf()
                                &&& h.compression_method == spec_method_of(d[q + 2])
                            },
                            Err(e) => spec_header_end(d, q) == Err::<int, Error>(e),
                        }
                    },
                }
            }),
    {
        if self.reader.at_eof() {
            return None;
        }
        let id1 = match self.reader.read_u8() {
            Ok(b) => b,
            Err(e) => {
                proof {
                    assert(false);
                }
                vstd::pervasive::unreached()
            },
        };
        if id1 != ID1 {
            return Some(Err(Error::BadMagic));
        }
        Some(self.read_header_except_id1())
    }

    /// Reads the eight-byte footer of a member.
    fn read_footer(&mut self) -> (r: Result<MemberFooter, Error>)
        ensures
            final(self).spec_output() == old(self).spec_output(),
            final(self).spec_reader().spec_bytes() == old(self).spec_reader().spec_bytes(),
            final(self).spec_reader().spec_pos() >= old(self).spec_reader().spec_pos(),
            ({
                let d = old(self).spec_reader().spec_bytes();
                let q = old(self).spec_reader().spec_pos() as int;
                match r {
                    Ok(f) => {
                        &&& q + 8 <= d.len()
                        &&& f.data_crc32 as nat == le32_at(d, q)
                        &&& f.data_size as nat == le32_at(d, q + 4)
                        &&& final(self).spec_reader().spec_pos() == q + 8
                    },
                    Err(e) => e == Error::UnexpectedEof && q + 8 > d.len(),
                }
            }),
    {
        let data_crc32 = self.reader.read_u32_le()?;
        let data_size = self.reader.read_u32_le()?;
        Ok(MemberFooter { data_crc32, data_size })
    }

    /// Decompresses a member's payload and checks its footer: the
    /// stored digest and size must match the decompressed bytes.
    #[verifier::rlimit(100)]
    fn read_member_except_header(&mut self, header: MemberHeader) -> (r: Result<(), Error>)
        ensures
            old(self).spec_output().is_prefix_of(final(self).spec_output()),
            ({
                let d = old(self).spec_reader().spec_bytes();
                let q5 = old(self).spec_reader().spec_pos() as int;
                match r {
                    Ok(()) => {
                        let m = final(self).spec_output().skip(
                            old(self).spec_output().len() as int,
                        );
                        &&& final(self).spec_reader().spec_bytes() == old(self).spec_reader().spec_bytes()
                        &&& final(self).spec_reader().spec_pos() <= d.len()
                        &&& final(self).spec_reader().spec_pos() > old(self).spec_reader().spec_pos()
                        &&& header.compression_method == CompressionMethod::Deflate
                        &&& final(self).spec_output() == old(self).spec_output() + m
                        &&& spec_member_rest(d, q5) == Ok::<(Seq<u8>, int), Error>(
                            (m, final(self).spec_reader().spec_pos() as int),
                        )
                    },
                    Err(e) => {
                        &&& final(self).spec_output() == old(self).spec_output()
                        &&& match header.compression_method {
                            CompressionMethod::Deflate => spec_member_rest(d, q5) == Err::<
                                (Seq<u8>, int),
                                Error,
                            >(e),
                            CompressionMethod::Unknown(v) => e
                                == Error::UnsupportedCompressionMethod(v),
                        }
                    },
                }
            }),
    {
        proof {
            lemma_seq_prefix_refl(self.writer@);
        }
        match header.compression_method {
            CompressionMethod::Deflate => {},
            CompressionMethod::Unknown(value) => {
                return Err(Error::UnsupportedCompressionMethod(value));
            },
        }

        // move the byte source into a bit reader for the payload
        let ghost d = self.reader.spec_bytes();
        let ghost q5 = self.reader.spec_pos() as int;
        let mut taken = ByteReader::new(Vec::new());
        core::mem::swap(&mut self.reader, &mut taken);
        let deflate_reader = DeflateReader::new(BitReader::new(taken), TrackingWriter::new());
        let ghost payload = crate::deflate::spec_deflate_payload(d, 8 * q5, Seq::empty());
        let (bit_reader, tracking_writer) = match deflate_reader.read() {
            Ok(pair) => pair,
            Err(e) => {
                proof {
                    assert(payload == Err::<(Seq<u8>, int), Error>(e));
                }
                return Err(e);
            },
        };
        proof {
            // the footer starts at the byte boundary after the final block
            let p_end = bit_reader.spec_bitpos();
            let posb = bit_reader.spec_stream().spec_pos() as int;
            let llen = bit_reader.spec_leftover().spec_len() as int;
            vstd::arithmetic::div_mod::lemma_fundamental_div_mod_converse_div(
                p_end + 7,
                8,
                posb,
                7 - llen,
            );
            assert(payload == Ok::<(Seq<u8>, int), Error>(
                (tracking_writer.spec_written(), p_end),
            ));
            assert((p_end + 7) / 8 == posb);
        }
        let mut stream = bit_reader.inner();
        core::mem::swap(&mut self.reader, &mut stream);
        proof {
            assert(self.reader.spec_bytes() == old(self).spec_reader().spec_bytes());
            assert(self.reader.spec_pos() >= old(self).spec_reader().spec_pos());
        }
        let (crc32, byte_count, member_bytes) = tracking_writer.finalize();

        let ghost qf = self.reader.spec_pos() as int;
        let footer = match self.read_footer() {
            Ok(f) => f,
            Err(e) => {
                proof {
                    assert(spec_member_rest(d, q5) == Err::<(Seq<u8>, int), Error>(e));
                }
                return Err(e);
            },
        };
        if footer.data_size as u64 != (byte_count as u64) % 0x100000000 {
            proof {
                assert(member_bytes@.len() % 0x100000000 != le32_at(d, qf + 4));
                assert(spec_member_rest(d, q5) == Err::<(Seq<u8>, int), Error>(
                    Error::LengthMismatch,
                ));
            }
            return Err(Error::LengthMismatch);
        }
        if footer.data_crc32 != crc32 {
            proof {
                assert(le32_at(d, qf) != crc32_of(member_bytes@) as nat);
                assert(spec_member_rest(d, q5) == Err::<(Seq<u8>, int), Error>(
                    Error::DataCrcMismatch,
                ));
            }
            return Err(Error::DataCrcMismatch);
        }
        // the member checks out: forward its bytes to the output
        let ghost out0 = self.writer@;
        let ghost saved_reader = self.reader;
        let mut i: usize = 0;
        while i < member_bytes.len()
            invariant
                i <= member_bytes.len(),
                self.writer@ == out0 + member_bytes@.take(i as int),
                self.reader == saved_reader,
            decreases member_bytes.len() - i,
        {
            self.writer.push(member_bytes[i]);
            proof {
                assert(out0 + member_bytes@.take(i as int).push(member_bytes@[i as int]) =~= out0
                    + member_bytes@.take(i + 1));
            }
            i = i + 1;
        }
        proof {
            assert(out0 + member_bytes@.take(member_bytes@.len() as int) =~= out0
                + member_bytes@);
            assert((out0 + member_bytes@).skip(out0.len() as int) =~= member_bytes@);
            assert((out0 + member_bytes@).subrange(0, out0.len() as int) =~= out0);
            let q = self.reader.spec_pos() as int;
            assert(q == qf + 8);
            assert(self.writer@ == out0 + member_bytes@);
            let m = self.writer@.skip(out0.len() as int);
            assert(m =~= member_bytes@);
            assert(crc32_of(m) == crc32);
            assert(crc32_of(m) as nat == le32_at(d, q - 8));
            assert(byte_count == member_bytes@.len());
            assert(footer.data_size as nat == (byte_count as u64) % 0x100000000);
            assert(m.len() % 0x100000000 == le32_at(d, q - 4));
            assert(spec_member_rest(d, q5) == Ok::<(Seq<u8>, int), Error>((m, q)));
        }
        Ok(())
    }

    /// Reads one whole member, or reports that the input ended
    /// cleanly.
    fn read_member(&mut self) -> (r: Option<Result<(), Error>>)
        ensures
            old(self).spec_output().is_prefix_of(final(self).spec_output()),
            ({
                let d = old(self).spec_reader().spec_bytes();
                let q = old(self).spec_reader().spec_pos() as int;
                match r {
                    None => {
                        &&& final(self).spec_reader() == old(self).spec_reader()
                        &&& final(self).spec_output() == old(self).spec_output()
                        &&& q == d.len()
                    },
                    Some(res) => {
                        &&& q < d.len()
                        &&& match res {
                            Ok(()) => {
                                let m = final(self).spec_output().skip(
                                    old(self).spec_output().len() as int,
                                );
                                &&& final(self).spec_reader().spec_bytes() == d
                                &&& final(self).spec_reader().spec_pos() > q
                                &&& final(self).spec_reader().spec_pos() <= d.len()
                                &&& final(self).spec_output() == old(self).spec_output() + m
                                &&& spec_member(d, q) == Ok::<(Seq<u8>, int), Error>(
                                    (m, final(self).spec_reader().spec_pos() as int),
                                )
                            },
                            Err(e) => {
                                &&& spec_member(d, q) == Err::<(Seq<u8>, int), Error>(e)
                                &&& final(self).spec_output() == old(self).spec_output()
                            },
                        }
                    },
                }
            }),
    {
        proof {
            lemma_seq_prefix_refl(self.writer@);
        }
        let ghost d = self.reader.spec_bytes();
        let ghost q = self.reader.spec_pos() as int;
        let header = match self.read_header() {
            None => {
                return None;
            },
            Some(Ok(header)) => header,
            Some(Err(e)) => {
                return Some(Err(e));
            },
        };
        let ghost cm = header.compression_method;
        let r = self.read_member_except_header(header);
        proof {
            if r is Ok {
                assert(spec_method_of(d[q + 2]) == CompressionMethod::Deflate);
                assert(d[q + 2] == CM_DEFLATE);
            } else {
                match cm {
                    CompressionMethod::Deflate => {
                        assert(d[q + 2] == CM_DEFLATE);
                    },
                    CompressionMethod::Unknown(v) => {
                        assert(d[q + 2] != CM_DEFLATE);
                        assert(v == d[q + 2]);
                        assert(spec_member(d, q) == Err::<(Seq<u8>, int), Error>(
                            Error::UnsupportedCompressionMethod(d[q + 2]),
                        ));
                    },
                }
            }
        }
        Some(r)
    }

    /// Reads members until the input ends exactly at a member
    /// boundary. Succeeds exactly when the input from the current
    /// position is a well-formed sequence of members, and then appends
    /// exactly their decoded bytes to the output.
    pub fn read(&mut self) -> (r: Result<(), Error>)
        ensures
            old(self).spec_output().is_prefix_of(final(self).spec_output()),
            ({
                let dec = spec_gzip_members(
                    old(self).spec_reader().spec_bytes(),
                    old(self).spec_reader().spec_pos() as int,
                );
                match r {
                    Ok(()) => {
                        &&& final(self).spec_reader().spec_bytes() == old(self).spec_reader().spec_bytes()
                        &&& final(self).spec_reader().spec_pos() == final(self).spec_reader().spec_bytes().len()
                        &&& dec == Ok::<Seq<u8>, Error>(
                            final(self).spec_output().skip(old(self).spec_output().len() as int),
                        )
                    },
                    Err(e) => {
                        &&& dec == Err::<Seq<u8>, Error>(e)
                        &&& final(self).spec_output().skip(old(self).spec_output().len() as int)
                            == spec_gzip_decoded_prefix(
                            old(self).spec_reader().spec_bytes(),
                            old(self).spec_reader().spec_pos() as int,
                        )
                    },
                }
            }),
    {
        proof {
            lemma_seq_prefix_refl(self.writer@);
        }
        let _ = self.reader.position();
        let ghost d = self.spec_reader().spec_bytes();
        let ghost q0 = self.spec_reader().spec_pos() as int;
        let ghost out_init = self.spec_output();
        let ghost fuel0: nat = (d.len() + 1) as nat;
        let ghost mut fuel: nat = fuel0;
        proof {
            let m0 = spec_members(d, q0, fuel0);
            assert(out_init.skip(out_init.len() as int) =~= Seq::<u8>::empty());
            if m0 is Ok {
                assert(Seq::<u8>::empty() + m0->Ok_0 =~= m0->Ok_0);
            }
            assert(Seq::<u8>::empty() + spec_decoded_prefix(d, q0, fuel0) =~= spec_decoded_prefix(
                d,
                q0,
                fuel0,
            ));
        }
        loop
            invariant
                d == old(self).spec_reader().spec_bytes(),
                q0 == old(self).spec_reader().spec_pos() as int,
                out_init == old(self).spec_output(),
                fuel0 == (d.len() + 1) as nat,
                self.spec_reader().spec_bytes() == d,
                out_init.is_prefix_of(self.spec_output()),
                self.spec_reader().spec_pos() <= d.len(),
                fuel <= fuel0,
                fuel > d.len() - self.spec_reader().spec_pos(),
                spec_members(d, q0, fuel0) == (match spec_members(
                    d,
                    self.spec_reader().spec_pos() as int,
                    fuel,
                ) {
                    Err(e) => Err::<Seq<u8>, Error>(e),
                    Ok(rest) => Ok::<Seq<u8>, Error>(
                        self.spec_output().skip(out_init.len() as int) + rest,
                    ),
                }),
                spec_decoded_prefix(d, q0, fuel0) == self.spec_output().skip(
                    out_init.len() as int,
                ) + spec_decoded_prefix(d, self.spec_reader().spec_pos() as int, fuel),
            decreases d.len() - self.spec_reader().spec_pos(),
        {
            let ghost p = self.spec_reader().spec_pos() as int;
            let ghost out_before = self.spec_output();
            let ghost emitted = out_before.skip(out_init.len() as int);
            match self.read_member() {
                None => {
                    proof {
                        assert(spec_members(d, p, fuel) == Ok::<Seq<u8>, Error>(
                            Seq::<u8>::empty(),
                        ));
                        assert(emitted + Seq::<u8>::empty() =~= emitted);
                    }
                    return Ok(());
                },
                Some(res) => {
                    match res {
                        Ok(()) => {},
                        Err(e) => {
                            proof {
                                lemma_seq_prefix_trans(out_init, out_before, self.spec_output());
                                assert(spec_members(d, p, fuel) == Err::<Seq<u8>, Error>(e));
                                assert(spec_decoded_prefix(d, p, fuel) =~= Seq::<u8>::empty());
                                assert(emitted + Seq::<u8>::empty() =~= emitted);
                            }
                            return Err(e);
                        },
                    }
                },
            }
            proof {
                let p2 = self.spec_reader().spec_pos() as int;
                let m = self.spec_output().skip(out_before.len() as int);
                assert(spec_member(d, p) == Ok::<(Seq<u8>, int), Error>((m, p2)));
                assert(self.spec_output() == out_before + m);
                lemma_seq_prefix_trans(out_init, out_before, self.spec_output());
                assert(self.spec_output().skip(out_init.len() as int) =~= emitted + m);
                assert(spec_members(d, p, fuel) == (match spec_members(d, p2, (fuel - 1) as nat) {
                    Err(e) => Err::<Seq<u8>, Error>(e),
                    Ok(rest) => Ok::<Seq<u8>, Error>(m + rest),
                }));
                let tailm = spec_members(d, p2, (fuel - 1) as nat);
                if tailm is Ok {
                    assert((emitted + m) + tailm->Ok_0 =~= emitted + (m + tailm->Ok_0));
                }
                assert(spec_decoded_prefix(d, p, fuel) == m + spec_decoded_prefix(
                    d,
                    p2,
                    (fuel - 1) as nat,
                ));
                assert((emitted + m) + spec_decoded_prefix(d, p2, (fuel - 1) as nat)
                    =~= emitted + (m + spec_decoded_prefix(d, p2, (fuel - 1) as nat)));
                fuel = (fuel - 1) as nat;
            }
        }
    }
}

/// Every sequence is a prefix of itself.
proof fn lemma_seq_prefix_refl(a: Seq<u8>)
    ensures
        a.is_prefix_of(a),
{
    assert(a.subrange(0, a.len() as int) =~= a);
}

/// Being a prefix carries across an intermediate sequence.
proof fn lemma_seq_prefix_trans(a: Seq<u8>, m: Seq<u8>, b: Seq<u8>)
    requires
        a.is_prefix_of(m),
        m.is_prefix_of(b),
    ensures
        a.is_prefix_of(b),
{
    assert(b.subrange(0, a.len() as int) =~= a) by {
        assert(m.subrange(0, a.len() as int) =~= a);
        assert(b.subrange(0, m.len() as int) =~= m);
        assert forall|i: int| 0 <= i < a.len() implies b[i] == a[i] by {
            assert(m[i] == b.subrange(0, m.len() as int)[i]);
            assert(a[i] == m.subrange(0, a.len() as int)[i]);
        }
    }
}

} // verus!
