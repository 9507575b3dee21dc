use vstd::prelude::*;

verus! {

/// The CRC-32 digest (polynomial `CRC_32_ISO_HDLC`: initial value
/// all-ones, xor-out all-ones, reflected) of a byte sequence.
pub uninterp spec fn crc32_of(bytes: Seq<u8>) -> u32;

/// Relies on `crc::Crc::<u32>::checksum` with the `CRC_32_ISO_HDLC`
/// algorithm of the crc crate: the digest depends on the input bytes
/// alone.
#[verifier::external_body]
pub(crate) fn crc32_bytes(bytes: &Vec<u8>) -> (r: u32)
    ensures
        r == crc32_of(bytes@),
{
    crc::Crc::<u32>::new(&crc::CRC_32_ISO_HDLC).checksum(bytes.as_slice())
}

} // verus!
