use vstd::prelude::*;
use crate::bit_reader::ByteReader;
use crate::gzip::GzipReader;

pub mod bit_reader;
pub mod checksum;
pub mod combinations;
pub mod conway;
pub mod deflate;
pub mod flatmap;
pub mod gzip;
pub mod huffman_coding;
pub mod lru_cache;
pub mod min_queue;
pub mod prefix;
pub mod tracking_writer;
pub mod trust;

verus! {

/// The error kinds that decompression can surface.
#[derive(Clone, Copy, Debug, PartialEq, Eq, Structural)]
pub enum Error {
    /// The input ended in the middle of a field.
    UnexpectedEof,
    /// The member did not start with the gzip magic bytes.
    BadMagic,
    /// The member names a compression method other than DEFLATE.
    UnsupportedCompressionMethod(u8),
    /// A block carried the reserved block type.
    UnsupportedBlockType,
    /// A stored block whose one's-complement length check failed.
    StoredLengthMismatch,
    /// A bit pattern that decodes to no symbol of the current code.
    BadHuffmanCode,
    /// A length-copy token appeared first, or a repeat overran the table.
    BadRepeat,
    /// A back-reference distance of zero or above the window size.
    BadDistance,
    /// A back-reference that points before the start of the stream.
    DistanceExceedsWritten,
    /// The stored header checksum disagrees with the header bytes.
    HeaderCrcMismatch,
    /// The stored data checksum disagrees with the decompressed bytes.
    DataCrcMismatch,
    /// The stored size disagrees with the number of decompressed bytes.
    LengthMismatch,
    /// A header name field without its zero terminator.
    InvalidName,
    /// A header comment field without its zero terminator.
    InvalidComment,
}

/// Decompresses a stream of concatenated gzip members, appending the
/// decoded bytes to `output`. The call succeeds exactly when the
/// input is a well-formed sequence of members — every header parses,
/// every payload decodes, and every footer records the digest and
/// length of its member's data — and then it appends exactly the
/// members' decoded bytes. On an error it reports the first
/// failure's kind, and the output holds exactly the decoded bytes of
/// the members before the failing one.
pub fn decompress(input: Vec<u8>, output: &mut Vec<u8>) -> (r: Result<(), Error>)
    ensures
        old(output)@.is_prefix_of(final(output)@),
        match r {
            Ok(()) => crate::gzip::spec_gzip_members(input@, 0) == Ok::<Seq<u8>, Error>(
                final(output)@.skip(old(output)@.len() as int),
            ),
            Err(e) => {
                &&& crate::gzip::spec_gzip_members(input@, 0) == Err::<Seq<u8>, Error>(e)
                &&& final(output)@.skip(old(output)@.len() as int)
                    == crate::gzip::spec_gzip_decoded_prefix(input@, 0)
            },
        },
{
    let mut sink: Vec<u8> = Vec::new();
    core::mem::swap(output, &mut sink);
    let mut gzip_reader = GzipReader::new(ByteReader::new(input), sink);
    let r = gzip_reader.read();
    let mut collected = gzip_reader.into_writer();
    core::mem::swap(output, &mut collected);
    r
}

} // verus!
