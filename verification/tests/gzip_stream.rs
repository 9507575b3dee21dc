use ripgzip::decompress;
use ripgzip::Error;
use ripgzip::bit_reader::{BitReader, ByteReader};
use ripgzip::gzip::{MemberHeader, CompressionMethod};
use ripgzip::huffman_coding::decode_litlen_distance_trees;

fn run(input: Vec<u8>) -> Result<Vec<u8>, Error> {
    let mut output: Vec<u8> = Vec::new();
    decompress(input, &mut output)?;
    Ok(output)
}

#[test]
fn empty_fixed_member() {
    let input: Vec<u8> = vec![
        0x1f, 0x8b, 0x08, 0x00, 0x00, 0x00, 0x00, 0x00, 0x00, 0x03, 0x03, 0x00, 0x00, 0x00,
        0x00, 0x00, 0x00, 0x00, 0x00, 0x00,
    ];
    assert_eq!(run(input).unwrap(), Vec::<u8>::new());
}

#[test]
fn named_member_fixed_hello() {
    let input: Vec<u8> = vec![
        0x1f, 0x8b, 0x08, 0x08, 0x00, 0x00, 0x00, 0x00, 0x00, 0x03, 0x61, 0x2e, 0x74, 0x78,
        0x74, 0x00, 0xcb, 0x48, 0xcd, 0xc9, 0xc9, 0x07, 0x00, 0x86, 0xa6, 0x10, 0x36, 0x05,
        0x00, 0x00, 0x00,
    ];
    assert_eq!(run(input).unwrap(), b"hello".to_vec());
}

#[test]
fn header_crc_accepted() {
    let input: Vec<u8> = vec![
        0x1f, 0x8b, 0x08, 0x02, 0x00, 0x00, 0x00, 0x00, 0x00, 0x03, 0xa7, 0x77, 0x01, 0x00,
        0x00, 0xff, 0xff, 0x00, 0x00, 0x00, 0x00, 0x00, 0x00, 0x00, 0x00,
    ];
    assert_eq!(run(input).unwrap(), Vec::<u8>::new());
}

#[test]
fn header_crc_mismatch() {
    let input: Vec<u8> = vec![
        0x1f, 0x8b, 0x08, 0x02, 0x00, 0x00, 0x00, 0x00, 0x00, 0x03, 0x00, 0x00, 0x01, 0x00,
        0x00, 0xff, 0xff, 0x00, 0x00, 0x00, 0x00, 0x00, 0x00, 0x00, 0x00,
    ];
    assert_eq!(run(input).unwrap_err(), Error::HeaderCrcMismatch);
}

#[test]
fn length_mismatch() {
    let input: Vec<u8> = vec![
        0x1f, 0x8b, 0x08, 0x00, 0x00, 0x00, 0x00, 0x00, 0x00, 0x03, 0x01, 0x02, 0x00, 0xfd,
        0xff, 0x61, 0x62, 0x6d, 0x48, 0x83, 0x9e, 0x03, 0x00, 0x00, 0x00,
    ];
    assert_eq!(run(input).unwrap_err(), Error::LengthMismatch);
}

#[test]
fn two_members_concatenate() {
    let input: Vec<u8> = vec![
        0x1f, 0x8b, 0x08, 0x00, 0x00, 0x00, 0x00, 0x00, 0x00, 0x03, 0x01, 0x02, 0x00, 0xfd,
        0xff, 0x61, 0x62, 0x6d, 0x48, 0x83, 0x9e, 0x02, 0x00, 0x00, 0x00, 0x1f, 0x8b, 0x08,
        0x00, 0x00, 0x00, 0x00, 0x00, 0x00, 0x03, 0x01, 0x02, 0x00, 0xfd, 0xff, 0x63, 0x64,
        0xda, 0x8f, 0xd6, 0x45, 0x02, 0x00, 0x00, 0x00,
    ];
    assert_eq!(run(input).unwrap(), b"abcd".to_vec());
}

#[test]
fn concatenation_equals_separate_runs() {
    let first: Vec<u8> = vec![
        0x1f, 0x8b, 0x08, 0x00, 0x00, 0x00, 0x00, 0x00, 0x00, 0x03, 0x01, 0x02, 0x00, 0xfd,
        0xff, 0x61, 0x62, 0x6d, 0x48, 0x83, 0x9e, 0x02, 0x00, 0x00, 0x00,
    ];
    let second: Vec<u8> = vec![
        0x1f, 0x8b, 0x08, 0x08, 0x00, 0x00, 0x00, 0x00, 0x00, 0x03, 0x61, 0x2e, 0x74, 0x78,
        0x74, 0x00, 0xcb, 0x48, 0xcd, 0xc9, 0xc9, 0x07, 0x00, 0x86, 0xa6, 0x10, 0x36, 0x05,
        0x00, 0x00, 0x00,
    ];
    let mut joined = first.clone();
    joined.extend(second.iter().copied());
    let mut separate = run(first).unwrap();
    separate.extend(run(second).unwrap());
    assert_eq!(run(joined).unwrap(), separate);
}

#[test]
fn empty_input_is_ok() {
    assert_eq!(run(Vec::new()).unwrap(), Vec::<u8>::new());
}

#[test]
fn bad_magic() {
    assert_eq!(run(vec![0x00]).unwrap_err(), Error::BadMagic);
    assert_eq!(run(vec![0x1f, 0x00]).unwrap_err(), Error::BadMagic);
}

#[test]
fn unsupported_compression_method() {
    let input: Vec<u8> = vec![0x1f, 0x8b, 0x07, 0x00, 0x00, 0x00, 0x00, 0x00, 0x00, 0x03];
    assert_eq!(run(input).unwrap_err(), Error::UnsupportedCompressionMethod(7));
}

#[test]
fn unsupported_block_type() {
    let input: Vec<u8> = vec![
        0x1f, 0x8b, 0x08, 0x00, 0x00, 0x00, 0x00, 0x00, 0x00, 0x03, 0x07,
    ];
    assert_eq!(run(input).unwrap_err(), Error::UnsupportedBlockType);
}

#[test]
fn stored_length_mismatch() {
    let input: Vec<u8> = vec![
        0x1f, 0x8b, 0x08, 0x00, 0x00, 0x00, 0x00, 0x00, 0x00, 0x03, 0x01, 0x00, 0x00, 0x00,
        0x00,
    ];
    assert_eq!(run(input).unwrap_err(), Error::StoredLengthMismatch);
}

#[test]
fn unterminated_name() {
    let input: Vec<u8> = vec![
        0x1f, 0x8b, 0x08, 0x08, 0x00, 0x00, 0x00, 0x00, 0x00, 0x03, 0x61, 0x62, 0x63,
    ];
    assert_eq!(run(input).unwrap_err(), Error::InvalidName);
}

#[test]
fn unterminated_comment() {
    let input: Vec<u8> = vec![
        0x1f, 0x8b, 0x08, 0x10, 0x00, 0x00, 0x00, 0x00, 0x00, 0x03, 0x78, 0x79, 0x7a,
    ];
    assert_eq!(run(input).unwrap_err(), Error::InvalidComment);
}

#[test]
fn data_crc_mismatch() {
    let input: Vec<u8> = vec![
        0x1f, 0x8b, 0x08, 0x00, 0x00, 0x00, 0x00, 0x00, 0x00, 0x03, 0x01, 0x02, 0x00, 0xfd,
        0xff, 0x61, 0x62, 0x92, 0x48, 0x83, 0x9e, 0x02, 0x00, 0x00, 0x00,
    ];
    assert_eq!(run(input).unwrap_err(), Error::DataCrcMismatch);
}

#[test]
fn truncated_input() {
    let input: Vec<u8> = vec![0x1f, 0x8b, 0x08];
    assert_eq!(run(input).unwrap_err(), Error::UnexpectedEof);
}

#[test]
fn mutated_payload_is_caught() {
    // one flipped bit inside a stored payload: the digest check fails
    // before any wrong bytes are accepted
    let input: Vec<u8> = vec![
        0x1f, 0x8b, 0x08, 0x00, 0x00, 0x00, 0x00, 0x00, 0x00, 0x03, 0x01, 0x02, 0x00, 0xfd,
        0xff, 0x60, 0x62, 0x6d, 0x48, 0x83, 0x9e, 0x02, 0x00, 0x00, 0x00,
    ];
    assert_eq!(run(input).unwrap_err(), Error::DataCrcMismatch);
}

#[test]
fn repeat_before_first_length() {
    // a dynamic block whose first code-length symbol copies the
    // previous length, which does not exist yet
    let data: Vec<u8> = vec![0x00, 0x40, 0x02, 0x00];
    let mut reader = BitReader::new(ByteReader::new(data));
    match decode_litlen_distance_trees(&mut reader) {
        Ok(_) => panic!("a leading length copy must be rejected"),
        Err(e) => assert_eq!(e, Error::BadRepeat),
    }
}

#[test]
fn member_flags_bits() {
    let plain = MemberHeader {
        compression_method: CompressionMethod::Deflate,
        modification_time: 0,
        extra: None,
        name: None,
        comment: None,
        extra_flags: 0,
        os: 3,
        has_crc: false,
        is_text: false,
    };
    let mut flags = plain.flags();
    assert!(!flags.has_crc());
    flags.set_has_crc(true);
    flags.set_has_name(true);
    assert!(flags.has_crc());
    assert!(flags.has_name());
    assert!(!flags.is_text());
    assert!(!flags.has_extra());
    assert!(!flags.has_comment());
    flags.set_has_crc(false);
    assert!(!flags.has_crc());
    assert!(flags.has_name());
}

#[test]
fn header_crc16_of_plain_header() {
    // the CRC of the ten fixed header bytes, truncated to sixteen bits
    let header = MemberHeader {
        compression_method: CompressionMethod::Deflate,
        modification_time: 0,
        extra: None,
        name: None,
        comment: None,
        extra_flags: 0,
        os: 3,
        has_crc: true,
        is_text: false,
    };
    assert_eq!(header.crc16(), 0x77a7);
    assert!(header.flags().has_crc());
}


#[test]
fn dynamic_block_member() {
    // a member whose payload is one dynamic-Huffman block with many
    // back-references; the expected text is rebuilt from the same
    // word sequence
    let input: Vec<u8> = vec![
        0x1f, 0x8b, 0x08, 0x00, 0x00, 0x00, 0x00, 0x00, 0x00, 0x03, 0x85, 0x55,
        0x5b, 0x0e, 0xc2, 0x30, 0x0c, 0xbb, 0x4a, 0xaf, 0x56, 0xf6, 0x60, 0x43,
        0x15, 0x45, 0x53, 0x41, 0x1c, 0x1f, 0xb4, 0x30, 0xb0, 0x1b, 0xb7, 0xfc,
        0xb5, 0x6b, 0xe2, 0x38, 0x71, 0x92, 0xc5, 0x74, 0x5b, 0x62, 0x98, 0xf3,
        0xb3, 0x6c, 0xb9, 0x84, 0x69, 0x58, 0x72, 0x38, 0x6d, 0xf1, 0x91, 0xed,
        0x78, 0xb9, 0xa7, 0x75, 0x2a, 0x61, 0x58, 0xe2, 0xf6, 0x3e, 0x7c, 0xcd,
        0xce, 0x39, 0xcd, 0x61, 0xc9, 0x65, 0x4a, 0x61, 0xbd, 0x8e, 0x6b, 0xfc,
        0xb8, 0xec, 0x9f, 0xed, 0xe8, 0x3e, 0x57, 0x48, 0x0d, 0xe0, 0xe3, 0x8e,
        0x20, 0x82, 0xdb, 0x8e, 0xa8, 0x7d, 0x6a, 0xc4, 0x48, 0xf9, 0x55, 0xe1,
        0x77, 0x48, 0x4a, 0x0a, 0x1f, 0xc6, 0x29, 0x95, 0x88, 0x61, 0x6b, 0xec,
        0xfd, 0xc9, 0xca, 0x70, 0x3c, 0xd9, 0xcd, 0xd5, 0xa7, 0x8e, 0x6f, 0xd0,
        0xd1, 0xd7, 0x9e, 0xc8, 0x98, 0x55, 0xc5, 0x19, 0x8a, 0x0c, 0x2c, 0x5d,
        0xe9, 0x7d, 0x22, 0x16, 0x4d, 0xd8, 0xd8, 0xc5, 0xe1, 0x70, 0x4a, 0x2d,
        0xa5, 0x88, 0xbd, 0x61, 0xe8, 0x94, 0x8f, 0x3b, 0x85, 0x26, 0x21, 0xd9,
        0x4f, 0x75, 0x8d, 0xef, 0x27, 0x4b, 0x4a, 0x53, 0x64, 0x3c, 0x65, 0x49,
        0x20, 0x8a, 0x12, 0x3a, 0x19, 0x1c, 0x08, 0xac, 0x44, 0x64, 0xa6, 0x2a,
        0xa6, 0x1f, 0x1b, 0x0a, 0xcf, 0x1d, 0x02, 0x71, 0x50, 0x25, 0xf4, 0x66,
        0x87, 0x7a, 0x80, 0x91, 0xa3, 0xf7, 0xc5, 0x96, 0x20, 0x16, 0xdd, 0xa9,
        0xc1, 0x42, 0xb0, 0x21, 0xdf, 0x3a, 0xe2, 0x32, 0x69, 0x04, 0xc4, 0x34,
        0xeb, 0x29, 0x64, 0x2c, 0x9e, 0x0e, 0xf4, 0x96, 0x49, 0x60, 0xae, 0xd0,
        0xe5, 0x42, 0x6e, 0x39, 0x90, 0x7f, 0x9f, 0x8c, 0x80, 0x1b, 0x03, 0xd0,
        0xa2, 0x35, 0x11, 0xb0, 0x2d, 0x48, 0x04, 0xb5, 0x81, 0xa1, 0x2d, 0x48,
        0x0d, 0x48, 0x06, 0x25, 0x47, 0xa4, 0x66, 0xbb, 0xf4, 0x17, 0x29, 0x77,
        0x6f, 0x67, 0x11, 0x36, 0xd3, 0x51, 0xb2, 0x29, 0x6d, 0xfa, 0x8b, 0x06,
        0x08, 0xb7, 0x97, 0x87, 0xff, 0x75, 0x61, 0xeb, 0x03, 0x33, 0x3d, 0x27,
        0x60, 0xd0, 0xee, 0x50, 0x27, 0xb1, 0x5f, 0xb5, 0xce, 0xdc, 0xc9, 0xf3,
        0xfb, 0xfa, 0x02, 0x55, 0x6a, 0x9f, 0xe7, 0x81, 0x07, 0x00, 0x00,
    ];
    let words = [
        "alpha", "bravo", "charlie", "delta", "echo", "foxtrot", "golf", "hotel", "india",
        "juliet",
    ];
    let mut x: u64 = 1;
    let mut expected = String::new();
    let mut i: usize = 0;
    while i < 300 {
        x = (x * 1103515245 + 12345) % 0x80000000;
        if i > 0 {
            expected.push(' ');
        }
        expected.push_str(words[(x % 10) as usize]);
        i += 1;
    }
    assert_eq!(run(input).unwrap(), expected.into_bytes());
}

#[test]
fn fixed_block_with_back_references() {
    // a member compressed with the fixed code, long enough to use
    // length/distance pairs
    let input: Vec<u8> = vec![
        0x1f, 0x8b, 0x08, 0x00, 0x00, 0x00, 0x00, 0x00, 0x00, 0x03, 0x2b, 0xc9, 0x48, 0x55,
        0x28, 0x2c, 0xcd, 0x4c, 0xce, 0x56, 0x48, 0x2a, 0xca, 0x2f, 0xcf, 0x53, 0x48, 0xcb,
        0xaf, 0x50, 0xc8, 0x2a, 0xcd, 0x2d, 0x28, 0x56, 0xc8, 0x2f, 0x4b, 0x2d, 0x52, 0x28,
        0x01, 0x4a, 0xe7, 0x24, 0x56, 0x55, 0x2a, 0xa4, 0xe4, 0xa7, 0xeb, 0x80, 0x79, 0xa3,
        0x8a, 0xc9, 0x52, 0x0c, 0x00, 0xc6, 0xc1, 0xec, 0xd9, 0x68, 0x01, 0x00, 0x00,
    ];
    let mut expected: Vec<u8> = Vec::new();
    let mut i: usize = 0;
    while i < 8 {
        expected.extend_from_slice(b"the quick brown fox jumps over the lazy dog, ");
        i += 1;
    }
    assert_eq!(run(input).unwrap(), expected);
}

#[test]
fn extra_field_member() {
    // a member with an FEXTRA field before a stored payload
    let input: Vec<u8> = vec![
        0x1f, 0x8b, 0x08, 0x04, 0x00, 0x00, 0x00, 0x00, 0x00, 0x03, 0x07, 0x00, 0x58, 0x59,
        0x03, 0x00, 0x61, 0x62, 0x63, 0x01, 0x02, 0x00, 0xfd, 0xff, 0x68, 0x69, 0xac, 0x2a,
        0x93, 0xd8, 0x02, 0x00, 0x00, 0x00,
    ];
    assert_eq!(run(input).unwrap(), b"hi".to_vec());
}

#[test]
fn header_crc_covers_stored_bytes() {
    // the checksum covers the header bytes as stored, so a header
    // with a reserved flag bit set and a matching digest parses
    let ok_input: Vec<u8> = vec![
        0x1f, 0x8b, 0x08, 0x22, 0x00, 0x00, 0x00, 0x00, 0x00, 0x03, 0x3b, 0x4e, 0x01, 0x00,
        0x00, 0xff, 0xff, 0x00, 0x00, 0x00, 0x00, 0x00, 0x00, 0x00, 0x00,
    ];
    assert_eq!(run(ok_input).unwrap(), Vec::<u8>::new());
    let bad_input: Vec<u8> = vec![
        0x1f, 0x8b, 0x08, 0x22, 0x00, 0x00, 0x00, 0x00, 0x00, 0x03, 0x3a, 0x4e, 0x01, 0x00,
        0x00, 0xff, 0xff, 0x00, 0x00, 0x00, 0x00, 0x00, 0x00, 0x00, 0x00,
    ];
    assert_eq!(run(bad_input).unwrap_err(), Error::HeaderCrcMismatch);
}

#[test]
fn error_keeps_leading_members() {
    // the output holds exactly the decoded bytes of the members
    // before the first failure
    let mut input: Vec<u8> = vec![
        0x1f, 0x8b, 0x08, 0x00, 0x00, 0x00, 0x00, 0x00, 0x00, 0x03, 0x01, 0x02, 0x00, 0xfd,
        0xff, 0x61, 0x62, 0x6d, 0x48, 0x83, 0x9e, 0x02, 0x00, 0x00, 0x00,
    ];
    input.extend_from_slice(&[0x1f, 0x00]);
    let mut output: Vec<u8> = Vec::new();
    assert_eq!(
        ripgzip::decompress(input, &mut output).unwrap_err(),
        Error::BadMagic
    );
    assert_eq!(output, b"ab".to_vec());
}
