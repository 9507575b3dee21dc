use ripgzip::bit_reader::{BitReader, BitSequence, ByteReader};
use ripgzip::huffman_coding::{HuffmanCoding, LitLenToken, DistanceToken, TreeCodeToken, CodeSymbol, HuffmanCodeWord};

fn lit(value: u8) -> Option<LitLenToken> {
    Some(LitLenToken::Literal(value))
}

#[test]
fn from_lengths() {
    let code = HuffmanCoding::<LitLenToken>::from_lengths(&[2, 3, 4, 3, 3, 4, 2]).unwrap();

    assert_eq!(code.decode_symbol(BitSequence::new(0b00, 2)), lit(0));
    assert_eq!(code.decode_symbol(BitSequence::new(0b100, 3)), lit(1));
    assert_eq!(code.decode_symbol(BitSequence::new(0b1110, 4)), lit(2));
    assert_eq!(code.decode_symbol(BitSequence::new(0b101, 3)), lit(3));
    assert_eq!(code.decode_symbol(BitSequence::new(0b110, 3)), lit(4));
    assert_eq!(code.decode_symbol(BitSequence::new(0b1111, 4)), lit(5));
    assert_eq!(code.decode_symbol(BitSequence::new(0b01, 2)), lit(6));

    assert_eq!(code.decode_symbol(BitSequence::new(0b0, 1)), None);
    assert_eq!(code.decode_symbol(BitSequence::new(0b10, 2)), None);
    assert_eq!(code.decode_symbol(BitSequence::new(0b111, 3)), None);
}

#[test]
fn read_symbol() {
    let code = HuffmanCoding::<LitLenToken>::from_lengths(&[2, 3, 4, 3, 3, 4, 2]).unwrap();
    let data: Vec<u8> = vec![0b10111001, 0b11001010, 0b11101101];
    let mut reader = BitReader::new(ByteReader::new(data));

    assert_eq!(code.read_symbol(&mut reader).unwrap(), LitLenToken::Literal(1));
    assert_eq!(code.read_symbol(&mut reader).unwrap(), LitLenToken::Literal(2));
    assert_eq!(code.read_symbol(&mut reader).unwrap(), LitLenToken::Literal(3));
    assert_eq!(code.read_symbol(&mut reader).unwrap(), LitLenToken::Literal(6));
    assert_eq!(code.read_symbol(&mut reader).unwrap(), LitLenToken::Literal(0));
    assert_eq!(code.read_symbol(&mut reader).unwrap(), LitLenToken::Literal(2));
    assert_eq!(code.read_symbol(&mut reader).unwrap(), LitLenToken::Literal(4));
    assert!(code.read_symbol(&mut reader).is_err());
}

#[test]
fn from_lengths_with_zeros() {
    let lengths = [3, 4, 5, 5, 0, 0, 6, 6, 4, 0, 6, 0, 7];
    let code = HuffmanCoding::<LitLenToken>::from_lengths(&lengths).unwrap();
    let data: Vec<u8> = vec![
        0b00100000, 0b00100001, 0b00010101, 0b10010101, 0b00110101, 0b00011101,
    ];
    let mut reader = BitReader::new(ByteReader::new(data));

    assert_eq!(code.read_symbol(&mut reader).unwrap(), LitLenToken::Literal(0));
    assert_eq!(code.read_symbol(&mut reader).unwrap(), LitLenToken::Literal(1));
    assert_eq!(code.read_symbol(&mut reader).unwrap(), LitLenToken::Literal(2));
    assert_eq!(code.read_symbol(&mut reader).unwrap(), LitLenToken::Literal(3));
    assert_eq!(code.read_symbol(&mut reader).unwrap(), LitLenToken::Literal(6));
    assert_eq!(code.read_symbol(&mut reader).unwrap(), LitLenToken::Literal(7));
    assert_eq!(code.read_symbol(&mut reader).unwrap(), LitLenToken::Literal(8));
    assert_eq!(code.read_symbol(&mut reader).unwrap(), LitLenToken::Literal(10));
    assert_eq!(code.read_symbol(&mut reader).unwrap(), LitLenToken::Literal(12));
    assert!(code.read_symbol(&mut reader).is_err());
}

#[test]
fn from_lengths_additional() {
    let lengths = [
        9, 10, 10, 8, 8, 8, 5, 6, 4, 5, 4, 5, 4, 5, 4, 4, 5, 4, 4, 5, 4, 5, 4, 5, 5, 5, 4, 6, 6,
    ];
    let code = HuffmanCoding::<LitLenToken>::from_lengths(&lengths).unwrap();
    let data: Vec<u8> = vec![
        0b11111000, 0b10111100, 0b01010001, 0b11111111, 0b00110101, 0b11111001, 0b11011111,
        0b11100001, 0b01110111, 0b10011111, 0b10111111, 0b00110100, 0b10111010, 0b11111111,
        0b11111101, 0b10010100, 0b11001110, 0b01000011, 0b11100111, 0b00000010,
    ];
    let mut reader = BitReader::new(ByteReader::new(data));

    assert_eq!(code.read_symbol(&mut reader).unwrap(), LitLenToken::Literal(10));
    assert_eq!(code.read_symbol(&mut reader).unwrap(), LitLenToken::Literal(7));
    assert_eq!(code.read_symbol(&mut reader).unwrap(), LitLenToken::Literal(27));
    assert_eq!(code.read_symbol(&mut reader).unwrap(), LitLenToken::Literal(22));
    assert_eq!(code.read_symbol(&mut reader).unwrap(), LitLenToken::Literal(9));
    assert_eq!(code.read_symbol(&mut reader).unwrap(), LitLenToken::Literal(0));
    assert_eq!(code.read_symbol(&mut reader).unwrap(), LitLenToken::Literal(11));
    assert_eq!(code.read_symbol(&mut reader).unwrap(), LitLenToken::Literal(15));
    assert_eq!(code.read_symbol(&mut reader).unwrap(), LitLenToken::Literal(2));
    assert_eq!(code.read_symbol(&mut reader).unwrap(), LitLenToken::Literal(20));
    assert_eq!(code.read_symbol(&mut reader).unwrap(), LitLenToken::Literal(8));
    assert_eq!(code.read_symbol(&mut reader).unwrap(), LitLenToken::Literal(4));
    assert_eq!(code.read_symbol(&mut reader).unwrap(), LitLenToken::Literal(23));
    assert_eq!(code.read_symbol(&mut reader).unwrap(), LitLenToken::Literal(24));
    assert_eq!(code.read_symbol(&mut reader).unwrap(), LitLenToken::Literal(5));
    assert_eq!(code.read_symbol(&mut reader).unwrap(), LitLenToken::Literal(26));
    assert_eq!(code.read_symbol(&mut reader).unwrap(), LitLenToken::Literal(18));
    assert_eq!(code.read_symbol(&mut reader).unwrap(), LitLenToken::Literal(12));
    assert_eq!(code.read_symbol(&mut reader).unwrap(), LitLenToken::Literal(25));
    assert_eq!(code.read_symbol(&mut reader).unwrap(), LitLenToken::Literal(1));
    assert_eq!(code.read_symbol(&mut reader).unwrap(), LitLenToken::Literal(3));
    assert_eq!(code.read_symbol(&mut reader).unwrap(), LitLenToken::Literal(6));
    assert_eq!(code.read_symbol(&mut reader).unwrap(), LitLenToken::Literal(13));
    assert_eq!(code.read_symbol(&mut reader).unwrap(), LitLenToken::Literal(14));
    assert_eq!(code.read_symbol(&mut reader).unwrap(), LitLenToken::Literal(16));
    assert_eq!(code.read_symbol(&mut reader).unwrap(), LitLenToken::Literal(17));
    assert_eq!(code.read_symbol(&mut reader).unwrap(), LitLenToken::Literal(19));
    assert_eq!(code.read_symbol(&mut reader).unwrap(), LitLenToken::Literal(21));
}

#[test]
fn token_mappings() {
    // literal/length alphabet edges (RFC 1951, section 3.2.5)
    assert_eq!(
        <LitLenToken as CodeSymbol>::try_from(HuffmanCodeWord(0)).unwrap(),
        LitLenToken::Literal(0)
    );
    assert_eq!(
        <LitLenToken as CodeSymbol>::try_from(HuffmanCodeWord(256)).unwrap(),
        LitLenToken::EndOfBlock
    );
    assert_eq!(
        <LitLenToken as CodeSymbol>::try_from(HuffmanCodeWord(257)).unwrap(),
        LitLenToken::Length { base: 3, extra_bits: 0 }
    );
    assert_eq!(
        <LitLenToken as CodeSymbol>::try_from(HuffmanCodeWord(265)).unwrap(),
        LitLenToken::Length { base: 11, extra_bits: 1 }
    );
    assert_eq!(
        <LitLenToken as CodeSymbol>::try_from(HuffmanCodeWord(284)).unwrap(),
        LitLenToken::Length { base: 227, extra_bits: 5 }
    );
    assert_eq!(
        <LitLenToken as CodeSymbol>::try_from(HuffmanCodeWord(285)).unwrap(),
        LitLenToken::Length { base: 258, extra_bits: 0 }
    );
    assert!(<LitLenToken as CodeSymbol>::try_from(HuffmanCodeWord(286)).is_err());

    // distance alphabet edges
    assert_eq!(
        <DistanceToken as CodeSymbol>::try_from(HuffmanCodeWord(0)).unwrap(),
        DistanceToken { base: 1, extra_bits: 0 }
    );
    assert_eq!(
        <DistanceToken as CodeSymbol>::try_from(HuffmanCodeWord(4)).unwrap(),
        DistanceToken { base: 5, extra_bits: 1 }
    );
    assert_eq!(
        <DistanceToken as CodeSymbol>::try_from(HuffmanCodeWord(29)).unwrap(),
        DistanceToken { base: 24577, extra_bits: 13 }
    );
    assert!(<DistanceToken as CodeSymbol>::try_from(HuffmanCodeWord(30)).is_err());

    // code-length alphabet
    assert_eq!(
        <TreeCodeToken as CodeSymbol>::try_from(HuffmanCodeWord(15)).unwrap(),
        TreeCodeToken::Length(15)
    );
    assert_eq!(
        <TreeCodeToken as CodeSymbol>::try_from(HuffmanCodeWord(17)).unwrap(),
        TreeCodeToken::RepeatZero { base: 3, extra_bits: 3 }
    );
    assert_eq!(
        <TreeCodeToken as CodeSymbol>::try_from(HuffmanCodeWord(18)).unwrap(),
        TreeCodeToken::RepeatZero { base: 11, extra_bits: 7 }
    );
    assert!(<TreeCodeToken as CodeSymbol>::try_from(HuffmanCodeWord(19)).is_err());
}

#[test]
fn codeword_outside_alphabet_is_bad_code() {
    // the fixed distance code assigns codewords to the two indexes the
    // alphabet leaves out; their bits must fail to decode
    let mut lengths: Vec<u8> = Vec::new();
    for _ in 0..32 {
        lengths.push(5);
    }
    let code = HuffmanCoding::<DistanceToken>::from_lengths(lengths.as_slice()).unwrap();
    // codeword of symbol 30 is 11110; its bits arrive most significant
    // first, so the stream byte is 0b00001111
    let mut reader = BitReader::new(ByteReader::new(vec![0b00001111]));
    assert!(code.read_symbol(&mut reader).is_err());
    // symbol 7 has codeword 00111
    let mut reader2 = BitReader::new(ByteReader::new(vec![0b00011100]));
    assert_eq!(
        code.read_symbol(&mut reader2).unwrap(),
        DistanceToken { base: 13, extra_bits: 2 }
    );
}
