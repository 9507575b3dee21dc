use ripgzip::bit_reader::{BitReader, BitSequence, ByteReader};
use ripgzip::Error;

#[test]
fn read_bits() {
    let data: Vec<u8> = vec![0b01100011, 0b11011011, 0b10101111];
    let mut reader = BitReader::new(ByteReader::new(data));
    assert_eq!(reader.read_bits(1).unwrap(), BitSequence::new(0b1, 1));
    assert_eq!(reader.read_bits(2).unwrap(), BitSequence::new(0b01, 2));
    assert_eq!(reader.read_bits(3).unwrap(), BitSequence::new(0b100, 3));
    assert_eq!(reader.read_bits(4).unwrap(), BitSequence::new(0b1101, 4));
    assert_eq!(reader.read_bits(5).unwrap(), BitSequence::new(0b10110, 5));
    assert_eq!(reader.read_bits(8).unwrap(), BitSequence::new(0b01011111, 8));
    assert_eq!(reader.read_bits(2).unwrap_err(), Error::UnexpectedEof);
}

#[test]
fn borrow_reader_from_boundary() {
    let data: Vec<u8> = vec![0b01100011, 0b11011011, 0b10101111];
    let mut reader = BitReader::new(ByteReader::new(data));
    assert_eq!(reader.read_bits(3).unwrap(), BitSequence::new(0b011, 3));
    assert_eq!(reader.borrow_reader_from_boundary().read_u8().unwrap(), 0b11011011);
    assert_eq!(reader.read_bits(8).unwrap(), BitSequence::new(0b10101111, 8));
}

#[test]
fn bit_sequence_masks_high_positions() {
    // positions at or above the length come out zero
    assert_eq!(BitSequence::new(0xffff, 4).bits(), 0x000f);
    assert_eq!(BitSequence::new(0xffff, 0).bits(), 0);
    assert_eq!(BitSequence::new(0xffff, 16).bits(), 0xffff);
    assert_eq!(BitSequence::new(0b1010, 3).bits(), 0b010);
    assert_eq!(BitSequence::new(0b1010, 3).len(), 3);
}

#[test]
fn bit_sequence_drop_low_and_concat() {
    let mut s = BitSequence::new(0b110101, 6);
    assert_eq!(s.drop_low(3), 0b101);
    assert_eq!(s.bits(), 0b110);
    assert_eq!(s.len(), 3);

    let hi = BitSequence::new(0b11, 2);
    let lo = BitSequence::new(0b01, 2);
    let joined = hi.concat(lo);
    assert_eq!(joined.bits(), 0b1101);
    assert_eq!(joined.len(), 4);
}

#[test]
fn byte_reader_little_endian() {
    let mut r = ByteReader::new(vec![0x01, 0x02, 0x03, 0x04, 0x05, 0x06, 0x07]);
    assert_eq!(r.read_u8().unwrap(), 0x01);
    assert_eq!(r.read_u16_le().unwrap(), 0x0302);
    assert_eq!(r.read_u32_le().unwrap(), 0x07060504);
    assert_eq!(r.read_u32_le().unwrap_err(), Error::UnexpectedEof);
}

#[test]
fn byte_reader_until_zero() {
    let mut r = ByteReader::new(vec![0x61, 0x62, 0x00, 0x63]);
    assert_eq!(r.read_until_zero().unwrap(), vec![0x61, 0x62]);
    assert_eq!(r.read_u8().unwrap(), 0x63);
    assert!(r.at_eof());

    let mut r2 = ByteReader::new(vec![0x61, 0x62]);
    assert!(r2.read_until_zero().is_none());
}
