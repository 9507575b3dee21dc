use ripgzip::tracking_writer::TrackingWriter;
use ripgzip::Error;

#[test]
fn write() {
    // the writer accepts every byte; after the same ten bytes the
    // count and the digest match the reference digest of that data
    let mut writer = TrackingWriter::new();
    assert_eq!(writer.write(&[1, 2, 3, 4]), 4);
    assert_eq!(writer.byte_count(), 4);
    assert_eq!(writer.write(&[4, 8, 15, 16, 23]), 5);
    assert_eq!(writer.byte_count(), 9);
    writer.write_u8(0);
    assert_eq!(writer.byte_count(), 10);
    assert_eq!(writer.crc32(), 2992191065);
}

#[test]
fn write_previous() {
    let mut writer = TrackingWriter::new();
    let mut i: usize = 0;
    while i <= 255 {
        writer.write_u8(i as u8);
        i += 1;
    }

    writer.write_previous(192, 128).unwrap();
    assert_eq!(writer.byte_count(), 384);

    assert!(writer.write_previous(10000, 20).is_err());
    assert_eq!(writer.byte_count(), 384);

    writer.write_previous(256, 256).unwrap();
    assert_eq!(writer.byte_count(), 640);
    let (_, _, bytes) = writer.finalize();
    assert_eq!(bytes[384..512], bytes[128..256]);
}

#[test]
fn write_previous_overlap() {
    // a one-byte window repeated five times: the copy re-reads what it
    // has just written
    let mut writer = TrackingWriter::new();
    writer.write_u8(b'A');
    writer.write_previous(1, 5).unwrap();
    let (_, count, bytes) = writer.finalize();
    assert_eq!(bytes, vec![b'A', b'A', b'A', b'A', b'A', b'A']);
    assert_eq!(count, 6);
    let mut reference = TrackingWriter::new();
    reference.write(&[b'A', b'A', b'A', b'A', b'A']);
    assert_eq!(reference.crc32(), 435704073);
}

#[test]
fn write_previous_cyclic_window() {
    let mut writer = TrackingWriter::new();
    writer.write(&[1, 2, 3]);
    writer.write_previous(2, 5).unwrap();
    let (_, _, bytes) = writer.finalize();
    assert_eq!(bytes, vec![1, 2, 3, 2, 3, 2, 3, 2]);
}

#[test]
fn write_previous_distance_checks() {
    let mut writer = TrackingWriter::new();
    let mut filler: Vec<u8> = Vec::new();
    let mut i: usize = 0;
    while i < 32768 {
        filler.push((i % 251) as u8);
        i += 1;
    }
    writer.write(filler.as_slice());
    assert_eq!(writer.write_previous(32768, 1), Ok(()));
    assert_eq!(writer.write_previous(32769, 1), Err(Error::BadDistance));
    assert_eq!(writer.write_previous(0, 1), Err(Error::BadDistance));
    assert_eq!(writer.byte_count(), 32769);
}

#[test]
fn write_previous_beyond_written() {
    let mut writer = TrackingWriter::new();
    writer.write(&[9, 9]);
    assert_eq!(writer.write_previous(3, 1), Err(Error::DistanceExceedsWritten));
    let mut empty = TrackingWriter::new();
    assert_eq!(empty.write_previous(1, 1), Err(Error::DistanceExceedsWritten));
}
