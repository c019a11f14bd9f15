use pak::reader::PakReader;
use pak::writer::{write_all, write_filename, write_u32, write_u64, write_u8};
use pak::{IoError, PakError};

fn wire(decoded: &[u8]) -> Vec<u8> {
    decoded.iter().map(|b| b ^ 0xf7).collect()
}

#[test]
fn writer_obfuscates_every_byte() {
    let mut sink = Vec::new();
    write_u8(&mut sink, 0x80);
    write_all(&mut sink, &[0xc0, 0x4a, 0xc0, 0xba]);
    assert_eq!(sink, vec![0x77, 0x37, 0xbd, 0x37, 0x4d]);
}

#[test]
fn writer_stores_integers_little_endian() {
    let mut sink = Vec::new();
    write_u32(&mut sink, 0x1234_5678);
    assert_eq!(sink, wire(&[0x78, 0x56, 0x34, 0x12]));
    let mut sink = Vec::new();
    write_u64(&mut sink, 0x0102_0304_0506_0708);
    assert_eq!(sink, wire(&[8, 7, 6, 5, 4, 3, 2, 1]));
    let mut sink = Vec::new();
    write_u32(&mut sink, u32::MAX);
    write_u64(&mut sink, 1);
    assert_eq!(sink, wire(&[0xff, 0xff, 0xff, 0xff, 1, 0, 0, 0, 0, 0, 0, 0]));
}

#[test]
fn writer_puts_the_length_before_a_name() {
    let mut sink = vec![7];
    write_filename(&mut sink, b"ab").unwrap();
    assert_eq!(sink, vec![7, 2 ^ 0xf7, b'a' ^ 0xf7, b'b' ^ 0xf7]);
    let mut sink = Vec::new();
    write_filename(&mut sink, b"").unwrap();
    assert_eq!(sink, vec![0xf7]);
}

#[test]
fn writer_refuses_a_long_name_and_writes_nothing() {
    let mut sink = vec![7];
    let res = write_filename(&mut sink, &[b'x'; 300]);
    assert!(matches!(res, Err(PakError::InvalidNameLength(300))));
    assert_eq!(sink, vec![7]);
}

#[test]
fn reader_decodes_integers_little_endian() {
    let w = wire(&[0x78, 0x56, 0x34, 0x12, 8, 7, 6, 5, 4, 3, 2, 1, 0xab]);
    let mut r = PakReader::new(&w);
    assert_eq!(r.read_u32().unwrap(), 0x1234_5678);
    assert_eq!(r.read_u64().unwrap(), 0x0102_0304_0506_0708);
    assert_eq!(r.read_u8().unwrap(), 0xab);
    assert!(matches!(r.read_u8(), Err(PakError::Io(IoError::UnexpectedEof))));
}

#[test]
fn reader_fails_on_short_integers() {
    let w = wire(&[1, 2, 3]);
    let mut r = PakReader::new(&w);
    assert!(matches!(r.read_u32(), Err(PakError::Io(IoError::UnexpectedEof))));
    let w = wire(&[1, 2, 3, 4, 5, 6, 7]);
    let mut r = PakReader::new(&w);
    assert!(matches!(r.read_u64(), Err(PakError::Io(IoError::UnexpectedEof))));
}

#[test]
fn reader_reads_exact_or_fails() {
    let w = wire(b"abcdef");
    let mut r = PakReader::new(&w);
    assert_eq!(r.read_exact(4).unwrap(), b"abcd".to_vec());
    assert!(matches!(r.read_exact(3), Err(PakError::Io(IoError::UnexpectedEof))));
    let mut r = PakReader::new(&w);
    assert_eq!(r.read_exact(0).unwrap(), Vec::<u8>::new());
    assert_eq!(r.read_exact(6).unwrap(), b"abcdef".to_vec());
    assert_eq!(r.read_exact(0).unwrap(), Vec::<u8>::new());
}

#[test]
fn reader_reads_names_by_their_length() {
    let w = wire(&[3, b'a', b'b', b'c', 0, 2, b'x']);
    let mut r = PakReader::new(&w);
    assert_eq!(r.read_filename().unwrap(), b"abc".to_vec());
    assert_eq!(r.read_filename().unwrap(), Vec::<u8>::new());
    assert!(matches!(r.read_filename(), Err(PakError::Io(IoError::UnexpectedEof))));
}

#[test]
fn reader_validates_the_header_in_order() {
    let w = wire(&[0xc0, 0x4a, 0xc0, 0xba, 0, 0, 0, 0, 0x80]);
    let mut r = PakReader::new(&w);
    r.read_magic().unwrap();
    r.read_version().unwrap();
    let records = r.read_records().unwrap();
    assert!(records.is_empty());
    assert_eq!(r.into_reader(), &[] as &[u8]);
}

#[test]
fn reader_reports_the_magic_it_found() {
    let w = wire(&[0xc0, 0x4a, 0xc0, 0xbb, 0, 0, 0, 0]);
    let mut r = PakReader::new(&w);
    assert!(matches!(r.read_magic(), Err(PakError::InvalidMagic([0xc0, 0x4a, 0xc0, 0xbb]))));
    let w = wire(&[0xc0, 0x4a, 0xc0]);
    let mut r = PakReader::new(&w);
    assert!(matches!(r.read_magic(), Err(PakError::Io(IoError::UnexpectedEof))));
}

#[test]
fn reader_reports_the_version_it_found() {
    let w = wire(&[0xc0, 0x4a, 0xc0, 0xba, 0, 0, 0, 2]);
    let mut r = PakReader::new(&w);
    r.read_magic().unwrap();
    assert!(matches!(r.read_version(), Err(PakError::InvalidVersion([0, 0, 0, 2]))));
    let w = wire(&[0xc0, 0x4a, 0xc0, 0xba, 0, 0]);
    let mut r = PakReader::new(&w);
    r.read_magic().unwrap();
    assert!(matches!(r.read_version(), Err(PakError::Io(IoError::UnexpectedEof))));
}

#[test]
fn reader_parses_records_until_the_end_flag() {
    let mut decoded = vec![0xc0, 0x4a, 0xc0, 0xba, 0, 0, 0, 0];
    decoded.extend_from_slice(&[0x00, 2, b'h', b'i']);
    decoded.extend_from_slice(&5u32.to_le_bytes());
    decoded.extend_from_slice(&0x1122_3344_5566_7788u64.to_le_bytes());
    decoded.extend_from_slice(&[0x00, 0]);
    decoded.extend_from_slice(&u32::MAX.to_le_bytes());
    decoded.extend_from_slice(&u64::MAX.to_le_bytes());
    decoded.push(0x80);
    decoded.extend_from_slice(b"rest");
    let w = wire(&decoded);
    let mut r = PakReader::new(&w);
    r.read_magic().unwrap();
    r.read_version().unwrap();
    let records = r.read_records().unwrap();
    assert_eq!(records.len(), 2);
    assert_eq!(records[0].name, b"hi".to_vec());
    assert_eq!(records[0].file_size, 5);
    assert_eq!(records[0].filetime, 0x1122_3344_5566_7788);
    assert_eq!(records[1].name, Vec::<u8>::new());
    assert_eq!(records[1].file_size, u32::MAX);
    assert_eq!(records[1].filetime, u64::MAX);
    // What is left is handed out as it stands on the wire.
    assert_eq!(r.into_reader(), &wire(b"rest")[..]);
}

#[test]
fn reader_fails_on_a_table_without_end() {
    let mut decoded = vec![0xc0, 0x4a, 0xc0, 0xba, 0, 0, 0, 0];
    decoded.extend_from_slice(&[0x00, 1, b'x']);
    decoded.extend_from_slice(&0u32.to_le_bytes());
    decoded.extend_from_slice(&0u64.to_le_bytes());
    let w = wire(&decoded);
    let mut r = PakReader::new(&w);
    r.read_magic().unwrap();
    r.read_version().unwrap();
    assert!(matches!(r.read_records(), Err(PakError::Io(IoError::UnexpectedEof))));
}

#[test]
fn io_error_converts_into_the_library_error() {
    assert!(matches!(PakError::from(IoError::UnexpectedEof), PakError::Io(IoError::UnexpectedEof)));
    assert!(matches!(PakError::from(IoError::InvalidInput), PakError::Io(IoError::InvalidInput)));
}
