use pak::entry::SeekFrom;
use pak::{Entry, IoError, Pak, PakError};

/// The bytes a stream is stored as: every byte XORed with 0xf7.
fn wire(decoded: &[u8]) -> Vec<u8> {
    decoded.iter().map(|b| b ^ 0xf7).collect()
}

const HEADER: [u8; 8] = [0xc0, 0x4a, 0xc0, 0xba, 0, 0, 0, 0];

/// The decoded record of one entry.
fn record(name: &[u8], size: u32, time: u64) -> Vec<u8> {
    let mut out = vec![0x00, name.len() as u8];
    out.extend_from_slice(name);
    out.extend_from_slice(&size.to_le_bytes());
    out.extend_from_slice(&time.to_le_bytes());
    out
}

/// The two-entry archive: "a.txt" with three bytes, "dir\b.txt" with none.
fn sample() -> Pak<'static> {
    Pak {
        entries: vec![
            Entry::new(b"a.txt".to_vec(), 0, b"abc".to_vec()),
            Entry::new(b"dir\\b.txt".to_vec(), 132_000_000_000_000_000, Vec::new()),
        ],
    }
}

const SAMPLE_WIRE: [u8; 54] = [
    0x37, 0xbd, 0x37, 0x4d, 0xf7, 0xf7, 0xf7, 0xf7, 0xf7, 0xf2, 0x96, 0xd9, 0x83, 0x8f, 0x83,
    0xf4, 0xf7, 0xf7, 0xf7, 0xf7, 0xf7, 0xf7, 0xf7, 0xf7, 0xf7, 0xf7, 0xf7, 0xf7, 0xfe, 0x93,
    0x9e, 0x85, 0xab, 0x95, 0xd9, 0x83, 0x8f, 0x83, 0xf7, 0xf7, 0xf7, 0xf7, 0xf7, 0xf7, 0xad,
    0x01, 0xbb, 0x02, 0x23, 0xf6, 0x77, 0x96, 0x95, 0x94,
];

#[test]
fn two_entry_archive_is_stored_byte_for_byte() {
    let mut pak = sample();
    let mut out = Vec::new();
    pak.write_to(&mut out).unwrap();
    assert_eq!(out, SAMPLE_WIRE.to_vec());
}

#[test]
fn two_entry_archive_reloads_with_its_directories() {
    let mut pak = sample();
    let mut out = Vec::new();
    pak.write_to(&mut out).unwrap();
    let reloaded = Pak::from_read(&out).unwrap();
    assert_eq!(reloaded, pak);
    assert_eq!(reloaded.entries.len(), 2);
    assert_eq!(reloaded.entries[0].path(), b"a.txt");
    assert_eq!(reloaded.entries[0].dir(), None);
    assert_eq!(reloaded.entries[0].name(), b"a.txt");
    assert_eq!(reloaded.entries[0].filetime(), 0);
    assert_eq!(reloaded.entries[0].size(), 3);
    assert_eq!(reloaded.entries[1].path(), b"dir\\b.txt");
    assert_eq!(reloaded.entries[1].dir(), Some(&b"dir\\"[..]));
    assert_eq!(reloaded.entries[1].name(), b"b.txt");
    assert_eq!(reloaded.entries[1].filetime(), 132_000_000_000_000_000);
    assert_eq!(reloaded.entries[1].size(), 0);
    let mut reloaded = reloaded;
    let mut again = Vec::new();
    reloaded.write_to(&mut again).unwrap();
    assert_eq!(again, out);
}

#[test]
fn bytes_vs_read() {
    let data = SAMPLE_WIRE.to_vec();
    let read = Pak::from_read(&data).unwrap();
    let bytes = Pak::from_bytes(&data).unwrap();
    assert_eq!(bytes, read);
    assert_eq!(bytes.entries.len(), read.entries.len());
    for (b, r) in bytes.entries.iter().zip(read.entries.iter()) {
        assert_eq!(b.path(), r.path());
        assert_eq!(b.filetime(), r.filetime());
        assert_eq!(b.size(), r.size());
        assert_eq!(b.position(), 0);
        assert_eq!(r.position(), 0);
        assert!(!b.is_owned());
        assert!(r.is_owned());
    }
}

#[test]
fn round_trip() {
    let original = SAMPLE_WIRE.to_vec();
    let mut pak = Pak::from_read(&original).unwrap();
    let mut round = Vec::new();
    pak.write_to(&mut round).unwrap();
    assert_eq!(&round, &original);
    let pak2 = Pak::from_read(&round).unwrap();
    assert_eq!(pak, pak2);
}

#[test]
fn round_trip_of_borrowed_archive() {
    let original = SAMPLE_WIRE.to_vec();
    let mut pak = Pak::from_bytes(&original).unwrap();
    let mut round = Vec::new();
    pak.write_to(&mut round).unwrap();
    assert_eq!(round, original);
}

#[test]
fn borrowed_payload_is_decoded_when_read() {
    let data = SAMPLE_WIRE.to_vec();
    let mut pak = Pak::from_bytes(&data).unwrap();
    assert_eq!(pak.entries[0].read(16), b"abc".to_vec());
    assert_eq!(pak.entries[0].position(), 3);
    assert_eq!(pak.entries[0].read(16), Vec::<u8>::new());
}

#[test]
fn into_owned_keeps_content_and_cursor() {
    let data = SAMPLE_WIRE.to_vec();
    let mut pak = Pak::from_bytes(&data).unwrap();
    assert_eq!(pak.entries[0].read(1), b"a".to_vec());
    let owned: Pak<'static> = pak.into_owned();
    drop(data);
    assert!(owned.entries.iter().all(|e| e.is_owned()));
    assert_eq!(owned.entries[0].position(), 1);
    assert_eq!(owned, sample());
    let mut owned = owned;
    assert_eq!(owned.entries[0].read(16), b"bc".to_vec());
}

#[test]
fn empty_table_is_an_empty_archive() {
    let mut decoded = HEADER.to_vec();
    decoded.push(0x80);
    let w = wire(&decoded);
    assert_eq!(Pak::from_read(&w).unwrap().entries.len(), 0);
    assert_eq!(Pak::from_bytes(&w).unwrap().entries.len(), 0);
    let mut out = Vec::new();
    Pak { entries: Vec::new() }.write_to(&mut out).unwrap();
    assert_eq!(out, w);
}

#[test]
fn any_flag_with_the_end_bit_closes_the_table() {
    let mut decoded = HEADER.to_vec();
    decoded.extend(record(b"x", 1, 7));
    decoded.push(0x81);
    decoded.push(b'!');
    let w = wire(&decoded);
    let pak = Pak::from_read(&w).unwrap();
    assert_eq!(pak.entries.len(), 1);
    assert_eq!(pak.entries[0].path(), b"x");
    assert_eq!(pak.entries[0].filetime(), 7);
    let mut pak = pak;
    assert_eq!(pak.entries[0].read_to_end(), b"!".to_vec());
    // Saved again, the closing flag is the plain one.
    pak.entries[0].seek(SeekFrom::Start(0)).unwrap();
    let mut out = Vec::new();
    pak.write_to(&mut out).unwrap();
    decoded[8 + 15] = 0x80;
    assert_eq!(out, wire(&decoded));
}

#[test]
fn bytes_behind_the_last_payload_are_ignored() {
    let mut w = SAMPLE_WIRE.to_vec();
    w.extend_from_slice(&[1, 2, 3]);
    let mut pak = Pak::from_bytes(&w).unwrap();
    assert_eq!(pak, sample());
    let mut out = Vec::new();
    pak.write_to(&mut out).unwrap();
    assert_eq!(out, SAMPLE_WIRE.to_vec());
}

#[test]
fn wrong_magic_is_rejected_with_the_bytes_found() {
    let mut decoded = HEADER.to_vec();
    decoded[1] = 0x4b;
    decoded.push(0x80);
    let w = wire(&decoded);
    assert!(matches!(Pak::from_read(&w), Err(PakError::InvalidMagic([0xc0, 0x4b, 0xc0, 0xba]))));
    assert!(matches!(Pak::from_bytes(&w), Err(PakError::InvalidMagic([0xc0, 0x4b, 0xc0, 0xba]))));
    // The magic counts before anything behind it: a broken table does not matter.
    let w = wire(&[1, 2, 3, 4]);
    assert!(matches!(Pak::from_read(&w), Err(PakError::InvalidMagic([1, 2, 3, 4]))));
}

#[test]
fn undecoded_magic_is_rejected() {
    // The logical header, written without the transform.
    let mut raw = HEADER.to_vec();
    raw.push(0x80);
    assert!(matches!(
        Pak::from_bytes(&raw),
        Err(PakError::InvalidMagic([0x37, 0xbd, 0x37, 0x4d]))
    ));
}

#[test]
fn wrong_version_is_rejected_with_the_bytes_found() {
    let mut decoded = HEADER.to_vec();
    decoded[4] = 1;
    decoded.push(0x80);
    let w = wire(&decoded);
    assert!(matches!(Pak::from_read(&w), Err(PakError::InvalidVersion([1, 0, 0, 0]))));
    assert!(matches!(Pak::from_bytes(&w), Err(PakError::InvalidVersion([1, 0, 0, 0]))));
}

#[test]
fn truncated_input_is_an_io_error() {
    let full = SAMPLE_WIRE.to_vec();
    // Every proper prefix ends inside the header, the table or a payload.
    for cut in 0..full.len() {
        let part = &full[..cut];
        assert!(
            matches!(Pak::from_read(part), Err(PakError::Io(IoError::UnexpectedEof))),
            "from_read at {}",
            cut
        );
        assert!(
            matches!(Pak::from_bytes(part), Err(PakError::Io(IoError::UnexpectedEof))),
            "from_bytes at {}",
            cut
        );
    }
}

#[test]
fn name_of_255_bytes_is_written_and_read_back() {
    let name = vec![b'n'; 255];
    let mut pak = Pak { entries: vec![Entry::new(name.clone(), 5, vec![9])] };
    let mut out = Vec::new();
    pak.write_to(&mut out).unwrap();
    assert_eq!(out.len(), 8 + 2 + 255 + 12 + 1 + 1);
    assert_eq!(out[9], 0xff ^ 0xf7);
    let back = Pak::from_read(&out).unwrap();
    assert_eq!(back.entries[0].path(), &name[..]);
}

#[test]
fn name_of_256_bytes_is_refused_before_its_record() {
    let mut pak = Pak {
        entries: vec![
            Entry::new(b"ok".to_vec(), 1, vec![1, 2]),
            Entry::new(vec![b'n'; 256], 2, vec![3]),
            Entry::new(b"late".to_vec(), 3, vec![4]),
        ],
    };
    let mut out = vec![0xaa];
    let res = pak.write_to(&mut out);
    assert!(matches!(res, Err(PakError::InvalidNameLength(256))));
    let mut expected = HEADER.to_vec();
    expected.extend(record(b"ok", 2, 1));
    let mut want = vec![0xaa];
    want.extend(wire(&expected));
    assert_eq!(out, want);
    // No payload was read.
    assert!(pak.entries.iter().all(|e| e.position() == 0));
}

#[test]
fn second_save_without_rewinding_writes_no_payload() {
    let mut pak = sample();
    let mut first = Vec::new();
    pak.write_to(&mut first).unwrap();
    assert_eq!(pak.entries[0].position(), 3);
    let mut second = Vec::new();
    pak.write_to(&mut second).unwrap();
    assert_eq!(second, first[..first.len() - 3].to_vec());
    for e in pak.entries.iter_mut() {
        e.seek(SeekFrom::Start(0)).unwrap();
    }
    let mut third = Vec::new();
    pak.write_to(&mut third).unwrap();
    assert_eq!(third, first);
}

#[test]
fn save_appends_to_what_the_sink_holds() {
    let mut pak = sample();
    let mut out = vec![1, 2, 3];
    pak.write_to(&mut out).unwrap();
    assert_eq!(&out[..3], &[1, 2, 3]);
    assert_eq!(&out[3..], &SAMPLE_WIRE[..]);
}

#[test]
fn equality_looks_at_content_only() {
    let a = sample();
    let mut b = sample();
    b.entries[0].read(2);
    assert_eq!(a, b);
    let mut c = sample();
    c.entries.swap(0, 1);
    assert_ne!(a, c);
    let d = Pak { entries: vec![Entry::new(b"a.txt".to_vec(), 0, b"abd".to_vec())] };
    assert_ne!(a, d);
    let e = Pak {
        entries: vec![
            Entry::new(b"a.txt".to_vec(), 1, b"abc".to_vec()),
            Entry::new(b"dir\\b.txt".to_vec(), 132_000_000_000_000_000, Vec::new()),
        ],
    };
    assert_ne!(a, e);
}
