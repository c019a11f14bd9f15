use pak::cipher::transform;
use pak::entry::{same_bytes, SeekFrom};
use pak::{Entry, IoError};

#[test]
fn transform_is_its_own_inverse() {
    for b in 0..=255u8 {
        assert_eq!(transform(transform(b)), b);
        assert_eq!(transform(b), b ^ 0xf7);
    }
    assert_eq!(transform(0x00), 0xf7);
    assert_eq!(transform(0xc0), 0x37);
}

#[test]
fn directory_ends_with_the_last_separator() {
    let e = Entry::new(b"a/b\\c/d.txt".to_vec(), 0, Vec::new());
    assert_eq!(e.dir(), Some(&b"a/b\\c/"[..]));
    assert_eq!(e.name(), b"d.txt");
    let e = Entry::new(b"images\\logo.png".to_vec(), 0, Vec::new());
    assert_eq!(e.dir(), Some(&b"images\\"[..]));
    assert_eq!(e.name(), b"logo.png");
    let e = Entry::new(b"images/logo.png".to_vec(), 0, Vec::new());
    assert_eq!(e.dir(), Some(&b"images/"[..]));
    assert_eq!(e.name(), b"logo.png");
}

#[test]
fn path_without_separator_has_no_directory() {
    let e = Entry::new(b"readme".to_vec(), 0, Vec::new());
    assert_eq!(e.dir(), None);
    assert_eq!(e.name(), b"readme");
    let e = Entry::new(Vec::new(), 0, Vec::new());
    assert_eq!(e.dir(), None);
    assert_eq!(e.name(), b"");
}

#[test]
fn separator_at_either_end() {
    let e = Entry::new(b"/x".to_vec(), 0, Vec::new());
    assert_eq!(e.dir(), Some(&b"/"[..]));
    assert_eq!(e.name(), b"x");
    let e = Entry::new(b"dir\\".to_vec(), 0, Vec::new());
    assert_eq!(e.dir(), Some(&b"dir\\"[..]));
    assert_eq!(e.name(), b"");
}

#[test]
fn path_need_not_be_text() {
    let raw = vec![0xff, 0xfe, b'/', 0x80, 0x00];
    let e = Entry::new(raw.clone(), 0, Vec::new());
    assert_eq!(e.path(), &raw[..]);
    assert_eq!(e.dir(), Some(&raw[..3]));
    assert_eq!(e.name(), &raw[3..]);
}

#[test]
fn path_functions_agree_with_the_entry() {
    assert_eq!(pak::path::split_point(b"a/b/c"), 4);
    assert_eq!(pak::path::split_point(b"abc"), 0);
    assert_eq!(pak::path::dir(b"a\\b"), Some(&b"a\\"[..]));
    assert_eq!(pak::path::file_name(b"a\\b"), b"b");
}

#[test]
fn file_time_converts_to_unix_time() {
    // 2019-04-17 18:40:00 UTC.
    let e = Entry::new(Vec::new(), 132_000_000_000_000_000, Vec::new());
    assert_eq!(e.unix_time(), (1_555_526_400, 0));
    // The start of file time is 1601-01-01.
    let e = Entry::new(Vec::new(), 0, Vec::new());
    assert_eq!(e.unix_time(), (-11_644_473_600, 0));
    // The Unix epoch, and one tick behind it.
    let e = Entry::new(Vec::new(), 116_444_736_000_000_000, Vec::new());
    assert_eq!(e.unix_time(), (0, 0));
    let e = Entry::new(Vec::new(), 116_444_736_000_000_001, Vec::new());
    assert_eq!(e.unix_time(), (0, 100));
    let e = Entry::new(Vec::new(), u64::MAX, Vec::new());
    assert_eq!(e.unix_time(), (1_833_029_933_770, 955_161_500));
}

#[test]
fn read_moves_the_cursor() {
    let mut e = Entry::new(b"f".to_vec(), 0, b"hello world".to_vec());
    assert_eq!(e.size(), 11);
    assert_eq!(e.position(), 0);
    assert_eq!(e.read(5), b"hello".to_vec());
    assert_eq!(e.position(), 5);
    assert_eq!(e.read(0), Vec::<u8>::new());
    assert_eq!(e.read(100), b" world".to_vec());
    assert_eq!(e.position(), 11);
    assert_eq!(e.read(1), Vec::<u8>::new());
    assert_eq!(e.position(), 11);
    assert_eq!(e.size(), 11);
}

#[test]
fn read_to_end_takes_what_is_left() {
    let mut e = Entry::new(b"f".to_vec(), 0, b"hello".to_vec());
    e.read(2);
    assert_eq!(e.read_to_end(), b"llo".to_vec());
    assert_eq!(e.position(), 5);
    assert_eq!(e.read_to_end(), Vec::<u8>::new());
}

#[test]
fn seek_from_start_end_and_cursor() {
    let mut e = Entry::new(b"f".to_vec(), 0, b"0123456789".to_vec());
    assert_eq!(e.seek(SeekFrom::Start(4)), Ok(4));
    assert_eq!(e.read(2), b"45".to_vec());
    assert_eq!(e.seek(SeekFrom::Current(-3)), Ok(3));
    assert_eq!(e.seek(SeekFrom::Current(2)), Ok(5));
    assert_eq!(e.seek(SeekFrom::End(-1)), Ok(9));
    assert_eq!(e.read(5), b"9".to_vec());
    assert_eq!(e.seek(SeekFrom::End(0)), Ok(10));
    assert_eq!(e.seek(SeekFrom::Start(0)), Ok(0));
    assert_eq!(e.read_to_end(), b"0123456789".to_vec());
}

#[test]
fn seek_behind_the_end_reads_nothing() {
    let mut e = Entry::new(b"f".to_vec(), 0, b"abc".to_vec());
    assert_eq!(e.seek(SeekFrom::End(5)), Ok(8));
    assert_eq!(e.position(), 8);
    assert_eq!(e.read(4), Vec::<u8>::new());
    assert_eq!(e.position(), 8);
    assert_eq!(e.read_to_end(), Vec::<u8>::new());
    assert_eq!(e.seek(SeekFrom::Start(u64::MAX)), Ok(u64::MAX));
}

#[test]
fn seek_before_the_start_or_past_u64_is_refused() {
    let mut e = Entry::new(b"f".to_vec(), 0, b"abc".to_vec());
    e.seek(SeekFrom::Start(2)).unwrap();
    assert_eq!(e.seek(SeekFrom::Current(-3)), Err(IoError::InvalidInput));
    assert_eq!(e.position(), 2);
    assert_eq!(e.seek(SeekFrom::End(-4)), Err(IoError::InvalidInput));
    assert_eq!(e.seek(SeekFrom::End(i64::MIN)), Err(IoError::InvalidInput));
    assert_eq!(e.position(), 2);
    e.seek(SeekFrom::Start(u64::MAX)).unwrap();
    assert_eq!(e.seek(SeekFrom::Current(1)), Err(IoError::InvalidInput));
    assert_eq!(e.seek(SeekFrom::Current(i64::MIN)), Ok(u64::MAX - (1 << 63)));
}

#[test]
fn borrowed_entry_decodes_on_read() {
    let raw: Vec<u8> = b"payload".iter().map(|b| b ^ 0xf7).collect();
    let mut e = Entry::borrowed(b"p".to_vec(), 3, &raw);
    assert!(!e.is_owned());
    assert_eq!(e.size(), 7);
    assert_eq!(e.read(3), b"pay".to_vec());
    let mut owned = e.into_owned();
    assert!(owned.is_owned());
    assert_eq!(owned.position(), 3);
    assert_eq!(owned.filetime(), 3);
    assert_eq!(owned.path(), b"p");
    assert_eq!(owned.read_to_end(), b"load".to_vec());
}

#[test]
fn entries_are_equal_across_modes() {
    let raw: Vec<u8> = b"same".iter().map(|b| b ^ 0xf7).collect();
    let borrowed = Entry::borrowed(b"p".to_vec(), 3, &raw);
    let owned = Entry::new(b"p".to_vec(), 3, b"same".to_vec());
    assert!(borrowed == owned);
    assert!(borrowed != Entry::new(b"p".to_vec(), 3, b"sama".to_vec()));
    assert!(borrowed != Entry::new(b"q".to_vec(), 3, b"same".to_vec()));
    assert!(borrowed != Entry::new(b"p".to_vec(), 4, b"same".to_vec()));
    assert!(borrowed != Entry::new(b"p".to_vec(), 3, b"sam".to_vec()));
}

#[test]
fn same_bytes_compares_contents() {
    assert!(same_bytes(b"", b""));
    assert!(same_bytes(b"abc", b"abc"));
    assert!(!same_bytes(b"abc", b"abd"));
    assert!(!same_bytes(b"abc", b"ab"));
}
