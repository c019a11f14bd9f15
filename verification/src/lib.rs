//! A codec for the "pak" archive format: a flat list of named, timestamped
//! file blobs behind a fixed single-byte obfuscation.
//!
//! An archive is loaded with [`Pak::from_read`] (every payload decoded into a
//! buffer of its own) or [`Pak::from_bytes`] (payloads left in place in the
//! caller's buffer and decoded when read), and saved with [`Pak::write_to`].
//! What the bytes of an archive mean is defined once, in [`format`].

pub mod cipher;
pub mod endian;
pub mod entry;
pub mod error;
pub mod format;
pub mod laws;
pub mod pak;
pub mod path;
pub mod reader;
pub mod writer;

pub use crate::entry::Entry;
pub use crate::error::{IoError, PakError, PakResult};
pub use crate::pak::Pak;

use vstd::prelude::*;

verus! {

/// The maximum length of a file name, including path and slashes.
pub const MAX_NAME_LEN: usize = 255;

/// The maximum data, in bytes, a single file in a pak file can hold.
pub const MAX_DATA_LEN: usize = 0xffff_ffff;

/// The magic number of a valid pak file, as it reads once decoded. On the
/// wire, XORed with `0xf7`, it reads "7\u{bd}7M".
pub const MAGIC: [u8; 4] = [0xc0, 0x4a, 0xc0, 0xba];

/// The version of pak file that this library can read, as it reads once decoded.
pub const VERSION: [u8; 4] = [0, 0, 0, 0];

/// The flag byte in front of a record of the table.
pub const FILEFLAGS_RECORD: u8 = 0x00;

/// The flag bit that closes the table.
pub const FILEFLAGS_END: u8 = 0x80;

/// The bytes that separate the directories of a path.
pub const PATH_SEPARATOR_BYTESET: [u8; 2] = [0x5c, 0x2f];

/// Ticks of a file time in one second.
pub const TICKS_PER_SECOND: u64 = 10_000_000;

/// Nanoseconds in one tick of a file time.
pub const NANOSECONDS_PER_TICK: u32 = 100;

/// Seconds from 1601-01-01, where file times start, to 1970-01-01.
pub const SECONDS_TO_UNIX_EPOCH: i64 = 11_644_473_600;

} // verus!
