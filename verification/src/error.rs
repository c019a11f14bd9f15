//! What can go wrong while loading or saving an archive.

use vstd::prelude::*;

verus! {

/// Why an in-memory source could not be read or positioned.
#[derive(Debug, Clone, Copy, PartialEq, Eq, Structural)]
pub enum IoError {
    /// The source ended before the bytes that were asked for.
    UnexpectedEof,
    /// A seek to a negative or overflowing position.
    InvalidInput,
}

/// Error type of this library.
#[derive(Debug)]
pub enum PakError {
    /// IO errors that may occur during use.
    Io(IoError),
    /// Invalid magic number: the decoded bytes found in its place.
    InvalidMagic([u8; 4]),
    /// Invalid pak version: the decoded bytes found in its place.
    InvalidVersion([u8; 4]),
    /// The filename is too long: its length.
    InvalidNameLength(usize),
    /// The data is too long: its length.
    InvalidDataLength(usize),
}

/// Result type of this library.
pub type PakResult<T> = Result<T, PakError>;

/// A [`PakError`] as specifications see it: byte arrays as sequences.
pub enum Failure {
    Io(IoError),
    InvalidMagic(Seq<u8>),
    InvalidVersion(Seq<u8>),
    InvalidNameLength(nat),
    InvalidDataLength(nat),
}

impl View for PakError {
    type V = Failure;

    open spec fn view(&self) -> Failure {
        match *self {
            PakError::Io(e) => Failure::Io(e),
            PakError::InvalidMagic(m) => Failure::InvalidMagic(m@),
            PakError::InvalidVersion(v) => Failure::InvalidVersion(v@),
            PakError::InvalidNameLength(n) => Failure::InvalidNameLength(n as nat),
            PakError::InvalidDataLength(n) => Failure::InvalidDataLength(n as nat),
        }
    }
}

impl vstd::std_specs::convert::FromSpecImpl<IoError> for PakError {
    open spec fn obeys_from_spec() -> bool {
        true
    }

    open spec fn from_spec(e: IoError) -> PakError {
        PakError::Io(e)
    }
}

impl From<IoError> for PakError {
    fn from(e: IoError) -> (out: PakError) {
        PakError::Io(e)
    }
}

} // verus!
