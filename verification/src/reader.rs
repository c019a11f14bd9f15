//! The reading half of the codec: a cursor over wire bytes that decodes
//! what it hands out.

use crate::cipher::{transform, transformed_seq};
use crate::endian::{read_u32_le, read_u64_le, u32_of_le, u64_of_le};
use crate::error::{IoError, PakError};
use crate::format::{parse_table, step_at, Row, TableStep};
use crate::{FILEFLAGS_END, MAGIC, VERSION};
use vstd::prelude::*;
use vstd::slice::slice_subrange;

verus! {

/// One row of the record table, as read: a name, the size of the payload
/// that belongs to it, and its time.
#[derive(Debug)]
pub struct Record {
    pub name: Vec<u8>,
    pub file_size: u32,
    pub filetime: u64,
}

impl View for Record {
    type V = Row;

    open spec fn view(&self) -> Row {
        Row { name: self.name@, size: self.file_size, filetime: self.filetime }
    }
}

/// The rows that a list of records stands for.
pub open spec fn rows_of(records: Seq<Record>) -> Seq<Row> {
    Seq::new(records.len(), |i: int| records[i]@)
}

/// How far a reader has come. The operations of a reader are meant to be
/// called in this order, and each asks for the stage before it.
pub enum Stage {
    /// Nothing was read yet.
    Idle,
    /// The magic number was read and found valid.
    MagicValidated,
    /// Magic number and version were read and found valid.
    HeaderValidated,
    /// The record table was read; the payloads are next.
    TableParsed,
}

/// A reader over the wire bytes of an archive. Every byte it returns is decoded.
pub struct PakReader<'a> {
    bytes: &'a [u8],
    pos: usize,
    stage: Ghost<Stage>,
}

spec fn prepend(head: Seq<Row>, rest: Option<(Seq<Row>, int)>) -> Option<(Seq<Row>, int)> {
    match rest {
        Some((rows, end)) => Some((head + rows, end)),
        None => None,
    }
}

impl<'a> PakReader<'a> {
    #[verifier::type_invariant]
    spec fn in_bounds(self) -> bool {
        self.pos <= self.bytes@.len()
    }

    /// The wire bytes this reader was made over.
    pub closed spec fn source(self) -> Seq<u8> {
        self.bytes@
    }

    /// The whole source as it reads once decoded.
    pub open spec fn decoded(self) -> Seq<u8> {
        transformed_seq(self.source())
    }

    /// The offset of the next byte to read.
    pub closed spec fn position(self) -> int {
        self.pos as int
    }

    /// How far this reader has come.
    pub closed spec fn stage(self) -> Stage {
        self.stage@
    }

    /// A reader at the start of `bytes`.
    pub fn new(bytes: &'a [u8]) -> (reader: PakReader<'a>)
        ensures
            reader.source() == bytes@,
            reader.position() == 0,
            reader.stage() == Stage::Idle,
    {
        PakReader { bytes, pos: 0, stage: Ghost(Stage::Idle) }
    }

    /// Reads one byte. Fails, at the end of the source, with an I/O error.
    pub fn read_u8(&mut self) -> (res: Result<u8, PakError>)
        ensures
            final(self).source() == old(self).source(),
            final(self).stage() == old(self).stage(),
            0 <= old(self).position() <= final(self).position() <= old(self).source().len(),
            match res {
                Ok(b) => old(self).position() < old(self).source().len()
                    && b == old(self).decoded()[old(self).position()]
                    && final(self).position() == old(self).position() + 1,
                Err(e) => old(self).position() == old(self).source().len()
                    && e@ == crate::error::Failure::Io(IoError::UnexpectedEof),
            },
    {
        proof {
            use_type_invariant(&*self);
        }
        if self.pos < self.bytes.len() {
            let b = transform(self.bytes[self.pos]);
            self.pos = self.pos + 1;
            Ok(b)
        } else {
            Err(PakError::Io(IoError::UnexpectedEof))
        }
    }

    /// Reads exactly `n` bytes. Where fewer are left it fails with an I/O
    /// error, and the reader stands at the end of its source.
    pub fn read_exact(&mut self, n: usize) -> (res: Result<Vec<u8>, PakError>)
        ensures
            final(self).source() == old(self).source(),
            final(self).stage() == old(self).stage(),
            0 <= old(self).position() <= final(self).position() <= old(self).source().len(),
            match res {
                Ok(v) => old(self).position() + n <= old(self).source().len()
                    && v@ == old(self).decoded().subrange(
                    old(self).position(),
                    old(self).position() + n,
                ) && final(self).position() == old(self).position() + n,
                Err(e) => old(self).position() + n > old(self).source().len()
                    && e@ == crate::error::Failure::Io(IoError::UnexpectedEof)
                    && final(self).position() == old(self).source().len(),
            },
    {
        proof {
            use_type_invariant(&*self);
        }
        let len = self.bytes.len();
        if n > len - self.pos {
            self.pos = len;
            return Err(PakError::Io(IoError::UnexpectedEof));
        }
        let start = self.pos;
        let bytes = self.bytes;
        let mut out: Vec<u8> = Vec::with_capacity(n);
        let mut i: usize = 0;
        while i < n
            invariant
                i <= n,
                start + n <= bytes@.len(),
                start + n <= usize::MAX,
                out@ == transformed_seq(bytes@).subrange(start as int, start + i),
            decreases n - i,
        {
            out.push(transform(bytes[start + i]));
            i = i + 1;
            assert(out@ =~= transformed_seq(bytes@).subrange(start as int, start + i));
        }
        self.pos = start + n;
        Ok(out)
    }

    /// Reads the four bytes of the magic number and compares them with
    /// [`MAGIC`].
    pub fn read_magic(&mut self) -> (res: Result<(), PakError>)
        requires
            old(self).stage() == Stage::Idle,
        ensures
            final(self).source() == old(self).source(),
            match res {
                Ok(_) => old(self).position() + 4 <= old(self).source().len()
                    && old(self).decoded().subrange(old(self).position(), old(self).position() + 4)
                    == MAGIC@ && final(self).position() == old(self).position() + 4
                    && final(self).stage() == Stage::MagicValidated,
                Err(e) => e@ == (if old(self).position() + 4 > old(self).source().len() {
                    crate::error::Failure::Io(IoError::UnexpectedEof)
                } else {
                    crate::error::Failure::InvalidMagic(
                        old(self).decoded().subrange(
                            old(self).position(),
                            old(self).position() + 4,
                        ),
                    )
                }) && (old(self).position() + 4 <= old(self).source().len()
                    ==> old(self).decoded().subrange(
                    old(self).position(),
                    old(self).position() + 4,
                ) != MAGIC@),
            },
    {
        let v = match self.read_exact(4) {
            Ok(v) => v,
            Err(e) => {
                return Err(e);
            },
        };
        let found: [u8; 4] = [v[0], v[1], v[2], v[3]];
        assert(found@ =~= v@);
        if found[0] == MAGIC[0] && found[1] == MAGIC[1] && found[2] == MAGIC[2] && found[3]
            == MAGIC[3] {
            assert(found@ =~= MAGIC@);
            self.stage = Ghost(Stage::MagicValidated);
            Ok(())
        } else {
            Err(PakError::InvalidMagic(found))
        }
    }

    /// Reads the four bytes of the version and compares them with
    /// [`VERSION`], the one version there is.
    pub fn read_version(&mut self) -> (res: Result<(), PakError>)
        requires
            old(self).stage() == Stage::MagicValidated,
        ensures
            final(self).source() == old(self).source(),
            match res {
                Ok(_) => old(self).position() + 4 <= old(self).source().len()
                    && old(self).decoded().subrange(old(self).position(), old(self).position() + 4)
                    == VERSION@ && final(self).position() == old(self).position() + 4
                    && final(self).stage() == Stage::HeaderValidated,
                Err(e) => e@ == (if old(self).position() + 4 > old(self).source().len() {
                    crate::error::Failure::Io(IoError::UnexpectedEof)
                } else {
                    crate::error::Failure::InvalidVersion(
                        old(self).decoded().subrange(
                            old(self).position(),
                            old(self).position() + 4,
                        ),
                    )
                }) && (old(self).position() + 4 <= old(self).source().len()
                    ==> old(self).decoded().subrange(
                    old(self).position(),
                    old(self).position() + 4,
                ) != VERSION@),
            },
    {
        let v = match self.read_exact(4) {
            Ok(v) => v,
            Err(e) => {
                return Err(e);
            },
        };
        let found: [u8; 4] = [v[0], v[1], v[2], v[3]];
        assert(found@ =~= v@);
        if found[0] == VERSION[0] && found[1] == VERSION[1] && found[2] == VERSION[2] && found[3]
            == VERSION[3] {
            assert(found@ =~= VERSION@);
            self.stage = Ghost(Stage::HeaderValidated);
            Ok(())
        } else {
            Err(PakError::InvalidVersion(found))
        }
    }

    /// Reads a name: one byte that gives its length, then that many bytes.
    pub fn read_filename(&mut self) -> (res: Result<Vec<u8>, PakError>)
        ensures
            final(self).source() == old(self).source(),
            final(self).stage() == old(self).stage(),
            0 <= old(self).position() <= final(self).position() <= old(self).source().len(),
            match res {
                Ok(name) => {
                    let p = old(self).position();
                    &&& p < old(self).source().len()
                    &&& p + 1 + old(self).decoded()[p] <= old(self).source().len()
                    &&& name@ == old(self).decoded().subrange(
                        p + 1,
                        p + 1 + old(self).decoded()[p],
                    )
                    &&& final(self).position() == p + 1 + old(self).decoded()[p]
                },
                Err(e) => {
                    let p = old(self).position();
                    &&& e@ == crate::error::Failure::Io(IoError::UnexpectedEof)
                    &&& p >= old(self).source().len() || p + 1 + old(self).decoded()[p] > old(self).source().len()
                },
            },
    {
        let n = match self.read_u8() {
            Ok(n) => n,
            Err(e) => {
                return Err(e);
            },
        };
        self.read_exact(n as usize)
    }

    /// Reads a little-endian `u32`.
    pub fn read_u32(&mut self) -> (res: Result<u32, PakError>)
        ensures
            final(self).source() == old(self).source(),
            final(self).stage() == old(self).stage(),
            0 <= old(self).position() <= final(self).position() <= old(self).source().len(),
            match res {
                Ok(n) => old(self).position() + 4 <= old(self).source().len() && n == u32_of_le(
                    old(self).decoded().subrange(old(self).position(), old(self).position() + 4),
                ) && final(self).position() == old(self).position() + 4,
                Err(e) => old(self).position() + 4 > old(self).source().len()
                    && e@ == crate::error::Failure::Io(IoError::UnexpectedEof),
            },
    {
        match self.read_exact(4) {
            Ok(v) => Ok(read_u32_le(v.as_slice())),
            Err(e) => Err(e),
        }
    }

    /// Reads a little-endian `u64`.
    pub fn read_u64(&mut self) -> (res: Result<u64, PakError>)
        ensures
            final(self).source() == old(self).source(),
            final(self).stage() == old(self).stage(),
            0 <= old(self).position() <= final(self).position() <= old(self).source().len(),
            match res {
                Ok(n) => old(self).position() + 8 <= old(self).source().len() && n == u64_of_le(
                    old(self).decoded().subrange(old(self).position(), old(self).position() + 8),
                ) && final(self).position() == old(self).position() + 8,
                Err(e) => old(self).position() + 8 > old(self).source().len()
                    && e@ == crate::error::Failure::Io(IoError::UnexpectedEof),
            },
    {
        match self.read_exact(8) {
            Ok(v) => Ok(read_u64_le(v.as_slice())),
            Err(e) => Err(e),
        }
    }

    /// Reads the record table: records until a flag byte with the end bit
    /// set. Whether the payloads that the records announce are there is not
    /// looked at.
    pub fn read_records(&mut self) -> (res: Result<Vec<Record>, PakError>)
        requires
            old(self).stage() == Stage::HeaderValidated,
        ensures
            final(self).source() == old(self).source(),
            match res {
                Ok(records) => parse_table(old(self).decoded(), old(self).position()) == Some(
                    (rows_of(records@), final(self).position()),
                ) && final(self).stage() == Stage::TableParsed && old(self).position() < final(self).position() <= old(self).source().len(),
                Err(e) => parse_table(old(self).decoded(), old(self).position()) is None
                    && e@ == crate::error::Failure::Io(IoError::UnexpectedEof),
            },
    {
        proof {
            use_type_invariant(&*self);
        }
        let ghost d = self.decoded();
        let ghost start = self.position();
        let mut records: Vec<Record> = Vec::new();
        assert(rows_of(records@) + Seq::<Row>::empty() =~= Seq::<Row>::empty());
        assert(prepend(rows_of(records@), parse_table(d, start)) == parse_table(d, start)) by {
            match parse_table(d, start) {
                Some((rows, end)) => {
                    assert(rows_of(records@) + rows =~= rows);
                },
                None => {},
            }
        }
        loop
            invariant
                self.source() == old(self).source(),
                d == old(self).decoded(),
                start == old(self).position(),
                0 <= start <= self.position() <= d.len(),
                parse_table(d, start) == prepend(rows_of(records@), parse_table(d, self.position())),
            decreases d.len() - self.position(),
        {
            let ghost p = self.position();
            let flags = match self.read_u8() {
                Ok(f) => f,
                Err(e) => {
                    return Err(e);
                },
            };
            if flags & FILEFLAGS_END != 0 {
                self.stage = Ghost(Stage::TableParsed);
                assert(rows_of(records@) + Seq::<Row>::empty() =~= rows_of(records@));
                return Ok(records);
            }
            let name = match self.read_filename() {
                Ok(n) => n,
                Err(e) => {
                    return Err(e);
                },
            };
            let file_size = match self.read_u32() {
                Ok(n) => n,
                Err(e) => {
                    return Err(e);
                },
            };
            let filetime = match self.read_u64() {
                Ok(n) => n,
                Err(e) => {
                    return Err(e);
                },
            };
            let record = Record { name, file_size, filetime };
            proof {
                let next = self.position();
                assert(step_at(d, p) == TableStep::Record { row: record@, next });
                let before = rows_of(records@);
                let after = rows_of(records@.push(record));
                assert(after =~= before + seq![record@]);
                match parse_table(d, next) {
                    Some((rows, end)) => {
                        assert(before + (seq![record@] + rows) =~= after + rows);
                    },
                    None => {},
                }
            }
            records.push(record);
        }
    }

    /// Gives up the reader for what it has not read: the wire bytes behind
    /// the record table, still obfuscated.
    pub fn into_reader(self) -> (rest: &'a [u8])
        requires
            self.stage() == Stage::TableParsed,
        ensures
            rest@ == self.source().subrange(self.position(), self.source().len() as int),
    {
        proof {
            use_type_invariant(&self);
        }
        slice_subrange(self.bytes, self.pos, self.bytes.len())
    }
}

} // verus!
