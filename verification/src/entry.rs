//! One file of an archive.

use crate::cipher::{transform, transformed_seq};
use crate::error::IoError;
use crate::format::EntryView;
use crate::path::{dir_of, file_of};
use crate::{NANOSECONDS_PER_TICK, SECONDS_TO_UNIX_EPOCH, TICKS_PER_SECOND};
use vstd::prelude::*;
use vstd::std_specs::cmp::PartialEqSpecImpl;

verus! {

/// Where the payload of an entry lives.
#[derive(Debug)]
enum Payload<'a> {
    /// In the buffer the archive was loaded from, still obfuscated.
    Borrowed(&'a [u8]),
    /// In a buffer of the entry's own, decoded.
    Owned(Vec<u8>),
}

/// A place to move the cursor of an entry to.
#[derive(Debug, Clone, Copy)]
pub enum SeekFrom {
    /// So many bytes from the start of the payload.
    Start(u64),
    /// So many bytes from the end of the payload.
    End(i64),
    /// So many bytes from where the cursor stands.
    Current(i64),
}

/// An entry, representative of a file inside a pak file: a path, a time and
/// a payload with a cursor to read it through.
#[derive(Debug)]
pub struct Entry<'a> {
    path: Vec<u8>,
    filetime: u64,
    data: Payload<'a>,
    pos: u64,
}

impl<'a> View for Entry<'a> {
    type V = EntryView;

    closed spec fn view(&self) -> EntryView {
        EntryView {
            path: self.path@,
            filetime: self.filetime,
            data: match self.data {
                Payload::Borrowed(raw) => transformed_seq(raw@),
                Payload::Owned(v) => v@,
            },
        }
    }
}

/// Seconds and nanoseconds since 1970-01-01 of a file time, which counts
/// ticks of 100 ns since 1601-01-01.
pub open spec fn unix_time_of(filetime: u64) -> (i64, u32) {
    (
        (filetime as int / TICKS_PER_SECOND as int - SECONDS_TO_UNIX_EPOCH) as i64,
        (filetime as int % TICKS_PER_SECOND as int * NANOSECONDS_PER_TICK) as u32,
    )
}

impl<'a> Entry<'a> {
    /// Where the cursor stands: an offset into the decoded payload, which
    /// may lie behind its end.
    pub closed spec fn cursor(self) -> nat {
        self.pos as nat
    }

    /// Whether the payload lives in a buffer of the entry's own.
    pub closed spec fn owned(self) -> bool {
        self.data is Owned
    }

    /// The decoded payload from the cursor on.
    pub open spec fn unread(self) -> Seq<u8> {
        if self.cursor() >= self@.data.len() {
            Seq::empty()
        } else {
            self@.data.skip(self.cursor() as int)
        }
    }

    /// An entry that owns its payload, with the cursor at its start.
    pub fn new(path: Vec<u8>, filetime: u64, data: Vec<u8>) -> (entry: Entry<'static>)
        ensures
            entry@ == (EntryView { path: path@, filetime, data: data@ }),
            entry.cursor() == 0,
            entry.owned(),
    {
        Entry { path, filetime, data: Payload::Owned(data), pos: 0 }
    }

    /// An entry whose payload stays where it is: `raw` holds it as it stands
    /// on the wire, and it is decoded when read. The cursor is at its start.
    pub fn borrowed(path: Vec<u8>, filetime: u64, raw: &'a [u8]) -> (entry: Entry<'a>)
        ensures
            entry@ == (EntryView { path: path@, filetime, data: transformed_seq(raw@) }),
            entry.cursor() == 0,
            !entry.owned(),
    {
        Entry { path, filetime, data: Payload::Borrowed(raw), pos: 0 }
    }

    /// The whole path of the entry.
    pub fn path(&self) -> (out: &[u8])
        ensures
            out@ == self@.path,
    {
        self.path.as_slice()
    }

    /// The directory of the entry: its path up to and including the last
    /// separator, or `None` where the path has no separator.
    pub fn dir(&self) -> (out: Option<&[u8]>)
        ensures
            match out {
                Some(d) => dir_of(self@.path) == Some(d@),
                None => dir_of(self@.path) is None,
            },
    {
        crate::path::dir(self.path.as_slice())
    }

    /// The file name of the entry: its path behind the last separator.
    pub fn name(&self) -> (out: &[u8])
        ensures
            out@ == file_of(self@.path),
    {
        crate::path::file_name(self.path.as_slice())
    }

    /// The time of the entry, in ticks of 100 ns since 1601-01-01.
    pub fn filetime(&self) -> (out: u64)
        ensures
            out == self@.filetime,
    {
        self.filetime
    }

    /// The time of the entry as seconds and nanoseconds since 1970-01-01.
    pub fn unix_time(&self) -> (out: (i64, u32))
        ensures
            out == unix_time_of(self@.filetime),
            out.1 < 1_000_000_000,
    {
        let secs = (self.filetime / TICKS_PER_SECOND) as i64 - SECONDS_TO_UNIX_EPOCH;
        let nanos = (self.filetime % TICKS_PER_SECOND) as u32 * NANOSECONDS_PER_TICK;
        (secs, nanos)
    }

    /// The length of the payload as it is now.
    pub fn size(&self) -> (n: usize)
        ensures
            n == self@.data.len(),
    {
        match &self.data {
            Payload::Borrowed(raw) => raw.len(),
            Payload::Owned(v) => v.len(),
        }
    }

    /// Whether the payload lives in a buffer of the entry's own.
    pub fn is_owned(&self) -> (b: bool)
        ensures
            b == self.owned(),
    {
        match &self.data {
            Payload::Borrowed(_) => false,
            Payload::Owned(_) => true,
        }
    }

    /// Where the cursor stands.
    pub fn position(&self) -> (p: u64)
        ensures
            p == self.cursor(),
    {
        self.pos
    }

    fn byte_at(&self, i: usize) -> (b: u8)
        requires
            i < self@.data.len(),
        ensures
            b == self@.data[i as int],
    {
        match &self.data {
            Payload::Borrowed(raw) => transform(raw[i]),
            Payload::Owned(v) => v[i],
        }
    }

    /// Takes ownership of the payload: a borrowed one is decoded into a new
    /// buffer. Path, time, payload and cursor stay as they are.
    pub fn into_owned(self) -> (entry: Entry<'static>)
        ensures
            entry@ == self@,
            entry.cursor() == self.cursor(),
            entry.owned(),
    {
        let Entry { path, filetime, data, pos } = self;
        let data = match data {
            Payload::Owned(v) => v,
            Payload::Borrowed(raw) => {
                let mut v: Vec<u8> = Vec::with_capacity(raw.len());
                let mut i: usize = 0;
                while i < raw.len()
                    invariant
                        i <= raw@.len(),
                        v@ == transformed_seq(raw@).take(i as int),
                    decreases raw@.len() - i,
                {
                    v.push(transform(raw[i]));
                    i = i + 1;
                    assert(v@ =~= transformed_seq(raw@).take(i as int));
                }
                assert(v@ =~= transformed_seq(raw@));
                v
            },
        };
        Entry { path, filetime, data: Payload::Owned(data), pos }
    }

    /// Reads up to `max` bytes of the decoded payload from the cursor on,
    /// and moves the cursor behind them. Fewer than `max` come back only
    /// where the payload ends.
    pub fn read(&mut self, max: usize) -> (out: Vec<u8>)
        ensures
            final(self)@ == old(self)@,
            final(self).owned() == old(self).owned(),
            out@ == old(self).unread().take(
                if max <= old(self).unread().len() {
                    max as int
                } else {
                    old(self).unread().len() as int
                },
            ),
            final(self).cursor() == old(self).cursor() + out@.len(),
    {
        let len = self.size();
        let mut out: Vec<u8> = Vec::new();
        if self.pos >= len as u64 {
            assert(out@ =~= old(self).unread().take(0));
            return out;
        }
        let start = self.pos as usize;
        let left = len - start;
        let n = if max <= left {
            max
        } else {
            left
        };
        let mut i: usize = 0;
        while i < n
            invariant
                i <= n,
                start + n <= len,
                len == self@.data.len(),
                self@ == old(self)@,
                out@ == self@.data.subrange(start as int, start + i),
            decreases n - i,
        {
            out.push(self.byte_at(start + i));
            i = i + 1;
            assert(out@ =~= self@.data.subrange(start as int, start + i));
        }
        assert(out@ =~= old(self).unread().take(n as int));
        self.pos = self.pos + n as u64;
        out
    }

    /// Reads what is left of the decoded payload from the cursor on, and
    /// leaves the cursor at the end of the payload, or where it stood if
    /// that was further.
    pub fn read_to_end(&mut self) -> (out: Vec<u8>)
        ensures
            final(self)@ == old(self)@,
            final(self).owned() == old(self).owned(),
            out@ == old(self).unread(),
            final(self).cursor() == old(self).cursor() + out@.len(),
            final(self).cursor() >= final(self)@.data.len(),
            final(self).unread() == Seq::<u8>::empty(),
    {
        let len = self.size();
        assert(self.unread().len() <= len);
        let out = self.read(usize::MAX);
        assert(out@ =~= old(self).unread());
        out
    }

    /// Moves the cursor. A place behind the end of the payload is accepted;
    /// one before its start, or beyond what a `u64` holds, is refused with
    /// `InvalidInput`, and the cursor stays. Returns the new place.
    pub fn seek(&mut self, to: SeekFrom) -> (res: Result<u64, IoError>)
        ensures
            final(self)@ == old(self)@,
            final(self).owned() == old(self).owned(),
            ({
                let target = seek_target(to, old(self)@.data.len(), old(self).cursor());
                if 0 <= target <= u64::MAX {
                    res == Ok::<u64, IoError>(target as u64) && final(self).cursor() == target
                } else {
                    res == Err::<u64, IoError>(IoError::InvalidInput) && final(self).cursor()
                        == old(self).cursor()
                }
            }),
    {
        let target: Option<u64> = match to {
            SeekFrom::Start(n) => Some(n),
            SeekFrom::End(n) => offset_by(self.size() as u64, n),
            SeekFrom::Current(n) => offset_by(self.pos, n),
        };
        match target {
            Some(p) => {
                self.pos = p;
                Ok(p)
            },
            None => Err(IoError::InvalidInput),
        }
    }
}

/// The place that a seek asks for, in a payload of `len` bytes with the
/// cursor at `cursor`.
pub open spec fn seek_target(to: SeekFrom, len: nat, cursor: nat) -> int {
    match to {
        SeekFrom::Start(n) => n as int,
        SeekFrom::End(n) => len + n,
        SeekFrom::Current(n) => cursor + n,
    }
}

fn offset_by(base: u64, by: i64) -> (out: Option<u64>)
    ensures
        match out {
            Some(p) => p == base + by,
            None => base + by < 0 || base + by > u64::MAX,
        },
{
    if by >= 0 {
        let up = by as u64;
        if up <= u64::MAX - base {
            Some(base + up)
        } else {
            None
        }
    } else {
        let down = (-(by + 1)) as u64 + 1;
        if down <= base {
            Some(base - down)
        } else {
            None
        }
    }
}

impl<'a> PartialEqSpecImpl for Entry<'a> {
    open spec fn obeys_eq_spec() -> bool {
        true
    }

    open spec fn eq_spec(&self, other: &Entry<'a>) -> bool {
        self@ == other@
    }
}

impl<'a> PartialEq for Entry<'a> {
    /// Two entries are equal where path, time and decoded payload are:
    /// neither the cursor nor where the payload lives counts.
    fn eq(&self, other: &Entry<'a>) -> (equal: bool) {
        if self.filetime != other.filetime {
            return false;
        }
        if !same_bytes(self.path.as_slice(), other.path.as_slice()) {
            return false;
        }
        let n = self.size();
        if n != other.size() {
            return false;
        }
        let mut i: usize = 0;
        while i < n
            invariant
                i <= n,
                n == self@.data.len(),
                n == other@.data.len(),
                forall|j: int| 0 <= j < i ==> self@.data[j] == other@.data[j],
            decreases n - i,
        {
            if self.byte_at(i) != other.byte_at(i) {
                return false;
            }
            i = i + 1;
        }
        assert(self@.data =~= other@.data);
        true
    }
}

/// Whether two byte strings are the same.
pub fn same_bytes(a: &[u8], b: &[u8]) -> (same: bool)
    ensures
        same == (a@ == b@),
{
    if a.len() != b.len() {
        return false;
    }
    let mut i: usize = 0;
    while i < a.len()
        invariant
            i <= a@.len(),
            a@.len() == b@.len(),
            forall|j: int| 0 <= j < i ==> a@[j] == b@[j],
        decreases a@.len() - i,
    {
        if a[i] != b[i] {
            return false;
        }
        i = i + 1;
    }
    assert(a@ =~= b@);
    true
}

} // verus!
