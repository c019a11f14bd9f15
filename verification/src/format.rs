//! The pak format as mathematics: what a byte stream means as an archive,
//! and which bytes an archive is stored as.
//!
//! Every byte on the wire is obfuscated (see [`crate::cipher`]). The layout
//! below is that of the decoded stream:
//!
//! ```text
//! MAGIC      4 bytes
//! VERSION    4 bytes
//! repeat {
//!   FLAG     1 byte    the end bit (0x80) closes the table
//!   NAME_LEN 1 byte
//!   NAME     NAME_LEN bytes
//!   SIZE     4 bytes   little-endian payload length
//!   TIME     8 bytes   little-endian file time
//! }
//! payloads, in table order, SIZE bytes each
//! ```

use crate::cipher::transformed_seq;
use crate::endian::{le_of_u32, le_of_u64, u32_of_le, u64_of_le};
use crate::error::{Failure, IoError};
use crate::{FILEFLAGS_END, FILEFLAGS_RECORD, MAGIC, MAX_DATA_LEN, MAX_NAME_LEN, VERSION};
use vstd::prelude::*;

verus! {

/// One row of the record table.
pub struct Row {
    pub name: Seq<u8>,
    pub size: u32,
    pub filetime: u64,
}

/// What an entry of an archive holds: its path, its time and its decoded payload.
pub struct EntryView {
    pub path: Seq<u8>,
    pub filetime: u64,
    pub data: Seq<u8>,
}

/// What stands at one place of the decoded table.
pub enum TableStep {
    /// A flag byte with the end bit set.
    End,
    /// The stream ends inside the record, or before its flag byte.
    Truncated,
    /// A whole record, and the offset behind it.
    Record { row: Row, next: int },
}

/// Whether a flag byte closes the table.
pub open spec fn ends_table(flag: u8) -> bool {
    flag & FILEFLAGS_END != 0
}

/// Reads the decoded stream `d` at offset `at` as one step of the table.
pub open spec fn step_at(d: Seq<u8>, at: int) -> TableStep {
    if at < 0 || at >= d.len() {
        TableStep::Truncated
    } else if ends_table(d[at]) {
        TableStep::End
    } else if at + 1 >= d.len() {
        TableStep::Truncated
    } else {
        let n = d[at + 1] as int;
        if at + 14 + n > d.len() {
            TableStep::Truncated
        } else {
            TableStep::Record {
                row: Row {
                    name: d.subrange(at + 2, at + 2 + n),
                    size: u32_of_le(d.subrange(at + 2 + n, at + 6 + n)),
                    filetime: u64_of_le(d.subrange(at + 6 + n, at + 14 + n)),
                },
                next: at + 14 + n,
            }
        }
    }
}

/// The rows of the table that starts at offset `at` of the decoded stream
/// `d`, and the offset behind its closing flag byte; `None` where the stream
/// ends before the table does.
pub open spec fn parse_table(d: Seq<u8>, at: int) -> Option<(Seq<Row>, int)>
    decreases d.len() - at,
{
    match step_at(d, at) {
        TableStep::End => Some((Seq::empty(), at + 1)),
        TableStep::Truncated => None,
        TableStep::Record { row, next } => match parse_table(d, next) {
            Some((rows, end)) => Some((seq![row] + rows, end)),
            None => None,
        },
    }
}

/// The number of payload bytes that `rows` announce.
pub open spec fn payload_len(rows: Seq<Row>) -> nat
    decreases rows.len(),
{
    if rows.len() == 0 {
        0
    } else {
        rows[0].size as nat + payload_len(rows.drop_first())
    }
}

/// The entries that `rows` describe, their payloads taken one after another
/// from offset `at` of the decoded stream `d`.
pub open spec fn entries_at(d: Seq<u8>, at: int, rows: Seq<Row>) -> Seq<EntryView>
    decreases rows.len(),
{
    if rows.len() == 0 {
        Seq::empty()
    } else {
        seq![
            EntryView {
                path: rows[0].name,
                filetime: rows[0].filetime,
                data: d.subrange(at, at + rows[0].size),
            },
        ] + entries_at(d, at + rows[0].size, rows.drop_first())
    }
}

/// What the wire bytes `w` mean: the entries of the archive, or why they are
/// none. Bytes behind the last payload are not looked at.
pub open spec fn parse(w: Seq<u8>) -> Result<Seq<EntryView>, Failure> {
    let d = transformed_seq(w);
    if d.len() < 4 {
        Err(Failure::Io(IoError::UnexpectedEof))
    } else if d.subrange(0, 4) != MAGIC@ {
        Err(Failure::InvalidMagic(d.subrange(0, 4)))
    } else if d.len() < 8 {
        Err(Failure::Io(IoError::UnexpectedEof))
    } else if d.subrange(4, 8) != VERSION@ {
        Err(Failure::InvalidVersion(d.subrange(4, 8)))
    } else {
        match parse_table(d, 8) {
            None => Err(Failure::Io(IoError::UnexpectedEof)),
            Some((rows, end)) => if end + payload_len(rows) > d.len() {
                Err(Failure::Io(IoError::UnexpectedEof))
            } else {
                Ok(entries_at(d, end, rows))
            },
        }
    }
}

/// Whether every flag byte of the table at offset `at` of the decoded stream
/// `d` is a plain one: `0x00` before a record, `0x80` at the end.
pub open spec fn plain_flags(d: Seq<u8>, at: int) -> bool
    decreases d.len() - at,
{
    match step_at(d, at) {
        TableStep::End => d[at] == FILEFLAGS_END,
        TableStep::Truncated => false,
        TableStep::Record { row, next } => d[at] == FILEFLAGS_RECORD && plain_flags(d, next),
    }
}

/// Whether the wire bytes `w` are an archive as this library writes one:
/// they hold a table with plain flag bytes, and they end with the last payload.
pub open spec fn canonical(w: Seq<u8>) -> bool {
    let d = transformed_seq(w);
    match parse_table(d, 8) {
        Some((rows, end)) => plain_flags(d, 8) && d.len() == end + payload_len(rows),
        None => false,
    }
}

/// Whether the name of `e` fits the one-byte length in front of it.
pub open spec fn name_fits(e: EntryView) -> bool {
    e.path.len() <= MAX_NAME_LEN
}

/// Whether the payload of `e` fits the four-byte size field.
pub open spec fn data_fits(e: EntryView) -> bool {
    e.data.len() <= MAX_DATA_LEN
}

/// Whether every entry can be written: no name over 255 bytes, no payload
/// over 2^32 - 1 bytes.
pub open spec fn writable(es: Seq<EntryView>) -> bool {
    forall|i: int| 0 <= i < es.len() ==> name_fits(#[trigger] es[i]) && data_fits(es[i])
}

/// The table row of an entry.
pub open spec fn row_of(e: EntryView) -> Row {
    Row { name: e.path, size: e.data.len() as u32, filetime: e.filetime }
}

/// The table rows of a list of entries.
pub open spec fn rows_for(es: Seq<EntryView>) -> Seq<Row> {
    Seq::new(es.len(), |i: int| row_of(es[i]))
}

/// What the record of `e` starts with: flag, name length and name.
pub open spec fn record_lead(e: EntryView) -> Seq<u8> {
    seq![FILEFLAGS_RECORD, e.path.len() as u8] + e.path
}

/// The decoded bytes of one record: flag, name length, name, size, time.
pub open spec fn row_bytes(r: Row) -> Seq<u8> {
    seq![FILEFLAGS_RECORD, r.name.len() as u8] + r.name + le_of_u32(r.size) + le_of_u64(
        r.filetime,
    )
}

/// The decoded records of `es`, one after another, without the closing flag.
pub open spec fn rows_bytes(es: Seq<EntryView>) -> Seq<u8>
    decreases es.len(),
{
    if es.len() == 0 {
        Seq::empty()
    } else {
        row_bytes(row_of(es[0])) + rows_bytes(es.drop_first())
    }
}

/// The payloads of `es`, one after another.
pub open spec fn payload_bytes(es: Seq<EntryView>) -> Seq<u8>
    decreases es.len(),
{
    if es.len() == 0 {
        Seq::empty()
    } else {
        es[0].data + payload_bytes(es.drop_first())
    }
}

/// The decoded header: magic, then version.
pub open spec fn header_bytes() -> Seq<u8> {
    MAGIC@ + VERSION@
}

/// The decoded stream of an archive: header, table, closing flag, payloads.
pub open spec fn image(es: Seq<EntryView>) -> Seq<u8> {
    header_bytes() + rows_bytes(es) + seq![FILEFLAGS_END] + payload_bytes(es)
}

/// The bytes an archive is stored as.
pub open spec fn wire_image(es: Seq<EntryView>) -> Seq<u8> {
    transformed_seq(image(es))
}

/// How many entries, from the first on, can be written before one does not fit.
pub open spec fn writable_prefix(es: Seq<EntryView>) -> nat
    decreases es.len(),
{
    if es.len() == 0 || !name_fits(es[0]) || !data_fits(es[0]) {
        0
    } else {
        1 + writable_prefix(es.drop_first())
    }
}

/// What saving `es` fails with: the first entry that does not fit decides,
/// its name before its payload. `None` where every entry fits.
pub open spec fn write_failure(es: Seq<EntryView>) -> Option<Failure> {
    let k = writable_prefix(es) as int;
    if k >= es.len() {
        None
    } else if !name_fits(es[k]) {
        Some(Failure::InvalidNameLength(es[k].path.len()))
    } else {
        Some(Failure::InvalidDataLength(es[k].data.len()))
    }
}

/// The decoded bytes that a failing save has emitted when it stops: the
/// header and the records of the entries before the one that does not fit;
/// of that one nothing where its name is too long, and flag and name, but no
/// size, where its payload is.
pub open spec fn image_before_failure(es: Seq<EntryView>) -> Seq<u8> {
    let k = writable_prefix(es) as int;
    header_bytes() + rows_bytes(es.take(k)) + (if k < es.len() && name_fits(es[k]) {
        record_lead(es[k])
    } else {
        Seq::empty()
    })
}

/// The records of a list that grew by one entry.
pub proof fn lemma_rows_bytes_push(es: Seq<EntryView>, e: EntryView)
    ensures
        rows_bytes(es.push(e)) == rows_bytes(es) + row_bytes(row_of(e)),
    decreases es.len(),
{
    if es.len() == 0 {
        assert(es.push(e).drop_first() =~= Seq::<EntryView>::empty());
        assert(rows_bytes(es.push(e).drop_first()) =~= Seq::<u8>::empty());
        assert(rows_bytes(es) =~= Seq::<u8>::empty());
        assert(rows_bytes(es.push(e)) =~= rows_bytes(es) + row_bytes(row_of(e)));
    } else {
        assert(es.push(e).drop_first() =~= es.drop_first().push(e));
        lemma_rows_bytes_push(es.drop_first(), e);
        assert(rows_bytes(es.push(e)) =~= rows_bytes(es) + row_bytes(row_of(e)));
    }
}

/// The payloads of a list that grew by one entry.
pub proof fn lemma_payload_bytes_push(es: Seq<EntryView>, e: EntryView)
    ensures
        payload_bytes(es.push(e)) == payload_bytes(es) + e.data,
    decreases es.len(),
{
    if es.len() == 0 {
        assert(es.push(e).drop_first() =~= Seq::<EntryView>::empty());
        assert(payload_bytes(es.push(e).drop_first()) =~= Seq::<u8>::empty());
        assert(payload_bytes(es) =~= Seq::<u8>::empty());
        assert(payload_bytes(es.push(e)) =~= payload_bytes(es) + e.data);
    } else {
        assert(es.push(e).drop_first() =~= es.drop_first().push(e));
        lemma_payload_bytes_push(es.drop_first(), e);
        assert(payload_bytes(es.push(e)) =~= payload_bytes(es) + e.data);
    }
}

/// The first entry that does not fit, found by its index.
pub proof fn lemma_writable_prefix_is(es: Seq<EntryView>, k: int)
    requires
        0 <= k <= es.len(),
        forall|j: int| 0 <= j < k ==> name_fits(#[trigger] es[j]) && data_fits(es[j]),
        k < es.len() ==> !name_fits(es[k]) || !data_fits(es[k]),
    ensures
        writable_prefix(es) == k,
    decreases es.len(),
{
    if k > 0 {
        let rest = es.drop_first();
        assert(name_fits(es[0]) && data_fits(es[0]));
        assert forall|j: int| 0 <= j < k - 1 implies name_fits(#[trigger] rest[j]) && data_fits(
            rest[j],
        ) by {
            assert(rest[j] == es[j + 1]);
        }
        lemma_writable_prefix_is(rest, k - 1);
    }
}

} // verus!
