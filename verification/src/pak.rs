//! The archive: an ordered list of entries, loaded from and saved to bytes.

use crate::cipher::{lemma_transform_seq_concat, transformed_seq};
use crate::entry::Entry;
use crate::error::{Failure, IoError, PakError};
use crate::format::{
    canonical, data_fits, entries_at, header_bytes, image_before_failure,
    lemma_payload_bytes_push, lemma_rows_bytes_push, lemma_writable_prefix_is, name_fits, parse,
    parse_table, payload_bytes, payload_len, record_lead, row_bytes, row_of, rows_bytes,
    wire_image, write_failure, EntryView, Row,
};
use crate::laws::{lemma_load_then_save, lemma_save_succeeds_iff_writable};
use crate::reader::{rows_of, PakReader};
use crate::writer::{write_all, write_filename, write_u32, write_u64, write_u8};
use crate::{FILEFLAGS_END, FILEFLAGS_RECORD, MAGIC, MAX_DATA_LEN, MAX_NAME_LEN, VERSION};
use vstd::prelude::*;
use vstd::slice::slice_subrange;
use vstd::std_specs::cmp::PartialEqSpecImpl;

verus! {

/// An in-memory pak file. It may reference borrowed data to avoid decoding
/// the entire file in memory all at once.
#[derive(Debug)]
pub struct Pak<'a> {
    /// All entries of this pak file, in the order of the file.
    pub entries: Vec<Entry<'a>>,
}

impl<'a> View for Pak<'a> {
    type V = Seq<EntryView>;

    open spec fn view(&self) -> Seq<EntryView> {
        Seq::new(self.entries@.len(), |i: int| self.entries@[i]@)
    }
}

/// What loading `bytes` is to give: the archive that the bytes mean, with
/// every cursor at the start of its payload, or the reason why they mean none.
pub open spec fn loads<'b>(bytes: Seq<u8>, res: Result<Pak<'b>, PakError>) -> bool {
    match res {
        Ok(pak) => parse(bytes) == Ok::<Seq<EntryView>, Failure>(pak@) && pak.rewound(),
        Err(e) => parse(bytes) == Err::<Seq<EntryView>, Failure>(e@),
    }
}

/// Both ways of loading agree: on the same bytes they succeed together, and
/// then give the same number of entries, in the same order, with the same
/// paths, times and decoded payloads, every cursor at the start; or they
/// fail together, for the same reason.
pub proof fn lemma_load_modes_agree<'b>(
    bytes: Seq<u8>,
    read: Result<Pak<'static>, PakError>,
    borrowed: Result<Pak<'b>, PakError>,
)
    requires
        loads(bytes, read),
        loads(bytes, borrowed),
    ensures
        read is Ok <==> borrowed is Ok,
        match (read, borrowed) {
            (Ok(r), Ok(b)) => {
                &&& r@ == b@
                &&& r.entries@.len() == b.entries@.len()
                &&& forall|i: int|
                    0 <= i < r.entries@.len() ==> {
                        &&& (#[trigger] r.entries@[i])@.path == b.entries@[i]@.path
                        &&& r.entries@[i]@.filetime == b.entries@[i]@.filetime
                        &&& r.entries@[i]@.data == b.entries@[i]@.data
                        &&& r.entries@[i].cursor() == b.entries@[i].cursor()
                    }
            },
            (Err(e), Err(f)) => e@ == f@,
            _ => true,
        },
{
    match (read, borrowed) {
        (Ok(r), Ok(b)) => {
            assert(r@.len() == b@.len());
            assert forall|i: int| 0 <= i < r.entries@.len() implies (#[trigger] r.entries@[i])@
                == b.entries@[i]@ by {
                assert(r@[i] == b@[i]);
            }
        },
        _ => {},
    }
}

/// Loading, then saving: an archive as it was loaded can be saved, and the
/// save gives the bytes it was loaded from exactly where those bytes are
/// canonical: plain flag bytes, and nothing behind the last payload.
pub proof fn lemma_loaded_archive_saves_as_its_bytes<'b>(bytes: Seq<u8>, pak: Pak<'b>)
    requires
        loads(bytes, Ok::<Pak<'b>, PakError>(pak)),
    ensures
        pak.rewound(),
        write_failure(pak@) is None,
        wire_image(pak@) == bytes <==> canonical(bytes),
{
    lemma_load_then_save(bytes);
    lemma_save_succeeds_iff_writable(pak@);
}

impl<'a> Pak<'a> {
    /// Whether every cursor stands at the start of its payload.
    pub open spec fn rewound(self) -> bool {
        forall|i: int| 0 <= i < self.entries@.len() ==> (#[trigger] self.entries@[i]).cursor() == 0
    }

    /// Whether every entry owns its payload.
    pub open spec fn all_owned(self) -> bool {
        forall|i: int| 0 <= i < self.entries@.len() ==> (#[trigger] self.entries@[i]).owned()
    }

    /// What the first `n` entries have left to read, one after another.
    pub open spec fn unread_prefix(self, n: int) -> Seq<u8>
        decreases n,
    {
        if n <= 0 {
            Seq::empty()
        } else {
            self.unread_prefix(n - 1) + self.entries@[n - 1].unread()
        }
    }

    /// What all entries have left to read, one after another.
    pub open spec fn unread(self) -> Seq<u8> {
        self.unread_prefix(self.entries@.len() as int)
    }

    /// Loads a pak file from the bytes of a stream. Returns a pak file with
    /// ownership over its data, decoding it all up front.
    pub fn from_read(bytes: &[u8]) -> (res: Result<Pak<'static>, PakError>)
        ensures
            loads(bytes@, res),
            res matches Ok(pak) ==> pak.all_owned(),
    {
        let mut reader = PakReader::new(bytes);
        match reader.read_magic() {
            Ok(_) => {},
            Err(e) => {
                return Err(e);
            },
        }
        match reader.read_version() {
            Ok(_) => {},
            Err(e) => {
                return Err(e);
            },
        }
        let ghost d = reader.decoded();
        assert(d.subrange(0, 4) == MAGIC@ && d.subrange(4, 8) == VERSION@);
        let records = match reader.read_records() {
            Ok(r) => r,
            Err(e) => {
                return Err(e);
            },
        };
        let ghost rows = rows_of(records@);
        let ghost end = reader.position();
        let ghost all = records@;
        let mut entries: Vec<Entry<'static>> = Vec::with_capacity(records.len());
        assert(rows.skip(0) =~= rows);
        assert(Seq::<EntryView>::empty() + entries_at(d, end, rows) =~= entries_at(d, end, rows));
        for record in it: records
            invariant
                it.seq() == all,
                rows == rows_of(all),
                reader.source() == bytes@,
                d == reader.decoded(),
                d.len() >= 8 && d.subrange(0, 4) == MAGIC@ && d.subrange(4, 8) == VERSION@,
                parse_table(d, 8) == Some((rows, end)),
                8 <= end <= reader.position() <= d.len(),
                entries@.len() == it.index(),
                forall|j: int| 0 <= j < entries@.len() ==> (#[trigger] entries@[j]).cursor() == 0,
                forall|j: int| 0 <= j < entries@.len() ==> (#[trigger] entries@[j]).owned(),
                entries_at(d, end, rows) == Seq::new(entries@.len(), |j: int| entries@[j]@)
                    + entries_at(d, reader.position(), rows.skip(it.index())),
                end + payload_len(rows) == reader.position() + payload_len(rows.skip(it.index())),
        {
            let ghost i = it.index();
            let ghost p = reader.position();
            let ghost before = Seq::new(entries@.len(), |j: int| entries@[j]@);
            proof {
                assert(rows.skip(i)[0] == record@);
                assert(rows.skip(i).drop_first() =~= rows.skip(i + 1));
                assert(payload_len(rows.skip(i)) == record.file_size + payload_len(
                    rows.skip(i + 1),
                ));
            }
            let data = match reader.read_exact(record.file_size as usize) {
                Ok(v) => v,
                Err(e) => {
                    return Err(e);
                },
            };
            let entry = Entry::new(record.name, record.filetime, data);
            entries.push(entry);
            proof {
                let after = Seq::new(entries@.len(), |j: int| entries@[j]@);
                assert(after =~= before + seq![entry@]);
                assert(before + (seq![entry@] + entries_at(d, reader.position(), rows.skip(i + 1)))
                    =~= after + entries_at(d, reader.position(), rows.skip(i + 1)));
            }
        }
        let pak = Pak { entries };
        proof {
            assert(rows.skip(rows.len() as int) =~= Seq::<Row>::empty());
            assert(pak@ =~= entries_at(d, end, rows));
        }
        Ok(pak)
    }

    /// Loads a pak file from a byte slice. Returns a pak file that borrows
    /// its payloads from the slice and decodes them when they are read.
    pub fn from_bytes(bytes: &'a [u8]) -> (res: Result<Pak<'a>, PakError>)
        ensures
            loads(bytes@, res),
            res matches Ok(pak) ==> forall|i: int|
                0 <= i < pak.entries@.len() ==> !(#[trigger] pak.entries@[i]).owned(),
    {
        let mut reader = PakReader::new(bytes);
        match reader.read_magic() {
            Ok(_) => {},
            Err(e) => {
                return Err(e);
            },
        }
        match reader.read_version() {
            Ok(_) => {},
            Err(e) => {
                return Err(e);
            },
        }
        let ghost d = reader.decoded();
        assert(d.subrange(0, 4) == MAGIC@ && d.subrange(4, 8) == VERSION@);
        let records = match reader.read_records() {
            Ok(r) => r,
            Err(e) => {
                return Err(e);
            },
        };
        let ghost rows = rows_of(records@);
        let ghost end = reader.position();
        let ghost all = records@;
        let mut rest = reader.into_reader();
        let mut entries: Vec<Entry<'a>> = Vec::with_capacity(records.len());
        assert(rows.skip(0) =~= rows);
        assert(Seq::<EntryView>::empty() + entries_at(d, end, rows) =~= entries_at(d, end, rows));
        let ghost mut at = end;
        for record in it: records
            invariant
                it.seq() == all,
                rows == rows_of(all),
                d == transformed_seq(bytes@),
                d.len() == bytes@.len(),
                d.len() >= 8 && d.subrange(0, 4) == MAGIC@ && d.subrange(4, 8) == VERSION@,
                parse_table(d, 8) == Some((rows, end)),
                8 <= end <= at <= d.len(),
                rest@ == bytes@.subrange(at, bytes@.len() as int),
                entries@.len() == it.index(),
                forall|j: int| 0 <= j < entries@.len() ==> (#[trigger] entries@[j]).cursor() == 0,
                forall|j: int| 0 <= j < entries@.len() ==> !(#[trigger] entries@[j]).owned(),
                entries_at(d, end, rows) == Seq::new(entries@.len(), |j: int| entries@[j]@)
                    + entries_at(d, at, rows.skip(it.index())),
                end + payload_len(rows) == at + payload_len(rows.skip(it.index())),
        {
            let ghost i = it.index();
            let ghost before = Seq::new(entries@.len(), |j: int| entries@[j]@);
            proof {
                assert(rows.skip(i)[0] == record@);
                assert(rows.skip(i).drop_first() =~= rows.skip(i + 1));
                assert(payload_len(rows.skip(i)) == record.file_size + payload_len(
                    rows.skip(i + 1),
                ));
            }
            let len = record.file_size as usize;
            assert(rest@.len() == d.len() - at);
            if len > rest.len() {
                assert(end + payload_len(rows) > d.len());
                return Err(PakError::Io(IoError::UnexpectedEof));
            }
            let data = slice_subrange(rest, 0, len);
            rest = slice_subrange(rest, len, rest.len());
            let entry = Entry::borrowed(record.name, record.filetime, data);
            entries.push(entry);
            proof {
                assert forall|k: int| 0 <= k < len implies #[trigger] transformed_seq(data@)[k]
                    == d.subrange(at, at + len)[k] by {
                    assert(data@[k] == bytes@[at + k]);
                }
                assert(transformed_seq(data@) =~= d.subrange(at, at + len));
                at = at + len;
                assert(rest@ =~= bytes@.subrange(at, bytes@.len() as int));
                let after = Seq::new(entries@.len(), |j: int| entries@[j]@);
                assert(after =~= before + seq![entry@]);
                assert(before + (seq![entry@] + entries_at(d, at, rows.skip(i + 1))) =~= after
                    + entries_at(d, at, rows.skip(i + 1)));
            }
        }
        let pak = Pak { entries };
        proof {
            assert(rows.skip(rows.len() as int) =~= Seq::<Row>::empty());
            assert(pak@ =~= entries_at(d, end, rows));
        }
        Ok(pak)
    }

    /// Takes ownership of all data, decoding it and returning a pak file
    /// that is guaranteed not to reference external data.
    pub fn into_owned(self) -> (pak: Pak<'static>)
        ensures
            pak@ == self@,
            pak.all_owned(),
            pak.entries@.len() == self.entries@.len(),
            forall|i: int|
                0 <= i < pak.entries@.len() ==> (#[trigger] pak.entries@[i]).cursor()
                    == self.entries@[i].cursor(),
    {
        let ghost all = self.entries@;
        let mut entries: Vec<Entry<'static>> = Vec::with_capacity(self.entries.len());
        for entry in it: self.entries
            invariant
                it.seq() == all,
                entries@.len() == it.index(),
                forall|j: int|
                    0 <= j < entries@.len() ==> (#[trigger] entries@[j])@ == all[j]@
                        && entries@[j].owned() && entries@[j].cursor() == all[j].cursor(),
        {
            entries.push(entry.into_owned());
        }
        let pak = Pak { entries };
        assert(pak@ =~= self@);
        pak
    }

    /// Writes the pak file to `writer`: header, record table, then every
    /// payload from its cursor on. This takes `&mut self` because afterwards
    /// all cursors stand at the end of their payloads. Where an entry does
    /// not fit the format the save stops there with an error, the cursors
    /// stay, and `writer` holds what was written until then.
    pub fn write_to(&mut self, writer: &mut Vec<u8>) -> (res: Result<(), PakError>)
        ensures
            final(self)@ == old(self)@,
            final(self).entries@.len() == old(self).entries@.len(),
            forall|i: int|
                0 <= i < old(self).entries@.len() ==> (#[trigger] final(self).entries@[i]).owned()
                    == old(self).entries@[i].owned(),
            match res {
                Ok(_) => {
                    &&& write_failure(old(self)@) is None
                    &&& final(writer)@ == old(writer)@ + transformed_seq(
                        header_bytes() + rows_bytes(old(self)@) + seq![FILEFLAGS_END] + old(self).unread(),
                    )
                    &&& forall|i: int|
                        0 <= i < old(self).entries@.len() ==> (#[trigger] final(self).entries@[i]).cursor() == old(self).entries@[i].cursor() + old(self).entries@[i].unread().len()
                },
                Err(e) => {
                    &&& write_failure(old(self)@) == Some(e@)
                    &&& final(writer)@ == old(writer)@ + transformed_seq(
                        image_before_failure(old(self)@),
                    )
                    &&& forall|i: int|
                        0 <= i < old(self).entries@.len() ==> (#[trigger] final(self).entries@[i]).cursor() == old(self).entries@[i].cursor()
                },
            },
            old(self).rewound() && res is Ok ==> final(writer)@ == old(writer)@ + wire_image(
                old(self)@,
            ),
    {
        let ghost es = self@;
        let ghost base = writer@;
        let magic = MAGIC;
        let version = VERSION;
        write_all(writer, magic.as_slice());
        write_all(writer, version.as_slice());
        proof {
            lemma_transform_seq_concat(MAGIC@, VERSION@);
            assert(es.take(0) =~= Seq::<EntryView>::empty());
            assert(header_bytes() + rows_bytes(es.take(0)) =~= header_bytes());
            assert(writer@ =~= base + transformed_seq(header_bytes()));
        }
        let n = self.entries.len();
        let mut i: usize = 0;
        while i < n
            invariant
                *self == *old(self),
                es == self@,
                base == old(writer)@,
                n == self.entries@.len(),
                i <= n,
                forall|j: int| 0 <= j < i ==> name_fits(#[trigger] es[j]) && data_fits(es[j]),
                writer@ == base + transformed_seq(header_bytes() + rows_bytes(es.take(i as int))),
            decreases n - i,
        {
            let ghost sofar = header_bytes() + rows_bytes(es.take(i as int));
            let entry = &self.entries[i];
            assert(entry@ == es[i as int]);
            match write_record(writer, entry) {
                Ok(_) => {
                    proof {
                        lemma_transform_seq_concat(sofar, row_bytes(row_of(es[i as int])));
                        assert(es.take(i + 1) =~= es.take(i as int).push(es[i as int]));
                        lemma_rows_bytes_push(es.take(i as int), es[i as int]);
                        assert(sofar + row_bytes(row_of(es[i as int])) =~= header_bytes()
                            + rows_bytes(es.take(i + 1)));
                    }
                },
                Err(e) => {
                    proof {
                        lemma_writable_prefix_is(es, i as int);
                        lemma_transform_seq_concat(sofar, record_lead(es[i as int]));
                        if name_fits(es[i as int]) {
                            assert(image_before_failure(es) =~= sofar + record_lead(es[i as int]));
                        } else {
                            assert(image_before_failure(es) =~= sofar);
                            assert(writer@ =~= base + transformed_seq(sofar));
                        }
                    }
                    return Err(e);
                },
            }
            i = i + 1;
        }
        proof {
            lemma_writable_prefix_is(es, n as int);
            assert(es.take(n as int) =~= es);
        }
        write_u8(writer, FILEFLAGS_END);
        let ghost table = header_bytes() + rows_bytes(es) + seq![FILEFLAGS_END];
        proof {
            lemma_transform_seq_concat(header_bytes() + rows_bytes(es), seq![FILEFLAGS_END]);
            assert(table + old(self).unread_prefix(0) =~= table);
            assert(writer@ =~= base + transformed_seq(table));
        }
        let mut i: usize = 0;
        while i < n
            invariant
                es == self@,
                es == old(self)@,
                n == self.entries@.len(),
                n == old(self).entries@.len(),
                base == old(writer)@,
                i <= n,
                table == header_bytes() + rows_bytes(es) + seq![FILEFLAGS_END],
                forall|j: int|
                    0 <= j < n ==> (#[trigger] self.entries@[j]).owned() == old(self).entries@[j].owned(),
                forall|j: int|
                    0 <= j < i ==> (#[trigger] self.entries@[j]).cursor() == old(self).entries@[j].cursor() + old(self).entries@[j].unread().len(),
                forall|j: int| i <= j < n ==> (#[trigger] self.entries@[j]) == old(self).entries@[j],
                writer@ == base + transformed_seq(table + old(self).unread_prefix(i as int)),
            decreases n - i,
        {
            let ghost before = self.entries@;
            let chunk = self.entries[i].read_to_end();
            write_all(writer, chunk.as_slice());
            proof {
                lemma_transform_seq_concat(table + old(self).unread_prefix(i as int), chunk@);
                assert(table + old(self).unread_prefix(i as int) + chunk@ =~= table + old(self).unread_prefix(i + 1));
                assert(self@ =~= es);
            }
            i = i + 1;
        }
        proof {
            if old(self).rewound() {
                old(self).lemma_unread_of_rewound(n as int);
                assert(es.take(n as int) =~= es);
                assert(table + old(self).unread() =~= crate::format::image(es));
            }
        }
        Ok(())
    }

    /// With every cursor at the start, what is left to read of the first
    /// `n` entries is their whole payloads.
    pub proof fn lemma_unread_of_rewound(self, n: int)
        requires
            self.rewound(),
            0 <= n <= self.entries@.len(),
        ensures
            self.unread_prefix(n) == payload_bytes(self@.take(n)),
        decreases n,
    {
        if n == 0 {
            assert(self@.take(0) =~= Seq::<EntryView>::empty());
        } else {
            self.lemma_unread_of_rewound(n - 1);
            let e = self.entries@[n - 1];
            assert(e.unread() =~= e@.data);
            assert(self@.take(n) =~= self@.take(n - 1).push(e@));
            lemma_payload_bytes_push(self@.take(n - 1), e@);
        }
    }
}

/// Writes the record of one entry. A name that is too long is refused
/// before anything is written; a payload that is too long after flag and
/// name, before the size.
fn write_record(writer: &mut Vec<u8>, entry: &Entry) -> (res: Result<(), PakError>)
    ensures
        match res {
            Ok(_) => name_fits(entry@) && data_fits(entry@) && final(writer)@ == old(writer)@
                + transformed_seq(row_bytes(row_of(entry@))),
            Err(e) => if !name_fits(entry@) {
                e@ == Failure::InvalidNameLength(entry@.path.len()) && final(writer)@ == old(writer)@
            } else {
                !data_fits(entry@) && e@ == Failure::InvalidDataLength(entry@.data.len())
                    && final(writer)@ == old(writer)@ + transformed_seq(record_lead(entry@))
            },
        },
{
    let name = entry.path();
    let size = entry.size();
    if name.len() > MAX_NAME_LEN {
        return Err(PakError::InvalidNameLength(name.len()));
    }
    write_u8(writer, FILEFLAGS_RECORD);
    match write_filename(writer, name) {
        Ok(_) => {},
        Err(e) => {
            return Err(e);
        },
    }
    let ghost lead = record_lead(entry@);
    proof {
        lemma_transform_seq_concat(seq![FILEFLAGS_RECORD], seq![name@.len() as u8] + name@);
        assert(seq![FILEFLAGS_RECORD] + (seq![name@.len() as u8] + name@) =~= lead);
        assert(writer@ =~= old(writer)@ + transformed_seq(lead));
    }
    if size > MAX_DATA_LEN {
        return Err(PakError::InvalidDataLength(size));
    }
    write_u32(writer, size as u32);
    write_u64(writer, entry.filetime());
    proof {
        let row = row_of(entry@);
        let sized = crate::endian::le_of_u32(row.size);
        let timed = crate::endian::le_of_u64(row.filetime);
        lemma_transform_seq_concat(lead, sized);
        lemma_transform_seq_concat(lead + sized, timed);
        assert(row_bytes(row) =~= lead + sized + timed);
        assert(writer@ =~= old(writer)@ + transformed_seq(lead + sized + timed));
    }
    Ok(())
}

impl<'a> PartialEqSpecImpl for Pak<'a> {
    open spec fn obeys_eq_spec() -> bool {
        true
    }

    open spec fn eq_spec(&self, other: &Pak<'a>) -> bool {
        self@ == other@
    }
}

impl<'a> PartialEq for Pak<'a> {
    /// Two pak files are equal where they hold equal entries in the same order.
    fn eq(&self, other: &Pak<'a>) -> (equal: bool) {
        let n = self.entries.len();
        if n != other.entries.len() {
            assert(self@.len() != other@.len());
            return false;
        }
        let mut i: usize = 0;
        while i < n
            invariant
                i <= n,
                n == self.entries@.len(),
                n == other.entries@.len(),
                forall|j: int| 0 <= j < i ==> self@[j] == other@[j],
            decreases n - i,
        {
            if !self.entries[i].eq(&other.entries[i]) {
                assert(self@[i as int] != other@[i as int]);
                return false;
            }
            i = i + 1;
        }
        assert(self@ =~= other@);
        true
    }
}

} // verus!
