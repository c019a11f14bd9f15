//! What holds of the format as a whole: loading and saving undo each other,
//! a bad header is refused before the table is looked at, and a save stops
//! at the first entry that does not fit.

use crate::cipher::{lemma_transform_seq_involution, transformed_seq};
use crate::endian::{
    le_of_u32, le_of_u64, lemma_le_u32_round_trip, lemma_le_u64_round_trip,
    lemma_u32_le_round_trip, lemma_u64_le_round_trip,
};
use crate::error::Failure;
use crate::format::{
    canonical, data_fits, ends_table, entries_at, header_bytes, image, image_before_failure,
    lemma_writable_prefix_is, name_fits, parse, parse_table, payload_bytes, payload_len,
    plain_flags, record_lead, row_bytes, row_of, rows_bytes, rows_for, step_at, wire_image,
    writable, writable_prefix, write_failure, EntryView, Row, TableStep,
};
use crate::{FILEFLAGS_END, FILEFLAGS_RECORD, MAGIC, VERSION};
use vstd::prelude::*;

verus! {

proof fn lemma_flag_bits()
    ensures
        ends_table(FILEFLAGS_END),
        !ends_table(FILEFLAGS_RECORD),
{
    assert(0x80u8 & 0x80u8 != 0) by (bit_vector);
    assert(0x00u8 & 0x80u8 == 0) by (bit_vector);
}

proof fn lemma_row_bytes_shape(r: Row)
    requires
        r.name.len() <= 255,
    ensures
        row_bytes(r).len() == 14 + r.name.len(),
        row_bytes(r)[0] == FILEFLAGS_RECORD,
        row_bytes(r)[1] == r.name.len(),
        row_bytes(r).subrange(2, 2 + r.name.len() as int) == r.name,
        row_bytes(r).subrange(2 + r.name.len() as int, 6 + r.name.len() as int) == le_of_u32(
            r.size,
        ),
        row_bytes(r).subrange(6 + r.name.len() as int, 14 + r.name.len() as int) == le_of_u64(
            r.filetime,
        ),
{
    let n = r.name.len() as int;
    lemma_u32_le_round_trip(r.size);
    lemma_u64_le_round_trip(r.filetime);
    assert(row_bytes(r).subrange(2, 2 + n) =~= r.name);
    assert(row_bytes(r).subrange(2 + n, 6 + n) =~= le_of_u32(r.size));
    assert(row_bytes(r).subrange(6 + n, 14 + n) =~= le_of_u64(r.filetime));
}

/// A table that was written reads back as the rows it was written from,
/// and its flag bytes are plain.
proof fn lemma_table_reads_back(d: Seq<u8>, at: int, es: Seq<EntryView>)
    requires
        0 <= at,
        writable(es),
        at + rows_bytes(es).len() < d.len(),
        d.subrange(at, at + rows_bytes(es).len()) == rows_bytes(es),
        d[at + rows_bytes(es).len()] == FILEFLAGS_END,
    ensures
        parse_table(d, at) == Some((rows_for(es), at + rows_bytes(es).len() + 1)),
        plain_flags(d, at),
    decreases es.len(),
{
    lemma_flag_bits();
    if es.len() == 0 {
        assert(rows_for(es) =~= Seq::<Row>::empty());
    } else {
        let e = es[0];
        let rest = es.drop_first();
        let row = row_of(e);
        let n = e.path.len() as int;
        let rb = row_bytes(row);
        let tb = rows_bytes(es);
        assert(name_fits(e) && data_fits(e));
        lemma_row_bytes_shape(row);
        lemma_u32_le_round_trip(row.size);
        lemma_u64_le_round_trip(row.filetime);
        assert(tb == rb + rows_bytes(rest));
        assert forall|k: int| 0 <= k < tb.len() implies d[at + k] == tb[k] by {
            assert(d.subrange(at, at + tb.len())[k] == d[at + k]);
        }
        assert(d[at] == tb[0] && tb[0] == rb[0]);
        assert(d[at + 1] == tb[1] && tb[1] == rb[1]);
        assert(d.subrange(at + 2, at + 2 + n) =~= rb.subrange(2, 2 + n)) by {
            assert forall|k: int| 0 <= k < n implies #[trigger] d.subrange(at + 2, at + 2 + n)[k]
                == rb.subrange(2, 2 + n)[k] by {
                assert(tb[2 + k] == rb[2 + k]);
            }
        }
        assert(d.subrange(at + 2 + n, at + 6 + n) =~= rb.subrange(2 + n, 6 + n)) by {
            assert forall|k: int| 0 <= k < 4 implies #[trigger] d.subrange(
                at + 2 + n,
                at + 6 + n,
            )[k] == rb.subrange(2 + n, 6 + n)[k] by {
                assert(tb[2 + n + k] == rb[2 + n + k]);
            }
        }
        assert(d.subrange(at + 6 + n, at + 14 + n) =~= rb.subrange(6 + n, 14 + n)) by {
            assert forall|k: int| 0 <= k < 8 implies #[trigger] d.subrange(
                at + 6 + n,
                at + 14 + n,
            )[k] == rb.subrange(6 + n, 14 + n)[k] by {
                assert(tb[6 + n + k] == rb[6 + n + k]);
            }
        }
        assert(step_at(d, at) == TableStep::Record { row, next: at + 14 + n });
        let next = at + 14 + n;
        assert(d.subrange(next, next + rows_bytes(rest).len()) =~= rows_bytes(rest)) by {
            assert forall|k: int| 0 <= k < rows_bytes(rest).len() implies d[next + k]
                == rows_bytes(rest)[k] by {
                assert(tb[14 + n + k] == rows_bytes(rest)[k]);
            }
        }
        assert(writable(rest)) by {
            assert forall|i: int| 0 <= i < rest.len() implies name_fits(#[trigger] rest[i])
                && data_fits(rest[i]) by {
                assert(rest[i] == es[i + 1]);
            }
        }
        lemma_table_reads_back(d, next, rest);
        assert(rows_for(es) =~= seq![row] + rows_for(rest));
    }
}

/// Payloads that were written one after another read back as they were.
proof fn lemma_payloads_read_back(d: Seq<u8>, at: int, es: Seq<EntryView>)
    requires
        0 <= at,
        writable(es),
        at + payload_bytes(es).len() <= d.len(),
        d.subrange(at, at + payload_bytes(es).len()) == payload_bytes(es),
    ensures
        payload_len(rows_for(es)) == payload_bytes(es).len(),
        entries_at(d, at, rows_for(es)) == es,
    decreases es.len(),
{
    let rows = rows_for(es);
    if es.len() == 0 {
        assert(entries_at(d, at, rows) =~= es);
    } else {
        let e = es[0];
        let rest = es.drop_first();
        let pb = payload_bytes(es);
        assert(name_fits(e) && data_fits(e));
        assert(pb == e.data + payload_bytes(rest));
        assert(rows.drop_first() =~= rows_for(rest));
        assert(rows[0] == row_of(e));
        let size = e.data.len() as int;
        assert forall|k: int| 0 <= k < pb.len() implies d[at + k] == pb[k] by {
            assert(d.subrange(at, at + pb.len())[k] == d[at + k]);
        }
        assert(d.subrange(at, at + size) =~= e.data) by {
            assert forall|k: int| 0 <= k < size implies d[at + k] == e.data[k] by {
                assert(pb[k] == e.data[k]);
            }
        }
        assert(d.subrange(at + size, at + size + payload_bytes(rest).len()) =~= payload_bytes(
            rest,
        )) by {
            assert forall|k: int| 0 <= k < payload_bytes(rest).len() implies d[at + size + k]
                == payload_bytes(rest)[k] by {
                assert(pb[size + k] == payload_bytes(rest)[k]);
            }
        }
        assert(writable(rest)) by {
            assert forall|i: int| 0 <= i < rest.len() implies name_fits(#[trigger] rest[i])
                && data_fits(rest[i]) by {
                assert(rest[i] == es[i + 1]);
            }
        }
        lemma_payloads_read_back(d, at + size, rest);
        let first = EntryView { path: rows[0].name, filetime: rows[0].filetime, data: d.subrange(
            at,
            at + rows[0].size,
        ) };
        assert(first == e);
        assert(entries_at(d, at, rows) =~= seq![first] + entries_at(
            d,
            at + rows[0].size,
            rows.drop_first(),
        ));
        assert(seq![e] + rest =~= es);
    }
}

/// Where a table was read, it lies inside the stream, and no name in it is
/// longer than its length byte can say.
proof fn lemma_parsed_table_bounds(d: Seq<u8>, at: int)
    requires
        parse_table(d, at) is Some,
    ensures
        0 <= at < parse_table(d, at).unwrap().1 <= d.len(),
        forall|i: int|
            0 <= i < parse_table(d, at).unwrap().0.len() ==> (#[trigger] parse_table(
                d,
                at,
            ).unwrap().0[i]).name.len() <= 255,
    decreases d.len() - at,
{
    match step_at(d, at) {
        TableStep::Record { row, next } => {
            lemma_parsed_table_bounds(d, next);
            let rows = parse_table(d, next).unwrap().0;
            let all = parse_table(d, at).unwrap().0;
            assert(all == seq![row] + rows);
            assert forall|i: int| 0 <= i < all.len() implies (#[trigger] all[i]).name.len()
                <= 255 by {
                if i > 0 {
                    assert(all[i] == rows[i - 1]);
                }
            }
        },
        _ => {},
    }
}

/// The entries that rows and payloads give have those rows, and their
/// payloads are the stream behind the table.
proof fn lemma_entries_match_rows(d: Seq<u8>, at: int, rows: Seq<Row>)
    requires
        0 <= at,
        at + payload_len(rows) <= d.len(),
    ensures
        entries_at(d, at, rows).len() == rows.len(),
        rows_for(entries_at(d, at, rows)) == rows,
        payload_bytes(entries_at(d, at, rows)) == d.subrange(at, at + payload_len(rows)),
        forall|i: int|
            0 <= i < rows.len() ==> data_fits(#[trigger] entries_at(d, at, rows)[i]) && entries_at(
                d,
                at,
                rows,
            )[i].path == rows[i].name,
    decreases rows.len(),
{
    let es = entries_at(d, at, rows);
    if rows.len() == 0 {
        assert(rows_for(es) =~= rows);
        assert(payload_bytes(es) =~= d.subrange(at, at + payload_len(rows)));
    } else {
        let rest = rows.drop_first();
        let next = at + rows[0].size;
        lemma_entries_match_rows(d, next, rest);
        let tail = entries_at(d, next, rest);
        let first = EntryView { path: rows[0].name, filetime: rows[0].filetime, data: d.subrange(
            at,
            next,
        ) };
        assert(es == seq![first] + tail);
        assert(es.drop_first() =~= tail);
        assert(row_of(first) == rows[0]);
        assert(rows_for(es) =~= rows) by {
            assert forall|i: int| 0 <= i < rows.len() implies rows_for(es)[i] == rows[i] by {
                if i > 0 {
                    assert(es[i] == tail[i - 1]);
                    assert(rows_for(tail)[i - 1] == rest[i - 1]);
                }
            }
        }
        assert(payload_bytes(es) =~= d.subrange(at, at + payload_len(rows)));
        assert forall|i: int| 0 <= i < rows.len() implies data_fits(#[trigger] es[i])
            && es[i].path == rows[i].name by {
            if i > 0 {
                assert(es[i] == tail[i - 1]);
                assert(rows[i] == rest[i - 1]);
            }
        }
    }
}

/// A table with plain flag bytes is, byte for byte, what its rows are
/// written as.
proof fn lemma_plain_table_is_its_image(d: Seq<u8>, at: int, es: Seq<EntryView>)
    requires
        parse_table(d, at) is Some,
        parse_table(d, at).unwrap().0 == rows_for(es),
        plain_flags(d, at),
    ensures
        0 <= at < parse_table(d, at).unwrap().1 <= d.len(),
        d.subrange(at, parse_table(d, at).unwrap().1) == rows_bytes(es) + seq![FILEFLAGS_END],
    decreases d.len() - at,
{
    lemma_parsed_table_bounds(d, at);
    let end = parse_table(d, at).unwrap().1;
    match step_at(d, at) {
        TableStep::Record { row, next } => {
            let rows = parse_table(d, next).unwrap().0;
            let rest = es.drop_first();
            let n = row.name.len() as int;
            assert(rows_for(es) == seq![row] + rows);
            assert(rows_for(es)[0] == row);
            assert(rows_for(rest) =~= rows) by {
                assert forall|i: int| 0 <= i < rows.len() implies rows_for(rest)[i] == rows[i] by {
                    assert(rows_for(es)[i + 1] == rows[i]);
                }
            }
            lemma_plain_table_is_its_image(d, next, rest);
            lemma_row_bytes_shape(row);
            lemma_le_u32_round_trip(d.subrange(at + 2 + n, at + 6 + n));
            lemma_le_u64_round_trip(d.subrange(at + 6 + n, at + 14 + n));
            let rb = row_bytes(row);
            assert(d.subrange(at, next) =~= rb) by {
                assert forall|k: int| 0 <= k < 14 + n implies d[at + k] == rb[k] by {
                    if 2 <= k < 2 + n {
                        assert(rb.subrange(2, 2 + n)[k - 2] == rb[k]);
                        assert(d.subrange(at + 2, at + 2 + n)[k - 2] == d[at + k]);
                    } else if 2 + n <= k < 6 + n {
                        assert(rb.subrange(2 + n, 6 + n)[k - 2 - n] == rb[k]);
                        assert(d.subrange(at + 2 + n, at + 6 + n)[k - 2 - n] == d[at + k]);
                    } else if 6 + n <= k {
                        assert(rb.subrange(6 + n, 14 + n)[k - 6 - n] == rb[k]);
                        assert(d.subrange(at + 6 + n, at + 14 + n)[k - 6 - n] == d[at + k]);
                    }
                }
            }
            assert(rows_bytes(es) == rb + rows_bytes(rest));
            assert(d.subrange(at, end) =~= d.subrange(at, next) + d.subrange(next, end));
            assert(d.subrange(at, end) =~= rows_bytes(es) + seq![FILEFLAGS_END]);
        },
        TableStep::End => {
            assert(rows_for(es).len() == 0);
            assert(rows_bytes(es) =~= Seq::<u8>::empty());
            assert(d.subrange(at, end) =~= rows_bytes(es) + seq![FILEFLAGS_END]);
        },
        TableStep::Truncated => {},
    }
}

proof fn lemma_header_shape()
    ensures
        header_bytes().len() == 8,
        header_bytes().subrange(0, 4) == MAGIC@,
        header_bytes().subrange(4, 8) == VERSION@,
{
    assert(header_bytes().subrange(0, 4) =~= MAGIC@);
    assert(header_bytes().subrange(4, 8) =~= VERSION@);
}

/// Saving, then loading: an archive in which every entry fits the format is
/// stored as bytes that mean that archive again, entry for entry, and those
/// bytes are canonical.
pub proof fn lemma_save_then_load(es: Seq<EntryView>)
    requires
        writable(es),
    ensures
        parse(wire_image(es)) == Ok::<Seq<EntryView>, Failure>(es),
        canonical(wire_image(es)),
{
    let w = wire_image(es);
    let d = image(es);
    lemma_transform_seq_involution(d);
    assert(transformed_seq(w) == d);
    lemma_header_shape();
    let tl = rows_bytes(es).len() as int;
    let pl = payload_bytes(es).len() as int;
    assert(d.len() == 8 + tl + 1 + pl);
    assert(d.subrange(0, 4) =~= MAGIC@);
    assert(d.subrange(4, 8) =~= VERSION@);
    assert(d.subrange(8, 8 + tl) =~= rows_bytes(es));
    assert(d[8 + tl] == FILEFLAGS_END);
    lemma_table_reads_back(d, 8, es);
    let end = 8 + tl + 1;
    assert(d.subrange(end, end + pl) =~= payload_bytes(es));
    lemma_payloads_read_back(d, end, es);
}

/// Loading, then saving: what was loaded from the bytes `w` fits the format,
/// and it is stored as `w` again, byte for byte, exactly where `w` is
/// canonical. Otherwise what is stored is `w` made canonical: flag bytes
/// with bits besides the end bit are stored plain, and bytes behind the last
/// payload are left out.
pub proof fn lemma_load_then_save(w: Seq<u8>)
    requires
        parse(w) is Ok,
    ensures
        parse(w) matches Ok(es) ==> {
            &&& writable(es)
            &&& wire_image(es) == w <==> canonical(w)
            &&& canonical(wire_image(es))
            &&& parse(wire_image(es)) == parse(w)
        },
{
    let d = transformed_seq(w);
    let es = parse(w)->Ok_0;
    let (rows, end) = parse_table(d, 8).unwrap();
    lemma_parsed_table_bounds(d, 8);
    lemma_entries_match_rows(d, end, rows);
    assert(writable(es)) by {
        assert forall|i: int| 0 <= i < es.len() implies name_fits(#[trigger] es[i]) && data_fits(
            es[i],
        ) by {
            assert(rows[i].name.len() <= 255);
        }
    }
    lemma_save_then_load(es);
    lemma_transform_seq_involution(w);
    lemma_transform_seq_involution(image(es));
    lemma_header_shape();
    if canonical(w) {
        lemma_plain_table_is_its_image(d, 8, es);
        assert(image(es) =~= d) by {
            assert(d =~= d.subrange(0, 4) + d.subrange(4, 8) + d.subrange(8, end) + d.subrange(
                end,
                d.len() as int,
            ));
        }
    }
    if wire_image(es) == w {
        assert(d == image(es));
        let tl = rows_bytes(es).len() as int;
        assert(d.subrange(8, 8 + tl) =~= rows_bytes(es));
        lemma_table_reads_back(d, 8, es);
        assert(d.subrange(8 + tl + 1, 8 + tl + 1 + payload_bytes(es).len()) =~= payload_bytes(es));
        lemma_payloads_read_back(d, 8 + tl + 1, es);
    }
}

/// A stream whose first four decoded bytes are not the magic number is
/// refused with those bytes, whatever follows them.
pub proof fn lemma_wrong_magic_is_rejected(w: Seq<u8>)
    requires
        w.len() >= 4,
        transformed_seq(w).subrange(0, 4) != MAGIC@,
    ensures
        parse(w) == Err::<Seq<EntryView>, Failure>(
            Failure::InvalidMagic(transformed_seq(w).subrange(0, 4)),
        ),
{
}

/// A stream with the magic number whose next four decoded bytes are not the
/// version is refused with those bytes, whatever follows them.
pub proof fn lemma_wrong_version_is_rejected(w: Seq<u8>)
    requires
        w.len() >= 8,
        transformed_seq(w).subrange(0, 4) == MAGIC@,
        transformed_seq(w).subrange(4, 8) != VERSION@,
    ensures
        parse(w) == Err::<Seq<EntryView>, Failure>(
            Failure::InvalidVersion(transformed_seq(w).subrange(4, 8)),
        ),
{
}

/// A flag byte with the end bit closes the table where it stands: a table
/// that starts with one has no rows.
pub proof fn lemma_end_flag_closes_table(d: Seq<u8>, at: int)
    requires
        0 <= at < d.len(),
        ends_table(d[at]),
    ensures
        parse_table(d, at) == Some((Seq::<Row>::empty(), at + 1)),
{
}

/// A valid header followed by a flag byte with the end bit is an archive
/// without entries.
pub proof fn lemma_empty_table_is_empty_archive(w: Seq<u8>)
    requires
        w.len() >= 9,
        transformed_seq(w).subrange(0, 4) == MAGIC@,
        transformed_seq(w).subrange(4, 8) == VERSION@,
        ends_table(transformed_seq(w)[8]),
    ensures
        parse(w) == Ok::<Seq<EntryView>, Failure>(Seq::empty()),
{
    let d = transformed_seq(w);
    lemma_end_flag_closes_table(d, 8);
    assert(payload_len(Seq::<Row>::empty()) == 0);
    assert(entries_at(d, 9, Seq::<Row>::empty()) =~= Seq::<EntryView>::empty());
}

/// A save succeeds exactly where every entry fits the format.
pub proof fn lemma_save_succeeds_iff_writable(es: Seq<EntryView>)
    ensures
        write_failure(es) is None <==> writable(es),
    decreases es.len(),
{
    if es.len() > 0 && name_fits(es[0]) && data_fits(es[0]) {
        let rest = es.drop_first();
        lemma_save_succeeds_iff_writable(rest);
        if writable(rest) {
            assert forall|i: int| 0 <= i < es.len() implies name_fits(#[trigger] es[i])
                && data_fits(es[i]) by {
                if i > 0 {
                    assert(es[i] == rest[i - 1]);
                }
            }
        }
        if writable(es) {
            assert forall|i: int| 0 <= i < rest.len() implies name_fits(#[trigger] rest[i])
                && data_fits(rest[i]) by {
                assert(rest[i] == es[i + 1]);
            }
        }
        lemma_writable_prefix_bounded(rest);
    } else if es.len() > 0 {
        assert(!(name_fits(es[0]) && data_fits(es[0])));
    }
}

proof fn lemma_writable_prefix_bounded(es: Seq<EntryView>)
    ensures
        writable_prefix(es) <= es.len(),
    decreases es.len(),
{
    if es.len() > 0 && name_fits(es[0]) && data_fits(es[0]) {
        lemma_writable_prefix_bounded(es.drop_first());
    }
}

/// Where the first entry that does not fit has a name of more than 255
/// bytes, the save fails with the length of that name, and has emitted the
/// header and the records before that entry: no byte of its own record.
pub proof fn lemma_long_name_stops_the_save(es: Seq<EntryView>, k: int)
    requires
        0 <= k < es.len(),
        forall|j: int| 0 <= j < k ==> name_fits(#[trigger] es[j]) && data_fits(es[j]),
        !name_fits(es[k]),
    ensures
        write_failure(es) == Some(Failure::InvalidNameLength(es[k].path.len())),
        image_before_failure(es) == header_bytes() + rows_bytes(es.take(k)),
{
    lemma_writable_prefix_is(es, k);
    assert(image_before_failure(es) =~= header_bytes() + rows_bytes(es.take(k)));
}

/// Where the first entry that does not fit has a payload of more than
/// 2^32 - 1 bytes, the save fails with the length of that payload, and has
/// emitted the header, the records before that entry, and of its record the
/// flag and the name: the size field is not written.
pub proof fn lemma_long_payload_stops_the_save(es: Seq<EntryView>, k: int)
    requires
        0 <= k < es.len(),
        forall|j: int| 0 <= j < k ==> name_fits(#[trigger] es[j]) && data_fits(es[j]),
        name_fits(es[k]),
        !data_fits(es[k]),
    ensures
        write_failure(es) == Some(Failure::InvalidDataLength(es[k].data.len())),
        image_before_failure(es) == header_bytes() + rows_bytes(es.take(k)) + record_lead(es[k]),
{
    lemma_writable_prefix_is(es, k);
}

} // verus!
