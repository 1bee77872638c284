//! Records as a reader hands them out: each record with where it came from in the file,
//! and the bookkeeping that numbers records and filters them by type.

use vstd::prelude::*;
use rust_stdf::{RawDataElement, StdfRecord};
use crate::filter::RecordFilter;
use crate::record_types::{record_name, record_type_name};

verus! {

/// `rust_stdf::RawDataElement`: one record as read from the file, header and unparsed bytes.
#[verifier::external_type_specification]
#[verifier::external_body]
pub struct ExRawDataElement(RawDataElement);

/// One record and where it came from.
#[derive(Debug)]
pub struct Record {
    /// Zero-based position of the record in the file (unaffected by filtering).
    pub sequence_number: u64,
    /// Zero-based offset of the record header in the decompressed stream.
    pub byte_offset: u64,
    /// The header's record type code, kept for reserved and invalid records.
    pub rec_typ: u8,
    /// The header's record subtype code.
    pub rec_sub: u8,
    /// `"PTR"`, `"PIR"`, ..., `"RESERVED"` or `"INVALID"`.
    pub record_type: &'static str,
    /// The parsed fields.
    pub data: StdfRecord,
}

/// The size of a record header: two bytes of length, the type and the subtype.
pub const HEADER_LEN: u64 = 4;

/// The largest byte offset a record can start at and still have the offset after it fit
/// in a `u64`: a record is at most `u16::MAX` bytes of payload after its header.
pub const MAX_RECORD_START: u64 = 0xffff_ffff_ffff_ffff - 0xffff - 4;

/// Numbers the records of a file as they are read, and keeps those whose type the filter
/// selects.
pub struct RecordCursor {
    /// The record types to keep; `None` keeps every record.
    pub filter: Option<RecordFilter>,
    /// The sequence number of the next record read.
    pub next_sequence_number: u64,
    /// The byte offset of the next record read.
    pub next_byte_offset: u64,
}

/// Whether `filter` keeps records of the type `name`.
pub open spec fn filter_keeps(filter: Option<RecordFilter>, name: Seq<char>) -> bool {
    match filter {
        None => true,
        Some(f) => f@.contains(name),
    }
}

/// The cursor after one more record with `len` bytes of payload has been read: the next
/// record is one further on, and starts after this one's header and payload.
pub open spec fn step_cursor(c: RecordCursor, len: u16) -> RecordCursor {
    RecordCursor {
        filter: c.filter,
        next_sequence_number: (c.next_sequence_number + 1) as u64,
        next_byte_offset: (c.next_byte_offset + HEADER_LEN + len) as u64,
    }
}

/// Whether one more record of `len` bytes can be counted without overflow.
pub open spec fn can_step(c: RecordCursor, len: u16) -> bool {
    &&& c.next_sequence_number < u64::MAX
    &&& c.next_byte_offset + HEADER_LEN + len <= u64::MAX
}

/// The record that rust_stdf parses from a raw record: what
/// `StdfRecord::from(&RawDataElement)` returns for it.
pub uninterp spec fn parsed_record(raw: RawDataElement) -> StdfRecord;

/// The header of a raw record: its payload length, type and subtype.
pub uninterp spec fn record_header(raw: RawDataElement) -> (u16, u8, u8);

/// `StdfRecord::from(&RawDataElement)`: the record's fields parsed from its bytes, which
/// depend on the raw record alone (its header, bytes and byte order). The fields cannot
/// be written here, so the parsed record is named.
#[verifier::external_body]
fn parse_record(raw: &RawDataElement) -> (record: StdfRecord)
    ensures
        record == parsed_record(*raw),
{
    StdfRecord::from(raw)
}

/// The header of a raw record: its payload length, type and subtype, read from the
/// `header` field of `RawDataElement`. The fields of the opaque raw record cannot be
/// written here, so the header is named.
#[verifier::external_body]
fn raw_header(raw: &RawDataElement) -> (header: (u16, u8, u8))
    ensures
        header == record_header(*raw),
{
    (raw.header.len, raw.header.typ, raw.header.sub)
}

/// What a reader hands out for a record: its sequence number, byte offset, header type
/// and subtype, and parsed fields.
pub type Entry = (u64, u64, u8, u8, StdfRecord);

/// What the cursor `c` hands out for the raw record `raw`: the record at the cursor's
/// position, if the filter keeps its type.
pub open spec fn accepted(c: RecordCursor, raw: RawDataElement) -> Option<Entry> {
    let data = parsed_record(raw);
    if filter_keeps(c.filter, record_name(data)) {
        Some((c.next_sequence_number, c.next_byte_offset, record_header(raw).1, record_header(raw).2, data))
    } else {
        None
    }
}

/// The entry of a record handed out by a reader.
pub open spec fn entry_of(r: Record) -> Entry {
    (r.sequence_number, r.byte_offset, r.rec_typ, r.rec_sub, r.data)
}

/// The cursor after records with the payload lengths `lens` have been counted from `c`.
pub open spec fn cursor_after(c: RecordCursor, lens: Seq<u16>) -> RecordCursor
    decreases lens.len(),
{
    if lens.len() == 0 {
        c
    } else {
        step_cursor(cursor_after(c, lens.drop_last()), lens.last())
    }
}

/// The number of bytes that records with the payload lengths `lens` take in the file,
/// each with its header.
pub open spec fn records_size(lens: Seq<u16>) -> int
    decreases lens.len(),
{
    if lens.len() == 0 {
        0
    } else {
        records_size(lens.drop_last()) + HEADER_LEN + lens.last()
    }
}

proof fn lemma_records_size_grows(lens: Seq<u16>)
    ensures
        records_size(lens) >= 0,
        lens.len() > 0 ==> records_size(lens.drop_last()) <= records_size(lens),
    decreases lens.len(),
{
    if lens.len() > 0 {
        lemma_records_size_grows(lens.drop_last());
    }
}

/// Counting the records of a file from its start, whatever the filter: after `k` records
/// the next one has the sequence number `k` and the byte offset of the bytes the `k`
/// records before it take. So a record's sequence number is its position in the file and
/// its byte offset that of its header, and neither depends on which records the filter
/// keeps.
pub proof fn law_positions(filter: Option<RecordFilter>, lens: Seq<u16>)
    requires
        lens.len() < u64::MAX,
        records_size(lens) <= u64::MAX,
    ensures
        cursor_after(RecordCursor { filter, next_sequence_number: 0, next_byte_offset: 0 }, lens)
            == (RecordCursor {
            filter,
            next_sequence_number: lens.len() as u64,
            next_byte_offset: records_size(lens) as u64,
        }),
    decreases lens.len(),
{
    let c0 = RecordCursor { filter, next_sequence_number: 0, next_byte_offset: 0 };
    if lens.len() > 0 {
        lemma_records_size_grows(lens);
        lemma_records_size_grows(lens.drop_last());
        law_positions(filter, lens.drop_last());
        let prev = cursor_after(c0, lens.drop_last());
        assert(prev.next_sequence_number == lens.len() - 1);
        assert(prev.next_byte_offset == records_size(lens.drop_last()));
        assert(cursor_after(c0, lens) == step_cursor(prev, lens.last()));
    }
}

/// The payload lengths of the raw records `raws`.
pub open spec fn payload_lens(raws: Seq<RawDataElement>) -> Seq<u16> {
    raws.map_values(|r: RawDataElement| record_header(r).0)
}

/// The cursor after the raw records `raws` have been taken from `c`.
pub open spec fn cursor_after_raws(c: RecordCursor, raws: Seq<RawDataElement>) -> RecordCursor
    decreases raws.len(),
{
    if raws.len() == 0 {
        c
    } else {
        step_cursor(cursor_after_raws(c, raws.drop_last()), record_header(raws.last()).0)
    }
}

/// What a reader whose cursor starts as `c` hands out, in order, for the raw records `raws`.
pub open spec fn read_entries(c: RecordCursor, raws: Seq<RawDataElement>) -> Seq<Entry>
    decreases raws.len(),
{
    if raws.len() == 0 {
        seq![]
    } else {
        let prev = read_entries(c, raws.drop_last());
        match accepted(cursor_after_raws(c, raws.drop_last()), raws.last()) {
            Some(e) => prev.push(e),
            None => prev,
        }
    }
}

/// The entries of `es` whose record type the filter `f` keeps, in order.
pub open spec fn kept_entries(es: Seq<Entry>, f: RecordFilter) -> Seq<Entry>
    decreases es.len(),
{
    if es.len() == 0 {
        seq![]
    } else if f@.contains(record_name(es.last().4)) {
        kept_entries(es.drop_last(), f).push(es.last())
    } else {
        kept_entries(es.drop_last(), f)
    }
}

/// A cursor at the start of a file with the filter `filter`.
pub open spec fn start_cursor(filter: Option<RecordFilter>) -> RecordCursor {
    RecordCursor { filter, next_sequence_number: 0, next_byte_offset: 0 }
}

proof fn lemma_cursor_after_raws(c: RecordCursor, raws: Seq<RawDataElement>)
    ensures
        cursor_after_raws(c, raws) == cursor_after(c, payload_lens(raws)),
    decreases raws.len(),
{
    if raws.len() > 0 {
        lemma_cursor_after_raws(c, raws.drop_last());
        assert(payload_lens(raws).drop_last() =~= payload_lens(raws.drop_last()));
    }
}

proof fn lemma_counters_ignore_filter(f: Option<RecordFilter>, raws: Seq<RawDataElement>)
    ensures
        ({
            let a = cursor_after_raws(start_cursor(f), raws);
            let b = cursor_after_raws(start_cursor(None), raws);
            a.filter == f && a.next_sequence_number == b.next_sequence_number
                && a.next_byte_offset == b.next_byte_offset
        }),
    decreases raws.len(),
{
    if raws.len() > 0 {
        lemma_counters_ignore_filter(f, raws.drop_last());
    }
}

proof fn lemma_records_size_prefix(lens: Seq<u16>, k: int)
    requires
        0 <= k <= lens.len(),
    ensures
        0 <= records_size(lens.take(k)) <= records_size(lens),
    decreases lens.len(),
{
    lemma_records_size_grows(lens);
    if k < lens.len() {
        lemma_records_size_prefix(lens.drop_last(), k);
        assert(lens.drop_last().take(k) =~= lens.take(k));
    } else {
        assert(lens.take(k) =~= lens);
    }
}

proof fn lemma_unfiltered_entries(raws: Seq<RawDataElement>)
    ensures
        read_entries(start_cursor(None), raws).len() == raws.len(),
        forall|k: int| 0 <= k < raws.len() ==> Some(#[trigger] read_entries(start_cursor(None), raws)[k])
            == accepted(cursor_after_raws(start_cursor(None), raws.take(k)), raws[k]),
    decreases raws.len(),
{
    if raws.len() > 0 {
        let prev = raws.drop_last();
        lemma_unfiltered_entries(prev);
        lemma_counters_ignore_filter(None, prev);
        assert(accepted(cursor_after_raws(start_cursor(None), prev), raws.last()) is Some);
        assert(read_entries(start_cursor(None), raws) == read_entries(start_cursor(None), prev).push(
            accepted(cursor_after_raws(start_cursor(None), prev), raws.last())->0,
        ));
        assert forall|k: int| 0 <= k < raws.len() implies Some(#[trigger] read_entries(start_cursor(None), raws)[k])
            == accepted(cursor_after_raws(start_cursor(None), raws.take(k)), raws[k]) by {
            if k < prev.len() {
                assert(prev.take(k) =~= raws.take(k));
                assert(read_entries(start_cursor(None), raws)[k] == read_entries(start_cursor(None), prev)[k]);
            } else {
                assert(prev =~= raws.take(k));
            }
        }
    }
}

/// A reader without a filter hands out every record of the file, in order: the `k`-th
/// with the sequence number `k`, the byte offset of the bytes the records before it take,
/// the type and subtype of its header, and the fields parsed from it.
pub proof fn law_reader_records(raws: Seq<RawDataElement>)
    requires
        raws.len() < u64::MAX,
        records_size(payload_lens(raws)) <= u64::MAX,
    ensures
        read_entries(start_cursor(None), raws).len() == raws.len(),
        forall|k: int| 0 <= k < raws.len() ==> #[trigger] read_entries(start_cursor(None), raws)[k] == (
            k as u64,
            records_size(payload_lens(raws).take(k)) as u64,
            record_header(raws[k]).1,
            record_header(raws[k]).2,
            parsed_record(raws[k]),
        ),
{
    lemma_unfiltered_entries(raws);
    assert forall|k: int| 0 <= k < raws.len() implies #[trigger] read_entries(start_cursor(None), raws)[k] == (
        k as u64,
        records_size(payload_lens(raws).take(k)) as u64,
        record_header(raws[k]).1,
        record_header(raws[k]).2,
        parsed_record(raws[k]),
    ) by {
        let prefix = raws.take(k);
        assert(payload_lens(prefix) =~= payload_lens(raws).take(k));
        lemma_records_size_prefix(payload_lens(raws), k);
        lemma_cursor_after_raws(start_cursor(None), prefix);
        law_positions(None, payload_lens(prefix));
    }
}

/// Filtering only drops records: a reader with a filter hands out exactly the records
/// that one without a filter hands out whose type the filter keeps, in the same order and
/// with the same sequence numbers, byte offsets, header codes and fields.
pub proof fn law_filter_only_drops(f: RecordFilter, raws: Seq<RawDataElement>)
    ensures
        read_entries(start_cursor(Some(f)), raws) == kept_entries(read_entries(start_cursor(None), raws), f),
    decreases raws.len(),
{
    if raws.len() > 0 {
        let prev = raws.drop_last();
        law_filter_only_drops(f, prev);
        lemma_counters_ignore_filter(Some(f), prev);
        lemma_counters_ignore_filter(None, prev);
        let all = read_entries(start_cursor(None), raws);
        let all_prev = read_entries(start_cursor(None), prev);
        assert(all == all_prev.push(accepted(cursor_after_raws(start_cursor(None), prev), raws.last())->0));
        assert(all.drop_last() =~= all_prev);
    }
}

impl RecordCursor {
    /// A cursor at the start of a file.
    pub fn new(filter: Option<RecordFilter>) -> (c: RecordCursor)
        ensures
            c.filter == filter,
            c.next_sequence_number == 0,
            c.next_byte_offset == 0,
    {
        RecordCursor { filter, next_sequence_number: 0, next_byte_offset: 0 }
    }

    /// Count one record with `len` bytes of payload and of type `record_type`; return its
    /// sequence number and byte offset if the filter keeps it.
    pub fn advance(&mut self, len: u16, record_type: &str) -> (pos: Option<(u64, u64)>)
        requires
            can_step(*old(self), len),
        ensures
            *final(self) == step_cursor(*old(self), len),
            pos == (if filter_keeps(old(self).filter, record_type@) {
                Some((old(self).next_sequence_number, old(self).next_byte_offset))
            } else {
                None::<(u64, u64)>
            }),
    {
        let sequence_number = self.next_sequence_number;
        let byte_offset = self.next_byte_offset;
        self.next_sequence_number = sequence_number + 1;
        self.next_byte_offset = byte_offset + HEADER_LEN + len as u64;
        let keep = match &self.filter {
            None => true,
            Some(f) => f.keeps(record_type),
        };
        if keep {
            Some((sequence_number, byte_offset))
        } else {
            None
        }
    }

    /// Take one raw record read from the file: parse it, count it, and return it with its
    /// position unless the filter drops it.
    pub fn accept(&mut self, raw: &RawDataElement) -> (record: Option<Record>)
        requires
            old(self).next_sequence_number < u64::MAX,
            old(self).next_byte_offset <= MAX_RECORD_START,
        ensures
            *final(self) == step_cursor(*old(self), record_header(*raw).0),
            record is Some <==> accepted(*old(self), *raw) is Some,
            record matches Some(r) ==> {
                &&& Some(entry_of(r)) == accepted(*old(self), *raw)
                &&& r.record_type@ == record_name(r.data)
            },
    {
        let (len, typ, sub) = raw_header(raw);
        let data = parse_record(raw);
        let record_type = record_type_name(&data);
        match self.advance(len, record_type) {
            Some((sequence_number, byte_offset)) => Some(
                Record { sequence_number, byte_offset, rec_typ: typ, rec_sub: sub, record_type, data },
            ),
            None => None,
        }
    }
}

} // verus!
