use rust_stdf::stdf_record_type::{REC_FAR, REC_INVALID, REC_PIR, REC_PTR, REC_RESERVE};
use rust_stdf::{ByteOrder, RawDataElement, RecordHeader, ReservedRec, StdfRecord};
use stdf_convert::filter::lookup_record_type;
use stdf_convert::record_types::record_type_name_of_code;
use stdf_convert::{record_filter, record_type_name, record_types, Error, RecordCursor};

fn raw(len: u16, typ: u8, sub: u8, data: &[u8]) -> RawDataElement {
    RawDataElement {
        offset: 0,
        header: RecordHeader { len, typ, sub },
        raw_data: data.to_vec(),
        byte_order: ByteOrder::LittleEndian,
    }
}

#[test]
fn filter_is_case_insensitive_and_keeps_positions() {
    // FAR (CPU_TYPE=2, STDF_VER=4) followed by PIR (head=1, site=2), as in a small file.
    let mut cursor = RecordCursor::new(Some(record_filter(&["pir"]).unwrap()));
    assert!(cursor.accept(&raw(2, 0, 10, &[2, 4])).is_none());
    let pir = cursor.accept(&raw(2, 5, 10, &[1, 2])).unwrap();
    assert_eq!((pir.sequence_number, pir.byte_offset), (1, 6));
    assert_eq!(pir.record_type, "PIR");
    assert!(matches!(record_filter(&["nope"]), Err(Error::UnknownRecordType(t)) if t == "NOPE"));
}

#[test]
fn every_record_is_numbered_without_a_filter() {
    let mut cursor = RecordCursor::new(None);
    let far = cursor.accept(&raw(2, 0, 10, &[2, 4])).unwrap();
    let pir = cursor.accept(&raw(2, 5, 10, &[1, 2])).unwrap();
    assert_eq!((far.sequence_number, far.byte_offset, far.rec_typ, far.rec_sub), (0, 0, 0, 10));
    assert_eq!(far.record_type, "FAR");
    assert_eq!((pir.sequence_number, pir.byte_offset, pir.rec_typ, pir.rec_sub), (1, 6, 5, 10));
    assert_eq!((cursor.next_sequence_number, cursor.next_byte_offset), (2, 12));
}

#[test]
fn reserved_and_invalid_records_are_named() {
    let mut cursor = RecordCursor::new(Some(record_filter(&["Reserved", "INVALID"]).ok().unwrap()));
    let reserved = cursor.accept(&raw(3, 180, 7, &[0x00, 0x80, 0xff])).unwrap();
    let invalid = cursor.accept(&raw(0, 99, 99, &[])).unwrap();
    assert_eq!((reserved.record_type, reserved.rec_typ, reserved.rec_sub), ("RESERVED", 180, 7));
    assert_eq!((invalid.record_type, invalid.byte_offset), ("INVALID", 7));
}

#[test]
fn positions_do_not_depend_on_the_filter() {
    let records = [raw(2, 0, 10, &[2, 4]), raw(2, 5, 10, &[1, 2]), raw(3, 180, 1, &[1, 2, 3]), raw(2, 5, 10, &[1, 3])];
    let mut all = RecordCursor::new(None);
    let mut some = RecordCursor::new(Some(record_filter(&["PIR"]).ok().unwrap()));
    for r in &records {
        let a = all.accept(r).unwrap();
        if let Some(b) = some.accept(r) {
            assert_eq!((a.sequence_number, a.byte_offset), (b.sequence_number, b.byte_offset));
        }
    }
    assert_eq!((all.next_sequence_number, all.next_byte_offset), (4, 25));
    assert_eq!((some.next_sequence_number, some.next_byte_offset), (4, 25));
}

#[test]
fn advance_counts_and_filters() {
    let mut cursor = RecordCursor::new(Some(record_filter(&["ptr", "Mpr"]).ok().unwrap()));
    assert_eq!(cursor.advance(10, "PTR"), Some((0, 0)));
    assert_eq!(cursor.advance(0, "PIR"), None);
    assert_eq!(cursor.advance(5, "MPR"), Some((2, 18)));
    assert_eq!((cursor.next_sequence_number, cursor.next_byte_offset), (3, 27));
}

#[test]
fn filter_errors_name_the_first_unknown_type() {
    assert!(matches!(record_filter(&["ptr", "xyz", "abc"]), Err(Error::UnknownRecordType(t)) if t == "XYZ"));
    assert!(matches!(record_filter(&["pTr", "Ptr"]), Ok(_)));
    let empty = record_filter(&[]).ok().unwrap();
    assert!(!empty.keeps("PTR"));
    let f = record_filter(&["ptr"]).ok().unwrap();
    assert!(f.keeps("PTR"));
    assert!(!f.keeps("ptr"));
    assert!(!f.keeps("PIR"));
}

#[test]
fn record_type_names_of_records() {
    assert_eq!(record_type_name(&StdfRecord::new(REC_PTR)), "PTR");
    assert_eq!(record_type_name(&StdfRecord::new(REC_FAR)), "FAR");
    assert_eq!(record_type_name(&StdfRecord::ReservedRec(ReservedRec::new())), "RESERVED");
    assert_eq!(record_type_name(&StdfRecord::InvalidRec(RecordHeader::new())), "INVALID");
    assert_eq!(record_type_name_of_code(REC_PIR), "PIR");
    assert_eq!(record_type_name_of_code(REC_RESERVE), "RESERVED");
    assert_eq!(record_type_name_of_code(REC_INVALID), "INVALID");
}

#[test]
fn record_type_table() {
    let names = record_types();
    assert_eq!(names.len(), 34);
    assert_eq!(names[0], "FAR");
    assert_eq!(names[24], "PTR");
    assert_eq!(names[32], "RESERVED");
    assert_eq!(names[33], "INVALID");
    for (i, name) in names.iter().enumerate() {
        if i < 32 {
            assert_eq!(record_type_name_of_code(1u64 << i), *name);
        }
        assert_eq!(lookup_record_type(name), Some(*name));
    }
    assert_eq!(lookup_record_type("ptr"), None);
}
