use stdf_convert::json::{is_byte_field, not_a_key, not_bytes, Bytes, Compound, Json, Key};
use stdf_convert::RecordCursor;

fn text(json: &Json) -> String {
    String::from_utf8(json.out.clone()).unwrap()
}

#[test]
fn strings_are_escaped() {
    let mut json = Json { out: Vec::new() };
    json.string("Vdd \"core\"\n");
    assert_eq!(text(&json), r#""Vdd \"core\"\n""#);
    let mut json = Json { out: Vec::new() };
    json.string("a\\b\r\t\u{1f}\u{1}é€");
    assert_eq!(text(&json), "\"a\\\\b\\r\\t\\u001f\\u0001é€\"");
    let mut json = Json { out: Vec::new() };
    json.string("");
    assert_eq!(text(&json), "\"\"");
}

#[test]
fn bytes_are_lowercase_hex() {
    let mut json = Json { out: Vec::new() };
    json.hex(&[0x00, 0x80, 0xff]);
    assert_eq!(text(&json), "\"0080ff\"");
    let mut json = Json { out: Vec::new() };
    json.hex(&[]);
    assert_eq!(text(&json), "\"\"");
}

#[test]
fn non_finite_floats_are_strings() {
    let mut json = Json { out: Vec::new() };
    json.non_finite(true, false);
    json.non_finite(false, true);
    json.non_finite(false, false);
    json.non_finite(true, true);
    assert_eq!(text(&json), "\"NaN\"\"Infinity\"\"-Infinity\"\"NaN\"");
}

#[test]
fn integers_booleans_and_null() {
    let mut json = Json { out: Vec::new() };
    json.u64_value(0);
    json.push_bytes(b" ");
    json.u64_value(u64::MAX);
    json.push_bytes(b" ");
    json.i64_value(i64::MIN);
    json.push_bytes(b" ");
    json.i64_value(-42);
    json.push_bytes(b" ");
    json.i64_value(1001);
    json.push_bytes(b" ");
    json.bool_value(true);
    json.bool_value(false);
    json.null();
    assert_eq!(text(&json), "0 18446744073709551615 -9223372036854775808 -42 1001 truefalsenull");
}

#[test]
fn arrays_objects_and_variants() {
    let mut json = Json { out: Vec::new() };
    let mut obj = json.begin_map();
    obj.field_name(&mut json, "TEST_NUM");
    json.u64_value(7);
    obj.field_name(&mut json, "TEST_FLG");
    json.hex(&[0x81]);
    let mut key = Key::new();
    key.set_u64(12);
    obj.map_key(&mut json, &key);
    let mut seq = json.begin_seq();
    seq.comma(&mut json);
    json.u64_value(1);
    seq.comma(&mut json);
    json.u64_value(2);
    seq.end(&mut json);
    obj.field_name(&mut json, "GEN_DATA");
    let mut list = json.begin_seq();
    list.comma(&mut json);
    json.begin_newtype_variant("Bn");
    json.hex(&[0, 0x80, 0xff]);
    json.push_bytes(b"}");
    list.comma(&mut json);
    let tv = json.begin_tuple_variant("T");
    tv.end(&mut json);
    list.comma(&mut json);
    let sv = json.begin_struct_variant("S");
    sv.end(&mut json);
    list.end(&mut json);
    obj.end(&mut json);
    assert_eq!(
        text(&json),
        r#"{"TEST_NUM":7,"TEST_FLG":"81","12":[1,2],"GEN_DATA":[{"Bn":"0080ff"},{"T":[]},{"S":{}}]}"#
    );
}

#[test]
fn keys_are_strings() {
    let mut key = Key::new();
    key.set_str("a\"b");
    assert_eq!(key.text, b"a\"b".to_vec());
    key.set_bool(false);
    assert_eq!(key.text, b"false".to_vec());
    key.set_i64(-7);
    assert_eq!(key.text, b"-7".to_vec());
    let mut json = Json { out: Vec::new() };
    let mut c: Compound = json.begin_map();
    key.set_str("k\n");
    c.map_key(&mut json, &key);
    assert_eq!(text(&json), "{\"k\\n\":");
    assert_eq!(not_a_key().0, "map key must be a string");
    assert_eq!(not_bytes().0, "not bytes");
}

#[test]
fn byte_fields_are_hex_or_null() {
    assert!(is_byte_field("TEST_FLG"));
    assert!(is_byte_field("RAW_DATA"));
    assert!(is_byte_field("Dn"));
    assert!(!is_byte_field("TEST_NUM"));
    assert!(!is_byte_field("test_flg"));
    let mut bytes = Bytes::new();
    bytes.push_u8(0xa5);
    bytes.extend(&[0x01, 0x02]);
    let mut json = Json { out: Vec::new() };
    json.collected_bytes(&bytes);
    assert_eq!(text(&json), "\"a50102\"");
    bytes.set_none();
    let mut json = Json { out: Vec::new() };
    json.collected_bytes(&bytes);
    assert_eq!(text(&json), "null");
}

#[test]
fn record_head_matches_the_line_format() {
    let mut cursor = RecordCursor::new(None);
    let record = cursor
        .accept(&rust_stdf::RawDataElement {
            offset: 0,
            header: rust_stdf::RecordHeader { len: 2, typ: 0, sub: 10 },
            raw_data: vec![2, 4],
            byte_order: rust_stdf::ByteOrder::LittleEndian,
        })
        .unwrap();
    let mut json = Json { out: Vec::new() };
    json.record_head(&record);
    assert_eq!(
        text(&json),
        r#"{"sequence_number":0,"byte_offset":0,"rec_typ":0,"rec_sub":10,"record_type":"FAR","data":"#
    );
}
