//! JSON Lines output: one JSON object per record.
//!
//! Fields are in STDF specification order. Byte and bit fields (flags, `PART_FIX`, pin
//! maps, `RAW_DATA`, ...) are lowercase hex strings. NaN and infinities, which JSON cannot
//! represent as numbers, are the strings `"NaN"`, `"Infinity"` and `"-Infinity"`. Absent
//! optional fields are `null`.
//!
//! [`Json`] writes the JSON text of every value that a serializer is handed, and
//! [`Compound`] the punctuation of arrays and objects; the walk over a record's fields
//! is the serializer's.

use vstd::prelude::*;
use vstd::string::StringSliceAdditionalSpecFns;
use vstd::utf8::*;
use crate::records::Record;
use crate::strings::str_eq;
use crate::text::{decimal, decimal_value, is_digits, law_signed_decimal_reads_back, escape_byte, escaped, hex_digit, hex_text, json_bool, json_hex, json_non_finite, json_null, json_string, signed_decimal};

verus! {

/// The fields that hold bytes or packed bits rather than numbers, written as hex.
/// `Bn` and `Dn` are the byte and bit values inside `GDR.GEN_DATA`.
pub open spec fn byte_field_names() -> Seq<Seq<char>> {
    seq![
        "RAW_DATA"@, "PART_FIX"@, "CONT_FLG"@, "OPT_FLG"@, "PART_FLG"@, "OPT_FLAG"@,
        "TEST_FLG"@, "PARM_FLG"@, "FAIL_PIN"@, "SPIN_MAP"@, "FMU_FLG"@, "MASK_MAP"@,
        "FAL_MAP"@, "Bn"@, "Dn"@,
    ]
}

/// How many byte fields there are.
pub const BYTE_FIELD_COUNT: usize = 15;

/// The byte field name at index `i` of [`byte_field_names`].
pub fn byte_field_at(i: usize) -> (name: &'static str)
    requires
        i < BYTE_FIELD_COUNT,
    ensures
        name@ == byte_field_names()[i as int],
{
    match i {
        0 => "RAW_DATA",
        1 => "PART_FIX",
        2 => "CONT_FLG",
        3 => "OPT_FLG",
        4 => "PART_FLG",
        5 => "OPT_FLAG",
        6 => "TEST_FLG",
        7 => "PARM_FLG",
        8 => "FAIL_PIN",
        9 => "SPIN_MAP",
        10 => "FMU_FLG",
        11 => "MASK_MAP",
        12 => "FAL_MAP",
        13 => "Bn",
        _ => "Dn",
    }
}

/// Whether the field `name` holds bytes, and is written as hex.
pub fn is_byte_field(name: &str) -> (b: bool)
    ensures
        b == byte_field_names().contains(name@),
{
    let mut i: usize = 0;
    while i < BYTE_FIELD_COUNT
        invariant
            i <= BYTE_FIELD_COUNT,
            forall|j: int| 0 <= j < i ==> byte_field_names()[j] != name@,
        decreases BYTE_FIELD_COUNT - i,
    {
        if str_eq(byte_field_at(i), name) {
            proof {
                assert(byte_field_names()[i as int] == name@);
            }
            return true;
        }
        i = i + 1;
    }
    proof {
        if byte_field_names().contains(name@) {
            let j = choose|j: int| 0 <= j < byte_field_names().len() && byte_field_names()[j] == name@;
            assert(byte_field_names()[j] != name@);
        }
    }
    false
}

/// An error while serializing a value.
pub struct Error(pub String);

/// The error for a map key that is not a string or a number.
pub fn not_a_key() -> (e: Error)
    ensures
        e.0@ == "map key must be a string"@,
{
    Error(String::from_str("map key must be a string"))
}

/// The error for a byte field whose value is not made of bytes.
pub fn not_bytes() -> (e: Error)
    ensures
        e.0@ == "not bytes"@,
{
    Error(String::from_str("not bytes"))
}

/// The text of a record line before its fields: the record's position, header codes and
/// type, then `"data":`.
pub open spec fn record_head(r: Record) -> Seq<u8> {
    encode_utf8("{\"sequence_number\":"@) + decimal(r.sequence_number as nat)
        + encode_utf8(",\"byte_offset\":"@) + decimal(r.byte_offset as nat)
        + encode_utf8(",\"rec_typ\":"@) + decimal(r.rec_typ as nat)
        + encode_utf8(",\"rec_sub\":"@) + decimal(r.rec_sub as nat)
        + encode_utf8(",\"record_type\":\""@) + encode_utf8(r.record_type@)
        + encode_utf8("\",\"data\":"@)
}

/// The head of a record line holds, after the key of each, the decimal digits of the
/// record's sequence number, byte offset, header type and header subtype, in that order,
/// then its type name as a JSON string and the key `data`.
pub proof fn law_record_head_fields(r: Record)
    ensures
        exists|d1: Seq<u8>, d2: Seq<u8>, d3: Seq<u8>, d4: Seq<u8>|
            #![trigger decimal_value(d1), decimal_value(d2), decimal_value(d3), decimal_value(d4)]
            {
                &&& is_digits(d1) && decimal_value(d1) == r.sequence_number
                &&& is_digits(d2) && decimal_value(d2) == r.byte_offset
                &&& is_digits(d3) && decimal_value(d3) == r.rec_typ
                &&& is_digits(d4) && decimal_value(d4) == r.rec_sub
                &&& record_head(r) == encode_utf8("{\"sequence_number\":"@) + d1
                    + encode_utf8(",\"byte_offset\":"@) + d2
                    + encode_utf8(",\"rec_typ\":"@) + d3
                    + encode_utf8(",\"rec_sub\":"@) + d4
                    + encode_utf8(",\"record_type\":\""@) + encode_utf8(r.record_type@)
                    + encode_utf8("\",\"data\":"@)
            },
{
    let d1 = decimal(r.sequence_number as nat);
    let d2 = decimal(r.byte_offset as nat);
    let d3 = decimal(r.rec_typ as nat);
    let d4 = decimal(r.rec_sub as nat);
    law_signed_decimal_reads_back(r.sequence_number as int);
    law_signed_decimal_reads_back(r.byte_offset as int);
    law_signed_decimal_reads_back(r.rec_typ as int);
    law_signed_decimal_reads_back(r.rec_sub as int);
    assert(decimal_value(d1) == r.sequence_number);
    assert(decimal_value(d2) == r.byte_offset);
    assert(decimal_value(d3) == r.rec_typ);
    assert(decimal_value(d4) == r.rec_sub);
}

/// The text that closes an array or object: `]`, `}`, or `]}` and `}}` for the array and
/// object inside an enum variant.
pub enum Close {
    Array,
    Object,
    VariantArray,
    VariantObject,
}

/// The bytes of a closing text.
pub open spec fn close_text(c: Close) -> Seq<u8> {
    match c {
        Close::Array => seq![0x5du8],
        Close::Object => seq![0x7du8],
        Close::VariantArray => seq![0x5du8, 0x7du8],
        Close::VariantObject => seq![0x7du8, 0x7du8],
    }
}

/// The text after the comma that goes before an element: none before the first one.
pub open spec fn after_comma(first: bool, out: Seq<u8>) -> Seq<u8> {
    if first {
        out
    } else {
        out.push(0x2c)
    }
}

/// The element texts `elems` separated by commas.
pub open spec fn comma_separated(elems: Seq<Seq<u8>>) -> Seq<u8>
    decreases elems.len(),
{
    if elems.len() == 0 {
        seq![]
    } else if elems.len() == 1 {
        elems[0]
    } else {
        comma_separated(elems.drop_last()).push(0x2c) + elems.last()
    }
}

/// The state and text after one [`Compound::comma`] on the state `c` and the text `out`.
pub open spec fn comma_step(c: Compound, out: Seq<u8>) -> (Compound, Seq<u8>) {
    (Compound { first: false, close: c.close }, after_comma(c.first, out))
}

/// The state and text after writing the element texts `elems` into an array or object in
/// the state `c` with the text `out`: for each element a [`Compound::comma`], then the
/// element's own text.
pub open spec fn write_elements(c: Compound, out: Seq<u8>, elems: Seq<Seq<u8>>) -> (Compound, Seq<u8>)
    decreases elems.len(),
{
    if elems.len() == 0 {
        (c, out)
    } else {
        let before = write_elements(c, out, elems.drop_last());
        let after = comma_step(before.0, before.1);
        (after.0, after.1 + elems.last())
    }
}

/// The elements written into a new array or object are separated by exactly one comma
/// each, with none before the first: writing them after `[` or `{` appends them joined by
/// commas, and the state then says whether any was written.
pub proof fn law_elements_are_comma_separated(close: Close, out: Seq<u8>, elems: Seq<Seq<u8>>)
    ensures
        write_elements(Compound { first: true, close }, out, elems) == (
            Compound { first: elems.len() == 0, close },
            out + comma_separated(elems),
        ),
    decreases elems.len(),
{
    let c = Compound { first: true, close };
    if elems.len() == 0 {
        assert(out + comma_separated(elems) =~= out);
    } else if elems.len() == 1 {
        assert(elems.drop_last().len() == 0);
        assert(write_elements(c, out, elems.drop_last()) == (c, out));
        assert(elems.last() == elems[0]);
        assert(out + comma_separated(elems) =~= out + elems[0]);
    } else {
        law_elements_are_comma_separated(close, out, elems.drop_last());
        assert(out + comma_separated(elems) =~= (out + comma_separated(elems.drop_last())).push(0x2c)
            + elems.last());
    }
}

/// An array or object is its opening text, its elements separated by commas, and its
/// closing text: writing elements after the opening text and then [`Compound::end`] gives
/// exactly that, `[]` or `{}` when there is no element.
pub proof fn law_compound_text(close: Close, out: Seq<u8>, elems: Seq<Seq<u8>>)
    ensures
        ({
            let written = write_elements(Compound { first: true, close }, out, elems);
            written.1 + close_text(written.0.close) == out + comma_separated(elems) + close_text(close)
        }),
{
    law_elements_are_comma_separated(close, out, elems);
}

/// The states met along successive [`Compound::comma`] calls, each followed by an element
/// text, are the states of [`write_elements`] on the elements written so far.
proof fn lemma_trace_is_write_elements(trace: Seq<(Compound, Seq<u8>)>, elems: Seq<Seq<u8>>, k: int)
    requires
        trace.len() == elems.len() + 1,
        0 <= k <= elems.len(),
        forall|i: int| #![trigger trace[i + 1]] 0 <= i < elems.len() ==> trace[i + 1] == (
            comma_step(trace[i].0, trace[i].1).0,
            comma_step(trace[i].0, trace[i].1).1 + elems[i],
        ),
    ensures
        trace[k] == write_elements(trace[0].0, trace[0].1, elems.take(k)),
    decreases k,
{
    if k == 0 {
        assert(elems.take(0).len() == 0);
    } else {
        lemma_trace_is_write_elements(trace, elems, k - 1);
        assert(elems.take(k).drop_last() =~= elems.take(k - 1));
        assert(elems.take(k).last() == elems[k - 1]);
        assert(trace[(k - 1) + 1] == trace[k]);
    }
}

/// Successive [`Compound::comma`] calls on a new array or object, each followed by the text
/// of one element, leave the elements separated by exactly one comma each, with none
/// before the first or after the last; [`Compound::end`] then closes it. `trace[0]` is the
/// state and text right after the opening text, and `trace[i + 1]` those after the `i`-th
/// comma and element.
pub proof fn law_successive_commas(trace: Seq<(Compound, Seq<u8>)>, elems: Seq<Seq<u8>>)
    requires
        trace.len() == elems.len() + 1,
        trace[0].0.first,
        forall|i: int| #![trigger trace[i + 1]] 0 <= i < elems.len() ==> trace[i + 1] == (
            comma_step(trace[i].0, trace[i].1).0,
            comma_step(trace[i].0, trace[i].1).1 + elems[i],
        ),
    ensures
        trace.last().0 == (Compound { first: elems.len() == 0, close: trace[0].0.close }),
        trace.last().1 == trace[0].1 + comma_separated(elems),
        trace.last().1 + close_text(trace.last().0.close) == trace[0].1 + comma_separated(elems)
            + close_text(trace[0].0.close),
{
    let n = elems.len() as int;
    lemma_trace_is_write_elements(trace, elems, n);
    assert(elems.take(n) =~= elems);
    assert(trace[0].0 == Compound { first: true, close: trace[0].0.close });
    law_elements_are_comma_separated(trace[0].0.close, trace[0].1, elems);
}

/// A compact JSON writer.
pub struct Json {
    /// The text written so far.
    pub out: Vec<u8>,
}

/// The state of a JSON array or object being written.
pub struct Compound {
    /// Whether no element has been written yet.
    pub first: bool,
    /// What closes it.
    pub close: Close,
}

/// A map key: strings, or numbers written as strings.
pub struct Key {
    /// The UTF-8 bytes of the key.
    pub text: Vec<u8>,
}

/// Collects a value made only of bytes (`u8`s, byte slices, sequences of them,
/// optional), so that a byte field can be written as hex.
pub struct Bytes {
    /// The bytes collected so far.
    pub data: Vec<u8>,
    /// Whether the value was an absent optional.
    pub none: bool,
}

impl Json {
    /// Append `bytes`.
    pub fn push_bytes(&mut self, bytes: &[u8])
        ensures
            final(self).out@ == old(self).out@ + bytes@,
    {
        let mut i: usize = 0;
        while i < bytes.len()
            invariant
                i <= bytes@.len(),
                self.out@ == old(self).out@ + bytes@.take(i as int),
            decreases bytes@.len() - i,
        {
            self.out.push(bytes[i]);
            i = i + 1;
            assert(bytes@.take(i as int) =~= bytes@.take(i - 1) + seq![bytes@[i - 1]]);
        }
        assert(bytes@.take(i as int) =~= bytes@);
    }

    /// Append the decimal text of `v`.
    pub fn u64_value(&mut self, v: u64)
        ensures
            final(self).out@ == old(self).out@ + decimal(v as nat),
        decreases v,
    {
        if v >= 10 {
            self.u64_value(v / 10);
        }
        let d: u8 = (v % 10) as u8;
        self.out.push(48 + d);
        assert(self.out@ =~= old(self).out@ + decimal(v as nat));
    }

    /// Append the decimal text of `v`, with a minus sign if it is negative.
    pub fn i64_value(&mut self, v: i64)
        ensures
            final(self).out@ == old(self).out@ + signed_decimal(v as int),
    {
        if v < 0 {
            self.out.push(0x2d);
            let magnitude: u64 = if v == i64::MIN {
                9223372036854775808u64
            } else {
                (-v) as u64
            };
            self.u64_value(magnitude);
            assert(self.out@ =~= old(self).out@ + signed_decimal(v as int));
        } else {
            self.u64_value(v as u64);
        }
    }

    /// Append `true` or `false`.
    pub fn bool_value(&mut self, v: bool)
        ensures
            final(self).out@ == old(self).out@ + json_bool(v),
    {
        if v {
            self.out.push(0x74);  // t
            self.out.push(0x72);  // r
            self.out.push(0x75);  // u
            self.out.push(0x65);  // e
        } else {
            self.out.push(0x66);  // f
            self.out.push(0x61);  // a
            self.out.push(0x6c);  // l
            self.out.push(0x73);  // s
            self.out.push(0x65);  // e
        }
        assert(self.out@ =~= old(self).out@ + json_bool(v));
    }

    /// Append `null`.
    pub fn null(&mut self)
        ensures
            final(self).out@ == old(self).out@ + json_null(),
    {
        self.out.push(0x6e);  // n
        self.out.push(0x75);  // u
        self.out.push(0x6c);  // l
        self.out.push(0x6c);  // l
        assert(self.out@ =~= old(self).out@ + json_null());
    }

    /// Append the escaped form of one byte of a string.
    fn escaped_byte(&mut self, b: u8)
        ensures
            final(self).out@ == old(self).out@ + escape_byte(b),
    {
        if b == 0x22 {
            self.out.push(0x5c);
            self.out.push(0x22);
        } else if b == 0x5c {
            self.out.push(0x5c);
            self.out.push(0x5c);
        } else if b == 0x0a {
            self.out.push(0x5c);
            self.out.push(0x6e);  // n
        } else if b == 0x0d {
            self.out.push(0x5c);
            self.out.push(0x72);  // r
        } else if b == 0x09 {
            self.out.push(0x5c);
            self.out.push(0x74);  // t
        } else if b < 0x20 {
            self.out.push(0x5c);
            self.out.push(0x75);  // u
            self.out.push(0x30);
            self.out.push(0x30);
            self.out.push(hex_digit_of(b / 16));
            self.out.push(hex_digit_of(b % 16));
        } else {
            self.out.push(b);
        }
        assert(self.out@ =~= old(self).out@ + escape_byte(b));
    }

    /// Append the text whose UTF-8 bytes are `bytes` as a JSON string.
    pub fn string_bytes(&mut self, bytes: &[u8])
        ensures
            final(self).out@ == old(self).out@ + json_string(bytes@),
    {
        self.out.push(0x22);
        let ghost start = self.out@;
        let mut i: usize = 0;
        while i < bytes.len()
            invariant
                i <= bytes@.len(),
                self.out@ == start + escaped(bytes@.take(i as int)),
            decreases bytes@.len() - i,
        {
            self.escaped_byte(bytes[i]);
            i = i + 1;
            assert(bytes@.take(i as int).drop_last() =~= bytes@.take(i - 1));
            assert(self.out@ =~= start + escaped(bytes@.take(i as int)));
        }
        assert(bytes@.take(i as int) =~= bytes@);
        self.out.push(0x22);
        assert(self.out@ =~= old(self).out@ + json_string(bytes@));
    }

    /// Append `s` as a JSON string: the quote, the backslash and the control characters
    /// escaped, every other character written as its UTF-8 bytes.
    pub fn string(&mut self, s: &str)
        ensures
            final(self).out@ == old(self).out@ + json_string(s.spec_bytes()),
    {
        self.string_bytes(s.as_bytes());
    }

    /// Append `bytes` as a JSON string of lowercase hexadecimal digits, two per byte.
    pub fn hex(&mut self, bytes: &[u8])
        ensures
            final(self).out@ == old(self).out@ + json_hex(bytes@),
    {
        self.out.push(0x22);
        let ghost start = self.out@;
        let mut i: usize = 0;
        while i < bytes.len()
            invariant
                i <= bytes@.len(),
                self.out@ == start + hex_text(bytes@.take(i as int)),
            decreases bytes@.len() - i,
        {
            let b = bytes[i];
            self.out.push(hex_digit_of(b / 16));
            self.out.push(hex_digit_of(b % 16));
            i = i + 1;
            assert(bytes@.take(i as int).drop_last() =~= bytes@.take(i - 1));
            assert(self.out@ =~= start + hex_text(bytes@.take(i as int)));
        }
        assert(bytes@.take(i as int) =~= bytes@);
        self.out.push(0x22);
        assert(self.out@ =~= old(self).out@ + json_hex(bytes@));
    }

    /// Append the string that stands for a float JSON numbers cannot hold: a NaN when
    /// `nan`, otherwise an infinity of the sign `positive`.
    pub fn non_finite(&mut self, nan: bool, positive: bool)
        ensures
            final(self).out@ == old(self).out@ + json_non_finite(nan, positive),
    {
        self.out.push(0x22);
        if nan {
            self.out.push(0x4e);  // N
            self.out.push(0x61);  // a
            self.out.push(0x4e);  // N
        } else {
            if !positive {
                self.out.push(0x2d);  // -
            }
            self.out.push(0x49);  // I
            self.out.push(0x6e);  // n
            self.out.push(0x66);  // f
            self.out.push(0x69);  // i
            self.out.push(0x6e);  // n
            self.out.push(0x69);  // i
            self.out.push(0x74);  // t
            self.out.push(0x79);  // y
        }
        self.out.push(0x22);
        assert(self.out@ =~= old(self).out@ + json_non_finite(nan, positive));
    }

    /// Append a byte field's collected value: `null` for an absent optional, hex otherwise.
    pub fn collected_bytes(&mut self, bytes: &Bytes)
        ensures
            final(self).out@ == old(self).out@ + (if bytes.none {
                json_null()
            } else {
                json_hex(bytes.data@)
            }),
    {
        if bytes.none {
            self.null();
        } else {
            self.hex(bytes.data.as_slice());
        }
    }

    /// Start an array.
    pub fn begin_seq(&mut self) -> (c: Compound)
        ensures
            final(self).out@ == old(self).out@.push(0x5b),
            c.first,
            c.close == Close::Array,
    {
        self.out.push(0x5b);
        Compound { first: true, close: Close::Array }
    }

    /// Start an object.
    pub fn begin_map(&mut self) -> (c: Compound)
        ensures
            final(self).out@ == old(self).out@.push(0x7b),
            c.first,
            c.close == Close::Object,
    {
        self.out.push(0x7b);
        Compound { first: true, close: Close::Object }
    }

    /// Start an enum variant that holds a value: `{"variant":`. The value and a `}`
    /// follow.
    pub fn begin_newtype_variant(&mut self, variant: &str)
        ensures
            final(self).out@ == old(self).out@.push(0x7b) + json_string(variant.spec_bytes()) + seq![0x3au8],
    {
        self.out.push(0x7b);
        self.string(variant);
        self.out.push(0x3a);
        assert(self.out@ =~= old(self).out@.push(0x7b) + json_string(variant.spec_bytes()) + seq![0x3au8]);
    }

    /// Start an enum variant that holds a tuple: `{"variant":[`.
    pub fn begin_tuple_variant(&mut self, variant: &str) -> (c: Compound)
        ensures
            final(self).out@ == old(self).out@.push(0x7b) + json_string(variant.spec_bytes()) + seq![0x3au8, 0x5bu8],
            c.first,
            c.close == Close::VariantArray,
    {
        self.begin_newtype_variant(variant);
        self.out.push(0x5b);
        assert(self.out@ =~= old(self).out@.push(0x7b) + json_string(variant.spec_bytes()) + seq![0x3au8, 0x5bu8]);
        Compound { first: true, close: Close::VariantArray }
    }

    /// Start an enum variant that holds fields: `{"variant":{`.
    pub fn begin_struct_variant(&mut self, variant: &str) -> (c: Compound)
        ensures
            final(self).out@ == old(self).out@.push(0x7b) + json_string(variant.spec_bytes()) + seq![0x3au8, 0x7bu8],
            c.first,
            c.close == Close::VariantObject,
    {
        self.begin_newtype_variant(variant);
        self.out.push(0x7b);
        assert(self.out@ =~= old(self).out@.push(0x7b) + json_string(variant.spec_bytes()) + seq![0x3au8, 0x7bu8]);
        Compound { first: true, close: Close::VariantObject }
    }

    /// Append the start of a record's line, up to its fields: its sequence number, byte
    /// offset, header codes and type name, then `"data":`.
    pub fn record_head(&mut self, record: &Record)
        ensures
            final(self).out@ == old(self).out@ + record_head(*record),
    {
        self.push_bytes("{\"sequence_number\":".as_bytes());
        self.u64_value(record.sequence_number);
        self.push_bytes(",\"byte_offset\":".as_bytes());
        self.u64_value(record.byte_offset);
        self.push_bytes(",\"rec_typ\":".as_bytes());
        self.u64_value(record.rec_typ as u64);
        self.push_bytes(",\"rec_sub\":".as_bytes());
        self.u64_value(record.rec_sub as u64);
        self.push_bytes(",\"record_type\":\"".as_bytes());
        self.push_bytes(record.record_type.as_bytes());
        self.push_bytes("\",\"data\":".as_bytes());
        assert(self.out@ =~= old(self).out@ + record_head(*record));
    }
}

/// The lowercase hexadecimal digit for `d`.
fn hex_digit_of(d: u8) -> (r: u8)
    requires
        d < 16,
    ensures
        r == hex_digit(d as int),
{
    if d < 10 {
        48 + d
    } else {
        87 + d
    }
}

impl Compound {
    /// Write the comma that separates this element from the one before, if any.
    pub fn comma(&mut self, json: &mut Json)
        ensures
            (*final(self), final(json).out@) == comma_step(*old(self), old(json).out@),
    {
        if !self.first {
            json.out.push(0x2c);
        }
        self.first = false;
    }

    /// Close the array or object.
    pub fn end(self, json: &mut Json)
        ensures
            final(json).out@ == old(json).out@ + close_text(self.close),
    {
        match self.close {
            Close::Array => json.out.push(0x5d),
            Close::Object => json.out.push(0x7d),
            Close::VariantArray => {
                json.out.push(0x5d);
                json.out.push(0x7d);
            },
            Close::VariantObject => {
                json.out.push(0x7d);
                json.out.push(0x7d);
            },
        }
        assert(json.out@ =~= old(json).out@ + close_text(self.close));
    }

    /// Write a struct field's name: the separating comma, the name as a string, and `:`.
    /// The value follows.
    pub fn field_name(&mut self, json: &mut Json, name: &str)
        ensures
            final(json).out@ == (if old(self).first {
                old(json).out@
            } else {
                old(json).out@.push(0x2c)
            }) + json_string(name.spec_bytes()) + seq![0x3au8],
            !final(self).first,
            final(self).close == old(self).close,
    {
        self.comma(json);
        json.string(name);
        json.out.push(0x3a);
        assert(json.out@ =~= (if old(self).first {
            old(json).out@
        } else {
            old(json).out@.push(0x2c)
        }) + json_string(name.spec_bytes()) + seq![0x3au8]);
    }

    /// Write a map key: the separating comma, the key as a string, and `:`. The value
    /// follows.
    pub fn map_key(&mut self, json: &mut Json, key: &Key)
        ensures
            final(json).out@ == (if old(self).first {
                old(json).out@
            } else {
                old(json).out@.push(0x2c)
            }) + json_string(key.text@) + seq![0x3au8],
            !final(self).first,
            final(self).close == old(self).close,
    {
        self.comma(json);
        json.string_bytes(key.text.as_slice());
        json.out.push(0x3a);
        assert(json.out@ =~= (if old(self).first {
            old(json).out@
        } else {
            old(json).out@.push(0x2c)
        }) + json_string(key.text@) + seq![0x3au8]);
    }
}

impl Key {
    /// A key with no text yet.
    pub fn new() -> (k: Key)
        ensures
            k.text@ == Seq::<u8>::empty(),
    {
        Key { text: Vec::new() }
    }

    /// The key `v`.
    pub fn set_str(&mut self, v: &str)
        ensures
            final(self).text@ == v.spec_bytes(),
    {
        let mut json = Json { out: Vec::new() };
        json.push_bytes(v.as_bytes());
        self.text = json.out;
        assert(self.text@ =~= v.spec_bytes());
    }

    /// The key `true` or `false`.
    pub fn set_bool(&mut self, v: bool)
        ensures
            final(self).text@ == json_bool(v),
    {
        let mut json = Json { out: Vec::new() };
        json.bool_value(v);
        self.text = json.out;
        assert(self.text@ =~= json_bool(v));
    }

    /// The key that is the decimal text of `v`.
    pub fn set_u64(&mut self, v: u64)
        ensures
            final(self).text@ == decimal(v as nat),
    {
        let mut json = Json { out: Vec::new() };
        json.u64_value(v);
        self.text = json.out;
        assert(self.text@ =~= decimal(v as nat));
    }

    /// The key that is the decimal text of `v`, with a minus sign if it is negative.
    pub fn set_i64(&mut self, v: i64)
        ensures
            final(self).text@ == signed_decimal(v as int),
    {
        let mut json = Json { out: Vec::new() };
        json.i64_value(v);
        self.text = json.out;
        assert(self.text@ =~= signed_decimal(v as int));
    }
}

impl Bytes {
    /// Nothing collected yet.
    pub fn new() -> (b: Bytes)
        ensures
            b.data@ == Seq::<u8>::empty(),
            !b.none,
    {
        Bytes { data: Vec::new(), none: false }
    }

    /// Collect one byte.
    pub fn push_u8(&mut self, v: u8)
        ensures
            final(self).data@ == old(self).data@.push(v),
            final(self).none == old(self).none,
    {
        self.data.push(v);
    }

    /// Collect a byte slice.
    pub fn extend(&mut self, v: &[u8])
        ensures
            final(self).data@ == old(self).data@ + v@,
            final(self).none == old(self).none,
    {
        let mut i: usize = 0;
        while i < v.len()
            invariant
                i <= v@.len(),
                self.data@ == old(self).data@ + v@.take(i as int),
                self.none == old(self).none,
            decreases v@.len() - i,
        {
            self.data.push(v[i]);
            i = i + 1;
            assert(v@.take(i as int) =~= v@.take(i - 1) + seq![v@[i - 1]]);
        }
        assert(v@.take(i as int) =~= v@);
    }

    /// Note that the value was an absent optional.
    pub fn set_none(&mut self)
        ensures
            final(self).data@ == old(self).data@,
            final(self).none,
    {
        self.none = true;
    }
}

} // verus!
