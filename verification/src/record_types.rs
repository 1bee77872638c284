//! Record type names: the table of every name, the name of a parsed record, and the
//! fields whose values are bytes.

use vstd::prelude::*;
use vstd::arithmetic::power2::{pow2, lemma2_to64, lemma2_to64_rest, lemma_pow2_strictly_increases};
use vstd::string::StringSliceAdditionalSpecFns;
use vstd::utf8::*;
use rust_stdf::StdfRecord;
use rust_stdf::stdf_record_type::get_rec_name_from_code;

verus! {

broadcast use vstd::utf8::group_utf8_lib;

/// `rust_stdf::StdfRecord`, one parsed record; the library only carries it.
#[verifier::external_type_specification]
#[verifier::external_body]
pub struct ExStdfRecord(StdfRecord);

/// How many record types there are, the two that the STDF specification does not
/// define (`RESERVED`, `INVALID`) included.
pub const RECORD_TYPE_COUNT: usize = 34;

/// Every record type name, in the order of rust_stdf's type codes: the record type at
/// index `i` has the code `1 << i`. `RESERVED` and `INVALID` cover records that are
/// not part of the STDF specification.
pub open spec fn record_type_names() -> Seq<Seq<char>> {
    seq![
        "FAR"@, "ATR"@, "VUR"@, "MIR"@, "MRR"@, "PCR"@, "HBR"@, "SBR"@, "PMR"@, "PGR"@,
        "PLR"@, "RDR"@, "SDR"@, "PSR"@, "NMR"@, "CNR"@, "SSR"@, "CDR"@, "WIR"@, "WRR"@,
        "WCR"@, "PIR"@, "PRR"@, "TSR"@, "PTR"@, "MPR"@, "FTR"@, "STR"@, "BPS"@, "EPS"@,
        "GDR"@, "DTR"@, "RESERVED"@, "INVALID"@,
    ]
}

/// rust_stdf's type code of the record type at index `i` of [`record_type_names`].
pub open spec fn type_code(i: int) -> int {
    pow2(i as nat) as int
}

/// Whether `code` is the type code of one of the record types.
pub open spec fn is_type_code(code: int) -> bool {
    exists|i: int| 0 <= i < 34 && code == type_code(i)
}

/// Whether `name` is one of the record type names.
pub open spec fn is_record_type_name(name: Seq<char>) -> bool {
    record_type_names().contains(name)
}

/// The record type name at index `i`.
pub fn record_type_at(i: usize) -> (name: &'static str)
    requires
        i < RECORD_TYPE_COUNT,
    ensures
        name@ == record_type_names()[i as int],
{
    match i {
        0 => "FAR",
        1 => "ATR",
        2 => "VUR",
        3 => "MIR",
        4 => "MRR",
        5 => "PCR",
        6 => "HBR",
        7 => "SBR",
        8 => "PMR",
        9 => "PGR",
        10 => "PLR",
        11 => "RDR",
        12 => "SDR",
        13 => "PSR",
        14 => "NMR",
        15 => "CNR",
        16 => "SSR",
        17 => "CDR",
        18 => "WIR",
        19 => "WRR",
        20 => "WCR",
        21 => "PIR",
        22 => "PRR",
        23 => "TSR",
        24 => "PTR",
        25 => "MPR",
        26 => "FTR",
        27 => "STR",
        28 => "BPS",
        29 => "EPS",
        30 => "GDR",
        31 => "DTR",
        32 => "RESERVED",
        _ => "INVALID",
    }
}

/// Every record type name, in the order of [`record_type_names`].
pub fn record_types() -> (names: Vec<&'static str>)
    ensures
        names@.len() == record_type_names().len(),
        forall|i: int| 0 <= i < names@.len() ==> #[trigger] names@[i]@ == record_type_names()[i],
{
    let mut names: Vec<&'static str> = Vec::new();
    let mut i: usize = 0;
    while i < RECORD_TYPE_COUNT
        invariant
            i <= RECORD_TYPE_COUNT,
            names@.len() == i,
            forall|j: int| 0 <= j < i ==> #[trigger] names@[j]@ == record_type_names()[j],
        decreases RECORD_TYPE_COUNT - i,
    {
        names.push(record_type_at(i));
        i = i + 1;
    }
    names
}

/// rust_stdf's type code of `record`: what `StdfRecord::get_type` returns for it.
pub uninterp spec fn record_code(record: StdfRecord) -> u64;

/// The index in [`record_type_names`] of the type code `code`.
pub open spec fn type_index(code: int) -> int {
    choose|i: int| 0 <= i < 34 && code == type_code(i)
}

/// The record type name of `record`: the name at the index of its type code.
pub open spec fn record_name(record: StdfRecord) -> Seq<char> {
    record_type_names()[type_index(record_code(record) as int)]
}

/// `StdfRecord::get_type`: the record's type code, which depends on the record alone
/// (its variant). rust_stdf gives each of its 32 specified record types the code `1 << i`
/// (in the order of [`record_type_names`]), reserved records `1 << 32` and invalid ones
/// `1 << 33`. Which variant a record is cannot be written here, so the code is named.
#[verifier::external_body]
fn stdf_record_type_code(record: &StdfRecord) -> (code: u64)
    ensures
        code == record_code(*record),
        is_type_code(code as int),
{
    record.get_type()
}

/// `rust_stdf::stdf_record_type::get_rec_name_from_code`: the name of a specified record
/// type's code, `"ReservedRec"` for the reserved code and `"InvalidRec"` for any other.
#[verifier::external_body]
fn rec_name_from_code(code: u64) -> (name: &'static str)
    ensures
        forall|i: int| 0 <= i < 32 && code == type_code(i) ==> name@ == record_type_names()[i],
        code == type_code(32) ==> name@ == "ReservedRec"@,
        (forall|i: int| 0 <= i < 33 ==> code != type_code(i)) ==> name@ == "InvalidRec"@,
{
    get_rec_name_from_code(code)
}

proof fn lemma_type_codes_distinct(i: int, j: int)
    requires
        0 <= i < 34,
        0 <= j < 34,
        i != j,
    ensures
        type_code(i) != type_code(j),
{
    if i < j {
        lemma_pow2_strictly_increases(i as nat, j as nat);
    } else {
        lemma_pow2_strictly_increases(j as nat, i as nat);
    }
}

/// The record type name of the type code `code`: `RESERVED` and `INVALID` for the codes
/// of reserved and invalid records, rust_stdf's name for any other (which is
/// `InvalidRec` for a number that is no type code).
pub fn record_type_name_of_code(code: u64) -> (name: &'static str)
    ensures
        forall|i: int| 0 <= i < 34 && code == type_code(i) ==> name@ == record_type_names()[i],
        !is_type_code(code as int) ==> name@ == "InvalidRec"@,
{
    proof {
        lemma2_to64();
        lemma2_to64_rest();
    }
    if code == 0x1_0000_0000u64 {
        proof {
            assert forall|i: int| 0 <= i < 34 && code == type_code(i) implies i == 32 by {
                if i != 32 {
                    lemma_type_codes_distinct(i, 32);
                }
            }
            assert(record_type_names()[32] == "RESERVED"@);
            assert(code == type_code(32));
        }
        "RESERVED"
    } else if code == 0x2_0000_0000u64 {
        proof {
            assert forall|i: int| 0 <= i < 34 && code == type_code(i) implies i == 33 by {
                if i != 33 {
                    lemma_type_codes_distinct(i, 33);
                }
            }
            assert(record_type_names()[33] == "INVALID"@);
            assert(code == type_code(33));
        }
        "INVALID"
    } else {
        proof {
            assert(type_code(32) == 0x1_0000_0000);
            assert(type_code(33) == 0x2_0000_0000);
        }
        rec_name_from_code(code)
    }
}

/// The record type name of `record`: the name of its type code, one of
/// [`record_type_names`].
pub fn record_type_name(record: &StdfRecord) -> (name: &'static str)
    ensures
        is_type_code(record_code(*record) as int),
        name@ == record_name(*record),
        is_record_type_name(name@),
{
    let code = stdf_record_type_code(record);
    let name = record_type_name_of_code(code);
    proof {
        let i = type_index(code as int);
        assert(0 <= i < 34 && code == type_code(i));
        assert(record_type_names()[i] == name@);
    }
    name
}

} // verus!
