//! The JSON text of plain values: strings, byte strings as hex, integers, booleans,
//! `null`, and the strings that stand for the floats JSON cannot hold; and what a JSON
//! parser reads back from them.

use vstd::prelude::*;

verus! {

/// The ASCII digit for `d` in `0..10`.
pub open spec fn digit(d: int) -> u8 {
    (48 + d) as u8
}

/// The decimal text of `n`, without leading zeros.
pub open spec fn decimal(n: nat) -> Seq<u8>
    decreases n,
{
    if n < 10 {
        seq![digit(n as int)]
    } else {
        decimal(n / 10).push(digit((n % 10) as int))
    }
}

/// The decimal text of a signed integer: a minus sign before the magnitude of a negative one.
pub open spec fn signed_decimal(v: int) -> Seq<u8> {
    if v < 0 {
        seq![0x2du8] + decimal((-v) as nat)  // -
    } else {
        decimal(v as nat)
    }
}

/// The lowercase hexadecimal digit for `d` in `0..16`.
pub open spec fn hex_digit(d: int) -> u8 {
    if d < 10 {
        (48 + d) as u8
    } else {
        (87 + d) as u8
    }
}

/// The two lowercase hexadecimal digits of a byte.
pub open spec fn hex_byte(b: u8) -> Seq<u8> {
    seq![hex_digit(b as int / 16), hex_digit(b as int % 16)]
}

/// Every byte of `bs` as two lowercase hexadecimal digits.
pub open spec fn hex_text(bs: Seq<u8>) -> Seq<u8>
    decreases bs.len(),
{
    if bs.len() == 0 {
        seq![]
    } else {
        hex_text(bs.drop_last()) + hex_byte(bs.last())
    }
}

/// How one byte of a string is written inside JSON quotes: the quote, the backslash and
/// the control characters are escaped, every other byte (UTF-8 continuation bytes among
/// them) is kept as it is.
pub open spec fn escape_byte(b: u8) -> Seq<u8> {
    if b == 0x22 {
        seq![0x5cu8, 0x22u8]  // \"
    } else if b == 0x5c {
        seq![0x5cu8, 0x5cu8]  // \\
    } else if b == 0x0a {
        seq![0x5cu8, 0x6eu8]  // \n
    } else if b == 0x0d {
        seq![0x5cu8, 0x72u8]  // \r
    } else if b == 0x09 {
        seq![0x5cu8, 0x74u8]  // \t
    } else if b < 0x20 {
        // \u00XX
        seq![0x5cu8, 0x75u8, 0x30u8, 0x30u8, hex_digit(b as int / 16), hex_digit(b as int % 16)]
    } else {
        seq![b]
    }
}

/// The escaped form of the bytes of a string, without the quotes.
pub open spec fn escaped(bs: Seq<u8>) -> Seq<u8>
    decreases bs.len(),
{
    if bs.len() == 0 {
        seq![]
    } else {
        escaped(bs.drop_last()) + escape_byte(bs.last())
    }
}

/// A JSON string holding the text whose UTF-8 bytes are `bs`.
pub open spec fn json_string(bs: Seq<u8>) -> Seq<u8> {
    seq![0x22u8] + escaped(bs) + seq![0x22u8]
}

/// A JSON string holding the bytes `bs` as lowercase hexadecimal.
pub open spec fn json_hex(bs: Seq<u8>) -> Seq<u8> {
    seq![0x22u8] + hex_text(bs) + seq![0x22u8]
}

/// The JSON text `null`.
pub open spec fn json_null() -> Seq<u8> {
    seq![0x6eu8, 0x75u8, 0x6cu8, 0x6cu8]  // null
}

/// The JSON text of a boolean.
pub open spec fn json_bool(v: bool) -> Seq<u8> {
    if v {
        seq![0x74u8, 0x72u8, 0x75u8, 0x65u8]  // true
    } else {
        seq![0x66u8, 0x61u8, 0x6cu8, 0x73u8, 0x65u8]  // false
    }
}

/// The JSON string that stands for a float JSON numbers cannot hold: `"NaN"`,
/// `"Infinity"` or `"-Infinity"`.
pub open spec fn json_non_finite(nan: bool, positive: bool) -> Seq<u8> {
    if nan {
        seq![0x22u8, 0x4eu8, 0x61u8, 0x4eu8, 0x22u8]  // "NaN"
    } else if positive {
        // "Infinity"
        seq![0x22u8, 0x49u8, 0x6eu8, 0x66u8, 0x69u8, 0x6eu8, 0x69u8, 0x74u8, 0x79u8, 0x22u8]
    } else {
        // "-Infinity"
        seq![0x22u8, 0x2du8, 0x49u8, 0x6eu8, 0x66u8, 0x69u8, 0x6eu8, 0x69u8, 0x74u8, 0x79u8, 0x22u8]
    }
}

/// The value of an ASCII hexadecimal digit, either case.
pub open spec fn hex_value(c: u8) -> Option<int> {
    if 0x30 <= c && c <= 0x39 {
        Some(c - 0x30)
    } else if 0x61 <= c && c <= 0x66 {
        Some(c - 0x61 + 10)
    } else if 0x41 <= c && c <= 0x46 {
        Some(c - 0x41 + 10)
    } else {
        None
    }
}

/// The character that a `\u` escape `\u` `a` `b` `c` `d` denotes, when it is an ASCII one.
pub open spec fn unicode_escape_value(a: u8, b: u8, c: u8, d: u8) -> Option<u8> {
    match (hex_value(a), hex_value(b), hex_value(c), hex_value(d)) {
        (Some(x), Some(y), Some(z), Some(w)) => {
            let v = ((x * 16 + y) * 16 + z) * 16 + w;
            if v < 0x80 {
                Some(v as u8)
            } else {
                None
            }
        },
        _ => None,
    }
}

/// What a JSON parser reads from the text between the quotes of a JSON string, as UTF-8
/// bytes: the escapes `\"`, `\\`, `\/`, `\b`, `\f`, `\n`, `\r`, `\t`, and `\u` escapes of
/// ASCII characters, each byte else as it is; `None` for text that is no string body (an
/// unescaped quote or control character, an unknown escape).
pub open spec fn json_unescape(t: Seq<u8>) -> Option<Seq<u8>>
    decreases t.len(),
{
    if t.len() == 0 {
        Some(seq![])
    } else if t[0] == 0x5c {
        if t.len() < 2 {
            None
        } else {
            let e = t[1];
            let one: Option<u8> = if e == 0x22 {
                Some(0x22u8)
            } else if e == 0x5c {
                Some(0x5cu8)
            } else if e == 0x2f {
                Some(0x2fu8)
            } else if e == 0x62 {
                Some(0x08u8)
            } else if e == 0x66 {
                Some(0x0cu8)
            } else if e == 0x6e {
                Some(0x0au8)
            } else if e == 0x72 {
                Some(0x0du8)
            } else if e == 0x74 {
                Some(0x09u8)
            } else {
                None
            };
            if one is Some {
                match json_unescape(t.skip(2)) {
                    Some(rest) => Some(seq![one->0] + rest),
                    None => None,
                }
            } else if e == 0x75 && t.len() >= 6 {
                match unicode_escape_value(t[2], t[3], t[4], t[5]) {
                    Some(v) => match json_unescape(t.skip(6)) {
                        Some(rest) => Some(seq![v] + rest),
                        None => None,
                    },
                    None => None,
                }
            } else {
                None
            }
        }
    } else if t[0] < 0x20 || t[0] == 0x22 {
        None
    } else {
        match json_unescape(t.skip(1)) {
            Some(rest) => Some(seq![t[0]] + rest),
            None => None,
        }
    }
}

/// The bytes of a text of lowercase hexadecimal digit pairs; `None` if it is not one.
pub open spec fn unhex(t: Seq<u8>) -> Option<Seq<u8>>
    decreases t.len(),
{
    if t.len() == 0 {
        Some(seq![])
    } else if t.len() == 1 {
        None
    } else {
        match (hex_value(t[0]), hex_value(t[1]), unhex(t.skip(2))) {
            (Some(h), Some(l), Some(rest)) => Some(seq![(h * 16 + l) as u8] + rest),
            _ => None,
        }
    }
}

/// The number that a text of decimal digits denotes.
pub open spec fn decimal_value(t: Seq<u8>) -> int
    decreases t.len(),
{
    if t.len() == 0 {
        0
    } else {
        decimal_value(t.drop_last()) * 10 + (t.last() - 0x30)
    }
}

proof fn lemma_escaped_concat(a: Seq<u8>, b: Seq<u8>)
    ensures
        escaped(a + b) == escaped(a) + escaped(b),
    decreases b.len(),
{
    if b.len() == 0 {
        assert(a + b =~= a);
        assert(escaped(a) + escaped(b) =~= escaped(a));
    } else {
        lemma_escaped_concat(a, b.drop_last());
        assert((a + b).drop_last() =~= a + b.drop_last());
        assert((a + b).last() == b.last());
        assert(escaped(a + b) =~= escaped(a) + escaped(b));
    }
}

proof fn lemma_escaped_first(bs: Seq<u8>)
    requires
        bs.len() > 0,
    ensures
        escaped(bs) == escape_byte(bs[0]) + escaped(bs.drop_first()),
{
    lemma_escaped_concat(seq![bs[0]], bs.drop_first());
    assert(seq![bs[0]] + bs.drop_first() =~= bs);
    let one = seq![bs[0]];
    assert(one.drop_last() =~= Seq::<u8>::empty());
    assert(one.last() == bs[0]);
    assert(escaped(one) == escaped(one.drop_last()) + escape_byte(one.last()));
    assert(escaped(one) =~= escape_byte(bs[0]));
}

/// Reading back the escaped form of a string gives the string: what a JSON parser reads
/// from a string the writer wrote is exactly the text that was written.
pub proof fn law_string_round_trip(bs: Seq<u8>)
    ensures
        json_unescape(escaped(bs)) == Some(bs),
    decreases bs.len(),
{
    if bs.len() == 0 {
    } else {
        let b = bs[0];
        let rest = bs.drop_first();
        lemma_escaped_first(bs);
        law_string_round_trip(rest);
        let t = escaped(bs);
        let e = escape_byte(b);
        assert(t.skip(e.len() as int) =~= escaped(rest));
        assert(t.take(e.len() as int) =~= e);
        if b < 0x20 && b != 0x0a && b != 0x0d && b != 0x09 {
            assert(t[0] == 0x5c && t[1] == 0x75);
            assert(hex_value(t[2]) == Some(0int));
            assert(hex_value(t[3]) == Some(0int));
            assert(hex_value(t[4]) == Some(b as int / 16));
            assert(hex_value(t[5]) == Some(b as int % 16));
        }
        assert(seq![b] + rest =~= bs);
    }
}

/// No byte of an escaped string is a control character: a written string never breaks
/// a line.
pub proof fn law_escaped_has_no_control_bytes(bs: Seq<u8>)
    ensures
        forall|i: int| 0 <= i < escaped(bs).len() ==> #[trigger] escaped(bs)[i] >= 0x20,
    decreases bs.len(),
{
    if bs.len() > 0 {
        law_escaped_has_no_control_bytes(bs.drop_last());
        let e = escape_byte(bs.last());
        assert forall|i: int| 0 <= i < e.len() implies #[trigger] e[i] >= 0x20 by {
            let b = bs.last();
            if b < 0x20 && b != 0x0a && b != 0x0d && b != 0x09 && i >= 4 {
                assert(b as int / 16 < 10);
            }
        }
        assert forall|i: int| 0 <= i < escaped(bs).len() implies #[trigger] escaped(bs)[i] >= 0x20 by {
            let p = escaped(bs.drop_last());
            if i >= p.len() {
                assert(escaped(bs)[i] == e[i - p.len()]);
            } else {
                assert(escaped(bs)[i] == p[i]);
            }
        }
    }
}

proof fn lemma_hex_text_first(bs: Seq<u8>)
    requires
        bs.len() > 0,
    ensures
        hex_text(bs) == hex_byte(bs[0]) + hex_text(bs.drop_first()),
    decreases bs.len(),
{
    if bs.len() == 1 {
        assert(bs.drop_last() =~= Seq::<u8>::empty());
        assert(bs.drop_first() =~= Seq::<u8>::empty());
        assert(hex_text(bs) == hex_text(bs.drop_last()) + hex_byte(bs.last()));
        assert(hex_text(bs) =~= hex_byte(bs[0]));
    } else {
        lemma_hex_text_first(bs.drop_last());
        assert(bs.drop_last().drop_first() =~= bs.drop_first().drop_last());
        assert(bs.drop_first().last() == bs.last());
        assert(hex_text(bs) =~= hex_byte(bs[0]) + hex_text(bs.drop_first()));
    }
}

/// Reading back the hex text of bytes gives the bytes.
pub proof fn law_hex_round_trip(bs: Seq<u8>)
    ensures
        unhex(hex_text(bs)) == Some(bs),
    decreases bs.len(),
{
    if bs.len() > 0 {
        lemma_hex_text_first(bs);
        law_hex_round_trip(bs.drop_first());
        let t = hex_text(bs);
        assert(t.skip(2) =~= hex_text(bs.drop_first()));
        assert(hex_value(t[0]) == Some(bs[0] as int / 16));
        assert(hex_value(t[1]) == Some(bs[0] as int % 16));
        assert(seq![bs[0]] + bs.drop_first() =~= bs);
    }
}

/// The decimal text of a number denotes the number, and starts with a zero only when it
/// is the number 0.
pub proof fn law_decimal_round_trip(n: nat)
    ensures
        decimal_value(decimal(n)) == n,
        decimal(n).len() > 0,
        decimal(n)[0] == 0x30 ==> n == 0,
    decreases n,
{
    if n >= 10 {
        law_decimal_round_trip(n / 10);
        assert(decimal(n).drop_last() =~= decimal(n / 10));
        assert(decimal(n)[0] == decimal(n / 10)[0]);
        assert(decimal(n).last() == digit((n % 10) as int));
        assert((n / 10) * 10 + n % 10 == n) by (nonlinear_arith);
        let d = decimal(n);
        assert(digit((n % 10) as int) == 48 + n % 10);
        assert(decimal_value(d) == decimal_value(d.drop_last()) * 10 + (d.last() - 0x30));
    } else {
        let d = decimal(n);
        assert(d.drop_last() =~= Seq::<u8>::empty());
        assert(d.last() == digit(n as int));
        assert(digit(n as int) == 48 + n);
        assert(decimal_value(d) == decimal_value(d.drop_last()) * 10 + (d.last() - 0x30));
    }
}

/// Whether every byte of `t` is an ASCII decimal digit.
pub open spec fn is_digits(t: Seq<u8>) -> bool {
    forall|i: int| 0 <= i < t.len() ==> 0x30 <= #[trigger] t[i] && t[i] <= 0x39
}

proof fn lemma_decimal_digits(n: nat)
    ensures
        is_digits(decimal(n)),
    decreases n,
{
    if n >= 10 {
        lemma_decimal_digits(n / 10);
        let d = decimal(n);
        assert forall|i: int| 0 <= i < d.len() implies 0x30 <= #[trigger] d[i] && d[i] <= 0x39 by {
            if i < d.len() - 1 {
                assert(d[i] == decimal(n / 10)[i]);
            }
        }
    }
}

/// The JSON text written for an integer reads back as that integer: a minus sign exactly
/// when it is negative, then the decimal digits of its magnitude, with no leading zero.
pub proof fn law_signed_decimal_reads_back(v: int)
    ensures
        v < 0 ==> {
            let t = signed_decimal(v);
            &&& t.len() >= 2
            &&& t[0] == 0x2d
            &&& is_digits(t.skip(1))
            &&& decimal_value(t.skip(1)) == -v
            &&& t[1] != 0x30
        },
        v >= 0 ==> {
            let t = signed_decimal(v);
            &&& t.len() >= 1
            &&& is_digits(t)
            &&& decimal_value(t) == v
            &&& (t[0] == 0x30 ==> t.len() == 1)
        },
{
    if v < 0 {
        let m = (-v) as nat;
        law_decimal_round_trip(m);
        lemma_decimal_digits(m);
        let t = signed_decimal(v);
        assert(t.skip(1) =~= decimal(m));
        assert(t[1] == decimal(m)[0]);
    } else {
        law_decimal_round_trip(v as nat);
        lemma_decimal_digits(v as nat);
        if decimal(v as nat)[0] == 0x30 {
            assert(v == 0);
        }
    }
}

/// A JSON string written for the bytes `bs` is quoted, and what a JSON parser reads from
/// between the quotes is the whole of `bs`, whatever its length.
pub proof fn law_json_string_reads_back(bs: Seq<u8>)
    ensures
        json_string(bs).len() >= 2,
        json_string(bs)[0] == 0x22,
        json_string(bs).last() == 0x22,
        json_unescape(json_string(bs).subrange(1, json_string(bs).len() - 1)) == Some(bs),
{
    let t = json_string(bs);
    assert(t.subrange(1, t.len() - 1) =~= escaped(bs));
    law_string_round_trip(bs);
}

/// Whether `c` is a lowercase hexadecimal digit: `0`-`9` or `a`-`f`.
pub open spec fn is_lower_hex_digit(c: u8) -> bool {
    (0x30 <= c && c <= 0x39) || (0x61 <= c && c <= 0x66)
}

proof fn lemma_hex_text_lowercase(bs: Seq<u8>)
    ensures
        forall|i: int| 0 <= i < hex_text(bs).len() ==> is_lower_hex_digit(#[trigger] hex_text(bs)[i]),
    decreases bs.len(),
{
    if bs.len() > 0 {
        lemma_hex_text_lowercase(bs.drop_last());
        let p = hex_text(bs.drop_last());
        let t = hex_text(bs);
        assert forall|i: int| 0 <= i < t.len() implies is_lower_hex_digit(#[trigger] t[i]) by {
            if i < p.len() {
                assert(t[i] == p[i]);
            } else {
                assert(t[i] == hex_byte(bs.last())[i - p.len()]);
            }
        }
    }
}

/// A hex string written for the bytes `bs` is quoted, holds only lowercase hex digits,
/// and the digits between the quotes read back as the whole of `bs`, whatever its length.
pub proof fn law_json_hex_reads_back(bs: Seq<u8>)
    ensures
        json_hex(bs).len() >= 2,
        json_hex(bs)[0] == 0x22,
        json_hex(bs).last() == 0x22,
        unhex(json_hex(bs).subrange(1, json_hex(bs).len() - 1)) == Some(bs),
        forall|i: int| 1 <= i < json_hex(bs).len() - 1 ==> is_lower_hex_digit(#[trigger] json_hex(bs)[i]),
{
    let t = json_hex(bs);
    assert(t.subrange(1, t.len() - 1) =~= hex_text(bs));
    law_hex_round_trip(bs);
    lemma_hex_text_lowercase(bs);
    assert forall|i: int| 1 <= i < t.len() - 1 implies is_lower_hex_digit(#[trigger] t[i]) by {
        assert(t[i] == hex_text(bs)[i - 1]);
    }
}

} // verus!
