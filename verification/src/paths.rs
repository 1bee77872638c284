//! Names of input and output files: which names are STDF files, and where the JSON Lines
//! output of an input goes.

use vstd::prelude::*;
use vstd::string::*;
use vstd::utf8::*;
use crate::strings::lemma_encode_utf8_concat;

verus! {

broadcast use vstd::utf8::group_utf8_lib;

/// `b` with an ASCII uppercase letter made lowercase.
pub open spec fn lower_byte(b: u8) -> u8 {
    if 0x41 <= b && b <= 0x5a {
        (b + 32) as u8
    } else {
        b
    }
}

/// Whether `s` ends with `ext` (which is lowercase), ignoring ASCII case.
pub open spec fn ends_with_ci(s: Seq<u8>, ext: Seq<u8>) -> bool {
    &&& ext.len() <= s.len()
    &&& forall|i: int| 0 <= i < ext.len() ==> lower_byte(#[trigger] s[s.len() - ext.len() + i]) == ext[i]
}

/// `.gz`
pub open spec fn ext_gz() -> Seq<u8> {
    seq![0x2eu8, 0x67u8, 0x7au8]
}

/// `.bz2`
pub open spec fn ext_bz2() -> Seq<u8> {
    seq![0x2eu8, 0x62u8, 0x7au8, 0x32u8]
}

/// `.zip`
pub open spec fn ext_zip() -> Seq<u8> {
    seq![0x2eu8, 0x7au8, 0x69u8, 0x70u8]
}

/// `.stdf`
pub open spec fn ext_stdf() -> Seq<u8> {
    seq![0x2eu8, 0x73u8, 0x74u8, 0x64u8, 0x66u8]
}

/// `.std`
pub open spec fn ext_std() -> Seq<u8> {
    seq![0x2eu8, 0x73u8, 0x74u8, 0x64u8]
}

/// `.jsonl`
pub open spec fn ext_jsonl() -> Seq<u8> {
    seq![0x2eu8, 0x6au8, 0x73u8, 0x6fu8, 0x6eu8, 0x6cu8]
}

/// The length of the compression extension (`.gz`, `.bz2`, `.zip`, in any case) that
/// the file name `s` ends with, or 0.
pub open spec fn compression_ext_len(s: Seq<u8>) -> int {
    if ends_with_ci(s, ext_gz()) {
        3
    } else if ends_with_ci(s, ext_bz2()) {
        4
    } else if ends_with_ci(s, ext_zip()) {
        4
    } else {
        0
    }
}

/// The length of the STDF extension (`.stdf`, `.std`, in any case) that `s` ends with, or 0.
pub open spec fn stdf_ext_len(s: Seq<u8>) -> int {
    if ends_with_ci(s, ext_stdf()) {
        5
    } else if ends_with_ci(s, ext_std()) {
        4
    } else {
        0
    }
}

/// The file name `s` without its compression extension.
pub open spec fn decompressed_name(s: Seq<u8>) -> Seq<u8> {
    s.take(s.len() - compression_ext_len(s))
}

/// The length of the stem of the file name `s`: the name without its compression
/// extension and then without its STDF extension.
pub open spec fn stem_len(s: Seq<u8>) -> int {
    decompressed_name(s).len() - stdf_ext_len(decompressed_name(s))
}

/// Whether the file name `s` is that of an STDF file: it ends with an STDF extension,
/// optionally followed by a compression extension.
pub open spec fn is_stdf_name(s: Seq<u8>) -> bool {
    stdf_ext_len(decompressed_name(s)) > 0
}

/// Whether the bytes `a` and `b` are the same, or the same ASCII letter in the two cases.
pub open spec fn same_ignoring_case(a: u8, b: u8) -> bool {
    ||| a == b
    ||| 0x41 <= a && a <= 0x5a && b == a + 32
    ||| 0x61 <= a && a <= 0x7a && a == b + 32
}

/// Whether `t` is `s` with any of its ASCII letters written in the other case.
pub open spec fn case_variant(s: Seq<u8>, t: Seq<u8>) -> bool {
    &&& s.len() == t.len()
    &&& forall|i: int| 0 <= i < s.len() ==> same_ignoring_case(#[trigger] s[i], t[i])
}

proof fn lemma_ends_with_ci_case_variant(s: Seq<u8>, t: Seq<u8>, ext: Seq<u8>)
    requires
        case_variant(s, t),
    ensures
        ends_with_ci(s, ext) == ends_with_ci(t, ext),
{
    if ext.len() <= s.len() {
        assert forall|i: int| 0 <= i < ext.len() implies lower_byte(#[trigger] s[s.len() - ext.len() + i])
            == lower_byte(t[t.len() - ext.len() + i]) by {
            let k = s.len() - ext.len() + i;
            assert(same_ignoring_case(s[k], t[k]));
        }
        if ends_with_ci(s, ext) {
            assert forall|i: int| 0 <= i < ext.len() implies lower_byte(#[trigger] t[t.len() - ext.len() + i])
                == ext[i] by {
                assert(lower_byte(s[s.len() - ext.len() + i]) == ext[i]);
            }
        }
        if ends_with_ci(t, ext) {
            assert forall|i: int| 0 <= i < ext.len() implies lower_byte(#[trigger] s[s.len() - ext.len() + i])
                == ext[i] by {
                assert(lower_byte(t[t.len() - ext.len() + i]) == ext[i]);
            }
        }
    }
}

/// STDF file names are recognised, and their extensions stripped, ignoring ASCII case:
/// writing any letter of a file name in the other case changes neither whether it is an
/// STDF file name, nor the length of its stem, nor that of its compression extension.
pub proof fn law_extensions_ignore_case(s: Seq<u8>, t: Seq<u8>)
    requires
        case_variant(s, t),
    ensures
        is_stdf_name(s) == is_stdf_name(t),
        stem_len(s) == stem_len(t),
        compression_ext_len(s) == compression_ext_len(t),
{
    lemma_ends_with_ci_case_variant(s, t, ext_gz());
    lemma_ends_with_ci_case_variant(s, t, ext_bz2());
    lemma_ends_with_ci_case_variant(s, t, ext_zip());
    let n = s.len() - compression_ext_len(s);
    let ds = decompressed_name(s);
    let dt = decompressed_name(t);
    assert(ds.len() == dt.len());
    assert forall|i: int| 0 <= i < ds.len() implies same_ignoring_case(#[trigger] ds[i], dt[i]) by {
        assert(ds[i] == s[i] && dt[i] == t[i]);
    }
    lemma_ends_with_ci_case_variant(ds, dt, ext_stdf());
    lemma_ends_with_ci_case_variant(ds, dt, ext_std());
}

/// A file name made of a stem, `.stdf` or `.std`, and optionally `.gz`, `.bz2` or `.zip`
/// (here in lowercase; any case by [`law_extensions_ignore_case`]) is an STDF file name,
/// and its stem is what comes before the STDF extension.
pub proof fn law_stdf_name_stem(x: Seq<u8>, e: Seq<u8>, c: Seq<u8>)
    requires
        e == seq![0x2eu8, 0x73u8, 0x74u8, 0x64u8, 0x66u8] || e == seq![0x2eu8, 0x73u8, 0x74u8, 0x64u8],
        c == Seq::<u8>::empty() || c == seq![0x2eu8, 0x67u8, 0x7au8] || c == seq![0x2eu8, 0x62u8, 0x7au8, 0x32u8]
            || c == seq![0x2eu8, 0x7au8, 0x69u8, 0x70u8],
    ensures
        is_stdf_name(x + e + c),
        stem_len(x + e + c) == x.len(),
{
    let s = x + e + c;
    let xe = x + e;
    assert(s.take(xe.len() as int) =~= xe);
    // which compression extension `s` ends with
    if c.len() == 0 {
        assert(s =~= xe);
        assert(!ends_with_ci(s, ext_gz())) by {
            assert(lower_byte(s[s.len() - 3 + 2]) != ext_gz()[2]);
        }
        assert(!ends_with_ci(s, ext_bz2())) by {
            assert(lower_byte(s[s.len() - 4 + 3]) != ext_bz2()[3]);
        }
        assert(!ends_with_ci(s, ext_zip())) by {
            assert(lower_byte(s[s.len() - 4 + 3]) != ext_zip()[3]);
        }
        assert(compression_ext_len(s) == 0);
    } else if c.len() == 3 {
        assert(ends_with_ci(s, ext_gz())) by {
            assert forall|i: int| 0 <= i < 3 implies lower_byte(#[trigger] s[s.len() - 3 + i]) == ext_gz()[i] by {
                assert(s[s.len() - 3 + i] == c[i]);
            }
        }
        assert(compression_ext_len(s) == 3);
    } else if c[1] == 0x62 {
        assert(!ends_with_ci(s, ext_gz())) by {
            assert(lower_byte(s[s.len() - 3 + 2]) != ext_gz()[2]);
        }
        assert(ends_with_ci(s, ext_bz2())) by {
            assert forall|i: int| 0 <= i < 4 implies lower_byte(#[trigger] s[s.len() - 4 + i]) == ext_bz2()[i] by {
                assert(s[s.len() - 4 + i] == c[i]);
            }
        }
        assert(compression_ext_len(s) == 4);
    } else {
        assert(!ends_with_ci(s, ext_gz())) by {
            assert(lower_byte(s[s.len() - 3 + 2]) != ext_gz()[2]);
        }
        assert(!ends_with_ci(s, ext_bz2())) by {
            assert(lower_byte(s[s.len() - 4 + 3]) != ext_bz2()[3]);
        }
        assert(ends_with_ci(s, ext_zip())) by {
            assert forall|i: int| 0 <= i < 4 implies lower_byte(#[trigger] s[s.len() - 4 + i]) == ext_zip()[i] by {
                assert(s[s.len() - 4 + i] == c[i]);
            }
        }
        assert(compression_ext_len(s) == 4);
    }
    assert(decompressed_name(s) =~= xe);
    if e.len() == 5 {
        assert(ends_with_ci(xe, ext_stdf())) by {
            assert forall|i: int| 0 <= i < 5 implies lower_byte(#[trigger] xe[xe.len() - 5 + i]) == ext_stdf()[i] by {
                assert(xe[xe.len() - 5 + i] == e[i]);
            }
        }
    } else {
        assert(!ends_with_ci(xe, ext_stdf())) by {
            if xe.len() >= 5 {
                assert(lower_byte(xe[xe.len() - 5 + 4]) != ext_stdf()[4]);
            }
        }
        assert(ends_with_ci(xe, ext_std())) by {
            assert forall|i: int| 0 <= i < 4 implies lower_byte(#[trigger] xe[xe.len() - 4 + i]) == ext_std()[i] by {
                assert(xe[xe.len() - 4 + i] == e[i]);
            }
        }
    }
}

/// The length of what comes before the components of the path `p`: a leading `/` (the
/// root), or a leading `.` that stands alone or before a `/` (the current folder).
pub open spec fn body_start(p: Seq<u8>) -> int {
    if p.len() > 0 && p[0] == 0x2f {
        1
    } else if p.len() > 0 && p[0] == 0x2e && (p.len() == 1 || p[1] == 0x2f) {
        1
    } else {
        0
    }
}

/// Where the last component of `p[..n]` starts: just after its last `/` at or after `b`,
/// or at `b`.
pub open spec fn component_start(p: Seq<u8>, b: int, n: int) -> int
    decreases n,
{
    if n <= b || n <= 0 {
        b
    } else if p[n - 1] == 0x2f {
        n
    } else {
        component_start(p, b, n - 1)
    }
}

/// The end of `p[..n]` once its trailing components that a path skips are dropped: the
/// empty ones that repeated and trailing `/` make, and `.`.
pub open spec fn trim_end(p: Seq<u8>, b: int, n: int) -> int
    decreases n,
{
    if n <= b || n <= 0 {
        n
    } else if p[n - 1] == 0x2f {
        trim_end(p, b, n - 1)
    } else if p[n - 1] == 0x2e && (n - 1 == b || p[n - 2] == 0x2f) {
        trim_end(p, b, n - 1)
    } else {
        n
    }
}

/// The position in `p` of the file name of the path `p`, as `Path::file_name` gives it:
/// its last component, once trailing `/` and `.` components are dropped, unless there is
/// none or it is `..`.
pub open spec fn file_name_range(p: Seq<u8>) -> Option<(int, int)> {
    let b = body_start(p);
    let t = trim_end(p, b, p.len() as int);
    let s = component_start(p, b, t);
    if t <= b || p.subrange(s, t) == seq![0x2eu8, 0x2eu8] {
        None
    } else {
        Some((s, t))
    }
}

/// The end of the parent of the path `p`, which has a file name at `s..`: what remains once
/// the file name, the `/` before it, and trailing skipped components are dropped.
pub open spec fn parent_end(p: Seq<u8>, s: int) -> int {
    let b = body_start(p);
    trim_end(p, b, if s > b { s - 1 } else { b })
}

/// `p` with `name` put in the place of its file name, as `Path::with_file_name` does when
/// `name` is relative: the file name, if there is one, is dropped with the `/` before it
/// and trailing skipped components, then `name` is added after a `/` unless what remains
/// is empty or ends with one.
pub open spec fn with_file_name(p: Seq<u8>, name: Seq<u8>) -> Seq<u8> {
    let base_end = match file_name_range(p) {
        Some(r) => parent_end(p, r.0),
        None => p.len() as int,
    };
    let sep: Seq<u8> = if base_end > 0 && p[base_end - 1] != 0x2f {
        seq![0x2fu8]
    } else {
        seq![]
    };
    p.take(base_end) + sep + name
}

/// The file name of the path `p`, empty when it has none.
pub open spec fn file_name(p: Seq<u8>) -> Seq<u8> {
    match file_name_range(p) {
        Some(r) => p.subrange(r.0, r.1),
        None => seq![],
    }
}

/// The default output path of the input path `p`: `p` with the stem of its file name,
/// followed by `.jsonl`, in the place of its file name.
pub open spec fn output_path_bytes(p: Seq<u8>) -> Seq<u8> {
    let f = file_name(p);
    with_file_name(p, f.take(stem_len(f)) + ext_jsonl())
}

/// Whether `s[..end]` ends with `ext`, ignoring ASCII case.
fn ends_with_ci_at(s: &[u8], end: usize, ext: &[u8]) -> (r: bool)
    requires
        end <= s@.len(),
    ensures
        r == ends_with_ci(s@.take(end as int), ext@),
{
    if ext.len() > end {
        return false;
    }
    let start = end - ext.len();
    let mut i: usize = 0;
    while i < ext.len()
        invariant
            start + ext@.len() == end,
            end <= s@.len(),
            i <= ext@.len(),
            forall|j: int| 0 <= j < i ==> lower_byte(#[trigger] s@.take(end as int)[start + j]) == ext@[j],
        decreases ext@.len() - i,
    {
        let b = s[start + i];
        let lower: u8 = if 0x41 <= b && b <= 0x5a {
            b + 32
        } else {
            b
        };
        if lower != ext[i] {
            assert(s@.take(end as int)[start + i] == b);
            assert(lower == lower_byte(b));
            assert(lower_byte(s@.take(end as int)[s@.take(end as int).len() - ext@.len() + i]) != ext@[i as int]);
            return false;
        }
        i = i + 1;
    }
    true
}

proof fn lemma_ends_with_dot(s: Seq<u8>, ext: Seq<u8>)
    requires
        ends_with_ci(s, ext),
        ext.len() > 0,
        ext[0] == 0x2e,
    ensures
        s[s.len() - ext.len()] == 0x2e,
{
    assert(lower_byte(s[s.len() - ext.len() + 0]) == ext[0]);
}

/// A position of a valid UTF-8 text that holds an ASCII byte, or its end, is between
/// two characters.
proof fn lemma_ascii_is_char_boundary(bs: Seq<u8>, k: int)
    requires
        valid_utf8(bs),
        0 <= k <= bs.len(),
        k < bs.len() ==> bs[k] < 0x80,
    ensures
        is_char_boundary(bs, k),
{
    if k == bs.len() {
        is_char_boundary_start_end_of_seq(bs);
    } else {
        is_char_boundary_iff_not_is_continuation_byte(bs, k);
    }
}

/// A valid UTF-8 text that starts with an ASCII byte has a character boundary after it.
proof fn lemma_boundary_after_first_ascii(bs: Seq<u8>)
    requires
        valid_utf8(bs),
        bs.len() >= 1,
        bs[0] < 0x80,
    ensures
        is_char_boundary(bs, 1),
{
    reveal_with_fuel(is_char_boundary, 2);
    reveal_with_fuel(valid_utf8, 2);
    assert(length_of_first_scalar(bs) == 1);
}

/// The file name without its compression and STDF extensions, and whether it is the name
/// of an STDF file: `a.stdf.gz` gives (`a`, true), `notes.txt` gives (`notes.txt`, false).
/// Extensions are matched ignoring ASCII case.
pub fn stem(name: &str) -> (r: (&str, bool))
    ensures
        r.0.spec_bytes() == name.spec_bytes().take(stem_len(name.spec_bytes())),
        r.1 == is_stdf_name(name.spec_bytes()),
{
    let b = name.as_bytes();
    let gz: [u8; 3] = [0x2e, 0x67, 0x7a];
    let bz2: [u8; 4] = [0x2e, 0x62, 0x7a, 0x32];
    let zip: [u8; 4] = [0x2e, 0x7a, 0x69, 0x70];
    let stdf: [u8; 5] = [0x2e, 0x73, 0x74, 0x64, 0x66];
    let std: [u8; 4] = [0x2e, 0x73, 0x74, 0x64];
    proof {
        assert(gz@ == ext_gz());
        assert(bz2@ == ext_bz2());
        assert(zip@ == ext_zip());
        assert(stdf@ == ext_stdf());
        assert(std@ == ext_std());
        assert(b@.take(b@.len() as int) =~= b@);
    }
    let len = b.len();
    let end: usize = if ends_with_ci_at(b, len, &gz) {
        len - 3
    } else if ends_with_ci_at(b, len, &bz2) {
        len - 4
    } else if ends_with_ci_at(b, len, &zip) {
        len - 4
    } else {
        len
    };
    let ghost dn = decompressed_name(b@);
    proof {
        assert(dn =~= b@.take(end as int));
        if end < len {
            if ends_with_ci(b@, ext_gz()) {
                lemma_ends_with_dot(b@, ext_gz());
            } else if ends_with_ci(b@, ext_bz2()) {
                lemma_ends_with_dot(b@, ext_bz2());
            } else {
                lemma_ends_with_dot(b@, ext_zip());
            }
        }
    }
    let (k, is_stdf): (usize, bool) = if ends_with_ci_at(b, end, &stdf) {
        proof {
            lemma_ends_with_dot(dn, ext_stdf());
        }
        (end - 5, true)
    } else if ends_with_ci_at(b, end, &std) {
        proof {
            lemma_ends_with_dot(dn, ext_std());
        }
        (end - 4, true)
    } else {
        (end, false)
    };
    proof {
        assert(k < len ==> b@[k as int] == 0x2e);
        lemma_ascii_is_char_boundary(b@, k as int);
    }
    let (head, _) = name.split_at(k);
    assert(head.spec_bytes() =~= b@.take(k as int));
    (head, is_stdf)
}

/// A position of a valid UTF-8 text next to an ASCII byte, or at either end, is between
/// two characters.
proof fn lemma_boundary_near_ascii(bs: Seq<u8>, k: int)
    requires
        valid_utf8(bs),
        0 <= k <= bs.len(),
        k == 0 || k == bs.len() || bs[k] < 0x80 || bs[k - 1] < 0x80,
    ensures
        is_char_boundary(bs, k),
{
    if k == 0 {
        is_char_boundary_start_end_of_seq(bs);
    } else if k == bs.len() || bs[k] < 0x80 {
        lemma_ascii_is_char_boundary(bs, k);
    } else {
        lemma_ascii_is_char_boundary(bs, k - 1);
        valid_utf8_split(bs, k - 1);
        let tail = bs.subrange(k - 1, bs.len() as int);
        lemma_boundary_after_first_ascii(tail);
        is_char_boundary_iff_not_is_continuation_byte(tail, 1);
        assert(tail[1] == bs[k]);
        is_char_boundary_iff_not_is_continuation_byte(bs, k);
    }
}

/// [`body_start`] of `p`.
fn body_start_of(p: &[u8]) -> (b: usize)
    ensures
        b == body_start(p@),
{
    if p.len() > 0 && p[0] == 0x2f {
        1
    } else if p.len() > 0 && p[0] == 0x2e && (p.len() == 1 || p[1] == 0x2f) {
        1
    } else {
        0
    }
}

/// [`component_start`] of `p[..n]`.
fn component_start_of(p: &[u8], b: usize, n: usize) -> (s: usize)
    requires
        b <= n <= p@.len(),
    ensures
        s == component_start(p@, b as int, n as int),
        b <= s <= n,
        s == b || p@[s - 1] == 0x2f,
        forall|i: int| s <= i < n ==> p@[i] != 0x2f,
{
    let mut m = n;
    while m > b && p[m - 1] != 0x2f
        invariant
            b <= m <= n <= p@.len(),
            component_start(p@, b as int, m as int) == component_start(p@, b as int, n as int),
            forall|i: int| m <= i < n ==> p@[i] != 0x2f,
        decreases m,
    {
        m = m - 1;
    }
    m
}

/// [`trim_end`] of `p[..n]`.
fn trim_end_of(p: &[u8], b: usize, n: usize) -> (t: usize)
    requires
        b <= n <= p@.len(),
    ensures
        t == trim_end(p@, b as int, n as int),
        b <= t <= n,
        t == n || p@[t as int] == 0x2f || p@[t as int] == 0x2e,
{
    let mut m = n;
    while m > b && (p[m - 1] == 0x2f || (p[m - 1] == 0x2e && (m - 1 == b || p[m - 2] == 0x2f)))
        invariant
            b <= m <= n <= p@.len(),
            trim_end(p@, b as int, m as int) == trim_end(p@, b as int, n as int),
            m == n || p@[m as int] == 0x2f || p@[m as int] == 0x2e,
        decreases m,
    {
        m = m - 1;
    }
    m
}

/// The end of what stays of the path `p` when its file name is replaced.
pub open spec fn base_end(p: Seq<u8>) -> int {
    match file_name_range(p) {
        Some(r) => parent_end(p, r.0),
        None => p.len() as int,
    }
}

/// [`file_name_range`] of `p`, with the facts that make its ends character boundaries.
fn file_name_range_of(p: &[u8]) -> (r: Option<(usize, usize)>)
    ensures
        r is None <==> file_name_range(p@) is None,
        r matches Some(x) ==> {
            &&& file_name_range(p@) == Some((x.0 as int, x.1 as int))
            &&& body_start(p@) <= x.0 <= x.1 <= p@.len()
            &&& (x.0 == 0 || p@[x.0 - 1] < 0x80)
            &&& (x.1 == p@.len() || p@[x.1 as int] < 0x80)
        },
{
    let n = p.len();
    let b = body_start_of(p);
    let t = trim_end_of(p, b, n);
    let s = component_start_of(p, b, t);
    let ghost ps = p@;
    if t <= b {
        return None;
    }
    let dotdot = t - s == 2 && p[s] == 0x2e && p[s + 1] == 0x2e;
    proof {
        if t - s == 2 {
            assert(dotdot == (ps.subrange(s as int, t as int) =~= seq![0x2eu8, 0x2eu8]));
        } else {
            assert(ps.subrange(s as int, t as int).len() != 2);
        }
    }
    if dotdot {
        None
    } else {
        Some((s, t))
    }
}

/// [`base_end`] of `p`, whose file name is at `r`, and a fact that makes it a character
/// boundary.
fn base_end_of(p: &[u8], r: Option<(usize, usize)>) -> (e: usize)
    requires
        r is None <==> file_name_range(p@) is None,
        r matches Some(x) ==> file_name_range(p@) == Some((x.0 as int, x.1 as int))
            && body_start(p@) <= x.0 <= x.1 <= p@.len(),
    ensures
        e == base_end(p@),
        e <= p@.len(),
        e == 0 || e == p@.len() || p@[e as int] < 0x80 || p@[e - 1] < 0x80,
{
    match r {
        None => p.len(),
        Some((s, t)) => {
            let b = body_start_of(p);
            let before = if s > b {
                s - 1
            } else {
                b
            };
            proof {
                assert(before == b || p@[before as int] == 0x2f) by {
                    if s > b {
                        lemma_component_start_facts(p@, b as int, t as int);
                    }
                }
            }
            trim_end_of(p, b, before)
        },
    }
}

proof fn lemma_component_start_facts(p: Seq<u8>, b: int, n: int)
    requires
        0 <= b <= n <= p.len(),
    ensures
        b <= component_start(p, b, n) <= n,
        component_start(p, b, n) == b || p[component_start(p, b, n) - 1] == 0x2f,
        forall|i: int| component_start(p, b, n) <= i < n ==> p[i] != 0x2f,
    decreases n,
{
    if n > b && n > 0 && p[n - 1] != 0x2f {
        lemma_component_start_facts(p, b, n - 1);
    }
}

proof fn lemma_trim_end_facts(p: Seq<u8>, b: int, n: int)
    requires
        0 <= b <= n <= p.len(),
    ensures
        b <= trim_end(p, b, n) <= n,
        trim_end(p, b, trim_end(p, b, n)) == trim_end(p, b, n),
        trim_end(p, b, n) > b ==> p[trim_end(p, b, n) - 1] != 0x2f,
        trim_end(p, b, n) < n ==> (p[trim_end(p, b, n)] == 0x2f || (p[trim_end(p, b, n)] == 0x2e && (
        trim_end(p, b, n) == b || p[trim_end(p, b, n) - 1] == 0x2f))),
    decreases n,
{
    if n > b && n > 0 {
        if p[n - 1] == 0x2f || (p[n - 1] == 0x2e && (n - 1 == b || p[n - 2] == 0x2f)) {
            lemma_trim_end_facts(p, b, n - 1);
        }
    }
}

proof fn lemma_trim_end_prefix(p: Seq<u8>, q: Seq<u8>, b: int, n: int)
    requires
        0 <= b <= n <= p.len(),
        n <= q.len(),
        p.take(n) == q.take(n),
    ensures
        trim_end(p, b, n) == trim_end(q, b, n),
    decreases n,
{
    if n > b && n > 0 {
        assert(p[n - 1] == p.take(n)[n - 1] && q[n - 1] == q.take(n)[n - 1]);
        if n >= 2 {
            assert(p[n - 2] == p.take(n)[n - 2] && q[n - 2] == q.take(n)[n - 2]);
        }
        assert(p.take(n - 1) =~= p.take(n).take(n - 1));
        assert(q.take(n - 1) =~= q.take(n).take(n - 1));
        lemma_trim_end_prefix(p, q, b, n - 1);
    }
}

proof fn lemma_component_start_in_name(p: Seq<u8>, b: int, s: int, n: int)
    requires
        0 <= b <= s <= n <= p.len(),
        s == b || p[s - 1] == 0x2f,
        forall|i: int| s <= i < n ==> p[i] != 0x2f,
    ensures
        component_start(p, b, n) == s,
    decreases n,
{
    if n > s {
        lemma_component_start_in_name(p, b, s, n - 1);
    }
}

proof fn lemma_stem_len_bounds(f: Seq<u8>)
    ensures
        0 <= stem_len(f) <= f.len(),
{
}

/// The output goes beside the input: the output path's file name is the stem of the
/// input's file name followed by `.jsonl`, and its parent is the input's parent (what
/// stays of the input path when its file name is dropped).
pub proof fn law_output_beside_input(p: Seq<u8>)
    requires
        file_name_range(p) is Some,
    ensures
        file_name_range(output_path_bytes(p)) is Some,
        file_name(output_path_bytes(p)) == file_name(p).take(stem_len(file_name(p))) + ext_jsonl(),
        output_path_bytes(p).take(base_end(output_path_bytes(p))) == p.take(base_end(p)),
{
    let b = body_start(p);
    let t = trim_end(p, b, p.len() as int);
    let r = file_name_range(p)->0;
    let s = r.0;
    lemma_trim_end_facts(p, b, p.len() as int);
    lemma_component_start_facts(p, b, t);
    assert(s == component_start(p, b, t) && r.1 == t);
    let f = file_name(p);
    lemma_stem_len_bounds(f);
    let name = f.take(stem_len(f)) + ext_jsonl();
    let before = if s > b { s - 1 } else { b };
    lemma_trim_end_facts(p, b, before);
    let e = base_end(p);
    assert(e == trim_end(p, b, before));
    let sep: Seq<u8> = if e > 0 && p[e - 1] != 0x2f { seq![0x2fu8] } else { seq![] };
    let out = output_path_bytes(p);
    assert(out == p.take(e) + sep + name);
    let k = e + sep.len();
    // The new name holds no `/` and ends with `l`.
    assert forall|i: int| k <= i < out.len() implies out[i] != 0x2f by {
        let j = i - k;
        if j < stem_len(f) {
            assert(out[i] == f[j]);
            assert(f[j] == p[s + j]);
        } else {
            assert(out[i] == ext_jsonl()[j - stem_len(f)]);
        }
    }
    assert(out[out.len() - 1] == 0x6c);
    // What comes before the components is the same in the input and the output.
    let bo = body_start(out);
    assert(bo == b || e == 0) by {
        if e >= 1 {
            assert(out[0] == p[0]);
            if e >= 2 {
                assert(out[1] == p[1]);
            } else if p.len() >= 2 && p[0] == 0x2e {
                assert(b == 1) by {
                    if e < before {
                        assert(p[1] == 0x2f || (p[1] == 0x2e && (1 == b || p[0] == 0x2f)));
                    } else if s > b {
                        assert(p[s - 1] == 0x2f);
                    }
                }
            }
        }
    }
    assert(e == 0 ==> b == 0 && sep.len() == 0);
    assert(e == 0 ==> bo == 0) by {
        if e == 0 {
            assert(out == name);
            if out.len() >= 2 {
                assert(out[1] != 0x2f);
            }
        }
    }
    assert(bo <= e);
    // No separator is added only after the root or at the start.
    assert(sep.len() == 0 ==> (e == 0 || (e == 1 && p[0] == 0x2f && b == 1))) by {
        if sep.len() == 0 && e > 0 {
            assert(p[e - 1] == 0x2f);
            if e > b {
                assert(p[e - 1] != 0x2f);
            }
        }
    }
    assert(trim_end(out, bo, out.len() as int) == out.len());
    assert(k == bo || out[k - 1] == 0x2f) by {
        if sep.len() > 0 {
            assert(out[k - 1] == 0x2f);
        }
    }
    lemma_component_start_in_name(out, bo, k, out.len() as int);
    assert(out.subrange(k, out.len() as int) =~= name);
    assert(name.len() >= 6);
    assert(name[name.len() - 1] == 0x6c);
    assert(out.subrange(k, out.len() as int) != seq![0x2eu8, 0x2eu8]) by {
        if out.subrange(k, out.len() as int) == seq![0x2eu8, 0x2eu8] {
            assert(name.len() == 2);
        }
    }
    assert(file_name_range(out) == Some((k, out.len() as int)));
    assert(file_name(out) =~= name);
    // The output's parent is the input's.
    let before_out = if k > bo { k - 1 } else { bo };
    assert(before_out == e) by {
        if sep.len() == 0 {
            assert(k == bo);
        }
    }
    assert(out.take(e) =~= p.take(e));
    lemma_trim_end_prefix(out, p, b, e);
    assert(base_end(out) == trim_end(out, bo, e));
    assert(base_end(out) == e);
}

/// Where the JSON Lines output of the input path `input` goes by default: the input's
/// file name replaced by its stem followed by `.jsonl`, as `Path::with_file_name` replaces
/// it (`lots/a.stdf.gz` gives `lots/a.jsonl`, `lots/a.stdf/` gives `lots/a.jsonl`). A path
/// without a file name gets `.jsonl` added as one.
pub fn output_path(input: &str) -> (out: String)
    ensures
        encode_utf8(out@) == output_path_bytes(input.spec_bytes()),
{
    let p = input.as_bytes();
    let ghost ps = p@;
    let ext = ".jsonl";
    let slash = "/";
    let empty = "";
    proof {
        reveal_strlit(".jsonl");
        reveal_strlit("/");
        reveal_strlit("");
        assert(is_ascii_chars(ext@));
        is_ascii_chars_encode_utf8(ext@);
        assert(ext.spec_bytes() =~= ext_jsonl());
        assert(is_ascii_chars(slash@));
        is_ascii_chars_encode_utf8(slash@);
        assert(slash.spec_bytes() =~= seq![0x2fu8]);
        assert(empty.spec_bytes() =~= Seq::<u8>::empty());
    }
    let range = file_name_range_of(p);
    let e = base_end_of(p, range);
    let st: &str = match range {
        None => {
            proof {
                assert(file_name(ps).take(stem_len(file_name(ps))) =~= Seq::<u8>::empty());
            }
            empty
        },
        Some((s, t)) => {
            proof {
                lemma_boundary_near_ascii(ps, s as int);
            }
            let (_, rest) = input.split_at(s);
            proof {
                assert(rest.spec_bytes() =~= ps.subrange(s as int, ps.len() as int));
                lemma_boundary_near_ascii(rest.spec_bytes(), (t - s) as int);
            }
            let (name, _) = rest.split_at(t - s);
            proof {
                assert(name.spec_bytes() =~= file_name(ps));
            }
            stem(name).0
        },
    };
    proof {
        lemma_boundary_near_ascii(ps, e as int);
    }
    let (base, _) = input.split_at(e);
    let mut out = base.to_owned();
    let need_sep = e > 0 && p[e - 1] != 0x2f;
    if need_sep {
        out.append(slash);
    }
    let ghost mid = out@;
    out.append(st);
    out.append(ext);
    proof {
        let sep: Seq<u8> = if need_sep {
            seq![0x2fu8]
        } else {
            seq![]
        };
        if need_sep {
            lemma_encode_utf8_concat(base@, slash@);
        }
        assert(encode_utf8(mid) == ps.take(e as int) + sep) by {
            assert(base.spec_bytes() =~= ps.take(e as int));
            if !need_sep {
                assert(ps.take(e as int) + sep =~= ps.take(e as int));
            }
        }
        lemma_encode_utf8_concat(mid, st@);
        lemma_encode_utf8_concat(mid + st@, ext@);
        let f = file_name(ps);
        assert(output_path_bytes(ps) == ps.take(e as int) + sep + (f.take(stem_len(f)) + ext_jsonl()));
        assert(encode_utf8(out@) =~= output_path_bytes(ps));
    }
    out
}

/// Whether the file name `s` starts with `._`, as the metadata files that some systems
/// leave beside each file do.
pub open spec fn is_metadata_name(s: Seq<u8>) -> bool {
    s.len() >= 2 && s[0] == 0x2e && s[1] == 0x5f
}

/// Whether a file found in a searched folder is converted: its name is that of an STDF
/// file, and not that of a metadata file.
pub fn is_stdf_input(name: &str) -> (b: bool)
    ensures
        b == (is_stdf_name(name.spec_bytes()) && !is_metadata_name(name.spec_bytes())),
{
    let bytes = name.as_bytes();
    let metadata = bytes.len() >= 2 && bytes[0] == 0x2e && bytes[1] == 0x5f;
    stem(name).1 && !metadata
}

/// The exit status of a run that found `found` files to convert, of which `failed`
/// failed: 1 when no file was found or any failed, 0 otherwise.
pub fn exit_code(found: usize, failed: usize) -> (code: i32)
    ensures
        code == (if found == 0 || failed > 0 {
            1i32
        } else {
            0i32
        }),
{
    if found == 0 || failed > 0 {
        1
    } else {
        0
    }
}

} // verus!
