//! Region Lister: parses a process's memory-map description into typed
//! region records.
//!
//! A map line reads `"<hex-start>-<hex-end> <perms> ... [pathname]"`;
//! fields are separated by whitespace, and the sixth and later fields,
//! re-joined with single spaces, form the optional pathname.

use vstd::prelude::*;
use crate::errors::{SearchError, SearchErrorV};
use crate::extract::copy_range;

verus! {

/// One mapped range of a process's address space.  `start` is inclusive,
/// `end` exclusive; `permissions` is the raw permission field;
/// `pathname` is the optional backing-object name.
#[derive(Debug)]
pub struct MemoryRegion {
    pub start: u64,
    pub end: u64,
    pub permissions: Vec<u8>,
    pub pathname: Option<Vec<u8>>,
}

/// The spec-level image of a `MemoryRegion`.
#[verifier::ext_equal]
pub struct RegionV {
    pub start: u64,
    pub end: u64,
    pub permissions: Seq<u8>,
    pub pathname: Option<Seq<u8>>,
}

impl View for MemoryRegion {
    type V = RegionV;

    open spec fn view(&self) -> RegionV {
        RegionV {
            start: self.start,
            end: self.end,
            permissions: self.permissions@,
            pathname: match self.pathname {
                Some(ref p) => Some(p@),
                None => None,
            },
        }
    }
}

/// The region invariant: a region spans at least one byte.
pub open spec fn region_wf(r: RegionV) -> bool {
    r.start < r.end
}

/// ASCII whitespace, the field separator of a map line.
pub open spec fn spec_is_space(b: u8) -> bool {
    b == 0x20 || (0x09 <= b <= 0x0d)
}

/// Length of the whitespace-free field starting at index `i` of `s`.
pub open spec fn field_len_at(s: Seq<u8>, i: int) -> nat
    decreases s.len() - i,
    when 0 <= i <= s.len()
{
    if i >= s.len() || spec_is_space(s[i]) {
        0
    } else {
        (1 + field_len_at(s, i + 1)) as nat
    }
}

/// The whitespace-separated fields of `s` at or after position `i`, as
/// `(offset, length)` pairs.
pub open spec fn spec_fields_from(s: Seq<u8>, i: int) -> Seq<(int, int)>
    decreases s.len() - i,
    when 0 <= i <= s.len()
{
    if i >= s.len() {
        Seq::empty()
    } else if spec_is_space(s[i]) {
        spec_fields_from(s, i + 1)
    } else {
        let l = field_len_at(s, i) as int;
        let tail: Seq<(int, int)> = if i + l + 1 <= s.len() {
            spec_fields_from(s, i + l + 1)
        } else {
            Seq::empty()
        };
        seq![(i, l)] + tail
    }
}

/// The whitespace-separated fields of `s`.
pub open spec fn spec_fields(s: Seq<u8>) -> Seq<(int, int)> {
    spec_fields_from(s, 0)
}

/// The bytes of one field.
pub open spec fn field_seq(s: Seq<u8>, t: (int, int)) -> Seq<u8> {
    s.subrange(t.0, t.0 + t.1)
}

/// A field span of a map line, as offset and length within the line.
pub struct Span {
    pub offset: usize,
    pub len: usize,
}

impl View for Span {
    type V = (int, int);

    open spec fn view(&self) -> (int, int) {
        (self.offset as int, self.len as int)
    }
}

proof fn lemma_field_len_at(s: Seq<u8>, i: int)
    requires
        0 <= i <= s.len(),
    ensures
        i + field_len_at(s, i) <= s.len(),
    decreases s.len() - i,
{
    if i < s.len() && !spec_is_space(s[i]) {
        lemma_field_len_at(s, i + 1);
    }
}

/// Every listed field lies inside `s`.
pub proof fn lemma_fields_from_bounds(s: Seq<u8>, i: int)
    requires
        0 <= i <= s.len(),
    ensures
        forall|k: int|
            0 <= k < spec_fields_from(s, i).len() ==> {
                let t = #[trigger] spec_fields_from(s, i)[k];
                i <= t.0 && t.1 >= 1 && t.0 + t.1 <= s.len()
            },
    decreases s.len() - i,
{
    if i >= s.len() {
    } else if spec_is_space(s[i]) {
        lemma_fields_from_bounds(s, i + 1);
        assert forall|k: int| 0 <= k < spec_fields_from(s, i).len() implies {
            let t = #[trigger] spec_fields_from(s, i)[k];
            i <= t.0 && t.1 >= 1 && t.0 + t.1 <= s.len()
        } by {
            assert(spec_fields_from(s, i)[k] == spec_fields_from(s, i + 1)[k]);
        }
    } else {
        let l = field_len_at(s, i) as int;
        lemma_field_len_at(s, i);
        let tail: Seq<(int, int)> = if i + l + 1 <= s.len() {
            spec_fields_from(s, i + 1 + l)
        } else {
            Seq::empty()
        };
        if i + l + 1 <= s.len() {
            lemma_fields_from_bounds(s, i + l + 1);
        }
        assert(spec_fields_from(s, i) == seq![(i, l)] + tail);
        assert forall|k: int| 0 <= k < spec_fields_from(s, i).len() implies {
            let t = #[trigger] spec_fields_from(s, i)[k];
            i <= t.0 && t.1 >= 1 && t.0 + t.1 <= s.len()
        } by {
            if k > 0 {
                assert(spec_fields_from(s, i)[k] == tail[k - 1]);
            }
        }
    }
}

/// Splits `line` into its whitespace-separated fields, in order.
pub fn split_fields(line: &Vec<u8>) -> (fields: Vec<Span>)
    ensures
        fields@.map_values(|t: Span| t@) == spec_fields(line@),
        forall|k: int|
            0 <= k < fields@.len() ==> (#[trigger] fields@[k]).len >= 1 && fields@[k].offset
                + fields@[k].len <= line@.len(),
{
    let ghost s = line@;
    let ghost total = spec_fields(line@);
    let mut fields: Vec<Span> = Vec::new();
    let mut i: usize = 0;
    while i < line.len()
        invariant
            0 <= i <= line.len(),
            s == line@,
            total == spec_fields(line@),
            fields@.map_values(|t: Span| t@) + spec_fields_from(s, i as int) == total,
            forall|k: int|
                0 <= k < fields@.len() ==> (#[trigger] fields@[k]).len >= 1 && fields@[k].offset
                    + fields@[k].len <= line@.len(),
        decreases line@.len() - i,
    {
        let start = i;
        while i < line.len() && !is_space(line[i])
            invariant
                start <= i <= line.len(),
                s == line@,
                field_len_at(s, start as int) == (i - start) + field_len_at(s, i as int),
            decreases line@.len() - i,
        {
            i = i + 1;
        }
        proof {
            assert(field_len_at(s, i as int) == 0);
            assert(field_len_at(s, start as int) == i - start);
        }
        let ghost before = fields@.map_values(|t: Span| t@);
        if i > start {
            fields.push(Span { offset: start, len: i - start });
            proof {
                assert(fields@.map_values(|t: Span| t@) =~= before.push(
                    (start as int, (i - start) as int),
                ));
            }
        }
        proof {
            if i == start {
                assert(spec_fields_from(s, start as int) == spec_fields_from(s, start + 1));
            } else {
                let l = field_len_at(s, start as int) as int;
                assert(!spec_is_space(s[start as int]));
                let tail: Seq<(int, int)> = if start + l + 1 <= s.len() {
                    spec_fields_from(s, start + l + 1)
                } else {
                    Seq::empty()
                };
                assert(spec_fields_from(s, start as int) == seq![(start as int, l)] + tail);
                assert(fields@.map_values(|t: Span| t@) =~= before + seq![(start as int, l)]);
                assert((before + seq![(start as int, l)]) + tail =~= before + (seq![
                    (start as int, l),
                ] + tail));
                if i < line.len() {
                    assert(tail == spec_fields_from(s, i as int + 1));
                } else {
                    assert(tail =~= Seq::<(int, int)>::empty());
                    assert(spec_fields_from(s, i as int) =~= Seq::<(int, int)>::empty());
                }
                assert(fields@.map_values(|t: Span| t@) + (if i < line.len() {
                    spec_fields_from(s, i as int + 1)
                } else {
                    spec_fields_from(s, i as int)
                }) =~= before + spec_fields_from(s, start as int));
            }
        }
        if i < line.len() {
            i = i + 1;
        }
    }
    proof {
        assert(spec_fields_from(s, i as int) =~= Seq::<(int, int)>::empty());
        assert(fields@.map_values(|t: Span| t@) =~= total);
    }
    fields
}

fn is_space(b: u8) -> (r: bool)
    ensures
        r == spec_is_space(b),
{
    b == 0x20 || (0x09 <= b && b <= 0x0d)
}

/// The value of one ASCII hexadecimal digit, or -1 for any other byte.
pub open spec fn spec_hex_digit(b: u8) -> int {
    if 0x30 <= b <= 0x39 {
        b - 0x30
    } else if 0x61 <= b <= 0x66 {
        b - 0x57
    } else if 0x41 <= b <= 0x46 {
        b - 0x37
    } else {
        -1
    }
}

/// Whether every byte of `s` is a hexadecimal digit.
pub open spec fn spec_hex_all_digits(s: Seq<u8>) -> bool {
    forall|i: int| 0 <= i < s.len() ==> spec_hex_digit(#[trigger] s[i]) >= 0
}

/// The value of `s` read as a base-16 numeral.
pub open spec fn spec_hex_value(s: Seq<u8>) -> int
    decreases s.len(),
{
    if s.len() == 0 {
        0
    } else {
        spec_hex_value(s.drop_last()) * 16 + spec_hex_digit(s.last())
    }
}

/// What parsing `s` as an unsigned 64-bit hexadecimal numeral yields:
/// its value, if `s` is a nonempty all-hex numeral whose value fits.
pub open spec fn spec_hex_u64(s: Seq<u8>) -> Option<u64> {
    if s.len() >= 1 && spec_hex_all_digits(s) && spec_hex_value(s) <= u64::MAX {
        Some(spec_hex_value(s) as u64)
    } else {
        None
    }
}

proof fn lemma_hex_value_nonneg(s: Seq<u8>)
    requires
        spec_hex_all_digits(s),
    ensures
        spec_hex_value(s) >= 0,
    decreases s.len(),
{
    if s.len() > 0 {
        let t = s.drop_last();
        assert forall|i: int| 0 <= i < t.len() implies spec_hex_digit(#[trigger] t[i]) >= 0 by {
            assert(t[i] == s[i]);
        }
        lemma_hex_value_nonneg(t);
    }
}

proof fn lemma_hex_value_prefix_le(s: Seq<u8>, k: int)
    requires
        spec_hex_all_digits(s),
        0 <= k <= s.len(),
    ensures
        0 <= spec_hex_value(s.take(k)) <= spec_hex_value(s),
    decreases s.len(),
{
    assert forall|i: int| 0 <= i < k implies spec_hex_digit(#[trigger] s.take(k)[i]) >= 0 by {
        assert(s.take(k)[i] == s[i]);
    }
    lemma_hex_value_nonneg(s.take(k));
    if k < s.len() {
        let t = s.drop_last();
        assert forall|i: int| 0 <= i < t.len() implies spec_hex_digit(#[trigger] t[i]) >= 0 by {
            assert(t[i] == s[i]);
        }
        lemma_hex_value_prefix_le(t, k);
        assert(t.take(k) =~= s.take(k));
        lemma_hex_value_nonneg(s);
        assert(spec_hex_value(s) == spec_hex_value(t) * 16 + spec_hex_digit(s.last()));
        assert(spec_hex_value(t) * 16 >= spec_hex_value(t)) by (nonlinear_arith)
            requires
                spec_hex_value(t) >= 0;
    } else {
        assert(s.take(k) =~= s);
    }
}

fn hex_digit(b: u8) -> (r: Option<u8>)
    ensures
        match r {
            Some(d) => spec_hex_digit(b) == d,
            None => spec_hex_digit(b) < 0,
        },
{
    if 0x30 <= b && b <= 0x39 {
        Some(b - 0x30)
    } else if 0x61 <= b && b <= 0x66 {
        Some(b - 0x57)
    } else if 0x41 <= b && b <= 0x46 {
        Some(b - 0x37)
    } else {
        None
    }
}

/// Parses the byte range `[from, to)` of `line` as an unsigned 64-bit
/// hexadecimal numeral.
pub fn parse_hex_u64(line: &Vec<u8>, from: usize, to: usize) -> (r: Option<u64>)
    requires
        from <= to <= line@.len(),
    ensures
        r == spec_hex_u64(line@.subrange(from as int, to as int)),
{
    let ghost f = line@.subrange(from as int, to as int);
    if from == to {
        return None;
    }
    let mut acc: u64 = 0;
    let mut j: usize = from;
    while j < to
        invariant
            from <= j <= to <= line@.len(),
            f == line@.subrange(from as int, to as int),
            spec_hex_all_digits(f.take(j - from)),
            acc as int == spec_hex_value(f.take(j - from)),
        decreases to - j,
    {
        let ghost prefix = f.take(j - from);
        let d = match hex_digit(line[j]) {
            Some(d) => d,
            None => {
                proof {
                    assert(f[j - from] == line@[j as int]);
                    assert(spec_hex_digit(f[j - from]) < 0);
                    assert(!spec_hex_all_digits(f));
                }
                return None;
            },
        };
        proof {
            assert(f.take(j + 1 - from).drop_last() =~= prefix);
            assert(f.take(j + 1 - from).last() == f[j - from]);
            assert(f[j - from] == line@[j as int]);
            assert(spec_hex_value(f.take(j + 1 - from)) == acc as int * 16 + d);
            assert forall|i: int| 0 <= i < j + 1 - from implies spec_hex_digit(
                #[trigger] f.take(j + 1 - from)[i],
            ) >= 0 by {
                if i < j - from {
                    assert(f.take(j + 1 - from)[i] == prefix[i]);
                }
            }
        }
        if acc > (u64::MAX - (d as u64)) / 16 {
            proof {
                lemma_fundamental_div_mod_u64_16((u64::MAX - (d as u64)) as u64);
                assert(acc as int * 16 + d > u64::MAX);
                if spec_hex_all_digits(f) {
                    lemma_hex_value_prefix_le(f, j + 1 - from);
                    assert(spec_hex_value(f) >= spec_hex_value(f.take(j + 1 - from)));
                }
                assert(spec_hex_u64(f) is None);
            }
            return None;
        }
        proof {
            lemma_fundamental_div_mod_u64_16((u64::MAX - (d as u64)) as u64);
        }
        acc = acc * 16 + (d as u64);
        j = j + 1;
    }
    proof {
        assert(f.take(to - from) =~= f);
    }
    Some(acc)
}

proof fn lemma_fundamental_div_mod_u64_16(x: u64)
    ensures
        16 * ((x as int) / 16) <= x,
        x < 16 * ((x as int) / 16) + 16,
{
    vstd::arithmetic::div_mod::lemma_fundamental_div_mod(x as int, 16);
    vstd::arithmetic::div_mod::lemma_mod_division_less_than_divisor(x as int, 16);
}

/// The index of the first `-` at or after position `i` of `f`, or
/// `f.len()` if there is none.
pub open spec fn first_dash_from(f: Seq<u8>, i: int) -> int
    decreases f.len() - i,
    when 0 <= i <= f.len()
{
    if i >= f.len() {
        f.len() as int
    } else if f[i] == 0x2d {
        i
    } else {
        first_dash_from(f, i + 1)
    }
}

proof fn lemma_first_dash_bounds(f: Seq<u8>, i: int)
    requires
        0 <= i <= f.len(),
    ensures
        i <= first_dash_from(f, i) <= f.len(),
        first_dash_from(f, i) < f.len() ==> f[first_dash_from(f, i)] == 0x2d,
    decreases f.len() - i,
{
    if i < f.len() && f[i] != 0x2d {
        lemma_first_dash_bounds(f, i + 1);
    }
}

/// Finds the first `-` in the byte range `[from, to)` of `line`,
/// returning its index relative to `from` (or `to - from` if none).
fn find_dash(line: &Vec<u8>, from: usize, to: usize) -> (d: usize)
    requires
        from <= to <= line@.len(),
    ensures
        d == first_dash_from(line@.subrange(from as int, to as int), 0),
{
    let ghost f = line@.subrange(from as int, to as int);
    let mut j: usize = from;
    while j < to
        invariant
            from <= j <= to <= line@.len(),
            f == line@.subrange(from as int, to as int),
            first_dash_from(f, 0) == first_dash_from(f, j - from),
        decreases to - j,
    {
        if line[j] == 0x2d {
            proof {
                assert(f[j - from] == line@[j as int]);
            }
            return j - from;
        }
        proof {
            assert(f[j - from] == line@[j as int]);
            assert(first_dash_from(f, j - from) == first_dash_from(f, j + 1 - from));
        }
        j = j + 1;
    }
    to - from
}

/// The sixth and later fields of a map line, re-joined with single
/// spaces: the fields with index below `n`, starting at field 5.
pub open spec fn spec_join_upto(s: Seq<u8>, toks: Seq<(int, int)>, n: int) -> Seq<u8>
    decreases n,
    when n >= 5
{
    if n <= 5 {
        Seq::empty()
    } else if n == 6 {
        field_seq(s, toks[5])
    } else {
        spec_join_upto(s, toks, n - 1) + seq![0x20u8] + field_seq(s, toks[n - 1])
    }
}

/// Whether a map line is well formed: at least two fields, a dash in the
/// first field, valid 64-bit hex on both sides of it, and a nonempty
/// address range.
pub open spec fn spec_line_ok(s: Seq<u8>) -> bool {
    let toks = spec_fields(s);
    &&& toks.len() >= 2
    &&& {
        let f = field_seq(s, toks[0]);
        let d1 = first_dash_from(f, 0);
        &&& d1 < f.len()
        &&& spec_hex_u64(f.subrange(0, d1)) is Some
        &&& spec_hex_u64(f.subrange(d1 + 1, first_dash_from(f, d1 + 1))) is Some
        &&& spec_hex_u64(f.subrange(0, d1))->Some_0 < spec_hex_u64(
            f.subrange(d1 + 1, first_dash_from(f, d1 + 1)),
        )->Some_0
    }
}

/// The region a well-formed map line denotes.
pub open spec fn spec_line_region(s: Seq<u8>) -> RegionV {
    let toks = spec_fields(s);
    let f = field_seq(s, toks[0]);
    let d1 = first_dash_from(f, 0);
    RegionV {
        start: spec_hex_u64(f.subrange(0, d1))->Some_0,
        end: spec_hex_u64(f.subrange(d1 + 1, first_dash_from(f, d1 + 1)))->Some_0,
        permissions: field_seq(s, toks[1]),
        pathname: if toks.len() >= 6 {
            Some(spec_join_upto(s, toks, toks.len() as int))
        } else {
            None
        },
    }
}

/// The error an ill-formed map line draws: a missing field or dash (or an
/// empty address range) is a line-shape failure; a bad numeral names the
/// offending bytes.
pub open spec fn spec_line_error(s: Seq<u8>) -> SearchErrorV {
    let toks = spec_fields(s);
    if toks.len() < 2 {
        SearchErrorV::ParseLine
    } else {
        let f = field_seq(s, toks[0]);
        let d1 = first_dash_from(f, 0);
        if d1 >= f.len() {
            SearchErrorV::ParseLine
        } else if spec_hex_u64(f.subrange(0, d1)) is None {
            SearchErrorV::ParseInt { val: f.subrange(0, d1) }
        } else if spec_hex_u64(f.subrange(d1 + 1, first_dash_from(f, d1 + 1))) is None {
            SearchErrorV::ParseInt { val: f.subrange(d1 + 1, first_dash_from(f, d1 + 1)) }
        } else {
            SearchErrorV::ParseLine
        }
    }
}

/// Parses one line of a memory-map description into a region record.
pub fn parse_maps_line(line: &Vec<u8>) -> (r: Result<MemoryRegion, SearchError>)
    ensures
        match r {
            Ok(region) => spec_line_ok(line@) && region@ == spec_line_region(line@) && region_wf(
                region@,
            ),
            Err(e) => !spec_line_ok(line@) && e@ == spec_line_error(line@),
        },
{
    let ghost s = line@;
    let fields = split_fields(line);
    if fields.len() < 2 {
        return Err(SearchError::ParseLine);
    }
    proof {
        assert(line.len() == line@.len());
        assert(fields@[0].len >= 1 && fields@[0].offset + fields@[0].len <= line@.len());
        assert(fields@[1].len >= 1 && fields@[1].offset + fields@[1].len <= line@.len());
    }
    let a_off = fields[0].offset;
    let a_len = fields[0].len;
    let ghost f = field_seq(s, spec_fields(s)[0]);
    proof {
        assert(fields@.map_values(|t: Span| t@)[0] == spec_fields(s)[0]);
        assert(f =~= s.subrange(a_off as int, a_off + a_len));
    }
    let d1 = find_dash(line, a_off, a_off + a_len);
    proof {
        lemma_first_dash_bounds(f, 0);
    }
    if d1 >= a_len {
        return Err(SearchError::ParseLine);
    }
    let ghost gd1 = first_dash_from(f, 0);
    let d2 = find_dash(line, a_off + d1 + 1, a_off + a_len);
    proof {
        assert(f.subrange(gd1 + 1, f.len() as int) =~= s.subrange(
            a_off + d1 + 1,
            a_off + a_len,
        ));
        lemma_first_dash_tail(f, gd1 + 1);
        lemma_first_dash_bounds(f, gd1 + 1);
        assert(first_dash_from(f, gd1 + 1) - (gd1 + 1) == first_dash_from(
            f.subrange(gd1 + 1, f.len() as int),
            0,
        ));
        assert(d2 == first_dash_from(f, gd1 + 1) - (gd1 + 1));
        assert(d2 <= a_len - d1 - 1);
    }
    let start = match parse_hex_u64(line, a_off, a_off + d1) {
        Some(v) => v,
        None => {
            proof {
                assert(s.subrange(a_off as int, a_off + d1) =~= f.subrange(0, gd1));
            }
            return Err(SearchError::ParseInt { val: copy_range(line, a_off, a_off + d1) });
        },
    };
    proof {
        assert(s.subrange(a_off as int, a_off + d1) =~= f.subrange(0, gd1));
    }
    let end = match parse_hex_u64(line, a_off + d1 + 1, a_off + d1 + 1 + d2) {
        Some(v) => v,
        None => {
            proof {
                assert(s.subrange(a_off + d1 + 1, a_off + d1 + 1 + d2) =~= f.subrange(
                    gd1 + 1,
                    first_dash_from(f, gd1 + 1),
                ));
            }
            return Err(
                SearchError::ParseInt {
                    val: copy_range(line, a_off + d1 + 1, a_off + d1 + 1 + d2),
                },
            );
        },
    };
    proof {
        assert(s.subrange(a_off + d1 + 1, a_off + d1 + 1 + d2) =~= f.subrange(
            gd1 + 1,
            first_dash_from(f, gd1 + 1),
        ));
    }
    if start >= end {
        return Err(SearchError::ParseLine);
    }
    let permissions = copy_range(line, fields[1].offset, fields[1].offset + fields[1].len);
    proof {
        assert(fields@.map_values(|t: Span| t@)[1] == spec_fields(s)[1]);
    }
    let pathname = if fields.len() >= 6 {
        proof {
            assert(line.len() == line@.len());
            assert(fields@[5].len >= 1 && fields@[5].offset + fields@[5].len <= line@.len());
        }
        let mut joined = copy_range(line, fields[5].offset, fields[5].offset + fields[5].len);
        proof {
            assert(fields@.map_values(|t: Span| t@)[5] == spec_fields(s)[5]);
            assert(joined@ =~= spec_join_upto(s, spec_fields(s), 6));
        }
        let mut k: usize = 6;
        while k < fields.len()
            invariant
                6 <= k <= fields@.len(),
                s == line@,
                fields@.map_values(|t: Span| t@) == spec_fields(s),
                forall|q: int|
                    0 <= q < fields@.len() ==> (#[trigger] fields@[q]).len >= 1 && fields@[q].offset
                        + fields@[q].len <= line@.len(),
                joined@ == spec_join_upto(s, spec_fields(s), k as int),
            decreases fields@.len() - k,
        {
            joined.push(0x20);
            let ghost with_space = joined@;
            proof {
                assert(line.len() == line@.len());
                assert(fields@[k as int].len >= 1 && fields@[k as int].offset + fields@[k as int].len
                    <= line@.len());
            }
            let fk_off = fields[k].offset;
            let fk_len = fields[k].len;
            let mut q: usize = fk_off;
            while q < fk_off + fk_len
                invariant
                    fk_off <= q <= fk_off + fk_len <= line@.len(),
                    line@.len() <= usize::MAX,
                    s == line@,
                    joined@ == with_space + s.subrange(fk_off as int, q as int),
                decreases fk_off + fk_len - q,
            {
                joined.push(line[q]);
                proof {
                    assert(joined@ =~= with_space + s.subrange(fk_off as int, q + 1));
                }
                q = q + 1;
            }
            proof {
                assert(fields@.map_values(|t: Span| t@)[k as int] == spec_fields(s)[k as int]);
                assert(joined@ =~= spec_join_upto(s, spec_fields(s), k as int) + seq![0x20u8]
                    + field_seq(s, spec_fields(s)[k as int]));
                assert(joined@ == spec_join_upto(s, spec_fields(s), k + 1));
            }
            k = k + 1;
        }
        Some(joined)
    } else {
        None
    };
    let region = MemoryRegion { start, end, permissions, pathname };
    proof {
        assert(region@ =~= spec_line_region(s));
    }
    Ok(region)
}

proof fn lemma_first_dash_tail(f: Seq<u8>, i: int)
    requires
        0 <= i <= f.len(),
    ensures
        first_dash_from(f, i) - i == first_dash_from(f.subrange(i, f.len() as int), 0),
    decreases f.len() - i,
{
    let t = f.subrange(i, f.len() as int);
    if i >= f.len() {
        assert(t.len() == 0);
    } else {
        lemma_first_dash_shift(f, i, i);
    }
}

proof fn lemma_first_dash_shift(f: Seq<u8>, base: int, j: int)
    requires
        0 <= base <= j <= f.len(),
    ensures
        first_dash_from(f, j) - base == first_dash_from(
            f.subrange(base, f.len() as int),
            j - base,
        ),
    decreases f.len() - j,
{
    let t = f.subrange(base, f.len() as int);
    if j >= f.len() {
    } else {
        assert(t[j - base] == f[j]);
        if f[j] != 0x2d {
            lemma_first_dash_shift(f, base, j + 1);
        }
    }
}

/// Parses a whole memory-map description, line by line, preserving map
/// order.  The first ill-formed line fails the parse with its error.
pub fn parse_memory_maps(lines: &Vec<Vec<u8>>) -> (r: Result<Vec<MemoryRegion>, SearchError>)
    ensures
        match r {
            Ok(regions) => {
                &&& forall|i: int| 0 <= i < lines@.len() ==> spec_line_ok(#[trigger] lines@[i]@)
                &&& regions@.len() == lines@.len()
                &&& forall|i: int|
                    0 <= i < lines@.len() ==> (#[trigger] regions@[i])@ == spec_line_region(
                        lines@[i]@,
                    ) && region_wf(regions@[i]@)
            },
            Err(e) => exists|k: int|
                {
                    &&& 0 <= k < lines@.len()
                    &&& !spec_line_ok(#[trigger] lines@[k]@)
                    &&& e@ == spec_line_error(lines@[k]@)
                    &&& forall|j: int| 0 <= j < k ==> spec_line_ok(#[trigger] lines@[j]@)
                },
        },
{
    let mut regions: Vec<MemoryRegion> = Vec::new();
    let mut i: usize = 0;
    while i < lines.len()
        invariant
            i <= lines@.len(),
            regions@.len() == i,
            forall|j: int| 0 <= j < i ==> spec_line_ok(#[trigger] lines@[j]@),
            forall|j: int|
                0 <= j < i ==> (#[trigger] regions@[j])@ == spec_line_region(lines@[j]@)
                    && region_wf(regions@[j]@),
        decreases lines@.len() - i,
    {
        match parse_maps_line(&lines[i]) {
            Ok(region) => {
                regions.push(region);
            },
            Err(e) => {
                proof {
                    let k = i as int;
                    assert(0 <= k < lines@.len() && !spec_line_ok(lines@[k]@) && e@
                        == spec_line_error(lines@[k]@) && forall|j: int|
                        0 <= j < k ==> spec_line_ok(#[trigger] lines@[j]@));
                }
                return Err(e);
            },
        }
        i = i + 1;
    }
    Ok(regions)
}

} // verus!
