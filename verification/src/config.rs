//! ScanConfig and the command-line surface: an optional explicit target
//! pid, a continuous-mode flag, the minimum run length, and the minimum
//! entropy threshold (held scaled by `ENTROPY_SCALE`, so a fractional
//! threshold like `5.0` becomes `5000000`).

use vstd::prelude::*;
use crate::errors::{ArgIssue, SearchError, SearchErrorV};

verus! {

/// Immutable parameters of one program invocation.
#[derive(Clone, Copy, Debug)]
pub struct ScanConfig {
    /// The one process to scan, or none to scan all visible processes.
    pub pid: Option<u32>,
    /// Whether to rescan forever, suppressing repeated findings.
    pub continuous: bool,
    /// The least length a printable run must have to be considered.
    pub min_length: usize,
    /// The least fixed-point entropy a run must score to be reported.
    pub min_entropy: u64,
}

/// The configuration used when no argument overrides it: all processes,
/// one-shot, runs of at least 8 bytes, entropy at least 5.0.
pub open spec fn spec_default_config() -> ScanConfig {
    ScanConfig { pid: None, continuous: false, min_length: 8, min_entropy: 5000000 }
}

/// The value of one ASCII decimal digit, or -1 for any other byte.
pub open spec fn spec_dec_digit(b: u8) -> int {
    if 0x30 <= b <= 0x39 {
        b - 0x30
    } else {
        -1
    }
}

/// Whether every byte of `s` is a decimal digit.
pub open spec fn spec_all_dec(s: Seq<u8>) -> bool {
    forall|i: int| 0 <= i < s.len() ==> spec_dec_digit(#[trigger] s[i]) >= 0
}

/// The value of `s` read as a base-10 numeral.
pub open spec fn spec_dec_value(s: Seq<u8>) -> int
    decreases s.len(),
{
    if s.len() == 0 {
        0
    } else {
        spec_dec_value(s.drop_last()) * 10 + spec_dec_digit(s.last())
    }
}

/// What parsing `s` as an unsigned 64-bit decimal numeral yields.
pub open spec fn spec_dec_u64(s: Seq<u8>) -> Option<u64> {
    if s.len() >= 1 && spec_all_dec(s) && spec_dec_value(s) <= u64::MAX {
        Some(spec_dec_value(s) as u64)
    } else {
        None
    }
}

/// What parsing `s` as an unsigned 32-bit decimal numeral yields.
pub open spec fn spec_dec_u32(s: Seq<u8>) -> Option<u32> {
    if s.len() >= 1 && spec_all_dec(s) && spec_dec_value(s) <= u32::MAX {
        Some(spec_dec_value(s) as u32)
    } else {
        None
    }
}

/// What parsing `s` as a usize decimal numeral yields.
pub open spec fn spec_dec_usize(s: Seq<u8>) -> Option<usize> {
    if s.len() >= 1 && spec_all_dec(s) && spec_dec_value(s) <= usize::MAX {
        Some(spec_dec_value(s) as usize)
    } else {
        None
    }
}

proof fn lemma_dec_value_nonneg(s: Seq<u8>)
    requires
        spec_all_dec(s),
    ensures
        spec_dec_value(s) >= 0,
    decreases s.len(),
{
    if s.len() > 0 {
        let t = s.drop_last();
        assert forall|i: int| 0 <= i < t.len() implies spec_dec_digit(#[trigger] t[i]) >= 0 by {
            assert(t[i] == s[i]);
        }
        lemma_dec_value_nonneg(t);
        assert(spec_dec_value(t) * 10 >= spec_dec_value(t)) by (nonlinear_arith)
            requires
                spec_dec_value(t) >= 0;
    }
}

proof fn lemma_dec_value_prefix_le(s: Seq<u8>, k: int)
    requires
        spec_all_dec(s),
        0 <= k <= s.len(),
    ensures
        0 <= spec_dec_value(s.take(k)) <= spec_dec_value(s),
    decreases s.len(),
{
    assert forall|i: int| 0 <= i < k implies spec_dec_digit(#[trigger] s.take(k)[i]) >= 0 by {
        assert(s.take(k)[i] == s[i]);
    }
    lemma_dec_value_nonneg(s.take(k));
    if k < s.len() {
        let t = s.drop_last();
        assert forall|i: int| 0 <= i < t.len() implies spec_dec_digit(#[trigger] t[i]) >= 0 by {
            assert(t[i] == s[i]);
        }
        lemma_dec_value_prefix_le(t, k);
        assert(t.take(k) =~= s.take(k));
        lemma_dec_value_nonneg(s);
        assert(spec_dec_value(t) * 10 >= spec_dec_value(t)) by (nonlinear_arith)
            requires
                spec_dec_value(t) >= 0;
    } else {
        assert(s.take(k) =~= s);
    }
}

fn dec_digit(b: u8) -> (r: Option<u8>)
    ensures
        match r {
            Some(d) => spec_dec_digit(b) == d,
            None => spec_dec_digit(b) < 0,
        },
{
    if 0x30 <= b && b <= 0x39 {
        Some(b - 0x30)
    } else {
        None
    }
}

proof fn lemma_div_mod_10(x: u64)
    ensures
        10 * ((x as int) / 10) <= x,
        x < 10 * ((x as int) / 10) + 10,
{
    vstd::arithmetic::div_mod::lemma_fundamental_div_mod(x as int, 10);
    vstd::arithmetic::div_mod::lemma_mod_division_less_than_divisor(x as int, 10);
}

/// Parses the byte range `[from, to)` of `arg` as an unsigned 64-bit
/// decimal numeral.
pub fn parse_dec_range(arg: &Vec<u8>, from: usize, to: usize) -> (r: Option<u64>)
    requires
        from <= to <= arg@.len(),
    ensures
        r == spec_dec_u64(arg@.subrange(from as int, to as int)),
{
    let ghost f = arg@.subrange(from as int, to as int);
    if from == to {
        return None;
    }
    let mut acc: u64 = 0;
    let mut j: usize = from;
    while j < to
        invariant
            from <= j <= to <= arg@.len(),
            f == arg@.subrange(from as int, to as int),
            spec_all_dec(f.take(j - from)),
            acc as int == spec_dec_value(f.take(j - from)),
        decreases to - j,
    {
        let ghost prefix = f.take(j - from);
        let d = match dec_digit(arg[j]) {
            Some(d) => d,
            None => {
                proof {
                    assert(f[j - from] == arg@[j as int]);
                    assert(!spec_all_dec(f));
                }
                return None;
            },
        };
        proof {
            assert(f.take(j + 1 - from).drop_last() =~= prefix);
            assert(f.take(j + 1 - from).last() == f[j - from]);
            assert(f[j - from] == arg@[j as int]);
            assert(spec_dec_value(f.take(j + 1 - from)) == acc as int * 10 + d);
            assert forall|i: int| 0 <= i < j + 1 - from implies spec_dec_digit(
                #[trigger] f.take(j + 1 - from)[i],
            ) >= 0 by {
                if i < j - from {
                    assert(f.take(j + 1 - from)[i] == prefix[i]);
                }
            }
        }
        if acc > (u64::MAX - (d as u64)) / 10 {
            proof {
                lemma_div_mod_10((u64::MAX - (d as u64)) as u64);
                assert(acc as int * 10 + d > u64::MAX);
                if spec_all_dec(f) {
                    lemma_dec_value_prefix_le(f, j + 1 - from);
                }
                assert(spec_dec_u64(f) is None);
            }
            return None;
        }
        proof {
            lemma_div_mod_10((u64::MAX - (d as u64)) as u64);
        }
        acc = acc * 10 + (d as u64);
        j = j + 1;
    }
    proof {
        assert(f.take(to - from) =~= f);
    }
    Some(acc)
}

/// Parses a whole argument as a u32 numeral, as a `--pid` value.
pub fn parse_dec_u32(arg: &Vec<u8>) -> (r: Option<u32>)
    ensures
        r == spec_dec_u32(arg@),
{
    proof {
        assert(arg@.subrange(0, arg@.len() as int) =~= arg@);
        if arg@.len() >= 1 && spec_all_dec(arg@) {
            lemma_dec_value_nonneg(arg@);
        }
    }
    match parse_dec_range(arg, 0, arg.len()) {
        Some(v) => if v <= 0xffffffffu64 {
            Some(v as u32)
        } else {
            None
        },
        None => None,
    }
}

/// Parses a whole argument as a usize numeral, as a `--minlength` value.
pub fn parse_dec_usize(arg: &Vec<u8>) -> (r: Option<usize>)
    ensures
        r == spec_dec_usize(arg@),
{
    proof {
        assert(arg@.subrange(0, arg@.len() as int) =~= arg@);
        if arg@.len() >= 1 && spec_all_dec(arg@) {
            lemma_dec_value_nonneg(arg@);
        }
    }
    match parse_dec_range(arg, 0, arg.len()) {
        Some(v) => if v <= usize::MAX as u64 {
            Some(v as usize)
        } else {
            None
        },
        None => None,
    }
}

/// Powers of ten up to one million, for fraction-digit padding.
pub open spec fn spec_pow10(n: nat) -> nat
    decreases n,
{
    if n == 0 {
        1
    } else {
        10 * spec_pow10((n - 1) as nat)
    }
}

/// The index of the first `.` at or after position `i` of `s`, or
/// `s.len()` if there is none.
pub open spec fn first_dot_from(s: Seq<u8>, i: int) -> int
    decreases s.len() - i,
    when 0 <= i <= s.len()
{
    if i >= s.len() {
        s.len() as int
    } else if s[i] == 0x2e {
        i
    } else {
        first_dot_from(s, i + 1)
    }
}

proof fn lemma_first_dot_bounds(s: Seq<u8>, i: int)
    requires
        0 <= i <= s.len(),
    ensures
        i <= first_dot_from(s, i) <= s.len(),
        first_dot_from(s, i) < s.len() ==> s[first_dot_from(s, i)] == 0x2e,
    decreases s.len() - i,
{
    if i < s.len() && s[i] != 0x2e {
        lemma_first_dot_bounds(s, i + 1);
    }
}

/// What parsing `s` as a decimal entropy threshold yields, already
/// scaled by `ENTROPY_SCALE` and truncated past the sixth fraction
/// digit.  An optional leading `-` clamps the threshold to zero, since
/// entropy is never negative.  The digits before and after one optional
/// `.` must be decimal, at least one digit must be present, and a
/// nonnegative value must fit the scaled 64-bit range.
pub open spec fn spec_entropy_arg(s: Seq<u8>) -> Option<u64> {
    let neg = s.len() > 0 && s[0] == 0x2d;
    let from: int = if neg {
        1
    } else {
        0
    };
    let dot = first_dot_from(s, from);
    let ipart = s.subrange(from, dot);
    let fpart = if dot < s.len() {
        s.subrange(dot + 1, s.len() as int)
    } else {
        Seq::empty()
    };
    if !spec_all_dec(ipart) || !spec_all_dec(fpart) || ipart.len() + fpart.len() < 1 {
        None
    } else if neg {
        Some(0u64)
    } else {
        let f6 = if fpart.len() >= 6 {
            fpart.take(6)
        } else {
            fpart
        };
        let scaled = spec_dec_value(ipart) * 1000000 + spec_dec_value(f6) * spec_pow10(
            (6 - f6.len()) as nat,
        );
        if scaled <= u64::MAX {
            Some(scaled as u64)
        } else {
            None
        }
    }
}

fn find_dot(arg: &Vec<u8>, from: usize, to: usize) -> (d: usize)
    requires
        from <= to <= arg@.len(),
        to == arg@.len(),
    ensures
        from <= d <= to,
        d as int == first_dot_from(arg@, from as int),
{
    proof {
        lemma_first_dot_bounds(arg@, from as int);
    }
    let mut j: usize = from;
    while j < to
        invariant
            from <= j <= to <= arg@.len(),
            to == arg@.len(),
            first_dot_from(arg@, from as int) == first_dot_from(arg@, j as int),
        decreases to - j,
    {
        if arg[j] == 0x2e {
            return j;
        }
        j = j + 1;
    }
    to
}

/// Parses a whole argument as an entropy threshold, as a `--minentropy`
/// value.
pub fn parse_entropy_arg(arg: &Vec<u8>) -> (r: Option<u64>)
    ensures
        r == spec_entropy_arg(arg@),
{
    let ghost s = arg@;
    let n = arg.len();
    let neg = n > 0 && arg[0] == 0x2d;
    let from: usize = if neg {
        1
    } else {
        0
    };
    let dot = find_dot(arg, from, n);
    let ghost ipart = s.subrange(from as int, dot as int);
    let ghost fpart: Seq<u8> = if (dot as int) < s.len() {
        s.subrange(dot as int + 1, s.len() as int)
    } else {
        Seq::empty()
    };
    // Validate the integer digits.
    let mut j: usize = from;
    while j < dot
        invariant
            from <= j <= dot <= n,
            n == s.len(),
            s == arg@,
            from as int == (if s.len() > 0 && s[0] == 0x2d {
                1int
            } else {
                0int
            }),
            dot as int == first_dot_from(s, from as int),
            ipart == s.subrange(from as int, dot as int),
            forall|q: int| 0 <= q < j - from ==> spec_dec_digit(#[trigger] ipart[q]) >= 0,
        decreases dot - j,
    {
        proof {
            assert(ipart[j - from] == s[j as int]);
        }
        if dec_digit(arg[j]).is_none() {
            proof {
                assert(!spec_all_dec(ipart));
            }
            return None;
        }
        j = j + 1;
    }
    // Validate the fraction digits.
    let fstart: usize = if dot < n {
        dot + 1
    } else {
        n
    };
    let mut q: usize = fstart;
    while q < n
        invariant
            fstart <= q <= n,
            n == s.len(),
            s == arg@,
            from as int == (if s.len() > 0 && s[0] == 0x2d {
                1int
            } else {
                0int
            }),
            dot as int == first_dot_from(s, from as int),
            from <= dot <= n,
            ipart == s.subrange(from as int, dot as int),
            dot < n ==> fstart == dot + 1,
            dot >= n ==> fstart == n,
            fpart == (if (dot as int) < s.len() {
                s.subrange(dot as int + 1, s.len() as int)
            } else {
                Seq::empty()
            }),
            forall|p: int| 0 <= p < q - fstart ==> spec_dec_digit(#[trigger] fpart[p]) >= 0,
        decreases n - q,
    {
        proof {
            assert(fpart[q - fstart] == s[q as int]);
        }
        if dec_digit(arg[q]).is_none() {
            proof {
                assert(!spec_all_dec(fpart));
            }
            return None;
        }
        q = q + 1;
    }
    proof {
        assert(spec_all_dec(ipart));
        assert(spec_all_dec(fpart));
    }
    if dot == from && fstart == n {
        // No digits at all.
        proof {
            assert(ipart.len() + fpart.len() == 0);
        }
        return None;
    }
    if neg {
        return Some(0);
    }
    // Integer part value, scaled; an empty integer part counts as zero.
    let ival: u64 = if from == dot {
        proof {
            assert(ipart.len() == 0);
            assert(spec_dec_value(ipart) == 0);
        }
        0
    } else {
        match parse_dec_range(arg, from, dot) {
            Some(v) => {
                proof {
                    lemma_dec_value_nonneg(ipart);
                }
                v
            },
            None => {
                proof {
                    // Digits are valid, so only overflow can have failed.
                    assert(spec_dec_value(ipart) > u64::MAX);
                    lemma_dec_value_nonneg(fpart);
                    let f6: Seq<u8> = if fpart.len() >= 6 {
                        fpart.take(6)
                    } else {
                        fpart
                    };
                    assert forall|p: int| 0 <= p < f6.len() implies spec_dec_digit(
                        #[trigger] f6[p],
                    ) >= 0 by {
                        assert(f6[p] == fpart[p]);
                    }
                    lemma_dec_value_nonneg(f6);
                    assert(spec_dec_value(ipart) * 1000000 >= spec_dec_value(ipart)) by (
                    nonlinear_arith)
                        requires
                            spec_dec_value(ipart) > 0;
                    assert(spec_dec_value(f6) * spec_pow10((6 - f6.len()) as nat) >= 0) by (
                    nonlinear_arith)
                        requires
                            spec_dec_value(f6) >= 0,
                            spec_pow10((6 - f6.len()) as nat) >= 0;
                }
                return None;
            },
        }
    };
    // Fraction value from the first six digits, padded to six.
    let fcount: usize = if n - fstart > 6 {
        6
    } else {
        n - fstart
    };
    let ghost f6: Seq<u8> = if fpart.len() >= 6 {
        fpart.take(6)
    } else {
        fpart
    };
    let mut fval: u64 = 0;
    let mut p: usize = 0;
    while p < fcount
        invariant
            0 <= p <= fcount <= 6,
            fstart + fcount <= n,
            n == s.len(),
            s == arg@,
            fcount == f6.len(),
            f6 == (if fpart.len() >= 6 {
                fpart.take(6)
            } else {
                fpart
            }),
            fpart == (if (dot as int) < s.len() {
                s.subrange(dot as int + 1, s.len() as int)
            } else {
                Seq::empty()
            }),
            dot < n ==> fstart == dot + 1,
            dot >= n ==> fstart == n,
            spec_all_dec(f6),
            fval as int == spec_dec_value(f6.take(p as int)),
            fval < 1000000,
        decreases fcount - p,
    {
        let ghost prefix = f6.take(p as int);
        let d = match dec_digit(arg[fstart + p]) {
            Some(d) => d,
            None => {
                proof {
                    assert(f6[p as int] == fpart[p as int]);
                    assert(fpart[p as int] == s[fstart + p]);
                    assert(false);
                }
                0
            },
        };
        proof {
            assert(f6.take(p + 1).drop_last() =~= prefix);
            assert(f6.take(p + 1).last() == f6[p as int]);
            assert(f6[p as int] == fpart[p as int]);
            assert(fpart[p as int] == s[fstart + p]);
            lemma_dec_value_prefix_le(f6, p + 1);
            lemma_dec_value_small(f6, p + 1);
            assert(spec_pow10(0) == 1);
            assert(spec_pow10(1) == 10);
            assert(spec_pow10(2) == 100);
            assert(spec_pow10(3) == 1000);
            assert(spec_pow10(4) == 10000);
            assert(spec_pow10(5) == 100000);
            assert(spec_pow10(6) == 1000000);
            assert(spec_pow10((p + 1) as nat) <= 1000000);
        }
        fval = fval * 10 + (d as u64);
        p = p + 1;
    }
    let scale: u64 = pow10_u64(6 - fcount);
    proof {
        assert(f6.take(fcount as int) =~= f6);
        lemma_dec_value_small(f6, f6.len() as int);
        assert(fval as int * spec_pow10((6 - fcount) as nat) < 1000000) by {
            lemma_pow10_bound(f6.len() as nat);
        }
    }
    let frac: u64 = fval * scale;
    if ival > (u64::MAX - frac) / 1000000 {
        proof {
            lemma_div_mod_1000000((u64::MAX - frac) as u64);
            assert(ival as int * 1000000 + frac > u64::MAX);
        }
        return None;
    }
    proof {
        lemma_div_mod_1000000((u64::MAX - frac) as u64);
    }
    Some(ival * 1000000 + frac)
}

proof fn lemma_div_mod_1000000(x: u64)
    ensures
        1000000 * ((x as int) / 1000000) <= x,
        x < 1000000 * ((x as int) / 1000000) + 1000000,
{
    vstd::arithmetic::div_mod::lemma_fundamental_div_mod(x as int, 1000000);
    vstd::arithmetic::div_mod::lemma_mod_division_less_than_divisor(x as int, 1000000);
}

/// A decimal numeral of `k` digits stays below ten to the `k`.
proof fn lemma_dec_value_small(s: Seq<u8>, k: int)
    requires
        spec_all_dec(s),
        0 <= k <= s.len(),
    ensures
        spec_dec_value(s.take(k)) < spec_pow10(k as nat),
    decreases k,
{
    if k == 0 {
        assert(s.take(0).len() == 0);
    } else {
        lemma_dec_value_small(s, k - 1);
        let t = s.take(k);
        assert(t.drop_last() =~= s.take(k - 1));
        assert(t.last() == s[k - 1]);
        assert(spec_dec_digit(s[k - 1]) <= 9);
        assert(spec_dec_value(s.take(k - 1)) * 10 + 9 < spec_pow10((k - 1) as nat) * 10) by (
        nonlinear_arith)
            requires
                spec_dec_value(s.take(k - 1)) < spec_pow10((k - 1) as nat);
        assert(spec_pow10(k as nat) == 10 * spec_pow10((k - 1) as nat));
    }
}

/// Padding a numeral of at most six digits to six scale units keeps it
/// below one million.
proof fn lemma_pow10_bound(k: nat)
    requires
        k <= 6,
    ensures
        spec_pow10(k) * spec_pow10((6 - k) as nat) == 1000000,
        forall|v: int|
            0 <= v < spec_pow10(k) ==> #[trigger] (v * spec_pow10((6 - k) as nat)) < 1000000,
    decreases k,
{
    assert(spec_pow10(0) == 1);
    assert(spec_pow10(1) == 10);
    assert(spec_pow10(2) == 100);
    assert(spec_pow10(3) == 1000);
    assert(spec_pow10(4) == 10000);
    assert(spec_pow10(5) == 100000);
    assert(spec_pow10(6) == 1000000);
    let w = spec_pow10((6 - k) as nat);
    if k == 0 {
        assert(spec_pow10(k) * w == 1000000);
    } else if k == 1 {
        assert(spec_pow10(k) * w == 1000000);
    } else if k == 2 {
        assert(spec_pow10(k) * w == 1000000);
    } else if k == 3 {
        assert(spec_pow10(k) * w == 1000000);
    } else if k == 4 {
        assert(spec_pow10(k) * w == 1000000);
    } else if k == 5 {
        assert(spec_pow10(k) * w == 1000000);
    } else {
        assert(spec_pow10(k) * w == 1000000);
    }
    assert(w >= 1);
    assert forall|v: int| 0 <= v < spec_pow10(k) implies #[trigger] (v * w) < 1000000 by {
        assert(v * w <= (spec_pow10(k) - 1) * w) by (nonlinear_arith)
            requires
                v <= spec_pow10(k) - 1,
                w >= 0;
        assert((spec_pow10(k) - 1) * w == spec_pow10(k) * w - w) by (nonlinear_arith);
        assert(spec_pow10(k) * w - w == 1000000 - w);
    }
}

fn pow10_u64(k: usize) -> (r: u64)
    requires
        k <= 6,
    ensures
        r as int == spec_pow10(k as nat),
        r >= 1,
{
    proof {
        assert(spec_pow10(0) == 1);
        assert(spec_pow10(1) == 10);
        assert(spec_pow10(2) == 100);
        assert(spec_pow10(3) == 1000);
        assert(spec_pow10(4) == 10000);
        assert(spec_pow10(5) == 100000);
        assert(spec_pow10(6) == 1000000);
    }
    if k == 0 {
        1
    } else if k == 1 {
        10
    } else if k == 2 {
        100
    } else if k == 3 {
        1000
    } else if k == 4 {
        10000
    } else if k == 5 {
        100000
    } else {
        1000000
    }
}

/// `"--pid"`
pub open spec fn flag_pid() -> Seq<u8> {
    seq![0x2du8, 0x2du8, 0x70u8, 0x69u8, 0x64u8]
}

/// `"--minlength"`
pub open spec fn flag_minlength() -> Seq<u8> {
    seq![0x2du8, 0x2du8, 0x6du8, 0x69u8, 0x6eu8, 0x6cu8, 0x65u8, 0x6eu8, 0x67u8, 0x74u8, 0x68u8]
}

/// `"--minentropy"`
pub open spec fn flag_minentropy() -> Seq<u8> {
    seq![
        0x2du8,
        0x2du8,
        0x6du8,
        0x69u8,
        0x6eu8,
        0x65u8,
        0x6eu8,
        0x74u8,
        0x72u8,
        0x6fu8,
        0x70u8,
        0x79u8,
    ]
}

/// `"--continuous"`
pub open spec fn flag_continuous() -> Seq<u8> {
    seq![
        0x2du8,
        0x2du8,
        0x63u8,
        0x6fu8,
        0x6eu8,
        0x74u8,
        0x69u8,
        0x6eu8,
        0x75u8,
        0x6fu8,
        0x75u8,
        0x73u8,
    ]
}

fn is_flag_pid(a: &Vec<u8>) -> (r: bool)
    ensures
        r == (a@ == flag_pid()),
{
    let r = a.len() == 5 && a[0] == 0x2d && a[1] == 0x2d && a[2] == 0x70 && a[3] == 0x69 && a[4]
        == 0x64;
    proof {
        if r {
            assert(a@ =~= flag_pid());
        }
    }
    r
}

fn is_flag_minlength(a: &Vec<u8>) -> (r: bool)
    ensures
        r == (a@ == flag_minlength()),
{
    let r = a.len() == 11 && a[0] == 0x2d && a[1] == 0x2d && a[2] == 0x6d && a[3] == 0x69 && a[4]
        == 0x6e && a[5] == 0x6c && a[6] == 0x65 && a[7] == 0x6e && a[8] == 0x67 && a[9] == 0x74
        && a[10] == 0x68;
    proof {
        if r {
            assert(a@ =~= flag_minlength());
        }
    }
    r
}

fn is_flag_minentropy(a: &Vec<u8>) -> (r: bool)
    ensures
        r == (a@ == flag_minentropy()),
{
    let r = a.len() == 12 && a[0] == 0x2d && a[1] == 0x2d && a[2] == 0x6d && a[3] == 0x69 && a[4]
        == 0x6e && a[5] == 0x65 && a[6] == 0x6e && a[7] == 0x74 && a[8] == 0x72 && a[9] == 0x6f
        && a[10] == 0x70 && a[11] == 0x79;
    proof {
        if r {
            assert(a@ =~= flag_minentropy());
        }
    }
    r
}

fn is_flag_continuous(a: &Vec<u8>) -> (r: bool)
    ensures
        r == (a@ == flag_continuous()),
{
    let r = a.len() == 12 && a[0] == 0x2d && a[1] == 0x2d && a[2] == 0x63 && a[3] == 0x6f && a[4]
        == 0x6e && a[5] == 0x74 && a[6] == 0x69 && a[7] == 0x6e && a[8] == 0x75 && a[9] == 0x6f
        && a[10] == 0x75 && a[11] == 0x73;
    proof {
        if r {
            assert(a@ =~= flag_continuous());
        }
    }
    r
}

/// What parsing an argument list yields, scanning left to right over a
/// running configuration: each flag consumes its value, an unknown flag
/// or a bad value fails with the offending argument.
pub open spec fn spec_parse_args_from(
    args: Seq<Seq<u8>>,
    i: int,
    acc: ScanConfig,
) -> Result<ScanConfig, SearchErrorV>
    decreases args.len() - i,
    when 0 <= i <= args.len()
{
    if i >= args.len() {
        Ok(acc)
    } else {
        let a = args[i];
        if a == flag_pid() {
            if i + 1 >= args.len() {
                Err(SearchErrorV::CliArgParse { arg: a, issue: ArgIssue::MissingValue })
            } else {
                match spec_dec_u32(args[i + 1]) {
                    Some(v) => spec_parse_args_from(
                        args,
                        i + 2,
                        ScanConfig { pid: Some(v), ..acc },
                    ),
                    None => Err(
                        SearchErrorV::CliArgParse {
                            arg: args[i + 1],
                            issue: ArgIssue::NotANumber,
                        },
                    ),
                }
            }
        } else if a == flag_minlength() {
            if i + 1 >= args.len() {
                Err(SearchErrorV::CliArgParse { arg: a, issue: ArgIssue::MissingValue })
            } else {
                match spec_dec_usize(args[i + 1]) {
                    Some(v) => spec_parse_args_from(
                        args,
                        i + 2,
                        ScanConfig { min_length: v, ..acc },
                    ),
                    None => Err(
                        SearchErrorV::CliArgParse {
                            arg: args[i + 1],
                            issue: ArgIssue::NotANumber,
                        },
                    ),
                }
            }
        } else if a == flag_minentropy() {
            if i + 1 >= args.len() {
                Err(SearchErrorV::CliArgParse { arg: a, issue: ArgIssue::MissingValue })
            } else {
                match spec_entropy_arg(args[i + 1]) {
                    Some(v) => spec_parse_args_from(
                        args,
                        i + 2,
                        ScanConfig { min_entropy: v, ..acc },
                    ),
                    None => Err(
                        SearchErrorV::CliArgParse {
                            arg: args[i + 1],
                            issue: ArgIssue::NotANumber,
                        },
                    ),
                }
            }
        } else if a == flag_continuous() {
            spec_parse_args_from(args, i + 1, ScanConfig { continuous: true, ..acc })
        } else {
            Err(SearchErrorV::CliArgParse { arg: a, issue: ArgIssue::UnexpectedArgument })
        }
    }
}

/// What a whole argument list (without the program name) yields.
pub open spec fn spec_parse_args(args: Seq<Seq<u8>>) -> Result<ScanConfig, SearchErrorV> {
    spec_parse_args_from(args, 0, spec_default_config())
}

/// Parses the command-line arguments (program name already removed)
/// into a `ScanConfig`, starting from the defaults.
pub fn parse_args(args: &Vec<Vec<u8>>) -> (r: Result<ScanConfig, SearchError>)
    ensures
        match r {
            Ok(c) => spec_parse_args(args@.map_values(|a: Vec<u8>| a@)) == Ok::<
                ScanConfig,
                SearchErrorV,
            >(c),
            Err(e) => spec_parse_args(args@.map_values(|a: Vec<u8>| a@)) == Err::<
                ScanConfig,
                SearchErrorV,
            >(e@),
        },
{
    let ghost av = args@.map_values(|a: Vec<u8>| a@);
    let ghost total = spec_parse_args(av);
    let mut cur = ScanConfig { pid: None, continuous: false, min_length: 8, min_entropy: 5000000 };
    let mut i: usize = 0;
    while i < args.len()
        invariant
            i <= args@.len(),
            av == args@.map_values(|a: Vec<u8>| a@),
            total == spec_parse_args(av),
            spec_parse_args_from(av, i as int, cur) == total,
        decreases args@.len() - i,
    {
        proof {
            assert(av[i as int] == args@[i as int]@);
        }
        if is_flag_pid(&args[i]) {
            if i + 1 >= args.len() {
                let a = crate::extract::copy_range(&args[i], 0, args[i].len());
                proof {
                    assert(a@ =~= av[i as int]);
                }
                return Err(SearchError::CliArgParse { arg: a, issue: ArgIssue::MissingValue });
            }
            proof {
                assert(av[i as int + 1] == args@[i as int + 1]@);
            }
            match parse_dec_u32(&args[i + 1]) {
                Some(v) => {
                    cur = ScanConfig { pid: Some(v), ..cur };
                },
                None => {
                    let a = crate::extract::copy_range(&args[i + 1], 0, args[i + 1].len());
                    proof {
                        assert(a@ =~= av[i as int + 1]);
                    }
                    return Err(SearchError::CliArgParse { arg: a, issue: ArgIssue::NotANumber });
                },
            }
            i = i + 2;
        } else if is_flag_minlength(&args[i]) {
            if i + 1 >= args.len() {
                let a = crate::extract::copy_range(&args[i], 0, args[i].len());
                proof {
                    assert(a@ =~= av[i as int]);
                }
                return Err(SearchError::CliArgParse { arg: a, issue: ArgIssue::MissingValue });
            }
            proof {
                assert(av[i as int + 1] == args@[i as int + 1]@);
            }
            match parse_dec_usize(&args[i + 1]) {
                Some(v) => {
                    cur = ScanConfig { min_length: v, ..cur };
                },
                None => {
                    let a = crate::extract::copy_range(&args[i + 1], 0, args[i + 1].len());
                    proof {
                        assert(a@ =~= av[i as int + 1]);
                    }
                    return Err(SearchError::CliArgParse { arg: a, issue: ArgIssue::NotANumber });
                },
            }
            i = i + 2;
        } else if is_flag_minentropy(&args[i]) {
            if i + 1 >= args.len() {
                let a = crate::extract::copy_range(&args[i], 0, args[i].len());
                proof {
                    assert(a@ =~= av[i as int]);
                }
                return Err(SearchError::CliArgParse { arg: a, issue: ArgIssue::MissingValue });
            }
            proof {
                assert(av[i as int + 1] == args@[i as int + 1]@);
            }
            match parse_entropy_arg(&args[i + 1]) {
                Some(v) => {
                    cur = ScanConfig { min_entropy: v, ..cur };
                },
                None => {
                    let a = crate::extract::copy_range(&args[i + 1], 0, args[i + 1].len());
                    proof {
                        assert(a@ =~= av[i as int + 1]);
                    }
                    return Err(SearchError::CliArgParse { arg: a, issue: ArgIssue::NotANumber });
                },
            }
            i = i + 2;
        } else if is_flag_continuous(&args[i]) {
            cur = ScanConfig { continuous: true, ..cur };
            i = i + 1;
        } else {
            let a = crate::extract::copy_range(&args[i], 0, args[i].len());
            proof {
                assert(a@ =~= av[i as int]);
            }
            return Err(SearchError::CliArgParse { arg: a, issue: ArgIssue::UnexpectedArgument });
        }
    }
    Ok(cur)
}

} // verus!
