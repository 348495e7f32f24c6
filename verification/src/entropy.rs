//! Entropy Scorer: a Shannon-entropy approximation over the byte
//! histogram of a run, computed and stored entirely in fixed point.
//!
//! The real-valued entropy `-sum((c/L) * log2(c/L))` over the nonzero
//! byte counts `c` of a buffer of length `L` equals
//! `sum(c * log2(L/c)) / L`.  Every `L/c` is at least one, so each term
//! is nonnegative and no subtraction is needed.  `log2` is approximated
//! in binary fixed point (32 fraction bits for the mantissa, 30 computed
//! fraction bits) and reported scaled by `ENTROPY_SCALE`, so that scores
//! are exact integers that can be compared and deduplicated without
//! floating point.

use vstd::prelude::*;
use vstd::arithmetic::power2::*;
use vstd::arithmetic::div_mod::*;
use vstd::arithmetic::mul::*;

verus! {

/// Entropy scores are real entropies multiplied by this factor and
/// truncated.
pub const ENTROPY_SCALE: u64 = 1000000;

/// The largest exponent `e` with `b * pow2(e) <= a` (zero when `a < b`).
pub open spec fn spec_msb_exp(a: nat, b: nat) -> nat
    decreases a - b,
    when b >= 1
{
    if 2 * b > a {
        0
    } else {
        spec_msb_exp(a, 2 * b) + 1
    }
}

/// The mantissa of `a / b`, normalized to `[1, 2)` and kept with 32
/// fraction bits.
pub open spec fn spec_mantissa(a: nat, b: nat) -> nat {
    (a * pow2(32)) / (b * pow2(spec_msb_exp(a, b)))
}

/// One squaring step of the binary-digit extraction of `log2` of a
/// mantissa: returns the next mantissa and the extracted bit.
pub open spec fn spec_frac_step(m: nat) -> (nat, nat) {
    let sq = (m * m) / pow2(32);
    if sq >= pow2(33) {
        (sq / 2, 1)
    } else {
        (sq, 0)
    }
}

/// The mantissa and accumulated fraction bits after `n` extraction steps
/// starting from mantissa `m0`.
pub open spec fn spec_frac_state(m0: nat, n: nat) -> (nat, nat)
    decreases n,
{
    if n == 0 {
        (m0, 0)
    } else {
        let prev = spec_frac_state(m0, (n - 1) as nat);
        let step = spec_frac_step(prev.0);
        (step.0, 2 * prev.1 + step.1)
    }
}

/// The fractional part of `log2` of a mantissa, scaled by
/// `ENTROPY_SCALE`: 30 binary fraction digits, rescaled and truncated.
pub open spec fn spec_frac_scaled(m0: nat) -> nat {
    (spec_frac_state(m0, 30).1 * 1000000) / pow2(30)
}

/// Fixed-point approximation of `log2(a / b)` scaled by `ENTROPY_SCALE`,
/// for `1 <= b <= a`.
pub open spec fn spec_log2_ratio(a: nat, b: nat) -> nat {
    spec_msb_exp(a, b) * 1000000 + spec_frac_scaled(spec_mantissa(a, b))
}

/// How often byte value `v` occurs in `s`.
pub open spec fn count_byte(s: Seq<u8>, v: u8) -> nat
    decreases s.len(),
{
    if s.len() == 0 {
        0
    } else {
        count_byte(s.drop_last(), v) + if s.last() == v {
            1nat
        } else {
            0nat
        }
    }
}

/// The total of `count_byte` over the byte values below `nvals`.
pub open spec fn counts_total(s: Seq<u8>, nvals: int) -> nat
    decreases nvals,
    when nvals >= 0
{
    if nvals <= 0 {
        0
    } else {
        counts_total(s, nvals - 1) + count_byte(s, (nvals - 1) as u8)
    }
}

/// The unnormalized entropy total over the byte values below `nvals`:
/// each value with nonzero count `c` contributes `c * log2(len / c)` in
/// fixed point.
pub open spec fn entropy_sum(s: Seq<u8>, nvals: int) -> nat
    decreases nvals,
    when nvals >= 0
{
    if nvals <= 0 {
        0
    } else {
        let c = count_byte(s, (nvals - 1) as u8);
        entropy_sum(s, nvals - 1) + if c > 0 {
            c * spec_log2_ratio(s.len(), c)
        } else {
            0nat
        }
    }
}

/// The fixed-point entropy approximation of a byte sequence: the entropy
/// total over all 256 byte values, divided by the length.  Empty
/// sequences score zero.
pub open spec fn spec_entropy(s: Seq<u8>) -> nat {
    if s.len() == 0 {
        0
    } else {
        (entropy_sum(s, 256) as int / s.len() as int) as nat
    }
}

/// `spec_msb_exp` indeed brackets `a / b` between two adjacent powers of
/// two.
pub proof fn lemma_msb_exp_bounds(a: nat, b: nat)
    requires
        1 <= b <= a,
    ensures
        b * pow2(spec_msb_exp(a, b)) <= a,
        a < b * pow2(spec_msb_exp(a, b) + 1),
    decreases a - b,
{
    broadcast use lemma_pow2_unfold, lemma_pow2_pos;

    if 2 * b > a {
        lemma2_to64();
        assert(spec_msb_exp(a, b) == 0);
        assert(b * pow2(0) == b) by (nonlinear_arith)
            requires
                pow2(0) == 1;
        assert(b * pow2(1) == 2 * b) by (nonlinear_arith)
            requires
                pow2(1) == 2;
    } else {
        lemma_msb_exp_bounds(a, 2 * b);
        let e = spec_msb_exp(a, 2 * b);
        assert(spec_msb_exp(a, b) == e + 1);
        assert(b * pow2(e + 1) == 2 * b * pow2(e)) by (nonlinear_arith)
            requires
                pow2(e + 1) == 2 * pow2(e);
        assert(b * pow2(e + 2) == 2 * b * pow2(e + 1)) by (nonlinear_arith)
            requires
                pow2(e + 2) == 2 * pow2(e + 1);
    }
}

/// Scaling numerator and denominator by a common factor does not change
/// the bracketing exponent.
pub proof fn lemma_msb_exp_scale(k: nat, m: nat, c: nat)
    requires
        m >= 1,
        c >= 1,
    ensures
        spec_msb_exp(k * c, m * c) == spec_msb_exp(k, m),
    decreases k - m,
{
    assert(m * c >= 1) by (nonlinear_arith)
        requires
            m >= 1,
            c >= 1;
    if 2 * m > k {
        assert(2 * (m * c) > k * c) by (nonlinear_arith)
            requires
                2 * m > k,
                c >= 1;
        assert(spec_msb_exp(k * c, m * c) == 0);
        assert(spec_msb_exp(k, m) == 0);
    } else {
        lemma_msb_exp_scale(k, 2 * m, c);
        assert(2 * (m * c) <= k * c) by (nonlinear_arith)
            requires
                2 * m <= k,
                c >= 1;
        assert((2 * m) * c == 2 * (m * c)) by (nonlinear_arith);
        assert(spec_msb_exp(k * c, m * c) == spec_msb_exp(k * c, 2 * (m * c)) + 1);
        assert(spec_msb_exp(k, m) == spec_msb_exp(k, 2 * m) + 1);
    }
}

/// The mantissa always lies in `[pow2(32), pow2(33))`.
pub proof fn lemma_mantissa_range(a: nat, b: nat)
    requires
        1 <= b <= a,
    ensures
        pow2(32) <= spec_mantissa(a, b) < pow2(33),
{
    let e = spec_msb_exp(a, b);
    let den = b * pow2(e);
    lemma_msb_exp_bounds(a, b);
    lemma_pow2_pos(e);
    assert(den >= 1) by (nonlinear_arith)
        requires
            b >= 1,
            pow2(e) >= 1,
            den == b * pow2(e);
    lemma_pow2_pos(32);
    // Lower bound: a >= den, so a * pow2(32) >= den * pow2(32).
    assert(a * pow2(32) >= den * pow2(32)) by (nonlinear_arith)
        requires
            a >= den,
            pow2(32) >= 1;
    lemma_div_by_multiple(pow2(32) as int, den as int);
    assert((pow2(32) * den) as int / den as int == pow2(32));
    lemma_div_is_ordered((pow2(32) * den) as int, (a * pow2(32)) as int, den as int);
    assert(spec_mantissa(a, b) >= pow2(32));
    // Upper bound: a < 2 * den, so a * pow2(32) < den * pow2(33).
    lemma_pow2_unfold(e + 1);
    assert(b * pow2(e + 1) == 2 * den) by (nonlinear_arith)
        requires
            pow2(e + 1) == 2 * pow2(e),
            den == b * pow2(e);
    lemma_pow2_unfold(33);
    assert(a * pow2(32) < den * pow2(33)) by (nonlinear_arith)
        requires
            a < 2 * den,
            pow2(33) == 2 * pow2(32),
            pow2(32) >= 1;
    lemma_multiply_divide_lt((a * pow2(32)) as int, den as int, pow2(33) as int);
}

/// The digit-extraction state keeps its mantissa normalized and its
/// accumulated bits below `pow2(n)`.
pub proof fn lemma_frac_state_range(m0: nat, n: nat)
    requires
        pow2(32) <= m0 < pow2(33),
    ensures
        pow2(32) <= spec_frac_state(m0, n).0 < pow2(33),
        spec_frac_state(m0, n).1 < pow2(n),
    decreases n,
{
    lemma2_to64();
    lemma2_to64_rest();
    if n == 0 {
        lemma_pow2_pos(0);
    } else {
        lemma_frac_state_range(m0, (n - 1) as nat);
        let prev = spec_frac_state(m0, (n - 1) as nat);
        let m = prev.0;
        let sq = (m * m) / pow2(32);
        assert(m * m >= pow2(32) * pow2(32)) by (nonlinear_arith)
            requires
                m >= pow2(32);
        lemma_pow2_adds(32, 32);
        lemma_div_by_multiple(pow2(32) as int, pow2(32) as int);
        lemma_div_is_ordered((pow2(32) * pow2(32)) as int, (m * m) as int, pow2(32) as int);
        assert(sq >= pow2(32));
        assert(m * m < pow2(33) * pow2(33)) by (nonlinear_arith)
            requires
                m < pow2(33);
        lemma_pow2_adds(33, 33);
        lemma_pow2_adds(32, 34);
        assert(m * m < pow2(32) * pow2(34));
        lemma_multiply_divide_lt((m * m) as int, pow2(32) as int, pow2(34) as int);
        assert(sq < pow2(34));
        lemma_pow2_unfold(34);
        lemma_pow2_unfold(33);
        lemma_pow2_unfold(n);
        if sq >= pow2(33) {
            assert(sq / 2 < pow2(33));
            assert(sq / 2 >= pow2(32));
        }
    }
}

/// A mantissa of exactly one yields no fraction bits.
pub proof fn lemma_frac_state_one(n: nat)
    ensures
        spec_frac_state(pow2(32), n) == (pow2(32), 0nat),
    decreases n,
{
    if n > 0 {
        lemma_frac_state_one((n - 1) as nat);
        lemma_pow2_pos(32);
        lemma_pow2_adds(32, 32);
        lemma_div_by_multiple(pow2(32) as int, pow2(32) as int);
        assert((pow2(32) * pow2(32)) / pow2(32) == pow2(32));
        lemma_pow2_strictly_increases(32, 33);
        assert(spec_frac_step(pow2(32)) == (pow2(32), 0nat));
    }
}

/// `log2(a / a) == 0` exactly, for any positive `a`.
pub proof fn lemma_log2_ratio_self(a: nat)
    requires
        a >= 1,
    ensures
        spec_log2_ratio(a, a) == 0,
{
    assert(spec_msb_exp(a, a) == 0);
    lemma2_to64();
    assert(pow2(0) == 1);
    assert(a * pow2(0) == a) by (nonlinear_arith)
        requires
            pow2(0) == 1;
    lemma_div_multiples_vanish(pow2(32) as int, a as int);
    assert(spec_mantissa(a, a) == pow2(32));
    lemma_frac_state_one(30);
    lemma_pow2_pos(30);
    assert(spec_frac_scaled(pow2(32)) == 0);
}

/// `log2` of an exact power-of-two ratio is exact: `log2(b * pow2(j) / b)`
/// is `j`, scaled.
pub proof fn lemma_log2_ratio_pow2(b: nat, j: nat)
    requires
        b >= 1,
    ensures
        spec_log2_ratio(b * pow2(j), b) == j * 1000000,
    decreases j,
{
    lemma_pow2_pos(j);
    let a = b * pow2(j);
    assert(a >= b) by (nonlinear_arith)
        requires
            b >= 1,
            pow2(j) >= 1,
            a == b * pow2(j);
    // The exponent is exactly j.
    assert(spec_msb_exp(a, b) == j) by {
        lemma_msb_exp_pow2(b, j);
    }
    // The mantissa is exactly one.
    lemma_div_multiples_vanish(pow2(32) as int, a as int);
    assert((a * pow2(32)) / (b * pow2(j)) == pow2(32));
    assert(spec_mantissa(a, b) == pow2(32));
    lemma_frac_state_one(30);
    lemma_pow2_pos(30);
    assert(spec_frac_scaled(pow2(32)) == 0);
}

/// Helper: the bracketing exponent of `b * pow2(j)` over `b` is `j`.
pub proof fn lemma_msb_exp_pow2(b: nat, j: nat)
    requires
        b >= 1,
    ensures
        spec_msb_exp(b * pow2(j), b) == j,
    decreases j,
{
    lemma_pow2_pos(j);
    if j == 0 {
        lemma2_to64();
        assert(b * pow2(0) == b) by (nonlinear_arith)
            requires
                pow2(0) == 1;
        assert(2 * b > b);
    } else {
        lemma_msb_exp_pow2(2 * b, (j - 1) as nat);
        lemma_pow2_unfold(j);
        assert(b * pow2(j) == (2 * b) * pow2((j - 1) as nat)) by (nonlinear_arith)
            requires
                pow2(j) == 2 * pow2((j - 1) as nat);
        assert(2 * b <= b * pow2(j)) by (nonlinear_arith)
            requires
                b >= 1,
                pow2(j) >= 2;
        lemma_pow2_pos((j - 1) as nat);
    }
}

/// Scale invariance: `log2((k * c) / c)` equals `log2(k / 1)` exactly,
/// truncation included, because the common factor cancels before any
/// rounding happens.
pub proof fn lemma_log2_ratio_scale(k: nat, c: nat)
    requires
        k >= 1,
        c >= 1,
    ensures
        spec_log2_ratio(k * c, c) == spec_log2_ratio(k, 1),
{
    lemma_msb_exp_scale(k, 1, c);
    assert(1nat * c == c) by (nonlinear_arith);
    let e = spec_msb_exp(k, 1);
    assert(spec_msb_exp(k * c, c) == e);
    // Mantissas agree: the factor c cancels exactly under floor division.
    lemma_pow2_pos(e);
    lemma_pow2_pos(32);
    assert((k * c) * pow2(32) == c * (k * pow2(32))) by (nonlinear_arith);
    assert(c * pow2(e) == c * (1nat * pow2(e))) by (nonlinear_arith);
    lemma_div_multiples_vanish_quotient(c as int, (k * pow2(32)) as int, (1nat * pow2(e)) as int);
    assert((k * pow2(32)) as int / (1nat * pow2(e)) as int == (c * (k * pow2(32))) as int / (c * (
    1nat * pow2(e))) as int) by {
        assert(1nat * pow2(e) >= 1) by (nonlinear_arith)
            requires
                pow2(e) >= 1;
        assert(k * pow2(32) >= 0) by (nonlinear_arith)
            requires
                k >= 1,
                pow2(32) >= 1;
    }
    assert(spec_mantissa(k * c, c) == spec_mantissa(k, 1));
}

/// Computes `spec_log2_ratio(a, b)`: the fixed-point `log2(a / b)`,
/// scaled by `ENTROPY_SCALE`.
pub fn log2_ratio_scaled(a: u64, b: u64) -> (r: u64)
    requires
        1 <= b <= a,
    ensures
        r as nat == spec_log2_ratio(a as nat, b as nat),
        r < 64 * 1000000,
{
    proof {
        lemma2_to64();
        lemma2_to64_rest();
    }
    // Find the power-of-two bracket: t == b * pow2(e) <= a < 2 * t.
    let mut t: u64 = b;
    let mut e: u64 = 0;
    while t <= a / 2
        invariant
            1 <= b <= a,
            t as nat == b as nat * pow2(e as nat),
            pow2(e as nat) <= t,
            b <= t <= a,
            e <= 63,
            spec_msb_exp(a as nat, b as nat) == e as nat + spec_msb_exp(a as nat, t as nat),
        decreases a - t,
    {
        proof {
            lemma_pow2_unfold(e as nat + 1);
            assert(2 * (t as nat) == b as nat * pow2(e as nat + 1)) by (nonlinear_arith)
                requires
                    t as nat == b as nat * pow2(e as nat),
                    pow2(e as nat + 1) == 2 * pow2(e as nat);
            lemma_fundamental_div_mod(a as int, 2);
            assert(2 * t <= a);
            assert(spec_msb_exp(a as nat, t as nat) == spec_msb_exp(a as nat, 2 * (t as nat))
                + 1);
            assert(e as nat + 1 <= 63) by {
                if e as nat + 1 > 63 {
                    if e as nat + 1 > 64 {
                        lemma_pow2_strictly_increases(64, e as nat + 1);
                    }
                    lemma2_to64_rest();
                    assert(pow2(e as nat + 1) >= pow2(64));
                    assert(pow2(e as nat + 1) <= 2 * (t as nat));
                    assert(false);
                }
            }
        }
        t = t * 2;
        e = e + 1;
    }
    proof {
        lemma_fundamental_div_mod(a as int, 2);
        assert(2 * (t as nat) > a as nat);
        assert(spec_msb_exp(a as nat, t as nat) == 0);
        assert(spec_msb_exp(a as nat, b as nat) == e as nat);
    }
    // Mantissa with 32 fraction bits.
    let num: u128 = (a as u128) * 4294967296u128;
    proof {
        lemma2_to64();
        lemma2_to64_rest();
        let sm = spec_mantissa(a as nat, b as nat);
        assert(num as nat == a as nat * pow2(32));
        lemma_mantissa_range(a as nat, b as nat);
        assert(sm == num as nat / (t as nat));
        lemma_pow2_strictly_increases(33, 64);
        assert(num as nat / (t as nat) < pow2(64));
    }
    let m0: u64 = (num / (t as u128)) as u64;
    proof {
        assert(m0 as nat == spec_mantissa(a as nat, b as nat));
    }
    // Extract 30 binary fraction digits of log2 of the mantissa.
    let ghost gm0 = m0 as nat;
    let mut m: u64 = m0;
    let mut f: u64 = 0;
    let mut it: u64 = 0;
    while it < 30
        invariant
            it <= 30,
            pow2(32) <= gm0 < pow2(33),
            m as nat == spec_frac_state(gm0, it as nat).0,
            f as nat == spec_frac_state(gm0, it as nat).1,
        decreases 30 - it,
    {
        proof {
            lemma2_to64();
            lemma2_to64_rest();
            lemma_frac_state_range(gm0, it as nat);
            lemma_frac_state_range(gm0, it as nat + 1);
            assert((m as u128) * (m as u128) <= 0xffffffffffffffffu128 * 0xffffffffffffffffu128)
                by (nonlinear_arith)
                requires
                    (m as u128) <= 0xffffffffffffffffu128;
        }
        let sq: u128 = ((m as u128) * (m as u128)) / 4294967296u128;
        proof {
            assert(sq as nat == (m as nat * m as nat) / pow2(32));
            assert(f < pow2(30)) by {
                lemma_frac_state_range(gm0, it as nat);
            }
        }
        if sq >= 8589934592u128 {
            m = (sq / 2) as u64;
            f = 2 * f + 1;
        } else {
            m = sq as u64;
            f = 2 * f;
        }
        it = it + 1;
    }
    proof {
        lemma_frac_state_range(gm0, 30);
        assert(f < pow2(30));
        assert((f as nat) * 1000000 < 0x10000000000000000) by (nonlinear_arith)
            requires
                (f as nat) < pow2(30),
                pow2(30) == 0x40000000;
    }
    let fr: u64 = (f * 1000000) / 1073741824;
    proof {
        assert(fr as nat == spec_frac_scaled(gm0));
        assert(fr < 1000000) by {
            assert((f as nat) * 1000000 < pow2(30) * 1000000) by (nonlinear_arith)
                requires
                    (f as nat) < pow2(30);
            lemma_multiply_divide_lt((f as nat * 1000000) as int, pow2(30) as int, 1000000int);
        }
    }
    e * 1000000 + fr
}

/// No byte value occurs more often than the sequence is long.
pub proof fn lemma_count_byte_le_len(s: Seq<u8>, v: u8)
    ensures
        count_byte(s, v) <= s.len(),
    decreases s.len(),
{
    if s.len() > 0 {
        lemma_count_byte_le_len(s.drop_last(), v);
    }
}

/// Appending one byte raises exactly that byte's count by one.
pub proof fn lemma_count_byte_push(s: Seq<u8>, x: u8, v: u8)
    ensures
        count_byte(s.push(x), v) == count_byte(s, v) + if x == v {
            1nat
        } else {
            0nat
        },
{
    assert(s.push(x).drop_last() =~= s);
    assert(s.push(x).last() == x);
}

/// The per-value counts over all 256 byte values add up to the length.
pub proof fn lemma_counts_total_all(s: Seq<u8>)
    ensures
        counts_total(s, 256) == s.len(),
    decreases s.len(),
{
    if s.len() == 0 {
        lemma_counts_total_empty(s, 256);
    } else {
        let t = s.drop_last();
        let x = s.last();
        lemma_counts_total_all(t);
        assert(s =~= t.push(x));
        lemma_counts_total_push(t, x, 256);
    }
}

proof fn lemma_counts_total_empty(s: Seq<u8>, n: int)
    requires
        s.len() == 0,
        n >= 0,
    ensures
        counts_total(s, n) == 0,
    decreases n,
{
    if n > 0 {
        lemma_counts_total_empty(s, n - 1);
    }
}

proof fn lemma_counts_total_push(s: Seq<u8>, x: u8, n: int)
    requires
        0 <= n <= 256,
    ensures
        counts_total(s.push(x), n) == counts_total(s, n) + if (x as int) < n {
            1nat
        } else {
            0nat
        },
    decreases n,
{
    if n > 0 {
        lemma_counts_total_push(s, x, n - 1);
        lemma_count_byte_push(s, x, (n - 1) as u8);
    }
}

/// Computes the fixed-point entropy approximation `spec_entropy` of a
/// buffer: histogram, then `sum(c * log2(len / c)) / len`, all scaled by
/// `ENTROPY_SCALE`.
pub fn calculate_entropy(buf: &Vec<u8>) -> (r: u64)
    ensures
        r as nat == spec_entropy(buf@),
        r <= 64 * 1000000,
{
    let ghost s = buf@;
    if buf.len() == 0 {
        return 0;
    }
    // Byte-value histogram.
    let mut counts: Vec<u64> = Vec::new();
    let mut k: usize = 0;
    while k < 256
        invariant
            counts@.len() == k,
            k <= 256,
            forall|v: int| 0 <= v < k ==> counts@[v] == 0,
        decreases 256 - k,
    {
        counts.push(0);
        k = k + 1;
    }
    proof {
        assert forall|v: u8| #[trigger] count_byte(s.take(0), v) == 0 by {
            assert(s.take(0).len() == 0);
        }
    }
    let mut i: usize = 0;
    while i < buf.len()
        invariant
            s == buf@,
            i <= buf.len(),
            counts@.len() == 256,
            forall|v: u8| counts@[v as int] as nat == #[trigger] count_byte(s.take(i as int), v),
            forall|v: u8| #[trigger] count_byte(s.take(i as int), v) <= i,
        decreases buf@.len() - i,
    {
        let b = buf[i];
        let ghost prefix = s.take(i as int);
        proof {
            assert(counts@[b as int] as nat == count_byte(prefix, b));
            assert(count_byte(prefix, b) <= i);
        }
        counts[b as usize] = counts[b as usize] + 1;
        proof {
            assert(s.take(i + 1).drop_last() =~= prefix);
            assert(s.take(i + 1).last() == s[i as int]);
            assert forall|v: u8| counts@[v as int] as nat == #[trigger] count_byte(
                s.take(i + 1),
                v,
            ) && count_byte(s.take(i + 1), v) <= i + 1 by {
                assert(count_byte(s.take(i + 1), v) == count_byte(prefix, v) + if s[i as int] == v {
                    1nat
                } else {
                    0nat
                });
            }
        }
        i = i + 1;
    }
    proof {
        assert(s.take(buf@.len() as int) =~= s);
    }
    // Entropy total over the nonzero counts.
    let len64: u64 = buf.len() as u64;
    let mut sum: u128 = 0;
    let mut v: usize = 0;
    while v < 256
        invariant
            s == buf@,
            1 <= buf@.len(),
            len64 as nat == s.len(),
            counts@.len() == 256,
            v <= 256,
            forall|w: u8| counts@[w as int] as nat == #[trigger] count_byte(s, w),
            sum as nat == entropy_sum(s, v as int),
            sum as nat <= counts_total(s, v as int) * (64 * 1000000),
        decreases 256 - v,
    {
        let c = counts[v];
        proof {
            lemma_count_byte_le_len(s, v as u8);
        }
        if c > 0 {
            let lr = log2_ratio_scaled(len64, c);
            proof {
                let ghost ct = counts_total(s, v as int);
                assert((c as nat) * (lr as nat) <= (c as nat) * (64 * 1000000)) by (
                nonlinear_arith)
                    requires
                        lr as nat <= 64 * 1000000,
                        c as nat >= 0;
                assert(ct * (64 * 1000000) + (c as nat) * (64 * 1000000) == (ct + c as nat) * (64
                    * 1000000)) by (nonlinear_arith);
                assert((c as u128) * (lr as u128) <= 0xffffffffffffffffu128 * 0x4000000u128) by (
                nonlinear_arith)
                    requires
                        c as u128 <= 0xffffffffffffffffu128,
                        lr as u128 <= 0x4000000u128;
                assert(counts_total(s, v as int + 1) * (64 * 1000000) <= s.len() * (64 * 1000000))
                    by {
                    lemma_counts_total_le(s, v as int + 1);
                    assert(counts_total(s, v as int + 1) <= s.len());
                    lemma_mul_inequality(
                        counts_total(s, v as int + 1) as int,
                        s.len() as int,
                        (64 * 1000000) as int,
                    );
                }
                assert(s.len() * (64 * 1000000) < 0x100000000000000000000000000000000) by (
                nonlinear_arith)
                    requires
                        s.len() < 0x10000000000000000;
            }
            sum = sum + (c as u128) * (lr as u128);
        }
        v = v + 1;
    }
    proof {
        lemma_counts_total_all(s);
        assert(sum as nat <= s.len() * (64 * 1000000));
        lemma_multiply_divide_le(sum as int, s.len() as int, (64 * 1000000) as int);
        assert(sum as nat / s.len() <= 64 * 1000000);
    }
    (sum / (len64 as u128)) as u64
}

/// In a buffer of one repeated byte value, that value accounts for the
/// whole length and every other count is zero.
pub proof fn lemma_count_byte_uniform(s: Seq<u8>)
    requires
        s.len() >= 1,
        forall|i: int| 0 <= i < s.len() ==> #[trigger] s[i] == s[0],
    ensures
        count_byte(s, s[0]) == s.len(),
        forall|v: u8| v != s[0] ==> count_byte(s, v) == 0,
    decreases s.len(),
{
    if s.len() == 1 {
        assert(s.drop_last().len() == 0);
        assert(s.last() == s[0]);
        assert(count_byte(s.drop_last(), s[0]) == 0);
        assert(count_byte(s, s[0]) == 1);
        assert forall|v: u8| v != s[0] implies count_byte(s, v) == 0 by {
            assert(count_byte(s.drop_last(), v) == 0);
        }
    } else {
        let t = s.drop_last();
        assert(t[0] == s[0]);
        assert forall|i: int| 0 <= i < t.len() implies #[trigger] t[i] == t[0] by {
            assert(t[i] == s[i]);
        }
        lemma_count_byte_uniform(t);
        assert(s.last() == s[s.len() - 1]);
        assert(s.last() == s[0]);
        assert(count_byte(s, s[0]) == count_byte(t, s[0]) + 1);
        assert(count_byte(t, t[0]) == t.len());
        assert forall|v: u8| v != s[0] implies count_byte(s, v) == 0 by {
            assert(count_byte(t, v) == 0);
        }
    }
}

proof fn lemma_entropy_sum_zero_counts(s: Seq<u8>, n: int)
    requires
        0 <= n <= 256,
        forall|v: u8| count_byte(s, v) == 0 || count_byte(s, v) == s.len(),
        spec_log2_ratio(s.len(), s.len()) == 0,
    ensures
        entropy_sum(s, n) == 0,
    decreases n,
{
    if n > 0 {
        lemma_entropy_sum_zero_counts(s, n - 1);
        let c = count_byte(s, (n - 1) as u8);
        if c > 0 {
            assert(c == s.len());
            assert(c * spec_log2_ratio(s.len(), c) == 0) by (nonlinear_arith)
                requires
                    spec_log2_ratio(s.len(), c) == 0;
        }
    }
}

/// A buffer made of one repeated byte value has entropy exactly zero.
pub proof fn lemma_entropy_single_value(s: Seq<u8>)
    requires
        s.len() >= 1,
        forall|i: int| 0 <= i < s.len() ==> #[trigger] s[i] == s[0],
    ensures
        spec_entropy(s) == 0,
{
    lemma_count_byte_uniform(s);
    lemma_log2_ratio_self(s.len());
    assert forall|v: u8| count_byte(s, v) == 0 || count_byte(s, v) == s.len() by {
        if v != s[0] {
            assert(count_byte(s, v) == 0);
        }
    }
    lemma_entropy_sum_zero_counts(s, 256);
    assert(spec_entropy(s) == (0int / s.len() as int) as nat);
}

proof fn lemma_entropy_sum_uniform(s: Seq<u8>, c: nat, n: int)
    requires
        0 <= n <= 256,
        c >= 1,
        forall|v: u8| count_byte(s, v) == 0 || count_byte(s, v) == c,
    ensures
        entropy_sum(s, n) == spec_log2_ratio(s.len(), c) * counts_total(s, n),
    decreases n,
{
    let r = spec_log2_ratio(s.len(), c);
    if n <= 0 {
        assert(r * 0 == 0) by (nonlinear_arith);
    } else {
        lemma_entropy_sum_uniform(s, c, n - 1);
        let cv = count_byte(s, (n - 1) as u8);
        if cv > 0 {
            assert(cv == c);
            assert(r * counts_total(s, n - 1) + c * r == r * (counts_total(s, n - 1) + c)) by (
            nonlinear_arith);
        } else {
            assert(r * counts_total(s, n - 1) + 0 == r * (counts_total(s, n - 1) + 0)) by (
            nonlinear_arith);
        }
    }
}

/// A buffer over an alphabet of exactly `pow2(j)` distinct byte values,
/// each equally frequent, has entropy exactly `j` scale units: the
/// fixed-point rounding cancels for power-of-two alphabet sizes.
/// A buffer over an alphabet of exactly `k` distinct byte values, each
/// equally frequent, has entropy `log2(k)` in fixed point: the score is
/// a function of `k` alone, whatever the values, their order, or how
/// often the pattern repeats.
pub proof fn lemma_entropy_uniform_alphabet_general(s: Seq<u8>, c: nat, k: nat)
    requires
        s.len() >= 1,
        c >= 1,
        k >= 1,
        s.len() == k * c,
        forall|v: u8| count_byte(s, v) == 0 || count_byte(s, v) == c,
    ensures
        spec_entropy(s) == spec_log2_ratio(k, 1),
{
    let l = s.len();
    let r = spec_log2_ratio(l, c);
    lemma_entropy_sum_uniform(s, c, 256);
    lemma_counts_total_all(s);
    assert(entropy_sum(s, 256) == r * l);
    lemma_div_multiples_vanish(r as int, l as int);
    assert((l * r) as int / l as int == r);
    assert(r * l == l * r) by (nonlinear_arith);
    assert(spec_entropy(s) == r);
    lemma_log2_ratio_scale(k, c);
}

/// The power-of-two corollary in closed form: an alphabet of `pow2(j)`
/// equally frequent values scores exactly `j` scale units, with no
/// rounding at all.
pub proof fn lemma_entropy_uniform_alphabet(s: Seq<u8>, c: nat, j: nat)
    requires
        s.len() >= 1,
        c >= 1,
        s.len() == pow2(j) * c,
        forall|v: u8| count_byte(s, v) == 0 || count_byte(s, v) == c,
    ensures
        spec_entropy(s) == j * 1000000,
{
    lemma_pow2_pos(j);
    lemma_entropy_uniform_alphabet_general(s, c, pow2(j));
    lemma_log2_ratio_pow2(1, j);
    assert(1nat * pow2(j) == pow2(j)) by (nonlinear_arith);
}

/// `counts_total` grows to at most the sequence length however many
/// values it covers.
pub proof fn lemma_counts_total_le(s: Seq<u8>, n: int)
    requires
        0 <= n <= 256,
    ensures
        counts_total(s, n) <= s.len(),
    decreases s.len(),
{
    if s.len() == 0 {
        lemma_counts_total_empty(s, n);
    } else {
        let t = s.drop_last();
        lemma_counts_total_le(t, n);
        assert(s =~= t.push(s.last()));
        lemma_counts_total_push(t, s.last(), n);
    }
}

} // verus!
