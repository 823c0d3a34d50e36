//! The binary logarithm in fixed point.
//!
//! A positive integer is first doubled until it lies between one and two in
//! units of `2^63`; each squaring of that mantissa then yields one more bit of
//! its logarithm.

use vstd::prelude::*;
use vstd::arithmetic::power2::{lemma2_to64, lemma2_to64_rest, lemma_pow2_unfold, pow2};
use crate::fixed::{mul_wide, SCALE};

verus! {

/// One, in the scale of a mantissa: two to the power 63.
pub const MANTISSA_ONE: u64 = 0x8000_0000_0000_0000;

/// One, in the scale of a fine logarithm: two to the power 32.
pub const LOG_ONE: u64 = 0x1_0000_0000;

/// How far `v` lies below `MANTISSA_ONE`.
pub open spec fn gap(v: nat) -> nat {
    if v < MANTISSA_ONE {
        (MANTISSA_ONE - v) as nat
    } else {
        0
    }
}

/// How many doublings bring `v` to `MANTISSA_ONE` or above.
pub open spec fn shifts(v: nat) -> nat
    decreases gap(v),
{
    if v == 0 || v >= MANTISSA_ONE {
        0
    } else {
        1 + shifts(2 * v)
    }
}

/// `v` doubled until it is `MANTISSA_ONE` or above.
pub open spec fn mantissa(v: nat) -> nat
    decreases gap(v),
{
    if v == 0 || v >= MANTISSA_ONE {
        v
    } else {
        mantissa(2 * v)
    }
}

/// The binary logarithm of the mantissa `m`, a number from one up to two, in
/// units of `1 / weight`: each squaring, rounded down, decides one bit, the
/// highest first.
pub open spec fn mantissa_log(m: nat, weight: nat) -> nat
    decreases weight,
{
    if weight <= 1 {
        0
    } else {
        let half = weight / 2;
        let square = m * m / (MANTISSA_ONE as nat);
        if square >= 2 * MANTISSA_ONE {
            half + mantissa_log(square / 2, half)
        } else {
            mantissa_log(square, half)
        }
    }
}

/// The binary logarithm of the integer `v`, in units of `1 / LOG_ONE`: its
/// whole part from the number of doublings, the rest from the mantissa.
pub open spec fn log2_fine(v: nat) -> int {
    (63 - shifts(v)) * LOG_ONE + mantissa_log(mantissa(v), LOG_ONE as nat)
}

/// The binary logarithm of `a / b`: the fine logarithm of `a` less that of
/// `b`, in millionths and rounded down.
pub open spec fn log2_ratio(a: nat, b: nat) -> int {
    (log2_fine(a) - log2_fine(b)) * SCALE / (LOG_ONE as int)
}

/// A number that `k` doublings bring to `MANTISSA_ONE` takes at most `k`.
proof fn lemma_shifts_within(v: nat, k: nat)
    requires
        v >= 1,
        v * pow2(k) >= pow2(63),
    ensures
        shifts(v) <= k,
    decreases k,
{
    lemma2_to64_rest();
    if v < MANTISSA_ONE {
        if k == 0 {
            lemma2_to64();
            assert(v * pow2(0) == v);
        } else {
            lemma_pow2_unfold(k);
            assert((2 * v) * pow2((k - 1) as nat) == v * pow2(k)) by (nonlinear_arith)
                requires
                    pow2(k) == 2 * pow2((k - 1) as nat),
            ;
            lemma_shifts_within(2 * v, (k - 1) as nat);
        }
    }
}

/// A positive number below `2^64` takes at most 63 doublings, and its
/// mantissa lies from one up to two.
pub proof fn lemma_normal_form(v: nat)
    requires
        0 < v <= u64::MAX,
    ensures
        shifts(v) <= 63,
        MANTISSA_ONE <= mantissa(v) <= u64::MAX,
    decreases gap(v),
{
    lemma2_to64_rest();
    assert(v * pow2(63) >= pow2(63)) by (nonlinear_arith)
        requires
            v >= 1,
            pow2(63) > 0,
    ;
    lemma_shifts_within(v, 63);
    if v < MANTISSA_ONE {
        lemma_normal_form(2 * v);
    }
}

/// A larger number takes fewer doublings, or as many and has the larger
/// mantissa.
pub proof fn lemma_normal_form_monotone(a: nat, b: nat)
    requires
        0 < a <= b <= u64::MAX,
    ensures
        shifts(a) > shifts(b) || (shifts(a) == shifts(b) && mantissa(a) <= mantissa(b)),
    decreases gap(a),
{
    if a < MANTISSA_ONE && b < MANTISSA_ONE {
        lemma_normal_form_monotone(2 * a, 2 * b);
    }
}

/// The square of a mantissa lies from one up to four.
pub proof fn lemma_square_range(m: nat)
    requires
        MANTISSA_ONE <= m <= u64::MAX,
    ensures
        MANTISSA_ONE <= m * m / (MANTISSA_ONE as nat) < 4 * MANTISSA_ONE,
        m * m <= u128::MAX,
{
    let q = MANTISSA_ONE as nat;
    assert(q <= m * m / q < 4 * q && m * m < 4 * q * q) by (nonlinear_arith)
        requires
            q <= m < 2 * q,
            q > 0,
    ;
}

/// The logarithm of a mantissa is less than one.
pub proof fn lemma_mantissa_log_bound(m: nat, weight: nat)
    requires
        weight >= 1,
    ensures
        mantissa_log(m, weight) < weight,
    decreases weight,
{
    if weight > 1 {
        let half = weight / 2;
        let square = m * m / (MANTISSA_ONE as nat);
        if square >= 2 * MANTISSA_ONE {
            lemma_mantissa_log_bound(square / 2, half);
        } else {
            lemma_mantissa_log_bound(square, half);
        }
    }
}

/// The larger mantissa has the larger logarithm.
pub proof fn lemma_mantissa_log_monotone(a: nat, b: nat, weight: nat)
    requires
        a <= b,
    ensures
        mantissa_log(a, weight) <= mantissa_log(b, weight),
    decreases weight,
{
    if weight > 1 {
        let half = weight / 2;
        let q = MANTISSA_ONE as nat;
        let sa = a * a / q;
        let sb = b * b / q;
        assert(sa <= sb) by (nonlinear_arith)
            requires
                a <= b,
                q > 0,
                sa == a * a / q,
                sb == b * b / q,
        ;
        if sa >= 2 * MANTISSA_ONE {
            lemma_mantissa_log_monotone(sa / 2, sb / 2, half);
        } else if sb >= 2 * MANTISSA_ONE {
            lemma_mantissa_log_bound(sa, half);
        } else {
            lemma_mantissa_log_monotone(sa, sb, half);
        }
    }
}

/// The fine logarithm never falls as its argument rises, and lies from 0 up
/// to 64.
pub proof fn lemma_log2_fine_monotone(a: nat, b: nat)
    requires
        0 < a <= b <= u64::MAX,
    ensures
        0 <= log2_fine(a) <= log2_fine(b) < 64 * LOG_ONE,
{
    lemma_normal_form(a);
    lemma_normal_form(b);
    lemma_normal_form_monotone(a, b);
    lemma_mantissa_log_bound(mantissa(a), LOG_ONE as nat);
    lemma_mantissa_log_bound(mantissa(b), LOG_ONE as nat);
    if shifts(a) == shifts(b) {
        lemma_mantissa_log_monotone(mantissa(a), mantissa(b), LOG_ONE as nat);
    }
}

/// The mantissa of a number is the number times two to the power of its
/// doublings.
pub proof fn lemma_mantissa_is_scaled(v: nat)
    requires
        0 < v <= u64::MAX,
    ensures
        mantissa(v) == v * pow2(shifts(v)),
    decreases gap(v),
{
    if v < MANTISSA_ONE {
        lemma_mantissa_is_scaled(2 * v);
        lemma_pow2_unfold(shifts(v));
        assert((2 * v) * pow2(shifts(2 * v)) == v * pow2(shifts(v))) by (nonlinear_arith)
            requires
                pow2(shifts(v)) == 2 * pow2(shifts(2 * v)),
        ;
    } else {
        lemma2_to64();
        assert(v * pow2(0) == v) by (nonlinear_arith)
            requires
                pow2(0) == 1,
        ;
    }
}

/// The whole part of the fine logarithm is exact: it is the power of two
/// at or below the number whose double lies above it.
pub proof fn lemma_log2_fine_whole_part(v: nat)
    requires
        0 < v <= u64::MAX,
    ensures
        shifts(v) <= 63,
        pow2((63 - shifts(v)) as nat) <= v < 2 * pow2((63 - shifts(v)) as nat),
        (63 - shifts(v)) * LOG_ONE <= log2_fine(v) < (64 - shifts(v)) * LOG_ONE,
{
    lemma_normal_form(v);
    lemma_mantissa_is_scaled(v);
    lemma_mantissa_log_bound(mantissa(v), LOG_ONE as nat);
    lemma2_to64_rest();
    let down = shifts(v);
    let up = (63 - down) as nat;
    vstd::arithmetic::power2::lemma_pow2_adds(up, down);
    vstd::arithmetic::power2::lemma_pow2_pos(down);
    assert(pow2(up) <= v < 2 * pow2(up)) by (nonlinear_arith)
        requires
            pow2(up) * pow2(down) <= v * pow2(down),
            v * pow2(down) < 2 * (pow2(up) * pow2(down)),
            pow2(down) > 0,
    ;
}

/// Doubling a number adds one to its fine logarithm.
pub proof fn lemma_log2_fine_of_double(v: nat)
    requires
        0 < v < MANTISSA_ONE,
    ensures
        log2_fine(2 * v) == log2_fine(v) + LOG_ONE,
{
}

/// The logarithm of a ratio is zero for equal numbers, never positive where
/// the first is the smaller, never negative where it is the larger, and
/// within 64 either way.
pub proof fn lemma_log2_ratio_sign(a: nat, b: nat)
    requires
        0 < a <= u64::MAX,
        0 < b <= u64::MAX,
    ensures
        -64 * SCALE <= log2_ratio(a, b) <= 64 * SCALE,
        a == b ==> log2_ratio(a, b) == 0,
        a <= b ==> log2_ratio(a, b) <= 0,
        a >= b ==> log2_ratio(a, b) >= 0,
{
    if a <= b {
        lemma_log2_fine_monotone(a, b);
    } else {
        lemma_log2_fine_monotone(b, a);
    }
    lemma_log2_fine_monotone(a, a);
    lemma_log2_fine_monotone(b, b);
}

/// The binary logarithm of the integer `v`, in units of `1 / LOG_ONE`.
pub fn log2_fine_of(v: u64) -> (log: u64)
    requires
        v > 0,
    ensures
        log == log2_fine(v as nat),
        log < 64 * LOG_ONE,
{
    proof {
        lemma_normal_form(v as nat);
        lemma_log2_fine_monotone(v as nat, v as nat);
        lemma_mantissa_log_bound(mantissa(v as nat), LOG_ONE as nat);
    }
    let mut m: u64 = v;
    let mut done: u64 = 0;
    while m < MANTISSA_ONE
        invariant
            0 < m,
            done + shifts(m as nat) == shifts(v as nat),
            mantissa(m as nat) == mantissa(v as nat),
            shifts(v as nat) <= 63,
        decreases gap(m as nat),
    {
        m = 2 * m;
        done = done + 1;
    }
    let exponent: u64 = 63 - done;
    let mut weight: u64 = LOG_ONE;
    let mut fraction: u64 = 0;
    while weight > 1
        invariant
            MANTISSA_ONE <= m,
            weight >= 1,
            fraction + mantissa_log(m as nat, weight as nat) == mantissa_log(
                mantissa(v as nat),
                LOG_ONE as nat,
            ),
            mantissa_log(mantissa(v as nat), LOG_ONE as nat) < LOG_ONE,
        decreases weight,
    {
        proof {
            lemma_square_range(m as nat);
        }
        let half: u64 = weight / 2;
        let square: u128 = (m as u128) * (m as u128) / (MANTISSA_ONE as u128);
        if square >= 2 * (MANTISSA_ONE as u128) {
            fraction = fraction + half;
            m = (square / 2) as u64;
        } else {
            m = square as u64;
        }
        weight = half;
    }
    exponent * LOG_ONE + fraction
}

/// The binary logarithm of `a / b`, in millionths and rounded down.
pub fn log2_ratio_of(a: u64, b: u64) -> (log: i64)
    requires
        a > 0,
        b > 0,
    ensures
        log == log2_ratio(a as nat, b as nat),
        -64 * SCALE <= log <= 64 * SCALE,
{
    proof {
        lemma_log2_ratio_sign(a as nat, b as nat);
    }
    let fine_a: u64 = log2_fine_of(a);
    let fine_b: u64 = log2_fine_of(b);
    if fine_a >= fine_b {
        let scaled: u128 = mul_wide(fine_a - fine_b, SCALE);
        (scaled / (LOG_ONE as u128)) as i64
    } else {
        let scaled: u128 = mul_wide(fine_b - fine_a, SCALE);
        let up: u128 = (scaled + (LOG_ONE as u128 - 1)) / (LOG_ONE as u128);
        -(up as i64)
    }
}

} // verus!
