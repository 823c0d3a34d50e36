//! Fixed-point numbers: an integer `v` stands for the quantity `v / SCALE`.

use vstd::prelude::*;
use vstd::arithmetic::power2::{lemma2_to64, lemma_pow2_unfold, pow2};

verus! {

/// How many raw steps make one unit.
pub const SCALE: u64 = 1_000_000;

/// The product of two raw values, which always fits the wider type.
pub fn mul_wide(a: u64, b: u64) -> (p: u128)
    ensures
        p == a * b,
{
    assert(a * b <= 0xffff_ffff_ffff_ffff * 0xffff_ffff_ffff_ffff) by (nonlinear_arith)
        requires
            a <= 0xffff_ffff_ffff_ffff,
            b <= 0xffff_ffff_ffff_ffff,
    ;
    (a as u128) * (b as u128)
}

/// `r` is the integer square root of `v`: the largest integer whose square
/// does not exceed `v`.
pub open spec fn is_isqrt(v: int, r: int) -> bool {
    0 <= r && r * r <= v && v < (r + 1) * (r + 1)
}

/// A number has one integer square root only.
pub proof fn lemma_isqrt_unique(v: int, r1: int, r2: int)
    requires
        is_isqrt(v, r1),
        is_isqrt(v, r2),
    ensures
        r1 == r2,
{
    assert(r1 == r2) by (nonlinear_arith)
        requires
            0 <= r1,
            0 <= r2,
            r1 * r1 <= v,
            v < (r1 + 1) * (r1 + 1),
            r2 * r2 <= v,
            v < (r2 + 1) * (r2 + 1),
    ;
}

/// The integer square root of `v`.
pub fn isqrt(v: u64) -> (r: u64)
    ensures
        is_isqrt(v as int, r as int),
{
    let mut lo: u64 = 0;
    let mut hi: u64 = 4_294_967_296;
    assert(lo * lo <= v);
    assert(v < hi * hi);
    while hi - lo > 1
        invariant
            lo < hi <= 4_294_967_296,
            lo * lo <= v,
            v < hi * hi,
        decreases hi - lo,
    {
        let mid: u64 = lo + (hi - lo) / 2;
        assert(mid * mid < 18_446_744_073_709_551_616) by (nonlinear_arith)
            requires
                mid < 4_294_967_296,
        ;
        if mid * mid <= v {
            lo = mid;
        } else {
            hi = mid;
        }
    }
    lo
}

/// One, in the finer scale in which [`exp_decay`] works: two to the power 62.
pub const DECAY_ONE: u128 = 4_611_686_018_427_387_904;

/// How often [`exp_decay`] squares its base.
pub const DECAY_SQUARINGS: u32 = 30;

/// The base that [`decay`] raises to the power `2^30`: the quantity
/// `1 - x / 2^30` for `x = d / SCALE`, in units of `1 / DECAY_ONE`, and zero
/// where that would be negative.
pub open spec fn decay_base(d: nat) -> nat {
    let step = d * 4_294_967_296 / (SCALE as nat);
    if step >= DECAY_ONE {
        0
    } else {
        (DECAY_ONE - step) as nat
    }
}

/// `t` squared `k` times over, rounded down to a multiple of `1 / DECAY_ONE`
/// after each squaring.
pub open spec fn squared_times(t: nat, k: nat) -> nat
    decreases k,
{
    if k == 0 {
        t
    } else {
        let h = squared_times(t, (k - 1) as nat);
        h * h / (DECAY_ONE as nat)
    }
}

/// The decay curve of the library: `(1 - x / 2^30)^(2^30)` for `x = d / SCALE`,
/// rounded down to the scale. It stands for `exp(-x)`.
pub open spec fn decay(d: nat) -> nat {
    squared_times(decay_base(d), DECAY_SQUARINGS as nat) * (SCALE as nat) / (DECAY_ONE as nat)
}

/// Squaring keeps a value that is at most one at most one.
pub proof fn lemma_squared_times_bounded(t: nat, k: nat)
    requires
        t <= DECAY_ONE,
    ensures
        squared_times(t, k) <= DECAY_ONE,
    decreases k,
{
    if k > 0 {
        lemma_squared_times_bounded(t, (k - 1) as nat);
        let h = squared_times(t, (k - 1) as nat);
        let q = DECAY_ONE as nat;
        assert(h * h / q <= q) by (nonlinear_arith)
            requires
                h <= q,
                q > 0,
        ;
    }
}

/// Repeated squaring keeps the order of two bases.
pub proof fn lemma_squared_times_monotone(a: nat, b: nat, k: nat)
    requires
        a <= b,
    ensures
        squared_times(a, k) <= squared_times(b, k),
    decreases k,
{
    if k > 0 {
        lemma_squared_times_monotone(a, b, (k - 1) as nat);
        let x = squared_times(a, (k - 1) as nat);
        let y = squared_times(b, (k - 1) as nat);
        let q = DECAY_ONE as nat;
        assert(x * x / q <= y * y / q) by (nonlinear_arith)
            requires
                x <= y,
                q > 0,
        ;
    }
}

/// Nothing squared stays nothing.
pub proof fn lemma_squared_times_zero(k: nat)
    ensures
        squared_times(0, k) == 0,
    decreases k,
{
    if k > 0 {
        lemma_squared_times_zero((k - 1) as nat);
        let h = squared_times(0, (k - 1) as nat);
        let q = DECAY_ONE as nat;
        assert(h * h / q == 0) by (nonlinear_arith)
            requires
                h == 0,
                q > 0,
        ;
    }
}

/// One squared stays one.
pub proof fn lemma_squared_times_one(k: nat)
    ensures
        squared_times(DECAY_ONE as nat, k) == DECAY_ONE,
    decreases k,
{
    if k > 0 {
        lemma_squared_times_one((k - 1) as nat);
        let q = DECAY_ONE as nat;
        assert(q * q / q == q) by (nonlinear_arith)
            requires
                q > 0,
        ;
    }
}

/// The curve starts at one and never exceeds it.
pub proof fn lemma_decay_bounds(d: nat)
    ensures
        decay(d) <= SCALE,
        decay(0) == SCALE,
{
    let q = DECAY_ONE as nat;
    let s = SCALE as nat;
    lemma_squared_times_bounded(decay_base(d), DECAY_SQUARINGS as nat);
    let t = squared_times(decay_base(d), DECAY_SQUARINGS as nat);
    assert(t * s / q <= s) by (nonlinear_arith)
        requires
            t <= q,
            q > 0,
    ;
    lemma_squared_times_one(DECAY_SQUARINGS as nat);
    assert(decay_base(0) == q);
    assert(q * s / q == s) by (nonlinear_arith)
        requires
            q > 0,
    ;
}

/// The curve never rises: a larger argument gives an equal or smaller value.
pub proof fn lemma_decay_monotone(d1: nat, d2: nat)
    requires
        d1 <= d2,
    ensures
        decay(d2) <= decay(d1),
{
    let q = DECAY_ONE as nat;
    let s = SCALE as nat;
    assert(d1 * 4_294_967_296 / s <= d2 * 4_294_967_296 / s) by (nonlinear_arith)
        requires
            d1 <= d2,
            s > 0,
    ;
    assert(decay_base(d2) <= decay_base(d1));
    lemma_squared_times_monotone(decay_base(d2), decay_base(d1), DECAY_SQUARINGS as nat);
    let t2 = squared_times(decay_base(d2), DECAY_SQUARINGS as nat);
    let t1 = squared_times(decay_base(d1), DECAY_SQUARINGS as nat);
    assert(t2 * s / q <= t1 * s / q) by (nonlinear_arith)
        requires
            t2 <= t1,
            q > 0,
    ;
}

/// Repeated squaring loses at most what the base lacks of one, doubled with
/// each squaring.
pub proof fn lemma_squared_times_lower(t: nat, k: nat)
    requires
        t <= DECAY_ONE,
    ensures
        squared_times(t, k) + pow2(k) * (DECAY_ONE - t) >= DECAY_ONE,
    decreases k,
{
    let q = DECAY_ONE as int;
    if k == 0 {
        lemma2_to64();
    } else {
        lemma_squared_times_lower(t, (k - 1) as nat);
        lemma_squared_times_bounded(t, (k - 1) as nat);
        lemma_pow2_unfold(k);
        let h = squared_times(t, (k - 1) as nat) as int;
        let a = pow2((k - 1) as nat) * (DECAY_ONE - t);
        assert(pow2(k) * (DECAY_ONE - t) == 2 * a) by (nonlinear_arith)
            requires
                pow2(k) == 2 * pow2((k - 1) as nat),
                a == pow2((k - 1) as nat) * (DECAY_ONE - t),
        ;
        assert(a >= 0) by (nonlinear_arith)
            requires
                a == pow2((k - 1) as nat) * (DECAY_ONE - t),
                DECAY_ONE - t >= 0,
        ;
        if a < q {
            assert(h * h >= q * (q - 2 * a)) by (nonlinear_arith)
                requires
                    h >= q - a,
                    q - a >= 0,
                    a >= 0,
            ;
            assert(h * h / q >= q - 2 * a) by (nonlinear_arith)
                requires
                    h * h >= q * (q - 2 * a),
                    q > 0,
            ;
        } else {
            assert(h * h / q >= 0) by (nonlinear_arith)
                requires
                    q > 0,
            ;
        }
    }
}

/// Repeated squaring of a base `t` that is at most `1 / (1 + s)` gives at
/// most `1 / (1 + 2^k * s)`.
pub proof fn lemma_squared_times_upper(t: nat, s: nat, k: nat)
    requires
        t * (DECAY_ONE + s) <= DECAY_ONE * DECAY_ONE,
    ensures
        squared_times(t, k) * (DECAY_ONE + pow2(k) * s) <= DECAY_ONE * DECAY_ONE,
    decreases k,
{
    let q = DECAY_ONE as int;
    if k == 0 {
        lemma2_to64();
        assert(pow2(0) * s == s) by (nonlinear_arith)
            requires
                pow2(0) == 1,
        ;
    } else {
        lemma_squared_times_upper(t, s, (k - 1) as nat);
        lemma_pow2_unfold(k);
        let h = squared_times(t, (k - 1) as nat) as int;
        let w = pow2((k - 1) as nat) * s;
        let g = h * h / q;
        assert(pow2(k) * s == 2 * w) by (nonlinear_arith)
            requires
                pow2(k) == 2 * pow2((k - 1) as nat),
                w == pow2((k - 1) as nat) * s,
        ;
        assert(w >= 0) by (nonlinear_arith)
            requires
                w == pow2((k - 1) as nat) * s,
        ;
        assert(0 <= g && g * q <= h * h) by (nonlinear_arith)
            requires
                g == h * h / q,
                q > 0,
        ;
        // From h * (q + w) <= q * q: (h * h) * (q + 2 * w) <= q * q * q.
        assert((h * h) * (q + 2 * w) <= q * q * q) by (nonlinear_arith)
            requires
                h * (q + w) <= q * q,
                0 <= h,
                0 <= w,
                q > 0,
        {
            let u = q + w;
            assert((h * u) * (h * u) <= (q * q) * (q * q));
            assert(u * u >= q * (q + 2 * w));
            assert((h * h) * (q * (q + 2 * w)) <= (h * h) * (u * u));
            assert((h * h) * (u * u) == (h * u) * (h * u));
            assert(q * ((h * h) * (q + 2 * w)) <= q * (q * q * q));
        }
        assert(g * (q + 2 * w) <= q * q) by (nonlinear_arith)
            requires
                0 <= g,
                g * q <= h * h,
                (h * h) * (q + 2 * w) <= q * q * q,
                0 <= w,
                q > 0,
        {
            assert((g * q) * (q + 2 * w) <= (h * h) * (q + 2 * w));
            assert(q * (g * (q + 2 * w)) <= q * (q * q));
        }
    }
}

/// The curve lies between the two plainest bounds of the exponential: it is
/// at least `1 - x`, and at most `1 / (1 + x)` with `x` taken one raw step
/// smaller.
pub proof fn lemma_decay_brackets(d: nat)
    ensures
        decay(d) + d >= SCALE,
        decay(d) * (SCALE + d - 1) <= SCALE * SCALE,
{
    lemma2_to64();
    let q = DECAY_ONE as int;
    let s = SCALE as int;
    let scaled = (d * 4_294_967_296) as int;
    let step = scaled / s;
    let base = decay_base(d);
    let t = squared_times(base, DECAY_SQUARINGS as nat) as int;
    let r = decay(d) as int;
    assert(pow2(30) == 0x4000_0000);
    assert(0 <= step && step * s <= scaled && scaled < step * s + s) by (nonlinear_arith)
        requires
            step == scaled / s,
            0 <= scaled,
            s > 0,
    ;
    lemma_squared_times_bounded(base, DECAY_SQUARINGS as nat);
    assert(0 <= r && r * q <= t * s && t * s < r * q + q) by (nonlinear_arith)
        requires
            r == t * s / q,
            0 <= t,
            s > 0,
            q > 0,
    ;
    if step >= q {
        lemma_squared_times_zero(DECAY_SQUARINGS as nat);
        assert(r == 0);
        assert(d >= s) by (nonlinear_arith)
            requires
                step >= q,
                step * s <= scaled,
                scaled == d * 4_294_967_296,
                q == 4_611_686_018_427_387_904,
                s == 1_000_000,
        ;
    } else {
        lemma_squared_times_lower(base, DECAY_SQUARINGS as nat);
        assert(t + 0x4000_0000 * step >= q);
        assert(r + d >= s) by (nonlinear_arith)
            requires
                t + 0x4000_0000 * step >= q,
                step * s <= scaled,
                scaled == d * 4_294_967_296,
                t * s < r * q + q,
                q == 4_611_686_018_427_387_904,
                s == 1_000_000,
                0 <= r,
        ;
        assert(base * (q + step) <= q * q) by (nonlinear_arith)
            requires
                base == q - step,
                0 <= step,
        ;
        lemma_squared_times_upper(base, step as nat, DECAY_SQUARINGS as nat);
        assert(t * (q + 0x4000_0000 * step) <= q * q);
        assert(r * (s + d - 1) <= s * s) by (nonlinear_arith)
            requires
                t * (q + 0x4000_0000 * step) <= q * q,
                r * q <= t * s,
                scaled < step * s + s,
                scaled == d * 4_294_967_296,
                q == 4_611_686_018_427_387_904,
                s == 1_000_000,
                0 <= r,
                0 <= t,
                0 <= step,
        ;
    }
}

/// The decay curve at `d`: [`decay`], which stands for `exp(-d / SCALE)`.
pub fn exp_decay(d: u64) -> (r: u64)
    ensures
        r == decay(d as nat),
        r <= SCALE,
{
    let step: u128 = (d as u128) * 4_294_967_296 / (SCALE as u128);
    let mut t: u128 = if step >= DECAY_ONE {
        0
    } else {
        DECAY_ONE - step
    };
    let ghost base = t as nat;
    assert(base == decay_base(d as nat));
    let mut k: u32 = 0;
    while k < DECAY_SQUARINGS
        invariant
            k <= DECAY_SQUARINGS,
            base <= DECAY_ONE,
            t == squared_times(base, k as nat),
        decreases DECAY_SQUARINGS - k,
    {
        proof {
            lemma_squared_times_bounded(base, k as nat);
            assert(t * t <= DECAY_ONE * DECAY_ONE) by (nonlinear_arith)
                requires
                    t <= DECAY_ONE,
            ;
        }
        t = t * t / DECAY_ONE;
        k = k + 1;
    }
    proof {
        lemma_squared_times_bounded(base, DECAY_SQUARINGS as nat);
        lemma_decay_bounds(d as nat);
        assert(t * SCALE <= DECAY_ONE * SCALE) by (nonlinear_arith)
            requires
                t <= DECAY_ONE,
        ;
    }
    let r: u128 = t * (SCALE as u128) / DECAY_ONE;
    r as u64
}

} // verus!
