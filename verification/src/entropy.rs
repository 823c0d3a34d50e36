//! Shannon entropy of a portfolio: how evenly its weight is spread over its
//! positions.

use vstd::prelude::*;
use crate::fixed::{mul_wide, SCALE};
use crate::logarithm::{
    lemma_log2_fine_monotone, lemma_log2_fine_of_double, lemma_log2_ratio_sign, log2_fine,
    log2_ratio, log2_ratio_of, LOG_ONE,
};

verus! {

/// One step of the upper half of the running sum in [`calculate_entropy`]:
/// two to the power 40.
pub const CARRY: u64 = 0x100_0000_0000;

/// A position of a portfolio.
#[derive(Debug, Clone)]
pub struct Position {
    /// The name of the asset.
    pub asset: String,
    /// The weight of the position, in millionths.
    pub weight: u64,
}

/// How the entropy is computed.
#[derive(Debug, Clone, Copy, PartialEq, Eq, Structural)]
pub struct EntropyConfig {
    /// Positions of less weight than this, in millionths, are left out.
    pub min_weight: u64,
    /// Whether the weights are first divided by their sum.
    pub normalize: bool,
}

impl Default for EntropyConfig {
    /// Positions from one millionth on, with normalized weights.
    fn default() -> (config: Self)
        ensures
            config.min_weight == 1,
            config.normalize,
    {
        EntropyConfig { min_weight: 1, normalize: true }
    }
}

/// The sum of the weights that are at least `min_weight`.
pub open spec fn kept_weight(positions: Seq<Position>, min_weight: u64) -> int
    decreases positions.len(),
{
    if positions.len() == 0 {
        0
    } else {
        kept_weight(positions.drop_last(), min_weight) + if positions.last().weight >= min_weight {
            positions.last().weight as int
        } else {
            0
        }
    }
}

/// The share that enters the entropy for a position of the given weight: the
/// weight over the sum of the kept weights, rounded down, where the weights
/// are normalized, and else the weight itself.
pub open spec fn share(weight: u64, whole: int, normalize: bool) -> int {
    if normalize {
        weight * SCALE / whole
    } else {
        weight as int
    }
}

/// What a share `p` adds to the entropy: `-p * log2(p)`, rounded down, and
/// nothing for a share of zero.
pub open spec fn entropy_term(p: int) -> int {
    if p <= 0 {
        0
    } else {
        p * (-log2_ratio(p as nat, SCALE as nat)) / (SCALE as int)
    }
}

/// The sum of the entropy terms of the positions that are at least
/// `min_weight`.
pub open spec fn entropy_sum(
    positions: Seq<Position>,
    min_weight: u64,
    whole: int,
    normalize: bool,
) -> int
    decreases positions.len(),
{
    if positions.len() == 0 {
        0
    } else {
        entropy_sum(positions.drop_last(), min_weight, whole, normalize) + if positions.last().weight
            >= min_weight {
            entropy_term(share(positions.last().weight, whole, normalize))
        } else {
            0
        }
    }
}

/// `x`, or the nearest value that a signed raw value can hold.
pub open spec fn saturated(x: int) -> int {
    if x > i64::MAX {
        i64::MAX as int
    } else if x < i64::MIN {
        i64::MIN as int
    } else {
        x
    }
}

/// The Shannon entropy of the positions, in millionths of a bit: zero where
/// the weights are normalized and their sum is zero, and else the sum of the
/// entropy terms, saturated.
pub open spec fn shannon_entropy(positions: Seq<Position>, config: EntropyConfig) -> int {
    let whole = kept_weight(positions, config.min_weight);
    if config.normalize && whole == 0 {
        0
    } else {
        saturated(entropy_sum(positions, config.min_weight, whole, config.normalize))
    }
}

/// The entropy over the logarithm of the number of positions, rounded down;
/// zero for fewer than two positions. Every position counts here, also one
/// that is too light to enter the entropy.
pub open spec fn relative_entropy(positions: Seq<Position>, config: EntropyConfig) -> int {
    if positions.len() <= 1 {
        0
    } else {
        shannon_entropy(positions, config) * SCALE / log2_ratio(positions.len(), 1)
    }
}

/// One minus the relative entropy, saturated.
pub open spec fn concentration(positions: Seq<Position>, config: EntropyConfig) -> int {
    saturated(SCALE - relative_entropy(positions, config))
}

/// The kept weights sum to a value between zero and the number of positions
/// times the largest raw value, and no kept weight exceeds the sum.
pub proof fn lemma_kept_weight_bounds(positions: Seq<Position>, min_weight: u64)
    ensures
        0 <= kept_weight(positions, min_weight) <= positions.len() * u64::MAX,
        forall|i: int|
            0 <= i < positions.len() && positions[i].weight >= min_weight ==> positions[i].weight
                <= kept_weight(positions, min_weight),
    decreases positions.len(),
{
    if positions.len() > 0 {
        lemma_kept_weight_bounds(positions.drop_last(), min_weight);
        assert forall|i: int|
            0 <= i < positions.len() && positions[i].weight >= min_weight implies positions[i].weight
            <= kept_weight(positions, min_weight) by {
            if i < positions.len() - 1 {
                assert(positions.drop_last()[i] == positions[i]);
            }
        }
    }
}

/// Dividing the negative of `a` rounds away from zero: it is the negative of
/// `a` over `c` rounded up.
pub proof fn lemma_floor_of_negative(a: int, c: int)
    requires
        a >= 0,
        c > 0,
    ensures
        (-a) / c == -((a + c - 1) / c),
{
    let q = (a + c - 1) / c;
    let r = (a + c - 1) % c;
    vstd::arithmetic::div_mod::lemma_fundamental_div_mod(a + c - 1, c);
    vstd::arithmetic::div_mod::lemma_mod_bound(a + c - 1, c);
    assert(a + c - 1 == c * q + r);
    assert(-a == (-q) * c + (c - 1 - r)) by (nonlinear_arith)
        requires
            a + c - 1 == c * q + r,
    ;
    vstd::arithmetic::div_mod::lemma_fundamental_div_mod_converse_div(-a, c, -q, c - 1 - r);
}

/// The entropy term of a share: within `2^71` either way, and never negative
/// for a share of at most one.
pub proof fn lemma_entropy_term_bounds(p: int)
    requires
        0 <= p <= u64::MAX,
    ensures
        -0x80_0000_0000_0000_0000 < entropy_term(p) < 0x80_0000_0000_0000_0000,
        p <= SCALE ==> 0 <= entropy_term(p) <= 64 * SCALE,
{
    if p > 0 {
        lemma_log2_ratio_sign(p as nat, SCALE as nat);
        let l = -log2_ratio(p as nat, SCALE as nat);
        let s = SCALE as int;
        assert(-0x80_0000_0000_0000_0000 < p * l / s < 0x80_0000_0000_0000_0000)
            by (nonlinear_arith)
            requires
                0 < p <= 0xffff_ffff_ffff_ffff,
                -64 * s <= l <= 64 * s,
                s == 1_000_000,
        ;
        if p <= SCALE {
            assert(0 <= p * l / s <= 64 * s) by (nonlinear_arith)
                requires
                    0 < p <= s,
                    0 <= l <= 64 * s,
                    s == 1_000_000,
            ;
        }
    }
}

/// The entropy of normalized weights is never negative.
pub proof fn lemma_normalized_entropy_sum_nonnegative(
    positions: Seq<Position>,
    min_weight: u64,
    whole: int,
)
    requires
        whole > 0,
        forall|i: int|
            0 <= i < positions.len() && positions[i].weight >= min_weight ==> positions[i].weight
                <= whole,
    ensures
        0 <= entropy_sum(positions, min_weight, whole, true) <= positions.len() * (64 * SCALE),
    decreases positions.len(),
{
    if positions.len() > 0 {
        let rest = positions.drop_last();
        assert forall|i: int| 0 <= i < rest.len() && rest[i].weight >= min_weight implies rest[i].weight
            <= whole by {
            assert(rest[i] == positions[i]);
        }
        lemma_normalized_entropy_sum_nonnegative(rest, min_weight, whole);
        let w = positions.last().weight;
        if w >= min_weight {
            assert(positions[positions.len() - 1].weight <= whole);
            let s = SCALE as int;
            assert(0 <= w * s / whole <= s) by (nonlinear_arith)
                requires
                    0 <= w <= whole,
                    whole > 0,
                    s > 0,
            ;
            lemma_entropy_term_bounds(share(w, whole, true));
        }
        assert((positions.len() - 1) * (64 * SCALE) + 64 * SCALE == positions.len() * (64
            * SCALE)) by (nonlinear_arith);
    } else {
        assert(positions.len() * (64 * SCALE) == 0) by (nonlinear_arith)
            requires
                positions.len() == 0,
        ;
    }
}

/// With normalized weights the entropy is never negative.
pub proof fn lemma_entropy_nonnegative(positions: Seq<Position>, config: EntropyConfig)
    requires
        config.normalize,
    ensures
        shannon_entropy(positions, config) >= 0,
{
    let whole = kept_weight(positions, config.min_weight);
    lemma_kept_weight_bounds(positions, config.min_weight);
    if whole > 0 {
        lemma_normalized_entropy_sum_nonnegative(positions, config.min_weight, whole);
    }
}

/// A portfolio of a single position has no entropy, and is as concentrated
/// as can be.
pub proof fn lemma_single_position(positions: Seq<Position>, config: EntropyConfig)
    requires
        positions.len() == 1,
        config.normalize,
    ensures
        shannon_entropy(positions, config) == 0,
        relative_entropy(positions, config) == 0,
        concentration(positions, config) == SCALE,
{
    let w = positions[0].weight;
    let s = SCALE as int;
    assert(positions.drop_last().len() == 0);
    assert(kept_weight(positions.drop_last(), config.min_weight) == 0);
    assert(entropy_sum(
        positions.drop_last(),
        config.min_weight,
        kept_weight(positions, config.min_weight),
        true,
    ) == 0);
    if w >= config.min_weight && w > 0 {
        assert(kept_weight(positions, config.min_weight) == w);
        assert(w * s / (w as int) == s) by (nonlinear_arith)
            requires
                w > 0,
        ;
        lemma_log2_ratio_sign(SCALE as nat, SCALE as nat);
        assert(s * 0 / s == 0);
        assert(entropy_term(s) == 0);
    }
}

/// Two or more positions can hold at least one bit of entropy.
pub proof fn lemma_capacity(count: nat)
    requires
        2 <= count <= u64::MAX,
    ensures
        SCALE <= log2_ratio(count, 1) <= 64 * SCALE,
{
    lemma_log2_fine_monotone(2, count);
    lemma_log2_fine_of_double(1);
    lemma_log2_ratio_sign(count, 1);
    let d = log2_fine(count) - log2_fine(1);
    assert(d >= LOG_ONE);
}

/// The sum of the weights that are at least `min_weight`.
pub fn sum_kept_weights(positions: &[Position], min_weight: u64) -> (sum: u128)
    ensures
        sum == kept_weight(positions@, min_weight),
{
    let mut sum: u128 = 0;
    let mut i: usize = 0;
    assert(positions@.subrange(0, 0) == Seq::<Position>::empty());
    while i < positions.len()
        invariant
            i <= positions.len(),
            sum == kept_weight(positions@.subrange(0, i as int), min_weight),
            sum <= i * 0xffff_ffff_ffff_ffff,
        decreases positions.len() - i,
    {
        proof {
            assert(positions@.subrange(0, i + 1).drop_last() == positions@.subrange(0, i as int));
            assert((i + 1) * 0xffff_ffff_ffff_ffff <= 0xffff_ffff_ffff_ffff
                * 0xffff_ffff_ffff_ffff) by (nonlinear_arith)
                requires
                    i + 1 <= 0xffff_ffff_ffff_ffff,
            ;
        }
        let weight: u64 = positions[i].weight;
        if weight >= min_weight {
            sum = sum + weight as u128;
        }
        i = i + 1;
    }
    assert(positions@.subrange(0, i as int) == positions@);
    sum
}

/// The Shannon entropy of the portfolio, in millionths of a bit.
pub fn calculate_entropy(positions: &[Position], config: &EntropyConfig) -> (entropy: i64)
    ensures
        entropy == shannon_entropy(positions@, *config),
{
    let whole: u128 = sum_kept_weights(positions, config.min_weight);
    if config.normalize && whole == 0 {
        return 0;
    }
    proof {
        lemma_kept_weight_bounds(positions@, config.min_weight);
    }
    // The running sum is `upper * CARRY + lower`.
    let mut upper: i128 = 0;
    let mut lower: u128 = 0;
    let mut i: usize = 0;
    assert(positions@.subrange(0, 0) == Seq::<Position>::empty());
    while i < positions.len()
        invariant
            i <= positions.len(),
            whole == kept_weight(positions@, config.min_weight),
            config.normalize ==> whole > 0,
            forall|k: int|
                0 <= k < positions.len() && positions@[k].weight >= config.min_weight
                    ==> positions@[k].weight <= whole,
            upper * CARRY + lower == entropy_sum(
                positions@.subrange(0, i as int),
                config.min_weight,
                whole as int,
                config.normalize,
            ),
            -i * 0x1_0000_0000 <= upper <= i * 0x1_0000_0000,
            lower <= i * CARRY,
        decreases positions.len() - i,
    {
        assert(positions@.subrange(0, i + 1).drop_last() == positions@.subrange(0, i as int));
        let weight: u64 = positions[i].weight;
        if weight >= config.min_weight {
            let p: u64 = if config.normalize {
                proof {
                    let s = SCALE as int;
                    let w = whole as int;
                    assert(0 <= weight * s / w <= s) by (nonlinear_arith)
                        requires
                            0 <= weight <= w,
                            w > 0,
                            s > 0,
                    ;
                }
                (mul_wide(weight, SCALE) / whole) as u64
            } else {
                weight
            };
            assert(p == share(weight, whole as int, config.normalize));
            if p > 0 {
                proof {
                    lemma_entropy_term_bounds(p as int);
                }
                let log: i64 = log2_ratio_of(p, SCALE);
                if log <= 0 {
                    let product: u128 = mul_wide(p, (-log) as u64);
                    let term: u128 = product / (SCALE as u128);
                    assert(term == entropy_term(p as int));
                    upper = upper + (term / (CARRY as u128)) as i128;
                    lower = lower + term % (CARRY as u128);
                } else {
                    let product: u128 = mul_wide(p, log as u64);
                    assert(product <= 0xffff_ffff_ffff_ffff * 64_000_000) by (nonlinear_arith)
                        requires
                            product == p * log,
                            0 <= p <= 0xffff_ffff_ffff_ffff,
                            0 <= log <= 64_000_000,
                    ;
                    let term: u128 = (product + (SCALE as u128 - 1)) / (SCALE as u128);
                    proof {
                        lemma_floor_of_negative(product as int, SCALE as int);
                        assert(p * (-log) == -(p * log)) by (nonlinear_arith);
                        assert(-term == entropy_term(p as int));
                    }
                    upper = upper - ((term / (CARRY as u128)) as i128 + 1);
                    lower = lower + ((CARRY as u128) - term % (CARRY as u128));
                }
            }
        }
        i = i + 1;
    }
    assert(positions@.subrange(0, i as int) == positions@);
    let carried: i128 = upper + (lower / (CARRY as u128)) as i128;
    let rest: u128 = lower % (CARRY as u128);
    if carried >= 0x80_0000 {
        i64::MAX
    } else if carried < -0x80_0000 {
        i64::MIN
    } else {
        (carried * (CARRY as i128) + rest as i128) as i64
    }
}

/// The entropy of the portfolio relative to the largest that its number of
/// positions allows, in millionths.
pub fn normalized_entropy(positions: &[Position], config: &EntropyConfig) -> (ratio: i64)
    ensures
        ratio == relative_entropy(positions@, *config),
{
    let count: usize = positions.len();
    if count <= 1 {
        return 0;
    }
    proof {
        lemma_capacity(count as nat);
    }
    let entropy: i64 = calculate_entropy(positions, config);
    let capacity: u64 = log2_ratio_of(count as u64, 1) as u64;
    if entropy >= 0 {
        let scaled: u128 = mul_wide(entropy as u64, SCALE);
        proof {
            let e = entropy as int;
            let s = SCALE as int;
            let c = capacity as int;
            assert(0 <= e * s / c <= e) by (nonlinear_arith)
                requires
                    0 <= e,
                    0 < s <= c,
            ;
        }
        (scaled / (capacity as u128)) as i64
    } else {
        let size: u64 = (-(entropy as i128)) as u64;
        let scaled: u128 = mul_wide(size, SCALE);
        proof {
            let e = size as int;
            let s = SCALE as int;
            let c = capacity as int;
            lemma_floor_of_negative(e * s, c);
            assert(entropy * s == -(e * s)) by (nonlinear_arith)
                requires
                    entropy == -e,
            ;
            assert(0 <= (e * s + c - 1) / c <= e) by (nonlinear_arith)
                requires
                    0 < e,
                    0 < s <= c,
            ;
        }
        let up: u128 = (scaled + (capacity as u128 - 1)) / (capacity as u128);
        (-(up as i128)) as i64
    }
}

/// How concentrated the portfolio is: one minus its relative entropy, in
/// millionths.
pub fn concentration_risk(positions: &[Position], config: &EntropyConfig) -> (risk: i64)
    ensures
        risk == concentration(positions@, *config),
{
    let ratio: i64 = normalized_entropy(positions, config);
    let risk: i128 = SCALE as i128 - ratio as i128;
    if risk > i64::MAX as i128 {
        i64::MAX
    } else {
        risk as i64
    }
}

} // verus!
