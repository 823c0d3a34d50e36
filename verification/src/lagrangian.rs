//! The fragility score: a barrier on the capital constraint, a penalty on
//! portfolio entropy and a term for liquidity stress, summed and mapped onto
//! the range from 0 to 100.

use vstd::prelude::*;
use crate::fixed::{decay, exp_decay, lemma_decay_bounds, lemma_decay_monotone, mul_wide, SCALE};

verus! {

/// The stress multiplier of a bank whose capital does not exceed what the
/// regulator requires: 1000.
pub const SATURATION: u64 = 1_000_000_000;

/// The liquidity stress of a bank without any liquidity coverage: the value
/// that the term takes at the smallest positive coverage ratio.
pub const LIQUIDITY_STRESS_MAX: u64 = 10_000_000_000_000;

/// The shift of the normalizing curve: a raw score of 50 maps to a score of 50.
pub const NORMALIZATION_SHIFT: u64 = 50_000_000;

/// The upper end of the score range: 100.
pub const MAX_SCORE: u64 = 100_000_000;

/// The regulatory figures of a bank, each in millionths.
#[derive(Debug, Clone, Copy, PartialEq, Eq, Structural)]
pub struct BankState {
    /// Tier 1 capital: the core equity that absorbs losses.
    pub tier1_capital: u64,
    /// Total risk-weighted assets.
    pub total_assets: u64,
    /// Liquidity coverage ratio.
    pub liquidity_coverage: u64,
    /// Entropy index of the asset portfolio.
    pub entropy_index: u64,
}

/// A balance sheet in its plain figures, each in millionths.
#[derive(Debug, Clone, Copy, PartialEq, Eq, Structural)]
pub struct BalanceSheet {
    /// Everything the bank owns.
    pub assets: u64,
    /// Everything the bank owes.
    pub liabilities: u64,
    /// The owners' stake.
    pub equity: u64,
    /// Liabilities over equity. It follows from the two and is carried along
    /// without a part in the score.
    pub leverage: u64,
}

/// The regulatory figures that stand for a plain balance sheet: the equity as
/// tier 1 capital, the assets as they are, the assets over the liabilities as
/// liquidity coverage (the largest ratio where nothing is owed), and no
/// entropy, as a balance sheet says nothing of the portfolio.
pub open spec fn state_of(sheet: BalanceSheet) -> BankState {
    BankState {
        tier1_capital: sheet.equity,
        total_assets: sheet.assets,
        liquidity_coverage: if sheet.liabilities == 0 {
            u64::MAX
        } else {
            let cover = sheet.assets * SCALE / (sheet.liabilities as int);
            if cover > u64::MAX {
                u64::MAX
            } else {
                cover as u64
            }
        },
        entropy_index: 0,
    }
}

impl BankState {
    /// The regulatory figures that stand for a plain balance sheet.
    pub fn from_balance_sheet(sheet: &BalanceSheet) -> (state: BankState)
        ensures
            state == state_of(*sheet),
    {
        let liquidity_coverage: u64 = if sheet.liabilities == 0 {
            u64::MAX
        } else {
            let cover: u128 = mul_wide(sheet.assets, SCALE) / (sheet.liabilities as u128);
            if cover > u64::MAX as u128 {
                u64::MAX
            } else {
                cover as u64
            }
        };
        BankState {
            tier1_capital: sheet.equity,
            total_assets: sheet.assets,
            liquidity_coverage,
            entropy_index: 0,
        }
    }
}

/// The parameters of the score, each in millionths.
#[derive(Debug, Clone, Copy, PartialEq, Eq, Structural)]
pub struct LagrangianConfig {
    /// How steeply stress rises as capital nears the required minimum.
    pub lambda_sensitivity: u64,
    /// The capital that the regulator requires, as a share of the assets.
    pub regulatory_min_capital: u64,
}

impl Default for LagrangianConfig {
    /// A sensitivity of 2 and a minimum capital ratio of 8%.
    fn default() -> (config: Self)
        ensures
            config.lambda_sensitivity == 2_000_000,
            config.regulatory_min_capital == 80_000,
    {
        LagrangianConfig { lambda_sensitivity: 2_000_000, regulatory_min_capital: 80_000 }
    }
}

/// The capital that the regulator requires of the bank: its assets times the
/// minimum ratio, rounded down.
pub open spec fn required_capital(bank: BankState, config: LagrangianConfig) -> int {
    bank.total_assets * config.regulatory_min_capital / (SCALE as int)
}

/// How far the bank's capital lies above the required capital; zero or
/// negative where the constraint is violated.
pub open spec fn constraint_distance(bank: BankState, config: LagrangianConfig) -> int {
    bank.tier1_capital - required_capital(bank, config)
}

/// The shadow price of the capital constraint: saturated where the constraint
/// is violated, else the sensitivity times the decay of the distance.
pub open spec fn stress_multiplier(bank: BankState, config: LagrangianConfig) -> int {
    let distance = constraint_distance(bank, config);
    if distance <= 0 {
        SATURATION as int
    } else {
        config.lambda_sensitivity * decay(distance as nat) / (SCALE as int)
    }
}

/// One and a half times the entropy index, rounded down.
pub open spec fn entropy_penalty(bank: BankState) -> int {
    bank.entropy_index * 3 / 2
}

/// Ten times the inverse of the liquidity coverage ratio, rounded down; a
/// ratio of zero counts as the smallest positive ratio.
pub open spec fn liquidity_stress(bank: BankState) -> int {
    if bank.liquidity_coverage == 0 {
        LIQUIDITY_STRESS_MAX as int
    } else {
        LIQUIDITY_STRESS_MAX as int / (bank.liquidity_coverage as int)
    }
}

/// The sum of the three stress terms.
pub open spec fn raw_score(bank: BankState, config: LagrangianConfig) -> int {
    stress_multiplier(bank, config) + entropy_penalty(bank) + liquidity_stress(bank)
}

/// The saturating curve `100 * raw / (raw + 50)`, rounded down.
pub open spec fn normalize(raw: int) -> int {
    MAX_SCORE * raw / (raw + NORMALIZATION_SHIFT)
}

/// The fragility score of `bank` under `config`.
pub open spec fn fragility(bank: BankState, config: LagrangianConfig) -> int {
    normalize(raw_score(bank, config))
}

/// The normalizing curve stays below 100 and never falls as the raw score
/// rises.
pub proof fn lemma_normalize(a: int, b: int)
    requires
        0 <= a <= b,
    ensures
        0 <= normalize(a) <= normalize(b) < MAX_SCORE,
{
    let c = MAX_SCORE as int;
    let k = NORMALIZATION_SHIFT as int;
    let qa = c * a / (a + k);
    let qb = c * b / (b + k);
    assert(0 <= qa && qa * (a + k) <= c * a && qa < c) by (nonlinear_arith)
        requires
            qa == c * a / (a + k),
            0 <= a,
            k > 0,
            c > 0,
    ;
    assert(qb < c) by (nonlinear_arith)
        requires
            qb == c * b / (b + k),
            0 <= b,
            k > 0,
            c > 0,
    ;
    assert(qa * (b + k) <= c * b) by (nonlinear_arith)
        requires
            qa * (a + k) <= c * a,
            0 <= qa < c,
            0 <= a <= b,
            k > 0,
    ;
    assert(qa <= qb) by (nonlinear_arith)
        requires
            qa * (b + k) <= c * b,
            qb == c * b / (b + k),
            0 <= b,
            k > 0,
    ;
}

/// The stress multiplier is never negative, and at most the larger of the
/// saturation value and the sensitivity.
pub proof fn lemma_stress_multiplier_bounds(bank: BankState, config: LagrangianConfig)
    ensures
        0 <= stress_multiplier(bank, config),
        stress_multiplier(bank, config) <= SATURATION || stress_multiplier(bank, config)
            <= config.lambda_sensitivity,
{
    let distance = constraint_distance(bank, config);
    if distance > 0 {
        lemma_decay_bounds(distance as nat);
        let e = decay(distance as nat) as int;
        let l = config.lambda_sensitivity as int;
        let s = SCALE as int;
        assert(0 <= l * e / s <= l) by (nonlinear_arith)
            requires
                0 <= e <= s,
                0 <= l,
                s > 0,
        ;
    }
}

/// The fragility score of a bank, from 0 to 100.
pub fn compute_fragility(bank: &BankState, config: &LagrangianConfig) -> (score: u64)
    ensures
        score == fragility(*bank, *config),
        score < MAX_SCORE,
{
    let required: u128 = mul_wide(bank.total_assets, config.regulatory_min_capital) / (SCALE as u128);
    let lambda: u128 = if (bank.tier1_capital as u128) <= required {
        SATURATION as u128
    } else {
        let distance: u64 = (bank.tier1_capital as u128 - required) as u64;
        let e: u64 = exp_decay(distance);
        mul_wide(config.lambda_sensitivity, e) / (SCALE as u128)
    };
    proof {
        lemma_stress_multiplier_bounds(*bank, *config);
    }
    assert(lambda == stress_multiplier(*bank, *config));
    let penalty: u128 = (bank.entropy_index as u128) * 3 / 2;
    let liquidity: u128 = if bank.liquidity_coverage == 0 {
        LIQUIDITY_STRESS_MAX as u128
    } else {
        (LIQUIDITY_STRESS_MAX as u128) / (bank.liquidity_coverage as u128)
    };
    assert(liquidity <= LIQUIDITY_STRESS_MAX) by (nonlinear_arith)
        requires
            liquidity == LIQUIDITY_STRESS_MAX || (bank.liquidity_coverage > 0 && liquidity == (
            LIQUIDITY_STRESS_MAX as u128) / (bank.liquidity_coverage as u128)),
    ;
    let raw: u128 = lambda + penalty + liquidity;
    assert(raw == raw_score(*bank, *config));
    proof {
        lemma_normalize(raw as int, raw as int);
        assert(MAX_SCORE * raw <= 100_000_000 * 0x4_0000_0000_0000_0000) by (nonlinear_arith)
            requires
                raw <= 0x4_0000_0000_0000_0000,
        ;
    }
    let score: u128 = (MAX_SCORE as u128) * raw / (raw + NORMALIZATION_SHIFT as u128);
    score as u64
}

/// The score lies in the range from 0 to 100, whatever the bank state and the
/// configuration.
pub proof fn lemma_fragility_in_range(bank: BankState, config: LagrangianConfig)
    ensures
        0 <= fragility(bank, config) <= MAX_SCORE,
{
    lemma_stress_multiplier_bounds(bank, config);
    let raw = raw_score(bank, config);
    assert(liquidity_stress(bank) >= 0) by (nonlinear_arith)
        requires
            liquidity_stress(bank) == LIQUIDITY_STRESS_MAX as int || (bank.liquidity_coverage > 0
                && liquidity_stress(bank) == LIQUIDITY_STRESS_MAX as int / (
            bank.liquidity_coverage as int)),
    ;
    lemma_normalize(raw, raw);
}

/// With a sensitivity that does not exceed the saturation value, no bank has
/// a stress multiplier above the saturation value.
pub proof fn lemma_saturation_is_the_maximum(bank: BankState, config: LagrangianConfig)
    requires
        config.lambda_sensitivity <= SATURATION,
    ensures
        stress_multiplier(bank, config) <= SATURATION,
{
    lemma_stress_multiplier_bounds(bank, config);
}

/// Less capital against the same or more assets never lowers the score: with
/// liquidity and entropy held fixed, the bank with the lower capital ratio
/// scores equal or higher. The one case left out is that of a sensitivity so
/// large that the stronger bank, though it meets the constraint, is under
/// more stress than the saturation value that stands for a violated
/// constraint; no sensitivity up to the saturation value allows that.
pub proof fn lemma_fragility_monotone_in_capital(
    weaker: BankState,
    stronger: BankState,
    config: LagrangianConfig,
)
    requires
        weaker.tier1_capital <= stronger.tier1_capital,
        weaker.total_assets >= stronger.total_assets,
        weaker.liquidity_coverage == stronger.liquidity_coverage,
        weaker.entropy_index == stronger.entropy_index,
        constraint_distance(weaker, config) <= 0 ==> stress_multiplier(stronger, config)
            <= SATURATION,
    ensures
        fragility(weaker, config) >= fragility(stronger, config),
{
    let s = SCALE as int;
    let m = config.regulatory_min_capital as int;
    let aw = weaker.total_assets as int;
    let a_s = stronger.total_assets as int;
    assert(a_s * m / s <= aw * m / s) by (nonlinear_arith)
        requires
            0 <= a_s <= aw,
            0 <= m,
            s > 0,
    ;
    let dw = constraint_distance(weaker, config);
    let ds = constraint_distance(stronger, config);
    assert(dw <= ds);
    lemma_stress_multiplier_bounds(stronger, config);
    if dw > 0 {
        lemma_decay_monotone(dw as nat, ds as nat);
        let l = config.lambda_sensitivity as int;
        let ew = decay(dw as nat) as int;
        let es = decay(ds as nat) as int;
        assert(l * es / s <= l * ew / s) by (nonlinear_arith)
            requires
                0 <= es <= ew,
                0 <= l,
                s > 0,
        ;
    }
    assert(stress_multiplier(stronger, config) <= stress_multiplier(weaker, config));
    assert(liquidity_stress(stronger) >= 0) by (nonlinear_arith)
        requires
            liquidity_stress(stronger) == LIQUIDITY_STRESS_MAX as int || (
            stronger.liquidity_coverage > 0 && liquidity_stress(stronger)
                == LIQUIDITY_STRESS_MAX as int / (stronger.liquidity_coverage as int)),
    ;
    lemma_normalize(raw_score(stronger, config), raw_score(weaker, config));
}

/// Less liquidity and more entropy never lower the score, with capital and
/// assets held fixed.
pub proof fn lemma_fragility_monotone_in_stress(
    calmer: BankState,
    tenser: BankState,
    config: LagrangianConfig,
)
    requires
        calmer.tier1_capital == tenser.tier1_capital,
        calmer.total_assets == tenser.total_assets,
        calmer.liquidity_coverage >= tenser.liquidity_coverage,
        calmer.entropy_index <= tenser.entropy_index,
    ensures
        fragility(calmer, config) <= fragility(tenser, config),
{
    lemma_stress_multiplier_bounds(calmer, config);
    let top = LIQUIDITY_STRESS_MAX as int;
    let lc = calmer.liquidity_coverage as int;
    let lt = tenser.liquidity_coverage as int;
    if lt > 0 {
        assert(0 <= top / lc <= top / lt) by (nonlinear_arith)
            requires
                0 < lt <= lc,
                top >= 0,
        ;
    } else if lc > 0 {
        assert(0 <= top / lc <= top) by (nonlinear_arith)
            requires
                0 < lc,
                top >= 0,
        ;
    }
    assert(liquidity_stress(calmer) <= liquidity_stress(tenser));
    lemma_normalize(raw_score(calmer, config), raw_score(tenser, config));
}

/// The capital adequacy ratio: tier 1 capital over total assets, rounded down
/// and capped at the largest raw value. A bank without assets has the
/// largest ratio if it holds any capital, and the ratio zero if it holds
/// none.
pub open spec fn capital_ratio(bank: BankState) -> int {
    if bank.total_assets == 0 {
        if bank.tier1_capital == 0 {
            0
        } else {
            u64::MAX as int
        }
    } else {
        let ratio = bank.tier1_capital * SCALE / (bank.total_assets as int);
        if ratio > u64::MAX {
            u64::MAX as int
        } else {
            ratio
        }
    }
}

/// The capital adequacy ratio of the bank.
pub fn capital_adequacy_ratio(bank: &BankState) -> (ratio: u64)
    ensures
        ratio == capital_ratio(*bank),
{
    if bank.total_assets == 0 {
        if bank.tier1_capital == 0 {
            0
        } else {
            u64::MAX
        }
    } else {
        let ratio: u128 = mul_wide(bank.tier1_capital, SCALE) / (bank.total_assets as u128);
        if ratio > u64::MAX as u128 {
            u64::MAX
        } else {
            ratio as u64
        }
    }
}

/// Whether the capital adequacy ratio of the bank reaches `min_ratio`.
pub fn is_adequately_capitalized(bank: &BankState, min_ratio: u64) -> (adequate: bool)
    ensures
        adequate == (capital_ratio(*bank) >= min_ratio),
{
    capital_adequacy_ratio(bank) >= min_ratio
}

/// Rounding and the cap lose nothing of the comparison: a bank with assets
/// reaches `min_ratio` exactly if its capital is at least that share of its
/// assets.
pub proof fn lemma_adequacy_is_exact(bank: BankState, min_ratio: u64)
    requires
        bank.total_assets > 0,
    ensures
        (capital_ratio(bank) >= min_ratio) == (bank.tier1_capital * SCALE >= min_ratio
            * bank.total_assets),
{
    let c = bank.tier1_capital * SCALE;
    let a = bank.total_assets as int;
    let m = min_ratio as int;
    assert((c / a >= m) == (c >= m * a)) by (nonlinear_arith)
        requires
            a > 0,
            0 <= c,
            0 <= m,
    ;
}

} // verus!
