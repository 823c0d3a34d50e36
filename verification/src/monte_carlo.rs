//! Monte Carlo stress testing: one shock per path, one score per shocked
//! state, and the risk figures of the scores.

use rayon::iter::{IntoParallelRefIterator, ParallelIterator};
use vstd::prelude::*;
use crate::fixed::{is_isqrt, isqrt, mul_wide, SCALE};
use crate::lagrangian::{
    compute_fragility, fragility, lemma_fragility_in_range, BankState, LagrangianConfig, MAX_SCORE,
};
use crate::statistics::{
    all_within, count_exceedances, exceedances, lemma_exceedances_bounds, lemma_mean_bounds,
    lemma_quantile_splits, quantile_rank,
    lemma_quantile_rank, lemma_sorted_copy, lemma_total_bounds, lemma_variance_bounds, maximum,
    mean, quantile, quantile_index, sort_scores, sorted_copy, squared_deviations, sum_scores,
    sum_squared_deviations, total, variance,
};

verus! {

/// The shock that moves a figure by one hundred percent: a shock of one moves
/// it by one percent.
pub const SHOCK_UNIT: u64 = 100_000_000;

/// The shocks of one path, one for each figure of the bank state, each in
/// millionths.
#[derive(Debug, Clone, Copy, PartialEq, Eq, Structural)]
pub struct ShockTuple {
    /// The shock to the tier 1 capital.
    pub tier1_capital: i64,
    /// The shock to the total assets.
    pub total_assets: i64,
    /// The shock to the liquidity coverage ratio.
    pub liquidity_coverage: i64,
    /// The shock to the entropy index.
    pub entropy_index: i64,
}

/// How a simulation is run.
#[derive(Debug, Clone, Copy, PartialEq, Eq, Structural)]
pub struct MonteCarloConfig {
    /// The number of paths.
    pub num_simulations: usize,
    /// The seed from which the shocks are drawn.
    pub seed: u64,
    /// The standard deviation of a shock, in millionths.
    pub shock_size: u64,
    /// The number of threads that evaluate the paths; zero leaves the choice
    /// to the machine.
    pub num_threads: usize,
}

impl Default for MonteCarloConfig {
    /// Ten thousand paths from the seed 42, shocks of two standard
    /// deviations, and as many threads as the machine offers.
    fn default() -> (config: Self)
        ensures
            config.num_simulations == 10_000,
            config.seed == 42,
            config.shock_size == 2_000_000,
            config.num_threads == 0,
    {
        MonteCarloConfig { num_simulations: 10_000, seed: 42, shock_size: 2_000_000, num_threads: 0 }
    }
}

/// Why a simulation gave no result.
#[derive(Debug, Clone, Copy, PartialEq, Eq, Structural)]
pub enum SimulationError {
    /// No path was asked for, so there is nothing to summarize.
    EmptyRun,
    /// The inputs do not fit together: the number of shocks is not the number
    /// of paths, or a score lies above the score range.
    InvalidInput,
}

/// The scores of a simulation and their risk figures.
#[derive(Debug, Clone)]
pub struct SimulationResult {
    /// The score of each path, in the order of the paths.
    pub fragilities: Vec<u64>,
    /// The mean score.
    pub mean: u64,
    /// The standard deviation of the scores.
    pub std_dev: u64,
    /// The value at risk at 95%.
    pub var_95: u64,
    /// The value at risk at 99%.
    pub var_99: u64,
    /// The largest score.
    pub max_fragility: u64,
}

impl SimulationResult {
    /// The result holds `scores` as they are, and the risk figures of
    /// `scores`: the mean, the population standard deviation rounded down,
    /// the quantiles at 95 and 99 in a hundred, and the maximum.
    pub open spec fn summarizes(self, scores: Seq<u64>) -> bool {
        &&& self.fragilities@ == scores
        &&& self.mean == mean(scores)
        &&& is_isqrt(variance(scores), self.std_dev as int)
        &&& self.var_95 == quantile(scores, 95)
        &&& self.var_99 == quantile(scores, 99)
        &&& self.max_fragility == maximum(scores)
    }
}

/// A figure after a shock: the figure times `1 + shock / 100`, rounded down,
/// never below zero and never above the largest raw value.
pub open spec fn shocked(field: u64, shock: i64) -> u64 {
    let moved = field * (SHOCK_UNIT + shock) / (SHOCK_UNIT as int);
    if moved < 0 {
        0
    } else if moved > u64::MAX {
        u64::MAX
    } else {
        moved as u64
    }
}

/// The bank state after a shock to each of its figures.
pub open spec fn perturbed(base: BankState, shock: ShockTuple) -> BankState {
    BankState {
        tier1_capital: shocked(base.tier1_capital, shock.tier1_capital),
        total_assets: shocked(base.total_assets, shock.total_assets),
        liquidity_coverage: shocked(base.liquidity_coverage, shock.liquidity_coverage),
        entropy_index: shocked(base.entropy_index, shock.entropy_index),
    }
}

/// The score of the path on which `shock` falls.
pub open spec fn path_score(base: BankState, config: LagrangianConfig, shock: ShockTuple) -> u64 {
    fragility(perturbed(base, shock), config) as u64
}

/// The scores of all paths, in the order of their shocks.
pub open spec fn path_scores(
    base: BankState,
    config: LagrangianConfig,
    shocks: Seq<ShockTuple>,
) -> Seq<u64> {
    Seq::new(shocks.len(), |i: int| path_score(base, config, shocks[i]))
}

/// A shock of zero leaves a figure as it is, and a larger shock never gives
/// a smaller figure.
pub proof fn lemma_shocked_monotone(field: u64, lower: i64, higher: i64)
    requires
        lower <= higher,
    ensures
        shocked(field, 0) == field,
        shocked(field, lower) <= shocked(field, higher),
{
    let unit = SHOCK_UNIT as int;
    let f = field as int;
    assert(f * (unit + 0) / unit == f) by (nonlinear_arith)
        requires
            unit > 0,
    ;
    assert(f * (unit + lower) / unit <= f * (unit + higher) / unit) by (nonlinear_arith)
        requires
            lower <= higher,
            0 <= f,
            unit > 0,
    ;
}

/// One figure after a shock.
pub fn apply_shock_to(field: u64, shock: i64) -> (moved: u64)
    ensures
        moved == shocked(field, shock),
{
    if shock <= -(SHOCK_UNIT as i64) {
        proof {
            let factor = SHOCK_UNIT + shock;
            let unit = SHOCK_UNIT as int;
            assert(field * factor / unit <= 0) by (nonlinear_arith)
                requires
                    factor <= 0,
                    0 <= field,
                    unit > 0,
            ;
        }
        0
    } else {
        let factor: u64 = (SHOCK_UNIT as i128 + shock as i128) as u64;
        let moved: u128 = mul_wide(field, factor) / (SHOCK_UNIT as u128);
        if moved > u64::MAX as u128 {
            u64::MAX
        } else {
            moved as u64
        }
    }
}

/// The bank state after a shock to each of its figures.
pub fn apply_shock(base: &BankState, shock: &ShockTuple) -> (state: BankState)
    ensures
        state == perturbed(*base, *shock),
{
    BankState {
        tier1_capital: apply_shock_to(base.tier1_capital, shock.tier1_capital),
        total_assets: apply_shock_to(base.total_assets, shock.total_assets),
        liquidity_coverage: apply_shock_to(base.liquidity_coverage, shock.liquidity_coverage),
        entropy_index: apply_shock_to(base.entropy_index, shock.entropy_index),
    }
}

/// The score of one path: the fragility of the base state after the shock.
pub fn evaluate_path(
    base: &BankState,
    config: &LagrangianConfig,
    shock: &ShockTuple,
) -> (score: u64)
    ensures
        score == path_score(*base, *config, *shock),
        score < MAX_SCORE,
{
    let state = apply_shock(base, shock);
    compute_fragility(&state, config)
}

/// The share of the scores that lie strictly above `threshold`, in
/// millionths and rounded down; zero where there is no score.
pub open spec fn tail_fraction(scores: Seq<u64>, threshold: u64) -> int {
    if scores.len() == 0 {
        0
    } else {
        exceedances(scores, threshold) * SCALE / (scores.len() as int)
    }
}

/// What [`summarize`] makes of `scores`: the summary of one or more scores
/// within the score range, and else the reason why there is none.
pub open spec fn is_summary_outcome(
    outcome: Result<SimulationResult, SimulationError>,
    scores: Seq<u64>,
) -> bool {
    match outcome {
        Ok(result) => scores.len() > 0 && all_within(scores, MAX_SCORE) && result.summarizes(
            scores,
        ),
        Err(error) => if scores.len() == 0 {
            error == SimulationError::EmptyRun
        } else {
            error == SimulationError::InvalidInput && !all_within(scores, MAX_SCORE)
        },
    }
}

/// What [`run_simulation`] makes of its inputs: the summary of the scores of
/// all paths where there is one shock for each of one or more paths, and else
/// the reason why there is none. Neither the seed nor the number of threads
/// has a part in it.
pub open spec fn is_run_outcome(
    outcome: Result<SimulationResult, SimulationError>,
    base: BankState,
    lag_config: LagrangianConfig,
    mc_config: MonteCarloConfig,
    shocks: Seq<ShockTuple>,
) -> bool {
    match outcome {
        Ok(result) => mc_config.num_simulations > 0 && shocks.len() == mc_config.num_simulations
            && result.summarizes(path_scores(base, lag_config, shocks)),
        Err(error) => if mc_config.num_simulations == 0 {
            error == SimulationError::EmptyRun
        } else {
            error == SimulationError::InvalidInput && shocks.len() != mc_config.num_simulations
        },
    }
}

/// Whether every element of `v` is at most `bound`.
pub fn within_limit(v: &Vec<u64>, bound: u64) -> (within: bool)
    ensures
        within == all_within(v@, bound),
{
    let mut i: usize = 0;
    while i < v.len()
        invariant
            i <= v.len(),
            forall|k: int| 0 <= k < i ==> v@[k] <= bound,
        decreases v.len() - i,
    {
        if v[i] > bound {
            return false;
        }
        i = i + 1;
    }
    true
}

/// The risk figures of `scores`, with the scores themselves kept as they are.
pub fn summarize(scores: Vec<u64>) -> (outcome: Result<SimulationResult, SimulationError>)
    ensures
        is_summary_outcome(outcome, scores@),
        outcome matches Ok(result) ==> result.var_95 <= result.var_99 <= result.max_fragility
            <= MAX_SCORE,
        outcome matches Ok(result) ==> result.mean <= result.max_fragility && result.std_dev
            <= MAX_SCORE,
{
    let n: usize = scores.len();
    if n == 0 {
        return Err(SimulationError::EmptyRun);
    }
    if !within_limit(&scores, MAX_SCORE) {
        return Err(SimulationError::InvalidInput);
    }
    proof {
        lemma_total_bounds(scores@, MAX_SCORE);
        lemma_mean_bounds(scores@, MAX_SCORE);
        lemma_variance_bounds(scores@, MAX_SCORE);
        lemma_sorted_copy(scores@);
        lemma_risk_figures_ordered(scores@);
        lemma_maximum(scores@);
        lemma_mean_at_most_maximum(scores@);
    }
    let sum: u128 = sum_scores(&scores);
    let mean: u64 = (sum / (n as u128)) as u64;
    let deviations: u128 = sum_squared_deviations(&scores, mean);
    let variance: u64 = (deviations / (n as u128)) as u64;
    let std_dev: u64 = isqrt(variance);
    assert(std_dev <= MAX_SCORE) by (nonlinear_arith)
        requires
            std_dev * std_dev <= variance,
            variance <= MAX_SCORE * MAX_SCORE,
    ;
    let sorted: Vec<u64> = sort_scores(&scores);
    let var_95: u64 = sorted[quantile_index(n, 95)];
    let var_99: u64 = sorted[quantile_index(n, 99)];
    let max_fragility: u64 = sorted[n - 1];
    Ok(SimulationResult { fragilities: scores, mean, std_dev, var_95, var_99, max_fragility })
}

/// A pool of worker threads of rayon. Nothing is known of what it holds.
#[verifier::external_type_specification]
#[verifier::external_body]
pub struct ExThreadPool(rayon::ThreadPool);

/// `rayon::ThreadPoolBuilder::new`, `num_threads` and `build`: a pool of at
/// most `num_threads` worker threads, or of as many as rayon chooses where
/// that is zero; nothing where rayon could not start it. Which of the two
/// comes back depends on the machine, and nothing is claimed of it.
#[verifier::external_body]
fn build_pool(num_threads: usize) -> (pool: Option<rayon::ThreadPool>) {
    rayon::ThreadPoolBuilder::new().num_threads(num_threads).build().ok()
}

/// `rayon::ThreadPool::install` around `par_iter`, `map` and `collect` of
/// rayon's parallel iterators: the worker threads of `pool` evaluate the
/// paths, each by one call of [`evaluate_path`], and the scores are
/// collected in the order of the shocks, whichever thread finished first.
/// The claim is that the result holds, for each shock and in its place, the
/// score that the call returns.
#[verifier::external_body]
fn evaluate_paths_in(
    pool: &rayon::ThreadPool,
    base: &BankState,
    config: &LagrangianConfig,
    shocks: &Vec<ShockTuple>,
) -> (scores: Vec<u64>)
    ensures
        scores@ == path_scores(*base, *config, shocks@),
{
    pool.install(|| shocks.par_iter().map(|shock| evaluate_path(base, config, shock)).collect())
}

/// The scores of all paths, evaluated one after the other.
pub fn evaluate_paths_in_turn(
    base: &BankState,
    config: &LagrangianConfig,
    shocks: &Vec<ShockTuple>,
) -> (scores: Vec<u64>)
    ensures
        scores@ == path_scores(*base, *config, shocks@),
{
    let mut scores: Vec<u64> = Vec::new();
    let mut i: usize = 0;
    while i < shocks.len()
        invariant
            i <= shocks.len(),
            scores.len() == i,
            forall|k: int| 0 <= k < i ==> scores@[k] == path_score(*base, *config, shocks@[k]),
        decreases shocks.len() - i,
    {
        let score: u64 = evaluate_path(base, config, &shocks[i]);
        scores.push(score);
        i = i + 1;
    }
    assert(scores@ == path_scores(*base, *config, shocks@));
    scores
}

/// Every score of every path lies within the score range.
pub proof fn lemma_path_scores_in_range(
    base: BankState,
    config: LagrangianConfig,
    shocks: Seq<ShockTuple>,
)
    ensures
        all_within(path_scores(base, config, shocks), MAX_SCORE),
{
    assert forall|i: int| 0 <= i < shocks.len() implies path_scores(base, config, shocks)[i]
        <= MAX_SCORE by {
        lemma_fragility_in_range(perturbed(base, shocks[i]), config);
    }
}

/// Runs the simulation: evaluates one path for each shock and summarizes the
/// scores, which stand in the order of the shocks. The paths are shared out
/// among a pool of `num_threads` worker threads; where no pool can be had,
/// they are evaluated in turn.
pub fn run_simulation(
    base_state: &BankState,
    lag_config: &LagrangianConfig,
    mc_config: &MonteCarloConfig,
    shocks: &Vec<ShockTuple>,
) -> (outcome: Result<SimulationResult, SimulationError>)
    ensures
        is_run_outcome(outcome, *base_state, *lag_config, *mc_config, shocks@),
        outcome matches Ok(result) ==> result.var_95 <= result.var_99 <= result.max_fragility
            <= MAX_SCORE,
        outcome matches Ok(result) ==> result.mean <= result.max_fragility && result.std_dev
            <= MAX_SCORE,
{
    if mc_config.num_simulations == 0 {
        return Err(SimulationError::EmptyRun);
    }
    if shocks.len() != mc_config.num_simulations {
        return Err(SimulationError::InvalidInput);
    }
    let scores: Vec<u64> = match build_pool(mc_config.num_threads) {
        Some(pool) => evaluate_paths_in(&pool, base_state, lag_config, shocks),
        None => evaluate_paths_in_turn(base_state, lag_config, shocks),
    };
    proof {
        lemma_path_scores_in_range(*base_state, *lag_config, shocks@);
    }
    summarize(scores)
}

/// The share of the paths of `result` whose score lies strictly above
/// `threshold`, in millionths.
pub fn calculate_tail_risk(result: &SimulationResult, threshold: u64) -> (share: u64)
    ensures
        share == tail_fraction(result.fragilities@, threshold),
        share <= SCALE,
{
    let n: usize = result.fragilities.len();
    if n == 0 {
        return 0;
    }
    let count: usize = count_exceedances(&result.fragilities, threshold);
    let scaled: u128 = mul_wide(count as u64, SCALE);
    proof {
        let c = count as int;
        let s = SCALE as int;
        assert(c * s / (n as int) <= s) by (nonlinear_arith)
            requires
                0 <= c <= n,
                n > 0,
                s >= 0,
        ;
    }
    (scaled / (n as u128)) as u64
}

/// The share of the scores above a threshold lies between nothing and all.
pub proof fn lemma_tail_fraction_in_range(scores: Seq<u64>, threshold: u64)
    ensures
        0 <= tail_fraction(scores, threshold) <= SCALE,
{
    lemma_exceedances_bounds(scores, threshold);
    if scores.len() > 0 {
        let c = exceedances(scores, threshold);
        let n = scores.len() as int;
        let s = SCALE as int;
        assert(0 <= c * s / n <= s) by (nonlinear_arith)
            requires
                0 <= c <= n,
                n > 0,
                s >= 0,
        ;
    }
}

/// No more of the scores than the value at risk allows lie above it: at most
/// one in twenty above the value at risk at 95%, at most one in a hundred
/// above the value at risk at 99%, and none above the maximum.
pub proof fn lemma_tail_beyond_value_at_risk(scores: Seq<u64>)
    requires
        scores.len() > 0,
    ensures
        tail_fraction(scores, quantile(scores, 95)) < SCALE / 20,
        tail_fraction(scores, quantile(scores, 99)) < SCALE / 100,
        tail_fraction(scores, maximum(scores)) == 0,
{
    let n = scores.len() as int;
    let s = SCALE as int;
    lemma_quantile_splits(scores, 95);
    lemma_quantile_splits(scores, 99);
    lemma_quantile_splits(scores, 100);
    lemma_exceedances_bounds(scores, quantile(scores, 95));
    lemma_exceedances_bounds(scores, quantile(scores, 99));
    lemma_exceedances_bounds(scores, maximum(scores));
    let c95 = exceedances(scores, quantile(scores, 95));
    let c99 = exceedances(scores, quantile(scores, 99));
    assert(c95 * s / n < s / 20) by (nonlinear_arith)
        requires
            0 <= c95 <= n - 1 - quantile_rank(n, 95),
            quantile_rank(n, 95) == n * 95 / 100 || quantile_rank(n, 95) == n - 1,
            n > 0,
            s == 1_000_000,
    ;
    assert(c99 * s / n < s / 100) by (nonlinear_arith)
        requires
            0 <= c99 <= n - 1 - quantile_rank(n, 99),
            quantile_rank(n, 99) == n * 99 / 100 || quantile_rank(n, 99) == n - 1,
            n > 0,
            s == 1_000_000,
    ;
    lemma_sorted_copy(scores);
    assert(quantile_rank(n, 100) == n - 1);
    assert(quantile(scores, 100) == maximum(scores));
    assert(0 * s / n == 0) by (nonlinear_arith)
        requires
            n > 0,
    ;
}

/// A higher quantile is an equal or higher score, and no quantile exceeds
/// the maximum: the value at risk at 95% is at most the value at risk at
/// 99%, which is at most the largest score.
pub proof fn lemma_risk_figures_ordered(scores: Seq<u64>)
    requires
        scores.len() > 0,
    ensures
        quantile(scores, 95) <= quantile(scores, 99) <= maximum(scores),
{
    lemma_sorted_copy(scores);
    lemma_quantile_rank(scores.len() as int, 95, 99);
}

/// The mean does not exceed the maximum.
pub proof fn lemma_mean_at_most_maximum(scores: Seq<u64>)
    requires
        scores.len() > 0,
    ensures
        mean(scores) <= maximum(scores),
{
    lemma_maximum(scores);
    lemma_mean_bounds(scores, maximum(scores));
}

/// The maximum is one of the scores, and none of them exceeds it.
pub proof fn lemma_maximum(scores: Seq<u64>)
    requires
        scores.len() > 0,
    ensures
        scores.contains(maximum(scores)),
        forall|i: int| 0 <= i < scores.len() ==> scores[i] <= maximum(scores),
{
    broadcast use vstd::seq_lib::group_to_multiset_ensures;

    lemma_sorted_copy(scores);
    let sorted = sorted_copy(scores);
    assert(sorted.contains(sorted.last()));
    assert(scores.to_multiset().contains(maximum(scores)));
    assert forall|i: int| 0 <= i < scores.len() implies scores[i] <= maximum(scores) by {
        assert(scores.contains(scores[i]));
        assert(sorted.to_multiset().contains(scores[i]));
        assert(sorted.contains(scores[i]));
        let k = choose|k: int| 0 <= k < sorted.len() && sorted[k] == scores[i];
        assert(sorted[k] <= sorted[sorted.len() - 1]);
    }
}

/// The risk figures of any summary are in order: the value at risk at 95% is
/// at most the value at risk at 99%, which is at most the largest score.
pub proof fn lemma_summary_is_ordered(result: SimulationResult, scores: Seq<u64>)
    requires
        scores.len() > 0,
        result.summarizes(scores),
    ensures
        result.var_95 <= result.var_99 <= result.max_fragility,
{
    lemma_risk_figures_ordered(scores);
}

/// With a single path there is no spread: the standard deviation is zero,
/// and the mean, both values at risk and the maximum are the one score.
pub proof fn lemma_single_path(result: SimulationResult, scores: Seq<u64>)
    requires
        scores.len() == 1,
        result.summarizes(scores),
    ensures
        result.std_dev == 0,
        result.mean == scores[0],
        result.var_95 == scores[0],
        result.var_99 == scores[0],
        result.max_fragility == scores[0],
{
    crate::statistics::lemma_sorted_copy_unique(scores, scores);
    assert(scores.drop_last().len() == 0);
    assert(total(scores.drop_last()) == 0);
    assert(total(scores) == scores[0]);
    assert(mean(scores) == scores[0]);
    let d = scores[0] - mean(scores);
    assert(d * d == 0) by (nonlinear_arith)
        requires
            d == 0,
    ;
    assert(squared_deviations(scores.drop_last(), mean(scores)) == 0);
    assert(squared_deviations(scores, mean(scores)) == 0);
    assert(variance(scores) == 0);
    let r = result.std_dev as int;
    assert(r == 0) by (nonlinear_arith)
        requires
            0 <= r,
            r * r <= 0,
    ;
}

/// A run is a function of the base state, the scoring configuration and the
/// shocks alone: two runs on the same of these end alike, with the same
/// scores in the same order and the same risk figures, whatever seed and
/// number of threads their configurations name.
pub proof fn lemma_run_is_reproducible(
    first: Result<SimulationResult, SimulationError>,
    second: Result<SimulationResult, SimulationError>,
    base: BankState,
    lag_config: LagrangianConfig,
    first_config: MonteCarloConfig,
    second_config: MonteCarloConfig,
    shocks: Seq<ShockTuple>,
)
    requires
        first_config.num_simulations == second_config.num_simulations,
        is_run_outcome(first, base, lag_config, first_config, shocks),
        is_run_outcome(second, base, lag_config, second_config, shocks),
    ensures
        match (first, second) {
            (Ok(a), Ok(b)) => {
                &&& a.fragilities@ == b.fragilities@
                &&& a.mean == b.mean
                &&& a.std_dev == b.std_dev
                &&& a.var_95 == b.var_95
                &&& a.var_99 == b.var_99
                &&& a.max_fragility == b.max_fragility
            },
            (Err(a), Err(b)) => a == b,
            _ => false,
        },
{
    match (first, second) {
        (Ok(a), Ok(b)) => {
            let scores = path_scores(base, lag_config, shocks);
            crate::fixed::lemma_isqrt_unique(variance(scores), a.std_dev as int, b.std_dev as int);
        },
        _ => {},
    }
}

} // verus!
