use rand::rngs::StdRng;
use rand::SeedableRng;
use rand_distr::{Distribution, Normal};
use sovereign_architect::monte_carlo::{
    apply_shock, apply_shock_to, evaluate_path, summarize, within_limit,
};
use sovereign_architect::statistics::{count_exceedances, quantile_index, sort_scores, sum_scores};
use sovereign_architect::{
    calculate_tail_risk, compute_fragility, run_simulation, BalanceSheet, BankState,
    LagrangianConfig, MonteCarloConfig, ShockTuple, SimulationError, SimulationResult,
};

fn fx(x: f64) -> u64 {
    (x * 1e6).round() as u64
}

fn shock(x: f64) -> i64 {
    (x * 1e6).round() as i64
}

fn draw_shocks(config: &MonteCarloConfig) -> Vec<ShockTuple> {
    let mut rng = StdRng::seed_from_u64(config.seed);
    let normal = Normal::new(0.0, config.shock_size as f64 / 1e6).unwrap();
    (0..config.num_simulations)
        .map(|_| ShockTuple {
            tier1_capital: shock(normal.sample(&mut rng)),
            total_assets: shock(normal.sample(&mut rng)),
            liquidity_coverage: shock(normal.sample(&mut rng)),
            entropy_index: shock(normal.sample(&mut rng)),
        })
        .collect()
}

fn simulate(base: &BankState, lag: &LagrangianConfig, config: &MonteCarloConfig) -> SimulationResult {
    run_simulation(base, lag, config, &draw_shocks(config)).unwrap()
}

fn flat(value: i64) -> ShockTuple {
    ShockTuple {
        tier1_capital: value,
        total_assets: value,
        liquidity_coverage: value,
        entropy_index: value,
    }
}

#[test]
fn test_monte_carlo_basic() {
    let base_state = BankState::from_balance_sheet(&BalanceSheet {
        assets: fx(1000.0),
        liabilities: fx(900.0),
        equity: fx(100.0),
        leverage: fx(9.0),
    });

    let lag_config = LagrangianConfig::default();
    let mc_config = MonteCarloConfig { num_simulations: 1000, ..Default::default() };

    let result = simulate(&base_state, &lag_config, &mc_config);

    assert_eq!(result.fragilities.len(), 1000);
    assert!(result.mean >= fx(0.0));
    assert!(result.std_dev >= fx(0.0));
    assert!(result.var_99 >= result.var_95);
    assert!(result.max_fragility >= result.var_99);
}

#[test]
fn test_tail_risk() {
    let base_state = BankState::from_balance_sheet(&BalanceSheet {
        assets: fx(1000.0),
        liabilities: fx(950.0),
        equity: fx(50.0),
        leverage: fx(19.0),
    });

    let lag_config = LagrangianConfig::default();
    let mc_config =
        MonteCarloConfig { num_simulations: 1000, shock_size: fx(3.0), ..Default::default() };

    let result = simulate(&base_state, &lag_config, &mc_config);
    let tail_risk = calculate_tail_risk(&result, result.mean);

    assert!(tail_risk > fx(0.4) && tail_risk < fx(0.6));
}

#[test]
fn default_simulation_config() {
    let config = MonteCarloConfig::default();
    assert_eq!(config.num_simulations, 10_000);
    assert_eq!(config.seed, 42);
    assert_eq!(config.shock_size, fx(2.0));
    assert_eq!(config.num_threads, 0);
}

#[test]
fn balance_sheet_front_end() {
    let state = BankState::from_balance_sheet(&BalanceSheet {
        assets: fx(1000.0),
        liabilities: fx(900.0),
        equity: fx(100.0),
        leverage: fx(9.0),
    });
    assert_eq!(
        state,
        BankState {
            tier1_capital: fx(100.0),
            total_assets: fx(1000.0),
            liquidity_coverage: 1_111_111,
            entropy_index: 0,
        }
    );
    let debt_free = BankState::from_balance_sheet(&BalanceSheet {
        assets: 5,
        liabilities: 0,
        equity: 5,
        leverage: 0,
    });
    assert_eq!(debt_free.liquidity_coverage, u64::MAX);
    let thin = BankState::from_balance_sheet(&BalanceSheet {
        assets: u64::MAX,
        liabilities: 1,
        equity: 0,
        leverage: 0,
    });
    assert_eq!(thin.liquidity_coverage, u64::MAX);
}

#[test]
fn borderline_state_thousand_paths() {
    let base = BankState {
        tier1_capital: fx(8_010.0),
        total_assets: fx(100_000.0),
        liquidity_coverage: fx(1.0),
        entropy_index: fx(2.0),
    };
    let config = MonteCarloConfig { num_simulations: 1000, shock_size: fx(2.0), ..Default::default() };
    let result = simulate(&base, &LagrangianConfig::default(), &config);
    assert_eq!(result.fragilities.len(), 1000);
    assert!(result.fragilities.iter().all(|&s| s < fx(100.0)));
    assert!(result.var_95 <= result.var_99 && result.var_99 <= result.max_fragility);
    // About half of the paths breach the constraint and saturate.
    assert!(result.max_fragility > fx(95.0));
    assert!(result.std_dev > fx(10.0));
    assert!(result.mean <= result.max_fragility);
    // No more paths lie above a value at risk than it allows.
    assert!(calculate_tail_risk(&result, result.var_95) < fx(0.05));
    assert!(calculate_tail_risk(&result, result.var_99) < fx(0.01));
    assert_eq!(calculate_tail_risk(&result, result.max_fragility), 0);
}

#[test]
fn value_at_risk_splits_the_scores() {
    let scores: Vec<u64> = (0..250u64).map(|k| (k * k * 7_919 + 13 * k) % 100_000_000).collect();
    let result = summarize(scores.clone()).unwrap();
    let below = |v: u64| scores.iter().filter(|&&s| s < v).count();
    let above = |v: u64| scores.iter().filter(|&&s| s > v).count();
    assert!(below(result.var_95) <= 237 && above(result.var_95) <= 250 - 1 - 237);
    assert!(below(result.var_99) <= 247 && above(result.var_99) <= 250 - 1 - 247);
    assert_eq!(above(result.max_fragility), 0);
    assert!(scores.contains(&result.max_fragility));
    assert!(scores.contains(&result.var_95));
}

#[test]
fn zero_shock_changes_nothing() {
    let base = BankState {
        tier1_capital: fx(8_003.0),
        total_assets: fx(100_000.0),
        liquidity_coverage: fx(1.3),
        entropy_index: fx(2.2),
    };
    let lag = LagrangianConfig::default();
    assert_eq!(apply_shock(&base, &flat(0)), base);
    assert_eq!(evaluate_path(&base, &lag, &flat(0)), compute_fragility(&base, &lag));
    let mut last = 0;
    for step in -120..120i64 {
        let moved = apply_shock_to(fx(1000.0), step * 1_000_000);
        assert!(moved >= last);
        last = moved;
    }
}

#[test]
fn runs_are_reproducible() {
    let base = BankState {
        tier1_capital: fx(8_010.0),
        total_assets: fx(100_000.0),
        liquidity_coverage: fx(1.0),
        entropy_index: fx(2.0),
    };
    let lag = LagrangianConfig::default();
    let config = MonteCarloConfig { num_simulations: 500, seed: 7, ..Default::default() };
    let first = simulate(&base, &lag, &config);
    let second = simulate(&base, &lag, &config);
    assert_eq!(first.fragilities, second.fragilities);
    assert_eq!(first.mean, second.mean);
    assert_eq!(first.std_dev, second.std_dev);
    assert_eq!(first.var_95, second.var_95);
    assert_eq!(first.var_99, second.var_99);
    assert_eq!(first.max_fragility, second.max_fragility);

    let threaded = MonteCarloConfig { num_threads: 8, ..config };
    let third = simulate(&base, &lag, &threaded);
    assert_eq!(first.fragilities, third.fragilities);
    assert_eq!(first.std_dev, third.std_dev);

    let other_seed = MonteCarloConfig { seed: 8, ..config };
    let fourth = simulate(&base, &lag, &other_seed);
    assert_ne!(first.fragilities, fourth.fragilities);
}

#[test]
fn default_run_of_ten_thousand_paths() {
    let base = BankState {
        tier1_capital: fx(10_000.0),
        total_assets: fx(100_000.0),
        liquidity_coverage: fx(1.2),
        entropy_index: fx(2.5),
    };
    let lag = LagrangianConfig::default();
    let config = MonteCarloConfig::default();
    let shocks = draw_shocks(&config);
    let result = run_simulation(&base, &lag, &config, &shocks).unwrap();
    assert_eq!(result.fragilities.len(), 10_000);
    for threads in [1usize, 2, 3, 16] {
        let hinted = MonteCarloConfig { num_threads: threads, ..config };
        let again = run_simulation(&base, &lag, &hinted, &shocks).unwrap();
        assert_eq!(again.fragilities, result.fragilities);
        assert_eq!(again.mean, result.mean);
        assert_eq!(again.std_dev, result.std_dev);
        assert_eq!(again.var_95, result.var_95);
        assert_eq!(again.var_99, result.var_99);
        assert_eq!(again.max_fragility, result.max_fragility);
    }
    for (score, shock) in result.fragilities.iter().zip(shocks.iter()) {
        assert_eq!(*score, evaluate_path(&base, &lag, shock));
    }
    let mut sorted = result.fragilities.clone();
    sorted.sort();
    assert_eq!(result.var_95, sorted[9_500]);
    assert_eq!(result.var_99, sorted[9_900]);
    assert_eq!(result.max_fragility, sorted[9_999]);
    let sum: u128 = sorted.iter().map(|&s| s as u128).sum();
    assert_eq!(result.mean as u128, sum / 10_000);
}

#[test]
fn scores_follow_the_order_of_the_shocks() {
    let base = BankState {
        tier1_capital: fx(8_002.0),
        total_assets: fx(100_000.0),
        liquidity_coverage: fx(1.0),
        entropy_index: fx(1.0),
    };
    let lag = LagrangianConfig::default();
    let shocks = vec![flat(0), flat(shock(1.0)), flat(shock(-1.0)), flat(shock(0.5))];
    let config = MonteCarloConfig { num_simulations: 4, ..Default::default() };
    let result = run_simulation(&base, &lag, &config, &shocks).unwrap();
    for (i, s) in shocks.iter().enumerate() {
        assert_eq!(result.fragilities[i], evaluate_path(&base, &lag, s));
        assert_eq!(result.fragilities[i], compute_fragility(&apply_shock(&base, s), &lag));
    }
    assert_eq!(result.fragilities[0], compute_fragility(&base, &lag));
    let by_hand = summarize(result.fragilities.clone()).unwrap();
    assert_eq!(by_hand.mean, result.mean);
    assert_eq!(by_hand.std_dev, result.std_dev);
    assert_eq!(by_hand.var_95, result.var_95);
    assert_eq!(by_hand.var_99, result.var_99);
    assert_eq!(by_hand.max_fragility, result.max_fragility);
}

#[test]
fn no_paths_is_an_empty_run() {
    let base = BankState { tier1_capital: 1, total_assets: 1, liquidity_coverage: 1, entropy_index: 1 };
    let lag = LagrangianConfig::default();
    let config = MonteCarloConfig { num_simulations: 0, ..Default::default() };
    assert_eq!(run_simulation(&base, &lag, &config, &vec![]).unwrap_err(), SimulationError::EmptyRun);
    assert_eq!(
        run_simulation(&base, &lag, &config, &vec![flat(0)]).unwrap_err(),
        SimulationError::EmptyRun
    );
    assert_eq!(summarize(vec![]).unwrap_err(), SimulationError::EmptyRun);
}

#[test]
fn shocks_must_match_the_paths() {
    let base = BankState { tier1_capital: 1, total_assets: 1, liquidity_coverage: 1, entropy_index: 1 };
    let lag = LagrangianConfig::default();
    let config = MonteCarloConfig { num_simulations: 3, ..Default::default() };
    assert_eq!(
        run_simulation(&base, &lag, &config, &vec![flat(0), flat(0)]).unwrap_err(),
        SimulationError::InvalidInput
    );
    assert_eq!(
        run_simulation(&base, &lag, &config, &vec![]).unwrap_err(),
        SimulationError::InvalidInput
    );
    assert!(run_simulation(&base, &lag, &config, &vec![flat(0), flat(0), flat(0)]).is_ok());
}

#[test]
fn scores_above_the_range_are_refused() {
    assert_eq!(summarize(vec![fx(10.0), fx(100.0) + 1]).unwrap_err(), SimulationError::InvalidInput);
    assert!(summarize(vec![fx(10.0), fx(100.0)]).is_ok());
    assert!(within_limit(&vec![1, 2, 3], 3));
    assert!(!within_limit(&vec![1, 4, 3], 3));
    assert!(within_limit(&vec![], 0));
}

#[test]
fn summary_exact_values() {
    let scores = vec![fx(40.0), fx(10.0), fx(30.0), fx(20.0)];
    let result = summarize(scores.clone()).unwrap();
    assert_eq!(result.fragilities, scores);
    assert_eq!(result.mean, fx(25.0));
    // Variance 125, root 11.180339887...
    assert_eq!(result.std_dev, 11_180_339);
    assert_eq!(result.var_95, fx(40.0));
    assert_eq!(result.var_99, fx(40.0));
    assert_eq!(result.max_fragility, fx(40.0));
}

#[test]
fn quantiles_of_a_hundred_scores() {
    // The scores 99, 98, ..., 0: rank 95 holds 95, rank 99 holds 99.
    let scores: Vec<u64> = (0..100u64).rev().map(|k| k * 1_000_000).collect();
    let result = summarize(scores.clone()).unwrap();
    assert_eq!(result.fragilities, scores);
    assert_eq!(result.var_95, fx(95.0));
    assert_eq!(result.var_99, fx(99.0));
    assert_eq!(result.max_fragility, fx(99.0));
    assert_eq!(result.mean, 49_500_000);
    // Variance (100^2 - 1) / 12 = 833.25, root 28.866070...
    assert_eq!(result.std_dev, 28_866_070);
}

#[test]
fn quantile_ranks() {
    assert_eq!(quantile_index(1, 95), 0);
    assert_eq!(quantile_index(1, 99), 0);
    assert_eq!(quantile_index(20, 95), 19);
    assert_eq!(quantile_index(21, 95), 19);
    assert_eq!(quantile_index(100, 95), 95);
    assert_eq!(quantile_index(100, 99), 99);
    assert_eq!(quantile_index(1000, 95), 950);
    assert_eq!(quantile_index(1000, 99), 990);
    assert_eq!(quantile_index(10, 100), 9);
    assert_eq!(quantile_index(10, 0), 0);
    assert_eq!(quantile_index(usize::MAX, 99), (usize::MAX as u128 * 99 / 100) as usize);
}

#[test]
fn mean_is_rounded_down() {
    let result = summarize(vec![1, 2]).unwrap();
    assert_eq!(result.mean, 1);
    // Deviations 0 and 1 from the rounded mean: variance 1 / 2 rounds to 0.
    assert_eq!(result.std_dev, 0);
    let result = summarize(vec![0, 0, 10]).unwrap();
    assert_eq!(result.mean, 3);
    // (9 + 9 + 49) / 3 = 22, root 4.
    assert_eq!(result.std_dev, 4);
}

#[test]
fn single_path() {
    let result = summarize(vec![fx(42.5)]).unwrap();
    assert_eq!(result.std_dev, 0);
    assert_eq!(result.mean, fx(42.5));
    assert_eq!(result.var_95, fx(42.5));
    assert_eq!(result.var_99, fx(42.5));
    assert_eq!(result.max_fragility, fx(42.5));

    let base = BankState {
        tier1_capital: fx(15_000.0),
        total_assets: fx(100_000.0),
        liquidity_coverage: fx(1.5),
        entropy_index: fx(2.0),
    };
    let config = MonteCarloConfig { num_simulations: 1, ..Default::default() };
    let run = simulate(&base, &LagrangianConfig::default(), &config);
    assert_eq!(run.fragilities.len(), 1);
    assert_eq!(run.std_dev, 0);
    assert_eq!(run.mean, run.fragilities[0]);
    assert_eq!(run.var_95, run.fragilities[0]);
    assert_eq!(run.var_99, run.fragilities[0]);
    assert_eq!(run.max_fragility, run.fragilities[0]);
}

#[test]
fn tail_risk_counts_strict_exceedances() {
    let result = summarize(vec![1, 2, 3, 4]).unwrap();
    assert_eq!(calculate_tail_risk(&result, 2), 500_000);
    assert_eq!(calculate_tail_risk(&result, 0), 1_000_000);
    assert_eq!(calculate_tail_risk(&result, 4), 0);
    assert_eq!(calculate_tail_risk(&result, 3), 250_000);
    let thirds = summarize(vec![5, 6, 7]).unwrap();
    assert_eq!(calculate_tail_risk(&thirds, 5), 666_666);
    let empty = SimulationResult {
        fragilities: vec![],
        mean: 0,
        std_dev: 0,
        var_95: 0,
        var_99: 0,
        max_fragility: 0,
    };
    assert_eq!(calculate_tail_risk(&empty, 0), 0);
    assert_eq!(count_exceedances(&vec![3, 1, 3, 2], 2), 2);
}

#[test]
fn shocks_move_a_figure_by_percent() {
    assert_eq!(apply_shock_to(fx(1000.0), 0), fx(1000.0));
    assert_eq!(apply_shock_to(fx(1000.0), shock(1.0)), fx(1010.0));
    assert_eq!(apply_shock_to(fx(1000.0), shock(-2.5)), fx(975.0));
    assert_eq!(apply_shock_to(fx(1000.0), shock(-100.0)), 0);
    assert_eq!(apply_shock_to(fx(1000.0), shock(-250.0)), 0);
    assert_eq!(apply_shock_to(fx(1000.0), i64::MIN), 0);
    assert_eq!(apply_shock_to(3, shock(50.0)), 4);
    assert_eq!(apply_shock_to(u64::MAX, 1), u64::MAX);
    assert_eq!(apply_shock_to(u64::MAX, i64::MAX), u64::MAX);
    assert_eq!(apply_shock_to(0, i64::MAX), 0);
    assert_eq!(apply_shock_to(u64::MAX, 0), u64::MAX);
    assert_eq!(apply_shock_to(u64::MAX, -1), u64::MAX - 184_467_440_738);
}

#[test]
fn shocked_state_has_each_figure_moved() {
    let base = BankState {
        tier1_capital: fx(100.0),
        total_assets: fx(1000.0),
        liquidity_coverage: fx(1.2),
        entropy_index: fx(2.0),
    };
    let moved = apply_shock(
        &base,
        &ShockTuple {
            tier1_capital: shock(10.0),
            total_assets: shock(-10.0),
            liquidity_coverage: shock(-200.0),
            entropy_index: 0,
        },
    );
    assert_eq!(
        moved,
        BankState {
            tier1_capital: fx(110.0),
            total_assets: fx(900.0),
            liquidity_coverage: 0,
            entropy_index: fx(2.0),
        }
    );
}

#[test]
fn sorting_keeps_every_score() {
    assert_eq!(sort_scores(&vec![]), Vec::<u64>::new());
    assert_eq!(sort_scores(&vec![7]), vec![7]);
    assert_eq!(sort_scores(&vec![3, 1, 2, 3, 0, u64::MAX, 1]), vec![0, 1, 1, 2, 3, 3, u64::MAX]);
    let mut rng = StdRng::seed_from_u64(1);
    let normal = Normal::new(50.0, 10.0).unwrap();
    let scores: Vec<u64> = (0..1000).map(|_| fx(normal.sample(&mut rng))).collect();
    let mut expected = scores.clone();
    expected.sort();
    assert_eq!(sort_scores(&scores), expected);
    assert_eq!(sum_scores(&scores), scores.iter().map(|&s| s as u128).sum::<u128>());
    assert_eq!(sum_scores(&vec![u64::MAX, u64::MAX]), 2 * (u64::MAX as u128));
}
