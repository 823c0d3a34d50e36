use sovereign_architect::logarithm::{log2_fine_of, log2_ratio_of, LOG_ONE};
use sovereign_architect::{
    calculate_entropy, compute_fragility, concentration_risk, normalized_entropy, BalanceSheet,
    BankState, EntropyConfig, LagrangianConfig, Position,
};

fn fx(x: f64) -> u64 {
    (x * 1e6).round() as u64
}

fn units(x: i64) -> f64 {
    x as f64 / 1e6
}

fn portfolio(weights: &[u64]) -> Vec<Position> {
    weights
        .iter()
        .enumerate()
        .map(|(i, &weight)| Position { asset: format!("Asset{}", i + 1), weight })
        .collect()
}

#[test]
fn test_uniform_distribution() {
    let positions = vec![
        Position { asset: "A".to_string(), weight: fx(0.25) },
        Position { asset: "B".to_string(), weight: fx(0.25) },
        Position { asset: "C".to_string(), weight: fx(0.25) },
        Position { asset: "D".to_string(), weight: fx(0.25) },
    ];

    let config = EntropyConfig::default();
    let entropy = units(calculate_entropy(&positions, &config));

    // Uniform distribution should have maximum entropy = log2(4) = 2.0
    assert!((entropy - 2.0).abs() < 1e-10);
    assert!((units(normalized_entropy(&positions, &config)) - 1.0).abs() < 1e-10);
    assert!(units(concentration_risk(&positions, &config)) < 1e-10);
}

#[test]
fn test_concentrated_portfolio() {
    let positions = vec![
        Position { asset: "A".to_string(), weight: fx(0.97) },
        Position { asset: "B".to_string(), weight: fx(0.01) },
        Position { asset: "C".to_string(), weight: fx(0.01) },
        Position { asset: "D".to_string(), weight: fx(0.01) },
    ];

    let config = EntropyConfig::default();
    let norm_entropy = units(normalized_entropy(&positions, &config));
    let conc_risk = units(concentration_risk(&positions, &config));

    // Highly concentrated portfolio should have low normalized entropy
    assert!(norm_entropy < 0.5);
    // And high concentration risk
    assert!(conc_risk > 0.5);
}

#[test]
fn test_single_asset() {
    let positions = vec![Position { asset: "A".to_string(), weight: fx(1.0) }];

    let config = EntropyConfig::default();
    let entropy = units(calculate_entropy(&positions, &config));

    // Single asset has zero entropy
    assert!(entropy.abs() < 1e-10);
    assert!(units(concentration_risk(&positions, &config)) > 0.99);
}

#[test]
fn test_entropy_calculation() {
    let positions = vec![
        Position { asset: "BTC".to_string(), weight: fx(0.5) },
        Position { asset: "ETH".to_string(), weight: fx(0.3) },
        Position { asset: "SOL".to_string(), weight: fx(0.2) },
    ];

    let config = EntropyConfig::default();
    let entropy = units(calculate_entropy(&positions, &config));

    assert!(entropy > 0.0);
    assert!(entropy < 2.0);
}

#[test]
fn test_full_pipeline() {
    let state = BankState::from_balance_sheet(&BalanceSheet {
        assets: fx(1000.0),
        liabilities: fx(900.0),
        equity: fx(100.0),
        leverage: fx(9.0),
    });

    let lag_config = LagrangianConfig::default();
    let fragility = compute_fragility(&state, &lag_config);

    assert!(fragility > fx(0.0));
    assert!(fragility < fx(100.0));
}

#[test]
fn default_entropy_config() {
    let config = EntropyConfig::default();
    assert_eq!(config.min_weight, 1);
    assert!(config.normalize);
}

#[test]
fn entropy_exact_values() {
    let config = EntropyConfig::default();
    assert_eq!(calculate_entropy(&portfolio(&[250_000; 4]), &config), 2_000_000);
    assert_eq!(calculate_entropy(&portfolio(&[970_000, 10_000, 10_000, 10_000]), &config), 241_939);
    assert_eq!(calculate_entropy(&portfolio(&[500_000, 300_000, 200_000]), &config), 1_485_474);
    assert_eq!(normalized_entropy(&portfolio(&[500_000, 300_000, 200_000]), &config), 937_230);
    assert_eq!(concentration_risk(&portfolio(&[500_000, 300_000, 200_000]), &config), 62_770);
    assert_eq!(normalized_entropy(&portfolio(&[970_000, 10_000, 10_000, 10_000]), &config), 120_969);
    assert_eq!(concentration_risk(&portfolio(&[970_000, 10_000, 10_000, 10_000]), &config), 879_031);
}

#[test]
fn entropy_agrees_with_the_formula_in_floating_point() {
    let config = EntropyConfig::default();
    let cases: [&[u64]; 4] = [
        &[500_000, 300_000, 200_000],
        &[123_456, 654_321, 222_223],
        &[1_000_000, 2_000_000, 3_000_000, 4_000_000, 5_000_000],
        &[900_000, 50_000, 25_000, 25_000],
    ];
    for weights in cases {
        let sum: f64 = weights.iter().map(|&w| w as f64).sum();
        let expected: f64 = weights
            .iter()
            .map(|&w| w as f64 / sum)
            .filter(|&p| p > 0.0)
            .map(|p| -p * p.log2())
            .sum();
        let got = units(calculate_entropy(&portfolio(weights), &config));
        assert!((got - expected).abs() < 2e-5, "{} against {}", got, expected);
    }
}

#[test]
fn normalizing_divides_by_the_sum() {
    let config = EntropyConfig::default();
    // Weights of 2 and 3 are shares of 0.4 and 0.6.
    assert_eq!(calculate_entropy(&portfolio(&[2_000_000, 3_000_000]), &config), 970_950);
    assert_eq!(calculate_entropy(&portfolio(&[400_000, 600_000]), &config), 970_950);
    // Without normalizing, a weight above one has a negative term.
    let raw = EntropyConfig { min_weight: 1, normalize: false };
    assert_eq!(calculate_entropy(&portfolio(&[2_000_000, 3_000_000]), &raw), -6_754_886);
    assert_eq!(calculate_entropy(&portfolio(&[4_000_000, 4_000_000]), &raw), -16_000_000);
    assert_eq!(normalized_entropy(&portfolio(&[4_000_000, 4_000_000]), &raw), -16_000_000);
    assert_eq!(concentration_risk(&portfolio(&[4_000_000, 4_000_000]), &raw), 17_000_000);
    assert_eq!(calculate_entropy(&portfolio(&[250_000; 4]), &raw), 2_000_000);
}

#[test]
fn light_positions_are_left_out() {
    let all = EntropyConfig { min_weight: 1, normalize: true };
    let heavy = EntropyConfig { min_weight: 10, normalize: true };
    let positions = portfolio(&[600_000, 400_000, 5]);
    assert_eq!(calculate_entropy(&positions, &heavy), 970_950);
    assert_eq!(calculate_entropy(&positions, &all), 971_023);
    // The relative entropy still counts every position.
    assert_eq!(normalized_entropy(&positions, &heavy), 970_950 * 1_000_000 / 1_584_962);
}

#[test]
fn empty_and_weightless_portfolios_have_no_entropy() {
    let config = EntropyConfig::default();
    assert_eq!(calculate_entropy(&vec![], &config), 0);
    assert_eq!(normalized_entropy(&vec![], &config), 0);
    assert_eq!(concentration_risk(&vec![], &config), 1_000_000);
    assert_eq!(calculate_entropy(&portfolio(&[0, 0]), &config), 0);
    let keep_all = EntropyConfig { min_weight: 0, normalize: true };
    assert_eq!(calculate_entropy(&portfolio(&[0, 0]), &keep_all), 0);
    assert_eq!(concentration_risk(&portfolio(&[0, 0]), &keep_all), 1_000_000);
    let raw = EntropyConfig { min_weight: 0, normalize: false };
    assert_eq!(calculate_entropy(&portfolio(&[0, 0]), &raw), 0);
    assert_eq!(calculate_entropy(&portfolio(&[5, 0, 0]), &config), 0);
    assert_eq!(concentration_risk(&portfolio(&[5, 0, 0]), &config), 1_000_000);
}

#[test]
fn entropy_saturates() {
    let raw = EntropyConfig { min_weight: 1, normalize: false };
    let positions = portfolio(&[u64::MAX, u64::MAX, u64::MAX]);
    assert_eq!(calculate_entropy(&positions, &raw), i64::MIN);
    assert_eq!(normalized_entropy(&positions, &raw), -5_819_301_684_743_719_918);
    assert_eq!(concentration_risk(&positions, &raw), 5_819_301_684_744_719_918);
    let config = EntropyConfig::default();
    assert_eq!(calculate_entropy(&positions, &config), 1_584_960);
}

#[test]
fn normalized_weights_give_entropy_from_zero_up() {
    let config = EntropyConfig::default();
    let cases: [&[u64]; 5] =
        [&[1, 1, 1], &[u64::MAX, 1], &[7, 0, 7_000_000_000], &[999_999, 1], &[3; 9]];
    for weights in cases {
        let positions = portfolio(weights);
        assert!(calculate_entropy(&positions, &config) >= 0);
        assert!(normalized_entropy(&positions, &config) >= 0);
    }
}

#[test]
fn logarithm_exact_values() {
    assert_eq!(log2_ratio_of(1, 1), 0);
    assert_eq!(log2_ratio_of(2, 1), 1_000_000);
    assert_eq!(log2_ratio_of(3, 1), 1_584_962);
    assert_eq!(log2_ratio_of(10, 1), 3_321_928);
    assert_eq!(log2_ratio_of(1000, 1), 9_965_784);
    assert_eq!(log2_ratio_of(7, 3), 1_222_392);
    assert_eq!(log2_ratio_of(250_000, 1_000_000), -2_000_000);
    assert_eq!(log2_ratio_of(970_000, 1_000_000), -43_944);
    assert_eq!(log2_ratio_of(1, 1_000_000), -19_931_569);
    assert_eq!(log2_ratio_of(u64::MAX, 1), 63_999_999);
    assert_eq!(log2_ratio_of(1, u64::MAX), -64_000_000);
    assert_eq!(log2_fine_of(1), 0);
    assert_eq!(log2_fine_of(2), LOG_ONE);
    assert_eq!(log2_fine_of(1 << 63), 63 * LOG_ONE);
    assert_eq!(log2_fine_of(8), 3 * LOG_ONE);
}

#[test]
fn logarithm_agrees_with_floating_point() {
    let mut a: u64 = 1;
    while a < u64::MAX / 3 {
        let mut b: u64 = 1;
        while b < u64::MAX / 5 {
            let expected = (a as f64 / b as f64).log2() * 1e6;
            let got = log2_ratio_of(a, b) as f64;
            assert!((got - expected).abs() < 1.01, "log2 of {} over {}", a, b);
            b = b * 5 + 3;
        }
        a = a * 3 + 1;
    }
}

#[test]
fn logarithm_never_falls() {
    let mut last = log2_fine_of(1);
    let mut v: u64 = 1;
    while v < u64::MAX / 2 {
        v = v + v / 7 + 1;
        let next = log2_fine_of(v);
        assert!(next >= last);
        last = next;
    }
}
