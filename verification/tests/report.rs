use sovereign_architect::fixed::{exp_decay, SCALE};
use sovereign_architect::lagrangian::{is_adequately_capitalized, BankState};
use sovereign_architect::logarithm::{log2_fine_of, LOG_ONE};
use sovereign_architect::monte_carlo::summarize;
use sovereign_architect::report::{concentration_level, fragility_level, RiskLevel};
use sovereign_architect::calculate_tail_risk;

#[test]
fn fragility_bands() {
    assert_eq!(fragility_level(0), RiskLevel::Low);
    assert_eq!(fragility_level(10_000_000), RiskLevel::Low);
    assert_eq!(fragility_level(10_000_001), RiskLevel::Medium);
    assert_eq!(fragility_level(20_000_000), RiskLevel::Medium);
    assert_eq!(fragility_level(20_000_001), RiskLevel::High);
    assert_eq!(fragility_level(u64::MAX), RiskLevel::High);
}

#[test]
fn concentration_bands() {
    assert_eq!(concentration_level(i64::MIN), RiskLevel::Low);
    assert_eq!(concentration_level(400_000), RiskLevel::Low);
    assert_eq!(concentration_level(400_001), RiskLevel::Medium);
    assert_eq!(concentration_level(700_000), RiskLevel::Medium);
    assert_eq!(concentration_level(700_001), RiskLevel::High);
    assert_eq!(concentration_level(i64::MAX), RiskLevel::High);
}

#[test]
fn decay_lies_between_the_plain_bounds() {
    let mut d: u64 = 0;
    while d < 40_000_000 {
        let r = exp_decay(d) as u128;
        let s = SCALE as u128;
        assert!(r + d as u128 >= s);
        assert!(r * (s + d as u128) <= s * s + r);
        d += 12_345;
    }
}

#[test]
fn whole_part_of_the_logarithm_is_exact() {
    let mut v: u64 = 1;
    loop {
        let whole = log2_fine_of(v) / LOG_ONE;
        assert_eq!(whole, 63 - v.leading_zeros() as u64);
        if v > u64::MAX / 3 {
            break;
        }
        v = v * 3 - v / 2;
    }
    assert_eq!(log2_fine_of(u64::MAX) / LOG_ONE, 63);
}

#[test]
fn adequacy_is_the_exact_comparison() {
    let figures = [1u64, 2, 3, 7, 80_000, 1_000_000, 12_345_678, u64::MAX / 1_000_000, u64::MAX];
    for &capital in &figures {
        for &assets in &figures {
            for &min_ratio in &figures {
                let bank = BankState {
                    tier1_capital: capital,
                    total_assets: assets,
                    liquidity_coverage: 0,
                    entropy_index: 0,
                };
                let exact = capital as u128 * 1_000_000 >= min_ratio as u128 * assets as u128;
                assert_eq!(is_adequately_capitalized(&bank, min_ratio), exact);
            }
        }
    }
}

#[test]
fn tail_risk_is_a_share() {
    let scores: Vec<u64> = (0..37u64).map(|k| (k * k * 71_003) % 100_000_000).collect();
    let result = summarize(scores.clone()).unwrap();
    let mut last = SCALE;
    for threshold in (0..100_000_000u64).step_by(1_234_567) {
        let share = calculate_tail_risk(&result, threshold);
        assert!(share <= SCALE);
        assert!(share <= last);
        let count = scores.iter().filter(|&&s| s > threshold).count() as u64;
        assert_eq!(share, count * SCALE / 37);
        last = share;
    }
}
