//! The bands into which a score or a concentration falls.

use vstd::prelude::*;

verus! {

/// A fragility score above this is high risk: 20.
pub const FRAGILITY_HIGH: u64 = 20_000_000;

/// A fragility score above this is at least medium risk: 10.
pub const FRAGILITY_MEDIUM: u64 = 10_000_000;

/// A concentration above this is high: 0.7.
pub const CONCENTRATION_HIGH: i64 = 700_000;

/// A concentration above this is at least medium: 0.4.
pub const CONCENTRATION_MEDIUM: i64 = 400_000;

/// How much there is to worry about.
#[derive(Debug, Clone, Copy, PartialEq, Eq, Structural)]
pub enum RiskLevel {
    /// The system appears stable, the portfolio well diversified.
    Low,
    /// Elevated.
    Medium,
    /// Critical.
    High,
}

/// The band of a value between two thresholds: high strictly above the
/// upper one, medium strictly above the lower one, and else low.
pub open spec fn band(value: int, medium: int, high: int) -> RiskLevel {
    if value > high {
        RiskLevel::High
    } else if value > medium {
        RiskLevel::Medium
    } else {
        RiskLevel::Low
    }
}

/// The risk band of a fragility score.
pub fn fragility_level(score: u64) -> (level: RiskLevel)
    ensures
        level == band(score as int, FRAGILITY_MEDIUM as int, FRAGILITY_HIGH as int),
{
    if score > FRAGILITY_HIGH {
        RiskLevel::High
    } else if score > FRAGILITY_MEDIUM {
        RiskLevel::Medium
    } else {
        RiskLevel::Low
    }
}

/// The band of a concentration risk.
pub fn concentration_level(risk: i64) -> (level: RiskLevel)
    ensures
        level == band(risk as int, CONCENTRATION_MEDIUM as int, CONCENTRATION_HIGH as int),
{
    if risk > CONCENTRATION_HIGH {
        RiskLevel::High
    } else if risk > CONCENTRATION_MEDIUM {
        RiskLevel::Medium
    } else {
        RiskLevel::Low
    }
}

} // verus!
