//! Fragility analysis of a bank's balance sheet in fixed-point arithmetic.
//!
//! Every quantity is an integer count of millionths ([`fixed::SCALE`] of them
//! make one unit), so each result is an exact function of its inputs and the
//! contracts state it as such.

pub mod entropy;
pub mod fixed;
pub mod lagrangian;
pub mod logarithm;
pub mod monte_carlo;
pub mod report;
pub mod statistics;

pub use entropy::{
    calculate_entropy, concentration_risk, normalized_entropy, EntropyConfig, Position,
};
pub use lagrangian::{
    capital_adequacy_ratio, compute_fragility, is_adequately_capitalized, BalanceSheet, BankState,
    LagrangianConfig,
};
pub use monte_carlo::{
    calculate_tail_risk, run_simulation, MonteCarloConfig, ShockTuple, SimulationError,
    SimulationResult,
};
pub use report::RiskLevel;
