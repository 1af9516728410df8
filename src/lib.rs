//! Yuma consensus step and registration difficulty control for a
//! stake-weighted trust graph, computed in deterministic fixed point.

pub mod difficulty;
pub mod engine;
pub mod fixed;
pub mod laws;
pub mod pallet;
pub mod step;
