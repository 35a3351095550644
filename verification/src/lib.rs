//! Verified core of a simulator for machine-learning training clusters.

pub mod network;
pub mod rail;
pub mod routing;
pub mod schedulers;
pub mod simulator;
pub mod spine;
pub mod system_modules;
pub mod utils;
