//! Modules that steer the cluster.

pub mod cassini;
