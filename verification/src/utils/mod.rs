//! Shared data structures and helpers.

mod key;
pub mod compatibility;
pub mod data;
pub mod digits;
pub mod hash;
pub mod job_gen;
pub mod job_loader;
pub mod text;
pub mod validation;
pub mod workloads;
