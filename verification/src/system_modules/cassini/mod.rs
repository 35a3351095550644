//! Cassini: shifts in time that keep the communication of jobs on a link apart.

pub mod affinity;
pub mod cycles;
pub mod geometry;
pub mod loops;
pub mod profiler;
pub mod profiles;
pub mod shifts;
pub mod store;
pub mod system;
pub mod timeline;
pub mod timing;
pub mod types;
