//! Jobs, workers and the event-driven simulator that runs them.

pub mod context;
pub mod event_queue;
pub mod flow_scheduler;
pub mod flows;
pub mod iteration;
pub mod job_scheduler;
pub mod migration;
pub mod ml_job;
pub mod ml_simulator;
pub mod ml_worker;
pub mod occupancy;
pub mod peers;
pub mod progress;
pub mod ranks;
pub mod shown;
pub mod sim_state;
pub mod system;
pub mod transfers;
pub mod waits;
