//! Spine networks.

pub mod cassini;
pub mod coloring;
pub mod critical_path;
pub mod flow_plan;
pub mod foresight;
pub mod iteration_times;
pub mod job_model;
pub mod link_use;
pub mod perfect;
pub mod plan_order;
pub mod plan_starts;
pub mod planned_routes;
pub mod release_times;
pub mod route_plan;
pub mod routing;
pub mod sglb;
pub mod shared_links;
pub mod topology;
