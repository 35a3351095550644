//! Routers of fat trees, and what routers share.

pub mod balance;
pub mod balanced;
pub mod crux;
pub mod ecmp;
pub mod fat_tree;
pub mod flow_lists;
pub mod intensity;
pub mod job_flows;
pub mod least_used;
pub mod load;
pub mod perfect;
pub mod perfect_routes;
pub mod system_router;
pub mod walks;
