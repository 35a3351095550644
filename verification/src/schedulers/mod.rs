//! Job schedulers for particular clusters.

pub mod block;
pub mod candidates;
pub mod cassini_block;
pub mod choices;
pub mod cluster;
pub mod fat_tree_block;
pub mod fifo_block;
pub mod layout;
pub mod packing;
pub mod pods;
pub mod preloaded;
pub mod preloaded_rail_block;
pub mod rail_block;
pub mod spread;
