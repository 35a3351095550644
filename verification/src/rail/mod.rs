//! Rail-optimised networks.

pub mod crux;
pub mod perfect;
pub mod routing;
pub mod sglb;
pub mod topology;
