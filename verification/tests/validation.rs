//! Checks of sizes.

use network_sim::simulator::ml_job::MLJob;
use network_sim::utils::validation::{
    validate_job_for_block_scheduler, validate_jobs_for_block_scheduler, validate_topology_for_blocks,
    validate_worker_count, validate_worker_count_with_block_size,
};

#[test]
fn test_validate_worker_count() {
    assert!(validate_worker_count_with_block_size(8, 8).is_ok());
    assert!(validate_worker_count_with_block_size(16, 8).is_ok());
    assert!(validate_worker_count_with_block_size(24, 8).is_ok());

    assert!(validate_worker_count_with_block_size(10, 8).is_err());
    assert!(validate_worker_count_with_block_size(7, 8).is_err());
    assert!(validate_worker_count_with_block_size(1, 8).is_err());
}

#[test]
fn test_validate_topology() {
    assert!(validate_topology_for_blocks(48, 8).is_ok());
    assert!(validate_topology_for_blocks(64, 8).is_ok());

    assert!(validate_topology_for_blocks(50, 8).is_err());
    assert!(validate_topology_for_blocks(7, 8).is_err());
}

#[test]
fn jobs_are_checked_one_by_one() {
    assert!(validate_worker_count(16).is_ok());
    assert!(validate_worker_count(15).is_err());
    let good = MLJob::new(0, 0, 16, 1);
    let bad = MLJob::new(1, 0, 12, 1);
    assert!(validate_job_for_block_scheduler(&good, 8).is_ok());
    assert!(validate_job_for_block_scheduler(&bad, 8).is_err());
    let message = validate_jobs_for_block_scheduler(&vec![good, bad], 8).unwrap_err();
    assert!(message.contains("12"));
}
