//! Placement of jobs in blocks of hosts.

use network_sim::schedulers::block::BlockScheduler;
use network_sim::schedulers::cassini_block::{find_best, CassiniBlockScheduler};
use network_sim::schedulers::cluster::ClusterScheduler;
use network_sim::schedulers::fat_tree_block::FatTreeBlockScheduler;
use network_sim::schedulers::fifo_block::FifoBlockScheduler;
use network_sim::schedulers::packing::{find_best_fit, find_fullest};
use network_sim::schedulers::preloaded_rail_block::PreloadedRailBlockScheduler;
use network_sim::schedulers::rail_block::RailBlockScheduler;
use network_sim::simulator::job_scheduler::{FifoScheduler, JobScheduler};
use network_sim::simulator::ml_job::MLJob;
use std::collections::HashSet;

#[test]
fn test_block_scheduler_creation() {
    let scheduler = BlockScheduler::new(48, 8);
    assert_eq!(scheduler.block_size(), 8);
    assert_eq!(scheduler.blocks_per_tor(), 6);
}

#[test]
fn test_block_to_host_conversion() {
    let scheduler = BlockScheduler::new(48, 8);
    assert_eq!(scheduler.block_to_host(0), 0);
    assert_eq!(scheduler.block_to_host(1), 8);
    assert_eq!(scheduler.block_to_host(5), 40);
}

#[test]
fn test_is_block_free() {
    let scheduler = BlockScheduler::new(48, 8);
    let mut host_busy = vec![false; 48];

    assert!(scheduler.is_block_free(0, &host_busy));

    host_busy[3] = true;
    assert!(!scheduler.is_block_free(0, &host_busy));

    assert!(scheduler.is_block_free(1, &host_busy));
}

#[test]
fn test_get_free_blocks() {
    let scheduler = BlockScheduler::new(48, 8);
    let mut host_busy = vec![false; 48];

    let free = scheduler.get_free_blocks(&host_busy);
    assert_eq!(free.len(), 6);

    host_busy[20] = true;
    let free = scheduler.get_free_blocks(&host_busy);
    assert_eq!(free.len(), 5);
    assert!(!free.contains(&2));
}

#[test]
fn test_single_tor_placement() {
    let scheduler = BlockScheduler::new(48, 8);
    let host_busy = vec![false; 48];

    let placement = scheduler.compute_placement(16, &host_busy);
    assert!(placement.is_some());

    let mapping = placement.unwrap();
    assert_eq!(mapping.len(), 16);

    let hosts: Vec<usize> = (0..16).map(|w| mapping[&w]).collect();
    for i in 0..8 {
        assert!(hosts[i] < 8, "Worker {} should be in block 0", i);
    }
    for i in 8..16 {
        assert!(hosts[i] >= 8 && hosts[i] < 16, "Worker {} should be in block 1", i);
    }
}

#[test]
fn test_multi_tor_placement() {
    let scheduler = BlockScheduler::new(48, 8);
    let mut host_busy = vec![false; 96];

    for i in 0..40 {
        host_busy[i] = true;
    }

    let placement = scheduler.compute_placement(16, &host_busy);
    assert!(placement.is_some());

    let mapping = placement.unwrap();
    assert_eq!(mapping.len(), 16);
}

#[test]
fn block_test_insufficient_capacity() {
    let scheduler = BlockScheduler::new(48, 8);
    let mut host_busy = vec![true; 48];

    for i in 0..8 {
        host_busy[i] = false;
    }

    let placement = scheduler.compute_placement(16, &host_busy);
    assert!(placement.is_none());
}

#[test]
fn test_scheduler_creation() {
    let scheduler = CassiniBlockScheduler::new(48, 8);
    assert_eq!(scheduler.block_size(), 8);
    assert_eq!(scheduler.blocks_per_tor(), 6);
}

#[test]
fn test_single_tor_multiple_candidates() {
    let scheduler = CassiniBlockScheduler::new(48, 8);
    let host_busy = vec![false; 48];

    let candidates = scheduler.generate_candidates_for_job(0, 16, &host_busy, 10);

    assert!(candidates.len() >= 2, "Expected at least 2 candidates, got {}", candidates.len());

    for candidate in &candidates {
        assert_eq!(candidate.worker_to_host.len(), 16);
    }
}

#[test]
fn test_multi_tor_multiple_candidates() {
    let scheduler = CassiniBlockScheduler::new(48, 8);
    let mut host_busy = vec![false; 96];

    for i in 0..40 {
        host_busy[i] = true;
    }

    let candidates = scheduler.generate_candidates_for_job(0, 24, &host_busy, 10);

    assert!(!candidates.is_empty(), "Expected at least 1 candidate");

    for candidate in &candidates {
        assert_eq!(candidate.worker_to_host.len(), 24);
    }
}

#[test]
fn test_candidates_are_unique() {
    let scheduler = CassiniBlockScheduler::new(48, 8);
    let host_busy = vec![false; 96];

    let candidates = scheduler.generate_candidates_for_job(0, 16, &host_busy, 10);

    let mut seen: HashSet<Vec<usize>> = HashSet::new();
    for candidate in &candidates {
        let mut hosts: Vec<usize> = candidate.worker_to_host.values().copied().collect();
        hosts.sort();
        assert!(seen.insert(hosts.clone()), "Duplicate placement found: {:?}", hosts);
    }
}

#[test]
fn cassini_block_test_insufficient_capacity() {
    let scheduler = CassiniBlockScheduler::new(48, 8);
    let host_busy = vec![true; 48];

    let candidates = scheduler.generate_candidates_for_job(0, 16, &host_busy, 10);

    assert!(candidates.is_empty());
}

#[test]
fn test_respects_max_candidates() {
    let scheduler = CassiniBlockScheduler::new(48, 8);
    let host_busy = vec![false; 192];

    let candidates = scheduler.generate_candidates_for_job(0, 8, &host_busy, 3);
    assert!(candidates.len() <= 3);

    let candidates = scheduler.generate_candidates_for_job(0, 8, &host_busy, 10);
    assert!(candidates.len() <= 10);
}

#[test]
fn a_rack_that_just_fits_is_taken() {
    // Racks of two blocks: the first has two free blocks, the second has one.
    let scheduler = BlockScheduler::new(4, 2);
    let busy = vec![false, false, false, false, true, true, false, false];
    let mapping = scheduler.compute_placement(2, &busy).unwrap();
    assert_eq!((mapping[&0], mapping[&1]), (6, 7));
}

#[test]
fn best_fit_and_fullest() {
    assert_eq!(find_best_fit(&vec![5, 3, 2, 3], 3), Some(1));
    assert_eq!(find_best_fit(&vec![1, 2], 3), None);
    assert_eq!(find_fullest(&vec![1, 4, 4]), Some(1));
    assert_eq!(find_fullest(&vec![]), None);
}

#[test]
fn the_last_of_the_best_is_taken() {
    assert_eq!(find_best(&vec![3, 7, 7, 2]), Some(2));
    assert_eq!(find_best(&vec![]), None);
}

#[test]
fn cluster_placement_takes_the_fullest_rack() {
    let scheduler = ClusterScheduler::new(4);
    let busy = vec![true, false, false, false, false, false, false, false];
    let mapping = scheduler.compute_placement(4, &busy).unwrap();
    let mut hosts: Vec<usize> = mapping.values().copied().collect();
    hosts.sort();
    assert_eq!(hosts, vec![4, 5, 6, 7]);
    assert!(scheduler.compute_placement(8, &busy).is_none());
}

#[test]
fn fat_tree_jobs_stay_in_a_pod() {
    let scheduler = FatTreeBlockScheduler::new(4, 2, 2);
    assert_eq!(scheduler.hosts_per_pod(), 8);
    let mut busy = vec![false; 16];
    for i in 0..4 {
        busy[i] = true;
    }
    let mapping = scheduler.compute_placement(6, &busy).unwrap();
    for h in mapping.values() {
        assert!(*h >= 8);
    }
}

#[test]
fn fifo_blocks_and_fixed_places() {
    let mut scheduler = FifoBlockScheduler::new(2);
    let busy = vec![true, false, false, false, false, false];
    let mapping = scheduler.compute_placement(2, &busy).unwrap();
    assert_eq!((mapping[&0], mapping[&1]), (2, 3));

    scheduler.set_preloaded_placement(7, vec![5, 4]);
    let mut job = MLJob::new(7, 0, 2, 1);
    assert!(scheduler.try_schedule_job(&mut job, &busy));
    assert_eq!(job.get_worker_host(0), Some(5));
    assert_eq!(job.get_worker_host(1), Some(4));
}

#[test]
fn rail_blocks_stay_in_a_pod() {
    let scheduler = RailBlockScheduler::new(2, 2);
    let mut busy = vec![false; 8];
    busy[0] = true;
    let mapping = scheduler.compute_placement(4, &busy).unwrap();
    for h in mapping.values() {
        assert!(*h >= 4);
    }
}

#[test]
fn a_fixed_place_that_is_taken_is_not_used() {
    let mut scheduler = PreloadedRailBlockScheduler::new(2, 2);
    scheduler.set_preloaded_placement(1, vec![0, 1]);
    let mut busy = vec![false; 8];
    let mut job = MLJob::new(1, 0, 2, 1);
    assert!(scheduler.try_schedule_job(&mut job, &busy));
    assert_eq!(job.get_worker_host(1), Some(1));
    busy[1] = true;
    let mut again = MLJob::new(1, 0, 2, 1);
    let placed = scheduler.try_schedule_job(&mut again, &busy);
    if placed {
        assert_ne!(again.get_worker_host(1), Some(1));
    }
}

#[test]
fn jobs_leave_the_queue_in_order() {
    let mut scheduler = FifoScheduler::new();
    assert!(scheduler.is_empty());
    FifoScheduler::enqueue_job(&mut scheduler, 4);
    FifoScheduler::enqueue_job(&mut scheduler, 2);
    assert_eq!(scheduler.queue_length(), 2);
    assert_eq!(scheduler.peek_next_job(), Some(4));
    assert_eq!(FifoScheduler::dequeue_job(&mut scheduler), Some(4));
    assert_eq!(FifoScheduler::dequeue_job(&mut scheduler), Some(2));
    assert_eq!(FifoScheduler::dequeue_job(&mut scheduler), None);
}

#[test]
fn the_first_free_hosts_are_taken() {
    let mut scheduler = FifoScheduler::new();
    let mut job = MLJob::new(0, 0, 2, 1);
    let busy = vec![true, false, true, false, false];
    assert!(scheduler.try_schedule_job(&mut job, &busy));
    assert_eq!(job.get_worker_host(0), Some(1));
    assert_eq!(job.get_worker_host(1), Some(3));
    let mut large = MLJob::new(1, 0, 4, 1);
    assert!(!scheduler.try_schedule_job(&mut large, &busy));
}
