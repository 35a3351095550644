//! Which of several possibilities is taken.

use network_sim::schedulers::block::BlockScheduler;
use network_sim::schedulers::cassini_block::{CassiniBlockScheduler, PlacementScorer, RatedBlockScheduler};
use network_sim::schedulers::cluster::ClusterScheduler;
use network_sim::schedulers::fat_tree_block::FatTreeBlockScheduler;
use network_sim::schedulers::fifo_block::FifoBlockScheduler;
use network_sim::schedulers::preloaded_rail_block::PreloadedRailBlockScheduler;
use network_sim::schedulers::rail_block::RailBlockScheduler;
use network_sim::simulator::job_scheduler::{FifoScheduler, JobScheduler};
use network_sim::spine::coloring::color_edges;
use network_sim::spine::foresight::build_routing;
use network_sim::spine::route_plan::{assign_spines, PlacedFlow};
use network_sim::spine::routing::SpineSystemRouter;
use network_sim::spine::topology::SpineTree;
use network_sim::utils::job_gen::make_ring_job;
use network_sim::utils::job_loader::{job_key, PipelineParams};

fn count<S: JobScheduler>(s: &S, workers: usize, hosts: usize, max: usize) -> usize {
    assert!(s.is_accepted(0, workers, hosts));
    s.generate_placement_candidates(&make_ring_job(0, workers, 1, 1), &vec![false; hosts], max).len()
}

#[test]
fn no_more_candidates_come_than_are_asked_for() {
    let s = CassiniBlockScheduler::new(2, 2);
    assert!(s.generate_candidates_for_job(0, 4, &[false; 4], 0).is_empty());
    assert_eq!(s.generate_candidates_for_job(0, 4, &[false; 4], 1).len(), 1);
    assert_eq!(count(&RatedBlockScheduler::new(2, 2, Fewest), 4, 4, 0), 0);
    assert_eq!(count(&RatedBlockScheduler::new(8, 2, Fewest), 4, 32, 3), 3);
    for (max, expected) in [(0usize, 0usize), (1, 1), (5, 1)] {
        assert_eq!(count(&FifoScheduler::new(), 4, 8, max), expected);
        assert_eq!(count(&BlockScheduler::new(4, 2), 4, 8, max), expected);
        assert_eq!(count(&ClusterScheduler::new(4), 4, 8, max), expected);
        assert_eq!(count(&FifoBlockScheduler::new(2), 4, 8, max), expected);
        assert_eq!(count(&FatTreeBlockScheduler::new(4, 2, 2), 4, 8, max), expected);
        assert_eq!(count(&RailBlockScheduler::new(2, 2), 4, 8, max), expected);
        assert_eq!(count(&PreloadedRailBlockScheduler::new(2, 2), 4, 8, max), expected);
    }
}

#[test]
fn sizes_that_make_no_blocks_are_not_accepted() {
    assert!(!BlockScheduler::new(4, 2).is_accepted(0, 3, 8));
    assert!(!FatTreeBlockScheduler::new(4, 2, 2).is_accepted(0, 3, 8));
    assert!(!RailBlockScheduler::new(2, 2).is_accepted(0, 3, 8));
    assert!(ClusterScheduler::new(4).is_accepted(0, 3, 8));
    let mut fixed = FifoBlockScheduler::new(2);
    assert!(!fixed.is_accepted(7, 3, 8));
    fixed.set_preloaded_placement(7, vec![0, 1, 2]);
    assert!(fixed.is_accepted(7, 3, 8));
}

/// The fewer other hosts are busy, the better.
struct Fewest;

impl PlacementScorer for Fewest {
    fn score(&self, other_load: &Vec<usize>, _num_workers: usize, _hosts_per_tor: usize) -> u64 {
        1000 - other_load.iter().sum::<usize>() as u64
    }
}

/// The more other hosts are busy, the better.
struct Most;

impl PlacementScorer for Most {
    fn score(&self, other_load: &Vec<usize>, _num_workers: usize, _hosts_per_tor: usize) -> u64 {
        other_load.iter().sum::<usize>() as u64
    }
}

/// All placements are as good.
struct Even;

impl PlacementScorer for Even {
    fn score(&self, _other_load: &Vec<usize>, _num_workers: usize, _hosts_per_tor: usize) -> u64 {
        7
    }
}

fn placed_by<P: PlacementScorer>(scorer: P, busy: &Vec<bool>) -> Vec<usize> {
    let mut s = RatedBlockScheduler::new(4, 1, scorer);
    let mut job = make_ring_job(0, 2, 1, 1);
    assert!(s.try_schedule_job(&mut job, busy));
    (0..2).map(|w| job.get_worker_host(w).unwrap()).collect()
}

#[test]
fn the_placement_with_the_best_rating_is_taken() {
    // Below the first switch two hosts are busy, below the second one, below the third none.
    let mut busy = vec![false; 12];
    for h in [0usize, 1, 4] {
        busy[h] = true;
    }
    assert_eq!(placed_by(Most, &busy), vec![2, 3]);
    let free = placed_by(Fewest, &busy);
    assert!(free.iter().all(|h| *h >= 8), "{:?}", free);
    // Of those that are as good the last is taken.
    let all = CassiniBlockScheduler::new(4, 1).generate_candidates_for_job(0, 2, &busy, 10);
    let last = &all[all.len() - 1].worker_to_host;
    assert_eq!(placed_by(Even, &busy), vec![last[&0], last[&1]]);
}

#[test]
fn colours_are_the_first_that_are_free() {
    // The third edge takes the first colour, which moves the first edge to the second.
    assert_eq!(color_edges(&vec![(0, 1), (4, 3), (2, 1), (2, 3)], 2), Some(vec![1, 0, 0, 1]));
    // The colours are exchanged along a path of two edges.
    assert_eq!(color_edges(&vec![(0, 0), (0, 1), (1, 0)], 2), Some(vec![1, 0, 0]));
}

fn flow(job_flow_idx: usize, src: usize, dst: usize) -> PlacedFlow {
    PlacedFlow {
        job_id: 0,
        job_flow_idx,
        iter_idx: 0,
        start_us: 0,
        end_us: 10,
        src_host: src,
        dst_host: dst,
        src_leaf: src,
        dst_leaf: dst,
    }
}

#[test]
fn planned_flows_get_their_spines_in_order() {
    let topo = SpineTree::new(1, 5, 2);
    let mut router = SpineSystemRouter::new();
    let placed = vec![flow(0, 0, 1), flow(1, 4, 3), flow(2, 2, 1), flow(3, 2, 3)];
    assert_eq!(assign_spines(&placed, 2), Some(vec![Some(1), Some(0), Some(0), Some(1)]));
    assert_eq!(build_routing(&topo, &mut router, &placed), Ok(()));
    for (i, path) in [[0usize, 12, 17, 3], [8, 26, 23, 7], [4, 18, 15, 3], [4, 20, 25, 7]].iter().enumerate() {
        assert_eq!(router.template_cache.get(&(0, i, 0)).unwrap(), path);
    }
    assert_eq!(router.template_cache.len(), 4);
}

#[test]
fn files_of_job_types_have_keys() {
    assert_eq!(job_key("s1.yaml"), Some("s1".to_string()));
    assert_eq!(job_key("big/s2.yml"), Some("big/s2".to_string()));
    assert_eq!(job_key("a.b.yaml"), Some("a.b".to_string()));
    for other in ["s1.json", "yaml", "s1.yaml.bak", ".yaml", "big/.yml", ""] {
        assert_eq!(job_key(other), None);
    }
}

#[test]
fn given_replicas_are_kept() {
    let p = PipelineParams {
        num_stages: 2,
        tp_size: 1,
        dp_replicas: Some(8),
        microbatches: 2,
        stages: vec![],
        forward_us: None,
        backward_us: None,
        activation_size_bytes: None,
        model_shard_bytes: 0,
    };
    assert_eq!(p.workers_per_replica(), 2);
    assert_eq!(p.to_config_with_workers(16).dp_replicas, 8);
}
