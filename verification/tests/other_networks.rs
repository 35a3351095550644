//! Routing on rail networks and fat trees.

use network_sim::network::graph::LinkGraph;
use network_sim::rail::crux::{compute_best_rail_path, pick_fallback, RailCruxRouter, RailCruxSystemModule};
use network_sim::rail::perfect::{RailPerfectRouter, RailPerfectRoutingSystem};
use network_sim::rail::routing::{build_rail_node_path, rail_route_over, RailEcmpRouter};
use network_sim::rail::sglb::RailSGLBSystem;
use network_sim::rail::topology::{RailTree, RailTreeRouter};
use network_sim::routing::balance::SGLBConfig;
use network_sim::routing::crux::{compute_best_path, CruxRouter};
use network_sim::routing::ecmp::EcmpRouter;
use network_sim::routing::fat_tree::{FatTree, FatTreeRouter};
use network_sim::routing::intensity::job_totals;
use network_sim::routing::load::{find_best_path, get_count, lower_path, raise_path, score_path};
use network_sim::routing::system_router::SystemRouter;
use network_sim::simulator::context::{make_active_job_snapshot, MLContext};
use network_sim::simulator::ml_job::MLJob;
use network_sim::simulator::ml_worker::{FlowKind, MLWorker, WorkerEvent};
use network_sim::spine::topology::RouteFault;
use network_sim::utils::data::DHashMap;

fn waiting(ctx: &mut MLContext, flow: usize, job: usize, idx: usize) {
    ctx.waiting_flows.insert(flow, (job, idx, 0, 0, 1, 0, 0));
}

#[test]
fn gpus_and_rails_are_numbered() {
    let topo = RailTree::new(4, 2, 2, 3);
    assert_eq!(topo.total_gpus(), 16);
    assert_eq!(topo.gpus_per_pod(), 8);
    assert_eq!(topo.num_rails_per_pod(), 4);
    assert_eq!(topo.get_host(1, 0, 2), Some(10));
    assert_eq!(topo.get_host(2, 0, 0), None);
    assert_eq!((topo.host_pod(10), topo.host_block_in_pod(10), topo.host_gpu_offset(10)), (1, 0, 2));
    assert_eq!(topo.host_block_global(10), 2);
    assert_eq!(topo.host_rail_global(10), 6);
    let rail = topo.get_rail(1, 2).unwrap();
    assert_eq!(rail, 22);
    assert_eq!(topo.rail_coords_from_node(rail), (1, 2));
    assert_eq!(topo.rail_global_index(rail), 6);
    assert_eq!(topo.get_spine(1), 25);
}

#[test]
fn a_rail_route_leaves_the_pod_over_a_spine() {
    let topo = RailTree::new(4, 2, 2, 3);
    let nodes = build_rail_node_path(&topo, 0, 8, Some(2));
    assert_eq!(nodes, vec![0, 16, 26, 20, 8]);
    assert_eq!(rail_route_over(&topo, 0, 8, Some(2)).len(), 4);
    assert_eq!(build_rail_node_path(&topo, 0, 4, None), vec![0, 16, 4]);
}

#[test]
fn hashed_rail_routes_stay() {
    let topo = RailTree::new(4, 2, 2, 3);
    let mut ctx = MLContext::new(16);
    waiting(&mut ctx, 1, 9, 0);
    let mut r = RailEcmpRouter::new(3);
    let path = r.route(&topo, &ctx, 0, 8, 1).unwrap();
    assert_eq!(r.route(&topo, &ctx, 0, 8, 1).unwrap(), path);
    r.complete_flow(1);
}

fn rail_job(id: usize, hosts: &[usize]) -> MLJob {
    let n = hosts.len();
    let mut job = MLJob::new(id, 0, n, 1);
    for w in 0..n {
        let mut worker = MLWorker::new(id, w, hosts[w], 1);
        worker.add_event_template(WorkerEvent::new_flow_send_with_kind(0, (w + 1) % n, 50, vec![], FlowKind::Ring));
        job.workers.insert(w, worker);
        job.worker_to_host.insert(w, hosts[w]);
    }
    job.rebuild_flow_indices();
    job
}

fn place(ctx: &mut MLContext, job: &MLJob) {
    let mut hosts: DHashMap<usize, usize> = DHashMap::new();
    for w in job.worker_to_host.keys() {
        hosts.insert(w, *job.worker_to_host.get(&w).unwrap());
    }
    ctx.set_placement(job.id, &hosts);
}

#[test]
fn rail_flows_avoid_loaded_links() {
    let topo = RailTree::new(4, 2, 2, 2);
    let mut loads: DHashMap<usize, usize> = DHashMap::new();
    let first = compute_best_rail_path(&loads, &topo, 0, 8).unwrap();
    assert_eq!(first, rail_route_over(&topo, 0, 8, Some(0)));
    let over = vec![first[1], first[2]];
    raise_path(&mut loads, &over);
    let second = compute_best_rail_path(&loads, &topo, 0, 8).unwrap();
    assert_eq!(second, rail_route_over(&topo, 0, 8, Some(1)));
    lower_path(&mut loads, &over);
    assert!(loads.is_empty());
    assert!(pick_fallback(3, 4, 2) < 2);
}

#[test]
fn crux_routes_flows_of_placed_jobs() {
    let topo = RailTree::new(4, 2, 2, 2);
    let mut ctx = MLContext::new(16);
    let job = rail_job(0, &[0, 8]);
    place(&mut ctx, &job);
    let mut module = RailCruxSystemModule::new();
    module.on_job_scheduled(&job).unwrap();
    module.set_intensity(0, 5);
    let mut router = RailCruxRouter::new();
    module.recompute_routes(&ctx, &topo, &mut router).unwrap();
    waiting(&mut ctx, 1, 0, 0);
    assert_eq!(router.route(&topo, &ctx, 0, 8, 1).unwrap().len(), 4);
    module.on_job_completed(0);
}

#[test]
fn perfect_rail_routes_use_set_spines() {
    let topo = RailTree::new(4, 2, 2, 2);
    let mut ctx = MLContext::new(16);
    let job = rail_job(0, &[0, 8]);
    place(&mut ctx, &job);
    let mut system = RailPerfectRoutingSystem::new();
    let mut router = RailPerfectRouter::new();
    let rows = system.on_job_scheduled(&ctx, &job, &topo, &mut router).unwrap();
    assert_eq!(rows.len(), 2);
    waiting(&mut ctx, 4, 0, rows[0].job_flow_idx);
    let path = router.route(&topo, &ctx, rows[0].src_host, rows[0].dst_host, 4).unwrap();
    assert_eq!(path, rail_route_over(&topo, rows[0].src_host, rows[0].dst_host, Some(rows[0].spine)));
    assert!(system.on_job_completed(&ctx, 0, &topo, &mut router).unwrap().is_empty());
}

#[test]
fn the_rail_module_starts_its_timer() {
    let ctx = MLContext::new(16);
    let mut module = RailSGLBSystem::with_k(2).without_logging();
    assert!(!module.log_stats);
    assert_eq!(module.config().k, 2);
    let mut timers = Vec::new();
    module.on_init(&ctx, &mut timers);
    assert!(module.timer_started);
    assert_eq!(timers.len(), 1);
    let mut quiet = RailSGLBSystem::new(SGLBConfig::with_k(2).without_periodic_remap());
    quiet.on_init(&ctx, &mut timers);
    assert_eq!(timers.len(), 1);
}

/// Two pods with two hosts below a switch each, two aggregation switches in a pod and four core switches.
fn make_tree() -> FatTree {
    let mut graph = LinkGraph::new();
    for _ in 0..14 {
        graph.add_node();
    }
    // Hosts 0..4, switches 4 and 5, aggregation 6..10, core 10..14.
    let mut id = 0;
    let mut join = |g: &mut LinkGraph, a: usize, b: usize| {
        g.add_link(a, b, id);
        g.add_link(b, a, id + 1);
        id += 2;
    };
    for h in 0..4 {
        join(&mut graph, h, 4 + h / 2);
    }
    for p in 0..2 {
        for a in 0..2 {
            join(&mut graph, 4 + p, 6 + 2 * p + a);
        }
    }
    for p in 0..2 {
        for a in 0..2 {
            for c in 0..4 {
                join(&mut graph, 6 + 2 * p + a, 10 + c);
            }
        }
    }
    FatTree {
        graph,
        host_tor: vec![4, 4, 5, 5],
        host_pod: vec![0, 0, 1, 1],
        aggs: vec![vec![6, 7], vec![8, 9]],
        cores: vec![10, 11, 12, 13],
        degree_agg: 2,
        degree_core: 2,
    }
}

#[test]
fn fat_tree_paths() {
    let topo = make_tree();
    assert_eq!(topo.near_path(0, 1), Some(vec![0, 3]));
    assert_eq!(topo.near_path(0, 2), None);
    assert_eq!(topo.far_path(0, 2, 0, 0, 0).unwrap().len(), 6);
}

#[test]
fn fat_tree_hashed_routes_stay() {
    let topo = make_tree();
    let ctx = MLContext::new(4);
    let mut r = EcmpRouter::new(11);
    assert_eq!(r.route(&topo, &ctx, 0, 1, 1).unwrap(), vec![0, 3]);
    let path = r.route(&topo, &ctx, 0, 3, 2).unwrap();
    assert_eq!(path.len(), 6);
    assert_eq!(r.compute_path(&topo, 0, 3, 2).unwrap(), path);
    assert_eq!(r.route(&topo, &ctx, 0, 3, 2).unwrap(), path);
}

#[test]
fn fat_tree_routes_that_were_set_up() {
    let topo = make_tree();
    let mut ctx = MLContext::new(4);
    let mut r = SystemRouter::new();
    assert_eq!(r.route(&topo, &ctx, 0, 3, 2), Err(RouteFault::UnknownFlow(2)));
    waiting(&mut ctx, 2, 1, 1);
    assert!(r.route(&topo, &ctx, 0, 3, 2).is_err());
    r.inject_route(1, 1, 0, vec![5, 6]);
    assert_eq!(r.route(&topo, &ctx, 0, 3, 2).unwrap(), vec![5, 6]);
}

#[test]
fn crux_takes_the_least_loaded_way() {
    let topo = make_tree();
    let mut ctx = MLContext::new(4);
    let mut loads: DHashMap<usize, usize> = DHashMap::new();
    let first = compute_best_path(&loads, &topo, 0, 3).unwrap();
    raise_path(&mut loads, &vec![first[2]]);
    let second = compute_best_path(&loads, &topo, 0, 3).unwrap();
    assert_ne!(first[2], second[2]);
    waiting(&mut ctx, 1, 0, 0);
    let mut r = CruxRouter::new();
    r.set_intensity(0, 3);
    assert_eq!(r.route(&topo, &ctx, 0, 3, 1).unwrap().len(), 6);
    r.complete_flow(1);
}

#[test]
fn the_first_of_the_best_paths() {
    let mut loads: DHashMap<usize, usize> = DHashMap::new();
    raise_path(&mut loads, &vec![1, 2]);
    raise_path(&mut loads, &vec![2]);
    assert_eq!(get_count(&loads, 2), 2);
    assert_eq!(get_count(&loads, 9), 0);
    assert_eq!(find_best_path(&loads, &vec![vec![1, 2], vec![3], vec![4]]), 1);
    assert!(score_path(&loads, &vec![1, 2]) > score_path(&loads, &vec![3]));
}

#[test]
fn totals_of_a_job() {
    let mut job = MLJob::new(0, 0, 2, 1);
    for w in 0..2 {
        let mut worker = MLWorker::new(0, w, w, 1);
        worker.add_event_template(WorkerEvent::new_compute(0, 30, vec![]));
        worker.add_event_template(WorkerEvent::new_flow_send(1, 1 - w, 100, vec![0]));
        job.workers.insert(w, worker);
    }
    let info = make_active_job_snapshot(&job);
    assert_eq!(job_totals(&info), (60, 200));
}
