//! Routing and planning on a spine network.

use network_sim::network::graph::LinkGraph;
use network_sim::routing::balance::SGLBConfig;
use network_sim::routing::perfect::{assign_pair_spines, assign_ring_spines, compute_edge_coloring};
use network_sim::simulator::context::MLContext;
use network_sim::simulator::ml_job::MLJob;
use network_sim::simulator::ml_worker::{FlowKind, MLWorker, WorkerEvent};
use network_sim::spine::cassini::SpineCassiniSystemModule;
use network_sim::spine::coloring::color_edges;
use network_sim::spine::critical_path::earliest_starts;
use network_sim::spine::flow_plan::{plan_flows, JobPlan, LeafTimeline};
use network_sim::spine::foresight::Foresight;
use network_sim::spine::job_model::{derive_iteration_flows, FlowTemplate, JobModel, PlanFault};
use network_sim::spine::link_use::{build_affinity, identify_links_used, CassiniFault};
use network_sim::spine::perfect::{count_from, count_over, PerfectRoutingSystem, SpinePerfectRouter};
use network_sim::spine::route_plan::{assign_spines, PlacedFlow};
use network_sim::spine::routing::{route_over, MonkeyRouter, SpineEcmpRouter, SpineRouteOracle, SpineSystemRouter};
use network_sim::spine::sglb::{SGLBRouter, SGLBSystemModule, SGLB_REMAP_TIMER_ID};
use network_sim::spine::topology::{RouteFault, SpineTree, SpineTreeRouter};
use network_sim::system_modules::cassini::types::TimeShift;
use network_sim::utils::data::DHashMap;
use network_sim::utils::hash::{hash_level, hash_pair, hash_three, pick_by_hash};
use std::collections::HashMap;

#[test]
fn links_are_found_by_their_ends() {
    let mut g = LinkGraph::new();
    let a = g.add_node();
    let b = g.add_node();
    let c = g.add_node();
    g.add_link(a, b, 7);
    g.add_link(b, c, 9);
    assert_eq!(g.link_between(a, b), Some(7));
    assert_eq!(g.link_between(b, a), None);
    assert_eq!(g.convert_path(&vec![a, b, c]), Some(vec![7, 9]));
    assert_eq!(g.convert_path(&vec![a, c]), None);
    g.add_link(a, b, 11);
    assert_eq!(g.link_between(a, b), Some(11));
}

#[test]
fn the_hash_is_that_of_the_bytes() {
    let mut bytes: Vec<u8> = Vec::new();
    for x in [3usize, 4] {
        bytes.extend_from_slice(&(x as u32).to_le_bytes());
    }
    bytes.extend_from_slice(&5u64.to_le_bytes());
    assert_eq!(hash_pair(42, 3, 4, 5), twox_hash::XxHash64::oneshot(42, &bytes));
    assert_ne!(hash_pair(42, 3, 4, 5), hash_pair(42, 4, 3, 5));
    assert_ne!(hash_level(1, 2, 3, 4, 0), hash_level(1, 2, 3, 4, 1));
    assert_ne!(hash_three(1, 2, 3, 4), hash_three(1, 2, 4, 3));
    assert_eq!(pick_by_hash(17, 5), 2);
}

#[test]
fn nodes_and_links_are_numbered() {
    // Two leaves with two hosts each, and two spines.
    let topo = SpineTree::new(2, 2, 2);
    assert_eq!(topo.total_hosts(), 4);
    assert_eq!(topo.get_host(1, 1), Some(3));
    assert_eq!(topo.get_host(2, 0), None);
    assert_eq!(topo.get_host_by_index(4), None);
    assert_eq!(topo.get_leaf(1), Some(5));
    assert_eq!(topo.get_spine(1), 7);
    assert_eq!(topo.leaf_and_host_from_node(3), (1, 1));
    assert_eq!(route_over(&topo, 0, 1, 0), vec![0, 3]);
    assert_eq!(route_over(&topo, 0, 3, 1), vec![0, 10, 15, 7]);
}

fn waiting(ctx: &mut MLContext, flow: usize, job: usize, idx: usize) {
    ctx.waiting_flows.insert(flow, (job, idx, 0, 0, 1, 0, 0));
}

#[test]
fn a_flow_keeps_its_hashed_route() {
    let topo = SpineTree::new(2, 2, 2);
    let mut ctx = MLContext::new(4);
    let mut r = SpineEcmpRouter::new(1);
    assert_eq!(r.route(&topo, &ctx, 0, 3, 5), Err(RouteFault::UnknownFlow(5)));
    waiting(&mut ctx, 5, 2, 0);
    let path = r.route(&topo, &ctx, 0, 3, 5).unwrap();
    assert_eq!(path, r.predict_path(&topo, 0, 3, 2));
    let spine = pick_by_hash(hash_pair(1, 0, 3, 2), 2);
    assert_eq!(path, route_over(&topo, 0, 3, spine));
    assert_eq!(r.route(&topo, &ctx, 0, 3, 5).unwrap(), path);
    r.complete_flow(5);
    assert!(r.path_cache.is_empty());
}

#[test]
fn routes_that_were_set_up_are_given() {
    let topo = SpineTree::new(2, 2, 2);
    let mut ctx = MLContext::new(4);
    waiting(&mut ctx, 1, 4, 6);
    let mut system = SpineSystemRouter::new();
    assert!(system.route(&topo, &ctx, 0, 3, 1).is_err());
    system.inject_template(4, 6, 0, vec![0, 8, 13, 7]);
    assert_eq!(system.route(&topo, &ctx, 0, 3, 1).unwrap(), vec![0, 8, 13, 7]);
    system.clear_templates();
    assert!(system.route(&topo, &ctx, 0, 3, 1).is_err());

    let mut pairs = MonkeyRouter::new();
    assert_eq!(pairs.route(&topo, &ctx, 0, 3, 9), Err(RouteFault::NoRoute(9)));
    pairs.inject_template(0, 3, vec![1, 2]);
    assert_eq!(pairs.route(&topo, &ctx, 0, 3, 9).unwrap(), vec![1, 2]);
}

#[test]
fn balanced_flows_move_by_timer() {
    let topo = SpineTree::new(2, 2, 2);
    let mut ctx = MLContext::new(4);
    waiting(&mut ctx, 1, 0, 0);
    let mut r = SGLBRouter::new(SGLBConfig::with_k(1));
    assert_eq!(r.route(&topo, &ctx, 0, 3, 1).unwrap().len(), 4);
    assert_eq!(r.get_stats().active_flows, 1);
    let mut module = SGLBSystemModule::with_k(1);
    let mut timers = Vec::new();
    module.on_init(&ctx, &mut timers);
    assert_eq!(timers.len(), 1);
    assert_eq!((timers[0].fire_at_us, timers[0].timer_id), (10_000, SGLB_REMAP_TIMER_ID));
    module.on_timer(&ctx, SGLB_REMAP_TIMER_ID, &topo, &mut r, &mut timers);
    assert_eq!(timers.len(), 2);
    r.complete_flow(1);
    assert_eq!(r.get_stats().links_with_flows, 0);
}

#[test]
fn colors_at_a_switch_differ() {
    let edges = vec![(0, 0), (0, 1), (1, 0), (1, 1), (2, 1)];
    assert_eq!(color_edges(&edges, 2), None);
    let colors = color_edges(&edges, 3).unwrap();
    for i in 0..edges.len() {
        for j in 0..i {
            if edges[i].0 == edges[j].0 || edges[i].1 == edges[j].1 {
                assert_ne!(colors[i], colors[j]);
            }
        }
    }
    let (_, count) = compute_edge_coloring(&edges);
    assert_eq!(count, 3);
    let spines = assign_ring_spines(&edges, 3);
    assert_ne!(spines[0], spines[1]);
    assert_ne!(spines[0], spines[2]);
}

#[test]
fn pairs_of_a_leaf_are_spread_evenly() {
    let pairs: Vec<(usize, usize)> = (0..7).map(|i| (0, 10 + i)).collect();
    let groups = vec![2; 7];
    let spines = assign_pair_spines(&pairs, &groups, 3);
    assert_eq!(spines.get(&(0, 10)), Some(&2));
    assert_eq!(spines.get(&(0, 11)), Some(&0));
    let mut hits = [0usize; 3];
    for p in &pairs {
        hits[*spines.get(p).unwrap()] += 1;
    }
    assert!(hits.iter().max().unwrap() - hits.iter().min().unwrap() <= 1);
}

fn ring_job(id: usize, hosts: &[usize]) -> MLJob {
    let n = hosts.len();
    let mut job = MLJob::new(id, 0, n, 3);
    for w in 0..n {
        let mut worker = MLWorker::new(id, w, hosts[w], 3);
        worker.add_event_template(WorkerEvent::new_compute(0, 20, vec![]));
        worker.add_event_template(WorkerEvent::new_flow_send_with_kind(1, (w + 1) % n, 50, vec![0], FlowKind::Ring));
        worker.add_event_template(WorkerEvent::new_flow_receive_with_kind(
            2,
            (w + n - 1) % n,
            50,
            vec![0],
            FlowKind::Ring,
        ));
        job.workers.insert(w, worker);
        job.worker_to_host.insert(w, hosts[w]);
    }
    job.rebuild_flow_indices();
    job
}

fn place(ctx: &mut MLContext, job: &MLJob) {
    let mut hosts: DHashMap<usize, usize> = DHashMap::new();
    for w in job.worker_to_host.keys() {
        hosts.insert(w, *job.worker_to_host.get(&w).unwrap());
    }
    ctx.set_placement(job.id, &hosts);
}

#[test]
fn ring_flows_get_spines_of_their_own() {
    let topo = SpineTree::new(2, 2, 2);
    let mut ctx = MLContext::new(4);
    let job = ring_job(0, &[0, 2]);
    place(&mut ctx, &job);
    let mut router = SpinePerfectRouter::new();
    let mut system = PerfectRoutingSystem::new();
    let rows = system.on_job_scheduled(&ctx, &job, &topo, &mut router).unwrap();
    assert_eq!(rows.len(), 2);
    assert!(rows.iter().all(|r| r.is_ring));
    assert_eq!(count_over(&rows, 0, true) + count_over(&rows, 1, true), 2);
    assert_eq!(count_from(&rows, 2, 0, rows[0].spine), 1);
    assert!(system.note_flows(2));
    assert!(!system.note_flows(1));
    waiting(&mut ctx, 8, 0, 0);
    let path = router.route(&topo, &ctx, 0, 2, 8).unwrap();
    assert_eq!(path.len(), 4);
    let rows = system.on_job_completed(&ctx, 0, &topo, &mut router).unwrap();
    assert!(rows.is_empty());
    assert!(router.flow_to_spine.is_empty());
}

#[test]
fn steps_start_as_early_as_they_can() {
    assert_eq!(earliest_starts(&vec![10, 20, 5], &vec![(0, 2), (1, 2)]), vec![0, 0, 20]);
}

#[test]
fn the_flows_of_an_iteration_are_derived() {
    let job = ring_job(0, &[0, 2]);
    let model = JobModel::from_job(&job);
    let mut times = HashMap::new();
    assert_eq!(derive_iteration_flows(&model, 2, &times), Err(PlanFault::BadEvent(0)));
    times.insert(50, 7);
    let flows = derive_iteration_flows(&model, 2, &times).unwrap();
    assert_eq!(flows.len(), 2);
    for f in &flows {
        assert_eq!((f.offset_us, f.duration_us), (20, 7));
        assert_ne!(f.src_leaf, f.dst_leaf);
    }
}

#[test]
fn a_leaf_has_lanes() {
    let mut leaf = LeafTimeline::new(1);
    assert!(leaf.can_place(0, 10));
    leaf.place(0, 10);
    assert!(!leaf.can_place(5, 6));
    assert!(!leaf.can_place(10, 20));
    assert!(leaf.can_place(11, 20));
    assert!(leaf.can_place(4, 4));
}

fn template(src: usize, dst: usize, idx: usize) -> FlowTemplate {
    FlowTemplate {
        src_host: src,
        dst_host: dst,
        src_leaf: src / 2,
        dst_leaf: dst / 2,
        offset_us: 0,
        duration_us: 10,
        job_flow_idx: idx,
    }
}

#[test]
fn iterations_do_not_overlap_on_a_lane() {
    let job = |id: usize| JobPlan {
        job_id: id,
        flows: vec![template(0, 2, 0)],
        remaining: 2,
        placed: 0,
        service_us: 0,
        next_start_us: 0,
    };
    let placed = plan_flows(vec![job(0), job(1)], 2, 1).unwrap();
    assert_eq!(placed.len(), 4);
    for i in 0..placed.len() {
        for j in 0..i {
            assert!(placed[i].end_us <= placed[j].start_us || placed[j].end_us <= placed[i].start_us);
        }
    }
}

#[test]
fn flows_at_one_time_get_different_spines() {
    let flow = |i: usize, src: usize, dst: usize| PlacedFlow {
        job_id: 0,
        job_flow_idx: i,
        iter_idx: 0,
        start_us: 0,
        end_us: 10,
        src_host: src,
        dst_host: dst,
        src_leaf: src / 2,
        dst_leaf: dst / 2,
    };
    let placed = vec![flow(0, 0, 2), flow(1, 1, 3)];
    let spines = assign_spines(&placed, 2).unwrap();
    assert_ne!(spines[0], spines[1]);
    assert!(assign_spines(&placed, 1).is_none());
}

#[test]
fn a_schedule_releases_the_flows() {
    let topo = SpineTree::new(2, 2, 2);
    let job = ring_job(3, &[0, 2]);
    let mut f = Foresight::new();
    f.record_job(&job);
    let serial = f.build_serial_schedule();
    assert_eq!(serial.entries.len(), 2);
    assert_eq!(serial.entries[0].offset_us, 0);
    assert_eq!(serial.entries[1].offset_us, 1);
    let mut times = HashMap::new();
    times.insert(50, 7);
    let (schedule, placed) = f.build_flow_schedule(&topo, &times).unwrap();
    assert!(schedule.version > serial.version);
    assert!(!placed.is_empty());
    assert!(placed.iter().all(|p| p.job_id == 3 && p.end_us == p.start_us + 7));
    f.remove_job(3);
    assert!(f.build_serial_schedule().entries.is_empty());
}

#[test]
fn a_flow_inside_a_leaf_takes_no_lane() {
    let topo = SpineTree::new(2, 2, 2);
    let mut times = HashMap::new();
    times.insert(50, 7);
    let mut inner = Foresight::new();
    inner.record_job(&ring_job(3, &[8, 9]));
    let (_, placed) = inner.build_flow_schedule(&topo, &times).unwrap();
    assert!(placed.iter().all(|p| (p.src_leaf, p.dst_leaf) == (4, 4)));
    // There is no such leaf to route the flows over.
    let mut router = SpineSystemRouter::new();
    let ctx = MLContext::new(4);
    assert_eq!(inner.on_reconfigure(&ctx, &topo, &mut router, &times).err(), Some(PlanFault::UnknownLeaf(3)));
    let mut outer = Foresight::new();
    outer.record_job(&ring_job(5, &[0, 9]));
    assert_eq!(outer.build_flow_schedule(&topo, &times).err(), Some(PlanFault::UnknownLeaf(5)));
}

#[test]
fn a_job_uses_the_links_between_its_workers() {
    let topo = SpineTree::new(2, 2, 1);
    let r = SpineEcmpRouter::new(0);
    let mut hosts: DHashMap<usize, usize> = DHashMap::new();
    hosts.insert(0, 0);
    hosts.insert(1, 2);
    let links = identify_links_used(&topo, &r, 5, &hosts);
    // Up and down at both hosts, and both ways over the only spine.
    assert_eq!(links, vec![0, 1, 4, 5, 8, 9, 10, 11]);
}

fn two_hosts(a: usize, b: usize) -> DHashMap<usize, usize> {
    let mut hosts: DHashMap<usize, usize> = DHashMap::new();
    hosts.insert(0, a);
    hosts.insert(1, b);
    hosts
}

#[test]
fn jobs_that_meet_on_two_links_form_a_loop() {
    let topo = SpineTree::new(2, 2, 1);
    let r = SpineEcmpRouter::new(0);
    let mut places: DHashMap<usize, DHashMap<usize, usize>> = DHashMap::new();
    places.insert(1, two_hosts(0, 2));
    assert_eq!(build_affinity(&topo, &r, &places).unwrap().get_jobs_sharing_links(), Vec::<usize>::new());
    places.insert(2, two_hosts(1, 3));
    assert!(matches!(build_affinity(&topo, &r, &places), Err(CassiniFault::Loop)));
    places.insert(3, two_hosts(0, 9));
    assert!(matches!(build_affinity(&topo, &r, &places), Err(CassiniFault::Unreachable(3))));
}

#[test]
fn only_workers_that_meet_need_routes() {
    let topo = SpineTree::new(2, 2, 0);
    let r = SpineEcmpRouter::new(0);
    let mut places: DHashMap<usize, DHashMap<usize, usize>> = DHashMap::new();
    places.insert(1, two_hosts(0, 1));
    let mut alone: DHashMap<usize, usize> = DHashMap::new();
    alone.insert(0, 77);
    places.insert(2, alone);
    assert_eq!(build_affinity(&topo, &r, &places).unwrap().get_jobs_sharing_links(), Vec::<usize>::new());
    assert_eq!(r.predict_path(&topo, 2, 3, 1), vec![4, 7]);
    places.insert(4, two_hosts(0, 2));
    assert!(matches!(build_affinity(&topo, &r, &places), Err(CassiniFault::Unreachable(4))));
}

#[test]
fn a_schedule_holds_all_jobs() {
    let topo = SpineTree::new(2, 2, 1);
    let r = SpineEcmpRouter::new(0);
    let mut ctx = MLContext::new(4);
    let mut module = SpineCassiniSystemModule::new().with_link_capacity(500).with_static_placement();
    assert_eq!(module.link_capacity, 500);
    assert!(module.use_static_placement);
    assert!(module.plan_reconfigure(&ctx, &topo, &r).is_none());
    let job = ring_job(1, &[0, 2]);
    module.set_bandwidth(0);
    assert_eq!(module.link_capacity, 1);
    module.record_job(&job);
    place(&mut ctx, &job);
    let g = module.plan_reconfigure(&ctx, &topo, &r).unwrap().unwrap();
    assert!(module.list_link_work(&g).unwrap().is_empty());
    let schedule = module.assemble_schedule(g, &vec![], 99);
    assert_eq!(schedule.computed_at_us, 99);
    assert_eq!(schedule.get_time_shift(1).unwrap().shift_us, 0);
    // 20 for the computation and 50 for the transfer.
    assert_eq!(schedule.job_periods.get(&1), Some(&70));
    module.remove_job(1);
    assert!(module.job_profiles.is_empty());
}

#[test]
fn shifts_for_links_reach_the_schedule() {
    let mut module = SpineCassiniSystemModule::new();
    module.record_job(&MLJob::new(1, 0, 2, 1));
    module.record_job(&MLJob::new(2, 0, 2, 1));
    module.record_job(&MLJob::new(7, 0, 2, 1));
    let mut g = network_sim::system_modules::cassini::affinity::AffinityGraph::new();
    g.add_job_link_edge(1, 40, 0);
    g.add_job_link_edge(2, 40, 0);
    let work = module.list_link_work(&g).unwrap();
    assert_eq!(work.len(), 1);
    assert_eq!((work[0].link_id, work[0].period_us), (40, 1000));
    assert_eq!(work[0].jobs, vec![2, 1]);
    let found = vec![(40, vec![TimeShift { job_id: 1, shift_us: 0 }, TimeShift { job_id: 2, shift_us: 300 }])];
    let schedule = module.assemble_schedule(g, &found, 0);
    assert_eq!(schedule.get_time_shift(1).unwrap().shift_us, 0);
    assert_eq!(schedule.get_time_shift(2).unwrap().shift_us, 300);
    assert_eq!(schedule.get_time_shift(7).unwrap().shift_us, 0);
    let staggered = module.compute_global_schedule(5);
    assert_eq!(staggered.get_time_shift(7).unwrap().shift_us, 500);
}

#[test]
fn a_serial_schedule_lists_each_flow_once() {
    let mut f = Foresight::new();
    for (id, submitted) in [(5usize, 10u64), (2, 10), (9, 3)] {
        let mut job = ring_job(id, &[0, 2]);
        job.submit_time_us = submitted;
        f.record_job(&job);
    }
    let s = f.build_serial_schedule();
    let listed: Vec<_> = s.entries.iter().map(|e| (e.job_id, e.job_flow_idx, e.offset_us)).collect();
    assert_eq!(listed, vec![(9, 0, 0), (9, 1, 1), (2, 0, 2), (2, 1, 3), (5, 0, 4), (5, 1, 5)]);
    assert_eq!((s.version, s.period_us), (1, 6));
    assert_eq!(f.build_serial_schedule().version, 2);
}
