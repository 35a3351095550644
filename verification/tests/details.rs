//! Settings, and what they are read back as.

use network_sim::network::{EventKind, NetworkSimulator};
use network_sim::routing::balance::{SGLBConfig, Weight};
use network_sim::schedulers::block::BlockScheduler;
use network_sim::simulator::context::MLContext;
use network_sim::simulator::flow_scheduler::ImmediateFlowScheduler;
use network_sim::simulator::job_scheduler::FifoScheduler;
use network_sim::simulator::ml_job::{JobState, MLJob, PipelineStageInfo};
use network_sim::simulator::ml_simulator::MLSimulator;
use network_sim::simulator::ml_worker::{FlowKind, MLWorker, WorkerEvent};
use network_sim::simulator::sim_state::SimState;
use network_sim::simulator::system::NoopSystemModule;
use network_sim::spine::cassini::SpineCassiniSystemModule;
use network_sim::spine::topology::SpineTree;
use network_sim::system_modules::cassini::geometry::mark_arc;
use network_sim::utils::data::DHashMap;
use network_sim::utils::job_gen::{load_variable_singlepeak_jobs, make_ring_job};
use network_sim::utils::job_loader::{ComputeParams, JobDefinition, JobRegistry, JobStep, StridedRingParams};

/// A network without flows.
struct Idle;

impl NetworkSimulator for Idle {
    fn now_us(&self) -> u64 {
        0
    }

    fn peek_time(&self) -> u64 {
        u64::MAX
    }

    fn add_flow_arrival(&mut self, _now: u64, _src: usize, _dst: usize, _size: u64, _idx: usize) -> usize {
        0
    }

    fn advance_next_step(&mut self) -> Option<(EventKind, usize)> {
        None
    }
}

fn idle_sim(hosts: usize) -> MLSimulator<FifoScheduler, ImmediateFlowScheduler, NoopSystemModule, Idle> {
    MLSimulator::new(hosts, Idle, FifoScheduler::new(), ImmediateFlowScheduler::new(), NoopSystemModule)
}

#[test]
fn arcs_raise_what_they_cover() {
    let mut samples = vec![0, 5, 0, 9, 0, 0];
    mark_arc(&mut samples, 1, 3, false, 7);
    assert_eq!(samples, vec![0, 7, 7, 9, 0, 0]);
    mark_arc(&mut samples, 4, 0, true, 2);
    assert_eq!(samples, vec![2, 7, 7, 9, 2, 2]);
    mark_arc(&mut samples, 5, 9, false, 3);
    assert_eq!(samples, vec![2, 7, 7, 9, 2, 3]);
}

#[test]
fn hosts_belong_to_the_jobs_that_are_placed_there() {
    let mut state = SimState::new(4);
    let mut first: DHashMap<usize, usize> = DHashMap::new();
    first.insert(0, 2);
    first.insert(1, 0);
    let mut second: DHashMap<usize, usize> = DHashMap::new();
    second.insert(0, 2);
    second.insert(1, 9);
    state.context.placements.insert(3, first);
    state.context.placements.insert(7, second);
    assert_eq!(state.list_host_jobs(), vec![Some(3), None, Some(7), None]);
}

#[test]
fn a_registry_builds_the_types_it_knows() {
    let mut registry = JobRegistry::new();
    let steps = vec![
        JobStep::Compute(ComputeParams { duration_us: 5 }),
        JobStep::StridedRing(StridedRingParams { stride: 4, model_size_bytes: 10 }),
    ];
    registry.insert("s1".to_string(), JobDefinition { name: "S1".to_string(), model_size_bytes: 9, steps });
    let plan = registry.build_job("s1", 3, 8, 20).unwrap();
    assert_eq!((plan.job_id, plan.num_workers, plan.num_iterations, plan.name.as_str()), (3, 8, 20, "S1"));
    assert_eq!(plan.ops.len(), 2);
    assert_eq!(plan.ring_count, Some(4));
    assert_eq!(registry.build_job("s2", 3, 8, 20).err(), Some("Unknown job type: s2".to_string()));
}

#[test]
fn weights_and_intervals_are_kept() {
    let w = SGLBConfig::with_weights(3, Weight::new(2, 1), Weight::new(1, 2));
    assert_eq!((w.k, w.w1, w.w2), (3, Weight { num: 2, den: 1 }, Weight { num: 1, den: 2 }));
    let r = SGLBConfig::with_remap_interval(4, 250);
    assert_eq!((r.k, r.remap_interval_us), (4, 250));
    let d = SGLBConfig::default();
    assert_eq!((r.w1, r.w2, r.enable_remapping), (d.w1, d.w2, d.enable_remapping));
}

#[test]
fn blocks_and_hosts_are_related() {
    let s = BlockScheduler::new(32, 8);
    assert_eq!(s.host_to_block(0), 0);
    assert_eq!(s.host_to_block(31), 3);
    assert_eq!(s.host_to_block(32), 4);
    assert_eq!(s.block_to_tor(3), 0);
    assert_eq!(s.block_to_tor(4), 1);
    assert_eq!(s.host_to_block(s.block_to_host(6)), 6);
}

#[test]
fn sends_are_ring_flows_or_pipeline_flows() {
    let ring = WorkerEvent::new_flow_send_ex(1, 2, 30, vec![0], true);
    assert!(ring.flow_send.as_ref().unwrap().is_ring_flow());
    let other = WorkerEvent::new_flow_send_ex(1, 2, 30, vec![0], false);
    assert!(!other.flow_send.as_ref().unwrap().is_ring_flow());
    assert_ne!(other.flow_send.as_ref().unwrap().flow_kind, FlowKind::Ring);
    assert_eq!(other.flow_send.as_ref().unwrap().size_bytes, 30);
}

#[test]
fn a_worker_ends_after_its_last_iteration() {
    let mut w = MLWorker::new(0, 0, 0, 1);
    w.add_event_template(WorkerEvent::new_compute(0, 5, vec![]));
    assert!(!w.has_pending_events());
    w.start(vec![40], 0);
    assert!(w.has_pending_events());
    let ready = w.get_all_ready_events();
    assert_eq!(ready.len(), 1);
    assert_eq!(w.get_running_events().len(), 1);
    assert!(w.notify_event_completed(40));
    assert!(!w.has_pending_events());
    assert!(w.is_completely_finished());
    assert!(!w.is_waiting_for_barrier());
}

#[test]
fn jobs_keep_what_they_are_given() {
    let info = PipelineStageInfo { num_stages: 2, workers_per_stage: 2, rings_per_stage: 1 };
    let mut job = MLJob::new(0, 10, 4, 5).with_pipeline_stages(info);
    assert!(job.pipeline_stages.is_some());
    job.assign_worker(1, 3);
    job.get_worker_mut(1).unwrap().host_index = 6;
    assert_eq!(job.get_worker(1).unwrap().host_index, 6);
    assert!(job.get_worker_mut(9).is_none());
    job.mark_failed(77);
    assert_eq!(job.state, JobState::Failed);
    assert_eq!(job.completion_time_us, Some(77));
}

#[test]
fn timers_are_collected() {
    let mut ctx = MLContext::new(2);
    ctx.time_us = 100;
    ctx.schedule_timer(50, 1);
    ctx.schedule_timer_at(120, 2);
    let timers: Vec<(u64, u64)> = ctx.pending_timers.iter().map(|t| (t.fire_at_us, t.timer_id)).collect();
    assert_eq!(timers, vec![(150, 1), (120, 2)]);
}

#[test]
fn delays_after_migrations_are_set() {
    let mut sim = idle_sim(2);
    assert_eq!(sim.state.post_migration_delay_us, 0);
    sim.set_post_migration_delay_us(30);
    assert_eq!(sim.state.post_migration_delay_us, 30);
    sim.set_post_migration_delay_iterations(4, 25);
    assert_eq!(sim.state.post_migration_delay_us, 100);
}

#[test]
fn jobs_with_a_peak_arrive_one_after_the_other() {
    let mut sim = idle_sim(4);
    let sizes: Vec<u64> = (50..=1550).collect();
    load_variable_singlepeak_jobs(&mut sim, 3, 5, &sizes);
    assert_eq!(sim.get_all_jobs().len(), 5);
    for i in 0..5usize {
        let job = sim.get_all_jobs().get(&i).unwrap();
        let worker = job.get_worker(0).unwrap();
        let compute = worker.template_events[0].compute.as_ref().unwrap().duration_us;
        let size = worker.template_events[1].flow_send.as_ref().unwrap().size_bytes;
        assert_eq!(compute + size, 1600);
    }
}

#[test]
fn the_first_placement_is_as_good_as_any() {
    let mut module = SpineCassiniSystemModule::new();
    let job = make_ring_job(0, 2, 10, 10);
    assert_eq!(module.evaluate_placement_candidates(&job, &vec![], 125), None);
    let mut a: DHashMap<usize, usize> = DHashMap::new();
    a.insert(0, 0);
    a.insert(1, 4);
    let mut b: DHashMap<usize, usize> = DHashMap::new();
    b.insert(0, 1);
    b.insert(1, 2);
    assert_eq!(module.evaluate_placement_candidates(&job, &vec![a, b], 125), Some(0));
}

#[test]
fn spines_are_numbered() {
    let topo = SpineTree::new(2, 3, 4);
    for s in 0..4 {
        assert_eq!(topo.spine_index_from_node(topo.get_spine(s)), s);
    }
}
