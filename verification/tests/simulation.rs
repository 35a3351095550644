//! Jobs run on a small network.

use network_sim::network::{EventKind, NetworkSimulator};
use network_sim::simulator::event_queue::{EventQueue, MLEvent, MLEventKind};
use network_sim::simulator::flow_scheduler::{FlowScheduler, ImmediateFlowScheduler, QueuedFlow};
use network_sim::simulator::flows::SimFault;
use network_sim::simulator::job_scheduler::FifoScheduler;
use network_sim::simulator::ml_job::{JobState, MLJob, MLJobBuilder, PipelineStageInfo};
use network_sim::simulator::ml_simulator::MLSimulator;
use network_sim::simulator::ml_worker::{
    FlowKind, MLWorker, WorkerEvent, WorkerEventKind, WorkerNotifyResult,
};
use network_sim::simulator::ranks::{compute_layout, reassign_job_ranks};
use network_sim::simulator::sim_state::SimState;
use network_sim::simulator::system::{
    migration_flow_idx, JobMigration, MigrationPlan, NoopSystemModule, MIGRATION_FLOW_IDX_BASE,
};
use network_sim::utils::data::DHashMap;
use network_sim::utils::job_gen::{
    draw_homogenous_shapes, draw_singlepeak_shapes, draw_typed_jobs, load_homogenous_jobs, make_ring_job,
};

/// A network on which each flow takes a microsecond for each byte.
struct Wire {
    now: u64,
    next: usize,
    running: Vec<(u64, usize)>,
}

impl Wire {
    fn new() -> Self {
        Wire { now: 0, next: 0, running: Vec::new() }
    }

    fn first(&self) -> Option<usize> {
        (0..self.running.len()).min_by_key(|i| self.running[*i])
    }
}

impl NetworkSimulator for Wire {
    fn now_us(&self) -> u64 {
        self.now
    }

    fn peek_time(&self) -> u64 {
        self.first().map(|i| self.running[i].0).unwrap_or(u64::MAX)
    }

    fn add_flow_arrival(&mut self, now_us: u64, _src: usize, _dst: usize, size_bytes: u64, _idx: usize) -> usize {
        self.next += 1;
        self.running.push((now_us + size_bytes, self.next));
        self.next
    }

    fn advance_next_step(&mut self) -> Option<(EventKind, usize)> {
        let i = self.first()?;
        let (t, id) = self.running.remove(i);
        self.now = t;
        Some((EventKind::Completion, id))
    }
}

type Sim = MLSimulator<FifoScheduler, ImmediateFlowScheduler, NoopSystemModule, Wire>;

fn make_sim(hosts: usize) -> Sim {
    MLSimulator::new(hosts, Wire::new(), FifoScheduler::new(), ImmediateFlowScheduler::new(), NoopSystemModule)
}

fn run(sim: &mut Sim) {
    let mut steps = 0;
    while sim.advance_next_step().unwrap().is_some() {
        steps += 1;
        assert!(steps < 1_000_000);
    }
}

#[test]
fn a_ring_job_runs_all_its_iterations() {
    let mut sim = make_sim(2);
    let id = sim.add_job_arrival(0, make_ring_job(0, 2, 800, 1000));
    assert_eq!(id, 0);
    sim.advance_next_step().unwrap();
    let job = sim.get_all_jobs().get(&0).unwrap();
    assert_eq!(job.state, JobState::Running);
    assert_eq!(job.start_time_us, Some(0));
    assert!(sim.get_job_statistics().is_empty());
    run(&mut sim);
    // A hundred iterations of 800 for the computation and 1000 for the transfers.
    assert_eq!(sim.current_time_us(), 180_000);
    assert!(sim.get_all_jobs().is_empty());
    assert!(sim.state.host_busy.iter().all(|b| !*b));
    assert!(sim.state.active_jobs.is_empty());
}

#[test]
fn a_job_waits_until_hosts_are_free() {
    let mut sim = make_sim(3);
    sim.add_job_arrival(0, make_ring_job(0, 2, 10, 10));
    sim.add_job_arrival(5, make_ring_job(1, 2, 10, 10));
    while sim.get_all_jobs().contains_key(&0) {
        assert!(sim.advance_next_step().unwrap().is_some());
    }
    assert_eq!(sim.current_time_us(), 2000);
    let second = sim.get_all_jobs().get(&1).unwrap();
    assert_eq!(second.start_time_us, Some(2000));
    run(&mut sim);
    assert_eq!(sim.current_time_us(), 4000);
}

#[test]
fn busy_hosts_belong_to_jobs_at_every_step() {
    let mut sim = make_sim(5);
    for i in 0..4usize {
        sim.add_job_arrival(i as u64, make_ring_job(i, 2 + i % 3, 10, 10));
    }
    let mut most = 0;
    while sim.advance_next_step().unwrap().is_some() {
        for (busy, job) in sim.state.host_busy.iter().zip(sim.state.host_assignment.iter()) {
            assert_eq!(*busy, job.is_some());
        }
        most = most.max(sim.state.host_busy.iter().filter(|b| **b).count());
    }
    assert_eq!(most, 5);
}

#[test]
fn jobs_run_in_the_order_of_their_arrival() {
    let mut sim = make_sim(5);
    sim.add_job_arrival(0, make_ring_job(0, 3, 10, 10));
    sim.add_job_arrival(1, make_ring_job(1, 4, 10, 10));
    sim.add_job_arrival(2, make_ring_job(2, 2, 10, 10));
    while sim.get_all_jobs().contains_key(&0) {
        // There is room for the third job, but the second comes first.
        assert_ne!(sim.get_all_jobs().get(&2).unwrap().state, JobState::Running);
        assert!(sim.advance_next_step().unwrap().is_some());
    }
    assert_eq!(sim.get_all_jobs().get(&1).unwrap().state, JobState::Running);
    assert_eq!(sim.get_all_jobs().get(&2).unwrap().state, JobState::Queued);
    run(&mut sim);
    assert!(sim.get_all_jobs().is_empty());
}

#[test]
fn a_placed_job_takes_free_hosts_only() {
    let mut sim = make_sim(4);
    sim.add_job_arrival(0, make_ring_job(0, 2, 10, 10));
    sim.add_job_arrival(0, make_ring_job(1, 2, 10, 10));
    sim.handle_job_arrival(0);
    assert_eq!(sim.state.host_assignment, vec![Some(0), Some(0), None, None]);
    sim.handle_job_arrival(1);
    assert_eq!(sim.state.host_assignment, vec![Some(0), Some(0), Some(1), Some(1)]);
}

#[test]
fn jobs_of_a_mix_all_complete() {
    let mut sim = make_sim(4);
    load_homogenous_jobs(&mut sim, 3);
    assert_eq!(sim.get_all_jobs().len(), 3);
    run(&mut sim);
    assert!(sim.get_all_jobs().is_empty());
}

#[test]
fn shapes_stay_within_their_bounds() {
    let shapes = draw_homogenous_shapes(50);
    assert_eq!(shapes.len(), 50);
    for s in &shapes {
        assert!(2 <= s.num_workers && s.num_workers <= 4);
        assert_eq!((s.compute_us, s.size_bytes), (800, 5_000_000_000));
    }
    assert!(shapes.iter().any(|s| s.num_workers != shapes[0].num_workers));

    let sizes: Vec<u64> = (50..=1550).map(|t| t * 1000).collect();
    let peaks = draw_singlepeak_shapes(7, 40, &sizes);
    for s in &peaks {
        assert_eq!(s.size_bytes, (1600 - s.compute_us) * 1000);
    }
    assert!(peaks.iter().any(|s| s.compute_us != peaks[0].compute_us));

    let typed = draw_typed_jobs(1, 60);
    assert!(typed.iter().all(|(n, k)| 2 <= *n && *n <= 4 && *k < 3));
    for kind in 0..3 {
        assert!(typed.iter().any(|(_, k)| *k == kind));
    }
}

#[test]
fn a_ring_job_has_three_events_for_each_worker() {
    let job = make_ring_job(4, 3, 800, 50);
    assert_eq!(job.name, Some("Job 4".to_string()));
    assert_eq!(job.total_iterations, 100);
    let w = job.get_worker(2).unwrap();
    assert_eq!(w.template_events.len(), 3);
    assert_eq!(w.template_events[1].flow_send.as_ref().unwrap().dst_worker, 0);
    assert_eq!(w.template_events[2].flow_receive.as_ref().unwrap().src_worker, 1);
    assert_eq!(job.send_template_to_flow_idx.get(&(0, 1)), Some(&0));
    assert_eq!(job.send_template_to_flow_idx.get(&(2, 1)), Some(&2));
    assert_eq!(job.next_flow_idx, 3);
}

#[test]
fn events_leave_the_queue_by_time_and_kind() {
    let mut q = EventQueue::new();
    assert_eq!(q.peek_time(), None);
    q.push(MLEvent::at(20, MLEventKind::Reconfigure));
    q.push(MLEvent::for_job(10, MLEventKind::JobArrival, 1));
    q.push(MLEvent::at(30, MLEventKind::Reconfigure));
    assert_eq!(q.peek_time(), Some(10));
    assert_eq!(q.pop().unwrap().time_us, 10);
    assert_eq!(q.pop().unwrap().time_us, 20);
    assert_eq!(q.pop().unwrap().time_us, 30);
    assert!(q.pop().is_none());
}

fn worker_with(events: Vec<WorkerEvent>, iterations: usize) -> MLWorker {
    let mut w = MLWorker::new(0, 0, 0, iterations);
    for e in events {
        w.add_event_template(e);
    }
    w
}

#[test]
fn events_run_after_their_dependencies() {
    let mut w = worker_with(
        vec![
            WorkerEvent::new_compute(0, 5, vec![]),
            WorkerEvent::new_compute(1, 7, vec![]),
            WorkerEvent::new_compute(2, 9, vec![0, 1]),
        ],
        2,
    );
    w.start(vec![10, 11, 12], 3);
    let ready = w.get_all_ready_events();
    let ids: Vec<usize> = ready.iter().map(|r| r.id).collect();
    assert_eq!(ids, vec![10, 11]);
    assert_eq!(ready[1].compute_duration_us, 7);
    assert_eq!(ready[0].kind, WorkerEventKind::Compute);
    assert_eq!(w.notify_event_completed_ex(10), WorkerNotifyResult::EventDone);
    assert!(w.get_all_ready_events().is_empty());
    assert_eq!(w.notify_event_completed_ex(11), WorkerNotifyResult::EventDone);
    let ready = w.get_all_ready_events();
    assert_eq!(ready.len(), 1);
    assert_eq!(ready[0].id, 12);
    assert!(matches!(w.notify_event_completed_ex(12), WorkerNotifyResult::IterationCompleted { .. }));
    assert!(w.is_current_iteration_complete());
}

#[test]
fn identifiers_of_events_are_new() {
    let mut s = SimState::new(2);
    let a = s.next_event_ids(3);
    let b = s.next_event_ids(2);
    assert_eq!(a, vec![0, 1, 2]);
    assert_eq!(b, vec![3, 4]);
    assert_eq!(s.take_event_id(), 5);
}

#[test]
fn ranks_follow_the_hosts() {
    let mut builder = MLJobBuilder::new(0, 0, 3, 1).with_name("x".to_string());
    for w in 0..3usize {
        builder = builder.add_worker_with_events(
            0,
            vec![
                WorkerEvent::new_flow_send_with_kind(0, (w + 1) % 3, 10, vec![], FlowKind::Ring),
                WorkerEvent::new_flow_receive_with_kind(1, (w + 2) % 3, 10, vec![], FlowKind::Ring),
            ],
        );
    }
    let mut job = builder.build();
    for (w, host) in [(0usize, 5usize), (1, 2), (2, 9)] {
        job.workers.get_mut(&w).unwrap().host_index = host;
        job.worker_to_host.insert(w, host);
    }
    assert!(reassign_job_ranks(&mut job));
    assert_eq!(job.get_worker_host(0), Some(2));
    assert_eq!(job.get_worker_host(1), Some(5));
    assert_eq!(job.get_worker_host(2), Some(9));
    for w in 0..3usize {
        let worker = job.get_worker(w).unwrap();
        assert_eq!(worker.template_events[0].flow_send.as_ref().unwrap().dst_worker, (w + 1) % 3);
        assert_eq!(worker.template_events[1].flow_receive.as_ref().unwrap().src_worker, (w + 2) % 3);
    }
    assert!(!reassign_job_ranks(&mut job));
}

#[test]
fn rings_can_be_gone_back() {
    let plain = compute_layout(8, 2, &None);
    for w in 0..8 {
        assert_eq!(plain.compute_ring_prev(plain.compute_ring_next(w)), w);
    }
    assert_eq!(plain.compute_ring_next(7), 1);
    let info = PipelineStageInfo { num_stages: 2, workers_per_stage: 4, rings_per_stage: 2 };
    let staged = compute_layout(8, 1, &Some(info));
    for w in 0..8 {
        let next = staged.compute_ring_next(w);
        assert_eq!(staged.compute_ring_prev(next), w);
        assert_eq!(info.worker_stage(next), info.worker_stage(w));
    }
    assert_eq!(staged.compute_pipeline_peer(1, 5), 5);
    assert_eq!(info.stage_workers(1), 4..8);
}

#[test]
fn a_plan_moves_a_job() {
    let mut sim = make_sim(4);
    sim.add_job_arrival(0, make_ring_job(0, 2, 10, 10));
    sim.advance_next_step().unwrap();
    let mut moves: DHashMap<usize, usize> = DHashMap::new();
    moves.insert(0, 2);
    moves.insert(1, 3);
    let plan = MigrationPlan { jobs: vec![JobMigration { job_id: 0, worker_to_host: moves }] };
    assert!(sim.state.check_plan(&plan));
    assert!(sim.state.check_plan_fits(&plan));
    sim.state.apply_migration_plan(&plan);
    assert_eq!(sim.state.host_busy, vec![false, false, true, true]);
    assert_eq!(sim.state.host_assignment, vec![None, None, Some(0), Some(0)]);
    assert_eq!(sim.get_all_jobs().get(&0).unwrap().get_worker_host(1), Some(3));
}

#[test]
fn a_plan_with_a_missing_host_is_refused() {
    let sim = make_sim(2);
    let mut moves: DHashMap<usize, usize> = DHashMap::new();
    moves.insert(0, 7);
    let plan = MigrationPlan { jobs: vec![JobMigration { job_id: 0, worker_to_host: moves }] };
    assert!(!sim.state.check_plan(&plan));
}

fn entry(job_id: usize, hosts: &[usize]) -> JobMigration {
    let mut worker_to_host: DHashMap<usize, usize> = DHashMap::new();
    for (w, h) in hosts.iter().enumerate() {
        worker_to_host.insert(w, *h);
    }
    JobMigration { job_id, worker_to_host }
}

/// Two jobs with two workers each, on the first four of six hosts.
fn two_jobs() -> Sim {
    let mut sim = make_sim(6);
    sim.add_job_arrival(0, make_ring_job(0, 2, 10, 10));
    sim.add_job_arrival(0, make_ring_job(1, 2, 10, 10));
    sim.advance_next_step().unwrap();
    sim.advance_next_step().unwrap();
    assert_eq!(sim.state.host_assignment, vec![Some(0), Some(0), Some(1), Some(1), None, None]);
    sim
}

#[test]
fn a_job_waits_for_the_hosts_of_its_last_entry() {
    let mut sim = two_jobs();
    let plan = MigrationPlan { jobs: vec![entry(0, &[2, 3]), entry(1, &[0, 1]), entry(0, &[4, 5])] };
    assert!(sim.state.check_plan(&plan));
    sim.state.prepare_migrations(plan);
    let first = sim.state.pending_job_migrations.get(&0).unwrap();
    assert_eq!(first.waiting_for.len(), 0);
    // The first entry has taken the moves, and the last one has taken its place.
    assert!(first.moves.is_empty());
    let second = sim.state.pending_job_migrations.get(&1).unwrap();
    assert_eq!(second.moves.len(), 2);
    assert!(second.waiting_for.contains(&0));
    assert!(sim.state.migration_dependents.get(&0).unwrap().contains(&1));

    let mut once = two_jobs();
    once.state.prepare_migrations(MigrationPlan { jobs: vec![entry(0, &[2, 3]), entry(1, &[0, 1])] });
    let first = once.state.pending_job_migrations.get(&0).unwrap();
    assert_eq!(first.moves.len(), 2);
    assert!(first.waiting_for.contains(&1));
}

#[test]
fn a_plan_is_checked_by_the_last_entries() {
    let sim = two_jobs();
    let check = |jobs: Vec<JobMigration>| sim.state.check_plan(&MigrationPlan { jobs });
    assert!(check(vec![entry(0, &[8, 9]), entry(0, &[4, 5])]));
    assert!(!check(vec![entry(0, &[4, 5]), entry(0, &[8, 9])]));
    assert!(check(vec![entry(0, &[2, 3]), entry(0, &[4, 5])]));
    assert!(!check(vec![entry(0, &[4, 5]), entry(0, &[2, 3])]));
}

#[test]
fn ranks_in_host_order_stay() {
    let mut sim = two_jobs();
    let before = sim.state.context.placements.get(&0).unwrap().get(&1).copied();
    assert!(!sim.state.reassign_ranks_after_migration(0));
    assert!(!sim.state.reassign_ranks_after_migration(7));
    assert_eq!(sim.state.context.placements.get(&0).unwrap().get(&1).copied(), before);
    let job = sim.get_all_jobs().get(&0).unwrap();
    assert_eq!((job.get_worker_host(0), job.get_worker_host(1)), (Some(0), Some(1)));
}

#[test]
fn a_job_without_rings_may_count_more_rings_than_workers() {
    let mut job = MLJob::new(0, 0, 2, 3).with_ring_count(5);
    for w in 0..2 {
        let mut worker = MLWorker::new(0, w, 1 - w, 3);
        worker.add_event_template(WorkerEvent::new_compute(0, 20, vec![]));
        job.workers.insert(w, worker);
        job.worker_to_host.insert(w, 1 - w);
    }
    assert!(reassign_job_ranks(&mut job));
    assert_eq!((job.get_worker_host(0), job.get_worker_host(1)), (Some(0), Some(1)));
    let mut sim = make_sim(2);
    sim.add_job_arrival(0, job);
    run(&mut sim);
    assert!(sim.get_all_jobs().is_empty());
    assert_eq!(sim.current_time_us(), 60);
}

#[test]
fn events_that_fit_nothing_are_faults() {
    let mut sim = make_sim(2);
    assert_eq!(sim.handle_flow_send_complete(9), Err(SimFault::UnknownFlow(9)));
    assert_eq!(sim.handle_compute_completion(3, 0, 0), Err(SimFault::UnknownJob(3)));
    sim.add_job_arrival(0, make_ring_job(0, 2, 10, 10));
    assert_eq!(sim.handle_compute_completion(0, 5, 0), Err(SimFault::UnknownWorker(0, 5)));
    assert_eq!(sim.handle_compute_completion(0, 1, 77), Err(SimFault::EventNotRunning(1, 77)));
}

#[test]
fn migration_flows_have_indices_of_their_own() {
    assert_eq!(migration_flow_idx(0), MIGRATION_FLOW_IDX_BASE);
    assert_eq!(migration_flow_idx(3), 1_000_003);
}

#[test]
fn flows_are_released_at_once_in_order() {
    let mut fs = ImmediateFlowScheduler::new();
    assert!(fs.is_idle());
    let flow = |i: usize| QueuedFlow {
        job_id: 0,
        job_flow_idx: i,
        iter_idx: 0,
        src_worker: 0,
        dst_worker: 1,
        send_event_id: 0,
        receive_event_id: 0,
        src_host: 0,
        dst_host: 1,
        size_bytes: 1,
    };
    fs.enqueue_flow(5, flow(0));
    fs.enqueue_flow(5, flow(1));
    assert!(!fs.is_idle());
    let (ready, _) = fs.poll_ready(5);
    let idx: Vec<usize> = ready.iter().map(|f| f.job_flow_idx).collect();
    assert_eq!(idx, vec![0, 1]);
    assert!(fs.is_idle());
}

#[test]
fn a_job_goes_through_its_states() {
    let mut job = MLJob::new(3, 10, 1, 2).with_name("three".to_string()).with_ring_count(1);
    assert_eq!(job.state, JobState::Queued);
    assert!(!job.is_ready_to_start());
    job.assign_worker(0, 4);
    assert_eq!(job.get_assigned_hosts(), vec![4]);
    job.mark_scheduled(12);
    job.mark_running(13);
    assert_eq!(job.state, JobState::Running);
    job.mark_completed(20);
    assert_eq!(job.state, JobState::Completed);
    assert_eq!(job.completion_time_us, Some(20));
    assert!(!job.is_completed());
    let message = job.add_worker_event_template(9, WorkerEvent::new_compute(0, 1, vec![])).unwrap_err();
    assert_eq!(message, "Worker 9 not found in job 3");
}
