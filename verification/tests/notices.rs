//! What a system module is told while jobs run.

use network_sim::network::{EventKind, NetworkSimulator};
use network_sim::simulator::context::MLContext;
use network_sim::simulator::flow_scheduler::{FlowScheduler, ImmediateFlowScheduler};
use network_sim::simulator::flows::SimFault;
use network_sim::simulator::job_scheduler::{FifoScheduler, JobScheduler};
use network_sim::simulator::ml_job::{JobState, MLJob};
use network_sim::simulator::ml_simulator::MLSimulator;
use network_sim::simulator::ml_worker::JobId;
use network_sim::simulator::system::{JobMigration, MigrationPlan, SystemModule, TimerId, TimerRequest};
use network_sim::utils::data::DHashMap;
use network_sim::utils::job_gen::make_ring_job;

/// A network on which each flow takes a microsecond.
struct Wire {
    now: u64,
    running: Vec<(u64, usize)>,
    handed: Vec<(u64, usize, usize, u64)>,
}

impl NetworkSimulator for Wire {
    fn now_us(&self) -> u64 {
        self.now
    }

    fn peek_time(&self) -> u64 {
        self.running.first().map(|f| f.0).unwrap_or(u64::MAX)
    }

    fn add_flow_arrival(&mut self, now_us: u64, src: usize, dst: usize, size_bytes: u64, _idx: usize) -> usize {
        let id = self.handed.len();
        self.handed.push((now_us, src, dst, size_bytes));
        self.running.push((now_us + 1, id));
        id
    }

    fn advance_next_step(&mut self) -> Option<(EventKind, usize)> {
        if self.running.is_empty() {
            return None;
        }
        let (t, id) = self.running.remove(0);
        self.now = t;
        Some((EventKind::Completion, id))
    }
}

#[derive(Debug, Clone, PartialEq)]
enum Heard {
    Init,
    Scheduled(u64, JobId),
    Completed(u64, JobId),
    Reconfigure(u64),
    Migrated(u64, JobId),
    Timer(u64, u64),
}

/// Notes what it is told, asks for one timer and hands out the plans that it holds.
struct Listener {
    heard: Vec<Heard>,
    plans: Vec<MigrationPlan>,
}

impl<S: JobScheduler, FS: FlowScheduler> SystemModule<S, FS> for Listener {
    fn on_init(&mut self, _ctx: &MLContext, _s: &mut S, _fs: &mut FS, timers: &mut Vec<TimerRequest>) {
        self.heard.push(Heard::Init);
        timers.push(TimerRequest { fire_at_us: 7, timer_id: 42 });
    }

    fn on_job_scheduled(
        &mut self,
        now_us: u64,
        ctx: &MLContext,
        job_id: JobId,
        job: &MLJob,
        _s: &mut S,
        _fs: &mut FS,
        _timers: &mut Vec<TimerRequest>,
    ) {
        assert_eq!(ctx.time_us, now_us);
        assert_eq!(job.state, JobState::Running);
        self.heard.push(Heard::Scheduled(now_us, job_id));
    }

    fn on_job_completed(
        &mut self,
        now_us: u64,
        _ctx: &MLContext,
        job_id: JobId,
        job: &MLJob,
        _s: &mut S,
        _fs: &mut FS,
        _timers: &mut Vec<TimerRequest>,
    ) {
        assert_eq!(job.state, JobState::Completed);
        self.heard.push(Heard::Completed(now_us, job_id));
    }

    fn on_reconfigure(
        &mut self,
        now_us: u64,
        _ctx: &MLContext,
        _s: &mut S,
        _fs: &mut FS,
        _timers: &mut Vec<TimerRequest>,
    ) -> Option<MigrationPlan> {
        self.heard.push(Heard::Reconfigure(now_us));
        self.plans.pop()
    }

    fn on_migration_end(
        &mut self,
        now_us: u64,
        _ctx: &MLContext,
        job_id: JobId,
        _job: &MLJob,
        _s: &mut S,
        _fs: &mut FS,
        _timers: &mut Vec<TimerRequest>,
    ) {
        self.heard.push(Heard::Migrated(now_us, job_id));
    }

    fn on_timer(
        &mut self,
        now_us: u64,
        _ctx: &MLContext,
        timer_id: TimerId,
        _s: &mut S,
        _fs: &mut FS,
        timers: &mut Vec<TimerRequest>,
    ) {
        self.heard.push(Heard::Timer(now_us, timer_id));
        if timer_id == 42 {
            timers.push(TimerRequest { fire_at_us: now_us + 5, timer_id: 43 });
        }
    }
}

type Sim = MLSimulator<FifoScheduler, ImmediateFlowScheduler, Listener, Wire>;

fn make_sim(hosts: usize, plans: Vec<MigrationPlan>) -> Sim {
    let wire = Wire { now: 0, running: Vec::new(), handed: Vec::new() };
    let listener = Listener { heard: Vec::new(), plans };
    MLSimulator::new(hosts, wire, FifoScheduler::new(), ImmediateFlowScheduler::new(), listener)
}

fn run(sim: &mut Sim) {
    while sim.advance_next_step().unwrap().is_some() {}
}

fn plan(job_id: JobId, hosts: &[usize]) -> MigrationPlan {
    let mut worker_to_host = DHashMap::new();
    for (w, h) in hosts.iter().enumerate() {
        worker_to_host.insert(w, *h);
    }
    MigrationPlan { jobs: vec![JobMigration { job_id, worker_to_host }] }
}

#[test]
fn a_module_hears_of_jobs_and_timers() {
    let mut sim = make_sim(2, Vec::new());
    assert_eq!(sim.system_module.heard, vec![Heard::Init]);
    sim.add_job_arrival(3, make_ring_job(0, 2, 10, 10));
    run(&mut sim);
    // A hundred iterations of ten for the computation and one for the transfers.
    assert_eq!(
        sim.system_module.heard,
        vec![
            Heard::Init,
            Heard::Scheduled(3, 0),
            Heard::Reconfigure(3),
            Heard::Timer(7, 42),
            Heard::Timer(12, 43),
            Heard::Completed(1103, 0),
            Heard::Reconfigure(1103),
        ]
    );
}

#[test]
fn flows_enter_the_network_between_the_hosts_of_their_workers() {
    let mut sim = make_sim(4, Vec::new());
    sim.state.host_busy[0] = true;
    sim.state.host_assignment[0] = Some(9);
    sim.add_job_arrival(0, make_ring_job(0, 2, 10, 30));
    run(&mut sim);
    assert_eq!(sim.network_sim.handed.len(), 200);
    let mut first: Vec<_> = sim.network_sim.handed[..2].to_vec();
    first.sort();
    assert_eq!(first, vec![(10, 1, 2, 30), (10, 2, 1, 30)]);
}

#[test]
fn a_module_moves_a_job_with_its_plan() {
    let mut sim = make_sim(4, vec![plan(0, &[2, 3])]);
    sim.add_job_arrival(0, make_ring_job(0, 2, 10, 10));
    run(&mut sim);
    let moved = sim.system_module.heard.iter().filter(|h| matches!(h, Heard::Migrated(_, 0))).count();
    assert_eq!(moved, 1);
    assert!(sim.network_sim.handed.iter().any(|f| (f.1, f.2) == (2, 3)));
    assert!(sim.get_all_jobs().is_empty());
}

#[test]
fn two_entries_for_a_job_are_no_fault() {
    let mut twice = plan(0, &[2, 3]);
    twice.jobs.extend(plan(0, &[3, 2]).jobs);
    let mut sim = make_sim(4, vec![twice]);
    sim.add_job_arrival(0, make_ring_job(0, 2, 10, 10));
    run(&mut sim);
    let moved = sim.system_module.heard.iter().filter(|h| matches!(h, Heard::Migrated(_, 0))).count();
    assert_eq!(moved, 1);
    // The job moves to the hosts of its first entry.
    assert!(sim.network_sim.handed.iter().any(|f| (f.1, f.2) == (2, 3)));
    assert!(sim.get_all_jobs().is_empty());
}

#[test]
fn a_plan_that_cannot_be_followed_is_a_fault() {
    let mut sim = make_sim(2, vec![plan(0, &[0, 7])]);
    sim.add_job_arrival(0, make_ring_job(0, 2, 10, 10));
    sim.advance_next_step().unwrap();
    assert_eq!(sim.handle_reconfigure(), Err(SimFault::InvalidPlan));
    assert_eq!(sim.handle_reconfigure(), Ok(()));
}

#[test]
fn the_network_has_its_turn_when_nothing_is_due_before() {
    let mut sim = make_sim(2, Vec::new());
    // The timer at 7 is due first.
    assert!(!sim.state.is_due_before(7));
    assert!(sim.state.is_due_before(8));
    sim.state.note_network_step(EventKind::Arrival, 3, 4);
    assert_eq!(sim.current_time_us(), 4);
    assert!(!sim.state.is_due_before(7));
    sim.state.note_network_step(EventKind::Completion, 3, 5);
    assert_eq!((sim.current_time_us(), sim.state.context.time_us), (5, 5));
    assert!(sim.state.is_due_before(6));
}
