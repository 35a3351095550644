//! Random mixes of jobs.

use rand::rngs::StdRng;
use rand::{Rng, SeedableRng};
use vstd::multiset::Multiset;
use vstd::prelude::*;
use vstd::string::*;

use crate::network::NetworkSimulator;
use crate::simulator::event_queue::{MLEvent, MLEventKind};
use crate::simulator::flow_scheduler::FlowScheduler;
use crate::simulator::job_scheduler::JobScheduler;
use crate::simulator::ml_job::{MLJob, MLJobBuilder};
use crate::simulator::ml_simulator::MLSimulator;
use crate::simulator::ml_worker::{
    event_views, ComputeEvent, EventState, EventView, FlowKind, FlowReceiveEvent, FlowSendEvent, JobId, WorkerEvent,
    WorkerEventKind, WorkerId,
};
use crate::simulator::sim_state::job_ok;
use crate::simulator::system::SystemModule;
use crate::utils::text::{decimal, push_index};

verus! {

/// The random number generator of `rand`, carried as an opaque value.
#[verifier::external_type_specification]
#[verifier::external_body]
pub struct ExStdRng(rand::rngs::StdRng);

/// A generator for a seed. Wraps `SeedableRng::seed_from_u64`. Nothing is claimed of the numbers that follow from
/// the seed: `rand` documents that they depend on the configuration and may change between versions.
#[verifier::external_body]
fn seeded(seed: u64) -> (r: StdRng)
{
    StdRng::seed_from_u64(seed)
}

/// A random number between two bounds. Wraps `Rng::gen_range` for an inclusive range of `i32`: the
/// result is in the range.
#[verifier::external_body]
fn draw_i32(rng: &mut StdRng, low: i32, high: i32) -> (r: i32)
    requires
        low <= high,
    ensures
        low <= r <= high,
{
    rng.gen_range(low..=high)
}

/// A random number between two bounds. Wraps `Rng::gen_range` for an inclusive range of `u64`: the
/// result is in the range.
#[verifier::external_body]
fn draw_u64(rng: &mut StdRng, low: u64, high: u64) -> (r: u64)
    requires
        low <= high,
    ensures
        low <= r <= high,
{
    rng.gen_range(low..=high)
}

/// A random number between two bounds. Wraps `Rng::gen_range` for an inclusive range of `usize`: the
/// result is in the range.
#[verifier::external_body]
fn draw_usize(rng: &mut StdRng, low: usize, high: usize) -> (r: usize)
    requires
        low <= high,
    ensures
        low <= r <= high,
{
    rng.gen_range(low..=high)
}

/// A worker of a ring: it computes, then sends to the next worker and receives from the one before.
pub open spec fn ring_events(w: int, n: int, compute_us: u64, size_bytes: u64) -> Seq<EventView> {
    let event = EventView {
        id: 0,
        template_id: 0,
        kind: WorkerEventKind::Compute,
        compute: None,
        flow_send: None,
        flow_receive: None,
        dependencies: Seq::empty(),
        state: EventState::Waiting,
    };
    seq![
        EventView { compute: Some(ComputeEvent { duration_us: compute_us, name: None }), ..event },
        EventView {
            id: 1,
            template_id: 1,
            kind: WorkerEventKind::FlowSend,
            flow_send: Some(
                FlowSendEvent {
                    dst_worker: ((w + 1) % n) as usize,
                    size_bytes,
                    name: None,
                    flow_kind: FlowKind::Other,
                },
            ),
            dependencies: seq![0usize],
            ..event
        },
        EventView {
            id: 2,
            template_id: 2,
            kind: WorkerEventKind::FlowReceive,
            flow_receive: Some(
                FlowReceiveEvent {
                    src_worker: ((w + n - 1) % n) as usize,
                    size_bytes,
                    name: None,
                    flow_kind: FlowKind::Other,
                },
            ),
            dependencies: seq![0usize],
            ..event
        },
    ]
}

/// A job whose workers form a ring.
pub open spec fn is_ring_job(job: MLJob, id: JobId, n: nat, compute_us: u64, size_bytes: u64) -> bool {
    &&& job.id == id
    &&& job.num_workers == n
    &&& job.total_iterations == 100
    &&& job.name is Some
    &&& job.name->0@ == "Job "@ + decimal(id as nat)
    &&& job.pipeline_stages is None
    &&& job.ring_count == 1
    &&& forall|w: WorkerId| #[trigger] job.workers@.contains_key(w) == (w < n)
    &&& forall|w: WorkerId| #[trigger]
        job.workers@.contains_key(w) ==> job.workers@[w].templates() == ring_events(
            w as int,
            n as int,
            compute_us,
            size_bytes,
        )
}

/// The events of a worker of a ring.
fn make_ring_events(w: usize, n: usize, compute_us: u64, size_bytes: u64) -> (r: Vec<WorkerEvent>)
    requires
        w < n,
        n <= 4,
    ensures
        event_views(r@) == ring_events(w as int, n as int, compute_us, size_bytes),
{
    let none: Vec<usize> = Vec::new();
    let mut first: Vec<usize> = Vec::new();
    first.push(0);
    let mut second: Vec<usize> = Vec::new();
    second.push(0);
    let next: usize = if w + 1 == n {
        0
    } else {
        w + 1
    };
    let prev: usize = if w == 0 {
        n - 1
    } else {
        w - 1
    };
    assert(next == (w + 1) % n as int && prev == (w + n - 1) % n as int) by (nonlinear_arith)
        requires
            w < n,
            n <= 4,
            next == if w + 1 == n {
                0int
            } else {
                w + 1
            },
            prev == if w == 0 {
                n - 1
            } else {
                w - 1
            },
    ;
    let mut r: Vec<WorkerEvent> = Vec::new();
    r.push(WorkerEvent::new_compute(0, compute_us, none));
    r.push(WorkerEvent::new_flow_send(1, next, size_bytes, first));
    r.push(WorkerEvent::new_flow_receive(2, prev, size_bytes, second));
    proof {
        let want = ring_events(w as int, n as int, compute_us, size_bytes);
        assert(none@ =~= Seq::<usize>::empty());
        assert(first@ =~= seq![0usize]);
        assert(second@ =~= seq![0usize]);
        assert(event_views(r@)[0] == want[0]);
        assert(event_views(r@)[1] == want[1]);
        assert(event_views(r@)[2] == want[2]);
        assert(event_views(r@) =~= want);
    }
    r
}

/// A job whose workers form a ring.
pub fn make_ring_job(id: JobId, n: usize, compute_us: u64, size_bytes: u64) -> (r: MLJob)
    requires
        2 <= n <= 4,
    ensures
        is_ring_job(r, id, n as nat, compute_us, size_bytes),
        job_ok(&r),
{
    let mut name = String::new();
    name.append("Job ");
    push_index(&mut name, id);
    proof {
        assert(name@ =~= "Job "@ + decimal(id as nat));
    }
    let mut b = MLJobBuilder::new(id, 0, n, 100).with_name(name);
    let mut w: usize = 0;
    while w < n
        invariant
            w <= n,
            2 <= n <= 4,
            b.next_worker_id == w,
            b.job.id == id,
            b.job.num_workers == n,
            b.job.total_iterations == 100,
            b.job.name == Some(name),
            b.job.pipeline_stages is None,
            b.job.ring_count == 1,
            forall|k: WorkerId| #[trigger] b.job.workers@.contains_key(k) == (k < w),
            forall|k: WorkerId| #[trigger]
                b.job.workers@.contains_key(k) ==> b.job.workers@[k].templates() == ring_events(
                    k as int,
                    n as int,
                    compute_us,
                    size_bytes,
                ),
        decreases n - w,
    {
        let events = make_ring_events(w, n, compute_us, size_bytes);
        b = b.add_worker_with_events(w, events);
        w += 1;
    }
    let r = b.build();
    proof {
        assert forall|k: WorkerId| #[trigger] r.workers@.contains_key(k) implies r.workers@[k].templates_closed() by {
            let t = r.workers@[k].templates();
            assert(t == ring_events(k as int, n as int, compute_us, size_bytes));
            assert forall|i: int, x: int| 0 <= i < t.len() && 0 <= x < t[i].dependencies.len() implies exists|j: int|
                0 <= j < t.len() && t[j].id == #[trigger] t[i].dependencies[x] by {
                assert(t[i].dependencies[x] == 0);
                assert(t[0].id == 0);
            }
        }
    }
    r
}

/// The shape of a ring job: workers, computation time, bytes of each flow.
#[derive(Debug, Clone, Copy, PartialEq, Eq, Structural)]
pub struct RingShape {
    pub num_workers: usize,
    pub compute_us: u64,
    pub size_bytes: u64,
}

/// The events with the arrivals of the first `n` jobs, one in each microsecond.
pub open spec fn with_arrivals(q: Multiset<MLEvent>, n: nat) -> Multiset<MLEvent>
    decreases n,
{
    if n == 0 {
        q
    } else {
        with_arrivals(q, (n - 1) as nat).insert(
            MLEvent::of_job((n - 1) as u64, MLEventKind::JobArrival, (n - 1) as usize),
        )
    }
}

/// The first `n` jobs are ring jobs of the given shapes that arrive one after the other; other jobs are
/// as before.
pub open spec fn ring_jobs_added(
    before: Map<JobId, MLJob>,
    after: Map<JobId, MLJob>,
    shapes: Seq<RingShape>,
    n: nat,
) -> bool {
    &&& forall|i: int|
        0 <= i < n ==> {
            &&& #[trigger] after.contains_key(i as usize)
            &&& after[i as usize].submit_time_us == i
            &&& is_ring_job(
                after[i as usize],
                i as usize,
                shapes[i].num_workers as nat,
                shapes[i].compute_us,
                shapes[i].size_bytes,
            )
        }
    &&& forall|j: JobId| n <= j ==> #[trigger] after.contains_key(j) == before.contains_key(j)
    &&& forall|j: JobId| n <= j && #[trigger] after.contains_key(j) ==> after[j] == before[j]
}

/// Adds ring jobs of the given shapes, numbered from zero, one arriving in each microsecond.
pub fn add_ring_jobs<S: JobScheduler, FS: FlowScheduler, M: SystemModule<S, FS>, N: NetworkSimulator>(
    ml_sim: &mut MLSimulator<S, FS, M, N>,
    shapes: &Vec<RingShape>,
)
    requires
        old(ml_sim).ok(),
        forall|i: int| 0 <= i < shapes@.len() ==> 2 <= (#[trigger] shapes@[i]).num_workers <= 4,
        forall|i: int|
            0 <= i < shapes@.len() ==> old(ml_sim).scheduler.accepts(
                i as usize,
                (#[trigger] shapes@[i]).num_workers,
                old(ml_sim).state.host_busy@.len(),
            ),
    ensures
        final(ml_sim).ok(),
        ring_jobs_added(old(ml_sim).state.jobs@, final(ml_sim).state.jobs@, shapes@, shapes@.len()),
        final(ml_sim).state.event_queue@ == with_arrivals(old(ml_sim).state.event_queue@, shapes@.len()),
        final(ml_sim).scheduler == old(ml_sim).scheduler,
        final(ml_sim).flow_scheduler == old(ml_sim).flow_scheduler,
        final(ml_sim).network_sim == old(ml_sim).network_sim,
        final(ml_sim).system_module == old(ml_sim).system_module,
        final(ml_sim).state.now_us == old(ml_sim).state.now_us,
        final(ml_sim).state.host_busy == old(ml_sim).state.host_busy,
{
    let ghost before = ml_sim.state;
    let ghost sched = ml_sim.scheduler;
    let n: usize = shapes.len();
    let mut i: usize = 0;
    while i < n
        invariant
            i <= n,
            n == shapes@.len(),
            before == old(ml_sim).state,
            sched == old(ml_sim).scheduler,
            ml_sim.ok(),
            ml_sim.scheduler == sched,
            ml_sim.flow_scheduler == old(ml_sim).flow_scheduler,
            ml_sim.network_sim == old(ml_sim).network_sim,
            ml_sim.system_module == old(ml_sim).system_module,
            ml_sim.state.now_us == before.now_us,
            ml_sim.state.host_busy == before.host_busy,
            forall|i: int| 0 <= i < shapes@.len() ==> 2 <= (#[trigger] shapes@[i]).num_workers <= 4,
            forall|i: int|
                0 <= i < shapes@.len() ==> sched.accepts(
                    i as usize,
                    (#[trigger] shapes@[i]).num_workers,
                    before.host_busy@.len(),
                ),
            ring_jobs_added(before.jobs@, ml_sim.state.jobs@, shapes@, i as nat),
            ml_sim.state.event_queue@ == with_arrivals(before.event_queue@, i as nat),
        decreases n - i,
    {
        let s = shapes[i];
        assert(shapes@[i as int] == s);
        let job = make_ring_job(i, s.num_workers, s.compute_us, s.size_bytes);
        let ghost was = ml_sim.state.jobs@;
        ml_sim.add_job_arrival(i as u64, job);
        proof {
            let now = ml_sim.state.jobs@;
            assert forall|k: int| 0 <= k < i + 1 implies {
                &&& #[trigger] now.contains_key(k as usize)
                &&& now[k as usize].submit_time_us == k
                &&& is_ring_job(
                    now[k as usize],
                    k as usize,
                    shapes@[k].num_workers as nat,
                    shapes@[k].compute_us,
                    shapes@[k].size_bytes,
                )
            } by {
                if k < i {
                    assert(was.contains_key(k as usize));
                }
            }
            assert forall|j: JobId| i + 1 <= j implies #[trigger] now.contains_key(j) == before.jobs@.contains_key(j) by {
                assert(was.contains_key(j) == before.jobs@.contains_key(j));
            }
            assert forall|j: JobId| i + 1 <= j && #[trigger] now.contains_key(j) implies now[j] == before.jobs@[j] by {
                assert(was.contains_key(j));
            }
        }
        i += 1;
    }
}

/// Shapes of jobs with two to four workers that all compute and send the same.
pub fn draw_homogenous_shapes(num_jobs: usize) -> (r: Vec<RingShape>)
    ensures
        r@.len() == num_jobs,
        forall|i: int|
            0 <= i < r@.len() ==> 2 <= (#[trigger] r@[i]).num_workers <= 4 && r@[i].compute_us == 800 && r@[i].size_bytes
                == 5_000_000_000,
{
    let mut rng = seeded(42);
    let mut r: Vec<RingShape> = Vec::new();
    let mut i: usize = 0;
    while i < num_jobs
        invariant
            i <= num_jobs,
            r@.len() == i,
            forall|i: int|
                0 <= i < r@.len() ==> 2 <= (#[trigger] r@[i]).num_workers <= 4 && r@[i].compute_us == 800
                    && r@[i].size_bytes == 5_000_000_000,
        decreases num_jobs - i,
    {
        let n: i32 = draw_i32(&mut rng, 2, 4);
        r.push(RingShape { num_workers: n as usize, compute_us: 800, size_bytes: 5_000_000_000 });
        i += 1;
    }
    r
}

/// The shortest time that a job sends.
pub const MIN_PEAK_US: u64 = 50;

/// The longest time that a job sends.
pub const MAX_PEAK_US: u64 = 1550;

/// How long an iteration takes.
pub const PERIOD_US: u64 = 1600;

/// Shapes of jobs with two to four workers that compute and then send for a random time.
/// `flow_sizes` has the bytes that go over a link in each time from the shortest to the longest.
pub fn draw_singlepeak_shapes(seed: u64, num_jobs: usize, flow_sizes: &Vec<u64>) -> (r: Vec<RingShape>)
    requires
        flow_sizes@.len() == MAX_PEAK_US - MIN_PEAK_US + 1,
    ensures
        r@.len() == num_jobs,
        forall|i: int|
            0 <= i < r@.len() ==> 2 <= (#[trigger] r@[i]).num_workers <= 4 && PERIOD_US - MAX_PEAK_US <= r@[i].compute_us
                <= PERIOD_US - MIN_PEAK_US && r@[i].size_bytes == flow_sizes@[PERIOD_US - r@[i].compute_us - MIN_PEAK_US],
{
    let mut rng = seeded(seed);
    let mut r: Vec<RingShape> = Vec::new();
    let mut i: usize = 0;
    while i < num_jobs
        invariant
            i <= num_jobs,
            flow_sizes@.len() == MAX_PEAK_US - MIN_PEAK_US + 1,
            r@.len() == i,
            forall|i: int|
                0 <= i < r@.len() ==> 2 <= (#[trigger] r@[i]).num_workers <= 4 && PERIOD_US - MAX_PEAK_US
                    <= r@[i].compute_us <= PERIOD_US - MIN_PEAK_US && r@[i].size_bytes == flow_sizes@[PERIOD_US
                    - r@[i].compute_us - MIN_PEAK_US],
        decreases num_jobs - i,
    {
        let n: i32 = draw_i32(&mut rng, 2, 4);
        let peak: u64 = draw_u64(&mut rng, MIN_PEAK_US, MAX_PEAK_US);
        r.push(
            RingShape {
                num_workers: n as usize,
                compute_us: PERIOD_US - peak,
                size_bytes: flow_sizes[(peak - MIN_PEAK_US) as usize],
            },
        );
        i += 1;
    }
    r
}

/// Adds jobs with two to four workers that all compute and send the same.
pub fn load_homogenous_jobs<S: JobScheduler, FS: FlowScheduler, M: SystemModule<S, FS>, N: NetworkSimulator>(
    ml_sim: &mut MLSimulator<S, FS, M, N>,
    num_jobs: usize,
)
    requires
        old(ml_sim).ok(),
        forall|i: usize, n: usize|
            i < num_jobs && 2 <= n <= 4 ==> #[trigger] old(ml_sim).scheduler.accepts(
                i,
                n,
                old(ml_sim).state.host_busy@.len(),
            ),
    ensures
        final(ml_sim).ok(),
        exists|shapes: Seq<RingShape>|
            {
                &&& shapes.len() == num_jobs
                &&& forall|i: int|
                    0 <= i < shapes.len() ==> 2 <= (#[trigger] shapes[i]).num_workers <= 4 && shapes[i].compute_us == 800
                        && shapes[i].size_bytes == 5_000_000_000
                &&& #[trigger] ring_jobs_added(
                    old(ml_sim).state.jobs@,
                    final(ml_sim).state.jobs@,
                    shapes,
                    shapes.len(),
                )
            },
        final(ml_sim).state.event_queue@ == with_arrivals(old(ml_sim).state.event_queue@, num_jobs as nat),
        final(ml_sim).scheduler == old(ml_sim).scheduler,
{
    let shapes = draw_homogenous_shapes(num_jobs);
    add_ring_jobs(ml_sim, &shapes);
}

/// Adds jobs with two to four workers that compute and then send for a random time.
pub fn load_variable_singlepeak_jobs<S: JobScheduler, FS: FlowScheduler, M: SystemModule<S, FS>, N: NetworkSimulator>(
    ml_sim: &mut MLSimulator<S, FS, M, N>,
    seed: u64,
    num_jobs: usize,
    flow_sizes: &Vec<u64>,
)
    requires
        old(ml_sim).ok(),
        flow_sizes@.len() == MAX_PEAK_US - MIN_PEAK_US + 1,
        forall|i: usize, n: usize|
            i < num_jobs && 2 <= n <= 4 ==> #[trigger] old(ml_sim).scheduler.accepts(
                i,
                n,
                old(ml_sim).state.host_busy@.len(),
            ),
    ensures
        final(ml_sim).ok(),
        exists|shapes: Seq<RingShape>|
            {
                &&& shapes.len() == num_jobs
                &&& forall|i: int|
                    0 <= i < shapes.len() ==> 2 <= (#[trigger] shapes[i]).num_workers <= 4 && PERIOD_US - MAX_PEAK_US
                        <= shapes[i].compute_us <= PERIOD_US - MIN_PEAK_US && shapes[i].size_bytes == flow_sizes@[PERIOD_US
                        - shapes[i].compute_us - MIN_PEAK_US]
                &&& #[trigger] ring_jobs_added(
                    old(ml_sim).state.jobs@,
                    final(ml_sim).state.jobs@,
                    shapes,
                    shapes.len(),
                )
            },
        final(ml_sim).state.event_queue@ == with_arrivals(old(ml_sim).state.event_queue@, num_jobs as nat),
        final(ml_sim).scheduler == old(ml_sim).scheduler,
{
    let shapes = draw_singlepeak_shapes(seed, num_jobs, flow_sizes);
    add_ring_jobs(ml_sim, &shapes);
}

/// Draws the number of workers, two to four, and one of three job types for each job.
pub fn draw_typed_jobs(seed: u64, num_jobs: usize) -> (r: Vec<(usize, usize)>)
    ensures
        r@.len() == num_jobs,
        forall|i: int| 0 <= i < r@.len() ==> 2 <= (#[trigger] r@[i]).0 <= 4 && r@[i].1 < 3,
{
    let mut rng = seeded(seed);
    let mut r: Vec<(usize, usize)> = Vec::new();
    let mut i: usize = 0;
    while i < num_jobs
        invariant
            i <= num_jobs,
            r@.len() == i,
            forall|i: int| 0 <= i < r@.len() ==> 2 <= (#[trigger] r@[i]).0 <= 4 && r@[i].1 < 3,
        decreases num_jobs - i,
    {
        let n: usize = draw_usize(&mut rng, 2, 4);
        let k: usize = draw_usize(&mut rng, 0, 2);
        r.push((n, k));
        i += 1;
    }
    r
}

} // verus!
