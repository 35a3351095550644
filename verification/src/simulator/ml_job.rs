//! A training job: its workers, their placement and its flow indices.

use vstd::prelude::*;
use vstd::string::*;

use crate::simulator::ml_worker::{
    event_views, EventView, JobId, MLWorker, WorkerEvent, WorkerEventKind, WorkerId,
};
use crate::utils::data::{lemma_ascending_unique, strictly_ascending, DHashMap};
use crate::utils::text::{decimal, push_index};

verus! {

/// How a pipeline-parallel job is cut into stages.
#[derive(Debug, Clone, Copy, PartialEq, Eq, Structural)]
pub struct PipelineStageInfo {
    pub num_stages: usize,
    pub workers_per_stage: usize,
    /// Independent rings in each stage.
    pub rings_per_stage: usize,
}

impl PipelineStageInfo {
    /// The stage of a worker: workers are numbered stage by stage.
    pub fn worker_stage(&self, worker_id: WorkerId) -> (r: usize)
        requires
            self.workers_per_stage > 0,
        ensures
            r == worker_id / self.workers_per_stage,
    {
        worker_id / self.workers_per_stage
    }

    /// The workers of a stage.
    pub fn stage_workers(&self, stage: usize) -> (r: std::ops::Range<WorkerId>)
        requires
            stage * self.workers_per_stage + self.workers_per_stage <= usize::MAX,
        ensures
            r.start == stage * self.workers_per_stage,
            r.end == stage * self.workers_per_stage + self.workers_per_stage,
    {
        let start: usize = stage * self.workers_per_stage;
        let end: usize = start + self.workers_per_stage;
        start..end
    }
}

/// A worker belongs to the stage that lists it, and to no other.
pub proof fn lemma_stage_workers_partition(info: PipelineStageInfo, worker_id: int, stage: int)
    requires
        info.workers_per_stage > 0,
        worker_id >= 0,
        stage >= 0,
    ensures
        worker_id / (info.workers_per_stage as int) == stage <==> stage * info.workers_per_stage <= worker_id < stage
            * info.workers_per_stage + info.workers_per_stage,
{
    let w = info.workers_per_stage as int;
    vstd::arithmetic::div_mod::lemma_fundamental_div_mod(worker_id, w);
    let q = worker_id / w;
    assert(worker_id == w * q + worker_id % w);
    if q == stage {
        assert(w * q == stage * w) by (nonlinear_arith)
            requires
                q == stage,
        ;
    } else if q < stage {
        assert(w * q + w <= stage * w) by (nonlinear_arith)
            requires
                q + 1 <= stage,
                w > 0,
        ;
    } else {
        assert(w * q >= stage * w + w) by (nonlinear_arith)
            requires
                q >= stage + 1,
                w > 0,
        ;
    }
}

/// Where a job stands.
#[derive(Debug, Clone, Copy, PartialEq, Eq, Structural)]
pub enum JobState {
    Queued,
    Scheduled,
    Running,
    Completed,
    Failed,
}

/// A training job.
pub struct MLJob {
    pub id: JobId,
    pub state: JobState,
    pub submit_time_us: u64,
    pub schedule_time_us: Option<u64>,
    pub start_time_us: Option<u64>,
    pub completion_time_us: Option<u64>,
    /// Workers that the job needs.
    pub num_workers: usize,
    pub total_iterations: usize,
    pub workers: DHashMap<WorkerId, MLWorker>,
    /// Host of each placed worker.
    pub worker_to_host: DHashMap<WorkerId, usize>,
    pub name: Option<String>,
    /// Flow index of each (sender, send template).
    pub send_template_to_flow_idx: DHashMap<(WorkerId, usize), usize>,
    /// The first flow index that is not in use.
    pub next_flow_idx: usize,
    /// Independent rings of the job.
    pub ring_count: usize,
    pub pipeline_stages: Option<PipelineStageInfo>,
}

/// The members of a finite set of identifiers in ascending order.
pub open spec fn ascending(ids: Set<usize>) -> Seq<usize> {
    choose|s: Seq<usize>| strictly_ascending(s) && s.to_set() == ids
}

/// A strictly ascending listing of `ids` is the ascending listing.
pub proof fn lemma_ascending(s: Seq<usize>, ids: Set<usize>)
    requires
        strictly_ascending(s),
        s.to_set() == ids,
    ensures
        s == ascending(ids),
{
    lemma_ascending_unique(s, ascending(ids));
}

/// The machine integer that counting up to `n` gives.
pub open spec fn wrapped(n: nat) -> usize {
    (n % (usize::MAX as nat + 1)) as usize
}

/// One more than a machine integer is the machine integer that follows.
pub proof fn lemma_wrapped_next(n: nat)
    ensures
        wrapped(n + 1) == if wrapped(n) == usize::MAX {
            0usize
        } else {
            (wrapped(n) + 1) as usize
        },
{
    let m = usize::MAX as int + 1;
    vstd::arithmetic::div_mod::lemma_add_mod_noop(n as int, 1, m);
    vstd::arithmetic::div_mod::lemma_mod_bound(n as int, m);
    if wrapped(n) == usize::MAX {
        vstd::arithmetic::div_mod::lemma_mod_self_0(m);
        assert((n as int % m) + 1 == m);
        assert(1int % m == 1) by {
            vstd::arithmetic::div_mod::lemma_small_mod(1nat, m as nat);
        }
    } else {
        vstd::arithmetic::div_mod::lemma_small_mod((wrapped(n) + 1) as nat, m as nat);
        assert(1int % m == 1) by {
            vstd::arithmetic::div_mod::lemma_small_mod(1nat, m as nat);
        }
    }
}

/// Sends among the first `k` templates.
pub open spec fn send_count(t: Seq<EventView>, k: nat) -> nat
    decreases k,
{
    if k == 0 {
        0
    } else {
        send_count(t, (k - 1) as nat) + if t[k - 1].kind == WorkerEventKind::FlowSend {
            1nat
        } else {
            0nat
        }
    }
}

/// Sends of the first `n` workers.
pub open spec fn sends_before(workers: Map<WorkerId, MLWorker>, ids: Seq<WorkerId>, n: nat) -> nat
    decreases n,
{
    if n == 0 {
        0
    } else {
        let t = workers[ids[n - 1]].templates();
        sends_before(workers, ids, (n - 1) as nat) + send_count(t, t.len())
    }
}

/// `m` with the sends among the first `k` templates of worker `wid` numbered from `base`.
pub open spec fn number_sends(
    m: Map<(WorkerId, usize), usize>,
    wid: WorkerId,
    t: Seq<EventView>,
    base: nat,
    k: nat,
) -> Map<(WorkerId, usize), usize>
    decreases k,
{
    if k == 0 {
        m
    } else {
        let before = number_sends(m, wid, t, base, (k - 1) as nat);
        if t[k - 1].kind == WorkerEventKind::FlowSend {
            before.insert((wid, t[k - 1].template_id), wrapped(base + send_count(t, (k - 1) as nat)))
        } else {
            before
        }
    }
}

/// The sends of the first `n` workers numbered worker by worker, in template order.
pub open spec fn flow_indices(workers: Map<WorkerId, MLWorker>, ids: Seq<WorkerId>, n: nat) -> Map<
    (WorkerId, usize),
    usize,
>
    decreases n,
{
    if n == 0 {
        Map::empty()
    } else {
        let t = workers[ids[n - 1]].templates();
        number_sends(
            flow_indices(workers, ids, (n - 1) as nat),
            ids[n - 1],
            t,
            sends_before(workers, ids, (n - 1) as nat),
            t.len(),
        )
    }
}

/// All sends of a job.
pub open spec fn total_sends(workers: Map<WorkerId, MLWorker>) -> nat {
    let ids = ascending(workers.dom());
    sends_before(workers, ids, ids.len())
}

/// The flow index of every send of a job: ascending worker, then template order.
pub open spec fn job_flow_indices(workers: Map<WorkerId, MLWorker>) -> Map<(WorkerId, usize), usize> {
    let ids = ascending(workers.dom());
    flow_indices(workers, ids, ids.len())
}

/// The numbers are different, and below a bound.
spec fn are_distinct(m: Map<(WorkerId, usize), usize>, bound: nat) -> bool {
    &&& forall|k: (WorkerId, usize)| #[trigger] m.contains_key(k) ==> m[k] < bound
    &&& forall|a: (WorkerId, usize), b: (WorkerId, usize)| #[trigger]
        m.contains_key(a) && #[trigger] m.contains_key(b) && a != b ==> m[a] != m[b]
}

proof fn lemma_number_sends(m: Map<(WorkerId, usize), usize>, wid: WorkerId, t: Seq<EventView>, base: nat, k: nat)
    requires
        k <= t.len(),
        are_distinct(m, base),
        base + send_count(t, k) <= usize::MAX,
    ensures
        are_distinct(number_sends(m, wid, t, base, k), base + send_count(t, k)),
    decreases k,
{
    if k > 0 {
        lemma_number_sends(m, wid, t, base, (k - 1) as nat);
        let n = base + send_count(t, (k - 1) as nat);
        vstd::arithmetic::div_mod::lemma_small_mod(n, usize::MAX as nat + 1);
    }
}

proof fn lemma_flow_indices_to(workers: Map<WorkerId, MLWorker>, ids: Seq<WorkerId>, n: nat)
    requires
        sends_before(workers, ids, n) <= usize::MAX,
    ensures
        are_distinct(flow_indices(workers, ids, n), sends_before(workers, ids, n)),
    decreases n,
{
    if n > 0 {
        lemma_flow_indices_to(workers, ids, (n - 1) as nat);
        let t = workers[ids[n - 1]].templates();
        lemma_number_sends(
            flow_indices(workers, ids, (n - 1) as nat),
            ids[n - 1],
            t,
            sends_before(workers, ids, (n - 1) as nat),
            t.len(),
        );
    }
}

/// The index of a flow is below the number of sends of its job.
pub proof fn lemma_flow_index_bound(workers: Map<WorkerId, MLWorker>, k: (WorkerId, usize))
    requires
        total_sends(workers) <= usize::MAX,
        job_flow_indices(workers).contains_key(k),
    ensures
        job_flow_indices(workers)[k] < total_sends(workers),
{
    let ids = ascending(workers.dom());
    lemma_flow_indices_to(workers, ids, ids.len());
}

/// The flows of a job have different indices.
pub proof fn lemma_flow_indices(workers: Map<WorkerId, MLWorker>, a: (WorkerId, usize), b: (WorkerId, usize))
    requires
        total_sends(workers) <= usize::MAX,
        job_flow_indices(workers).contains_key(a),
        job_flow_indices(workers).contains_key(b),
        a != b,
    ensures
        job_flow_indices(workers)[a] != job_flow_indices(workers)[b],
{
    let ids = ascending(workers.dom());
    lemma_flow_indices_to(workers, ids, ids.len());
}

/// Numbers the sends of all workers.
fn number_flows(workers: &DHashMap<WorkerId, MLWorker>) -> (r: (DHashMap<(WorkerId, usize), usize>, usize))
    ensures
        r.0@ == job_flow_indices(workers@),
        r.1 == wrapped(total_sends(workers@)),
{
    let ids = workers.sorted_keys();
    proof {
        lemma_ascending(ids@, workers@.dom());
        vstd::arithmetic::div_mod::lemma_small_mod(0nat, usize::MAX as nat + 1);
    }
    let mut m: DHashMap<(WorkerId, usize), usize> = DHashMap::new();
    let mut idx: usize = 0;
    let mut n: usize = 0;
    while n < ids.len()
        invariant
            n <= ids.len(),
            ids@ == ascending(workers@.dom()),
            ids@.to_set() == workers@.dom(),
            m@ == flow_indices(workers@, ids@, n as nat),
            idx == wrapped(sends_before(workers@, ids@, n as nat)),
        decreases ids.len() - n,
    {
        let wid: usize = ids[n];
        proof {
            assert(ids@.to_set().contains(wid));
        }
        let worker = workers.get(&wid).unwrap();
        let ghost m0 = m@;
        let ghost base = sends_before(workers@, ids@, n as nat);
        let ghost t = worker.templates();
        let mut k: usize = 0;
        while k < worker.template_events.len()
            invariant
                k <= worker.template_events.len(),
                t == worker.templates(),
                t.len() == worker.template_events@.len(),
                m@ == number_sends(m0, wid, t, base, k as nat),
                idx == wrapped(base + send_count(t, k as nat)),
            decreases worker.template_events.len() - k,
        {
            let ev = &worker.template_events[k];
            proof {
                assert(t[k as int] == ev@);
                lemma_wrapped_next(base + send_count(t, k as nat));
            }
            if ev.kind == WorkerEventKind::FlowSend {
                m.insert((wid, ev.template_id), idx);
                idx = idx.wrapping_add(1);
            }
            k += 1;
        }
        n += 1;
    }
    (m, idx)
}

impl MLJob {
    /// A queued job without workers.
    pub fn new(id: JobId, submit_time_us: u64, num_workers: usize, total_iterations: usize) -> (r: Self)
        ensures
            r.id == id,
            r.state == JobState::Queued,
            r.submit_time_us == submit_time_us,
            r.schedule_time_us is None,
            r.start_time_us is None,
            r.completion_time_us is None,
            r.num_workers == num_workers,
            r.total_iterations == total_iterations,
            r.workers@ == Map::<WorkerId, MLWorker>::empty(),
            r.worker_to_host@ == Map::<WorkerId, usize>::empty(),
            r.name is None,
            r.send_template_to_flow_idx@ == Map::<(WorkerId, usize), usize>::empty(),
            r.next_flow_idx == 0,
            r.ring_count == 1,
            r.pipeline_stages is None,
    {
        MLJob {
            id,
            state: JobState::Queued,
            submit_time_us,
            schedule_time_us: None,
            start_time_us: None,
            completion_time_us: None,
            num_workers,
            total_iterations,
            workers: DHashMap::new(),
            worker_to_host: DHashMap::new(),
            name: None,
            send_template_to_flow_idx: DHashMap::new(),
            next_flow_idx: 0,
            ring_count: 1,
            pipeline_stages: None,
        }
    }

    /// The job under another name.
    pub fn with_name(self, name: String) -> (r: Self)
        ensures
            r == (MLJob { name: Some(name), ..self }),
    {
        let mut job = self;
        job.name = Some(name);
        job
    }

    /// The job with another number of rings.
    pub fn with_ring_count(self, ring_count: usize) -> (r: Self)
        ensures
            r == (MLJob { ring_count, ..self }),
    {
        let mut job = self;
        job.ring_count = ring_count;
        job
    }

    /// The job cut into pipeline stages; its rings are those of all stages.
    pub fn with_pipeline_stages(self, info: PipelineStageInfo) -> (r: Self)
        requires
            info.num_stages * info.rings_per_stage <= usize::MAX,
        ensures
            r == (MLJob {
                ring_count: (info.num_stages * info.rings_per_stage) as usize,
                pipeline_stages: Some(info),
                ..self
            }),
    {
        let mut job = self;
        job.ring_count = info.num_stages * info.rings_per_stage;
        job.pipeline_stages = Some(info);
        job
    }

    /// Puts a fresh worker on a host.
    pub fn assign_worker(&mut self, worker_id: WorkerId, host_index: usize)
        ensures
            final(self).workers@.dom() == old(self).workers@.dom().insert(worker_id),
            forall|w: WorkerId|
                w != worker_id && old(self).workers@.contains_key(w) ==> #[trigger] final(self).workers@[w]
                    == old(self).workers@[w],
            final(self).workers@[worker_id].job_id == old(self).id,
            final(self).workers@[worker_id].id == worker_id,
            final(self).workers@[worker_id].host_index == host_index,
            final(self).workers@[worker_id].total_iterations == old(self).total_iterations,
            final(self).workers@[worker_id].current_iteration == 0,
            final(self).workers@[worker_id].templates() == Seq::<EventView>::empty(),
            final(self).worker_to_host@ == old(self).worker_to_host@.insert(worker_id, host_index),
            *final(self) == (MLJob {
                workers: final(self).workers,
                worker_to_host: final(self).worker_to_host,
                ..*old(self)
            }),
    {
        let worker = MLWorker::new(self.id, worker_id, host_index, self.total_iterations);
        self.workers.insert(worker_id, worker);
        self.worker_to_host.insert(worker_id, host_index);
        proof {
            assert(self.workers@.dom() =~= old(self).workers@.dom().insert(worker_id));
        }
    }

    /// Adds an event to the template graph of a worker; fails if there is no such worker.
    pub fn add_worker_event_template(&mut self, worker_id: WorkerId, event: WorkerEvent) -> (r: Result<(), String>)
        ensures
            r is Ok == old(self).workers@.contains_key(worker_id),
            r matches Err(text) ==> *final(self) == *old(self) && text@ == missing_worker_text(worker_id, old(self).id),
            r is Ok ==> {
                &&& final(self).workers@ == old(self).workers@.insert(worker_id, final(self).workers@[worker_id])
                &&& final(self).workers@[worker_id].template_events@
                    == old(self).workers@[worker_id].template_events@.push(event)
                &&& final(self).workers@[worker_id] == (MLWorker {
                    template_events: final(self).workers@[worker_id].template_events,
                    ..old(self).workers@[worker_id]
                })
                &&& *final(self) == (MLJob { workers: final(self).workers, ..*old(self) })
            },
    {
        if self.workers.contains_key(&worker_id) {
            let mut worker = self.workers.remove(&worker_id).unwrap();
            worker.add_event_template(event);
            self.workers.insert(worker_id, worker);
            proof {
                assert(self.workers@ =~= old(self).workers@.insert(worker_id, worker));
            }
            Ok(())
        } else {
            Err(missing_worker_message(worker_id, self.id))
        }
    }

    /// Whether the job is scheduled and has all its workers.
    pub fn is_ready_to_start(&self) -> (r: bool)
        ensures
            r == (self.workers@.dom().len() == self.num_workers && self.state == JobState::Scheduled),
    {
        self.workers.len() == self.num_workers && self.state == JobState::Scheduled
    }

    /// Whether every worker has completed all its iterations.
    pub fn is_completed(&self) -> (r: bool)
        ensures
            r == workers_finished(self.workers@),
    {
        let ids = self.workers.keys();
        let mut i: usize = 0;
        while i < ids.len()
            invariant
                i <= ids.len(),
                ids@.to_set() == self.workers@.dom(),
                forall|j: int|
                    0 <= j < i ==> self.workers@[#[trigger] ids@[j]].current_iteration
                        >= self.workers@[ids@[j]].total_iterations,
            decreases ids.len() - i,
        {
            proof {
                assert(ids@.to_set().contains(ids@[i as int]));
            }
            let worker = self.workers.get(&ids[i]).unwrap();
            if !worker.is_completely_finished() {
                return false;
            }
            i += 1;
        }
        proof {
            assert forall|w: WorkerId| #[trigger] self.workers@.contains_key(w) implies self.workers@[w].current_iteration
                >= self.workers@[w].total_iterations by {
                assert(ids@.to_set().contains(w));
                let j = choose|j: int| 0 <= j < ids@.len() && ids@[j] == w;
            }
        }
        true
    }

    /// The hosts of the placed workers, in worker order.
    pub fn get_assigned_hosts(&self) -> (r: Vec<usize>)
        ensures
            r@ == placed_hosts(self.worker_to_host@),
            forall|i: int| 0 <= i < r@.len() ==> is_host_of(self.worker_to_host@, #[trigger] r@[i]),
            forall|w: WorkerId| #[trigger]
                self.worker_to_host@.contains_key(w) ==> r@.contains(self.worker_to_host@[w]),
    {
        let ids = self.worker_to_host.sorted_keys();
        proof {
            lemma_ascending(ids@, self.worker_to_host@.dom());
        }
        let mut hosts: Vec<usize> = Vec::new();
        let mut i: usize = 0;
        while i < ids.len()
            invariant
                i <= ids.len(),
                ids@.to_set() == self.worker_to_host@.dom(),
                hosts@.len() == i,
                forall|j: int| 0 <= j < i ==> hosts@[j] == self.worker_to_host@[#[trigger] ids@[j]],
            decreases ids.len() - i,
        {
            proof {
                assert(ids@.to_set().contains(ids@[i as int]));
            }
            hosts.push(*self.worker_to_host.get(&ids[i]).unwrap());
            i += 1;
        }
        proof {
            assert(hosts@ =~= placed_hosts(self.worker_to_host@));
            assert forall|i: int| 0 <= i < hosts@.len() implies is_host_of(
                self.worker_to_host@,
                #[trigger] hosts@[i],
            ) by {
                assert(ids@.to_set().contains(ids@[i]));
                assert(self.worker_to_host@.contains_key(ids@[i]));
            }
            assert forall|w: WorkerId| #[trigger] self.worker_to_host@.contains_key(w) implies hosts@.contains(
                self.worker_to_host@[w],
            ) by {
                assert(ids@.to_set().contains(w));
                let i = choose|i: int| 0 <= i < ids@.len() && ids@[i] == w;
                assert(hosts@[i] == self.worker_to_host@[w]);
            }
        }
        hosts
    }

    /// A worker.
    pub fn get_worker(&self, worker_id: WorkerId) -> (r: Option<&MLWorker>)
        ensures
            r == (if self.workers@.contains_key(worker_id) {
                Some(&self.workers@[worker_id])
            } else {
                None
            }),
    {
        self.workers.get(&worker_id)
    }

    /// A worker, for writing.
    pub fn get_worker_mut(&mut self, worker_id: WorkerId) -> (r: Option<&mut MLWorker>)
        ensures
            match r {
                Some(w) => old(self).workers@.contains_key(worker_id) && *w == old(self).workers@[worker_id]
                    && final(self).workers@ == old(self).workers@.insert(worker_id, *final(w)),
                None => !old(self).workers@.contains_key(worker_id) && final(self).workers@ == old(self).workers@,
            },
            *final(self) == (MLJob { workers: final(self).workers, ..*old(self) }),
    {
        self.workers.get_mut(&worker_id)
    }

    /// The host of a worker.
    pub fn get_worker_host(&self, worker_id: WorkerId) -> (r: Option<usize>)
        ensures
            r == (if self.worker_to_host@.contains_key(worker_id) {
                Some(self.worker_to_host@[worker_id])
            } else {
                None
            }),
    {
        match self.worker_to_host.get(&worker_id) {
            Some(h) => Some(*h),
            None => None,
        }
    }

    /// Marks the job as scheduled.
    pub fn mark_scheduled(&mut self, schedule_time_us: u64)
        ensures
            *final(self) == (MLJob {
                state: JobState::Scheduled,
                schedule_time_us: Some(schedule_time_us),
                ..*old(self)
            }),
    {
        self.state = JobState::Scheduled;
        self.schedule_time_us = Some(schedule_time_us);
    }

    /// Marks the job as running.
    pub fn mark_running(&mut self, start_time_us: u64)
        ensures
            *final(self) == (MLJob { state: JobState::Running, start_time_us: Some(start_time_us), ..*old(self) }),
    {
        self.state = JobState::Running;
        self.start_time_us = Some(start_time_us);
    }

    /// Marks the job as completed.
    pub fn mark_completed(&mut self, completion_time_us: u64)
        ensures
            *final(self) == (MLJob {
                state: JobState::Completed,
                completion_time_us: Some(completion_time_us),
                ..*old(self)
            }),
    {
        self.state = JobState::Completed;
        self.completion_time_us = Some(completion_time_us);
    }

    /// Marks the job as failed.
    pub fn mark_failed(&mut self, failure_time_us: u64)
        ensures
            *final(self) == (MLJob {
                state: JobState::Failed,
                completion_time_us: Some(failure_time_us),
                ..*old(self)
            }),
    {
        self.state = JobState::Failed;
        self.completion_time_us = Some(failure_time_us);
    }

    /// Takes the placement from the workers.
    pub fn rebuild_worker_to_host(&mut self)
        ensures
            final(self).worker_to_host@ == worker_hosts(old(self).workers@),
            *final(self) == (MLJob { worker_to_host: final(self).worker_to_host, ..*old(self) }),
    {
        let ids = self.workers.keys();
        let mut map: DHashMap<WorkerId, usize> = DHashMap::new();
        let mut i: usize = 0;
        while i < ids.len()
            invariant
                i <= ids.len(),
                *self == *old(self),
                ids@.to_set() == self.workers@.dom(),
                forall|w: WorkerId| #[trigger]
                    map@.contains_key(w) ==> self.workers@.contains_key(w) && map@[w] == self.workers@[w].host_index,
                forall|j: int| 0 <= j < i ==> map@.contains_key(#[trigger] ids@[j]),
            decreases ids.len() - i,
        {
            proof {
                assert(ids@.to_set().contains(ids@[i as int]));
            }
            let worker = self.workers.get(&ids[i]).unwrap();
            map.insert(ids[i], worker.host_index);
            i += 1;
        }
        proof {
            assert forall|w: WorkerId| self.workers@.contains_key(w) implies #[trigger] map@.contains_key(w) by {
                assert(ids@.to_set().contains(w));
                let j = choose|j: int| 0 <= j < ids@.len() && ids@[j] == w;
            }
            assert(map@ =~= worker_hosts(self.workers@));
        }
        self.worker_to_host = map;
    }

    /// Numbers the sends again.
    pub fn rebuild_flow_indices(&mut self)
        ensures
            final(self).send_template_to_flow_idx@ == job_flow_indices(old(self).workers@),
            final(self).next_flow_idx == wrapped(total_sends(old(self).workers@)),
            *final(self) == (MLJob {
                send_template_to_flow_idx: final(self).send_template_to_flow_idx,
                next_flow_idx: final(self).next_flow_idx,
                ..*old(self)
            }),
    {
        let (map, next) = number_flows(&self.workers);
        self.send_template_to_flow_idx = map;
        self.next_flow_idx = next;
    }
}

/// Every worker has completed its iterations.
pub open spec fn workers_finished(workers: Map<WorkerId, MLWorker>) -> bool {
    forall|w: WorkerId| #[trigger]
        workers.contains_key(w) ==> workers[w].current_iteration >= workers[w].total_iterations
}

/// The host of every worker.
pub open spec fn worker_hosts(workers: Map<WorkerId, MLWorker>) -> Map<WorkerId, usize> {
    workers.map_values(|w: MLWorker| w.host_index)
}

/// A worker of the placement is on the host.
pub open spec fn is_host_of(worker_to_host: Map<WorkerId, usize>, host: usize) -> bool {
    exists|w: WorkerId| #[trigger] worker_to_host.contains_key(w) && worker_to_host[w] == host
}

/// The hosts of a placement in worker order.
pub open spec fn placed_hosts(worker_to_host: Map<WorkerId, usize>) -> Seq<usize> {
    ascending(worker_to_host.dom()).map_values(|w: WorkerId| worker_to_host[w])
}

/// The text that says that a job has no such worker.
pub open spec fn missing_worker_text(worker_id: WorkerId, job_id: JobId) -> Seq<char> {
    "Worker "@ + decimal(worker_id as nat) + " not found in job "@ + decimal(job_id as nat)
}

fn missing_worker_message(worker_id: WorkerId, job_id: JobId) -> (r: String)
    ensures
        r@ == missing_worker_text(worker_id, job_id),
{
    let mut s = String::from_str("Worker ");
    push_index(&mut s, worker_id);
    s.append(" not found in job ");
    push_index(&mut s, job_id);
    s
}

/// Puts a job together worker by worker.
pub struct MLJobBuilder {
    pub job: MLJob,
    pub next_worker_id: WorkerId,
    pub total_iterations: usize,
}

impl MLJobBuilder {
    /// A builder for a job without workers.
    pub fn new(job_id: JobId, submit_time_us: u64, num_workers: usize, total_iterations: usize) -> (r: Self)
        ensures
            r.next_worker_id == 0,
            r.total_iterations == total_iterations,
            r.job.id == job_id,
            r.job.state == JobState::Queued,
            r.job.submit_time_us == submit_time_us,
            r.job.num_workers == num_workers,
            r.job.total_iterations == total_iterations,
            r.job.workers@ == Map::<WorkerId, MLWorker>::empty(),
            r.job.worker_to_host@ == Map::<WorkerId, usize>::empty(),
            r.job.name is None,
            r.job.ring_count == 1,
            r.job.pipeline_stages is None,
    {
        MLJobBuilder {
            job: MLJob::new(job_id, submit_time_us, num_workers, total_iterations),
            next_worker_id: 0,
            total_iterations,
        }
    }

    /// Names the job.
    pub fn with_name(self, name: String) -> (r: Self)
        ensures
            r == (MLJobBuilder { job: MLJob { name: Some(name), ..self.job }, ..self }),
    {
        let mut b = self;
        b.job.name = Some(name);
        b
    }

    /// Adds the next worker with the given event graph. It has no host until the job is placed.
    pub fn add_worker_with_events(self, _host_index: usize, events: Vec<WorkerEvent>) -> (r: Self)
        requires
            self.next_worker_id < usize::MAX,
        ensures
            r.next_worker_id == self.next_worker_id + 1,
            r.total_iterations == self.total_iterations,
            r.job == (MLJob { workers: r.job.workers, ..self.job }),
            r.job.workers@ == self.job.workers@.insert(self.next_worker_id, r.job.workers@[self.next_worker_id]),
            r.job.workers@[self.next_worker_id].job_id == self.job.id,
            r.job.workers@[self.next_worker_id].id == self.next_worker_id,
            r.job.workers@[self.next_worker_id].host_index == 0,
            r.job.workers@[self.next_worker_id].total_iterations == self.total_iterations,
            r.job.workers@[self.next_worker_id].current_iteration == 0,
            r.job.workers@[self.next_worker_id].template_events@ == events@,
            r.job.workers@[self.next_worker_id].templates() == event_views(events@),
    {
        let mut b = self;
        let worker_id: usize = b.next_worker_id;
        b.next_worker_id = worker_id + 1;
        let mut worker = MLWorker::new(b.job.id, worker_id, 0, b.total_iterations);
        worker.template_events = events;
        b.job.workers.insert(worker_id, worker);
        b
    }

    /// The job, with its sends numbered.
    pub fn build(self) -> (r: MLJob)
        ensures
            r.send_template_to_flow_idx@ == job_flow_indices(self.job.workers@),
            r.next_flow_idx == wrapped(total_sends(self.job.workers@)),
            r == (MLJob {
                send_template_to_flow_idx: r.send_template_to_flow_idx,
                next_flow_idx: r.next_flow_idx,
                ..self.job
            }),
    {
        let mut job = self.job;
        job.rebuild_flow_indices();
        job
    }
}

} // verus!
