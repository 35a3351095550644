//! What the simulator shows of its state to routers, schedulers and system modules.

use vstd::prelude::*;

use crate::simulator::ml_job::{ascending, lemma_ascending, MLJob, PipelineStageInfo};
use crate::simulator::ml_worker::{
    clone_name, first_occurrences, receive_peers, send_peers, EventView, FlowId, JobId, MLWorker, WorkerEventKind,
    WorkerId,
};
use crate::simulator::system::{TimerId, TimerRequest};
use crate::utils::compatibility::{description, Step, WorkerDescription};
use crate::utils::data::{DHashMap, DHashSet};

verus! {

/// A flow in the network: job, flow index, iteration, sender, receiver, send event, receive event.
pub type WaitingFlow = (JobId, usize, usize, WorkerId, WorkerId, usize, usize);

/// A job as system modules see it.
pub struct ActiveJobInfo {
    pub job_id: JobId,
    pub name: Option<String>,
    pub submit_time_us: u64,
    pub num_workers: usize,
    pub total_iterations: usize,
    pub ring_count: usize,
    /// What each worker does in an iteration, in worker order.
    pub worker_descriptions: Vec<WorkerDescription>,
    pub pipeline_stages: Option<PipelineStageInfo>,
}

/// The value of an `ActiveJobInfo`.
pub struct ActiveJobView {
    pub job_id: JobId,
    pub name: Option<String>,
    pub submit_time_us: u64,
    pub num_workers: usize,
    pub total_iterations: usize,
    pub ring_count: usize,
    pub worker_descriptions: Seq<Seq<Step>>,
    pub pipeline_stages: Option<PipelineStageInfo>,
}

impl View for ActiveJobInfo {
    type V = ActiveJobView;

    open spec fn view(&self) -> ActiveJobView {
        ActiveJobView {
            job_id: self.job_id,
            name: self.name,
            submit_time_us: self.submit_time_us,
            num_workers: self.num_workers,
            total_iterations: self.total_iterations,
            ring_count: self.ring_count,
            worker_descriptions: self.worker_descriptions@.map_values(|d: WorkerDescription| d.steps@),
            pipeline_stages: self.pipeline_stages,
        }
    }
}

/// The snapshot of a job.
pub open spec fn job_snapshot(job: &MLJob) -> ActiveJobView {
    ActiveJobView {
        job_id: job.id,
        name: job.name,
        submit_time_us: job.submit_time_us,
        num_workers: job.num_workers,
        total_iterations: job.total_iterations,
        ring_count: job.ring_count,
        worker_descriptions: ascending(job.workers@.dom()).map_values(
            |w: WorkerId| description(job.workers@[w].templates()),
        ),
        pipeline_stages: job.pipeline_stages,
    }
}

/// Takes the snapshot of a job.
pub fn make_active_job_snapshot(job: &MLJob) -> (r: ActiveJobInfo)
    ensures
        r@ == job_snapshot(job),
{
    let ids = job.workers.sorted_keys();
    proof {
        lemma_ascending(ids@, job.workers@.dom());
    }
    let mut worker_descriptions: Vec<WorkerDescription> = Vec::new();
    let mut i: usize = 0;
    while i < ids.len()
        invariant
            i <= ids.len(),
            ids@.to_set() == job.workers@.dom(),
            worker_descriptions@.len() == i,
            forall|j: int|
                0 <= j < i ==> (#[trigger] worker_descriptions@[j]).steps@ == description(
                    job.workers@[ids@[j]].templates(),
                ),
        decreases ids.len() - i,
    {
        proof {
            assert(ids@.to_set().contains(ids@[i as int]));
        }
        worker_descriptions.push(WorkerDescription::from_worker(job.workers.get(&ids[i]).unwrap()));
        i += 1;
    }
    let r = ActiveJobInfo {
        job_id: job.id,
        name: clone_name(&job.name),
        submit_time_us: job.submit_time_us,
        num_workers: job.num_workers,
        total_iterations: job.total_iterations,
        ring_count: job.ring_count,
        worker_descriptions,
        pipeline_stages: job.pipeline_stages,
    };
    proof {
        assert(r@.worker_descriptions =~= job_snapshot(job).worker_descriptions);
    }
    r
}

/// The shared state.
pub struct MLContext {
    pub time_us: u64,
    pub waiting_flows: DHashMap<FlowId, WaitingFlow>,
    /// Iterations of each job: in total, and completed.
    pub job_iterations: DHashMap<JobId, (usize, usize)>,
    pub active_jobs: DHashMap<JobId, ActiveJobInfo>,
    /// Host of each worker of each job.
    pub placements: DHashMap<JobId, DHashMap<WorkerId, usize>>,
    /// Worker on each host.
    pub host_to_worker: Vec<Option<(JobId, WorkerId)>>,
    /// Workers that a worker sends to.
    pub worker_send_neighbors: DHashMap<(JobId, WorkerId), Vec<WorkerId>>,
    /// Workers that a worker receives from.
    pub worker_recv_neighbors: DHashMap<(JobId, WorkerId), Vec<WorkerId>>,
    /// Bytes that a worker has sent in this iteration, and sends in every iteration.
    pub worker_send_progress: DHashMap<(JobId, WorkerId), (u64, u64)>,
    /// Flows completed since the set of active jobs last changed.
    pub flow_completions_per_job: DHashMap<JobId, u64>,
    /// Timers that are to be scheduled.
    pub pending_timers: Vec<TimerRequest>,
}

/// The values of a table of placements.
pub open spec fn placement_views(m: Map<JobId, DHashMap<WorkerId, usize>>) -> Map<JobId, Map<WorkerId, usize>> {
    m.map_values(|p: DHashMap<WorkerId, usize>| p@)
}

/// The values of a table of neighbours.
pub open spec fn neighbor_views(m: Map<(JobId, WorkerId), Vec<WorkerId>>) -> Map<(JobId, WorkerId), Seq<WorkerId>> {
    m.map_values(|v: Vec<WorkerId>| v@)
}

/// The values of a table of snapshots.
pub open spec fn snapshot_views(m: Map<JobId, ActiveJobInfo>) -> Map<JobId, ActiveJobView> {
    m.map_values(|a: ActiveJobInfo| a@)
}

/// `m` without the entries of a job.
pub open spec fn without_job<V>(m: Map<(JobId, WorkerId), V>, job_id: JobId) -> Map<(JobId, WorkerId), V> {
    Map::new(|k: (JobId, WorkerId)| m.contains_key(k) && k.0 != job_id, |k: (JobId, WorkerId)| m[k])
}

/// `m` with an entry for every worker in `vals`.
pub open spec fn with_job<V>(m: Map<(JobId, WorkerId), V>, job_id: JobId, vals: Map<WorkerId, V>) -> Map<
    (JobId, WorkerId),
    V,
> {
    Map::new(
        |k: (JobId, WorkerId)| m.contains_key(k) || (k.0 == job_id && vals.contains_key(k.1)),
        |k: (JobId, WorkerId)|
            if k.0 == job_id && vals.contains_key(k.1) {
                vals[k.1]
            } else {
                m[k]
            },
    )
}

/// `h2w` with the first `n` of `ids` on their hosts, as far as these exist.
pub open spec fn put_workers(
    h2w: Seq<Option<(JobId, WorkerId)>>,
    job_id: JobId,
    hosts: Map<WorkerId, usize>,
    ids: Seq<WorkerId>,
    n: nat,
) -> Seq<Option<(JobId, WorkerId)>>
    decreases n,
{
    if n == 0 {
        h2w
    } else {
        let before = put_workers(h2w, job_id, hosts, ids, (n - 1) as nat);
        let w = ids[n - 1];
        if hosts[w] < before.len() {
            before.update(hosts[w] as int, Some((job_id, w)))
        } else {
            before
        }
    }
}

/// `h2w` with all workers of a placement on their hosts.
pub open spec fn put_placement(h2w: Seq<Option<(JobId, WorkerId)>>, job_id: JobId, hosts: Map<WorkerId, usize>) -> Seq<
    Option<(JobId, WorkerId)>,
> {
    let ids = ascending(hosts.dom());
    put_workers(h2w, job_id, hosts, ids, ids.len())
}

/// `s` with `v` at those of the first `n` listed positions that exist.
pub open spec fn set_at<T>(s: Seq<T>, at: Seq<usize>, v: T, n: nat) -> Seq<T>
    decreases n,
{
    if n == 0 {
        s
    } else {
        let before = set_at(s, at, v, (n - 1) as nat);
        if at[n - 1] < before.len() {
            before.update(at[n - 1] as int, v)
        } else {
            before
        }
    }
}

/// What `set_at` leaves at each position.
pub proof fn lemma_set_at<T>(s: Seq<T>, at: Seq<usize>, v: T, n: nat)
    requires
        n <= at.len(),
    ensures
        set_at(s, at, v, n).len() == s.len(),
        forall|h: int|
            0 <= h < s.len() ==> #[trigger] set_at(s, at, v, n)[h] == if (exists|i: int|
                0 <= i < n && #[trigger] at[i] == h) {
                v
            } else {
                s[h]
            },
    decreases n,
{
    if n > 0 {
        lemma_set_at(s, at, v, (n - 1) as nat);
        let before = set_at(s, at, v, (n - 1) as nat);
        assert forall|h: int| 0 <= h < s.len() implies #[trigger] set_at(s, at, v, n)[h] == if (exists|i: int|
            0 <= i < n && #[trigger] at[i] == h) {
            v
        } else {
            s[h]
        } by {
            if exists|i: int| 0 <= i < n - 1 && #[trigger] at[i] == h {
                let i = choose|i: int| 0 <= i < n - 1 && #[trigger] at[i] == h;
                assert(0 <= i < n && at[i] == h);
            }
            if at[n - 1] == h {
                assert(0 <= n - 1 < n && at[n - 1] == h);
            }
            assert(before[h] == before[h]);
        }
    }
}

/// `h2w` without the workers of a job.
pub open spec fn drop_job_hosts(h2w: Seq<Option<(JobId, WorkerId)>>, job_id: JobId) -> Seq<Option<(JobId, WorkerId)>> {
    h2w.map_values(
        |e: Option<(JobId, WorkerId)>|
            match e {
                Some(p) => if p.0 == job_id {
                    None
                } else {
                    e
                },
                None => None,
            },
    )
}

/// The distinct workers that a worker sends to.
pub open spec fn send_neighbors(w: MLWorker) -> Seq<WorkerId> {
    first_occurrences(send_peers(w.templates(), w.templates().len()))
}

/// The distinct workers that a worker receives from.
pub open spec fn receive_neighbors(w: MLWorker) -> Seq<WorkerId> {
    first_occurrences(receive_peers(w.templates(), w.templates().len()))
}

/// The sum of two machine integers, as the machine counts.
pub open spec fn wrapping_sum(a: u64, b: u64) -> u64 {
    if a + b > u64::MAX {
        (a + b - u64::MAX - 1) as u64
    } else {
        (a + b) as u64
    }
}

/// The bytes that the sends among the first `n` events carry.
pub open spec fn send_bytes(t: Seq<EventView>, n: nat) -> u64
    decreases n,
{
    if n == 0 {
        0
    } else {
        let before = send_bytes(t, (n - 1) as nat);
        if t[n - 1].kind == WorkerEventKind::FlowSend {
            match t[n - 1].flow_send {
                Some(f) => wrapping_sum(before, f.size_bytes),
                None => before,
            }
        } else {
            before
        }
    }
}

/// The bytes that a worker sends in an iteration.
pub open spec fn iteration_bytes(w: MLWorker) -> u64 {
    send_bytes(w.templates(), w.templates().len())
}

/// The bytes that a worker sends in an iteration.
pub fn compute_iteration_bytes(worker: &MLWorker) -> (r: u64)
    ensures
        r == iteration_bytes(*worker),
{
    let ghost t = worker.templates();
    let mut total: u64 = 0;
    let mut i: usize = 0;
    while i < worker.template_events.len()
        invariant
            i <= worker.template_events.len(),
            t == worker.templates(),
            t.len() == worker.template_events@.len(),
            total == send_bytes(t, i as nat),
        decreases worker.template_events.len() - i,
    {
        let ev = &worker.template_events[i];
        proof {
            assert(t[i as int] == ev@);
        }
        if ev.kind == WorkerEventKind::FlowSend {
            if let Some(f) = &ev.flow_send {
                total = total.wrapping_add(f.size_bytes);
            }
        }
        i += 1;
    }
    total
}

/// Drops the entries of a job.
pub fn remove_job_entries<V>(m: &mut DHashMap<(JobId, WorkerId), V>, job_id: JobId)
    ensures
        final(m)@ == without_job(old(m)@, job_id),
{
    let keys = m.keys();
    let mut i: usize = 0;
    while i < keys.len()
        invariant
            i <= keys.len(),
            keys@.to_set() == old(m)@.dom(),
            forall|k: (JobId, WorkerId)| #[trigger]
                m@.contains_key(k) <==> old(m)@.contains_key(k) && !(k.0 == job_id && keys@.take(i as int).contains(k)),
            forall|k: (JobId, WorkerId)| #[trigger] m@.contains_key(k) ==> m@[k] == old(m)@[k],
        decreases keys.len() - i,
    {
        proof {
            let k = keys@[i as int];
            assert(keys@.take(i + 1) =~= keys@.take(i as int).push(k));
            assert forall|x: (JobId, WorkerId)| keys@.take(i + 1).contains(x) <==> keys@.take(i as int).contains(x) || x
                == k by {
                if keys@.take(i as int).contains(x) {
                    let j = choose|j: int| 0 <= j < i && keys@.take(i as int)[j] == x;
                    assert(keys@.take(i + 1)[j] == x);
                }
                assert(keys@.take(i + 1)[i as int] == k);
            }
        }
        if keys[i].0 == job_id {
            m.remove(&keys[i]);
        }
        i += 1;
    }
    proof {
        assert(keys@.take(keys@.len() as int) =~= keys@);
        assert forall|k: (JobId, WorkerId)| old(m)@.contains_key(k) implies keys@.contains(k) by {
            assert(keys@.to_set().contains(k));
        }
        assert(m@ =~= without_job(old(m)@, job_id));
    }
}

impl MLContext {
    /// Nothing is known yet, and no host has a worker.
    pub open spec fn is_initial(&self, num_hosts: usize) -> bool {
        &&& self.time_us == 0
        &&& self.waiting_flows@ == Map::<FlowId, WaitingFlow>::empty()
        &&& self.job_iterations@ == Map::<JobId, (usize, usize)>::empty()
        &&& self.active_jobs@ == Map::<JobId, ActiveJobInfo>::empty()
        &&& self.placements@ == Map::<JobId, DHashMap<WorkerId, usize>>::empty()
        &&& self.host_to_worker@ == Seq::new(num_hosts as nat, |i: int| None::<(JobId, WorkerId)>)
        &&& self.worker_send_neighbors@ == Map::<(JobId, WorkerId), Vec<WorkerId>>::empty()
        &&& self.worker_recv_neighbors@ == Map::<(JobId, WorkerId), Vec<WorkerId>>::empty()
        &&& self.worker_send_progress@ == Map::<(JobId, WorkerId), (u64, u64)>::empty()
        &&& self.flow_completions_per_job@ == Map::<JobId, u64>::empty()
        &&& self.pending_timers@ == Seq::<TimerRequest>::empty()
    }

    /// The context of an idle cluster.
    pub fn new(num_hosts: usize) -> (r: Self)
        ensures
            r.is_initial(num_hosts),
    {
        let mut host_to_worker: Vec<Option<(JobId, WorkerId)>> = Vec::new();
        let mut i: usize = 0;
        while i < num_hosts
            invariant
                i <= num_hosts,
                host_to_worker@ == Seq::new(i as nat, |i: int| None::<(JobId, WorkerId)>),
            decreases num_hosts - i,
        {
            host_to_worker.push(None);
            proof {
                assert(host_to_worker@ =~= Seq::new(i as nat + 1, |i: int| None::<(JobId, WorkerId)>));
            }
            i += 1;
        }
        MLContext {
            time_us: 0,
            waiting_flows: DHashMap::new(),
            job_iterations: DHashMap::new(),
            active_jobs: DHashMap::new(),
            placements: DHashMap::new(),
            host_to_worker,
            worker_send_neighbors: DHashMap::new(),
            worker_recv_neighbors: DHashMap::new(),
            worker_send_progress: DHashMap::new(),
            flow_completions_per_job: DHashMap::new(),
            pending_timers: Vec::new(),
        }
    }

    /// Asks for a timer after a delay.
    pub fn schedule_timer(&mut self, delay_us: u64, timer_id: TimerId)
        requires
            old(self).time_us + delay_us <= u64::MAX,
        ensures
            final(self).pending_timers@ == old(self).pending_timers@.push(
                TimerRequest { fire_at_us: (old(self).time_us + delay_us) as u64, timer_id },
            ),
            *final(self) == (MLContext { pending_timers: final(self).pending_timers, ..*old(self) }),
    {
        let fire_at_us: u64 = self.time_us + delay_us;
        self.pending_timers.push(TimerRequest { fire_at_us, timer_id });
    }

    /// Asks for a timer at a given time.
    pub fn schedule_timer_at(&mut self, fire_at_us: u64, timer_id: TimerId)
        ensures
            final(self).pending_timers@ == old(self).pending_timers@.push(TimerRequest { fire_at_us, timer_id }),
            *final(self) == (MLContext { pending_timers: final(self).pending_timers, ..*old(self) }),
    {
        self.pending_timers.push(TimerRequest { fire_at_us, timer_id });
    }

    /// Shows the placement of a job.
    pub fn set_placement(&mut self, job_id: JobId, hosts: &DHashMap<WorkerId, usize>)
        ensures
            placement_views(final(self).placements@) == placement_views(old(self).placements@).insert(job_id, hosts@),
            *final(self) == (MLContext { placements: final(self).placements, ..*old(self) }),
    {
        let copy = hosts.duplicate();
        self.placements.insert(job_id, copy);
        proof {
            assert(placement_views(self.placements@) =~= placement_views(old(self).placements@).insert(job_id, hosts@));
        }
    }

    /// Shows the workers of a job on their hosts.
    pub fn put_on_hosts(&mut self, job_id: JobId, hosts: &DHashMap<WorkerId, usize>)
        ensures
            final(self).host_to_worker@ == put_placement(old(self).host_to_worker@, job_id, hosts@),
            final(self).host_to_worker@.len() == old(self).host_to_worker@.len(),
            *final(self) == (MLContext { host_to_worker: final(self).host_to_worker, ..*old(self) }),
    {
        let ids = hosts.sorted_keys();
        proof {
            lemma_ascending(ids@, hosts@.dom());
        }
        let mut i: usize = 0;
        while i < ids.len()
            invariant
                i <= ids.len(),
                ids@.to_set() == hosts@.dom(),
                self.host_to_worker@ == put_workers(old(self).host_to_worker@, job_id, hosts@, ids@, i as nat),
                self.host_to_worker@.len() == old(self).host_to_worker@.len(),
                *self == (MLContext { host_to_worker: self.host_to_worker, ..*old(self) }),
            decreases ids.len() - i,
        {
            proof {
                assert(ids@.to_set().contains(ids@[i as int]));
            }
            let host: usize = *hosts.get(&ids[i]).unwrap();
            if host < self.host_to_worker.len() {
                self.host_to_worker.set(host, Some((job_id, ids[i])));
            }
            i += 1;
        }
    }

    /// Shows the listed hosts as empty.
    pub fn clear_hosts(&mut self, hosts: &Vec<usize>)
        ensures
            final(self).host_to_worker@ == set_at(old(self).host_to_worker@, hosts@, None, hosts@.len()),
            final(self).host_to_worker@.len() == old(self).host_to_worker@.len(),
            *final(self) == (MLContext { host_to_worker: final(self).host_to_worker, ..*old(self) }),
    {
        let mut i: usize = 0;
        while i < hosts.len()
            invariant
                i <= hosts.len(),
                self.host_to_worker@ == set_at(old(self).host_to_worker@, hosts@, None, i as nat),
                self.host_to_worker@.len() == old(self).host_to_worker@.len(),
                *self == (MLContext { host_to_worker: self.host_to_worker, ..*old(self) }),
            decreases hosts.len() - i,
        {
            if hosts[i] < self.host_to_worker.len() {
                self.host_to_worker.set(hosts[i], None);
            }
            i += 1;
        }
    }

    /// Drops the workers of a job from all hosts.
    pub fn clear_job_hosts(&mut self, job_id: JobId)
        ensures
            final(self).host_to_worker@ == drop_job_hosts(old(self).host_to_worker@, job_id),
            *final(self) == (MLContext { host_to_worker: final(self).host_to_worker, ..*old(self) }),
    {
        let ghost goal = drop_job_hosts(self.host_to_worker@, job_id);
        let n: usize = self.host_to_worker.len();
        let mut i: usize = 0;
        while i < n
            invariant
                i <= n,
                n == self.host_to_worker@.len(),
                goal.len() == n,
                forall|j: int| 0 <= j < i ==> self.host_to_worker@[j] == #[trigger] goal[j],
                forall|j: int| i <= j < n ==> #[trigger] self.host_to_worker@[j] == old(self).host_to_worker@[j],
                goal == drop_job_hosts(old(self).host_to_worker@, job_id),
                *self == (MLContext { host_to_worker: self.host_to_worker, ..*old(self) }),
            decreases n - i,
        {
            if let Some(p) = self.host_to_worker[i] {
                if p.0 == job_id {
                    self.host_to_worker.set(i, None);
                }
            }
            i += 1;
        }
        proof {
            assert(self.host_to_worker@ =~= goal);
        }
    }

    /// Shows the neighbours of the workers of a job, in addition to what is there.
    pub fn add_neighbors(&mut self, job_id: JobId, workers: &DHashMap<WorkerId, MLWorker>)
        ensures
            neighbor_views(final(self).worker_send_neighbors@) == with_job(
                neighbor_views(old(self).worker_send_neighbors@),
                job_id,
                workers@.map_values(|w: MLWorker| send_neighbors(w)),
            ),
            neighbor_views(final(self).worker_recv_neighbors@) == with_job(
                neighbor_views(old(self).worker_recv_neighbors@),
                job_id,
                workers@.map_values(|w: MLWorker| receive_neighbors(w)),
            ),
            *final(self) == (MLContext {
                worker_send_neighbors: final(self).worker_send_neighbors,
                worker_recv_neighbors: final(self).worker_recv_neighbors,
                ..*old(self)
            }),
    {
        let ids = workers.keys();
        let ghost s0 = neighbor_views(self.worker_send_neighbors@);
        let ghost r0 = neighbor_views(self.worker_recv_neighbors@);
        let ghost sv = workers@.map_values(|w: MLWorker| send_neighbors(w));
        let ghost rv = workers@.map_values(|w: MLWorker| receive_neighbors(w));
        let mut i: usize = 0;
        proof {
            let none = Set::<WorkerId>::empty();
            assert(ids@.take(0).to_set() =~= none);
            assert(s0 =~= with_job(s0, job_id, sv.restrict(none)));
            assert(r0 =~= with_job(r0, job_id, rv.restrict(none)));
        }
        while i < ids.len()
            invariant
                i <= ids.len(),
                ids@.to_set() == workers@.dom(),
                sv == workers@.map_values(|w: MLWorker| send_neighbors(w)),
                rv == workers@.map_values(|w: MLWorker| receive_neighbors(w)),
                neighbor_views(self.worker_send_neighbors@) == with_job(
                    s0,
                    job_id,
                    sv.restrict(ids@.take(i as int).to_set()),
                ),
                neighbor_views(self.worker_recv_neighbors@) == with_job(
                    r0,
                    job_id,
                    rv.restrict(ids@.take(i as int).to_set()),
                ),
                *self == (MLContext {
                    worker_send_neighbors: self.worker_send_neighbors,
                    worker_recv_neighbors: self.worker_recv_neighbors,
                    ..*old(self)
                }),
            decreases ids.len() - i,
        {
            let id: usize = ids[i];
            proof {
                assert(ids@.to_set().contains(id));
                assert(ids@.take(i + 1) =~= ids@.take(i as int).push(id));
                crate::utils::data::lemma_push_to_set(ids@.take(i as int), id);
            }
            let worker = workers.get(&id).unwrap();
            let ghost s1 = neighbor_views(self.worker_send_neighbors@);
            let ghost r1 = neighbor_views(self.worker_recv_neighbors@);
            self.worker_send_neighbors.insert((job_id, id), worker.get_send_neighbors());
            self.worker_recv_neighbors.insert((job_id, id), worker.get_receive_neighbors());
            proof {
                assert(neighbor_views(self.worker_send_neighbors@) =~= s1.insert((job_id, id), send_neighbors(*worker)));
                assert(neighbor_views(self.worker_recv_neighbors@) =~= r1.insert(
                    (job_id, id),
                    receive_neighbors(*worker),
                ));
                let done = ids@.take(i + 1).to_set();
                assert(with_job(s0, job_id, sv.restrict(done)) =~= s1.insert((job_id, id), send_neighbors(*worker)));
                assert(with_job(r0, job_id, rv.restrict(done)) =~= r1.insert((job_id, id), receive_neighbors(*worker)));
            }
            i += 1;
        }
        proof {
            assert(ids@.take(ids@.len() as int) =~= ids@);
            assert(sv.restrict(ids@.to_set()) =~= sv);
            assert(rv.restrict(ids@.to_set()) =~= rv);
        }
    }

    /// Drops the neighbours of the workers of a job.
    pub fn drop_neighbors(&mut self, job_id: JobId)
        ensures
            neighbor_views(final(self).worker_send_neighbors@) == without_job(
                neighbor_views(old(self).worker_send_neighbors@),
                job_id,
            ),
            neighbor_views(final(self).worker_recv_neighbors@) == without_job(
                neighbor_views(old(self).worker_recv_neighbors@),
                job_id,
            ),
            *final(self) == (MLContext {
                worker_send_neighbors: final(self).worker_send_neighbors,
                worker_recv_neighbors: final(self).worker_recv_neighbors,
                ..*old(self)
            }),
    {
        remove_job_entries(&mut self.worker_send_neighbors, job_id);
        remove_job_entries(&mut self.worker_recv_neighbors, job_id);
        proof {
            assert(neighbor_views(self.worker_send_neighbors@) =~= without_job(
                neighbor_views(old(self).worker_send_neighbors@),
                job_id,
            ));
            assert(neighbor_views(self.worker_recv_neighbors@) =~= without_job(
                neighbor_views(old(self).worker_recv_neighbors@),
                job_id,
            ));
        }
    }

    /// Starts the send progress of the workers of a job afresh.
    pub fn reset_progress(&mut self, job_id: JobId, workers: &DHashMap<WorkerId, MLWorker>)
        ensures
            final(self).worker_send_progress@ == with_job(
                without_job(old(self).worker_send_progress@, job_id),
                job_id,
                workers@.map_values(|w: MLWorker| (0u64, iteration_bytes(w))),
            ),
            *final(self) == (MLContext { worker_send_progress: final(self).worker_send_progress, ..*old(self) }),
    {
        remove_job_entries(&mut self.worker_send_progress, job_id);
        let ids = workers.keys();
        let ghost m0 = self.worker_send_progress@;
        let ghost vals = workers@.map_values(|w: MLWorker| (0u64, iteration_bytes(w)));
        let mut i: usize = 0;
        proof {
            assert(ids@.take(0).to_set() =~= Set::empty());
            assert(m0 =~= with_job(m0, job_id, vals.restrict(Set::empty())));
        }
        while i < ids.len()
            invariant
                i <= ids.len(),
                ids@.to_set() == workers@.dom(),
                vals == workers@.map_values(|w: MLWorker| (0u64, iteration_bytes(w))),
                self.worker_send_progress@ == with_job(m0, job_id, vals.restrict(ids@.take(i as int).to_set())),
                *self == (MLContext { worker_send_progress: self.worker_send_progress, ..*old(self) }),
            decreases ids.len() - i,
        {
            let id: usize = ids[i];
            proof {
                assert(ids@.to_set().contains(id));
                assert(ids@.take(i + 1) =~= ids@.take(i as int).push(id));
                crate::utils::data::lemma_push_to_set(ids@.take(i as int), id);
            }
            let total: u64 = compute_iteration_bytes(workers.get(&id).unwrap());
            let ghost m1 = self.worker_send_progress@;
            self.worker_send_progress.insert((job_id, id), (0u64, total));
            proof {
                let done = ids@.take(i + 1).to_set();
                assert(with_job(m0, job_id, vals.restrict(done)) =~= m1.insert((job_id, id), (0u64, total)));
            }
            i += 1;
        }
        proof {
            assert(ids@.take(ids@.len() as int) =~= ids@);
            assert(vals.restrict(ids@.to_set()) =~= vals);
        }
    }

    /// Counts completed flows from zero for every active job.
    pub fn reset_completions(&mut self, active: &DHashSet<JobId>)
        ensures
            final(self).flow_completions_per_job@ == Map::new(|j: JobId| active@.contains(j), |j: JobId| 0u64),
            *final(self) == (MLContext {
                flow_completions_per_job: final(self).flow_completions_per_job,
                ..*old(self)
            }),
    {
        let ids = active.elements();
        let mut m: DHashMap<JobId, u64> = DHashMap::new();
        let mut i: usize = 0;
        while i < ids.len()
            invariant
                i <= ids.len(),
                ids@.to_set() == active@,
                forall|j: JobId| #[trigger] m@.contains_key(j) ==> active@.contains(j) && m@[j] == 0,
                forall|k: int| 0 <= k < i ==> m@.contains_key(#[trigger] ids@[k]),
            decreases ids.len() - i,
        {
            proof {
                assert(ids@.to_set().contains(ids@[i as int]));
            }
            m.insert(ids[i], 0);
            i += 1;
        }
        proof {
            assert forall|j: JobId| active@.contains(j) implies #[trigger] m@.contains_key(j) by {
                assert(ids@.to_set().contains(j));
                let k = choose|k: int| 0 <= k < ids@.len() && ids@[k] == j;
            }
            assert(m@ =~= Map::new(|j: JobId| active@.contains(j), |j: JobId| 0u64));
        }
        self.flow_completions_per_job = m;
    }
}

} // verus!
