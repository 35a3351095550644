//! The state of a simulation, and the steps on it that involve neither the network nor a scheduler.

use vstd::multiset::Multiset;
use vstd::prelude::*;

use crate::simulator::context::{
    drop_job_hosts, job_snapshot, lemma_set_at, make_active_job_snapshot, neighbor_views, placement_views,
    put_placement, receive_neighbors, send_neighbors, set_at, snapshot_views, with_job, without_job, MLContext,
};
use crate::simulator::event_queue::{EventQueue, MLEvent, MLEventKind};
use crate::simulator::ml_job::{
    ascending, lemma_ascending, lemma_wrapped_next, placed_hosts, workers_finished, wrapped,
    JobState, MLJob,
};
use crate::simulator::ml_worker::{
    fresh_iteration, ready_info, start_ready, EventView, FlowId, JobId, MLWorker, ReadyEventInfo, WorkerEventKind,
    WorkerId, WorkerNotifyResult,
};
use crate::simulator::ranks::{
    fills_stages, has_rank, hosts_distinct, is_placed_job, job_renamed, job_renaming, lemma_rank_valid_in_range,
    lemma_rank_valid_kept, lemma_ranks_ascend, lemma_ranks_settled, lemma_ranks_stand, lemma_renamed_events, lemma_renamed_ids,
    rank_valid, reassign_job_ranks, receives_in_ring, receives_in_ring_at, reranked, retarget_event, retargeted, sends_in_ring,
    sends_in_ring_at,
};
use crate::simulator::system::{MigrationPlan, PendingJobMigration, WorkerMigrationInfo};
use crate::utils::data::{strictly_ascending, DHashMap, DHashSet};

verus! {

/// The state of a simulation.
pub struct SimState {
    pub now_us: u64,
    pub context: MLContext,
    /// The next identifier for a worker event.
    pub next_event_id: usize,
    pub jobs: DHashMap<JobId, MLJob>,
    pub event_queue: EventQueue,
    pub host_busy: Vec<bool>,
    /// Job on each host.
    pub host_assignment: Vec<Option<JobId>>,
    pub active_jobs: DHashSet<JobId>,
    /// The last computation that each worker started, and when it completes.
    pub running_compute: DHashMap<(JobId, WorkerId), (usize, u64)>,
    /// Sends that wait for their receive: job, sender, receiver to event.
    pub pending_sends: DHashMap<(JobId, WorkerId, WorkerId), usize>,
    /// Receives that wait for their send: job, sender, receiver to event.
    pub pending_receives: DHashMap<(JobId, WorkerId, WorkerId), usize>,
    pub flow_to_job: DHashMap<FlowId, JobId>,
    /// A reconfiguration is in the event queue.
    pub reconfigure_requested: bool,
    /// A reconfiguration waits for the end of a migration.
    pub reconfigure_deferred_for_migration: bool,
    /// The iteration of each job, and the workers that have completed it.
    pub worker_iter_barrier: DHashMap<JobId, (usize, DHashSet<WorkerId>)>,
    /// The earliest poll of the flow scheduler in the event queue.
    pub next_poll_scheduled: Option<u64>,
    pub migrating: bool,
    pub pending_migration: Option<MigrationPlan>,
    pub migration_complete_enqueued: bool,
    pub active_migration_flows: DHashMap<FlowId, WorkerMigrationInfo>,
    /// Jobs that are paused because their workers move.
    pub jobs_migrating: DHashSet<JobId>,
    pub migration_flows_by_job: DHashMap<JobId, DHashSet<FlowId>>,
    pub pending_job_migrations: DHashMap<JobId, PendingJobMigration>,
    /// Jobs that wait for a job to reach its barrier.
    pub migration_dependents: DHashMap<JobId, DHashSet<JobId>>,
    /// Delay before a migrated job resumes.
    pub post_migration_delay_us: u64,
}

/// The event graphs of a job are complete, and its ranks can be computed.
pub open spec fn job_ok(job: &MLJob) -> bool {
    &&& rank_valid(job)
    &&& forall|w: WorkerId| #[trigger] job.workers@.contains_key(w) ==> job.workers@[w].templates_closed()
}

/// Every job is in order.
pub open spec fn jobs_ok(jobs: Map<JobId, MLJob>) -> bool {
    forall|j: JobId| #[trigger] jobs.contains_key(j) ==> job_ok(&jobs[j])
}

/// A host is busy if and only if it belongs to a job.
pub open spec fn busy_if_assigned(busy: Seq<bool>, assignment: Seq<Option<JobId>>) -> bool {
    forall|h: int| 0 <= h < busy.len() ==> #[trigger] busy[h] == (assignment[h] is Some)
}

/// Hosts that are freed, or given to a job, in both tables leave the tables in agreement.
pub proof fn lemma_set_both(busy: Seq<bool>, assignment: Seq<Option<JobId>>, at: Seq<usize>, owner: Option<JobId>, n: nat)
    requires
        busy.len() == assignment.len(),
        busy_if_assigned(busy, assignment),
        n <= at.len(),
    ensures
        busy_if_assigned(set_at(busy, at, owner is Some, n), set_at(assignment, at, owner, n)),
{
    lemma_set_at(busy, at, owner is Some, n);
    lemma_set_at(assignment, at, owner, n);
    assert forall|h: int| 0 <= h < busy.len() implies #[trigger] set_at(busy, at, owner is Some, n)[h] == (set_at(
        assignment,
        at,
        owner,
        n,
    )[h] is Some) by {
        assert(busy[h] == (assignment[h] is Some));
    }
}

impl SimState {
    /// The tables of hosts agree, a host is busy if and only if it belongs to a job, and every job is in
    /// order.
    pub open spec fn wf(&self) -> bool {
        &&& self.host_busy@.len() == self.host_assignment@.len()
        &&& busy_if_assigned(self.host_busy@, self.host_assignment@)
        &&& self.host_busy@.len() == self.context.host_to_worker@.len()
        &&& jobs_ok(self.jobs@)
    }

    /// Nothing has happened yet: no jobs, no events, all hosts free, no delay after migrations.
    pub open spec fn is_initial(&self, num_hosts: usize) -> bool {
        &&& self.now_us == 0
        &&& self.next_event_id == 0
        &&& self.jobs@ == Map::<JobId, MLJob>::empty()
        &&& self.event_queue@ == Multiset::<MLEvent>::empty()
        &&& self.host_busy@ == Seq::new(num_hosts as nat, |i: int| false)
        &&& self.host_assignment@ == Seq::new(num_hosts as nat, |i: int| None::<JobId>)
        &&& self.context.is_initial(num_hosts)
        &&& self.active_jobs@ == Set::<JobId>::empty()
        &&& self.running_compute@.dom() == Set::<(JobId, WorkerId)>::empty()
        &&& self.pending_sends@.dom() == Set::<(JobId, WorkerId, WorkerId)>::empty()
        &&& self.pending_receives@.dom() == Set::<(JobId, WorkerId, WorkerId)>::empty()
        &&& self.flow_to_job@.dom() == Set::<FlowId>::empty()
        &&& !self.reconfigure_requested
        &&& !self.reconfigure_deferred_for_migration
        &&& self.worker_iter_barrier@.dom() == Set::<JobId>::empty()
        &&& self.next_poll_scheduled is None
        &&& !self.migrating
        &&& self.pending_migration is None
        &&& !self.migration_complete_enqueued
        &&& self.active_migration_flows@.dom() == Set::<FlowId>::empty()
        &&& self.jobs_migrating@ == Set::<JobId>::empty()
        &&& self.migration_flows_by_job@.dom() == Set::<JobId>::empty()
        &&& self.pending_job_migrations@.dom() == Set::<JobId>::empty()
        &&& self.migration_dependents@.dom() == Set::<JobId>::empty()
        &&& self.post_migration_delay_us == 0
    }

    /// An idle cluster.
    pub fn new(num_hosts: usize) -> (r: Self)
        ensures
            r.wf(),
            r.is_initial(num_hosts),
    {
        let mut host_busy: Vec<bool> = Vec::new();
        let mut host_assignment: Vec<Option<JobId>> = Vec::new();
        let mut i: usize = 0;
        while i < num_hosts
            invariant
                i <= num_hosts,
                host_busy@ == Seq::new(i as nat, |i: int| false),
                host_assignment@ == Seq::new(i as nat, |i: int| None::<JobId>),
            decreases num_hosts - i,
        {
            host_busy.push(false);
            host_assignment.push(None);
            proof {
                assert(host_busy@ =~= Seq::new(i as nat + 1, |i: int| false));
                assert(host_assignment@ =~= Seq::new(i as nat + 1, |i: int| None::<JobId>));
            }
            i += 1;
        }
        SimState {
            now_us: 0,
            context: MLContext::new(num_hosts),
            next_event_id: 0,
            jobs: DHashMap::new(),
            event_queue: EventQueue::new(),
            host_busy,
            host_assignment,
            active_jobs: DHashSet::new(),
            running_compute: DHashMap::new(),
            pending_sends: DHashMap::new(),
            pending_receives: DHashMap::new(),
            flow_to_job: DHashMap::new(),
            reconfigure_requested: false,
            reconfigure_deferred_for_migration: false,
            worker_iter_barrier: DHashMap::new(),
            next_poll_scheduled: None,
            migrating: false,
            pending_migration: None,
            migration_complete_enqueued: false,
            active_migration_flows: DHashMap::new(),
            jobs_migrating: DHashSet::new(),
            migration_flows_by_job: DHashMap::new(),
            pending_job_migrations: DHashMap::new(),
            migration_dependents: DHashMap::new(),
            post_migration_delay_us: 0,
        }
    }
}

/// Writes `v` at the listed positions, as far as they exist.
pub fn write_at<T: Copy>(s: &mut Vec<T>, at: &Vec<usize>, v: T)
    ensures
        final(s)@ == set_at(old(s)@, at@, v, at@.len()),
        final(s)@.len() == old(s)@.len(),
{
    let mut i: usize = 0;
    while i < at.len()
        invariant
            i <= at.len(),
            s@ == set_at(old(s)@, at@, v, i as nat),
            s@.len() == old(s)@.len(),
        decreases at.len() - i,
    {
        if at[i] < s.len() {
            s.set(at[i], v);
        }
        i += 1;
    }
}

/// A job that starts to run.
pub open spec fn running_job(job: MLJob, now_us: u64) -> MLJob {
    MLJob { state: JobState::Running, schedule_time_us: Some(now_us), start_time_us: Some(now_us), ..job }
}

/// The context once a placed job runs.
pub open spec fn context_admits(before: &MLContext, after: &MLContext, job_id: JobId, job: &MLJob) -> bool {
    &&& snapshot_views(after.active_jobs@) == snapshot_views(before.active_jobs@).insert(job_id, job_snapshot(job))
    &&& after.job_iterations@ == before.job_iterations@.insert(job_id, (job.total_iterations, 0usize))
    &&& placement_views(after.placements@) == placement_views(before.placements@).insert(job_id, job.worker_to_host@)
    &&& after.host_to_worker@ == put_placement(before.host_to_worker@, job_id, job.worker_to_host@)
    &&& neighbor_views(after.worker_send_neighbors@) == with_job(
        neighbor_views(before.worker_send_neighbors@),
        job_id,
        job.workers@.map_values(|w: MLWorker| send_neighbors(w)),
    )
    &&& neighbor_views(after.worker_recv_neighbors@) == with_job(
        neighbor_views(before.worker_recv_neighbors@),
        job_id,
        job.workers@.map_values(|w: MLWorker| receive_neighbors(w)),
    )
    &&& *after == (MLContext {
        active_jobs: after.active_jobs,
        job_iterations: after.job_iterations,
        placements: after.placements,
        host_to_worker: after.host_to_worker,
        worker_send_neighbors: after.worker_send_neighbors,
        worker_recv_neighbors: after.worker_recv_neighbors,
        ..*before
    })
}

/// The context once the ranks of a job have changed.
pub open spec fn context_reranks(before: &MLContext, after: &MLContext, job_id: JobId, job: &MLJob) -> bool {
    &&& placement_views(after.placements@) == placement_views(before.placements@).insert(job_id, job.worker_to_host@)
    &&& after.host_to_worker@ == put_placement(
        drop_job_hosts(before.host_to_worker@, job_id),
        job_id,
        job.worker_to_host@,
    )
    &&& neighbor_views(after.worker_send_neighbors@) == with_job(
        without_job(neighbor_views(before.worker_send_neighbors@), job_id),
        job_id,
        job.workers@.map_values(|w: MLWorker| send_neighbors(w)),
    )
    &&& neighbor_views(after.worker_recv_neighbors@) == with_job(
        without_job(neighbor_views(before.worker_recv_neighbors@), job_id),
        job_id,
        job.workers@.map_values(|w: MLWorker| receive_neighbors(w)),
    )
    &&& *after == (MLContext {
        placements: after.placements,
        host_to_worker: after.host_to_worker,
        worker_send_neighbors: after.worker_send_neighbors,
        worker_recv_neighbors: after.worker_recv_neighbors,
        ..*before
    })
}

/// Every host of the placement exists.
pub open spec fn hosts_exist(hosts: Map<WorkerId, usize>, n: nat) -> bool {
    forall|w: WorkerId| #[trigger] hosts.contains_key(w) ==> hosts[w] < n
}

/// A job in rank order is in order.
proof fn lemma_reranked_ok(before: &MLJob, after: &MLJob)
    requires
        job_ok(before),
        before.workers@.dom().finite(),
        reranked(before, after),
    ensures
        job_ok(after),
{
    let mid = job_renamed(before);
    let ws = before.workers@;
    assert forall|k: WorkerId| #[trigger] after.workers@.contains_key(k) implies after.workers@[k].templates_closed() && (
    match before.pipeline_stages {
        Some(info) => k + info.workers_per_stage <= usize::MAX,
        None => ws.contains_key(k),
    }) by {
        assert(mid.contains_key(k));
        lemma_renamed_ids(before, k);
        let w = mid[k];
        let layout = crate::simulator::ranks::job_layout(before.num_workers, before.ring_count, before.pipeline_stages);
        assert(retargeted(layout, job_renaming(before), k, w, after.workers@[k]));
        assert(w.templates_closed()) by {
            if exists|o: WorkerId| crate::simulator::ranks::moves(before.workers@, job_renaming(before), o, k) {
                let o = choose|o: WorkerId| crate::simulator::ranks::moves(before.workers@, job_renaming(before), o, k);
                assert(before.workers@.contains_key(o));
                assert(before.workers@[o].templates_closed());
                assert(w.templates() == before.workers@[o].templates());
            } else {
                assert(before.workers@.contains_key(k));
            }
        }
        let t0 = w.templates();
        let t1 = after.workers@[k].templates();
        assert forall|i: int, d: int| 0 <= i < t1.len() && 0 <= d < t1[i].dependencies.len() implies exists|j: int|
            0 <= j < t1.len() && t1[j].id == #[trigger] t1[i].dependencies[d] by {
            assert(t1[i] == retarget_event(layout, job_renaming(before), k, t0[i]));
            assert(t0[i].dependencies[d] == t1[i].dependencies[d]);
            let j = choose|j: int| 0 <= j < t0.len() && t0[j].id == t0[i].dependencies[d];
            assert(t1[j] == retarget_event(layout, job_renaming(before), k, t0[j]));
        }
    }
    if before.pipeline_stages is None {
        vstd::set_lib::lemma_len_subset(after.workers@.dom(), ws.dom());
    }
    if sends_in_ring(after.workers@) {
        let (k, i) = choose|k: WorkerId, i: int| #[trigger] sends_in_ring_at(after.workers@, k, i);
        let o = lemma_renamed_events(before, k);
        assert(mid.contains_key(k));
        assert(sends_in_ring_at(ws, o, i));
    }
    if receives_in_ring(after.workers@) {
        let (k, i) = choose|k: WorkerId, i: int| #[trigger] receives_in_ring_at(after.workers@, k, i);
        let o = lemma_renamed_events(before, k);
        assert(mid.contains_key(k));
        assert(receives_in_ring_at(ws, o, i));
    }
}

/// A placed job has taken its hosts and runs.
pub open spec fn admitted(before: &SimState, after: &SimState, job_id: JobId) -> bool {
    &&& after.jobs@ == before.jobs@.insert(
        job_id,
        running_job(before.jobs@[job_id], before.now_us),
    )
    &&& ({
        let hosts = placed_hosts(before.jobs@[job_id].worker_to_host@);
        &&& after.host_busy@ == set_at(before.host_busy@, hosts, true, hosts.len())
        &&& after.host_assignment@ == set_at(
            before.host_assignment@,
            hosts,
            Some(job_id),
            hosts.len(),
        )
    })
    &&& after.active_jobs@ == before.active_jobs@.insert(job_id)
    &&& context_admits(&before.context, &after.context, job_id, &after.jobs@[job_id])
    &&& *after == (SimState {
        jobs: after.jobs,
        host_busy: after.host_busy,
        host_assignment: after.host_assignment,
        active_jobs: after.active_jobs,
        context: after.context,
        ..*before
    })
}

/// The placement of a job calls for other ranks.
pub open spec fn needs_ranks(s: &SimState, job_id: JobId) -> bool {
    s.jobs@.contains_key(job_id) && job_renaming(&s.jobs@[job_id]) != Map::<WorkerId, WorkerId>::empty()
}

/// The ranks of a job are in host order, and the context shows it.
pub open spec fn ranks_followed(before: &SimState, after: &SimState, job_id: JobId) -> bool {
    &&& !needs_ranks(before, job_id) ==> after.jobs@ == before.jobs@ && after.context == before.context
    &&& needs_ranks(before, job_id) ==> {
        &&& after.jobs@.dom() == before.jobs@.dom()
        &&& forall|j: JobId|
            j != job_id && before.jobs@.contains_key(j) ==> #[trigger] after.jobs@[j]
                == before.jobs@[j]
        &&& reranked(&before.jobs@[job_id], &after.jobs@[job_id])
        &&& context_reranks(&before.context, &after.context, job_id, &after.jobs@[job_id])
    }
    &&& *after == (SimState { jobs: after.jobs, context: after.context, ..*before })
}

/// Once the ranks of a job follow its hosts, the workers of a segment stand on its hosts from left to right,
/// whether the job needed other ranks or not; on different hosts, if no two workers share one.
pub proof fn lemma_ranks_follow_hosts(before: &SimState, after: &SimState, job_id: JobId, a: WorkerId, b: WorkerId)
    requires
        before.jobs@.contains_key(job_id),
        is_placed_job(&before.jobs@[job_id]),
        rank_valid(&before.jobs@[job_id]),
        forall|w: WorkerId| #[trigger]
            before.jobs@[job_id].workers@.contains_key(w) ==> has_rank(&before.jobs@[job_id], w),
        ranks_followed(before, after, job_id),
        after.jobs@[job_id].workers@.contains_key(a),
        after.jobs@[job_id].workers@.contains_key(b),
        has_rank(&before.jobs@[job_id], a),
        has_rank(&before.jobs@[job_id], b),
        before.jobs@[job_id].pipeline_stages matches Some(info) ==> a / info.workers_per_stage == b / info.workers_per_stage,
        a < b,
    ensures
        after.jobs@[job_id].workers@[a].host_index <= after.jobs@[job_id].workers@[b].host_index,
        after.jobs@[job_id].worker_to_host@[a] <= after.jobs@[job_id].worker_to_host@[b],
        hosts_distinct(&before.jobs@[job_id]) ==> after.jobs@[job_id].worker_to_host@[a]
            < after.jobs@[job_id].worker_to_host@[b],
{
    if needs_ranks(before, job_id) {
        lemma_ranks_ascend(&before.jobs@[job_id], &after.jobs@[job_id], a, b);
    } else {
        lemma_ranks_stand(&before.jobs@[job_id], a, b);
    }
}

/// Putting the ranks of a job in host order a second time changes nothing.
pub proof fn lemma_ranks_twice(before: &SimState, once: &SimState, twice: &SimState, job_id: JobId)
    requires
        before.jobs@.contains_key(job_id) ==> {
            let job = before.jobs@[job_id];
            is_placed_job(&job) && rank_valid(&job) && fills_stages(&job)
        },
        ranks_followed(before, once, job_id),
        ranks_followed(once, twice, job_id),
    ensures
        twice.jobs@ == once.jobs@,
        twice.context == once.context,
        *twice == (SimState { jobs: twice.jobs, ..*once }),
{
    if needs_ranks(before, job_id) {
        lemma_ranks_settled(&before.jobs@[job_id], &once.jobs@[job_id]);
    }
    assert(!needs_ranks(once, job_id));
}

impl SimState {
    /// A placed job takes its hosts and runs.
    pub fn admit_job(&mut self, job_id: JobId)
        requires
            old(self).wf(),
            old(self).jobs@.contains_key(job_id),
        ensures
            final(self).wf(),
            admitted(old(self), final(self), job_id),
    {
        let mut job = self.jobs.remove(&job_id).unwrap();
        job.mark_scheduled(self.now_us);
        let hosts = job.get_assigned_hosts();
        write_at(&mut self.host_busy, &hosts, true);
        write_at(&mut self.host_assignment, &hosts, Some(job_id));
        job.mark_running(self.now_us);
        self.active_jobs.insert(job_id);
        let snapshot = make_active_job_snapshot(&job);
        self.context.active_jobs.insert(job_id, snapshot);
        self.context.job_iterations.insert(job_id, (job.total_iterations, 0));
        self.context.set_placement(job_id, &job.worker_to_host);
        self.context.put_on_hosts(job_id, &job.worker_to_host);
        self.context.add_neighbors(job_id, &job.workers);
        self.jobs.insert(job_id, job);
        proof {
            lemma_set_both(old(self).host_busy@, old(self).host_assignment@, hosts@, Some(job_id), hosts@.len());
            assert(self.jobs@ =~= old(self).jobs@.insert(job_id, running_job(old(self).jobs@[job_id], old(self).now_us)));
            assert(snapshot_views(self.context.active_jobs@) =~= snapshot_views(old(self).context.active_jobs@).insert(
                job_id,
                job_snapshot(&job),
            ));
        }
    }

    /// Puts the ranks of a job in host order and shows the result in the context.
    pub fn reassign_ranks_after_migration(&mut self, job_id: JobId) -> (changed: bool)
        requires
            old(self).wf(),
        ensures
            final(self).wf(),
            changed == needs_ranks(old(self), job_id),
            ranks_followed(old(self), final(self), job_id),
    {
        match self.jobs.remove(&job_id) {
            Some(job) => {
                let mut job = job;
                let ghost before = job;
                let _workers: usize = job.workers.len();
                proof {
                    lemma_rank_valid_in_range(&job);
                }
                let changed = reassign_job_ranks(&mut job);
                if changed {
                    proof {
                        lemma_reranked_ok(&before, &job);
                    }
                    self.context.set_placement(job_id, &job.worker_to_host);
                    self.context.clear_job_hosts(job_id);
                    self.context.put_on_hosts(job_id, &job.worker_to_host);
                    self.context.drop_neighbors(job_id);
                    self.context.add_neighbors(job_id, &job.workers);
                }
                self.jobs.insert(job_id, job);
                proof {
                    if !changed {
                        assert(self.jobs@ =~= old(self).jobs@);
                    } else {
                        assert(self.jobs@.dom() =~= old(self).jobs@.dom());
                    }
                }
                changed
            },
            None => {
                proof {
                    assert(self.jobs@ =~= old(self).jobs@);
                }
                false
            },
        }
    }
}

/// `count` consecutive event identifiers.
pub open spec fn event_ids(base: nat, count: nat) -> Seq<usize> {
    Seq::new(count, |i: int| wrapped((base + i) as nat))
}

/// A worker takes part in a round of iteration starts: in the first all do, later those that have
/// iterations left.
pub open spec fn takes_part(w: MLWorker, initial: bool) -> bool {
    initial || w.current_iteration < w.total_iterations
}

/// A worker that takes part starts an iteration: the first only if there is one.
pub open spec fn starts(w: MLWorker, initial: bool) -> bool {
    if initial {
        w.total_iterations > 0
    } else {
        w.current_iteration < w.total_iterations
    }
}

/// Event identifiers that the first `n` workers take.
pub open spec fn ids_taken(workers: Map<WorkerId, MLWorker>, ids: Seq<WorkerId>, initial: bool, n: nat) -> nat
    decreases n,
{
    if n == 0 {
        0
    } else {
        let w = workers[ids[n - 1]];
        ids_taken(workers, ids, initial, (n - 1) as nat) + if takes_part(w, initial) {
            w.template_events@.len()
        } else {
            0
        }
    }
}

/// `after` is `before` at the start of an iteration.
pub open spec fn iteration_started(before: MLWorker, after: MLWorker, ids: Seq<usize>, now_us: u64) -> bool {
    &&& after.same_but_iteration(&before)
    &&& after.current_iteration == before.current_iteration
    &&& after.iter() == fresh_iteration(before.templates(), ids)
    &&& after.last_iteration_start_time_us == Some(now_us)
}

/// The workers after a round of iteration starts, with event identifiers from `base` in worker
/// order.
pub open spec fn round_started(
    before: Map<WorkerId, MLWorker>,
    after: Map<WorkerId, MLWorker>,
    initial: bool,
    base: nat,
    now_us: u64,
) -> bool {
    let ids = ascending(before.dom());
    &&& after.dom() == before.dom()
    &&& forall|i: int|
        0 <= i < ids.len() ==> if starts(before[#[trigger] ids[i]], initial) {
            iteration_started(
                before[ids[i]],
                after[ids[i]],
                event_ids(
                    base + ids_taken(before, ids, initial, i as nat),
                    before[ids[i]].template_events@.len(),
                ),
                now_us,
            )
        } else {
            after[ids[i]] == before[ids[i]]
        }
}

/// `m` after the entry of a job has become `job`.
pub open spec fn job_changed(before: Map<JobId, MLJob>, after: Map<JobId, MLJob>, job_id: JobId) -> bool {
    &&& before.contains_key(job_id)
    &&& after == before.insert(job_id, after[job_id])
}

/// A round of iterations of a job has started, with fresh event identifiers.
pub open spec fn iterations_begun(before: &SimState, after: &SimState, job_id: JobId, initial: bool) -> bool {
    &&& job_changed(before.jobs@, after.jobs@, job_id)
    &&& round_started(
        before.jobs@[job_id].workers@,
        after.jobs@[job_id].workers@,
        initial,
        before.next_event_id as nat,
        before.now_us,
    )
    &&& after.jobs@[job_id] == (MLJob {
        workers: after.jobs@[job_id].workers,
        ..before.jobs@[job_id]
    })
    &&& ({
        let workers = before.jobs@[job_id].workers@;
        let ids = ascending(workers.dom());
        after.next_event_id == wrapped(
            before.next_event_id as nat + ids_taken(workers, ids, initial, ids.len()),
        )
    })
    &&& *after == (SimState {
        jobs: after.jobs,
        next_event_id: after.next_event_id,
        ..*before
    })
}

impl SimState {
    /// The next event identifier.
    pub fn take_event_id(&mut self) -> (r: usize)
        ensures
            r == old(self).next_event_id,
            final(self).next_event_id == wrapped(old(self).next_event_id as nat + 1),
            *final(self) == (SimState { next_event_id: final(self).next_event_id, ..*old(self) }),
    {
        let id: usize = self.next_event_id;
        proof {
            lemma_wrapped_next(id as nat);
            vstd::arithmetic::div_mod::lemma_small_mod(id as nat, usize::MAX as nat + 1);
        }
        self.next_event_id = id.wrapping_add(1);
        id
    }

    /// The next `count` event identifiers.
    pub fn next_event_ids(&mut self, count: usize) -> (r: Vec<usize>)
        ensures
            r@ == event_ids(old(self).next_event_id as nat, count as nat),
            final(self).next_event_id == wrapped(old(self).next_event_id as nat + count as nat),
            *final(self) == (SimState { next_event_id: final(self).next_event_id, ..*old(self) }),
    {
        let ghost base = self.next_event_id as nat;
        let mut ids: Vec<usize> = Vec::new();
        let mut i: usize = 0;
        proof {
            vstd::arithmetic::div_mod::lemma_small_mod(base, usize::MAX as nat + 1);
        }
        while i < count
            invariant
                i <= count,
                ids@ == event_ids(base, i as nat),
                self.next_event_id == wrapped(base + i as nat),
                *self == (SimState { next_event_id: self.next_event_id, ..*old(self) }),
            decreases count - i,
        {
            proof {
                lemma_wrapped_wrapped(base + i as nat);
            }
            let id: usize = self.take_event_id();
            ids.push(id);
            proof {
                assert(ids@ =~= event_ids(base, i as nat + 1));
            }
            i += 1;
        }
        ids
    }

    /// Starts a round of iterations of a job: each worker that takes part gets fresh event
    /// identifiers.
    pub fn begin_iterations(&mut self, job_id: JobId, initial: bool)
        requires
            old(self).wf(),
            old(self).jobs@.contains_key(job_id),
        ensures
            final(self).wf(),
            iterations_begun(old(self), final(self), job_id, initial),
    {
        let mut job = self.jobs.remove(&job_id).unwrap();
        let ghost job0 = job;
        let ghost w0 = job.workers@;
        let ghost base = self.next_event_id as nat;
        let ids = job.workers.sorted_keys();
        proof {
            lemma_ascending(ids@, w0.dom());
            vstd::arithmetic::div_mod::lemma_small_mod(base, usize::MAX as nat + 1);
        }
        let now: u64 = self.now_us;
        let mut i: usize = 0;
        while i < ids.len()
            invariant
                i <= ids.len(),
                ids@ == ascending(w0.dom()),
                strictly_ascending(ids@),
                ids@.to_set() == w0.dom(),
                job.workers@.dom() == w0.dom(),
                now == old(self).now_us,
                base == old(self).next_event_id,
                self.next_event_id == wrapped(base + ids_taken(w0, ids@, initial, i as nat)),
                forall|w: WorkerId| #[trigger] w0.contains_key(w) ==> w0[w].templates_closed(),
                forall|k: int|
                    0 <= k < i ==> if starts(w0[#[trigger] ids@[k]], initial) {
                        iteration_started(
                            w0[ids@[k]],
                            job.workers@[ids@[k]],
                            event_ids(
                                base + ids_taken(w0, ids@, initial, k as nat),
                                w0[ids@[k]].template_events@.len(),
                            ),
                            now,
                        )
                    } else {
                        job.workers@[ids@[k]] == w0[ids@[k]]
                    },
                forall|k: int| i <= k < ids@.len() ==> job.workers@[#[trigger] ids@[k]] == w0[ids@[k]],
                job == (MLJob { workers: job.workers, ..job0 }),
                *self == (SimState { jobs: self.jobs, next_event_id: self.next_event_id, ..*old(self) }),
                self.jobs@ == old(self).jobs@.remove(job_id),
            decreases ids.len() - i,
        {
            let id: usize = ids[i];
            let ghost ws = job.workers@;
            proof {
                assert(ids@.to_set().contains(id));
            }
            let mut worker = job.workers.remove(&id).unwrap();
            let ghost wk = worker;
            if initial || worker.current_iteration < worker.total_iterations {
                let ghost taken = ids_taken(w0, ids@, initial, i as nat);
                let count: usize = worker.template_events.len();
                let batch = self.next_event_ids(count);
                proof {
                    lemma_event_ids_wrapped(base + taken, count as nat);
                    assert(batch@ == event_ids(base + taken, count as nat));
                }
                if initial {
                    worker.start(batch, now);
                } else {
                    worker.start_next_iteration(batch, now);
                }
            }
            job.workers.insert(id, worker);
            proof {
                assert(job.workers@.dom() =~= w0.dom());
                assert forall|k: int| 0 <= k < i + 1 implies if starts(w0[#[trigger] ids@[k]], initial) {
                    iteration_started(
                        w0[ids@[k]],
                        job.workers@[ids@[k]],
                        event_ids(base + ids_taken(w0, ids@, initial, k as nat), w0[ids@[k]].template_events@.len()),
                        now,
                    )
                } else {
                    job.workers@[ids@[k]] == w0[ids@[k]]
                } by {
                    if k < i {
                        assert(ids@[k] != id);
                        assert(job.workers@[ids@[k]] == ws[ids@[k]]);
                    } else {
                        assert(job.workers@[id] == worker);
                    }
                }
                assert forall|k: int| i + 1 <= k < ids@.len() implies job.workers@[#[trigger] ids@[k]] == w0[ids@[k]] by {
                    assert(ids@[k] != id);
                }
            }
            i += 1;
        }
        proof {
            assert forall|w: WorkerId| #[trigger] job.workers@.contains_key(w) implies job.workers@[w].templates_closed() by {
                assert(ids@.to_set().contains(w));
                let k = choose|k: int| 0 <= k < ids@.len() && ids@[k] == w;
                assert(w0.contains_key(ids@[k]));
                assert(job.workers@[ids@[k]].templates() == w0[ids@[k]].templates());
            }
            assert forall|w: WorkerId| #[trigger] job.workers@.contains_key(w) implies job.workers@[w].templates()
                == w0[w].templates() by {
                assert(ids@.to_set().contains(w));
                let k = choose|k: int| 0 <= k < ids@.len() && ids@[k] == w;
                assert(job.workers@[ids@[k]].templates() == w0[ids@[k]].templates());
            }
            lemma_rank_valid_kept(&job0, &job);
        }
        self.jobs.insert(job_id, job);
        proof {
            assert(self.jobs@ =~= old(self).jobs@.insert(job_id, job));
        }
    }
}

/// Counting on from a machine integer is counting on from what it stands for.
proof fn lemma_wrapped_wrapped(n: nat)
    ensures
        wrapped(wrapped(n) as nat + 1) == wrapped(n + 1),
{
    lemma_wrapped_next(n);
    lemma_wrapped_next(wrapped(n) as nat);
    vstd::arithmetic::div_mod::lemma_mod_bound(n as int, usize::MAX as int + 1);
    vstd::arithmetic::div_mod::lemma_small_mod(wrapped(n) as nat, usize::MAX as nat + 1);
}

proof fn lemma_wrapped_add(n: nat, m: nat)
    ensures
        wrapped(wrapped(n) as nat + m) == wrapped(n + m),
{
    let k = usize::MAX as int + 1;
    vstd::arithmetic::div_mod::lemma_mod_bound(n as int, k);
    vstd::arithmetic::div_mod::lemma_add_mod_noop_right(m as int, n as int, k);
}

proof fn lemma_event_ids_wrapped(base: nat, count: nat)
    ensures
        event_ids(wrapped(base) as nat, count) == event_ids(base, count),
        wrapped(wrapped(base) as nat + count) == wrapped(base + count),
{
    assert forall|i: int| 0 <= i < count implies event_ids(wrapped(base) as nat, count)[i] == event_ids(base, count)[i] by {
        lemma_wrapped_add(base, i as nat);
    }
    assert(event_ids(wrapped(base) as nat, count) =~= event_ids(base, count));
    lemma_wrapped_add(base, count);
}

/// Event identifiers that are handed out before the counter runs over are distinct.
pub proof fn lemma_event_ids_unique(base: nat, count: nat)
    requires
        base + count <= usize::MAX + 1,
    ensures
        event_ids(base, count).no_duplicates(),
        forall|i: int| 0 <= i < count ==> #[trigger] event_ids(base, count)[i] == base + i,
{
    assert forall|i: int| 0 <= i < count implies #[trigger] event_ids(base, count)[i] == base + i by {
        vstd::arithmetic::div_mod::lemma_small_mod((base + i) as nat, usize::MAX as nat + 1);
    }
}

/// The values of a table of barriers.
pub open spec fn barrier_views(m: Map<JobId, (usize, DHashSet<WorkerId>)>) -> Map<JobId, (usize, Set<WorkerId>)> {
    m.map_values(|b: (usize, DHashSet<WorkerId>)| (b.0, b.1@))
}

/// The barrier of a job, and whether it is complete, once a worker has completed an iteration.
pub open spec fn barrier_reached(
    barrier: Option<(usize, Set<WorkerId>)>,
    workers: nat,
    worker_id: WorkerId,
    iter_idx: usize,
) -> ((usize, Set<WorkerId>), bool) {
    match barrier {
        Some(b) => {
            let set = (if b.0 == iter_idx {
                b.1
            } else {
                Set::empty()
            }).insert(worker_id);
            if set.len() == workers {
                (((iter_idx + 1) as usize, Set::empty()), true)
            } else {
                ((iter_idx, set), false)
            }
        },
        None => ((iter_idx, Set::empty().insert(worker_id)), workers == 1),
    }
}

/// One more iteration of a job is complete.
pub open spec fn count_iteration(m: Map<JobId, (usize, usize)>, job_id: JobId) -> Map<JobId, (usize, usize)> {
    if m.contains_key(job_id) {
        let (total, completed) = m[job_id];
        m.insert(
            job_id,
            (
                total,
                if completed < total {
                    (completed + 1) as usize
                } else {
                    total
                },
            ),
        )
    } else {
        m
    }
}

/// `after` is `before` once the running event has completed.
pub open spec fn event_finished(before: MLWorker, after: MLWorker, event_id: usize) -> bool {
    &&& after.iter() == crate::simulator::ml_worker::complete_event(before.iter(), event_id)
    &&& after.same_but_iteration(&before)
    &&& after.last_iteration_start_time_us == before.last_iteration_start_time_us
    &&& after.current_iteration == if after.iter().done() {
        before.current_iteration + 1
    } else {
        before.current_iteration as int
    }
}

/// The event of a worker can complete.
pub open spec fn can_finish(jobs: Map<JobId, MLJob>, job_id: JobId, worker_id: WorkerId, event_id: usize) -> bool {
    &&& jobs.contains_key(job_id)
    &&& jobs[job_id].workers@.contains_key(worker_id)
    &&& jobs[job_id].workers@[worker_id].iter().running.contains_key(event_id)
    &&& jobs[job_id].workers@[worker_id].current_iteration < usize::MAX
}

/// The barrier of a job, and whether it is complete, once a worker has completed an iteration.
pub open spec fn barrier_step(s: &SimState, job_id: JobId, worker_id: WorkerId, iter_idx: usize) -> (
    (usize, Set<WorkerId>),
    bool,
) {
    let views = barrier_views(s.worker_iter_barrier@);
    barrier_reached(
        if views.contains_key(job_id) {
            Some(views[job_id])
        } else {
            None
        },
        s.jobs@[job_id].workers@.dom().len(),
        worker_id,
        iter_idx,
    )
}

/// The completion of an iteration by a worker is recorded, and counted if it is the last.
pub open spec fn iteration_recorded(
    before: &SimState,
    after: &SimState,
    job_id: JobId,
    worker_id: WorkerId,
    iter_idx: usize,
) -> bool {
    let (entry, complete) = barrier_step(before, job_id, worker_id, iter_idx);
    &&& barrier_views(after.worker_iter_barrier@) == barrier_views(before.worker_iter_barrier@).insert(job_id, entry)
    &&& after.context.job_iterations@ == if complete {
        count_iteration(before.context.job_iterations@, job_id)
    } else {
        before.context.job_iterations@
    }
    &&& *after == (SimState {
        worker_iter_barrier: after.worker_iter_barrier,
        context: MLContext { job_iterations: after.context.job_iterations, ..before.context },
        ..*before
    })
}

impl SimState {
    /// Counts one more completed iteration of a job.
    fn bump_iterations(&mut self, job_id: JobId)
        ensures
            final(self).context.job_iterations@ == count_iteration(old(self).context.job_iterations@, job_id),
            *final(self) == (SimState {
                context: MLContext { job_iterations: final(self).context.job_iterations, ..old(self).context },
                ..*old(self)
            }),
    {
        let entry: Option<(usize, usize)> = match self.context.job_iterations.get(&job_id) {
            Some(e) => Some(*e),
            None => None,
        };
        if let Some((total, completed)) = entry {
            let next: usize = if completed < total {
                completed + 1
            } else {
                total
            };
            self.context.job_iterations.insert(job_id, (total, next));
        }
    }

    /// Records that a worker has completed an iteration; `true` once every worker of the job has.
    pub fn record_iteration(&mut self, job_id: JobId, worker_id: WorkerId, iter_idx: usize) -> (satisfied: bool)
        requires
            old(self).jobs@.contains_key(job_id),
            iter_idx < usize::MAX,
        ensures
            satisfied == barrier_step(old(self), job_id, worker_id, iter_idx).1,
            iteration_recorded(old(self), final(self), job_id, worker_id, iter_idx),
    {
        let ghost before = barrier_views(self.worker_iter_barrier@);
        let total: usize = self.jobs.get(&job_id).unwrap().workers.len();
        let satisfied: bool;
        match self.worker_iter_barrier.remove(&job_id) {
            Some(entry) => {
                let (cur, set) = entry;
                let mut set = set;
                if cur != iter_idx {
                    set.clear();
                }
                set.insert(worker_id);
                let n: usize = set.len();
                if n == total {
                    set.clear();
                    self.worker_iter_barrier.insert(job_id, (iter_idx + 1, set));
                    satisfied = true;
                } else {
                    self.worker_iter_barrier.insert(job_id, (iter_idx, set));
                    satisfied = false;
                }
                proof {
                    let (e, c) = barrier_reached(
                        Some(before[job_id]),
                        old(self).jobs@[job_id].workers@.dom().len(),
                        worker_id,
                        iter_idx,
                    );
                    assert(barrier_views(self.worker_iter_barrier@) =~= before.insert(job_id, e));
                }
            },
            None => {
                let mut set: DHashSet<WorkerId> = DHashSet::new();
                set.insert(worker_id);
                self.worker_iter_barrier.insert(job_id, (iter_idx, set));
                satisfied = total == 1;
                proof {
                    let (e, c) = barrier_reached(
                        None,
                        old(self).jobs@[job_id].workers@.dom().len(),
                        worker_id,
                        iter_idx,
                    );
                    assert(barrier_views(self.worker_iter_barrier@) =~= before.insert(job_id, e));
                }
            },
        }
        if satisfied {
            self.bump_iterations(job_id);
        }
        satisfied
    }

    /// An event of a worker completes. The result is the iteration that completes with it, if any.
    pub fn finish_event(&mut self, job_id: JobId, worker_id: WorkerId, event_id: usize) -> (r: Option<usize>)
        requires
            old(self).wf(),
            can_finish(old(self).jobs@, job_id, worker_id, event_id),
        ensures
            final(self).wf(),
            job_changed(old(self).jobs@, final(self).jobs@, job_id),
            final(self).jobs@[job_id] == (MLJob {
                workers: final(self).jobs@[job_id].workers,
                ..old(self).jobs@[job_id]
            }),
            final(self).jobs@[job_id].workers@ == old(self).jobs@[job_id].workers@.insert(
                worker_id,
                final(self).jobs@[job_id].workers@[worker_id],
            ),
            event_finished(
                old(self).jobs@[job_id].workers@[worker_id],
                final(self).jobs@[job_id].workers@[worker_id],
                event_id,
            ),
            r == (if final(self).jobs@[job_id].workers@[worker_id].iter().done() {
                Some(old(self).jobs@[job_id].workers@[worker_id].current_iteration)
            } else {
                None
            }),
            *final(self) == (SimState { jobs: final(self).jobs, ..*old(self) }),
    {
        let mut job = self.jobs.remove(&job_id).unwrap();
        let ghost job0 = job;
        let mut worker = job.workers.remove(&worker_id).unwrap();
        let ghost w0 = worker;
        let r = match worker.notify_event_completed_ex(event_id) {
            WorkerNotifyResult::EventDone => None,
            WorkerNotifyResult::IterationCompleted { iteration_idx } => Some(iteration_idx),
            WorkerNotifyResult::JobCompleted => Some(worker.current_iteration.saturating_sub(1)),
        };
        job.workers.insert(worker_id, worker);
        proof {
            assert(job.workers@ =~= job0.workers@.insert(worker_id, worker));
            assert forall|w: WorkerId| #[trigger] job.workers@.contains_key(w) implies job.workers@[w].templates_closed() by {
                assert(job0.workers@.contains_key(w));
                assert(job0.workers@[w].templates_closed());
                assert(job.workers@[w].templates() == job0.workers@[w].templates());
            }
            assert forall|w: WorkerId| #[trigger] job.workers@.contains_key(w) implies job0.workers@.contains_key(w) by {}
            lemma_rank_valid_kept(&job0, &job);
        }
        self.jobs.insert(job_id, job);
        proof {
            assert(self.jobs@ =~= old(self).jobs@.insert(job_id, job));
        }
        r
    }
}

/// The event that a ready worker event leads to.
pub open spec fn ready_event(now_us: u64, job_id: JobId, worker_id: WorkerId, info: ReadyEventInfo) -> MLEvent {
    match info.kind {
        WorkerEventKind::Compute => MLEvent::of_worker(
            crate::simulator::context::wrapping_sum(now_us, info.compute_duration_us),
            MLEventKind::ComputeCompletion,
            job_id,
            worker_id,
            info.id,
        ),
        WorkerEventKind::FlowSend => MLEvent::of_worker(
            now_us,
            MLEventKind::FlowSendReady,
            job_id,
            worker_id,
            info.id,
        ),
        WorkerEventKind::FlowReceive => MLEvent::of_worker(
            now_us,
            MLEventKind::FlowReceiveReady,
            job_id,
            worker_id,
            info.id,
        ),
    }
}

/// `q` with the events that the first `n` ready worker events lead to.
pub open spec fn queue_ready(
    q: Multiset<MLEvent>,
    now_us: u64,
    job_id: JobId,
    worker_id: WorkerId,
    ready: Seq<EventView>,
    n: nat,
) -> Multiset<MLEvent>
    decreases n,
{
    if n == 0 {
        q
    } else {
        queue_ready(q, now_us, job_id, worker_id, ready, (n - 1) as nat).insert(
            ready_event(now_us, job_id, worker_id, ready_info(ready[n - 1])),
        )
    }
}

/// `m` with the computations among the first `n` ready worker events.
pub open spec fn track_computes(
    m: Map<(JobId, WorkerId), (usize, u64)>,
    now_us: u64,
    job_id: JobId,
    worker_id: WorkerId,
    ready: Seq<EventView>,
    n: nat,
) -> Map<(JobId, WorkerId), (usize, u64)>
    decreases n,
{
    if n == 0 {
        m
    } else {
        let before = track_computes(m, now_us, job_id, worker_id, ready, (n - 1) as nat);
        let info = ready_info(ready[n - 1]);
        if info.kind == WorkerEventKind::Compute {
            before.insert(
                (job_id, worker_id),
                (info.id, crate::simulator::context::wrapping_sum(now_us, info.compute_duration_us)),
            )
        } else {
            before
        }
    }
}

/// `q` with what the first `n` workers of a job are ready for.
pub open spec fn queue_workers(
    q: Multiset<MLEvent>,
    now_us: u64,
    job_id: JobId,
    workers: Map<WorkerId, MLWorker>,
    ids: Seq<WorkerId>,
    n: nat,
) -> Multiset<MLEvent>
    decreases n,
{
    if n == 0 {
        q
    } else {
        let ready = workers[ids[n - 1]].iter().ready;
        queue_ready(
            queue_workers(q, now_us, job_id, workers, ids, (n - 1) as nat),
            now_us,
            job_id,
            ids[n - 1],
            ready,
            ready.len(),
        )
    }
}

/// `m` with the computations that the first `n` workers of a job are ready for.
pub open spec fn track_workers(
    m: Map<(JobId, WorkerId), (usize, u64)>,
    now_us: u64,
    job_id: JobId,
    workers: Map<WorkerId, MLWorker>,
    ids: Seq<WorkerId>,
    n: nat,
) -> Map<(JobId, WorkerId), (usize, u64)>
    decreases n,
{
    if n == 0 {
        m
    } else {
        let ready = workers[ids[n - 1]].iter().ready;
        track_computes(
            track_workers(m, now_us, job_id, workers, ids, (n - 1) as nat),
            now_us,
            job_id,
            ids[n - 1],
            ready,
            ready.len(),
        )
    }
}

/// A job whose workers are to be looked at for ready events.
pub open spec fn is_runnable(jobs: Map<JobId, MLJob>, migrating: Set<JobId>, job_id: JobId) -> bool {
    jobs.contains_key(job_id) && jobs[job_id].state == JobState::Running && !migrating.contains(job_id)
}

/// `q` with what the first `n` jobs are ready for, and the completion of those that are done.
pub open spec fn queue_jobs(
    q: Multiset<MLEvent>,
    now_us: u64,
    jobs: Map<JobId, MLJob>,
    migrating: Set<JobId>,
    ids: Seq<JobId>,
    n: nat,
) -> Multiset<MLEvent>
    decreases n,
{
    if n == 0 {
        q
    } else {
        let before = queue_jobs(q, now_us, jobs, migrating, ids, (n - 1) as nat);
        let j = ids[n - 1];
        if is_runnable(jobs, migrating, j) {
            let w = ascending(jobs[j].workers@.dom());
            let with_work = queue_workers(before, now_us, j, jobs[j].workers@, w, w.len());
            if workers_finished(jobs[j].workers@) {
                with_work.insert(MLEvent::of_job(now_us, MLEventKind::JobComplete, j))
            } else {
                with_work
            }
        } else {
            before
        }
    }
}

/// `m` with the computations that the first `n` jobs are ready for.
pub open spec fn track_jobs(
    m: Map<(JobId, WorkerId), (usize, u64)>,
    now_us: u64,
    jobs: Map<JobId, MLJob>,
    migrating: Set<JobId>,
    ids: Seq<JobId>,
    n: nat,
) -> Map<(JobId, WorkerId), (usize, u64)>
    decreases n,
{
    if n == 0 {
        m
    } else {
        let before = track_jobs(m, now_us, jobs, migrating, ids, (n - 1) as nat);
        let j = ids[n - 1];
        if is_runnable(jobs, migrating, j) {
            let w = ascending(jobs[j].workers@.dom());
            track_workers(before, now_us, j, jobs[j].workers@, w, w.len())
        } else {
            before
        }
    }
}

/// `after` is `before` with every ready event running.
pub open spec fn ready_started(before: MLWorker, after: MLWorker) -> bool {
    &&& after.iter() == start_ready(before.iter())
    &&& after.same_but_iteration(&before)
    &&& after.current_iteration == before.current_iteration
    &&& after.last_iteration_start_time_us == before.last_iteration_start_time_us
}

/// `after` is `before` with the ready events of all workers running, and completed if it is done.
pub open spec fn job_advanced(before: MLJob, after: MLJob, now_us: u64) -> bool {
    &&& after.workers@.dom() == before.workers@.dom()
    &&& forall|w: WorkerId| #[trigger]
        before.workers@.contains_key(w) ==> ready_started(before.workers@[w], after.workers@[w])
    &&& after == if workers_finished(before.workers@) {
        MLJob {
            workers: after.workers,
            state: JobState::Completed,
            completion_time_us: Some(now_us),
            ..before
        }
    } else {
        MLJob { workers: after.workers, ..before }
    }
}

/// What was ready in the running jobs that do not migrate has started: it is in the event queue,
/// and computations are on record. Jobs all of whose workers are through are complete.
pub open spec fn work_scheduled(before: &SimState, after: &SimState) -> bool {
    let ids = ascending(before.jobs@.dom());
    &&& after.jobs@.dom() == before.jobs@.dom()
    &&& forall|j: JobId| #[trigger]
        before.jobs@.contains_key(j) ==> if is_runnable(before.jobs@, before.jobs_migrating@, j) {
            job_advanced(before.jobs@[j], after.jobs@[j], before.now_us)
        } else {
            after.jobs@[j] == before.jobs@[j]
        }
    &&& after.event_queue@ == queue_jobs(
        before.event_queue@,
        before.now_us,
        before.jobs@,
        before.jobs_migrating@,
        ids,
        ids.len(),
    )
    &&& after.running_compute@ == track_jobs(
        before.running_compute@,
        before.now_us,
        before.jobs@,
        before.jobs_migrating@,
        ids,
        ids.len(),
    )
    &&& *after == (SimState {
        jobs: after.jobs,
        event_queue: after.event_queue,
        running_compute: after.running_compute,
        context: MLContext { time_us: before.now_us, ..before.context },
        ..*before
    })
}

impl SimState {
    /// Starts the ready events of a worker.
    fn start_ready_events(&mut self, job_id: JobId, worker: &mut MLWorker, worker_id: WorkerId)
        ensures
            ready_started(*old(worker), *final(worker)),
            final(self).event_queue@ == queue_ready(
                old(self).event_queue@,
                old(self).now_us,
                job_id,
                worker_id,
                old(worker).iter().ready,
                old(worker).iter().ready.len(),
            ),
            final(self).running_compute@ == track_computes(
                old(self).running_compute@,
                old(self).now_us,
                job_id,
                worker_id,
                old(worker).iter().ready,
                old(worker).iter().ready.len(),
            ),
            *final(self) == (SimState {
                event_queue: final(self).event_queue,
                running_compute: final(self).running_compute,
                ..*old(self)
            }),
    {
        let ghost ready = worker.iter().ready;
        let infos = worker.get_all_ready_events();
        let now: u64 = self.now_us;
        let mut i: usize = 0;
        while i < infos.len()
            invariant
                i <= infos.len(),
                now == old(self).now_us,
                infos@ == ready.map_values(|e: EventView| ready_info(e)),
                self.event_queue@ == queue_ready(old(self).event_queue@, now, job_id, worker_id, ready, i as nat),
                self.running_compute@ == track_computes(
                    old(self).running_compute@,
                    now,
                    job_id,
                    worker_id,
                    ready,
                    i as nat,
                ),
                *self == (SimState {
                    event_queue: self.event_queue,
                    running_compute: self.running_compute,
                    ..*old(self)
                }),
            decreases infos.len() - i,
        {
            let info = infos[i];
            proof {
                assert(info == ready_info(ready[i as int]));
            }
            match info.kind {
                WorkerEventKind::Compute => {
                    let completion: u64 = now.wrapping_add(info.compute_duration_us);
                    self.running_compute.insert((job_id, worker_id), (info.id, completion));
                    self.event_queue.push(
                        MLEvent::for_worker(completion, MLEventKind::ComputeCompletion, job_id, worker_id, info.id),
                    );
                },
                WorkerEventKind::FlowSend => {
                    self.event_queue.push(
                        MLEvent::for_worker(now, MLEventKind::FlowSendReady, job_id, worker_id, info.id),
                    );
                },
                WorkerEventKind::FlowReceive => {
                    self.event_queue.push(
                        MLEvent::for_worker(now, MLEventKind::FlowReceiveReady, job_id, worker_id, info.id),
                    );
                },
            }
            i += 1;
        }
    }

    /// Starts the ready events of all workers of a job, and completes the job if it is done.
    fn advance_job(&mut self, job: &mut MLJob, job_id: JobId)
        ensures
            job_advanced(*old(job), *final(job), old(self).now_us),
            ({
                let w = ascending(old(job).workers@.dom());
                let work = queue_workers(
                    old(self).event_queue@,
                    old(self).now_us,
                    job_id,
                    old(job).workers@,
                    w,
                    w.len(),
                );
                &&& final(self).event_queue@ == if workers_finished(old(job).workers@) {
                    work.insert(MLEvent::of_job(old(self).now_us, MLEventKind::JobComplete, job_id))
                } else {
                    work
                }
                &&& final(self).running_compute@ == track_workers(
                    old(self).running_compute@,
                    old(self).now_us,
                    job_id,
                    old(job).workers@,
                    w,
                    w.len(),
                )
            }),
            *final(self) == (SimState {
                event_queue: final(self).event_queue,
                running_compute: final(self).running_compute,
                ..*old(self)
            }),
    {
        let ghost job0 = *job;
        let ghost w0 = job.workers@;
        let ids = job.workers.sorted_keys();
        proof {
            lemma_ascending(ids@, w0.dom());
        }
        let mut i: usize = 0;
        while i < ids.len()
            invariant
                i <= ids.len(),
                ids@ == ascending(w0.dom()),
                strictly_ascending(ids@),
                ids@.to_set() == w0.dom(),
                job.workers@.dom() == w0.dom(),
                forall|k: int| 0 <= k < i ==> ready_started(w0[#[trigger] ids@[k]], job.workers@[ids@[k]]),
                forall|k: int| i <= k < ids@.len() ==> job.workers@[#[trigger] ids@[k]] == w0[ids@[k]],
                self.event_queue@ == queue_workers(
                    old(self).event_queue@,
                    old(self).now_us,
                    job_id,
                    w0,
                    ids@,
                    i as nat,
                ),
                self.running_compute@ == track_workers(
                    old(self).running_compute@,
                    old(self).now_us,
                    job_id,
                    w0,
                    ids@,
                    i as nat,
                ),
                *job == (MLJob { workers: job.workers, ..job0 }),
                *self == (SimState {
                    event_queue: self.event_queue,
                    running_compute: self.running_compute,
                    ..*old(self)
                }),
            decreases ids.len() - i,
        {
            let id: usize = ids[i];
            let ghost ws = job.workers@;
            proof {
                assert(ids@.to_set().contains(id));
            }
            let mut worker = job.workers.remove(&id).unwrap();
            self.start_ready_events(job_id, &mut worker, id);
            job.workers.insert(id, worker);
            proof {
                assert(job.workers@.dom() =~= w0.dom());
                assert forall|k: int| 0 <= k < i + 1 implies ready_started(
                    w0[#[trigger] ids@[k]],
                    job.workers@[ids@[k]],
                ) by {
                    if k < i {
                        assert(ids@[k] != id);
                        assert(job.workers@[ids@[k]] == ws[ids@[k]]);
                    }
                }
                assert forall|k: int| i + 1 <= k < ids@.len() implies job.workers@[#[trigger] ids@[k]] == w0[ids@[k]] by {
                    assert(ids@[k] != id);
                }
            }
            i += 1;
        }
        proof {
            assert forall|w: WorkerId| #[trigger] w0.contains_key(w) implies ready_started(w0[w], job.workers@[w]) by {
                assert(ids@.to_set().contains(w));
                let k = choose|k: int| 0 <= k < ids@.len() && ids@[k] == w;
            }
            assert(workers_finished(job.workers@) == workers_finished(w0)) by {
                if workers_finished(w0) {
                    assert forall|w: WorkerId| #[trigger] job.workers@.contains_key(w) implies job.workers@[w].current_iteration
                        >= job.workers@[w].total_iterations by {
                        assert(w0.contains_key(w));
                    }
                }
                if workers_finished(job.workers@) {
                    assert forall|w: WorkerId| #[trigger] w0.contains_key(w) implies w0[w].current_iteration
                        >= w0[w].total_iterations by {
                        assert(job.workers@.contains_key(w));
                    }
                }
            }
        }
        if job.is_completed() {
            job.mark_completed(self.now_us);
            self.event_queue.push(MLEvent::for_job(self.now_us, MLEventKind::JobComplete, job_id));
        }
    }

    /// Starts the ready events of all running jobs that are not migrating, and completes those jobs
    /// that are done.
    pub fn schedule_ready_work(&mut self)
        requires
            old(self).wf(),
        ensures
            final(self).wf(),
            work_scheduled(old(self), final(self)),
    {
        self.context.time_us = self.now_us;
        let ghost jobs0 = self.jobs@;
        let ghost mig = self.jobs_migrating@;
        let ids = self.jobs.sorted_keys();
        proof {
            lemma_ascending(ids@, jobs0.dom());
        }
        let mut i: usize = 0;
        while i < ids.len()
            invariant
                i <= ids.len(),
                ids@ == ascending(jobs0.dom()),
                strictly_ascending(ids@),
                ids@.to_set() == jobs0.dom(),
                jobs0 == old(self).jobs@,
                mig == old(self).jobs_migrating@,
                self.jobs@.dom() == jobs0.dom(),
                jobs_ok(jobs0),
                jobs_ok(self.jobs@),
                forall|k: int|
                    0 <= k < i ==> if is_runnable(jobs0, mig, #[trigger] ids@[k]) {
                        job_advanced(jobs0[ids@[k]], self.jobs@[ids@[k]], old(self).now_us)
                    } else {
                        self.jobs@[ids@[k]] == jobs0[ids@[k]]
                    },
                forall|k: int| i <= k < ids@.len() ==> self.jobs@[#[trigger] ids@[k]] == jobs0[ids@[k]],
                self.event_queue@ == queue_jobs(old(self).event_queue@, old(self).now_us, jobs0, mig, ids@, i as nat),
                self.running_compute@ == track_jobs(
                    old(self).running_compute@,
                    old(self).now_us,
                    jobs0,
                    mig,
                    ids@,
                    i as nat,
                ),
                *self == (SimState {
                    jobs: self.jobs,
                    event_queue: self.event_queue,
                    running_compute: self.running_compute,
                    context: MLContext { time_us: old(self).now_us, ..old(self).context },
                    ..*old(self)
                }),
            decreases ids.len() - i,
        {
            let id: usize = ids[i];
            let ghost js = self.jobs@;
            proof {
                assert(ids@.to_set().contains(id));
            }
            let running = self.jobs.get(&id).unwrap().state == JobState::Running;
            if running && !self.jobs_migrating.contains(&id) {
                let mut job = self.jobs.remove(&id).unwrap();
                let ghost job0 = job;
                self.advance_job(&mut job, id);
                proof {
                    assert(job_ok(&job)) by {
                        assert(job_ok(&job0));
                        assert forall|w: WorkerId| #[trigger] job.workers@.contains_key(w) implies job.workers@[w].templates_closed() by {
                            assert(job0.workers@.contains_key(w));
                            assert(ready_started(job0.workers@[w], job.workers@[w]));
                            assert(job.workers@[w].templates() == job0.workers@[w].templates());
                        }
                        assert forall|w: WorkerId| #[trigger] job.workers@.contains_key(w) implies job.workers@[w].templates()
                            == job0.workers@[w].templates() by {
                            assert(job0.workers@.contains_key(w));
                            assert(ready_started(job0.workers@[w], job.workers@[w]));
                        }
                        assert(job.workers@.dom() =~= job0.workers@.dom());
                        lemma_rank_valid_kept(&job0, &job);
                    }
                }
                self.jobs.insert(id, job);
            }
            proof {
                assert(self.jobs@.dom() =~= jobs0.dom());
                assert forall|j: JobId| #[trigger] self.jobs@.contains_key(j) implies job_ok(&self.jobs@[j]) by {
                    if j != id {
                        assert(js.contains_key(j));
                    }
                }
                assert forall|k: int| 0 <= k < i + 1 implies if is_runnable(jobs0, mig, #[trigger] ids@[k]) {
                    job_advanced(jobs0[ids@[k]], self.jobs@[ids@[k]], old(self).now_us)
                } else {
                    self.jobs@[ids@[k]] == jobs0[ids@[k]]
                } by {
                    if k < i {
                        assert(ids@[k] != id);
                        assert(self.jobs@[ids@[k]] == js[ids@[k]]);
                    }
                }
                assert forall|k: int| i + 1 <= k < ids@.len() implies self.jobs@[#[trigger] ids@[k]] == jobs0[ids@[k]] by {
                    assert(ids@[k] != id);
                }
            }
            i += 1;
        }
        proof {
            assert forall|j: JobId| #[trigger] jobs0.contains_key(j) implies if is_runnable(jobs0, mig, j) {
                job_advanced(jobs0[j], self.jobs@[j], old(self).now_us)
            } else {
                self.jobs@[j] == jobs0[j]
            } by {
                assert(ids@.to_set().contains(j));
                let k = choose|k: int| 0 <= k < ids@.len() && ids@[k] == j;
            }
        }
    }
}

} // verus!
