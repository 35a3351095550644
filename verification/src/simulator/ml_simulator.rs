//! The simulator: it takes events in the order of their time and applies them to the state, with
//! the help of a network simulator, a job scheduler, a flow scheduler and a system module.

use vstd::multiset::Multiset;
use vstd::prelude::*;

use crate::network::{flows_entered, lemma_entered_next, Arrival, EventKind, NetworkSimulator};
use crate::simulator::context::{
    iteration_bytes, lemma_set_at, placement_views, remove_job_entries, set_at, with_job, without_job,
    MLContext, WaitingFlow,
};
use crate::simulator::event_queue::{due_no_later, is_first_due, MLEvent, MLEventKind};
use crate::simulator::flow_scheduler::{FlowScheduler, QueuedFlow};
use crate::simulator::flows::{
    flow_taken, is_last_transfer, receive_outcome, send_outcome, sent_counted, sent_reset,
    transfer_registered, transfer_taken, SimFault,
};
use crate::simulator::job_scheduler::{available, placed_on, same_strategy, without_first, JobScheduler};
use crate::simulator::migration::{
    copy_plan_hosts, job_released, job_relocated, migration_cancelled, migrations_prepared,
    plan_applied, plan_hosts, plan_moves, PendingView,
};
use crate::simulator::ml_job::{ascending, lemma_ascending, JobState, MLJob};
use crate::simulator::ml_worker::{complete_event, FlowId, JobId, MLWorker, WorkerId};
use crate::simulator::ranks::lemma_rank_valid_kept;
use crate::simulator::sim_state::{
    admitted, barrier_step, can_finish, event_finished, iteration_recorded, iterations_begun,
    job_ok, ranks_followed, work_scheduled, SimState,
};
use crate::simulator::system::{
    Control, JobMigration, MigrationPlan, Notice, SystemModule, TimerId, TimerRequest, WorkerMigrationInfo,
};
use crate::utils::data::{lemma_push_to_set, DHashMap, DHashSet};

verus! {

/// The simulator with its parts.
pub struct MLSimulator<S: JobScheduler, FS: FlowScheduler, M: SystemModule<S, FS>, N: NetworkSimulator> {
    pub state: SimState,
    pub network_sim: N,
    pub scheduler: S,
    pub flow_scheduler: FS,
    pub system_module: M,
}

/// `q` with a timer event for each of the first `n` requests.
pub open spec fn queue_timers(q: Multiset<MLEvent>, timers: Seq<TimerRequest>, n: nat) -> Multiset<MLEvent>
    decreases n,
{
    if n == 0 {
        q
    } else {
        queue_timers(q, timers, (n - 1) as nat).insert(
            MLEvent {
                timer_id: Some(timers[n - 1].timer_id),
                ..MLEvent::plain(timers[n - 1].fire_at_us, MLEventKind::SystemTimer)
            },
        )
    }
}

/// Timers have been asked for, and are in the event queue.
pub open spec fn timers_queued(before: &SimState, after: &SimState) -> bool {
    &&& exists|t: Seq<TimerRequest>| after.event_queue@ == #[trigger] queue_timers(before.event_queue@, t, t.len())
    &&& after.context.pending_timers@ == Seq::<TimerRequest>::empty()
    &&& *after == (SimState {
        event_queue: after.event_queue,
        context: MLContext { pending_timers: after.context.pending_timers, ..before.context },
        ..*before
    })
}

/// A reconfiguration is in the event queue, a new one if there was none.
pub open spec fn reconfigure_asked(before: &SimState, after: &SimState) -> bool {
    &&& after.reconfigure_requested
    &&& after.event_queue@ == if before.reconfigure_requested {
        before.event_queue@
    } else {
        before.event_queue@.insert(MLEvent::plain(before.now_us, MLEventKind::Reconfigure))
    }
    &&& *after == (SimState { reconfigure_requested: true, event_queue: after.event_queue, ..*before })
}

/// The send progress of a job starts afresh.
pub open spec fn progress_restarted(before: &SimState, after: &SimState, job_id: JobId) -> bool {
    &&& after.context.worker_send_progress@ == with_job(
        without_job(before.context.worker_send_progress@, job_id),
        job_id,
        before.jobs@[job_id].workers@.map_values(|w: MLWorker| (0u64, iteration_bytes(w))),
    )
    &&& *after == (SimState {
        context: MLContext { worker_send_progress: after.context.worker_send_progress, ..before.context },
        ..*before
    })
}

/// Completed flows are counted from zero for the active jobs.
pub open spec fn completions_restarted(before: &SimState, after: &SimState) -> bool {
    &&& after.context.flow_completions_per_job@ == Map::new(
        |j: JobId| before.active_jobs@.contains(j),
        |j: JobId| 0u64,
    )
    &&& *after == (SimState {
        context: MLContext { flow_completions_per_job: after.context.flow_completions_per_job, ..before.context },
        ..*before
    })
}

/// A placed job has taken its hosts, has its ranks in host order and runs its first iteration. A
/// reconfiguration is asked for.
pub open spec fn launched(before: &SimState, after: &SimState, job_id: JobId, on_arrival: bool) -> bool {
    exists|s1: SimState, s2: SimState, s3: SimState, s4: SimState, s5: SimState, s6: SimState|
        {
            &&& #[trigger] admitted(before, &s1, job_id)
            &&& #[trigger] ranks_followed(&s1, &s2, job_id)
            &&& #[trigger] progress_restarted(&s2, &s3, job_id)
            &&& if on_arrival {
                completions_restarted(&s3, &s4)
            } else {
                s4 == s3
            }
            &&& #[trigger] timers_queued(&s4, &s5)
            &&& #[trigger] reconfigure_asked(&s5, &s6)
            &&& iterations_begun(&s6, after, job_id, true)
        }
}

impl SimState {
    /// Puts the requested timers in the event queue.
    pub fn drain_pending_timers(&mut self, timers: Vec<TimerRequest>)
        requires
            old(self).context.pending_timers@ == Seq::<TimerRequest>::empty(),
        ensures
            final(self).event_queue@ == queue_timers(old(self).event_queue@, timers@, timers@.len()),
            *final(self) == (SimState { event_queue: final(self).event_queue, ..*old(self) }),
            timers_queued(old(self), final(self)),
    {
        let mut i: usize = 0;
        while i < timers.len()
            invariant
                i <= timers.len(),
                self.event_queue@ == queue_timers(old(self).event_queue@, timers@, i as nat),
                *self == (SimState { event_queue: self.event_queue, ..*old(self) }),
            decreases timers.len() - i,
        {
            let mut e = MLEvent::at(timers[i].fire_at_us, MLEventKind::SystemTimer);
            e.timer_id = Some(timers[i].timer_id);
            self.event_queue.push(e);
            i += 1;
        }
    }

    /// Asks for a reconfiguration at the current time, unless one is in the queue.
    pub fn request_reconfigure(&mut self)
        ensures
            reconfigure_asked(old(self), final(self)),
    {
        if self.reconfigure_requested {
            return;
        }
        self.reconfigure_requested = true;
        self.event_queue.push(MLEvent::at(self.now_us, MLEventKind::Reconfigure));
    }

    /// A job arrives at the given time.
    pub fn add_job_arrival(&mut self, arrival_time_us: u64, job: MLJob) -> (r: JobId)
        requires
            old(self).wf(),
            job_ok(&job),
        ensures
            r == job.id,
            final(self).wf(),
            final(self).jobs@ == old(self).jobs@.insert(job.id, MLJob { submit_time_us: arrival_time_us, ..job }),
            final(self).event_queue@ == old(self).event_queue@.insert(
                MLEvent::of_job(arrival_time_us, MLEventKind::JobArrival, job.id),
            ),
            *final(self) == (SimState {
                jobs: final(self).jobs,
                event_queue: final(self).event_queue,
                ..*old(self)
            }),
    {
        let mut job = job;
        let job_id: usize = job.id;
        job.submit_time_us = arrival_time_us;
        self.jobs.insert(job_id, job);
        self.event_queue.push(MLEvent::for_job(arrival_time_us, MLEventKind::JobArrival, job_id));
        job_id
    }

    /// Whether jobs migrate or are about to.
    pub open spec fn migration_pending(&self) -> bool {
        self.migrating || self.jobs_migrating@ != Set::<JobId>::empty() || self.pending_job_migrations@.dom() != Set::<
            JobId,
        >::empty()
    }

    /// Whether jobs migrate or are about to.
    pub fn is_migration_pending(&self) -> (r: bool)
        ensures
            r == self.migration_pending(),
    {
        self.migrating || !self.jobs_migrating.is_empty() || !self.pending_job_migrations.is_empty()
    }
}

impl<S: JobScheduler, FS: FlowScheduler, M: SystemModule<S, FS>, N: NetworkSimulator> MLSimulator<S, FS, M, N> {
    /// The state is in order, and the job scheduler works on every job.
    pub open spec fn ok(&self) -> bool {
        &&& self.state.wf()
        &&& forall|j: JobId| #[trigger]
            self.state.jobs@.contains_key(j) ==> self.scheduler.accepts(
                self.state.jobs@[j].id,
                self.state.jobs@[j].num_workers,
                self.state.host_busy@.len(),
            )
    }

    /// The scheduler is as before, its queue included.
    pub open spec fn same_scheduling(&self, other: &Self) -> bool {
        &&& self.scheduler.queue() == other.scheduler.queue()
        &&& same_strategy(&self.scheduler, &other.scheduler)
    }

    /// Takes the timers that wait in the context.
    fn take_timers(&mut self) -> (r: Vec<TimerRequest>)
        ensures
            r@ == old(self).state.context.pending_timers@,
            final(self).state.context.pending_timers@ == Seq::<TimerRequest>::empty(),
            *final(self) == (MLSimulator {
                state: SimState {
                    context: MLContext {
                        pending_timers: final(self).state.context.pending_timers,
                        ..old(self).state.context
                    },
                    ..old(self).state
                },
                ..*old(self)
            }),
    {
        let mut timers: Vec<TimerRequest> = Vec::new();
        timers.append(&mut self.state.context.pending_timers);
        timers
    }

    /// A placed job takes its hosts and runs.
    fn launch_job(&mut self, job_id: JobId, on_arrival: bool)
        requires
            old(self).ok(),
            old(self).state.jobs@.contains_key(job_id),
        ensures
            final(self).ok(),
            final(self).same_scheduling(old(self)),
            old(self).starts_job(*final(self), job_id, on_arrival),
            final(self).network_sim == old(self).network_sim,
    {
        let ghost s0 = self.state;
        self.state.admit_job(job_id);
        let ghost s1 = self.state;
        let ghost m1 = *self;
        self.state.reassign_ranks_after_migration(job_id);
        let ghost s2 = self.state;
        let ghost m2 = *self;
        {
            let job = self.state.jobs.get(&job_id).unwrap();
            self.state.context.reset_progress(job_id, &job.workers);
        }
        let ghost m3 = *self;
        if on_arrival {
            self.state.context.reset_completions(&self.state.active_jobs);
        }
        let ghost m4 = *self;
        let mut timers = self.take_timers();
        {
            let job = self.state.jobs.get(&job_id).unwrap();
            self.system_module.on_job_scheduled(
                self.state.now_us,
                &self.state.context,
                job_id,
                job,
                &mut self.scheduler,
                &mut self.flow_scheduler,
                &mut timers,
            );
        }
        let ghost asked = timers@;
        self.state.drain_pending_timers(timers);
        let ghost m5 = *self;
        self.state.request_reconfigure();
        let ghost s6 = self.state;
        let ghost m6 = *self;
        self.state.begin_iterations(job_id, true);
        proof {
            assert(old(self).admits(m1, job_id));
            assert(m1.follows_ranks(m2, job_id));
            assert(m2.restarts_progress(m3, job_id));
            assert(m3.restarts_completions(m4, on_arrival));
            m4.lemma_consults(m5, Notice::JobScheduled(job_id, m4.state.jobs@[job_id]), None, asked);
            assert(m4.tells_scheduled(m5, job_id));
            assert(m5.asks_reconfigure(m6));
            assert(old(self).starts_job(*self, job_id, on_arrival));
            assert forall|j: JobId| #[trigger] self.state.jobs@.contains_key(j) implies s0.jobs@.contains_key(j)
                && self.state.jobs@[j].num_workers == s0.jobs@[j].num_workers && self.state.jobs@[j].id == s0.jobs@[j].id by {
                assert(s6.jobs@.contains_key(j));
                assert(s1.jobs@.contains_key(j));
            }
            let hosts = crate::simulator::ml_job::placed_hosts(s0.jobs@[job_id].worker_to_host@);
            lemma_set_at(s0.host_busy@, hosts, true, hosts.len());
        }
    }
}

/// The migrations are as before.
pub open spec fn same_migrations(a: &SimState, b: &SimState) -> bool {
    &&& a.migrating == b.migrating
    &&& a.pending_migration == b.pending_migration
    &&& a.migration_complete_enqueued == b.migration_complete_enqueued
    &&& a.active_migration_flows == b.active_migration_flows
    &&& a.jobs_migrating == b.jobs_migrating
    &&& a.migration_flows_by_job == b.migration_flows_by_job
    &&& a.pending_job_migrations == b.pending_job_migrations
    &&& a.migration_dependents == b.migration_dependents
    &&& a.post_migration_delay_us == b.post_migration_delay_us
    &&& a.now_us == b.now_us
    &&& a.reconfigure_deferred_for_migration == b.reconfigure_deferred_for_migration
}

/// Hosts that were busy still are.
pub open spec fn hosts_kept(a: &SimState, b: &SimState) -> bool {
    &&& a.host_busy@.len() == b.host_busy@.len()
    &&& forall|h: int| 0 <= h < a.host_busy@.len() && a.host_busy@[h] ==> #[trigger] b.host_busy@[h]
}

/// Every event of `a` is still in `b`.
pub open spec fn events_kept(a: Multiset<MLEvent>, b: Multiset<MLEvent>) -> bool {
    forall|e: MLEvent| a.count(e) <= #[trigger] b.count(e)
}

proof fn lemma_queue_timers_keeps(q: Multiset<MLEvent>, t: Seq<TimerRequest>, n: nat)
    ensures
        events_kept(q, queue_timers(q, t, n)),
    decreases n,
{
    if n > 0 {
        lemma_queue_timers_keeps(q, t, (n - 1) as nat);
    }
}

/// What a launch changes and what it leaves alone.
proof fn lemma_launched(before: &SimState, after: &SimState, job_id: JobId, on_arrival: bool)
    requires
        before.jobs@.contains_key(job_id),
        before.host_busy@.len() == before.host_assignment@.len(),
        launched(before, after, job_id, on_arrival),
    ensures
        after.jobs@.dom() == before.jobs@.dom(),
        after.jobs@[job_id].state == JobState::Running,
        after.jobs@[job_id].num_workers == before.jobs@[job_id].num_workers,
        after.jobs@[job_id].id == before.jobs@[job_id].id,
        forall|j: JobId| j != job_id && before.jobs@.contains_key(j) ==> #[trigger] after.jobs@[j] == before.jobs@[j],
        same_migrations(before, after),
        hosts_kept(before, after),
        events_kept(before.event_queue@, after.event_queue@),
        after.reconfigure_requested,
        after.active_jobs@ == before.active_jobs@.insert(job_id),
{
    let (s1, s2, s3, s4, s5, s6) = choose|
        s1: SimState,
        s2: SimState,
        s3: SimState,
        s4: SimState,
        s5: SimState,
        s6: SimState,
    |
        {
            &&& #[trigger] admitted(before, &s1, job_id)
            &&& #[trigger] ranks_followed(&s1, &s2, job_id)
            &&& #[trigger] progress_restarted(&s2, &s3, job_id)
            &&& if on_arrival {
                completions_restarted(&s3, &s4)
            } else {
                s4 == s3
            }
            &&& #[trigger] timers_queued(&s4, &s5)
            &&& #[trigger] reconfigure_asked(&s5, &s6)
            &&& iterations_begun(&s6, after, job_id, true)
        };
    let hosts = crate::simulator::ml_job::placed_hosts(before.jobs@[job_id].worker_to_host@);
    lemma_set_at(before.host_busy@, hosts, true, hosts.len());
    let t = choose|t: Seq<TimerRequest>| s5.event_queue@ == #[trigger] queue_timers(s4.event_queue@, t, t.len());
    lemma_queue_timers_keeps(s4.event_queue@, t, t.len());
    assert(s1.jobs@.dom() =~= before.jobs@.dom());
    assert(after.jobs@.dom() =~= s6.jobs@.dom());
    assert(after.jobs@.dom() =~= before.jobs@.dom());
    assert forall|j: JobId| j != job_id && before.jobs@.contains_key(j) implies #[trigger] after.jobs@[j]
        == before.jobs@[j] by {
        assert(s1.jobs@[j] == before.jobs@[j]);
        assert(s1.jobs@.contains_key(j));
        assert(s2.jobs@[j] == s1.jobs@[j]);
        assert(s6.jobs@[j] == s2.jobs@[j]);
    }
}

/// A placed job is in order.
proof fn lemma_placed_ok(before: &MLJob, after: &MLJob, hosts: Seq<usize>)
    requires
        job_ok(before),
        placed_on(before, after, hosts),
    ensures
        job_ok(after),
{
    assert forall|w: WorkerId| #[trigger] after.workers@.contains_key(w) implies after.workers@[w].templates_closed()
        && before.workers@.contains_key(w) by {
        assert(before.workers@.contains_key(w));
        assert(before.workers@[w].templates_closed());
        assert(after.workers@[w].templates() == before.workers@[w].templates());
    }
    assert(after.workers@.dom() =~= before.workers@.dom());
    lemma_rank_valid_kept(before, after);
}

/// The first `k` jobs of the queue have been served: each that was waiting runs, the others were
/// dropped. The next one, if any, still waits.
pub open spec fn queue_served(before: &SimState, after: &SimState, queue: Seq<JobId>, k: int) -> bool {
    &&& 0 <= k <= queue.len()
    &&& after.jobs@.dom() == before.jobs@.dom()
    &&& forall|j: JobId| #[trigger]
        before.jobs@.contains_key(j) && !queue.take(k).contains(j) ==> after.jobs@[j] == before.jobs@[j]
    &&& forall|i: int|
        0 <= i < k && before.jobs@.contains_key(#[trigger] queue[i]) && before.jobs@[queue[i]].state == JobState::Queued
            ==> after.jobs@[queue[i]].state == JobState::Running && after.active_jobs@.contains(queue[i])
    &&& same_migrations(before, after)
    &&& hosts_kept(before, after)
    &&& events_kept(before.event_queue@, after.event_queue@)
    &&& before.active_jobs@.subset_of(after.active_jobs@)
    &&& before.reconfigure_requested ==> after.reconfigure_requested
}

impl<S: JobScheduler, FS: FlowScheduler, M: SystemModule<S, FS>, N: NetworkSimulator> MLSimulator<S, FS, M, N> {
    /// Whether the job scheduler finds a place for a job.
    pub open spec fn finds_place(self, job_id: JobId) -> bool {
        self.scheduler.fits(
            self.state.jobs@[job_id].id,
            self.state.jobs@[job_id].num_workers,
            self.state.host_busy@,
        )
    }

    /// A job is put on hosts that the job scheduler chooses.
    pub open spec fn places(self, after: Self, job_id: JobId, hosts: Seq<usize>) -> bool {
        let job = self.state.jobs@[job_id];
        let now = after.state.jobs@;
        &&& self.scheduler.chooses(job.id, job.num_workers, self.state.host_busy@, hosts)
        &&& hosts.len() == job.num_workers
        &&& available(hosts, self.state.host_busy@)
        &&& placed_on(&job, &now[job_id], hosts)
        &&& now == self.state.jobs@.insert(job_id, now[job_id])
        &&& after.same_scheduling(&self)
        &&& after == (MLSimulator {
            state: SimState { jobs: after.state.jobs, ..self.state },
            scheduler: after.scheduler,
            ..self
        })
    }

    /// A placed job has taken its hosts.
    pub open spec fn admits(self, after: Self, job_id: JobId) -> bool {
        admitted(&self.state, &after.state, job_id) && after == self.with_state(after.state)
    }

    /// The send progress of a job starts afresh.
    pub open spec fn restarts_progress(self, after: Self, job_id: JobId) -> bool {
        progress_restarted(&self.state, &after.state, job_id) && after == self.with_state(after.state)
    }

    /// When a job arrives, completed flows are counted from zero.
    pub open spec fn restarts_completions(self, after: Self, on_arrival: bool) -> bool {
        &&& if on_arrival {
            completions_restarted(&self.state, &after.state)
        } else {
            after.state == self.state
        }
        &&& after == self.with_state(after.state)
    }

    /// A placed job takes its hosts, has its ranks in host order and runs its first iteration. The system
    /// module is told, and a reconfiguration is asked for.
    pub open spec fn starts_job(self, after: Self, job_id: JobId, on_arrival: bool) -> bool {
        exists|a: Self, b: Self, c: Self, d: Self, e: Self, f: Self|
            {
                &&& #[trigger] self.admits(a, job_id)
                &&& #[trigger] a.follows_ranks(b, job_id)
                &&& #[trigger] b.restarts_progress(c, job_id)
                &&& #[trigger] c.restarts_completions(d, on_arrival)
                &&& #[trigger] d.tells_scheduled(e, job_id)
                &&& #[trigger] e.asks_reconfigure(f)
                &&& iterations_begun(&f.state, &after.state, job_id, true)
                &&& after == f.with_state(after.state)
            }
    }

    /// A job is put on hosts that the job scheduler chooses, and runs.
    pub open spec fn launches(self, after: Self, job_id: JobId, on_arrival: bool) -> bool {
        exists|hosts: Seq<usize>, placed: Self| #[trigger]
            self.places(placed, job_id, hosts) && placed.starts_job(after, job_id, on_arrival)
    }

    /// What the start of a placed job does to the state.
    proof fn lemma_starts_job(self, after: Self, job_id: JobId, on_arrival: bool)
        requires
            self.starts_job(after, job_id, on_arrival),
        ensures
            launched(&self.state, &after.state, job_id, on_arrival),
            after.same_scheduling(&self),
            after.network_sim == self.network_sim,
    {
        let (a, b, c, d, e, f) = choose|a: Self, b: Self, c: Self, d: Self, e: Self, f: Self|
            {
                &&& #[trigger] self.admits(a, job_id)
                &&& #[trigger] a.follows_ranks(b, job_id)
                &&& #[trigger] b.restarts_progress(c, job_id)
                &&& #[trigger] c.restarts_completions(d, on_arrival)
                &&& #[trigger] d.tells_scheduled(e, job_id)
                &&& #[trigger] e.asks_reconfigure(f)
                &&& iterations_begun(&f.state, &after.state, job_id, true)
                &&& after == f.with_state(after.state)
            };
        assert(admitted(&self.state, &a.state, job_id));
        assert(ranks_followed(&a.state, &b.state, job_id));
        assert(progress_restarted(&b.state, &c.state, job_id));
        assert(timers_queued(&d.state, &e.state));
        assert(reconfigure_asked(&e.state, &f.state));
    }

    /// The start of a placed job leaves the queue of waiting jobs as it is.
    pub proof fn lemma_start_keeps_scheduling(self, after: Self, job_id: JobId, on_arrival: bool)
        requires
            self.starts_job(after, job_id, on_arrival),
        ensures
            after.same_scheduling(&self),
    {
        self.lemma_starts_job(after, job_id, on_arrival);
    }

    /// Nothing has changed that can be seen.
    pub open spec fn unchanged(self, after: Self) -> bool {
        &&& after.state.jobs@ == self.state.jobs@
        &&& after.same_scheduling(&self)
        &&& after == (MLSimulator {
            state: SimState { jobs: after.state.jobs, ..self.state },
            scheduler: after.scheduler,
            ..self
        })
    }

    /// A job waits to be placed.
    pub open spec fn awaits_place(self, job_id: JobId) -> bool {
        self.state.jobs@.contains_key(job_id) && self.state.jobs@[job_id].state == JobState::Queued
    }

    /// The first job has left the queue.
    pub open spec fn dequeues(self, after: Self) -> bool {
        &&& after.scheduler.queue() == without_first(self.scheduler.queue())
        &&& same_strategy(&after.scheduler, &self.scheduler)
        &&& after == (MLSimulator { scheduler: after.scheduler, ..self })
    }

    /// The first job of the queue has been served: it runs if it was waiting, and has left the queue.
    pub open spec fn serves_first(self, after: Self, job_id: JobId) -> bool {
        if self.awaits_place(job_id) {
            &&& self.finds_place(job_id)
            &&& exists|mid: Self| #[trigger] self.launches(mid, job_id, false) && mid.dequeues(after)
        } else {
            self.dequeues(after)
        }
    }

    /// The first `k` jobs of `queue` have been served, one after the other.
    pub open spec fn serves_jobs(self, after: Self, queue: Seq<JobId>, k: nat) -> bool
        decreases k,
    {
        if k == 0 {
            after == self
        } else {
            let last = queue[k - 1];
            exists|mid: Self|
                self.serves_jobs(mid, queue, (k - 1) as nat) && #[trigger] mid.serves_first(after, last)
        }
    }

    proof fn lemma_serves_next(self, mid: Self, after: Self, queue: Seq<JobId>, k: nat)
        requires
            self.serves_jobs(mid, queue, k),
            mid.serves_first(after, queue[k as int]),
        ensures
            self.serves_jobs(after, queue, k + 1),
    {
        let n = k + 1;
        assert((n - 1) as nat == k);
        assert(self.serves_jobs(mid, queue, (n - 1) as nat) && mid.serves_first(after, queue[n - 1]));
    }

    /// The waiting jobs have been served in order, up to the first for which there is no place.
    pub open spec fn serves(self, after: Self) -> bool {
        let queue = self.scheduler.queue();
        if self.state.migration_pending() {
            after == self
        } else {
            exists|k: nat, mid: Self|
                {
                    &&& k <= queue.len()
                    &&& #[trigger] self.serves_jobs(mid, queue, k)
                    &&& mid.unchanged(after)
                    &&& k < queue.len() ==> mid.awaits_place(queue[k as int]) && !mid.finds_place(queue[k as int])
                }
        }
    }
}

impl<S: JobScheduler, FS: FlowScheduler, M: SystemModule<S, FS>, N: NetworkSimulator> MLSimulator<S, FS, M, N> {
    /// Tries to place a job; if that succeeds, the job takes its hosts and runs.
    fn try_launch(&mut self, job_id: JobId, on_arrival: bool) -> (r: bool)
        requires
            old(self).ok(),
            old(self).state.jobs@.contains_key(job_id),
        ensures
            final(self).ok(),
            final(self).same_scheduling(old(self)),
            final(self).state.now_us == old(self).state.now_us,
            final(self).state.jobs@.dom() == old(self).state.jobs@.dom(),
            final(self).network_sim == old(self).network_sim,
            r == old(self).finds_place(job_id),
            !r ==> old(self).unchanged(*final(self)),
            r ==> old(self).launches(*final(self), job_id, on_arrival),
    {
        let ghost s0 = self.state;
        let mut job = self.state.jobs.remove(&job_id).unwrap();
        let ghost job0 = job;
        let r = self.scheduler.try_schedule_job(&mut job, &self.state.host_busy);
        let ghost job1 = job;
        self.state.jobs.insert(job_id, job);
        let ghost s1 = self.state;
        let ghost placed = *self;
        proof {
            if !r {
                assert(self.state.jobs@ =~= s0.jobs@);
            } else {
                let hosts = choose|hosts: Seq<usize>|
                    {
                        &&& old(self).scheduler.chooses(job0.id, job0.num_workers, s0.host_busy@, hosts)
                        &&& hosts.len() == job0.num_workers
                        &&& available(hosts, s0.host_busy@)
                        &&& #[trigger] placed_on(&job0, &job1, hosts)
                    };
                lemma_placed_ok(&job0, &job1, hosts);
                assert(self.state.jobs@ =~= s0.jobs@.insert(job_id, job1));
            }
        }
        if r {
            self.launch_job(job_id, on_arrival);
            proof {
                let hosts = choose|hosts: Seq<usize>|
                    {
                        &&& old(self).scheduler.chooses(job0.id, job0.num_workers, s0.host_busy@, hosts)
                        &&& hosts.len() == job0.num_workers
                        &&& available(hosts, s0.host_busy@)
                        &&& #[trigger] placed_on(&job0, &job1, hosts)
                    };
                assert(s1.jobs@.dom() =~= s0.jobs@.dom());
                assert(old(self).places(placed, job_id, hosts));
                placed.lemma_starts_job(*self, job_id, on_arrival);
                lemma_launched(&s1, &self.state, job_id, on_arrival);
            }
        }
        r
    }

    /// Places the waiting jobs in order, until one does not fit. While jobs migrate or are about to,
    /// nothing is placed.
    pub fn try_schedule_queued_jobs(&mut self)
        requires
            old(self).ok(),
        ensures
            final(self).ok(),
            final(self).network_sim == old(self).network_sim,
            same_strategy(&final(self).scheduler, &old(self).scheduler),
            old(self).serves(*final(self)),
            !old(self).state.migration_pending() ==> exists|k: int|
                {
                    &&& #[trigger] queue_served(&old(self).state, &final(self).state, old(self).scheduler.queue(), k)
                    &&& final(self).scheduler.queue() == old(self).scheduler.queue().skip(k)
                    &&& k < old(self).scheduler.queue().len() ==> {
                        let next = old(self).scheduler.queue()[k];
                        final(self).state.jobs@.contains_key(next) && final(self).state.jobs@[next].state
                            == JobState::Queued
                    }
                },
    {
        if self.state.is_migration_pending() {
            return;
        }
        let ghost s0 = self.state;
        let ghost q0 = self.scheduler.queue();
        let ghost mut k: int = 0;
        let ghost mut served = *self;
        let mut blocked = false;
        proof {
            assert(q0.skip(0) =~= q0);
            assert(queue_served(&s0, &self.state, q0, 0));
        }
        while !blocked && self.scheduler.has_queued_jobs()
            invariant
                self.ok(),
                self.network_sim == old(self).network_sim,
                same_strategy(&self.scheduler, &old(self).scheduler),
                queue_served(&s0, &self.state, q0, k),
                self.scheduler.queue() == q0.skip(k),
                q0 == old(self).scheduler.queue(),
                old(self).serves_jobs(served, q0, k as nat),
                served.unchanged(*self),
                !blocked ==> *self == served,
                blocked ==> k < q0.len() && served.awaits_place(q0[k]) && !served.finds_place(q0[k])
                    && self.state.jobs@.contains_key(q0[k]) && self.state.jobs@[q0[k]].state == JobState::Queued,
            decreases q0.len() - k + (if blocked { 0int } else { 1int }),
        {
            let ghost s1 = self.state;
            let next: usize = self.scheduler.get_next_job_to_schedule().unwrap();
            proof {
                assert(next == q0[k]);
                assert(q0.take(k + 1) =~= q0.take(k).push(next));
            }
            let ghost looked = *self;
            let waits = match self.state.jobs.get(&next) {
                Some(job) => job.state == JobState::Queued,
                None => false,
            };
            if waits {
                if self.try_launch(next, false) {
                    proof {
                        let (hosts, placed) = choose|hosts: Seq<usize>, placed: Self| #[trigger]
                            looked.places(placed, next, hosts) && placed.starts_job(*self, next, false);
                        placed.lemma_starts_job(*self, next, false);
                        assert(placed.state.jobs@.dom() =~= s1.jobs@.dom());
                        lemma_launched(&placed.state, &self.state, next, false);
                        lemma_served_one(&s0, &s1, &self.state, q0, k);
                        assert(served.places(placed, next, hosts));
                        assert(served.launches(*self, next, false));
                    }
                    let ghost running = *self;
                    self.scheduler.dequeue_job();
                    proof {
                        assert(q0.skip(k).skip(1) =~= q0.skip(k + 1));
                        assert(running.dequeues(*self));
                        old(self).lemma_serves_next(served, *self, q0, k as nat);
                        k = k + 1;
                        served = *self;
                    }
                } else {
                    proof {
                        assert(queue_served(&s0, &self.state, q0, k));
                    }
                    blocked = true;
                }
            } else {
                self.scheduler.dequeue_job();
                proof {
                    lemma_served_none(&s0, &s1, q0, k);
                    assert(q0.skip(k).skip(1) =~= q0.skip(k + 1));
                    old(self).lemma_serves_next(served, *self, q0, k as nat);
                    k = k + 1;
                    served = *self;
                }
            }
        }
        proof {
            if !blocked {
                assert(q0.skip(k).len() == 0);
            }
            assert(queue_served(&s0, &self.state, q0, k));
        }
    }
}

proof fn lemma_served_one(s0: &SimState, s1: &SimState, s2: &SimState, q: Seq<JobId>, k: int)
    requires
        queue_served(s0, s1, q, k),
        k < q.len(),
        s1.jobs@.contains_key(q[k]),
        s2.jobs@.dom() == s1.jobs@.dom(),
        s2.jobs@[q[k]].state == JobState::Running,
        forall|j: JobId| j != q[k] && s1.jobs@.contains_key(j) ==> #[trigger] s2.jobs@[j] == s1.jobs@[j],
        same_migrations(s1, s2),
        hosts_kept(s1, s2),
        events_kept(s1.event_queue@, s2.event_queue@),
        s2.active_jobs@ == s1.active_jobs@.insert(q[k]),
        s2.reconfigure_requested,
    ensures
        queue_served(s0, s2, q, k + 1),
{
    assert(q.take(k + 1) =~= q.take(k).push(q[k]));
    assert forall|j: JobId| #[trigger] s0.jobs@.contains_key(j) && !q.take(k + 1).contains(j) implies s2.jobs@[j]
        == s0.jobs@[j] by {
        assert(q.take(k + 1)[k] == q[k]);
        if q.take(k).contains(j) {
            let i = choose|i: int| 0 <= i < k && q.take(k)[i] == j;
            assert(q.take(k + 1)[i] == j);
        }
        assert(s1.jobs@[j] == s0.jobs@[j]);
        assert(s1.jobs@.contains_key(j));
    }
    assert forall|i: int|
        0 <= i < k + 1 && s0.jobs@.contains_key(#[trigger] q[i]) && s0.jobs@[q[i]].state == JobState::Queued implies s2.jobs@[q[i]].state
        == JobState::Running && s2.active_jobs@.contains(q[i]) by {
        if q[i] != q[k] {
            assert(i < k);
            assert(s1.jobs@.contains_key(q[i]));
            assert(s2.jobs@[q[i]] == s1.jobs@[q[i]]);
        }
    }
    assert forall|h: int| 0 <= h < s0.host_busy@.len() && s0.host_busy@[h] implies #[trigger] s2.host_busy@[h] by {
        assert(s1.host_busy@[h]);
    }
    assert forall|e: MLEvent| s0.event_queue@.count(e) <= #[trigger] s2.event_queue@.count(e) by {
        assert(s0.event_queue@.count(e) <= s1.event_queue@.count(e));
    }
}

proof fn lemma_served_none(s0: &SimState, s1: &SimState, q: Seq<JobId>, k: int)
    requires
        queue_served(s0, s1, q, k),
        k < q.len(),
        !(s1.jobs@.contains_key(q[k]) && s1.jobs@[q[k]].state == JobState::Queued),
    ensures
        queue_served(s0, s1, q, k + 1),
{
    assert(q.take(k + 1) =~= q.take(k).push(q[k]));
    assert forall|j: JobId| #[trigger] s0.jobs@.contains_key(j) && !q.take(k + 1).contains(j) implies s1.jobs@[j]
        == s0.jobs@[j] by {
        if q.take(k).contains(j) {
            let i = choose|i: int| 0 <= i < k && q.take(k)[i] == j;
            assert(q.take(k + 1)[i] == j);
        }
    }
    assert forall|i: int|
        0 <= i < k + 1 && s0.jobs@.contains_key(#[trigger] q[i]) && s0.jobs@[q[i]].state == JobState::Queued implies s1.jobs@[q[i]].state
        == JobState::Running && s1.active_jobs@.contains(q[i]) by {
        if i == k {
            assert(s1.jobs@.contains_key(q[k]));
            if q.take(k).contains(q[k]) {
                let m = choose|m: int| 0 <= m < k && q.take(k)[m] == q[k];
                assert(q[m] == q[k]);
            } else {
                assert(s1.jobs@[q[k]] == s0.jobs@[q[k]]);
            }
        }
    }
}

impl<S: JobScheduler, FS: FlowScheduler, M: SystemModule<S, FS>, N: NetworkSimulator> MLSimulator<S, FS, M, N> {
    /// A job has to wait.
    pub open spec fn queues(self, after: Self, job_id: JobId) -> bool {
        &&& after.scheduler.queue() == self.scheduler.queue().push(job_id)
        &&& same_strategy(&after.scheduler, &self.scheduler)
        &&& after == (MLSimulator { scheduler: after.scheduler, ..self })
    }

    /// A job has arrived. It waits if jobs migrate or if there is no place for it. If others wait, it
    /// waits behind them, and then they are served.
    pub open spec fn arrives(self, after: Self, job_id: JobId) -> bool {
        if self.state.jobs_migrating@ != Set::<JobId>::empty() {
            self.queues(after, job_id)
        } else if self.scheduler.queue().len() > 0 {
            exists|mid: Self| #[trigger] self.queues(mid, job_id) && mid.serves(after)
        } else if self.state.jobs@.contains_key(job_id) && self.finds_place(job_id) {
            &&& self.launches(after, job_id, true)
            &&& after.scheduler.queue() == Seq::<JobId>::empty()
            &&& same_strategy(&after.scheduler, &self.scheduler)
            &&& after.network_sim == self.network_sim
        } else {
            exists|mid: Self| #[trigger] self.unchanged(mid) && mid.queues(after, job_id)
        }
    }

    /// A job arrives. It waits if jobs migrate, if others wait, or if it does not fit.
    pub fn handle_job_arrival(&mut self, job_id: JobId)
        requires
            old(self).ok(),
        ensures
            final(self).ok(),
            final(self).state.now_us == old(self).state.now_us,
            final(self).state.jobs@.dom() == old(self).state.jobs@.dom(),
            final(self).network_sim == old(self).network_sim,
            same_strategy(&final(self).scheduler, &old(self).scheduler),
            old(self).arrives(*final(self), job_id),
    {
        if !self.state.jobs_migrating.is_empty() {
            self.scheduler.enqueue_job(job_id);
            return;
        }
        if self.scheduler.has_queued_jobs() {
            self.scheduler.enqueue_job(job_id);
            proof {
                assert(old(self).queues(*self, job_id));
            }
            self.try_schedule_queued_jobs();
            return;
        }
        let scheduled = if self.state.jobs.contains_key(&job_id) {
            self.try_launch(job_id, true)
        } else {
            false
        };
        if !scheduled {
            proof {
                assert(old(self).unchanged(*self));
            }
            self.scheduler.enqueue_job(job_id);
            proof {
                assert(self.scheduler.queue() =~= seq![job_id]);
            }
        } else {
            proof {
                assert(self.scheduler.queue() =~= Seq::<JobId>::empty());
            }
        }
    }

    /// Resumes a job after its migration: the workers that have iterations left start the next.
    pub fn restart_job_after_migration(&mut self, job_id: JobId)
        requires
            old(self).ok(),
        ensures
            final(self).ok(),
            !old(self).state.jobs@.contains_key(job_id) ==> final(self).state == old(self).state,
            old(self).state.jobs@.contains_key(job_id) ==> iterations_begun(
                &old(self).state,
                &final(self).state,
                job_id,
                false,
            ),
            *final(self) == (MLSimulator { state: final(self).state, ..*old(self) }),
    {
        if self.state.jobs.contains_key(&job_id) {
            let ghost s0 = self.state;
            self.state.begin_iterations(job_id, false);
            proof {
                assert forall|j: JobId| #[trigger] self.state.jobs@.contains_key(j) implies s0.jobs@.contains_key(j)
                    && self.state.jobs@[j].num_workers == s0.jobs@[j].num_workers && self.state.jobs@[j].id == s0.jobs@[j].id by {}
            }
        }
    }
}

impl<S: JobScheduler, FS: FlowScheduler, M: SystemModule<S, FS>, N: NetworkSimulator> MLSimulator<S, FS, M, N> {
    /// A job that is placed takes as many hosts as it has workers, none of which is busy; every other host
    /// stays with its job, or free.
    pub proof fn lemma_launch_on_free_hosts(self, after: Self, job_id: JobId, on_arrival: bool)
        requires
            self.state.wf(),
            self.state.jobs@.contains_key(job_id),
            self.state.jobs@[job_id].worker_to_host@ == Map::<WorkerId, usize>::empty(),
            self.launches(after, job_id, on_arrival),
        ensures
            exists|hosts: Seq<usize>|
                {
                    &&& #[trigger] available(hosts, self.state.host_busy@)
                    &&& hosts.len() == self.state.jobs@[job_id].num_workers
                    &&& forall|h: usize|
                        h < self.state.host_busy@.len() ==> #[trigger] after.state.host_assignment@[h as int] == (
                        if hosts.contains(h) {
                            Some(job_id)
                        } else {
                            self.state.host_assignment@[h as int]
                        })
                },
    {
        let (hosts, placed) = choose|hosts: Seq<usize>, placed: Self| #[trigger]
            self.places(placed, job_id, hosts) && placed.starts_job(after, job_id, on_arrival);
        placed.lemma_starts_job(after, job_id, on_arrival);
        let m = placed.state.jobs@[job_id].worker_to_host@;
        let ids = Seq::new(hosts.len(), |i: int| i as usize);
        assert forall|w: WorkerId| #[trigger] ids.to_set().contains(w) == m.contains_key(w) by {
            if m.contains_key(w) {
                assert(ids[w as int] == w);
            }
        }
        assert(ids.to_set() =~= m.dom());
        lemma_ascending(ids, m.dom());
        let taken = crate::simulator::ml_job::placed_hosts(m);
        assert(taken =~= hosts);
        lemma_set_at(self.state.host_assignment@, hosts, Some(job_id), hosts.len());
        lemma_assignment_launched(&placed.state, &after.state, job_id, on_arrival);
        assert forall|h: usize| h < self.state.host_busy@.len() implies #[trigger] after.state.host_assignment@[h as int]
            == (if hosts.contains(h) {
            Some(job_id)
        } else {
            self.state.host_assignment@[h as int]
        }) by {
            if hosts.contains(h) {
                let i = choose|i: int| 0 <= i < hosts.len() && hosts[i] == h;
                assert(hosts[i] == h as int);
            }
        }
    }
}

proof fn lemma_assignment_launched(before: &SimState, after: &SimState, job_id: JobId, on_arrival: bool)
    requires
        launched(before, after, job_id, on_arrival),
    ensures
        ({
            let hosts = crate::simulator::ml_job::placed_hosts(before.jobs@[job_id].worker_to_host@);
            after.host_assignment@ == set_at(before.host_assignment@, hosts, Some(job_id), hosts.len())
        }),
{
}

/// A moving worker whose data has to be transferred.
pub open spec fn needs_transfer(info: WorkerMigrationInfo) -> bool {
    info.src_host != info.dst_host && info.model_size_bytes != 0
}

/// Some of the moves need a transfer.
pub open spec fn any_transfer(moves: Seq<WorkerMigrationInfo>) -> bool {
    exists|i: int| 0 <= i < moves.len() && needs_transfer(#[trigger] moves[i])
}

/// The restart of a job after its migration.
pub open spec fn restart_event(s: &SimState, job_id: JobId) -> MLEvent {
    MLEvent::of_job(
        crate::simulator::context::wrapping_sum(s.now_us, s.post_migration_delay_us),
        MLEventKind::PostMigrationRestart,
        job_id,
    )
}

impl<S: JobScheduler, FS: FlowScheduler, M: SystemModule<S, FS>, N: NetworkSimulator> MLSimulator<S, FS, M, N> {
    /// The simulator with another state.
    pub open spec fn with_state(self, state: SimState) -> Self {
        MLSimulator { state, ..self }
    }

    /// The system module and what it can change.
    pub open spec fn control(self, timers: Seq<TimerRequest>) -> Control<M, S, FS> {
        Control {
            module: self.system_module,
            scheduler: self.scheduler,
            flow_scheduler: self.flow_scheduler,
            timers,
        }
    }

    /// The system module has been told something and has reacted to it; the timers that it asked for are
    /// in the event queue, behind those that were waiting.
    pub open spec fn consults(self, after: Self, notice: Notice, plan: Option<MigrationPlan>) -> bool {
        &&& exists|timers: Seq<TimerRequest>|
            {
                &&& #[trigger] M::reacts(
                    self.control(self.state.context.pending_timers@),
                    self.state.now_us,
                    after.state.context,
                    notice,
                    after.control(timers),
                    plan,
                )
                &&& after.state.event_queue@ == queue_timers(self.state.event_queue@, timers, timers.len())
            }
        &&& timers_queued(&self.state, &after.state)
        &&& after.same_scheduling(&self)
        &&& after.network_sim == self.network_sim
    }

    proof fn lemma_consults(
        self,
        after: Self,
        notice: Notice,
        plan: Option<MigrationPlan>,
        timers: Seq<TimerRequest>,
    )
        requires
            M::reacts(
                self.control(self.state.context.pending_timers@),
                self.state.now_us,
                after.state.context,
                notice,
                after.control(timers),
                plan,
            ),
            after.state.event_queue@ == queue_timers(self.state.event_queue@, timers, timers.len()),
            timers_queued(&self.state, &after.state),
            after.same_scheduling(&self),
            after.network_sim == self.network_sim,
        ensures
            self.consults(after, notice, plan),
    {
    }

    /// The system module has been told that a job runs.
    pub open spec fn tells_scheduled(self, after: Self, job_id: JobId) -> bool {
        self.consults(after, Notice::JobScheduled(job_id, self.state.jobs@[job_id]), None)
    }

    /// The system module has been told that a job is done.
    pub open spec fn tells_completed(self, after: Self, job_id: JobId) -> bool {
        self.consults(after, Notice::JobCompleted(job_id, self.state.jobs@[job_id]), None)
    }

    /// The system module has been told that a job has migrated, if there is such a job. The timers that
    /// were waiting are in the event queue either way.
    pub open spec fn tells_migrated(self, after: Self, job_id: JobId) -> bool {
        let timers = self.state.context.pending_timers@;
        if self.state.jobs@.contains_key(job_id) {
            self.consults(after, Notice::MigrationEnd(job_id, self.state.jobs@[job_id]), None)
        } else {
            &&& after.state.event_queue@ == queue_timers(self.state.event_queue@, timers, timers.len())
            &&& timers_queued(&self.state, &after.state)
            &&& after == self.with_state(after.state)
        }
    }

    /// The system module has been asked for a plan.
    pub open spec fn asks_plan(self, after: Self, plan: Option<MigrationPlan>) -> bool {
        self.consults(after, Notice::Reconfigure, plan)
    }

    /// Nothing of a migration waits for a job any more, and the flow scheduler resumes.
    pub open spec fn leaves_migration(self, after: Self, job_id: JobId) -> bool {
        &&& after.state.pending_job_migrations@ == self.state.pending_job_migrations@.remove(job_id)
        &&& after.state.jobs_migrating@ == self.state.jobs_migrating@.remove(job_id)
        &&& after.state.migration_flows_by_job@ == self.state.migration_flows_by_job@.remove(job_id)
        &&& exists|wake: Option<u64>| #[trigger]
            self.flow_scheduler.resumes(self.state.now_us, after.flow_scheduler, wake)
        &&& after == (MLSimulator {
            state: SimState {
                pending_job_migrations: after.state.pending_job_migrations,
                jobs_migrating: after.state.jobs_migrating,
                migration_flows_by_job: after.state.migration_flows_by_job,
                ..self.state
            },
            flow_scheduler: after.flow_scheduler,
            ..self
        })
    }

    /// The ranks of a job follow its hosts.
    pub open spec fn follows_ranks(self, after: Self, job_id: JobId) -> bool {
        ranks_followed(&self.state, &after.state, job_id) && after == self.with_state(after.state)
    }

    /// A job goes on with its next iteration, or will after the delay.
    pub open spec fn resumes_job(self, after: Self, job_id: JobId) -> bool {
        &&& if self.state.post_migration_delay_us > 0 {
            &&& after.state.event_queue@ == self.state.event_queue@.insert(restart_event(&self.state, job_id))
            &&& after.state == (SimState { event_queue: after.state.event_queue, ..self.state })
        } else if self.state.jobs@.contains_key(job_id) {
            iterations_begun(&self.state, &after.state, job_id, false)
        } else {
            after.state == self.state
        }
        &&& after == self.with_state(after.state)
    }

    /// No plan is under way.
    pub open spec fn closes_plan(self, after: Self) -> bool {
        &&& after.state.migration_dependents@ == Map::<JobId, DHashSet<JobId>>::empty()
        &&& after == self.with_state(
            SimState {
                migrating: false,
                pending_migration: None,
                migration_dependents: after.state.migration_dependents,
                ..self.state
            },
        )
    }

    /// A reconfiguration that was put off is asked for.
    pub open spec fn catches_up(self, after: Self) -> bool {
        if self.state.reconfigure_deferred_for_migration {
            &&& reconfigure_asked(
                &(SimState { reconfigure_deferred_for_migration: false, ..self.state }),
                &after.state,
            )
            &&& after == self.with_state(after.state)
        } else {
            after == self
        }
    }

    /// Once no migration is pending, the plan is done, and the waiting jobs are served.
    pub open spec fn ends_plan(self, after: Self) -> bool {
        if self.state.pending_job_migrations@.dom() == Set::<JobId>::empty() {
            exists|a: Self, b: Self| #[trigger] self.closes_plan(a) && #[trigger] a.serves(b) && b.catches_up(after)
        } else {
            after == self
        }
    }

    /// The migration of a job is over: its ranks follow its new hosts, and it goes on.
    pub open spec fn completes_migration(self, after: Self, job_id: JobId) -> bool {
        exists|a: Self, b: Self, c: Self, d: Self|
            {
                &&& #[trigger] self.leaves_migration(a, job_id)
                &&& #[trigger] a.follows_ranks(b, job_id)
                &&& #[trigger] b.tells_migrated(c, job_id)
                &&& #[trigger] c.resumes_job(d, job_id)
                &&& d.ends_plan(after)
            }
    }
}

/// The transfers among the first `n` moves are in the tables, in order, under the given identifiers.
pub open spec fn transfers_begun(
    before: &SimState,
    after: &SimState,
    moves: Seq<WorkerMigrationInfo>,
    ids: Seq<FlowId>,
    n: nat,
) -> bool
    decreases n,
{
    if n == 0 {
        *after == *before && ids.len() == 0
    } else if needs_transfer(moves[n - 1]) {
        let info = moves[n - 1];
        let id = ids.last();
        &&& ids.len() > 0
        &&& exists|mid: SimState|
            {
                &&& transfers_begun(before, &mid, moves, ids.drop_last(), (n - 1) as nat)
                &&& #[trigger] transfer_registered(&mid, after, id, info)
            }
    } else {
        transfers_begun(before, after, moves, ids, (n - 1) as nat)
    }
}

/// The transfers among the first `n` moves, as flows that enter the network.
pub open spec fn transfer_arrivals(moves: Seq<WorkerMigrationInfo>, now_us: u64, n: nat) -> Seq<Arrival>
    decreases n,
{
    if n == 0 {
        Seq::empty()
    } else {
        let before = transfer_arrivals(moves, now_us, (n - 1) as nat);
        let info = moves[n - 1];
        if needs_transfer(info) {
            before.push(
                Arrival {
                    now_us,
                    src_host: info.src_host,
                    dst_host: info.dst_host,
                    size_bytes: info.model_size_bytes,
                    job_flow_idx: 0,
                },
            )
        } else {
            before
        }
    }
}

proof fn lemma_transfer_begun(
    before: &SimState,
    mid: &SimState,
    after: &SimState,
    moves: Seq<WorkerMigrationInfo>,
    ids: Seq<FlowId>,
    n: nat,
    id: FlowId,
)
    requires
        transfers_begun(before, mid, moves, ids, n),
        needs_transfer(moves[n as int]),
        transfer_registered(mid, after, id, moves[n as int]),
    ensures
        transfers_begun(before, after, moves, ids.push(id), n + 1),
{
    let m = n + 1;
    assert(ids.push(id).drop_last() =~= ids);
    assert((m - 1) as nat == n);
    assert(moves[m - 1] == moves[n as int]);
    assert(ids.push(id).last() == id);
}

impl<S: JobScheduler, FS: FlowScheduler, M: SystemModule<S, FS>, N: NetworkSimulator> MLSimulator<S, FS, M, N> {
    /// The transfers of a pending migration start.
    pub open spec fn marks_started(self, after: Self, job_id: JobId) -> bool {
        let before = self.state.pending_job_migrations@;
        let now = after.state.pending_job_migrations@;
        &&& now == before.insert(job_id, now[job_id])
        &&& now[job_id]@ == (PendingView { flows_started: true, ..before[job_id]@ })
        &&& after == self.with_state(
            SimState { pending_job_migrations: after.state.pending_job_migrations, ..self.state },
        )
    }

    /// The workers of a job are on the hosts that the plan has for them.
    pub open spec fn moves_workers(self, after: Self, job_id: JobId) -> bool {
        &&& match plan_hosts(self.state.pending_migration, job_id) {
            Some(hosts) if self.state.jobs@.contains_key(job_id) => job_relocated(
                &self.state,
                &after.state,
                job_id,
                hosts,
            ),
            _ => after.state == self.state,
        }
        &&& after == self.with_state(after.state)
    }

    /// A job is paused, and its waiting flows take their new hosts.
    pub open spec fn pauses_job(self, after: Self, job_id: JobId) -> bool {
        &&& after.state.jobs_migrating@ == self.state.jobs_migrating@.insert(job_id)
        &&& self.flow_scheduler.moves(
            self.state.now_us,
            placement_views(self.state.context.placements@),
            seq![job_id],
            after.flow_scheduler,
        )
        &&& after == (MLSimulator {
            state: SimState { jobs_migrating: after.state.jobs_migrating, ..self.state },
            flow_scheduler: after.flow_scheduler,
            ..self
        })
    }

    /// The transfers of some moves are in the network.
    pub open spec fn begins_transfers(self, after: Self, moves: Seq<WorkerMigrationInfo>, ids: Seq<FlowId>) -> bool {
        let flows = transfer_arrivals(moves, self.state.now_us, moves.len());
        &&& transfers_begun(&self.state, &after.state, moves, ids, moves.len())
        &&& ids.len() == flows.len()
        &&& flows_entered(self.network_sim, after.network_sim, flows, ids, flows.len())
        &&& after == (MLSimulator { state: after.state, network_sim: after.network_sim, ..self })
    }

    /// A job waits for its transfers.
    pub open spec fn awaits_transfers(self, after: Self, job_id: JobId, ids: Seq<FlowId>) -> bool {
        let now = after.state.migration_flows_by_job@;
        &&& now == self.state.migration_flows_by_job@.insert(job_id, now[job_id])
        &&& now[job_id]@ == ids.to_set()
        &&& after == self.with_state(
            SimState { migration_flows_by_job: after.state.migration_flows_by_job, ..self.state },
        )
    }

    /// The migration of a job starts: its workers move, and it waits for the transfers of their data, if
    /// there are any. Without any, the migration is over at once.
    pub open spec fn starts_migration(self, after: Self, job_id: JobId) -> bool {
        let moves = self.state.pending_job_migrations@[job_id].moves@;
        exists|a: Self, b: Self, c: Self, d: Self, ids: Seq<FlowId>|
            {
                &&& #[trigger] self.marks_started(a, job_id)
                &&& #[trigger] a.moves_workers(b, job_id)
                &&& #[trigger] b.pauses_job(c, job_id)
                &&& #[trigger] c.begins_transfers(d, moves, ids)
                &&& if any_transfer(moves) {
                    d.awaits_transfers(after, job_id, ids)
                } else {
                    d.completes_migration(after, job_id)
                }
            }
    }

    /// The migration of a job starts if it can.
    pub open spec fn tries_migration(self, after: Self, job_id: JobId) -> bool {
        let pending = self.state.pending_job_migrations@;
        if pending.contains_key(job_id) && can_start(pending[job_id]@) {
            self.starts_migration(after, job_id)
        } else {
            after == self
        }
    }

    /// A pending migration no longer waits for a job.
    pub open spec fn frees(self, after: Self, dependent: JobId, job_id: JobId) -> bool {
        let before = self.state.pending_job_migrations@;
        let now = after.state.pending_job_migrations@;
        &&& if before.contains_key(dependent) {
            &&& now == before.insert(dependent, now[dependent])
            &&& now[dependent]@ == (PendingView {
                waiting_for: before[dependent]@.waiting_for.remove(job_id),
                ..before[dependent]@
            })
        } else {
            now == before
        }
        &&& after == self.with_state(
            SimState { pending_job_migrations: after.state.pending_job_migrations, ..self.state },
        )
    }

    /// The first `n` dependents no longer wait for a job; in order, those that can start do.
    pub open spec fn frees_jobs(self, after: Self, dependents: Seq<JobId>, job_id: JobId, n: nat) -> bool
        decreases n,
    {
        if n == 0 {
            after == self
        } else {
            let last = dependents[n - 1];
            exists|a: Self, b: Self|
                {
                    &&& self.frees_jobs(a, dependents, job_id, (n - 1) as nat)
                    &&& #[trigger] a.frees(b, last, job_id)
                    &&& b.tries_migration(after, last)
                }
        }
    }

    proof fn lemma_frees_next(self, a: Self, b: Self, after: Self, dependents: Seq<JobId>, job_id: JobId, n: nat)
        requires
            self.frees_jobs(a, dependents, job_id, n),
            a.frees(b, dependents[n as int], job_id),
            b.tries_migration(after, dependents[n as int]),
        ensures
            self.frees_jobs(after, dependents, job_id, n + 1),
    {
        let m = n + 1;
        assert((m - 1) as nat == n);
        assert(dependents[m - 1] == dependents[n as int]);
    }

    /// A job with a pending migration is at its barrier.
    pub open spec fn marks_barrier(self, after: Self, job_id: JobId) -> bool {
        let before = self.state.pending_job_migrations@;
        let now = after.state.pending_job_migrations@;
        &&& if before.contains_key(job_id) {
            &&& now == before.insert(job_id, now[job_id])
            &&& now[job_id]@ == (PendingView { at_barrier: true, ..before[job_id]@ })
        } else {
            now == before
        }
        &&& after == self.with_state(
            SimState { pending_job_migrations: after.state.pending_job_migrations, ..self.state },
        )
    }

    /// The jobs that wait for a job, in ascending order.
    pub open spec fn dependents_of(self, job_id: JobId) -> Seq<JobId> {
        if self.state.migration_dependents@.contains_key(job_id) {
            ascending(self.state.migration_dependents@[job_id]@)
        } else {
            Seq::empty()
        }
    }

    /// No job is noted as waiting for a job.
    pub open spec fn drops_dependents(self, after: Self, job_id: JobId) -> bool {
        &&& after.state.migration_dependents@ == self.state.migration_dependents@.remove(job_id)
        &&& after == self.with_state(
            SimState { migration_dependents: after.state.migration_dependents, ..self.state },
        )
    }

    /// A job with a pending migration has reached its barrier: its migration starts if it can, and so do
    /// those that waited for it.
    pub open spec fn reaches_barrier(self, after: Self, job_id: JobId) -> bool {
        exists|a: Self, b: Self, c: Self|
            {
                &&& #[trigger] self.marks_barrier(a, job_id)
                &&& #[trigger] a.tries_migration(b, job_id)
                &&& #[trigger] b.drops_dependents(c, job_id)
                &&& c.frees_jobs(after, b.dependents_of(job_id), job_id, b.dependents_of(job_id).len())
            }
    }
}

proof fn lemma_same_sizes(a: Map<JobId, MLJob>, b: Map<JobId, MLJob>, job_id: JobId)
    requires
        crate::simulator::sim_state::job_changed(a, b, job_id),
        b[job_id].num_workers == a[job_id].num_workers,
        b[job_id].id == a[job_id].id,
    ensures
        b.dom() == a.dom(),
        forall|j: JobId| #[trigger] b.contains_key(j) ==> a.contains_key(j) && b[j].num_workers == a[j].num_workers && b[j].id == a[j].id,
{
    assert(b.dom() =~= a.dom());
}

impl<S: JobScheduler, FS: FlowScheduler, M: SystemModule<S, FS>, N: NetworkSimulator> MLSimulator<S, FS, M, N> {
    /// All transfers of a job's migration are through: its ranks follow the new placement, and it
    /// resumes at once or after a delay.
    #[verifier::rlimit(60)]
    #[verifier::spinoff_prover]
    fn complete_job_migration(&mut self, job_id: JobId)
        requires
            old(self).ok(),
        ensures
            final(self).ok(),
            final(self).state.jobs@.dom() == old(self).state.jobs@.dom(),
            final(self).state.now_us == old(self).state.now_us,
            old(self).completes_migration(*final(self), job_id),
    {
        let ghost s0 = self.state;
        self.state.pending_job_migrations.remove(&job_id);
        self.state.jobs_migrating.remove(&job_id);
        self.state.migration_flows_by_job.remove(&job_id);
        self.flow_scheduler.on_migration_end(self.state.now_us);
        let ghost s1 = self.state;
        let ghost left = *self;
        self.state.reassign_ranks_after_migration(job_id);
        let ghost s2 = self.state;
        let ghost ranked = *self;
        proof {
            assert(old(self).leaves_migration(left, job_id));
            assert(left.follows_ranks(ranked, job_id));
            assert forall|j: JobId| #[trigger] s2.jobs@.contains_key(j) implies s1.jobs@.contains_key(j)
                && s2.jobs@[j].num_workers == s1.jobs@[j].num_workers && s2.jobs@[j].id == s1.jobs@[j].id by {
                assert(s1.jobs@.contains_key(j));
            }
            assert(s2.jobs@.dom() =~= s0.jobs@.dom());
        }
        let mut timers = self.take_timers();
        if let Some(job) = self.state.jobs.get(&job_id) {
            self.system_module.on_migration_end(
                self.state.now_us,
                &self.state.context,
                job_id,
                job,
                &mut self.scheduler,
                &mut self.flow_scheduler,
                &mut timers,
            );
        }
        let ghost asked = timers@;
        self.state.drain_pending_timers(timers);
        let ghost consulted = *self;
        proof {
            if ranked.state.jobs@.contains_key(job_id) {
                ranked.lemma_consults(
                    consulted,
                    Notice::MigrationEnd(job_id, ranked.state.jobs@[job_id]),
                    None,
                    asked,
                );
            }
            assert(ranked.tells_migrated(consulted, job_id));
        }
        if self.state.post_migration_delay_us > 0 {
            let at: u64 = self.state.now_us.wrapping_add(self.state.post_migration_delay_us);
            self.state.event_queue.push(MLEvent::for_job(at, MLEventKind::PostMigrationRestart, job_id));
        } else {
            self.restart_job_after_migration(job_id);
        }
        let ghost s3 = self.state;
        let ghost resumed = *self;
        proof {
            assert(s3.jobs@.dom() =~= s0.jobs@.dom());
            assert(consulted.resumes_job(resumed, job_id));
        }
        if self.state.pending_job_migrations.is_empty() {
            self.state.migrating = false;
            self.state.pending_migration = None;
            self.state.migration_dependents.clear();
            let ghost closed = *self;
            self.try_schedule_queued_jobs();
            let ghost served = *self;
            proof {
                assert(resumed.closes_plan(closed));
                assert(closed.serves(served));
            }
            if self.state.reconfigure_deferred_for_migration {
                self.state.reconfigure_deferred_for_migration = false;
                self.state.request_reconfigure();
            }
        }
    }

    /// Starts the migration of a job: its workers move, and the data of those that have any is
    /// transferred.
    fn start_job_migration_flows(&mut self, job_id: JobId)
        requires
            old(self).ok(),
            old(self).state.pending_job_migrations@.contains_key(job_id),
        ensures
            final(self).ok(),
            final(self).state.jobs@.dom() == old(self).state.jobs@.dom(),
            final(self).state.now_us == old(self).state.now_us,
            old(self).starts_migration(*final(self), job_id),
    {
        let ghost p0 = self.state.pending_job_migrations@;
        let mut entry = self.state.pending_job_migrations.remove(&job_id).unwrap();
        entry.flows_started = true;
        let mut moves: Vec<WorkerMigrationInfo> = Vec::new();
        let mut c: usize = 0;
        while c < entry.moves.len()
            invariant
                c <= entry.moves.len(),
                moves@ == entry.moves@.take(c as int),
            decreases entry.moves.len() - c,
        {
            moves.push(entry.moves[c]);
            proof {
                assert(entry.moves@.take(c + 1) =~= entry.moves@.take(c as int).push(entry.moves@[c as int]));
            }
            c += 1;
        }
        proof {
            assert(moves@ =~= entry.moves@);
        }
        let ghost ev = entry;
        self.state.pending_job_migrations.insert(job_id, entry);
        proof {
            assert(self.state.pending_job_migrations@ =~= p0.insert(job_id, ev));
            assert(self.state.pending_job_migrations@.dom() =~= p0.dom());
            assert(old(self).marks_started(*self, job_id));
        }
        let ghost s1 = self.state;
        let ghost started = *self;
        if let Some(mapping) = copy_plan_hosts(&self.state.pending_migration, job_id) {
            self.state.apply_single_job_migration(job_id, &mapping);
            proof {
                if s1.jobs@.contains_key(job_id) {
                    lemma_same_sizes(s1.jobs@, self.state.jobs@, job_id);
                    lemma_moved_sizes(&s1, &self.state, job_id, mapping@);
                }
            }
        }
        let ghost moved = *self;
        self.state.jobs_migrating.insert(job_id);
        let mut affected: Vec<JobId> = Vec::new();
        affected.push(job_id);
        self.flow_scheduler.on_migration_begin(self.state.now_us, &self.state.context, &affected);
        let ghost s2 = self.state;
        let ghost paused = *self;
        let ghost mut ids: Seq<FlowId> = Seq::empty();
        proof {
            assert(s2.jobs@.dom() == old(self).state.jobs@.dom());
            assert(started.moves_workers(moved, job_id));
            assert(affected@ =~= seq![job_id]);
            assert(moved.pauses_job(paused, job_id));
        }
        let mut flows: DHashSet<FlowId> = DHashSet::new();
        let ghost mut any = false;
        proof {
            assert(flows@ =~= ids.to_set());
        }
        let mut i: usize = 0;
        while i < moves.len()
            invariant
                i <= moves.len(),
                self.ok(),
                any == (exists|x: int| 0 <= x < i && needs_transfer(#[trigger] moves@[x])),
                any == (flows@ != Set::<FlowId>::empty()),
                flows@ == ids.to_set(),
                transfers_begun(&s2, &self.state, moves@, ids, i as nat),
                ids.len() == transfer_arrivals(moves@, s2.now_us, i as nat).len(),
                flows_entered(
                    paused.network_sim,
                    self.network_sim,
                    transfer_arrivals(moves@, s2.now_us, i as nat),
                    ids,
                    ids.len(),
                ),
                *self == (MLSimulator { state: self.state, network_sim: self.network_sim, ..paused }),
                self.state.jobs == s2.jobs,
                self.state.now_us == s2.now_us,
            decreases moves.len() - i,
        {
            let info = moves[i];
            let ghost any0 = any;
            let ghost before = self.state;
            let ghost net = self.network_sim;
            if info.src_host != info.dst_host && info.model_size_bytes != 0 {
                let flow_id: usize = self.network_sim.add_flow_arrival(
                    self.state.now_us,
                    info.src_host,
                    info.dst_host,
                    info.model_size_bytes,
                    0,
                );
                self.state.register_migration_flow(flow_id, info);
                flows.insert(flow_id);
                proof {
                    lemma_transfer_begun(&s2, &before, &self.state, moves@, ids, i as nat, flow_id);
                    lemma_entered_next(
                        paused.network_sim,
                        net,
                        self.network_sim,
                        transfer_arrivals(moves@, s2.now_us, i as nat),
                        ids,
                        (Arrival {
                            now_us: s2.now_us,
                            src_host: info.src_host,
                            dst_host: info.dst_host,
                            size_bytes: info.model_size_bytes,
                            job_flow_idx: 0,
                        }),
                        flow_id,
                    );
                    lemma_push_to_set(ids, flow_id);
                    ids = ids.push(flow_id);
                    assert(flows@.contains(flow_id));
                    assert(needs_transfer(moves@[i as int]));
                    any = true;
                }
            }
            proof {
                if any0 {
                    let x = choose|x: int| 0 <= x < i && needs_transfer(#[trigger] moves@[x]);
                    assert(0 <= x < i + 1 && needs_transfer(moves@[x]));
                }
                if exists|x: int| 0 <= x < i + 1 && needs_transfer(#[trigger] moves@[x]) {
                    let x = choose|x: int| 0 <= x < i + 1 && needs_transfer(#[trigger] moves@[x]);
                    if x < i {
                        assert(any0);
                    }
                }
            }
            i += 1;
        }
        let ghost begun = *self;
        proof {
            assert(any == any_transfer(p0[job_id].moves@));
            assert(paused.begins_transfers(begun, moves@, ids));
        }
        if flows.is_empty() {
            self.complete_job_migration(job_id);
        } else {
            self.state.migration_flows_by_job.insert(job_id, flows);
            proof {
                assert(begun.awaits_transfers(*self, job_id, ids));
            }
        }
    }
}

proof fn lemma_moved_sizes(before: &SimState, after: &SimState, job_id: JobId, moves: Map<WorkerId, usize>)
    requires
        before.jobs@.contains_key(job_id),
        after.jobs@ == before.jobs@.insert(job_id, after.jobs@[job_id]),
        crate::simulator::migration::job_moved(before.jobs@[job_id], after.jobs@[job_id], moves),
    ensures
        after.jobs@.dom() == before.jobs@.dom(),
        forall|j: JobId| #[trigger]
            after.jobs@.contains_key(j) ==> before.jobs@.contains_key(j) && after.jobs@[j].num_workers
                == before.jobs@[j].num_workers,
{
    assert(after.jobs@.dom() =~= before.jobs@.dom());
}

/// A pending migration can start: the job is at its barrier and waits for no other.
pub open spec fn can_start(p: PendingView) -> bool {
    p.at_barrier && p.waiting_for == Set::<JobId>::empty() && !p.flows_started
}

impl<S: JobScheduler, FS: FlowScheduler, M: SystemModule<S, FS>, N: NetworkSimulator> MLSimulator<S, FS, M, N> {
    /// Starts the migration of a job if it is at its barrier and waits for no other.
    fn try_start_job_migration(&mut self, job_id: JobId)
        requires
            old(self).ok(),
        ensures
            final(self).ok(),
            final(self).state.jobs@.dom() == old(self).state.jobs@.dom(),
            final(self).state.now_us == old(self).state.now_us,
            old(self).tries_migration(*final(self), job_id),
    {
        let ready = match self.state.pending_job_migrations.get(&job_id) {
            Some(p) => p.at_barrier && p.waiting_for.is_empty() && !p.flows_started,
            None => false,
        };
        if ready {
            self.start_job_migration_flows(job_id);
        }
    }

    /// The jobs no longer wait for the given job; those that can start do.
    fn release_dependents(&mut self, dependents: &Vec<JobId>, job_id: JobId)
        requires
            old(self).ok(),
        ensures
            final(self).ok(),
            final(self).state.jobs@.dom() == old(self).state.jobs@.dom(),
            final(self).state.now_us == old(self).state.now_us,
            old(self).frees_jobs(*final(self), dependents@, job_id, dependents@.len()),
    {
        let mut i: usize = 0;
        while i < dependents.len()
            invariant
                i <= dependents.len(),
                self.ok(),
                self.state.jobs@.dom() == old(self).state.jobs@.dom(),
                self.state.now_us == old(self).state.now_us,
                old(self).frees_jobs(*self, dependents@, job_id, i as nat),
            decreases dependents.len() - i,
        {
            let dep: usize = dependents[i];
            let ghost held = *self;
            let ghost p1 = self.state.pending_job_migrations@;
            if let Some(entry) = self.state.pending_job_migrations.get_mut(&dep) {
                entry.waiting_for.remove(&job_id);
            }
            let ghost p2 = self.state.pending_job_migrations@;
            let ghost freed = *self;
            proof {
                if p1.contains_key(dep) {
                    assert(p2 =~= p1.insert(dep, p2[dep]));
                }
                assert(held.frees(freed, dep, job_id));
            }
            self.try_start_job_migration(dep);
            proof {
                old(self).lemma_frees_next(held, freed, *self, dependents@, job_id, i as nat);
            }
            i += 1;
        }
    }
}

impl<S: JobScheduler, FS: FlowScheduler, M: SystemModule<S, FS>, N: NetworkSimulator> MLSimulator<S, FS, M, N> {
    /// The completion of an iteration by a worker is noted.
    pub open spec fn notes_iteration(self, after: Self, job_id: JobId, worker_id: WorkerId, iter_idx: usize) -> bool {
        &&& iteration_recorded(&self.state, &after.state, job_id, worker_id, iter_idx)
        &&& after == self.with_state(after.state)
    }

    /// A worker has completed an iteration. Once all workers of the job have, the job is at its barrier:
    /// a pending migration may start, else the next iteration has started.
    pub open spec fn marks_iteration(self, after: Self, job_id: JobId, worker_id: WorkerId, iter_idx: usize) -> bool {
        exists|mid: Self|
            {
                &&& #[trigger] self.notes_iteration(mid, job_id, worker_id, iter_idx)
                &&& if !barrier_step(&self.state, job_id, worker_id, iter_idx).1 {
                    after == mid
                } else if self.state.pending_job_migrations@.contains_key(job_id) {
                    mid.reaches_barrier(after, job_id)
                } else {
                    iterations_begun(&mid.state, &after.state, job_id, false) && after == mid.with_state(after.state)
                }
            }
    }

    /// The running event of a worker is complete.
    pub open spec fn ends_event(self, after: Self, job_id: JobId, worker_id: WorkerId, event_id: usize) -> bool {
        &&& event_done(&self.state, &after.state, job_id, worker_id, event_id)
        &&& after == self.with_state(after.state)
    }

    /// The event completes the iteration of the worker.
    pub open spec fn is_last_event(self, job_id: JobId, worker_id: WorkerId, event_id: usize) -> bool {
        complete_event(self.state.jobs@[job_id].workers@[worker_id].iter(), event_id).done()
    }

    /// The running event of a worker is complete; if its iteration is too, that is marked.
    pub open spec fn advances(self, after: Self, job_id: JobId, worker_id: WorkerId, event_id: usize) -> bool {
        exists|mid: Self|
            {
                &&& #[trigger] self.ends_event(mid, job_id, worker_id, event_id)
                &&& if self.is_last_event(job_id, worker_id, event_id) {
                    mid.marks_iteration(
                        after,
                        job_id,
                        worker_id,
                        self.state.jobs@[job_id].workers@[worker_id].current_iteration,
                    )
                } else {
                    after == mid
                }
            }
    }

    /// A worker no longer computes.
    pub open spec fn ends_computation(self, after: Self, job_id: JobId, worker_id: WorkerId) -> bool {
        &&& after.state.running_compute@ == self.state.running_compute@.remove((job_id, worker_id))
        &&& after == self.with_state(SimState { running_compute: after.state.running_compute, ..self.state })
    }

    /// A computation of a worker is complete, or does not fit the state.
    pub open spec fn computes(
        self,
        after: Self,
        job_id: JobId,
        worker_id: WorkerId,
        event_id: usize,
        r: Result<(), SimFault>,
    ) -> bool {
        &&& r == finish_check(self.state.jobs@, job_id, worker_id, event_id)
        &&& if r is Ok {
            exists|mid: Self| #[trigger]
                self.ends_computation(mid, job_id, worker_id) && mid.advances(after, job_id, worker_id, event_id)
        } else {
            after == self
        }
    }

    /// The bytes of a send are counted.
    pub open spec fn counts_sent(self, after: Self, job_id: JobId, worker_id: WorkerId, event_id: usize) -> bool {
        &&& sent_counted(&self.state, &after.state, job_id, worker_id, event_id)
        &&& after == self.with_state(after.state)
    }

    /// The sender's event of a flow is complete, and its bytes are counted, from zero again if that ends
    /// the iteration.
    pub open spec fn ends_send(
        self,
        after: Self,
        job_id: JobId,
        worker_id: WorkerId,
        event_id: usize,
        r: Result<(), SimFault>,
    ) -> bool {
        &&& r == finish_check(self.state.jobs@, job_id, worker_id, event_id)
        &&& if r is Ok {
            exists|a: Self, b: Self|
                {
                    &&& #[trigger] self.counts_sent(a, job_id, worker_id, event_id)
                    &&& #[trigger] a.advances(b, job_id, worker_id, event_id)
                    &&& if self.is_last_event(job_id, worker_id, event_id) {
                        sent_reset(&b.state, &after.state, job_id, worker_id) && after == b.with_state(after.state)
                    } else {
                        after == b
                    }
                }
        } else {
            after == self
        }
    }

    /// The receiver's event of a flow is complete.
    pub open spec fn ends_receive(
        self,
        after: Self,
        job_id: JobId,
        worker_id: WorkerId,
        event_id: usize,
        r: Result<(), SimFault>,
    ) -> bool {
        &&& r == finish_check(self.state.jobs@, job_id, worker_id, event_id)
        &&& if r is Ok {
            self.advances(after, job_id, worker_id, event_id)
        } else {
            after == self
        }
    }

    /// A flow has left the tables.
    pub open spec fn takes_flow(self, after: Self, flow_id: FlowId) -> bool {
        flow_taken(&self.state, &after.state, flow_id) && after == self.with_state(after.state)
    }

    /// A transfer of a migration has left the tables.
    pub open spec fn takes_transfer(self, after: Self, flow_id: FlowId) -> bool {
        transfer_taken(&self.state, &after.state, flow_id) && after == self.with_state(after.state)
    }

    /// A flow is through. The last transfer of a migration completes it; any other flow completes the
    /// events at its ends, first the sender's.
    pub open spec fn ends_flow(self, after: Self, flow_id: FlowId, r: Result<(), SimFault>) -> bool {
        if self.state.active_migration_flows@.contains_key(flow_id) {
            &&& r is Ok
            &&& exists|mid: Self|
                {
                    &&& #[trigger] self.takes_transfer(mid, flow_id)
                    &&& if is_last_transfer(&self.state, flow_id) {
                        mid.completes_migration(after, self.state.active_migration_flows@[flow_id].job_id)
                    } else {
                        after == mid
                    }
                }
        } else if self.state.context.waiting_flows@.contains_key(flow_id) {
            let w = self.state.context.waiting_flows@[flow_id];
            exists|a: Self, b: Self, sent: Result<(), SimFault>|
                {
                    &&& #[trigger] self.takes_flow(a, flow_id)
                    &&& #[trigger] a.ends_send(b, w.0, w.3, w.5, sent)
                    &&& if sent is Ok {
                        b.ends_receive(after, w.0, w.4, w.6, r)
                    } else {
                        after == b && r == sent
                    }
                }
        } else {
            r == Err::<(), SimFault>(SimFault::UnknownFlow(flow_id)) && after == self
        }
    }
}

impl<S: JobScheduler, FS: FlowScheduler, M: SystemModule<S, FS>, N: NetworkSimulator> MLSimulator<S, FS, M, N> {
    /// A job with a pending migration has reached its iteration barrier. Its migration starts if it
    /// waits for no other, and so do those that waited for it only.
    fn handle_job_reached_migration_barrier(&mut self, job_id: JobId)
        requires
            old(self).ok(),
        ensures
            final(self).ok(),
            final(self).state.jobs@.dom() == old(self).state.jobs@.dom(),
            final(self).state.now_us == old(self).state.now_us,
            old(self).reaches_barrier(*final(self), job_id),
    {
        let ghost p0 = self.state.pending_job_migrations@;
        if let Some(entry) = self.state.pending_job_migrations.get_mut(&job_id) {
            entry.at_barrier = true;
        }
        proof {
            if p0.contains_key(job_id) {
                assert(self.state.pending_job_migrations@ =~= p0.insert(
                    job_id,
                    self.state.pending_job_migrations@[job_id],
                ));
            }
            assert(old(self).marks_barrier(*self, job_id));
        }
        let ghost marked = *self;
        self.try_start_job_migration(job_id);
        let ghost tried = *self;
        let dependents = match self.state.migration_dependents.remove(&job_id) {
            Some(set) => {
                let list = set.sorted();
                proof {
                    lemma_ascending(list@, set@);
                }
                list
            },
            None => Vec::new(),
        };
        proof {
            assert(dependents@ =~= tried.dependents_of(job_id));
            assert(marked.tries_migration(tried, job_id));
            assert(tried.drops_dependents(*self, job_id));
        }
        self.release_dependents(&dependents, job_id);
    }

    /// A worker has completed an iteration. Once all workers of the job have, the next iteration
    /// starts, unless a migration of the job is pending.
    fn mark_worker_iteration_complete(&mut self, job_id: JobId, worker_id: WorkerId, iter_idx: usize)
        requires
            old(self).ok(),
            old(self).state.jobs@.contains_key(job_id),
            iter_idx < usize::MAX,
        ensures
            final(self).ok(),
            final(self).state.jobs@.dom() == old(self).state.jobs@.dom(),
            final(self).state.now_us == old(self).state.now_us,
            old(self).marks_iteration(*final(self), job_id, worker_id, iter_idx),
    {
        let ghost s0 = self.state;
        let satisfied = self.state.record_iteration(job_id, worker_id, iter_idx);
        let ghost s1 = self.state;
        proof {
            assert(old(self).notes_iteration(*self, job_id, worker_id, iter_idx));
        }
        if satisfied {
            if self.state.pending_job_migrations.contains_key(&job_id) {
                self.handle_job_reached_migration_barrier(job_id);
            } else {
                self.state.begin_iterations(job_id, false);
                proof {
                    lemma_same_sizes(s1.jobs@, self.state.jobs@, job_id);
                }
            }
        }
    }

    /// A computation of a worker completes.
    pub fn handle_compute_completion(&mut self, job_id: JobId, worker_id: WorkerId, event_id: usize) -> (r: Result<
        (),
        SimFault,
    >)
        requires
            old(self).ok(),
        ensures
            final(self).ok(),
            final(self).state.jobs@.dom() == old(self).state.jobs@.dom(),
            final(self).state.now_us == old(self).state.now_us,
            old(self).computes(*final(self), job_id, worker_id, event_id, r),
    {
        match self.state.check_finish(job_id, worker_id, event_id) {
            Err(f) => {
                return Err(f);
            },
            Ok(()) => {},
        }
        self.state.running_compute.remove(&(job_id, worker_id));
        proof {
            assert(old(self).ends_computation(*self, job_id, worker_id));
        }
        self.finish(job_id, worker_id, event_id);
        Ok(())
    }

    /// An event of a worker completes, and with it perhaps an iteration.
    fn finish(&mut self, job_id: JobId, worker_id: WorkerId, event_id: usize) -> (iteration: bool)
        requires
            old(self).ok(),
            can_finish(old(self).state.jobs@, job_id, worker_id, event_id),
        ensures
            final(self).ok(),
            final(self).state.jobs@.dom() == old(self).state.jobs@.dom(),
            final(self).state.now_us == old(self).state.now_us,
            old(self).advances(*final(self), job_id, worker_id, event_id),
            iteration == old(self).is_last_event(job_id, worker_id, event_id),
    {
        let ghost s0 = self.state;
        let done = self.state.finish_event(job_id, worker_id, event_id);
        let ghost s1 = self.state;
        proof {
            lemma_same_sizes(s0.jobs@, s1.jobs@, job_id);
            assert(old(self).ends_event(*self, job_id, worker_id, event_id));
        }
        match done {
            Some(iter_idx) => {
                self.mark_worker_iteration_complete(job_id, worker_id, iter_idx);
                true
            },
            None => false,
        }
    }
}

/// Whether the event of a worker can complete, and if not, why.
pub open spec fn finish_check(
    jobs: Map<JobId, MLJob>,
    job_id: JobId,
    worker_id: WorkerId,
    event_id: usize,
) -> Result<(), SimFault> {
    if !jobs.contains_key(job_id) {
        Err(SimFault::UnknownJob(job_id))
    } else if !jobs[job_id].workers@.contains_key(worker_id) {
        Err(SimFault::UnknownWorker(job_id, worker_id))
    } else if !jobs[job_id].workers@[worker_id].iter().running.contains_key(event_id) {
        Err(SimFault::EventNotRunning(worker_id, event_id))
    } else if jobs[job_id].workers@[worker_id].current_iteration == usize::MAX {
        Err(SimFault::IterationOverflow(worker_id))
    } else {
        Ok(())
    }
}

/// The running event of a worker is complete, and nothing else has changed.
pub open spec fn event_done(
    before: &SimState,
    after: &SimState,
    job_id: JobId,
    worker_id: WorkerId,
    event_id: usize,
) -> bool {
    &&& after.jobs@ == before.jobs@.insert(job_id, after.jobs@[job_id])
    &&& after.jobs@[job_id] == (MLJob { workers: after.jobs@[job_id].workers, ..before.jobs@[job_id] })
    &&& after.jobs@[job_id].workers@ == before.jobs@[job_id].workers@.insert(
        worker_id,
        after.jobs@[job_id].workers@[worker_id],
    )
    &&& event_finished(
        before.jobs@[job_id].workers@[worker_id],
        after.jobs@[job_id].workers@[worker_id],
        event_id,
    )
    &&& *after == (SimState { jobs: after.jobs, ..*before })
}

impl SimState {
    /// Whether the event of a worker can complete, and if not, why.
    pub fn check_finish(&self, job_id: JobId, worker_id: WorkerId, event_id: usize) -> (r: Result<(), SimFault>)
        ensures
            r == finish_check(self.jobs@, job_id, worker_id, event_id),
            r is Ok ==> can_finish(self.jobs@, job_id, worker_id, event_id),
    {
        match self.jobs.get(&job_id) {
            Some(job) => match job.workers.get(&worker_id) {
                Some(worker) => {
                    proof {
                        assert(worker.iter().running.dom() =~= worker.running_events@.dom());
                    }
                    if worker.get_running_event(event_id).is_none() {
                        Err(SimFault::EventNotRunning(worker_id, event_id))
                    } else if worker.current_iteration == usize::MAX {
                        Err(SimFault::IterationOverflow(worker_id))
                    } else {
                        Ok(())
                    }
                },
                None => Err(SimFault::UnknownWorker(job_id, worker_id)),
            },
            None => Err(SimFault::UnknownJob(job_id)),
        }
    }
}

impl<S: JobScheduler, FS: FlowScheduler, M: SystemModule<S, FS>, N: NetworkSimulator> MLSimulator<S, FS, M, N> {
    /// The flow scheduler has a flow, and is polled when it wants to be.
    pub open spec fn hands_over(self, after: Self, flow: QueuedFlow) -> bool {
        exists|wake: Option<u64>|
            {
                &&& #[trigger] self.flow_scheduler.takes_in(self.state.now_us, flow, after.flow_scheduler, wake)
                &&& after.state.event_queue@ == with_poll(self.state.event_queue@, self.state.now_us, wake)
                &&& after == (MLSimulator {
                    state: SimState { event_queue: after.state.event_queue, ..self.state },
                    flow_scheduler: after.flow_scheduler,
                    ..self
                })
            }
    }

    /// A send waits for its receive.
    pub open spec fn holds_send(self, after: Self, key: (JobId, WorkerId, WorkerId), event_id: usize) -> bool {
        &&& after.state.pending_sends@ == self.state.pending_sends@.insert(key, event_id)
        &&& after == self.with_state(SimState { pending_sends: after.state.pending_sends, ..self.state })
    }

    /// A receive waits for its send.
    pub open spec fn holds_receive(self, after: Self, key: (JobId, WorkerId, WorkerId), event_id: usize) -> bool {
        &&& after.state.pending_receives@ == self.state.pending_receives@.insert(key, event_id)
        &&& after == self.with_state(SimState { pending_receives: after.state.pending_receives, ..self.state })
    }

    /// A send no longer waits.
    pub open spec fn takes_send(self, after: Self, key: (JobId, WorkerId, WorkerId)) -> bool {
        &&& after.state.pending_sends@ == self.state.pending_sends@.remove(key)
        &&& after == self.with_state(SimState { pending_sends: after.state.pending_sends, ..self.state })
    }

    /// A receive no longer waits.
    pub open spec fn takes_receive(self, after: Self, key: (JobId, WorkerId, WorkerId)) -> bool {
        &&& after.state.pending_receives@ == self.state.pending_receives@.remove(key)
        &&& after == self.with_state(SimState { pending_receives: after.state.pending_receives, ..self.state })
    }

    /// A send is ready: it waits for its receive, or its flow can start because that waits.
    pub open spec fn readies_send(
        self,
        after: Self,
        job_id: JobId,
        worker_id: WorkerId,
        event_id: usize,
        r: Result<(), SimFault>,
    ) -> bool {
        match send_outcome(self.state.jobs@, self.state.pending_receives@, job_id, worker_id, event_id) {
            Err(f) => r == Err::<(), SimFault>(f) && after == self,
            Ok((dst, None)) => r is Ok && self.holds_send(after, (job_id, worker_id, dst), event_id),
            Ok((dst, Some(flow))) => {
                &&& r is Ok
                &&& exists|mid: Self| #[trigger]
                    self.takes_receive(mid, (job_id, worker_id, dst)) && mid.hands_over(after, flow)
            },
        }
    }

    /// A receive is ready: it waits for its send, or their flow can start because that waits.
    pub open spec fn readies_receive(
        self,
        after: Self,
        job_id: JobId,
        worker_id: WorkerId,
        event_id: usize,
        r: Result<(), SimFault>,
    ) -> bool {
        match receive_outcome(self.state.jobs@, self.state.pending_sends@, job_id, worker_id, event_id) {
            Err(f) => r == Err::<(), SimFault>(f) && after == self,
            Ok((src, None)) => r is Ok && self.holds_receive(after, (job_id, src, worker_id), event_id),
            Ok((src, Some(flow))) => {
                &&& r is Ok
                &&& exists|mid: Self| #[trigger]
                    self.takes_send(mid, (job_id, src, worker_id)) && mid.hands_over(after, flow)
            },
        }
    }
}

/// `q` with a poll of the flow scheduler, if one is wanted, not before the time now.
pub open spec fn with_poll(q: Multiset<MLEvent>, now_us: u64, wake: Option<u64>) -> Multiset<MLEvent> {
    match wake {
        Some(t) => q.insert(MLEvent::plain(later(t, now_us), MLEventKind::FlowSchedulerPoll)),
        None => q,
    }
}

/// The later of two times.
pub open spec fn later(a: u64, b: u64) -> u64 {
    if a < b {
        b
    } else {
        a
    }
}

impl<S: JobScheduler, FS: FlowScheduler, M: SystemModule<S, FS>, N: NetworkSimulator> MLSimulator<S, FS, M, N> {
    /// A flow can start: the flow scheduler gets it, and is polled when it wants to be.
    fn enqueue_flow(&mut self, flow: QueuedFlow)
        requires
            old(self).ok(),
        ensures
            final(self).ok(),
            old(self).hands_over(*final(self), flow),
            final(self).state.jobs == old(self).state.jobs,
            final(self).state.now_us == old(self).state.now_us,
    {
        let wake = self.flow_scheduler.enqueue_flow(self.state.now_us, flow);
        if let Some(t) = wake {
            let at: u64 = if t < self.state.now_us {
                self.state.now_us
            } else {
                t
            };
            self.state.event_queue.push(MLEvent::at(at, MLEventKind::FlowSchedulerPoll));
        }
        proof {
            assert(old(self).flow_scheduler.takes_in(self.state.now_us, flow, self.flow_scheduler, wake));
        }
    }

    /// A worker is ready to send.
    pub fn handle_flow_send_ready(&mut self, job_id: JobId, worker_id: WorkerId, event_id: usize) -> (r: Result<
        (),
        SimFault,
    >)
        requires
            old(self).ok(),
        ensures
            final(self).ok(),
            final(self).state.jobs == old(self).state.jobs,
            final(self).state.now_us == old(self).state.now_us,
            old(self).readies_send(*final(self), job_id, worker_id, event_id, r),
    {
        let ghost outcome = send_outcome(
            self.state.jobs@,
            self.state.pending_receives@,
            job_id,
            worker_id,
            event_id,
        );
        match self.state.handle_flow_send_ready(job_id, worker_id, event_id) {
            Err(f) => Err(f),
            Ok(Some(flow)) => {
                proof {
                    if let Ok((dst, _)) = outcome {
                        assert(old(self).takes_receive(*self, (job_id, worker_id, dst)));
                    }
                }
                self.enqueue_flow(flow);
                Ok(())
            },
            Ok(None) => Ok(()),
        }
    }

    /// A worker is ready to receive.
    pub fn handle_flow_receive_ready(&mut self, job_id: JobId, worker_id: WorkerId, event_id: usize) -> (r: Result<
        (),
        SimFault,
    >)
        requires
            old(self).ok(),
        ensures
            final(self).ok(),
            final(self).state.jobs == old(self).state.jobs,
            final(self).state.now_us == old(self).state.now_us,
            old(self).readies_receive(*final(self), job_id, worker_id, event_id, r),
    {
        let ghost outcome = receive_outcome(
            self.state.jobs@,
            self.state.pending_sends@,
            job_id,
            worker_id,
            event_id,
        );
        match self.state.handle_flow_receive_ready(job_id, worker_id, event_id) {
            Err(f) => Err(f),
            Ok(Some(flow)) => {
                proof {
                    if let Ok((src, _)) = outcome {
                        assert(old(self).takes_send(*self, (job_id, src, worker_id)));
                    }
                }
                self.enqueue_flow(flow);
                Ok(())
            },
            Ok(None) => Ok(()),
        }
    }

    /// The sender's event of a flow completes.
    fn complete_flow_send(&mut self, job_id: JobId, worker_id: WorkerId, event_id: usize) -> (r: Result<(), SimFault>)
        requires
            old(self).ok(),
        ensures
            final(self).ok(),
            final(self).state.jobs@.dom() == old(self).state.jobs@.dom(),
            final(self).state.now_us == old(self).state.now_us,
            old(self).ends_send(*final(self), job_id, worker_id, event_id, r),
    {
        match self.state.check_finish(job_id, worker_id, event_id) {
            Err(f) => {
                return Err(f);
            },
            Ok(()) => {},
        }
        self.state.count_sent(job_id, worker_id, event_id);
        let ghost counted = *self;
        let iteration = self.finish(job_id, worker_id, event_id);
        let ghost advanced = *self;
        if iteration {
            self.state.reset_sent(job_id, worker_id);
        }
        proof {
            assert(old(self).counts_sent(counted, job_id, worker_id, event_id));
            assert(counted.advances(advanced, job_id, worker_id, event_id));
        }
        Ok(())
    }

    /// The receiver's event of a flow completes.
    fn complete_flow_receive(&mut self, job_id: JobId, worker_id: WorkerId, event_id: usize) -> (r: Result<
        (),
        SimFault,
    >)
        requires
            old(self).ok(),
        ensures
            final(self).ok(),
            final(self).state.jobs@.dom() == old(self).state.jobs@.dom(),
            final(self).state.now_us == old(self).state.now_us,
            old(self).ends_receive(*final(self), job_id, worker_id, event_id, r),
    {
        match self.state.check_finish(job_id, worker_id, event_id) {
            Err(f) => {
                return Err(f);
            },
            Ok(()) => {},
        }
        self.finish(job_id, worker_id, event_id);
        Ok(())
    }

    /// A flow is through. The last transfer of a migration completes the migration; any other flow
    /// completes the events at both of its ends.
    pub fn handle_flow_send_complete(&mut self, flow_id: FlowId) -> (r: Result<(), SimFault>)
        requires
            old(self).ok(),
        ensures
            final(self).ok(),
            final(self).state.jobs@.dom() == old(self).state.jobs@.dom(),
            final(self).state.now_us == old(self).state.now_us,
            old(self).ends_flow(*final(self), flow_id, r),
    {
        if let Some((job_id, last)) = self.state.take_migration_flow(flow_id) {
            proof {
                assert(old(self).takes_transfer(*self, flow_id));
            }
            if last {
                self.complete_job_migration(job_id);
            }
            return Ok(());
        }
        match self.state.take_flow(flow_id) {
            Some(w) => {
                let ghost taken = *self;
                let sent = self.complete_flow_send(w.0, w.3, w.5);
                proof {
                    assert(old(self).takes_flow(taken, flow_id));
                    assert(taken.ends_send(*self, w.0, w.3, w.5, sent));
                }
                match sent {
                    Err(f) => Err(f),
                    Ok(()) => self.complete_flow_receive(w.0, w.4, w.6),
                }
            },
            None => Err(SimFault::UnknownFlow(flow_id)),
        }
    }
}

/// Released flows are in the tables under the identifiers that the network gave them.
pub open spec fn flows_registered(
    waiting: Map<FlowId, WaitingFlow>,
    flows: Seq<QueuedFlow>,
    ids: Seq<FlowId>,
    n: nat,
) -> Map<FlowId, WaitingFlow>
    decreases n,
{
    if n == 0 {
        waiting
    } else {
        let f = flows[n - 1];
        flows_registered(waiting, flows, ids, (n - 1) as nat).insert(
            ids[n - 1],
            (
                f.job_id,
                f.job_flow_idx,
                f.iter_idx,
                f.src_worker,
                f.dst_worker,
                f.send_event_id,
                f.receive_event_id,
            ),
        )
    }
}

/// The jobs of the released flows are in the table under the identifiers that the network gave them.
pub open spec fn owners_registered(owners: Map<FlowId, JobId>, flows: Seq<QueuedFlow>, ids: Seq<FlowId>, n: nat) -> Map<
    FlowId,
    JobId,
>
    decreases n,
{
    if n == 0 {
        owners
    } else {
        owners_registered(owners, flows, ids, (n - 1) as nat).insert(ids[n - 1], flows[n - 1].job_id)
    }
}

/// A released flow as it enters the network.
pub open spec fn arrival_of(f: QueuedFlow, now_us: u64) -> Arrival {
    Arrival {
        now_us,
        src_host: f.src_host,
        dst_host: f.dst_host,
        size_bytes: f.size_bytes,
        job_flow_idx: f.job_flow_idx,
    }
}

/// Released flows as they enter the network.
pub open spec fn arrivals_of(flows: Seq<QueuedFlow>, now_us: u64) -> Seq<Arrival> {
    Seq::new(flows.len(), |i: int| arrival_of(flows[i], now_us))
}

/// A poll is wanted before the one that is in the event queue.
pub open spec fn is_earlier_poll(s: &SimState, now_us: u64, wake: Option<u64>) -> bool {
    match (wake, s.next_poll_scheduled) {
        (Some(t), Some(cur)) => later(t, now_us) < cur,
        (Some(_), None) => true,
        (None, _) => false,
    }
}

/// Flows are in the tables under the identifiers that the network gave them, and a poll is in the event
/// queue if it is wanted before the one that is.
pub open spec fn flows_installed(
    before: &SimState,
    after: &SimState,
    now_us: u64,
    flows: Seq<QueuedFlow>,
    ids: Seq<FlowId>,
    wake: Option<u64>,
) -> bool {
    &&& flows.len() == ids.len()
    &&& after.context.waiting_flows@ == flows_registered(before.context.waiting_flows@, flows, ids, flows.len())
    &&& after.flow_to_job@ == owners_registered(before.flow_to_job@, flows, ids, flows.len())
    &&& if is_earlier_poll(before, now_us, wake) {
        &&& after.next_poll_scheduled == Some(later(wake->0, now_us))
        &&& after.event_queue@ == with_poll(before.event_queue@, now_us, wake)
    } else {
        &&& after.next_poll_scheduled == before.next_poll_scheduled
        &&& after.event_queue@ == before.event_queue@
    }
    &&& *after == (SimState {
        context: MLContext { waiting_flows: after.context.waiting_flows, ..before.context },
        flow_to_job: after.flow_to_job,
        next_poll_scheduled: after.next_poll_scheduled,
        event_queue: after.event_queue,
        ..*before
    })
}

impl<S: JobScheduler, FS: FlowScheduler, M: SystemModule<S, FS>, N: NetworkSimulator> MLSimulator<S, FS, M, N> {
    /// The flows that the flow scheduler releases are in the network. The time counts that is later, that
    /// of the simulator or that of the network.
    pub open spec fn polls(self, after: Self) -> bool {
        exists|net_us: u64, now_us: u64, flows: Seq<QueuedFlow>, ids: Seq<FlowId>, wake: Option<u64>|
            {
                &&& #[trigger] self.network_sim.tells_time(net_us)
                &&& now_us == later(net_us, self.state.now_us)
                &&& #[trigger] self.flow_scheduler.releases(now_us, after.flow_scheduler, flows, wake)
                &&& #[trigger] flows_installed(&self.state, &after.state, now_us, flows, ids, wake)
                &&& flows_entered(
                    self.network_sim,
                    after.network_sim,
                    arrivals_of(flows, now_us),
                    ids,
                    flows.len(),
                )
                &&& after.scheduler == self.scheduler
                &&& after.system_module == self.system_module
            }
    }

    /// In order, the migrations of the first `n` jobs start if they can.
    pub open spec fn tries_migrations(self, after: Self, ids: Seq<JobId>, n: nat) -> bool
        decreases n,
    {
        if n == 0 {
            after == self
        } else {
            let last = ids[n - 1];
            exists|mid: Self|
                self.tries_migrations(mid, ids, (n - 1) as nat) && #[trigger] mid.tries_migration(after, last)
        }
    }

    proof fn lemma_tries_next(self, mid: Self, after: Self, ids: Seq<JobId>, n: nat)
        requires
            self.tries_migrations(mid, ids, n),
            mid.tries_migration(after, ids[n as int]),
        ensures
            self.tries_migrations(after, ids, n + 1),
    {
        let m = n + 1;
        assert((m - 1) as nat == n);
        assert(ids[m - 1] == ids[n as int]);
    }

    /// The migrations of a plan are pending.
    pub open spec fn prepares(self, after: Self, plan: MigrationPlan) -> bool {
        migrations_prepared(&self.state, &after.state, plan) && after == self.with_state(after.state)
    }

    /// A plan is taken over; jobs that can start to migrate do.
    pub open spec fn takes_over(self, after: Self, plan: MigrationPlan) -> bool {
        exists|mid: Self|
            {
                let ids = ascending(mid.state.pending_job_migrations@.dom());
                &&& #[trigger] self.prepares(mid, plan)
                &&& mid.tries_migrations(after, ids, ids.len())
            }
    }

    /// A reconfiguration has been handled. While jobs migrate or are about to, it is put off. Else the
    /// system module is asked; a plan that it has is taken over if it can be followed.
    pub open spec fn reconfigures(self, after: Self, r: Result<(), SimFault>) -> bool {
        let ready = self.with_state(SimState { reconfigure_requested: false, ..self.state });
        if self.state.migration_pending() {
            &&& r is Ok
            &&& after == self.with_state(
                SimState {
                    reconfigure_requested: false,
                    reconfigure_deferred_for_migration: true,
                    ..self.state
                },
            )
        } else {
            exists|mid: Self, plan: Option<MigrationPlan>|
                {
                    &&& #[trigger] ready.asks_plan(mid, plan)
                    &&& match plan {
                        None => r is Ok && after == mid,
                        Some(p) => if mid.state.plan_ok(&p) {
                            r is Ok && mid.takes_over(after, p)
                        } else {
                            r == Err::<(), SimFault>(SimFault::InvalidPlan) && after == mid
                        },
                    }
                }
        }
    }

    /// The migration phase is over, and the flow scheduler resumes.
    pub open spec fn closes_phase(self, after: Self) -> bool {
        exists|wake: Option<u64>|
            {
                &&& #[trigger] self.flow_scheduler.resumes(self.state.now_us, after.flow_scheduler, wake)
                &&& after.state.event_queue@ == with_poll(self.state.event_queue@, self.state.now_us, wake)
                &&& after == (MLSimulator {
                    state: SimState {
                        migrating: false,
                        migration_complete_enqueued: false,
                        event_queue: after.state.event_queue,
                        ..self.state
                    },
                    flow_scheduler: after.flow_scheduler,
                    ..self
                })
            }
    }

    /// A migration phase, if there is one, is over, and the waiting jobs are served.
    pub open spec fn ends_phase(self, after: Self) -> bool {
        if self.state.migrating {
            exists|mid: Self| #[trigger] self.closes_phase(mid) && mid.serves(after)
        } else {
            after == self
        }
    }
}

impl<S: JobScheduler, FS: FlowScheduler, M: SystemModule<S, FS>, N: NetworkSimulator> MLSimulator<S, FS, M, N> {
    /// Puts the flows that the flow scheduler releases into the network.
    pub fn poll_and_install_ready_flows(&mut self)
        requires
            old(self).ok(),
        ensures
            final(self).ok(),
            old(self).polls(*final(self)),
            final(self).state.now_us == old(self).state.now_us,
            final(self).state.jobs == old(self).state.jobs,
    {
        let ghost s0 = self.state;
        let net: u64 = self.network_sim.now_us();
        let now: u64 = if self.state.now_us < net {
            net
        } else {
            self.state.now_us
        };
        let (ready, next) = self.flow_scheduler.poll_ready(now);
        let ghost asked = *self;
        let ghost mut ids: Seq<FlowId> = Seq::empty();
        let ghost mut sent: Seq<Arrival> = Seq::empty();
        let mut i: usize = 0;
        while i < ready.len()
            invariant
                i <= ready.len(),
                self.ok(),
                now >= s0.now_us,
                ids.len() == i,
                sent.len() == i,
                forall|k: int| 0 <= k < i ==> #[trigger] sent[k] == arrival_of(ready@[k], now),
                flows_entered(old(self).network_sim, self.network_sim, sent, ids, i as nat),
                self.state.context.waiting_flows@ == flows_registered(
                    s0.context.waiting_flows@,
                    ready@,
                    ids,
                    i as nat,
                ),
                self.state.flow_to_job@ == owners_registered(s0.flow_to_job@, ready@, ids, i as nat),
                self.flow_scheduler == asked.flow_scheduler,
                self.state == (SimState {
                    context: MLContext { waiting_flows: self.state.context.waiting_flows, ..s0.context },
                    flow_to_job: self.state.flow_to_job,
                    ..s0
                }),
                self.scheduler == old(self).scheduler,
                self.system_module == old(self).system_module,
            decreases ready.len() - i,
        {
            let f = ready[i];
            let ghost entered = self.network_sim;
            let id: usize = self.network_sim.add_flow_arrival(now, f.src_host, f.dst_host, f.size_bytes, f.job_flow_idx);
            self.state.register_flow(id, f);
            proof {
                lemma_registered_push(s0.context.waiting_flows@, s0.flow_to_job@, ready@, ids, id, i as nat);
                lemma_entered_next(
                    old(self).network_sim,
                    entered,
                    self.network_sim,
                    sent,
                    ids,
                    arrival_of(f, now),
                    id,
                );
                ids = ids.push(id);
                sent = sent.push(arrival_of(f, now));
            }
            i += 1;
        }
        let ghost s1 = self.state;
        if let Some(t) = next {
            let wake: u64 = if t < now {
                now
            } else {
                t
            };
            let earlier = match self.state.next_poll_scheduled {
                None => true,
                Some(cur) => wake < cur,
            };
            if earlier {
                self.state.event_queue.push(MLEvent::at(wake, MLEventKind::FlowSchedulerPoll));
                self.state.next_poll_scheduled = Some(wake);
            }
        }
        proof {
            assert(old(self).flow_scheduler.releases(now, self.flow_scheduler, ready@, next));
            assert(flows_installed(&s0, &self.state, now, ready@, ids, next));
            assert(sent =~= arrivals_of(ready@, now));
            assert(old(self).network_sim.tells_time(net));
        }
    }

    /// A plan is taken over; jobs that can start to migrate do.
    fn setup_pending_migrations(&mut self, plan: MigrationPlan)
        requires
            old(self).ok(),
            old(self).state.plan_ok(&plan),
        ensures
            final(self).ok(),
            old(self).takes_over(*final(self), plan),
            final(self).state.jobs@.dom() == old(self).state.jobs@.dom(),
            final(self).state.now_us == old(self).state.now_us,
    {
        self.state.prepare_migrations(plan);
        let ghost prepared = *self;
        let ids = self.state.pending_job_migrations.sorted_keys();
        proof {
            lemma_ascending(ids@, self.state.pending_job_migrations@.dom());
            assert(old(self).prepares(prepared, plan));
        }
        let mut i: usize = 0;
        while i < ids.len()
            invariant
                i <= ids.len(),
                self.ok(),
                self.state.jobs@.dom() == prepared.state.jobs@.dom(),
                self.state.now_us == prepared.state.now_us,
                prepared.tries_migrations(*self, ids@, i as nat),
            decreases ids.len() - i,
        {
            let ghost before = *self;
            self.try_start_job_migration(ids[i]);
            proof {
                prepared.lemma_tries_next(before, *self, ids@, i as nat);
            }
            i += 1;
        }
    }

    /// Routing and scheduling are updated; the system module may ask for a migration. While jobs
    /// migrate or are about to, that is put off.
    pub fn handle_reconfigure(&mut self) -> (r: Result<(), SimFault>)
        requires
            old(self).ok(),
        ensures
            final(self).ok(),
            final(self).state.jobs@.dom() == old(self).state.jobs@.dom(),
            final(self).state.now_us == old(self).state.now_us,
            old(self).reconfigures(*final(self), r),
    {
        self.state.reconfigure_requested = false;
        if self.state.is_migration_pending() {
            self.state.reconfigure_deferred_for_migration = true;
            return Ok(());
        }
        let ghost ready = *self;
        let mut timers = self.take_timers();
        let plan = self.system_module.on_reconfigure(
            self.state.now_us,
            &self.state.context,
            &mut self.scheduler,
            &mut self.flow_scheduler,
            &mut timers,
        );
        let ghost asked = timers@;
        self.state.drain_pending_timers(timers);
        let ghost mid = *self;
        proof {
            assert(ready == old(self).with_state(SimState { reconfigure_requested: false, ..old(self).state }));
            ready.lemma_consults(mid, Notice::Reconfigure, plan, asked);
            assert(ready.asks_plan(mid, plan));
        }
        match plan {
            None => Ok(()),
            Some(plan) => {
                if self.state.check_plan(&plan) {
                    self.setup_pending_migrations(plan);
                    proof {
                        assert(mid.takes_over(*self, plan));
                    }
                    Ok(())
                } else {
                    Err(SimFault::InvalidPlan)
                }
            },
        }
    }

    /// A timer of the system module has fired.
    pub fn handle_system_timer(&mut self, timer_id: TimerId)
        requires
            old(self).ok(),
        ensures
            final(self).ok(),
            old(self).consults(*final(self), Notice::Timer(timer_id), None),
    {
        let mut timers = self.take_timers();
        self.system_module.on_timer(
            self.state.now_us,
            &self.state.context,
            timer_id,
            &mut self.scheduler,
            &mut self.flow_scheduler,
            &mut timers,
        );
        let ghost asked = timers@;
        self.state.drain_pending_timers(timers);
        proof {
            old(self).lemma_consults(*self, Notice::Timer(timer_id), None, asked);
        }
    }

    /// A migration phase is over: waiting jobs get another chance.
    pub fn handle_migration_end(&mut self)
        requires
            old(self).ok(),
        ensures
            final(self).ok(),
            old(self).ends_phase(*final(self)),
            final(self).state.now_us == old(self).state.now_us,
    {
        if !self.state.migrating {
            return;
        }
        self.state.migrating = false;
        self.state.migration_complete_enqueued = false;
        let wake = self.flow_scheduler.on_migration_end(self.state.now_us);
        if let Some(t) = wake {
            let at: u64 = if t < self.state.now_us {
                self.state.now_us
            } else {
                t
            };
            self.state.event_queue.push(MLEvent::at(at, MLEventKind::FlowSchedulerPoll));
        }
        proof {
            assert(old(self).flow_scheduler.resumes(self.state.now_us, self.flow_scheduler, wake));
            assert(old(self).closes_phase(*self));
        }
        self.try_schedule_queued_jobs();
    }
}

proof fn lemma_registered_push(
    waiting: Map<FlowId, WaitingFlow>,
    owners: Map<FlowId, JobId>,
    flows: Seq<QueuedFlow>,
    ids: Seq<FlowId>,
    id: FlowId,
    n: nat,
)
    requires
        n <= ids.len(),
    ensures
        flows_registered(waiting, flows, ids.push(id), n) == flows_registered(waiting, flows, ids, n),
        owners_registered(owners, flows, ids.push(id), n) == owners_registered(owners, flows, ids, n),
    decreases n,
{
    if n > 0 {
        lemma_registered_push(waiting, owners, flows, ids, id, (n - 1) as nat);
    }
}

impl SimState {
    /// Adds a transfer to those that a job's migration waits for.
    fn track_migration_flow(&mut self, job_id: JobId, flow_id: FlowId)
        ensures
            transfer_tracked(old(self), final(self), job_id, flow_id),
    {
        let mut set = match self.migration_flows_by_job.remove(&job_id) {
            Some(set) => set,
            None => DHashSet::new(),
        };
        set.insert(flow_id);
        self.migration_flows_by_job.insert(job_id, set);
        proof {
            assert(self.migration_flows_by_job@ =~= old(self).migration_flows_by_job@.insert(job_id, set));
        }
    }

    /// Marks the jobs of a plan as migrating, and no others.
    fn mark_plan_migrating(&mut self, plan: &MigrationPlan) -> (affected: Vec<JobId>)
        ensures
            affected@ == plan.jobs@.map_values(|e: JobMigration| e.job_id),
            final(self).jobs_migrating@ == affected@.to_set(),
            *final(self) == (SimState { jobs_migrating: final(self).jobs_migrating, ..*old(self) }),
    {
        self.jobs_migrating.clear();
        let mut affected: Vec<JobId> = Vec::new();
        let mut i: usize = 0;
        proof {
            assert(self.jobs_migrating@ =~= affected@.to_set());
        }
        while i < plan.jobs.len()
            invariant
                i <= plan.jobs.len(),
                affected@.len() == i,
                forall|k: int| 0 <= k < i ==> affected@[k] == (#[trigger] plan.jobs@[k]).job_id,
                self.jobs_migrating@ == affected@.to_set(),
                *self == (SimState { jobs_migrating: self.jobs_migrating, ..*old(self) }),
            decreases plan.jobs.len() - i,
        {
            let id: usize = plan.jobs[i].job_id;
            proof {
                lemma_push_to_set(affected@, id);
            }
            self.jobs_migrating.insert(id);
            affected.push(id);
            i += 1;
        }
        proof {
            assert(affected@ =~= plan.jobs@.map_values(|e: JobMigration| e.job_id));
        }
        affected
    }
}

/// A transfer is among those that the migration of a job waits for.
pub open spec fn transfer_tracked(before: &SimState, after: &SimState, job_id: JobId, flow_id: FlowId) -> bool {
    let flows = before.migration_flows_by_job@;
    let now = after.migration_flows_by_job@;
    &&& now == flows.insert(job_id, now[job_id])
    &&& now[job_id]@ == (if flows.contains_key(job_id) {
        flows[job_id]@
    } else {
        Set::empty()
    }).insert(flow_id)
    &&& *after == (SimState { migration_flows_by_job: after.migration_flows_by_job, ..*before })
}

/// The transfers among the first `n` moves are in the tables, in order, under the given identifiers, and
/// their jobs wait for them.
pub open spec fn transfers_tracked(
    before: &SimState,
    after: &SimState,
    moves: Seq<WorkerMigrationInfo>,
    ids: Seq<FlowId>,
    n: nat,
) -> bool
    decreases n,
{
    if n == 0 {
        *after == *before && ids.len() == 0
    } else if needs_transfer(moves[n - 1]) {
        let info = moves[n - 1];
        let id = ids.last();
        &&& ids.len() > 0
        &&& exists|a: SimState, b: SimState|
            {
                &&& transfers_tracked(before, &a, moves, ids.drop_last(), (n - 1) as nat)
                &&& #[trigger] transfer_registered(&a, &b, id, info)
                &&& transfer_tracked(&b, after, info.job_id, id)
            }
    } else {
        transfers_tracked(before, after, moves, ids, (n - 1) as nat)
    }
}

proof fn lemma_transfer_tracked(
    before: &SimState,
    a: &SimState,
    b: &SimState,
    after: &SimState,
    moves: Seq<WorkerMigrationInfo>,
    ids: Seq<FlowId>,
    n: nat,
    id: FlowId,
)
    requires
        transfers_tracked(before, a, moves, ids, n),
        needs_transfer(moves[n as int]),
        transfer_registered(a, b, id, moves[n as int]),
        transfer_tracked(b, after, moves[n as int].job_id, id),
    ensures
        transfers_tracked(before, after, moves, ids.push(id), n + 1),
{
    let m = n + 1;
    assert(ids.push(id).drop_last() =~= ids);
    assert((m - 1) as nat == n);
    assert(moves[m - 1] == moves[n as int]);
    assert(ids.push(id).last() == id);
}

impl<S: JobScheduler, FS: FlowScheduler, M: SystemModule<S, FS>, N: NetworkSimulator> MLSimulator<S, FS, M, N> {
    /// All jobs of a plan are paused, and their waiting flows are moved.
    pub open spec fn pauses_plan(self, after: Self, plan: MigrationPlan) -> bool {
        let ids = plan.jobs@.map_values(|e: JobMigration| e.job_id);
        &&& after.state.jobs_migrating@ == ids.to_set()
        &&& after.state.active_migration_flows@ == Map::<FlowId, WorkerMigrationInfo>::empty()
        &&& after.state.migration_flows_by_job@ == Map::<JobId, DHashSet<FlowId>>::empty()
        &&& self.flow_scheduler.moves(
            self.state.now_us,
            placement_views(self.state.context.placements@),
            ids,
            after.flow_scheduler,
        )
        &&& after == (MLSimulator {
            state: SimState {
                migrating: true,
                migration_complete_enqueued: false,
                pending_migration: None,
                jobs_migrating: after.state.jobs_migrating,
                active_migration_flows: after.state.active_migration_flows,
                migration_flows_by_job: after.state.migration_flows_by_job,
                ..self.state
            },
            flow_scheduler: after.flow_scheduler,
            ..self
        })
    }

    /// All workers of a plan are on their new hosts.
    pub open spec fn moves_plan(self, after: Self, plan: MigrationPlan) -> bool {
        plan_applied(&self.state, &after.state, plan.jobs@) && after == self.with_state(after.state)
    }

    /// The transfers of some moves are in the network, and their jobs wait for them.
    pub open spec fn tracks_transfers(self, after: Self, moves: Seq<WorkerMigrationInfo>, ids: Seq<FlowId>) -> bool {
        let flows = transfer_arrivals(moves, self.state.now_us, moves.len());
        &&& transfers_tracked(&self.state, &after.state, moves, ids, moves.len())
        &&& ids.len() == flows.len()
        &&& flows_entered(self.network_sim, after.network_sim, flows, ids, flows.len())
        &&& after == (MLSimulator { state: after.state, network_sim: after.network_sim, ..self })
    }

    /// A job is no longer paused.
    pub open spec fn releases_job(self, after: Self, job_id: JobId) -> bool {
        &&& after.state.jobs_migrating@ == self.state.jobs_migrating@.remove(job_id)
        &&& after == self.with_state(SimState { jobs_migrating: after.state.jobs_migrating, ..self.state })
    }

    /// A job without transfers goes on: its ranks follow its new hosts.
    pub open spec fn settles_job(self, after: Self, job_id: JobId) -> bool {
        exists|a: Self, b: Self|
            {
                &&& #[trigger] self.releases_job(a, job_id)
                &&& #[trigger] a.follows_ranks(b, job_id)
                &&& b.tells_migrated(after, job_id)
            }
    }

    /// In order, those of the first `n` jobs that wait for no transfer go on.
    pub open spec fn settles_jobs(self, after: Self, ids: Seq<JobId>, n: nat) -> bool
        decreases n,
    {
        if n == 0 {
            after == self
        } else {
            let last = ids[n - 1];
            exists|mid: Self| self.settles_jobs(mid, ids, (n - 1) as nat) && #[trigger] mid.settles_next(after, last)
        }
    }

    /// A job that waits for no transfer goes on.
    pub open spec fn settles_next(self, after: Self, job_id: JobId) -> bool {
        if self.state.migration_flows_by_job@.contains_key(job_id) {
            after == self
        } else {
            self.settles_job(after, job_id)
        }
    }

    proof fn lemma_settles_next(self, mid: Self, after: Self, ids: Seq<JobId>, n: nat)
        requires
            self.settles_jobs(mid, ids, n),
            mid.settles_next(after, ids[n as int]),
        ensures
            self.settles_jobs(after, ids, n + 1),
    {
        let m = n + 1;
        assert((m - 1) as nat == n);
        assert(ids[m - 1] == ids[n as int]);
    }

    /// In order, the paused jobs that wait for no transfer go on.
    pub open spec fn settles(self, after: Self) -> bool {
        let paused = ascending(self.state.jobs_migrating@);
        self.settles_jobs(after, paused, paused.len())
    }

    /// If no job is paused, the migration phase ends.
    pub open spec fn may_end_phase(self, after: Self) -> bool {
        if self.state.jobs_migrating@ == Set::<JobId>::empty() {
            &&& after.state.event_queue@ == self.state.event_queue@.insert(
                MLEvent::plain(self.state.now_us, MLEventKind::MigrationEnd),
            )
            &&& after == self.with_state(SimState { event_queue: after.state.event_queue, ..self.state })
        } else {
            after == self
        }
    }

    /// A plan is applied at once: all its jobs move, and each is paused until its transfers are through.
    pub open spec fn follows_plan(self, after: Self, plan: MigrationPlan) -> bool {
        let moves = plan_moves(
            placement_views(self.state.context.placements@),
            self.state.jobs@,
            plan.jobs@,
            plan.jobs@.len(),
        );
        exists|a: Self, b: Self, c: Self, d: Self, ids: Seq<FlowId>|
            {
                &&& #[trigger] self.pauses_plan(a, plan)
                &&& #[trigger] a.moves_plan(b, plan)
                &&& #[trigger] b.tracks_transfers(c, moves, ids)
                &&& #[trigger] c.settles(d)
                &&& d.may_end_phase(after)
            }
    }

    /// The pending plan, if there is one and no other is under way, is applied at once, unless it does not
    /// fit the state.
    pub open spec fn begins_phase(self, after: Self, r: Result<(), SimFault>) -> bool {
        if self.state.migrating {
            r is Ok && after == self
        } else {
            match self.state.pending_migration {
                None => r is Ok && after == self,
                Some(plan) => if self.state.plan_fits(plan.jobs@) {
                    r is Ok && self.follows_plan(after, plan)
                } else {
                    &&& r == Err::<(), SimFault>(SimFault::InvalidPlan)
                    &&& after == self.with_state(SimState { pending_migration: None, ..self.state })
                },
            }
        }
    }
}

impl<S: JobScheduler, FS: FlowScheduler, M: SystemModule<S, FS>, N: NetworkSimulator> MLSimulator<S, FS, M, N> {
    /// The pending plan is applied at once: all its jobs move, and each is paused until the
    /// transfers of its workers are through.
    pub fn handle_migration_begin(&mut self) -> (r: Result<(), SimFault>)
        requires
            old(self).ok(),
        ensures
            final(self).ok(),
            final(self).state.jobs@.dom() == old(self).state.jobs@.dom(),
            final(self).state.now_us == old(self).state.now_us,
            old(self).begins_phase(*final(self), r),
    {
        if self.state.migrating {
            return Ok(());
        }
        if self.state.pending_migration.is_none() {
            return Ok(());
        }
        let ghost s0 = self.state;
        let plan = match self.state.pending_migration.take() {
            Some(p) => p,
            None => {
                return Ok(());
            },
        };
        if !self.state.check_plan_fits(&plan) {
            return Err(SimFault::InvalidPlan);
        }
        self.state.migrating = true;
        self.state.migration_complete_enqueued = false;
        self.state.active_migration_flows.clear();
        self.state.migration_flows_by_job.clear();
        let moves = self.state.compute_worker_migrations(&plan);
        let affected = self.state.mark_plan_migrating(&plan);
        self.flow_scheduler.on_migration_begin(self.state.now_us, &self.state.context, &affected);
        let ghost s1 = self.state;
        let ghost paused = *self;
        self.state.apply_migration_plan(&plan);
        let ghost s2 = self.state;
        let ghost moved = *self;
        let ghost mut flow_ids: Seq<FlowId> = Seq::empty();
        proof {
            assert(old(self).pauses_plan(paused, plan));
            assert(paused.moves_plan(moved, plan));
            assert forall|j: JobId| #[trigger] s2.jobs@.contains_key(j) implies s1.jobs@.contains_key(j)
                && s2.jobs@[j].num_workers == s1.jobs@[j].num_workers && s2.jobs@[j].id == s1.jobs@[j].id by {
                assert(s1.jobs@.contains_key(j));
                if exists|i: int| 0 <= i < plan.jobs@.len() && (#[trigger] plan.jobs@[i]).job_id == j {
                    let i = choose|i: int| 0 <= i < plan.jobs@.len() && (#[trigger] plan.jobs@[i]).job_id == j;
                    assert(crate::simulator::migration::job_moved(
                        s1.jobs@[plan.jobs@[i].job_id],
                        s2.jobs@[plan.jobs@[i].job_id],
                        plan.jobs@[i].worker_to_host@,
                    ));
                }
            }
        }
        let mut i: usize = 0;
        while i < moves.len()
            invariant
                i <= moves.len(),
                self.ok(),
                self.state.jobs == s2.jobs,
                self.state.now_us == s0.now_us,
                self.state.migrating,
                self.state.pending_migration is None,
                self.state.jobs_migrating@ == affected@.to_set(),
                transfers_tracked(&s2, &self.state, moves@, flow_ids, i as nat),
                s2.now_us == s0.now_us,
                flow_ids.len() == transfer_arrivals(moves@, s2.now_us, i as nat).len(),
                flows_entered(
                    moved.network_sim,
                    self.network_sim,
                    transfer_arrivals(moves@, s2.now_us, i as nat),
                    flow_ids,
                    flow_ids.len(),
                ),
                *self == (MLSimulator { state: self.state, network_sim: self.network_sim, ..moved }),
            decreases moves.len() - i,
        {
            let info = moves[i];
            let ghost before = self.state;
            let ghost net = self.network_sim;
            if info.src_host != info.dst_host && info.model_size_bytes != 0 {
                let flow_id: usize = self.network_sim.add_flow_arrival(
                    self.state.now_us,
                    info.src_host,
                    info.dst_host,
                    info.model_size_bytes,
                    0,
                );
                self.state.register_migration_flow(flow_id, info);
                let ghost registered = self.state;
                self.state.track_migration_flow(info.job_id, flow_id);
                proof {
                    lemma_transfer_tracked(
                        &s2,
                        &before,
                        &registered,
                        &self.state,
                        moves@,
                        flow_ids,
                        i as nat,
                        flow_id,
                    );
                    lemma_entered_next(
                        moved.network_sim,
                        net,
                        self.network_sim,
                        transfer_arrivals(moves@, s2.now_us, i as nat),
                        flow_ids,
                        (Arrival {
                            now_us: s2.now_us,
                            src_host: info.src_host,
                            dst_host: info.dst_host,
                            size_bytes: info.model_size_bytes,
                            job_flow_idx: 0,
                        }),
                        flow_id,
                    );
                    flow_ids = flow_ids.push(flow_id);
                }
            }
            i += 1;
        }
        let ids = self.state.jobs_migrating.sorted();
        let ghost sent_off = *self;
        proof {
            lemma_ascending(ids@, self.state.jobs_migrating@);
            assert(moved.tracks_transfers(sent_off, moves@, flow_ids));
        }
        let mut k: usize = 0;
        while k < ids.len()
            invariant
                k <= ids.len(),
                self.ok(),
                self.state.jobs@.dom() == s0.jobs@.dom(),
                self.state.now_us == s0.now_us,
                sent_off.settles_jobs(*self, ids@, k as nat),
            decreases ids.len() - k,
        {
            let id: usize = ids[k];
            let ghost before = *self;
            if !self.state.migration_flows_by_job.contains_key(&id) {
                self.finish_idle_migration(id);
            }
            proof {
                sent_off.lemma_settles_next(before, *self, ids@, k as nat);
            }
            k += 1;
        }
        let ghost settled = *self;
        if self.state.jobs_migrating.is_empty() {
            self.state.event_queue.push(MLEvent::at(self.state.now_us, MLEventKind::MigrationEnd));
        }
        proof {
            assert(sent_off.settles(settled));
            assert(settled.may_end_phase(*self));
        }
        Ok(())
    }

    /// A job whose workers move without transfers goes on at once.
    fn finish_idle_migration(&mut self, job_id: JobId)
        requires
            old(self).ok(),
        ensures
            final(self).ok(),
            final(self).state.jobs@.dom() == old(self).state.jobs@.dom(),
            final(self).state.now_us == old(self).state.now_us,
            old(self).settles_job(*final(self), job_id),
    {
        let ghost s0 = self.state;
        self.state.jobs_migrating.remove(&job_id);
        let ghost s1 = self.state;
        let ghost released = *self;
        self.state.reassign_ranks_after_migration(job_id);
        let ghost s2 = self.state;
        let ghost ranked = *self;
        proof {
            assert(old(self).releases_job(released, job_id));
            assert(released.follows_ranks(ranked, job_id));
            assert forall|j: JobId| #[trigger] s2.jobs@.contains_key(j) implies s1.jobs@.contains_key(j)
                && s2.jobs@[j].num_workers == s1.jobs@[j].num_workers && s2.jobs@[j].id == s1.jobs@[j].id by {
                assert(s1.jobs@.contains_key(j));
            }
            assert(s2.jobs@.dom() =~= s0.jobs@.dom());
        }
        let mut timers = self.take_timers();
        if let Some(job) = self.state.jobs.get(&job_id) {
            self.system_module.on_migration_end(
                self.state.now_us,
                &self.state.context,
                job_id,
                job,
                &mut self.scheduler,
                &mut self.flow_scheduler,
                &mut timers,
            );
        }
        let ghost asked = timers@;
        self.state.drain_pending_timers(timers);
        proof {
            if ranked.state.jobs@.contains_key(job_id) {
                ranked.lemma_consults(
                    *self,
                    Notice::MigrationEnd(job_id, ranked.state.jobs@[job_id]),
                    None,
                    asked,
                );
            }
            assert(ranked.tells_migrated(*self, job_id));
        }
    }
}

/// Nothing is kept of a job that is done, and completed flows are counted from zero.
pub open spec fn job_forgotten(before: &SimState, after: &SimState, job_id: JobId) -> bool {
    &&& after.jobs@ == before.jobs@.remove(job_id)
    &&& after.worker_iter_barrier@ == before.worker_iter_barrier@.remove(job_id)
    &&& after.context.job_iterations@ == before.context.job_iterations@.remove(job_id)
    &&& after.context.worker_send_progress@ == without_job(before.context.worker_send_progress@, job_id)
    &&& after.context.flow_completions_per_job@ == Map::new(
        |j: JobId| before.active_jobs@.contains(j),
        |j: JobId| 0u64,
    )
    &&& *after == (SimState {
        jobs: after.jobs,
        worker_iter_barrier: after.worker_iter_barrier,
        context: MLContext {
            job_iterations: after.context.job_iterations,
            worker_send_progress: after.context.worker_send_progress,
            flow_completions_per_job: after.context.flow_completions_per_job,
            ..before.context
        },
        ..*before
    })
}

impl<S: JobScheduler, FS: FlowScheduler, M: SystemModule<S, FS>, N: NetworkSimulator> MLSimulator<S, FS, M, N> {
    /// A job that is done has left its hosts, and the job scheduler has heard of it.
    pub open spec fn leaves_hosts(self, after: Self, job_id: JobId) -> bool {
        &&& job_released(&self.state, &after.state, job_id)
        &&& self.scheduler.hears_completed(job_id, self.state.now_us, after.scheduler)
        &&& after.same_scheduling(&self)
        &&& after == (MLSimulator { state: after.state, scheduler: after.scheduler, ..self })
    }

    /// A job takes no part in the migration that is pending.
    pub open spec fn cancels_migration(self, after: Self, job_id: JobId, waiting: Seq<JobId>) -> bool {
        &&& migration_cancelled(&self.state, &after.state, job_id, waiting)
        &&& after == self.with_state(after.state)
    }

    /// A job that is done has left its hosts and the migration that it was to take part in.
    pub open spec fn leaves(self, after: Self, job_id: JobId) -> bool {
        exists|a: Self|
            {
                &&& #[trigger] self.leaves_hosts(a, job_id)
                &&& if self.state.pending_job_migrations@.contains_key(job_id) {
                    exists|b: Self, waiting: Seq<JobId>|
                        {
                            &&& #[trigger] a.cancels_migration(b, job_id, waiting)
                            &&& b.frees_jobs(after, waiting, job_id, waiting.len())
                        }
                } else {
                    after == a
                }
            }
    }

    /// A reconfiguration is asked for.
    pub open spec fn asks_reconfigure(self, after: Self) -> bool {
        reconfigure_asked(&self.state, &after.state) && after == self.with_state(after.state)
    }

    /// A job is done: it has left, a reconfiguration is asked for, the waiting jobs are served, and the job
    /// is forgotten.
    pub open spec fn completes_job(self, after: Self, job_id: JobId) -> bool {
        exists|a: Self, b: Self, c: Self, d: Self|
            {
                &&& #[trigger] self.leaves(a, job_id)
                &&& #[trigger] a.tells_completed(b, job_id)
                &&& #[trigger] b.asks_reconfigure(c)
                &&& #[trigger] c.serves(d)
                &&& job_forgotten(&d.state, &after.state, job_id)
                &&& after == d.with_state(after.state)
            }
    }
}

impl<S: JobScheduler, FS: FlowScheduler, M: SystemModule<S, FS>, N: NetworkSimulator> MLSimulator<S, FS, M, N> {
    /// A job is done. It leaves its hosts and any pending migration, waiting jobs get a chance, and
    /// nothing is kept of it.
    pub fn handle_job_completion(&mut self, job_id: JobId) -> (r: Result<(), SimFault>)
        requires
            old(self).ok(),
        ensures
            final(self).ok(),
            final(self).state.now_us == old(self).state.now_us,
            r == (if old(self).state.jobs@.contains_key(job_id) {
                Ok::<(), SimFault>(())
            } else {
                Err(SimFault::UnknownJob(job_id))
            }),
            r is Err ==> *final(self) == *old(self),
            r is Ok ==> {
                &&& final(self).state.jobs@.dom() == old(self).state.jobs@.dom().remove(job_id)
                &&& old(self).completes_job(*final(self), job_id)
            },
    {
        if !self.state.jobs.contains_key(&job_id) {
            return Err(SimFault::UnknownJob(job_id));
        }
        let ghost s0 = self.state;
        let now: u64 = self.state.now_us;
        self.state.release_job(job_id);
        self.scheduler.notify_job_completed(job_id, now);
        let ghost released = *self;
        proof {
            assert(old(self).leaves_hosts(released, job_id));
        }
        if let Some(dependents) = self.state.cancel_migration(job_id) {
            proof {
                assert(released.cancels_migration(*self, job_id, dependents@));
            }
            self.release_dependents(&dependents, job_id);
        }
        let ghost left = *self;
        proof {
            assert(old(self).leaves(left, job_id));
        }
        let mut timers = self.take_timers();
        {
            let job = self.state.jobs.get(&job_id).unwrap();
            self.system_module.on_job_completed(
                now,
                &self.state.context,
                job_id,
                job,
                &mut self.scheduler,
                &mut self.flow_scheduler,
                &mut timers,
            );
        }
        let ghost wanted = timers@;
        self.state.drain_pending_timers(timers);
        let ghost consulted = *self;
        self.state.request_reconfigure();
        let ghost asked = *self;
        self.try_schedule_queued_jobs();
        let ghost served = *self;
        let ghost s4 = self.state;
        proof {
            left.lemma_consults(
                consulted,
                Notice::JobCompleted(job_id, left.state.jobs@[job_id]),
                None,
                wanted,
            );
            assert(left.tells_completed(consulted, job_id));
            assert(consulted.asks_reconfigure(asked));
            assert(asked.serves(served));
        }
        remove_job_entries(&mut self.state.context.worker_send_progress, job_id);
        self.state.context.reset_completions(&self.state.active_jobs);
        self.state.context.job_iterations.remove(&job_id);
        self.state.worker_iter_barrier.remove(&job_id);
        self.state.jobs.remove(&job_id);
        proof {
            assert(s4.jobs@.dom() == s0.jobs@.dom());
            assert(self.state.jobs@.dom() =~= s0.jobs@.dom().remove(job_id));
            assert forall|j: JobId| #[trigger] self.state.jobs@.contains_key(j) implies s4.jobs@.contains_key(j)
                && self.state.jobs@[j] == s4.jobs@[j] by {}
            assert(job_forgotten(&s4, &self.state, job_id));
        }
        Ok(())
    }
}

/// What a poll that was in the event queue leaves before flows are released.
pub open spec fn poll_cleared(s: &SimState) -> SimState {
    SimState {
        next_poll_scheduled: if s.next_poll_scheduled == Some(s.now_us) {
            None
        } else {
            s.next_poll_scheduled
        },
        ..*s
    }
}

impl<S: JobScheduler, FS: FlowScheduler, M: SystemModule<S, FS>, N: NetworkSimulator> MLSimulator<S, FS, M, N> {
    /// An event has been applied, or does not fit the state.
    pub open spec fn applies(self, after: Self, e: MLEvent, r: Result<(), SimFault>) -> bool {
        match e.kind {
            MLEventKind::JobArrival => match e.job_id {
                Some(j) => r is Ok && self.arrives(after, j),
                None => self.rejects(after, r),
            },
            MLEventKind::ComputeCompletion => match (e.job_id, e.worker_id, e.event_id) {
                (Some(j), Some(w), Some(x)) => self.computes(after, j, w, x, r),
                _ => self.rejects(after, r),
            },
            MLEventKind::FlowSendReady => match (e.job_id, e.worker_id, e.event_id) {
                (Some(j), Some(w), Some(x)) => self.readies_send(after, j, w, x, r),
                _ => self.rejects(after, r),
            },
            MLEventKind::FlowReceiveReady => match (e.job_id, e.worker_id, e.event_id) {
                (Some(j), Some(w), Some(x)) => self.readies_receive(after, j, w, x, r),
                _ => self.rejects(after, r),
            },
            MLEventKind::FlowSendComplete => match e.flow_id {
                Some(f) => self.ends_flow(after, f, r),
                None => self.rejects(after, r),
            },
            MLEventKind::JobComplete => match e.job_id {
                Some(j) => if self.state.jobs@.contains_key(j) {
                    r is Ok && self.completes_job(after, j)
                } else {
                    r == Err::<(), SimFault>(SimFault::UnknownJob(j)) && after == self
                },
                None => self.rejects(after, r),
            },
            MLEventKind::Reconfigure => self.reconfigures(after, r),
            MLEventKind::MigrationBegin => self.begins_phase(after, r),
            MLEventKind::MigrationEnd => r is Ok && self.ends_phase(after),
            MLEventKind::FlowSchedulerPoll => r is Ok && self.with_state(poll_cleared(&self.state)).polls(after),
            MLEventKind::PostMigrationRestart => {
                &&& r is Ok
                &&& match e.job_id {
                    Some(j) if self.state.jobs@.contains_key(j) => iterations_begun(
                        &self.state,
                        &after.state,
                        j,
                        false,
                    ) && after == self.with_state(after.state),
                    _ => after == self,
                }
            },
            MLEventKind::SystemTimer => r is Ok && match e.timer_id {
                Some(t) => self.consults(after, Notice::Timer(t), None),
                None => after == self,
            },
            MLEventKind::NetworkEvent => self.rejects(after, r),
        }
    }

    /// An event lacks what its kind needs.
    pub open spec fn rejects(self, after: Self, r: Result<(), SimFault>) -> bool {
        r == Err::<(), SimFault>(SimFault::MalformedEvent) && after == self
    }
}

impl<S: JobScheduler, FS: FlowScheduler, M: SystemModule<S, FS>, N: NetworkSimulator> MLSimulator<S, FS, M, N> {
    /// Applies an event to the state.
    fn dispatch(&mut self, e: MLEvent) -> (r: Result<(), SimFault>)
        requires
            old(self).ok(),
        ensures
            final(self).ok(),
            final(self).state.now_us == old(self).state.now_us,
            old(self).applies(*final(self), e, r),
    {
        match e.kind {
            MLEventKind::JobArrival => match e.job_id {
                Some(job_id) => {
                    self.handle_job_arrival(job_id);
                    Ok(())
                },
                None => Err(SimFault::MalformedEvent),
            },
            MLEventKind::ComputeCompletion => match (e.job_id, e.worker_id, e.event_id) {
                (Some(j), Some(w), Some(x)) => self.handle_compute_completion(j, w, x),
                _ => Err(SimFault::MalformedEvent),
            },
            MLEventKind::FlowSendReady => match (e.job_id, e.worker_id, e.event_id) {
                (Some(j), Some(w), Some(x)) => self.handle_flow_send_ready(j, w, x),
                _ => Err(SimFault::MalformedEvent),
            },
            MLEventKind::FlowReceiveReady => match (e.job_id, e.worker_id, e.event_id) {
                (Some(j), Some(w), Some(x)) => self.handle_flow_receive_ready(j, w, x),
                _ => Err(SimFault::MalformedEvent),
            },
            MLEventKind::FlowSendComplete => match e.flow_id {
                Some(f) => self.handle_flow_send_complete(f),
                None => Err(SimFault::MalformedEvent),
            },
            MLEventKind::JobComplete => match e.job_id {
                Some(j) => self.handle_job_completion(j),
                None => Err(SimFault::MalformedEvent),
            },
            MLEventKind::Reconfigure => self.handle_reconfigure(),
            MLEventKind::MigrationBegin => self.handle_migration_begin(),
            MLEventKind::MigrationEnd => {
                self.handle_migration_end();
                Ok(())
            },
            MLEventKind::FlowSchedulerPoll => {
                let scheduled = match self.state.next_poll_scheduled {
                    Some(t) => t == self.state.now_us,
                    None => false,
                };
                if scheduled {
                    self.state.next_poll_scheduled = None;
                }
                proof {
                    assert(*self == old(self).with_state(poll_cleared(&old(self).state)));
                }
                self.poll_and_install_ready_flows();
                Ok(())
            },
            MLEventKind::PostMigrationRestart => {
                if let Some(j) = e.job_id {
                    self.restart_job_after_migration(j);
                }
                Ok(())
            },
            MLEventKind::SystemTimer => {
                if let Some(t) = e.timer_id {
                    self.handle_system_timer(t);
                }
                Ok(())
            },
            MLEventKind::NetworkEvent => Err(SimFault::MalformedEvent),
        }
    }
}

/// The event that is first due has left the event queue, and its time is the time now.
pub open spec fn event_taken(before: &SimState, after: &SimState, e: MLEvent) -> bool {
    &&& is_first_due(before.event_queue@, e)
    &&& after.event_queue@ == before.event_queue@.remove(e)
    &&& *after == (SimState {
        event_queue: after.event_queue,
        now_us: e.time_us,
        context: MLContext { time_us: e.time_us, ..before.context },
        ..*before
    })
}

/// Some event is due before the given time.
pub open spec fn due_before(m: Multiset<MLEvent>, time_us: u64) -> bool {
    exists|e: MLEvent| #[trigger] m.count(e) > 0 && e.time_us < time_us
}

/// The network has made a step: its time is the time now, and if a flow is through, that is in the
/// event queue.
pub open spec fn network_stepped(
    before: &SimState,
    after: &SimState,
    kind: EventKind,
    flow_id: FlowId,
    now_us: u64,
) -> bool {
    &&& after.event_queue@ == if kind == EventKind::Completion {
        before.event_queue@.insert(MLEvent::of_flow(now_us, MLEventKind::FlowSendComplete, flow_id))
    } else {
        before.event_queue@
    }
    &&& *after == (SimState {
        event_queue: after.event_queue,
        now_us,
        context: MLContext { time_us: now_us, ..before.context },
        ..*before
    })
}

impl SimState {
    /// Whether some event is due before the given time.
    pub fn is_due_before(&self, time_us: u64) -> (r: bool)
        ensures
            r == due_before(self.event_queue@, time_us),
    {
        match self.event_queue.peek_time() {
            Some(t) => {
                proof {
                    let first = choose|e: MLEvent| #[trigger] is_first_due(self.event_queue@, e) && e.time_us == t;
                    assert(self.event_queue@.count(first) > 0);
                    assert forall|e: MLEvent| #[trigger] self.event_queue@.count(e) > 0 implies t <= e.time_us by {
                        assert(due_no_later(first, e));
                    }
                }
                t < time_us
            },
            None => {
                proof {
                    assert forall|e: MLEvent| #[trigger] self.event_queue@.count(e) == 0 by {
                        if self.event_queue@.count(e) > 0 {
                            assert(self.event_queue@.remove(e).len() == self.event_queue@.len() - 1);
                        }
                    }
                }
                false
            },
        }
    }

    /// Takes note of a step of the network.
    pub fn note_network_step(&mut self, kind: EventKind, flow_id: FlowId, now_us: u64)
        requires
            old(self).wf(),
        ensures
            final(self).wf(),
            network_stepped(old(self), final(self), kind, flow_id, now_us),
    {
        self.now_us = now_us;
        self.context.time_us = now_us;
        if kind == EventKind::Completion {
            self.event_queue.push(MLEvent::for_flow(now_us, MLEventKind::FlowSendComplete, flow_id));
        }
    }
}

impl<S: JobScheduler, FS: FlowScheduler, M: SystemModule<S, FS>, N: NetworkSimulator> MLSimulator<S, FS, M, N> {
    /// The event that is first due has been taken.
    pub open spec fn takes_event(self, after: Self, e: MLEvent) -> bool {
        event_taken(&self.state, &after.state, e) && after == self.with_state(after.state)
    }

    /// The next event is due in the simulator, not in the network.
    pub open spec fn steps_state(self, after: Self, r: Result<Option<MLEventKind>, SimFault>) -> bool {
        exists|taken: Self, applied: Self, e: MLEvent, done: Result<(), SimFault>|
            {
                &&& #[trigger] self.takes_event(taken, e)
                &&& #[trigger] taken.applies(applied, e, done)
                &&& match done {
                    Ok(()) => {
                        &&& r == Ok::<Option<MLEventKind>, SimFault>(Some(e.kind))
                        &&& work_scheduled(&applied.state, &after.state)
                        &&& after == applied.with_state(after.state)
                    },
                    Err(f) => r == Err::<Option<MLEventKind>, SimFault>(f) && after == applied,
                }
            }
    }

    /// The next event is due in the network, or there is none. What it is about is up to the network.
    pub open spec fn steps_network(self, after: Self, r: Result<Option<MLEventKind>, SimFault>) -> bool {
        &&& after == (MLSimulator { state: after.state, network_sim: after.network_sim, ..self })
        &&& {
            ||| r == Ok::<Option<MLEventKind>, SimFault>(Some(MLEventKind::NetworkEvent)) && exists|
                kind: EventKind,
                flow_id: FlowId,
                now_us: u64,
            |
                {
                    &&& self.network_sim.advances(after.network_sim, Some((kind, flow_id)))
                    &&& after.network_sim.tells_time(now_us)
                    &&& #[trigger] network_stepped(&self.state, &after.state, kind, flow_id, now_us)
                }
            ||| {
                &&& r == Ok::<Option<MLEventKind>, SimFault>(None)
                &&& self.network_sim.advances(after.network_sim, None)
                &&& after.state == self.state
            }
        }
    }

    /// The next event has been taken: from the event queue if one is due there before the time at which
    /// the network has its next, else from the network.
    pub open spec fn takes_turn(
        self,
        after: Self,
        network_time_us: u64,
        r: Result<Option<MLEventKind>, SimFault>,
    ) -> bool {
        if due_before(self.state.event_queue@, network_time_us) {
            self.steps_state(after, r)
        } else {
            self.steps_network(after, r)
        }
    }

    /// One step of the simulation: flows are released first; then the next event is taken, from the event
    /// queue or from the network.
    pub open spec fn steps(self, after: Self, r: Result<Option<MLEventKind>, SimFault>) -> bool {
        exists|polled: Self, network_time_us: u64|
            {
                &&& #[trigger] self.polls(polled)
                &&& polled.network_sim.tells_next(network_time_us)
                &&& #[trigger] polled.takes_turn(after, network_time_us, r)
            }
    }
}

impl<S: JobScheduler, FS: FlowScheduler, M: SystemModule<S, FS>, N: NetworkSimulator> MLSimulator<S, FS, M, N> {
    /// Processes the next event. The result is its kind, or nothing if the simulation is complete.
    /// An event that does not fit the state is a fault.
    pub fn advance_next_step(&mut self) -> (r: Result<Option<MLEventKind>, SimFault>)
        requires
            old(self).ok(),
        ensures
            final(self).ok(),
            old(self).steps(*final(self), r),
    {
        self.poll_and_install_ready_flows();
        let ghost polled = *self;
        proof {
            assert(old(self).polls(polled));
        }
        let network_time: u64 = self.network_sim.peek_time();
        if self.state.is_due_before(network_time) {
            proof {
                let e = choose|e: MLEvent| #[trigger] polled.state.event_queue@.count(e) > 0 && e.time_us < network_time;
                assert(polled.state.event_queue@.remove(e).len() == polled.state.event_queue@.len() - 1);
            }
            let e = self.state.event_queue.pop().unwrap();
            self.state.now_us = e.time_us;
            self.state.context.time_us = e.time_us;
            let ghost taken = *self;
            let done = self.dispatch(e);
            let ghost applied = *self;
            proof {
                assert(polled.takes_event(taken, e));
                assert(taken.applies(applied, e, done));
            }
            match done {
                Err(f) => {
                    proof {
                        assert(polled.takes_turn(*self, network_time, Err(f)));
                    }
                    return Err(f);
                },
                Ok(()) => {},
            }
            self.state.schedule_ready_work();
            proof {
                let before = applied.state.jobs@;
                assert forall|j: JobId| #[trigger] self.state.jobs@.contains_key(j) implies before.contains_key(j)
                    && self.state.jobs@[j].num_workers == before[j].num_workers && self.state.jobs@[j].id == before[j].id by {
                    assert(before.contains_key(j));
                }
            }
            proof {
                assert(polled.takes_turn(*self, network_time, Ok(Some(e.kind))));
            }
            Ok(Some(e.kind))
        } else {
            match self.network_sim.advance_next_step() {
                Some((kind, flow_id)) => {
                    let now: u64 = self.network_sim.now_us();
                    self.state.note_network_step(kind, flow_id, now);
                    proof {
                        assert(network_stepped(&polled.state, &self.state, kind, flow_id, now));
                        assert(polled.takes_turn(*self, network_time, Ok(Some(MLEventKind::NetworkEvent))));
                    }
                    Ok(Some(MLEventKind::NetworkEvent))
                },
                None => {
                    proof {
                        assert(polled.takes_turn(*self, network_time, Ok(None)));
                    }
                    Ok(None)
                },
            }
        }
    }

    /// A simulator for the given number of hosts. The system module is initialised.
    pub fn new(num_hosts: usize, network_sim: N, scheduler: S, flow_scheduler: FS, system_module: M) -> (r: Self)
        ensures
            r.ok(),
            r.network_sim == network_sim,
            r.scheduler.queue() == scheduler.queue(),
            same_strategy(&r.scheduler, &scheduler),
            exists|empty: SimState| #[trigger]
                empty.is_initial(num_hosts) && (MLSimulator {
                    state: empty,
                    network_sim,
                    scheduler,
                    flow_scheduler,
                    system_module,
                }).consults(r, Notice::Init, None),
    {
        let mut sim = MLSimulator { state: SimState::new(num_hosts), network_sim, scheduler, flow_scheduler, system_module };
        let ghost fresh = sim;
        let mut timers = sim.take_timers();
        sim.system_module.on_init(&sim.state.context, &mut sim.scheduler, &mut sim.flow_scheduler, &mut timers);
        let ghost asked = timers@;
        sim.state.drain_pending_timers(timers);
        proof {
            fresh.lemma_consults(sim, Notice::Init, None, asked);
            assert(fresh.state.is_initial(num_hosts));
        }
        sim
    }

    /// Sets how long jobs wait before they resume after a migration.
    pub fn set_post_migration_delay_us(&mut self, delay_us: u64)
        ensures
            *final(self) == (MLSimulator {
                state: SimState { post_migration_delay_us: delay_us, ..old(self).state },
                ..*old(self)
            }),
    {
        self.state.post_migration_delay_us = delay_us;
    }

    /// Sets that delay as a number of iterations of an estimated length.
    pub fn set_post_migration_delay_iterations(&mut self, num_iterations: u64, iteration_time_us: u64)
        requires
            num_iterations * iteration_time_us <= u64::MAX,
        ensures
            final(self).state.post_migration_delay_us == num_iterations * iteration_time_us,
            *final(self) == (MLSimulator {
                state: SimState {
                    post_migration_delay_us: final(self).state.post_migration_delay_us,
                    ..old(self).state
                },
                ..*old(self)
            }),
    {
        self.state.post_migration_delay_us = num_iterations * iteration_time_us;
    }

    /// Adds the arrival of a job at the given time.
    pub fn add_job_arrival(&mut self, arrival_time_us: u64, job: MLJob) -> (r: JobId)
        requires
            old(self).ok(),
            job_ok(&job),
            old(self).scheduler.accepts(job.id, job.num_workers, old(self).state.host_busy@.len()),
        ensures
            final(self).ok(),
            r == job.id,
            final(self).state.jobs@ == old(self).state.jobs@.insert(
                job.id,
                (MLJob { submit_time_us: arrival_time_us, ..job }),
            ),
            final(self).state.event_queue@ == old(self).state.event_queue@.insert(
                MLEvent::of_job(arrival_time_us, MLEventKind::JobArrival, job.id),
            ),
            *final(self) == (MLSimulator {
                state: SimState {
                    jobs: final(self).state.jobs,
                    event_queue: final(self).state.event_queue,
                    ..old(self).state
                },
                ..*old(self)
            }),
    {
        self.state.add_job_arrival(arrival_time_us, job)
    }

    /// Asks for a reconfiguration, unless one is in the event queue.
    pub fn request_reconfigure(&mut self)
        ensures
            reconfigure_asked(&old(self).state, &final(self).state),
            *final(self) == (MLSimulator { state: final(self).state, ..*old(self) }),
    {
        self.state.request_reconfigure();
    }

    /// The time now.
    pub fn current_time_us(&self) -> (r: u64)
        ensures
            r == self.state.now_us,
    {
        self.state.now_us
    }

    /// The jobs.
    pub fn get_all_jobs(&self) -> (r: &DHashMap<JobId, MLJob>)
        ensures
            *r == self.state.jobs,
    {
        &self.state.jobs
    }

    /// Identifier, submission, start and completion of the complete jobs, by ascending job number.
    pub fn get_job_statistics(&self) -> (r: Vec<(JobId, u64, u64, Option<u64>)>)
        ensures
            ({
                let ids = ascending(self.state.jobs@.dom());
                r@ == job_statistics(self.state.jobs@, ids, ids.len())
            }),
    {
        let ids = self.state.jobs.sorted_keys();
        let mut r: Vec<(JobId, u64, u64, Option<u64>)> = Vec::new();
        proof {
            lemma_ascending(ids@, self.state.jobs@.dom());
        }
        let mut i: usize = 0;
        while i < ids.len()
            invariant
                i <= ids.len(),
                forall|k: int| 0 <= k < ids@.len() ==> self.state.jobs@.contains_key(#[trigger] ids@[k]),
                r@ == job_statistics(self.state.jobs@, ids@, i as nat),
            decreases ids.len() - i,
        {
            let job = self.state.jobs.get(&ids[i]).unwrap();
            if job.state == JobState::Completed {
                let start: u64 = match job.start_time_us {
                    Some(t) => t,
                    None => 0,
                };
                r.push((job.id, job.submit_time_us, start, job.completion_time_us));
            }
            i += 1;
        }
        r
    }
}

/// What is reported of the complete jobs among the first `n` of `ids`.
pub open spec fn job_statistics(jobs: Map<JobId, MLJob>, ids: Seq<JobId>, n: nat) -> Seq<(JobId, u64, u64, Option<u64>)>
    decreases n,
{
    if n == 0 {
        Seq::empty()
    } else {
        let rest = job_statistics(jobs, ids, (n - 1) as nat);
        let job = jobs[ids[n - 1]];
        if job.state == JobState::Completed {
            rest.push(
                (
                    job.id,
                    job.submit_time_us,
                    match job.start_time_us {
                        Some(t) => t,
                        None => 0,
                    },
                    job.completion_time_us,
                ),
            )
        } else {
            rest
        }
    }
}

} // verus!
