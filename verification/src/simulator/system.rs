//! Migration plans and timers.

use vstd::prelude::*;

use crate::simulator::context::MLContext;
use crate::simulator::flow_scheduler::FlowScheduler;
use crate::simulator::job_scheduler::{same_strategy, JobScheduler};
use crate::simulator::ml_job::{job_flow_indices, lemma_flow_index_bound, total_sends, MLJob};
use crate::simulator::ml_worker::{JobId, MLWorker, WorkerId};
use crate::utils::data::{DHashMap, DHashSet};

verus! {

/// Identifies a timer of the system module.
pub type TimerId = u64;

/// A timer that is to fire.
#[derive(Debug, Clone, Copy)]
pub struct TimerRequest {
    /// Absolute time.
    pub fire_at_us: u64,
    pub timer_id: TimerId,
}

/// What a system module is told.
pub enum Notice {
    /// The simulation begins.
    Init,
    /// A job has been placed and runs.
    JobScheduled(JobId, MLJob),
    /// A job has completed.
    JobCompleted(JobId, MLJob),
    /// Routing and scheduling are to be updated.
    Reconfigure,
    /// A job has migrated.
    MigrationEnd(JobId, MLJob),
    /// A timer has fired.
    Timer(TimerId),
}

/// A system module and what it can change.
pub struct Control<M, S, FS> {
    pub module: M,
    pub scheduler: S,
    pub flow_scheduler: FS,
    /// The timers that are asked for.
    pub timers: Seq<TimerRequest>,
}

/// A module that observes the cluster and steers it. It may ask for timers, and leaves the queue of
/// the job scheduler alone. Each module says how it reacts to what it is told.
pub trait SystemModule<S: JobScheduler, FS: FlowScheduler>: Sized {
    /// What a notice changes, and the plan that it leads to. Unless a module says more, that is open.
    open spec fn reacts(
        before: Control<Self, S, FS>,
        now_us: u64,
        ctx: MLContext,
        notice: Notice,
        after: Control<Self, S, FS>,
        plan: Option<MigrationPlan>,
    ) -> bool {
        true
    }

    /// The simulation begins.
    fn on_init(
        &mut self,
        ctx: &MLContext,
        scheduler: &mut S,
        flow_scheduler: &mut FS,
        timers: &mut Vec<TimerRequest>,
    )
        ensures
            final(scheduler).queue() == old(scheduler).queue(),
            same_strategy(final(scheduler), old(scheduler)),
            Self::reacts(
                Control {
                    module: *old(self),
                    scheduler: *old(scheduler),
                    flow_scheduler: *old(flow_scheduler),
                    timers: old(timers)@,
                },
                ctx.time_us,
                *ctx,
                Notice::Init,
                Control {
                    module: *final(self),
                    scheduler: *final(scheduler),
                    flow_scheduler: *final(flow_scheduler),
                    timers: final(timers)@,
                },
                None,
            ),
    ;

    /// A job has been placed and runs.
    fn on_job_scheduled(
        &mut self,
        now_us: u64,
        ctx: &MLContext,
        job_id: JobId,
        job: &MLJob,
        scheduler: &mut S,
        flow_scheduler: &mut FS,
        timers: &mut Vec<TimerRequest>,
    )
        ensures
            final(scheduler).queue() == old(scheduler).queue(),
            same_strategy(final(scheduler), old(scheduler)),
            Self::reacts(
                Control {
                    module: *old(self),
                    scheduler: *old(scheduler),
                    flow_scheduler: *old(flow_scheduler),
                    timers: old(timers)@,
                },
                now_us,
                *ctx,
                Notice::JobScheduled(job_id, *job),
                Control {
                    module: *final(self),
                    scheduler: *final(scheduler),
                    flow_scheduler: *final(flow_scheduler),
                    timers: final(timers)@,
                },
                None,
            ),
    ;

    /// A job has completed.
    fn on_job_completed(
        &mut self,
        now_us: u64,
        ctx: &MLContext,
        job_id: JobId,
        job: &MLJob,
        scheduler: &mut S,
        flow_scheduler: &mut FS,
        timers: &mut Vec<TimerRequest>,
    )
        ensures
            final(scheduler).queue() == old(scheduler).queue(),
            same_strategy(final(scheduler), old(scheduler)),
            Self::reacts(
                Control {
                    module: *old(self),
                    scheduler: *old(scheduler),
                    flow_scheduler: *old(flow_scheduler),
                    timers: old(timers)@,
                },
                now_us,
                *ctx,
                Notice::JobCompleted(job_id, *job),
                Control {
                    module: *final(self),
                    scheduler: *final(scheduler),
                    flow_scheduler: *final(flow_scheduler),
                    timers: final(timers)@,
                },
                None,
            ),
    ;

    /// Routing and scheduling are to be updated. The module may ask for a migration.
    fn on_reconfigure(
        &mut self,
        now_us: u64,
        ctx: &MLContext,
        scheduler: &mut S,
        flow_scheduler: &mut FS,
        timers: &mut Vec<TimerRequest>,
    ) -> (r: Option<MigrationPlan>)
        ensures
            final(scheduler).queue() == old(scheduler).queue(),
            same_strategy(final(scheduler), old(scheduler)),
            Self::reacts(
                Control {
                    module: *old(self),
                    scheduler: *old(scheduler),
                    flow_scheduler: *old(flow_scheduler),
                    timers: old(timers)@,
                },
                now_us,
                *ctx,
                Notice::Reconfigure,
                Control {
                    module: *final(self),
                    scheduler: *final(scheduler),
                    flow_scheduler: *final(flow_scheduler),
                    timers: final(timers)@,
                },
                r,
            ),
    ;

    /// A job has migrated; its ranks follow the new placement.
    fn on_migration_end(
        &mut self,
        now_us: u64,
        ctx: &MLContext,
        job_id: JobId,
        job: &MLJob,
        scheduler: &mut S,
        flow_scheduler: &mut FS,
        timers: &mut Vec<TimerRequest>,
    )
        ensures
            final(scheduler).queue() == old(scheduler).queue(),
            same_strategy(final(scheduler), old(scheduler)),
            Self::reacts(
                Control {
                    module: *old(self),
                    scheduler: *old(scheduler),
                    flow_scheduler: *old(flow_scheduler),
                    timers: old(timers)@,
                },
                now_us,
                *ctx,
                Notice::MigrationEnd(job_id, *job),
                Control {
                    module: *final(self),
                    scheduler: *final(scheduler),
                    flow_scheduler: *final(flow_scheduler),
                    timers: final(timers)@,
                },
                None,
            ),
    ;

    /// A timer has fired.
    fn on_timer(
        &mut self,
        now_us: u64,
        ctx: &MLContext,
        timer_id: TimerId,
        scheduler: &mut S,
        flow_scheduler: &mut FS,
        timers: &mut Vec<TimerRequest>,
    )
        ensures
            final(scheduler).queue() == old(scheduler).queue(),
            same_strategy(final(scheduler), old(scheduler)),
            Self::reacts(
                Control {
                    module: *old(self),
                    scheduler: *old(scheduler),
                    flow_scheduler: *old(flow_scheduler),
                    timers: old(timers)@,
                },
                now_us,
                *ctx,
                Notice::Timer(timer_id),
                Control {
                    module: *final(self),
                    scheduler: *final(scheduler),
                    flow_scheduler: *final(flow_scheduler),
                    timers: final(timers)@,
                },
                None,
            ),
    ;
}

/// A module that does nothing.
#[derive(Debug, Clone, Copy)]
pub struct NoopSystemModule;

impl<S: JobScheduler, FS: FlowScheduler> SystemModule<S, FS> for NoopSystemModule {
    /// Nothing changes.
    open spec fn reacts(
        before: Control<Self, S, FS>,
        now_us: u64,
        ctx: MLContext,
        notice: Notice,
        after: Control<Self, S, FS>,
        plan: Option<MigrationPlan>,
    ) -> bool {
        after == before && plan is None
    }

    fn on_init(
        &mut self,
        ctx: &MLContext,
        scheduler: &mut S,
        flow_scheduler: &mut FS,
        timers: &mut Vec<TimerRequest>,
    ) {
    }

    fn on_job_scheduled(
        &mut self,
        now_us: u64,
        ctx: &MLContext,
        job_id: JobId,
        job: &MLJob,
        scheduler: &mut S,
        flow_scheduler: &mut FS,
        timers: &mut Vec<TimerRequest>,
    ) {
    }

    fn on_job_completed(
        &mut self,
        now_us: u64,
        ctx: &MLContext,
        job_id: JobId,
        job: &MLJob,
        scheduler: &mut S,
        flow_scheduler: &mut FS,
        timers: &mut Vec<TimerRequest>,
    ) {
    }

    fn on_reconfigure(
        &mut self,
        now_us: u64,
        ctx: &MLContext,
        scheduler: &mut S,
        flow_scheduler: &mut FS,
        timers: &mut Vec<TimerRequest>,
    ) -> (r: Option<MigrationPlan>) {
        None
    }

    fn on_migration_end(
        &mut self,
        now_us: u64,
        ctx: &MLContext,
        job_id: JobId,
        job: &MLJob,
        scheduler: &mut S,
        flow_scheduler: &mut FS,
        timers: &mut Vec<TimerRequest>,
    ) {
    }

    fn on_timer(
        &mut self,
        now_us: u64,
        ctx: &MLContext,
        timer_id: TimerId,
        scheduler: &mut S,
        flow_scheduler: &mut FS,
        timers: &mut Vec<TimerRequest>,
    ) {
    }
}

/// New hosts for some jobs.
pub struct MigrationPlan {
    pub jobs: Vec<JobMigration>,
}

/// New hosts for the workers of a job that move.
pub struct JobMigration {
    pub job_id: JobId,
    pub worker_to_host: DHashMap<WorkerId, usize>,
}

/// The move of one worker.
#[derive(Debug, Clone, Copy, PartialEq, Eq, Structural)]
pub struct WorkerMigrationInfo {
    pub job_id: JobId,
    pub worker_id: WorkerId,
    pub src_host: usize,
    pub dst_host: usize,
    pub model_size_bytes: u64,
}

/// A migration that waits for its turn.
pub struct PendingJobMigration {
    pub moves: Vec<WorkerMigrationInfo>,
    /// Jobs that have to reach their iteration barrier first, because they hold hosts that this
    /// job moves to.
    pub waiting_for: DHashSet<JobId>,
    /// The job has reached its iteration barrier.
    pub at_barrier: bool,
    /// The transfers of the migration are under way.
    pub flows_started: bool,
}

/// The first flow index of migration flows.
pub const MIGRATION_FLOW_IDX_BASE: usize = 1_000_000;

/// The flow index of the migration flow of a worker.
pub fn migration_flow_idx(worker_id: WorkerId) -> (r: usize)
    requires
        MIGRATION_FLOW_IDX_BASE + worker_id <= usize::MAX,
    ensures
        r == MIGRATION_FLOW_IDX_BASE + worker_id,
{
    MIGRATION_FLOW_IDX_BASE + worker_id
}

/// The flow index of a migration flow is that of no flow of a job with fewer sends than the first index
/// of migration flows, and migration flows of different workers have different ones.
pub proof fn lemma_migration_flow_idx(workers: Map<WorkerId, MLWorker>, k: (WorkerId, usize), a: WorkerId, b: WorkerId)
    requires
        total_sends(workers) <= MIGRATION_FLOW_IDX_BASE,
        job_flow_indices(workers).contains_key(k),
        a != b,
    ensures
        job_flow_indices(workers)[k] != MIGRATION_FLOW_IDX_BASE + a,
        MIGRATION_FLOW_IDX_BASE + a != MIGRATION_FLOW_IDX_BASE + b,
{
    lemma_flow_index_bound(workers, k);
}

} // verus!
