//! What all Cassini modules share.

use vstd::prelude::*;

use crate::simulator::context::{wrapping_sum, MLContext};
use crate::simulator::flow_scheduler::FlowScheduler;
use crate::simulator::job_scheduler::JobScheduler;
use crate::simulator::ml_job::MLJob;
use crate::simulator::ml_worker::JobId;
use crate::simulator::system::{Control, MigrationPlan, Notice, SystemModule, TimerId, TimerRequest};

verus! {

/// Numbers the schedules.
#[derive(Debug, Clone, Copy, PartialEq, Eq, Structural)]
pub struct CassiniSystemModule {
    pub schedule_version: u64,
}

impl CassiniSystemModule {
    /// A module that has made no schedule.
    pub fn new() -> (r: Self)
        ensures
            r.schedule_version == 0,
    {
        CassiniSystemModule { schedule_version: 0 }
    }

    /// The number of the next schedule.
    pub fn next_schedule_version(&mut self) -> (r: u64)
        ensures
            r == wrapping_sum(old(self).schedule_version, 1),
            final(self).schedule_version == r,
    {
        self.schedule_version = self.schedule_version.wrapping_add(1);
        self.schedule_version
    }

    /// The number of the last schedule.
    pub fn current_schedule_version(&self) -> (r: u64)
        ensures
            r == self.schedule_version,
    {
        self.schedule_version
    }
}

impl Default for CassiniSystemModule {
    fn default() -> (r: Self)
        ensures
            r.schedule_version == 0,
    {
        CassiniSystemModule::new()
    }
}

impl<S: JobScheduler, FS: FlowScheduler> SystemModule<S, FS> for CassiniSystemModule {
    /// Nothing changes.
    open spec fn reacts(
        before: Control<Self, S, FS>,
        now_us: u64,
        ctx: MLContext,
        notice: Notice,
        after: Control<Self, S, FS>,
        plan: Option<MigrationPlan>,
    ) -> bool {
        after == before && plan is None
    }

    fn on_init(
        &mut self,
        ctx: &MLContext,
        scheduler: &mut S,
        flow_scheduler: &mut FS,
        timers: &mut Vec<TimerRequest>,
    ) {
    }

    fn on_job_scheduled(
        &mut self,
        now_us: u64,
        ctx: &MLContext,
        job_id: JobId,
        job: &MLJob,
        scheduler: &mut S,
        flow_scheduler: &mut FS,
        timers: &mut Vec<TimerRequest>,
    ) {
    }

    fn on_job_completed(
        &mut self,
        now_us: u64,
        ctx: &MLContext,
        job_id: JobId,
        job: &MLJob,
        scheduler: &mut S,
        flow_scheduler: &mut FS,
        timers: &mut Vec<TimerRequest>,
    ) {
    }

    fn on_reconfigure(
        &mut self,
        now_us: u64,
        ctx: &MLContext,
        scheduler: &mut S,
        flow_scheduler: &mut FS,
        timers: &mut Vec<TimerRequest>,
    ) -> (r: Option<MigrationPlan>) {
        None
    }

    fn on_migration_end(
        &mut self,
        now_us: u64,
        ctx: &MLContext,
        job_id: JobId,
        job: &MLJob,
        scheduler: &mut S,
        flow_scheduler: &mut FS,
        timers: &mut Vec<TimerRequest>,
    ) {
    }

    fn on_timer(
        &mut self,
        now_us: u64,
        ctx: &MLContext,
        timer_id: TimerId,
        scheduler: &mut S,
        flow_scheduler: &mut FS,
        timers: &mut Vec<TimerRequest>,
    ) {
    }
}

} // verus!
