//! What Cassini knows of jobs and links.

use vstd::prelude::*;

use crate::network::graph::LinkId;
use crate::simulator::ml_worker::JobId;
use crate::utils::data::DHashMap;

verus! {

/// A part of an iteration with the same demand.
#[derive(Debug, Clone, Copy, PartialEq, Eq, Structural)]
pub struct CommunicationPhase {
    pub duration_us: u64,
    /// Bytes for each microsecond.
    pub bandwidth_demand: u64,
    /// Whether there is any demand.
    pub is_up_phase: bool,
}

/// How a job communicates in an iteration.
#[derive(Debug)]
pub struct JobProfile {
    pub job_id: JobId,
    pub iteration_time_us: u64,
    pub communication_phases: Vec<CommunicationPhase>,
    pub num_workers: usize,
    pub name: Option<String>,
}

/// How much later a job runs.
#[derive(Debug, Clone, Copy, PartialEq, Eq, Structural)]
pub struct TimeShift {
    pub job_id: JobId,
    pub shift_us: u64,
}

/// A job on a link, with its shift there.
#[derive(Debug, Clone, Copy, PartialEq, Eq, Structural, Hash)]
pub struct AffinityEdge {
    pub job_id: JobId,
    pub link_id: LinkId,
    pub weight_us: u64,
}

/// When the jobs run.
pub struct CassiniSchedule {
    pub version: u64,
    pub time_shifts: DHashMap<JobId, TimeShift>,
    /// The iteration time of each job.
    pub job_periods: DHashMap<JobId, u64>,
    pub computed_at_us: u64,
}

impl CassiniSchedule {
    /// A schedule without jobs.
    pub fn new() -> (r: Self)
        ensures
            r.version == 0,
            r.time_shifts@ == Map::<JobId, TimeShift>::empty(),
            r.job_periods@ == Map::<JobId, u64>::empty(),
            r.computed_at_us == 0,
    {
        CassiniSchedule { version: 0, time_shifts: DHashMap::new(), job_periods: DHashMap::new(), computed_at_us: 0 }
    }

    /// Sets the shift of a job.
    pub fn add_time_shift(&mut self, time_shift: TimeShift)
        ensures
            final(self).time_shifts@ == old(self).time_shifts@.insert(time_shift.job_id, time_shift),
            *final(self) == (CassiniSchedule { time_shifts: final(self).time_shifts, ..*old(self) }),
    {
        self.time_shifts.insert(time_shift.job_id, time_shift);
    }

    /// The shift of a job.
    pub fn get_time_shift(&self, job_id: JobId) -> (r: Option<&TimeShift>)
        ensures
            r == (if self.time_shifts@.contains_key(job_id) {
                Some(&self.time_shifts@[job_id])
            } else {
                None
            }),
    {
        self.time_shifts.get(&job_id)
    }
}

} // verus!
