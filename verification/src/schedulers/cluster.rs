//! A scheduler that keeps the workers of a job below one switch where it can.
//!
//! A job that fits below a switch goes below the one with the least room for it. Else the switches
//! with the most free hosts are filled first.

use std::collections::{HashMap, VecDeque};
use vstd::prelude::*;

use crate::schedulers::block::{block_placement, only_candidate, place_in_blocks, sole_candidate};
use crate::simulator::job_scheduler::{
    free_hosts, place_first, place_workers, placed_on, placement_map, queue_front, queue_pop,
    JobScheduler, PlacementCandidate,
};
use crate::simulator::ml_job::MLJob;
use crate::simulator::ml_worker::JobId;

verus! {

/// A scheduler for hosts below switches.
pub struct ClusterScheduler {
    /// Jobs that wait, first come first.
    pub job_queue: VecDeque<JobId>,
    /// Hosts below a switch.
    pub hosts_per_tor: usize,
}

impl ClusterScheduler {
    /// A switch has hosts.
    pub open spec fn wf(&self) -> bool {
        self.hosts_per_tor > 0
    }

    /// The hosts for a job of this size: every host is a block of its own.
    pub open spec fn placement(&self, num_workers: usize, busy: Seq<bool>) -> Option<Seq<usize>> {
        block_placement(busy, 1, self.hosts_per_tor as nat, num_workers as nat)
    }

    /// A scheduler with an empty queue.
    pub fn new(hosts_per_tor: usize) -> (r: Self)
        requires
            hosts_per_tor > 0,
        ensures
            r.wf(),
            r.hosts_per_tor == hosts_per_tor,
            r.job_queue@ == Seq::<JobId>::empty(),
    {
        ClusterScheduler { job_queue: VecDeque::new(), hosts_per_tor }
    }

    /// Chooses the hosts for a job, if there is room.
    pub fn compute_placement(&self, num_workers: usize, available_hosts: &[bool]) -> (r: Option<HashMap<usize, usize>>)
        requires
            self.wf(),
        ensures
            r is Some == self.placement(num_workers, available_hosts@) is Some,
            r matches Some(m) ==> {
                let hosts = self.placement(num_workers, available_hosts@)->0;
                &&& m@ == place_first(Map::empty(), hosts)
                &&& hosts.len() == num_workers
                &&& free_hosts(hosts, available_hosts@)
            },
    {
        match place_in_blocks(available_hosts, 1, self.hosts_per_tor, num_workers) {
            Some(hosts) => Some(placement_map(&hosts)),
            None => None,
        }
    }
}

impl Default for ClusterScheduler {
    /// Four hosts below a switch.
    fn default() -> (r: Self)
        ensures
            r.wf(),
            r.hosts_per_tor == 4,
            r.job_queue@ == Seq::<JobId>::empty(),
    {
        ClusterScheduler::new(4)
    }
}

impl JobScheduler for ClusterScheduler {
    open spec fn queue(&self) -> Seq<JobId> {
        self.job_queue@
    }

    /// Every job.
    open spec fn accepts(&self, job_id: JobId, num_workers: usize, num_hosts: nat) -> bool {
        self.wf()
    }

    open spec fn fits(&self, job_id: JobId, num_workers: usize, busy: Seq<bool>) -> bool {
        self.placement(num_workers, busy) is Some
    }

    open spec fn chooses(&self, job_id: JobId, num_workers: usize, busy: Seq<bool>, hosts: Seq<usize>) -> bool {
        self.placement(num_workers, busy) == Some(hosts)
    }

    /// Nothing is kept of jobs that have completed.
    open spec fn hears_completed(self, job_id: JobId, completion_time_us: u64, after: Self) -> bool {
        after == self
    }

    fn is_accepted(&self, job_id: JobId, num_workers: usize, num_hosts: usize) -> (r: bool) {
        self.hosts_per_tor > 0
    }

    fn try_schedule_job(&mut self, job: &mut MLJob, available_hosts: &[bool]) -> (r: bool)
        ensures
            *final(self) == *old(self),
            r == old(self).placement(old(job).num_workers, available_hosts@) is Some,
            r ==> placed_on(old(job), final(job), old(self).placement(old(job).num_workers, available_hosts@)->0),
    {
        match place_in_blocks(available_hosts, 1, self.hosts_per_tor, job.num_workers) {
            Some(hosts) => {
                place_workers(job, &hosts);
                true
            },
            None => false,
        }
    }

    fn get_job_priority(&self, job: &MLJob) -> (r: u64) {
        u64::MAX - job.submit_time_us
    }

    fn notify_job_completed(&mut self, job_id: JobId, completion_time_us: u64) {
    }

    fn get_next_job_to_schedule(&mut self) -> (r: Option<JobId>) {
        queue_front(&self.job_queue)
    }

    fn enqueue_job(&mut self, job_id: JobId) {
        self.job_queue.push_back(job_id);
    }

    fn dequeue_job(&mut self) -> (r: Option<JobId>) {
        queue_pop(&mut self.job_queue)
    }

    fn has_queued_jobs(&self) -> (r: bool) {
        self.job_queue.len() > 0
    }

    /// The chosen placement as the only candidate.
    fn generate_placement_candidates(
        &self,
        job: &MLJob,
        available_hosts: &[bool],
        max_candidates: usize,
    ) -> (r: Vec<PlacementCandidate>)
        ensures
            only_candidate(r@, job.id, self.placement(job.num_workers, available_hosts@), max_candidates),
    {
        sole_candidate(job.id, self.compute_placement(job.num_workers, available_hosts), max_candidates)
    }
}

} // verus!
