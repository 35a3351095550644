//! A scheduler for rail-optimised clusters in which some jobs have a fixed placement.

use std::collections::{HashMap, VecDeque};
use vstd::prelude::*;

use crate::schedulers::block::{only_candidate, sole_candidate};
use crate::schedulers::preloaded::{fix_hosts, fixed_hosts, fixed_placement, is_usable};
use crate::schedulers::rail_block::RailBlockScheduler;
use crate::simulator::job_scheduler::{
    place_workers, placed_on, placement_map, queue_front, queue_pop, JobScheduler,
    PlacementCandidate,
};
use crate::simulator::ml_job::MLJob;
use crate::simulator::ml_worker::JobId;

verus! {

/// A scheduler for blocks in pods, with fixed placements.
pub struct PreloadedRailBlockScheduler {
    /// Jobs that wait, first come first.
    pub job_queue: VecDeque<JobId>,
    /// Hosts that are fixed for jobs.
    pub preloaded_placements: HashMap<JobId, Vec<usize>>,
    /// Places the other jobs.
    pub inner: RailBlockScheduler,
}

impl PreloadedRailBlockScheduler {
    /// Hosts that are fixed for jobs.
    pub open spec fn fixed(&self) -> Map<JobId, Seq<usize>> {
        fixed_hosts(self.preloaded_placements@)
    }

    /// The hosts for a job.
    pub open spec fn placement(&self, job_id: JobId, num_workers: usize, busy: Seq<bool>) -> Option<Seq<usize>> {
        if self.fixed().contains_key(job_id) {
            fixed_placement(self.fixed()[job_id], num_workers as nat, busy)
        } else {
            self.inner.placement(num_workers, busy)
        }
    }

    /// A scheduler with an empty queue.
    pub fn new(blocks_per_pod: usize, block_size: usize) -> (r: Self)
        requires
            blocks_per_pod > 0,
            block_size > 0,
        ensures
            r.inner.wf(),
            r.inner.blocks_per_pod == blocks_per_pod,
            r.inner.block_size == block_size,
            r.job_queue@ == Seq::<JobId>::empty(),
            r.fixed() == Map::<JobId, Seq<usize>>::empty(),
    {
        broadcast use vstd::std_specs::hash::group_hash_axioms;

        let r = PreloadedRailBlockScheduler {
            job_queue: VecDeque::new(),
            preloaded_placements: HashMap::new(),
            inner: RailBlockScheduler::new(blocks_per_pod, block_size),
        };
        proof {
            assert(r.fixed() =~= Map::<JobId, Seq<usize>>::empty());
        }
        r
    }

    /// Fixes the hosts of a job.
    pub fn set_preloaded_placement(&mut self, job_id: JobId, hosts: Vec<usize>)
        ensures
            final(self).fixed() == old(self).fixed().insert(job_id, hosts@),
            *final(self) == (PreloadedRailBlockScheduler {
                preloaded_placements: final(self).preloaded_placements,
                ..*old(self)
            }),
    {
        fix_hosts(&mut self.preloaded_placements, job_id, hosts);
    }
}

impl JobScheduler for PreloadedRailBlockScheduler {
    open spec fn queue(&self) -> Seq<JobId> {
        self.job_queue@
    }

    /// Whole blocks only, unless the hosts of the job are fixed.
    open spec fn accepts(&self, job_id: JobId, num_workers: usize, num_hosts: nat) -> bool {
        self.inner.wf() && (self.fixed().contains_key(job_id) || num_workers % self.inner.block_size == 0)
    }

    open spec fn fits(&self, job_id: JobId, num_workers: usize, busy: Seq<bool>) -> bool {
        self.placement(job_id, num_workers, busy) is Some
    }

    open spec fn chooses(&self, job_id: JobId, num_workers: usize, busy: Seq<bool>, hosts: Seq<usize>) -> bool {
        self.placement(job_id, num_workers, busy) == Some(hosts)
    }

    /// Nothing is kept of jobs that have completed.
    open spec fn hears_completed(self, job_id: JobId, completion_time_us: u64, after: Self) -> bool {
        after == self
    }

    fn is_accepted(&self, job_id: JobId, num_workers: usize, num_hosts: usize) -> (r: bool) {
        broadcast use vstd::std_specs::hash::group_hash_axioms;

        self.inner.blocks_per_pod > 0 && self.inner.block_size > 0 && (self.preloaded_placements.contains_key(&job_id)
            || num_workers % self.inner.block_size == 0)
    }

    fn try_schedule_job(&mut self, job: &mut MLJob, available_hosts: &[bool]) -> (r: bool)
        ensures
            *final(self) == *old(self),
            ({
                let hosts = old(self).placement(old(job).id, old(job).num_workers, available_hosts@);
                &&& r == hosts is Some
                &&& r ==> placed_on(old(job), final(job), hosts->0)
            }),
    {
        broadcast use vstd::std_specs::hash::group_hash_axioms;

        if let Some(hosts) = self.preloaded_placements.get(&job.id) {
            if !is_usable(hosts, job.num_workers, available_hosts) {
                return false;
            }
            place_workers(job, hosts);
            return true;
        }
        self.inner.try_schedule_job(job, available_hosts)
    }

    fn get_job_priority(&self, job: &MLJob) -> (r: u64) {
        u64::MAX - job.submit_time_us
    }

    fn notify_job_completed(&mut self, job_id: JobId, completion_time_us: u64) {
    }

    fn get_next_job_to_schedule(&mut self) -> (r: Option<JobId>) {
        queue_front(&self.job_queue)
    }

    fn enqueue_job(&mut self, job_id: JobId) {
        self.job_queue.push_back(job_id);
    }

    fn dequeue_job(&mut self) -> (r: Option<JobId>) {
        queue_pop(&mut self.job_queue)
    }

    fn has_queued_jobs(&self) -> (r: bool) {
        self.job_queue.len() > 0
    }

    /// The placement as the only candidate.
    fn generate_placement_candidates(
        &self,
        job: &MLJob,
        available_hosts: &[bool],
        max_candidates: usize,
    ) -> (r: Vec<PlacementCandidate>)
        ensures
            only_candidate(
                r@,
                job.id,
                self.placement(job.id, job.num_workers, available_hosts@),
                max_candidates,
            ),
    {
        broadcast use vstd::std_specs::hash::group_hash_axioms;

        if let Some(hosts) = self.preloaded_placements.get(&job.id) {
            if !is_usable(hosts, job.num_workers, available_hosts) {
                return Vec::new();
            }
            return sole_candidate(job.id, Some(placement_map(hosts)), max_candidates);
        }
        self.inner.generate_placement_candidates(job, available_hosts, max_candidates)
    }
}

} // verus!
