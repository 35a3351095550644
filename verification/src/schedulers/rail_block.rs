//! A block scheduler for rail-optimised clusters. A job goes in the pod that it fits best; while it
//! fits in none, the pod with the most free blocks is filled and the rest tried again.

use std::collections::{HashMap, VecDeque};
use vstd::prelude::*;

use crate::schedulers::block::{lemma_whole_blocks, only_candidate, sole_candidate};
use crate::schedulers::packing::{
    block_hosts, block_map, choose_by_filling, fill_choice, lemma_block_hosts_free, list_hosts, map_blocks,
};
use crate::simulator::job_scheduler::{
    free_hosts, place_first, place_workers, placed_on, placement_map, queue_front, queue_pop,
    JobScheduler, PlacementCandidate,
};
use crate::simulator::ml_job::MLJob;
use crate::simulator::ml_worker::JobId;

verus! {

/// A scheduler for blocks in pods.
pub struct RailBlockScheduler {
    /// Jobs that wait, first come first.
    pub job_queue: VecDeque<JobId>,
    /// Blocks in a pod.
    pub blocks_per_pod: usize,
    /// Hosts in a block.
    pub block_size: usize,
}

impl RailBlockScheduler {
    /// Pods have blocks, and blocks have hosts.
    pub open spec fn wf(&self) -> bool {
        self.blocks_per_pod > 0 && self.block_size > 0
    }

    /// The hosts for a job of this size.
    pub open spec fn placement(&self, num_workers: usize, busy: Seq<bool>) -> Option<Seq<usize>> {
        match fill_choice(
            block_map(busy, self.block_size as nat),
            self.blocks_per_pod as nat,
            num_workers as nat / self.block_size as nat,
        ) {
            Some(blocks) => Some(block_hosts(blocks, self.block_size as nat)),
            None => None,
        }
    }

    /// A scheduler with an empty queue.
    pub fn new(blocks_per_pod: usize, block_size: usize) -> (r: Self)
        requires
            blocks_per_pod > 0,
            block_size > 0,
        ensures
            r.wf(),
            r.blocks_per_pod == blocks_per_pod,
            r.block_size == block_size,
            r.job_queue@ == Seq::<JobId>::empty(),
    {
        RailBlockScheduler { job_queue: VecDeque::new(), blocks_per_pod, block_size }
    }

    /// The hosts for a job, if there is room.
    pub fn place(&self, num_workers: usize, host_busy: &[bool]) -> (r: Option<Vec<usize>>)
        requires
            self.wf(),
            num_workers % self.block_size == 0,
        ensures
            r is Some == self.placement(num_workers, host_busy@) is Some,
            r matches Some(hosts) ==> {
                &&& Some(hosts@) == self.placement(num_workers, host_busy@)
                &&& hosts@.len() == num_workers
                &&& free_hosts(hosts@, host_busy@)
            },
    {
        let n: usize = host_busy.len();
        let taken = map_blocks(host_busy, self.block_size);
        match choose_by_filling(&taken, self.blocks_per_pod, num_workers / self.block_size) {
            Some(blocks) => {
                let hosts = list_hosts(&blocks, self.block_size, n);
                proof {
                    lemma_block_hosts_free(host_busy@, self.block_size as nat, blocks@);
                    lemma_whole_blocks(num_workers as nat, self.block_size as nat);
                }
                Some(hosts)
            },
            None => None,
        }
    }

    /// Chooses the hosts for a job, if there is room.
    pub fn compute_placement(&self, num_workers: usize, host_busy: &[bool]) -> (r: Option<HashMap<usize, usize>>)
        requires
            self.wf(),
            num_workers % self.block_size == 0,
        ensures
            r is Some == self.placement(num_workers, host_busy@) is Some,
            r matches Some(m) ==> {
                let hosts = self.placement(num_workers, host_busy@)->0;
                &&& m@ == place_first(Map::empty(), hosts)
                &&& hosts.len() == num_workers
                &&& free_hosts(hosts, host_busy@)
            },
    {
        match self.place(num_workers, host_busy) {
            Some(hosts) => Some(placement_map(&hosts)),
            None => None,
        }
    }
}

impl JobScheduler for RailBlockScheduler {
    open spec fn queue(&self) -> Seq<JobId> {
        self.job_queue@
    }

    /// Whole blocks only.
    open spec fn accepts(&self, job_id: JobId, num_workers: usize, num_hosts: nat) -> bool {
        self.wf() && num_workers % self.block_size == 0
    }

    open spec fn fits(&self, job_id: JobId, num_workers: usize, busy: Seq<bool>) -> bool {
        self.placement(num_workers, busy) is Some
    }

    open spec fn chooses(&self, job_id: JobId, num_workers: usize, busy: Seq<bool>, hosts: Seq<usize>) -> bool {
        self.placement(num_workers, busy) == Some(hosts)
    }

    /// Nothing is kept of jobs that have completed.
    open spec fn hears_completed(self, job_id: JobId, completion_time_us: u64, after: Self) -> bool {
        after == self
    }

    fn is_accepted(&self, job_id: JobId, num_workers: usize, num_hosts: usize) -> (r: bool) {
        self.blocks_per_pod > 0 && self.block_size > 0 && num_workers % self.block_size == 0
    }

    fn try_schedule_job(&mut self, job: &mut MLJob, available_hosts: &[bool]) -> (r: bool)
        ensures
            *final(self) == *old(self),
            r == old(self).placement(old(job).num_workers, available_hosts@) is Some,
            r ==> placed_on(old(job), final(job), old(self).placement(old(job).num_workers, available_hosts@)->0),
    {
        match self.place(job.num_workers, available_hosts) {
            Some(hosts) => {
                place_workers(job, &hosts);
                true
            },
            None => false,
        }
    }

    fn get_job_priority(&self, job: &MLJob) -> (r: u64) {
        u64::MAX - job.submit_time_us
    }

    fn notify_job_completed(&mut self, job_id: JobId, completion_time_us: u64) {
    }

    fn get_next_job_to_schedule(&mut self) -> (r: Option<JobId>) {
        queue_front(&self.job_queue)
    }

    fn enqueue_job(&mut self, job_id: JobId) {
        self.job_queue.push_back(job_id);
    }

    fn dequeue_job(&mut self) -> (r: Option<JobId>) {
        queue_pop(&mut self.job_queue)
    }

    fn has_queued_jobs(&self) -> (r: bool) {
        self.job_queue.len() > 0
    }

    /// The chosen placement as the only candidate.
    fn generate_placement_candidates(
        &self,
        job: &MLJob,
        available_hosts: &[bool],
        max_candidates: usize,
    ) -> (r: Vec<PlacementCandidate>)
        ensures
            only_candidate(r@, job.id, self.placement(job.num_workers, available_hosts@), max_candidates),
    {
        sole_candidate(job.id, self.compute_placement(job.num_workers, available_hosts), max_candidates)
    }
}

} // verus!
