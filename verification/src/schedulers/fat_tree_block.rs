//! A block scheduler for fat trees. A job goes in the pod that it fits best; within a pod, blocks
//! are chosen as below switches. A job that fits in no pod is spread over pods, those with the most
//! free blocks first.

use std::collections::{HashMap, VecDeque};
use vstd::prelude::*;

use crate::schedulers::block::{lemma_whole_blocks, only_candidate, sole_candidate, BlockScheduler};
use crate::schedulers::packing::{
    block_hosts, block_map, choose_in_pods, lemma_block_hosts_free, list_hosts, map_blocks, pod_choice,
};
use crate::simulator::job_scheduler::{
    free_hosts, place_first, place_workers, placed_on, placement_map, queue_front, queue_pop,
    JobScheduler, PlacementCandidate,
};
use crate::simulator::ml_job::MLJob;
use crate::simulator::ml_worker::JobId;

verus! {

/// A scheduler for blocks below switches in pods.
pub struct FatTreeBlockScheduler {
    /// Jobs that wait, first come first.
    pub job_queue: VecDeque<JobId>,
    /// Hosts below a switch.
    pub hosts_per_tor: usize,
    /// Switches in a pod.
    pub tors_per_pod: usize,
    /// Hosts in a block.
    pub block_size: usize,
    /// Chooses within a pod.
    pub inner: BlockScheduler,
}

impl FatTreeBlockScheduler {
    /// Switches hold whole blocks, and the hosts of a pod can be counted.
    pub open spec fn wf(&self) -> bool {
        &&& self.tors_per_pod > 0
        &&& self.inner.wf()
        &&& self.inner.hosts_per_tor == self.hosts_per_tor
        &&& self.inner.block_size == self.block_size
        &&& self.hosts_per_tor * self.tors_per_pod <= usize::MAX
    }

    /// Blocks in a pod.
    pub open spec fn pod_blocks(&self) -> nat {
        self.tors_per_pod as nat * self.inner.tor_blocks()
    }

    /// The hosts for a job of this size.
    pub open spec fn placement(&self, num_workers: usize, busy: Seq<bool>) -> Option<Seq<usize>> {
        match pod_choice(
            block_map(busy, self.block_size as nat),
            self.pod_blocks(),
            self.inner.tor_blocks(),
            num_workers as nat / self.block_size as nat,
        ) {
            Some(blocks) => Some(block_hosts(blocks, self.block_size as nat)),
            None => None,
        }
    }

    /// A scheduler with an empty queue. The hosts below a switch have to be whole blocks.
    pub fn new(hosts_per_tor: usize, tors_per_pod: usize, block_size: usize) -> (r: Self)
        requires
            hosts_per_tor > 0,
            tors_per_pod > 0,
            block_size > 0,
            hosts_per_tor % block_size == 0,
            hosts_per_tor * tors_per_pod <= usize::MAX,
        ensures
            r.wf(),
            r.hosts_per_tor == hosts_per_tor,
            r.tors_per_pod == tors_per_pod,
            r.block_size == block_size,
            r.job_queue@ == Seq::<JobId>::empty(),
    {
        FatTreeBlockScheduler {
            job_queue: VecDeque::new(),
            hosts_per_tor,
            tors_per_pod,
            block_size,
            inner: BlockScheduler::new(hosts_per_tor, block_size),
        }
    }

    /// Hosts in a pod.
    pub fn hosts_per_pod(&self) -> (r: usize)
        requires
            self.wf(),
        ensures
            r == self.hosts_per_tor * self.tors_per_pod,
    {
        self.hosts_per_tor * self.tors_per_pod
    }

    /// The hosts for a job, if there is room.
    fn place(&self, num_workers: usize, host_busy: &[bool]) -> (r: Option<Vec<usize>>)
        requires
            self.wf(),
            num_workers % self.block_size == 0,
        ensures
            r is Some == self.placement(num_workers, host_busy@) is Some,
            r matches Some(hosts) ==> {
                &&& Some(hosts@) == self.placement(num_workers, host_busy@)
                &&& hosts@.len() == num_workers
                &&& free_hosts(hosts@, host_busy@)
            },
    {
        let n: usize = host_busy.len();
        let k: usize = self.inner.blocks_per_tor();
        proof {
            let hosts = self.hosts_per_tor as int;
            let tors = self.tors_per_pod as int;
            assert(0 < tors * k <= hosts * tors) by (nonlinear_arith)
                requires
                    k > 0,
                    tors > 0,
                    self.block_size > 0,
                    k * self.block_size == hosts,
            ;
        }
        let p: usize = self.tors_per_pod * k;
        let taken = map_blocks(host_busy, self.block_size);
        match choose_in_pods(&taken, p, k, num_workers / self.block_size) {
            Some(blocks) => {
                let hosts = list_hosts(&blocks, self.block_size, n);
                proof {
                    lemma_block_hosts_free(host_busy@, self.block_size as nat, blocks@);
                    lemma_whole_blocks(num_workers as nat, self.block_size as nat);
                }
                Some(hosts)
            },
            None => None,
        }
    }

    /// Chooses the hosts for a job, if there is room.
    pub fn compute_placement(&self, num_workers: usize, host_busy: &[bool]) -> (r: Option<HashMap<usize, usize>>)
        requires
            self.wf(),
            num_workers % self.block_size == 0,
        ensures
            r is Some == self.placement(num_workers, host_busy@) is Some,
            r matches Some(m) ==> {
                let hosts = self.placement(num_workers, host_busy@)->0;
                &&& m@ == place_first(Map::empty(), hosts)
                &&& hosts.len() == num_workers
                &&& free_hosts(hosts, host_busy@)
            },
    {
        match self.place(num_workers, host_busy) {
            Some(hosts) => Some(placement_map(&hosts)),
            None => None,
        }
    }
}

impl JobScheduler for FatTreeBlockScheduler {
    open spec fn queue(&self) -> Seq<JobId> {
        self.job_queue@
    }

    /// Whole blocks only.
    open spec fn accepts(&self, job_id: JobId, num_workers: usize, num_hosts: nat) -> bool {
        self.wf() && num_workers % self.block_size == 0
    }

    open spec fn fits(&self, job_id: JobId, num_workers: usize, busy: Seq<bool>) -> bool {
        self.placement(num_workers, busy) is Some
    }

    open spec fn chooses(&self, job_id: JobId, num_workers: usize, busy: Seq<bool>, hosts: Seq<usize>) -> bool {
        self.placement(num_workers, busy) == Some(hosts)
    }

    /// Nothing is kept of jobs that have completed.
    open spec fn hears_completed(self, job_id: JobId, completion_time_us: u64, after: Self) -> bool {
        after == self
    }

    fn is_accepted(&self, job_id: JobId, num_workers: usize, num_hosts: usize) -> (r: bool) {
        self.tors_per_pod > 0 && self.inner.hosts_per_tor == self.hosts_per_tor && self.inner.block_size == self.block_size
            && self.inner.is_accepted(job_id, num_workers, num_hosts) && self.hosts_per_tor.checked_mul(
            self.tors_per_pod,
        ).is_some()
    }

    fn try_schedule_job(&mut self, job: &mut MLJob, available_hosts: &[bool]) -> (r: bool)
        ensures
            *final(self) == *old(self),
            r == old(self).placement(old(job).num_workers, available_hosts@) is Some,
            r ==> placed_on(old(job), final(job), old(self).placement(old(job).num_workers, available_hosts@)->0),
    {
        match self.place(job.num_workers, available_hosts) {
            Some(hosts) => {
                place_workers(job, &hosts);
                true
            },
            None => false,
        }
    }

    fn get_job_priority(&self, job: &MLJob) -> (r: u64) {
        u64::MAX - job.submit_time_us
    }

    fn notify_job_completed(&mut self, job_id: JobId, completion_time_us: u64) {
    }

    fn get_next_job_to_schedule(&mut self) -> (r: Option<JobId>) {
        queue_front(&self.job_queue)
    }

    fn enqueue_job(&mut self, job_id: JobId) {
        self.job_queue.push_back(job_id);
    }

    fn dequeue_job(&mut self) -> (r: Option<JobId>) {
        queue_pop(&mut self.job_queue)
    }

    fn has_queued_jobs(&self) -> (r: bool) {
        self.job_queue.len() > 0
    }

    /// The chosen placement as the only candidate.
    fn generate_placement_candidates(
        &self,
        job: &MLJob,
        available_hosts: &[bool],
        max_candidates: usize,
    ) -> (r: Vec<PlacementCandidate>)
        ensures
            only_candidate(r@, job.id, self.placement(job.num_workers, available_hosts@), max_candidates),
    {
        sole_candidate(job.id, self.compute_placement(job.num_workers, available_hosts), max_candidates)
    }
}

} // verus!
