//! A scheduler that gives each job the first free blocks, wherever they are. Some jobs may have a
//! fixed placement.

use std::collections::{HashMap, VecDeque};
use vstd::prelude::*;

use crate::schedulers::block::{lemma_whole_blocks, only_candidate, sole_candidate, DEFAULT_BLOCK_SIZE};
use crate::schedulers::packing::{block_hosts, block_map, lemma_block_hosts_free, list_hosts, map_blocks};
use crate::schedulers::preloaded::{fix_hosts, fixed_hosts, fixed_placement, is_usable};
use crate::simulator::job_scheduler::{
    first_fit, free_count, free_hosts, free_list, place_first, place_workers, placed_on,
    placement_map, queue_front, queue_pop, JobScheduler, PlacementCandidate,
};
use crate::simulator::ml_job::MLJob;
use crate::simulator::ml_worker::JobId;

verus! {

/// A scheduler for blocks without regard to switches.
pub struct FifoBlockScheduler {
    /// Jobs that wait, first come first.
    pub job_queue: VecDeque<JobId>,
    /// Hosts that are fixed for jobs.
    pub preloaded_placements: HashMap<JobId, Vec<usize>>,
    /// Hosts in a block.
    pub block_size: usize,
}

impl FifoBlockScheduler {
    /// A block has hosts.
    pub open spec fn wf(&self) -> bool {
        self.block_size > 0
    }

    /// Hosts that are fixed for jobs.
    pub open spec fn fixed(&self) -> Map<JobId, Seq<usize>> {
        fixed_hosts(self.preloaded_placements@)
    }

    /// The hosts of the first free blocks.
    pub open spec fn first_blocks(&self, num_workers: usize, busy: Seq<bool>) -> Option<Seq<usize>> {
        let taken = block_map(busy, self.block_size as nat);
        let need = num_workers as nat / self.block_size as nat;
        if free_count(taken, taken.len()) >= need {
            Some(block_hosts(free_list(taken, taken.len()).take(need as int), self.block_size as nat))
        } else {
            None
        }
    }

    /// The hosts for a job.
    pub open spec fn placement(&self, job_id: JobId, num_workers: usize, busy: Seq<bool>) -> Option<Seq<usize>> {
        if self.fixed().contains_key(job_id) {
            fixed_placement(self.fixed()[job_id], num_workers as nat, busy)
        } else {
            self.first_blocks(num_workers, busy)
        }
    }

    /// A scheduler with an empty queue.
    pub fn new(block_size: usize) -> (r: Self)
        requires
            block_size > 0,
        ensures
            r.wf(),
            r.block_size == block_size,
            r.job_queue@ == Seq::<JobId>::empty(),
            r.fixed() == Map::<JobId, Seq<usize>>::empty(),
    {
        broadcast use vstd::std_specs::hash::group_hash_axioms;

        let r = FifoBlockScheduler { job_queue: VecDeque::new(), preloaded_placements: HashMap::new(), block_size };
        proof {
            assert(r.fixed() =~= Map::<JobId, Seq<usize>>::empty());
        }
        r
    }

    /// A scheduler for blocks of the default size.
    pub fn with_default_block_size() -> (r: Self)
        ensures
            r.wf(),
            r.block_size == DEFAULT_BLOCK_SIZE,
            r.job_queue@ == Seq::<JobId>::empty(),
            r.fixed() == Map::<JobId, Seq<usize>>::empty(),
    {
        FifoBlockScheduler::new(DEFAULT_BLOCK_SIZE)
    }

    /// Fixes the hosts of a job.
    pub fn set_preloaded_placement(&mut self, job_id: JobId, hosts: Vec<usize>)
        ensures
            final(self).fixed() == old(self).fixed().insert(job_id, hosts@),
            *final(self) == (FifoBlockScheduler {
                preloaded_placements: final(self).preloaded_placements,
                ..*old(self)
            }),
    {
        fix_hosts(&mut self.preloaded_placements, job_id, hosts);
    }

    /// The hosts of the first free blocks, if there are enough.
    fn place(&self, num_workers: usize, host_busy: &[bool]) -> (r: Option<Vec<usize>>)
        requires
            self.wf(),
            num_workers % self.block_size == 0,
        ensures
            r is Some == self.first_blocks(num_workers, host_busy@) is Some,
            r matches Some(hosts) ==> {
                &&& Some(hosts@) == self.first_blocks(num_workers, host_busy@)
                &&& hosts@.len() == num_workers
                &&& free_hosts(hosts@, host_busy@)
            },
    {
        let n: usize = host_busy.len();
        let taken = map_blocks(host_busy, self.block_size);
        match first_fit(&taken, num_workers / self.block_size) {
            Some(blocks) => {
                let hosts = list_hosts(&blocks, self.block_size, n);
                proof {
                    lemma_block_hosts_free(host_busy@, self.block_size as nat, blocks@);
                    lemma_whole_blocks(num_workers as nat, self.block_size as nat);
                }
                Some(hosts)
            },
            None => None,
        }
    }

    /// Chooses the first free blocks, if there are enough.
    pub fn compute_placement(&self, num_workers: usize, host_busy: &[bool]) -> (r: Option<HashMap<usize, usize>>)
        requires
            self.wf(),
            num_workers % self.block_size == 0,
        ensures
            r is Some == self.first_blocks(num_workers, host_busy@) is Some,
            r matches Some(m) ==> {
                let hosts = self.first_blocks(num_workers, host_busy@)->0;
                &&& m@ == place_first(Map::empty(), hosts)
                &&& hosts.len() == num_workers
                &&& free_hosts(hosts, host_busy@)
            },
    {
        match self.place(num_workers, host_busy) {
            Some(hosts) => Some(placement_map(&hosts)),
            None => None,
        }
    }
}

impl JobScheduler for FifoBlockScheduler {
    open spec fn queue(&self) -> Seq<JobId> {
        self.job_queue@
    }

    /// Whole blocks only, unless the hosts of the job are fixed.
    open spec fn accepts(&self, job_id: JobId, num_workers: usize, num_hosts: nat) -> bool {
        self.wf() && (self.fixed().contains_key(job_id) || num_workers % self.block_size == 0)
    }

    open spec fn fits(&self, job_id: JobId, num_workers: usize, busy: Seq<bool>) -> bool {
        self.placement(job_id, num_workers, busy) is Some
    }

    open spec fn chooses(&self, job_id: JobId, num_workers: usize, busy: Seq<bool>, hosts: Seq<usize>) -> bool {
        self.placement(job_id, num_workers, busy) == Some(hosts)
    }

    /// Nothing is kept of jobs that have completed.
    open spec fn hears_completed(self, job_id: JobId, completion_time_us: u64, after: Self) -> bool {
        after == self
    }

    fn is_accepted(&self, job_id: JobId, num_workers: usize, num_hosts: usize) -> (r: bool) {
        broadcast use vstd::std_specs::hash::group_hash_axioms;

        self.block_size > 0 && (self.preloaded_placements.contains_key(&job_id) || num_workers % self.block_size == 0)
    }

    fn try_schedule_job(&mut self, job: &mut MLJob, available_hosts: &[bool]) -> (r: bool)
        ensures
            *final(self) == *old(self),
            ({
                let hosts = old(self).placement(old(job).id, old(job).num_workers, available_hosts@);
                &&& r == hosts is Some
                &&& r ==> placed_on(old(job), final(job), hosts->0)
            }),
    {
        broadcast use vstd::std_specs::hash::group_hash_axioms;

        if let Some(hosts) = self.preloaded_placements.get(&job.id) {
            if !is_usable(hosts, job.num_workers, available_hosts) {
                return false;
            }
            place_workers(job, hosts);
            return true;
        }
        match self.place(job.num_workers, available_hosts) {
            Some(hosts) => {
                place_workers(job, &hosts);
                true
            },
            None => false,
        }
    }

    fn get_job_priority(&self, job: &MLJob) -> (r: u64) {
        u64::MAX - job.submit_time_us
    }

    fn notify_job_completed(&mut self, job_id: JobId, completion_time_us: u64) {
    }

    fn get_next_job_to_schedule(&mut self) -> (r: Option<JobId>) {
        queue_front(&self.job_queue)
    }

    fn enqueue_job(&mut self, job_id: JobId) {
        self.job_queue.push_back(job_id);
    }

    fn dequeue_job(&mut self) -> (r: Option<JobId>) {
        queue_pop(&mut self.job_queue)
    }

    fn has_queued_jobs(&self) -> (r: bool) {
        self.job_queue.len() > 0
    }

    /// The first free blocks as the only candidate, for a job of whole blocks.
    fn generate_placement_candidates(
        &self,
        job: &MLJob,
        available_hosts: &[bool],
        max_candidates: usize,
    ) -> (r: Vec<PlacementCandidate>)
        ensures
            job.num_workers % self.block_size == 0 ==> only_candidate(
                r@,
                job.id,
                self.first_blocks(job.num_workers, available_hosts@),
                max_candidates,
            ),
            job.num_workers % self.block_size != 0 ==> r@.len() == 0,
    {
        if job.num_workers % self.block_size != 0 {
            return Vec::new();
        }
        sole_candidate(job.id, self.compute_placement(job.num_workers, available_hosts), max_candidates)
    }
}

} // verus!
