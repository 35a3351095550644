//! A scheduler that allocates hosts in blocks of a fixed size, such as servers with eight GPUs.
//!
//! A job asks for whole blocks. It goes below the switch that it fits best, or is spread over
//! switches, those with the most free blocks first.

use std::collections::{HashMap, VecDeque};
use vstd::prelude::*;

use crate::schedulers::packing::{
    all_free, block_choice, block_free, block_hosts, block_map, check_block_free, choose_blocks,
    lemma_block_hosts_free, list_free, list_hosts, map_blocks,
};
use crate::simulator::job_scheduler::{
    free_hosts, place_first, place_workers, placed_on, placement_map, queue_front, queue_pop,
    JobScheduler, PlacementCandidate,
};
use crate::simulator::ml_job::MLJob;
use crate::simulator::ml_worker::JobId;

verus! {

/// Hosts per block unless stated otherwise.
pub const DEFAULT_BLOCK_SIZE: usize = 8;

/// A scheduler for blocks below switches.
pub struct BlockScheduler {
    /// Jobs that wait, first come first.
    pub job_queue: VecDeque<JobId>,
    /// Hosts below a switch.
    pub hosts_per_tor: usize,
    /// Hosts in a block.
    pub block_size: usize,
}

/// The hosts for `num_workers` workers, by blocks of `block_size` in groups of `k`.
pub open spec fn block_placement(busy: Seq<bool>, block_size: nat, k: nat, num_workers: nat) -> Option<Seq<usize>> {
    match block_choice(block_map(busy, block_size), k, num_workers / block_size) {
        Some(blocks) => Some(block_hosts(blocks, block_size)),
        None => None,
    }
}

/// The hosts for a job.
pub fn place_in_blocks(busy: &[bool], block_size: usize, k: usize, num_workers: usize) -> (r: Option<Vec<usize>>)
    requires
        block_size > 0,
        k > 0,
        num_workers % block_size == 0,
    ensures
        r is Some == block_placement(busy@, block_size as nat, k as nat, num_workers as nat) is Some,
        r matches Some(hosts) ==> {
            &&& Some(hosts@) == block_placement(busy@, block_size as nat, k as nat, num_workers as nat)
            &&& hosts@.len() == num_workers
            &&& free_hosts(hosts@, busy@)
        },
{
    let n: usize = busy.len();
    let taken = map_blocks(busy, block_size);
    match choose_blocks(&taken, k, num_workers / block_size) {
        Some(blocks) => {
            let hosts = list_hosts(&blocks, block_size, n);
            proof {
                lemma_block_hosts_free(busy@, block_size as nat, blocks@);
                lemma_whole_blocks(num_workers as nat, block_size as nat);
            }
            Some(hosts)
        },
        None => None,
    }
}

/// Whole blocks hold exactly the workers.
pub proof fn lemma_whole_blocks(num_workers: nat, block_size: nat)
    requires
        block_size > 0,
        num_workers % block_size == 0,
    ensures
        num_workers / block_size * block_size == num_workers,
{
    vstd::arithmetic::div_mod::lemma_fundamental_div_mod(num_workers as int, block_size as int);
    assert(num_workers / block_size * block_size == block_size as int * (num_workers as int / block_size as int))
        by (nonlinear_arith);
}

impl BlockScheduler {
    /// Switches hold whole blocks.
    pub open spec fn wf(&self) -> bool {
        &&& self.block_size > 0
        &&& self.hosts_per_tor > 0
        &&& self.hosts_per_tor % self.block_size == 0
    }

    /// Blocks below a switch.
    pub open spec fn tor_blocks(&self) -> nat {
        (self.hosts_per_tor / self.block_size) as nat
    }

    /// The hosts for a job of this size.
    pub open spec fn placement(&self, num_workers: usize, busy: Seq<bool>) -> Option<Seq<usize>> {
        block_placement(busy, self.block_size as nat, self.tor_blocks(), num_workers as nat)
    }

    /// A scheduler with an empty queue. The hosts below a switch have to be whole blocks.
    pub fn new(hosts_per_tor: usize, block_size: usize) -> (r: Self)
        requires
            hosts_per_tor > 0,
            block_size > 0,
            hosts_per_tor % block_size == 0,
        ensures
            r.wf(),
            r.hosts_per_tor == hosts_per_tor,
            r.block_size == block_size,
            r.job_queue@ == Seq::<JobId>::empty(),
    {
        BlockScheduler { job_queue: VecDeque::new(), hosts_per_tor, block_size }
    }

    /// A scheduler for blocks of the default size.
    pub fn with_default_block_size(hosts_per_tor: usize) -> (r: Self)
        requires
            hosts_per_tor > 0,
            hosts_per_tor % DEFAULT_BLOCK_SIZE == 0,
        ensures
            r.wf(),
            r.hosts_per_tor == hosts_per_tor,
            r.block_size == DEFAULT_BLOCK_SIZE,
            r.job_queue@ == Seq::<JobId>::empty(),
    {
        BlockScheduler::new(hosts_per_tor, DEFAULT_BLOCK_SIZE)
    }

    /// Hosts in a block.
    pub fn block_size(&self) -> (r: usize)
        ensures
            r == self.block_size,
    {
        self.block_size
    }

    /// Blocks below a switch.
    pub fn blocks_per_tor(&self) -> (r: usize)
        requires
            self.wf(),
        ensures
            r == self.tor_blocks(),
            r > 0,
            r * self.block_size == self.hosts_per_tor,
    {
        proof {
            lemma_whole_blocks(self.hosts_per_tor as nat, self.block_size as nat);
            assert(self.hosts_per_tor / self.block_size > 0) by (nonlinear_arith)
                requires
                    (self.hosts_per_tor / self.block_size) * self.block_size == self.hosts_per_tor,
                    self.hosts_per_tor > 0,
            ;
        }
        self.hosts_per_tor / self.block_size
    }

    /// The first host of a block.
    pub fn block_to_host(&self, block_idx: usize) -> (r: usize)
        requires
            block_idx * self.block_size <= usize::MAX,
        ensures
            r == block_idx * self.block_size,
    {
        block_idx * self.block_size
    }

    /// The block of a host.
    pub fn host_to_block(&self, host_idx: usize) -> (r: usize)
        requires
            self.wf(),
        ensures
            r == host_idx / self.block_size,
    {
        host_idx / self.block_size
    }

    /// The switch above a block.
    pub fn block_to_tor(&self, block_idx: usize) -> (r: usize)
        requires
            self.wf(),
            block_idx * self.block_size <= usize::MAX,
        ensures
            r == (block_idx * self.block_size) / self.hosts_per_tor as int,
    {
        self.block_to_host(block_idx) / self.hosts_per_tor
    }

    /// Whether no host of a block is busy. A block that does not exist is not free.
    pub fn is_block_free(&self, block_idx: usize, host_busy: &[bool]) -> (r: bool)
        requires
            self.wf(),
        ensures
            r == block_free(host_busy@, self.block_size as nat, block_idx as int),
    {
        check_block_free(host_busy, self.block_size, block_idx)
    }

    /// The free blocks, in ascending order.
    pub fn get_free_blocks(&self, host_busy: &[bool]) -> (r: Vec<usize>)
        requires
            self.wf(),
        ensures
            r@ == all_free(block_map(host_busy@, self.block_size as nat)),
    {
        let taken = map_blocks(host_busy, self.block_size);
        list_free(&taken, 0, taken.len())
    }

    /// Chooses the hosts for a job, if there is room.
    pub fn compute_placement(&self, num_workers: usize, host_busy: &[bool]) -> (r: Option<HashMap<usize, usize>>)
        requires
            self.wf(),
            num_workers % self.block_size == 0,
        ensures
            r is Some == self.placement(num_workers, host_busy@) is Some,
            r matches Some(m) ==> {
                let hosts = self.placement(num_workers, host_busy@)->0;
                &&& m@ == place_first(Map::empty(), hosts)
                &&& hosts.len() == num_workers
                &&& free_hosts(hosts, host_busy@)
            },
    {
        let k: usize = self.blocks_per_tor();
        match place_in_blocks(host_busy, self.block_size, k, num_workers) {
            Some(hosts) => Some(placement_map(&hosts)),
            None => None,
        }
    }
}

impl Default for BlockScheduler {
    /// Six servers of eight GPUs below a switch.
    fn default() -> (r: Self)
        ensures
            r.wf(),
            r.hosts_per_tor == 48,
            r.block_size == DEFAULT_BLOCK_SIZE,
            r.job_queue@ == Seq::<JobId>::empty(),
    {
        BlockScheduler::new(48, DEFAULT_BLOCK_SIZE)
    }
}

impl JobScheduler for BlockScheduler {
    open spec fn queue(&self) -> Seq<JobId> {
        self.job_queue@
    }

    /// Whole blocks only.
    open spec fn accepts(&self, job_id: JobId, num_workers: usize, num_hosts: nat) -> bool {
        self.wf() && num_workers % self.block_size == 0
    }

    open spec fn fits(&self, job_id: JobId, num_workers: usize, busy: Seq<bool>) -> bool {
        self.placement(num_workers, busy) is Some
    }

    open spec fn chooses(&self, job_id: JobId, num_workers: usize, busy: Seq<bool>, hosts: Seq<usize>) -> bool {
        self.placement(num_workers, busy) == Some(hosts)
    }

    /// Nothing is kept of jobs that have completed.
    open spec fn hears_completed(self, job_id: JobId, completion_time_us: u64, after: Self) -> bool {
        after == self
    }

    fn is_accepted(&self, job_id: JobId, num_workers: usize, num_hosts: usize) -> (r: bool) {
        self.block_size > 0 && self.hosts_per_tor > 0 && self.hosts_per_tor % self.block_size == 0 && num_workers
            % self.block_size == 0
    }

    fn try_schedule_job(&mut self, job: &mut MLJob, available_hosts: &[bool]) -> (r: bool)
        ensures
            *final(self) == *old(self),
            r == old(self).placement(old(job).num_workers, available_hosts@) is Some,
            r ==> placed_on(old(job), final(job), old(self).placement(old(job).num_workers, available_hosts@)->0),
    {
        let k: usize = self.blocks_per_tor();
        match place_in_blocks(available_hosts, self.block_size, k, job.num_workers) {
            Some(hosts) => {
                place_workers(job, &hosts);
                true
            },
            None => false,
        }
    }

    fn get_job_priority(&self, job: &MLJob) -> (r: u64) {
        u64::MAX - job.submit_time_us
    }

    fn notify_job_completed(&mut self, job_id: JobId, completion_time_us: u64) {
    }

    fn get_next_job_to_schedule(&mut self) -> (r: Option<JobId>) {
        queue_front(&self.job_queue)
    }

    fn enqueue_job(&mut self, job_id: JobId) {
        self.job_queue.push_back(job_id);
    }

    fn dequeue_job(&mut self) -> (r: Option<JobId>) {
        queue_pop(&mut self.job_queue)
    }

    fn has_queued_jobs(&self) -> (r: bool) {
        self.job_queue.len() > 0
    }

    /// The chosen placement as the only candidate, if one is asked for.
    fn generate_placement_candidates(
        &self,
        job: &MLJob,
        available_hosts: &[bool],
        max_candidates: usize,
    ) -> (r: Vec<PlacementCandidate>)
        ensures
            only_candidate(r@, job.id, self.placement(job.num_workers, available_hosts@), max_candidates),
    {
        sole_candidate(job.id, self.compute_placement(job.num_workers, available_hosts), max_candidates)
    }
}

/// The placement is the only candidate; there is none without one, nor if none is asked for.
pub open spec fn only_candidate(
    r: Seq<PlacementCandidate>,
    job_id: JobId,
    hosts: Option<Seq<usize>>,
    max_candidates: usize,
) -> bool {
    match hosts {
        Some(hosts) if max_candidates > 0 => r.len() == 1 && r[0].job_id == job_id && r[0].worker_to_host@ == place_first(Map::empty(), hosts),
        _ => r.len() == 0,
    }
}

/// A placement as the only candidate, if one is asked for.
pub fn sole_candidate(
    job_id: JobId,
    placement: Option<HashMap<usize, usize>>,
    max_candidates: usize,
) -> (r: Vec<PlacementCandidate>)
    ensures
        match placement {
            Some(m) if max_candidates > 0 => r@ == seq![PlacementCandidate { job_id, worker_to_host: m }],
            _ => r@.len() == 0,
        },
{
    let mut r: Vec<PlacementCandidate> = Vec::new();
    if max_candidates == 0 {
        return r;
    }
    if let Some(worker_to_host) = placement {
        r.push(PlacementCandidate { job_id, worker_to_host });
    }
    r
}

} // verus!
