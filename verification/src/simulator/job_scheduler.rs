//! Job schedulers decide on which free hosts the workers of a job run.

use std::collections::{HashMap, VecDeque};
use vstd::prelude::*;

use crate::simulator::ml_job::MLJob;
use crate::simulator::ml_worker::{JobId, MLWorker, WorkerId};

verus! {

/// The hosts exist and are not busy.
pub open spec fn available(hosts: Seq<usize>, busy: Seq<bool>) -> bool {
    forall|i: int| 0 <= i < hosts.len() ==> (#[trigger] hosts[i]) < busy.len() && !busy[hosts[i] as int]
}

/// The hosts are distinct, exist and are not busy.
pub open spec fn free_hosts(hosts: Seq<usize>, busy: Seq<bool>) -> bool {
    &&& hosts.no_duplicates()
    &&& available(hosts, busy)
}

/// `m` with the first workers on the listed hosts.
pub open spec fn place_first(m: Map<WorkerId, usize>, hosts: Seq<usize>) -> Map<WorkerId, usize> {
    Map::new(
        |w: WorkerId| m.contains_key(w) || w < hosts.len(),
        |w: WorkerId|
            if w < hosts.len() {
                hosts[w as int]
            } else {
                m[w]
            },
    )
}

/// `after` is `before` with worker `i` on host `hosts[i]`.
pub open spec fn placed_on(before: &MLJob, after: &MLJob, hosts: Seq<usize>) -> bool {
    &&& after.worker_to_host@ == place_first(before.worker_to_host@, hosts)
    &&& after.workers@ == before.workers@.map_entries(
        |w: WorkerId, worker: MLWorker|
            MLWorker {
                host_index: if w < hosts.len() {
                    hosts[w as int]
                } else {
                    worker.host_index
                },
                ..worker
            },
    )
    &&& *after == (MLJob { workers: after.workers, worker_to_host: after.worker_to_host, ..*before })
}

/// Puts worker `i` of the job on host `hosts[i]`.
pub fn place_workers(job: &mut MLJob, hosts: &Vec<usize>)
    ensures
        placed_on(old(job), final(job), hosts@),
{
    let ghost before = *job;
    let mut w: usize = 0;
    proof {
        assert(job.worker_to_host@ =~= place_first(before.worker_to_host@, hosts@.take(0)));
        assert(placed_on(&before, job, hosts@.take(0))) by {
            assert(job.workers@ =~= before.workers@.map_entries(
                |w: WorkerId, worker: MLWorker|
                    MLWorker {
                        host_index: if w < hosts@.take(0).len() {
                            hosts@.take(0)[w as int]
                        } else {
                            worker.host_index
                        },
                        ..worker
                    },
            ));
        }
    }
    while w < hosts.len()
        invariant
            w <= hosts.len(),
            placed_on(&before, job, hosts@.take(w as int)),
        decreases hosts.len() - w,
    {
        let host: usize = hosts[w];
        let ghost mid = *job;
        if let Some(worker) = job.workers.get_mut(&w) {
            worker.host_index = host;
        }
        job.worker_to_host.insert(w, host);
        proof {
            let h1 = hosts@.take(w + 1);
            assert(h1 =~= hosts@.take(w as int).push(host));
            assert(job.worker_to_host@ =~= place_first(before.worker_to_host@, h1));
            assert(job.workers@ =~= before.workers@.map_entries(
                |w: WorkerId, worker: MLWorker|
                    MLWorker {
                        host_index: if w < h1.len() {
                            h1[w as int]
                        } else {
                            worker.host_index
                        },
                        ..worker
                    },
            ));
        }
        w += 1;
    }
    proof {
        assert(hosts@.take(hosts@.len() as int) =~= hosts@);
    }
}

/// A possible placement of a job.
pub struct PlacementCandidate {
    pub job_id: JobId,
    pub worker_to_host: HashMap<usize, usize>,
}

/// The strategy that places jobs and keeps those that have to wait.
pub trait JobScheduler: Sized {
    /// The jobs that wait, first come first.
    spec fn queue(&self) -> Seq<JobId>;

    /// The job sizes and cluster sizes that the strategy works on.
    spec fn accepts(&self, job_id: JobId, num_workers: usize, num_hosts: nat) -> bool;

    /// Whether the strategy finds a place for a job.
    spec fn fits(&self, job_id: JobId, num_workers: usize, busy: Seq<bool>) -> bool;

    /// The hosts that the strategy may choose for the workers of a job.
    spec fn chooses(&self, job_id: JobId, num_workers: usize, busy: Seq<bool>, hosts: Seq<usize>) -> bool;

    /// What becomes of the scheduler when it hears that a job has completed.
    spec fn hears_completed(self, job_id: JobId, completion_time_us: u64, after: Self) -> bool;

    /// Whether the strategy works on a job and a cluster of these sizes.
    fn is_accepted(&self, job_id: JobId, num_workers: usize, num_hosts: usize) -> (r: bool)
        ensures
            r == self.accepts(job_id, num_workers, num_hosts as nat),
    ;

    /// Places the job on hosts that are not busy; `false` if it has to wait.
    fn try_schedule_job(&mut self, job: &mut MLJob, available_hosts: &[bool]) -> (r: bool)
        requires
            old(self).accepts(old(job).id, old(job).num_workers, available_hosts@.len()),
        ensures
            final(self).queue() == old(self).queue(),
            forall|j: JobId, n: usize, h: nat| final(self).accepts(j, n, h) == old(self).accepts(j, n, h),
            forall|j: JobId, n: usize, b: Seq<bool>| final(self).fits(j, n, b) == old(self).fits(j, n, b),
            forall|j: JobId, n: usize, b: Seq<bool>, h: Seq<usize>|
                final(self).chooses(j, n, b, h) == old(self).chooses(j, n, b, h),
            r == old(self).fits(old(job).id, old(job).num_workers, available_hosts@),
            !r ==> *final(job) == *old(job),
            r ==> exists|hosts: Seq<usize>|
                {
                    &&& old(self).chooses(old(job).id, old(job).num_workers, available_hosts@, hosts)
                    &&& hosts.len() == old(job).num_workers
                    &&& available(hosts, available_hosts@)
                    &&& #[trigger] placed_on(old(job), final(job), hosts)
                },
    ;

    /// Jobs with a higher priority go first.
    fn get_job_priority(&self, job: &MLJob) -> (r: u64)
        ensures
            r == u64::MAX - job.submit_time_us,
    ;

    /// A job has completed.
    fn notify_job_completed(&mut self, job_id: JobId, completion_time_us: u64)
        ensures
            old(self).hears_completed(job_id, completion_time_us, *final(self)),
            final(self).queue() == old(self).queue(),
            forall|j: JobId, n: usize, h: nat| final(self).accepts(j, n, h) == old(self).accepts(j, n, h),
            forall|j: JobId, n: usize, b: Seq<bool>| final(self).fits(j, n, b) == old(self).fits(j, n, b),
            forall|j: JobId, n: usize, b: Seq<bool>, h: Seq<usize>|
                final(self).chooses(j, n, b, h) == old(self).chooses(j, n, b, h),
    ;

    /// The job to try next.
    fn get_next_job_to_schedule(&mut self) -> (r: Option<JobId>)
        ensures
            final(self).queue() == old(self).queue(),
            forall|j: JobId, n: usize, h: nat| final(self).accepts(j, n, h) == old(self).accepts(j, n, h),
            forall|j: JobId, n: usize, b: Seq<bool>| final(self).fits(j, n, b) == old(self).fits(j, n, b),
            forall|j: JobId, n: usize, b: Seq<bool>, h: Seq<usize>|
                final(self).chooses(j, n, b, h) == old(self).chooses(j, n, b, h),
            r == first_of(old(self).queue()),
    ;

    /// The job has to wait.
    fn enqueue_job(&mut self, job_id: JobId)
        ensures
            final(self).queue() == old(self).queue().push(job_id),
            forall|j: JobId, n: usize, h: nat| final(self).accepts(j, n, h) == old(self).accepts(j, n, h),
            forall|j: JobId, n: usize, b: Seq<bool>| final(self).fits(j, n, b) == old(self).fits(j, n, b),
            forall|j: JobId, n: usize, b: Seq<bool>, h: Seq<usize>|
                final(self).chooses(j, n, b, h) == old(self).chooses(j, n, b, h),
    ;

    /// The first job no longer waits.
    fn dequeue_job(&mut self) -> (r: Option<JobId>)
        ensures
            final(self).queue() == without_first(old(self).queue()),
            forall|j: JobId, n: usize, h: nat| final(self).accepts(j, n, h) == old(self).accepts(j, n, h),
            forall|j: JobId, n: usize, b: Seq<bool>| final(self).fits(j, n, b) == old(self).fits(j, n, b),
            forall|j: JobId, n: usize, b: Seq<bool>, h: Seq<usize>|
                final(self).chooses(j, n, b, h) == old(self).chooses(j, n, b, h),
            r == first_of(old(self).queue()),
    ;

    /// Whether a job waits.
    fn has_queued_jobs(&self) -> (r: bool)
        ensures
            r == (self.queue().len() > 0),
    ;

    /// Placements that the strategy could choose for the job, at most `max_candidates`.
    fn generate_placement_candidates(
        &self,
        job: &MLJob,
        available_hosts: &[bool],
        max_candidates: usize,
    ) -> (r: Vec<PlacementCandidate>)
        requires
            self.accepts(job.id, job.num_workers, available_hosts@.len()),
        ensures
            r@.len() <= max_candidates,
    ;
}

/// Two schedulers with the same strategy.
pub open spec fn same_strategy<S: JobScheduler>(a: &S, b: &S) -> bool {
    &&& forall|j: JobId, n: usize, h: nat| a.accepts(j, n, h) == b.accepts(j, n, h)
    &&& forall|j: JobId, n: usize, busy: Seq<bool>| a.fits(j, n, busy) == b.fits(j, n, busy)
    &&& forall|j: JobId, n: usize, busy: Seq<bool>, h: Seq<usize>| a.chooses(j, n, busy, h) == b.chooses(j, n, busy, h)
}

/// The first element, if any.
pub open spec fn first_of(q: Seq<JobId>) -> Option<JobId> {
    if q.len() > 0 {
        Some(q[0])
    } else {
        None
    }
}

/// The sequence without its first element.
pub open spec fn without_first(q: Seq<JobId>) -> Seq<JobId> {
    if q.len() > 0 {
        q.skip(1)
    } else {
        q
    }
}

/// The first element of a queue.
pub fn queue_front(q: &VecDeque<JobId>) -> (r: Option<JobId>)
    ensures
        r == first_of(q@),
{
    if q.len() > 0 {
        Some(q[0])
    } else {
        None
    }
}

/// Takes the first element out of a queue.
pub fn queue_pop(q: &mut VecDeque<JobId>) -> (r: Option<JobId>)
    ensures
        final(q)@ == without_first(old(q)@),
        r == first_of(old(q)@),
{
    let r = q.pop_front();
    proof {
        if old(q)@.len() > 0 {
            assert(q@ =~= old(q)@.skip(1));
        }
    }
    r
}

/// Number of hosts among the first `n` that are not busy.
pub open spec fn free_count(busy: Seq<bool>, n: nat) -> nat
    decreases n,
{
    if n == 0 {
        0
    } else {
        free_count(busy, (n - 1) as nat) + if busy[n - 1] {
            0nat
        } else {
            1nat
        }
    }
}

/// The hosts among the first `n` that are not busy, in ascending order.
pub open spec fn free_list(busy: Seq<bool>, n: nat) -> Seq<usize>
    decreases n,
{
    if n == 0 {
        Seq::empty()
    } else if busy[n - 1] {
        free_list(busy, (n - 1) as nat)
    } else {
        free_list(busy, (n - 1) as nat).push((n - 1) as usize)
    }
}

/// The list of free hosts lists each once and nothing else.
pub proof fn lemma_free_list(busy: Seq<bool>, n: nat)
    requires
        n <= busy.len(),
        busy.len() <= usize::MAX,
    ensures
        free_list(busy, n).len() == free_count(busy, n),
        free_count(busy, n) <= n,
        free_hosts(free_list(busy, n), busy),
        forall|i: int| 0 <= i < free_list(busy, n).len() ==> (#[trigger] free_list(busy, n)[i]) < n,
        forall|i: int, j: int| 0 <= i < j < free_list(busy, n).len() ==> free_list(busy, n)[i] < free_list(busy, n)[j],
        forall|h: int| 0 <= h < n && !busy[h] ==> free_list(busy, n).contains(#[trigger] (h as usize)),
    decreases n,
{
    if n > 0 {
        lemma_free_list(busy, (n - 1) as nat);
        let before = free_list(busy, (n - 1) as nat);
        let after = free_list(busy, n);
        assert forall|h: int| 0 <= h < n && !busy[h] implies after.contains(#[trigger] (h as usize)) by {
            if h < n - 1 {
                assert(before.contains(h as usize));
                let i = choose|i: int| 0 <= i < before.len() && before[i] == h as usize;
                assert(after[i] == h as usize);
            } else {
                assert(after[after.len() - 1] == h as usize);
            }
        }
    }
}

proof fn lemma_free_list_prefix(busy: Seq<bool>, n: nat, m: nat)
    requires
        n <= m,
    ensures
        free_list(busy, n).len() <= free_list(busy, m).len(),
        free_list(busy, m).take(free_list(busy, n).len() as int) == free_list(busy, n),
    decreases m,
{
    if n < m {
        lemma_free_list_prefix(busy, n, (m - 1) as nat);
        let a = free_list(busy, n);
        let b = free_list(busy, (m - 1) as nat);
        let c = free_list(busy, m);
        assert(c.take(a.len() as int) =~= b.take(a.len() as int));
    } else {
        assert(free_list(busy, m).take(free_list(busy, m).len() as int) =~= free_list(busy, m));
    }
}

/// The first `count` hosts that are not busy, if there are so many.
pub fn first_fit(busy: &[bool], count: usize) -> (r: Option<Vec<usize>>)
    ensures
        r is Some == (free_count(busy@, busy@.len()) >= count),
        r matches Some(hosts) ==> hosts@ == free_list(busy@, busy@.len()).take(count as int) && hosts@.len() == count
            && free_hosts(hosts@, busy@),
{
    let mut hosts: Vec<usize> = Vec::new();
    let n: usize = busy.len();
    let mut h: usize = 0;
    proof {
        lemma_free_list(busy@, busy@.len());
    }
    while h < n && hosts.len() < count
        invariant
            h <= n,
            n == busy@.len(),
            hosts@ == free_list(busy@, h as nat),
            hosts@.len() <= count,
        decreases n - h,
    {
        if !busy[h] {
            hosts.push(h);
        }
        h += 1;
    }
    proof {
        lemma_free_list_prefix(busy@, h as nat, busy@.len());
    }
    if hosts.len() == count {
        proof {
            let all = free_list(busy@, busy@.len());
            assert(hosts@ == all.take(count as int));
            assert(free_hosts(hosts@, busy@)) by {
                assert forall|i: int| 0 <= i < hosts@.len() implies (#[trigger] hosts@[i]) < busy@.len()
                    && !busy@[hosts@[i] as int] by {
                    assert(hosts@[i] == all[i]);
                }
                assert forall|i: int, j: int| 0 <= i < hosts@.len() && 0 <= j < hosts@.len() && i != j implies hosts@[i]
                    != hosts@[j] by {
                    assert(hosts@[i] == all[i] && hosts@[j] == all[j]);
                }
            }
        }
        Some(hosts)
    } else {
        None
    }
}

/// Serves jobs in order of arrival, each on the first free hosts.
pub struct FifoScheduler {
    pub job_queue: VecDeque<JobId>,
}

impl FifoScheduler {
    /// A scheduler with an empty queue.
    pub fn new() -> (r: Self)
        ensures
            r.job_queue@ == Seq::<JobId>::empty(),
    {
        FifoScheduler { job_queue: VecDeque::new() }
    }

    /// Adds a job at the end of the queue.
    pub fn enqueue_job(&mut self, job_id: JobId)
        ensures
            final(self).job_queue@ == old(self).job_queue@.push(job_id),
    {
        self.job_queue.push_back(job_id);
    }

    /// Takes the first job out of the queue.
    pub fn dequeue_job(&mut self) -> (r: Option<JobId>)
        ensures
            final(self).job_queue@ == without_first(old(self).job_queue@),
            r == first_of(old(self).job_queue@),
    {
        queue_pop(&mut self.job_queue)
    }

    /// Number of jobs in the queue.
    pub fn queue_length(&self) -> (r: usize)
        ensures
            r == self.job_queue@.len(),
    {
        self.job_queue.len()
    }

    /// Whether the queue is empty.
    pub fn is_empty(&self) -> (r: bool)
        ensures
            r == (self.job_queue@.len() == 0),
    {
        self.job_queue.len() == 0
    }

    /// The first job of the queue.
    pub fn peek_next_job(&self) -> (r: Option<JobId>)
        ensures
            r == first_of(self.job_queue@),
    {
        queue_front(&self.job_queue)
    }
}

/// Worker `i` on host `hosts[i]`, as a table.
pub fn placement_map(hosts: &Vec<usize>) -> (m: HashMap<usize, usize>)
    ensures
        m@ == place_first(Map::empty(), hosts@),
{
    broadcast use vstd::std_specs::hash::group_hash_axioms;

    let mut m: HashMap<usize, usize> = HashMap::new();
    let mut w: usize = 0;
    proof {
        assert(m@ =~= place_first(Map::empty(), hosts@.take(0)));
    }
    while w < hosts.len()
        invariant
            w <= hosts.len(),
            m@ == place_first(Map::empty(), hosts@.take(w as int)),
        decreases hosts.len() - w,
    {
        m.insert(w, hosts[w]);
        proof {
            assert(m@ =~= place_first(Map::empty(), hosts@.take(w + 1)));
        }
        w += 1;
    }
    proof {
        assert(hosts@.take(hosts@.len() as int) =~= hosts@);
    }
    m
}

impl Default for FifoScheduler {
    fn default() -> (r: Self)
        ensures
            r.job_queue@ == Seq::<JobId>::empty(),
    {
        FifoScheduler::new()
    }
}

impl JobScheduler for FifoScheduler {
    open spec fn queue(&self) -> Seq<JobId> {
        self.job_queue@
    }

    open spec fn accepts(&self, job_id: JobId, num_workers: usize, num_hosts: nat) -> bool {
        true
    }

    /// There are enough free hosts.
    open spec fn fits(&self, job_id: JobId, num_workers: usize, busy: Seq<bool>) -> bool {
        free_count(busy, busy.len()) >= num_workers
    }

    /// The first free hosts.
    open spec fn chooses(&self, job_id: JobId, num_workers: usize, busy: Seq<bool>, hosts: Seq<usize>) -> bool {
        hosts == free_list(busy, busy.len()).take(num_workers as int)
    }

    /// Nothing is kept of jobs that have completed.
    open spec fn hears_completed(self, job_id: JobId, completion_time_us: u64, after: Self) -> bool {
        after == self
    }

    fn is_accepted(&self, job_id: JobId, num_workers: usize, num_hosts: usize) -> (r: bool) {
        true
    }

    /// The job goes on the first free hosts, as soon as there are enough.
    fn try_schedule_job(&mut self, job: &mut MLJob, available_hosts: &[bool]) -> (r: bool)
        ensures
            r == (free_count(available_hosts@, available_hosts@.len()) >= old(job).num_workers),
            r ==> placed_on(
                old(job),
                final(job),
                free_list(available_hosts@, available_hosts@.len()).take(old(job).num_workers as int),
            ),
    {
        match first_fit(available_hosts, job.num_workers) {
            Some(hosts) => {
                place_workers(job, &hosts);
                true
            },
            None => false,
        }
    }

    fn get_job_priority(&self, job: &MLJob) -> (r: u64) {
        u64::MAX - job.submit_time_us
    }

    fn notify_job_completed(&mut self, job_id: JobId, completion_time_us: u64) {
    }

    fn get_next_job_to_schedule(&mut self) -> (r: Option<JobId>) {
        queue_front(&self.job_queue)
    }

    fn enqueue_job(&mut self, job_id: JobId) {
        self.job_queue.push_back(job_id);
    }

    fn dequeue_job(&mut self) -> (r: Option<JobId>) {
        queue_pop(&mut self.job_queue)
    }

    fn has_queued_jobs(&self) -> (r: bool) {
        self.job_queue.len() > 0
    }

    /// The first-fit placement as the only candidate, if there are enough free hosts and one is asked for.
    fn generate_placement_candidates(
        &self,
        job: &MLJob,
        available_hosts: &[bool],
        max_candidates: usize,
    ) -> (r: Vec<PlacementCandidate>)
        ensures
            r@.len() == if max_candidates > 0 && free_count(available_hosts@, available_hosts@.len())
                >= job.num_workers {
                1nat
            } else {
                0nat
            },
            r@.len() == 1 ==> r@[0].job_id == job.id && r@[0].worker_to_host@ == place_first(
                Map::empty(),
                free_list(available_hosts@, available_hosts@.len()).take(job.num_workers as int),
            ),
    {
        let mut out: Vec<PlacementCandidate> = Vec::new();
        if max_candidates == 0 {
            return out;
        }
        if let Some(hosts) = first_fit(available_hosts, job.num_workers) {
            let worker_to_host = placement_map(&hosts);
            out.push(PlacementCandidate { job_id: job.id, worker_to_host });
        }
        out
    }
}

} // verus!
