//! A block scheduler that enumerates alternative placements, so that they can be rated by how well
//! the job shares the network with others.

use std::collections::{HashMap, VecDeque};
use vstd::prelude::*;

use crate::schedulers::block::{block_placement, lemma_whole_blocks, place_in_blocks};
use crate::schedulers::candidates::{
    alternatives, is_placement, lemma_alternatives, lemma_alternatives_differ, list_alternatives, proper, views,
};
use crate::schedulers::packing::{
    all_free, block_free, block_hosts, block_map, check_block_free, lemma_block_hosts_free, lemma_hosts_tell_blocks,
    list_free, list_hosts, map_blocks,
};
use crate::simulator::job_scheduler::{
    available, free_hosts, place_first, place_workers, placed_on, placement_map, queue_front,
    queue_pop, JobScheduler, PlacementCandidate,
};
use crate::simulator::ml_job::{ascending, lemma_ascending, MLJob};
use crate::simulator::ml_worker::JobId;
use crate::utils::data::DHashSet;

verus! {

/// The most alternatives that are enumerated.
pub const MAX_CANDIDATES: usize = 10;

/// A scheduler for blocks below switches that enumerates alternatives.
pub struct CassiniBlockScheduler {
    /// Jobs that wait, first come first.
    pub job_queue: VecDeque<JobId>,
    /// Hosts below a switch.
    pub hosts_per_tor: usize,
    /// Hosts in a block.
    pub block_size: usize,
}

impl CassiniBlockScheduler {
    /// Switches hold whole blocks.
    pub open spec fn wf(&self) -> bool {
        &&& self.block_size > 0
        &&& self.hosts_per_tor > 0
        &&& self.hosts_per_tor % self.block_size == 0
    }

    /// Blocks below a switch.
    pub open spec fn tor_blocks(&self) -> nat {
        (self.hosts_per_tor / self.block_size) as nat
    }

    /// The alternatives for a job of this size, as blocks. There are none unless it is whole blocks.
    pub open spec fn choices(&self, num_workers: usize, busy: Seq<bool>, max: usize) -> Seq<Seq<usize>> {
        if num_workers % self.block_size != 0 {
            Seq::empty()
        } else {
            alternatives(
                block_map(busy, self.block_size as nat),
                self.tor_blocks(),
                num_workers as nat / self.block_size as nat,
                if max < MAX_CANDIDATES {
                    max as nat
                } else {
                    MAX_CANDIDATES as nat
                },
            )
        }
    }

    /// Switches have blocks, and there are no more blocks than hosts.
    proof fn lemma_sizes(self, busy: Seq<bool>)
        requires
            self.wf(),
        ensures
            self.tor_blocks() > 0,
            block_map(busy, self.block_size as nat).len() <= busy.len(),
    {
        let n = busy.len();
        lemma_whole_blocks(self.hosts_per_tor as nat, self.block_size as nat);
        assert(self.hosts_per_tor / self.block_size > 0) by (nonlinear_arith)
            requires
                (self.hosts_per_tor / self.block_size) * self.block_size == self.hosts_per_tor,
                self.hosts_per_tor > 0,
        ;
        vstd::arithmetic::div_mod::lemma_div_is_ordered_by_denominator(n as int, 1, self.block_size as int);
        vstd::arithmetic::div_mod::lemma_div_basics_2(n as int);
    }

    /// Any two alternatives for a job differ in the hosts that they take.
    pub proof fn lemma_choices_differ(self, num_workers: usize, busy: Seq<bool>, max: usize, i: int, j: int)
        requires
            self.wf(),
            busy.len() <= usize::MAX,
            0 <= i < j < self.choices(num_workers, busy, max).len(),
        ensures
            block_hosts(self.choices(num_workers, busy, max)[i], self.block_size as nat).to_set() != block_hosts(
                self.choices(num_workers, busy, max)[j],
                self.block_size as nat,
            ).to_set(),
    {
        let size = self.block_size as nat;
        let taken = block_map(busy, size);
        let k = self.tor_blocks();
        let need = num_workers as nat / size;
        let limit = if max < MAX_CANDIDATES {
            max as nat
        } else {
            MAX_CANDIDATES as nat
        };
        let c = self.choices(num_workers, busy, max);
        self.lemma_sizes(busy);
        lemma_alternatives(taken, k, need, limit);
        assert(is_placement(c[i], taken, need) && is_placement(c[j], taken, need));
        if block_hosts(c[i], size).to_set() == block_hosts(c[j], size).to_set() {
            lemma_hosts_tell_blocks(busy, size, c[i], c[j]);
            lemma_alternatives_differ(taken, k, need, limit, i, j);
        }
    }

    /// There is an alternative for a job of whole blocks, if one is asked for and there are enough free
    /// blocks.
    pub proof fn lemma_choices_exist(self, num_workers: usize, busy: Seq<bool>, max: usize)
        requires
            self.wf(),
            busy.len() <= usize::MAX,
        ensures
            self.choices(num_workers, busy, max).len() > 0 <==> {
                let free = all_free(block_map(busy, self.block_size as nat)).len();
                &&& max > 0
                &&& num_workers % self.block_size == 0
                &&& free >= num_workers / self.block_size
                &&& free > 0
            },
    {
        self.lemma_sizes(busy);
        lemma_alternatives(
            block_map(busy, self.block_size as nat),
            self.tor_blocks(),
            num_workers as nat / self.block_size as nat,
            if max < MAX_CANDIDATES {
                max as nat
            } else {
                MAX_CANDIDATES as nat
            },
        );
    }

    /// A scheduler with an empty queue. The hosts below a switch have to be whole blocks.
    pub fn new(hosts_per_tor: usize, block_size: usize) -> (r: Self)
        requires
            hosts_per_tor > 0,
            block_size > 0,
            hosts_per_tor % block_size == 0,
        ensures
            r.wf(),
            r.hosts_per_tor == hosts_per_tor,
            r.block_size == block_size,
            r.job_queue@ == Seq::<JobId>::empty(),
    {
        CassiniBlockScheduler { job_queue: VecDeque::new(), hosts_per_tor, block_size }
    }

    /// Hosts in a block.
    pub fn block_size(&self) -> (r: usize)
        ensures
            r == self.block_size,
    {
        self.block_size
    }

    /// Blocks below a switch.
    pub fn blocks_per_tor(&self) -> (r: usize)
        requires
            self.wf(),
        ensures
            r == self.tor_blocks(),
            r > 0,
            r * self.block_size == self.hosts_per_tor,
    {
        proof {
            lemma_whole_blocks(self.hosts_per_tor as nat, self.block_size as nat);
            assert(self.hosts_per_tor / self.block_size > 0) by (nonlinear_arith)
                requires
                    (self.hosts_per_tor / self.block_size) * self.block_size == self.hosts_per_tor,
                    self.hosts_per_tor > 0,
            ;
        }
        self.hosts_per_tor / self.block_size
    }

    /// Whether no host of a block is busy. A block that does not exist is not free.
    pub fn is_block_free(&self, block_idx: usize, host_busy: &[bool]) -> (r: bool)
        requires
            self.wf(),
        ensures
            r == block_free(host_busy@, self.block_size as nat, block_idx as int),
    {
        check_block_free(host_busy, self.block_size, block_idx)
    }

    /// The free blocks, in ascending order.
    pub fn get_free_blocks(&self, host_busy: &[bool]) -> (r: Vec<usize>)
        requires
            self.wf(),
        ensures
            r@ == all_free(block_map(host_busy@, self.block_size as nat)),
    {
        let taken = map_blocks(host_busy, self.block_size);
        list_free(&taken, 0, taken.len())
    }

    /// The alternatives for a job, as hosts.
    fn list_choices(&self, num_workers: usize, host_busy: &[bool], max: usize) -> (r: Vec<Vec<usize>>)
        requires
            self.wf(),
        ensures
            ({
                let c = self.choices(num_workers, host_busy@, max);
                &&& r@.len() == c.len()
                &&& c.len() <= max
                &&& forall|i: int|
                    0 <= i < c.len() ==> (#[trigger] r@[i])@ == block_hosts(c[i], self.block_size as nat)
                        && r@[i]@.len() == num_workers && free_hosts(r@[i]@, host_busy@)
            }),
    {
        let n: usize = host_busy.len();
        let mut r: Vec<Vec<usize>> = Vec::new();
        if num_workers % self.block_size != 0 {
            return r;
        }
        let limit: usize = if max < MAX_CANDIDATES {
            max
        } else {
            MAX_CANDIDATES
        };
        let k: usize = self.blocks_per_tor();
        let need: usize = num_workers / self.block_size;
        let taken = map_blocks(host_busy, self.block_size);
        let lists = list_alternatives(&taken, k, need, limit);
        let ghost c = self.choices(num_workers, host_busy@, max);
        proof {
            self.lemma_sizes(host_busy@);
            lemma_alternatives(taken@, k as nat, need as nat, limit as nat);
            lemma_whole_blocks(num_workers as nat, self.block_size as nat);
        }
        let mut i: usize = 0;
        while i < lists.len()
            invariant
                self.wf(),
                n == host_busy@.len(),
                taken@ == block_map(host_busy@, self.block_size as nat),
                num_workers % self.block_size == 0,
                need == num_workers / self.block_size,
                need * self.block_size == num_workers,
                c == views(lists@),
                c.len() <= max,
                proper(c, taken@, need as nat),
                i <= lists@.len(),
                r@.len() == i,
                forall|j: int|
                    0 <= j < i ==> (#[trigger] r@[j])@ == block_hosts(c[j], self.block_size as nat) && r@[j]@.len()
                        == num_workers && free_hosts(r@[j]@, host_busy@),
            decreases lists@.len() - i,
        {
            proof {
                assert(c[i as int] == lists@[i as int]@);
            }
            let hosts = list_hosts(&lists[i], self.block_size, n);
            proof {
                lemma_block_hosts_free(host_busy@, self.block_size as nat, lists@[i as int]@);
            }
            r.push(hosts);
            i += 1;
        }
        r
    }

    /// The alternatives for a job, at most `max_candidates`.
    pub fn generate_candidates_for_job(
        &self,
        job_id: JobId,
        num_workers: usize,
        host_busy: &[bool],
        max_candidates: usize,
    ) -> (r: Vec<PlacementCandidate>)
        requires
            self.wf(),
        ensures
            are_candidates(
                r@,
                job_id,
                self.choices(num_workers, host_busy@, max_candidates),
                self.block_size as nat,
            ),
            r@.len() <= max_candidates,
    {
        let lists = self.list_choices(num_workers, host_busy, max_candidates);
        let ghost c = self.choices(num_workers, host_busy@, max_candidates);
        let mut r: Vec<PlacementCandidate> = Vec::new();
        let mut i: usize = 0;
        while i < lists.len()
            invariant
                i <= lists@.len(),
                lists@.len() == c.len(),
                c.len() <= max_candidates,
                forall|i: int| 0 <= i < c.len() ==> (#[trigger] lists@[i])@ == block_hosts(c[i], self.block_size as nat),
                r@.len() == i,
                forall|j: int|
                    0 <= j < i ==> (#[trigger] r@[j]).job_id == job_id && r@[j].worker_to_host@ == place_first(
                        Map::empty(),
                        block_hosts(c[j], self.block_size as nat),
                    ),
            decreases lists@.len() - i,
        {
            let worker_to_host = placement_map(&lists[i]);
            r.push(PlacementCandidate { job_id, worker_to_host });
            i += 1;
        }
        r
    }

    /// Chooses the hosts for a job by fit alone, if there is room.
    pub fn compute_placement(&self, num_workers: usize, host_busy: &[bool]) -> (r: Option<HashMap<usize, usize>>)
        requires
            self.wf(),
            num_workers % self.block_size == 0,
        ensures
            ({
                let hosts = block_placement(
                    host_busy@,
                    self.block_size as nat,
                    self.tor_blocks(),
                    num_workers as nat,
                );
                &&& r is Some == hosts is Some
                &&& r matches Some(m) ==> m@ == place_first(Map::empty(), hosts->0) && hosts->0.len() == num_workers
                    && free_hosts(hosts->0, host_busy@)
            }),
    {
        let k: usize = self.blocks_per_tor();
        match place_in_blocks(host_busy, self.block_size, k, num_workers) {
            Some(hosts) => Some(placement_map(&hosts)),
            None => None,
        }
    }

    /// The busy hosts below each switch that the hosts are below, by ascending switch. Hosts of the
    /// placement itself do not count.
    pub fn other_load(&self, hosts: &Vec<usize>, host_busy: &[bool]) -> (r: Vec<usize>)
        requires
            self.wf(),
            available(hosts@, host_busy@),
        ensures
            r@ == load_beside(hosts@, host_busy@, self.hosts_per_tor as nat),
    {
        let n: usize = host_busy.len();
        let k: usize = self.hosts_per_tor;
        let mut used: DHashSet<usize> = DHashSet::new();
        let mut i: usize = 0;
        proof {
            assert(used@ =~= tors_used(hosts@.take(0), k as nat));
        }
        while i < hosts.len()
            invariant
                k == self.hosts_per_tor,
                k > 0,
                i <= hosts@.len(),
                used@ == tors_used(hosts@.take(i as int), k as nat),
            decreases hosts@.len() - i,
        {
            used.insert(hosts[i] / k);
            proof {
                lemma_tors_used_push(hosts@, k as nat, i as int);
            }
            i += 1;
        }
        let tors = used.sorted();
        proof {
            assert(hosts@.take(hosts@.len() as int) =~= hosts@);
            lemma_ascending(tors@, used@);
        }
        let mut r: Vec<usize> = Vec::new();
        let mut t: usize = 0;
        while t < tors.len()
            invariant
                k == self.hosts_per_tor,
                k > 0,
                n == host_busy@.len(),
                available(hosts@, host_busy@),
                tors@.to_set() == tors_used(hosts@, k as nat),
                t <= tors@.len(),
                r@.len() == t,
                forall|i: int|
                    0 <= i < t ==> #[trigger] r@[i] == busy_between(
                        host_busy@,
                        tors@[i] as nat * k as nat,
                        tor_end(n as nat, k as nat, tors@[i] as nat),
                    ),
            decreases tors@.len() - t,
        {
            let tor: usize = tors[t];
            proof {
                assert(tors@.to_set().contains(tor));
                let h = choose|i: int| 0 <= i < hosts@.len() && (#[trigger] hosts@[i]) as int / k as int == tor;
                assert(hosts@[h] < n);
                vstd::arithmetic::div_mod::lemma_fundamental_div_mod(hosts@[h] as int, k as int);
                assert(tor * k <= hosts@[h]) by (nonlinear_arith)
                    requires
                        hosts@[h] as int == k as int * (hosts@[h] as int / k as int) + hosts@[h] as int % k as int,
                        0 <= hosts@[h] as int % k as int,
                        tor == hosts@[h] as int / k as int,
                ;
            }
            let start: usize = tor * k;
            let end: usize = if n - start < k {
                n
            } else {
                start + k
            };
            let mut count: usize = 0;
            let mut h: usize = start;
            while h < end
                invariant
                    start <= h <= end <= host_busy@.len(),
                    count == busy_between(host_busy@, start as nat, h as nat),
                    count <= h - start,
                decreases end - h,
            {
                if host_busy[h] {
                    count += 1;
                }
                h += 1;
            }
            r.push(count);
            t += 1;
        }
        proof {
            assert(r@ =~= load_beside(hosts@, host_busy@, k as nat));
        }
        r
    }
}

/// The candidates are the alternatives, in order.
pub open spec fn are_candidates(r: Seq<PlacementCandidate>, job_id: JobId, c: Seq<Seq<usize>>, block_size: nat) -> bool {
    &&& r.len() == c.len()
    &&& forall|i: int|
        0 <= i < c.len() ==> (#[trigger] r[i]).job_id == job_id && r[i].worker_to_host@ == place_first(
            Map::empty(),
            block_hosts(c[i], block_size),
        )
}

/// The switches that the hosts are below.
pub open spec fn tors_used(hosts: Seq<usize>, hosts_per_tor: nat) -> Set<usize> {
    Set::new(|t: usize| exists|i: int| 0 <= i < hosts.len() && (#[trigger] hosts[i]) as int / hosts_per_tor as int == t)
}

/// The busy hosts below each switch that the hosts are below, by ascending switch.
pub open spec fn load_beside(hosts: Seq<usize>, busy: Seq<bool>, hosts_per_tor: nat) -> Seq<usize> {
    let tors = ascending(tors_used(hosts, hosts_per_tor));
    Seq::new(
        tors.len(),
        |i: int|
            busy_between(
                busy,
                tors[i] as nat * hosts_per_tor,
                tor_end(busy.len(), hosts_per_tor, tors[i] as nat),
            ) as usize,
    )
}

/// Where the hosts below a switch end.
pub open spec fn tor_end(n: nat, hosts_per_tor: nat, tor: nat) -> nat {
    if tor * hosts_per_tor + hosts_per_tor <= n {
        tor * hosts_per_tor + hosts_per_tor
    } else {
        n
    }
}

/// Number of busy hosts from `lo` to before `hi`.
pub open spec fn busy_between(busy: Seq<bool>, lo: nat, hi: nat) -> nat
    decreases hi,
{
    if hi <= lo {
        0
    } else {
        busy_between(busy, lo, (hi - 1) as nat) + if busy[hi - 1] {
            1nat
        } else {
            0nat
        }
    }
}

proof fn lemma_tors_used_push(hosts: Seq<usize>, k: nat, i: int)
    requires
        k > 0,
        0 <= i < hosts.len(),
    ensures
        tors_used(hosts.take(i + 1), k) == tors_used(hosts.take(i), k).insert((hosts[i] as nat / k) as usize),
{
    let a = hosts.take(i);
    let b = hosts.take(i + 1);
    vstd::arithmetic::div_mod::lemma_div_is_ordered_by_denominator(hosts[i] as int, 1, k as int);
    vstd::arithmetic::div_mod::lemma_div_basics_2(hosts[i] as int);
    assert forall|t: usize| tors_used(b, k).contains(t) == tors_used(a, k).insert((hosts[i] as nat / k) as usize).contains(
        t,
    ) by {
        if tors_used(a, k).contains(t) {
            let j = choose|j: int| 0 <= j < a.len() && (#[trigger] a[j]) as int / k as int == t;
            assert(b[j] as int / k as int == t);
        }
        assert(b[i] == hosts[i]);
        if tors_used(b, k).contains(t) {
            let j = choose|j: int| 0 <= j < b.len() && (#[trigger] b[j]) as int / k as int == t;
            if j < i {
                assert(a[j] as int / k as int == t);
            }
        }
    }
    assert(tors_used(b, k) =~= tors_used(a, k).insert((hosts[i] as nat / k) as usize));
}

impl Default for CassiniBlockScheduler {
    /// Six servers of eight GPUs below a switch.
    fn default() -> (r: Self)
        ensures
            r.wf(),
            r.hosts_per_tor == 48,
            r.block_size == 8,
            r.job_queue@ == Seq::<JobId>::empty(),
    {
        CassiniBlockScheduler::new(48, 8)
    }
}

/// The last position of the greatest number.
pub open spec fn last_best(scores: Seq<u64>, i: int) -> bool {
    &&& 0 <= i < scores.len()
    &&& forall|j: int| 0 <= j < scores.len() ==> #[trigger] scores[j] <= scores[i] && (j > i ==> scores[j] < scores[i])
}

/// The position of the best rating, the last of those that are equal.
pub fn find_best(scores: &Vec<u64>) -> (r: Option<usize>)
    ensures
        r is None == (scores@.len() == 0),
        r matches Some(i) ==> last_best(scores@, i as int),
{
    if scores.len() == 0 {
        return None;
    }
    let mut best: usize = 0;
    let mut i: usize = 1;
    while i < scores.len()
        invariant
            1 <= i <= scores@.len(),
            best < i,
            forall|j: int|
                0 <= j < i ==> #[trigger] scores@[j] <= scores@[best as int] && (j > best ==> scores@[j]
                    < scores@[best as int]),
        decreases scores@.len() - i,
    {
        if scores[i] >= scores[best] {
            best = i;
        }
        i += 1;
    }
    Some(best)
}

/// Rates a placement. Of two placements the one with the greater number is better; nothing else is
/// assumed of the numbers.
pub trait PlacementScorer: Sized {
    /// The rating of a placement of `num_workers` workers, given the other busy hosts below each
    /// switch that it uses. Unless a scorer says more, all that is known is that it is a function of these.
    open spec fn rating(&self, other_load: Seq<usize>, num_workers: usize, hosts_per_tor: usize) -> u64 {
        let rate = arbitrary::<spec_fn(Self, Seq<usize>, usize, usize) -> u64>();
        rate(*self, other_load, num_workers, hosts_per_tor)
    }

    /// The rating of a placement.
    fn score(&self, other_load: &Vec<usize>, num_workers: usize, hosts_per_tor: usize) -> (r: u64)
        ensures
            r == self.rating(other_load@, num_workers, hosts_per_tor),
    ;
}

/// A scheduler that takes the alternative with the best rating.
pub struct RatedBlockScheduler<P: PlacementScorer> {
    pub inner: CassiniBlockScheduler,
    pub scorer: P,
}

impl<P: PlacementScorer> RatedBlockScheduler<P> {
    /// A scheduler with an empty queue.
    pub fn new(hosts_per_tor: usize, block_size: usize, scorer: P) -> (r: Self)
        requires
            hosts_per_tor > 0,
            block_size > 0,
            hosts_per_tor % block_size == 0,
        ensures
            r.inner.wf(),
            r.inner.hosts_per_tor == hosts_per_tor,
            r.inner.block_size == block_size,
            r.inner.job_queue@ == Seq::<JobId>::empty(),
            r.scorer == scorer,
    {
        RatedBlockScheduler { inner: CassiniBlockScheduler::new(hosts_per_tor, block_size), scorer }
    }

    /// The alternatives for a job, as hosts.
    pub open spec fn host_choices(&self, num_workers: usize, busy: Seq<bool>) -> Seq<Seq<usize>> {
        self.inner.choices(num_workers, busy, MAX_CANDIDATES).map_values(
            |blocks: Seq<usize>| block_hosts(blocks, self.inner.block_size as nat),
        )
    }

    /// The queue has no part in the ratings.
    proof fn lemma_queue_apart(self, other: Self)
        requires
            other.inner.hosts_per_tor == self.inner.hosts_per_tor,
            other.inner.block_size == self.inner.block_size,
            other.scorer == self.scorer,
        ensures
            forall|n: usize, busy: Seq<bool>| #[trigger] other.host_choices(n, busy) == self.host_choices(n, busy),
            forall|n: usize, busy: Seq<bool>| #[trigger] other.ratings(n, busy) == self.ratings(n, busy),
            forall|j: JobId, n: usize, busy: Seq<bool>, hosts: Seq<usize>| #[trigger]
                other.chooses(j, n, busy, hosts) == self.chooses(j, n, busy, hosts),
    {
        assert forall|n: usize, busy: Seq<bool>| #[trigger] other.host_choices(n, busy) == self.host_choices(n, busy) by {
            assert(other.host_choices(n, busy) =~= self.host_choices(n, busy));
        }
        assert forall|n: usize, busy: Seq<bool>| #[trigger] other.ratings(n, busy) == self.ratings(n, busy) by {
            assert(other.host_choices(n, busy) == self.host_choices(n, busy));
            assert(other.ratings(n, busy) =~= self.ratings(n, busy));
        }
        assert forall|j: JobId, n: usize, busy: Seq<bool>, hosts: Seq<usize>| #[trigger]
            other.chooses(j, n, busy, hosts) == self.chooses(j, n, busy, hosts) by {
            assert(other.ratings(n, busy) == self.ratings(n, busy));
            assert(other.host_choices(n, busy) == self.host_choices(n, busy));
        }
    }

    /// The ratings of the alternatives for a job.
    pub open spec fn ratings(&self, num_workers: usize, busy: Seq<bool>) -> Seq<u64> {
        self.host_choices(num_workers, busy).map_values(
            |hosts: Seq<usize>|
                self.scorer.rating(
                    load_beside(hosts, busy, self.inner.hosts_per_tor as nat),
                    num_workers,
                    self.inner.hosts_per_tor,
                ),
        )
    }
}

impl<P: PlacementScorer> JobScheduler for RatedBlockScheduler<P> {
    open spec fn queue(&self) -> Seq<JobId> {
        self.inner.job_queue@
    }

    /// Every job; one that is not whole blocks waits.
    open spec fn accepts(&self, job_id: JobId, num_workers: usize, num_hosts: nat) -> bool {
        self.inner.wf()
    }

    /// There is an alternative.
    open spec fn fits(&self, job_id: JobId, num_workers: usize, busy: Seq<bool>) -> bool {
        self.inner.choices(num_workers, busy, MAX_CANDIDATES).len() > 0
    }

    /// The hosts of the alternative with the best rating, the last of those that are equal.
    open spec fn chooses(&self, job_id: JobId, num_workers: usize, busy: Seq<bool>, hosts: Seq<usize>) -> bool {
        exists|i: int| #[trigger]
            last_best(self.ratings(num_workers, busy), i) && hosts == self.host_choices(num_workers, busy)[i]
    }

    /// Nothing is kept of jobs that have completed.
    open spec fn hears_completed(self, job_id: JobId, completion_time_us: u64, after: Self) -> bool {
        after == self
    }

    fn is_accepted(&self, job_id: JobId, num_workers: usize, num_hosts: usize) -> (r: bool) {
        self.inner.block_size > 0 && self.inner.hosts_per_tor > 0 && self.inner.hosts_per_tor % self.inner.block_size == 0
    }

    /// The job goes where the alternative with the best rating puts it, as soon as there is one.
    fn try_schedule_job(&mut self, job: &mut MLJob, available_hosts: &[bool]) -> (r: bool)
        ensures
            *final(self) == *old(self),
            ({
                let c = old(self).host_choices(old(job).num_workers, available_hosts@);
                &&& r == (c.len() > 0)
                &&& r ==> exists|i: int| #[trigger]
                    last_best(old(self).ratings(old(job).num_workers, available_hosts@), i) && placed_on(
                        old(job),
                        final(job),
                        c[i],
                    )
            }),
    {
        let ghost busy = available_hosts@;
        let ghost workers = job.num_workers;
        let lists = self.inner.list_choices(job.num_workers, available_hosts, MAX_CANDIDATES);
        let mut scores: Vec<u64> = Vec::new();
        let mut i: usize = 0;
        while i < lists.len()
            invariant
                self.inner.wf(),
                busy == available_hosts@,
                workers == job.num_workers,
                i <= lists@.len(),
                scores@.len() == i,
                lists@.len() == self.host_choices(workers, busy).len(),
                forall|j: int|
                    0 <= j < lists@.len() ==> (#[trigger] lists@[j])@ == self.host_choices(workers, busy)[j]
                        && free_hosts(lists@[j]@, busy),
                forall|j: int| 0 <= j < i ==> #[trigger] scores@[j] == self.ratings(workers, busy)[j],
            decreases lists@.len() - i,
        {
            let load = self.inner.other_load(&lists[i], available_hosts);
            scores.push(self.scorer.score(&load, job.num_workers, self.inner.hosts_per_tor));
            i += 1;
        }
        proof {
            assert(scores@ =~= self.ratings(workers, busy));
        }
        match find_best(&scores) {
            Some(b) => {
                place_workers(job, &lists[b]);
                proof {
                    assert(last_best(self.ratings(workers, busy), b as int));
                    assert(lists@[b as int]@ == self.host_choices(workers, busy)[b as int]);
                }
                true
            },
            None => false,
        }
    }

    fn get_job_priority(&self, job: &MLJob) -> (r: u64) {
        u64::MAX - job.submit_time_us
    }

    fn notify_job_completed(&mut self, job_id: JobId, completion_time_us: u64) {
    }

    fn get_next_job_to_schedule(&mut self) -> (r: Option<JobId>) {
        queue_front(&self.inner.job_queue)
    }

    fn enqueue_job(&mut self, job_id: JobId) {
        self.inner.job_queue.push_back(job_id);
        proof {
            old(self).lemma_queue_apart(*self);
        }
    }

    fn dequeue_job(&mut self) -> (r: Option<JobId>) {
        let r = queue_pop(&mut self.inner.job_queue);
        proof {
            old(self).lemma_queue_apart(*self);
        }
        r
    }

    fn has_queued_jobs(&self) -> (r: bool) {
        self.inner.job_queue.len() > 0
    }

    /// The alternatives.
    fn generate_placement_candidates(
        &self,
        job: &MLJob,
        available_hosts: &[bool],
        max_candidates: usize,
    ) -> (r: Vec<PlacementCandidate>)
        ensures
            are_candidates(
                r@,
                job.id,
                self.inner.choices(job.num_workers, available_hosts@, max_candidates),
                self.inner.block_size as nat,
            ),
    {
        self.inner.generate_candidates_for_job(job.id, job.num_workers, available_hosts, max_candidates)
    }
}

} // verus!
