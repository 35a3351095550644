//! When each job starts, so that on each link the jobs keep the times by which they differ there.

use vstd::prelude::*;

use crate::simulator::ml_worker::JobId;
use crate::spine::coloring::lemma_distinct_bounded;
use crate::system_modules::cassini::affinity::{job_at, node_pairs, AffinityGraph, AffinityNode};
use crate::system_modules::cassini::loops::{
    has_loop, is_loop, is_way, joined, lemma_reachable_back, lemma_reachable_joined, lemma_reachable_self,
    lemma_reachable_trans, lemma_simple_way, reachable, same_ends,
};
use crate::system_modules::cassini::store::{is_from, is_to, lemma_edges_from, lemma_edges_to};
use crate::system_modules::cassini::types::TimeShift;
use crate::utils::data::DHashMap;

verus! {

/// The length of an iteration where none is known.
pub const DEFAULT_ITERATION_US: u64 = 1000;

/// The length of an iteration of a job.
pub open spec fn iteration_of(times: Map<JobId, u64>, j: JobId) -> u64 {
    if times.contains_key(j) {
        times[j]
    } else {
        DEFAULT_ITERATION_US
    }
}

/// A time that differs from another one as two weights do, within an iteration.
pub open spec fn follow(shift: u64, w1: u64, w2: u64, iteration: u64) -> int {
    (shift - w1 + w2) % (iteration as int)
}

/// Two jobs use a link, with some weights.
pub open spec fn linked(edges: Seq<(usize, usize, u64)>, a: usize, b: usize, l: usize, w1: u64, w2: u64) -> bool {
    is_from(edges, a, edges.len(), (l, w1)) && is_from(edges, b, edges.len(), (l, w2))
}

/// Two jobs use the same link.
pub open spec fn shares(edges: Seq<(usize, usize, u64)>, a: usize, b: usize) -> bool {
    exists|l: usize, w1: u64, w2: u64| #[trigger] linked(edges, a, b, l, w1, w2)
}

/// A job shares no link with those before it.
pub open spec fn starts_part(edges: Seq<(usize, usize, u64)>, order: Seq<usize>, k: int) -> bool {
    forall|m: int| 0 <= m < k ==> !shares(edges, #[trigger] order[m], order[k])
}

/// The shift of the job at a node.
pub open spec fn shift_at(nodes: Seq<AffinityNode>, shifts: Map<JobId, TimeShift>, n: usize) -> u64 {
    shifts[job_at(nodes, n)].shift_us
}

/// A job follows, over a link, the job at `m`: the first that shares a link with it. No part starts
/// between them.
pub open spec fn follows(
    g: AffinityGraph,
    times: Map<JobId, u64>,
    order: Seq<usize>,
    shifts: Map<JobId, TimeShift>,
    k: int,
    m: int,
    l: usize,
    w1: u64,
    w2: u64,
) -> bool {
    &&& 0 <= m < k
    &&& linked(g.edges(), order[m], order[k], l, w1, w2)
    &&& forall|i: int| 0 <= i < m ==> !shares(g.edges(), #[trigger] order[i], order[k])
    &&& forall|r: int| m < r < k ==> !#[trigger] starts_part(g.edges(), order, r)
    &&& shift_at(g.nodes@, shifts, order[k]) == follow(
        shift_at(g.nodes@, shifts, order[m]),
        w1,
        w2,
        iteration_of(times, job_at(g.nodes@, order[k])),
    )
}

/// The shift of a job: that of the first job of a part is nothing, and it is the first of all jobs that are
/// left; another job follows one before it.
pub open spec fn is_placed(
    g: AffinityGraph,
    times: Map<JobId, u64>,
    order: Seq<usize>,
    shifts: Map<JobId, TimeShift>,
    k: int,
) -> bool {
    if starts_part(g.edges(), order, k) {
        &&& shift_at(g.nodes@, shifts, order[k]) == 0
        &&& forall|j: JobId| #[trigger]
            g.job_to_node@.contains_key(j) && !order.take(k).contains(g.job_to_node@[j]) ==> job_at(g.nodes@, order[k])
                <= j
    } else {
        exists|m: int, l: usize, w1: u64, w2: u64| #[trigger] follows(g, times, order, shifts, k, m, l, w1, w2)
    }
}

/// The nodes are those of different jobs.
pub open spec fn are_jobs(g: AffinityGraph, order: Seq<usize>) -> bool {
    &&& order.no_duplicates()
    &&& forall|k: int| 0 <= k < order.len() ==> (#[trigger] order[k]) < g.nodes@.len() && g.nodes@[order[k] as int] is Job
}

/// Exactly the jobs of the order have shifts.
pub open spec fn are_shifted(g: AffinityGraph, order: Seq<usize>, shifts: Map<JobId, TimeShift>) -> bool {
    &&& forall|j: JobId| #[trigger]
        shifts.contains_key(j) == (g.job_to_node@.contains_key(j) && order.contains(g.job_to_node@[j]))
    &&& forall|j: JobId| #[trigger] shifts.contains_key(j) ==> shifts[j].job_id == j
}

/// The shifts of all jobs, in an order in which each is placed.
pub open spec fn is_shift_order(
    g: AffinityGraph,
    times: Map<JobId, u64>,
    order: Seq<usize>,
    shifts: Map<JobId, TimeShift>,
) -> bool {
    &&& are_jobs(g, order)
    &&& are_shifted(g, order, shifts)
    &&& shifts.dom() == g.job_to_node@.dom()
    &&& forall|k: int| 0 <= k < order.len() ==> #[trigger] is_placed(g, times, order, shifts, k)
}

/// The shifts of all jobs.
pub open spec fn are_unique_shifts(g: AffinityGraph, times: Map<JobId, u64>, shifts: Map<JobId, TimeShift>) -> bool {
    exists|order: Seq<usize>| #[trigger] is_shift_order(g, times, order, shifts)
}

proof fn lemma_follow(shift: int, w1: int, w2: int, iteration: int)
    requires
        iteration > 0,
        w1 >= 0,
    ensures
        (shift + w2 + (iteration - w1 % iteration)) % iteration == (shift - w1 + w2) % iteration,
{
    let q = 1 + w1 / iteration;
    vstd::arithmetic::div_mod::lemma_fundamental_div_mod(w1, iteration);
    assert(shift + w2 + (iteration - w1 % iteration) == iteration * q + (shift - w1 + w2)) by (nonlinear_arith)
        requires
            q == 1 + w1 / iteration,
            w1 == iteration * (w1 / iteration) + w1 % iteration,
    ;
    vstd::arithmetic::div_mod::lemma_mod_multiples_vanish(q, shift - w1 + w2, iteration);
}

/// A time that differs from another one as two weights do, within an iteration.
pub fn compute_follow(shift: u64, w1: u64, w2: u64, iteration: u64) -> (r: u64)
    requires
        iteration > 0,
    ensures
        r == follow(shift, w1, w2, iteration),
        r < iteration,
{
    let back: u64 = iteration - w1 % iteration;
    let total: u128 = shift as u128 + w2 as u128 + back as u128;
    let r: u128 = total % (iteration as u128);
    proof {
        lemma_follow(shift as int, w1 as int, w2 as int, iteration as int);
    }
    r as u64
}

proof fn lemma_starts_push(edges: Seq<(usize, usize, u64)>, order: Seq<usize>, n: usize, k: int)
    requires
        0 <= k < order.len(),
    ensures
        starts_part(edges, order.push(n), k) == starts_part(edges, order, k),
{
    let next = order.push(n);
    if starts_part(edges, order, k) {
        assert forall|m: int| 0 <= m < k implies !shares(edges, #[trigger] next[m], next[k]) by {
            assert(next[m] == order[m]);
        }
    }
    if starts_part(edges, next, k) {
        assert forall|m: int| 0 <= m < k implies !shares(edges, #[trigger] order[m], order[k]) by {
            assert(next[m] == order[m]);
        }
    }
}

/// Jobs stay placed when another job comes.
proof fn lemma_placed_push(
    g: AffinityGraph,
    times: Map<JobId, u64>,
    order: Seq<usize>,
    shifts: Map<JobId, TimeShift>,
    n: usize,
    t: TimeShift,
    k: int,
)
    requires
        g.wf(),
        are_jobs(g, order.push(n)),
        0 <= k < order.len(),
        is_placed(g, times, order, shifts, k),
    ensures
        is_placed(g, times, order.push(n), shifts.insert(job_at(g.nodes@, n), t), k),
{
    let next = order.push(n);
    let after = shifts.insert(job_at(g.nodes@, n), t);
    lemma_starts_push(g.edges(), order, n, k);
    assert forall|i: int| 0 <= i < order.len() implies shift_at(g.nodes@, after, #[trigger] order[i]) == shift_at(
        g.nodes@,
        shifts,
        order[i],
    ) by {
        assert(next[i] == order[i] && next[order.len() as int] == n);
        assert(g.nodes@[order[i] as int] is Job && g.nodes@[n as int] is Job);
        assert(g.job_to_node@[job_at(g.nodes@, order[i])] == order[i]);
    }
    assert(next.take(k) =~= order.take(k));
    if !starts_part(g.edges(), order, k) {
        let (m, l, w1, w2) = choose|m: int, l: usize, w1: u64, w2: u64| #[trigger]
            follows(g, times, order, shifts, k, m, l, w1, w2);
        assert forall|i: int| 0 <= i < m implies !shares(g.edges(), #[trigger] next[i], next[k]) by {
            assert(next[i] == order[i]);
        }
        assert forall|r: int| m < r < k implies !#[trigger] starts_part(g.edges(), next, r) by {
            lemma_starts_push(g.edges(), order, n, r);
        }
        assert(follows(g, times, next, after, k, m, l, w1, w2));
    }
}

/// All jobs on a link are in the order.
spec fn link_done(edges: Seq<(usize, usize, u64)>, order: Seq<usize>, l: usize) -> bool {
    forall|b: usize, w: u64| #[trigger] is_from(edges, b, edges.len(), (l, w)) ==> order.contains(b)
}

/// All jobs that share a link with one are in the order.
spec fn job_done(edges: Seq<(usize, usize, u64)>, order: Seq<usize>, a: usize) -> bool {
    forall|b: usize| #[trigger] shares(edges, a, b) ==> order.contains(b)
}

/// The jobs so far are placed, those before `head` have been gone from, and no part starts after `root`.
spec fn progress(
    g: AffinityGraph,
    times: Map<JobId, u64>,
    order: Seq<usize>,
    shifts: Map<JobId, TimeShift>,
    head: int,
    root: int,
) -> bool {
    &&& are_jobs(g, order)
    &&& are_shifted(g, order, shifts)
    &&& forall|k: int| 0 <= k < order.len() ==> #[trigger] is_placed(g, times, order, shifts, k)
    &&& forall|i: int| 0 <= i < head ==> job_done(g.edges(), order, #[trigger] order[i])
    &&& forall|r: int| root < r < order.len() ==> !#[trigger] starts_part(g.edges(), order, r)
}

proof fn lemma_shifted_push(g: AffinityGraph, order: Seq<usize>, shifts: Map<JobId, TimeShift>, n: usize, t: TimeShift)
    requires
        g.wf(),
        are_jobs(g, order),
        are_shifted(g, order, shifts),
        n < g.nodes@.len(),
        g.nodes@[n as int] is Job,
        !shifts.contains_key(job_at(g.nodes@, n)),
        t.job_id == job_at(g.nodes@, n),
    ensures
        !order.contains(n),
        are_jobs(g, order.push(n)),
        are_shifted(g, order.push(n), shifts.insert(job_at(g.nodes@, n), t)),
{
    let job = job_at(g.nodes@, n);
    let next = order.push(n);
    let after = shifts.insert(job, t);
    assert(g.job_to_node@[job] == n && g.job_to_node@.contains_key(job));
    assert(!order.contains(n));
    assert forall|j: JobId| #[trigger] after.contains_key(j) == (g.job_to_node@.contains_key(j) && next.contains(
        g.job_to_node@[j],
    )) by {
        let b = g.job_to_node@[j];
        if order.contains(b) {
            let i = choose|i: int| 0 <= i < order.len() && order[i] == b;
            assert(next[i] == b);
        }
        if next.contains(b) && !order.contains(b) {
            let i = choose|i: int| 0 <= i < next.len() && next[i] == b;
            if i < order.len() {
                assert(order[i] == b);
            }
            assert(b == n);
            if g.job_to_node@.contains_key(j) {
                assert(g.nodes@[b as int] == AffinityNode::Job(j));
            }
        }
        assert(next[order.len() as int] == n);
        assert(shifts.contains_key(j) == (g.job_to_node@.contains_key(j) && order.contains(b)));
    }
}

proof fn lemma_done_push(edges: Seq<(usize, usize, u64)>, order: Seq<usize>, n: usize)
    ensures
        forall|b: usize| order.contains(b) ==> #[trigger] order.push(n).contains(b),
        order.push(n).contains(n),
        forall|l: usize| link_done(edges, order, l) ==> #[trigger] link_done(edges, order.push(n), l),
        forall|a: usize| job_done(edges, order, a) ==> #[trigger] job_done(edges, order.push(n), a),
{
    let next = order.push(n);
    assert forall|b: usize| order.contains(b) implies #[trigger] next.contains(b) by {
        let i = choose|i: int| 0 <= i < order.len() && order[i] == b;
        assert(next[i] == b);
    }
    assert(next[order.len() as int] == n);
}

/// Another job follows the one at `head`.
proof fn lemma_progress_follower(
    g: AffinityGraph,
    times: Map<JobId, u64>,
    order: Seq<usize>,
    shifts: Map<JobId, TimeShift>,
    head: int,
    root: int,
    n: usize,
    t: TimeShift,
    l: usize,
    w1: u64,
    w2: u64,
)
    requires
        g.wf(),
        progress(g, times, order, shifts, head, root),
        0 <= root <= head < order.len(),
        n < g.nodes@.len(),
        g.nodes@[n as int] is Job,
        !shifts.contains_key(job_at(g.nodes@, n)),
        t.job_id == job_at(g.nodes@, n),
        linked(g.edges(), order[head], n, l, w1, w2),
        t.shift_us == follow(
            shift_at(g.nodes@, shifts, order[head]),
            w1,
            w2,
            iteration_of(times, job_at(g.nodes@, n)),
        ),
    ensures
        progress(g, times, order.push(n), shifts.insert(job_at(g.nodes@, n), t), head, root),
{
    let e = g.edges();
    let job = job_at(g.nodes@, n);
    let next = order.push(n);
    let after = shifts.insert(job, t);
    let k = order.len() as int;
    lemma_shifted_push(g, order, shifts, n, t);
    lemma_done_push(e, order, n);
    assert forall|i: int| 0 <= i < head implies job_done(e, next, #[trigger] next[i]) by {
        assert(next[i] == order[i]);
    }
    assert forall|r: int| root < r < next.len() implies !#[trigger] starts_part(e, next, r) by {
        if r < k {
            lemma_starts_push(e, order, n, r);
        } else {
            assert(shares(e, next[head], next[k]));
        }
    }
    assert forall|i: int| 0 <= i < next.len() implies #[trigger] is_placed(g, times, next, after, i) by {
        if i < k {
            lemma_placed_push(g, times, order, shifts, n, t, i);
        } else {
            assert(shares(e, next[head], next[k]));
            assert(!starts_part(e, next, k));
            assert forall|m: int| 0 <= m < head implies !shares(e, #[trigger] next[m], next[k]) by {
                assert(next[m] == order[m]);
                assert(job_done(e, order, order[m]));
            }
            assert(shift_at(g.nodes@, after, next[head]) == shift_at(g.nodes@, shifts, order[head])) by {
                assert(g.nodes@[order[head] as int] is Job);
                assert(g.job_to_node@[job_at(g.nodes@, order[head])] == order[head]);
                assert(order.contains(order[head]));
            }
            assert(follows(g, times, next, after, k, head, l, w1, w2));
        }
    }
}

/// The first of the jobs that are left starts a part.
proof fn lemma_progress_start(
    g: AffinityGraph,
    times: Map<JobId, u64>,
    order: Seq<usize>,
    shifts: Map<JobId, TimeShift>,
    root: int,
    n: usize,
    t: TimeShift,
)
    requires
        g.wf(),
        progress(g, times, order, shifts, order.len() as int, root),
        n < g.nodes@.len(),
        g.nodes@[n as int] is Job,
        !shifts.contains_key(job_at(g.nodes@, n)),
        t == (TimeShift { job_id: job_at(g.nodes@, n), shift_us: 0 }),
        forall|j: JobId| #[trigger]
            g.job_to_node@.contains_key(j) && !shifts.contains_key(j) ==> job_at(g.nodes@, n) <= j,
    ensures
        progress(
            g,
            times,
            order.push(n),
            shifts.insert(job_at(g.nodes@, n), t),
            order.len() as int,
            order.len() as int,
        ),
{
    let e = g.edges();
    let job = job_at(g.nodes@, n);
    let next = order.push(n);
    let after = shifts.insert(job, t);
    let k = order.len() as int;
    lemma_shifted_push(g, order, shifts, n, t);
    lemma_done_push(e, order, n);
    assert forall|i: int| 0 <= i < k implies job_done(e, next, #[trigger] next[i]) by {
        assert(next[i] == order[i]);
    }
    assert forall|i: int| 0 <= i < next.len() implies #[trigger] is_placed(g, times, next, after, i) by {
        if i < k {
            lemma_placed_push(g, times, order, shifts, n, t, i);
        } else {
            assert forall|m: int| 0 <= m < k implies !shares(e, #[trigger] next[m], next[k]) by {
                assert(next[m] == order[m]);
                assert(job_done(e, order, order[m]));
            }
            assert(starts_part(e, next, k));
            assert(next.take(k) =~= order);
        }
    }
}

impl AffinityGraph {
    /// Goes to the jobs that share a link with the one at `head`.
    fn visit_neighbours(
        &self,
        iteration_times: &DHashMap<JobId, u64>,
        order: &mut Vec<usize>,
        shifts: &mut DHashMap<JobId, TimeShift>,
        head: usize,
        Ghost(root): Ghost<int>,
    )
        requires
            self.wf(),
            forall|j: JobId| #[trigger] iteration_times@.contains_key(j) ==> iteration_times@[j] > 0,
            0 <= root <= head < old(order)@.len(),
            progress(*self, iteration_times@, old(order)@, old(shifts)@, head as int, root),
        ensures
            final(order)@.len() >= old(order)@.len(),
            forall|i: int| 0 <= i < old(order)@.len() ==> #[trigger] final(order)@[i] == old(order)@[i],
            progress(*self, iteration_times@, final(order)@, final(shifts)@, head + 1, root),
    {
        let ghost e = self.edges();
        let ghost times = iteration_times@;
        let ghost start = order@;
        let current: usize = order[head];
        assert(self.nodes@[order@[head as int] as int] is Job);
        let mut shift: u64 = 0;
        if let AffinityNode::Job(j) = self.nodes[current] {
            assert(order@.contains(current));
            assert(self.job_to_node@[j] == current);
            assert(shifts@.contains_key(j));
            if let Some(t) = shifts.get(&j) {
                shift = t.shift_us;
            }
        }
        assert(shift == shift_at(self.nodes@, shifts@, current));
        let links = self.ends_at_job(current);
        let mut x: usize = 0;
        while x < links.len()
            invariant
                x <= links@.len(),
                self.wf(),
                e == self.edges(),
                times == iteration_times@,
                forall|j: JobId| #[trigger] times.contains_key(j) ==> times[j] > 0,
                0 <= root <= head < start.len() <= order@.len(),
                start[head as int] == current,
                forall|i: int| 0 <= i < start.len() ==> #[trigger] order@[i] == start[i],
                progress(*self, times, order@, shifts@, head as int, root),
                shift == shift_at(self.nodes@, shifts@, current),
                forall|i: int|
                    0 <= i < links@.len() ==> is_from(e, current, e.len(), #[trigger] links@[i]) && links@[i].0
                        < self.nodes@.len() && self.nodes@[links@[i].0 as int] is Link,
                forall|i: int| 0 <= i < x ==> link_done(e, order@, (#[trigger] links@[i]).0),
            decreases links@.len() - x,
        {
            let (link, w1): (usize, u64) = links[x];
            assert(is_from(e, current, e.len(), links@[x as int]));
            let jobs = self.ends_at_link(link);
            let mut y: usize = 0;
            while y < jobs.len()
                invariant
                    y <= jobs@.len(),
                    self.wf(),
                    e == self.edges(),
                    times == iteration_times@,
                    forall|j: JobId| #[trigger] times.contains_key(j) ==> times[j] > 0,
                    0 <= root <= head < start.len() <= order@.len(),
                    start[head as int] == current,
                    forall|i: int| 0 <= i < start.len() ==> #[trigger] order@[i] == start[i],
                    progress(*self, times, order@, shifts@, head as int, root),
                    shift == shift_at(self.nodes@, shifts@, current),
                    is_from(e, current, e.len(), (link, w1)),
                    forall|i: int|
                        0 <= i < jobs@.len() ==> is_to(e, link, e.len(), #[trigger] jobs@[i]) && jobs@[i].0
                            < self.nodes@.len() && self.nodes@[jobs@[i].0 as int] is Job,
                    x < links@.len(),
                    forall|i: int| 0 <= i < x ==> link_done(e, order@, (#[trigger] links@[i]).0),
                    forall|i: int| 0 <= i < y ==> order@.contains((#[trigger] jobs@[i]).0),
                decreases jobs@.len() - y,
            {
                let (n, w2): (usize, u64) = jobs[y];
                assert(is_to(e, link, e.len(), jobs@[y as int]));
                proof {
                    let k = choose|k: int| 0 <= k < e.len() && (#[trigger] e[k]) == (n, link, w2);
                    assert(is_from(e, n, e.len(), (link, w2)));
                    assert(linked(e, current, n, link, w1, w2));
                }
                if let AffinityNode::Job(j) = self.nodes[n] {
                    assert(self.job_to_node@[j] == n);
                    if !shifts.contains_key(&j) {
                        let iteration: u64 = match iteration_times.get(&j) {
                            Some(t) => *t,
                            None => DEFAULT_ITERATION_US,
                        };
                        let t = TimeShift { job_id: j, shift_us: compute_follow(shift, w1, w2, iteration) };
                        proof {
                            lemma_progress_follower(
                                *self,
                                times,
                                order@,
                                shifts@,
                                head as int,
                                root,
                                n,
                                t,
                                link,
                                w1,
                                w2,
                            );
                            lemma_done_push(e, order@, n);
                            assert(order@.contains(order@[head as int]));
                            assert(self.nodes@[order@[head as int] as int] is Job);
                            assert(self.job_to_node@[job_at(self.nodes@, current)] == current);
                            assert(shifts@.contains_key(job_at(self.nodes@, current)));
                        }
                        shifts.insert(j, t);
                        order.push(n);
                    }
                }
                y += 1;
            }
            proof {
                assert forall|b: usize, w: u64| #[trigger] is_from(e, b, e.len(), (link, w)) implies order@.contains(
                    b,
                ) by {
                    let k = choose|k: int| 0 <= k < e.len() && (#[trigger] e[k]) == (b, link, w);
                    assert(self.nodes@[self.edges()[k].0 as int] is Job);
                    assert(self.nodes@[self.edges()[k].1 as int] is Link);
                    assert(is_to(e, link, e.len(), (b, w)));
                    lemma_edges_to(e, link, e.len(), (b, w));
                    let i = choose|i: int| 0 <= i < jobs@.len() && jobs@[i] == (b, w);
                    assert(order@.contains(jobs@[i].0));
                }
                assert(link_done(e, order@, link));
            }
            x += 1;
        }
        proof {
            assert forall|b: usize| #[trigger] shares(e, current, b) implies order@.contains(b) by {
                let (l, w1, w2) = choose|l: usize, w1: u64, w2: u64| #[trigger] linked(e, current, b, l, w1, w2);
                lemma_edges_from(e, current, e.len(), (l, w1));
                let i = choose|i: int| 0 <= i < links@.len() && links@[i] == (l, w1);
                assert(link_done(e, order@, links@[i].0));
                assert(is_from(e, b, e.len(), (l, w2)));
            }
            assert(job_done(e, order@, order@[head as int]));
        }
    }

    /// When each job starts. From a first job of each part the others follow over the links, so that on
    /// each link the shifts differ as the shifts for the link do.
    pub fn compute_unique_time_shifts(&self, iteration_times: &DHashMap<JobId, u64>) -> (r: DHashMap<JobId, TimeShift>)
        requires
            self.wf(),
            forall|j: JobId| #[trigger] iteration_times@.contains_key(j) ==> iteration_times@[j] > 0,
        ensures
            are_unique_shifts(*self, iteration_times@, r@),
    {
        let ghost times = iteration_times@;
        let ids = self.job_to_node.sorted_keys();
        let mut shifts: DHashMap<JobId, TimeShift> = DHashMap::new();
        let mut order: Vec<usize> = Vec::new();
        let ghost mut root: int = 0;
        let mut i: usize = 0;
        while i < ids.len()
            invariant
                i <= ids@.len(),
                self.wf(),
                times == iteration_times@,
                forall|j: JobId| #[trigger] times.contains_key(j) ==> times[j] > 0,
                crate::utils::data::strictly_ascending(ids@),
                ids@.to_set() == self.job_to_node@.dom(),
                progress(*self, times, order@, shifts@, order@.len() as int, root),
                forall|x: int| 0 <= x < i ==> shifts@.contains_key(#[trigger] ids@[x]),
            decreases ids@.len() - i,
        {
            let j: usize = ids[i];
            assert(ids@.to_set().contains(j));
            if !shifts.contains_key(&j) {
                if let Some(n) = self.job_to_node.get(&j) {
                    let n: usize = *n;
                    let t = TimeShift { job_id: j, shift_us: 0 };
                    let ghost before = shifts@;
                    proof {
                        assert(self.nodes@[n as int] == AffinityNode::Job(j));
                        assert forall|k: JobId| #[trigger]
                            self.job_to_node@.contains_key(k) && !shifts@.contains_key(k) implies j <= k by {
                            assert(ids@.to_set().contains(k));
                            let x = choose|x: int| 0 <= x < ids@.len() && ids@[x] == k;
                            assert(x >= i);
                        }
                        lemma_progress_start(*self, times, order@, shifts@, root, n, t);
                        root = order@.len() as int;
                    }
                    let mut head: usize = order.len();
                    shifts.insert(j, t);
                    order.push(n);
                    proof {
                        assert forall|x: int| 0 <= x < i + 1 implies shifts@.contains_key(#[trigger] ids@[x]) by {
                            if x < i {
                                assert(before.contains_key(ids@[x]));
                            }
                        }
                    }
                    while head < order.len()
                        invariant
                            i < ids@.len(),
                            self.wf(),
                            times == iteration_times@,
                            forall|j: JobId| #[trigger] times.contains_key(j) ==> times[j] > 0,
                            0 <= root <= head <= order@.len(),
                            progress(*self, times, order@, shifts@, head as int, root),
                            forall|x: int| 0 <= x < i + 1 ==> shifts@.contains_key(#[trigger] ids@[x]),
                            ids@.to_set() == self.job_to_node@.dom(),
                        decreases self.nodes@.len() - head,
                    {
                        let ghost known = order@;
                        let ghost had = shifts@;
                        self.visit_neighbours(iteration_times, &mut order, &mut shifts, head, Ghost(root));
                        proof {
                            lemma_distinct_bounded(order@, self.nodes@.len());
                            assert forall|x: int| 0 <= x < i + 1 implies shifts@.contains_key(#[trigger] ids@[x]) by {
                                assert(had.contains_key(ids@[x]));
                                assert(ids@.to_set().contains(ids@[x]));
                                let b = self.job_to_node@[ids@[x]];
                                let y = choose|y: int| 0 <= y < known.len() && known[y] == b;
                                assert(order@[y] == b);
                            }
                        }
                        head += 1;
                    }
                }
            }
            i += 1;
        }
        proof {
            assert(shifts@.dom() =~= self.job_to_node@.dom()) by {
                assert forall|j: JobId| self.job_to_node@.contains_key(j) implies shifts@.contains_key(j) by {
                    assert(ids@.to_set().contains(j));
                    let x = choose|x: int| 0 <= x < ids@.len() && ids@[x] == j;
                    assert(shifts@.contains_key(ids@[x]));
                }
            }
            assert(is_shift_order(*self, times, order@, shifts@));
        }
        shifts
    }
}

/// An edge is not of a job.
spec fn is_apart(a: usize) -> spec_fn((usize, usize)) -> bool {
    |x: (usize, usize)| x.0 != a
}

/// The edges that do not touch a job.
spec fn apart(pairs: Seq<(usize, usize)>, a: usize) -> Seq<(usize, usize)> {
    pairs.filter(is_apart(a))
}

/// The job of an edge is another one.
proof fn lemma_apart(g: AffinityGraph, a: usize, b: usize, l: usize, w: u64)
    requires
        is_from(g.edges(), b, g.edges().len(), (l, w)),
        a != b,
    ensures
        joined(apart(node_pairs(g.edges()), a), apart(node_pairs(g.edges()), a).len(), b, l),
        joined(apart(node_pairs(g.edges()), a), apart(node_pairs(g.edges()), a).len(), l, b),
{
    let e = g.edges();
    let pairs = node_pairs(e);
    let f = apart(pairs, a);
    let k = choose|k: int| 0 <= k < e.len() && (#[trigger] e[k]) == (b, l, w);
    broadcast use vstd::seq_lib::group_filter_ensures;

    assert(pairs[k] == (b, l));
    assert(f.contains(pairs[k]));
    let i = choose|i: int| 0 <= i < f.len() && f[i] == (b, l);
    assert(f[i].0 == b && f[i].1 == l);
}

/// Two links of a job have no way between them that is apart from it, where there is no loop.
proof fn lemma_no_detour(g: AffinityGraph, a: usize, l1: usize, w1: u64, l2: usize, w2: u64)
    requires
        g.wf(),
        !has_loop(node_pairs(g.edges()), g.edges().len()),
        is_from(g.edges(), a, g.edges().len(), (l1, w1)),
        is_from(g.edges(), a, g.edges().len(), (l2, w2)),
        l1 != l2,
    ensures
        !reachable(apart(node_pairs(g.edges()), a), apart(node_pairs(g.edges()), a).len(), l1, l2),
{
    let e = g.edges();
    let pairs = node_pairs(e);
    let f = apart(pairs, a);
    let k1 = choose|k: int| 0 <= k < e.len() && (#[trigger] e[k]) == (a, l1, w1);
    let k2 = choose|k: int| 0 <= k < e.len() && (#[trigger] e[k]) == (a, l2, w2);
    assert(g.nodes@[g.edges()[k1].0 as int] is Job && g.nodes@[g.edges()[k1].1 as int] is Link);
    assert(g.nodes@[g.edges()[k2].1 as int] is Link);
    assert(pairs[k1] == (a, l1) && pairs[k2] == (a, l2));
    broadcast use vstd::seq_lib::group_filter_ensures;

    assert forall|x: usize, y: usize| #[trigger] joined(f, f.len(), x, y) implies joined(pairs, e.len(), x, y) && x != a
        && y != a by {
        let i = choose|i: int|
            0 <= i < f.len() && ((#[trigger] f[i]).0 == x && f[i].1 == y || f[i].0 == y && f[i].1 == x);
        assert(f.contains(f[i]));
        pairs.lemma_filter_contains_rev(is_apart(a), f[i]);
        let k = choose|k: int| 0 <= k < pairs.len() && pairs[k] == f[i];
        assert(g.nodes@[g.edges()[k].1 as int] is Link);
        assert(pairs[k].0 == x && pairs[k].1 == y || pairs[k].0 == y && pairs[k].1 == x);
    }
    if reachable(f, f.len(), l1, l2) {
        let p = choose|p: Seq<usize>| #[trigger] is_way(f, f.len(), p) && p[0] == l1 && p.last() == l2;
        let q = lemma_simple_way(f, f.len(), p);
        assert(q.len() >= 2);
        assert forall|i: int| 0 <= i < q.len() implies #[trigger] q[i] != a by {
            if i < q.len() - 1 {
                assert(joined(f, f.len(), q[i], q[i + 1]));
            } else {
                assert(joined(f, f.len(), q[i - 1], q[i - 1 + 1]));
            }
        }
        let whole = seq![a] + q;
        assert forall|i: int| 0 <= i < whole.len() - 1 implies joined(pairs, e.len(), #[trigger] whole[i], whole[i + 1]) by {
            if i == 0 {
                assert(pairs[k1].0 == a && pairs[k1].1 == l1);
            } else {
                assert(joined(f, f.len(), q[i - 1], q[i - 1 + 1]));
            }
        }
        assert(joined(pairs, e.len(), whole.last(), whole[0])) by {
            assert(pairs[k2].0 == a && pairs[k2].1 == l2);
        }
        assert(whole.no_duplicates());
        assert(is_loop(pairs, e.len(), whole));
    }
}

/// The last start of a part up to an index.
proof fn lemma_last_start(edges: Seq<(usize, usize, u64)>, order: Seq<usize>, m: int) -> (r: int)
    requires
        0 <= m < order.len(),
    ensures
        0 <= r <= m,
        starts_part(edges, order, r),
        forall|i: int| r < i <= m ==> !#[trigger] starts_part(edges, order, i),
    decreases m,
{
    if starts_part(edges, order, m) {
        m
    } else {
        lemma_last_start(edges, order, m - 1)
    }
}

/// The jobs of a part have ways to its first one that are apart from a later job.
proof fn lemma_way_to_start(
    g: AffinityGraph,
    times: Map<JobId, u64>,
    order: Seq<usize>,
    shifts: Map<JobId, TimeShift>,
    k: int,
    r: int,
    i: int,
)
    requires
        is_shift_order(g, times, order, shifts),
        0 <= r <= i < k < order.len(),
        starts_part(g.edges(), order, r),
        forall|x: int| r < x < k ==> !#[trigger] starts_part(g.edges(), order, x),
    ensures
        reachable(
            apart(node_pairs(g.edges()), order[k]),
            apart(node_pairs(g.edges()), order[k]).len(),
            order[i],
            order[r],
        ),
    decreases i,
{
    let f = apart(node_pairs(g.edges()), order[k]);
    let n = f.len();
    if i == r {
        lemma_reachable_self(f, n, order[i]);
    } else {
        assert(is_placed(g, times, order, shifts, i));
        assert(!starts_part(g.edges(), order, i));
        let (m, l, w1, w2) = choose|m: int, l: usize, w1: u64, w2: u64| #[trigger]
            follows(g, times, order, shifts, i, m, l, w1, w2);
        assert(m >= r);
        lemma_way_to_start(g, times, order, shifts, k, r, m);
        lemma_apart(g, order[k], order[m], l, w1);
        lemma_apart(g, order[k], order[i], l, w2);
        lemma_reachable_joined(f, n, order[i], l);
        lemma_reachable_joined(f, n, l, order[m]);
        lemma_reachable_trans(f, n, order[i], l, order[m]);
        lemma_reachable_trans(f, n, order[i], order[m], order[r]);
    }
}

/// Without loops a job uses a link once.
proof fn lemma_one_weight(g: AffinityGraph, a: usize, l: usize, w1: u64, w2: u64)
    requires
        !has_loop(node_pairs(g.edges()), g.edges().len()),
        is_from(g.edges(), a, g.edges().len(), (l, w1)),
        is_from(g.edges(), a, g.edges().len(), (l, w2)),
    ensures
        w1 == w2,
{
    let e = g.edges();
    let pairs = node_pairs(e);
    let k1 = choose|k: int| 0 <= k < e.len() && (#[trigger] e[k]) == (a, l, w1);
    let k2 = choose|k: int| 0 <= k < e.len() && (#[trigger] e[k]) == (a, l, w2);
    if k1 < k2 {
        assert(same_ends(pairs[k1], pairs[k2]));
    } else if k2 < k1 {
        assert(same_ends(pairs[k2], pairs[k1]));
    }
}

/// A job on a link, from which the shifts of all other jobs on the link differ as the weights do.
pub open spec fn keeps_link(
    g: AffinityGraph,
    times: Map<JobId, u64>,
    shifts: Map<JobId, TimeShift>,
    l: usize,
    m: usize,
    wm: u64,
) -> bool {
    &&& is_from(g.edges(), m, g.edges().len(), (l, wm))
    &&& forall|b: usize, w: u64| #[trigger]
        is_from(g.edges(), b, g.edges().len(), (l, w)) && b != m ==> shift_at(g.nodes@, shifts, b) == follow(
            shift_at(g.nodes@, shifts, m),
            wm,
            w,
            iteration_of(times, job_at(g.nodes@, b)),
        )
}

/// Where there is no loop, each link that is used has a job from whose shift those of the other jobs on
/// the link differ as their weights on the link do, up to whole iterations.
pub proof fn lemma_link_shifts(g: AffinityGraph, times: Map<JobId, u64>, shifts: Map<JobId, TimeShift>, l: usize)
    requires
        g.wf(),
        are_unique_shifts(g, times, shifts),
        !has_loop(node_pairs(g.edges()), g.edges().len()),
        exists|a: usize, w: u64| #[trigger] is_from(g.edges(), a, g.edges().len(), (l, w)),
    ensures
        exists|m: usize, wm: u64| #[trigger] keeps_link(g, times, shifts, l, m, wm),
{
    let e = g.edges();
    let order = choose|order: Seq<usize>| #[trigger] is_shift_order(g, times, order, shifts);
    let (a, w) = choose|a: usize, w: u64| #[trigger] is_from(e, a, e.len(), (l, w));
    lemma_in_order(g, times, order, shifts, a, l, w);
    let ka = choose|k: int| 0 <= k < order.len() && order[k] == a;
    let m = lemma_first_on(e, order, l, ka, w);
    let wm = choose|w: u64| #[trigger] is_from(e, order[m], e.len(), (l, w));
    assert forall|b: usize, w: u64| #[trigger] is_from(e, b, e.len(), (l, w)) && b != order[m] implies shift_at(
        g.nodes@,
        shifts,
        b,
    ) == follow(shift_at(g.nodes@, shifts, order[m]), wm, w, iteration_of(times, job_at(g.nodes@, b))) by {
        lemma_in_order(g, times, order, shifts, b, l, w);
        let k = choose|k: int| 0 <= k < order.len() && order[k] == b;
        assert(k > m) by {
            assert(is_from(e, order[k], e.len(), (l, w)));
        }
        lemma_follows_first(g, times, order, shifts, k, m, l, wm, w);
    }
    assert(keeps_link(g, times, shifts, l, order[m], wm));
}

/// Each job on a link is in the order.
proof fn lemma_in_order(
    g: AffinityGraph,
    times: Map<JobId, u64>,
    order: Seq<usize>,
    shifts: Map<JobId, TimeShift>,
    a: usize,
    l: usize,
    w: u64,
)
    requires
        g.wf(),
        is_shift_order(g, times, order, shifts),
        is_from(g.edges(), a, g.edges().len(), (l, w)),
    ensures
        order.contains(a),
{
    let e = g.edges();
    let k = choose|k: int| 0 <= k < e.len() && (#[trigger] e[k]) == (a, l, w);
    assert(g.nodes@[g.edges()[k].0 as int] is Job);
    let j = job_at(g.nodes@, a);
    assert(g.job_to_node@.contains_key(j) && g.job_to_node@[j] == a);
    assert(shifts.dom().contains(j));
    assert(shifts.contains_key(j));
}

/// The first job in the order that is on a link.
proof fn lemma_first_on(edges: Seq<(usize, usize, u64)>, order: Seq<usize>, l: usize, k: int, w: u64) -> (m: int)
    requires
        0 <= k < order.len(),
        is_from(edges, order[k], edges.len(), (l, w)),
    ensures
        0 <= m <= k,
        exists|w: u64| #[trigger] is_from(edges, order[m], edges.len(), (l, w)),
        forall|i: int, w: u64| 0 <= i < m ==> !#[trigger] is_from(edges, order[i], edges.len(), (l, w)),
    decreases k,
{
    if exists|i: int, w: u64| 0 <= i < k && #[trigger] is_from(edges, order[i], edges.len(), (l, w)) {
        let (i, w2) = choose|i: int, w: u64| 0 <= i < k && #[trigger] is_from(edges, order[i], edges.len(), (l, w));
        lemma_first_on(edges, order, l, i, w2)
    } else {
        k
    }
}

/// A job on a link follows the first job on the link, over the link.
proof fn lemma_follows_first(
    g: AffinityGraph,
    times: Map<JobId, u64>,
    order: Seq<usize>,
    shifts: Map<JobId, TimeShift>,
    k: int,
    m: int,
    l: usize,
    wm: u64,
    w: u64,
)
    requires
        g.wf(),
        is_shift_order(g, times, order, shifts),
        !has_loop(node_pairs(g.edges()), g.edges().len()),
        0 <= m < k < order.len(),
        is_from(g.edges(), order[m], g.edges().len(), (l, wm)),
        is_from(g.edges(), order[k], g.edges().len(), (l, w)),
        forall|i: int, w: u64| 0 <= i < m ==> !#[trigger] is_from(g.edges(), order[i], g.edges().len(), (l, w)),
    ensures
        shift_at(g.nodes@, shifts, order[k]) == follow(
            shift_at(g.nodes@, shifts, order[m]),
            wm,
            w,
            iteration_of(times, job_at(g.nodes@, order[k])),
        ),
{
    let e = g.edges();
    let b = order[k];
    assert(linked(e, order[m], b, l, wm, w));
    assert(shares(e, order[m], b));
    assert(is_placed(g, times, order, shifts, k));
    let (m2, l2, v1, v2) = choose|m2: int, l2: usize, v1: u64, v2: u64| #[trigger]
        follows(g, times, order, shifts, k, m2, l2, v1, v2);
    assert(m2 <= m);
    if l2 != l {
        let f = apart(node_pairs(e), b);
        let n = f.len();
        let r = lemma_last_start(e, order, m2);
        lemma_way_to_start(g, times, order, shifts, k, r, m2);
        lemma_way_to_start(g, times, order, shifts, k, r, m);
        lemma_apart(g, b, order[m2], l2, v1);
        lemma_apart(g, b, order[m], l, wm);
        lemma_reachable_joined(f, n, l2, order[m2]);
        lemma_reachable_joined(f, n, order[m], l);
        lemma_reachable_back(f, n, order[m], order[r]);
        lemma_reachable_trans(f, n, l2, order[m2], order[r]);
        lemma_reachable_trans(f, n, l2, order[r], order[m]);
        lemma_reachable_trans(f, n, l2, order[m], l);
        lemma_no_detour(g, b, l2, v2, l, w);
    }
    assert(m2 == m);
    lemma_one_weight(g, order[m], l, v1, wm);
    lemma_one_weight(g, b, l, v2, w);
}

/// Where there is no loop and all iterations are as long, the shifts of any two jobs on a link differ as
/// their weights on the link do, up to whole iterations.
pub proof fn lemma_equal_iterations(
    g: AffinityGraph,
    times: Map<JobId, u64>,
    shifts: Map<JobId, TimeShift>,
    l: usize,
    a: usize,
    wa: u64,
    b: usize,
    wb: u64,
    iteration: u64,
)
    requires
        g.wf(),
        are_unique_shifts(g, times, shifts),
        !has_loop(node_pairs(g.edges()), g.edges().len()),
        iteration > 0,
        forall|j: JobId| #[trigger] iteration_of(times, j) == iteration,
        is_from(g.edges(), a, g.edges().len(), (l, wa)),
        is_from(g.edges(), b, g.edges().len(), (l, wb)),
    ensures
        ((shift_at(g.nodes@, shifts, b) - shift_at(g.nodes@, shifts, a)) - (wb - wa)) % (iteration as int) == 0,
{
    lemma_link_shifts(g, times, shifts, l);
    let (m, wm) = choose|m: usize, wm: u64| #[trigger] keeps_link(g, times, shifts, l, m, wm);
    let t = iteration as int;
    let sm = shift_at(g.nodes@, shifts, m) as int;
    let sa = shift_at(g.nodes@, shifts, a) as int;
    let sb = shift_at(g.nodes@, shifts, b) as int;
    assert(iteration_of(times, job_at(g.nodes@, a)) == iteration);
    assert(iteration_of(times, job_at(g.nodes@, b)) == iteration);
    if a == m {
        lemma_one_weight(g, a, l, wa, wm);
    }
    if b == m {
        lemma_one_weight(g, b, l, wb, wm);
    }
    assert((sa - (sm - wm + wa)) % t == 0) by {
        if a != m {
            lemma_rest(sm - wm + wa, t);
        } else {
            vstd::arithmetic::div_mod::lemma_small_mod(0, t as nat);
        }
    }
    assert((sb - (sm - wm + wb)) % t == 0) by {
        if b != m {
            lemma_rest(sm - wm + wb, t);
        } else {
            vstd::arithmetic::div_mod::lemma_small_mod(0, t as nat);
        }
    }
    let x = sb - (sm - wm + wb);
    let y = sa - (sm - wm + wa);
    vstd::arithmetic::div_mod::lemma_sub_mod_noop(x, y, t);
    vstd::arithmetic::div_mod::lemma_small_mod(0, t as nat);
    assert(x - y == (sb - sa) - (wb - wa));
}

/// A number differs from its remainder by a multiple.
proof fn lemma_rest(x: int, t: int)
    requires
        t > 0,
    ensures
        (x % t - x) % t == 0,
{
    vstd::arithmetic::div_mod::lemma_fundamental_div_mod(x, t);
    let q = -(x / t);
    assert(x % t - x == t * q + 0) by (nonlinear_arith)
        requires
            x == t * (x / t) + x % t,
            q == -(x / t),
    ;
    vstd::arithmetic::div_mod::lemma_mod_multiples_vanish(q, 0, t);
    vstd::arithmetic::div_mod::lemma_small_mod(0, t as nat);
}

} // verus!
