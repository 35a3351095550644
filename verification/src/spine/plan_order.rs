//! What plans of flows promise.

use vstd::prelude::*;

use crate::simulator::ml_worker::JobId;
use crate::spine::flow_plan::{
    all_placed, covering, is_trace, iteration_end, iteration_fits, iteration_placed, leads_astray, leaves_exist, lemma_iteration_end, occupied, placed_flows, plan_made, plan_step, with_span, JobPlanView,
    PlanView,
};
use crate::spine::foresight::{caught_up, Foresight};
use crate::spine::job_model::FlowTemplate;
use crate::spine::route_plan::PlacedFlow;

verus! {

/// Jobs none of whose iterations has a time, each with a number of its own.
pub open spec fn are_new_jobs(jobs: Seq<JobPlanView>) -> bool {
    &&& forall|j: int|
        0 <= j < jobs.len() ==> (#[trigger] jobs[j]).placed == 0 && jobs[j].service_us == 0 && jobs[j].next_start_us == 0
    &&& forall|i: int, j: int| 0 <= i < j < jobs.len() ==> (#[trigger] jobs[i]).job_id != (#[trigger] jobs[j]).job_id
}

/// A planned flow is that of an iteration which starts at `time`.
pub open spec fn is_flow_at(f: FlowTemplate, job_id: JobId, iter_idx: int, time: int, p: PlacedFlow) -> bool {
    &&& p.job_id == job_id
    &&& p.iter_idx == iter_idx
    &&& p.job_flow_idx == f.job_flow_idx
    &&& p.src_host == f.src_host
    &&& p.dst_host == f.dst_host
    &&& p.src_leaf == f.src_leaf
    &&& p.dst_leaf == f.dst_leaf
    &&& p.start_us == time + f.offset_us
    &&& p.end_us == time + f.offset_us + f.duration_us
}

/// The plan has all flows of an iteration, which starts at `time`, from place `base` on.
pub open spec fn has_iteration(job: JobPlanView, placed: Seq<PlacedFlow>, iter_idx: int, base: int, time: int) -> bool {
    &&& 0 <= base
    &&& base + job.flows.len() <= placed.len()
    &&& 0 <= time
    &&& forall|k: int|
        0 <= k < job.flows.len() ==> is_flow_at(#[trigger] job.flows[k], job.job_id, iter_idx, time, placed[base + k])
}

/// How long an iteration takes: until its last flow ends.
pub open spec fn is_length(flows: Seq<FlowTemplate>, d: int) -> bool {
    &&& 0 <= d
    &&& forall|k: int| 0 <= k < flows.len() ==> (#[trigger] flows[k]).offset_us + flows[k].duration_us <= d
    &&& d > 0 ==> exists|k: int| 0 <= k < flows.len() && (#[trigger] flows[k]).offset_us + flows[k].duration_us == d
}

/// A flow between leaves starts or ends below the leaf, and runs at the moment.
pub open spec fn runs_at(p: PlacedFlow, leaf: usize, t: int) -> bool {
    &&& p.src_leaf != p.dst_leaf
    &&& p.src_leaf == leaf || p.dst_leaf == leaf
    &&& p.start_us <= t < p.end_us
}

/// The flows of other iterations, placed before flow `i`, that use a leaf at a moment.
pub open spec fn others_at(placed: Seq<PlacedFlow>, i: int, leaf: usize, t: int) -> Set<int> {
    Set::new(
        |p: int|
            0 <= p < i && (placed[p].job_id != placed[i].job_id || placed[p].iter_idx != placed[i].iter_idx) && runs_at(
                placed[p],
                leaf,
                t,
            ),
    )
}

/// Those of the first `base` flows that use a leaf at a moment.
pub open spec fn busy_at(placed: Seq<PlacedFlow>, base: int, leaf: usize, t: int) -> Set<int> {
    Set::new(|p: int| 0 <= p < base && runs_at(placed[p], leaf, t))
}

/// How many of the first `n` flows use a leaf at a moment.
pub open spec fn count_at(placed: Seq<PlacedFlow>, leaf: usize, t: int, n: nat) -> nat
    decreases n,
{
    if n == 0 {
        0
    } else {
        count_at(placed, leaf, t, (n - 1) as nat) + if runs_at(placed[n - 1], leaf, t) {
            1nat
        } else {
            0nat
        }
    }
}

proof fn lemma_count_set(placed: Seq<PlacedFlow>, leaf: usize, t: int, n: nat)
    requires
        n <= placed.len(),
    ensures
        Set::new(|p: int| 0 <= p < n && runs_at(placed[p], leaf, t)).finite(),
        Set::new(|p: int| 0 <= p < n && runs_at(placed[p], leaf, t)).len() == count_at(placed, leaf, t, n),
    decreases n,
{
    let s = Set::new(|p: int| 0 <= p < n && runs_at(placed[p], leaf, t));
    if n == 0 {
        assert(s =~= Set::empty());
    } else {
        lemma_count_set(placed, leaf, t, (n - 1) as nat);
        let before = Set::new(|p: int| 0 <= p < (n - 1) as nat && runs_at(placed[p], leaf, t));
        if runs_at(placed[n - 1], leaf, t) {
            assert(s =~= before.insert(n - 1));
        } else {
            assert(s =~= before);
        }
    }
}

proof fn lemma_count_same(a: Seq<PlacedFlow>, b: Seq<PlacedFlow>, leaf: usize, t: int, n: nat)
    requires
        n <= a.len(),
        n <= b.len(),
        forall|i: int| 0 <= i < n ==> a[i] == #[trigger] b[i],
    ensures
        count_at(a, leaf, t, n) == count_at(b, leaf, t, n),
    decreases n,
{
    if n > 0 {
        lemma_count_same(a, b, leaf, t, (n - 1) as nat);
        assert(a[n - 1] == b[n - 1]);
    }
}

proof fn lemma_count_add(a: Seq<PlacedFlow>, b: Seq<PlacedFlow>, leaf: usize, t: int, n: nat)
    requires
        n <= b.len(),
    ensures
        count_at(a + b, leaf, t, a.len() + n) == count_at(a, leaf, t, a.len()) + count_at(b, leaf, t, n),
    decreases n,
{
    if n == 0 {
        lemma_count_same(a + b, a, leaf, t, a.len());
    } else {
        lemma_count_add(a, b, leaf, t, (n - 1) as nat);
        assert((a + b)[a.len() + n - 1] == b[n - 1]);
    }
}

proof fn lemma_covering_same(a: Seq<(u64, u64)>, b: Seq<(u64, u64)>, t: int, n: nat)
    requires
        n <= a.len(),
        n <= b.len(),
        forall|i: int| 0 <= i < n ==> a[i] == #[trigger] b[i],
    ensures
        covering(a, t, n) == covering(b, t, n),
    decreases n,
{
    if n > 0 {
        lemma_covering_same(a, b, t, (n - 1) as nat);
        assert(a[n - 1] == b[n - 1]);
    }
}

proof fn lemma_covering_with(spans: Seq<(u64, u64)>, s: u64, e: u64, t: int)
    ensures
        covering(with_span(spans, s, e), t, with_span(spans, s, e).len()) == covering(spans, t, spans.len()) + if s <= t < e {
            1nat
        } else {
            0nat
        },
{
    if s < e {
        lemma_covering_same(spans.push((s, e)), spans, t, spans.len());
    }
}

proof fn lemma_occupied(
    leaves: Seq<Seq<(u64, u64)>>,
    job: JobPlanView,
    time: u64,
    n: nat,
    leaf: usize,
    t: int,
)
    requires
        n <= job.flows.len(),
        leaf < leaves.len(),
        iteration_end(job.flows, time as int, job.flows.len()) <= u64::MAX,
        forall|k: int| 0 <= k < job.flows.len() ==> !leads_astray(#[trigger] job.flows[k], leaves.len()),
    ensures
        occupied(leaves, job.flows, time, n).len() == leaves.len(),
        covering(
            occupied(leaves, job.flows, time, n)[leaf as int],
            t,
            occupied(leaves, job.flows, time, n)[leaf as int].len(),
        ) == covering(leaves[leaf as int], t, leaves[leaf as int].len()) + count_at(
            placed_flows(job.flows, job.job_id, job.placed, time, job.flows.len()),
            leaf,
            t,
            n,
        ),
    decreases n,
{
    if n > 0 {
        lemma_occupied(leaves, job, time, (n - 1) as nat, leaf, t);
        lemma_iteration_end(job.flows, time as int, job.flows.len());
        let before = occupied(leaves, job.flows, time, (n - 1) as nat);
        let f = job.flows[n - 1];
        assert(!leads_astray(f, leaves.len()));
        if f.src_leaf != f.dst_leaf {
            let s = (time + f.offset_us) as u64;
            let e = (time + f.offset_us + f.duration_us) as u64;
            lemma_covering_with(before[leaf as int], s, e, t);
        }
    }
}

/// How long an iteration takes.
pub open spec fn length(flows: Seq<FlowTemplate>) -> int {
    iteration_end(flows, 0, flows.len())
}

proof fn lemma_length(flows: Seq<FlowTemplate>, time: int, n: nat)
    requires
        n <= flows.len(),
    ensures
        iteration_end(flows, time, n) == time + iteration_end(flows, 0, n),
        iteration_end(flows, 0, n) > 0 ==> exists|k: int|
            0 <= k < n && (#[trigger] flows[k]).offset_us + flows[k].duration_us == iteration_end(flows, 0, n),
    decreases n,
{
    if n > 0 {
        lemma_length(flows, time, (n - 1) as nat);
        let d = iteration_end(flows, 0, n);
        if d > 0 && d == iteration_end(flows, 0, (n - 1) as nat) {
            let k = choose|k: int| 0 <= k < n - 1 && (#[trigger] flows[k]).offset_us + flows[k].duration_us == d;
            assert(flows[k].offset_us + flows[k].duration_us == d);
        } else {
            assert(flows[n - 1].offset_us + flows[n - 1].duration_us == d);
        }
    }
}

proof fn lemma_is_length(flows: Seq<FlowTemplate>, d: int)
    requires
        is_length(flows, d),
    ensures
        d == length(flows),
{
    lemma_length(flows, 0, flows.len());
    lemma_iteration_end(flows, 0, flows.len());
}

/// How many flows the first `n` jobs have in all their iterations.
pub open spec fn total_flows(jobs: Seq<JobPlanView>, n: nat) -> nat
    decreases n,
{
    if n == 0 {
        0
    } else {
        total_flows(jobs, (n - 1) as nat) + jobs[n - 1].remaining as nat * jobs[n - 1].flows.len()
    }
}

/// Flows that are still to be placed.
proof fn lemma_total_less(a: Seq<JobPlanView>, b: Seq<JobPlanView>, j: int, n: nat)
    requires
        a.len() == b.len(),
        n <= a.len(),
        0 <= j < a.len(),
        forall|i: int| 0 <= i < a.len() && i != j ==> #[trigger] b[i] == a[i],
        b[j].flows == a[j].flows,
        b[j].remaining + 1 == a[j].remaining,
    ensures
        total_flows(a, n) == total_flows(b, n) + if j < n {
            a[j].flows.len()
        } else {
            0
        },
    decreases n,
{
    if n > 0 {
        lemma_total_less(a, b, j, (n - 1) as nat);
        if j == n - 1 {
            let (x, y, m) = (a[j].remaining as nat, b[j].remaining as nat, a[j].flows.len());
            assert(x * m == y * m + m) by (nonlinear_arith)
                requires
                    x == y + 1,
            ;
        } else {
            assert(b[n - 1] == a[n - 1]);
        }
    }
}

/// What holds of the job of a planned flow.
pub open spec fn is_from(first: Seq<JobPlanView>, v: PlanView, j: int, p: PlacedFlow) -> bool {
    &&& 0 <= j < first.len()
    &&& p.job_id == first[j].job_id
    &&& p.iter_idx < v.jobs[j].placed
    &&& p.end_us <= v.jobs[j].next_start_us
    &&& forall|i: int|
        0 <= i < first.len() && (#[trigger] v.jobs[i]).remaining > 0 ==> p.iter_idx * length(first[j].flows)
            <= v.jobs[i].service_us
}

/// The planned flow belongs to one of the jobs.
pub open spec fn is_known(first: Seq<JobPlanView>, v: PlanView, p: PlacedFlow) -> bool {
    exists|j: int| is_from(first, v, j, p)
}

/// What holds of the jobs at each step.
pub open spec fn jobs_kept(first: Seq<JobPlanView>, v: PlanView) -> bool {
    &&& v.jobs.len() == first.len()
    &&& forall|j: int|
        0 <= j < first.len() ==> {
            &&& (#[trigger] v.jobs[j]).flows == first[j].flows
            &&& v.jobs[j].job_id == first[j].job_id
            &&& first[j].flows.len() > 0 ==> v.jobs[j].placed + v.jobs[j].remaining == first[j].remaining
            &&& v.jobs[j].remaining <= first[j].remaining
            &&& v.jobs[j].service_us == v.jobs[j].placed * length(first[j].flows)
            &&& v.jobs[j].service_us <= v.jobs[j].next_start_us
        }
    &&& total_flows(first, first.len()) == v.placed.len() + total_flows(v.jobs, v.jobs.len())
}

/// The plan has all flows of an iteration.
pub open spec fn is_planned(jobs: Seq<JobPlanView>, placed: Seq<PlacedFlow>, j: int, iter_idx: int) -> bool {
    exists|base: int, time: int| #[trigger] has_iteration(jobs[j], placed, iter_idx, base, time)
}

/// What holds of the flows at each step.
pub open spec fn flows_kept(first: Seq<JobPlanView>, v: PlanView) -> bool {
    &&& forall|p: int| 0 <= p < v.placed.len() ==> is_known(first, v, #[trigger] v.placed[p])
    &&& forall|j: int, it: int|
        0 <= j < first.len() && first[j].flows.len() > 0 && 0 <= it < v.jobs[j].placed ==> #[trigger] is_planned(
            first,
            v.placed,
            j,
            it,
        )
}

/// The flow belongs to the job.
pub open spec fn is_of_job(jobs: Seq<JobPlanView>, j: int, p: PlacedFlow) -> bool {
    0 <= j < jobs.len() && p.job_id == jobs[j].job_id
}

/// In which order flows are placed.
pub open spec fn in_order(first: Seq<JobPlanView>, placed: Seq<PlacedFlow>, i: int, p: int, j: int, q: int) -> bool {
    &&& placed[p].iter_idx * length(first[i].flows) <= placed[q].iter_idx * length(first[j].flows)
    &&& i == j ==> placed[p].iter_idx <= placed[q].iter_idx
    &&& i == j && placed[p].iter_idx < placed[q].iter_idx ==> placed[p].end_us <= placed[q].start_us
}

/// All flows are placed in order.
pub open spec fn order_kept(first: Seq<JobPlanView>, placed: Seq<PlacedFlow>) -> bool {
    forall|i: int, p: int, j: int, q: int|
        0 <= p < q < placed.len() && #[trigger] is_of_job(first, i, placed[p]) && #[trigger] is_of_job(first, j, placed[q])
            ==> in_order(first, placed, i, p, j, q)
}

/// Those placed before the iteration of flow `i` leave it a lane.
pub open spec fn has_lane(placed: Seq<PlacedFlow>, lanes: nat, i: int, leaf: usize, t: int, b: int) -> bool {
    &&& 0 <= b <= i
    &&& count_at(placed, leaf, t, b as nat) + 1 <= lanes
    &&& forall|p: int|
        b <= p <= i ==> (#[trigger] placed[p]).job_id == placed[i].job_id && placed[p].iter_idx == placed[i].iter_idx
}

/// Each flow has a lane at each moment at which it runs.
pub open spec fn lanes_kept(placed: Seq<PlacedFlow>, lanes: nat) -> bool {
    forall|i: int, leaf: usize, t: int|
        0 <= i < placed.len() && #[trigger] runs_at(placed[i], leaf, t) ==> exists|b: int|
            has_lane(placed, lanes, i, leaf, t, b)
}

/// The spans at a leaf are those of the flows that use it.
pub open spec fn leaves_kept(v: PlanView, num_leaves: nat) -> bool {
    &&& v.leaves.len() == num_leaves
    &&& forall|leaf: usize, t: int|
        leaf < num_leaves ==> #[trigger] count_at(v.placed, leaf, t, v.placed.len()) == covering(
            v.leaves[leaf as int],
            t,
            v.leaves[leaf as int].len(),
        )
}

/// What holds at each step.
pub open spec fn is_kept(first: Seq<JobPlanView>, v: PlanView, num_leaves: nat, lanes: nat) -> bool {
    &&& jobs_kept(first, v)
    &&& flows_kept(first, v)
    &&& order_kept(first, v.placed)
    &&& lanes_kept(v.placed, lanes)
    &&& leaves_kept(v, num_leaves)
}

/// What uses a leaf at a moment is what covers the moment there.
pub proof fn lemma_busy_at(
    first: Seq<JobPlanView>,
    v: PlanView,
    placed: Seq<PlacedFlow>,
    num_leaves: nat,
    lanes: nat,
    leaf: usize,
    t: int,
)
    requires
        is_kept(first, v, num_leaves, lanes),
        leaf < num_leaves,
        placed.len() >= v.placed.len(),
        forall|p: int| 0 <= p < v.placed.len() ==> #[trigger] placed[p] == v.placed[p],
    ensures
        busy_at(placed, v.placed.len() as int, leaf, t).len() == covering(
            v.leaves[leaf as int],
            t,
            v.leaves[leaf as int].len(),
        ),
{
    let n = v.placed.len();
    assert(count_at(v.placed, leaf, t, n) == covering(v.leaves[leaf as int], t, v.leaves[leaf as int].len()));
    lemma_count_same(placed, v.placed, leaf, t, n);
    lemma_count_set(placed, leaf, t, n);
    assert(busy_at(placed, n as int, leaf, t) =~= Set::new(|p: int| 0 <= p < n && runs_at(placed[p], leaf, t)));
}

proof fn lemma_jobs_kept(first: Seq<JobPlanView>, before: PlanView, after: PlanView, lanes: nat, j: int, time: u64)
    requires
        jobs_kept(first, before),
        iteration_placed(before, after, lanes, j, time),
    ensures
        jobs_kept(first, after),
        forall|i: int|
            0 <= i < first.len() ==> {
                &&& (#[trigger] after.jobs[i]).remaining <= before.jobs[i].remaining
                &&& after.jobs[i].placed >= before.jobs[i].placed
                &&& after.jobs[i].service_us >= before.jobs[i].service_us
                &&& after.jobs[i].next_start_us >= before.jobs[i].next_start_us
            },
        before.jobs[j].flows.len() > 0 ==> after.jobs[j].placed == before.jobs[j].placed + 1,
{
    let job = before.jobs[j];
    let n = job.flows.len();
    lemma_total_less(before.jobs, after.jobs, j, before.jobs.len());
    if n > 0 {
        lemma_length(job.flows, time as int, n);
        lemma_iteration_end(job.flows, 0, n);
        let d = length(job.flows);
        let c = job.placed as int;
        assert((c + 1) * d == c * d + d) by (nonlinear_arith);
    }
}

proof fn lemma_flows_kept(first: Seq<JobPlanView>, before: PlanView, after: PlanView, lanes: nat, j: int, time: u64)
    requires
        jobs_kept(first, before),
        flows_kept(first, before),
        iteration_placed(before, after, lanes, j, time),
    ensures
        flows_kept(first, after),
{
    lemma_jobs_kept(first, before, after, lanes, j, time);
    let job = before.jobs[j];
    let n = job.flows.len();
    let m = before.placed.len() as int;
    lemma_iteration_end(job.flows, time as int, n);
    assert(job.flows == first[j].flows);
    assert forall|p: int| 0 <= p < after.placed.len() implies is_known(first, after, #[trigger] after.placed[p]) by {
        if p < m {
            assert(after.placed[p] == before.placed[p]);
            assert(is_known(first, before, before.placed[p]));
            let i = choose|i: int| is_from(first, before, i, before.placed[p]);
            assert(after.jobs[i].placed >= before.jobs[i].placed);
            assert forall|x: int| 0 <= x < first.len() && (#[trigger] after.jobs[x]).remaining > 0 implies after.placed[p].iter_idx
                * length(first[i].flows) <= after.jobs[x].service_us by {
                assert(before.jobs[x].remaining > 0);
            }
            assert(is_from(first, after, i, after.placed[p]));
        } else {
            assert(after.placed[p] == placed_flows(job.flows, job.job_id, job.placed, time, n)[p - m]);
            assert forall|x: int| 0 <= x < first.len() && (#[trigger] after.jobs[x]).remaining > 0 implies after.placed[p].iter_idx
                * length(first[j].flows) <= after.jobs[x].service_us by {
                assert(before.jobs[x].remaining > 0);
            }
            assert(is_from(first, after, j, after.placed[p]));
        }
    }
    assert forall|i: int, it: int|
        0 <= i < first.len() && first[i].flows.len() > 0 && 0 <= it < after.jobs[i].placed implies #[trigger] is_planned(
        first,
        after.placed,
        i,
        it,
    ) by {
        if it < before.jobs[i].placed {
            assert(is_planned(first, before.placed, i, it));
            let (base, at) = choose|base: int, at: int| #[trigger] has_iteration(first[i], before.placed, it, base, at);
            assert forall|k: int| 0 <= k < first[i].flows.len() implies is_flow_at(
                #[trigger] first[i].flows[k],
                first[i].job_id,
                it,
                at,
                after.placed[base + k],
            ) by {
                assert(after.placed[base + k] == before.placed[base + k]);
            }
            assert(has_iteration(first[i], after.placed, it, base, at));
        } else {
            assert(i == j && it == job.placed);
            assert forall|k: int| 0 <= k < n implies is_flow_at(
                #[trigger] first[j].flows[k],
                first[j].job_id,
                it,
                time as int,
                after.placed[m + k],
            ) by {
                assert(after.placed[m + k] == placed_flows(job.flows, job.job_id, job.placed, time, n)[k]);
            }
            assert(has_iteration(first[j], after.placed, it, m, time as int));
        }
    }
}

proof fn lemma_order_kept(first: Seq<JobPlanView>, before: PlanView, after: PlanView, lanes: nat, j: int, time: u64)
    requires
        are_new_jobs(first),
        jobs_kept(first, before),
        flows_kept(first, before),
        order_kept(first, before.placed),
        iteration_placed(before, after, lanes, j, time),
    ensures
        order_kept(first, after.placed),
{
    let job = before.jobs[j];
    let n = job.flows.len();
    let m = before.placed.len() as int;
    lemma_iteration_end(job.flows, time as int, n);
    assert forall|i: int, p: int, x: int, q: int|
        0 <= p < q < after.placed.len() && #[trigger] is_of_job(first, i, after.placed[p]) && #[trigger] is_of_job(
            first,
            x,
            after.placed[q],
        ) implies in_order(first, after.placed, i, p, x, q) by {
        if q < m {
            assert(after.placed[p] == before.placed[p] && after.placed[q] == before.placed[q]);
            assert(is_of_job(first, i, before.placed[p]) && is_of_job(first, x, before.placed[q]));
            assert(in_order(first, before.placed, i, p, x, q));
        } else {
            let new = placed_flows(job.flows, job.job_id, job.placed, time, n);
            assert(after.placed[q] == new[q - m]);
            assert(x == j) by {
                assert(first[j].job_id == job.job_id);
            }
            if p < m {
                assert(after.placed[p] == before.placed[p]);
                assert(is_known(first, before, before.placed[p]));
                let y = choose|y: int| is_from(first, before, y, before.placed[p]);
                assert(y == i);
                assert(before.jobs[j].remaining > 0);
            } else {
                assert(after.placed[p] == new[p - m]);
                assert(i == j) by {
                    assert(first[j].job_id == job.job_id);
                }
            }
        }
    }
}

proof fn lemma_lanes_kept(
    first: Seq<JobPlanView>,
    before: PlanView,
    after: PlanView,
    num_leaves: nat,
    lanes: nat,
    j: int,
    time: u64,
)
    requires
        leaves_exist(first, num_leaves),
        jobs_kept(first, before),
        lanes_kept(before.placed, lanes),
        leaves_kept(before, num_leaves),
        iteration_placed(before, after, lanes, j, time),
    ensures
        lanes_kept(after.placed, lanes),
        leaves_kept(after, num_leaves),
{
    let job = before.jobs[j];
    let n = job.flows.len();
    let m = before.placed.len() as int;
    assert(job.flows == first[j].flows);
    assert forall|k: int| 0 <= k < n implies !leads_astray(#[trigger] job.flows[k], num_leaves) by {
        assert(first[j].remaining > 0);
        assert(!leads_astray(first[j].flows[k], num_leaves));
    }
    if n > 0 {
        let new = placed_flows(job.flows, job.job_id, job.placed, time, n);
        lemma_iteration_end(job.flows, time as int, n);
        lemma_occupied_len(before.leaves, job.flows, time, n);
        assert forall|leaf: usize, t: int| leaf < num_leaves implies #[trigger] count_at(
            after.placed,
            leaf,
            t,
            after.placed.len(),
        ) == covering(after.leaves[leaf as int], t, after.leaves[leaf as int].len()) by {
            lemma_occupied(before.leaves, job, time, n, leaf, t);
            lemma_count_add(before.placed, new, leaf, t, n);
            assert(count_at(before.placed, leaf, t, before.placed.len()) == covering(
                before.leaves[leaf as int],
                t,
                before.leaves[leaf as int].len(),
            ));
        }
        assert forall|i: int, leaf: usize, t: int|
            0 <= i < after.placed.len() && #[trigger] runs_at(after.placed[i], leaf, t) implies exists|b: int|
            has_lane(after.placed, lanes, i, leaf, t, b) by {
            if i < m {
                assert(after.placed[i] == before.placed[i]);
                assert(runs_at(before.placed[i], leaf, t));
                let b = choose|b: int| has_lane(before.placed, lanes, i, leaf, t, b);
                lemma_count_same(after.placed, before.placed, leaf, t, b as nat);
                assert forall|p: int| b <= p <= i implies (#[trigger] after.placed[p]).job_id == after.placed[i].job_id
                    && after.placed[p].iter_idx == after.placed[i].iter_idx by {
                    assert(after.placed[p] == before.placed[p]);
                }
                assert(has_lane(after.placed, lanes, i, leaf, t, b));
            } else {
                let k = i - m;
                assert(after.placed[i] == new[k]);
                let f = job.flows[k];
                assert(iteration_fits(before.leaves, lanes, job.flows, time as int));
                assert(!leads_astray(f, num_leaves));
                assert(covering(before.leaves[leaf as int], t, before.leaves[leaf as int].len()) + 1 <= lanes);
                assert(count_at(before.placed, leaf, t, before.placed.len()) + 1 <= lanes);
                lemma_count_same(after.placed, before.placed, leaf, t, m as nat);
                assert forall|p: int| m <= p <= i implies (#[trigger] after.placed[p]).job_id == after.placed[i].job_id
                    && after.placed[p].iter_idx == after.placed[i].iter_idx by {
                    assert(after.placed[p] == new[p - m]);
                }
                assert(has_lane(after.placed, lanes, i, leaf, t, m));
            }
        }
    }
}

proof fn lemma_occupied_len(leaves: Seq<Seq<(u64, u64)>>, flows: Seq<FlowTemplate>, time: u64, n: nat)
    requires
        n <= flows.len(),
        forall|k: int| 0 <= k < flows.len() ==> !leads_astray(#[trigger] flows[k], leaves.len()),
    ensures
        occupied(leaves, flows, time, n).len() == leaves.len(),
    decreases n,
{
    if n > 0 {
        lemma_occupied_len(leaves, flows, time, (n - 1) as nat);
        assert(!leads_astray(flows[n - 1], leaves.len()));
    }
}

pub proof fn lemma_trace_kept(trace: Seq<PlanView>, num_leaves: nat, lanes: nat, m: int)
    requires
        is_trace(trace, lanes),
        0 <= m < trace.len(),
        are_new_jobs(trace[0].jobs),
        leaves_exist(trace[0].jobs, num_leaves),
        trace[0].leaves == Seq::new(num_leaves, |l: int| Seq::<(u64, u64)>::empty()),
        trace[0].placed.len() == 0,
    ensures
        is_kept(trace[0].jobs, trace[m], num_leaves, lanes),
    decreases m,
{
    let first = trace[0].jobs;
    if m == 0 {
        assert forall|j: int| 0 <= j < first.len() implies #[trigger] first[j].placed * length(first[j].flows) == 0 by {
            let d = length(first[j].flows);
            assert(0 * d == 0) by (nonlinear_arith);
        }
    } else {
        lemma_trace_kept(trace, num_leaves, lanes, m - 1);
        assert(plan_step(trace[m - 1], trace[m - 1 + 1], lanes));
        let (before, after) = (trace[m - 1], trace[m]);
        let (j, time) = choose|j: int, time: u64| #[trigger] iteration_placed(before, after, lanes, j, time);
        lemma_jobs_kept(first, before, after, lanes, j, time);
        lemma_flows_kept(first, before, after, lanes, j, time);
        lemma_order_kept(first, before, after, lanes, j, time);
        lemma_lanes_kept(first, before, after, num_leaves, lanes, j, time);
    }
}

proof fn lemma_plan_kept(jobs: Seq<JobPlanView>, num_leaves: nat, lanes: nat, placed: Seq<PlacedFlow>) -> (v: PlanView)
    requires
        plan_made(jobs, num_leaves, lanes, Ok(placed)),
        are_new_jobs(jobs),
        leaves_exist(jobs, num_leaves),
    ensures
        is_kept(jobs, v, num_leaves, lanes),
        v.placed == placed,
        all_placed(v.jobs),
{
    let trace = choose|trace: Seq<PlanView>|
        {
            &&& #[trigger] is_trace(trace, lanes)
            &&& trace[0] == (PlanView {
                jobs,
                leaves: Seq::new(num_leaves, |l: int| Seq::empty()),
                placed: Seq::empty(),
            })
            &&& all_placed(trace.last().jobs) && placed == trace.last().placed
        };
    lemma_trace_kept(trace, num_leaves, lanes, trace.len() - 1);
    trace.last()
}

proof fn lemma_nothing_left(jobs: Seq<JobPlanView>, n: nat)
    requires
        n <= jobs.len(),
        all_placed(jobs),
    ensures
        total_flows(jobs, n) == 0,
    decreases n,
{
    if n > 0 {
        lemma_nothing_left(jobs, (n - 1) as nat);
        let c = jobs[n - 1].flows.len();
        assert(jobs[n - 1].remaining == 0);
        assert(0 * c == 0) by (nonlinear_arith);
    }
}

/// A plan has each flow of each iteration of each job, and no others. The flows of an iteration keep their distances
/// and their durations.
pub proof fn lemma_all_planned(jobs: Seq<JobPlanView>, num_leaves: nat, lanes: nat, placed: Seq<PlacedFlow>)
    requires
        plan_made(jobs, num_leaves, lanes, Ok(placed)),
        are_new_jobs(jobs),
        leaves_exist(jobs, num_leaves),
    ensures
        forall|j: int, it: int|
            0 <= j < jobs.len() && jobs[j].flows.len() > 0 && 0 <= it < jobs[j].remaining ==> #[trigger] is_planned(
                jobs,
                placed,
                j,
                it,
            ),
        placed.len() == total_flows(jobs, jobs.len()),
{
    let v = lemma_plan_kept(jobs, num_leaves, lanes, placed);
    lemma_nothing_left(v.jobs, v.jobs.len());
    assert forall|j: int, it: int|
        0 <= j < jobs.len() && jobs[j].flows.len() > 0 && 0 <= it < jobs[j].remaining implies #[trigger] is_planned(
        jobs,
        placed,
        j,
        it,
    ) by {
        assert(v.jobs[j].remaining == 0);
    }
}

/// The iterations of a job follow each other: no flow of one starts before all flows of those before it have ended.
pub proof fn lemma_iterations_in_turn(
    jobs: Seq<JobPlanView>,
    num_leaves: nat,
    lanes: nat,
    placed: Seq<PlacedFlow>,
    p: int,
    q: int,
)
    requires
        plan_made(jobs, num_leaves, lanes, Ok(placed)),
        are_new_jobs(jobs),
        leaves_exist(jobs, num_leaves),
        0 <= p < placed.len(),
        0 <= q < placed.len(),
        placed[p].job_id == placed[q].job_id,
        placed[p].iter_idx < placed[q].iter_idx,
    ensures
        placed[p].end_us <= placed[q].start_us,
        p < q,
{
    let v = lemma_plan_kept(jobs, num_leaves, lanes, placed);
    assert(is_known(jobs, v, v.placed[p]));
    let j = choose|j: int| is_from(jobs, v, j, v.placed[p]);
    assert(is_of_job(jobs, j, placed[p]) && is_of_job(jobs, j, placed[q]));
    if q < p {
        assert(in_order(jobs, placed, j, q, j, p));
    } else {
        assert(in_order(jobs, placed, j, p, j, q));
    }
}

/// Jobs are served evenly: when an iteration of a job is placed, no job that has iterations left has been served for a
/// shorter time.
pub proof fn lemma_served_evenly(
    jobs: Seq<JobPlanView>,
    num_leaves: nat,
    lanes: nat,
    placed: Seq<PlacedFlow>,
    i: int,
    p: int,
    j: int,
    q: int,
    d: int,
    e: int,
)
    requires
        plan_made(jobs, num_leaves, lanes, Ok(placed)),
        are_new_jobs(jobs),
        leaves_exist(jobs, num_leaves),
        0 <= p < q < placed.len(),
        is_of_job(jobs, i, placed[p]),
        is_of_job(jobs, j, placed[q]),
        is_length(jobs[i].flows, d),
        is_length(jobs[j].flows, e),
    ensures
        placed[p].iter_idx * d <= placed[q].iter_idx * e,
{
    let v = lemma_plan_kept(jobs, num_leaves, lanes, placed);
    lemma_is_length(jobs[i].flows, d);
    lemma_is_length(jobs[j].flows, e);
    assert(in_order(jobs, placed, i, p, j, q));
}

/// A flow finds a free lane at both of its leaves: at each moment at which it runs, fewer flows of the iterations that
/// were placed before use the leaf than there are lanes.
pub proof fn lemma_lane_free(
    jobs: Seq<JobPlanView>,
    num_leaves: nat,
    lanes: nat,
    placed: Seq<PlacedFlow>,
    i: int,
    leaf: usize,
    t: int,
)
    requires
        plan_made(jobs, num_leaves, lanes, Ok(placed)),
        are_new_jobs(jobs),
        leaves_exist(jobs, num_leaves),
        0 <= i < placed.len(),
        runs_at(placed[i], leaf, t),
    ensures
        others_at(placed, i, leaf, t).finite(),
        others_at(placed, i, leaf, t).len() < lanes,
{
    let v = lemma_plan_kept(jobs, num_leaves, lanes, placed);
    let b = choose|b: int| has_lane(placed, lanes, i, leaf, t, b);
    lemma_count_set(placed, leaf, t, b as nat);
    let all = Set::new(|p: int| 0 <= p < b as nat && runs_at(placed[p], leaf, t));
    assert(others_at(placed, i, leaf, t).subset_of(all));
    vstd::set_lib::lemma_len_subset(others_at(placed, i, leaf, t), all);
}

/// Of a job that runs, the iterations that are left and those that are done are all that it had; a job with nothing left is
/// forgotten, and its flows are not planned any more.
pub proof fn lemma_left_and_done(before: Foresight, after: Foresight, done: Map<JobId, (usize, usize)>, j: JobId)
    requires
        caught_up(before, after, done),
        before.job_models@.contains_key(j),
        before.active_jobs@.contains_key(j),
        done.contains_key(j),
    ensures
        after.job_models@.contains_key(j) == (done[j].1 < before.job_models@[j].total_iterations),
        after.active_jobs@.contains_key(j) == after.job_models@.contains_key(j),
        after.job_models@.contains_key(j) ==> after.job_models@[j].total_iterations + done[j].1
            == before.job_models@[j].total_iterations,
        after.job_models@.contains_key(j) ==> after.job_models@[j].workers == before.job_models@[j].workers,
{
}

} // verus!
