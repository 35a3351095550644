//! Planned iterations start as early as they can.

use vstd::prelude::*;

use crate::spine::flow_plan::{
    all_placed, covering, covering_before, has_room, is_trace, iteration_end, iteration_fits, iteration_placed,
    leads_astray, leaves_exist, lemma_iteration_end, placed_flows, plan_made, plan_step, JobPlanView, PlanView,
};
use crate::spine::job_model::FlowTemplate;
use crate::spine::plan_order::{
    are_new_jobs, busy_at, has_iteration, is_flow_at, is_kept, lemma_busy_at, lemma_trace_kept,
};
use crate::spine::route_plan::PlacedFlow;

verus! {

/// The flow cannot start at the moment, if only the first `base` flows of the plan are there: at some time while it would
/// run, or just before, as many of them use one of its leaves as there are lanes.
pub open spec fn is_kept_out(placed: Seq<PlacedFlow>, base: int, lanes: nat, f: FlowTemplate, t: int) -> bool {
    &&& f.src_leaf != f.dst_leaf
    &&& f.duration_us > 0
    &&& exists|leaf: usize, u: int|
        (leaf == f.src_leaf || leaf == f.dst_leaf) && t - 1 <= u < t + f.duration_us && (#[trigger] busy_at(
            placed,
            base,
            leaf,
            u,
        )).len() >= lanes
}

/// One of the flows of an iteration that starts at the moment cannot start.
pub open spec fn is_held_up(job: JobPlanView, placed: Seq<PlacedFlow>, base: int, lanes: nat, time: int) -> bool {
    exists|k: int|
        0 <= k < job.flows.len() && is_kept_out(placed, base, lanes, #[trigger] job.flows[k], time + job.flows[k].offset_us)
}

/// The flows of the job among the first `base` of the plan have ended.
pub open spec fn is_free_by(job: JobPlanView, placed: Seq<PlacedFlow>, base: int, time: int) -> bool {
    &&& 0 <= time
    &&& forall|p: int| 0 <= p < base && (#[trigger] placed[p]).job_id == job.job_id ==> placed[p].end_us <= time
}

/// The iteration is in the plan from place `base` on. It could not start earlier: at each earlier time a flow of the job has
/// not ended, or a flow of the iteration is kept out by those that come before in the plan.
pub open spec fn is_early(job: JobPlanView, placed: Seq<PlacedFlow>, lanes: nat, iter_idx: int, base: int, time: int) -> bool {
    &&& has_iteration(job, placed, iter_idx, base, time)
    &&& forall|t: int|
        t < time && #[trigger] is_free_by(job, placed, base, t) ==> is_held_up(job, placed, base, lanes, t)
}

/// The iteration is in the plan, as early as it can be.
pub open spec fn starts_early(jobs: Seq<JobPlanView>, placed: Seq<PlacedFlow>, lanes: nat, j: int, iter_idx: int) -> bool {
    exists|base: int, time: int| #[trigger] is_early(jobs[j], placed, lanes, iter_idx, base, time)
}

spec fn early_kept(first: Seq<JobPlanView>, v: PlanView, lanes: nat) -> bool {
    &&& forall|j: int, it: int|
        0 <= j < first.len() && first[j].flows.len() > 0 && 0 <= it < v.jobs[j].placed ==> #[trigger] starts_early(
            first,
            v.placed,
            lanes,
            j,
            it,
        )
    &&& forall|j: int| 0 <= j < first.len() ==> #[trigger] has_last(first[j], v.placed, v.jobs[j].next_start_us)
}

/// The time is the start, or one at which a flow of the job ends.
spec fn has_last(job: JobPlanView, placed: Seq<PlacedFlow>, time: u64) -> bool {
    time == 0 || exists|p: int| 0 <= p < placed.len() && (#[trigger] placed[p]).job_id == job.job_id && placed[p].end_us == time
}

proof fn lemma_covering_before(spans: Seq<(u64, u64)>, t: int, n: nat)
    requires
        n <= spans.len(),
    ensures
        covering_before(spans, t, n) == covering(spans, t - 1, n),
    decreases n,
{
    if n > 0 {
        lemma_covering_before(spans, t, (n - 1) as nat);
    }
}

proof fn lemma_end_reached(flows: Seq<FlowTemplate>, time: int, n: nat)
    requires
        n <= flows.len(),
        n > 0,
    ensures
        exists|k: int|
            0 <= k < n && time + (#[trigger] flows[k]).offset_us + flows[k].duration_us == iteration_end(flows, time, n),
    decreases n,
{
    if n == 1 {
        assert(iteration_end(flows, time, 0) == time);
        assert(time + flows[0].offset_us + flows[0].duration_us == iteration_end(flows, time, n));
    } else {
        lemma_end_reached(flows, time, (n - 1) as nat);
        let rest = iteration_end(flows, time, (n - 1) as nat);
        let k = choose|k: int| 0 <= k < n - 1 && time + (#[trigger] flows[k]).offset_us + flows[k].duration_us == rest;
        if iteration_end(flows, time, n) == rest {
            assert(time + flows[k].offset_us + flows[k].duration_us == iteration_end(flows, time, n));
        } else {
            assert(time + flows[n - 1].offset_us + flows[n - 1].duration_us == iteration_end(flows, time, n));
        }
    }
}

/// Where a leaf has no room, others use all its lanes.
proof fn lemma_no_room(
    first: Seq<JobPlanView>,
    v: PlanView,
    placed: Seq<PlacedFlow>,
    num_leaves: nat,
    lanes: nat,
    f: FlowTemplate,
    leaf: usize,
    t: int,
)
    requires
        is_kept(first, v, num_leaves, lanes),
        leaf < num_leaves,
        leaf == f.src_leaf || leaf == f.dst_leaf,
        f.src_leaf != f.dst_leaf,
        !has_room(v.leaves[leaf as int], lanes, t, t + f.duration_us),
        placed.len() >= v.placed.len(),
        forall|p: int| 0 <= p < v.placed.len() ==> #[trigger] placed[p] == v.placed[p],
    ensures
        is_kept_out(placed, v.placed.len() as int, lanes, f, t),
{
    let spans = v.leaves[leaf as int];
    let u = if exists|u: int| t <= u < t + f.duration_us && #[trigger] covering(spans, u, spans.len()) + 1 > lanes {
        choose|u: int| t <= u < t + f.duration_us && #[trigger] covering(spans, u, spans.len()) + 1 > lanes
    } else {
        t - 1
    };
    lemma_covering_before(spans, t, spans.len());
    assert(covering(spans, u, spans.len()) >= lanes);
    lemma_busy_at(first, v, placed, num_leaves, lanes, leaf, u);
    assert(busy_at(placed, v.placed.len() as int, leaf, u).len() >= lanes);
}

proof fn lemma_early_kept(
    first: Seq<JobPlanView>,
    before: PlanView,
    after: PlanView,
    num_leaves: nat,
    lanes: nat,
    j: int,
    time: u64,
)
    requires
        are_new_jobs(first),
        leaves_exist(first, num_leaves),
        is_kept(first, before, num_leaves, lanes),
        is_kept(first, after, num_leaves, lanes),
        early_kept(first, before, lanes),
        iteration_placed(before, after, lanes, j, time),
    ensures
        early_kept(first, after, lanes),
{
    let job = before.jobs[j];
    let n = job.flows.len();
    let m = before.placed.len() as int;
    assert(job.flows == first[j].flows && job.job_id == first[j].job_id);
    assert(first[j].remaining > 0);
    lemma_iteration_end(job.flows, time as int, n);
    assert(after.placed.len() >= m);
    assert forall|p: int| 0 <= p < m implies #[trigger] after.placed[p] == before.placed[p] by {}
    assert forall|i: int| 0 <= i < first.len() implies #[trigger] has_last(first[i], after.placed, after.jobs[i].next_start_us) by {
        assert(has_last(first[i], before.placed, before.jobs[i].next_start_us));
        if i == j && n > 0 {
            lemma_end_reached(job.flows, time as int, n);
            let k = choose|k: int|
                0 <= k < n && time + (#[trigger] job.flows[k]).offset_us + job.flows[k].duration_us == iteration_end(
                    job.flows,
                    time as int,
                    n,
                );
            assert(after.placed[m + k] == placed_flows(job.flows, job.job_id, job.placed, time, n)[k]);
        } else if before.jobs[i].next_start_us != 0 {
            let p = choose|p: int|
                0 <= p < m && (#[trigger] before.placed[p]).job_id == first[i].job_id && before.placed[p].end_us
                    == before.jobs[i].next_start_us;
            assert(after.placed[p] == before.placed[p]);
        }
    }
    assert forall|i: int, it: int|
        0 <= i < first.len() && first[i].flows.len() > 0 && 0 <= it < after.jobs[i].placed implies #[trigger] starts_early(
        first,
        after.placed,
        lanes,
        i,
        it,
    ) by {
        if it < before.jobs[i].placed {
            assert(starts_early(first, before.placed, lanes, i, it));
            let (base, at) = choose|base: int, at: int| #[trigger] is_early(first[i], before.placed, lanes, it, base, at);
            lemma_stays_early(first[i], before.placed, after.placed, lanes, it, base, at);
        } else {
            assert(i == j && it == job.placed);
            lemma_new_early(first, before, after, num_leaves, lanes, j, time);
        }
    }
}

proof fn lemma_stays_early(
    job: JobPlanView,
    a: Seq<PlacedFlow>,
    b: Seq<PlacedFlow>,
    lanes: nat,
    it: int,
    base: int,
    time: int,
)
    requires
        is_early(job, a, lanes, it, base, time),
        a.len() <= b.len(),
        forall|p: int| 0 <= p < a.len() ==> #[trigger] b[p] == a[p],
    ensures
        is_early(job, b, lanes, it, base, time),
{
    assert forall|k: int| 0 <= k < job.flows.len() implies is_flow_at(
        #[trigger] job.flows[k],
        job.job_id,
        it,
        time,
        b[base + k],
    ) by {
        assert(b[base + k] == a[base + k]);
    }
    assert forall|t: int| t < time && #[trigger] is_free_by(job, b, base, t) implies is_held_up(job, b, base, lanes, t) by {
        assert(is_free_by(job, a, base, t)) by {
            assert forall|p: int| 0 <= p < base && (#[trigger] a[p]).job_id == job.job_id implies a[p].end_us <= t by {
                assert(b[p] == a[p]);
            }
        }
        let k = choose|k: int|
            0 <= k < job.flows.len() && is_kept_out(a, base, lanes, #[trigger] job.flows[k], t + job.flows[k].offset_us);
        let f = job.flows[k];
        let s = t + f.offset_us;
        let (leaf, u) = choose|leaf: usize, u: int|
            (leaf == f.src_leaf || leaf == f.dst_leaf) && s - 1 <= u < s + f.duration_us && (#[trigger] busy_at(
                a,
                base,
                leaf,
                u,
            )).len() >= lanes;
        assert(busy_at(b, base, leaf, u) =~= busy_at(a, base, leaf, u)) by {
            assert forall|p: int| busy_at(b, base, leaf, u).contains(p) == busy_at(a, base, leaf, u).contains(p) by {
                if 0 <= p < base {
                    assert(b[p] == a[p]);
                }
            }
        }
        assert(busy_at(b, base, leaf, u).len() >= lanes);
        assert(is_kept_out(b, base, lanes, job.flows[k], t + job.flows[k].offset_us));
    }
}

proof fn lemma_new_early(
    first: Seq<JobPlanView>,
    before: PlanView,
    after: PlanView,
    num_leaves: nat,
    lanes: nat,
    j: int,
    time: u64,
)
    requires
        leaves_exist(first, num_leaves),
        is_kept(first, before, num_leaves, lanes),
        early_kept(first, before, lanes),
        iteration_placed(before, after, lanes, j, time),
        before.jobs[j].flows == first[j].flows,
        before.jobs[j].job_id == first[j].job_id,
        first[j].remaining > 0,
        0 <= j < first.len(),
        before.jobs[j].flows.len() > 0,
    ensures
        starts_early(first, after.placed, lanes, j, before.jobs[j].placed as int),
{
    let job = before.jobs[j];
    let n = job.flows.len();
    let m = before.placed.len() as int;
    lemma_iteration_end(job.flows, time as int, n);
    assert forall|p: int| 0 <= p < m implies #[trigger] after.placed[p] == before.placed[p] by {}
    assert forall|k: int| 0 <= k < n implies is_flow_at(
        #[trigger] first[j].flows[k],
        first[j].job_id,
        job.placed as int,
        time as int,
        after.placed[m + k],
    ) by {
        assert(after.placed[m + k] == placed_flows(job.flows, job.job_id, job.placed, time, n)[k]);
    }
    assert(has_iteration(first[j], after.placed, job.placed as int, m, time as int));
    assert forall|t: int| t < time && #[trigger] is_free_by(first[j], after.placed, m, t) implies is_held_up(
        first[j],
        after.placed,
        m,
        lanes,
        t,
    ) by {
        assert(t >= job.next_start_us) by {
            assert(has_last(first[j], before.placed, before.jobs[j].next_start_us));
            if job.next_start_us != 0 {
                let p = choose|p: int|
                    0 <= p < m && (#[trigger] before.placed[p]).job_id == first[j].job_id && before.placed[p].end_us
                        == job.next_start_us;
                assert(after.placed[p].end_us <= t);
            }
        }
        assert(!iteration_fits(before.leaves, lanes, job.flows, t));
        let k = choose|k: int|
            0 <= k < n && (#[trigger] job.flows[k]).src_leaf != job.flows[k].dst_leaf && {
                let s = t + job.flows[k].offset_us;
                let e = s + job.flows[k].duration_us;
                !has_room(before.leaves[job.flows[k].src_leaf as int], lanes, s, e) || !has_room(
                    before.leaves[job.flows[k].dst_leaf as int],
                    lanes,
                    s,
                    e,
                )
            };
        let f = job.flows[k];
        assert(!leads_astray(first[j].flows[k], num_leaves));
        let s = t + f.offset_us;
        if !has_room(before.leaves[f.src_leaf as int], lanes, s, s + f.duration_us) {
            lemma_no_room(first, before, after.placed, num_leaves, lanes, f, f.src_leaf, s);
        } else {
            lemma_no_room(first, before, after.placed, num_leaves, lanes, f, f.dst_leaf, s);
        }
        assert(is_kept_out(after.placed, m, lanes, first[j].flows[k], t + first[j].flows[k].offset_us));
    }
    assert(is_early(first[j], after.placed, lanes, job.placed as int, m, time as int));
}

proof fn lemma_trace_early(trace: Seq<PlanView>, num_leaves: nat, lanes: nat, m: int)
    requires
        is_trace(trace, lanes),
        0 <= m < trace.len(),
        are_new_jobs(trace[0].jobs),
        leaves_exist(trace[0].jobs, num_leaves),
        trace[0].leaves == Seq::new(num_leaves, |l: int| Seq::<(u64, u64)>::empty()),
        trace[0].placed.len() == 0,
    ensures
        is_kept(trace[0].jobs, trace[m], num_leaves, lanes),
        early_kept(trace[0].jobs, trace[m], lanes),
    decreases m,
{
    let first = trace[0].jobs;
    lemma_trace_kept(trace, num_leaves, lanes, m);
    if m > 0 {
        lemma_trace_early(trace, num_leaves, lanes, m - 1);
        assert(plan_step(trace[m - 1], trace[m - 1 + 1], lanes));
        let (before, after) = (trace[m - 1], trace[m]);
        let (j, time) = choose|j: int, time: u64| #[trigger] iteration_placed(before, after, lanes, j, time);
        lemma_early_kept(first, before, after, num_leaves, lanes, j, time);
    }
}

/// Each iteration of a plan starts as early as it can: at every earlier time, either an earlier flow of its job has not
/// ended, or one of its flows finds no free lane beside the flows that come before in the plan.
pub proof fn lemma_starts_early(
    jobs: Seq<JobPlanView>,
    num_leaves: nat,
    lanes: nat,
    placed: Seq<PlacedFlow>,
    j: int,
    iter_idx: int,
)
    requires
        plan_made(jobs, num_leaves, lanes, Ok(placed)),
        are_new_jobs(jobs),
        leaves_exist(jobs, num_leaves),
        0 <= j < jobs.len(),
        jobs[j].flows.len() > 0,
        0 <= iter_idx < jobs[j].remaining,
    ensures
        starts_early(jobs, placed, lanes, j, iter_idx),
{
    let trace = choose|trace: Seq<PlanView>|
        {
            &&& #[trigger] is_trace(trace, lanes)
            &&& trace[0] == (PlanView {
                jobs,
                leaves: Seq::new(num_leaves, |l: int| Seq::empty()),
                placed: Seq::empty(),
            })
            &&& all_placed(trace.last().jobs) && placed == trace.last().placed
        };
    lemma_trace_early(trace, num_leaves, lanes, trace.len() - 1);
    assert(trace.last().jobs[j].remaining == 0);
}

} // verus!
