//! When the flows of the jobs run. Iterations are placed one after the other, the job that has had
//! the least of the network first, each as early as the leaves have room for its flows.

use vstd::prelude::*;

use crate::simulator::ml_worker::JobId;
use crate::spine::job_model::{FlowTemplate, PlanFault};
use crate::spine::route_plan::PlacedFlow;

verus! {

/// Spans of time at a leaf that cover a moment.
pub open spec fn covering(spans: Seq<(u64, u64)>, t: int, n: nat) -> nat
    decreases n,
{
    if n == 0 {
        0
    } else {
        covering(spans, t, (n - 1) as nat) + if spans[n - 1].0 <= t < spans[n - 1].1 {
            1nat
        } else {
            0nat
        }
    }
}

/// Spans that last until just before a moment.
pub open spec fn covering_before(spans: Seq<(u64, u64)>, t: int, n: nat) -> nat
    decreases n,
{
    if n == 0 {
        0
    } else {
        covering_before(spans, t, (n - 1) as nat) + if spans[n - 1].0 < t <= spans[n - 1].1 {
            1nat
        } else {
            0nat
        }
    }
}

/// A span begins or ends at the moment.
pub open spec fn is_change(spans: Seq<(u64, u64)>, t: int) -> bool {
    exists|i: int| 0 <= i < spans.len() && ((#[trigger] spans[i]).0 == t || spans[i].1 == t)
}

/// There is a free lane at every moment of a span. Where something changes at its start, there is
/// one just before it too.
pub open spec fn has_room(spans: Seq<(u64, u64)>, lanes: nat, start: int, end: int) -> bool {
    start < end ==> {
        &&& is_change(spans, start) ==> covering_before(spans, start, spans.len()) + 1 <= lanes
        &&& forall|t: int| start <= t < end ==> #[trigger] covering(spans, t, spans.len()) + 1 <= lanes
    }
}

/// The flows at a leaf.
pub struct LeafTimeline {
    /// How many flows fit at a time.
    pub lanes: usize,
    pub spans: Vec<(u64, u64)>,
}

/// The latest start of a span between two moments, or the first of them.
spec fn latest_start(spans: Seq<(u64, u64)>, start: int, t: int, n: nat) -> int
    decreases n,
{
    if n == 0 {
        start
    } else {
        let rest = latest_start(spans, start, t, (n - 1) as nat);
        let s = spans[n - 1].0 as int;
        if rest < s <= t {
            s
        } else {
            rest
        }
    }
}

proof fn lemma_latest_start(spans: Seq<(u64, u64)>, start: int, t: int, n: nat)
    requires
        start <= t,
        n <= spans.len(),
    ensures
        ({
            let p = latest_start(spans, start, t, n);
            &&& start <= p <= t
            &&& p == start || exists|i: int| 0 <= i < n && (#[trigger] spans[i]).0 == p
            &&& forall|i: int| 0 <= i < n && (#[trigger] spans[i]).0 <= t ==> spans[i].0 <= p
        }),
    decreases n,
{
    if n > 0 {
        lemma_latest_start(spans, start, t, (n - 1) as nat);
        let p = latest_start(spans, start, t, n);
        let q = latest_start(spans, start, t, (n - 1) as nat);
        if p != q {
            assert(spans[n - 1].0 == p);
        } else if q != start {
            let i = choose|i: int| 0 <= i < n - 1 && (#[trigger] spans[i]).0 == q;
            assert(0 <= i < n && spans[i].0 == p);
        }
    }
}

proof fn lemma_covering_le(spans: Seq<(u64, u64)>, p: int, t: int, n: nat)
    requires
        n <= spans.len(),
        p <= t,
        forall|i: int| 0 <= i < n && (#[trigger] spans[i]).0 <= t ==> spans[i].0 <= p,
    ensures
        covering(spans, t, n) <= covering(spans, p, n),
    decreases n,
{
    if n > 0 {
        lemma_covering_le(spans, p, t, (n - 1) as nat);
        assert(spans[n - 1].0 <= t ==> spans[n - 1].0 <= p);
    }
}

/// After all spans nothing covers a moment.
proof fn lemma_covering_none(spans: Seq<(u64, u64)>, t: int, n: nat)
    requires
        n <= spans.len(),
        forall|i: int| 0 <= i < n ==> (#[trigger] spans[i]).1 <= t,
    ensures
        covering(spans, t, n) == 0,
    decreases n,
{
    if n > 0 {
        lemma_covering_none(spans, t, (n - 1) as nat);
        assert(spans[n - 1].1 <= t);
    }
}

impl LeafTimeline {
    /// A leaf without flows.
    pub fn new(lanes: usize) -> (r: Self)
        ensures
            r.lanes == lanes,
            r.spans@ == Seq::<(u64, u64)>::empty(),
    {
        LeafTimeline { lanes, spans: Vec::new() }
    }

    fn count_at(&self, t: u64) -> (r: usize)
        ensures
            r == covering(self.spans@, t as int, self.spans@.len()),
    {
        let mut count: usize = 0;
        let mut i: usize = 0;
        while i < self.spans.len()
            invariant
                i <= self.spans@.len(),
                count <= i,
                count == covering(self.spans@, t as int, i as nat),
            decreases self.spans@.len() - i,
        {
            if self.spans[i].0 <= t && t < self.spans[i].1 {
                count += 1;
            }
            i += 1;
        }
        count
    }

    fn count_before(&self, t: u64) -> (r: (usize, bool))
        ensures
            r.0 == covering_before(self.spans@, t as int, self.spans@.len()),
            r.1 == is_change(self.spans@, t as int),
    {
        let mut count: usize = 0;
        let mut change = false;
        let mut i: usize = 0;
        while i < self.spans.len()
            invariant
                i <= self.spans@.len(),
                count <= i,
                count == covering_before(self.spans@, t as int, i as nat),
                change ==> is_change(self.spans@, t as int),
                !change ==> forall|j: int|
                    0 <= j < i ==> !((#[trigger] self.spans@[j]).0 == t || self.spans@[j].1 == t),
            decreases self.spans@.len() - i,
        {
            if self.spans[i].0 == t || self.spans[i].1 == t {
                assert(self.spans@[i as int].0 == t || self.spans@[i as int].1 == t);
                change = true;
            }
            if self.spans[i].0 < t && t <= self.spans[i].1 {
                count += 1;
            }
            i += 1;
        }
        (count, change)
    }

    /// Whether there is a free lane.
    pub fn can_place(&self, start: u64, end: u64) -> (r: bool)
        ensures
            r == has_room(self.spans@, self.lanes as nat, start as int, end as int),
    {
        if start >= end {
            return true;
        }
        let ghost spans = self.spans@;
        let (before, change): (usize, bool) = self.count_before(start);
        if change && before >= self.lanes {
            return false;
        }
        let at: usize = self.count_at(start);
        if at >= self.lanes {
            assert(!(covering(spans, start as int, spans.len()) + 1 <= self.lanes));
            return false;
        }
        let mut i: usize = 0;
        while i < self.spans.len()
            invariant
                start < end,
                i <= self.spans@.len(),
                spans == self.spans@,
                forall|j: int|
                    0 <= j < i && start <= (#[trigger] spans[j]).0 < end ==> covering(spans, spans[j].0 as int, spans.len())
                        + 1 <= self.lanes,
            decreases self.spans@.len() - i,
        {
            let p: u64 = self.spans[i].0;
            if start <= p && p < end {
                let count: usize = self.count_at(p);
                if count >= self.lanes {
                    assert(!(covering(spans, p as int, spans.len()) + 1 <= self.lanes));
                    return false;
                }
            }
            i += 1;
        }
        proof {
            assert forall|t: int| start <= t < end implies #[trigger] covering(spans, t, spans.len()) + 1 <= self.lanes by {
                lemma_latest_start(spans, start as int, t, spans.len());
                let p = latest_start(spans, start as int, t, spans.len());
                lemma_covering_le(spans, p, t, spans.len());
                if p != start {
                    let j = choose|j: int| 0 <= j < spans.len() && (#[trigger] spans[j]).0 == p;
                    assert(start <= spans[j].0 < end);
                }
            }
        }
        true
    }

    /// Takes a lane for a span.
    pub fn place(&mut self, start: u64, end: u64)
        ensures
            final(self).lanes == old(self).lanes,
            final(self).spans@ == with_span(old(self).spans@, start, end),
    {
        if start < end {
            self.spans.push((start, end));
        }
    }
}

/// The spans with another one.
pub open spec fn with_span(spans: Seq<(u64, u64)>, start: u64, end: u64) -> Seq<(u64, u64)> {
    if start < end {
        spans.push((start, end))
    } else {
        spans
    }
}

/// What is planned for a job.
pub struct JobPlan {
    pub job_id: JobId,
    pub flows: Vec<FlowTemplate>,
    /// Iterations that have no time yet.
    pub remaining: usize,
    /// Iterations with flows that have one.
    pub placed: usize,
    /// How long the placed iterations last.
    pub service_us: u64,
    /// The earliest start of the next iteration.
    pub next_start_us: u64,
}

/// The value of a `JobPlan`.
pub struct JobPlanView {
    pub job_id: JobId,
    pub flows: Seq<FlowTemplate>,
    pub remaining: usize,
    pub placed: usize,
    pub service_us: u64,
    pub next_start_us: u64,
}

impl View for JobPlan {
    type V = JobPlanView;

    open spec fn view(&self) -> JobPlanView {
        JobPlanView {
            job_id: self.job_id,
            flows: self.flows@,
            remaining: self.remaining,
            placed: self.placed,
            service_us: self.service_us,
            next_start_us: self.next_start_us,
        }
    }
}

/// The flow goes between leaves.
pub open spec fn crosses(f: FlowTemplate) -> bool {
    f.src_leaf != f.dst_leaf
}

/// The leaves have room for each of the flows of an iteration that starts at `time`.
pub open spec fn iteration_fits(leaves: Seq<Seq<(u64, u64)>>, lanes: nat, flows: Seq<FlowTemplate>, time: int) -> bool {
    forall|k: int|
        0 <= k < flows.len() && crosses(#[trigger] flows[k]) ==> {
            let s = time + flows[k].offset_us;
            let e = s + flows[k].duration_us;
            has_room(leaves[flows[k].src_leaf as int], lanes, s, e) && has_room(
                leaves[flows[k].dst_leaf as int],
                lanes,
                s,
                e,
            )
        }
}

/// The first time at which an iteration fits.
pub open spec fn is_earliest_fit(
    leaves: Seq<Seq<(u64, u64)>>,
    lanes: nat,
    flows: Seq<FlowTemplate>,
    from: int,
    time: int,
) -> bool {
    &&& from <= time
    &&& iteration_fits(leaves, lanes, flows, time)
    &&& forall|t: int| from <= t < time ==> !#[trigger] iteration_fits(leaves, lanes, flows, t)
}

/// The first `n` flows of an iteration, with their times.
pub open spec fn placed_flows(flows: Seq<FlowTemplate>, job_id: JobId, iter_idx: usize, time: u64, n: nat) -> Seq<
    PlacedFlow,
> {
    Seq::new(
        n,
        |k: int|
            PlacedFlow {
                job_id,
                job_flow_idx: flows[k].job_flow_idx,
                iter_idx,
                start_us: (time + flows[k].offset_us) as u64,
                end_us: (time + flows[k].offset_us + flows[k].duration_us) as u64,
                src_host: flows[k].src_host,
                dst_host: flows[k].dst_host,
                src_leaf: flows[k].src_leaf,
                dst_leaf: flows[k].dst_leaf,
            },
    )
}

/// The leaves with the first `n` flows of an iteration.
pub open spec fn occupied(leaves: Seq<Seq<(u64, u64)>>, flows: Seq<FlowTemplate>, time: u64, n: nat) -> Seq<Seq<(u64, u64)>>
    decreases n,
{
    if n == 0 {
        leaves
    } else {
        let before = occupied(leaves, flows, time, (n - 1) as nat);
        let f = flows[n - 1];
        if crosses(f) {
            let s = (time + f.offset_us) as u64;
            let e = (time + f.offset_us + f.duration_us) as u64;
            let a = before.update(f.src_leaf as int, with_span(before[f.src_leaf as int], s, e));
            a.update(f.dst_leaf as int, with_span(a[f.dst_leaf as int], s, e))
        } else {
            before
        }
    }
}

/// When the last of the first `n` flows ends, if the iteration starts at `time`.
pub open spec fn iteration_end(flows: Seq<FlowTemplate>, time: int, n: nat) -> int
    decreases n,
{
    if n == 0 {
        time
    } else {
        let rest = iteration_end(flows, time, (n - 1) as nat);
        let e = time + flows[n - 1].offset_us + flows[n - 1].duration_us;
        if e > rest {
            e
        } else {
            rest
        }
    }
}

/// A plan in the making.
pub struct PlanView {
    pub jobs: Seq<JobPlanView>,
    pub leaves: Seq<Seq<(u64, u64)>>,
    pub placed: Seq<PlacedFlow>,
}

/// The job to take next: the first of those with iterations left that have been served the least.
pub open spec fn is_neediest(jobs: Seq<JobPlanView>, j: int) -> bool {
    &&& 0 <= j < jobs.len()
    &&& jobs[j].remaining > 0
    &&& forall|i: int|
        0 <= i < jobs.len() && (#[trigger] jobs[i]).remaining > 0 ==> jobs[j].service_us <= jobs[i].service_us && (i < j
            ==> jobs[j].service_us < jobs[i].service_us)
}

/// The next iteration of job `j` has been placed at `time`. One without flows takes no time.
pub open spec fn iteration_placed(before: PlanView, after: PlanView, lanes: nat, j: int, time: u64) -> bool {
    let job = before.jobs[j];
    let n = job.flows.len();
    &&& is_neediest(before.jobs, j)
    &&& if n == 0 {
        after == (PlanView {
            jobs: before.jobs.update(j, JobPlanView { remaining: (job.remaining - 1) as usize, ..job }),
            ..before
        })
    } else {
        let end = iteration_end(job.flows, time as int, n);
        &&& is_earliest_fit(before.leaves, lanes, job.flows, job.next_start_us as int, time as int)
        &&& end <= u64::MAX
        &&& after.placed == before.placed + placed_flows(job.flows, job.job_id, job.placed, time, n)
        &&& after.leaves == occupied(before.leaves, job.flows, time, n)
        &&& after.jobs == before.jobs.update(
            j,
            JobPlanView {
                remaining: (job.remaining - 1) as usize,
                placed: (job.placed + 1) as usize,
                service_us: (job.service_us + (end - time)) as u64,
                next_start_us: end as u64,
                ..job
            },
        )
    }
}

/// One plan follows from another by one iteration.
pub open spec fn plan_step(before: PlanView, after: PlanView, lanes: nat) -> bool {
    exists|j: int, time: u64| #[trigger] iteration_placed(before, after, lanes, j, time)
}

/// A plan that is made step by step.
pub open spec fn is_trace(trace: Seq<PlanView>, lanes: nat) -> bool {
    &&& trace.len() > 0
    &&& forall|k: int| 0 <= k < trace.len() - 1 ==> plan_step(#[trigger] trace[k], trace[k + 1], lanes)
}

/// No job has iterations left.
pub open spec fn all_placed(jobs: Seq<JobPlanView>) -> bool {
    forall|j: int| 0 <= j < jobs.len() ==> (#[trigger] jobs[j]).remaining == 0
}

/// A flow between leaves one of which does not exist.
pub open spec fn leads_astray(f: FlowTemplate, num_leaves: nat) -> bool {
    crosses(f) && (f.src_leaf >= num_leaves || f.dst_leaf >= num_leaves)
}

/// The flows between leaves, of the jobs that have iterations left, are between leaves that exist. A flow
/// inside a leaf takes no lane, so that its leaf is not looked up.
pub open spec fn leaves_exist(jobs: Seq<JobPlanView>, num_leaves: nat) -> bool {
    forall|j: int, k: int|
        0 <= j < jobs.len() && jobs[j].remaining > 0 && 0 <= k < jobs[j].flows.len() ==> !leads_astray(
            #[trigger] jobs[j].flows[k],
            num_leaves,
        )
}

/// A flow between leaves that takes time.
pub open spec fn needs_lane(flows: Seq<FlowTemplate>) -> bool {
    exists|k: int| 0 <= k < flows.len() && crosses(#[trigger] flows[k]) && flows[k].duration_us > 0
}

/// The next iteration cannot be placed, for want of spines or because it would end too late.
pub open spec fn is_stuck(v: PlanView, lanes: nat, fault: PlanFault) -> bool {
    exists|j: int|
        {
            let job = v.jobs[j];
            &&& #[trigger] is_neediest(v.jobs, j)
            &&& job.flows.len() > 0
            &&& if lanes == 0 && needs_lane(job.flows) {
                fault == PlanFault::TooFewSpines
            } else {
                &&& fault == PlanFault::TimeOverflow
                &&& forall|t: int|
                    job.next_start_us <= t && iteration_end(job.flows, t, job.flows.len()) <= u64::MAX
                        ==> !#[trigger] iteration_fits(v.leaves, lanes, job.flows, t)
            }
        }
}

/// What `plan_flows` answers: the plan, or why an iteration cannot be placed.
pub open spec fn plan_made(
    jobs: Seq<JobPlanView>,
    num_leaves: nat,
    lanes: nat,
    r: Result<Seq<PlacedFlow>, PlanFault>,
) -> bool {
    exists|trace: Seq<PlanView>|
        {
            &&& #[trigger] is_trace(trace, lanes)
            &&& trace[0] == (PlanView {
                jobs,
                leaves: Seq::new(num_leaves, |l: int| Seq::empty()),
                placed: Seq::empty(),
            })
            &&& match r {
                Ok(placed) => all_placed(trace.last().jobs) && placed == trace.last().placed,
                Err(fault) => is_stuck(trace.last(), lanes, fault),
            }
        }
}

pub proof fn lemma_iteration_end(flows: Seq<FlowTemplate>, time: int, n: nat)
    requires
        n <= flows.len(),
    ensures
        time <= iteration_end(flows, time, n),
        forall|k: int|
            0 <= k < n ==> time + (#[trigger] flows[k]).offset_us + flows[k].duration_us <= iteration_end(flows, time, n),
    decreases n,
{
    if n > 0 {
        lemma_iteration_end(flows, time, (n - 1) as nat);
    }
}

proof fn lemma_iteration_end_grows(flows: Seq<FlowTemplate>, a: int, b: int, n: nat)
    requires
        n <= flows.len(),
        a <= b,
    ensures
        iteration_end(flows, a, n) <= iteration_end(flows, b, n),
    decreases n,
{
    if n > 0 {
        lemma_iteration_end_grows(flows, a, b, (n - 1) as nat);
    }
}

/// When an iteration that starts at `time` ends, if that fits.
fn find_end(flows: &Vec<FlowTemplate>, time: u64) -> (r: Option<u64>)
    ensures
        r is Some == (iteration_end(flows@, time as int, flows@.len()) <= u64::MAX),
        r matches Some(e) ==> e == iteration_end(flows@, time as int, flows@.len()),
{
    let mut end: u64 = time;
    let mut i: usize = 0;
    while i < flows.len()
        invariant
            i <= flows@.len(),
            end == iteration_end(flows@, time as int, i as nat),
        decreases flows@.len() - i,
    {
        proof {
            lemma_iteration_end(flows@, time as int, flows@.len());
            assert(time + flows@[i as int].offset_us + flows@[i as int].duration_us <= iteration_end(
                flows@,
                time as int,
                flows@.len(),
            ));
        }
        let s = match time.checked_add(flows[i].offset_us) {
            Some(s) => s,
            None => {
                return None;
            },
        };
        let e = match s.checked_add(flows[i].duration_us) {
            Some(e) => e,
            None => {
                return None;
            },
        };
        if e > end {
            end = e;
        }
        i += 1;
    }
    Some(end)
}

/// The spans of the leaves.
pub open spec fn leaf_spans(leaves: Seq<LeafTimeline>) -> Seq<Seq<(u64, u64)>> {
    leaves.map_values(|l: LeafTimeline| l.spans@)
}

/// All leaves have the same number of lanes.
pub open spec fn all_lanes(leaves: Seq<LeafTimeline>, lanes: usize) -> bool {
    forall|l: int| 0 <= l < leaves.len() ==> (#[trigger] leaves[l]).lanes == lanes
}

/// The leaves of the flows exist.
pub open spec fn flows_within(flows: Seq<FlowTemplate>, num_leaves: nat) -> bool {
    forall|k: int|
        0 <= k < flows.len() && crosses(#[trigger] flows[k]) ==> flows[k].src_leaf < num_leaves && flows[k].dst_leaf
            < num_leaves
}

fn check_fit(leaves: &Vec<LeafTimeline>, lanes: usize, flows: &Vec<FlowTemplate>, time: u64) -> (r: bool)
    requires
        all_lanes(leaves@, lanes),
        flows_within(flows@, leaves@.len()),
        iteration_end(flows@, time as int, flows@.len()) <= u64::MAX,
    ensures
        r == iteration_fits(leaf_spans(leaves@), lanes as nat, flows@, time as int),
{
    let ghost spans = leaf_spans(leaves@);
    proof {
        lemma_iteration_end(flows@, time as int, flows@.len());
    }
    let mut i: usize = 0;
    while i < flows.len()
        invariant
            i <= flows@.len(),
            spans == leaf_spans(leaves@),
            all_lanes(leaves@, lanes),
            flows_within(flows@, leaves@.len()),
            forall|k: int|
                0 <= k < flows@.len() ==> time + (#[trigger] flows@[k]).offset_us + flows@[k].duration_us <= u64::MAX,
            forall|k: int|
                0 <= k < i && crosses(#[trigger] flows@[k]) ==> {
                    let s = time + flows@[k].offset_us;
                    let e = s + flows@[k].duration_us;
                    has_room(spans[flows@[k].src_leaf as int], lanes as nat, s, e) && has_room(
                        spans[flows@[k].dst_leaf as int],
                        lanes as nat,
                        s,
                        e,
                    )
                },
        decreases flows@.len() - i,
    {
        let f = flows[i];
        if f.src_leaf != f.dst_leaf {
            assert(crosses(flows@[i as int]));
            assert(time + flows@[i as int].offset_us + flows@[i as int].duration_us <= u64::MAX);
            let s: u64 = time + f.offset_us;
            let e: u64 = s + f.duration_us;
            assert(leaves@[f.src_leaf as int].lanes == lanes && leaves@[f.dst_leaf as int].lanes == lanes);
            assert(spans[f.src_leaf as int] == leaves@[f.src_leaf as int].spans@);
            assert(spans[f.dst_leaf as int] == leaves@[f.dst_leaf as int].spans@);
            if !(leaves[f.src_leaf].can_place(s, e) && leaves[f.dst_leaf].can_place(s, e)) {
                assert(!iteration_fits(spans, lanes as nat, flows@, time as int));
                return false;
            }
        }
        i += 1;
    }
    true
}

/// Whether a flow takes a lane.
fn takes_lane(flows: &Vec<FlowTemplate>) -> (r: bool)
    ensures
        r == needs_lane(flows@),
{
    let mut i: usize = 0;
    while i < flows.len()
        invariant
            i <= flows@.len(),
            forall|k: int| 0 <= k < i ==> !(crosses(#[trigger] flows@[k]) && flows@[k].duration_us > 0),
        decreases flows@.len() - i,
    {
        if flows[i].src_leaf != flows[i].dst_leaf && flows[i].duration_us > 0 {
            assert(crosses(flows@[i as int]) && flows@[i as int].duration_us > 0);
            return true;
        }
        i += 1;
    }
    false
}

/// The first start at which an iteration fits, and its end.
fn find_start(leaves: &Vec<LeafTimeline>, lanes: usize, flows: &Vec<FlowTemplate>, from: u64) -> (r: Result<
    (u64, u64),
    PlanFault,
>)
    requires
        all_lanes(leaves@, lanes),
        flows_within(flows@, leaves@.len()),
    ensures
        r matches Ok((time, end)) ==> {
            &&& is_earliest_fit(leaf_spans(leaves@), lanes as nat, flows@, from as int, time as int)
            &&& end == iteration_end(flows@, time as int, flows@.len())
        },
        r matches Err(fault) ==> if lanes == 0 && needs_lane(flows@) {
            fault == PlanFault::TooFewSpines
        } else {
            &&& fault == PlanFault::TimeOverflow
            &&& forall|t: int|
                from <= t && iteration_end(flows@, t, flows@.len()) <= u64::MAX ==> !#[trigger] iteration_fits(
                    leaf_spans(leaves@),
                    lanes as nat,
                    flows@,
                    t,
                )
        },
{
    let ghost spans = leaf_spans(leaves@);
    if lanes == 0 && takes_lane(flows) {
        return Err(PlanFault::TooFewSpines);
    }
    let mut time: u64 = from;
    loop
        invariant
            from <= time,
            !(lanes == 0 && needs_lane(flows@)),
            spans == leaf_spans(leaves@),
            all_lanes(leaves@, lanes),
            flows_within(flows@, leaves@.len()),
            forall|t: int| from <= t < time ==> !#[trigger] iteration_fits(spans, lanes as nat, flows@, t),
        decreases u64::MAX - time,
    {
        match find_end(flows, time) {
            None => {
                proof {
                    assert forall|t: int|
                        from <= t && iteration_end(flows@, t, flows@.len()) <= u64::MAX implies !#[trigger] iteration_fits(
                        spans,
                        lanes as nat,
                        flows@,
                        t,
                    ) by {
                        if t >= time {
                            lemma_iteration_end_grows(flows@, time as int, t, flows@.len());
                        }
                    }
                }
                return Err(PlanFault::TimeOverflow);
            },
            Some(end) => {
                if check_fit(leaves, lanes, flows, time) {
                    return Ok((time, end));
                }
                if time == u64::MAX {
                    proof {
                        assert forall|t: int|
                            from <= t && iteration_end(flows@, t, flows@.len()) <= u64::MAX implies !#[trigger] iteration_fits(
                            spans,
                            lanes as nat,
                            flows@,
                            t,
                        ) by {
                            lemma_iteration_end(flows@, t, flows@.len());
                        }
                    }
                    return Err(PlanFault::TimeOverflow);
                }
                time += 1;
            },
        }
    }
}

/// Places the flows of an iteration.
fn place_flows(
    leaves: &mut Vec<LeafTimeline>,
    placed: &mut Vec<PlacedFlow>,
    flows: &Vec<FlowTemplate>,
    job_id: JobId,
    iter_idx: usize,
    time: u64,
    Ghost(lanes): Ghost<usize>,
)
    requires
        all_lanes(old(leaves)@, lanes),
        flows_within(flows@, old(leaves)@.len()),
        iteration_end(flows@, time as int, flows@.len()) <= u64::MAX,
    ensures
        all_lanes(final(leaves)@, lanes),
        final(leaves)@.len() == old(leaves)@.len(),
        leaf_spans(final(leaves)@) == occupied(leaf_spans(old(leaves)@), flows@, time, flows@.len()),
        final(placed)@ == old(placed)@ + placed_flows(flows@, job_id, iter_idx, time, flows@.len()),
{
    let ghost before = leaf_spans(leaves@);
    let ghost list = placed@;
    let ghost num = leaves@.len();
    proof {
        lemma_iteration_end(flows@, time as int, flows@.len());
    }
    let mut i: usize = 0;
    while i < flows.len()
        invariant
            i <= flows@.len(),
            num == leaves@.len(),
            all_lanes(leaves@, lanes),
            flows_within(flows@, num),
            leaf_spans(leaves@) == occupied(before, flows@, time, i as nat),
            placed@ == list + placed_flows(flows@, job_id, iter_idx, time, i as nat),
            forall|k: int|
                0 <= k < flows@.len() ==> time + (#[trigger] flows@[k]).offset_us + flows@[k].duration_us <= u64::MAX,
        decreases flows@.len() - i,
    {
        let f = flows[i];
        assert(time + flows@[i as int].offset_us + flows@[i as int].duration_us <= u64::MAX);
        let s: u64 = time + f.offset_us;
        let e: u64 = s + f.duration_us;
        let ghost was = leaves@;
        if f.src_leaf != f.dst_leaf {
            assert(crosses(flows@[i as int]));
            let leaf = &mut leaves[f.src_leaf];
            leaf.place(s, e);
            let leaf = &mut leaves[f.dst_leaf];
            leaf.place(s, e);
            proof {
                let a = leaf_spans(was).update(f.src_leaf as int, with_span(leaf_spans(was)[f.src_leaf as int], s, e));
                assert(leaf_spans(leaves@) =~= a.update(f.dst_leaf as int, with_span(a[f.dst_leaf as int], s, e)));
            }
        }
        placed.push(
            PlacedFlow {
                job_id,
                job_flow_idx: f.job_flow_idx,
                iter_idx,
                start_us: s,
                end_us: e,
                src_host: f.src_host,
                dst_host: f.dst_host,
                src_leaf: f.src_leaf,
                dst_leaf: f.dst_leaf,
            },
        );
        assert(placed@ =~= list + placed_flows(flows@, job_id, iter_idx, time, (i + 1) as nat));
        i += 1;
    }
}

/// The values of the job plans.
pub open spec fn plan_views(jobs: Seq<JobPlan>) -> Seq<JobPlanView> {
    jobs.map_values(|j: JobPlan| j@)
}

/// Iterations left in all.
spec fn total_left(jobs: Seq<JobPlanView>, n: nat) -> nat
    decreases n,
{
    if n == 0 {
        0
    } else {
        total_left(jobs, (n - 1) as nat) + jobs[n - 1].remaining as nat
    }
}

proof fn lemma_total_left(jobs: Seq<JobPlanView>, j: int, job: JobPlanView, n: nat)
    requires
        0 <= j < jobs.len(),
        n <= jobs.len(),
        job.remaining + 1 == jobs[j].remaining,
    ensures
        total_left(jobs.update(j, job), n) + (if j < n {
            1nat
        } else {
            0nat
        }) == total_left(jobs, n),
    decreases n,
{
    if n > 0 {
        lemma_total_left(jobs, j, job, (n - 1) as nat);
    }
}

/// The job to take next.
fn find_neediest(jobs: &Vec<JobPlan>) -> (r: Option<usize>)
    ensures
        r matches Some(j) ==> is_neediest(plan_views(jobs@), j as int),
        r is None ==> all_placed(plan_views(jobs@)),
{
    let ghost views = plan_views(jobs@);
    let mut best: Option<usize> = None;
    let mut i: usize = 0;
    while i < jobs.len()
        invariant
            i <= jobs@.len(),
            views == plan_views(jobs@),
            best is None ==> forall|k: int| 0 <= k < i ==> (#[trigger] views[k]).remaining == 0,
            best matches Some(b) ==> {
                &&& b < i
                &&& views[b as int].remaining > 0
                &&& forall|k: int|
                    0 <= k < i && (#[trigger] views[k]).remaining > 0 ==> views[b as int].service_us <= views[k].service_us && (k
                        < b ==> views[b as int].service_us < views[k].service_us)
            },
        decreases jobs@.len() - i,
    {
        assert(views[i as int] == jobs@[i as int]@);
        if jobs[i].remaining > 0 {
            match best {
                None => {
                    best = Some(i);
                },
                Some(b) => {
                    assert(views[b as int] == jobs@[b as int]@);
                    if jobs[i].service_us < jobs[b].service_us {
                        best = Some(i);
                    }
                },
            }
        }
        i += 1;
    }
    best
}

/// Plans that have been started soundly.
spec fn in_progress(jobs: Seq<JobPlanView>) -> bool {
    forall|j: int|
        0 <= j < jobs.len() ==> (#[trigger] jobs[j]).service_us <= jobs[j].next_start_us && jobs[j].placed
            + jobs[j].remaining <= usize::MAX
}

proof fn lemma_leaves_exist(jobs: Seq<JobPlanView>, num_leaves: nat, j: int, job: JobPlanView)
    requires
        leaves_exist(jobs, num_leaves),
        0 <= j < jobs.len(),
        job.flows == jobs[j].flows,
        job.remaining <= jobs[j].remaining,
    ensures
        leaves_exist(jobs.update(j, job), num_leaves),
{
    let after = jobs.update(j, job);
    assert forall|i: int, k: int|
        0 <= i < after.len() && after[i].remaining > 0 && 0 <= k < after[i].flows.len() implies !leads_astray(
        #[trigger] after[i].flows[k],
        num_leaves,
    ) by {
        assert(after[i].flows[k] == jobs[i].flows[k]);
    }
}

/// Gives all iterations of the jobs their times.
pub fn plan_flows(jobs: Vec<JobPlan>, num_leaves: usize, lanes: usize) -> (r: Result<Vec<PlacedFlow>, PlanFault>)
    requires
        leaves_exist(plan_views(jobs@), num_leaves as nat),
        forall|j: int|
            0 <= j < jobs@.len() ==> (#[trigger] jobs@[j]).placed == 0 && jobs@[j].service_us == 0 && jobs@[j].next_start_us
                == 0,
    ensures
        plan_made(
            plan_views(jobs@),
            num_leaves as nat,
            lanes as nat,
            match r {
                Ok(placed) => Ok(placed@),
                Err(fault) => Err(fault),
            },
        ),
{
    let ghost first = plan_views(jobs@);
    let mut work = jobs;
    let mut leaves: Vec<LeafTimeline> = Vec::new();
    let mut i: usize = 0;
    while i < num_leaves
        invariant
            i <= num_leaves,
            leaves@.len() == i,
            all_lanes(leaves@, lanes),
            forall|l: int| 0 <= l < i ==> (#[trigger] leaves@[l]).spans@ == Seq::<(u64, u64)>::empty(),
        decreases num_leaves - i,
    {
        leaves.push(LeafTimeline::new(lanes));
        i += 1;
    }
    let mut placed: Vec<PlacedFlow> = Vec::new();
    let ghost mut trace: Seq<PlanView> = seq![
        PlanView { jobs: first, leaves: Seq::new(num_leaves as nat, |l: int| Seq::empty()), placed: Seq::empty() },
    ];
    assert(leaf_spans(leaves@) =~= Seq::new(num_leaves as nat, |l: int| Seq::empty()));
    assert(in_progress(first)) by {
        assert forall|j: int| 0 <= j < first.len() implies (#[trigger] first[j]).service_us <= first[j].next_start_us
            && first[j].placed + first[j].remaining <= usize::MAX by {
            assert(work@[j].placed == 0);
        }
    }
    loop
        invariant
            first == plan_views(jobs@),
            is_trace(trace, lanes as nat),
            trace[0] == (PlanView {
                jobs: first,
                leaves: Seq::new(num_leaves as nat, |l: int| Seq::empty()),
                placed: Seq::empty(),
            }),
            trace.last() == (PlanView { jobs: plan_views(work@), leaves: leaf_spans(leaves@), placed: placed@ }),
            all_lanes(leaves@, lanes),
            leaves@.len() == num_leaves,
            leaves_exist(plan_views(work@), num_leaves as nat),
            in_progress(plan_views(work@)),
        decreases total_left(plan_views(work@), work@.len()),
    {
        let ghost views = plan_views(work@);
        let ghost here = trace.last();
        let j: usize = match find_neediest(&work) {
            Some(j) => j,
            None => {
                return Ok(placed);
            },
        };
        let ghost job = views[j as int];
        assert(job == work@[j as int]@);
        if work[j].flows.len() == 0 {
            let left: usize = work[j].remaining - 1;
            let entry = &mut work[j];
            entry.remaining = left;
            proof {
                let after = JobPlanView { remaining: left, ..job };
                assert(plan_views(work@) =~= views.update(j as int, after));
                let next = PlanView { jobs: plan_views(work@), leaves: leaf_spans(leaves@), placed: placed@ };
                assert(iteration_placed(here, next, lanes as nat, j as int, 0));
                assert(plan_step(here, next, lanes as nat));
                lemma_total_left(views, j as int, after, views.len());
                lemma_leaves_exist(views, num_leaves as nat, j as int, after);
                trace = trace.push(next);
            }
        } else {
            proof {
                assert forall|k: int| 0 <= k < job.flows.len() && crosses(#[trigger] job.flows[k]) implies job.flows[k].src_leaf
                    < num_leaves && job.flows[k].dst_leaf < num_leaves by {
                    assert(!leads_astray(views[j as int].flows[k], num_leaves as nat));
                }
            }
            let (time, end): (u64, u64) = match find_start(&leaves, lanes, &work[j].flows, work[j].next_start_us) {
                Ok(p) => p,
                Err(fault) => {
                    assert(is_stuck(here, lanes as nat, fault));
                    return Err(fault);
                },
            };
            place_flows(
                &mut leaves,
                &mut placed,
                &work[j].flows,
                work[j].job_id,
                work[j].placed,
                time,
                Ghost(lanes),
            );
            proof {
                lemma_iteration_end(job.flows, time as int, job.flows.len());
                assert(views[j as int].service_us <= views[j as int].next_start_us);
            }
            let left: usize = work[j].remaining - 1;
            let count: usize = work[j].placed + 1;
            let service: u64 = work[j].service_us + (end - time);
            let entry = &mut work[j];
            entry.remaining = left;
            entry.placed = count;
            entry.service_us = service;
            entry.next_start_us = end;
            proof {
                let after = JobPlanView {
                    remaining: left,
                    placed: count,
                    service_us: service,
                    next_start_us: end,
                    ..job
                };
                assert(plan_views(work@) =~= views.update(j as int, after));
                let next = PlanView { jobs: plan_views(work@), leaves: leaf_spans(leaves@), placed: placed@ };
                assert(iteration_placed(here, next, lanes as nat, j as int, time));
                assert(plan_step(here, next, lanes as nat));
                lemma_total_left(views, j as int, after, views.len());
                lemma_leaves_exist(views, num_leaves as nat, j as int, after);
                trace = trace.push(next);
            }
        }
    }
}

/// A planned flow is a flow of its job, at some time.
pub open spec fn is_flow_of(jobs: Seq<JobPlanView>, j: int, k: int, p: PlacedFlow) -> bool {
    &&& 0 <= j < jobs.len()
    &&& 0 <= k < jobs[j].flows.len()
    &&& jobs[j].remaining > 0
    &&& p.iter_idx < jobs[j].remaining
    &&& p.job_id == jobs[j].job_id
    &&& p.job_flow_idx == jobs[j].flows[k].job_flow_idx
    &&& p.src_host == jobs[j].flows[k].src_host
    &&& p.dst_host == jobs[j].flows[k].dst_host
    &&& p.src_leaf == jobs[j].flows[k].src_leaf
    &&& p.dst_leaf == jobs[j].flows[k].dst_leaf
    &&& p.end_us - p.start_us == jobs[j].flows[k].duration_us
}

/// A planned flow is a flow of an iteration of one of the jobs.
pub open spec fn has_source(jobs: Seq<JobPlanView>, p: PlacedFlow) -> bool {
    exists|j: int, k: int| #[trigger] is_flow_of(jobs, j, k, p)
}

/// A step of a plan keeps the jobs and adds flows of theirs.
spec fn grown_from(first: Seq<JobPlanView>, v: PlanView) -> bool {
    &&& v.jobs.len() == first.len()
    &&& forall|j: int|
        0 <= j < first.len() ==> {
            &&& (#[trigger] v.jobs[j]).flows == first[j].flows
            &&& v.jobs[j].job_id == first[j].job_id
            &&& v.jobs[j].placed + v.jobs[j].remaining <= first[j].remaining
        }
    &&& forall|i: int| 0 <= i < v.placed.len() ==> has_source(first, #[trigger] v.placed[i])
}

proof fn lemma_grown(first: Seq<JobPlanView>, before: PlanView, after: PlanView, lanes: nat)
    requires
        grown_from(first, before),
        plan_step(before, after, lanes),
    ensures
        grown_from(first, after),
{
    let (j, time) = choose|j: int, time: u64| #[trigger] iteration_placed(before, after, lanes, j, time);
    let job = before.jobs[j];
    let n = job.flows.len();
    assert(before.jobs[j].flows == first[j].flows);
    if n > 0 {
        lemma_iteration_end(job.flows, time as int, n);
        assert forall|i: int| 0 <= i < after.placed.len() implies has_source(first, #[trigger] after.placed[i]) by {
            if i < before.placed.len() {
                assert(after.placed[i] == before.placed[i]);
            } else {
                let k = i - before.placed.len();
                assert(after.placed[i] == placed_flows(job.flows, job.job_id, job.placed, time, n)[k]);
                assert(time + job.flows[k].offset_us + job.flows[k].duration_us <= u64::MAX);
                assert(is_flow_of(first, j, k, after.placed[i]));
            }
        }
    }
}

proof fn lemma_trace_grown(trace: Seq<PlanView>, lanes: nat, m: int)
    requires
        is_trace(trace, lanes),
        0 <= m < trace.len(),
        grown_from(trace[0].jobs, trace[0]),
    ensures
        grown_from(trace[0].jobs, trace[m]),
    decreases m,
{
    if m > 0 {
        lemma_trace_grown(trace, lanes, m - 1);
        assert(plan_step(trace[m - 1], trace[m - 1 + 1], lanes));
        lemma_grown(trace[0].jobs, trace[m - 1], trace[m], lanes);
    }
}

/// Each flow of a plan is a flow of an iteration that its job has, and takes the time that it takes.
pub proof fn lemma_planned_flows(jobs: Seq<JobPlanView>, num_leaves: nat, lanes: nat, placed: Seq<PlacedFlow>, i: int)
    requires
        plan_made(jobs, num_leaves, lanes, Ok(placed)),
        forall|j: int| 0 <= j < jobs.len() ==> (#[trigger] jobs[j]).placed == 0,
        0 <= i < placed.len(),
    ensures
        has_source(jobs, placed[i]),
{
    let trace = choose|trace: Seq<PlanView>|
        {
            &&& #[trigger] is_trace(trace, lanes)
            &&& trace[0] == (PlanView {
                jobs,
                leaves: Seq::new(num_leaves, |l: int| Seq::empty()),
                placed: Seq::empty(),
            })
            &&& all_placed(trace.last().jobs) && placed == trace.last().placed
        };
    lemma_trace_grown(trace, lanes, trace.len() - 1);
}

} // verus!
