//! Foresight plans when the flows of the running jobs are released and how they are routed, so that
//! flows that run at the same time do not share links.

use std::collections::HashMap;
use vstd::prelude::*;

use crate::simulator::context::{wrapping_sum, MLContext};
use crate::simulator::ml_job::{ascending, lemma_ascending, MLJob};
use crate::simulator::ml_worker::{JobId, WorkerId};
use crate::spine::critical_path::{are_earliest, is_run_order};
use crate::spine::flow_plan::{
    crosses, is_flow_of, leads_astray, leaves_exist, lemma_planned_flows, plan_flows, plan_made, plan_views, JobPlan, JobPlanView,
};
use crate::spine::job_model::{
    all_steps, are_iteration_flows, derive_iteration_flows, durations, events_ok, flow_of, peers_known, step_edges, step_flows,
    worker_models, FlowTemplate, JobModel, PlanFault, StepView, WorkerModelView,
};
use crate::spine::route_plan::{assign_spines, is_spine_plan, routable, spine_choice, PlacedFlow};
use crate::spine::routing::{leaf_number, route_over, spine_route, templates, SpineSystemRouter};
use crate::spine::topology::{SpineSize, SpineTree};
use crate::utils::data::{lemma_push_to_set, sort_values, sorted_list, DHashMap};

verus! {

/// When a flow of a job is released.
#[derive(Debug, Clone, Copy, PartialEq, Eq, Structural)]
pub struct FlowReleaseSpec {
    pub job_id: JobId,
    pub job_flow_idx: usize,
    pub offset_us: u64,
}

/// When flows are released, over and over.
pub struct FlowReleaseSchedule {
    pub version: u64,
    pub period_us: u64,
    pub entries: Vec<FlowReleaseSpec>,
}

/// The length of a slot when flows are released one by one.
pub const SLOT_US: u64 = 1;

/// Plans releases and routes for the running jobs.
pub struct Foresight {
    /// Submission time and flow indices of each running job.
    pub active_jobs: DHashMap<JobId, (u64, Vec<usize>)>,
    /// Version of the next schedule.
    pub next_version: u64,
    pub job_models: DHashMap<JobId, JobModel>,
}

/// The values of a table, in ascending order.
pub open spec fn are_values(m: Map<(usize, usize), usize>, list: Seq<usize>) -> bool {
    &&& sorted_list(list)
    &&& exists|keys: Seq<(usize, usize)>|
        {
            &&& #[trigger] keys.no_duplicates()
            &&& keys.to_set() == m.dom()
            &&& list.to_multiset() == keys.map_values(|k: (usize, usize)| m[k]).to_multiset()
        }
}

/// What is kept of a job.
pub open spec fn is_model_of(m: JobModel, job: MLJob) -> bool {
    &&& m.job_id == job.id
    &&& m.total_iterations == job.total_iterations
    &&& m.views() == worker_models(job.workers@)
    &&& m.send_map@ == job.send_template_to_flow_idx@
}

impl Foresight {
    /// A planner without jobs.
    pub fn new() -> (r: Self)
        ensures
            r.active_jobs@ == Map::<JobId, (u64, Vec<usize>)>::empty(),
            r.job_models@ == Map::<JobId, JobModel>::empty(),
            r.next_version == 1,
            r.wf(),
    {
        Foresight { active_jobs: DHashMap::new(), next_version: 1, job_models: DHashMap::new() }
    }

    /// Takes down a job that has been placed.
    pub fn record_job(&mut self, job: &MLJob)
        ensures
            final(self).next_version == old(self).next_version,
            final(self).active_jobs@.contains_key(job.id),
            final(self).active_jobs@ == old(self).active_jobs@.insert(job.id, final(self).active_jobs@[job.id]),
            final(self).active_jobs@[job.id].0 == job.submit_time_us,
            are_values(job.send_template_to_flow_idx@, final(self).active_jobs@[job.id].1@),
            final(self).job_models@.contains_key(job.id),
            final(self).job_models@ == old(self).job_models@.insert(job.id, final(self).job_models@[job.id]),
            is_model_of(final(self).job_models@[job.id], *job),
            old(self).wf() ==> final(self).wf(),
    {
        let keys = job.send_template_to_flow_idx.keys();
        let ghost m = job.send_template_to_flow_idx@;
        let mut list: Vec<usize> = Vec::new();
        let mut i: usize = 0;
        while i < keys.len()
            invariant
                i <= keys@.len(),
                m == job.send_template_to_flow_idx@,
                keys@.to_set() == m.dom(),
                list@ == keys@.take(i as int).map_values(|k: (usize, usize)| m[k]),
            decreases keys@.len() - i,
        {
            proof {
                assert(keys@.to_set().contains(keys@[i as int]));
            }
            list.push(*job.send_template_to_flow_idx.get(&keys[i]).unwrap());
            proof {
                assert(list@ =~= keys@.take(i + 1).map_values(|k: (usize, usize)| m[k]));
            }
            i += 1;
        }
        proof {
            assert(keys@.take(keys@.len() as int) =~= keys@);
        }
        let flows = sort_values(list);
        assert(are_values(m, flows@)) by {
            assert(keys@.no_duplicates());
        }
        self.active_jobs.insert(job.id, (job.submit_time_us, flows));
        self.job_models.insert(job.id, JobModel::from_job(job));
    }

    /// Forgets a job that has completed.
    pub fn remove_job(&mut self, job_id: JobId)
        ensures
            final(self).next_version == old(self).next_version,
            final(self).active_jobs@ == old(self).active_jobs@.remove(job_id),
            final(self).job_models@ == old(self).job_models@.remove(job_id),
            old(self).wf() ==> final(self).wf(),
    {
        self.active_jobs.remove(&job_id);
        self.job_models.remove(&job_id);
    }
}

/// The flow indices of the running jobs.
pub open spec fn job_lists(m: Map<JobId, (u64, Vec<usize>)>) -> Map<JobId, (u64, Seq<usize>)> {
    m.map_values(|e: (u64, Vec<usize>)| (e.0, e.1@))
}

/// One job has been submitted before the other, or with it and has the smaller number.
pub open spec fn goes_first(jobs: Map<JobId, (u64, Seq<usize>)>, a: JobId, b: JobId) -> bool {
    jobs[a].0 < jobs[b].0 || (jobs[a].0 == jobs[b].0 && a < b)
}

/// The jobs in the order of their submission.
pub open spec fn is_job_order(jobs: Map<JobId, (u64, Seq<usize>)>, ids: Seq<JobId>) -> bool {
    &&& ids.to_set() == jobs.dom()
    &&& forall|i: int, j: int| 0 <= i < j < ids.len() ==> goes_first(jobs, #[trigger] ids[i], #[trigger] ids[j])
}

/// The flows of the first `n` jobs, one after the other.
pub open spec fn listed_flows(jobs: Map<JobId, (u64, Seq<usize>)>, ids: Seq<JobId>, n: nat) -> Seq<(JobId, usize)>
    decreases n,
{
    if n == 0 {
        Seq::empty()
    } else {
        listed_flows(jobs, ids, (n - 1) as nat) + jobs[ids[n - 1]].1.map_values(|f: usize| (ids[n - 1], f))
    }
}

/// Releases one flow in each slot.
pub open spec fn is_serial_schedule(
    jobs: Map<JobId, (u64, Seq<usize>)>,
    version: u64,
    s: FlowReleaseSchedule,
) -> bool {
    exists|ids: Seq<JobId>|
        {
            let flows = listed_flows(jobs, ids, ids.len());
            &&& #[trigger] is_job_order(jobs, ids)
            &&& s.version == version
            &&& s.period_us == if flows.len() == 0 {
                1
            } else {
                flows.len() * SLOT_US
            }
            &&& s.entries@ == Seq::new(
                flows.len(),
                |k: int|
                    FlowReleaseSpec {
                        job_id: flows[k].0,
                        job_flow_idx: flows[k].1,
                        offset_us: (k * SLOT_US) as u64,
                    },
            )
        }
}

impl Foresight {
    /// The flow indices of each job are in ascending order.
    pub open spec fn wf(&self) -> bool {
        forall|j: JobId| #[trigger] self.active_jobs@.contains_key(j) ==> sorted_list(self.active_jobs@[j].1@)
    }

    /// The jobs in the order of their submission.
    fn order_jobs(&self) -> (r: Vec<JobId>)
        ensures
            is_job_order(job_lists(self.active_jobs@), r@),
    {
        let ids = self.active_jobs.sorted_keys();
        let ghost jobs = job_lists(self.active_jobs@);
        let mut r: Vec<JobId> = Vec::new();
        let mut i: usize = 0;
        while i < ids.len()
            invariant
                i <= ids@.len(),
                jobs == job_lists(self.active_jobs@),
                ids@.to_set() == self.active_jobs@.dom(),
                forall|a: int, b: int| 0 <= a < b < ids@.len() ==> ids@[a] < ids@[b],
                r@.to_set() == ids@.take(i as int).to_set(),
                forall|a: int, b: int| 0 <= a < b < r@.len() ==> goes_first(jobs, #[trigger] r@[a], #[trigger] r@[b]),
                forall|a: int| 0 <= a < r@.len() ==> jobs.contains_key(#[trigger] r@[a]),
                forall|a: int, b: int| 0 <= a < r@.len() && i <= b < ids@.len() ==> #[trigger] r@[a] < #[trigger] ids@[b],
            decreases ids@.len() - i,
        {
            let x: JobId = ids[i];
            proof {
                assert(ids@.to_set().contains(x));
            }
            let at: u64 = self.active_jobs.get(&x).unwrap().0;
            let mut p: usize = r.len();
            while p > 0
                invariant_except_break
                    true,
                invariant
                    p <= r@.len(),
                    jobs == job_lists(self.active_jobs@),
                    self.active_jobs@.contains_key(x),
                    at == self.active_jobs@[x].0,
                    forall|a: int| 0 <= a < r@.len() ==> jobs.contains_key(#[trigger] r@[a]) && r@[a] < x,
                    forall|k: int| p <= k < r@.len() ==> goes_first(jobs, x, #[trigger] r@[k]),
                ensures
                    p > 0 ==> goes_first(jobs, r@[p - 1], x),
                decreases p,
            {
                assert(jobs.contains_key(r@[p - 1]));
                let other: u64 = self.active_jobs.get(&r[p - 1]).unwrap().0;
                if other <= at {
                    break;
                }
                p -= 1;
            }
            let ghost before = r@;
            r.insert(p, x);
            proof {
                assert(r@ == before.insert(p as int, x));
                assert forall|a: int, b: int| 0 <= a < b < r@.len() implies goes_first(
                    jobs,
                    #[trigger] r@[a],
                    #[trigger] r@[b],
                ) by {
                    if b < p {
                        assert(goes_first(jobs, before[a], before[b]));
                    } else if a > p {
                        assert(goes_first(jobs, before[a - 1], before[b - 1]));
                    } else if a == p {
                        assert(goes_first(jobs, x, before[b - 1]));
                    } else if b == p {
                        if a < p - 1 {
                            assert(goes_first(jobs, before[a], before[p - 1]));
                        }
                    } else {
                        assert(goes_first(jobs, before[a], before[b - 1]));
                    }
                }
                assert forall|y: usize| r@.to_set().contains(y) == before.to_set().insert(x).contains(y) by {
                    if before.contains(y) {
                        let k = choose|k: int| 0 <= k < before.len() && before[k] == y;
                        if k < p {
                            assert(r@[k] == y);
                        } else {
                            assert(r@[k + 1] == y);
                        }
                    }
                    assert(r@[p as int] == x);
                    if r@.contains(y) {
                        let k = choose|k: int| 0 <= k < r@.len() && r@[k] == y;
                        if k < p {
                            assert(before[k] == y);
                        } else if k > p {
                            assert(before[k - 1] == y);
                        }
                    }
                }
                assert(r@.to_set() =~= before.to_set().insert(x));
                assert(ids@.take(i + 1) =~= ids@.take(i as int).push(x));
                lemma_push_to_set(ids@.take(i as int), x);
            }
            i += 1;
        }
        proof {
            assert(ids@.take(ids@.len() as int) =~= ids@);
            assert(jobs.dom() =~= self.active_jobs@.dom());
        }
        r
    }

    /// A schedule that releases one flow in each slot: the jobs in the order of their submission,
    /// the flows of a job by their index.
    pub fn build_serial_schedule(&mut self) -> (r: FlowReleaseSchedule)
        requires
            old(self).wf(),
        ensures
            is_serial_schedule(job_lists(old(self).active_jobs@), old(self).next_version, r),
            final(self).next_version == wrapping_sum(old(self).next_version, 1),
            *final(self) == (Foresight { next_version: final(self).next_version, ..*old(self) }),
    {
        let ghost jobs = job_lists(self.active_jobs@);
        let ids = self.order_jobs();
        let mut entries: Vec<FlowReleaseSpec> = Vec::new();
        let mut i: usize = 0;
        while i < ids.len()
            invariant
                i <= ids@.len(),
                jobs == job_lists(self.active_jobs@),
                is_job_order(jobs, ids@),
                entries@ == Seq::new(
                    listed_flows(jobs, ids@, i as nat).len(),
                    |k: int|
                        FlowReleaseSpec {
                            job_id: listed_flows(jobs, ids@, i as nat)[k].0,
                            job_flow_idx: listed_flows(jobs, ids@, i as nat)[k].1,
                            offset_us: (k * SLOT_US) as u64,
                        },
                ),
            decreases ids@.len() - i,
        {
            let id: JobId = ids[i];
            let ghost before = listed_flows(jobs, ids@, i as nat);
            proof {
                assert(ids@.to_set().contains(id));
                assert(jobs.dom().contains(id));
            }
            let flows = &self.active_jobs.get(&id).unwrap().1;
            let ghost all = listed_flows(jobs, ids@, (i + 1) as nat);
            let mut j: usize = 0;
            while j < flows.len()
                invariant
                    j <= flows@.len(),
                    all == before + flows@.map_values(|f: usize| (id, f)),
                    entries@ == Seq::new(
                        before.len() + j as nat,
                        |k: int|
                            FlowReleaseSpec {
                                job_id: all[k].0,
                                job_flow_idx: all[k].1,
                                offset_us: (k * SLOT_US) as u64,
                            },
                    ),
                decreases flows@.len() - j,
            {
                let n: usize = entries.len();
                entries.push(FlowReleaseSpec { job_id: id, job_flow_idx: flows[j], offset_us: n as u64 * SLOT_US });
                proof {
                    assert(all[n as int] == (id, flows@[j as int]));
                    assert(entries@ =~= Seq::new(
                        before.len() + (j + 1) as nat,
                        |k: int|
                            FlowReleaseSpec {
                                job_id: all[k].0,
                                job_flow_idx: all[k].1,
                                offset_us: (k * SLOT_US) as u64,
                            },
                    ));
                }
                j += 1;
            }
            i += 1;
        }
        let n: usize = entries.len();
        let period_us: u64 = if n == 0 {
            1
        } else {
            n as u64 * SLOT_US
        };
        let version: u64 = self.next_version;
        self.next_version = version.wrapping_add(1);
        FlowReleaseSchedule { version, period_us, entries }
    }
}

/// One release goes before another: by the submission of their jobs, by the jobs, and by their indices.
pub open spec fn released_first(
    jobs: Map<JobId, (u64, Seq<usize>)>,
    a: FlowReleaseSpec,
    b: FlowReleaseSpec,
) -> bool {
    goes_first(jobs, a.job_id, b.job_id) || (a.job_id == b.job_id && a.job_flow_idx < b.job_flow_idx)
}

/// What the flows of the first `n` jobs are.
proof fn lemma_listed_flows(jobs: Map<JobId, (u64, Seq<usize>)>, ids: Seq<JobId>, n: nat)
    requires
        is_job_order(jobs, ids),
        n <= ids.len(),
        forall|j: JobId| #[trigger] jobs.contains_key(j) ==> sorted_list(jobs[j].1) && jobs[j].1.no_duplicates(),
    ensures
        ({
            let flows = listed_flows(jobs, ids, n);
            &&& forall|k: int|
                0 <= k < flows.len() ==> ids.take(n as int).contains((#[trigger] flows[k]).0)
                    && jobs[flows[k].0].1.contains(flows[k].1)
            &&& forall|i: int, f: usize|
                0 <= i < n && #[trigger] jobs[ids[i]].1.contains(f) ==> flows.contains((ids[i], f))
            &&& forall|a: int, b: int|
                0 <= a < b < flows.len() ==> goes_first(jobs, (#[trigger] flows[a]).0, (#[trigger] flows[b]).0) || (
                flows[a].0 == flows[b].0 && flows[a].1 < flows[b].1)
        }),
    decreases n,
{
    if n > 0 {
        let m = (n - 1) as nat;
        lemma_listed_flows(jobs, ids, m);
        let before = listed_flows(jobs, ids, m);
        let id = ids[n - 1];
        assert(ids.to_set().contains(id));
        assert(jobs.contains_key(id));
        let own = jobs[id].1;
        let mine = own.map_values(|f: usize| (ids[n - 1], f));
        let flows = listed_flows(jobs, ids, n);
        assert(flows == before + mine);
        assert forall|k: int| 0 <= k < flows.len() implies ids.take(n as int).contains((#[trigger] flows[k]).0)
            && jobs[flows[k].0].1.contains(flows[k].1) by {
            if k < before.len() {
                assert(flows[k] == before[k]);
                let i = choose|i: int| 0 <= i < m && ids.take(m as int)[i] == before[k].0;
                assert(ids.take(n as int)[i] == flows[k].0);
            } else {
                let x = k - before.len();
                assert(flows[k] == (id, own[x]));
                assert(ids.take(n as int)[n - 1] == id);
            }
        }
        assert forall|i: int, f: usize| 0 <= i < n && #[trigger] jobs[ids[i]].1.contains(f) implies flows.contains(
            (ids[i], f),
        ) by {
            if i < m {
                assert(before.contains((ids[i], f)));
                let k = choose|k: int| 0 <= k < before.len() && before[k] == (ids[i], f);
                assert(flows[k] == (ids[i], f));
            } else {
                let x = choose|x: int| 0 <= x < own.len() && own[x] == f;
                assert(mine[x] == (id, f));
                assert(flows[before.len() + x] == (id, f));
            }
        }
        assert forall|a: int, b: int| 0 <= a < b < flows.len() implies goes_first(
            jobs,
            (#[trigger] flows[a]).0,
            (#[trigger] flows[b]).0,
        ) || (flows[a].0 == flows[b].0 && flows[a].1 < flows[b].1) by {
            if b < before.len() {
                assert(flows[a] == before[a] && flows[b] == before[b]);
            } else if a < before.len() {
                assert(flows[a] == before[a]);
                assert(flows[b] == mine[b - before.len()]);
                let i = choose|i: int| 0 <= i < m && ids.take(m as int)[i] == before[a].0;
                assert(ids[i] == flows[a].0);
                assert(goes_first(jobs, ids[i], ids[n - 1]));
            } else {
                let x = a - before.len();
                let y = b - before.len();
                assert(flows[a] == mine[x] && flows[b] == mine[y]);
                assert(own[x] <= own[y] && own[x] != own[y]);
            }
        }
    }
}

/// A serial schedule lists each flow of each running job exactly once, by the submission of the jobs, by
/// the jobs and by the indices of the flows. The flow at each place has the slot of that place, and the
/// period is the time of all slots.
pub proof fn lemma_serial_schedule(jobs: Map<JobId, (u64, Seq<usize>)>, version: u64, s: FlowReleaseSchedule)
    requires
        is_serial_schedule(jobs, version, s),
        forall|j: JobId| #[trigger] jobs.contains_key(j) ==> sorted_list(jobs[j].1) && jobs[j].1.no_duplicates(),
    ensures
        s.version == version,
        s.period_us == if s.entries@.len() == 0 {
            1
        } else {
            s.entries@.len()
        },
        forall|k: int| 0 <= k < s.entries@.len() ==> (#[trigger] s.entries@[k]).offset_us == k,
        forall|k: int|
            0 <= k < s.entries@.len() ==> jobs.contains_key((#[trigger] s.entries@[k]).job_id)
                && jobs[s.entries@[k].job_id].1.contains(s.entries@[k].job_flow_idx),
        forall|j: JobId, f: usize|
            jobs.contains_key(j) && #[trigger] jobs[j].1.contains(f) ==> exists|k: int|
                0 <= k < s.entries@.len() && (#[trigger] s.entries@[k]).job_id == j && s.entries@[k].job_flow_idx == f,
        forall|a: int, b: int|
            0 <= a < b < s.entries@.len() ==> released_first(jobs, #[trigger] s.entries@[a], #[trigger] s.entries@[b]),
{
    let ids = choose|ids: Seq<JobId>|
        {
            let flows = listed_flows(jobs, ids, ids.len());
            &&& #[trigger] is_job_order(jobs, ids)
            &&& s.version == version
            &&& s.period_us == if flows.len() == 0 {
                1
            } else {
                flows.len() * SLOT_US
            }
            &&& s.entries@ == Seq::new(
                flows.len(),
                |k: int|
                    FlowReleaseSpec {
                        job_id: flows[k].0,
                        job_flow_idx: flows[k].1,
                        offset_us: (k * SLOT_US) as u64,
                    },
            )
        };
    let flows = listed_flows(jobs, ids, ids.len());
    lemma_listed_flows(jobs, ids, ids.len());
    assert(ids.take(ids.len() as int) =~= ids);
    assert forall|k: int| 0 <= k < s.entries@.len() implies jobs.contains_key((#[trigger] s.entries@[k]).job_id)
        && jobs[s.entries@[k].job_id].1.contains(s.entries@[k].job_flow_idx) by {
        assert(ids.contains(flows[k].0));
        assert(ids.to_set().contains(flows[k].0));
    }
    assert forall|j: JobId, f: usize| jobs.contains_key(j) && #[trigger] jobs[j].1.contains(f) implies exists|k: int|
        0 <= k < s.entries@.len() && (#[trigger] s.entries@[k]).job_id == j && s.entries@[k].job_flow_idx == f by {
        assert(ids.to_set().contains(j));
        let i = choose|i: int| 0 <= i < ids.len() && ids[i] == j;
        assert(jobs[ids[i]].1.contains(f));
        assert(flows.contains((ids[i], f)));
        let k = choose|k: int| 0 <= k < flows.len() && flows[k] == (ids[i], f);
        assert(s.entries@[k].job_id == j && s.entries@[k].job_flow_idx == f);
    }
    assert forall|a: int, b: int| 0 <= a < b < s.entries@.len() implies released_first(
        jobs,
        #[trigger] s.entries@[a],
        #[trigger] s.entries@[b],
    ) by {
        assert(goes_first(jobs, flows[a].0, flows[b].0) || (flows[a].0 == flows[b].0 && flows[a].1 < flows[b].1));
    }
}

/// When a planned flow is released.
pub open spec fn release_of(p: PlacedFlow) -> FlowReleaseSpec {
    FlowReleaseSpec { job_id: p.job_id, job_flow_idx: p.job_flow_idx, offset_us: p.start_us }
}

/// A list with another release, after those that are not later.
pub open spec fn with_release(list: Seq<FlowReleaseSpec>, e: FlowReleaseSpec) -> Seq<FlowReleaseSpec>
    decreases list.len(),
{
    if list.len() == 0 || list.last().offset_us <= e.offset_us {
        list.push(e)
    } else {
        with_release(list.drop_last(), e).push(list.last())
    }
}

/// The releases of the first `n` planned flows by their time, those at the same time in the order of
/// the plan.
pub open spec fn releases(placed: Seq<PlacedFlow>, n: nat) -> Seq<FlowReleaseSpec>
    decreases n,
{
    if n == 0 {
        Seq::empty()
    } else {
        with_release(releases(placed, (n - 1) as nat), release_of(placed[n - 1]))
    }
}

/// Releases are in the order of their times.
pub open spec fn by_time(list: Seq<FlowReleaseSpec>) -> bool {
    forall|i: int, j: int| 0 <= i <= j < list.len() ==> (#[trigger] list[i]).offset_us <= (#[trigger] list[j]).offset_us
}

proof fn lemma_with_release_sorted(list: Seq<FlowReleaseSpec>, e: FlowReleaseSpec)
    requires
        by_time(list),
    ensures
        by_time(with_release(list, e)),
        with_release(list, e).to_multiset() == list.to_multiset().insert(e),
        forall|k: int|
            0 <= k < with_release(list, e).len() ==> (#[trigger] with_release(list, e)[k]).offset_us <= e.offset_us || (list.len()
                > 0 && with_release(list, e)[k].offset_us <= list.last().offset_us),
    decreases list.len(),
{
    broadcast use vstd::seq_lib::group_to_multiset_ensures;

    if list.len() == 0 || list.last().offset_us <= e.offset_us {
        assert forall|i: int, j: int| 0 <= i <= j < list.push(e).len() implies (#[trigger] list.push(e)[i]).offset_us <= (
        #[trigger] list.push(e)[j]).offset_us by {
            if i < list.len() {
                assert(list[i].offset_us <= list[list.len() - 1].offset_us);
            }
        }
    } else {
        let rest = list.drop_last();
        assert(by_time(rest)) by {
            assert forall|i: int, j: int| 0 <= i <= j < rest.len() implies (#[trigger] rest[i]).offset_us <= (
            #[trigger] rest[j]).offset_us by {
                assert(list[i].offset_us <= list[j].offset_us);
            }
        }
        lemma_with_release_sorted(rest, e);
        let w = with_release(rest, e);
        assert forall|k: int| 0 <= k < w.len() implies (#[trigger] w[k]).offset_us <= list.last().offset_us by {
            if rest.len() > 0 {
                assert(list[rest.len() - 1].offset_us <= list[list.len() - 1].offset_us);
            }
        }
        assert(list =~= rest.push(list.last()));
        assert(with_release(list, e).to_multiset() =~= list.to_multiset().insert(e));
    }
}

/// The releases of a plan are those of its flows, each once, in the order of their times.
pub proof fn lemma_releases(placed: Seq<PlacedFlow>, n: nat)
    requires
        n <= placed.len(),
    ensures
        by_time(releases(placed, n)),
        releases(placed, n).to_multiset() == placed.take(n as int).map_values(|p: PlacedFlow| release_of(p)).to_multiset(),
    decreases n,
{
    broadcast use vstd::seq_lib::group_to_multiset_ensures;

    if n > 0 {
        lemma_releases(placed, (n - 1) as nat);
        lemma_with_release_sorted(releases(placed, (n - 1) as nat), release_of(placed[n - 1]));
        assert(placed.take(n as int).map_values(|p: PlacedFlow| release_of(p)) =~= placed.take(n - 1).map_values(
            |p: PlacedFlow| release_of(p),
        ).push(release_of(placed[n - 1])));
    } else {
        assert(placed.take(0).map_values(|p: PlacedFlow| release_of(p)) =~= Seq::<FlowReleaseSpec>::empty());
    }
}

proof fn lemma_with_release(list: Seq<FlowReleaseSpec>, e: FlowReleaseSpec, p: int)
    requires
        0 <= p <= list.len(),
        p > 0 ==> list[p - 1].offset_us <= e.offset_us,
        forall|k: int| p <= k < list.len() ==> (#[trigger] list[k]).offset_us > e.offset_us,
    ensures
        with_release(list, e) == list.insert(p, e),
    decreases list.len(),
{
    if p < list.len() {
        assert(list[list.len() - 1].offset_us > e.offset_us);
        lemma_with_release(list.drop_last(), e, p);
        assert(with_release(list, e) =~= list.insert(p, e));
    } else {
        assert(with_release(list, e) =~= list.insert(p, e));
    }
}

fn list_releases(placed: &Vec<PlacedFlow>) -> (r: Vec<FlowReleaseSpec>)
    ensures
        r@ == releases(placed@, placed@.len()),
{
    let mut r: Vec<FlowReleaseSpec> = Vec::new();
    let mut i: usize = 0;
    while i < placed.len()
        invariant
            i <= placed@.len(),
            r@ == releases(placed@, i as nat),
        decreases placed@.len() - i,
    {
        let e = FlowReleaseSpec {
            job_id: placed[i].job_id,
            job_flow_idx: placed[i].job_flow_idx,
            offset_us: placed[i].start_us,
        };
        let mut p: usize = r.len();
        while p > 0 && r[p - 1].offset_us > e.offset_us
            invariant
                p <= r@.len(),
                forall|k: int| p <= k < r@.len() ==> (#[trigger] r@[k]).offset_us > e.offset_us,
            decreases p,
        {
            p -= 1;
        }
        proof {
            lemma_with_release(r@, e, p as int);
        }
        r.insert(p, e);
        i += 1;
    }
    r
}

/// What is wrong with a job's events, if anything.
pub open spec fn model_fault(model: JobModel, times: Map<u64, u64>) -> Option<PlanFault> {
    let ws = model.views();
    if !events_ok(ws, times) {
        Some(PlanFault::BadEvent(model.job_id))
    } else if !peers_known(ws, all_steps(ws, times, ws.len())) {
        Some(PlanFault::UnknownWorker(model.job_id))
    } else {
        None
    }
}

/// A job before any of its iterations is placed.
pub open spec fn is_fresh_plan(model: JobModel, id: JobId, times: Map<u64, u64>, hosts_per_leaf: nat, p: JobPlanView) -> bool {
    &&& p.job_id == id
    &&& p.remaining == model.total_iterations
    &&& p.placed == 0
    &&& p.service_us == 0
    &&& p.next_start_us == 0
    &&& model_fault(model, times) is None
    &&& are_iteration_flows(model.views(), times, hosts_per_leaf, model.send_map@, p.flows)
}

/// The first jobs by number, before any of their iterations is placed.
pub open spec fn are_fresh_plans(
    models: Map<JobId, JobModel>,
    times: Map<u64, u64>,
    hosts_per_leaf: nat,
    plans: Seq<JobPlanView>,
) -> bool {
    let ids = ascending(models.dom());
    &&& plans.len() <= ids.len()
    &&& forall|k: int|
        0 <= k < plans.len() ==> is_fresh_plan(models[ids[k]], ids[k], times, hosts_per_leaf, #[trigger] plans[k])
}

/// The plan of the flows of all jobs, or why there is none: the events of the first job that has
/// bad ones, a leaf that does not exist, or an iteration that cannot be placed.
pub open spec fn flows_planned(
    models: Map<JobId, JobModel>,
    times: Map<u64, u64>,
    size: SpineSize,
    r: Result<Seq<PlacedFlow>, PlanFault>,
) -> bool {
    let ids = ascending(models.dom());
    exists|plans: Seq<JobPlanView>|
        {
            &&& #[trigger] are_fresh_plans(models, times, size.hosts_per_leaf, plans)
            &&& if plans.len() < ids.len() {
                r is Err && model_fault(models[ids[plans.len() as int]], times) == Some(r->Err_0)
            } else if !leaves_exist(plans, size.num_leaves) {
                r matches Err(PlanFault::UnknownLeaf(j)) && exists|k: int|
                    0 <= k < plans.len() && (#[trigger] plans[k]).job_id == j && !leaves_exist(seq![plans[k]], size.num_leaves)
            } else {
                plan_made(plans, size.num_leaves, size.num_spines, r)
            }
        }
}

/// The schedule of a plan, if its period fits.
pub open spec fn is_schedule_of(placed: Seq<PlacedFlow>, version: u64, s: FlowReleaseSchedule) -> bool {
    &&& s.version == version
    &&& s.entries@ == releases(placed, placed.len())
    &&& s.period_us == if s.entries@.len() == 0 {
        1
    } else {
        s.entries@.last().offset_us + 1
    }
}

proof fn lemma_flow_leaves(model: JobModel, times: Map<u64, u64>, hosts_per_leaf: nat, flows: Seq<FlowTemplate>, k: int)
    requires
        hosts_per_leaf > 0,
        are_iteration_flows(model.views(), times, hosts_per_leaf, model.send_map@, flows),
        0 <= k < flows.len(),
    ensures
        flows[k].src_leaf == flows[k].src_host as nat / hosts_per_leaf,
        flows[k].dst_leaf == flows[k].dst_host as nat / hosts_per_leaf,
{
    let ws = model.views();
    let steps = all_steps(ws, times, ws.len());
    let (order, est) = choose|order: Seq<usize>, est: Seq<u64>|
        {
            &&& #[trigger] is_run_order(step_edges(steps), steps.len(), order)
            &&& #[trigger] are_earliest(step_edges(steps), durations(steps), order, est)
            &&& flows == step_flows(ws, steps, est, hosts_per_leaf, model.send_map@, steps.len())
        };
    lemma_step_leaves(ws, steps, est, hosts_per_leaf, model.send_map@, steps.len(), k);
}

proof fn lemma_step_leaves(
    ws: Seq<WorkerModelView>,
    steps: Seq<StepView>,
    est: Seq<u64>,
    hosts_per_leaf: nat,
    send_map: Map<(WorkerId, usize), usize>,
    n: nat,
    k: int,
)
    requires
        hosts_per_leaf > 0,
        n <= steps.len(),
        0 <= k < step_flows(ws, steps, est, hosts_per_leaf, send_map, n).len(),
    ensures
        ({
            let f = step_flows(ws, steps, est, hosts_per_leaf, send_map, n)[k];
            f.src_leaf == f.src_host as nat / hosts_per_leaf && f.dst_leaf == f.dst_host as nat / hosts_per_leaf
        }),
    decreases n,
{
    let rest = step_flows(ws, steps, est, hosts_per_leaf, send_map, (n - 1) as nat);
    if k < rest.len() {
        lemma_step_leaves(ws, steps, est, hosts_per_leaf, send_map, (n - 1) as nat, k);
    } else {
        let f = flow_of(ws, steps[n - 1], est[n - 1], hosts_per_leaf, send_map);
        assert(0 <= f.src_host as nat / hosts_per_leaf <= f.src_host) by (nonlinear_arith)
            requires
                hosts_per_leaf > 0,
        ;
        assert(0 <= f.dst_host as nat / hosts_per_leaf <= f.dst_host) by (nonlinear_arith)
            requires
                hosts_per_leaf > 0,
        ;
    }
}

/// The first job that has a flow between leaves one of which does not exist.
fn find_lost_job(plans: &Vec<JobPlan>, num_leaves: usize) -> (r: Option<JobId>)
    ensures
        r is None == leaves_exist(plan_views(plans@), num_leaves as nat),
        r matches Some(j) ==> exists|k: int|
            0 <= k < plans@.len() && (#[trigger] plan_views(plans@)[k]).job_id == j && !leaves_exist(
                seq![plan_views(plans@)[k]],
                num_leaves as nat,
            ),
{
    let ghost views = plan_views(plans@);
    let mut j: usize = 0;
    while j < plans.len()
        invariant
            j <= plans@.len(),
            views == plan_views(plans@),
            forall|i: int, k: int|
                0 <= i < j && views[i].remaining > 0 && 0 <= k < views[i].flows.len() ==> !leads_astray(
                    #[trigger] views[i].flows[k],
                    num_leaves as nat,
                ),
        decreases plans@.len() - j,
    {
        assert(views[j as int] == plans@[j as int]@);
        if plans[j].remaining > 0 {
            let mut k: usize = 0;
            while k < plans[j].flows.len()
                invariant
                    j < plans@.len(),
                    k <= plans@[j as int].flows@.len(),
                    views == plan_views(plans@),
                    views[j as int] == plans@[j as int]@,
                    views[j as int].remaining > 0,
                    forall|x: int| 0 <= x < k ==> !leads_astray(#[trigger] views[j as int].flows[x], num_leaves as nat),
                decreases plans@[j as int].flows@.len() - k,
            {
                let src: usize = plans[j].flows[k].src_leaf;
                let dst: usize = plans[j].flows[k].dst_leaf;
                if src != dst && (src >= num_leaves || dst >= num_leaves) {
                    proof {
                        let f = views[j as int].flows[k as int];
                        assert(f == plans@[j as int].flows@[k as int]);
                        assert(leads_astray(f, num_leaves as nat));
                        assert(seq![views[j as int]][0].flows[k as int] == f);
                        assert(!leaves_exist(seq![views[j as int]], num_leaves as nat));
                        assert(!leaves_exist(views, num_leaves as nat));
                    }
                    return Some(plans[j].job_id);
                }
                k += 1;
            }
        }
        j += 1;
    }
    None
}

/// A planned flow starts and ends at hosts that exist, and knows their leaves.
pub open spec fn ends_known(p: PlacedFlow, size: SpineSize) -> bool {
    &&& p.src_host < size.hosts()
    &&& p.dst_host < size.hosts()
    &&& p.src_leaf == leaf_number(size, p.src_host as int)
    &&& p.dst_leaf == leaf_number(size, p.dst_host as int)
}

/// A planned flow knows the leaves of its ends. One between leaves is between leaves that exist.
pub open spec fn leaves_known(p: PlacedFlow, size: SpineSize) -> bool {
    &&& p.src_leaf == leaf_number(size, p.src_host as int)
    &&& p.dst_leaf == leaf_number(size, p.dst_host as int)
    &&& p.src_leaf != p.dst_leaf ==> ends_known(p, size)
}

/// A planned flow has an end below a leaf that does not exist.
pub open spec fn is_stray(p: PlacedFlow, num_leaves: nat) -> bool {
    p.src_leaf >= num_leaves || p.dst_leaf >= num_leaves
}

/// The first planned flow with an end below a leaf that does not exist.
pub open spec fn is_first_stray(placed: Seq<PlacedFlow>, num_leaves: nat, i: int) -> bool {
    &&& 0 <= i < placed.len()
    &&& is_stray(placed[i], num_leaves)
    &&& forall|k: int| 0 <= k < i ==> !is_stray(#[trigger] placed[k], num_leaves)
}

/// No planned flow has an end below a leaf that does not exist.
pub open spec fn no_strays(placed: Seq<PlacedFlow>, num_leaves: nat) -> bool {
    forall|i: int| 0 <= i < placed.len() ==> !is_stray(#[trigger] placed[i], num_leaves)
}

/// The job of the first planned flow that has an end below a leaf that does not exist.
fn find_stray(placed: &Vec<PlacedFlow>, num_leaves: usize) -> (r: Option<JobId>)
    ensures
        match r {
            Some(j) => exists|i: int| #[trigger] is_first_stray(placed@, num_leaves as nat, i) && placed@[i].job_id == j,
            None => no_strays(placed@, num_leaves as nat),
        },
{
    let mut i: usize = 0;
    while i < placed.len()
        invariant
            i <= placed@.len(),
            forall|k: int| 0 <= k < i ==> !is_stray(#[trigger] placed@[k], num_leaves as nat),
        decreases placed@.len() - i,
    {
        if placed[i].src_leaf >= num_leaves || placed[i].dst_leaf >= num_leaves {
            assert(is_first_stray(placed@, num_leaves as nat, i as int));
            return Some(placed[i].job_id);
        }
        i += 1;
    }
    None
}

proof fn lemma_host_exists(host: usize, size: SpineSize)
    requires
        size.hosts_per_leaf > 0,
        host as nat / size.hosts_per_leaf < size.num_leaves,
    ensures
        host < size.hosts(),
{
    let d = size.hosts_per_leaf as int;
    vstd::arithmetic::div_mod::lemma_fundamental_div_mod(host as int, d);
    vstd::arithmetic::div_mod::lemma_mod_bound(host as int, d);
    let q = host as int / d;
    assert((q + 1) * d <= size.num_leaves * d) by (nonlinear_arith)
        requires
            q + 1 <= size.num_leaves,
            d > 0,
    ;
    assert((q + 1) * d == d * q + d) by (nonlinear_arith);
}

proof fn lemma_leaves_known(
    models: Map<JobId, JobModel>,
    times: Map<u64, u64>,
    size: SpineSize,
    plans: Seq<JobPlanView>,
    placed: Seq<PlacedFlow>,
    i: int,
)
    requires
        size.hosts_per_leaf > 0,
        are_fresh_plans(models, times, size.hosts_per_leaf, plans),
        leaves_exist(plans, size.num_leaves),
        plan_made(plans, size.num_leaves, size.num_spines, Ok(placed)),
        0 <= i < placed.len(),
    ensures
        leaves_known(placed[i], size),
{
    lemma_planned_flows(plans, size.num_leaves, size.num_spines, placed, i);
    let (j, k) = choose|j: int, k: int| #[trigger] is_flow_of(plans, j, k, placed[i]);
    let ids = ascending(models.dom());
    assert(is_fresh_plan(models[ids[j]], ids[j], times, size.hosts_per_leaf, plans[j]));
    lemma_flow_leaves(models[ids[j]], times, size.hosts_per_leaf, plans[j].flows, k);
    assert(!leads_astray(plans[j].flows[k], size.num_leaves));
    if crosses(plans[j].flows[k]) {
        lemma_host_exists(placed[i].src_host, size);
        lemma_host_exists(placed[i].dst_host, size);
    }
}

impl Foresight {
    /// The jobs before any of their iterations is placed.
    fn fresh_plans(&self, hosts_per_leaf: usize, times: &HashMap<u64, u64>) -> (r: Result<Vec<JobPlan>, PlanFault>)
        requires
            hosts_per_leaf > 0,
        ensures
            ({
                let ids = ascending(self.job_models@.dom());
                match r {
                    Ok(plans) => plans@.len() == ids.len() && are_fresh_plans(
                        self.job_models@,
                        times@,
                        hosts_per_leaf as nat,
                        plan_views(plans@),
                    ),
                    Err(fault) => exists|plans: Seq<JobPlanView>|
                        {
                            &&& #[trigger] are_fresh_plans(self.job_models@, times@, hosts_per_leaf as nat, plans)
                            &&& plans.len() < ids.len()
                            &&& model_fault(self.job_models@[ids[plans.len() as int]], times@) == Some(fault)
                        },
                }
            }),
    {
        let ids = self.job_models.sorted_keys();
        proof {
            lemma_ascending(ids@, self.job_models@.dom());
        }
        let ghost models = self.job_models@;
        let mut plans: Vec<JobPlan> = Vec::new();
        let mut k: usize = 0;
        while k < ids.len()
            invariant
                k <= ids@.len(),
                plans@.len() == k,
                hosts_per_leaf > 0,
                models == self.job_models@,
                ids@ == ascending(models.dom()),
                ids@.to_set() == models.dom(),
                are_fresh_plans(models, times@, hosts_per_leaf as nat, plan_views(plans@)),
            decreases ids@.len() - k,
        {
            let id: JobId = ids[k];
            proof {
                assert(ids@.to_set().contains(id));
            }
            let model = self.job_models.get(&id).unwrap();
            match derive_iteration_flows(model, hosts_per_leaf, times) {
                Ok(flows) => {
                    let ghost before = plan_views(plans@);
                    plans.push(
                        JobPlan {
                            job_id: id,
                            flows,
                            remaining: model.total_iterations,
                            placed: 0,
                            service_us: 0,
                            next_start_us: 0,
                        },
                    );
                    proof {
                        let after = plan_views(plans@);
                        assert forall|x: int| 0 <= x < after.len() implies is_fresh_plan(
                            models[ids@[x]],
                            ids@[x],
                            times@,
                            hosts_per_leaf as nat,
                            #[trigger] after[x],
                        ) by {
                            if x < k {
                                assert(after[x] == before[x]);
                            }
                        }
                    }
                },
                Err(fault) => {
                    proof {
                        assert(plan_views(plans@).len() == k);
                        assert(model_fault(models[ids@[k as int]], times@) == Some(fault));
                    }
                    return Err(fault);
                },
            }
            k += 1;
        }
        Ok(plans)
    }

    /// Plans the flows of all jobs, and when they are released.
    pub fn build_flow_schedule(&mut self, topo: &SpineTree, times: &HashMap<u64, u64>) -> (r: Result<
        (FlowReleaseSchedule, Vec<PlacedFlow>),
        PlanFault,
    >)
        requires
            topo.hosts_per_leaf > 0,
        ensures
            *final(self) == (Foresight { next_version: final(self).next_version, ..*old(self) }),
            schedule_built(*old(self), *final(self), topo.size(), times@, r),
    {
        let ghost models = self.job_models@;
        let ghost size = topo.size();
        let plans = match self.fresh_plans(topo.hosts_per_leaf, times) {
            Ok(plans) => plans,
            Err(fault) => {
                assert(flows_planned(models, times@, size, Err(fault)));
                return Err(fault);
            },
        };
        let ghost views = plan_views(plans@);
        if let Some(j) = find_lost_job(&plans, topo.num_leaves) {
            assert(are_fresh_plans(models, times@, size.hosts_per_leaf, views));
            assert(flows_planned(models, times@, size, Err(PlanFault::UnknownLeaf(j))));
            return Err(PlanFault::UnknownLeaf(j));
        }
        proof {
            assert forall|j: int| 0 <= j < plans@.len() implies (#[trigger] plans@[j]).placed == 0 && plans@[j].service_us
                == 0 && plans@[j].next_start_us == 0 by {
                assert(views[j] == plans@[j]@);
            }
        }
        let placed = match plan_flows(plans, topo.num_leaves, topo.num_spines) {
            Ok(placed) => placed,
            Err(fault) => {
                assert(are_fresh_plans(models, times@, size.hosts_per_leaf, views));
                assert(flows_planned(models, times@, size, Err(fault)));
                return Err(fault);
            },
        };
        proof {
            assert(are_fresh_plans(models, times@, size.hosts_per_leaf, views));
            assert(flows_planned(models, times@, size, Ok(placed@)));
            assert forall|i: int| 0 <= i < placed@.len() implies leaves_known(#[trigger] placed@[i], size) by {
                lemma_leaves_known(models, times@, size, views, placed@, i);
            }
        }
        let entries = list_releases(&placed);
        let n: usize = entries.len();
        let mut period_us: u64 = 1;
        if n > 0 {
            let last: u64 = entries[n - 1].offset_us;
            if last == u64::MAX {
                assert(too_long(placed@));
                return Err(PlanFault::TimeOverflow);
            }
            period_us = last + 1;
        }
        let version: u64 = self.next_version;
        self.next_version = version.wrapping_add(1);
        Ok((FlowReleaseSchedule { version, period_us, entries }, placed))
    }
}

/// The last release is at the end of time, so that no period fits.
pub open spec fn too_long(placed: Seq<PlacedFlow>) -> bool {
    let list = releases(placed, placed.len());
    list.len() > 0 && list.last().offset_us == u64::MAX
}

/// What `build_flow_schedule` answers.
pub open spec fn schedule_built(
    before: Foresight,
    after: Foresight,
    size: SpineSize,
    times: Map<u64, u64>,
    r: Result<(FlowReleaseSchedule, Vec<PlacedFlow>), PlanFault>,
) -> bool {
    match r {
        Ok((schedule, placed)) => {
            &&& flows_planned(before.job_models@, times, size, Ok(placed@))
            &&& is_schedule_of(placed@, before.next_version, schedule)
            &&& after.next_version == wrapping_sum(before.next_version, 1)
            &&& forall|i: int| 0 <= i < placed@.len() ==> leaves_known(#[trigger] placed@[i], size)
        },
        Err(fault) => {
            &&& after.next_version == before.next_version
            &&& flows_planned(before.job_models@, times, size, Err(fault)) || (fault == PlanFault::TimeOverflow && exists|
                placed: Seq<PlacedFlow>,
            | #[trigger]
                flows_planned(before.job_models@, times, size, Ok(placed)) && too_long(placed))
        },
    }
}

/// The routes of the first `n` planned flows, set up one after the other.
pub open spec fn routed(
    t: Map<(JobId, usize, usize), Seq<usize>>,
    placed: Seq<PlacedFlow>,
    spine: Seq<Option<usize>>,
    size: SpineSize,
    n: nat,
) -> Map<(JobId, usize, usize), Seq<usize>>
    decreases n,
{
    if n == 0 {
        t
    } else {
        let p = placed[n - 1];
        routed(t, placed, spine, size, (n - 1) as nat).insert(
            (p.job_id, p.job_flow_idx, p.iter_idx),
            spine_route(size, p.src_host as int, p.dst_host as int, used_spine(spine[n - 1])),
        )
    }
}

/// The spine of a flow; a flow below one leaf uses none.
pub open spec fn used_spine(spine: Option<usize>) -> int {
    match spine {
        Some(s) => s as int,
        None => 0,
    }
}

/// The routes of a plan, over the spines that its flows are given. Flows that run at the same time share
/// no link between a leaf and a spine.
pub open spec fn is_routing(
    t: Map<(JobId, usize, usize), Seq<usize>>,
    placed: Seq<PlacedFlow>,
    size: SpineSize,
    after: Map<(JobId, usize, usize), Seq<usize>>,
) -> bool {
    &&& is_spine_plan(placed, spine_choice(placed), size.num_spines)
    &&& after == routed(t, placed, spine_choice(placed), size, placed.len())
}

/// Sets up the routes of a plan, if there are enough spines.
pub fn build_routing(topo: &SpineTree, router: &mut SpineSystemRouter, placed: &Vec<PlacedFlow>) -> (r: Result<(), PlanFault>)
    requires
        topo.wf(),
        forall|i: int| 0 <= i < placed@.len() ==> ends_known(#[trigger] placed@[i], topo.size()),
    ensures
        r == (if routable(placed@, topo.num_spines as nat) {
            Ok(())
        } else {
            Err(PlanFault::TooFewSpines)
        }),
        r is Ok ==> is_routing(
            templates(old(router).template_cache@),
            placed@,
            topo.size(),
            templates(final(router).template_cache@),
        ),
        r is Err ==> *final(router) == *old(router),
{
    let ghost size = topo.size();
    let ghost before = templates(router.template_cache@);
    let spine = match assign_spines(placed, topo.num_spines) {
        Some(spine) => spine,
        None => {
            return Err(PlanFault::TooFewSpines);
        },
    };
    let mut i: usize = 0;
    while i < placed.len()
        invariant
            i <= placed@.len(),
            topo.wf(),
            size == topo.size(),
            is_spine_plan(placed@, spine@, size.num_spines),
            spine@ == spine_choice(placed@),
            forall|k: int| 0 <= k < placed@.len() ==> ends_known(#[trigger] placed@[k], size),
            templates(router.template_cache@) == routed(before, placed@, spine@, size, i as nat),
        decreases placed@.len() - i,
    {
        let p = placed[i];
        proof {
            assert(ends_known(placed@[i as int], size));
        }
        let s: usize = match spine[i] {
            Some(s) => s,
            None => 0,
        };
        let path = route_over(topo, p.src_host, p.dst_host, s);
        router.inject_template(p.job_id, p.job_flow_idx, p.iter_idx, path);
        i += 1;
    }
    Ok(())
}

/// Iterations that a job has left.
pub open spec fn iterations_left(f: Foresight, done: Map<JobId, (usize, usize)>, j: JobId) -> int {
    let total = f.job_models@[j].total_iterations;
    if done.contains_key(j) && f.active_jobs@.contains_key(j) {
        if total <= done[j].1 {
            0
        } else {
            total - done[j].1
        }
    } else {
        total as int
    }
}

/// The jobs with what they have left; jobs that have nothing left are forgotten.
pub open spec fn caught_up(before: Foresight, after: Foresight, done: Map<JobId, (usize, usize)>) -> bool {
    &&& after.next_version == before.next_version
    &&& forall|j: JobId| #[trigger]
        after.job_models@.contains_key(j) == (before.job_models@.contains_key(j) && iterations_left(before, done, j) > 0)
    &&& forall|j: JobId| #[trigger]
        after.job_models@.contains_key(j) ==> after.job_models@[j] == (JobModel {
            total_iterations: iterations_left(before, done, j) as usize,
            ..before.job_models@[j]
        })
    &&& after.active_jobs@ == before.active_jobs@.restrict(after.job_models@.dom())
}

impl Foresight {
    /// Takes the iterations that have been completed off the jobs.
    pub fn catch_up(&mut self, ctx: &MLContext)
        ensures
            caught_up(*old(self), *final(self), ctx.job_iterations@),
            old(self).wf() ==> final(self).wf(),
    {
        let ghost before = *self;
        let ghost done = ctx.job_iterations@;
        let ids = self.job_models.sorted_keys();
        let mut k: usize = 0;
        while k < ids.len()
            invariant
                k <= ids@.len(),
                done == ctx.job_iterations@,
                forall|a: int, b: int| 0 <= a < b < ids@.len() ==> ids@[a] < ids@[b],
                ids@.to_set() == before.job_models@.dom(),
                self.next_version == before.next_version,
                self.active_jobs@ == before.active_jobs@,
                forall|i: int|
                    0 <= i < k ==> (self.job_models@.contains_key(#[trigger] ids@[i]) == (iterations_left(before, done, ids@[i])
                        > 0)) && (self.job_models@.contains_key(ids@[i]) ==> self.job_models@[ids@[i]] == (JobModel {
                        total_iterations: iterations_left(before, done, ids@[i]) as usize,
                        ..before.job_models@[ids@[i]]
                    })),
                forall|i: int|
                    k <= i < ids@.len() ==> self.job_models@.contains_key(#[trigger] ids@[i]) && self.job_models@[ids@[i]]
                        == before.job_models@[ids@[i]],
                forall|j: JobId| #[trigger] self.job_models@.contains_key(j) ==> before.job_models@.contains_key(j),
            decreases ids@.len() - k,
        {
            let id: JobId = ids[k];
            assert(self.job_models@.contains_key(ids@[k as int]));
            assert(ids@.to_set().contains(id));
            let total: usize = self.job_models.get(&id).unwrap().total_iterations;
            let mut left: usize = total;
            if self.active_jobs.contains_key(&id) {
                if let Some(e) = ctx.job_iterations.get(&id) {
                    let completed: usize = e.1;
                    left = if total <= completed {
                        0
                    } else {
                        total - completed
                    };
                }
            }
            assert(left == iterations_left(before, done, id));
            let ghost was = self.job_models@;
            if left == 0 {
                self.job_models.remove(&id);
            } else {
                if let Some(m) = self.job_models.get_mut(&id) {
                    m.total_iterations = left;
                }
            }
            assert forall|i: int| 0 <= i < ids@.len() && i != k implies #[trigger] ids@[i] != id by {}
            k += 1;
        }
        proof {
            assert forall|j: JobId| #[trigger]
                self.job_models@.contains_key(j) == (before.job_models@.contains_key(j) && iterations_left(before, done, j)
                    > 0) by {
                if before.job_models@.contains_key(j) {
                    assert(ids@.to_set().contains(j));
                    let i = choose|i: int| 0 <= i < ids@.len() && ids@[i] == j;
                    assert(ids@[i] == j);
                }
            }
            assert forall|j: JobId| #[trigger] self.job_models@.contains_key(j) implies self.job_models@[j] == (JobModel {
                total_iterations: iterations_left(before, done, j) as usize,
                ..before.job_models@[j]
            }) by {
                assert(ids@.to_set().contains(j));
                let i = choose|i: int| 0 <= i < ids@.len() && ids@[i] == j;
                assert(ids@[i] == j);
            }
        }
        let ghost models = self.job_models;
        let act = self.active_jobs.keys();
        let mut k: usize = 0;
        while k < act.len()
            invariant
                k <= act@.len(),
                self.next_version == before.next_version,
                self.job_models == models,
                act@.to_set() == before.active_jobs@.dom(),
                act@.no_duplicates(),
                forall|j: JobId| #[trigger]
                    self.active_jobs@.contains_key(j) ==> before.active_jobs@.contains_key(j) && self.active_jobs@[j]
                        == before.active_jobs@[j],
                forall|i: int|
                    0 <= i < k ==> self.active_jobs@.contains_key(#[trigger] act@[i]) == models@.contains_key(act@[i]),
                forall|i: int| k <= i < act@.len() ==> self.active_jobs@.contains_key(#[trigger] act@[i]),
            decreases act@.len() - k,
        {
            if !self.job_models.contains_key(&act[k]) {
                self.active_jobs.remove(&act[k]);
            }
            k += 1;
        }
        proof {
            let want = before.active_jobs@.restrict(models@.dom());
            assert forall|j: JobId| self.active_jobs@.contains_key(j) == want.contains_key(j) by {
                if before.active_jobs@.contains_key(j) {
                    assert(act@.to_set().contains(j));
                    let i = choose|i: int| 0 <= i < act@.len() && act@[i] == j;
                    assert(act@[i] == j);
                }
            }
            assert(self.active_jobs@ =~= want);
            assert forall|j: JobId| #[trigger] self.active_jobs@.contains_key(j) && before.wf() implies sorted_list(
                self.active_jobs@[j].1@,
            ) by {
                assert(before.active_jobs@.contains_key(j));
            }
        }
    }

    /// Plans anew what the jobs have left, and sets up the routes. The result is the schedule to
    /// install.
    pub fn on_reconfigure(
        &mut self,
        ctx: &MLContext,
        topo: &SpineTree,
        router: &mut SpineSystemRouter,
        times: &HashMap<u64, u64>,
    ) -> (r: Result<FlowReleaseSchedule, PlanFault>)
        requires
            old(self).wf(),
            topo.wf(),
            topo.hosts_per_leaf > 0,
        ensures
            final(self).wf(),
            exists|ready: Foresight|
                #![trigger caught_up(*old(self), ready, ctx.job_iterations@)]
                {
                    &&& caught_up(*old(self), ready, ctx.job_iterations@)
                    &&& *final(self) == (Foresight { next_version: final(self).next_version, ..ready })
                    &&& replanned(
                        ready,
                        *final(self),
                        topo.size(),
                        times@,
                        templates(final(router).template_cache@),
                        r,
                    )
                },
    {
        self.catch_up(ctx);
        let ghost ready = *self;
        router.clear_templates();
        let (schedule, placed) = match self.build_flow_schedule(topo, times) {
            Ok(p) => p,
            Err(fault) => {
                return Err(fault);
            },
        };
        if let Some(j) = find_stray(&placed, topo.num_leaves) {
            return Err(PlanFault::UnknownLeaf(j));
        }
        proof {
            let size = topo.size();
            assert forall|i: int| 0 <= i < placed@.len() implies ends_known(#[trigger] placed@[i], size) by {
                assert(leaves_known(placed@[i], size));
                assert(!is_stray(placed@[i], size.num_leaves));
                lemma_host_exists(placed@[i].src_host, size);
                lemma_host_exists(placed@[i].dst_host, size);
            }
        }
        match build_routing(topo, router, &placed) {
            Ok(()) => Ok(schedule),
            Err(fault) => Err(fault),
        }
    }
}

/// What `on_reconfigure` answers: the schedule of a plan that is routed, or why there is none. A flow that
/// ends below a leaf that does not exist has no route.
pub open spec fn replanned(
    ready: Foresight,
    after: Foresight,
    size: SpineSize,
    times: Map<u64, u64>,
    routes: Map<(JobId, usize, usize), Seq<usize>>,
    r: Result<FlowReleaseSchedule, PlanFault>,
) -> bool {
    exists|plan: Result<(FlowReleaseSchedule, Vec<PlacedFlow>), PlanFault>|
        {
            &&& #[trigger] schedule_built(ready, after, size, times, plan)
            &&& match plan {
                Err(fault) => r == Err::<FlowReleaseSchedule, PlanFault>(fault) && routes == Map::<
                    (JobId, usize, usize),
                    Seq<usize>,
                >::empty(),
                Ok((schedule, placed)) => if !no_strays(placed@, size.num_leaves) {
                    &&& r matches Err(PlanFault::UnknownLeaf(j)) && exists|i: int| #[trigger]
                        is_first_stray(placed@, size.num_leaves, i) && placed@[i].job_id == j
                    &&& routes == Map::<(JobId, usize, usize), Seq<usize>>::empty()
                } else if routable(placed@, size.num_spines) {
                    r == Ok::<FlowReleaseSchedule, PlanFault>(schedule) && is_routing(
                        Map::<(JobId, usize, usize), Seq<usize>>::empty(),
                        placed@,
                        size,
                        routes,
                    )
                } else {
                    r == Err::<FlowReleaseSchedule, PlanFault>(PlanFault::TooFewSpines) && routes == Map::<
                        (JobId, usize, usize),
                        Seq<usize>,
                    >::empty()
                },
            }
        }
}

} // verus!
