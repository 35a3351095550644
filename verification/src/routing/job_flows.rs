//! The flows of the running jobs, and the hosts that they run between.

use vstd::prelude::*;

use crate::simulator::context::{placement_views, MLContext};
use crate::simulator::flows::SimFault;
use crate::simulator::ml_job::{ascending, lemma_ascending, MLJob};
use crate::simulator::ml_worker::{EventView, FlowKind, JobId, MLWorker, WorkerEventKind, WorkerId};
use crate::utils::data::DHashMap;

verus! {

/// A flow of a job.
#[derive(Debug, Clone, Copy, PartialEq, Eq, Structural)]
pub struct JobFlow {
    pub job_id: JobId,
    pub job_flow_idx: usize,
    pub src_worker_id: WorkerId,
    pub dst_worker_id: WorkerId,
    /// Whether the flow belongs to a ring.
    pub is_ring_flow: bool,
}

/// A flow of a job between two hosts.
#[derive(Debug, Clone, Copy, PartialEq, Eq, Structural)]
pub struct HostFlow {
    pub job_id: JobId,
    pub job_flow_idx: usize,
    pub src_host: usize,
    pub dst_host: usize,
    pub is_ring_flow: bool,
}

/// A list with the flows of the sends among the first `n` events of a worker, or the first send that
/// is not as it should be.
pub open spec fn with_sends(
    start: Seq<JobFlow>,
    job_id: JobId,
    w: WorkerId,
    t: Seq<EventView>,
    idx: Map<(WorkerId, usize), usize>,
    n: nat,
) -> Result<Seq<JobFlow>, SimFault>
    decreases n,
{
    if n == 0 {
        Ok(start)
    } else {
        match with_sends(start, job_id, w, t, idx, (n - 1) as nat) {
            Err(f) => Err(f),
            Ok(list) => {
                let e = t[n - 1];
                if e.kind != WorkerEventKind::FlowSend {
                    Ok(list)
                } else {
                    match e.flow_send {
                        None => Err(SimFault::NotAFlowEvent(w, e.template_id)),
                        Some(s) => if idx.contains_key((w, e.template_id)) {
                            Ok(
                                list.push(
                                    JobFlow {
                                        job_id,
                                        job_flow_idx: idx[(w, e.template_id)],
                                        src_worker_id: w,
                                        dst_worker_id: s.dst_worker,
                                        is_ring_flow: s.flow_kind == FlowKind::Ring,
                                    },
                                ),
                            )
                        } else {
                            Err(SimFault::MissingFlowIndex(w, e.template_id))
                        },
                    }
                }
            },
        }
    }
}

/// The flows of the first `n` workers of a job.
pub open spec fn worker_flows(job: MLJob, ids: Seq<WorkerId>, n: nat) -> Result<Seq<JobFlow>, SimFault>
    decreases n,
{
    if n == 0 {
        Ok(Seq::empty())
    } else {
        match worker_flows(job, ids, (n - 1) as nat) {
            Err(f) => Err(f),
            Ok(list) => {
                let t = job.workers@[ids[n - 1]].templates();
                with_sends(list, job.id, ids[n - 1], t, job.send_template_to_flow_idx@, t.len())
            },
        }
    }
}

/// A list with another flow, after those whose index is not larger.
pub open spec fn with_indexed(list: Seq<JobFlow>, f: JobFlow) -> Seq<JobFlow>
    decreases list.len(),
{
    if list.len() == 0 || list.last().job_flow_idx <= f.job_flow_idx {
        list.push(f)
    } else {
        with_indexed(list.drop_last(), f).push(list.last())
    }
}

/// The first `n` flows by their index.
pub open spec fn by_index(list: Seq<JobFlow>, n: nat) -> Seq<JobFlow>
    decreases n,
{
    if n == 0 {
        Seq::empty()
    } else {
        with_indexed(by_index(list, (n - 1) as nat), list[n - 1])
    }
}

/// The flows of a job, by their index.
pub open spec fn job_flows(job: MLJob) -> Result<Seq<JobFlow>, SimFault> {
    let ids = ascending(job.workers@.dom());
    match worker_flows(job, ids, ids.len()) {
        Err(f) => Err(f),
        Ok(list) => Ok(by_index(list, list.len())),
    }
}

proof fn lemma_with_indexed(list: Seq<JobFlow>, f: JobFlow, p: int)
    requires
        0 <= p <= list.len(),
        p > 0 ==> list[p - 1].job_flow_idx <= f.job_flow_idx,
        forall|k: int| p <= k < list.len() ==> (#[trigger] list[k]).job_flow_idx > f.job_flow_idx,
    ensures
        with_indexed(list, f) == list.insert(p, f),
    decreases list.len(),
{
    if p < list.len() {
        assert(list[list.len() - 1].job_flow_idx > f.job_flow_idx);
        lemma_with_indexed(list.drop_last(), f, p);
    }
    assert(with_indexed(list, f) =~= list.insert(p, f));
}

fn sort_by_index(list: &Vec<JobFlow>) -> (r: Vec<JobFlow>)
    ensures
        r@ == by_index(list@, list@.len()),
{
    let mut r: Vec<JobFlow> = Vec::new();
    let mut i: usize = 0;
    while i < list.len()
        invariant
            i <= list@.len(),
            r@ == by_index(list@, i as nat),
        decreases list@.len() - i,
    {
        let f = list[i];
        let mut p: usize = r.len();
        while p > 0 && r[p - 1].job_flow_idx > f.job_flow_idx
            invariant
                p <= r@.len(),
                forall|k: int| p <= k < r@.len() ==> (#[trigger] r@[k]).job_flow_idx > f.job_flow_idx,
            decreases p,
        {
            p -= 1;
        }
        proof {
            lemma_with_indexed(r@, f, p as int);
        }
        r.insert(p, f);
        i += 1;
    }
    r
}

/// Appends the flows of a worker.
fn push_sends(
    list: &mut Vec<JobFlow>,
    job_id: JobId,
    w: WorkerId,
    worker: &MLWorker,
    idx: &DHashMap<(WorkerId, usize), usize>,
) -> (r: Result<(), SimFault>)
    ensures
        match with_sends(old(list)@, job_id, w, worker.templates(), idx@, worker.templates().len()) {
            Ok(l) => r is Ok && final(list)@ == l,
            Err(f) => r is Err && r->Err_0 == f,
        },
{
    let ghost t = worker.templates();
    let ghost start = list@;
    let mut i: usize = 0;
    while i < worker.template_events.len()
        invariant
            i <= worker.template_events@.len(),
            t == worker.templates(),
            t.len() == worker.template_events@.len(),
            start == old(list)@,
            with_sends(start, job_id, w, t, idx@, i as nat) == Ok::<Seq<JobFlow>, SimFault>(list@),
        decreases worker.template_events@.len() - i,
    {
        let e = &worker.template_events[i];
        assert(t[i as int] == e@);
        if e.kind == WorkerEventKind::FlowSend {
            match &e.flow_send {
                None => {
                    proof {
                        lemma_sends_fault(start, job_id, w, t, idx@, (i + 1) as nat, t.len());
                    }
                    return Err(SimFault::NotAFlowEvent(w, e.template_id));
                },
                Some(s) => match idx.get(&(w, e.template_id)) {
                    None => {
                        proof {
                            lemma_sends_fault(start, job_id, w, t, idx@, (i + 1) as nat, t.len());
                        }
                        return Err(SimFault::MissingFlowIndex(w, e.template_id));
                    },
                    Some(k) => {
                        list.push(
                            JobFlow {
                                job_id,
                                job_flow_idx: *k,
                                src_worker_id: w,
                                dst_worker_id: s.dst_worker,
                                is_ring_flow: s.is_ring_flow(),
                            },
                        );
                    },
                },
            }
        }
        i += 1;
    }
    Ok(())
}

proof fn lemma_sends_fault(
    start: Seq<JobFlow>,
    job_id: JobId,
    w: WorkerId,
    t: Seq<EventView>,
    idx: Map<(WorkerId, usize), usize>,
    n: nat,
    m: nat,
)
    requires
        n <= m,
        with_sends(start, job_id, w, t, idx, n) is Err,
    ensures
        with_sends(start, job_id, w, t, idx, m) == with_sends(start, job_id, w, t, idx, n),
    decreases m,
{
    if n < m {
        lemma_sends_fault(start, job_id, w, t, idx, n, (m - 1) as nat);
    }
}

proof fn lemma_flows_fault(job: MLJob, ids: Seq<WorkerId>, n: nat, m: nat)
    requires
        n <= m,
        worker_flows(job, ids, n) is Err,
    ensures
        worker_flows(job, ids, m) == worker_flows(job, ids, n),
    decreases m,
{
    if n < m {
        lemma_flows_fault(job, ids, n, (m - 1) as nat);
    }
}

/// The flows of a job, by their index.
pub fn list_job_flows(job: &MLJob) -> (r: Result<Vec<JobFlow>, SimFault>)
    ensures
        match job_flows(*job) {
            Ok(l) => r is Ok && r->Ok_0@ == l,
            Err(f) => r is Err && r->Err_0 == f,
        },
{
    let ids = job.workers.sorted_keys();
    proof {
        lemma_ascending(ids@, job.workers@.dom());
    }
    let mut list: Vec<JobFlow> = Vec::new();
    let mut i: usize = 0;
    while i < ids.len()
        invariant
            i <= ids@.len(),
            ids@ == ascending(job.workers@.dom()),
            ids@.to_set() == job.workers@.dom(),
            worker_flows(*job, ids@, i as nat) == Ok::<Seq<JobFlow>, SimFault>(list@),
        decreases ids@.len() - i,
    {
        proof {
            assert(ids@.to_set().contains(ids@[i as int]));
        }
        let worker = job.workers.get(&ids[i]).unwrap();
        match push_sends(&mut list, job.id, ids[i], worker, &job.send_template_to_flow_idx) {
            Ok(()) => {},
            Err(f) => {
                proof {
                    lemma_flows_fault(*job, ids@, (i + 1) as nat, ids@.len());
                }
                return Err(f);
            },
        }
        i += 1;
    }
    Ok(sort_by_index(&list))
}

/// The flows of jobs.
pub open spec fn flow_lists(m: Map<JobId, Vec<JobFlow>>) -> Map<JobId, Seq<JobFlow>> {
    m.map_values(|l: Vec<JobFlow>| l@)
}

/// The flows of the running jobs.
pub struct FlowBook {
    pub jobs: DHashMap<JobId, Vec<JobFlow>>,
}

/// A list with those of the first `n` flows of a job whose workers are placed.
pub open spec fn with_placed(
    start: Seq<HostFlow>,
    flows: Seq<JobFlow>,
    job_id: JobId,
    hosts: Map<WorkerId, usize>,
    n: nat,
) -> Seq<HostFlow>
    decreases n,
{
    if n == 0 {
        start
    } else {
        let rest = with_placed(start, flows, job_id, hosts, (n - 1) as nat);
        let f = flows[n - 1];
        if hosts.contains_key(f.src_worker_id) && hosts.contains_key(f.dst_worker_id) {
            rest.push(
                HostFlow {
                    job_id,
                    job_flow_idx: f.job_flow_idx,
                    src_host: hosts[f.src_worker_id],
                    dst_host: hosts[f.dst_worker_id],
                    is_ring_flow: f.is_ring_flow,
                },
            )
        } else {
            rest
        }
    }
}

/// The flows of the first `n` jobs between the hosts of their workers. Jobs that are not placed have
/// none.
pub open spec fn host_flows(
    jobs: Map<JobId, Seq<JobFlow>>,
    placements: Map<JobId, Map<WorkerId, usize>>,
    ids: Seq<JobId>,
    n: nat,
) -> Seq<HostFlow>
    decreases n,
{
    if n == 0 {
        Seq::empty()
    } else {
        let rest = host_flows(jobs, placements, ids, (n - 1) as nat);
        let j = ids[n - 1];
        if placements.contains_key(j) {
            with_placed(rest, jobs[j], j, placements[j], jobs[j].len())
        } else {
            rest
        }
    }
}

/// The flows of all jobs between the hosts of their workers, by job.
pub open spec fn all_host_flows(jobs: Map<JobId, Seq<JobFlow>>, placements: Map<JobId, Map<WorkerId, usize>>) -> Seq<
    HostFlow,
> {
    let ids = ascending(jobs.dom());
    host_flows(jobs, placements, ids, ids.len())
}

impl FlowBook {
    /// The flows of each job.
    pub open spec fn lists(&self) -> Map<JobId, Seq<JobFlow>> {
        flow_lists(self.jobs@)
    }

    /// No jobs.
    pub fn new() -> (r: Self)
        ensures
            r.lists() == Map::<JobId, Seq<JobFlow>>::empty(),
    {
        let r = FlowBook { jobs: DHashMap::new() };
        proof {
            assert(r.lists() =~= Map::<JobId, Seq<JobFlow>>::empty());
        }
        r
    }

    /// Takes down the flows of a job.
    pub fn record_job(&mut self, job: &MLJob) -> (r: Result<(), SimFault>)
        ensures
            match job_flows(*job) {
                Ok(l) => r is Ok && final(self).lists() == old(self).lists().insert(job.id, l),
                Err(f) => r is Err && r->Err_0 == f && *final(self) == *old(self),
            },
    {
        match list_job_flows(job) {
            Err(f) => Err(f),
            Ok(l) => {
                let ghost before = self.jobs@;
                self.jobs.insert(job.id, l);
                proof {
                    assert(flow_lists(self.jobs@) =~= flow_lists(before).insert(job.id, l@));
                }
                Ok(())
            },
        }
    }

    /// Forgets a job.
    pub fn remove_job(&mut self, job_id: JobId)
        ensures
            final(self).lists() == old(self).lists().remove(job_id),
    {
        let ghost before = self.jobs@;
        self.jobs.remove(&job_id);
        proof {
            assert(flow_lists(self.jobs@) =~= flow_lists(before).remove(job_id));
        }
    }

    /// The flows of all jobs between the hosts of their workers, by job.
    pub fn list_host_flows(&self, ctx: &MLContext) -> (r: Vec<HostFlow>)
        ensures
            r@ == all_host_flows(self.lists(), placement_views(ctx.placements@)),
    {
        let ghost jobs = self.lists();
        let ghost places = placement_views(ctx.placements@);
        let ids = self.jobs.sorted_keys();
        proof {
            assert(jobs.dom() =~= self.jobs@.dom());
            lemma_ascending(ids@, jobs.dom());
        }
        let mut r: Vec<HostFlow> = Vec::new();
        let mut i: usize = 0;
        while i < ids.len()
            invariant
                i <= ids@.len(),
                jobs == self.lists(),
                places == placement_views(ctx.placements@),
                ids@.to_set() == self.jobs@.dom(),
                r@ == host_flows(jobs, places, ids@, i as nat),
            decreases ids@.len() - i,
        {
            let j: JobId = ids[i];
            proof {
                assert(ids@.to_set().contains(j));
            }
            let flows = self.jobs.get(&j).unwrap();
            assert(jobs[j] == flows@);
            if let Some(hosts) = ctx.placements.get(&j) {
                let ghost start = r@;
                assert(places[j] == hosts@);
                let mut k: usize = 0;
                while k < flows.len()
                    invariant
                        k <= flows@.len(),
                        r@ == with_placed(start, flows@, j, hosts@, k as nat),
                    decreases flows@.len() - k,
                {
                    let f = flows[k];
                    if let Some(a) = hosts.get(&f.src_worker_id) {
                        if let Some(b) = hosts.get(&f.dst_worker_id) {
                            r.push(
                                HostFlow {
                                    job_id: j,
                                    job_flow_idx: f.job_flow_idx,
                                    src_host: *a,
                                    dst_host: *b,
                                    is_ring_flow: f.is_ring_flow,
                                },
                            );
                        }
                    }
                    k += 1;
                }
            }
            i += 1;
        }
        r
    }
}

} // verus!
