//! What an iteration of a job puts on the network, and when at the earliest.

use std::collections::HashMap;
use vstd::prelude::*;

use crate::simulator::ml_job::{ascending, lemma_ascending, MLJob};
use crate::simulator::ml_worker::{EventView, JobId, MLWorker, WorkerEvent, WorkerEventKind, WorkerId};
use crate::spine::critical_path::{are_earliest, earliest_starts, is_run_order};
use crate::utils::data::DHashMap;

verus! {

/// Why no plan can be made.
#[derive(Debug, Clone, Copy, PartialEq, Eq, Structural)]
pub enum PlanFault {
    /// An event lacks what its kind needs, or the time for its size is not known.
    BadEvent(JobId),
    /// A transfer goes to a worker that the job does not have.
    UnknownWorker(JobId),
    /// A time does not fit.
    TimeOverflow,
    /// There are too few spines.
    TooFewSpines,
    /// A flow goes to a leaf that does not exist.
    UnknownLeaf(JobId),
}

/// What is kept of a worker.
pub struct WorkerModel {
    pub worker_id: WorkerId,
    pub host_index: usize,
    pub template_events: Vec<WorkerEvent>,
}

/// The value of a `WorkerModel`.
pub struct WorkerModelView {
    pub worker_id: WorkerId,
    pub host_index: usize,
    pub events: Seq<EventView>,
}

impl View for WorkerModel {
    type V = WorkerModelView;

    open spec fn view(&self) -> WorkerModelView {
        WorkerModelView {
            worker_id: self.worker_id,
            host_index: self.host_index,
            events: self.template_events@.map_values(|e: WorkerEvent| e@),
        }
    }
}

/// What is kept of a job.
pub struct JobModel {
    pub job_id: JobId,
    pub total_iterations: usize,
    /// By ascending worker.
    pub workers: Vec<WorkerModel>,
    /// Flow index of each (sender, send template).
    pub send_map: DHashMap<(WorkerId, usize), usize>,
}

/// What is kept of a job's workers.
pub open spec fn worker_models(workers: Map<WorkerId, MLWorker>) -> Seq<WorkerModelView> {
    let ids = ascending(workers.dom());
    Seq::new(
        ids.len(),
        |k: int|
            WorkerModelView {
                worker_id: ids[k],
                host_index: workers[ids[k]].host_index,
                events: workers[ids[k]].templates(),
            },
    )
}

impl JobModel {
    /// The workers.
    pub open spec fn views(&self) -> Seq<WorkerModelView> {
        self.workers@.map_values(|w: WorkerModel| w@)
    }

    /// Takes down a job.
    pub fn from_job(job: &MLJob) -> (r: Self)
        ensures
            r.job_id == job.id,
            r.total_iterations == job.total_iterations,
            r.views() == worker_models(job.workers@),
            r.send_map@ == job.send_template_to_flow_idx@,
    {
        let ids = job.workers.sorted_keys();
        let mut workers: Vec<WorkerModel> = Vec::new();
        let mut k: usize = 0;
        while k < ids.len()
            invariant
                k <= ids@.len(),
                ids@.to_set() == job.workers@.dom(),
                workers@.len() == k,
                forall|x: int|
                    0 <= x < k ==> (#[trigger] workers@[x])@ == (WorkerModelView {
                        worker_id: ids@[x],
                        host_index: job.workers@[ids@[x]].host_index,
                        events: job.workers@[ids@[x]].templates(),
                    }),
            decreases ids@.len() - k,
        {
            proof {
                assert(ids@.to_set().contains(ids@[k as int]));
            }
            let w = job.workers.get(&ids[k]).unwrap();
            let mut events: Vec<WorkerEvent> = Vec::new();
            let mut i: usize = 0;
            while i < w.template_events.len()
                invariant
                    i <= w.template_events@.len(),
                    events@.len() == i,
                    forall|x: int| 0 <= x < i ==> (#[trigger] events@[x])@ == w.template_events@[x]@,
                decreases w.template_events@.len() - i,
            {
                events.push(w.template_events[i].clone());
                i += 1;
            }
            proof {
                assert(events@.map_values(|e: WorkerEvent| e@) =~= w.templates());
            }
            workers.push(WorkerModel { worker_id: ids[k], host_index: w.host_index, template_events: events });
            k += 1;
        }
        let send_map = job.send_template_to_flow_idx.duplicate();
        let r = JobModel { job_id: job.id, total_iterations: job.total_iterations, workers, send_map };
        proof {
            lemma_ascending(ids@, job.workers@.dom());
            assert(r.views() =~= worker_models(job.workers@));
        }
        r
    }
}

/// A step of an iteration.
pub struct StepView {
    pub worker: WorkerId,
    pub host: usize,
    pub template_id: usize,
    pub kind: WorkerEventKind,
    /// The other worker of a transfer.
    pub peer: WorkerId,
    pub duration_us: u64,
    pub deps: Seq<usize>,
}

/// A step of an iteration.
pub struct PlanStep {
    pub worker: WorkerId,
    pub host: usize,
    pub template_id: usize,
    pub kind: WorkerEventKind,
    pub peer: WorkerId,
    pub duration_us: u64,
    pub deps: Vec<usize>,
}

impl View for PlanStep {
    type V = StepView;

    open spec fn view(&self) -> StepView {
        StepView {
            worker: self.worker,
            host: self.host,
            template_id: self.template_id,
            kind: self.kind,
            peer: self.peer,
            duration_us: self.duration_us,
            deps: self.deps@,
        }
    }
}

/// The event has what its kind needs, and the time for its size is known.
pub open spec fn event_ok(e: EventView, times: Map<u64, u64>) -> bool {
    match e.kind {
        WorkerEventKind::Compute => true,
        WorkerEventKind::FlowSend => e.flow_send is Some && times.contains_key(e.flow_send->0.size_bytes),
        WorkerEventKind::FlowReceive => e.flow_receive is Some,
    }
}

/// The step of an event. A transfer takes its time at the sender; the receiver only waits.
pub open spec fn event_step(w: WorkerModelView, e: EventView, times: Map<u64, u64>) -> StepView {
    StepView {
        worker: w.worker_id,
        host: w.host_index,
        template_id: e.template_id,
        kind: e.kind,
        peer: match e.kind {
            WorkerEventKind::Compute => 0,
            WorkerEventKind::FlowSend => e.flow_send->0.dst_worker,
            WorkerEventKind::FlowReceive => e.flow_receive->0.src_worker,
        },
        duration_us: match e.kind {
            WorkerEventKind::Compute => match e.compute {
                Some(c) => c.duration_us,
                None => 0,
            },
            WorkerEventKind::FlowSend => times[e.flow_send->0.size_bytes],
            WorkerEventKind::FlowReceive => 0,
        },
        deps: e.dependencies,
    }
}

/// The steps of a worker.
pub open spec fn worker_steps(w: WorkerModelView, times: Map<u64, u64>) -> Seq<StepView> {
    w.events.map_values(|e: EventView| event_step(w, e, times))
}

/// The steps of the first `n` workers.
pub open spec fn all_steps(ws: Seq<WorkerModelView>, times: Map<u64, u64>, n: nat) -> Seq<StepView>
    decreases n,
{
    if n == 0 {
        Seq::empty()
    } else {
        all_steps(ws, times, (n - 1) as nat) + worker_steps(ws[n - 1], times)
    }
}

/// All events are in order.
pub open spec fn events_ok(ws: Seq<WorkerModelView>, times: Map<u64, u64>) -> bool {
    forall|w: int, i: int|
        0 <= w < ws.len() && 0 <= i < ws[w].events.len() ==> event_ok(#[trigger] ws[w].events[i], times)
}

/// The last of the first `n` steps of a worker with a template identifier.
pub open spec fn last_template(steps: Seq<StepView>, worker: WorkerId, template_id: usize, n: nat) -> Option<usize>
    decreases n,
{
    if n == 0 {
        None
    } else if steps[n - 1].worker == worker && steps[n - 1].template_id == template_id {
        Some((n - 1) as usize)
    } else {
        last_template(steps, worker, template_id, (n - 1) as nat)
    }
}

/// The edges from the first `n` dependencies of step `v`. A dependency on an unknown event counts
/// for nothing.
pub open spec fn dep_edges(steps: Seq<StepView>, v: usize, n: nat) -> Seq<(usize, usize)>
    decreases n,
{
    if n == 0 {
        Seq::empty()
    } else {
        let rest = dep_edges(steps, v, (n - 1) as nat);
        match last_template(steps, steps[v as int].worker, steps[v as int].deps[n - 1], steps.len()) {
            Some(u) => rest.push((u, v)),
            None => rest,
        }
    }
}

/// The edges from the dependencies of the first `n` steps.
pub open spec fn all_dep_edges(steps: Seq<StepView>, n: nat) -> Seq<(usize, usize)>
    decreases n,
{
    if n == 0 {
        Seq::empty()
    } else {
        all_dep_edges(steps, (n - 1) as nat) + dep_edges(steps, (n - 1) as usize, steps[n - 1].deps.len())
    }
}

/// The step is a transfer between two workers, at the one or the other.
pub open spec fn is_transfer(s: StepView, kind: WorkerEventKind, worker: WorkerId, peer: WorkerId) -> bool {
    s.kind == kind && s.worker == worker && s.peer == peer
}

/// Number of such transfers among the first `n` steps.
pub open spec fn transfers(steps: Seq<StepView>, kind: WorkerEventKind, worker: WorkerId, peer: WorkerId, n: nat) -> nat
    decreases n,
{
    if n == 0 {
        0
    } else {
        transfers(steps, kind, worker, peer, (n - 1) as nat) + if is_transfer(steps[n - 1], kind, worker, peer) {
            1nat
        } else {
            0nat
        }
    }
}

/// The receive with number `k` of a worker from another, among the first `n` steps.
pub open spec fn nth_receive(steps: Seq<StepView>, worker: WorkerId, peer: WorkerId, k: nat, n: nat) -> Option<usize>
    decreases n,
{
    if n == 0 {
        None
    } else {
        let earlier = nth_receive(steps, worker, peer, k, (n - 1) as nat);
        if earlier is None && is_transfer(steps[n - 1], WorkerEventKind::FlowReceive, worker, peer) && transfers(
            steps,
            WorkerEventKind::FlowReceive,
            worker,
            peer,
            (n - 1) as nat,
        ) == k {
            Some((n - 1) as usize)
        } else {
            earlier
        }
    }
}

/// The receive that belongs to a send: the sends from a worker to another, and the receives there,
/// go together in order.
pub open spec fn matching_receive(steps: Seq<StepView>, u: int) -> Option<usize> {
    let s = steps[u];
    nth_receive(
        steps,
        s.peer,
        s.worker,
        transfers(steps, WorkerEventKind::FlowSend, s.worker, s.peer, u as nat),
        steps.len(),
    )
}

/// The edges from the sends among the first `n` steps to their receives.
pub open spec fn send_edges(steps: Seq<StepView>, n: nat) -> Seq<(usize, usize)>
    decreases n,
{
    if n == 0 {
        Seq::empty()
    } else {
        let rest = send_edges(steps, (n - 1) as nat);
        if steps[n - 1].kind == WorkerEventKind::FlowSend {
            match matching_receive(steps, n - 1) {
                Some(v) => rest.push(((n - 1) as usize, v)),
                None => rest,
            }
        } else {
            rest
        }
    }
}

/// What has to end before what.
pub open spec fn step_edges(steps: Seq<StepView>) -> Seq<(usize, usize)> {
    all_dep_edges(steps, steps.len()) + send_edges(steps, steps.len())
}

/// A flow of an iteration, with its time from the start of the iteration.
#[derive(Debug, Clone, Copy, PartialEq, Eq, Structural)]
pub struct FlowTemplate {
    pub src_host: usize,
    pub dst_host: usize,
    pub src_leaf: usize,
    pub dst_leaf: usize,
    pub offset_us: u64,
    pub duration_us: u64,
    pub job_flow_idx: usize,
}

/// The position of a worker.
pub open spec fn worker_at(ws: Seq<WorkerModelView>, id: WorkerId, n: nat) -> Option<usize>
    decreases n,
{
    if n == 0 {
        None
    } else if ws[n - 1].worker_id == id {
        Some((n - 1) as usize)
    } else {
        worker_at(ws, id, (n - 1) as nat)
    }
}

/// All transfers go to workers of the job.
pub open spec fn peers_known(ws: Seq<WorkerModelView>, steps: Seq<StepView>) -> bool {
    forall|u: int|
        0 <= u < steps.len() && steps[u].kind == WorkerEventKind::FlowSend ==> worker_at(
            ws,
            (#[trigger] steps[u]).peer,
            ws.len(),
        ) is Some
}

/// The flow of a send.
pub open spec fn flow_of(
    ws: Seq<WorkerModelView>,
    s: StepView,
    start_us: u64,
    hosts_per_leaf: nat,
    send_map: Map<(WorkerId, usize), usize>,
) -> FlowTemplate {
    let dst = ws[worker_at(ws, s.peer, ws.len())->0 as int].host_index;
    FlowTemplate {
        src_host: s.host,
        dst_host: dst,
        src_leaf: (s.host as nat / hosts_per_leaf) as usize,
        dst_leaf: (dst as nat / hosts_per_leaf) as usize,
        offset_us: start_us,
        duration_us: s.duration_us,
        job_flow_idx: if send_map.contains_key((s.worker, s.template_id)) {
            send_map[(s.worker, s.template_id)]
        } else {
            s.template_id
        },
    }
}

/// The flows of the sends among the first `n` steps.
pub open spec fn step_flows(
    ws: Seq<WorkerModelView>,
    steps: Seq<StepView>,
    est: Seq<u64>,
    hosts_per_leaf: nat,
    send_map: Map<(WorkerId, usize), usize>,
    n: nat,
) -> Seq<FlowTemplate>
    decreases n,
{
    if n == 0 {
        Seq::empty()
    } else {
        let rest = step_flows(ws, steps, est, hosts_per_leaf, send_map, (n - 1) as nat);
        if steps[n - 1].kind == WorkerEventKind::FlowSend {
            rest.push(flow_of(ws, steps[n - 1], est[n - 1], hosts_per_leaf, send_map))
        } else {
            rest
        }
    }
}

/// How long the steps take.
pub open spec fn durations(steps: Seq<StepView>) -> Seq<u64> {
    steps.map_values(|s: StepView| s.duration_us)
}

/// The flows of an iteration: each send starts as early as what it depends on allows.
pub open spec fn are_iteration_flows(
    ws: Seq<WorkerModelView>,
    times: Map<u64, u64>,
    hosts_per_leaf: nat,
    send_map: Map<(WorkerId, usize), usize>,
    flows: Seq<FlowTemplate>,
) -> bool {
    let steps = all_steps(ws, times, ws.len());
    exists|order: Seq<usize>, est: Seq<u64>|
        {
            &&& #[trigger] is_run_order(step_edges(steps), steps.len(), order)
            &&& #[trigger] are_earliest(step_edges(steps), durations(steps), order, est)
            &&& flows == step_flows(ws, steps, est, hosts_per_leaf, send_map, steps.len())
        }
}

/// The steps as values.
pub open spec fn step_views(v: Seq<PlanStep>) -> Seq<StepView> {
    v.map_values(|s: PlanStep| s@)
}

/// The edges lead from step to step.
pub open spec fn edges_within(edges: Seq<(usize, usize)>, n: nat) -> bool {
    forall|j: int| 0 <= j < edges.len() ==> (#[trigger] edges[j]).0 < n && edges[j].1 < n
}

proof fn lemma_last_template(steps: Seq<StepView>, worker: WorkerId, template_id: usize, n: nat)
    requires
        n <= usize::MAX,
    ensures
        last_template(steps, worker, template_id, n) matches Some(u) ==> u < n,
    decreases n,
{
    if n > 0 {
        lemma_last_template(steps, worker, template_id, (n - 1) as nat);
    }
}

proof fn lemma_worker_at(ws: Seq<WorkerModelView>, id: WorkerId, n: nat)
    requires
        n <= usize::MAX,
    ensures
        worker_at(ws, id, n) matches Some(w) ==> w < n && ws[w as int].worker_id == id,
    decreases n,
{
    if n > 0 {
        lemma_worker_at(ws, id, (n - 1) as nat);
    }
}

proof fn lemma_nth_receive(steps: Seq<StepView>, worker: WorkerId, peer: WorkerId, k: nat, n: nat)
    requires
        n <= usize::MAX,
    ensures
        nth_receive(steps, worker, peer, k, n) matches Some(v) ==> v < n,
    decreases n,
{
    if n > 0 {
        lemma_nth_receive(steps, worker, peer, k, (n - 1) as nat);
    }
}

/// The step of an event, if it is in order.
fn make_step(w: &WorkerModel, e: &WorkerEvent, times: &HashMap<u64, u64>) -> (r: Option<PlanStep>)
    ensures
        r is Some == event_ok(e@, times@),
        r matches Some(s) ==> s@ == event_step(w@, e@, times@),
{
    broadcast use vstd::std_specs::hash::group_hash_axioms;

    let mut peer: WorkerId = 0;
    let mut duration_us: u64 = 0;
    match e.kind {
        WorkerEventKind::Compute => {
            if let Some(c) = &e.compute {
                duration_us = c.duration_us;
            }
        },
        WorkerEventKind::FlowSend => match &e.flow_send {
            Some(f) => {
                peer = f.dst_worker;
                match times.get(&f.size_bytes) {
                    Some(t) => {
                        duration_us = *t;
                    },
                    None => {
                        return None;
                    },
                }
            },
            None => {
                return None;
            },
        },
        WorkerEventKind::FlowReceive => match &e.flow_receive {
            Some(f) => {
                peer = f.src_worker;
            },
            None => {
                return None;
            },
        },
    }
    let deps = crate::simulator::ml_worker::clone_ids(&e.dependencies);
    Some(
        PlanStep {
            worker: w.worker_id,
            host: w.host_index,
            template_id: e.template_id,
            kind: e.kind,
            peer,
            duration_us,
            deps,
        },
    )
}

impl JobModel {
    /// The steps of an iteration, if all events are in order.
    fn list_steps(&self, times: &HashMap<u64, u64>) -> (r: Option<Vec<PlanStep>>)
        ensures
            r is Some == events_ok(self.views(), times@),
            r matches Some(s) ==> step_views(s@) == all_steps(self.views(), times@, self.views().len()),
    {
        let ghost ws = self.views();
        let mut out: Vec<PlanStep> = Vec::new();
        let mut w: usize = 0;
        proof {
            assert(step_views(out@) =~= Seq::<StepView>::empty());
        }
        while w < self.workers.len()
            invariant
                w <= self.workers@.len(),
                ws == self.views(),
                step_views(out@) == all_steps(ws, times@, w as nat),
                forall|x: int, i: int|
                    0 <= x < w && 0 <= i < ws[x].events.len() ==> event_ok(#[trigger] ws[x].events[i], times@),
            decreases self.workers@.len() - w,
        {
            let model = &self.workers[w];
            let ghost before = step_views(out@);
            let ghost mine = worker_steps(ws[w as int], times@);
            let mut i: usize = 0;
            proof {
                assert(ws[w as int] == model@);
                assert(step_views(out@) =~= before + mine.take(0));
            }
            while i < model.template_events.len()
                invariant
                    w < self.workers@.len(),
                    ws == self.views(),
                    ws[w as int] == model@,
                    mine == worker_steps(ws[w as int], times@),
                    i <= model.template_events@.len(),
                    step_views(out@) == before + mine.take(i as int),
                    forall|x: int| 0 <= x < i ==> event_ok(#[trigger] ws[w as int].events[x], times@),
                decreases model.template_events@.len() - i,
            {
                proof {
                    assert(ws[w as int].events[i as int] == model.template_events@[i as int]@);
                }
                match make_step(model, &model.template_events[i], times) {
                    Some(s) => {
                        let ghost prev = out@;
                        out.push(s);
                        proof {
                            assert(mine.len() == model.template_events@.len());
                            assert(mine[i as int] == s@);
                            assert(step_views(out@) =~= step_views(prev).push(s@));
                            assert(mine.take(i + 1) =~= mine.take(i as int).push(s@));
                            assert(before + mine.take(i as int).push(s@) =~= (before + mine.take(i as int)).push(s@));
                        }
                    },
                    None => {
                        assert(!event_ok(ws[w as int].events[i as int], times@));
                        return None;
                    },
                }
                i += 1;
            }
            proof {
                assert(mine.take(mine.len() as int) =~= mine);
            }
            w += 1;
        }
        Some(out)
    }

    /// The position of a worker.
    fn find_worker(&self, id: WorkerId) -> (r: Option<usize>)
        ensures
            r == worker_at(self.views(), id, self.views().len()),
            r matches Some(w) ==> w < self.workers@.len(),
    {
        let ghost ws = self.views();
        let mut n: usize = self.workers.len();
        while n > 0
            invariant
                n <= self.workers@.len(),
                ws == self.views(),
                worker_at(ws, id, ws.len()) == worker_at(ws, id, n as nat),
            decreases n,
        {
            proof {
                assert(ws[n - 1] == self.workers@[n - 1]@);
            }
            if self.workers[n - 1].worker_id == id {
                return Some(n - 1);
            }
            n -= 1;
        }
        None
    }
}

/// The last step of a worker with a template identifier.
fn find_template(steps: &Vec<PlanStep>, worker: WorkerId, template_id: usize) -> (r: Option<usize>)
    ensures
        r == last_template(step_views(steps@), worker, template_id, steps@.len()),
{
    let ghost s = step_views(steps@);
    let mut n: usize = steps.len();
    while n > 0
        invariant
            n <= steps@.len(),
            s == step_views(steps@),
            last_template(s, worker, template_id, steps@.len()) == last_template(s, worker, template_id, n as nat),
        decreases n,
    {
        proof {
            assert(s[n - 1] == steps@[n - 1]@);
        }
        if steps[n - 1].worker == worker && steps[n - 1].template_id == template_id {
            return Some(n - 1);
        }
        n -= 1;
    }
    None
}

/// Number of transfers between two workers, at the one or the other, among the first steps.
fn count_transfers(steps: &Vec<PlanStep>, kind: WorkerEventKind, worker: WorkerId, peer: WorkerId, n: usize) -> (r: usize)
    requires
        n <= steps@.len(),
    ensures
        r == transfers(step_views(steps@), kind, worker, peer, n as nat),
{
    let mut count: usize = 0;
    let mut i: usize = 0;
    while i < n
        invariant
            i <= n <= steps@.len(),
            count <= i,
            count == transfers(step_views(steps@), kind, worker, peer, i as nat),
        decreases n - i,
    {
        if steps[i].kind == kind && steps[i].worker == worker && steps[i].peer == peer {
            count += 1;
        }
        i += 1;
    }
    count
}

/// The receive with a number of a worker from another.
fn find_receive(steps: &Vec<PlanStep>, worker: WorkerId, peer: WorkerId, k: usize) -> (r: Option<usize>)
    ensures
        r == nth_receive(step_views(steps@), worker, peer, k as nat, steps@.len()),
{
    let ghost s = step_views(steps@);
    let mut found: Option<usize> = None;
    let mut count: usize = 0;
    let mut i: usize = 0;
    while i < steps.len()
        invariant
            i <= steps@.len(),
            s == step_views(steps@),
            count <= i,
            count == transfers(s, WorkerEventKind::FlowReceive, worker, peer, i as nat),
            found == nth_receive(s, worker, peer, k as nat, i as nat),
        decreases steps@.len() - i,
    {
        proof {
            assert(s[i as int] == steps@[i as int]@);
        }
        let is_it = steps[i].kind == WorkerEventKind::FlowReceive && steps[i].worker == worker && steps[i].peer == peer;
        if is_it {
            if found.is_none() && count == k {
                found = Some(i);
            }
            count += 1;
        }
        i += 1;
    }
    found
}

/// What has to end before what.
fn list_edges(steps: &Vec<PlanStep>) -> (r: Vec<(usize, usize)>)
    ensures
        r@ == step_edges(step_views(steps@)),
        edges_within(r@, steps@.len()),
{
    let ghost s = step_views(steps@);
    let mut r: Vec<(usize, usize)> = Vec::new();
    let n: usize = steps.len();
    let mut v: usize = 0;
    while v < n
        invariant
            v <= n,
            n == steps@.len(),
            s == step_views(steps@),
            r@ == all_dep_edges(s, v as nat),
            edges_within(r@, n as nat),
        decreases n - v,
    {
        let ghost before = r@;
        let step = &steps[v];
        let mut k: usize = 0;
        proof {
            assert(s[v as int] == step@);
            assert(r@ =~= before + dep_edges(s, v, 0));
        }
        while k < step.deps.len()
            invariant
                v < n,
                n == steps@.len(),
                s == step_views(steps@),
                s[v as int] == step@,
                k <= step.deps@.len(),
                r@ == before + dep_edges(s, v, k as nat),
                edges_within(r@, n as nat),
            decreases step.deps@.len() - k,
        {
            proof {
                lemma_last_template(s, step.worker, step.deps@[k as int], s.len());
            }
            if let Some(u) = find_template(steps, step.worker, step.deps[k]) {
                r.push((u, v));
            }
            proof {
                assert(r@ =~= before + dep_edges(s, v, (k + 1) as nat));
            }
            k += 1;
        }
        v += 1;
    }
    let ghost deps = r@;
    let mut u: usize = 0;
    proof {
        assert(r@ =~= deps + send_edges(s, 0));
    }
    while u < n
        invariant
            u <= n,
            n == steps@.len(),
            s == step_views(steps@),
            r@ == deps + send_edges(s, u as nat),
            edges_within(r@, n as nat),
        decreases n - u,
    {
        proof {
            assert(s[u as int] == steps@[u as int]@);
        }
        if steps[u].kind == WorkerEventKind::FlowSend {
            let worker: usize = steps[u].worker;
            let peer: usize = steps[u].peer;
            let k: usize = count_transfers(steps, WorkerEventKind::FlowSend, worker, peer, u);
            proof {
                lemma_nth_receive(s, peer, worker, k as nat, s.len());
            }
            if let Some(v) = find_receive(steps, peer, worker, k) {
                r.push((u, v));
            }
        }
        proof {
            assert(r@ =~= deps + send_edges(s, (u + 1) as nat));
        }
        u += 1;
    }
    r
}

/// What `derive_iteration_flows` answers: the flows of an iteration, or what is wrong.
pub open spec fn flows_derived(
    model: &JobModel,
    times: Map<u64, u64>,
    hosts_per_leaf: nat,
    r: Result<Vec<FlowTemplate>, PlanFault>,
) -> bool {
    let ws = model.views();
    if !events_ok(ws, times) {
        r == Err::<Vec<FlowTemplate>, PlanFault>(PlanFault::BadEvent(model.job_id))
    } else if !peers_known(ws, all_steps(ws, times, ws.len())) {
        r == Err::<Vec<FlowTemplate>, PlanFault>(PlanFault::UnknownWorker(model.job_id))
    } else {
        r is Ok && are_iteration_flows(ws, times, hosts_per_leaf, model.send_map@, r->Ok_0@)
    }
}

/// The flows of an iteration. `times` has the time that a transfer of each size takes.
pub fn derive_iteration_flows(model: &JobModel, hosts_per_leaf: usize, times: &HashMap<u64, u64>) -> (r: Result<
    Vec<FlowTemplate>,
    PlanFault,
>)
    requires
        hosts_per_leaf > 0,
    ensures
        flows_derived(model, times@, hosts_per_leaf as nat, r),
{
    let ghost ws = model.views();
    let steps = match model.list_steps(times) {
        Some(s) => s,
        None => {
            return Err(PlanFault::BadEvent(model.job_id));
        },
    };
    let ghost s = all_steps(ws, times@, ws.len());
    let n: usize = steps.len();
    let mut u: usize = 0;
    while u < n
        invariant
            u <= n,
            n == steps@.len(),
            ws == model.views(),
            s == step_views(steps@),
            events_ok(ws, times@),
            s == all_steps(ws, times@, ws.len()),
            forall|x: int|
                0 <= x < u && s[x].kind == WorkerEventKind::FlowSend ==> worker_at(ws, (#[trigger] s[x]).peer, ws.len()) is Some,
        decreases n - u,
    {
        proof {
            assert(s[u as int] == steps@[u as int]@);
        }
        if steps[u].kind == WorkerEventKind::FlowSend {
            if model.find_worker(steps[u].peer).is_none() {
                assert(worker_at(ws, s[u as int].peer, ws.len()) is None);
                return Err(PlanFault::UnknownWorker(model.job_id));
            }
        }
        u += 1;
    }
    let mut dur: Vec<u64> = Vec::new();
    let mut i: usize = 0;
    while i < n
        invariant
            i <= n,
            n == steps@.len(),
            s == step_views(steps@),
            dur@.len() == i,
            forall|x: int| 0 <= x < i ==> #[trigger] dur@[x] == s[x].duration_us,
        decreases n - i,
    {
        dur.push(steps[i].duration_us);
        i += 1;
    }
    proof {
        assert(dur@ =~= durations(s));
    }
    let edges = list_edges(&steps);
    let est = earliest_starts(&dur, &edges);
    let mut out: Vec<FlowTemplate> = Vec::new();
    let mut k: usize = 0;
    while k < n
        invariant
            k <= n,
            n == steps@.len(),
            hosts_per_leaf > 0,
            ws == model.views(),
            s == step_views(steps@),
            peers_known(ws, s),
            est@.len() == n,
            out@ == step_flows(ws, s, est@, hosts_per_leaf as nat, model.send_map@, k as nat),
        decreases n - k,
    {
        let step = &steps[k];
        proof {
            assert(s[k as int] == step@);
        }
        if step.kind == WorkerEventKind::FlowSend {
            let d: usize = match model.find_worker(step.peer) {
                Some(d) => d,
                None => 0,
            };
            proof {
                assert(worker_at(ws, s[k as int].peer, ws.len()) is Some);
                assert(ws[d as int] == model.workers@[d as int]@);
            }
            let dst_host: usize = model.workers[d].host_index;
            let job_flow_idx: usize = match model.send_map.get(&(step.worker, step.template_id)) {
                Some(x) => *x,
                None => step.template_id,
            };
            out.push(
                FlowTemplate {
                    src_host: step.host,
                    dst_host,
                    src_leaf: step.host / hosts_per_leaf,
                    dst_leaf: dst_host / hosts_per_leaf,
                    offset_us: est[k],
                    duration_us: step.duration_us,
                    job_flow_idx,
                },
            );
        }
        k += 1;
    }
    proof {
        let order = choose|order: Seq<usize>| #[trigger]
            is_run_order(edges@, dur@.len(), order) && are_earliest(edges@, dur@, order, est@);
        assert(is_run_order(step_edges(s), s.len(), order));
        assert(are_earliest(step_edges(s), durations(s), order, est@));
    }
    Ok(out)
}

} // verus!
