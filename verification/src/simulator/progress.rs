//! How the work of jobs goes on: what is ready starts, what has started ends, and iterations follow each other.

use vstd::multiset::Multiset;
use vstd::prelude::*;

use crate::network::NetworkSimulator;
use crate::simulator::context::WaitingFlow;
use crate::simulator::event_queue::{due_no_later, is_first_due, MLEvent, MLEventKind};
use crate::simulator::flow_scheduler::FlowScheduler;
use crate::simulator::flows::SimFault;
use crate::simulator::job_scheduler::JobScheduler;
use crate::simulator::ml_job::{ascending, JobState, MLJob};
use crate::simulator::ml_simulator::{due_before, MLSimulator};
use crate::simulator::ml_worker::{
    complete_event, ready_info, satisfy_all, EventState, EventView, FlowId, IterView, JobId, MLWorker, WorkerEventKind,
    WorkerId,
};
use crate::simulator::sim_state::{
    barrier_reached, barrier_step, barrier_views, event_finished, iteration_recorded, iterations_begun, queue_jobs,
    queue_ready, queue_workers, ready_event, work_scheduled, SimState,
};
use crate::simulator::system::SystemModule;
use crate::utils::data::{lemma_can_sort, strictly_ascending};

verus! {

/// The members of a finite set have an ascending listing.
pub proof fn lemma_ascending_lists(ids: Set<usize>)
    requires
        ids.finite(),
    ensures
        strictly_ascending(ascending(ids)),
        ascending(ids).to_set() == ids,
        forall|x: usize| #[trigger] ids.contains(x) ==> ascending(ids).contains(x),
{
    ids.lemma_to_seq_to_set_id();
    let v = ids.to_seq();
    lemma_to_seq_distinct(ids);
    lemma_can_sort(v);
    let s = choose|s: Seq<usize>| #[trigger] strictly_ascending(s) && s.to_set() == v.to_set() && s.len() == v.len();
    assert(strictly_ascending(s) && s.to_set() == ids);
    assert forall|x: usize| #[trigger] ids.contains(x) implies ascending(ids).contains(x) by {
        assert(ascending(ids).to_set().contains(x));
    }
}

proof fn lemma_to_seq_distinct(ids: Set<usize>)
    requires
        ids.finite(),
    ensures
        ids.to_seq().no_duplicates(),
    decreases ids.len(),
{
    if ids.len() > 0 {
        let x = ids.choose();
        let rest = ids.remove(x);
        lemma_to_seq_distinct(rest);
        rest.lemma_to_seq_to_set_id();
        let v = ids.to_seq();
        let w = rest.to_seq();
        assert(v =~= Seq::<usize>::empty().push(x) + w);
        assert forall|i: int, j: int| 0 <= i < v.len() && 0 <= j < v.len() && i != j implies v[i] != v[j] by {
            if i > 0 {
                assert(v[i] == w[i - 1]);
                assert(w.to_set().contains(w[i - 1]));
            }
            if j > 0 {
                assert(v[j] == w[j - 1]);
                assert(w.to_set().contains(w[j - 1]));
            }
        }
    }
}

/// What becomes of a ready event of a worker: a computation ends when its time has passed, and a transfer is
/// ready now.
pub open spec fn is_start_of(x: MLEvent, now_us: u64, job_id: JobId, worker_id: WorkerId, e: EventView) -> bool {
    &&& x.job_id == Some(job_id) && x.worker_id == Some(worker_id) && x.event_id == Some(e.id)
    &&& x.flow_id is None && x.timer_id is None
    &&& match e.kind {
        WorkerEventKind::Compute => x.kind == MLEventKind::ComputeCompletion && (now_us + duration_us(e) <= u64::MAX
            ==> x.time_us == now_us + duration_us(e)),
        WorkerEventKind::FlowSend => x.kind == MLEventKind::FlowSendReady && x.time_us == now_us,
        WorkerEventKind::FlowReceive => x.kind == MLEventKind::FlowReceiveReady && x.time_us == now_us,
    }
}

/// How long an event computes.
pub open spec fn duration_us(e: EventView) -> u64 {
    if e.compute is Some {
        e.compute->0.duration_us
    } else {
        0
    }
}

proof fn lemma_ready_event(now_us: u64, job_id: JobId, worker_id: WorkerId, e: EventView)
    ensures
        is_start_of(ready_event(now_us, job_id, worker_id, ready_info(e)), now_us, job_id, worker_id, e),
{
}

proof fn lemma_queue_ready(
    q: Multiset<MLEvent>,
    now_us: u64,
    job_id: JobId,
    worker_id: WorkerId,
    ready: Seq<EventView>,
    n: nat,
    x: MLEvent,
)
    requires
        n <= ready.len(),
    ensures
        q.count(x) <= queue_ready(q, now_us, job_id, worker_id, ready, n).count(x),
        forall|i: int|
            0 <= i < n ==> queue_ready(q, now_us, job_id, worker_id, ready, n).count(
                ready_event(now_us, job_id, worker_id, ready_info(#[trigger] ready[i])),
            ) > 0,
        q.count(x) < queue_ready(q, now_us, job_id, worker_id, ready, n).count(x) ==> exists|i: int|
            0 <= i < n && is_start_of(x, now_us, job_id, worker_id, #[trigger] ready[i]),
    decreases n,
{
    if n > 0 {
        lemma_queue_ready(q, now_us, job_id, worker_id, ready, (n - 1) as nat, x);
        lemma_ready_event(now_us, job_id, worker_id, ready[n - 1]);
        let before = queue_ready(q, now_us, job_id, worker_id, ready, (n - 1) as nat);
        let after = queue_ready(q, now_us, job_id, worker_id, ready, n);
        let new = ready_event(now_us, job_id, worker_id, ready_info(ready[n - 1]));
        assert(after == before.insert(new));
        if q.count(x) < before.count(x) {
            let i = choose|i: int| 0 <= i < n - 1 && is_start_of(x, now_us, job_id, worker_id, #[trigger] ready[i]);
            assert(0 <= i < n && is_start_of(x, now_us, job_id, worker_id, ready[i]));
        } else if x == new {
            assert(is_start_of(x, now_us, job_id, worker_id, ready[n - 1]));
        }
        assert forall|i: int| 0 <= i < n implies after.count(
            ready_event(now_us, job_id, worker_id, ready_info(#[trigger] ready[i])),
        ) > 0 by {
            if i < n - 1 {
                assert(before.count(ready_event(now_us, job_id, worker_id, ready_info(ready[i]))) > 0);
            }
        }
    }
}

/// The event is what becomes of a ready event of a worker of the job.
pub open spec fn is_start_in(x: MLEvent, now_us: u64, job_id: JobId, workers: Map<WorkerId, MLWorker>) -> bool {
    exists|w: WorkerId, i: int| #[trigger]
        is_start_at(x, now_us, job_id, workers, w, i)
}

/// The event is what becomes of the ready event with a number of a worker of the job.
pub open spec fn is_start_at(
    x: MLEvent,
    now_us: u64,
    job_id: JobId,
    workers: Map<WorkerId, MLWorker>,
    w: WorkerId,
    i: int,
) -> bool {
    &&& workers.contains_key(w)
    &&& 0 <= i < workers[w].iter().ready.len()
    &&& is_start_of(x, now_us, job_id, w, workers[w].iter().ready[i])
}

proof fn lemma_queue_workers(
    q: Multiset<MLEvent>,
    now_us: u64,
    job_id: JobId,
    workers: Map<WorkerId, MLWorker>,
    ids: Seq<WorkerId>,
    n: nat,
    x: MLEvent,
)
    requires
        n <= ids.len(),
        forall|k: int| 0 <= k < n ==> workers.contains_key(#[trigger] ids[k]),
    ensures
        q.count(x) <= queue_workers(q, now_us, job_id, workers, ids, n).count(x),
        forall|k: int, i: int|
            0 <= k < n && 0 <= i < workers[ids[k]].iter().ready.len() ==> queue_workers(q, now_us, job_id, workers, ids, n).count(
                ready_event(now_us, job_id, ids[k], ready_info(#[trigger] workers[ids[k]].iter().ready[i])),
            ) > 0,
        q.count(x) < queue_workers(q, now_us, job_id, workers, ids, n).count(x) ==> is_start_in(x, now_us, job_id, workers),
    decreases n,
{
    if n > 0 {
        lemma_queue_workers(q, now_us, job_id, workers, ids, (n - 1) as nat, x);
        let before = queue_workers(q, now_us, job_id, workers, ids, (n - 1) as nat);
        let after = queue_workers(q, now_us, job_id, workers, ids, n);
        let w = ids[n - 1];
        let ready = workers[w].iter().ready;
        assert(workers.contains_key(ids[n - 1]));
        lemma_queue_ready(before, now_us, job_id, w, ready, ready.len(), x);
        if before.count(x) < after.count(x) {
            let i = choose|i: int| 0 <= i < ready.len() && is_start_of(x, now_us, job_id, w, #[trigger] ready[i]);
            assert(is_start_at(x, now_us, job_id, workers, w, i));
        }
        assert forall|k: int, i: int| 0 <= k < n && 0 <= i < workers[ids[k]].iter().ready.len() implies after.count(
            ready_event(now_us, job_id, ids[k], ready_info(#[trigger] workers[ids[k]].iter().ready[i])),
        ) > 0 by {
            let y = ready_event(now_us, job_id, ids[k], ready_info(workers[ids[k]].iter().ready[i]));
            if k < n - 1 {
                assert(before.count(y) > 0);
                lemma_queue_ready(before, now_us, job_id, w, ready, ready.len(), y);
            } else {
                assert(ready[i] == workers[ids[k]].iter().ready[i]);
            }
        }
    }
}

/// The job runs and is not paused.
pub open spec fn is_at_work(s: &SimState, j: JobId) -> bool {
    s.jobs@.contains_key(j) && s.jobs@[j].state == JobState::Running && !s.jobs_migrating@.contains(j)
}

/// All workers of the job are through all their iterations.
pub open spec fn all_through(job: MLJob) -> bool {
    forall|w: WorkerId| #[trigger]
        job.workers@.contains_key(w) ==> job.workers@[w].current_iteration >= job.workers@[w].total_iterations
}

/// The event says that the job is complete.
pub open spec fn is_end_of(x: MLEvent, now_us: u64, j: JobId) -> bool {
    x.time_us == now_us && x.kind == MLEventKind::JobComplete && x.job_id == Some(j)
}

proof fn lemma_queue_jobs(
    q: Multiset<MLEvent>,
    s: &SimState,
    ids: Seq<JobId>,
    n: nat,
    x: MLEvent,
)
    requires
        n <= ids.len(),
        forall|j: JobId| #[trigger] s.jobs@.contains_key(j) ==> s.jobs@[j].workers@.dom().finite(),
    ensures
        q.count(x) <= queue_jobs(q, s.now_us, s.jobs@, s.jobs_migrating@, ids, n).count(x),
        forall|k: int, w: WorkerId, i: int|
            0 <= k < n && is_at_work(s, ids[k]) && s.jobs@[ids[k]].workers@.contains_key(w) && 0 <= i
                < s.jobs@[ids[k]].workers@[w].iter().ready.len() ==> queue_jobs(
                q,
                s.now_us,
                s.jobs@,
                s.jobs_migrating@,
                ids,
                n,
            ).count(
                ready_event(
                    s.now_us,
                    ids[k],
                    w,
                    ready_info(#[trigger] s.jobs@[ids[k]].workers@[w].iter().ready[i]),
                ),
            ) > 0,
        forall|k: int|
            0 <= k < n && is_at_work(s, #[trigger] ids[k]) && all_through(s.jobs@[ids[k]]) ==> queue_jobs(
                q,
                s.now_us,
                s.jobs@,
                s.jobs_migrating@,
                ids,
                n,
            ).count(MLEvent::of_job(s.now_us, MLEventKind::JobComplete, ids[k])) > 0,
        q.count(x) < queue_jobs(q, s.now_us, s.jobs@, s.jobs_migrating@, ids, n).count(x) ==> exists|j: JobId| #[trigger]
            is_at_work(s, j) && (is_start_in(x, s.now_us, j, s.jobs@[j].workers@) || (is_end_of(x, s.now_us, j) && all_through(
                s.jobs@[j],
            ))),
    decreases n,
{
    if n > 0 {
        let (now_us, jobs, paused) = (s.now_us, s.jobs@, s.jobs_migrating@);
        lemma_queue_jobs(q, s, ids, (n - 1) as nat, x);
        let before = queue_jobs(q, now_us, jobs, paused, ids, (n - 1) as nat);
        let after = queue_jobs(q, now_us, jobs, paused, ids, n);
        let j = ids[n - 1];
        if is_at_work(s, j) {
            let workers = jobs[j].workers@;
            let list = ascending(workers.dom());
            lemma_ascending_lists(workers.dom());
            assert forall|k: int| 0 <= k < list.len() implies workers.contains_key(#[trigger] list[k]) by {
                assert(list.to_set().contains(list[k]));
            }
            let mid = queue_workers(before, now_us, j, workers, list, list.len());
            lemma_queue_workers(before, now_us, j, workers, list, list.len(), x);
            assert(all_through(jobs[j]) == crate::simulator::ml_job::workers_finished(workers));
            let done = MLEvent::of_job(now_us, MLEventKind::JobComplete, j);
            if before.count(x) < after.count(x) {
                if before.count(x) == mid.count(x) {
                    assert(x == done);
                    assert(is_end_of(x, now_us, j));
                }
                assert(is_at_work(s, j));
            }
            assert forall|k: int, w: WorkerId, i: int|
                0 <= k < n && is_at_work(s, ids[k]) && jobs[ids[k]].workers@.contains_key(w) && 0 <= i
                    < jobs[ids[k]].workers@[w].iter().ready.len() implies after.count(
                ready_event(now_us, ids[k], w, ready_info(#[trigger] jobs[ids[k]].workers@[w].iter().ready[i])),
            ) > 0 by {
                let y = ready_event(now_us, ids[k], w, ready_info(jobs[ids[k]].workers@[w].iter().ready[i]));
                lemma_queue_workers(before, now_us, j, workers, list, list.len(), y);
                if k < n - 1 {
                    assert(before.count(y) > 0);
                } else {
                    assert(list.contains(w));
                    let p = choose|p: int| 0 <= p < list.len() && list[p] == w;
                    assert(mid.count(ready_event(now_us, j, list[p], ready_info(workers[list[p]].iter().ready[i]))) > 0);
                }
            }
            assert forall|k: int| 0 <= k < n && is_at_work(s, #[trigger] ids[k]) && all_through(jobs[ids[k]]) implies after.count(
                MLEvent::of_job(now_us, MLEventKind::JobComplete, ids[k]),
            ) > 0 by {
                let y = MLEvent::of_job(now_us, MLEventKind::JobComplete, ids[k]);
                lemma_queue_workers(before, now_us, j, workers, list, list.len(), y);
                if k < n - 1 {
                    assert(before.count(y) > 0);
                }
            }
        } else {
            assert forall|k: int, w: WorkerId, i: int|
                0 <= k < n && is_at_work(s, ids[k]) && jobs[ids[k]].workers@.contains_key(w) && 0 <= i
                    < jobs[ids[k]].workers@[w].iter().ready.len() implies after.count(
                ready_event(now_us, ids[k], w, ready_info(#[trigger] jobs[ids[k]].workers@[w].iter().ready[i])),
            ) > 0 by {
                assert(k < n - 1);
                assert(before.count(ready_event(now_us, ids[k], w, ready_info(jobs[ids[k]].workers@[w].iter().ready[i]))) > 0);
            }
        }
    }
}

/// What is ready in a job at work starts: a computation ends when its time has passed, a transfer is ready now.
pub proof fn lemma_ready_work_starts(before: &SimState, after: &SimState, j: JobId, w: WorkerId, i: int)
    requires
        work_scheduled(before, after),
        before.jobs@.dom().finite(),
        forall|j: JobId| #[trigger] before.jobs@.contains_key(j) ==> before.jobs@[j].workers@.dom().finite(),
        is_at_work(before, j),
        before.jobs@[j].workers@.contains_key(w),
        0 <= i < before.jobs@[j].workers@[w].iter().ready.len(),
    ensures
        exists|x: MLEvent| #[trigger]
            after.event_queue@.count(x) > 0 && is_start_of(
                x,
                before.now_us,
                j,
                w,
                before.jobs@[j].workers@[w].iter().ready[i],
            ),
        after.jobs@[j].workers@[w].iter().ready.len() == 0,
        after.jobs@[j].workers@[w].iter().running.contains_key(before.jobs@[j].workers@[w].iter().ready[i].id),
{
    let ids = ascending(before.jobs@.dom());
    let e = before.jobs@[j].workers@[w].iter().ready[i];
    let x = ready_event(before.now_us, j, w, ready_info(e));
    lemma_ascending_lists(before.jobs@.dom());
    assert(before.jobs@.dom().contains(j));
    let k = choose|k: int| 0 <= k < ids.len() && ids[k] == j;
    lemma_queue_jobs(before.event_queue@, before, ids, ids.len(), x);
    assert(after.event_queue@.count(
        ready_event(before.now_us, ids[k], w, ready_info(before.jobs@[ids[k]].workers@[w].iter().ready[i])),
    ) > 0);
    lemma_ready_event(before.now_us, j, w, e);
    let s = before.jobs@[j].workers@[w].iter();
    lemma_run_all_has(s.running, s.ready, s.ready.len(), i);
}

proof fn lemma_run_all_has(m: Map<usize, EventView>, list: Seq<EventView>, n: nat, i: int)
    requires
        0 <= i < n <= list.len(),
    ensures
        crate::simulator::ml_worker::run_all(m, list, n).contains_key(list[i].id),
    decreases n,
{
    if i < n - 1 {
        lemma_run_all_has(m, list, (n - 1) as nat, i);
    }
}

/// Nothing else starts: what is new among the events comes from a ready event of a worker of a job at work, or
/// says that a job at work is complete because all of its workers are through.
pub proof fn lemma_nothing_else_starts(before: &SimState, after: &SimState, x: MLEvent)
    requires
        work_scheduled(before, after),
        forall|j: JobId| #[trigger] before.jobs@.contains_key(j) ==> before.jobs@[j].workers@.dom().finite(),
        before.event_queue@.count(x) < after.event_queue@.count(x),
    ensures
        exists|j: JobId| #[trigger]
            is_at_work(before, j) && (is_start_in(x, before.now_us, j, before.jobs@[j].workers@) || (is_end_of(
                x,
                before.now_us,
                j,
            ) && all_through(before.jobs@[j]))),
{
    let ids = ascending(before.jobs@.dom());
    lemma_queue_jobs(before.event_queue@, before, ids, ids.len(), x);
}

/// A job at work is complete as soon as all of its workers are through, and not before. It is complete now, and
/// that is in the event queue.
pub proof fn lemma_complete_when_through(before: &SimState, after: &SimState, j: JobId)
    requires
        work_scheduled(before, after),
        before.jobs@.dom().finite(),
        forall|j: JobId| #[trigger] before.jobs@.contains_key(j) ==> before.jobs@[j].workers@.dom().finite(),
        is_at_work(before, j),
    ensures
        (after.jobs@[j].state == JobState::Completed) == all_through(before.jobs@[j]),
        all_through(before.jobs@[j]) ==> after.jobs@[j].completion_time_us == Some(before.now_us) && exists|x: MLEvent| #[trigger]
            after.event_queue@.count(x) > 0 && is_end_of(x, before.now_us, j),
        !all_through(before.jobs@[j]) ==> after.jobs@[j].state == JobState::Running
            && after.jobs@[j].completion_time_us == before.jobs@[j].completion_time_us,
{
    let ids = ascending(before.jobs@.dom());
    lemma_ascending_lists(before.jobs@.dom());
    assert(before.jobs@.dom().contains(j));
    let k = choose|k: int| 0 <= k < ids.len() && ids[k] == j;
    let x = MLEvent::of_job(before.now_us, MLEventKind::JobComplete, j);
    lemma_queue_jobs(before.event_queue@, before, ids, ids.len(), x);
    assert(is_at_work(before, ids[k]));
    assert(all_through(before.jobs@[j]) == crate::simulator::ml_job::workers_finished(before.jobs@[j].workers@));
    if all_through(before.jobs@[j]) {
        assert(after.event_queue@.count(x) > 0 && is_end_of(x, before.now_us, j));
    }
}

/// Jobs that are paused, wait or are done stand still.
pub proof fn lemma_others_stand_still(before: &SimState, after: &SimState, j: JobId)
    requires
        work_scheduled(before, after),
        before.jobs@.contains_key(j),
        !is_at_work(before, j),
    ensures
        after.jobs@[j] == before.jobs@[j],
{
}

/// An event of a worker that ends no longer runs and counts as completed. The worker is in its next iteration if
/// nothing is left of this one, else in the same.
pub proof fn lemma_event_ends(before: MLWorker, after: MLWorker, id: usize)
    requires
        event_finished(before, after, id),
        before.iter().running.contains_key(id),
    ensures
        !after.iter().running.contains_key(id),
        after.iter().running == before.iter().running.remove(id),
        after.iter().completed == before.iter().completed.push(
            EventView { state: EventState::Completed, ..before.iter().running[id] },
        ),
        after.current_iteration == before.current_iteration + if after.iter().waiting.dom() == Set::<usize>::empty()
            && after.iter().ready.len() == 0 && after.iter().running.dom() == Set::<usize>::empty() {
            1int
        } else {
            0int
        },
{
    let s = before.iter();
    let moved = IterView {
        running: s.running.remove(id),
        completed: s.completed.push(EventView { state: EventState::Completed, ..s.running[id] }),
        dependents: s.dependents.remove(id),
        ..s
    };
    if s.dependents.contains_key(id) {
        lemma_satisfy_keeps(moved, s.dependents[id], s.dependents[id].len());
    }
    let t = after.iter();
    assert(complete_event(s, id) == t);
    assert((t.waiting == Map::<usize, EventView>::empty()) == (t.waiting.dom() == Set::<usize>::empty())) by {
        if t.waiting.dom() == Set::<usize>::empty() {
            assert(t.waiting =~= Map::<usize, EventView>::empty());
        }
    }
    assert((t.running == Map::<usize, EventView>::empty()) == (t.running.dom() == Set::<usize>::empty())) by {
        if t.running.dom() == Set::<usize>::empty() {
            assert(t.running =~= Map::<usize, EventView>::empty());
        }
    }
}

proof fn lemma_satisfy_keeps(s: IterView, list: Seq<usize>, k: nat)
    ensures
        satisfy_all(s, list, k).running == s.running,
        satisfy_all(s, list, k).completed == s.completed,
    decreases k,
{
    if k > 0 {
        lemma_satisfy_keeps(s, list, (k - 1) as nat);
    }
}

/// A worker of a job has ended an event, and nothing else has happened in the jobs.
pub open spec fn ended_in(
    before: Map<JobId, MLJob>,
    after: Map<JobId, MLJob>,
    job_id: JobId,
    worker_id: WorkerId,
    event_id: usize,
) -> bool {
    &&& before.contains_key(job_id) && before[job_id].workers@.contains_key(worker_id)
    &&& before[job_id].workers@[worker_id].iter().running.contains_key(event_id)
    &&& !after[job_id].workers@[worker_id].iter().running.contains_key(event_id)
    &&& after[job_id].workers@[worker_id].iter().completed
        == before[job_id].workers@[worker_id].iter().completed.push(
        EventView {
            state: EventState::Completed,
            ..before[job_id].workers@[worker_id].iter().running[event_id]
        },
    )
    &&& after.dom() == before.dom()
    &&& forall|j: JobId| #[trigger] before.contains_key(j) && j != job_id ==> after[j] == before[j]
    &&& forall|w: WorkerId| #[trigger]
        before[job_id].workers@.contains_key(w) && w != worker_id ==> after[job_id].workers@[w]
            == before[job_id].workers@[w]
}

proof fn lemma_advances<S: JobScheduler, FS: FlowScheduler, M: SystemModule<S, FS>, N: NetworkSimulator>(
    before: MLSimulator<S, FS, M, N>,
    after: MLSimulator<S, FS, M, N>,
    job_id: JobId,
    worker_id: WorkerId,
    event_id: usize,
) -> (mid: MLSimulator<S, FS, M, N>)
    requires
        before.advances(after, job_id, worker_id, event_id),
        before.state.jobs@.contains_key(job_id),
        before.state.jobs@[job_id].workers@.contains_key(worker_id),
        before.state.jobs@[job_id].workers@[worker_id].iter().running.contains_key(event_id),
    ensures
        ended_in(before.state.jobs@, mid.state.jobs@, job_id, worker_id, event_id),
        mid.flow_scheduler == before.flow_scheduler,
        mid.network_sim == before.network_sim,
        mid.state.context == before.state.context,
        before.is_last_event(job_id, worker_id, event_id) ==> mid.marks_iteration(
            after,
            job_id,
            worker_id,
            before.state.jobs@[job_id].workers@[worker_id].current_iteration,
        ),
        !before.is_last_event(job_id, worker_id, event_id) ==> after == mid,
{
    let mid = choose|mid: MLSimulator<S, FS, M, N>|
        {
            &&& #[trigger] before.ends_event(mid, job_id, worker_id, event_id)
            &&& if before.is_last_event(job_id, worker_id, event_id) {
                mid.marks_iteration(
                    after,
                    job_id,
                    worker_id,
                    before.state.jobs@[job_id].workers@[worker_id].current_iteration,
                )
            } else {
                after == mid
            }
        };
    lemma_event_ends(
        before.state.jobs@[job_id].workers@[worker_id],
        mid.state.jobs@[job_id].workers@[worker_id],
        event_id,
    );
    assert(mid.state.jobs@.dom() =~= before.state.jobs@.dom());
    mid
}

/// A computation that is through ends the event of its worker.
pub proof fn lemma_computation_ends<S: JobScheduler, FS: FlowScheduler, M: SystemModule<S, FS>, N: NetworkSimulator>(
    before: MLSimulator<S, FS, M, N>,
    after: MLSimulator<S, FS, M, N>,
    job_id: JobId,
    worker_id: WorkerId,
    event_id: usize,
)
    requires
        before.computes(after, job_id, worker_id, event_id, Ok(())),
    ensures
        exists|mid: MLSimulator<S, FS, M, N>| #[trigger]
            ended_in(before.state.jobs@, mid.state.jobs@, job_id, worker_id, event_id) && (after == mid || mid.marks_iteration(
                after,
                job_id,
                worker_id,
                before.state.jobs@[job_id].workers@[worker_id].current_iteration,
            )),
{
    let m = choose|m: MLSimulator<S, FS, M, N>| #[trigger]
        before.ends_computation(m, job_id, worker_id) && m.advances(after, job_id, worker_id, event_id);
    let mid = lemma_advances(m, after, job_id, worker_id, event_id);
    assert(ended_in(before.state.jobs@, mid.state.jobs@, job_id, worker_id, event_id));
}

/// A flow that is through ends the send of the worker that it came from and then the receive of the worker that
/// it went to; it is no longer kept.
pub proof fn lemma_flow_ends_both<S: JobScheduler, FS: FlowScheduler, M: SystemModule<S, FS>, N: NetworkSimulator>(
    before: MLSimulator<S, FS, M, N>,
    after: MLSimulator<S, FS, M, N>,
    flow_id: FlowId,
    w: WaitingFlow,
)
    requires
        before.ends_flow(after, flow_id, Ok(())),
        !before.state.active_migration_flows@.contains_key(flow_id),
        w == before.state.context.waiting_flows@[flow_id],
    ensures
        before.state.context.waiting_flows@.contains_key(flow_id),
        exists|a: MLSimulator<S, FS, M, N>, b: MLSimulator<S, FS, M, N>, c: MLSimulator<S, FS, M, N>|
                {
                    &&& #[trigger] ended_in(before.state.jobs@, a.state.jobs@, w.0, w.3, w.5)
                    &&& !a.state.context.waiting_flows@.contains_key(flow_id)
                    &&& #[trigger] carries_on(
                        a,
                        b,
                        w.0,
                        w.3,
                        before.state.jobs@[w.0].workers@[w.3].current_iteration,
                    )
                    &&& #[trigger] ended_in(b.state.jobs@, c.state.jobs@, w.0, w.4, w.6)
                    &&& carries_on(c, after, w.0, w.4, b.state.jobs@[w.0].workers@[w.4].current_iteration)
                },
{
    let (a, b, sent) = choose|a: MLSimulator<S, FS, M, N>, b: MLSimulator<S, FS, M, N>, sent: Result<(), SimFault>|
        {
            &&& #[trigger] before.takes_flow(a, flow_id)
            &&& #[trigger] a.ends_send(b, w.0, w.3, w.5, sent)
            &&& if sent is Ok {
                b.ends_receive(after, w.0, w.4, w.6, Ok(()))
            } else {
                after == b && Ok::<(), SimFault>(()) == sent
            }
        };
    let (x, y) = choose|x: MLSimulator<S, FS, M, N>, y: MLSimulator<S, FS, M, N>|
        {
            &&& #[trigger] a.counts_sent(x, w.0, w.3, w.5)
            &&& #[trigger] x.advances(y, w.0, w.3, w.5)
            &&& if a.is_last_event(w.0, w.3, w.5) {
                crate::simulator::flows::sent_reset(&y.state, &b.state, w.0, w.3) && b == y.with_state(b.state)
            } else {
                b == y
            }
        };
    let p = lemma_advances(x, y, w.0, w.3, w.5);
    assert(x.state.jobs@ == before.state.jobs@);
    assert(ended_in(before.state.jobs@, p.state.jobs@, w.0, w.3, w.5));
    let q = lemma_advances(b, after, w.0, w.4, w.6);
    assert(ended_in(b.state.jobs@, q.state.jobs@, w.0, w.4, w.6));
    assert(b.state.jobs == y.state.jobs);
    assert(carries_on(p, b, w.0, w.3, before.state.jobs@[w.0].workers@[w.3].current_iteration));
    assert(carries_on(q, after, w.0, w.4, b.state.jobs@[w.0].workers@[w.4].current_iteration));
}

/// A worker has ended an event. If that was the last of its iteration, this is marked; else the jobs stay as they are.
pub open spec fn carries_on<S: JobScheduler, FS: FlowScheduler, M: SystemModule<S, FS>, N: NetworkSimulator>(
    before: MLSimulator<S, FS, M, N>,
    after: MLSimulator<S, FS, M, N>,
    job_id: JobId,
    worker_id: WorkerId,
    iter_idx: usize,
) -> bool {
    ||| after.state.jobs == before.state.jobs
    ||| exists|end: MLSimulator<S, FS, M, N>| #[trigger]
        before.marks_iteration(end, job_id, worker_id, iter_idx) && after.state.jobs == end.state.jobs
}

/// While not all workers of a job have completed an iteration, the barrier holds; once the last has, it opens.
pub proof fn lemma_barrier_waits_for_all(
    through: Set<WorkerId>,
    workers: Set<WorkerId>,
    worker_id: WorkerId,
    iter_idx: usize,
)
    requires
        workers.finite(),
        through.subset_of(workers),
        workers.contains(worker_id),
    ensures
        barrier_reached(Some((iter_idx, through)), workers.len(), worker_id, iter_idx).1 == (through.insert(worker_id)
            == workers),
        !barrier_reached(Some((iter_idx, through)), workers.len(), worker_id, iter_idx).1 ==> barrier_reached(
            Some((iter_idx, through)),
            workers.len(),
            worker_id,
            iter_idx,
        ).0 == (iter_idx, through.insert(worker_id)),
        barrier_reached(None, workers.len(), worker_id, iter_idx).1 == (set![worker_id] == workers),
        !barrier_reached(None, workers.len(), worker_id, iter_idx).1 ==> barrier_reached(
            None,
            workers.len(),
            worker_id,
            iter_idx,
        ).0 == (iter_idx, set![worker_id]),
{
    vstd::set_lib::lemma_len_subset(through, workers);
    let more = through.insert(worker_id);
    vstd::set_lib::lemma_len_subset(more, workers);
    if more.len() == workers.len() {
        vstd::set_lib::lemma_subset_equality(more, workers);
    }
    let one = set![worker_id];
    assert(one =~= Set::<WorkerId>::empty().insert(worker_id));
    assert(one.subset_of(workers));
    assert(one.len() == 1);
    if workers.len() == 1 {
        vstd::set_lib::lemma_subset_equality(one, workers);
    }
}

/// An iteration is complete with its last worker. The next iteration of a job begins then, for all workers that
/// have one left, and not before; unless the job is about to move.
pub proof fn lemma_iterations_follow<S: JobScheduler, FS: FlowScheduler, M: SystemModule<S, FS>, N: NetworkSimulator>(
    before: MLSimulator<S, FS, M, N>,
    after: MLSimulator<S, FS, M, N>,
    job_id: JobId,
    worker_id: WorkerId,
    iter_idx: usize,
    through: Set<WorkerId>,
)
    requires
        before.marks_iteration(after, job_id, worker_id, iter_idx),
        before.state.jobs@.contains_key(job_id),
        before.state.jobs@[job_id].workers@.dom().finite(),
        before.state.jobs@[job_id].workers@.contains_key(worker_id),
        !before.state.pending_job_migrations@.contains_key(job_id),
        barrier_views(before.state.worker_iter_barrier@).contains_key(job_id),
        barrier_views(before.state.worker_iter_barrier@)[job_id] == (iter_idx, through),
        through.subset_of(before.state.jobs@[job_id].workers@.dom()),
    ensures
        through.insert(worker_id) != before.state.jobs@[job_id].workers@.dom() ==> after.state.jobs@ == before.state.jobs@
            && after.state.event_queue == before.state.event_queue,
        through.insert(worker_id) == before.state.jobs@[job_id].workers@.dom() ==> {
            &&& after.state.jobs@.dom() == before.state.jobs@.dom()
            &&& forall|w: WorkerId| #[trigger]
                before.state.jobs@[job_id].workers@.contains_key(w) ==> begins_next(
                    before.state.jobs@[job_id].workers@[w],
                    after.state.jobs@[job_id].workers@[w],
                    before.state.now_us,
                )
            &&& forall|j: JobId| #[trigger]
                before.state.jobs@.contains_key(j) && j != job_id ==> after.state.jobs@[j] == before.state.jobs@[j]
        },
{
    let workers = before.state.jobs@[job_id].workers@;
    lemma_barrier_waits_for_all(through, workers.dom(), worker_id, iter_idx);
    let mid = choose|mid: MLSimulator<S, FS, M, N>|
        {
            &&& #[trigger] before.notes_iteration(mid, job_id, worker_id, iter_idx)
            &&& if !barrier_step(&before.state, job_id, worker_id, iter_idx).1 {
                after == mid
            } else if before.state.pending_job_migrations@.contains_key(job_id) {
                mid.reaches_barrier(after, job_id)
            } else {
                iterations_begun(&mid.state, &after.state, job_id, false) && after == mid.with_state(after.state)
            }
        };
    assert(iteration_recorded(&before.state, &mid.state, job_id, worker_id, iter_idx));
    if through.insert(worker_id) == workers.dom() {
        lemma_round_begins(&mid.state, &after.state, job_id);
        assert(after.state.jobs@.dom() =~= before.state.jobs@.dom());
    }
}

/// The worker begins its next iteration with all events of its template before it, none of them run, if it has an
/// iteration left; else it stays as it is.
pub open spec fn begins_next(before: MLWorker, after: MLWorker, now_us: u64) -> bool {
    if before.current_iteration < before.total_iterations {
        &&& after.current_iteration == before.current_iteration
        &&& after.templates() == before.templates()
        &&& after.host_index == before.host_index
        &&& after.last_iteration_start_time_us == Some(now_us)
        &&& after.iter().running.dom() == Set::<usize>::empty()
        &&& after.iter().completed.len() == 0
    } else {
        after == before
    }
}

proof fn lemma_round_begins(before: &SimState, after: &SimState, job_id: JobId)
    requires
        iterations_begun(before, after, job_id, false),
        before.jobs@[job_id].workers@.dom().finite(),
    ensures
        forall|w: WorkerId| #[trigger]
            before.jobs@[job_id].workers@.contains_key(w) ==> begins_next(
                before.jobs@[job_id].workers@[w],
                after.jobs@[job_id].workers@[w],
                before.now_us,
            ),
{
    let workers = before.jobs@[job_id].workers@;
    let ids = ascending(workers.dom());
    lemma_ascending_lists(workers.dom());
    assert forall|w: WorkerId| #[trigger] workers.contains_key(w) implies begins_next(
        workers[w],
        after.jobs@[job_id].workers@[w],
        before.now_us,
    ) by {
        assert(workers.dom().contains(w));
        let i = choose|i: int| 0 <= i < ids.len() && ids[i] == w;
        assert(ids[i] == w);
        if workers[w].current_iteration < workers[w].total_iterations {
            assert(after.jobs@[job_id].workers@[w].iter().running =~= Map::<usize, EventView>::empty());
        }
    }
}

/// The simulator processes events by time: one from its queue only if it is due before the next of the network, and
/// then the one that is due first.
pub proof fn lemma_first_due_first<S: JobScheduler, FS: FlowScheduler, M: SystemModule<S, FS>, N: NetworkSimulator>(
    before: MLSimulator<S, FS, M, N>,
    after: MLSimulator<S, FS, M, N>,
    network_time_us: u64,
    r: Result<Option<MLEventKind>, SimFault>,
)
    requires
        before.takes_turn(after, network_time_us, r),
    ensures
        (exists|x: MLEvent| #[trigger] before.state.event_queue@.count(x) > 0 && x.time_us < network_time_us) ==> exists|
            e: MLEvent,
            taken: MLSimulator<S, FS, M, N>,
        |
            {
                &&& #[trigger] before.takes_event(taken, e)
                &&& before.state.event_queue@.count(e) > 0
                &&& forall|x: MLEvent| #[trigger] before.state.event_queue@.count(x) > 0 ==> e.time_us <= x.time_us
                &&& e.time_us < network_time_us
                &&& taken.state.now_us == e.time_us
                &&& taken.state.event_queue@ == before.state.event_queue@.remove(e)
                &&& r is Ok ==> r == Ok::<Option<MLEventKind>, SimFault>(Some(e.kind))
            },
        !(exists|x: MLEvent| #[trigger] before.state.event_queue@.count(x) > 0 && x.time_us < network_time_us)
            ==> after.state.jobs@ == before.state.jobs@ && (r == Ok::<Option<MLEventKind>, SimFault>(None) || r == Ok::<
            Option<MLEventKind>,
            SimFault,
        >(Some(MLEventKind::NetworkEvent))),
{
    let q = before.state.event_queue@;
    if due_before(q, network_time_us) {
        let (taken, applied, e, done) = choose|
            taken: MLSimulator<S, FS, M, N>,
            applied: MLSimulator<S, FS, M, N>,
            e: MLEvent,
            done: Result<(), SimFault>,
        |
            {
                &&& #[trigger] before.takes_event(taken, e)
                &&& #[trigger] taken.applies(applied, e, done)
                &&& match done {
                    Ok(()) => {
                        &&& r == Ok::<Option<MLEventKind>, SimFault>(Some(e.kind))
                        &&& work_scheduled(&applied.state, &after.state)
                        &&& after == applied.with_state(after.state)
                    },
                    Err(f) => r == Err::<Option<MLEventKind>, SimFault>(f) && after == applied,
                }
            };
        assert(is_first_due(q, e));
        assert forall|x: MLEvent| #[trigger] q.count(x) > 0 implies e.time_us <= x.time_us by {
            assert(due_no_later(e, x));
        }
        let x = choose|x: MLEvent| #[trigger] q.count(x) > 0 && x.time_us < network_time_us;
        assert(e.time_us <= x.time_us);
        assert(before.takes_event(taken, e));
    }
}

/// Event `a` is due before event `b`.
pub open spec fn is_due_before(a: MLEvent, b: MLEvent) -> bool {
    due_no_later(a, b) && !due_no_later(b, a)
}

/// An earlier event is due first. Of events at the same time, arrivals are due first, then computations that end, then
/// transfers that are ready to be sent, then those that are ready to be received, and then those that have completed;
/// then jobs that have completed, the network, changes of routes, migrations that begin and that end, polls, restarts
/// and timers.
pub proof fn lemma_due_in_turn(a: MLEvent, b: MLEvent)
    ensures
        a.time_us < b.time_us ==> is_due_before(a, b),
        a.time_us == b.time_us ==> {
            &&& a.kind == MLEventKind::JobArrival && b.kind != MLEventKind::JobArrival ==> is_due_before(a, b)
            &&& a.kind == MLEventKind::ComputeCompletion && b.kind == MLEventKind::FlowSendReady ==> is_due_before(a, b)
            &&& a.kind == MLEventKind::FlowSendReady && b.kind == MLEventKind::FlowReceiveReady ==> is_due_before(a, b)
            &&& a.kind == MLEventKind::FlowReceiveReady && b.kind == MLEventKind::FlowSendComplete ==> is_due_before(a, b)
            &&& a.kind == MLEventKind::FlowSendComplete && b.kind == MLEventKind::JobComplete ==> is_due_before(a, b)
            &&& a.kind == MLEventKind::JobComplete && b.kind == MLEventKind::NetworkEvent ==> is_due_before(a, b)
            &&& a.kind == MLEventKind::NetworkEvent && b.kind == MLEventKind::Reconfigure ==> is_due_before(a, b)
            &&& a.kind == MLEventKind::Reconfigure && b.kind == MLEventKind::MigrationBegin ==> is_due_before(a, b)
            &&& a.kind == MLEventKind::MigrationBegin && b.kind == MLEventKind::MigrationEnd ==> is_due_before(a, b)
            &&& a.kind == MLEventKind::MigrationEnd && b.kind == MLEventKind::FlowSchedulerPoll ==> is_due_before(a, b)
            &&& a.kind == MLEventKind::FlowSchedulerPoll && b.kind == MLEventKind::PostMigrationRestart ==> is_due_before(a, b)
            &&& a.kind == MLEventKind::PostMigrationRestart && b.kind == MLEventKind::SystemTimer ==> is_due_before(a, b)
        },
{
}

/// What is due before what is due before another is due before that.
pub proof fn lemma_due_chain(a: MLEvent, b: MLEvent, c: MLEvent)
    requires
        is_due_before(a, b),
        is_due_before(b, c),
    ensures
        is_due_before(a, c),
{
}

} // verus!
