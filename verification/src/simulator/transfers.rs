//! From where to where the flows of jobs run.

use vstd::prelude::*;

use crate::network::{flows_entered, Arrival, NetworkSimulator};
use crate::simulator::flow_scheduler::{FlowScheduler, ImmediateFlowScheduler, QueuedFlow};
use crate::simulator::flows::{receive_outcome, send_outcome, SimFault};
use crate::simulator::job_scheduler::{placed_on, JobScheduler};
use crate::simulator::ml_job::MLJob;
use crate::simulator::ml_simulator::{arrival_of, arrivals_of, flows_installed, flows_registered, later, MLSimulator};
use crate::simulator::ml_worker::{EventView, FlowId, JobId, WorkerId};
use crate::simulator::system::SystemModule;

verus! {

/// The job knows where each of its workers is, and the workers agree.
pub open spec fn knows_hosts(job: MLJob) -> bool {
    forall|w: WorkerId| #[trigger]
        job.workers@.contains_key(w) ==> job.worker_to_host@.contains_key(w) && job.worker_to_host@[w]
            == job.workers@[w].host_index
}

/// A job that has been placed knows where its workers are: worker `w` is on the host with number `w` in the list.
pub proof fn lemma_placed_hosts_known(before: MLJob, after: MLJob, hosts: Seq<usize>)
    requires
        placed_on(&before, &after, hosts),
        hosts.len() <= usize::MAX,
        forall|w: WorkerId| #[trigger] before.workers@.contains_key(w) ==> w < hosts.len(),
    ensures
        knows_hosts(after),
        forall|w: WorkerId| w < hosts.len() ==> #[trigger] after.worker_to_host@[w] == hosts[w as int],
        after.workers@.dom() == before.workers@.dom(),
{
    assert(after.workers@.dom() =~= before.workers@.dom());
    assert forall|w: WorkerId| #[trigger] after.workers@.contains_key(w) implies after.worker_to_host@.contains_key(w)
        && after.worker_to_host@[w] == after.workers@[w].host_index by {
        assert(before.workers@.contains_key(w));
    }
}

/// The flow runs from the host of its sender to the host of its receiver.
pub open spec fn joins_workers(job: MLJob, q: QueuedFlow) -> bool {
    &&& job.worker_to_host@.contains_key(q.src_worker)
    &&& job.worker_to_host@.contains_key(q.dst_worker)
    &&& q.src_host == job.worker_to_host@[q.src_worker]
    &&& q.dst_host == job.worker_to_host@[q.dst_worker]
}

/// A running event of a worker of a job.
pub open spec fn running_event(job: MLJob, w: WorkerId, event_id: usize) -> EventView {
    job.workers@[w].running_events@[event_id]@
}

/// What makes a flow when a send is ready: the flow is that of the send, it runs between the hosts of the two
/// workers, and it ends the receive that has been waiting.
pub proof fn lemma_send_makes_flow(
    jobs: Map<JobId, MLJob>,
    receives: Map<(JobId, WorkerId, WorkerId), usize>,
    job_id: JobId,
    worker_id: WorkerId,
    event_id: usize,
    peer: WorkerId,
    q: QueuedFlow,
)
    requires
        knows_hosts(jobs[job_id]),
        send_outcome(jobs, receives, job_id, worker_id, event_id) == Ok::<(WorkerId, Option<QueuedFlow>), SimFault>(
            (peer, Some(q)),
        ),
    ensures
        q.job_id == job_id,
        q.src_worker == worker_id,
        q.dst_worker == peer,
        joins_workers(jobs[job_id], q),
        running_event(jobs[job_id], worker_id, event_id).flow_send matches Some(s) && s.dst_worker == peer
            && s.size_bytes == q.size_bytes,
        q.send_event_id == event_id,
        receives.contains_key((job_id, worker_id, peer)) && q.receive_event_id == receives[(job_id, worker_id, peer)],
        q.iter_idx == jobs[job_id].workers@[peer].current_iteration,
        q.job_flow_idx == jobs[job_id].send_template_to_flow_idx@[(
            worker_id,
            running_event(jobs[job_id], worker_id, event_id).template_id,
        )],
{
    assert(jobs[job_id].workers@.contains_key(worker_id));
}

/// What makes a flow when a receive is ready: the flow runs between the hosts of the two workers, and it is
/// that of the send that has been waiting.
pub proof fn lemma_receive_makes_flow(
    jobs: Map<JobId, MLJob>,
    sends: Map<(JobId, WorkerId, WorkerId), usize>,
    job_id: JobId,
    worker_id: WorkerId,
    event_id: usize,
    peer: WorkerId,
    q: QueuedFlow,
)
    requires
        knows_hosts(jobs[job_id]),
        receive_outcome(jobs, sends, job_id, worker_id, event_id) == Ok::<(WorkerId, Option<QueuedFlow>), SimFault>(
            (peer, Some(q)),
        ),
    ensures
        q.job_id == job_id,
        q.src_worker == peer,
        q.dst_worker == worker_id,
        joins_workers(jobs[job_id], q),
        running_event(jobs[job_id], worker_id, event_id).flow_receive matches Some(s) && s.src_worker == peer
            && s.size_bytes == q.size_bytes,
        q.receive_event_id == event_id,
        sends.contains_key((job_id, peer, worker_id)) && q.send_event_id == sends[(job_id, peer, worker_id)],
        q.iter_idx == jobs[job_id].workers@[worker_id].current_iteration,
        q.job_flow_idx == jobs[job_id].send_template_to_flow_idx@[(
            peer,
            running_event(jobs[job_id], peer, q.send_event_id).template_id,
        )],
{
    assert(jobs[job_id].workers@.contains_key(worker_id));
}

/// It makes no difference which of the two workers is ready first: a send that finds the receive waiting
/// makes the same flow as the receive that finds the send waiting.
pub proof fn lemma_either_end_first(
    jobs: Map<JobId, MLJob>,
    receives: Map<(JobId, WorkerId, WorkerId), usize>,
    sends: Map<(JobId, WorkerId, WorkerId), usize>,
    job_id: JobId,
    src: WorkerId,
    dst: WorkerId,
    send_event_id: usize,
    receive_event_id: usize,
    p: QueuedFlow,
    q: QueuedFlow,
)
    requires
        knows_hosts(jobs[job_id]),
        receives.contains_key((job_id, src, dst)) && receives[(job_id, src, dst)] == receive_event_id,
        sends.contains_key((job_id, src, dst)) && sends[(job_id, src, dst)] == send_event_id,
        send_outcome(jobs, receives, job_id, src, send_event_id) == Ok::<(WorkerId, Option<QueuedFlow>), SimFault>(
            (dst, Some(p)),
        ),
        receive_outcome(jobs, sends, job_id, dst, receive_event_id) == Ok::<(WorkerId, Option<QueuedFlow>), SimFault>(
            (src, Some(q)),
        ),
        p.size_bytes == q.size_bytes,
    ensures
        p == q,
{
    lemma_send_makes_flow(jobs, receives, job_id, src, send_event_id, dst, p);
    lemma_receive_makes_flow(jobs, sends, job_id, dst, receive_event_id, src, q);
}

/// The flow scheduler has taken in one flow and nothing else.
pub open spec fn took_in<FS: FlowScheduler>(before: FS, after: FS, now_us: u64, q: QueuedFlow) -> bool {
    exists|wake: Option<u64>| #[trigger] before.takes_in(now_us, q, after, wake)
}

/// When a send is ready and its receive waits, the flow scheduler gets the flow from the host of the sender
/// to the host of the receiver. If the receive does not wait, the send does, and the flow scheduler gets
/// nothing.
pub proof fn lemma_ready_send<S: JobScheduler, FS: FlowScheduler, M: SystemModule<S, FS>, N: NetworkSimulator>(
    before: MLSimulator<S, FS, M, N>,
    after: MLSimulator<S, FS, M, N>,
    job_id: JobId,
    worker_id: WorkerId,
    event_id: usize,
)
    requires
        before.readies_send(after, job_id, worker_id, event_id, Ok(())),
        knows_hosts(before.state.jobs@[job_id]),
    ensures
        ({
            let job = before.state.jobs@[job_id];
            let e = running_event(job, worker_id, event_id);
            let key = (job_id, worker_id, e.flow_send->0.dst_worker);
            &&& e.flow_send is Some
            &&& if before.state.pending_receives@.contains_key(key) {
                &&& exists|q: QueuedFlow|
                    {
                        &&& #[trigger] took_in(before.flow_scheduler, after.flow_scheduler, before.state.now_us, q)
                        &&& q.job_id == job_id && q.src_worker == worker_id && q.dst_worker == key.2
                        &&& joins_workers(job, q)
                        &&& q.size_bytes == e.flow_send->0.size_bytes
                        &&& q.send_event_id == event_id
                        &&& q.receive_event_id == before.state.pending_receives@[key]
                    }
                &&& !after.state.pending_receives@.contains_key(key)
                &&& after.state.pending_sends == before.state.pending_sends
            } else {
                &&& after.flow_scheduler == before.flow_scheduler
                &&& after.state.pending_sends@.contains_key(key) && after.state.pending_sends@[key] == event_id
                &&& after.state.pending_receives == before.state.pending_receives
            }
            &&& after.network_sim == before.network_sim
        }),
{
    let jobs = before.state.jobs@;
    let receives = before.state.pending_receives@;
    let outcome = send_outcome(jobs, receives, job_id, worker_id, event_id);
    if let Ok((dst, Some(q))) = outcome {
        lemma_send_makes_flow(jobs, receives, job_id, worker_id, event_id, dst, q);
        let mid = choose|mid: MLSimulator<S, FS, M, N>| #[trigger]
            before.takes_receive(mid, (job_id, worker_id, dst)) && mid.hands_over(after, q);
        let wake = choose|wake: Option<u64>| #[trigger]
            mid.flow_scheduler.takes_in(mid.state.now_us, q, after.flow_scheduler, wake);
        assert(before.flow_scheduler.takes_in(before.state.now_us, q, after.flow_scheduler, wake));
        assert(took_in(before.flow_scheduler, after.flow_scheduler, before.state.now_us, q));
    }
}

/// When a receive is ready and its send waits, the flow scheduler gets the flow from the host of the sender
/// to the host of the receiver. If the send does not wait, the receive does, and the flow scheduler gets
/// nothing.
pub proof fn lemma_ready_receive<S: JobScheduler, FS: FlowScheduler, M: SystemModule<S, FS>, N: NetworkSimulator>(
    before: MLSimulator<S, FS, M, N>,
    after: MLSimulator<S, FS, M, N>,
    job_id: JobId,
    worker_id: WorkerId,
    event_id: usize,
)
    requires
        before.readies_receive(after, job_id, worker_id, event_id, Ok(())),
        knows_hosts(before.state.jobs@[job_id]),
    ensures
        ({
            let job = before.state.jobs@[job_id];
            let e = running_event(job, worker_id, event_id);
            let key = (job_id, e.flow_receive->0.src_worker, worker_id);
            &&& e.flow_receive is Some
            &&& if before.state.pending_sends@.contains_key(key) {
                &&& exists|q: QueuedFlow|
                    {
                        &&& #[trigger] took_in(before.flow_scheduler, after.flow_scheduler, before.state.now_us, q)
                        &&& q.job_id == job_id && q.src_worker == key.1 && q.dst_worker == worker_id
                        &&& joins_workers(job, q)
                        &&& q.size_bytes == e.flow_receive->0.size_bytes
                        &&& q.send_event_id == before.state.pending_sends@[key]
                        &&& q.receive_event_id == event_id
                    }
                &&& !after.state.pending_sends@.contains_key(key)
                &&& after.state.pending_receives == before.state.pending_receives
            } else {
                &&& after.flow_scheduler == before.flow_scheduler
                &&& after.state.pending_receives@.contains_key(key) && after.state.pending_receives@[key] == event_id
                &&& after.state.pending_sends == before.state.pending_sends
            }
            &&& after.network_sim == before.network_sim
        }),
{
    let jobs = before.state.jobs@;
    let sends = before.state.pending_sends@;
    let outcome = receive_outcome(jobs, sends, job_id, worker_id, event_id);
    if let Ok((src, Some(q))) = outcome {
        lemma_receive_makes_flow(jobs, sends, job_id, worker_id, event_id, src, q);
        let mid = choose|mid: MLSimulator<S, FS, M, N>| #[trigger]
            before.takes_send(mid, (job_id, src, worker_id)) && mid.hands_over(after, q);
        let wake = choose|wake: Option<u64>| #[trigger]
            mid.flow_scheduler.takes_in(mid.state.now_us, q, after.flow_scheduler, wake);
        assert(before.flow_scheduler.takes_in(before.state.now_us, q, after.flow_scheduler, wake));
        assert(took_in(before.flow_scheduler, after.flow_scheduler, before.state.now_us, q));
    }
}

/// A flow enters the network as it was released: between the same hosts, with the same bytes.
pub open spec fn enters_as(a: Arrival, q: QueuedFlow) -> bool {
    &&& a.src_host == q.src_host
    &&& a.dst_host == q.dst_host
    &&& a.size_bytes == q.size_bytes
    &&& a.job_flow_idx == q.job_flow_idx
}

/// The flows of a list have entered the network one after the other, each as it was released and at the given
/// time, under the given identifiers.
pub open spec fn entered_as<N: NetworkSimulator>(
    before: N,
    after: N,
    now_us: u64,
    flows: Seq<QueuedFlow>,
    ids: Seq<FlowId>,
) -> bool {
    exists|arrivals: Seq<Arrival>|
        {
            &&& #[trigger] flows_entered(before, after, arrivals, ids, flows.len())
            &&& arrivals.len() == flows.len()
            &&& forall|i: int|
                0 <= i < flows.len() ==> enters_as(#[trigger] arrivals[i], flows[i]) && arrivals[i].now_us == now_us
        }
}

/// What the flow scheduler releases enters the network as it was released, not before the time of the
/// simulator, and what is known of each flow is kept under the identifier that the network gave it last.
pub proof fn lemma_released_flows_enter<S: JobScheduler, FS: FlowScheduler, M: SystemModule<S, FS>, N: NetworkSimulator>(
    before: MLSimulator<S, FS, M, N>,
    after: MLSimulator<S, FS, M, N>,
)
    requires
        before.polls(after),
    ensures
        exists|now_us: u64, flows: Seq<QueuedFlow>, ids: Seq<FlowId>, wake: Option<u64>|
            {
                &&& #[trigger] before.flow_scheduler.releases(now_us, after.flow_scheduler, flows, wake)
                &&& now_us >= before.state.now_us
                &&& ids.len() == flows.len()
                &&& #[trigger] entered_as(before.network_sim, after.network_sim, now_us, flows, ids)
                &&& forall|i: int|
                    0 <= i < flows.len() && (forall|j: int| i < j < flows.len() ==> ids[j] != ids[i]) ==> {
                        let w = after.state.context.waiting_flows@[#[trigger] ids[i]];
                        &&& after.state.context.waiting_flows@.contains_key(ids[i])
                        &&& w.0 == flows[i].job_id
                        &&& w.1 == flows[i].job_flow_idx
                        &&& w.2 == flows[i].iter_idx
                        &&& w.3 == flows[i].src_worker
                        &&& w.4 == flows[i].dst_worker
                        &&& w.5 == flows[i].send_event_id
                        &&& w.6 == flows[i].receive_event_id
                    }
            },
{
    let (net_us, now_us, flows, ids, wake) = choose|
        net_us: u64,
        now_us: u64,
        flows: Seq<QueuedFlow>,
        ids: Seq<FlowId>,
        wake: Option<u64>,
    |
        {
            &&& #[trigger] before.network_sim.tells_time(net_us)
            &&& now_us == later(net_us, before.state.now_us)
            &&& #[trigger] before.flow_scheduler.releases(now_us, after.flow_scheduler, flows, wake)
            &&& #[trigger] flows_installed(&before.state, &after.state, now_us, flows, ids, wake)
            &&& flows_entered(before.network_sim, after.network_sim, arrivals_of(flows, now_us), ids, flows.len())
            &&& after.scheduler == before.scheduler
            &&& after.system_module == before.system_module
        };
    let arrivals = arrivals_of(flows, now_us);
    assert forall|i: int| 0 <= i < flows.len() implies enters_as(#[trigger] arrivals[i], flows[i]) && arrivals[i].now_us
        == now_us by {
        assert(arrivals[i] == arrival_of(flows[i], now_us));
    }
    assert(entered_as(before.network_sim, after.network_sim, now_us, flows, ids));
    assert forall|i: int| 0 <= i < flows.len() && (forall|j: int| i < j < flows.len() ==> ids[j] != ids[i]) implies ({
        let w = after.state.context.waiting_flows@[#[trigger] ids[i]];
        &&& after.state.context.waiting_flows@.contains_key(ids[i])
        &&& w.0 == flows[i].job_id
        &&& w.1 == flows[i].job_flow_idx
        &&& w.2 == flows[i].iter_idx
        &&& w.3 == flows[i].src_worker
        &&& w.4 == flows[i].dst_worker
        &&& w.5 == flows[i].send_event_id
        &&& w.6 == flows[i].receive_event_id
    }) by {
        lemma_registered(before.state.context.waiting_flows@, flows, ids, flows.len(), i);
    }
}

proof fn lemma_registered(
    waiting: Map<FlowId, crate::simulator::context::WaitingFlow>,
    flows: Seq<QueuedFlow>,
    ids: Seq<FlowId>,
    n: nat,
    i: int,
)
    requires
        0 <= i < n <= flows.len(),
        ids.len() == flows.len(),
        forall|j: int| i < j < n ==> ids[j] != ids[i],
    ensures
        flows_registered(waiting, flows, ids, n).contains_key(ids[i]),
        flows_registered(waiting, flows, ids, n)[ids[i]] == (
            flows[i].job_id,
            flows[i].job_flow_idx,
            flows[i].iter_idx,
            flows[i].src_worker,
            flows[i].dst_worker,
            flows[i].send_event_id,
            flows[i].receive_event_id,
        ),
    decreases n,
{
    if i < n - 1 {
        lemma_registered(waiting, flows, ids, (n - 1) as nat, i);
        assert(ids[n - 1] != ids[i]);
    }
}

/// Flows that start at once enter the network at the next poll in the order in which they became ready, each
/// from the host of its sender to the host of its receiver if its job has not moved since.
pub proof fn lemma_flows_enter_at_once<S: JobScheduler, M: SystemModule<S, ImmediateFlowScheduler>, N: NetworkSimulator>(
    before: MLSimulator<S, ImmediateFlowScheduler, M, N>,
    after: MLSimulator<S, ImmediateFlowScheduler, M, N>,
)
    requires
        before.polls(after),
        forall|i: int|
            0 <= i < before.flow_scheduler.queue@.len() ==> joins_workers(
                before.state.jobs@[(#[trigger] before.flow_scheduler.queue@[i]).job_id],
                before.flow_scheduler.queue@[i],
            ),
    ensures
        after.flow_scheduler.queue@.len() == 0,
        exists|arrivals: Seq<Arrival>, ids: Seq<FlowId>|
            {
                let q = before.flow_scheduler.queue@;
                &&& #[trigger] flows_entered(
                    before.network_sim,
                    after.network_sim,
                    arrivals,
                    ids,
                    before.flow_scheduler.queue@.len(),
                )
                &&& arrivals.len() == q.len()
                &&& forall|i: int|
                    0 <= i < q.len() ==> {
                        let hosts = before.state.jobs@[q[i].job_id].worker_to_host@;
                        &&& (#[trigger] arrivals[i]).src_host == hosts[q[i].src_worker]
                        &&& arrivals[i].dst_host == hosts[q[i].dst_worker]
                        &&& arrivals[i].size_bytes == q[i].size_bytes
                    }
            },
{
    lemma_released_flows_enter(before, after);
    let (now_us, flows, ids, wake) = choose|now_us: u64, flows: Seq<QueuedFlow>, ids: Seq<FlowId>, wake: Option<u64>|
        {
            &&& #[trigger] before.flow_scheduler.releases(now_us, after.flow_scheduler, flows, wake)
            &&& now_us >= before.state.now_us
            &&& ids.len() == flows.len()
            &&& #[trigger] entered_as(before.network_sim, after.network_sim, now_us, flows, ids)
        };
    let q = before.flow_scheduler.queue@;
    assert(flows == q);
    let arrivals = choose|arrivals: Seq<Arrival>|
        {
            &&& #[trigger] flows_entered(before.network_sim, after.network_sim, arrivals, ids, flows.len())
            &&& arrivals.len() == flows.len()
            &&& forall|i: int|
                0 <= i < flows.len() ==> enters_as(#[trigger] arrivals[i], flows[i]) && arrivals[i].now_us == now_us
        };
    assert forall|i: int| 0 <= i < q.len() implies ({
        let hosts = before.state.jobs@[q[i].job_id].worker_to_host@;
        &&& (#[trigger] arrivals[i]).src_host == hosts[q[i].src_worker]
        &&& arrivals[i].dst_host == hosts[q[i].dst_worker]
        &&& arrivals[i].size_bytes == q[i].size_bytes
    }) by {
        assert(enters_as(arrivals[i], flows[i]));
        assert(joins_workers(before.state.jobs@[q[i].job_id], q[i]));
    }
    assert(flows_entered(before.network_sim, after.network_sim, arrivals, ids, q.len()));
}

} // verus!
