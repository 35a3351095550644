//! Flows start when both ends are ready, and complete events at both ends when they are through.

use vstd::prelude::*;

use crate::simulator::context::{MLContext, WaitingFlow};
use crate::simulator::flow_scheduler::QueuedFlow;
use crate::simulator::ml_job::{wrapped, MLJob};
use crate::simulator::ml_worker::{FlowId, JobId, WorkerId};
use crate::simulator::sim_state::SimState;
use crate::simulator::system::{WorkerMigrationInfo, MIGRATION_FLOW_IDX_BASE};

verus! {

/// An event that does not fit the state of the simulation.
#[derive(Debug, Clone, Copy, PartialEq, Eq, Structural)]
pub enum SimFault {
    /// There is no such job.
    UnknownJob(JobId),
    /// The job has no such worker.
    UnknownWorker(JobId, WorkerId),
    /// The worker has no such running event.
    EventNotRunning(WorkerId, usize),
    /// The event is no transfer of the expected direction.
    NotAFlowEvent(WorkerId, usize),
    /// The peer of the transfer is not placed.
    UnknownPeer(JobId, WorkerId),
    /// The transfer has no flow index.
    MissingFlowIndex(WorkerId, usize),
    /// There is no such flow.
    UnknownFlow(FlowId),
    /// The event does not say what it refers to, or has no place in the queue.
    MalformedEvent,
    /// The migration plan names a host that does not exist or that another job keeps, or a job twice.
    InvalidPlan,
    /// The worker has run through all iterations that can be counted.
    IterationOverflow(WorkerId),
}

/// A running event of a worker.
pub open spec fn lookup_event(
    jobs: Map<JobId, MLJob>,
    job_id: JobId,
    worker_id: WorkerId,
    event_id: usize,
) -> Result<crate::simulator::ml_worker::EventView, SimFault> {
    if !jobs.contains_key(job_id) {
        Err(SimFault::UnknownJob(job_id))
    } else if !jobs[job_id].workers@.contains_key(worker_id) {
        Err(SimFault::UnknownWorker(job_id, worker_id))
    } else if !jobs[job_id].workers@[worker_id].running_events@.contains_key(event_id) {
        Err(SimFault::EventNotRunning(worker_id, event_id))
    } else {
        Ok(jobs[job_id].workers@[worker_id].running_events@[event_id]@)
    }
}

/// The flow between two events that are ready, once it is known which they are.
pub open spec fn lookup_flow(
    jobs: Map<JobId, MLJob>,
    job_id: JobId,
    src_worker: WorkerId,
    dst_worker: WorkerId,
    src_host: usize,
    dst_host: usize,
    size_bytes: u64,
    send_event_id: usize,
    receive_event_id: usize,
) -> Result<QueuedFlow, SimFault> {
    match lookup_event(jobs, job_id, src_worker, send_event_id) {
        Err(f) => Err(f),
        Ok(e) => if !jobs[job_id].send_template_to_flow_idx@.contains_key((src_worker, e.template_id)) {
            Err(SimFault::MissingFlowIndex(src_worker, e.template_id))
        } else if !jobs[job_id].workers@.contains_key(dst_worker) {
            Err(SimFault::UnknownWorker(job_id, dst_worker))
        } else {
            Ok(
                QueuedFlow {
                    job_id,
                    job_flow_idx: jobs[job_id].send_template_to_flow_idx@[(src_worker, e.template_id)],
                    iter_idx: jobs[job_id].workers@[dst_worker].current_iteration,
                    src_worker,
                    dst_worker,
                    send_event_id,
                    receive_event_id,
                    src_host,
                    dst_host,
                    size_bytes,
                },
            )
        },
    }
}

/// What a ready send leads to: the flow if the receive waits already, else the send waits.
pub open spec fn send_outcome(
    jobs: Map<JobId, MLJob>,
    receives: Map<(JobId, WorkerId, WorkerId), usize>,
    job_id: JobId,
    worker_id: WorkerId,
    event_id: usize,
) -> Result<(WorkerId, Option<QueuedFlow>), SimFault> {
    match lookup_event(jobs, job_id, worker_id, event_id) {
        Err(f) => Err(f),
        Ok(e) => match e.flow_send {
            None => Err(SimFault::NotAFlowEvent(worker_id, event_id)),
            Some(send) => if !jobs[job_id].worker_to_host@.contains_key(send.dst_worker) {
                Err(SimFault::UnknownPeer(job_id, send.dst_worker))
            } else if receives.contains_key((job_id, worker_id, send.dst_worker)) {
                match lookup_flow(
                    jobs,
                    job_id,
                    worker_id,
                    send.dst_worker,
                    jobs[job_id].workers@[worker_id].host_index,
                    jobs[job_id].worker_to_host@[send.dst_worker],
                    send.size_bytes,
                    event_id,
                    receives[(job_id, worker_id, send.dst_worker)],
                ) {
                    Err(f) => Err(f),
                    Ok(q) => Ok((send.dst_worker, Some(q))),
                }
            } else {
                Ok((send.dst_worker, None))
            },
        },
    }
}

/// What a ready receive leads to: the flow if the send waits already, else the receive waits.
pub open spec fn receive_outcome(
    jobs: Map<JobId, MLJob>,
    sends: Map<(JobId, WorkerId, WorkerId), usize>,
    job_id: JobId,
    worker_id: WorkerId,
    event_id: usize,
) -> Result<(WorkerId, Option<QueuedFlow>), SimFault> {
    match lookup_event(jobs, job_id, worker_id, event_id) {
        Err(f) => Err(f),
        Ok(e) => match e.flow_receive {
            None => Err(SimFault::NotAFlowEvent(worker_id, event_id)),
            Some(recv) => if !jobs[job_id].worker_to_host@.contains_key(recv.src_worker) {
                Err(SimFault::UnknownPeer(job_id, recv.src_worker))
            } else if sends.contains_key((job_id, recv.src_worker, worker_id)) {
                match lookup_flow(
                    jobs,
                    job_id,
                    recv.src_worker,
                    worker_id,
                    jobs[job_id].worker_to_host@[recv.src_worker],
                    jobs[job_id].workers@[worker_id].host_index,
                    recv.size_bytes,
                    sends[(job_id, recv.src_worker, worker_id)],
                    event_id,
                ) {
                    Err(f) => Err(f),
                    Ok(q) => Ok((recv.src_worker, Some(q))),
                }
            } else {
                Ok((recv.src_worker, None))
            },
        },
    }
}

/// A transfer of a migration is in the tables.
pub open spec fn transfer_registered(
    before: &SimState,
    after: &SimState,
    flow_id: FlowId,
    info: WorkerMigrationInfo,
) -> bool {
    &&& after.context.waiting_flows@ == before.context.waiting_flows@.insert(
        flow_id,
        (
            info.job_id,
            wrapped((MIGRATION_FLOW_IDX_BASE + info.worker_id) as nat),
            0usize,
            info.worker_id,
            info.worker_id,
            usize::MAX,
            usize::MAX,
        ),
    )
    &&& after.flow_to_job@ == before.flow_to_job@.insert(flow_id, info.job_id)
    &&& after.active_migration_flows@ == before.active_migration_flows@.insert(flow_id, info)
    &&& *after == (SimState {
        flow_to_job: after.flow_to_job,
        active_migration_flows: after.active_migration_flows,
        context: MLContext { waiting_flows: after.context.waiting_flows, ..before.context },
        ..*before
    })
}

/// No other transfer of the job is under way.
pub open spec fn is_last_transfer(s: &SimState, flow_id: FlowId) -> bool {
    let job_id = s.active_migration_flows@[flow_id].job_id;
    let flows = s.migration_flows_by_job@;
    flows.contains_key(job_id) && flows[job_id]@.remove(flow_id) == Set::<FlowId>::empty()
}

/// A transfer of a migration is through, and its job no longer waits for it.
pub open spec fn transfer_taken(before: &SimState, after: &SimState, flow_id: FlowId) -> bool {
    let job_id = before.active_migration_flows@[flow_id].job_id;
    let flows = before.migration_flows_by_job@;
    &&& after.active_migration_flows@ == before.active_migration_flows@.remove(flow_id)
    &&& after.migration_flows_by_job@.dom() == flows.dom()
    &&& forall|j: JobId| #[trigger]
        flows.contains_key(j) ==> after.migration_flows_by_job@[j]@ == if j == job_id {
            flows[j]@.remove(flow_id)
        } else {
            flows[j]@
        }
    &&& *after == (SimState {
        active_migration_flows: after.active_migration_flows,
        migration_flows_by_job: after.migration_flows_by_job,
        ..*before
    })
}

/// A flow has left the tables, and its job counts one more.
pub open spec fn flow_taken(before: &SimState, after: &SimState, flow_id: FlowId) -> bool {
    let w = before.context.waiting_flows@[flow_id];
    let counts = before.context.flow_completions_per_job@;
    &&& after.context.waiting_flows@ == before.context.waiting_flows@.remove(flow_id)
    &&& after.flow_to_job@ == before.flow_to_job@.remove(flow_id)
    &&& after.context.flow_completions_per_job@ == counts.insert(
        w.0,
        if counts.contains_key(w.0) {
            crate::simulator::context::wrapping_sum(counts[w.0], 1)
        } else {
            1
        },
    )
    &&& *after == (SimState {
        flow_to_job: after.flow_to_job,
        context: MLContext {
            waiting_flows: after.context.waiting_flows,
            flow_completions_per_job: after.context.flow_completions_per_job,
            ..before.context
        },
        ..*before
    })
}

/// The bytes of a running send count as sent, up to those of an iteration.
pub open spec fn sent_counted(
    before: &SimState,
    after: &SimState,
    job_id: JobId,
    worker_id: WorkerId,
    event_id: usize,
) -> bool {
    let progress = before.context.worker_send_progress@;
    let k = (job_id, worker_id);
    let size = before.running_send_bytes(job_id, worker_id, event_id);
    &&& after.context.worker_send_progress@ == if progress.contains_key(k) {
        progress.insert(
            k,
            (
                if progress[k].0 + size < progress[k].1 {
                    (progress[k].0 + size) as u64
                } else {
                    progress[k].1
                },
                progress[k].1,
            ),
        )
    } else {
        progress
    }
    &&& *after == (SimState {
        context: MLContext { worker_send_progress: after.context.worker_send_progress, ..before.context },
        ..*before
    })
}

/// The worker has sent nothing in its iteration.
pub open spec fn sent_reset(before: &SimState, after: &SimState, job_id: JobId, worker_id: WorkerId) -> bool {
    let progress = before.context.worker_send_progress@;
    let k = (job_id, worker_id);
    &&& after.context.worker_send_progress@ == if progress.contains_key(k) {
        progress.insert(k, (0u64, progress[k].1))
    } else {
        progress
    }
    &&& *after == (SimState {
        context: MLContext { worker_send_progress: after.context.worker_send_progress, ..before.context },
        ..*before
    })
}

impl SimState {
    /// The flow between two ready events.
    fn find_flow(
        &self,
        job_id: JobId,
        src_worker: WorkerId,
        dst_worker: WorkerId,
        src_host: usize,
        dst_host: usize,
        size_bytes: u64,
        send_event_id: usize,
        receive_event_id: usize,
    ) -> (r: Result<QueuedFlow, SimFault>)
        ensures
            r == lookup_flow(
                self.jobs@,
                job_id,
                src_worker,
                dst_worker,
                src_host,
                dst_host,
                size_bytes,
                send_event_id,
                receive_event_id,
            ),
    {
        let job = match self.jobs.get(&job_id) {
            Some(job) => job,
            None => {
                return Err(SimFault::UnknownJob(job_id));
            },
        };
        let worker = match job.workers.get(&src_worker) {
            Some(worker) => worker,
            None => {
                return Err(SimFault::UnknownWorker(job_id, src_worker));
            },
        };
        let template_id: usize = match worker.get_running_event(send_event_id) {
            Some(e) => e.template_id,
            None => {
                return Err(SimFault::EventNotRunning(src_worker, send_event_id));
            },
        };
        let job_flow_idx: usize = match job.send_template_to_flow_idx.get(&(src_worker, template_id)) {
            Some(i) => *i,
            None => {
                return Err(SimFault::MissingFlowIndex(src_worker, template_id));
            },
        };
        let iter_idx: usize = match job.workers.get(&dst_worker) {
            Some(w) => w.current_iteration,
            None => {
                return Err(SimFault::UnknownWorker(job_id, dst_worker));
            },
        };
        Ok(
            QueuedFlow {
                job_id,
                job_flow_idx,
                iter_idx,
                src_worker,
                dst_worker,
                send_event_id,
                receive_event_id,
                src_host,
                dst_host,
                size_bytes,
            },
        )
    }

    /// A worker is ready to send. The flow starts if the receiver is ready; else the send waits.
    pub fn handle_flow_send_ready(&mut self, job_id: JobId, worker_id: WorkerId, event_id: usize) -> (r: Result<
        Option<QueuedFlow>,
        SimFault,
    >)
        ensures
            match send_outcome(old(self).jobs@, old(self).pending_receives@, job_id, worker_id, event_id) {
                Err(f) => r == Err::<Option<QueuedFlow>, SimFault>(f) && *final(self) == *old(self),
                Ok((dst, Some(q))) => {
                    &&& r == Ok::<Option<QueuedFlow>, SimFault>(Some(q))
                    &&& final(self).pending_receives@ == old(self).pending_receives@.remove((job_id, worker_id, dst))
                    &&& *final(self) == (SimState { pending_receives: final(self).pending_receives, ..*old(self) })
                },
                Ok((dst, None)) => {
                    &&& r == Ok::<Option<QueuedFlow>, SimFault>(None)
                    &&& final(self).pending_sends@ == old(self).pending_sends@.insert(
                        (job_id, worker_id, dst),
                        event_id,
                    )
                    &&& *final(self) == (SimState { pending_sends: final(self).pending_sends, ..*old(self) })
                },
            },
    {
        let job = match self.jobs.get(&job_id) {
            Some(job) => job,
            None => {
                return Err(SimFault::UnknownJob(job_id));
            },
        };
        let worker = match job.workers.get(&worker_id) {
            Some(worker) => worker,
            None => {
                return Err(SimFault::UnknownWorker(job_id, worker_id));
            },
        };
        let event = match worker.get_running_event(event_id) {
            Some(e) => e,
            None => {
                return Err(SimFault::EventNotRunning(worker_id, event_id));
            },
        };
        let send = match &event.flow_send {
            Some(send) => send,
            None => {
                return Err(SimFault::NotAFlowEvent(worker_id, event_id));
            },
        };
        let dst: usize = send.dst_worker;
        let size_bytes: u64 = send.size_bytes;
        let src_host: usize = worker.host_index;
        let dst_host: usize = match job.get_worker_host(dst) {
            Some(h) => h,
            None => {
                return Err(SimFault::UnknownPeer(job_id, dst));
            },
        };
        let waiting: Option<usize> = match self.pending_receives.get(&(job_id, worker_id, dst)) {
            Some(e) => Some(*e),
            None => None,
        };
        match waiting {
            Some(receive_event_id) => {
                match self.find_flow(
                    job_id,
                    worker_id,
                    dst,
                    src_host,
                    dst_host,
                    size_bytes,
                    event_id,
                    receive_event_id,
                ) {
                    Ok(q) => {
                        self.pending_receives.remove(&(job_id, worker_id, dst));
                        Ok(Some(q))
                    },
                    Err(f) => Err(f),
                }
            },
            None => {
                self.pending_sends.insert((job_id, worker_id, dst), event_id);
                Ok(None)
            },
        }
    }

    /// A worker is ready to receive. The flow starts if the sender is ready; else the receive waits.
    pub fn handle_flow_receive_ready(&mut self, job_id: JobId, worker_id: WorkerId, event_id: usize) -> (r: Result<
        Option<QueuedFlow>,
        SimFault,
    >)
        ensures
            match receive_outcome(old(self).jobs@, old(self).pending_sends@, job_id, worker_id, event_id) {
                Err(f) => r == Err::<Option<QueuedFlow>, SimFault>(f) && *final(self) == *old(self),
                Ok((src, Some(q))) => {
                    &&& r == Ok::<Option<QueuedFlow>, SimFault>(Some(q))
                    &&& final(self).pending_sends@ == old(self).pending_sends@.remove((job_id, src, worker_id))
                    &&& *final(self) == (SimState { pending_sends: final(self).pending_sends, ..*old(self) })
                },
                Ok((src, None)) => {
                    &&& r == Ok::<Option<QueuedFlow>, SimFault>(None)
                    &&& final(self).pending_receives@ == old(self).pending_receives@.insert(
                        (job_id, src, worker_id),
                        event_id,
                    )
                    &&& *final(self) == (SimState { pending_receives: final(self).pending_receives, ..*old(self) })
                },
            },
    {
        let job = match self.jobs.get(&job_id) {
            Some(job) => job,
            None => {
                return Err(SimFault::UnknownJob(job_id));
            },
        };
        let worker = match job.workers.get(&worker_id) {
            Some(worker) => worker,
            None => {
                return Err(SimFault::UnknownWorker(job_id, worker_id));
            },
        };
        let event = match worker.get_running_event(event_id) {
            Some(e) => e,
            None => {
                return Err(SimFault::EventNotRunning(worker_id, event_id));
            },
        };
        let recv = match &event.flow_receive {
            Some(recv) => recv,
            None => {
                return Err(SimFault::NotAFlowEvent(worker_id, event_id));
            },
        };
        let src: usize = recv.src_worker;
        let size_bytes: u64 = recv.size_bytes;
        let dst_host: usize = worker.host_index;
        let src_host: usize = match job.get_worker_host(src) {
            Some(h) => h,
            None => {
                return Err(SimFault::UnknownPeer(job_id, src));
            },
        };
        let waiting: Option<usize> = match self.pending_sends.get(&(job_id, src, worker_id)) {
            Some(e) => Some(*e),
            None => None,
        };
        match waiting {
            Some(send_event_id) => {
                match self.find_flow(
                    job_id,
                    src,
                    worker_id,
                    src_host,
                    dst_host,
                    size_bytes,
                    send_event_id,
                    event_id,
                ) {
                    Ok(q) => {
                        self.pending_sends.remove(&(job_id, src, worker_id));
                        Ok(Some(q))
                    },
                    Err(f) => Err(f),
                }
            },
            None => {
                self.pending_receives.insert((job_id, src, worker_id), event_id);
                Ok(None)
            },
        }
    }

    /// A released flow has entered the network under the given identifier.
    pub fn register_flow(&mut self, flow_id: FlowId, f: QueuedFlow)
        ensures
            final(self).context.waiting_flows@ == old(self).context.waiting_flows@.insert(
                flow_id,
                (
                    f.job_id,
                    f.job_flow_idx,
                    f.iter_idx,
                    f.src_worker,
                    f.dst_worker,
                    f.send_event_id,
                    f.receive_event_id,
                ),
            ),
            final(self).flow_to_job@ == old(self).flow_to_job@.insert(flow_id, f.job_id),
            *final(self) == (SimState {
                flow_to_job: final(self).flow_to_job,
                context: MLContext { waiting_flows: final(self).context.waiting_flows, ..old(self).context },
                ..*old(self)
            }),
    {
        self.context.waiting_flows.insert(
            flow_id,
            (
                f.job_id,
                f.job_flow_idx,
                f.iter_idx,
                f.src_worker,
                f.dst_worker,
                f.send_event_id,
                f.receive_event_id,
            ),
        );
        self.flow_to_job.insert(flow_id, f.job_id);
    }

    /// The transfer of a moving worker has entered the network under the given identifier.
    pub fn register_migration_flow(&mut self, flow_id: FlowId, info: WorkerMigrationInfo)
        ensures
            transfer_registered(old(self), final(self), flow_id, info),
    {
        let idx: usize = MIGRATION_FLOW_IDX_BASE.wrapping_add(info.worker_id);
        proof {
            let m = usize::MAX as int + 1;
            let s = MIGRATION_FLOW_IDX_BASE + info.worker_id;
            if s < m {
                vstd::arithmetic::div_mod::lemma_small_mod(s as nat, m as nat);
            } else {
                vstd::arithmetic::div_mod::lemma_mod_add_multiples_vanish(s - m, m);
                vstd::arithmetic::div_mod::lemma_small_mod((s - m) as nat, m as nat);
            }
        }
        self.context.waiting_flows.insert(
            flow_id,
            (info.job_id, idx, 0usize, info.worker_id, info.worker_id, usize::MAX, usize::MAX),
        );
        self.flow_to_job.insert(flow_id, info.job_id);
        self.active_migration_flows.insert(flow_id, info);
    }

    /// A migration transfer is through. The result is its job, and whether that was the last
    /// transfer of the job's migration; none if the flow is no migration transfer.
    pub fn take_migration_flow(&mut self, flow_id: FlowId) -> (r: Option<(JobId, bool)>)
        ensures
            r is Some == old(self).active_migration_flows@.contains_key(flow_id),
            r is None ==> *final(self) == *old(self),
            r matches Some((job_id, last)) ==> {
                &&& transfer_taken(old(self), final(self), flow_id)
                &&& job_id == old(self).active_migration_flows@[flow_id].job_id
                &&& last == is_last_transfer(old(self), flow_id)
            },
    {
        if !self.active_migration_flows.contains_key(&flow_id) {
            return None;
        }
        match self.active_migration_flows.remove(&flow_id) {
            Some(info) => {
                let job_id: usize = info.job_id;
                let last = match self.migration_flows_by_job.remove(&job_id) {
                    Some(set) => {
                        let mut set = set;
                        set.remove(&flow_id);
                        let empty = set.is_empty();
                        self.migration_flows_by_job.insert(job_id, set);
                        empty
                    },
                    None => false,
                };
                proof {
                    assert(self.migration_flows_by_job@.dom() =~= old(self).migration_flows_by_job@.dom());
                }
                Some((job_id, last))
            },
            None => None,
        }
    }

    /// A flow is through: it leaves the tables, and its job counts one more. The result is what was
    /// known of it; none if there is no such flow.
    pub fn take_flow(&mut self, flow_id: FlowId) -> (r: Option<WaitingFlow>)
        ensures
            r == (if old(self).context.waiting_flows@.contains_key(flow_id) {
                Some(old(self).context.waiting_flows@[flow_id])
            } else {
                None
            }),
            r is None ==> *final(self) == *old(self),
            r is Some ==> flow_taken(old(self), final(self), flow_id),
    {
        if !self.context.waiting_flows.contains_key(&flow_id) {
            return None;
        }
        match self.context.waiting_flows.remove(&flow_id) {
            Some(w) => {
                self.flow_to_job.remove(&flow_id);
                let count: u64 = match self.context.flow_completions_per_job.get(&w.0) {
                    Some(c) => *c,
                    None => 0,
                };
                self.context.flow_completions_per_job.insert(w.0, count.wrapping_add(1));
                Some(w)
            },
            None => None,
        }
    }

    /// The bytes of a running send, zero if there is none.
    pub open spec fn running_send_bytes(&self, job_id: JobId, worker_id: WorkerId, event_id: usize) -> u64 {
        match lookup_event(self.jobs@, job_id, worker_id, event_id) {
            Ok(e) => match e.flow_send {
                Some(f) => f.size_bytes,
                None => 0,
            },
            Err(_) => 0,
        }
    }

    /// A running send is through: its bytes count as sent, up to those of an iteration.
    pub fn count_sent(&mut self, job_id: JobId, worker_id: WorkerId, event_id: usize)
        ensures
            sent_counted(old(self), final(self), job_id, worker_id, event_id),
    {
        let mut size: u64 = 0;
        if let Some(job) = self.jobs.get(&job_id) {
            if let Some(worker) = job.workers.get(&worker_id) {
                if let Some(event) = worker.get_running_event(event_id) {
                    if let Some(f) = &event.flow_send {
                        size = f.size_bytes;
                    }
                }
            }
        }
        let entry: Option<(u64, u64)> = match self.context.worker_send_progress.get(&(job_id, worker_id)) {
            Some(e) => Some(*e),
            None => None,
        };
        if let Some((sent, total)) = entry {
            let sum: u64 = sent.saturating_add(size);
            let next: u64 = if sum < total {
                sum
            } else {
                total
            };
            self.context.worker_send_progress.insert((job_id, worker_id), (next, total));
        }
    }

    /// The next iteration of a worker starts with nothing sent.
    pub fn reset_sent(&mut self, job_id: JobId, worker_id: WorkerId)
        ensures
            sent_reset(old(self), final(self), job_id, worker_id),
    {
        let entry: Option<(u64, u64)> = match self.context.worker_send_progress.get(&(job_id, worker_id)) {
            Some(e) => Some(*e),
            None => None,
        };
        if let Some((_, total)) = entry {
            self.context.worker_send_progress.insert((job_id, worker_id), (0, total));
        }
    }
}

} // verus!
