//! Flow schedulers decide when a flow that is ready enters the network.

use std::collections::VecDeque;
use vstd::prelude::*;

use crate::simulator::context::{placement_views, MLContext};
use crate::simulator::ml_worker::{JobId, WorkerId};
use crate::utils::data::{lemma_push_to_set, DHashSet};

verus! {

/// A flow whose sender and receiver are ready.
#[derive(Debug, Clone, Copy, PartialEq, Eq, Structural)]
pub struct QueuedFlow {
    pub job_id: JobId,
    /// Index of the flow in its job, the same in every iteration.
    pub job_flow_idx: usize,
    pub iter_idx: usize,
    pub src_worker: WorkerId,
    pub dst_worker: WorkerId,
    pub send_event_id: usize,
    pub receive_event_id: usize,
    pub src_host: usize,
    pub dst_host: usize,
    pub size_bytes: u64,
}

/// The strategy that releases flows. Each strategy says what its steps do.
pub trait FlowScheduler: Sized {
    /// A flow that is ready has been taken in; `wake` is a time at which to poll.
    spec fn takes_in(&self, now_us: u64, flow: QueuedFlow, after: Self, wake: Option<u64>) -> bool;

    /// Flows have been released; `wake` is a time at which to poll again.
    spec fn releases(&self, now_us: u64, after: Self, flows: Seq<QueuedFlow>, wake: Option<u64>) -> bool;

    /// No flow waits.
    spec fn idle(&self) -> bool;

    /// The flows of the listed jobs have been moved.
    spec fn moves(
        &self,
        now_us: u64,
        placements: Map<JobId, Map<WorkerId, usize>>,
        affected: Seq<JobId>,
        after: Self,
    ) -> bool;

    /// A migration is over; `wake` is a time at which to poll.
    spec fn resumes(&self, now_us: u64, after: Self, wake: Option<u64>) -> bool;

    /// A flow is ready. The result is a time at which to poll, if one is wanted.
    fn enqueue_flow(&mut self, now_us: u64, flow: QueuedFlow) -> (r: Option<u64>)
        ensures
            old(self).takes_in(now_us, flow, *final(self), r),
    ;

    /// The flows that are to start now, and a time at which to poll again, if one is wanted.
    fn poll_ready(&mut self, now_us: u64) -> (r: (Vec<QueuedFlow>, Option<u64>))
        ensures
            old(self).releases(now_us, *final(self), r.0@, r.1),
    ;

    /// Whether no flow waits.
    fn is_idle(&self) -> (r: bool)
        ensures
            r == self.idle(),
    ;

    /// The listed jobs migrate; waiting flows take their new hosts from the context.
    fn on_migration_begin(&mut self, now_us: u64, ctx: &MLContext, affected_jobs: &Vec<JobId>)
        ensures
            old(self).moves(now_us, placement_views(ctx.placements@), affected_jobs@, *final(self)),
    ;

    /// A migration is over. The result is a time at which to poll, if one is wanted.
    fn on_migration_end(&mut self, now_us: u64) -> (r: Option<u64>)
        ensures
            old(self).resumes(now_us, *final(self), r),
    ;
}

/// Releases every flow at the next poll.
pub struct ImmediateFlowScheduler {
    pub queue: VecDeque<QueuedFlow>,
}

/// A waiting flow after its job has migrated: it takes the new hosts if both are known.
pub open spec fn follow_migration(
    f: QueuedFlow,
    placements: Map<JobId, Map<WorkerId, usize>>,
    affected: Seq<JobId>,
) -> QueuedFlow {
    if affected.contains(f.job_id) && placements.contains_key(f.job_id)
        && placements[f.job_id].contains_key(f.src_worker) && placements[f.job_id].contains_key(f.dst_worker) {
        QueuedFlow {
            src_host: placements[f.job_id][f.src_worker],
            dst_host: placements[f.job_id][f.dst_worker],
            ..f
        }
    } else {
        f
    }
}

/// Waiting flows after some jobs have migrated.
pub open spec fn moved_flows(
    flows: Seq<QueuedFlow>,
    placements: Map<JobId, Map<WorkerId, usize>>,
    affected: Seq<JobId>,
) -> Seq<QueuedFlow> {
    flows.map_values(|f: QueuedFlow| follow_migration(f, placements, affected))
}

impl ImmediateFlowScheduler {
    /// A scheduler without flows.
    pub fn new() -> (r: Self)
        ensures
            r.queue@ == Seq::<QueuedFlow>::empty(),
    {
        ImmediateFlowScheduler { queue: VecDeque::new() }
    }
}

impl Default for ImmediateFlowScheduler {
    fn default() -> (r: Self)
        ensures
            r.queue@ == Seq::<QueuedFlow>::empty(),
    {
        ImmediateFlowScheduler::new()
    }
}

/// A list as a set.
fn id_set(ids: &Vec<JobId>) -> (r: DHashSet<JobId>)
    ensures
        r@ == ids@.to_set(),
{
    let mut s: DHashSet<JobId> = DHashSet::new();
    let mut i: usize = 0;
    proof {
        assert(s@ =~= ids@.take(0).to_set());
    }
    while i < ids.len()
        invariant
            i <= ids.len(),
            s@ == ids@.take(i as int).to_set(),
        decreases ids.len() - i,
    {
        s.insert(ids[i]);
        proof {
            assert(ids@.take(i + 1) =~= ids@.take(i as int).push(ids@[i as int]));
            lemma_push_to_set(ids@.take(i as int), ids@[i as int]);
        }
        i += 1;
    }
    proof {
        assert(ids@.take(ids@.len() as int) =~= ids@);
    }
    s
}

impl FlowScheduler for ImmediateFlowScheduler {
    open spec fn takes_in(&self, now_us: u64, flow: QueuedFlow, after: Self, wake: Option<u64>) -> bool {
        after.queue@ == self.queue@.push(flow) && wake is None
    }

    /// All of them.
    open spec fn releases(&self, now_us: u64, after: Self, flows: Seq<QueuedFlow>, wake: Option<u64>) -> bool {
        flows == self.queue@ && after.queue@ == Seq::<QueuedFlow>::empty() && wake is None
    }

    open spec fn idle(&self) -> bool {
        self.queue@.len() == 0
    }

    open spec fn moves(
        &self,
        now_us: u64,
        placements: Map<JobId, Map<WorkerId, usize>>,
        affected: Seq<JobId>,
        after: Self,
    ) -> bool {
        after.queue@ == moved_flows(self.queue@, placements, affected)
    }

    open spec fn resumes(&self, now_us: u64, after: Self, wake: Option<u64>) -> bool {
        after.queue@ == self.queue@ && wake is None
    }

    fn enqueue_flow(&mut self, now_us: u64, flow: QueuedFlow) -> (r: Option<u64>) {
        self.queue.push_back(flow);
        None
    }

    fn poll_ready(&mut self, now_us: u64) -> (r: (Vec<QueuedFlow>, Option<u64>)) {
        let mut out: Vec<QueuedFlow> = Vec::new();
        let ghost q0 = self.queue@;
        proof {
            assert(q0.skip(0) =~= q0);
        }
        while self.queue.len() > 0
            invariant
                out@.len() <= q0.len(),
                out@ == q0.take(out@.len() as int),
                self.queue@ == q0.skip(out@.len() as int),
            decreases self.queue.len(),
        {
            let ghost n = out@.len() as int;
            if let Some(f) = self.queue.pop_front() {
                proof {
                    assert(f == q0[n]);
                }
                out.push(f);
                proof {
                    assert(out@ =~= q0.take(n + 1));
                    assert(self.queue@ =~= q0.skip(n + 1));
                }
            }
        }
        proof {
            assert(out@ =~= q0);
            assert(self.queue@ =~= Seq::<QueuedFlow>::empty());
        }
        (out, None)
    }

    fn is_idle(&self) -> (r: bool) {
        self.queue.len() == 0
    }

    fn on_migration_begin(&mut self, now_us: u64, ctx: &MLContext, affected_jobs: &Vec<JobId>) {
        let affected = id_set(affected_jobs);
        let ghost p = placement_views(ctx.placements@);
        let ghost q0 = self.queue@;
        let mut out: VecDeque<QueuedFlow> = VecDeque::new();
        proof {
            assert(q0.skip(0) =~= q0);
        }
        while self.queue.len() > 0
            invariant
                p == placement_views(ctx.placements@),
                affected@ == affected_jobs@.to_set(),
                out@.len() <= q0.len(),
                forall|i: int| 0 <= i < out@.len() ==> out@[i] == follow_migration(#[trigger] q0[i], p, affected_jobs@),
                self.queue@ == q0.skip(out@.len() as int),
            decreases self.queue.len(),
        {
            let ghost n = out@.len() as int;
            if let Some(f) = self.queue.pop_front() {
                proof {
                    assert(f == q0[n]);
                    assert(affected@.contains(f.job_id) == affected_jobs@.contains(f.job_id));
                }
                let mut g = f;
                if affected.contains(&f.job_id) {
                    if let Some(w2h) = ctx.placements.get(&f.job_id) {
                        if let (Some(src), Some(dst)) = (w2h.get(&f.src_worker), w2h.get(&f.dst_worker)) {
                            g.src_host = *src;
                            g.dst_host = *dst;
                        }
                    }
                }
                out.push_back(g);
                proof {
                    assert(self.queue@ =~= q0.skip(n + 1));
                }
            }
        }
        self.queue = out;
        proof {
            assert(self.queue@ =~= moved_flows(q0, p, affected_jobs@));
        }
    }

    fn on_migration_end(&mut self, now_us: u64) -> (r: Option<u64>) {
        None
    }
}

} // verus!
