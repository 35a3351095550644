//! The network as the simulator sees it.

use vstd::prelude::*;

pub mod graph;

use crate::simulator::ml_worker::FlowId;

verus! {

/// What a step of the network was about.
#[derive(Debug, Clone, Copy, PartialEq, Eq, Structural)]
pub enum EventKind {
    /// A flow has entered the network.
    Arrival,
    /// A flow is through.
    Completion,
}

/// A flow that enters the network.
pub struct Arrival {
    pub now_us: u64,
    pub src_host: usize,
    pub dst_host: usize,
    pub size_bytes: u64,
    pub job_flow_idx: usize,
}

/// A network simulator. Nothing is assumed of what it answers: each of its answers has a name here, and
/// unless a network says more, any answer will do.
pub trait NetworkSimulator: Sized {
    /// The network may tell this time.
    open spec fn tells_time(&self, now_us: u64) -> bool {
        true
    }

    /// The network may tell this time for its next event.
    open spec fn tells_next(&self, time_us: u64) -> bool {
        true
    }

    /// What the network may be once a flow has entered it, and how it may identify the flow.
    open spec fn takes_in(&self, flow: Arrival, after: Self, id: FlowId) -> bool {
        true
    }

    /// What the network may be after its next event, and what that event may be.
    open spec fn advances(&self, after: Self, event: Option<(EventKind, FlowId)>) -> bool {
        true
    }

    /// The time of the network.
    fn now_us(&self) -> (r: u64)
        ensures
            self.tells_time(r),
    ;

    /// The time of the next event in the network, the largest number if there is none.
    fn peek_time(&self) -> (r: u64)
        ensures
            self.tells_next(r),
    ;

    /// A flow enters the network. The result identifies it.
    fn add_flow_arrival(
        &mut self,
        now_us: u64,
        src_host: usize,
        dst_host: usize,
        size_bytes: u64,
        job_flow_idx: usize,
    ) -> (r: FlowId)
        ensures
            old(self).takes_in(
                (Arrival { now_us, src_host, dst_host, size_bytes, job_flow_idx }),
                *final(self),
                r,
            ),
    ;

    /// Processes the next event in the network, if there is one.
    fn advance_next_step(&mut self) -> (r: Option<(EventKind, FlowId)>)
        ensures
            old(self).advances(*final(self), r),
    ;
}

/// The first `n` flows have entered the network one after the other, and are identified as given.
pub open spec fn flows_entered<N: NetworkSimulator>(
    before: N,
    after: N,
    flows: Seq<Arrival>,
    ids: Seq<FlowId>,
    n: nat,
) -> bool
    decreases n,
{
    if n == 0 {
        after == before
    } else {
        let last = flows[n - 1];
        let id = ids[n - 1];
        exists|mid: N| flows_entered(before, mid, flows, ids, (n - 1) as nat) && #[trigger] mid.takes_in(last, after, id)
    }
}

/// What has entered does not depend on what follows.
proof fn lemma_entered_first<N: NetworkSimulator>(
    before: N,
    after: N,
    flows: Seq<Arrival>,
    ids: Seq<FlowId>,
    flow: Arrival,
    id: FlowId,
    n: nat,
)
    requires
        flows_entered(before, after, flows, ids, n),
        n <= flows.len(),
        n <= ids.len(),
    ensures
        flows_entered(before, after, flows.push(flow), ids.push(id), n),
    decreases n,
{
    if n > 0 {
        let last = flows[n - 1];
        let x = ids[n - 1];
        let mid = choose|mid: N|
            flows_entered(before, mid, flows, ids, (n - 1) as nat) && #[trigger] mid.takes_in(last, after, x);
        lemma_entered_first(before, mid, flows, ids, flow, id, (n - 1) as nat);
        assert(flows.push(flow)[n - 1] == last && ids.push(id)[n - 1] == x);
        assert(mid.takes_in(last, after, x));
    }
}

/// One more flow has entered.
pub proof fn lemma_entered_next<N: NetworkSimulator>(
    before: N,
    mid: N,
    after: N,
    flows: Seq<Arrival>,
    ids: Seq<FlowId>,
    flow: Arrival,
    id: FlowId,
)
    requires
        flows_entered(before, mid, flows, ids, flows.len()),
        ids.len() == flows.len(),
        mid.takes_in(flow, after, id),
    ensures
        flows_entered(before, after, flows.push(flow), ids.push(id), flows.len() + 1),
{
    let n = flows.len();
    let m = n + 1;
    lemma_entered_first(before, mid, flows, ids, flow, id, n);
    assert(flows.push(flow)[m - 1] == flow && ids.push(id)[m - 1] == id);
    assert((m - 1) as nat == n);
    assert(mid.takes_in(flow, after, id));
}

} // verus!
