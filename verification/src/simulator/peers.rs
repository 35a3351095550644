//! Whom the workers of a job send to and receive from once its ranks are in order.

use vstd::arithmetic::div_mod::{
    lemma_fundamental_div_mod, lemma_fundamental_div_mod_converse, lemma_mod_bound, lemma_mod_sub_multiples_vanish,
    lemma_small_mod,
};
use vstd::prelude::*;

use crate::simulator::ml_worker::{EventView, FlowKind, WorkerId};
use crate::simulator::ranks::{lemma_ring_inverse, retarget_event, RankLayout};

verus! {

/// Workers in the ring of a worker, and the first of them: all workers, or those of its stage.
pub open spec fn ring_size(layout: RankLayout) -> int {
    if layout.pipelined {
        layout.workers_per_stage as int
    } else {
        layout.num_workers as int
    }
}

/// The position of a worker in its stage, or among all workers.
pub open spec fn position(layout: RankLayout, worker: int) -> int {
    if layout.pipelined {
        worker % layout.workers_per_stage as int
    } else {
        worker
    }
}

/// A position, so many further on in a circle.
pub open spec fn is_further(from: int, to: int, by: int, size: int) -> bool {
    0 <= to < size && (to == from + by || to == from + by - size)
}

proof fn lemma_further(x: int, by: int, n: int)
    requires
        0 <= x < n,
        0 <= by <= n,
    ensures
        is_further(x, (x + by) % n, by, n),
{
    if x + by < n {
        lemma_small_mod((x + by) as nat, n as nat);
    } else {
        lemma_mod_sub_multiples_vanish(x + by, n);
        lemma_small_mod((x + by - n) as nat, n as nat);
    }
}

/// In a ring a worker sends so many places on as the stride says, within its stage, and receives from the worker whose
/// sends reach it.
pub proof fn lemma_ring_peers(layout: RankLayout, renaming: Map<WorkerId, WorkerId>, worker: WorkerId, e: EventView)
    requires
        layout.workers_per_stage > 0,
        layout.pipelined ==> layout.stride <= layout.workers_per_stage && layout.stage_start(worker)
            + layout.workers_per_stage <= usize::MAX,
        !layout.pipelined ==> layout.stride <= layout.num_workers && worker < layout.num_workers,
    ensures
        ({
            let after = retarget_event(layout, renaming, worker, e);
            &&& e.flow_send is Some && e.flow_send->0.flow_kind == FlowKind::Ring ==> {
                let dst = after.flow_send->0.dst_worker;
                &&& is_further(
                    position(layout, worker as int),
                    position(layout, dst as int),
                    layout.stride as int,
                    ring_size(layout),
                )
                &&& layout.pipelined ==> dst as int / layout.workers_per_stage as int == worker as int
                    / layout.workers_per_stage as int
            }
            &&& e.flow_receive is Some && e.flow_receive->0.flow_kind == FlowKind::Ring ==> {
                let src = after.flow_receive->0.src_worker;
                &&& is_further(
                    position(layout, src as int),
                    position(layout, worker as int),
                    layout.stride as int,
                    ring_size(layout),
                )
                &&& layout.pipelined ==> src as int / layout.workers_per_stage as int == worker as int
                    / layout.workers_per_stage as int
            }
        }),
{
    let by = layout.stride as int;
    if layout.pipelined {
        let n = layout.workers_per_stage as int;
        let q = worker as int / n;
        let start = layout.stage_start(worker);
        lemma_fundamental_div_mod(worker as int, n);
        lemma_mod_bound(worker as int, n);
        vstd::arithmetic::mul::lemma_mul_is_commutative(n, q);
        let x = worker - start;
        assert(x == position(layout, worker as int));
        lemma_further(x, by, n);
        lemma_further(x, n - by, n);
        let next = layout.ring_next(worker);
        let prev = layout.ring_prev(worker);
        assert(x + n - by == x + (n - by));
        lemma_mod_bound(x + by, n);
        lemma_mod_bound(x + (n - by), n);
        lemma_fundamental_div_mod_converse(next, n, q, next - start);
        lemma_fundamental_div_mod_converse(prev, n, q, prev - start);
    } else {
        let n = layout.num_workers as int;
        lemma_further(worker as int, by, n);
        lemma_further(worker as int, n - by, n);
        assert(worker + n - by == worker + (n - by));
    }
}

/// The worker that a send in a ring goes to receives in the ring from the sender.
pub proof fn lemma_ring_peers_match(
    layout: RankLayout,
    renaming: Map<WorkerId, WorkerId>,
    worker: WorkerId,
    send: EventView,
    receive: EventView,
)
    requires
        layout.workers_per_stage > 0,
        layout.pipelined ==> layout.stride <= layout.workers_per_stage && layout.stage_start(worker)
            + layout.workers_per_stage <= usize::MAX,
        !layout.pipelined ==> layout.stride <= layout.num_workers && worker < layout.num_workers,
        send.flow_send is Some && send.flow_send->0.flow_kind == FlowKind::Ring,
        receive.flow_receive is Some && receive.flow_receive->0.flow_kind == FlowKind::Ring,
    ensures
        ({
            let dst = retarget_event(layout, renaming, worker, send).flow_send->0.dst_worker;
            retarget_event(layout, renaming, dst, receive).flow_receive->0.src_worker == worker
        }),
{
    lemma_ring_inverse(layout, worker);
}

/// Between stages a worker sends to, and receives from, the worker at its place in the next stage on the side on which its
/// peer was.
pub proof fn lemma_stage_peers(layout: RankLayout, renaming: Map<WorkerId, WorkerId>, worker: WorkerId, e: EventView)
    requires
        layout.workers_per_stage > 0,
        worker + layout.workers_per_stage <= usize::MAX,
        e.flow_send is Some && e.flow_send->0.flow_kind == FlowKind::Pipeline,
    ensures
        ({
            let m = layout.workers_per_stage as int;
            let old_peer = e.flow_send->0.dst_worker as int;
            let dst = retarget_event(layout, renaming, worker, e).flow_send->0.dst_worker as int;
            &&& old_peer / m > worker as int / m && worker as int / m + 1 < layout.num_stages ==> dst / m == worker as int / m + 1
                && dst % m == worker as int % m
            &&& old_peer / m < worker as int / m ==> dst / m == worker as int / m - 1 && dst % m == worker as int % m
            &&& old_peer / m == worker as int / m ==> dst == old_peer
        }),
{
    let m = layout.workers_per_stage as int;
    let w = worker as int;
    let old_peer = e.flow_send->0.dst_worker as int;
    lemma_fundamental_div_mod(w, m);
    lemma_mod_bound(w, m);
    let q = w / m;
    vstd::arithmetic::div_mod::lemma_div_pos_is_pos(old_peer, m);
    assert(w + m == (q + 1) * m + w % m) by (nonlinear_arith)
        requires
            w == m * q + w % m,
    ;
    assert(w - m == (q - 1) * m + w % m) by (nonlinear_arith)
        requires
            w == m * q + w % m,
    ;
    lemma_fundamental_div_mod_converse(w + m, m, q + 1, w % m);
    lemma_fundamental_div_mod_converse(w - m, m, q - 1, w % m);
    if old_peer / m < q {
        assert(w - m >= 0) by (nonlinear_arith)
            requires
                w - m == (q - 1) * m + w % m,
                q >= 1,
                m > 0,
                w % m >= 0,
        ;
    }
}

/// The same holds of receives.
pub proof fn lemma_stage_sources(layout: RankLayout, renaming: Map<WorkerId, WorkerId>, worker: WorkerId, e: EventView, send: EventView)
    requires
        e.flow_receive is Some && e.flow_receive->0.flow_kind == FlowKind::Pipeline,
        send.flow_send is Some && send.flow_send->0.flow_kind == FlowKind::Pipeline,
        send.flow_send->0.dst_worker == e.flow_receive->0.src_worker,
    ensures
        retarget_event(layout, renaming, worker, e).flow_receive->0.src_worker == retarget_event(
            layout,
            renaming,
            worker,
            send,
        ).flow_send->0.dst_worker,
{
}

/// Other transfers keep their peers, under their new ranks. All else of an event stays as it is.
pub proof fn lemma_other_peers(layout: RankLayout, renaming: Map<WorkerId, WorkerId>, worker: WorkerId, e: EventView)
    ensures
        ({
            let after = retarget_event(layout, renaming, worker, e);
            &&& after.id == e.id && after.template_id == e.template_id && after.kind == e.kind && after.compute == e.compute
            &&& after.dependencies == e.dependencies && after.state == e.state
            &&& after.flow_send is Some == e.flow_send is Some
            &&& after.flow_receive is Some == e.flow_receive is Some
            &&& e.flow_send matches Some(f) ==> {
                let g = after.flow_send->0;
                &&& g.size_bytes == f.size_bytes && g.name == f.name && g.flow_kind == f.flow_kind
                &&& f.flow_kind != FlowKind::Ring && f.flow_kind != FlowKind::Pipeline ==> if renaming.contains_key(
                    f.dst_worker,
                ) {
                    g.dst_worker == renaming[f.dst_worker]
                } else {
                    g.dst_worker == f.dst_worker
                }
            }
            &&& e.flow_receive matches Some(f) ==> {
                let g = after.flow_receive->0;
                &&& g.size_bytes == f.size_bytes && g.name == f.name && g.flow_kind == f.flow_kind
                &&& f.flow_kind != FlowKind::Ring && f.flow_kind != FlowKind::Pipeline ==> if renaming.contains_key(
                    f.src_worker,
                ) {
                    g.src_worker == renaming[f.src_worker]
                } else {
                    g.src_worker == f.src_worker
                }
            }
        }),
{
}

} // verus!
