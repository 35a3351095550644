//! When the flows of an iteration start.

use vstd::prelude::*;

use crate::simulator::ml_worker::{WorkerEventKind, WorkerId};
use crate::spine::critical_path::{are_earliest, finish_us, is_held_back, is_run_order, waits_for};
use crate::spine::job_model::{
    all_dep_edges, all_steps, are_iteration_flows, dep_edges, durations, flow_of, is_transfer, last_template,
    matching_receive, nth_receive, send_edges, step_edges, step_flows, transfers, worker_at, worker_steps, FlowTemplate,
    StepView, WorkerModelView,
};

verus! {

/// The place of an event of a worker among the steps of all workers.
pub open spec fn step_index(ws: Seq<WorkerModelView>, w: int, i: int) -> int
    decreases w,
{
    if w <= 0 {
        i
    } else {
        step_index(ws, w - 1, i) + ws[w - 1].events.len()
    }
}

proof fn lemma_step_index(ws: Seq<WorkerModelView>, times: Map<u64, u64>, n: nat, w: int, i: int)
    requires
        0 <= w < n <= ws.len(),
        0 <= i < ws[w].events.len(),
    ensures
        0 <= step_index(ws, w, i) < all_steps(ws, times, n).len(),
        all_steps(ws, times, n)[step_index(ws, w, i)] == worker_steps(ws[w], times)[i],
        all_steps(ws, times, w as nat).len() + i == step_index(ws, w, i),
    decreases n,
{
    if w < n - 1 {
        lemma_step_index(ws, times, (n - 1) as nat, w, i);
    } else {
        lemma_steps_before(ws, times, w as nat, i);
    }
}

proof fn lemma_steps_before(ws: Seq<WorkerModelView>, times: Map<u64, u64>, w: nat, i: int)
    requires
        w <= ws.len(),
    ensures
        all_steps(ws, times, w).len() + i == step_index(ws, w as int, i),
    decreases w,
{
    if w > 0 {
        lemma_steps_before(ws, times, (w - 1) as nat, i);
    }
}

/// Each event of a worker is a step: a computation takes its time, a send the time for its bytes, and a receive
/// none of its own.
pub proof fn lemma_step_of_event(ws: Seq<WorkerModelView>, times: Map<u64, u64>, w: int, i: int)
    requires
        0 <= w < ws.len(),
        0 <= i < ws[w].events.len(),
    ensures
        ({
            let steps = all_steps(ws, times, ws.len());
            let e = ws[w].events[i];
            let s = steps[step_index(ws, w, i)];
            &&& 0 <= step_index(ws, w, i) < steps.len()
            &&& s.worker == ws[w].worker_id && s.host == ws[w].host_index
            &&& s.kind == e.kind && s.template_id == e.template_id && s.deps == e.dependencies
            &&& e.kind == WorkerEventKind::Compute ==> (s.duration_us == if e.compute is Some {
                e.compute->0.duration_us
            } else {
                0
            })
            &&& e.kind == WorkerEventKind::FlowSend ==> s.peer == e.flow_send->0.dst_worker && s.duration_us
                == times[e.flow_send->0.size_bytes]
            &&& e.kind == WorkerEventKind::FlowReceive ==> s.peer == e.flow_receive->0.src_worker && s.duration_us == 0
        }),
{
    lemma_step_index(ws, times, ws.len(), w, i);
}

/// The step names another step of its worker as what it depends on: the last of those with the identifier.
pub open spec fn depends_on(steps: Seq<StepView>, v: int, u: int) -> bool {
    &&& steps[u].worker == steps[v].worker
    &&& steps[v].deps.contains(steps[u].template_id)
    &&& forall|x: int|
        u < x < steps.len() ==> !((#[trigger] steps[x]).worker == steps[u].worker && steps[x].template_id
            == steps[u].template_id)
}

/// The one step is a send, and the other the receive of what it sends: of the sends from the one worker to the
/// other it has the number that the other has of the receives there.
pub open spec fn delivers(steps: Seq<StepView>, u: int, v: int) -> bool {
    let a = steps[u].worker;
    let b = steps[v].worker;
    &&& steps[u].kind == WorkerEventKind::FlowSend && steps[u].peer == b
    &&& steps[v].kind == WorkerEventKind::FlowReceive && steps[v].peer == a
    &&& transfers(steps, WorkerEventKind::FlowSend, a, b, u as nat) == transfers(
        steps,
        WorkerEventKind::FlowReceive,
        b,
        a,
        v as nat,
    )
}

/// The one step has to end before the other starts.
pub open spec fn comes_first(steps: Seq<StepView>, u: int, v: int) -> bool {
    &&& 0 <= u < steps.len()
    &&& 0 <= v < steps.len()
    &&& depends_on(steps, v, u) || delivers(steps, u, v)
}

/// No step waits for itself: the steps can be ranked.
pub open spec fn is_rank(steps: Seq<StepView>, rank: spec_fn(int) -> nat) -> bool {
    forall|u: int, v: int| #[trigger] comes_first(steps, u, v) ==> rank(u) < rank(v)
}

/// When something that starts at a time and takes a time ends.
pub open spec fn ends_at(start_us: u64, duration_us: u64) -> int {
    if start_us + duration_us > u64::MAX {
        u64::MAX as int
    } else {
        start_us + duration_us
    }
}

/// How many of the first `n` steps are sends.
pub open spec fn send_number(steps: Seq<StepView>, n: nat) -> nat
    decreases n,
{
    if n == 0 {
        0
    } else {
        send_number(steps, (n - 1) as nat) + if steps[n - 1].kind == WorkerEventKind::FlowSend {
            1nat
        } else {
            0nat
        }
    }
}

proof fn lemma_last_template_is(steps: Seq<StepView>, worker: WorkerId, id: usize, n: nat)
    requires
        n <= steps.len() <= usize::MAX,
    ensures
        last_template(steps, worker, id, n) matches Some(u) ==> u < n && steps[u as int].worker == worker
            && steps[u as int].template_id == id && forall|x: int|
            u < x < n ==> !((#[trigger] steps[x]).worker == worker && steps[x].template_id == id),
        last_template(steps, worker, id, n) is None ==> forall|x: int|
            0 <= x < n ==> !((#[trigger] steps[x]).worker == worker && steps[x].template_id == id),
    decreases n,
{
    if n > 0 {
        lemma_last_template_is(steps, worker, id, (n - 1) as nat);
    }
}

proof fn lemma_dep_edges(steps: Seq<StepView>, v: usize, n: nat, e: (usize, usize))
    requires
        v < steps.len() <= usize::MAX,
        n <= steps[v as int].deps.len(),
    ensures
        dep_edges(steps, v, n).contains(e) == (e.1 == v && exists|k: int|
            0 <= k < n && last_template(steps, steps[v as int].worker, #[trigger] steps[v as int].deps[k], steps.len())
                == Some(e.0)),
    decreases n,
{
    if n > 0 {
        lemma_dep_edges(steps, v, (n - 1) as nat, e);
        let rest = dep_edges(steps, v, (n - 1) as nat);
        let all = dep_edges(steps, v, n);
        let worker = steps[v as int].worker;
        let deps = steps[v as int].deps;
        let found = last_template(steps, worker, deps[n - 1], steps.len());
        if let Some(u) = found {
            assert(all == rest.push((u, v)));
            assert(all[rest.len() as int] == (u, v));
            if rest.contains(e) {
                let i = choose|i: int| 0 <= i < rest.len() && rest[i] == e;
                assert(all[i] == e);
            }
            if all.contains(e) && e != (u, v) {
                let i = choose|i: int| 0 <= i < all.len() && all[i] == e;
                assert(rest[i] == e);
            }
        }
        if exists|k: int| 0 <= k < n && last_template(steps, worker, #[trigger] deps[k], steps.len()) == Some(e.0) {
            let k = choose|k: int| 0 <= k < n && last_template(steps, worker, #[trigger] deps[k], steps.len()) == Some(e.0);
            if k < n - 1 {
                assert(0 <= k < n - 1 && last_template(steps, worker, deps[k], steps.len()) == Some(e.0));
            }
        }
        if all.contains(e) {
            if !rest.contains(e) {
                assert(last_template(steps, worker, deps[n - 1], steps.len()) == Some(e.0));
            }
        }
    }
}

proof fn lemma_all_dep_edges(steps: Seq<StepView>, n: nat, e: (usize, usize))
    requires
        n <= steps.len() <= usize::MAX,
    ensures
        all_dep_edges(steps, n).contains(e) == (e.1 < n && dep_edges(steps, e.1, steps[e.1 as int].deps.len()).contains(e)),
    decreases n,
{
    if n > 0 {
        lemma_all_dep_edges(steps, (n - 1) as nat, e);
        let rest = all_dep_edges(steps, (n - 1) as nat);
        let mine = dep_edges(steps, (n - 1) as usize, steps[n - 1].deps.len());
        let all = all_dep_edges(steps, n);
        lemma_dep_edges(steps, (n - 1) as usize, steps[n - 1].deps.len(), e);
        assert(all == rest + mine);
        if rest.contains(e) {
            let i = choose|i: int| 0 <= i < rest.len() && rest[i] == e;
            assert(all[i] == e);
        }
        if mine.contains(e) {
            let i = choose|i: int| 0 <= i < mine.len() && mine[i] == e;
            assert(all[rest.len() + i] == e);
        }
        if all.contains(e) {
            let i = choose|i: int| 0 <= i < all.len() && all[i] == e;
            if i < rest.len() {
                assert(rest[i] == e);
            } else {
                assert(mine[i - rest.len()] == e);
            }
        }
    }
}

proof fn lemma_transfers_ascend(
    steps: Seq<StepView>,
    kind: WorkerEventKind,
    worker: WorkerId,
    peer: WorkerId,
    a: nat,
    b: nat,
)
    requires
        a <= b,
    ensures
        transfers(steps, kind, worker, peer, a) <= transfers(steps, kind, worker, peer, b),
        forall|x: int|
            a <= x < b && is_transfer(#[trigger] steps[x], kind, worker, peer) ==> transfers(steps, kind, worker, peer, a)
                < transfers(steps, kind, worker, peer, b),
    decreases b,
{
    if a < b {
        lemma_transfers_ascend(steps, kind, worker, peer, a, (b - 1) as nat);
    }
}

proof fn lemma_nth_receive_is(steps: Seq<StepView>, worker: WorkerId, peer: WorkerId, k: nat, n: nat, v: int)
    requires
        n <= steps.len() <= usize::MAX,
        0 <= v < steps.len(),
    ensures
        (nth_receive(steps, worker, peer, k, n) == Some(v as usize)) == (v < n && is_transfer(
            steps[v],
            WorkerEventKind::FlowReceive,
            worker,
            peer,
        ) && transfers(steps, WorkerEventKind::FlowReceive, worker, peer, v as nat) == k),
    decreases n,
{
    if n > 0 {
        let kind = WorkerEventKind::FlowReceive;
        lemma_nth_receive_is(steps, worker, peer, k, (n - 1) as nat, v);
        let earlier = nth_receive(steps, worker, peer, k, (n - 1) as nat);
        if earlier is Some {
            let u = earlier->0 as int;
            lemma_nth_below(steps, worker, peer, k, (n - 1) as nat);
            lemma_nth_receive_is(steps, worker, peer, k, (n - 1) as nat, u);
            assert(is_transfer(steps[u], kind, worker, peer));
            lemma_transfers_ascend(steps, kind, worker, peer, u as nat, (n - 1) as nat);
        }
    }
}

proof fn lemma_nth_below(steps: Seq<StepView>, worker: WorkerId, peer: WorkerId, k: nat, n: nat)
    requires
        n <= steps.len() <= usize::MAX,
    ensures
        nth_receive(steps, worker, peer, k, n) matches Some(v) ==> v < n,
    decreases n,
{
    if n > 0 {
        lemma_nth_below(steps, worker, peer, k, (n - 1) as nat);
    }
}

proof fn lemma_send_edges(steps: Seq<StepView>, n: nat, e: (usize, usize))
    requires
        n <= steps.len() <= usize::MAX,
    ensures
        send_edges(steps, n).contains(e) == (e.0 < n && steps[e.0 as int].kind == WorkerEventKind::FlowSend
            && matching_receive(steps, e.0 as int) == Some(e.1)),
    decreases n,
{
    if n > 0 {
        lemma_send_edges(steps, (n - 1) as nat, e);
        let rest = send_edges(steps, (n - 1) as nat);
        let all = send_edges(steps, n);
        if steps[n - 1].kind == WorkerEventKind::FlowSend {
            if let Some(v) = matching_receive(steps, n - 1) {
                let x = ((n - 1) as usize, v);
                assert(all == rest.push(x));
                assert(all[rest.len() as int] == x);
                if rest.contains(e) {
                    let i = choose|i: int| 0 <= i < rest.len() && rest[i] == e;
                    assert(all[i] == e);
                }
                if all.contains(e) && e != x {
                    let i = choose|i: int| 0 <= i < all.len() && all[i] == e;
                    assert(rest[i] == e);
                }
            }
        }
    }
}

/// The edges are those from each step to the steps that it has to end before.
proof fn lemma_edges_are(steps: Seq<StepView>, u: usize, v: usize)
    requires
        steps.len() <= usize::MAX,
        u < steps.len(),
        v < steps.len(),
    ensures
        step_edges(steps).contains((u, v)) == comes_first(steps, u as int, v as int),
{
    let e = (u, v);
    let deps = all_dep_edges(steps, steps.len());
    let sends = send_edges(steps, steps.len());
    let all = step_edges(steps);
    lemma_all_dep_edges(steps, steps.len(), e);
    lemma_dep_edges(steps, v, steps[v as int].deps.len(), e);
    lemma_send_edges(steps, steps.len(), e);
    if deps.contains(e) {
        let i = choose|i: int| 0 <= i < deps.len() && deps[i] == e;
        assert(all[i] == e);
    }
    if sends.contains(e) {
        let i = choose|i: int| 0 <= i < sends.len() && sends[i] == e;
        assert(all[deps.len() + i] == e);
    }
    if all.contains(e) {
        let i = choose|i: int| 0 <= i < all.len() && all[i] == e;
        if i < deps.len() {
            assert(deps[i] == e);
        } else {
            assert(sends[i - deps.len()] == e);
        }
    }
    let worker = steps[v as int].worker;
    let names = steps[v as int].deps;
    assert(deps.contains(e) == depends_on(steps, v as int, u as int)) by {
        if deps.contains(e) {
            let k = choose|k: int| 0 <= k < names.len() && last_template(steps, worker, #[trigger] names[k], steps.len()) == Some(u);
            lemma_last_template_is(steps, worker, names[k], steps.len());
            assert(names.contains(names[k]));
        }
        if depends_on(steps, v as int, u as int) {
            let id = steps[u as int].template_id;
            let k = choose|k: int| 0 <= k < names.len() && names[k] == id;
            lemma_last_template_is(steps, worker, names[k], steps.len());
            let found = last_template(steps, worker, names[k], steps.len());
            assert(found is Some);
            let x = found->0;
            if x < u {
                assert(!(steps[u as int].worker == worker && steps[u as int].template_id == id));
            }
            if x > u {
                assert(!(steps[x as int].worker == worker && steps[x as int].template_id == id));
            }
            assert(found == Some(u));
        }
    }
    let s = steps[u as int];
    lemma_nth_receive_is(
        steps,
        s.peer,
        s.worker,
        transfers(steps, WorkerEventKind::FlowSend, s.worker, s.peer, u as nat),
        steps.len(),
        v as int,
    );
}

/// If the steps can be ranked, every step runs.
proof fn lemma_all_run(steps: Seq<StepView>, order: Seq<usize>, rank: spec_fn(int) -> nat, v: usize)
    requires
        steps.len() <= usize::MAX,
        is_run_order(step_edges(steps), steps.len(), order),
        is_rank(steps, rank),
        v < steps.len(),
    ensures
        order.contains(v),
    decreases rank(v as int),
{
    if !order.contains(v) {
        let edges = step_edges(steps);
        assert(is_held_back(edges, order, v));
        let j = choose|j: int| 0 <= j < edges.len() && (#[trigger] edges[j]).1 == v && !order.contains(edges[j].0);
        let u = edges[j].0;
        lemma_edge_within(steps, j);
        assert(edges.contains((u, v)));
        lemma_edges_are(steps, u, v);
        lemma_all_run(steps, order, rank, u);
    }
}

/// The edges are between steps.
proof fn lemma_edge_within(steps: Seq<StepView>, j: int)
    requires
        steps.len() <= usize::MAX,
        0 <= j < step_edges(steps).len(),
    ensures
        step_edges(steps)[j].0 < steps.len(),
        step_edges(steps)[j].1 < steps.len(),
{
    let deps = all_dep_edges(steps, steps.len());
    let sends = send_edges(steps, steps.len());
    let e = step_edges(steps)[j];
    if j < deps.len() {
        assert(deps.contains(deps[j]));
        lemma_all_dep_edges(steps, steps.len(), e);
        lemma_dep_edges(steps, e.1, steps[e.1 as int].deps.len(), e);
        let names = steps[e.1 as int].deps;
        let worker = steps[e.1 as int].worker;
        let k = choose|k: int| 0 <= k < names.len() && last_template(steps, worker, #[trigger] names[k], steps.len()) == Some(e.0);
        lemma_last_template_is(steps, worker, names[k], steps.len());
    } else {
        assert(sends.contains(sends[j - deps.len()]));
        lemma_send_edges(steps, steps.len(), e);
        let s = steps[e.0 as int];
        lemma_nth_below(
            steps,
            s.peer,
            s.worker,
            transfers(steps, WorkerEventKind::FlowSend, s.worker, s.peer, e.0 as nat),
            steps.len(),
        );
    }
}

/// These are the earliest times at which the steps can start: none before a step that comes first has ended, and
/// each at once when the last of those has ended.
pub open spec fn are_start_times(steps: Seq<StepView>, start: Seq<u64>) -> bool {
    &&& start.len() == steps.len()
    &&& forall|u: int, v: int| #[trigger]
        comes_first(steps, u, v) ==> ends_at(start[u], steps[u].duration_us) <= start[v]
    &&& forall|v: int|
        0 <= v < steps.len() && #[trigger] start[v] != 0 ==> exists|u: int| #[trigger]
            comes_first(steps, u, v) && start[v] == ends_at(start[u], steps[u].duration_us)
}

/// The flows are those of the sends, in the order of the steps: each starts with its send, takes as long, and goes
/// from the host of the worker that sends to the host of the worker that receives.
pub open spec fn are_flows_of(
    ws: Seq<WorkerModelView>,
    steps: Seq<StepView>,
    start: Seq<u64>,
    flows: Seq<FlowTemplate>,
) -> bool {
    &&& flows.len() == send_number(steps, steps.len())
    &&& forall|u: int|
        0 <= u < steps.len() && (#[trigger] steps[u]).kind == WorkerEventKind::FlowSend ==> {
            let f = flows[send_number(steps, u as nat) as int];
            &&& send_number(steps, u as nat) < flows.len()
            &&& f.offset_us == start[u]
            &&& f.duration_us == steps[u].duration_us
            &&& f.src_host == steps[u].host
            &&& worker_at(ws, steps[u].peer, ws.len()) matches Some(w) ==> f.dst_host == ws[w as int].host_index
        }
}

proof fn lemma_send_number(steps: Seq<StepView>, a: nat, b: nat)
    requires
        a <= b,
    ensures
        send_number(steps, a) <= send_number(steps, b),
    decreases b,
{
    if a < b {
        lemma_send_number(steps, a, (b - 1) as nat);
    }
}

proof fn lemma_step_flows(
    ws: Seq<WorkerModelView>,
    steps: Seq<StepView>,
    est: Seq<u64>,
    hosts_per_leaf: nat,
    send_map: Map<(WorkerId, usize), usize>,
    n: nat,
    u: int,
)
    requires
        n <= steps.len(),
    ensures
        step_flows(ws, steps, est, hosts_per_leaf, send_map, n).len() == send_number(steps, n),
        0 <= u < n && steps[u].kind == WorkerEventKind::FlowSend ==> send_number(steps, u as nat) < send_number(steps, n)
            && step_flows(ws, steps, est, hosts_per_leaf, send_map, n)[send_number(steps, u as nat) as int] == flow_of(
            ws,
            steps[u],
            est[u],
            hosts_per_leaf,
            send_map,
        ),
    decreases n,
{
    if n > 0 {
        lemma_step_flows(ws, steps, est, hosts_per_leaf, send_map, (n - 1) as nat, u);
    }
}

/// The flows of an iteration start as early as they can. Nothing starts before what it depends on has ended, and a
/// receive is not over before what it receives has been sent.
pub proof fn lemma_flow_times(
    ws: Seq<WorkerModelView>,
    times: Map<u64, u64>,
    hosts_per_leaf: nat,
    send_map: Map<(WorkerId, usize), usize>,
    flows: Seq<FlowTemplate>,
    rank: spec_fn(int) -> nat,
)
    requires
        are_iteration_flows(ws, times, hosts_per_leaf, send_map, flows),
        all_steps(ws, times, ws.len()).len() <= usize::MAX,
        is_rank(all_steps(ws, times, ws.len()), rank),
    ensures
        exists|start: Seq<u64>| #[trigger]
            are_start_times(all_steps(ws, times, ws.len()), start) && are_flows_of(
                ws,
                all_steps(ws, times, ws.len()),
                start,
                flows,
            ),
{
    let steps = all_steps(ws, times, ws.len());
    let edges = step_edges(steps);
    let dur = durations(steps);
    let (order, est) = choose|order: Seq<usize>, est: Seq<u64>|
        {
            &&& #[trigger] is_run_order(edges, steps.len(), order)
            &&& #[trigger] are_earliest(edges, dur, order, est)
            &&& flows == step_flows(ws, steps, est, hosts_per_leaf, send_map, steps.len())
        };
    assert forall|u: int, v: int| #[trigger] comes_first(steps, u, v) implies ends_at(est[u], steps[u].duration_us)
        <= est[v] by {
        lemma_edges_are(steps, u as usize, v as usize);
        let e = (u as usize, v as usize);
        let j = choose|j: int| 0 <= j < edges.len() && edges[j] == e;
        lemma_all_run(steps, order, rank, u as usize);
        assert(finish_us(est, dur, edges[j].0 as int) <= est[edges[j].1 as int]);
    }
    assert forall|v: int| 0 <= v < steps.len() && #[trigger] est[v] != 0 implies exists|u: int| #[trigger]
        comes_first(steps, u, v) && est[v] == ends_at(est[u], steps[u].duration_us) by {
        assert(waits_for(edges, dur, order, est, v));
        let j = choose|j: int|
            0 <= j < edges.len() && (#[trigger] edges[j]).1 == v && order.contains(edges[j].0) && est[v] == finish_us(
                est,
                dur,
                edges[j].0 as int,
            );
        lemma_edge_within(steps, j);
        assert(edges.contains(edges[j]));
        lemma_edges_are(steps, edges[j].0, edges[j].1);
        assert(comes_first(steps, edges[j].0 as int, v));
    }
    assert(are_start_times(steps, est));
    lemma_step_flows(ws, steps, est, hosts_per_leaf, send_map, steps.len(), 0);
    assert forall|u: int| 0 <= u < steps.len() && (#[trigger] steps[u]).kind == WorkerEventKind::FlowSend implies ({
        let f = flows[send_number(steps, u as nat) as int];
        &&& send_number(steps, u as nat) < flows.len()
        &&& f.offset_us == est[u]
        &&& f.duration_us == steps[u].duration_us
        &&& f.src_host == steps[u].host
        &&& worker_at(ws, steps[u].peer, ws.len()) matches Some(w) ==> f.dst_host == ws[w as int].host_index
    }) by {
        lemma_step_flows(ws, steps, est, hosts_per_leaf, send_map, steps.len(), u);
    }
    assert(are_flows_of(ws, steps, est, flows));
}

/// Step `i` of the chain has to end before the next starts.
pub open spec fn is_linked(steps: Seq<StepView>, chain: Seq<int>, i: int) -> bool {
    comes_first(steps, chain[i], chain[i + 1])
}

/// Each step of the chain has to end before the next starts.
pub open spec fn is_chain(steps: Seq<StepView>, chain: Seq<int>) -> bool {
    &&& chain.len() >= 2
    &&& forall|i: int| 0 <= i < chain.len() - 1 ==> #[trigger] is_linked(steps, chain, i)
}

proof fn lemma_chain_times(steps: Seq<StepView>, start: Seq<u64>, chain: Seq<int>, n: int)
    requires
        are_start_times(steps, start),
        is_chain(steps, chain),
        1 <= n < chain.len(),
    ensures
        ends_at(start[chain[0]], steps[chain[0]].duration_us) <= start[chain[n]],
    decreases n,
{
    assert(is_linked(steps, chain, n - 1));
    assert(comes_first(steps, chain[n - 1], chain[n]));
    if n > 1 {
        lemma_chain_times(steps, start, chain, n - 1);
    }
}

/// A flow that waits for another, however many steps lie between them, starts no earlier than the other is
/// through. Where the other's data is received on the way, that is after the data has been sent.
pub proof fn lemma_flow_waits(
    ws: Seq<WorkerModelView>,
    times: Map<u64, u64>,
    hosts_per_leaf: nat,
    send_map: Map<(WorkerId, usize), usize>,
    flows: Seq<FlowTemplate>,
    rank: spec_fn(int) -> nat,
    chain: Seq<int>,
)
    requires
        are_iteration_flows(ws, times, hosts_per_leaf, send_map, flows),
        all_steps(ws, times, ws.len()).len() <= usize::MAX,
        is_rank(all_steps(ws, times, ws.len()), rank),
        is_chain(all_steps(ws, times, ws.len()), chain),
        all_steps(ws, times, ws.len())[chain[0]].kind == WorkerEventKind::FlowSend,
        all_steps(ws, times, ws.len())[chain.last()].kind == WorkerEventKind::FlowSend,
    ensures
        ({
            let steps = all_steps(ws, times, ws.len());
            let one = flows[send_number(steps, chain[0] as nat) as int];
            let other = flows[send_number(steps, chain.last() as nat) as int];
            ends_at(one.offset_us, one.duration_us) <= other.offset_us
        }),
{
    let steps = all_steps(ws, times, ws.len());
    lemma_flow_times(ws, times, hosts_per_leaf, send_map, flows, rank);
    let start = choose|start: Seq<u64>| #[trigger]
        are_start_times(steps, start) && are_flows_of(ws, steps, start, flows);
    lemma_chain_flows(ws, steps, start, flows, chain);
}

proof fn lemma_chain_flows(
    ws: Seq<WorkerModelView>,
    steps: Seq<StepView>,
    start: Seq<u64>,
    flows: Seq<FlowTemplate>,
    chain: Seq<int>,
)
    requires
        are_start_times(steps, start),
        are_flows_of(ws, steps, start, flows),
        is_chain(steps, chain),
        steps[chain[0]].kind == WorkerEventKind::FlowSend,
        steps[chain.last()].kind == WorkerEventKind::FlowSend,
    ensures
        ({
            let one = flows[send_number(steps, chain[0] as nat) as int];
            let other = flows[send_number(steps, chain.last() as nat) as int];
            ends_at(one.offset_us, one.duration_us) <= other.offset_us
        }),
{
    let n = chain.len() - 1;
    lemma_chain_times(steps, start, chain, n);
    assert(is_linked(steps, chain, 0));
    assert(is_linked(steps, chain, n - 1));
    let (u, v) = (chain[0], chain[n]);
    assert(0 <= u < steps.len() && 0 <= v < steps.len());
    assert(flows[send_number(steps, u as nat) as int].offset_us == start[u]);
    assert(flows[send_number(steps, v as nat) as int].offset_us == start[v]);
}

} // verus!
