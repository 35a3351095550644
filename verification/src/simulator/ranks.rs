//! Ranks follow the placement: inside a segment of a job the worker identifiers ascend with the
//! hosts, so that rings visit the hosts from left to right.

use vstd::prelude::*;

use crate::simulator::ml_job::{
    ascending, job_flow_indices, lemma_ascending, total_sends, worker_hosts, wrapped, MLJob, PipelineStageInfo,
};
use crate::simulator::ml_worker::{EventView, FlowKind, FlowReceiveEvent, FlowSendEvent, MLWorker, WorkerId};
use crate::utils::data::{strictly_ascending, DHashMap};

verus! {

/// Worker `a` comes before worker `b`: by host, and on one host by identifier.
pub open spec fn placed_before(hosts: Map<WorkerId, usize>, a: WorkerId, b: WorkerId) -> bool {
    hosts[a] < hosts[b] || (hosts[a] == hosts[b] && a < b)
}

/// The workers stand in the order of their hosts.
pub open spec fn left_to_right(hosts: Map<WorkerId, usize>, s: Seq<WorkerId>) -> bool {
    forall|i: int, j: int| 0 <= i < j < s.len() ==> placed_before(hosts, s[i], s[j])
}

/// The placed workers of a segment from left to right.
pub open spec fn host_order(hosts: Map<WorkerId, usize>, segment: Seq<WorkerId>) -> Seq<WorkerId> {
    choose|s: Seq<WorkerId>|
        left_to_right(hosts, s) && s.to_set() == segment.to_set().intersect(hosts.dom())
}

proof fn lemma_left_to_right_unique(hosts: Map<WorkerId, usize>, a: Seq<WorkerId>, b: Seq<WorkerId>)
    requires
        left_to_right(hosts, a),
        left_to_right(hosts, b),
        a.to_set() == b.to_set(),
    ensures
        a == b,
    decreases a.len(),
{
    if a.len() == 0 {
        if b.len() > 0 {
            assert(b.to_set().contains(b[0]));
            assert(a.to_set().contains(b[0]));
        }
        assert(a =~= b);
    } else {
        assert(a.to_set().contains(a.last()));
        assert(b.contains(a.last()));
        assert(b.to_set().contains(b.last()));
        assert(a.contains(b.last()));
        let i = choose|i: int| 0 <= i < b.len() && b[i] == a.last();
        let j = choose|j: int| 0 <= j < a.len() && a[j] == b.last();
        if i < b.len() - 1 {
            assert(placed_before(hosts, b[i], b[b.len() - 1]));
        }
        if j < a.len() - 1 {
            assert(placed_before(hosts, a[j], a[a.len() - 1]));
        }
        assert(a.last() == b.last());
        let a2 = a.drop_last();
        let b2 = b.drop_last();
        assert forall|y: usize| a2.to_set().contains(y) == b2.to_set().contains(y) by {
            if a2.contains(y) {
                let k = choose|k: int| 0 <= k < a2.len() && a2[k] == y;
                assert(a[k] == y);
                assert(a.to_set().contains(y));
                assert(b.contains(y));
                let m = choose|m: int| 0 <= m < b.len() && b[m] == y;
                assert(placed_before(hosts, a[k], a[a.len() - 1]));
                assert(m < b.len() - 1);
                assert(b2[m] == y);
            }
            if b2.contains(y) {
                let k = choose|k: int| 0 <= k < b2.len() && b2[k] == y;
                assert(b[k] == y);
                assert(b.to_set().contains(y));
                assert(a.contains(y));
                let m = choose|m: int| 0 <= m < a.len() && a[m] == y;
                assert(placed_before(hosts, b[k], b[b.len() - 1]));
                assert(m < a.len() - 1);
                assert(a2[m] == y);
            }
        }
        assert(a2.to_set() =~= b2.to_set());
        lemma_left_to_right_unique(hosts, a2, b2);
        assert(a =~= a2.push(a.last()));
        assert(b =~= b2.push(b.last()));
    }
}

/// Whether worker `a` comes before worker `b`.
fn comes_before(hosts: &DHashMap<WorkerId, usize>, a: WorkerId, b: WorkerId) -> (r: bool)
    requires
        hosts@.contains_key(a),
        hosts@.contains_key(b),
    ensures
        r == placed_before(hosts@, a, b),
{
    let ha: usize = *hosts.get(&a).unwrap();
    let hb: usize = *hosts.get(&b).unwrap();
    ha < hb || (ha == hb && a < b)
}

/// The placed workers of a segment from left to right.
fn order_by_host(hosts: &DHashMap<WorkerId, usize>, segment: &Vec<WorkerId>) -> (r: Vec<WorkerId>)
    requires
        strictly_ascending(segment@),
    ensures
        r@ == host_order(hosts@, segment@),
        r@.len() <= segment@.len(),
        left_to_right(hosts@, r@),
        r@.to_set() == segment@.to_set().intersect(hosts@.dom()),
{
    let mut r: Vec<WorkerId> = Vec::new();
    let mut i: usize = 0;
    proof {
        assert(r@.to_set() =~= segment@.take(0).to_set().intersect(hosts@.dom()));
    }
    while i < segment.len()
        invariant
            i <= segment.len(),
            strictly_ascending(segment@),
            r@.len() <= i,
            left_to_right(hosts@, r@),
            r@.to_set() == segment@.take(i as int).to_set().intersect(hosts@.dom()),
        decreases segment.len() - i,
    {
        let x: usize = segment[i];
        let ghost before = r@;
        proof {
            assert(segment@.take(i + 1) == segment@.take(i as int).push(x));
            crate::utils::data::lemma_push_to_set(segment@.take(i as int), x);
            if before.contains(x) {
                assert(before.to_set().contains(x));
                assert(segment@.take(i as int).contains(x));
                let k = choose|k: int| 0 <= k < i && segment@.take(i as int)[k] == x;
                assert(segment@[k] == segment@[i as int]);
            }
            assert forall|k: int| 0 <= k < before.len() implies hosts@.contains_key(#[trigger] before[k]) by {
                assert(before.to_set().contains(before[k]));
            }
        }
        match hosts.get(&x) {
            Some(_) => {
                let mut p: usize = r.len();
                while p > 0 && comes_before(hosts, x, r[p - 1])
                    invariant
                        p <= r.len(),
                        r@ == before,
                        hosts@.contains_key(x),
                        forall|k: int| 0 <= k < before.len() ==> hosts@.contains_key(#[trigger] before[k]),
                        forall|k: int| p <= k < before.len() ==> placed_before(hosts@, x, #[trigger] before[k]),
                    decreases p,
                {
                    p -= 1;
                }
                proof {
                    if p > 0 {
                        assert(before.contains(before[p - 1]));
                        assert(placed_before(hosts@, before[p - 1], x));
                        assert forall|k: int| 0 <= k < p implies placed_before(hosts@, #[trigger] before[k], x) by {
                            if k < p - 1 {
                                assert(placed_before(hosts@, before[k], before[p - 1]));
                            }
                        }
                    }
                }
                r.insert(p, x);
                proof {
                    assert(r@ == before.insert(p as int, x));
                    assert forall|y: usize| r@.to_set().contains(y) == before.to_set().insert(x).contains(y) by {
                        if before.contains(y) {
                            let k = choose|k: int| 0 <= k < before.len() && before[k] == y;
                            if k < p {
                                assert(r@[k] == y);
                            } else {
                                assert(r@[k + 1] == y);
                            }
                        }
                        assert(r@[p as int] == x);
                        if r@.contains(y) {
                            let k = choose|k: int| 0 <= k < r@.len() && r@[k] == y;
                            if k < p {
                                assert(before[k] == y);
                            } else if k > p {
                                assert(before[k - 1] == y);
                            }
                        }
                    }
                    assert(r@.to_set() =~= before.to_set().insert(x));
                    assert(r@.to_set() =~= segment@.take(i + 1).to_set().intersect(hosts@.dom()));
                }
            },
            None => {
                proof {
                    assert(r@.to_set() =~= segment@.take(i + 1).to_set().intersect(hosts@.dom()));
                }
            },
        }
        i += 1;
    }
    proof {
        assert(segment@.take(segment@.len() as int) == segment@);
        lemma_left_to_right_unique(hosts@, r@, host_order(hosts@, segment@));
    }
    r
}

/// `m` with the first `n` workers of `order` renamed to the corresponding `targets`, where that
/// changes anything.
pub open spec fn rename_first(m: Map<WorkerId, WorkerId>, order: Seq<WorkerId>, targets: Seq<WorkerId>, n: nat) -> Map<
    WorkerId,
    WorkerId,
>
    decreases n,
{
    if n == 0 {
        m
    } else {
        let before = rename_first(m, order, targets, (n - 1) as nat);
        if order[n - 1] != targets[n - 1] {
            before.insert(order[n - 1], targets[n - 1])
        } else {
            before
        }
    }
}

/// The workers of a pipeline stage.
pub open spec fn stage_segment(info: PipelineStageInfo, stage: nat) -> Seq<WorkerId> {
    Seq::new(info.workers_per_stage as nat, |i: int| (stage * info.workers_per_stage + i) as usize)
}

/// The renaming in the first `n` stages.
pub open spec fn rename_stages(hosts: Map<WorkerId, usize>, info: PipelineStageInfo, n: nat) -> Map<WorkerId, WorkerId>
    decreases n,
{
    if n == 0 {
        Map::empty()
    } else {
        let segment = stage_segment(info, (n - 1) as nat);
        let order = host_order(hosts, segment);
        rename_first(rename_stages(hosts, info, (n - 1) as nat), order, segment, order.len())
    }
}

/// The renaming that puts the ranks of a job in host order: stage by stage in a pipeline, over all
/// workers otherwise.
pub open spec fn rank_renaming(
    workers: Set<WorkerId>,
    hosts: Map<WorkerId, usize>,
    stages: Option<PipelineStageInfo>,
) -> Map<WorkerId, WorkerId> {
    match stages {
        Some(info) => rename_stages(hosts, info, info.num_stages as nat),
        None => {
            let segment = ascending(workers);
            let order = host_order(hosts, segment);
            rename_first(Map::empty(), order, segment, order.len())
        },
    }
}

/// Adds the renaming of one segment to `m`.
fn rename_segment(m: &mut DHashMap<WorkerId, WorkerId>, hosts: &DHashMap<WorkerId, usize>, segment: &Vec<WorkerId>)
    requires
        strictly_ascending(segment@),
    ensures
        final(m)@ == rename_first(
            old(m)@,
            host_order(hosts@, segment@),
            segment@,
            host_order(hosts@, segment@).len(),
        ),
{
    let order = order_by_host(hosts, segment);
    let mut n: usize = 0;
    while n < order.len()
        invariant
            n <= order.len(),
            order@.len() <= segment@.len(),
            m@ == rename_first(old(m)@, order@, segment@, n as nat),
        decreases order.len() - n,
    {
        if order[n] != segment[n] {
            m.insert(order[n], segment[n]);
        }
        n += 1;
    }
}

/// The renaming that puts the ranks of a job in host order.
pub fn compute_rank_renaming(
    workers: &DHashMap<WorkerId, MLWorker>,
    hosts: &DHashMap<WorkerId, usize>,
    stages: &Option<PipelineStageInfo>,
) -> (r: DHashMap<WorkerId, WorkerId>)
    requires
        stages matches Some(info) ==> info.num_stages * info.workers_per_stage <= usize::MAX,
    ensures
        r@ == rank_renaming(workers@.dom(), hosts@, *stages),
        injective(r@),
{
    let mut m: DHashMap<WorkerId, WorkerId> = DHashMap::new();
    match stages {
        Some(info) => {
            let mut stage: usize = 0;
            while stage < info.num_stages
                invariant
                    stage <= info.num_stages,
                    info.num_stages * info.workers_per_stage <= usize::MAX,
                    m@ == rename_stages(hosts@, *info, stage as nat),
                decreases info.num_stages - stage,
            {
                proof {
                    assert(stage * info.workers_per_stage + info.workers_per_stage <= info.num_stages
                        * info.workers_per_stage) by (nonlinear_arith)
                        requires
                            stage + 1 <= info.num_stages,
                            info.workers_per_stage >= 0,
                    ;
                }
                let range = info.stage_workers(stage);
                let mut segment: Vec<WorkerId> = Vec::new();
                let mut w: usize = range.start;
                while w < range.end
                    invariant
                        range.start <= w <= range.end,
                        segment@.len() == w - range.start,
                        forall|i: int| 0 <= i < segment@.len() ==> segment@[i] == range.start + i,
                    decreases range.end - w,
                {
                    segment.push(w);
                    w += 1;
                }
                proof {
                    assert(segment@ =~= stage_segment(*info, stage as nat));
                }
                rename_segment(&mut m, hosts, &segment);
                stage += 1;
            }
            proof {
                lemma_rank_renaming_injective(workers@.dom(), hosts@, *stages);
            }
        },
        None => {
            let segment = workers.sorted_keys();
            proof {
                lemma_ascending(segment@, workers@.dom());
                lemma_rank_renaming_injective(workers@.dom(), hosts@, *stages);
            }
            rename_segment(&mut m, hosts, &segment);
        },
    }
    m
}

/// What the peers of a job's flows are computed from.
#[derive(Debug, Clone, Copy, PartialEq, Eq, Structural)]
pub struct RankLayout {
    pub num_workers: usize,
    pub pipelined: bool,
    pub workers_per_stage: usize,
    pub num_stages: usize,
    /// Distance of neighbours in a ring.
    pub stride: usize,
}

/// The layout of a job.
pub open spec fn job_layout(num_workers: usize, ring_count: usize, stages: Option<PipelineStageInfo>) -> RankLayout {
    match stages {
        Some(info) => RankLayout {
            num_workers,
            pipelined: true,
            workers_per_stage: info.workers_per_stage,
            num_stages: info.num_stages,
            stride: if info.rings_per_stage > 0 {
                info.workers_per_stage / info.rings_per_stage
            } else {
                1
            },
        },
        None => RankLayout {
            num_workers,
            pipelined: false,
            workers_per_stage: num_workers,
            num_stages: 1,
            stride: ring_count,
        },
    }
}

/// The layout of a job.
pub fn compute_layout(num_workers: usize, ring_count: usize, stages: &Option<PipelineStageInfo>) -> (r: RankLayout)
    ensures
        r == job_layout(num_workers, ring_count, *stages),
{
    match stages {
        Some(info) => RankLayout {
            num_workers,
            pipelined: true,
            workers_per_stage: info.workers_per_stage,
            num_stages: info.num_stages,
            stride: if info.rings_per_stage > 0 {
                info.workers_per_stage / info.rings_per_stage
            } else {
                1
            },
        },
        None => RankLayout {
            num_workers,
            pipelined: false,
            workers_per_stage: num_workers,
            num_stages: 1,
            stride: ring_count,
        },
    }
}

impl RankLayout {
    /// The stage of a worker.
    pub open spec fn stage(self, worker: WorkerId) -> int {
        worker as int / self.workers_per_stage as int
    }

    /// The first worker of the stage of a worker.
    pub open spec fn stage_start(self, worker: WorkerId) -> int {
        self.stage(worker) * self.workers_per_stage
    }

    /// The next worker of the ring that a worker belongs to.
    pub open spec fn ring_next(self, worker: WorkerId) -> int {
        if self.pipelined {
            self.stage_start(worker) + (worker - self.stage_start(worker) + self.stride) % (
            self.workers_per_stage as int)
        } else {
            (worker + self.stride) % (self.num_workers as int)
        }
    }

    /// The previous worker of the ring that a worker belongs to.
    pub open spec fn ring_prev(self, worker: WorkerId) -> int {
        if self.pipelined {
            self.stage_start(worker) + (worker - self.stage_start(worker) + self.workers_per_stage - self.stride) % (
            self.workers_per_stage as int)
        } else {
            (worker + self.num_workers - self.stride) % (self.num_workers as int)
        }
    }

    /// The peer in the neighbouring stage on the side of the old peer.
    pub open spec fn pipeline_peer(self, worker: WorkerId, old_peer: WorkerId) -> int {
        let stage = self.stage(worker);
        let peer_stage = self.stage(old_peer);
        if peer_stage > stage && stage < self.num_stages - 1 {
            worker + self.workers_per_stage
        } else if peer_stage < stage && stage > 0 {
            worker - self.workers_per_stage
        } else {
            old_peer as int
        }
    }

    /// The next worker of the ring can be computed in machine integers.
    pub open spec fn next_in_range(self, worker: WorkerId) -> bool {
        if self.pipelined {
            &&& worker - self.stage_start(worker) + self.stride <= usize::MAX
            &&& self.ring_next(worker) <= usize::MAX
        } else {
            worker + self.stride <= usize::MAX
        }
    }

    /// The previous worker of the ring can be computed in machine integers.
    pub open spec fn prev_in_range(self, worker: WorkerId) -> bool {
        if self.pipelined {
            &&& self.stride <= worker - self.stage_start(worker) + self.workers_per_stage <= usize::MAX
            &&& self.ring_prev(worker) <= usize::MAX
        } else {
            self.stride <= worker + self.num_workers <= usize::MAX
        }
    }

    /// The peer in the neighbouring stage can be computed in machine integers.
    pub open spec fn pipeline_in_range(self, worker: WorkerId, old_peer: WorkerId) -> bool {
        self.stage(old_peer) > self.stage(worker) ==> {
            &&& self.num_stages > 0
            &&& self.stage(worker) < self.num_stages - 1 ==> worker + self.workers_per_stage <= usize::MAX
        }
    }
}

proof fn lemma_turn_back(x: int, d: int, n: int)
    requires
        0 <= x < n,
        0 <= d <= n,
    ensures
        0 <= (x + d) % n < n,
        ((x + d) % n + n - d) % n == x,
        0 <= (x + n - d) % n < n,
        ((x + n - d) % n + d) % n == x,
{
    vstd::arithmetic::div_mod::lemma_mod_bound(x + d, n);
    vstd::arithmetic::div_mod::lemma_mod_bound(x + n - d, n);
    vstd::arithmetic::div_mod::lemma_small_mod(x as nat, n as nat);
    let up = (x + d) % n;
    if x + d < n {
        vstd::arithmetic::div_mod::lemma_small_mod((x + d) as nat, n as nat);
        vstd::arithmetic::div_mod::lemma_mod_add_multiples_vanish(x, n);
        assert(up + n - d == n + x);
    } else {
        vstd::arithmetic::div_mod::lemma_mod_add_multiples_vanish(x + d - n, n);
        assert((x + d) % n == (x + d - n) % n);
        if x + d - n < n {
            vstd::arithmetic::div_mod::lemma_small_mod((x + d - n) as nat, n as nat);
        }
        assert(up + n - d == x);
    }
    let down = (x + n - d) % n;
    if x + n - d < n {
        vstd::arithmetic::div_mod::lemma_small_mod((x + n - d) as nat, n as nat);
        vstd::arithmetic::div_mod::lemma_mod_add_multiples_vanish(x, n);
        assert(down + d == n + x);
    } else {
        vstd::arithmetic::div_mod::lemma_mod_add_multiples_vanish(x - d, n);
        assert((x + n - d) % n == (x - d) % n);
        vstd::arithmetic::div_mod::lemma_small_mod((x - d) as nat, n as nat);
        assert(down + d == x);
    }
}

/// In a ring the worker before the next one, and the one after the previous one, is the worker itself; the
/// next and the previous one are in its stage.
pub proof fn lemma_ring_inverse(layout: RankLayout, worker: WorkerId)
    requires
        layout.workers_per_stage > 0,
        layout.pipelined ==> layout.stride <= layout.workers_per_stage && layout.stage_start(worker)
            + layout.workers_per_stage <= usize::MAX,
        !layout.pipelined ==> layout.stride <= layout.num_workers && worker < layout.num_workers,
    ensures
        layout.ring_prev(layout.ring_next(worker) as usize) == worker,
        layout.ring_next(layout.ring_prev(worker) as usize) == worker,
        layout.pipelined ==> layout.stage(layout.ring_next(worker) as usize) == layout.stage(worker),
        layout.pipelined ==> layout.stage(layout.ring_prev(worker) as usize) == layout.stage(worker),
{
    if layout.pipelined {
        let n = layout.workers_per_stage as int;
        let q = worker as int / n;
        let start = layout.stage_start(worker);
        vstd::arithmetic::div_mod::lemma_fundamental_div_mod(worker as int, n);
        vstd::arithmetic::div_mod::lemma_mod_bound(worker as int, n);
        vstd::arithmetic::mul::lemma_mul_is_commutative(n, q);
        let x = worker - start;
        lemma_turn_back(x, layout.stride as int, n);
        let next = layout.ring_next(worker);
        let prev = layout.ring_prev(worker);
        vstd::arithmetic::div_mod::lemma_fundamental_div_mod_converse(next, n, q, next - start);
        vstd::arithmetic::div_mod::lemma_fundamental_div_mod_converse(prev, n, q, prev - start);
    } else {
        lemma_turn_back(worker as int, layout.stride as int, layout.num_workers as int);
    }
}

/// The destination of a send after the ranks have changed.
pub open spec fn retarget_send(
    layout: RankLayout,
    renaming: Map<WorkerId, WorkerId>,
    worker: WorkerId,
    f: FlowSendEvent,
) -> FlowSendEvent {
    FlowSendEvent {
        dst_worker: match f.flow_kind {
            FlowKind::Ring => layout.ring_next(worker) as usize,
            FlowKind::Pipeline => layout.pipeline_peer(worker, f.dst_worker) as usize,
            _ => if renaming.contains_key(f.dst_worker) {
                renaming[f.dst_worker]
            } else {
                f.dst_worker
            },
        },
        ..f
    }
}

/// The source of a receive after the ranks have changed.
pub open spec fn retarget_receive(
    layout: RankLayout,
    renaming: Map<WorkerId, WorkerId>,
    worker: WorkerId,
    f: FlowReceiveEvent,
) -> FlowReceiveEvent {
    FlowReceiveEvent {
        src_worker: match f.flow_kind {
            FlowKind::Ring => layout.ring_prev(worker) as usize,
            FlowKind::Pipeline => layout.pipeline_peer(worker, f.src_worker) as usize,
            _ => if renaming.contains_key(f.src_worker) {
                renaming[f.src_worker]
            } else {
                f.src_worker
            },
        },
        ..f
    }
}

/// An event after the ranks have changed.
pub open spec fn retarget_event(
    layout: RankLayout,
    renaming: Map<WorkerId, WorkerId>,
    worker: WorkerId,
    e: EventView,
) -> EventView {
    EventView {
        flow_send: match e.flow_send {
            Some(f) => Some(retarget_send(layout, renaming, worker, f)),
            None => None,
        },
        flow_receive: match e.flow_receive {
            Some(f) => Some(retarget_receive(layout, renaming, worker, f)),
            None => None,
        },
        ..e
    }
}

/// The peers of an event can be computed.
pub open spec fn event_in_range(layout: RankLayout, worker: WorkerId, e: EventView) -> bool {
    &&& e.flow_send matches Some(f) ==> match f.flow_kind {
        FlowKind::Ring => layout.next_in_range(worker),
        FlowKind::Pipeline => layout.pipeline_in_range(worker, f.dst_worker),
        _ => true,
    }
    &&& e.flow_receive matches Some(f) ==> match f.flow_kind {
        FlowKind::Ring => layout.prev_in_range(worker),
        FlowKind::Pipeline => layout.pipeline_in_range(worker, f.src_worker),
        _ => true,
    }
}

impl RankLayout {
    fn compute_stage_start(&self, worker: WorkerId) -> (r: usize)
        requires
            self.workers_per_stage > 0,
        ensures
            r == self.stage_start(worker),
            r <= worker,
            worker - r < self.workers_per_stage,
    {
        proof {
            vstd::arithmetic::div_mod::lemma_fundamental_div_mod(worker as int, self.workers_per_stage as int);
            vstd::arithmetic::mul::lemma_mul_is_commutative(
                self.workers_per_stage as int,
                worker as int / self.workers_per_stage as int,
            );
        }
        (worker / self.workers_per_stage) * self.workers_per_stage
    }

    /// The peer of a send in a ring.
    pub fn compute_ring_next(&self, worker: WorkerId) -> (r: usize)
        requires
            self.workers_per_stage > 0,
            !self.pipelined ==> self.workers_per_stage == self.num_workers,
            self.next_in_range(worker),
        ensures
            r == self.ring_next(worker),
    {
        if self.pipelined {
            let start: usize = self.compute_stage_start(worker);
            let local: usize = worker - start;
            start + (local + self.stride) % self.workers_per_stage
        } else {
            (worker + self.stride) % self.num_workers
        }
    }

    /// The peer of a receive in a ring.
    pub fn compute_ring_prev(&self, worker: WorkerId) -> (r: usize)
        requires
            self.workers_per_stage > 0,
            !self.pipelined ==> self.workers_per_stage == self.num_workers,
            self.prev_in_range(worker),
        ensures
            r == self.ring_prev(worker),
    {
        if self.pipelined {
            let start: usize = self.compute_stage_start(worker);
            let local: usize = worker - start;
            start + (local + self.workers_per_stage - self.stride) % self.workers_per_stage
        } else {
            (worker + self.num_workers - self.stride) % self.num_workers
        }
    }

    /// The peer of a transfer between stages.
    pub fn compute_pipeline_peer(&self, worker: WorkerId, old_peer: WorkerId) -> (r: usize)
        requires
            self.workers_per_stage > 0,
            self.pipeline_in_range(worker, old_peer),
        ensures
            r == self.pipeline_peer(worker, old_peer),
    {
        let stage: usize = worker / self.workers_per_stage;
        let peer_stage: usize = old_peer / self.workers_per_stage;
        proof {
            if stage > 0 {
                vstd::arithmetic::div_mod::lemma_fundamental_div_mod(worker as int, self.workers_per_stage as int);
                assert(self.workers_per_stage * stage >= self.workers_per_stage) by (nonlinear_arith)
                    requires
                        stage >= 1,
                        self.workers_per_stage >= 0,
                ;
            }
        }
        if peer_stage > stage && stage < self.num_stages - 1 {
            worker + self.workers_per_stage
        } else if peer_stage < stage && stage > 0 {
            worker - self.workers_per_stage
        } else {
            old_peer
        }
    }
}

/// The new name of a worker.
fn renamed(renaming: &DHashMap<WorkerId, WorkerId>, worker: WorkerId) -> (r: WorkerId)
    ensures
        r == (if renaming@.contains_key(worker) {
            renaming@[worker]
        } else {
            worker
        }),
{
    match renaming.get(&worker) {
        Some(w) => *w,
        None => worker,
    }
}

/// Rewrites the peers in the event graph of a worker.
pub fn retarget_templates(layout: RankLayout, renaming: &DHashMap<WorkerId, WorkerId>, id: WorkerId, worker: &mut MLWorker)
    requires
        layout.workers_per_stage > 0,
        !layout.pipelined ==> layout.workers_per_stage == layout.num_workers,
        forall|i: int|
            0 <= i < old(worker).templates().len() ==> event_in_range(layout, id, #[trigger] old(worker).templates()[i]),
    ensures
        final(worker).templates() == old(worker).templates().map_values(
            |e: EventView| retarget_event(layout, renaming@, id, e),
        ),
        *final(worker) == (MLWorker { template_events: final(worker).template_events, ..*old(worker) }),
{
    let ghost t = worker.templates();
    let n: usize = worker.template_events.len();
    let mut i: usize = 0;
    while i < n
        invariant
            i <= n,
            n == worker.template_events@.len(),
            t == old(worker).templates(),
            t.len() == n,
            layout.workers_per_stage > 0,
            !layout.pipelined ==> layout.workers_per_stage == layout.num_workers,
            forall|j: int| 0 <= j < t.len() ==> event_in_range(layout, id, #[trigger] t[j]),
            forall|j: int| 0 <= j < i ==> worker.template_events@[j]@ == retarget_event(layout, renaming@, id, #[trigger] t[j]),
            forall|j: int| i <= j < n ==> worker.template_events@[j]@ == #[trigger] t[j],
            *worker == (MLWorker { template_events: worker.template_events, ..*old(worker) }),
        decreases n - i,
    {
        proof {
            assert(event_in_range(layout, id, t[i as int]));
        }
        let ghost before = worker.template_events@;
        let ev = &mut worker.template_events[i];
        if let Some(send) = &mut ev.flow_send {
            let dst: usize = send.dst_worker;
            send.dst_worker = match send.flow_kind {
                FlowKind::Ring => layout.compute_ring_next(id),
                FlowKind::Pipeline => layout.compute_pipeline_peer(id, dst),
                FlowKind::AllToAll => renamed(renaming, dst),
                FlowKind::Other => renamed(renaming, dst),
            };
        }
        if let Some(recv) = &mut ev.flow_receive {
            let src: usize = recv.src_worker;
            recv.src_worker = match recv.flow_kind {
                FlowKind::Ring => layout.compute_ring_prev(id),
                FlowKind::Pipeline => layout.compute_pipeline_peer(id, src),
                FlowKind::AllToAll => renamed(renaming, src),
                FlowKind::Other => renamed(renaming, src),
            };
        }
        i += 1;
    }
    proof {
        assert(worker.templates() =~= t.map_values(|e: EventView| retarget_event(layout, renaming@, id, e)));
    }
}

/// Worker `from` is renamed to `to`.
pub open spec fn moves(workers: Map<WorkerId, MLWorker>, renaming: Map<WorkerId, WorkerId>, from: WorkerId, to: WorkerId) -> bool {
    workers.contains_key(from) && renaming.contains_key(from) && renaming[from] == to
}

/// The workers under their new names. A worker without a new name stays, unless another takes its
/// name.
pub open spec fn rename_workers(workers: Map<WorkerId, MLWorker>, renaming: Map<WorkerId, WorkerId>) -> Map<
    WorkerId,
    MLWorker,
> {
    Map::new(
        |k: WorkerId|
            (workers.contains_key(k) && !renaming.contains_key(k)) || (exists|o: WorkerId|
                moves(workers, renaming, o, k)),
        |k: WorkerId|
            if exists|o: WorkerId| moves(workers, renaming, o, k) {
                MLWorker { id: k, ..workers[choose|o: WorkerId| moves(workers, renaming, o, k)] }
            } else {
                workers[k]
            },
    )
}

/// No two workers get the same name.
pub open spec fn injective(renaming: Map<WorkerId, WorkerId>) -> bool {
    forall|a: WorkerId, b: WorkerId|
        renaming.contains_key(a) && renaming.contains_key(b) && renaming[a] == renaming[b] ==> a == b
}

/// Renames the workers.
fn apply_renaming(workers: &mut DHashMap<WorkerId, MLWorker>, renaming: &DHashMap<WorkerId, WorkerId>)
    requires
        injective(renaming@),
    ensures
        final(workers)@ == rename_workers(old(workers)@, renaming@),
{
    let ghost w0 = workers@;
    let keys = renaming.sorted_keys();
    let mut extracted: Vec<(WorkerId, MLWorker)> = Vec::new();
    let mut i: usize = 0;
    while i < keys.len()
        invariant
            i <= keys.len(),
            keys@.to_set() == renaming@.dom(),
            strictly_ascending(keys@),
            forall|k: WorkerId| #[trigger]
                workers@.contains_key(k) <==> w0.contains_key(k) && !keys@.take(i as int).contains(k),
            forall|k: WorkerId| workers@.contains_key(k) ==> #[trigger] workers@[k] == w0[k],
            forall|j: int|
                0 <= j < extracted@.len() ==> renaming@.contains_key((#[trigger] extracted@[j]).0)
                    && w0.contains_key(extracted@[j].0) && extracted@[j].1 == w0[extracted@[j].0],
            forall|k: WorkerId|
                w0.contains_key(k) && #[trigger] keys@.take(i as int).contains(k) ==> exists|j: int|
                    0 <= j < extracted@.len() && (#[trigger] extracted@[j]).0 == k,
        decreases keys.len() - i,
    {
        let old_id: usize = keys[i];
        let ghost ex0 = extracted@;
        proof {
            assert(keys@.to_set().contains(old_id));
            assert(keys@.take(i + 1) =~= keys@.take(i as int).push(old_id));
            assert forall|k: WorkerId| #[trigger] keys@.take(i + 1).contains(k) <==> keys@.take(i as int).contains(k) || k
                == old_id by {
                if keys@.take(i as int).contains(k) {
                    let m = choose|m: int| 0 <= m < i && keys@.take(i as int)[m] == k;
                    assert(keys@.take(i + 1)[m] == k);
                }
                assert(keys@.take(i + 1)[i as int] == old_id);
            }
            if keys@.take(i as int).contains(old_id) {
                let m = choose|m: int| 0 <= m < i && keys@.take(i as int)[m] == old_id;
                assert(keys@[m] < keys@[i as int]);
            }
        }
        if let Some(worker) = workers.remove(&old_id) {
            extracted.push((old_id, worker));
            proof {
                assert(extracted@[ex0.len() as int].0 == old_id);
            }
        }
        proof {
            assert forall|k: WorkerId| w0.contains_key(k) && #[trigger] keys@.take(i + 1).contains(k) implies exists|j: int|
                0 <= j < extracted@.len() && (#[trigger] extracted@[j]).0 == k by {
                if k != old_id {
                    assert(keys@.take(i as int).contains(k));
                    let j = choose|j: int| 0 <= j < ex0.len() && (#[trigger] ex0[j]).0 == k;
                    assert(extracted@[j].0 == k);
                }
            }
        }
        i += 1;
    }
    let ghost ex = extracted@;
    let ghost w1 = workers@;
    proof {
        assert(keys@.take(keys@.len() as int) =~= keys@);
        assert forall|k: WorkerId| w1.contains_key(k) <==> w0.contains_key(k) && !renaming@.contains_key(k) by {
            assert(keys@.contains(k) <==> keys@.to_set().contains(k));
        }
        assert forall|o: WorkerId, k: WorkerId| moves(w0, renaming@, o, k) implies exists|j: int|
            0 <= j < ex.len() && (#[trigger] ex[j]).0 == o by {
            assert(keys@.to_set().contains(o));
            assert(keys@.take(keys@.len() as int).contains(o));
        }
    }
    while extracted.len() > 0
        invariant
            extracted@.len() <= ex.len(),
            extracted@ == ex.take(extracted@.len() as int),
            injective(renaming@),
            forall|j: int|
                0 <= j < ex.len() ==> renaming@.contains_key((#[trigger] ex[j]).0) && w0.contains_key(ex[j].0) && ex[j].1
                    == w0[ex[j].0],
            forall|k: WorkerId| #[trigger]
                workers@.contains_key(k) <==> w1.contains_key(k) || exists|j: int|
                    extracted@.len() <= j < ex.len() && renaming@[(#[trigger] ex[j]).0] == k,
            forall|j: int|
                extracted@.len() <= j < ex.len() ==> workers@[renaming@[(#[trigger] ex[j]).0]] == (MLWorker {
                    id: renaming@[ex[j].0],
                    ..ex[j].1
                }),
            forall|k: WorkerId|
                w1.contains_key(k) && !(exists|j: int|
                    extracted@.len() <= j < ex.len() && renaming@[(#[trigger] ex[j]).0] == k) ==> #[trigger] workers@[k]
                    == w1[k],
        decreases extracted.len(),
    {
        let ghost n = extracted@.len();
        let ghost ws = workers@;
        match extracted.pop() {
            Some((old_id, worker)) => {
                proof {
                    assert(ex[n - 1] == (old_id, worker));
                }
                let mut worker = worker;
                let new_id: usize = *renaming.get(&old_id).unwrap();
                worker.id = new_id;
                workers.insert(new_id, worker);
                proof {
                    assert(extracted@ =~= ex.take(n - 1));
                    assert forall|k: WorkerId| #[trigger] workers@.contains_key(k) <==> w1.contains_key(k) || exists|j: int|
                        n - 1 <= j < ex.len() && renaming@[(#[trigger] ex[j]).0] == k by {
                        if ws.contains_key(k) && !w1.contains_key(k) {
                            let j = choose|j: int| n <= j < ex.len() && renaming@[(#[trigger] ex[j]).0] == k;
                            assert(n - 1 <= j && renaming@[ex[j].0] == k);
                        }
                        assert(renaming@[ex[n - 1].0] == new_id);
                    }
                    assert forall|j: int| n - 1 <= j < ex.len() implies workers@[renaming@[(#[trigger] ex[j]).0]]
                        == (MLWorker { id: renaming@[ex[j].0], ..ex[j].1 }) by {
                        if renaming@[ex[j].0] == new_id {
                            assert(ex[j].0 == old_id);
                            assert(ex[j].1 == w0[old_id]);
                            assert(ex[n - 1].1 == w0[old_id]);
                        }
                    }
                    assert forall|k: WorkerId|
                        w1.contains_key(k) && !(exists|j: int|
                            n - 1 <= j < ex.len() && renaming@[(#[trigger] ex[j]).0] == k) implies #[trigger] workers@[k]
                        == w1[k] by {
                        assert(renaming@[ex[n - 1].0] == new_id);
                        assert(k != new_id);
                        if exists|j: int| n <= j < ex.len() && renaming@[(#[trigger] ex[j]).0] == k {
                            let j = choose|j: int| n <= j < ex.len() && renaming@[(#[trigger] ex[j]).0] == k;
                            assert(n - 1 <= j && renaming@[ex[j].0] == k);
                        }
                        assert(ws[k] == w1[k]);
                    }
                }
            },
            None => {},
        }
    }
    proof {
        let goal = rename_workers(w0, renaming@);
        assert forall|k: WorkerId| #[trigger] workers@.contains_key(k) <==> goal.contains_key(k) by {
            if exists|o: WorkerId| moves(w0, renaming@, o, k) {
                let o = choose|o: WorkerId| moves(w0, renaming@, o, k);
                let j = choose|j: int| 0 <= j < ex.len() && (#[trigger] ex[j]).0 == o;
                assert(renaming@[ex[j].0] == k);
            }
            if exists|j: int| 0 <= j < ex.len() && renaming@[(#[trigger] ex[j]).0] == k {
                let j = choose|j: int| 0 <= j < ex.len() && renaming@[(#[trigger] ex[j]).0] == k;
                assert(moves(w0, renaming@, ex[j].0, k));
            }
        }
        assert forall|k: WorkerId| #[trigger] workers@.contains_key(k) implies workers@[k] == goal[k] by {
            if exists|o: WorkerId| moves(w0, renaming@, o, k) {
                let o = choose|o: WorkerId| moves(w0, renaming@, o, k);
                let j = choose|j: int| 0 <= j < ex.len() && (#[trigger] ex[j]).0 == o;
                assert(renaming@[ex[j].0] == k);
            } else {
                if exists|j: int| 0 <= j < ex.len() && renaming@[(#[trigger] ex[j]).0] == k {
                    let j = choose|j: int| 0 <= j < ex.len() && renaming@[(#[trigger] ex[j]).0] == k;
                    assert(moves(w0, renaming@, ex[j].0, k));
                }
                assert(w1.contains_key(k));
                assert(workers@[k] == w1[k]);
            }
        }
        assert(workers@ =~= goal);
    }
}

/// What renaming a segment adds to a renaming that has none of the segment's workers.
proof fn lemma_rename_first(m: Map<WorkerId, WorkerId>, order: Seq<WorkerId>, targets: Seq<WorkerId>, n: nat)
    requires
        n <= order.len() <= targets.len(),
        order.no_duplicates(),
        forall|i: int| 0 <= i < order.len() ==> !m.contains_key(#[trigger] order[i]),
    ensures
        forall|k: WorkerId| #[trigger]
            rename_first(m, order, targets, n).contains_key(k) <==> m.contains_key(k) || exists|i: int|
                0 <= i < n && order[i] == k && #[trigger] targets[i] != k,
        forall|i: int|
            0 <= i < n && order[i] != targets[i] ==> rename_first(m, order, targets, n)[#[trigger] order[i]] == targets[i],
        forall|k: WorkerId| m.contains_key(k) ==> #[trigger] rename_first(m, order, targets, n)[k] == m[k],
    decreases n,
{
    if n > 0 {
        lemma_rename_first(m, order, targets, (n - 1) as nat);
        let before = rename_first(m, order, targets, (n - 1) as nat);
        let after = rename_first(m, order, targets, n);
        assert forall|k: WorkerId| #[trigger] after.contains_key(k) <==> m.contains_key(k) || exists|i: int|
            0 <= i < n && order[i] == k && #[trigger] targets[i] != k by {
            if before.contains_key(k) && !m.contains_key(k) {
                let i = choose|i: int| 0 <= i < n - 1 && order[i] == k && #[trigger] targets[i] != k;
                assert(0 <= i < n && order[i] == k && targets[i] != k);
            }
            if order[n - 1] != targets[n - 1] {
                assert(targets[n - 1] != order[n - 1]);
            }
            if exists|i: int| 0 <= i < n && order[i] == k && #[trigger] targets[i] != k {
                let i = choose|i: int| 0 <= i < n && order[i] == k && #[trigger] targets[i] != k;
                if i < n - 1 {
                    assert(before.contains_key(k));
                }
            }
        }
    }
}

proof fn lemma_left_to_right_distinct(hosts: Map<WorkerId, usize>, s: Seq<WorkerId>)
    requires
        left_to_right(hosts, s),
    ensures
        s.no_duplicates(),
{
    assert forall|i: int, j: int| 0 <= i < s.len() && 0 <= j < s.len() && i != j implies s[i] != s[j] by {
        if i < j {
            assert(placed_before(hosts, s[i], s[j]));
        } else {
            assert(placed_before(hosts, s[j], s[i]));
        }
    }
}

/// The left-to-right order of a segment exists and has no more workers than the segment.
pub proof fn lemma_host_order(hosts: Map<WorkerId, usize>, segment: Seq<WorkerId>)
    requires
        strictly_ascending(segment),
    ensures
        left_to_right(hosts, host_order(hosts, segment)),
        host_order(hosts, segment).to_set() == segment.to_set().intersect(hosts.dom()),
        host_order(hosts, segment).no_duplicates(),
        host_order(hosts, segment).len() <= segment.len(),
    decreases segment.len(),
{
    let s = lemma_host_order_exists(hosts, segment);
    let order = host_order(hosts, segment);
    lemma_left_to_right_distinct(hosts, order);
    order.unique_seq_to_set();
    assert(segment.no_duplicates());
    segment.unique_seq_to_set();
    vstd::seq_lib::seq_to_set_is_finite(segment);
    vstd::set_lib::lemma_len_subset(order.to_set(), segment.to_set());
}

proof fn lemma_host_order_exists(hosts: Map<WorkerId, usize>, segment: Seq<WorkerId>) -> (s: Seq<WorkerId>)
    ensures
        left_to_right(hosts, s),
        s.to_set() == segment.to_set().intersect(hosts.dom()),
    decreases segment.len(),
{
    if segment.len() == 0 {
        let s = Seq::<WorkerId>::empty();
        assert(s.to_set() =~= segment.to_set().intersect(hosts.dom()));
        s
    } else {
        let x = segment.last();
        let s = lemma_host_order_exists(hosts, segment.drop_last());
        assert(segment =~= segment.drop_last().push(x));
        crate::utils::data::lemma_push_to_set(segment.drop_last(), x);
        if !hosts.contains_key(x) || s.contains(x) {
            if s.contains(x) {
                assert(s.to_set().contains(x));
            }
            assert(s.to_set() =~= segment.to_set().intersect(hosts.dom()));
            s
        } else {
            let p = lemma_insert_position(hosts, s, x);
            let r = s.insert(p, x);
            assert forall|y: usize| r.to_set().contains(y) == s.to_set().insert(x).contains(y) by {
                if s.contains(y) {
                    let k = choose|k: int| 0 <= k < s.len() && s[k] == y;
                    if k < p {
                        assert(r[k] == y);
                    } else {
                        assert(r[k + 1] == y);
                    }
                }
                assert(r[p] == x);
                if r.contains(y) {
                    let k = choose|k: int| 0 <= k < r.len() && r[k] == y;
                    if k < p {
                        assert(s[k] == y);
                    } else if k > p {
                        assert(s[k - 1] == y);
                    }
                }
            }
            assert(r.to_set() =~= s.to_set().insert(x));
            assert(r.to_set() =~= segment.to_set().intersect(hosts.dom()));
            r
        }
    }
}

proof fn lemma_insert_position(hosts: Map<WorkerId, usize>, s: Seq<WorkerId>, x: WorkerId) -> (p: int)
    requires
        left_to_right(hosts, s),
        !s.contains(x),
    ensures
        0 <= p <= s.len(),
        left_to_right(hosts, s.insert(p, x)),
        forall|k: int| 0 <= k < p ==> placed_before(hosts, #[trigger] s[k], x),
        forall|k: int| p <= k < s.len() ==> placed_before(hosts, x, #[trigger] s[k]),
    decreases s.len(),
{
    if s.len() == 0 {
        0
    } else {
        let last = s.last();
        assert(s.contains(last));
        if placed_before(hosts, last, x) {
            assert forall|k: int| 0 <= k < s.len() implies placed_before(hosts, #[trigger] s[k], x) by {
                if k < s.len() - 1 {
                    assert(placed_before(hosts, s[k], s[s.len() - 1]));
                }
            }
            s.len() as int
        } else {
            let t = s.drop_last();
            assert(!t.contains(x)) by {
                if t.contains(x) {
                    let k = choose|k: int| 0 <= k < t.len() && t[k] == x;
                    assert(s[k] == x);
                }
            }
            let p = lemma_insert_position(hosts, t, x);
            assert forall|k: int| 0 <= k < p implies placed_before(hosts, #[trigger] s[k], x) by {
                assert(t[k] == s[k]);
            }
            assert forall|k: int| p <= k < s.len() implies placed_before(hosts, x, #[trigger] s[k]) by {
                if k < s.len() - 1 {
                    assert(t[k] == s[k]);
                }
            }
            p
        }
    }
}

/// The stage renamings keep workers in their stage and give every name once.
proof fn lemma_rename_stages(hosts: Map<WorkerId, usize>, info: PipelineStageInfo, n: nat)
    requires
        n <= info.num_stages,
        info.num_stages * info.workers_per_stage <= usize::MAX,
    ensures
        injective(rename_stages(hosts, info, n)),
        forall|k: WorkerId| #[trigger]
            rename_stages(hosts, info, n).contains_key(k) ==> info.workers_per_stage > 0 && k as int
                / info.workers_per_stage as int == rename_stages(hosts, info, n)[k] as int
                / info.workers_per_stage as int && (k as int) < n * info.workers_per_stage && hosts.contains_key(k)
                && (rename_stages(hosts, info, n)[k] as int) < n * info.workers_per_stage,
    decreases n,
{
    if n > 0 {
        let p = (n - 1) as nat;
        let w = info.workers_per_stage as int;
        lemma_rename_stages(hosts, info, p);
        let m0 = rename_stages(hosts, info, p);
        let segment = stage_segment(info, p);
        let order = host_order(hosts, segment);
        let m = rename_stages(hosts, info, n);
        assert(p * w + w == n * w) by (nonlinear_arith)
            requires
                p + 1 == n,
        ;
        assert(n * w <= info.num_stages * w) by (nonlinear_arith)
            requires
                n <= info.num_stages,
                w >= 0,
        ;
        assert(forall|i: int| 0 <= i < segment.len() ==> #[trigger] segment[i] == p * w + i);
        assert(strictly_ascending(segment));
        lemma_host_order(hosts, segment);
        assert forall|i: int| 0 <= i < order.len() implies p * w <= #[trigger] order[i] < n * w && hosts.contains_key(
            order[i],
        ) && order[i] as int / w == p by {
            assert(order.to_set().contains(order[i]));
            assert(segment.contains(order[i]));
            let j = choose|j: int| 0 <= j < segment.len() && segment[j] == order[i];
            assert(order[i] == p * w + j);
            crate::simulator::ml_job::lemma_stage_workers_partition(info, order[i] as int, p as int);
        }
        assert forall|i: int| 0 <= i < order.len() implies segment[i] as int / w == p by {
            crate::simulator::ml_job::lemma_stage_workers_partition(info, segment[i] as int, p as int);
        }
        assert(forall|i: int| 0 <= i < order.len() ==> !m0.contains_key(#[trigger] order[i]));
        lemma_rename_first(m0, order, segment, order.len());
        assert forall|k: WorkerId| #[trigger] m.contains_key(k) implies w > 0 && k as int / w == m[k] as int / w && (
        k as int) < n * w && hosts.contains_key(k) && (m[k] as int) < n * w && (k as int / w == p <==> !m0.contains_key(k)) by {
            if m0.contains_key(k) {
                assert(m[k] == m0[k]);
                assert(k < p * w);
                if k as int / w == p {
                    crate::simulator::ml_job::lemma_stage_workers_partition(info, k as int, p as int);
                }
            } else {
                let i = choose|i: int| 0 <= i < order.len() && order[i] == k && #[trigger] segment[i] != k;
                assert(m[order[i]] == segment[i]);
                assert(segment[i] as int / w == p);
            }
        }
        assert forall|a: WorkerId, b: WorkerId|
            m.contains_key(a) && m.contains_key(b) && m[a] == m[b] implies a == b by {
            if m0.contains_key(a) && m0.contains_key(b) {
                assert(m[a] == m0[a] && m[b] == m0[b]);
            } else if !m0.contains_key(a) && !m0.contains_key(b) {
                let i = choose|i: int| 0 <= i < order.len() && order[i] == a && #[trigger] segment[i] != a;
                let j = choose|j: int| 0 <= j < order.len() && order[j] == b && #[trigger] segment[j] != b;
                assert(m[order[i]] == segment[i]);
                assert(m[order[j]] == segment[j]);
                assert(segment[i] == segment[j]);
                assert(i == j);
            }
        }
    }
}

/// No two workers of a job get the same rank.
pub proof fn lemma_rank_renaming_injective(
    workers: Set<WorkerId>,
    hosts: Map<WorkerId, usize>,
    stages: Option<PipelineStageInfo>,
)
    requires
        stages is None ==> exists|s: Seq<WorkerId>| strictly_ascending(s) && #[trigger] s.to_set() == workers,
        stages matches Some(info) ==> info.num_stages * info.workers_per_stage <= usize::MAX,
    ensures
        injective(rank_renaming(workers, hosts, stages)),
{
    match stages {
        Some(info) => {
            lemma_rename_stages(hosts, info, info.num_stages as nat);
        },
        None => {
            let segment = ascending(workers);
            assert(strictly_ascending(segment) && segment.to_set() == workers);
            let order = host_order(hosts, segment);
            lemma_host_order(hosts, segment);
            lemma_rename_first(Map::empty(), order, segment, order.len());
            let m = rank_renaming(workers, hosts, stages);
            assert forall|a: WorkerId, b: WorkerId|
                m.contains_key(a) && m.contains_key(b) && m[a] == m[b] implies a == b by {
                let i = choose|i: int| 0 <= i < order.len() && order[i] == a && #[trigger] segment[i] != a;
                let j = choose|j: int| 0 <= j < order.len() && order[j] == b && #[trigger] segment[j] != b;
                assert(m[order[i]] == segment[i]);
                assert(m[order[j]] == segment[j]);
                assert(i == j);
            }
        },
    }
}

/// The renaming that a job calls for.
pub open spec fn job_renaming(job: &MLJob) -> Map<WorkerId, WorkerId> {
    rank_renaming(job.workers@.dom(), job.worker_to_host@, job.pipeline_stages)
}

/// The workers of a job under their new names.
pub open spec fn job_renamed(job: &MLJob) -> Map<WorkerId, MLWorker> {
    rename_workers(job.workers@, job_renaming(job))
}

/// The ranks of the job can be recomputed in machine integers.
pub open spec fn ranks_in_range(job: &MLJob) -> bool {
    let layout = job_layout(job.num_workers, job.ring_count, job.pipeline_stages);
    let mid = job_renamed(job);
    &&& job.pipeline_stages matches Some(info) ==> info.num_stages * info.workers_per_stage <= usize::MAX
    &&& job_renaming(job) != Map::<WorkerId, WorkerId>::empty() ==> {
        &&& layout.workers_per_stage > 0
        &&& forall|k: WorkerId, i: int|
            mid.contains_key(k) && 0 <= i < mid[k].templates().len() ==> event_in_range(
                layout,
                k,
                #[trigger] mid[k].templates()[i],
            )
    }
}

/// `after` is `before` with its events retargeted.
pub open spec fn retargeted(
    layout: RankLayout,
    renaming: Map<WorkerId, WorkerId>,
    id: WorkerId,
    before: MLWorker,
    after: MLWorker,
) -> bool {
    &&& after.templates() == before.templates().map_values(|e: EventView| retarget_event(layout, renaming, id, e))
    &&& after == (MLWorker { template_events: after.template_events, ..before })
}

/// `after` is `before` with its ranks in host order.
pub open spec fn reranked(before: &MLJob, after: &MLJob) -> bool {
    let layout = job_layout(before.num_workers, before.ring_count, before.pipeline_stages);
    let mid = job_renamed(before);
    &&& after.workers@.dom() == mid.dom()
    &&& forall|k: WorkerId| #[trigger]
        mid.contains_key(k) ==> retargeted(layout, job_renaming(before), k, mid[k], after.workers@[k])
    &&& after.worker_to_host@ == worker_hosts(after.workers@)
    &&& after.send_template_to_flow_idx@ == job_flow_indices(after.workers@)
    &&& after.next_flow_idx == wrapped(total_sends(after.workers@))
    &&& *after == (MLJob {
        workers: after.workers,
        worker_to_host: after.worker_to_host,
        send_template_to_flow_idx: after.send_template_to_flow_idx,
        next_flow_idx: after.next_flow_idx,
        ..*before
    })
}

/// Puts the ranks of a job in host order: inside each segment the worker identifiers ascend with
/// the hosts. Peers, placement and flow indices follow.
pub fn reassign_job_ranks(job: &mut MLJob) -> (changed: bool)
    requires
        ranks_in_range(old(job)),
    ensures
        changed == (job_renaming(old(job)) != Map::<WorkerId, WorkerId>::empty()),
        !changed ==> *final(job) == *old(job),
        changed ==> reranked(old(job), final(job)),
{
    let ghost before = *job;
    let renaming = compute_rank_renaming(&job.workers, &job.worker_to_host, &job.pipeline_stages);
    if renaming.is_empty() {
        return false;
    }
    apply_renaming(&mut job.workers, &renaming);
    let ghost mid = job.workers@;
    let layout = compute_layout(job.num_workers, job.ring_count, &job.pipeline_stages);
    let ids = job.workers.sorted_keys();
    proof {
        lemma_ascending(ids@, mid.dom());
        assert(mid == job_renamed(&before));
        assert(ranks_in_range(&before));
    }
    let mut n: usize = 0;
    while n < ids.len()
        invariant
            n <= ids.len(),
            strictly_ascending(ids@),
            ids@.to_set() == mid.dom(),
            layout == job_layout(before.num_workers, before.ring_count, before.pipeline_stages),
            layout.workers_per_stage > 0,
            !layout.pipelined ==> layout.workers_per_stage == layout.num_workers,
            forall|k: WorkerId, i: int|
                mid.contains_key(k) && 0 <= i < mid[k].templates().len() ==> event_in_range(
                    layout,
                    k,
                    #[trigger] mid[k].templates()[i],
                ),
            job.workers@.dom() == mid.dom(),
            forall|j: int|
                0 <= j < n ==> retargeted(layout, renaming@, #[trigger] ids@[j], mid[ids@[j]], job.workers@[ids@[j]]),
            forall|j: int| n <= j < ids@.len() ==> job.workers@[#[trigger] ids@[j]] == mid[ids@[j]],
            *job == (MLJob { workers: job.workers, ..before }),
        decreases ids.len() - n,
    {
        let id: usize = ids[n];
        let ghost now = job.workers@;
        proof {
            assert(ids@.to_set().contains(id));
        }
        let mut worker = job.workers.remove(&id).unwrap();
        retarget_templates(layout, &renaming, id, &mut worker);
        job.workers.insert(id, worker);
        proof {
            assert(job.workers@.dom() =~= mid.dom());
            assert(job.workers@[id] == worker);
            assert forall|j: int| 0 <= j < n + 1 implies retargeted(
                layout,
                renaming@,
                #[trigger] ids@[j],
                mid[ids@[j]],
                job.workers@[ids@[j]],
            ) by {
                if j < n {
                    assert(ids@[j] != id);
                    assert(job.workers@[ids@[j]] == now[ids@[j]]);
                }
            }
            assert forall|j: int| n + 1 <= j < ids@.len() implies job.workers@[#[trigger] ids@[j]] == mid[ids@[j]] by {
                assert(ids@[j] != id);
            }
        }
        n += 1;
    }
    proof {
        assert forall|k: WorkerId| #[trigger] mid.contains_key(k) implies retargeted(
            layout,
            renaming@,
            k,
            mid[k],
            job.workers@[k],
        ) by {
            assert(ids@.to_set().contains(k));
            let j = choose|j: int| 0 <= j < ids@.len() && ids@[j] == k;
        }
    }
    job.rebuild_worker_to_host();
    job.rebuild_flow_indices();
    true
}

/// The members of a finite set can be listed in ascending order.
pub proof fn lemma_set_ascends(ids: Set<usize>)
    requires
        ids.finite(),
    ensures
        exists|s: Seq<usize>| strictly_ascending(s) && #[trigger] s.to_set() == ids,
{
    let hosts = Map::new(|k: usize| ids.contains(k), |k: usize| 0usize);
    let listed = ids.to_seq();
    assert(listed.to_set() =~= ids) by {
        ids.lemma_to_seq_to_set_id();
    }
    let s = lemma_host_order_exists(hosts, listed);
    assert(s.to_set() =~= ids);
    assert forall|i: int, j: int| 0 <= i < j < s.len() implies s[i] < s[j] by {
        assert(placed_before(hosts, s[i], s[j]));
        assert(s.to_set().contains(s[i]));
        assert(s.to_set().contains(s[j]));
    }
    assert(strictly_ascending(s) && s.to_set() == ids);
}

/// An event of a worker sends to the next worker of a ring.
pub open spec fn sends_in_ring_at(workers: Map<WorkerId, MLWorker>, w: WorkerId, i: int) -> bool {
    &&& workers.contains_key(w)
    &&& 0 <= i < workers[w].templates().len()
    &&& workers[w].templates()[i].flow_send matches Some(f) && f.flow_kind == FlowKind::Ring
}

/// Some worker sends to the next worker of a ring.
pub open spec fn sends_in_ring(workers: Map<WorkerId, MLWorker>) -> bool {
    exists|w: WorkerId, i: int| #[trigger] sends_in_ring_at(workers, w, i)
}

/// An event of a worker receives from the previous worker of a ring.
pub open spec fn receives_in_ring_at(workers: Map<WorkerId, MLWorker>, w: WorkerId, i: int) -> bool {
    &&& workers.contains_key(w)
    &&& 0 <= i < workers[w].templates().len()
    &&& workers[w].templates()[i].flow_receive matches Some(f) && f.flow_kind == FlowKind::Ring
}

/// Some worker receives from the previous worker of a ring.
pub open spec fn receives_in_ring(workers: Map<WorkerId, MLWorker>) -> bool {
    exists|w: WorkerId, i: int| #[trigger] receives_in_ring_at(workers, w, i)
}

/// The identifiers and sizes of a job leave room for the peer computations, whatever hosts its workers are
/// on. Outside a pipeline only the peers in rings are computed.
pub open spec fn rank_valid(job: &MLJob) -> bool {
    match job.pipeline_stages {
        Some(info) => {
            &&& info.num_stages > 0
            &&& info.workers_per_stage > 0
            &&& info.num_stages * info.workers_per_stage + info.workers_per_stage <= usize::MAX
            &&& forall|k: WorkerId| #[trigger] job.workers@.contains_key(k) ==> k + info.workers_per_stage <= usize::MAX
        },
        None => {
            &&& job.workers@.dom().len() > 1 ==> job.num_workers > 0
            &&& forall|k: WorkerId| #[trigger]
                job.workers@.contains_key(k) && sends_in_ring(job.workers@) ==> k + job.ring_count <= usize::MAX
            &&& forall|k: WorkerId| #[trigger]
                job.workers@.contains_key(k) && receives_in_ring(job.workers@) ==> job.ring_count <= k + job.num_workers
                    <= usize::MAX
        },
    }
}

/// Workers whose names and events are those of others have room for the same peer computations.
pub proof fn lemma_rank_valid_kept(before: &MLJob, after: &MLJob)
    requires
        rank_valid(before),
        after.num_workers == before.num_workers,
        after.ring_count == before.ring_count,
        after.pipeline_stages == before.pipeline_stages,
        after.workers@.dom() == before.workers@.dom(),
        forall|k: WorkerId| #[trigger]
            after.workers@.contains_key(k) ==> after.workers@[k].templates() == before.workers@[k].templates(),
    ensures
        rank_valid(after),
{
    let ws = before.workers@;
    assert forall|k: WorkerId| #[trigger] after.workers@.contains_key(k) implies ws.contains_key(k) by {}
    if sends_in_ring(after.workers@) {
        let (w, i) = choose|w: WorkerId, i: int| #[trigger] sends_in_ring_at(after.workers@, w, i);
        assert(sends_in_ring_at(ws, w, i));
    }
    if receives_in_ring(after.workers@) {
        let (w, i) = choose|w: WorkerId, i: int| #[trigger] receives_in_ring_at(after.workers@, w, i);
        assert(receives_in_ring_at(ws, w, i));
    }
}

/// The names that a job's renaming gives are names of its workers or of its stages.
pub proof fn lemma_renamed_ids(job: &MLJob, k: WorkerId)
    requires
        rank_valid(job),
        job.workers@.dom().finite(),
        job_renamed(job).contains_key(k),
    ensures
        match job.pipeline_stages {
            Some(info) => k + info.workers_per_stage <= usize::MAX,
            None => job.workers@.contains_key(k),
        },
{
    let renaming = job_renaming(job);
    if exists|o: WorkerId| moves(job.workers@, renaming, o, k) {
        let o = choose|o: WorkerId| moves(job.workers@, renaming, o, k);
        assert(job.workers@.contains_key(o));
        match job.pipeline_stages {
            Some(info) => {
                assert(info.num_stages * info.workers_per_stage <= usize::MAX);
                lemma_rename_stages(job.worker_to_host@, info, info.num_stages as nat);
                assert(k < info.num_stages * info.workers_per_stage);
            },
            None => {
                lemma_set_ascends(job.workers@.dom());
                let segment = ascending(job.workers@.dom());
                let order = host_order(job.worker_to_host@, segment);
                lemma_host_order(job.worker_to_host@, segment);
                lemma_rename_first(Map::empty(), order, segment, order.len());
                let i = choose|i: int| 0 <= i < order.len() && order[i] == o && #[trigger] segment[i] != o;
                assert(renaming[order[i]] == segment[i]);
                assert(segment.to_set().contains(segment[i]));
                assert(job.workers@.contains_key(k));
            },
        }
    } else {
        assert(job.workers@.contains_key(k));
    }
}

/// A worker that is renamed has the events of a worker of the job.
pub proof fn lemma_renamed_events(job: &MLJob, k: WorkerId) -> (o: WorkerId)
    requires
        job_renamed(job).contains_key(k),
    ensures
        job.workers@.contains_key(o),
        job_renamed(job)[k].templates() == job.workers@[o].templates(),
{
    let m = job_renaming(job);
    if exists|o: WorkerId| moves(job.workers@, m, o, k) {
        choose|o: WorkerId| moves(job.workers@, m, o, k)
    } else {
        k
    }
}

/// A job without stages that needs other ranks has two workers at least.
proof fn lemma_two_workers(job: &MLJob)
    requires
        job.pipeline_stages is None,
        job.workers@.dom().finite(),
        job_renaming(job) != Map::<WorkerId, WorkerId>::empty(),
    ensures
        job.workers@.dom().len() > 1,
{
    let m = job_renaming(job);
    lemma_set_ascends(job.workers@.dom());
    let segment = ascending(job.workers@.dom());
    let order = host_order(job.worker_to_host@, segment);
    lemma_host_order(job.worker_to_host@, segment);
    lemma_rename_first(Map::empty(), order, segment, order.len());
    assert(exists|k: WorkerId| m.contains_key(k)) by {
        if forall|k: WorkerId| !m.contains_key(k) {
            assert(m =~= Map::empty());
        }
    }
    let k = choose|k: WorkerId| m.contains_key(k);
    let i = choose|i: int| 0 <= i < order.len() && order[i] == k && #[trigger] segment[i] != k;
    assert(order.to_set().contains(order[i]));
    assert(segment.to_set().contains(order[i]));
    assert(segment.to_set().contains(segment[i]));
    let rest = job.workers@.dom().remove(k);
    assert(rest.contains(segment[i]));
    if rest.len() == 0 {
        assert(rest =~= Set::empty());
    }
}

/// A valid job can be put in rank order, whatever its placement.
pub proof fn lemma_rank_valid_in_range(job: &MLJob)
    requires
        rank_valid(job),
        job.workers@.dom().finite(),
    ensures
        ranks_in_range(job),
{
    let layout = job_layout(job.num_workers, job.ring_count, job.pipeline_stages);
    let mid = job_renamed(job);
    if job_renaming(job) != Map::<WorkerId, WorkerId>::empty() {
        if job.pipeline_stages is None {
            lemma_two_workers(job);
        }
        assert forall|k: WorkerId, i: int|
            mid.contains_key(k) && 0 <= i < mid[k].templates().len() implies event_in_range(
            layout,
            k,
            #[trigger] mid[k].templates()[i],
        ) by {
            lemma_renamed_ids(job, k);
            let o = lemma_renamed_events(job, k);
            let e = mid[k].templates()[i];
            if job.pipeline_stages is Some {
                lemma_layout_in_range(layout, k);
            } else {
                assert(sends_in_ring_at(job.workers@, o, i) ==> layout.next_in_range(k));
                assert(receives_in_ring_at(job.workers@, o, i) ==> layout.prev_in_range(k));
                vstd::arithmetic::div_mod::lemma_div_pos_is_pos(k as int, layout.workers_per_stage as int);
                assert(layout.stage(k) >= layout.num_stages - 1);
            }
        }
    }
}

proof fn lemma_layout_in_range(layout: RankLayout, k: WorkerId)
    requires
        layout.workers_per_stage > 0,
        layout.num_stages > 0,
        layout.stride <= layout.workers_per_stage,
        !layout.pipelined ==> layout.workers_per_stage == layout.num_workers,
        k + layout.workers_per_stage <= usize::MAX,
    ensures
        layout.next_in_range(k),
        layout.prev_in_range(k),
        forall|p: WorkerId| layout.pipeline_in_range(k, p),
{
    let w = layout.workers_per_stage as int;
    vstd::arithmetic::div_mod::lemma_fundamental_div_mod(k as int, w);
    vstd::arithmetic::mul::lemma_mul_is_commutative(w, k as int / w);
    vstd::arithmetic::div_mod::lemma_mod_bound(k - layout.stage_start(k) + layout.stride, w);
    vstd::arithmetic::div_mod::lemma_mod_bound(k - layout.stage_start(k) + w - layout.stride, w);
    vstd::arithmetic::div_mod::lemma_mod_bound(k as int, w);
}

/// The segment of a worker: its stage in a pipeline, all workers otherwise.
pub open spec fn segment_of(job: &MLJob, k: WorkerId) -> Seq<WorkerId> {
    match job.pipeline_stages {
        Some(info) => stage_segment(info, (k / info.workers_per_stage) as nat),
        None => ascending(job.workers@.dom()),
    }
}

/// The worker has a place among the ranks of the job.
pub open spec fn has_rank(job: &MLJob, k: WorkerId) -> bool {
    match job.pipeline_stages {
        Some(info) => info.workers_per_stage > 0 && k < info.num_stages * info.workers_per_stage
            && info.num_stages * info.workers_per_stage <= usize::MAX,
        None => true,
    }
}

/// How the renaming of stages acts on one of them.
proof fn lemma_stage_names(hosts: Map<WorkerId, usize>, info: PipelineStageInfo, n: nat, stage: nat, i: int)
    requires
        n <= info.num_stages,
        info.workers_per_stage > 0,
        info.num_stages * info.workers_per_stage <= usize::MAX,
        stage < n,
        0 <= i < host_order(hosts, stage_segment(info, stage)).len(),
    ensures
        ({
            let m = rename_stages(hosts, info, n);
            let segment = stage_segment(info, stage);
            let o = host_order(hosts, segment)[i];
            &&& m.contains_key(o) == (o != segment[i])
            &&& o != segment[i] ==> m[o] == segment[i]
        }),
    decreases n,
{
    let w = info.workers_per_stage as int;
    let p = (n - 1) as nat;
    lemma_rename_stages(hosts, info, p);
    let m0 = rename_stages(hosts, info, p);
    let segment = stage_segment(info, p);
    let order = host_order(hosts, segment);
    lemma_stage_segment(info, p);
    lemma_host_order(hosts, segment);
    assert forall|x: int| 0 <= x < order.len() implies !m0.contains_key(#[trigger] order[x]) by {
        assert(order.to_set().contains(order[x]));
        lemma_in_stage(info, p, order[x]);
    }
    lemma_rename_first(m0, order, segment, order.len());
    if stage == p {
        let m = rename_stages(hosts, info, n);
        let o = order[i];
        if m.contains_key(o) {
            let x = choose|x: int| 0 <= x < order.len() && order[x] == o && #[trigger] segment[x] != o;
            assert(x == i);
        }
        if o != segment[i] {
            assert(0 <= i < order.len() && order[i] == o && segment[i] != o);
        }
    } else {
        lemma_stage_names(hosts, info, p, stage, i);
        let mine = stage_segment(info, stage);
        lemma_stage_segment(info, stage);
        lemma_host_order(hosts, mine);
        let o = host_order(hosts, mine)[i];
        assert(host_order(hosts, mine).to_set().contains(o));
        lemma_in_stage(info, stage, o);
        let m = rename_stages(hosts, info, n);
        if m.contains_key(o) && !m0.contains_key(o) {
            let x = choose|x: int| 0 <= x < order.len() && order[x] == o && #[trigger] segment[x] != o;
            assert(order.to_set().contains(o));
            lemma_in_stage(info, p, o);
        }
    }
}

/// The workers of a stage ascend.
proof fn lemma_stage_segment(info: PipelineStageInfo, stage: nat)
    requires
        stage < info.num_stages,
        info.num_stages * info.workers_per_stage <= usize::MAX,
    ensures
        strictly_ascending(stage_segment(info, stage)),
        forall|i: int|
            0 <= i < info.workers_per_stage ==> #[trigger] stage_segment(info, stage)[i] == stage * info.workers_per_stage
                + i,
{
    let w = info.workers_per_stage as int;
    assert(stage * w + w <= info.num_stages * w) by (nonlinear_arith)
        requires
            stage + 1 <= info.num_stages,
            w >= 0,
    ;
}

/// A worker of a stage.
proof fn lemma_in_stage(info: PipelineStageInfo, stage: nat, k: WorkerId)
    requires
        stage < info.num_stages,
        info.workers_per_stage > 0,
        info.num_stages * info.workers_per_stage <= usize::MAX,
        stage_segment(info, stage).to_set().contains(k),
    ensures
        k as int / info.workers_per_stage as int == stage,
        stage * info.workers_per_stage <= k < stage * info.workers_per_stage + info.workers_per_stage,
{
    let segment = stage_segment(info, stage);
    lemma_stage_segment(info, stage);
    let i = choose|i: int| 0 <= i < segment.len() && segment[i] == k;
    crate::simulator::ml_job::lemma_stage_workers_partition(info, k as int, stage as int);
}

/// The ranks of a job can be told from its placement.
pub open spec fn is_placed_job(job: &MLJob) -> bool {
    &&& job.worker_to_host@ == worker_hosts(job.workers@)
    &&& exists|s: Seq<WorkerId>| strictly_ascending(s) && #[trigger] s.to_set() == job.workers@.dom()
}

/// How the renaming acts on the segment of a worker.
proof fn lemma_segment_names(job: &MLJob, k: WorkerId, i: int)
    requires
        is_placed_job(job),
        has_rank(job, k),
        0 <= i < host_order(job.worker_to_host@, segment_of(job, k)).len(),
    ensures
        strictly_ascending(segment_of(job, k)),
        ({
            let m = job_renaming(job);
            let segment = segment_of(job, k);
            let o = host_order(job.worker_to_host@, segment)[i];
            &&& m.contains_key(o) == (o != segment[i])
            &&& o != segment[i] ==> m[o] == segment[i]
        }),
{
    let hosts = job.worker_to_host@;
    let segment = segment_of(job, k);
    match job.pipeline_stages {
        Some(info) => {
            let w = info.workers_per_stage as int;
            let stage = (k as int / w) as nat;
            assert(stage < info.num_stages) by {
                vstd::arithmetic::mul::lemma_mul_is_commutative(w, info.num_stages as int);
                vstd::arithmetic::div_mod::lemma_multiply_divide_lt(k as int, w, info.num_stages as int);
            }
            lemma_stage_segment(info, stage);
            lemma_stage_names(hosts, info, info.num_stages as nat, stage, i);
        },
        None => {
            assert(strictly_ascending(segment) && segment.to_set() == job.workers@.dom());
            let order = host_order(hosts, segment);
            lemma_host_order(hosts, segment);
            let none = Map::<WorkerId, WorkerId>::empty();
            lemma_rename_first(none, order, segment, order.len());
            let m = job_renaming(job);
            let o = order[i];
            if m.contains_key(o) {
                let x = choose|x: int| 0 <= x < order.len() && order[x] == o && #[trigger] segment[x] != o;
                assert(x == i);
            }
            if o != segment[i] {
                assert(0 <= i < order.len() && order[i] == o && segment[i] != o);
            }
        },
    }
}

/// A worker of the segment that is placed has a position in the order of hosts.
proof fn lemma_position(job: &MLJob, k: WorkerId, o: WorkerId) -> (i: int)
    requires
        is_placed_job(job),
        has_rank(job, k),
        has_rank(job, o),
        job.workers@.contains_key(o),
        job.pipeline_stages matches Some(info) ==> o / info.workers_per_stage == k / info.workers_per_stage,
    ensures
        0 <= i < host_order(job.worker_to_host@, segment_of(job, k)).len(),
        host_order(job.worker_to_host@, segment_of(job, k))[i] == o,
{
    let hosts = job.worker_to_host@;
    let segment = segment_of(job, k);
    let order = host_order(hosts, segment);
    match job.pipeline_stages {
        Some(info) => {
            let w = info.workers_per_stage as int;
            let stage = (k as int / w) as nat;
            assert(stage < info.num_stages) by {
                vstd::arithmetic::mul::lemma_mul_is_commutative(w, info.num_stages as int);
                vstd::arithmetic::div_mod::lemma_multiply_divide_lt(k as int, w, info.num_stages as int);
            }
            lemma_stage_segment(info, stage);
            crate::simulator::ml_job::lemma_stage_workers_partition(info, o as int, stage as int);
            let x = o - stage * w;
            assert(segment[x] == o);
        },
        None => {
            assert(strictly_ascending(segment) && segment.to_set() == job.workers@.dom());
            assert(segment.to_set().contains(o));
        },
    }
    lemma_host_order(hosts, segment);
    assert(segment.to_set().contains(o));
    assert(hosts.contains_key(o));
    assert(order.to_set().contains(o));
    choose|i: int| 0 <= i < order.len() && order[i] == o
}

/// The host of a rank is that of the worker at the same position in the order of hosts.
proof fn lemma_rank_host(job: &MLJob, k: WorkerId) -> (i: int)
    requires
        is_placed_job(job),
        rank_valid(job),
        has_rank(job, k),
        forall|w: WorkerId| #[trigger] job.workers@.contains_key(w) ==> has_rank(job, w),
        job_renamed(job).contains_key(k),
    ensures
        0 <= i < host_order(job.worker_to_host@, segment_of(job, k)).len(),
        segment_of(job, k)[i] == k,
        job_renamed(job)[k].host_index == job.worker_to_host@[host_order(
            job.worker_to_host@,
            segment_of(job, k),
        )[i]],
{
    let hosts = job.worker_to_host@;
    let m = job_renaming(job);
    let segment = segment_of(job, k);
    let order = host_order(hosts, segment);
    if exists|o: WorkerId| moves(job.workers@, m, o, k) {
        let o = choose|o: WorkerId| moves(job.workers@, m, o, k);
        if let Some(info) = job.pipeline_stages {
            lemma_rename_stages(hosts, info, info.num_stages as nat);
        }
        let i = lemma_position(job, k, o);
        lemma_segment_names(job, k, i);
        assert(hosts[o] == job.workers@[o].host_index);
        i
    } else {
        let i = lemma_position(job, k, k);
        lemma_segment_names(job, k, i);
        assert(hosts[k] == job.workers@[k].host_index);
        i
    }
}

/// After the ranks of a job have been put in order, the workers of a segment stand on its hosts from left
/// to right; on different hosts, if no two workers share one.
pub proof fn lemma_ranks_ascend(before: &MLJob, after: &MLJob, a: WorkerId, b: WorkerId)
    requires
        is_placed_job(before),
        rank_valid(before),
        forall|w: WorkerId| #[trigger] before.workers@.contains_key(w) ==> has_rank(before, w),
        reranked(before, after),
        after.workers@.contains_key(a),
        after.workers@.contains_key(b),
        has_rank(before, a),
        has_rank(before, b),
        before.pipeline_stages matches Some(info) ==> a / info.workers_per_stage == b / info.workers_per_stage,
        a < b,
    ensures
        after.workers@[a].host_index <= after.workers@[b].host_index,
        after.worker_to_host@[a] <= after.worker_to_host@[b],
        hosts_distinct(before) ==> after.worker_to_host@[a] < after.worker_to_host@[b],
{
    let mid = job_renamed(before);
    assert(mid.contains_key(a) && mid.contains_key(b));
    let i = lemma_rank_host(before, a);
    let j = lemma_rank_host(before, b);
    let segment = segment_of(before, a);
    assert(segment_of(before, b) == segment);
    let order = host_order(before.worker_to_host@, segment);
    lemma_segment_names(before, a, i);
    lemma_host_order(before.worker_to_host@, segment);
    if i > j {
        assert(segment[j] < segment[i]);
    }
    if i < j {
        assert(placed_before(before.worker_to_host@, order[i], order[j]));
        assert(order[i] != order[j]);
        assert(order.to_set().contains(order[i]) && order.to_set().contains(order[j]));
        assert(before.workers@.contains_key(order[i]) && before.workers@.contains_key(order[j]));
    }
    assert(after.workers@[a].host_index == mid[a].host_index);
    assert(after.workers@[b].host_index == mid[b].host_index);
}

/// Where the placement of a job calls for no other ranks, the workers of a segment already stand on its hosts
/// from left to right; on different hosts, if no two workers share one.
pub proof fn lemma_ranks_stand(job: &MLJob, a: WorkerId, b: WorkerId)
    requires
        is_placed_job(job),
        job_renaming(job) == Map::<WorkerId, WorkerId>::empty(),
        job.workers@.contains_key(a),
        job.workers@.contains_key(b),
        has_rank(job, a),
        has_rank(job, b),
        job.pipeline_stages matches Some(info) ==> a / info.workers_per_stage == b / info.workers_per_stage,
        a < b,
    ensures
        job.workers@[a].host_index <= job.workers@[b].host_index,
        job.worker_to_host@[a] <= job.worker_to_host@[b],
        hosts_distinct(job) ==> job.worker_to_host@[a] < job.worker_to_host@[b],
{
    let segment = segment_of(job, a);
    let order = host_order(job.worker_to_host@, segment);
    let i = lemma_position(job, a, a);
    let j = lemma_position(job, a, b);
    lemma_segment_names(job, a, i);
    lemma_segment_names(job, a, j);
    lemma_host_order(job.worker_to_host@, segment);
    assert(segment[i] == a && segment[j] == b);
    if j < i {
        assert(segment[j] < segment[i]);
    }
    assert(placed_before(job.worker_to_host@, order[i], order[j]));
}

/// No two workers of a job are on the same host.
pub open spec fn hosts_distinct(job: &MLJob) -> bool {
    forall|x: WorkerId, y: WorkerId|
        job.workers@.contains_key(x) && job.workers@.contains_key(y) && x != y ==> #[trigger] job.worker_to_host@[x]
            != #[trigger] job.worker_to_host@[y]
}

/// The workers of a pipeline are those of its stages.
pub open spec fn fills_stages(job: &MLJob) -> bool {
    job.pipeline_stages matches Some(info) ==> forall|k: WorkerId| #[trigger]
        job.workers@.contains_key(k) == (k < info.num_stages * info.workers_per_stage)
}

/// Every worker of a segment is a worker of the job, and has a place in the order of hosts.
proof fn lemma_full_segment(job: &MLJob, k: WorkerId)
    requires
        is_placed_job(job),
        rank_valid(job),
        fills_stages(job),
        job.workers@.contains_key(k),
    ensures
        has_rank(job, k),
        strictly_ascending(segment_of(job, k)),
        segment_of(job, k).to_set().subset_of(job.workers@.dom()),
        segment_of(job, k).contains(k),
        host_order(job.worker_to_host@, segment_of(job, k)).to_set() == segment_of(job, k).to_set(),
        host_order(job.worker_to_host@, segment_of(job, k)).len() == segment_of(job, k).len(),
{
    let hosts = job.worker_to_host@;
    let segment = segment_of(job, k);
    let order = host_order(hosts, segment);
    match job.pipeline_stages {
        Some(info) => {
            let w = info.workers_per_stage as int;
            let stage = (k as int / w) as nat;
            assert(stage < info.num_stages) by {
                vstd::arithmetic::mul::lemma_mul_is_commutative(w, info.num_stages as int);
                vstd::arithmetic::div_mod::lemma_multiply_divide_lt(k as int, w, info.num_stages as int);
            }
            lemma_stage_segment(info, stage);
            crate::simulator::ml_job::lemma_stage_workers_partition(info, k as int, stage as int);
            let x = k - stage * w;
            assert(segment[x] == k);
            assert(stage * w + w <= info.num_stages * w) by (nonlinear_arith)
                requires
                    stage + 1 <= info.num_stages,
                    w >= 0,
            ;
            assert forall|y: WorkerId| segment.to_set().contains(y) implies job.workers@.dom().contains(y) by {
                lemma_in_stage(info, stage, y);
                assert(job.workers@.contains_key(y));
            }
        },
        None => {
            assert(strictly_ascending(segment) && segment.to_set() == job.workers@.dom());
            assert(segment.to_set().contains(k));
        },
    }
    lemma_host_order(hosts, segment);
    assert(hosts.dom() =~= job.workers@.dom());
    assert(order.to_set() =~= segment.to_set());
    order.unique_seq_to_set();
    assert(segment.no_duplicates());
    segment.unique_seq_to_set();
}

/// Putting the ranks of a job in order keeps the names of its workers.
proof fn lemma_names_kept(job: &MLJob, k: WorkerId)
    requires
        is_placed_job(job),
        rank_valid(job),
        fills_stages(job),
    ensures
        job_renamed(job).contains_key(k) == job.workers@.contains_key(k),
{
    let hosts = job.worker_to_host@;
    let m = job_renaming(job);
    if job.workers@.contains_key(k) {
        lemma_full_segment(job, k);
        let segment = segment_of(job, k);
        let order = host_order(hosts, segment);
        let i = choose|i: int| 0 <= i < segment.len() && segment[i] == k;
        lemma_segment_names(job, k, i);
        let o = order[i];
        assert(order.to_set().contains(o));
        assert(job.workers@.contains_key(o));
        if o != k {
            assert(moves(job.workers@, m, o, k));
        }
    }
    if job_renamed(job).contains_key(k) && !job.workers@.contains_key(k) {
        let o = choose|o: WorkerId| moves(job.workers@, m, o, k);
        lemma_full_segment(job, o);
        let segment = segment_of(job, o);
        let i = lemma_position(job, o, o);
        lemma_segment_names(job, o, i);
        assert(segment[i] == k);
        assert(segment.to_set().contains(k));
    }
}

/// Putting the ranks of a job in order keeps its workers: each has a rank of its segment afterwards, on its
/// host and with its events, of which only the peers are new. No rank is lost and none is added.
pub proof fn lemma_worker_kept(before: &MLJob, after: &MLJob, o: WorkerId) -> (k: WorkerId)
    requires
        is_placed_job(before),
        rank_valid(before),
        fills_stages(before),
        reranked(before, after),
        before.workers@.contains_key(o),
        before.workers@[o].id == o,
    ensures
        after.workers@.dom() == before.workers@.dom(),
        after.workers@.contains_key(k),
        segment_of(before, o).contains(k),
        retargeted(
            job_layout(before.num_workers, before.ring_count, before.pipeline_stages),
            job_renaming(before),
            k,
            MLWorker { id: k, ..before.workers@[o] },
            after.workers@[k],
        ),
        after.worker_to_host@[k] == before.worker_to_host@[o],
{
    let hosts = before.worker_to_host@;
    let m = job_renaming(before);
    let mid = job_renamed(before);
    assert forall|x: WorkerId| mid.dom().contains(x) == before.workers@.dom().contains(x) by {
        lemma_names_kept(before, x);
    }
    assert(mid.dom() =~= before.workers@.dom());
    lemma_full_segment(before, o);
    let segment = segment_of(before, o);
    let i = lemma_position(before, o, o);
    lemma_segment_names(before, o, i);
    let k = segment[i];
    assert(segment.contains(k));
    assert(segment.to_set().contains(k));
    assert(mid.contains_key(k));
    lemma_rank_renaming_injective(before.workers@.dom(), hosts, before.pipeline_stages);
    if o != k {
        assert(moves(before.workers@, m, o, k));
        let x = choose|x: WorkerId| moves(before.workers@, m, x, k);
        assert(x == o);
        assert(mid[k] == (MLWorker { id: k, ..before.workers@[o] }));
    } else {
        if exists|x: WorkerId| moves(before.workers@, m, x, k) {
            let x = choose|x: WorkerId| moves(before.workers@, m, x, k);
            if let Some(info) = before.pipeline_stages {
                lemma_rename_stages(hosts, info, info.num_stages as nat);
            }
            lemma_full_segment(before, x);
            let j = lemma_position(before, o, x);
            lemma_segment_names(before, o, j);
            assert(segment[j] == k);
            assert(i == j);
        }
        assert(mid[k] == before.workers@[k]);
        assert(mid[k] == (MLWorker { id: k, ..before.workers@[o] }));
    }
    k
}

/// A segment whose workers stand on the hosts from left to right is in the order of hosts.
proof fn lemma_in_host_order(hosts: Map<WorkerId, usize>, segment: Seq<WorkerId>)
    requires
        strictly_ascending(segment),
        segment.to_set().subset_of(hosts.dom()),
        forall|i: int, j: int| 0 <= i < j < segment.len() ==> hosts[#[trigger] segment[i]] <= hosts[#[trigger] segment[j]],
    ensures
        host_order(hosts, segment) == segment,
{
    lemma_host_order(hosts, segment);
    assert(segment.to_set().intersect(hosts.dom()) =~= segment.to_set());
    assert forall|i: int, j: int| 0 <= i < j < segment.len() implies placed_before(hosts, segment[i], segment[j]) by {
        assert(hosts[segment[i]] <= hosts[segment[j]]);
        assert(segment[i] < segment[j]);
    }
    lemma_left_to_right_unique(hosts, host_order(hosts, segment), segment);
}

proof fn lemma_rename_none(m: Map<WorkerId, WorkerId>, s: Seq<WorkerId>, n: nat)
    ensures
        rename_first(m, s, s, n) == m,
    decreases n,
{
    if n > 0 {
        lemma_rename_none(m, s, (n - 1) as nat);
    }
}

proof fn lemma_stages_settled(hosts: Map<WorkerId, usize>, info: PipelineStageInfo, n: nat)
    requires
        n <= info.num_stages,
        forall|s: nat| s < n ==> host_order(hosts, #[trigger] stage_segment(info, s)) == stage_segment(info, s),
    ensures
        rename_stages(hosts, info, n) == Map::<WorkerId, WorkerId>::empty(),
    decreases n,
{
    if n > 0 {
        lemma_stages_settled(hosts, info, (n - 1) as nat);
        let segment = stage_segment(info, (n - 1) as nat);
        assert(host_order(hosts, segment) == segment);
        lemma_rename_none(Map::empty(), segment, segment.len());
    }
}

/// Once the ranks of a job have been put in order, its placement calls for no other ranks.
pub proof fn lemma_ranks_settled(before: &MLJob, after: &MLJob)
    requires
        is_placed_job(before),
        rank_valid(before),
        fills_stages(before),
        reranked(before, after),
    ensures
        job_renaming(after) == Map::<WorkerId, WorkerId>::empty(),
        after.workers@.dom() == before.workers@.dom(),
{
    let hosts = after.worker_to_host@;
    assert forall|x: WorkerId| job_renamed(before).dom().contains(x) == before.workers@.dom().contains(x) by {
        lemma_names_kept(before, x);
    }
    assert(job_renamed(before).dom() =~= before.workers@.dom());
    assert(hosts.dom() =~= after.workers@.dom());
    assert forall|w: WorkerId| #[trigger] before.workers@.contains_key(w) implies has_rank(before, w) by {
        lemma_full_segment(before, w);
    }
    match before.pipeline_stages {
        Some(info) => {
            let w = info.workers_per_stage as int;
            assert forall|s: nat| s < info.num_stages implies host_order(hosts, #[trigger] stage_segment(info, s))
                == stage_segment(info, s) by {
                let segment = stage_segment(info, s);
                lemma_stage_segment(info, s);
                assert(s * w + w <= info.num_stages * w) by (nonlinear_arith)
                    requires
                        s + 1 <= info.num_stages,
                        w >= 0,
                ;
                assert forall|x: WorkerId| segment.to_set().contains(x) implies hosts.dom().contains(x) by {
                    lemma_in_stage(info, s, x);
                    assert(before.workers@.contains_key(x));
                }
                assert forall|i: int, j: int| 0 <= i < j < segment.len() implies hosts[#[trigger] segment[i]]
                    <= hosts[#[trigger] segment[j]] by {
                    assert(segment.to_set().contains(segment[i]) && segment.to_set().contains(segment[j]));
                    lemma_in_stage(info, s, segment[i]);
                    lemma_in_stage(info, s, segment[j]);
                    assert(before.workers@.contains_key(segment[i]) && before.workers@.contains_key(segment[j]));
                    lemma_ranks_ascend(before, after, segment[i], segment[j]);
                }
                lemma_in_host_order(hosts, segment);
            }
            lemma_stages_settled(hosts, info, info.num_stages as nat);
        },
        None => {
            let segment = ascending(before.workers@.dom());
            assert(strictly_ascending(segment) && segment.to_set() == before.workers@.dom());
            assert forall|i: int, j: int| 0 <= i < j < segment.len() implies hosts[#[trigger] segment[i]]
                <= hosts[#[trigger] segment[j]] by {
                assert(segment.to_set().contains(segment[i]) && segment.to_set().contains(segment[j]));
                lemma_ranks_ascend(before, after, segment[i], segment[j]);
            }
            lemma_in_host_order(hosts, segment);
            lemma_rename_none(Map::empty(), segment, segment.len());
        },
    }
}

/// In a ring whose workers stand on the hosts from left to right, at most one worker of a rack sends to
/// another rack.
pub proof fn lemma_one_crossing(
    layout: RankLayout,
    hosts: Map<WorkerId, usize>,
    hosts_per_tor: nat,
    a: WorkerId,
    b: WorkerId,
)
    requires
        !layout.pipelined,
        layout.stride > 0,
        hosts_per_tor > 0,
        forall|x: WorkerId, y: WorkerId| x < y < layout.num_workers ==> #[trigger] hosts[x] <= #[trigger] hosts[y],
        a < layout.num_workers,
        b < layout.num_workers,
        a % layout.stride == b % layout.stride,
        hosts[a] as nat / hosts_per_tor == hosts[b] as nat / hosts_per_tor,
        hosts[layout.ring_next(a) as usize] as nat / hosts_per_tor != hosts[a] as nat / hosts_per_tor,
        hosts[layout.ring_next(b) as usize] as nat / hosts_per_tor != hosts[b] as nat / hosts_per_tor,
    ensures
        a == b,
{
    if a < b {
        lemma_inner_step(layout, hosts, hosts_per_tor, a, b);
    } else if b < a {
        lemma_inner_step(layout, hosts, hosts_per_tor, b, a);
    }
}

/// A worker with a later worker of its ring in its rack sends inside the rack.
proof fn lemma_inner_step(
    layout: RankLayout,
    hosts: Map<WorkerId, usize>,
    hosts_per_tor: nat,
    a: WorkerId,
    b: WorkerId,
)
    requires
        !layout.pipelined,
        layout.stride > 0,
        hosts_per_tor > 0,
        forall|x: WorkerId, y: WorkerId| x < y < layout.num_workers ==> #[trigger] hosts[x] <= #[trigger] hosts[y],
        a < b < layout.num_workers,
        a % layout.stride == b % layout.stride,
        hosts[a] as nat / hosts_per_tor == hosts[b] as nat / hosts_per_tor,
    ensures
        hosts[layout.ring_next(a) as usize] as nat / hosts_per_tor == hosts[a] as nat / hosts_per_tor,
{
    let s = layout.stride as int;
    let n = layout.num_workers as int;
    vstd::arithmetic::div_mod::lemma_fundamental_div_mod(a as int, s);
    vstd::arithmetic::div_mod::lemma_fundamental_div_mod(b as int, s);
    let p = a as int / s;
    let q = b as int / s;
    assert(p < q) by (nonlinear_arith)
        requires
            a == s * p + a % s as usize,
            b == s * q + b % s as usize,
            a % s as usize == b % s as usize,
            a < b,
            s > 0,
    ;
    assert(s * q >= s * p + s) by (nonlinear_arith)
        requires
            q >= p + 1,
            s > 0,
    ;
    assert(a + s <= b);
    vstd::arithmetic::div_mod::lemma_small_mod((a + s) as nat, n as nat);
    let next = layout.ring_next(a) as usize;
    assert(next == a + s);
    assert(hosts[a] <= hosts[next]);
    if next < b {
        assert(hosts[next] <= hosts[b]);
    }
    vstd::arithmetic::div_mod::lemma_div_is_ordered(hosts[a] as int, hosts[next] as int, hosts_per_tor as int);
    vstd::arithmetic::div_mod::lemma_div_is_ordered(hosts[next] as int, hosts[b] as int, hosts_per_tor as int);
}

} // verus!
