//! What the spines of the flows of jobs promise.

use vstd::prelude::*;

use crate::rail::perfect::perfect_rail_route;
use crate::rail::topology::{lemma_gpu, lemma_gpu_node, RailSize, RailTree};
use crate::routing::job_flows::HostFlow;
use crate::routing::perfect::{
    are_ring_spines, are_spine_rows, group_count, host_pairs, lemma_ring_spines, pair_spines, row_of, spine_flows, switch_pairs, turns,
    with_rows, Fabric, SpineRow,
};
use crate::routing::walks::{is_walk, leads, lemma_leaf, lemma_rail_route_leads, lemma_spine_route_leads};
use crate::simulator::context::WaitingFlow;
use crate::simulator::ml_worker::FlowId;
use crate::spine::coloring::{degree, degrees_within, end_of};
use crate::spine::perfect::perfect_route;
use crate::spine::routing::leaf_number;
use crate::spine::topology::{SpineSize, SpineTree};

verus! {

/// The flow runs between regions.
pub open spec fn is_far<T: Fabric>(topo: T, f: HostFlow) -> bool {
    topo.region_of(f.src_host) != topo.region_of(f.dst_host)
}

/// The row speaks of the flow.
pub open spec fn is_row_of(f: HostFlow, row: SpineRow) -> bool {
    &&& row.job_id == f.job_id
    &&& row.job_flow_idx == f.job_flow_idx
    &&& row.src_host == f.src_host
    &&& row.dst_host == f.dst_host
    &&& row.is_ring == f.is_ring_flow
}

/// The switch at one end of a flow.
pub open spec fn port_at<T: Fabric>(topo: T, f: HostFlow, left: bool) -> usize {
    if left {
        topo.port_of(f.src_host)
    } else {
        topo.port_of(f.dst_host)
    }
}

/// The flows of rings that run between regions and start, or end, below a switch.
pub open spec fn ring_flows_at<T: Fabric>(topo: T, flows: Seq<HostFlow>, left: bool, port: usize, n: nat) -> Set<int> {
    Set::new(
        |i: int|
            0 <= i < n && is_far(topo, flows[i]) && flows[i].is_ring_flow && port_at(topo, flows[i], left) == port,
    )
}

proof fn lemma_degree_push(edges: Seq<(usize, usize)>, e: (usize, usize), left: bool, node: usize, n: nat)
    requires
        n <= edges.len(),
    ensures
        degree(edges.push(e), left, node, n) == degree(edges, left, node, n),
    decreases n,
{
    if n > 0 {
        lemma_degree_push(edges, e, left, node, (n - 1) as nat);
    }
}

proof fn lemma_ring_degree<T: Fabric>(topo: T, flows: Seq<HostFlow>, left: bool, port: usize, n: nat)
    requires
        n <= flows.len(),
    ensures
        ({
            let edges = switch_pairs(topo, spine_flows(topo, flows, true, n));
            &&& ring_flows_at(topo, flows, left, port, n).finite()
            &&& degree(edges, left, port, edges.len()) == ring_flows_at(topo, flows, left, port, n).len()
        }),
    decreases n,
{
    let s = ring_flows_at(topo, flows, left, port, n);
    if n == 0 {
        assert(s =~= Set::empty());
    } else {
        lemma_ring_degree(topo, flows, left, port, (n - 1) as nat);
        let before = ring_flows_at(topo, flows, left, port, (n - 1) as nat);
        let f = flows[n - 1];
        let rest = switch_pairs(topo, spine_flows(topo, flows, true, (n - 1) as nat));
        let edges = switch_pairs(topo, spine_flows(topo, flows, true, n));
        if is_far(topo, f) && f.is_ring_flow {
            let e = (topo.port_of(f.src_host), topo.port_of(f.dst_host));
            assert(edges =~= rest.push(e));
            lemma_degree_push(rest, e, left, port, rest.len());
            assert(end_of(e, left) == port_at(topo, f, left));
            if port_at(topo, f, left) == port {
                assert(s =~= before.insert(n - 1));
            } else {
                assert(s =~= before);
            }
        } else {
            assert(s =~= before);
        }
    }
}

/// What is among the flows that need a spine.
proof fn lemma_spine_flows<T: Fabric>(topo: T, flows: Seq<HostFlow>, ring: bool, n: nat)
    requires
        n <= flows.len(),
    ensures
        ({
            let list = spine_flows(topo, flows, ring, n);
            &&& forall|k: int|
                0 <= k < list.len() ==> is_far(topo, #[trigger] list[k]) && list[k].is_ring_flow == ring && flows.contains(
                    list[k],
                )
            &&& forall|i: int|
                0 <= i < n && is_far(topo, #[trigger] flows[i]) && flows[i].is_ring_flow == ring ==> list.contains(flows[i])
        }),
    decreases n,
{
    if n > 0 {
        lemma_spine_flows(topo, flows, ring, (n - 1) as nat);
        let rest = spine_flows(topo, flows, ring, (n - 1) as nat);
        let list = spine_flows(topo, flows, ring, n);
        assert(flows.contains(flows[n - 1]));
        assert forall|i: int| 0 <= i < n && is_far(topo, #[trigger] flows[i]) && flows[i].is_ring_flow == ring implies list.contains(
            flows[i],
        ) by {
            if i < n - 1 {
                assert(rest.contains(flows[i]));
                let x = choose|x: int| 0 <= x < rest.len() && rest[x] == flows[i];
                assert(list[x] == flows[i]);
            } else {
                assert(list[list.len() - 1] == flows[i]);
            }
        }
    }
}

proof fn lemma_spine_flow_count<T: Fabric>(topo: T, flows: Seq<HostFlow>, n: nat)
    requires
        n <= flows.len(),
    ensures
        Set::new(|i: int| 0 <= i < n && is_far(topo, flows[i])).finite(),
        spine_flows(topo, flows, true, n).len() + spine_flows(topo, flows, false, n).len() == Set::new(
            |i: int| 0 <= i < n && is_far(topo, flows[i]),
        ).len(),
    decreases n,
{
    let s = Set::new(|i: int| 0 <= i < n && is_far(topo, flows[i]));
    if n == 0 {
        assert(s =~= Set::empty());
    } else {
        lemma_spine_flow_count(topo, flows, (n - 1) as nat);
        let before = Set::new(|i: int| 0 <= i < (n - 1) as nat && is_far(topo, flows[i]));
        if is_far(topo, flows[n - 1]) {
            assert(s =~= before.insert(n - 1));
        } else {
            assert(s =~= before);
        }
    }
}

/// Each flow between regions has a row, and there are no others.
pub proof fn lemma_rows_of_flows<T: Fabric>(topo: T, flows: Seq<HostFlow>, rows: Seq<SpineRow>)
    requires
        are_spine_rows(topo, flows, rows),
    ensures
        forall|i: int|
            0 <= i < flows.len() && is_far(topo, #[trigger] flows[i]) ==> exists|x: int|
                0 <= x < rows.len() && is_row_of(flows[i], #[trigger] rows[x]),
        forall|x: int|
            0 <= x < rows.len() ==> exists|i: int|
                0 <= i < flows.len() && is_far(topo, #[trigger] flows[i]) && is_row_of(flows[i], #[trigger] rows[x]),
        rows.len() == Set::new(|i: int| 0 <= i < flows.len() && is_far(topo, flows[i])).len(),
{
    let ring = spine_flows(topo, flows, true, flows.len());
    let other = spine_flows(topo, flows, false, flows.len());
    lemma_spine_flows(topo, flows, true, flows.len());
    lemma_spine_flows(topo, flows, false, flows.len());
    lemma_spine_flow_count(topo, flows, flows.len());
    assert forall|i: int| 0 <= i < flows.len() && is_far(topo, #[trigger] flows[i]) implies exists|x: int|
        0 <= x < rows.len() && is_row_of(flows[i], #[trigger] rows[x]) by {
        if flows[i].is_ring_flow {
            assert(ring.contains(flows[i]));
            let x = choose|x: int| 0 <= x < ring.len() && ring[x] == flows[i];
            assert(is_row_of(flows[i], rows[x]));
        } else {
            assert(other.contains(flows[i]));
            let x = choose|x: int| 0 <= x < other.len() && other[x] == flows[i];
            assert(is_row_of(flows[i], rows[ring.len() + x]));
        }
    }
    assert forall|x: int| 0 <= x < rows.len() implies exists|i: int|
        0 <= i < flows.len() && is_far(topo, #[trigger] flows[i]) && is_row_of(flows[i], #[trigger] rows[x]) by {
        let f = if x < ring.len() {
            ring[x]
        } else {
            other[x - ring.len()]
        };
        assert(flows.contains(f));
        let i = choose|i: int| 0 <= i < flows.len() && flows[i] == f;
        assert(is_far(topo, flows[i]) && is_row_of(flows[i], rows[x]));
    }
}

/// Where no switch has more flows of rings than there are spines, those from a switch go over different spines, and so do
/// those to a switch.
pub proof fn lemma_ring_rows<T: Fabric>(topo: T, flows: Seq<HostFlow>, rows: Seq<SpineRow>, x: int, y: int)
    requires
        are_spine_rows(topo, flows, rows),
        forall|left: bool, port: usize|
            (#[trigger] ring_flows_at(topo, flows, left, port, flows.len())).len() <= topo.spine_total(),
        0 <= x < rows.len(),
        0 <= y < rows.len(),
        x != y,
        rows[x].is_ring,
        rows[y].is_ring,
        topo.port_of(rows[x].src_host) == topo.port_of(rows[y].src_host) || topo.port_of(rows[x].dst_host) == topo.port_of(
            rows[y].dst_host,
        ),
    ensures
        rows[x].spine != rows[y].spine,
{
    let ring = spine_flows(topo, flows, true, flows.len());
    let other = spine_flows(topo, flows, false, flows.len());
    lemma_spine_flows(topo, flows, true, flows.len());
    lemma_spine_flows(topo, flows, false, flows.len());
    let edges = switch_pairs(topo, ring);
    let turn = pair_spines(host_pairs(other), turns(topo, other), topo.spine_total(), other.len()).spines;
    let colors = choose|colors: Seq<usize>|
        {
            &&& #[trigger] are_ring_spines(switch_pairs(topo, ring), topo.spine_total(), colors)
            &&& rows == Seq::new(ring.len(), |i: int| row_of(ring[i], colors[i])) + other.map_values(
                |f: HostFlow| row_of(f, turn[(f.src_host, f.dst_host)]),
            )
        };
    assert(x < ring.len()) by {
        if x >= ring.len() {
            assert(!other[x - ring.len()].is_ring_flow);
        }
    }
    assert(y < ring.len()) by {
        if y >= ring.len() {
            assert(!other[y - ring.len()].is_ring_flow);
        }
    }
    assert(degrees_within(edges, topo.spine_total())) by {
        assert forall|left: bool, node: usize| #[trigger] degree(edges, left, node, edges.len()) <= topo.spine_total() by {
            lemma_ring_degree(topo, flows, left, node, flows.len());
            assert(ring_flows_at(topo, flows, left, node, flows.len()).len() <= topo.spine_total());
        }
    }
    lemma_ring_spines(edges, topo.spine_total(), colors, x, y);
}

proof fn lemma_pair_kept(pairs: Seq<(usize, usize)>, groups: Seq<usize>, spines: nat, n: nat)
    requires
        0 < spines <= usize::MAX,
        n <= pairs.len(),
    ensures
        forall|i: int| 0 <= i < n ==> pair_spines(pairs, groups, spines, n).spines.contains_key(#[trigger] pairs[i]),
        forall|p: (usize, usize)| #[trigger]
            pair_spines(pairs, groups, spines, n).spines.contains_key(p) ==> pair_spines(pairs, groups, spines, n).spines[p]
                < spines,
    decreases n,
{
    if n > 0 {
        lemma_pair_kept(pairs, groups, spines, (n - 1) as nat);
        let before = pair_spines(pairs, groups, spines, (n - 1) as nat);
        vstd::arithmetic::div_mod::lemma_mod_bound(groups[n - 1] + group_count(before, groups[n - 1]), spines as int);
    }
}

/// Flows that belong to no ring share a spine if they run between the same hosts. All spines exist.
pub proof fn lemma_pair_rows<T: Fabric>(topo: T, flows: Seq<HostFlow>, rows: Seq<SpineRow>, x: int, y: int)
    requires
        are_spine_rows(topo, flows, rows),
        0 < topo.spine_total() <= usize::MAX,
        0 <= x < rows.len(),
        0 <= y < rows.len(),
        !rows[x].is_ring,
        !rows[y].is_ring,
    ensures
        rows[x].spine < topo.spine_total(),
        rows[x].src_host == rows[y].src_host && rows[x].dst_host == rows[y].dst_host ==> rows[x].spine == rows[y].spine,
{
    let ring = spine_flows(topo, flows, true, flows.len());
    let other = spine_flows(topo, flows, false, flows.len());
    lemma_spine_flows(topo, flows, true, flows.len());
    let pairs = host_pairs(other);
    lemma_pair_kept(pairs, turns(topo, other), topo.spine_total(), other.len());
    assert(x >= ring.len()) by {
        if x < ring.len() {
            assert(ring[x].is_ring_flow);
        }
    }
    assert(y >= ring.len()) by {
        if y < ring.len() {
            assert(ring[y].is_ring_flow);
        }
    }
    assert(pairs[x - ring.len()] == (rows[x].src_host, rows[x].dst_host));
}

/// The spine of a row is set up for its flow, unless a later row speaks of the same flow.
pub proof fn lemma_rows_installed(start: Map<(usize, usize), usize>, rows: Seq<SpineRow>, n: nat, x: int)
    requires
        0 <= x < n <= rows.len(),
        forall|y: int|
            x < y < n ==> (#[trigger] rows[y]).job_id != rows[x].job_id || rows[y].job_flow_idx != rows[x].job_flow_idx,
    ensures
        with_rows(start, rows, n).contains_key((rows[x].job_id, rows[x].job_flow_idx)),
        with_rows(start, rows, n)[(rows[x].job_id, rows[x].job_flow_idx)] == rows[x].spine,
    decreases n,
{
    if x < n - 1 {
        lemma_rows_installed(start, rows, (n - 1) as nat, x);
    }
}

/// In a spine network the regions and the switches above hosts are the leaves.
pub proof fn lemma_spine_regions(topo: SpineTree, h: usize)
    requires
        topo.hosts_per_leaf > 0,
    ensures
        topo.region_of(h) == leaf_number(topo.size(), h as int),
        topo.port_of(h) == leaf_number(topo.size(), h as int),
        topo.spine_total() == topo.size().num_spines,
{
}

/// In a rail network the regions are the pods, and two GPUs are below the same switch exactly if they have the same rail.
pub proof fn lemma_rail_regions(topo: RailTree, a: usize, b: usize)
    requires
        topo.wf(),
        topo.block_size > 0,
        topo.blocks_per_pod > 0,
        a < topo.size().gpus(),
        b < topo.size().gpus(),
    ensures
        ({
            let s = topo.size();
            &&& topo.region_of(a) == s.pod_of(a as int)
            &&& (topo.port_of(a) == topo.port_of(b)) == (s.rail_node(s.pod_of(a as int), s.offset_of(a as int)) == s.rail_node(
                s.pod_of(b as int),
                s.offset_of(b as int),
            ))
            &&& topo.spine_total() == s.num_spines
        }),
{
    let s = topo.size();
    lemma_rail_region(topo, a);
    lemma_rail_region(topo, b);
}

proof fn lemma_rail_region(topo: RailTree, a: usize)
    requires
        topo.wf(),
        topo.block_size > 0,
        topo.blocks_per_pod > 0,
        a < topo.size().gpus(),
    ensures
        topo.region_of(a) == topo.size().pod_of(a as int),
        topo.port_of(a) == topo.size().pod_of(a as int) * topo.size().block_size + topo.size().offset_of(a as int),
{
    let s = topo.size();
    let (x, m, n) = (a as int, s.block_size as int, s.blocks_per_pod as int);
    vstd::arithmetic::div_mod::lemma_div_denominator(x, m, n);
    vstd::arithmetic::mul::lemma_mul_is_commutative(m, n);
    lemma_gpu(s, x);
    lemma_gpu_node(s, s.pod_of(x), s.offset_of(x));
}

/// The route of a flow goes over the spine that is set up for it, and leads from its source to its destination. Below one
/// leaf it uses no spine.
pub proof fn lemma_perfect_route_leads(
    table: Map<(usize, usize), usize>,
    s: SpineSize,
    waiting: Map<FlowId, WaitingFlow>,
    src: usize,
    dst: usize,
    flow_id: FlowId,
)
    requires
        s.fits(),
        src < s.hosts(),
        dst < s.hosts(),
        src != dst,
        waiting.contains_key(flow_id),
        table.contains_key((waiting[flow_id].0, waiting[flow_id].1)),
        table[(waiting[flow_id].0, waiting[flow_id].1)] < s.num_spines,
    ensures
        ({
            let spine = table[(waiting[flow_id].0, waiting[flow_id].1)] as int;
            let up = s.leaf_of(src as int) as usize;
            let down = s.leaf_of(dst as int) as usize;
            perfect_route(table, s, waiting, src, dst, flow_id) matches Ok(route) && is_walk(
                s.all_links(),
                if up == down {
                    seq![src, up, dst]
                } else {
                    seq![src, up, (s.hosts() + s.num_leaves + spine) as usize, down, dst]
                },
                route,
            )
        }),
{
    let spine = table[(waiting[flow_id].0, waiting[flow_id].1)] as int;
    lemma_spine_route_leads(s, src as int, dst as int, spine);
    lemma_spine_route_leads(s, src as int, dst as int, 0);
    lemma_leaf(s, src as int);
    lemma_leaf(s, dst as int);
}

/// The same holds in a rail network; in a pod a flow uses no spine.
pub proof fn lemma_perfect_rail_route_leads(
    table: Map<(usize, usize), usize>,
    s: RailSize,
    waiting: Map<FlowId, WaitingFlow>,
    src: usize,
    dst: usize,
    flow_id: FlowId,
)
    requires
        s.fits(),
        src < s.gpus(),
        dst < s.gpus(),
        src != dst,
        waiting.contains_key(flow_id),
        table.contains_key((waiting[flow_id].0, waiting[flow_id].1)),
        table[(waiting[flow_id].0, waiting[flow_id].1)] < s.num_spines,
    ensures
        ({
            let spine = table[(waiting[flow_id].0, waiting[flow_id].1)] as int;
            let (a, b) = (src as int, dst as int);
            perfect_rail_route(table, s, waiting, src, dst, flow_id) matches Ok(route) && leads(s.all_links(), route, src, dst)
                && (s.pod_of(a) != s.pod_of(b) ==> is_walk(
                s.all_links(),
                seq![
                    src,
                    s.rail_node(s.pod_of(a), s.offset_of(a)) as usize,
                    (s.gpus() + s.rails() + spine) as usize,
                    s.rail_node(s.pod_of(b), s.offset_of(b)) as usize,
                    dst,
                ],
                route,
            ))
        }),
{
    let spine = table[(waiting[flow_id].0, waiting[flow_id].1)] as int;
    lemma_rail_route_leads(s, src as int, dst as int, spine);
    if s.pod_of(src as int) == s.pod_of(dst as int) {
        lemma_rail_route_leads(s, src as int, dst as int, 0);
    }
}

} // verus!
