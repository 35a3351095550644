//! Routes in rail networks.

use vstd::prelude::*;

use crate::network::graph::{connected, link_id, path_links, LinkId};
use crate::rail::topology::{
    inner_link, lemma_gpu, lemma_gpu_node, lemma_inner_links, lemma_rail, lemma_rail_links, lemma_rail_mesh_links,
    RailSize, RailTree, RailTreeRouter,
};
use crate::simulator::context::{MLContext, WaitingFlow};
use crate::simulator::ml_worker::FlowId;
use crate::spine::routing::{copy_path, paths, traffic_hash};
use crate::spine::topology::{Path, RouteFault};
use crate::utils::data::DHashMap;
use crate::utils::hash::{hash_pair, pick, pick_by_hash};

verus! {

/// The nodes between two GPUs, over a spine if they are in different pods. GPUs of a server are
/// linked; GPUs at the same place in a pod share a rail switch; others in a pod reach the rail
/// switch of the destination through a GPU of the source's own server.
pub open spec fn rail_nodes(s: RailSize, src: int, dst: int, spine: int) -> Seq<usize> {
    let rail = s.rail_node(s.pod_of(dst), s.offset_of(dst)) as usize;
    if s.block_of(src) == s.block_of(dst) {
        seq![src as usize, dst as usize]
    } else if s.pod_of(src) == s.pod_of(dst) && s.offset_of(src) == s.offset_of(dst) {
        seq![src as usize, rail, dst as usize]
    } else if s.pod_of(src) == s.pod_of(dst) {
        seq![src as usize, s.gpu_node(s.block_of(src), s.offset_of(dst)) as usize, rail, dst as usize]
    } else {
        seq![
            src as usize,
            s.rail_node(s.pod_of(src), s.offset_of(src)) as usize,
            (s.gpus() + s.rails() + spine) as usize,
            rail,
            dst as usize,
        ]
    }
}

/// The links on that way.
pub open spec fn rail_route(s: RailSize, src: int, dst: int, spine: int) -> Seq<LinkId> {
    let up = s.rail_base() + 2 * src;
    let down = s.rail_base() + 2 * dst + 1;
    let bridge = s.gpu_node(s.block_of(src), s.offset_of(dst));
    if s.block_of(src) == s.block_of(dst) {
        seq![inner_link(s, s.block_of(src), s.offset_of(src), s.offset_of(dst)) as usize]
    } else if s.pod_of(src) == s.pod_of(dst) && s.offset_of(src) == s.offset_of(dst) {
        seq![up as usize, down as usize]
    } else if s.pod_of(src) == s.pod_of(dst) {
        seq![
            inner_link(s, s.block_of(src), s.offset_of(src), s.offset_of(dst)) as usize,
            (s.rail_base() + 2 * bridge) as usize,
            down as usize,
        ]
    } else {
        let a = s.pod_of(src) * s.block_size + s.offset_of(src);
        let b = s.pod_of(dst) * s.block_size + s.offset_of(dst);
        seq![
            up as usize,
            (s.spine_base() + 2 * (a * s.num_spines + spine)) as usize,
            (s.spine_base() + 2 * (b * s.num_spines + spine) + 1) as usize,
            down as usize,
        ]
    }
}

/// The nodes are nodes of the network, are linked, and the links are those of the route.
pub open spec fn rail_route_ok(s: RailSize, src: int, dst: int, spine: int) -> bool {
    let nodes = rail_nodes(s, src, dst, spine);
    &&& connected(s.all_links(), nodes)
    &&& path_links(s.all_links(), nodes, nodes.len()) == rail_route(s, src, dst, spine)
    &&& forall|i: int| 0 <= i < nodes.len() ==> (#[trigger] nodes[i]) < s.nodes()
}

proof fn lemma_same_pod_route(s: RailSize, src: int, dst: int, spine: int)
    requires
        s.fits(),
        0 <= src < s.gpus(),
        0 <= dst < s.gpus(),
        src != dst,
        s.pod_of(src) == s.pod_of(dst),
        s.block_of(src) == s.block_of(dst) || s.offset_of(src) == s.offset_of(dst),
    ensures
        rail_route_ok(s, src, dst, spine),
{
    let links = s.all_links();
    let nodes = rail_nodes(s, src, dst, spine);
    lemma_gpu(s, src);
    lemma_gpu(s, dst);
    let r = path_links(links, nodes, nodes.len());
    reveal_with_fuel(path_links, 3);
    if s.block_of(src) == s.block_of(dst) {
        lemma_inner_links(s, s.block_of(src), s.offset_of(src), s.offset_of(dst));
        assert(link_id(links, nodes[0], nodes[1]) is Some);
    } else {
        lemma_rail_links(s, src);
        lemma_rail_links(s, dst);
        assert(link_id(links, nodes[0], nodes[1]) is Some);
        assert(link_id(links, nodes[1], nodes[2]) is Some);
    }
    assert(r =~= rail_route(s, src, dst, spine));
}

proof fn lemma_bridge_route(s: RailSize, src: int, dst: int, spine: int)
    requires
        s.fits(),
        0 <= src < s.gpus(),
        0 <= dst < s.gpus(),
        s.pod_of(src) == s.pod_of(dst),
        s.block_of(src) != s.block_of(dst),
        s.offset_of(src) != s.offset_of(dst),
    ensures
        rail_route_ok(s, src, dst, spine),
{
    let links = s.all_links();
    let nodes = rail_nodes(s, src, dst, spine);
    lemma_gpu(s, src);
    lemma_gpu(s, dst);
    lemma_rail_links(s, dst);
    let bridge = s.gpu_node(s.block_of(src), s.offset_of(dst));
    lemma_inner_links(s, s.block_of(src), s.offset_of(src), s.offset_of(dst));
    lemma_gpu_node(s, s.block_of(src), s.offset_of(dst));
    lemma_rail_links(s, bridge);
    assert(link_id(links, nodes[0], nodes[1]) is Some);
    assert(link_id(links, nodes[1], nodes[2]) is Some);
    assert(link_id(links, nodes[2], nodes[3]) is Some);
    assert(connected(links, nodes));
    reveal_with_fuel(path_links, 4);
    assert(path_links(links, nodes, nodes.len()) =~= rail_route(s, src, dst, spine));
}

proof fn lemma_cross_route(s: RailSize, src: int, dst: int, spine: int)
    requires
        s.fits(),
        0 <= src < s.gpus(),
        0 <= dst < s.gpus(),
        s.pod_of(src) != s.pod_of(dst),
        0 <= spine < s.num_spines,
    ensures
        rail_route_ok(s, src, dst, spine),
{
    let links = s.all_links();
    let nodes = rail_nodes(s, src, dst, spine);
    lemma_gpu(s, src);
    lemma_gpu(s, dst);
    lemma_rail_links(s, src);
    lemma_rail_links(s, dst);
    let a = s.pod_of(src) * s.block_size + s.offset_of(src);
    let b = s.pod_of(dst) * s.block_size + s.offset_of(dst);
    lemma_rail(s, s.pod_of(src), s.offset_of(src));
    lemma_rail(s, s.pod_of(dst), s.offset_of(dst));
    lemma_rail_mesh_links(s, a, spine);
    lemma_rail_mesh_links(s, b, spine);
    assert(link_id(links, nodes[0], nodes[1]) is Some);
    assert(link_id(links, nodes[1], nodes[2]) is Some);
    assert(link_id(links, nodes[2], nodes[3]) is Some);
    assert(link_id(links, nodes[3], nodes[4]) is Some);
    assert(connected(links, nodes));
    reveal_with_fuel(path_links, 5);
    assert(path_links(links, nodes, nodes.len()) =~= rail_route(s, src, dst, spine));
}

/// Every two GPUs are connected by the nodes between them.
pub proof fn lemma_rail_route(s: RailSize, src: int, dst: int, spine: int)
    requires
        s.fits(),
        0 <= src < s.gpus(),
        0 <= dst < s.gpus(),
        src != dst,
        s.pod_of(src) != s.pod_of(dst) ==> 0 <= spine < s.num_spines,
    ensures
        rail_route_ok(s, src, dst, spine),
{
    if s.pod_of(src) != s.pod_of(dst) {
        lemma_cross_route(s, src, dst, spine);
    } else if s.block_of(src) == s.block_of(dst) || s.offset_of(src) == s.offset_of(dst) {
        lemma_same_pod_route(s, src, dst, spine);
    } else {
        lemma_bridge_route(s, src, dst, spine);
    }
}

/// The nodes between two GPUs.
pub fn build_rail_node_path(topo: &RailTree, src: usize, dst: usize, spine: Option<usize>) -> (r: Vec<usize>)
    requires
        topo.wf(),
        src < topo.size().gpus(),
        dst < topo.size().gpus(),
        topo.size().pod_of(src as int) != topo.size().pod_of(dst as int) ==> spine is Some && spine->0 < topo.num_spines,
    ensures
        r@ == rail_nodes(
            topo.size(),
            src as int,
            dst as int,
            match spine {
                Some(n) => n as int,
                None => 0,
            },
        ),
{
    let ghost s = topo.size();
    let ghost way = rail_nodes(
        s,
        src as int,
        dst as int,
        match spine {
            Some(n) => n as int,
            None => 0,
        },
    );
    proof {
        lemma_gpu(s, src as int);
        lemma_gpu(s, dst as int);
    }
    let src_pod: usize = topo.host_pod(src);
    let dst_pod: usize = topo.host_pod(dst);
    let src_gpu: usize = topo.host_gpu_offset(src);
    let dst_gpu: usize = topo.host_gpu_offset(dst);
    let src_block: usize = topo.host_block_global(src);
    let dst_block: usize = topo.host_block_global(dst);
    let mut nodes: Vec<usize> = Vec::new();
    nodes.push(src);
    if src_block == dst_block {
        nodes.push(dst);
        assert(nodes@ =~= way);
        return nodes;
    }
    if src_pod != dst_pod {
        nodes.push(topo.get_rail(src_pod, src_gpu).unwrap());
        nodes.push(topo.get_spine(spine.unwrap()));
    } else if src_gpu != dst_gpu {
        let in_pod: usize = topo.host_block_in_pod(src);
        let bridge: usize = topo.get_host(src_pod, in_pod, dst_gpu).unwrap();
        proof {
            vstd::arithmetic::div_mod::lemma_fundamental_div_mod(src_block as int, topo.blocks_per_pod as int);
            assert(src_pod * topo.blocks_per_pod == topo.blocks_per_pod * src_pod) by (nonlinear_arith);
        }
        nodes.push(bridge);
    }
    nodes.push(topo.get_rail(dst_pod, dst_gpu).unwrap());
    nodes.push(dst);
    assert(nodes@ =~= way);
    nodes
}

/// The route between two GPUs, over a spine if they are in different pods.
pub fn rail_route_over(topo: &RailTree, src: usize, dst: usize, spine: Option<usize>) -> (r: Path)
    requires
        topo.wf(),
        src < topo.size().gpus(),
        dst < topo.size().gpus(),
        src != dst,
        topo.size().pod_of(src as int) != topo.size().pod_of(dst as int) ==> spine is Some && spine->0 < topo.num_spines,
    ensures
        r@ == rail_route(
            topo.size(),
            src as int,
            dst as int,
            match spine {
                Some(n) => n as int,
                None => 0,
            },
        ),
{
    let nodes = build_rail_node_path(topo, src, dst, spine);
    proof {
        lemma_rail_route(
            topo.size(),
            src as int,
            dst as int,
            match spine {
                Some(n) => n as int,
                None => 0,
            },
        );
    }
    match topo.graph.convert_path(&nodes) {
        Some(p) => p,
        None => Vec::new(),
    }
}

/// A router that chooses the spine by a hash of the GPUs and the job.
pub struct RailEcmpRouter {
    pub seed: u64,
    /// Routes that have been given.
    pub path_cache: DHashMap<FlowId, Vec<usize>>,
}

impl RailEcmpRouter {
    /// A router that has given no route.
    pub fn new(seed: u64) -> (r: Self)
        ensures
            r.seed == seed,
            paths(r.path_cache@) == Map::<FlowId, Seq<usize>>::empty(),
    {
        let r = RailEcmpRouter { seed, path_cache: DHashMap::new() };
        proof {
            assert(paths(r.path_cache@) =~= Map::<FlowId, Seq<usize>>::empty());
        }
        r
    }
}

/// The route of a flow that has none yet. Only between pods does it matter which job the flow is
/// of.
pub open spec fn fresh_rail_route(
    seed: u64,
    s: RailSize,
    waiting: Map<FlowId, WaitingFlow>,
    src: usize,
    dst: usize,
    flow_id: FlowId,
) -> Result<Seq<usize>, RouteFault> {
    if s.pod_of(src as int) == s.pod_of(dst as int) {
        Ok(rail_route(s, src as int, dst as int, 0))
    } else if waiting.contains_key(flow_id) {
        Ok(
            rail_route(
                s,
                src as int,
                dst as int,
                pick(traffic_hash(seed, src, dst, waiting[flow_id].0), s.num_spines) as int,
            ),
        )
    } else {
        Err(RouteFault::UnknownFlow(flow_id))
    }
}

impl RailTreeRouter for RailEcmpRouter {
    /// A flow keeps the route that it was given.
    fn route(
        &mut self,
        topo: &RailTree,
        ctx: &MLContext,
        src: usize,
        dst: usize,
        flow_id: FlowId,
    ) -> (r: Result<Path, RouteFault>)
        ensures
            final(self).seed == old(self).seed,
            ({
                let cache = paths(old(self).path_cache@);
                if cache.contains_key(flow_id) {
                    r is Ok && r->Ok_0@ == cache[flow_id] && *final(self) == *old(self)
                } else {
                    match fresh_rail_route(
                        old(self).seed,
                        topo.size(),
                        ctx.waiting_flows@,
                        src,
                        dst,
                        flow_id,
                    ) {
                        Ok(p) => r is Ok && r->Ok_0@ == p && paths(final(self).path_cache@) == cache.insert(flow_id, p),
                        Err(f) => r is Err && r->Err_0 == f && *final(self) == *old(self),
                    }
                }
            }),
    {
        if let Some(p) = self.path_cache.get(&flow_id) {
            return Ok(copy_path(p));
        }
        let spine: Option<usize> = if topo.host_pod(src) != topo.host_pod(dst) {
            match ctx.waiting_flows.get(&flow_id) {
                Some(w) => {
                    let hash: u64 = hash_pair(self.seed, src, dst, w.0);
                    Some(pick_by_hash(hash, topo.num_spines))
                },
                None => {
                    return Err(RouteFault::UnknownFlow(flow_id));
                },
            }
        } else {
            None
        };
        let path = rail_route_over(topo, src, dst, spine);
        let ghost before = self.path_cache@;
        let kept = copy_path(&path);
        self.path_cache.insert(flow_id, kept);
        proof {
            assert(paths(self.path_cache@) =~= paths(before).insert(flow_id, path@));
        }
        Ok(path)
    }

    fn complete_flow(&mut self, flow_id: FlowId)
        ensures
            final(self).seed == old(self).seed,
            final(self).path_cache@ == old(self).path_cache@.remove(flow_id),
    {
        self.path_cache.remove(&flow_id);
    }
}

} // verus!
