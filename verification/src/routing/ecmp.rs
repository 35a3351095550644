//! Equal-cost multi-path routing in fat trees.

use vstd::prelude::*;

use crate::network::graph::LinkId;
use crate::routing::fat_tree::{far_nodes, link_path, near_nodes, pod_nodes, FatTree, FatTreeRouter, FatTreeView};
use crate::simulator::context::MLContext;
use crate::simulator::ml_worker::FlowId;
use crate::spine::routing::{copy_path, paths, same_route};
use crate::spine::topology::{Path, RouteFault};
use crate::utils::data::DHashMap;
use crate::utils::hash::{hash_level, le_bytes, pair_key, pick, pick_by_hash, xx_hash};

verus! {

/// The hash that chooses a switch at a level for a flow.
pub open spec fn level_hash(seed: u64, src: usize, dst: usize, flow_id: FlowId, level: nat) -> u64 {
    xx_hash(seed, pair_key(src as nat, dst as nat) + le_bytes(flow_id as nat, 8) + le_bytes(level, 8))
}

/// The route of a flow that has none yet. The switches on the way are chosen by hashes; the flow has
/// no route if there is none to choose from, or those chosen are not linked.
pub open spec fn multipath_route(seed: u64, t: FatTreeView, src: usize, dst: usize, flow_id: FlowId) -> Result<
    Seq<LinkId>,
    RouteFault,
> {
    let s = src as int;
    let d = dst as int;
    let up = pick(level_hash(seed, src, dst, flow_id, 0), t.degree_agg) as int;
    let core = pick(level_hash(seed, src, dst, flow_id, 1), t.cores.len()) as int;
    let down = pick(level_hash(seed, src, dst, flow_id, 2), t.degree_agg) as int;
    let path = if t.host_tor[s] == t.host_tor[d] {
        link_path(t, near_nodes(t, s, d))
    } else if t.degree_agg == 0 {
        None
    } else if t.host_pod[s] == t.host_pod[d] {
        link_path(t, pod_nodes(t, s, d, up))
    } else if t.cores.len() == 0 {
        None
    } else {
        link_path(t, far_nodes(t, s, d, up, core, down))
    };
    match path {
        Some(p) => Ok(p),
        None => Err(RouteFault::NoRoute(flow_id)),
    }
}

/// A router that chooses switches by hashes of the flow.
pub struct EcmpRouter {
    pub seed: u64,
    /// Routes that have been given.
    pub path_cache: DHashMap<FlowId, Vec<usize>>,
}

impl EcmpRouter {
    /// A router that has given no route.
    pub fn new(seed: u64) -> (r: Self)
        ensures
            r.seed == seed,
            paths(r.path_cache@) == Map::<FlowId, Seq<usize>>::empty(),
    {
        let r = EcmpRouter { seed, path_cache: DHashMap::new() };
        proof {
            assert(paths(r.path_cache@) =~= Map::<FlowId, Seq<usize>>::empty());
        }
        r
    }

    /// The route of a flow that has none yet.
    pub fn compute_path(&self, topo: &FatTree, src: usize, dst: usize, flow_id: FlowId) -> (r: Result<Path, RouteFault>)
        requires
            topo.wf(),
            src < topo.hosts(),
            dst < topo.hosts(),
        ensures
            same_route(r, multipath_route(self.seed, topo@, src, dst, flow_id)),
    {
        let path = if topo.host_tor[src] == topo.host_tor[dst] {
            topo.near_path(src, dst)
        } else if topo.degree_agg == 0 {
            None
        } else {
            let up: usize = pick_by_hash(hash_level(self.seed, src, dst, flow_id, 0), topo.degree_agg);
            if topo.host_pod[src] == topo.host_pod[dst] {
                topo.pod_path(src, dst, up)
            } else if topo.cores.len() == 0 {
                None
            } else {
                let core: usize = pick_by_hash(hash_level(self.seed, src, dst, flow_id, 1), topo.cores.len());
                let down: usize = pick_by_hash(hash_level(self.seed, src, dst, flow_id, 2), topo.degree_agg);
                topo.far_path(src, dst, up, core, down)
            }
        };
        match path {
            Some(p) => Ok(p),
            None => Err(RouteFault::NoRoute(flow_id)),
        }
    }
}

impl FatTreeRouter for EcmpRouter {
    /// A flow keeps the route that it was given.
    fn route(
        &mut self,
        topo: &FatTree,
        ctx: &MLContext,
        src: usize,
        dst: usize,
        flow_id: FlowId,
    ) -> (r: Result<Path, RouteFault>)
        ensures
            final(self).seed == old(self).seed,
            ({
                let cache = paths(old(self).path_cache@);
                if cache.contains_key(flow_id) {
                    r is Ok && r->Ok_0@ == cache[flow_id] && *final(self) == *old(self)
                } else {
                    let want = multipath_route(old(self).seed, topo@, src, dst, flow_id);
                    &&& same_route(r, want)
                    &&& match want {
                        Ok(p) => paths(final(self).path_cache@) == cache.insert(flow_id, p),
                        Err(_) => *final(self) == *old(self),
                    }
                }
            }),
    {
        if let Some(p) = self.path_cache.get(&flow_id) {
            return Ok(copy_path(p));
        }
        match self.compute_path(topo, src, dst, flow_id) {
            Err(f) => Err(f),
            Ok(path) => {
                let ghost before = self.path_cache@;
                let kept = copy_path(&path);
                self.path_cache.insert(flow_id, kept);
                proof {
                    assert(paths(self.path_cache@) =~= paths(before).insert(flow_id, path@));
                }
                Ok(path)
            },
        }
    }

    fn complete_flow(&mut self, flow_id: FlowId)
        ensures
            final(self).seed == old(self).seed,
            final(self).path_cache@ == old(self).path_cache@.remove(flow_id),
    {
        self.path_cache.remove(&flow_id);
    }
}

} // verus!
