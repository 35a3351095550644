//! Routers for spine networks.

use vstd::prelude::*;

use crate::network::graph::{connected, link_id, path_links, LinkId};
use crate::simulator::context::{MLContext, WaitingFlow};
use crate::simulator::ml_worker::{FlowId, JobId};
use crate::spine::topology::{
    lemma_host_links, lemma_mesh_links, Path, RouteFault, SpineSize, SpineTree, SpineTreeRouter,
};
use crate::utils::data::DHashMap;
use crate::utils::hash::{hash_pair, le_bytes, pair_key, pick, pick_by_hash, xx_hash};

verus! {

/// The number of the leaf above a host.
pub open spec fn leaf_number(s: SpineSize, host: int) -> int {
    host / s.hosts_per_leaf as int
}

/// The route between two hosts over a spine. Hosts below the same leaf do not need it.
pub open spec fn spine_route(s: SpineSize, src: int, dst: int, spine: int) -> Seq<LinkId> {
    let a = leaf_number(s, src);
    let b = leaf_number(s, dst);
    if a == b {
        seq![(2 * src) as usize, (2 * dst + 1) as usize]
    } else {
        seq![
            (2 * src) as usize,
            s.up_link(a, spine) as usize,
            (s.up_link(b, spine) + 1) as usize,
            (2 * dst + 1) as usize,
        ]
    }
}

/// The route between two hosts over a spine.
pub fn route_over(topo: &SpineTree, src: usize, dst: usize, spine: usize) -> (r: Path)
    requires
        topo.wf(),
        src < topo.size().hosts(),
        dst < topo.size().hosts(),
        spine < topo.num_spines || topo.size().leaf_of(src as int) == topo.size().leaf_of(dst as int),
    ensures
        r@ == spine_route(topo.size(), src as int, dst as int, spine as int),
{
    let ghost s = topo.size();
    let ghost links = s.all_links();
    let src_leaf: usize = topo.get_host_leaf(src);
    let dst_leaf: usize = topo.get_host_leaf(dst);
    let mut nodes: Vec<usize> = Vec::new();
    nodes.push(src);
    nodes.push(src_leaf);
    if src_leaf != dst_leaf {
        nodes.push(topo.get_spine(spine));
        nodes.push(dst_leaf);
    }
    nodes.push(dst);
    proof {
        lemma_host_links(s, src as int);
        lemma_host_links(s, dst as int);
        if src_leaf != dst_leaf {
            lemma_mesh_links(s, leaf_number(s, src as int), spine as int);
            lemma_mesh_links(s, leaf_number(s, dst as int), spine as int);
        }
        reveal_with_fuel(path_links, 6);
        let r = path_links(links, nodes@, nodes@.len());
        if src_leaf == dst_leaf {
            assert(link_id(links, nodes@[0], nodes@[1]) is Some);
            assert(link_id(links, nodes@[1], nodes@[2]) is Some);
        } else {
            assert(link_id(links, nodes@[0], nodes@[1]) is Some);
            assert(link_id(links, nodes@[1], nodes@[2]) is Some);
            assert(link_id(links, nodes@[2], nodes@[3]) is Some);
            assert(link_id(links, nodes@[3], nodes@[4]) is Some);
        }
        assert(connected(links, nodes@));
        assert(r =~= spine_route(s, src as int, dst as int, spine as int));
    }
    match topo.graph.convert_path(&nodes) {
        Some(p) => p,
        None => Vec::new(),
    }
}

/// The hash that chooses the spine for the traffic of a job between two hosts.
pub open spec fn traffic_hash(seed: u64, src: usize, dst: usize, job_id: JobId) -> u64 {
    xx_hash(seed, pair_key(src as nat, dst as nat) + le_bytes(job_id as nat, 8))
}

/// A copy of a path.
pub fn copy_path(p: &Vec<usize>) -> (r: Path)
    ensures
        r@ == p@,
{
    let mut r: Vec<usize> = Vec::new();
    let mut i: usize = 0;
    while i < p.len()
        invariant
            i <= p@.len(),
            r@ == p@.take(i as int),
        decreases p@.len() - i,
    {
        r.push(p[i]);
        proof {
            assert(r@ =~= p@.take(i + 1));
        }
        i += 1;
    }
    proof {
        assert(p@.take(p@.len() as int) =~= p@);
    }
    r
}

/// Paths by flow.
pub open spec fn paths(m: Map<FlowId, Vec<usize>>) -> Map<FlowId, Seq<usize>> {
    m.map_values(|p: Vec<usize>| p@)
}

/// What routes the traffic of jobs would take. To ask changes nothing.
pub trait SpineRouteOracle {
    /// The route that the traffic of a job between two hosts would take.
    spec fn predicted(&self, s: SpineSize, src: usize, dst: usize, job_id: JobId) -> Seq<LinkId>;

    /// The route that the traffic of a job between two hosts would take.
    fn predict_path(&self, topo: &SpineTree, src: usize, dst: usize, job_id: JobId) -> (r: Path)
        requires
            topo.wf(),
            topo.num_spines > 0 || topo.size().leaf_of(src as int) == topo.size().leaf_of(dst as int),
            src < topo.size().hosts(),
            dst < topo.size().hosts(),
        ensures
            r@ == self.predicted(topo.size(), src, dst, job_id),
    ;
}

/// A router that chooses the spine by a hash of the hosts and the job.
pub struct SpineEcmpRouter {
    pub seed: u64,
    /// Routes that have been given.
    pub path_cache: DHashMap<FlowId, Vec<usize>>,
}

impl SpineEcmpRouter {
    /// A router that has given no route.
    pub fn new(seed: u64) -> (r: Self)
        ensures
            r.seed == seed,
            paths(r.path_cache@) == Map::<FlowId, Seq<usize>>::empty(),
    {
        let r = SpineEcmpRouter { seed, path_cache: DHashMap::new() };
        proof {
            assert(paths(r.path_cache@) =~= Map::<FlowId, Seq<usize>>::empty());
        }
        r
    }
}

/// The route that a hash of the hosts and the job chooses.
pub open spec fn hashed_route(seed: u64, s: SpineSize, src: usize, dst: usize, job_id: JobId) -> Seq<LinkId> {
    spine_route(s, src as int, dst as int, pick(traffic_hash(seed, src, dst, job_id), s.num_spines as nat) as int)
}

impl SpineRouteOracle for SpineEcmpRouter {
    open spec fn predicted(&self, s: SpineSize, src: usize, dst: usize, job_id: JobId) -> Seq<LinkId> {
        hashed_route(self.seed, s, src, dst, job_id)
    }

    fn predict_path(&self, topo: &SpineTree, src: usize, dst: usize, job_id: JobId) -> (r: Path) {
        if topo.get_host_leaf(src) == topo.get_host_leaf(dst) {
            return route_over(topo, src, dst, 0);
        }
        let hash: u64 = hash_pair(self.seed, src, dst, job_id);
        route_over(topo, src, dst, pick_by_hash(hash, topo.num_spines))
    }
}

/// The route of a flow that has none yet. Only between leaves does it matter which job the flow is
/// of.
pub open spec fn fresh_route(
    seed: u64,
    s: SpineSize,
    waiting: Map<FlowId, WaitingFlow>,
    src: usize,
    dst: usize,
    flow_id: FlowId,
) -> Result<Seq<usize>, RouteFault> {
    if leaf_number(s, src as int) == leaf_number(s, dst as int) {
        Ok(spine_route(s, src as int, dst as int, 0))
    } else if waiting.contains_key(flow_id) {
        Ok(
            spine_route(
                s,
                src as int,
                dst as int,
                pick(traffic_hash(seed, src, dst, waiting[flow_id].0), s.num_spines) as int,
            ),
        )
    } else {
        Err(RouteFault::UnknownFlow(flow_id))
    }
}

impl SpineTreeRouter for SpineEcmpRouter {
    /// A flow keeps the route that it was given.
    fn route(
        &mut self,
        topo: &SpineTree,
        ctx: &MLContext,
        src: usize,
        dst: usize,
        flow_id: FlowId,
    ) -> (r: Result<Path, RouteFault>)
        ensures
            final(self).seed == old(self).seed,
            ({
                let cache = paths(old(self).path_cache@);
                if cache.contains_key(flow_id) {
                    r is Ok && r->Ok_0@ == cache[flow_id] && *final(self) == *old(self)
                } else {
                    match fresh_route(
                        old(self).seed,
                        topo.size(),
                        ctx.waiting_flows@,
                        src,
                        dst,
                        flow_id,
                    ) {
                        Ok(p) => r is Ok && r->Ok_0@ == p && paths(final(self).path_cache@) == cache.insert(flow_id, p),
                        Err(f) => r is Err && r->Err_0 == f && *final(self) == *old(self),
                    }
                }
            }),
    {
        if let Some(p) = self.path_cache.get(&flow_id) {
            return Ok(copy_path(p));
        }
        let ghost s = topo.size();
        let src_leaf: usize = topo.get_host_leaf(src);
        let dst_leaf: usize = topo.get_host_leaf(dst);
        let path = if src_leaf == dst_leaf {
            route_over(topo, src, dst, 0)
        } else {
            match ctx.waiting_flows.get(&flow_id) {
                Some(w) => self.predict_path(topo, src, dst, w.0),
                None => {
                    return Err(RouteFault::UnknownFlow(flow_id));
                },
            }
        };
        let ghost before = self.path_cache@;
        let kept = copy_path(&path);
        self.path_cache.insert(flow_id, kept);
        proof {
            assert(paths(self.path_cache@) =~= paths(before).insert(flow_id, path@));
        }
        Ok(path)
    }

    fn complete_flow(&mut self, flow_id: FlowId)
        ensures
            final(self).seed == old(self).seed,
            final(self).path_cache@ == old(self).path_cache@.remove(flow_id),
    {
        self.path_cache.remove(&flow_id);
    }
}

/// Routes by job, flow of the job, and iteration.
pub open spec fn templates(m: Map<(JobId, usize, usize), Vec<usize>>) -> Map<(JobId, usize, usize), Seq<usize>> {
    m.map_values(|p: Vec<usize>| p@)
}

/// A router that gives the routes that have been set up for the flows of jobs.
pub struct SpineSystemRouter {
    pub template_cache: DHashMap<(JobId, usize, usize), Vec<usize>>,
}

impl SpineSystemRouter {
    /// A router without routes.
    pub fn new() -> (r: Self)
        ensures
            templates(r.template_cache@) == Map::<(JobId, usize, usize), Seq<usize>>::empty(),
    {
        let r = SpineSystemRouter { template_cache: DHashMap::new() };
        proof {
            assert(templates(r.template_cache@) =~= Map::<(JobId, usize, usize), Seq<usize>>::empty());
        }
        r
    }

    /// Forgets all routes.
    pub fn clear_templates(&mut self)
        ensures
            templates(final(self).template_cache@) == Map::<(JobId, usize, usize), Seq<usize>>::empty(),
    {
        self.template_cache.clear();
        proof {
            assert(templates(self.template_cache@) =~= Map::<(JobId, usize, usize), Seq<usize>>::empty());
        }
    }

    /// Sets up the route of a flow of a job in an iteration.
    pub fn inject_template(&mut self, job_id: JobId, job_flow_idx: usize, iter_idx: usize, path: Path)
        ensures
            templates(final(self).template_cache@) == templates(old(self).template_cache@).insert(
                (job_id, job_flow_idx, iter_idx),
                path@,
            ),
    {
        let ghost before = self.template_cache@;
        self.template_cache.insert((job_id, job_flow_idx, iter_idx), path);
        proof {
            assert(templates(self.template_cache@) =~= templates(before).insert(
                (job_id, job_flow_idx, iter_idx),
                path@,
            ));
        }
    }
}

/// The route that is set up for a flow.
pub open spec fn template_route(
    t: Map<(JobId, usize, usize), Seq<usize>>,
    waiting: Map<FlowId, WaitingFlow>,
    flow_id: FlowId,
) -> Result<Seq<usize>, RouteFault> {
    if !waiting.contains_key(flow_id) {
        Err(RouteFault::UnknownFlow(flow_id))
    } else {
        let w = waiting[flow_id];
        if t.contains_key((w.0, w.1, w.2)) {
            Ok(t[(w.0, w.1, w.2)])
        } else {
            Err(RouteFault::NoRoute(flow_id))
        }
    }
}

/// The same path, or the same fault.
pub open spec fn same_route(r: Result<Path, RouteFault>, s: Result<Seq<usize>, RouteFault>) -> bool {
    match (r, s) {
        (Ok(p), Ok(q)) => p@ == q,
        (Err(f), Err(g)) => f == g,
        _ => false,
    }
}

impl SpineTreeRouter for SpineSystemRouter {
    /// The route that is set up.
    fn route(
        &mut self,
        topo: &SpineTree,
        ctx: &MLContext,
        src: usize,
        dst: usize,
        flow_id: FlowId,
    ) -> (r: Result<Path, RouteFault>)
        ensures
            *final(self) == *old(self),
            same_route(r, template_route(templates(old(self).template_cache@), ctx.waiting_flows@, flow_id)),
    {
        match ctx.waiting_flows.get(&flow_id) {
            None => Err(RouteFault::UnknownFlow(flow_id)),
            Some(w) => match self.template_cache.get(&(w.0, w.1, w.2)) {
                Some(p) => Ok(copy_path(p)),
                None => Err(RouteFault::NoRoute(flow_id)),
            },
        }
    }

    fn complete_flow(&mut self, flow_id: FlowId)
        ensures
            *final(self) == *old(self),
    {
    }
}

/// Routes by hosts.
pub open spec fn pair_routes(m: Map<(usize, usize), Vec<usize>>) -> Map<(usize, usize), Seq<usize>> {
    m.map_values(|p: Vec<usize>| p@)
}

/// A router that gives the routes that have been set up between hosts.
pub struct MonkeyRouter {
    pub template_cache: DHashMap<(usize, usize), Vec<usize>>,
}

impl MonkeyRouter {
    /// A router without routes.
    pub fn new() -> (r: Self)
        ensures
            pair_routes(r.template_cache@) == Map::<(usize, usize), Seq<usize>>::empty(),
    {
        let r = MonkeyRouter { template_cache: DHashMap::new() };
        proof {
            assert(pair_routes(r.template_cache@) =~= Map::<(usize, usize), Seq<usize>>::empty());
        }
        r
    }

    /// Forgets all routes.
    pub fn clear_templates(&mut self)
        ensures
            pair_routes(final(self).template_cache@) == Map::<(usize, usize), Seq<usize>>::empty(),
    {
        self.template_cache.clear();
        proof {
            assert(pair_routes(self.template_cache@) =~= Map::<(usize, usize), Seq<usize>>::empty());
        }
    }

    /// Sets up the route between two hosts.
    pub fn inject_template(&mut self, src: usize, dst: usize, path: Path)
        ensures
            pair_routes(final(self).template_cache@) == pair_routes(old(self).template_cache@).insert(
                (src, dst),
                path@,
            ),
    {
        let ghost before = self.template_cache@;
        self.template_cache.insert((src, dst), path);
        proof {
            assert(pair_routes(self.template_cache@) =~= pair_routes(before).insert((src, dst), path@));
        }
    }
}

impl SpineTreeRouter for MonkeyRouter {
    /// The route that is set up between the hosts.
    fn route(
        &mut self,
        topo: &SpineTree,
        ctx: &MLContext,
        src: usize,
        dst: usize,
        flow_id: FlowId,
    ) -> (r: Result<Path, RouteFault>)
        ensures
            *final(self) == *old(self),
            ({
                let t = pair_routes(old(self).template_cache@);
                same_route(
                    r,
                    if t.contains_key((src, dst)) {
                        Ok(t[(src, dst)])
                    } else {
                        Err(RouteFault::NoRoute(flow_id))
                    },
                )
            }),
    {
        match self.template_cache.get(&(src, dst)) {
            Some(p) => Ok(copy_path(p)),
            None => Err(RouteFault::NoRoute(flow_id)),
        }
    }

    fn complete_flow(&mut self, flow_id: FlowId)
        ensures
            *final(self) == *old(self),
    {
    }
}

} // verus!
