//! Rail networks in which ring flows between pods go over different spines as far as there are enough.

use vstd::prelude::*;

use crate::network::graph::LinkId;
use crate::rail::crux::{fallback_spine, pick_fallback};
use crate::rail::routing::{rail_route, rail_route_over};
use crate::rail::topology::{RailSize, RailTree, RailTreeRouter};
use crate::routing::job_flows::{all_host_flows, job_flows, FlowBook, JobFlow};
use crate::routing::perfect::{assign_spine_rows, install_rows, spines_assigned, with_rows, Fabric, SpineRow};
use crate::simulator::context::{placement_views, MLContext, WaitingFlow};
use crate::simulator::flows::SimFault;
use crate::simulator::ml_job::MLJob;
use crate::simulator::ml_worker::{FlowId, JobId};
use crate::spine::routing::{copy_path, paths, same_route};
use crate::spine::topology::{Path, RouteFault};
use crate::utils::data::DHashMap;

verus! {

impl Fabric for RailTree {
    open spec fn usable(&self) -> bool {
        self.block_size > 0 && self.blocks_per_pod > 0 && self.blocks_per_pod * self.block_size <= usize::MAX
    }

    open spec fn spine_total(&self) -> nat {
        self.num_spines as nat
    }

    /// The pod.
    open spec fn region_of(&self, host: usize) -> usize {
        (host as int / (self.blocks_per_pod * self.block_size)) as usize
    }

    /// The rail switch, counted through all pods.
    open spec fn port_of(&self, host: usize) -> usize {
        (self.region_of(host) * self.block_size + host % self.block_size) as usize
    }

    /// All pairs of hosts take turns together.
    open spec fn turn_of(&self, host: usize) -> usize {
        0
    }

    fn get_spine_total(&self) -> (r: usize) {
        self.num_spines
    }

    fn get_region(&self, host: usize) -> (r: usize) {
        assert(self.blocks_per_pod * self.block_size > 0) by (nonlinear_arith)
            requires
                self.blocks_per_pod > 0,
                self.block_size > 0,
        ;
        host / (self.blocks_per_pod * self.block_size)
    }

    fn get_port(&self, host: usize) -> (r: usize) {
        let pod: usize = self.get_region(host);
        proof {
            let m = self.blocks_per_pod * self.block_size;
            let b = self.block_size as int;
            assert(m > 0 && m >= b) by (nonlinear_arith)
                requires
                    self.blocks_per_pod > 0,
                    self.block_size > 0,
                    m == self.blocks_per_pod * self.block_size,
                    b == self.block_size,
            ;
            vstd::arithmetic::div_mod::lemma_fundamental_div_mod(host as int, m);
            vstd::arithmetic::div_mod::lemma_mod_bound(host as int, m);
            vstd::arithmetic::div_mod::lemma_fundamental_div_mod(host as int, b);
            vstd::arithmetic::div_mod::lemma_mod_bound(host as int, b);
            let q = host as int / b;
            assert(pod <= q) by (nonlinear_arith)
                requires
                    m * pod <= host,
                    host < b * q + b,
                    m >= b,
                    b > 0,
                    pod >= 0,
            ;
            assert(0 <= pod * self.block_size <= b * q) by (nonlinear_arith)
                requires
                    0 <= pod <= q,
                    b == self.block_size,
                    b > 0,
            ;
        }
        pod * self.block_size + host % self.block_size
    }

    fn get_turn(&self, host: usize) -> (r: usize) {
        0
    }
}

/// A router that gives flows between pods the spines that have been set up for the flows of jobs.
pub struct RailPerfectRouter {
    /// Spines by job and flow.
    pub flow_to_spine: DHashMap<(JobId, usize), usize>,
    /// Routes that have been given.
    pub path_cache: DHashMap<FlowId, Vec<usize>>,
}

/// The spine of a flow of a job.
pub open spec fn set_spine(table: Map<(usize, usize), usize>, job_id: JobId, job_flow_idx: usize, spines: nat) -> int {
    if table.contains_key((job_id, job_flow_idx)) {
        table[(job_id, job_flow_idx)] as int
    } else {
        fallback_spine(job_id, job_flow_idx, spines)
    }
}

/// The route of a flow that has none yet. Only between pods does it matter which flow it is.
pub open spec fn perfect_rail_route(
    table: Map<(usize, usize), usize>,
    s: RailSize,
    waiting: Map<FlowId, WaitingFlow>,
    src: usize,
    dst: usize,
    flow_id: FlowId,
) -> Result<Seq<LinkId>, RouteFault> {
    if s.pod_of(src as int) == s.pod_of(dst as int) {
        Ok(rail_route(s, src as int, dst as int, 0))
    } else if !waiting.contains_key(flow_id) {
        Err(RouteFault::UnknownFlow(flow_id))
    } else {
        let spine = set_spine(table, waiting[flow_id].0, waiting[flow_id].1, s.num_spines);
        if spine < s.num_spines {
            Ok(rail_route(s, src as int, dst as int, spine))
        } else {
            Err(RouteFault::NoRoute(flow_id))
        }
    }
}

impl RailPerfectRouter {
    /// A router without spines and routes.
    pub fn new() -> (r: Self)
        ensures
            r.flow_to_spine@ == Map::<(usize, usize), usize>::empty(),
            paths(r.path_cache@) == Map::<FlowId, Seq<usize>>::empty(),
    {
        let r = RailPerfectRouter { flow_to_spine: DHashMap::new(), path_cache: DHashMap::new() };
        proof {
            assert(paths(r.path_cache@) =~= Map::<FlowId, Seq<usize>>::empty());
        }
        r
    }

    /// Forgets all spines and routes.
    pub fn clear(&mut self)
        ensures
            final(self).flow_to_spine@ == Map::<(usize, usize), usize>::empty(),
            paths(final(self).path_cache@) == Map::<FlowId, Seq<usize>>::empty(),
    {
        self.flow_to_spine.clear();
        self.path_cache.clear();
        proof {
            assert(paths(self.path_cache@) =~= Map::<FlowId, Seq<usize>>::empty());
        }
    }

    /// Sets up the spine of a flow of a job.
    pub fn inject_spine_assignment(&mut self, job_id: JobId, job_flow_idx: usize, spine_idx: usize)
        ensures
            final(self).path_cache == old(self).path_cache,
            final(self).flow_to_spine@ == old(self).flow_to_spine@.insert((job_id, job_flow_idx), spine_idx),
    {
        self.flow_to_spine.insert((job_id, job_flow_idx), spine_idx);
    }
}

impl RailTreeRouter for RailPerfectRouter {
    /// A flow keeps the route that it was given.
    fn route(
        &mut self,
        topo: &RailTree,
        ctx: &MLContext,
        src: usize,
        dst: usize,
        flow_id: FlowId,
    ) -> (r: Result<Path, RouteFault>)
        ensures
            final(self).flow_to_spine == old(self).flow_to_spine,
            ({
                let cache = paths(old(self).path_cache@);
                if cache.contains_key(flow_id) {
                    r is Ok && r->Ok_0@ == cache[flow_id] && *final(self) == *old(self)
                } else {
                    let want = perfect_rail_route(
                        old(self).flow_to_spine@,
                        topo.size(),
                        ctx.waiting_flows@,
                        src,
                        dst,
                        flow_id,
                    );
                    &&& same_route(r, want)
                    &&& match want {
                        Ok(p) => paths(final(self).path_cache@) == cache.insert(flow_id, p),
                        Err(_) => *final(self) == *old(self),
                    }
                }
            }),
    {
        if let Some(p) = self.path_cache.get(&flow_id) {
            return Ok(copy_path(p));
        }
        let spine: Option<usize> = if topo.host_pod(src) != topo.host_pod(dst) {
            match ctx.waiting_flows.get(&flow_id) {
                None => {
                    return Err(RouteFault::UnknownFlow(flow_id));
                },
                Some(w) => {
                    let s: usize = match self.flow_to_spine.get(&(w.0, w.1)) {
                        Some(s) => *s,
                        None => pick_fallback(w.0, w.1, topo.num_spines),
                    };
                    if s >= topo.num_spines {
                        return Err(RouteFault::NoRoute(flow_id));
                    }
                    Some(s)
                },
            }
        } else {
            None
        };
        let path = rail_route_over(topo, src, dst, spine);
        let ghost before = self.path_cache@;
        let kept = copy_path(&path);
        self.path_cache.insert(flow_id, kept);
        proof {
            assert(paths(self.path_cache@) =~= paths(before).insert(flow_id, path@));
        }
        Ok(path)
    }

    fn complete_flow(&mut self, flow_id: FlowId)
        ensures
            final(self).flow_to_spine == old(self).flow_to_spine,
            final(self).path_cache@ == old(self).path_cache@.remove(flow_id),
    {
        self.path_cache.remove(&flow_id);
    }
}

/// Sets up the spines of the flows of all jobs.
pub struct RailPerfectRoutingSystem {
    pub core: FlowBook,
}

/// Why spines cannot be set up.
#[derive(Debug, Clone, Copy, PartialEq, Eq, Structural)]
pub enum SetupFault {
    /// The events of the job are not as they should be.
    BadJob(SimFault),
    /// A flow has no route.
    NoRoute(RouteFault),
}

/// What setting up spines anew answers: the router has those of the rows and no routes, or there are
/// no spines and it has nothing.
pub open spec fn rail_rerouted(
    jobs: Map<JobId, Seq<JobFlow>>,
    ctx: MLContext,
    topo: RailTree,
    after: RailPerfectRouter,
    r: Result<Vec<SpineRow>, RouteFault>,
) -> bool {
    &&& spines_assigned(topo, all_host_flows(jobs, placement_views(ctx.placements@)), r)
    &&& paths(after.path_cache@) == Map::<FlowId, Seq<usize>>::empty()
    &&& after.flow_to_spine@ == match r {
        Ok(rows) => with_rows(Map::empty(), rows@, rows@.len()),
        Err(_) => Map::empty(),
    }
}

impl RailPerfectRoutingSystem {
    /// A module without jobs.
    pub fn new() -> (r: Self)
        ensures
            r.core.lists() == Map::<JobId, Seq<JobFlow>>::empty(),
    {
        RailPerfectRoutingSystem { core: FlowBook::new() }
    }

    /// Sets up the spines of the flows of all jobs anew.
    pub fn recompute_routes(&self, ctx: &MLContext, topo: &RailTree, router: &mut RailPerfectRouter) -> (r: Result<
        Vec<SpineRow>,
        RouteFault,
    >)
        requires
            topo.usable(),
        ensures
            rail_rerouted(self.core.lists(), *ctx, *topo, *final(router), r),
    {
        let flows = self.core.list_host_flows(ctx);
        router.clear();
        match assign_spine_rows(topo, &flows) {
            Err(f) => Err(f),
            Ok(rows) => {
                install_rows(&mut router.flow_to_spine, &rows);
                Ok(rows)
            },
        }
    }

    /// A job has been placed.
    pub fn on_job_scheduled(
        &mut self,
        ctx: &MLContext,
        job: &MLJob,
        topo: &RailTree,
        router: &mut RailPerfectRouter,
    ) -> (r: Result<Vec<SpineRow>, SetupFault>)
        requires
            topo.usable(),
        ensures
            match job_flows(*job) {
                Err(f) => {
                    &&& r is Err && r->Err_0 == SetupFault::BadJob(f)
                    &&& *final(self) == *old(self)
                    &&& *final(router) == *old(router)
                },
                Ok(l) => {
                    &&& final(self).core.lists() == old(self).core.lists().insert(job.id, l)
                    &&& match r {
                        Ok(rows) => rail_rerouted(final(self).core.lists(), *ctx, *topo, *final(router), Ok(rows)),
                        Err(SetupFault::NoRoute(f)) => rail_rerouted(
                            final(self).core.lists(),
                            *ctx,
                            *topo,
                            *final(router),
                            Err(f),
                        ),
                        Err(SetupFault::BadJob(_)) => false,
                    }
                },
            },
    {
        match self.core.record_job(job) {
            Err(f) => Err(SetupFault::BadJob(f)),
            Ok(()) => match self.recompute_routes(ctx, topo, router) {
                Ok(rows) => Ok(rows),
                Err(f) => Err(SetupFault::NoRoute(f)),
            },
        }
    }

    /// A job has completed.
    pub fn on_job_completed(
        &mut self,
        ctx: &MLContext,
        job_id: JobId,
        topo: &RailTree,
        router: &mut RailPerfectRouter,
    ) -> (r: Result<Vec<SpineRow>, RouteFault>)
        requires
            topo.usable(),
        ensures
            final(self).core.lists() == old(self).core.lists().remove(job_id),
            rail_rerouted(final(self).core.lists(), *ctx, *topo, *final(router), r),
    {
        self.core.remove_job(job_id);
        self.recompute_routes(ctx, topo, router)
    }
}

impl Default for RailPerfectRoutingSystem {
    fn default() -> (r: Self)
        ensures
            r.core.lists() == Map::<JobId, Seq<JobFlow>>::empty(),
    {
        RailPerfectRoutingSystem::new()
    }
}

} // verus!
