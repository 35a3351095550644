//! Spine networks in which ring flows between leaves go over different spines as far as there are
//! enough.

use vstd::prelude::*;

use crate::network::graph::LinkId;
use crate::rail::crux::pick_fallback;
use crate::rail::perfect::{set_spine, SetupFault};
use crate::routing::job_flows::{all_host_flows, job_flows, FlowBook, JobFlow};
use crate::routing::perfect::{assign_spine_rows, install_rows, spines_assigned, with_rows, Fabric, SpineRow};
use crate::simulator::context::{placement_views, MLContext, WaitingFlow};
use crate::simulator::ml_job::MLJob;
use crate::simulator::ml_worker::{FlowId, JobId};
use crate::spine::routing::{copy_path, leaf_number, paths, route_over, same_route, spine_route};
use crate::spine::topology::{Path, RouteFault, SpineSize, SpineTree, SpineTreeRouter};
use crate::utils::data::DHashMap;

verus! {

impl Fabric for SpineTree {
    open spec fn usable(&self) -> bool {
        self.hosts_per_leaf > 0
    }

    open spec fn spine_total(&self) -> nat {
        self.num_spines as nat
    }

    /// The leaf.
    open spec fn region_of(&self, host: usize) -> usize {
        host / self.hosts_per_leaf
    }

    /// The leaf.
    open spec fn port_of(&self, host: usize) -> usize {
        host / self.hosts_per_leaf
    }

    /// The pairs of hosts from a leaf take turns.
    open spec fn turn_of(&self, host: usize) -> usize {
        host / self.hosts_per_leaf
    }

    fn get_spine_total(&self) -> (r: usize) {
        self.num_spines
    }

    fn get_region(&self, host: usize) -> (r: usize) {
        host / self.hosts_per_leaf
    }

    fn get_port(&self, host: usize) -> (r: usize) {
        host / self.hosts_per_leaf
    }

    fn get_turn(&self, host: usize) -> (r: usize) {
        host / self.hosts_per_leaf
    }
}

/// A router that gives flows between leaves the spines that have been set up for the flows of jobs.
pub struct SpinePerfectRouter {
    /// Spines by job and flow.
    pub flow_to_spine: DHashMap<(JobId, usize), usize>,
    /// Routes that have been given.
    pub path_cache: DHashMap<FlowId, Vec<usize>>,
}

/// The route of a flow that has none yet. Only between leaves does it matter which flow it is.
pub open spec fn perfect_route(
    table: Map<(usize, usize), usize>,
    s: SpineSize,
    waiting: Map<FlowId, WaitingFlow>,
    src: usize,
    dst: usize,
    flow_id: FlowId,
) -> Result<Seq<LinkId>, RouteFault> {
    if leaf_number(s, src as int) == leaf_number(s, dst as int) {
        Ok(spine_route(s, src as int, dst as int, 0))
    } else if !waiting.contains_key(flow_id) {
        Err(RouteFault::UnknownFlow(flow_id))
    } else {
        let spine = set_spine(table, waiting[flow_id].0, waiting[flow_id].1, s.num_spines);
        if spine < s.num_spines {
            Ok(spine_route(s, src as int, dst as int, spine))
        } else {
            Err(RouteFault::NoRoute(flow_id))
        }
    }
}

impl SpinePerfectRouter {
    /// A router without spines and routes.
    pub fn new() -> (r: Self)
        ensures
            r.flow_to_spine@ == Map::<(usize, usize), usize>::empty(),
            paths(r.path_cache@) == Map::<FlowId, Seq<usize>>::empty(),
    {
        let r = SpinePerfectRouter { flow_to_spine: DHashMap::new(), path_cache: DHashMap::new() };
        proof {
            assert(paths(r.path_cache@) =~= Map::<FlowId, Seq<usize>>::empty());
        }
        r
    }

    /// Forgets all spines and routes.
    pub fn clear(&mut self)
        ensures
            final(self).flow_to_spine@ == Map::<(usize, usize), usize>::empty(),
            paths(final(self).path_cache@) == Map::<FlowId, Seq<usize>>::empty(),
    {
        self.flow_to_spine.clear();
        self.path_cache.clear();
        proof {
            assert(paths(self.path_cache@) =~= Map::<FlowId, Seq<usize>>::empty());
        }
    }

    /// Sets up the spine of a flow of a job.
    pub fn inject_spine_assignment(&mut self, job_id: JobId, job_flow_idx: usize, spine_idx: usize)
        ensures
            final(self).path_cache == old(self).path_cache,
            final(self).flow_to_spine@ == old(self).flow_to_spine@.insert((job_id, job_flow_idx), spine_idx),
    {
        self.flow_to_spine.insert((job_id, job_flow_idx), spine_idx);
    }
}

impl SpineTreeRouter for SpinePerfectRouter {
    /// A flow keeps the route that it was given.
    fn route(
        &mut self,
        topo: &SpineTree,
        ctx: &MLContext,
        src: usize,
        dst: usize,
        flow_id: FlowId,
    ) -> (r: Result<Path, RouteFault>)
        ensures
            final(self).flow_to_spine == old(self).flow_to_spine,
            ({
                let cache = paths(old(self).path_cache@);
                if cache.contains_key(flow_id) {
                    r is Ok && r->Ok_0@ == cache[flow_id] && *final(self) == *old(self)
                } else {
                    let want = perfect_route(
                        old(self).flow_to_spine@,
                        topo.size(),
                        ctx.waiting_flows@,
                        src,
                        dst,
                        flow_id,
                    );
                    &&& same_route(r, want)
                    &&& match want {
                        Ok(p) => paths(final(self).path_cache@) == cache.insert(flow_id, p),
                        Err(_) => *final(self) == *old(self),
                    }
                }
            }),
    {
        if let Some(p) = self.path_cache.get(&flow_id) {
            return Ok(copy_path(p));
        }
        let spine: usize = if topo.get_host_leaf(src) != topo.get_host_leaf(dst) {
            match ctx.waiting_flows.get(&flow_id) {
                None => {
                    return Err(RouteFault::UnknownFlow(flow_id));
                },
                Some(w) => {
                    let s: usize = match self.flow_to_spine.get(&(w.0, w.1)) {
                        Some(s) => *s,
                        None => pick_fallback(w.0, w.1, topo.num_spines),
                    };
                    if s >= topo.num_spines {
                        return Err(RouteFault::NoRoute(flow_id));
                    }
                    s
                },
            }
        } else {
            0
        };
        let path = route_over(topo, src, dst, spine);
        let ghost before = self.path_cache@;
        let kept = copy_path(&path);
        self.path_cache.insert(flow_id, kept);
        proof {
            assert(paths(self.path_cache@) =~= paths(before).insert(flow_id, path@));
        }
        Ok(path)
    }

    fn complete_flow(&mut self, flow_id: FlowId)
        ensures
            final(self).flow_to_spine == old(self).flow_to_spine,
            final(self).path_cache@ == old(self).path_cache@.remove(flow_id),
    {
        self.path_cache.remove(&flow_id);
    }
}

/// Sets up the spines of the flows of all jobs.
pub struct PerfectRoutingSystem {
    pub core: FlowBook,
    /// The most flows that have been given spines at a time.
    pub max_flows_seen: usize,
}

/// What setting up spines anew answers: the router has those of the rows and no routes, or there are
/// no spines and it has nothing.
pub open spec fn rerouted(
    jobs: Map<JobId, Seq<JobFlow>>,
    ctx: MLContext,
    topo: SpineTree,
    after: SpinePerfectRouter,
    r: Result<Vec<SpineRow>, RouteFault>,
) -> bool {
    &&& spines_assigned(topo, all_host_flows(jobs, placement_views(ctx.placements@)), r)
    &&& paths(after.path_cache@) == Map::<FlowId, Seq<usize>>::empty()
    &&& after.flow_to_spine@ == match r {
        Ok(rows) => with_rows(Map::empty(), rows@, rows@.len()),
        Err(_) => Map::empty(),
    }
}

impl PerfectRoutingSystem {
    /// A module without jobs.
    pub fn new() -> (r: Self)
        ensures
            r.core.lists() == Map::<JobId, Seq<JobFlow>>::empty(),
            r.max_flows_seen == 0,
    {
        PerfectRoutingSystem { core: FlowBook::new(), max_flows_seen: 0 }
    }

    /// Sets up the spines of the flows of all jobs anew.
    pub fn recompute_routes(&self, ctx: &MLContext, topo: &SpineTree, router: &mut SpinePerfectRouter) -> (r: Result<
        Vec<SpineRow>,
        RouteFault,
    >)
        requires
            topo.usable(),
        ensures
            rerouted(self.core.lists(), *ctx, *topo, *final(router), r),
    {
        let flows = self.core.list_host_flows(ctx);
        router.clear();
        match assign_spine_rows(topo, &flows) {
            Err(f) => Err(f),
            Ok(rows) => {
                install_rows(&mut router.flow_to_spine, &rows);
                Ok(rows)
            },
        }
    }

    /// A job has been placed.
    pub fn on_job_scheduled(
        &mut self,
        ctx: &MLContext,
        job: &MLJob,
        topo: &SpineTree,
        router: &mut SpinePerfectRouter,
    ) -> (r: Result<Vec<SpineRow>, SetupFault>)
        requires
            topo.usable(),
        ensures
            match job_flows(*job) {
                Err(f) => {
                    &&& r is Err && r->Err_0 == SetupFault::BadJob(f)
                    &&& *final(self) == *old(self)
                    &&& *final(router) == *old(router)
                },
                Ok(l) => {
                    &&& final(self).core.lists() == old(self).core.lists().insert(job.id, l)
                    &&& final(self).max_flows_seen == old(self).max_flows_seen
                    &&& match r {
                        Ok(rows) => rerouted(final(self).core.lists(), *ctx, *topo, *final(router), Ok(rows)),
                        Err(SetupFault::NoRoute(f)) => rerouted(
                            final(self).core.lists(),
                            *ctx,
                            *topo,
                            *final(router),
                            Err(f),
                        ),
                        Err(SetupFault::BadJob(_)) => false,
                    }
                },
            },
    {
        match self.core.record_job(job) {
            Err(f) => Err(SetupFault::BadJob(f)),
            Ok(()) => match self.recompute_routes(ctx, topo, router) {
                Ok(rows) => Ok(rows),
                Err(f) => Err(SetupFault::NoRoute(f)),
            },
        }
    }

    /// A job has completed.
    pub fn on_job_completed(
        &mut self,
        ctx: &MLContext,
        job_id: JobId,
        topo: &SpineTree,
        router: &mut SpinePerfectRouter,
    ) -> (r: Result<Vec<SpineRow>, RouteFault>)
        requires
            topo.usable(),
        ensures
            final(self).core.lists() == old(self).core.lists().remove(job_id),
            final(self).max_flows_seen == old(self).max_flows_seen,
            rerouted(final(self).core.lists(), *ctx, *topo, *final(router), r),
    {
        self.core.remove_job(job_id);
        self.recompute_routes(ctx, topo, router)
    }
}

impl Default for PerfectRoutingSystem {
    fn default() -> (r: Self)
        ensures
            r.core.lists() == Map::<JobId, Seq<JobFlow>>::empty(),
            r.max_flows_seen == 0,
    {
        PerfectRoutingSystem::new()
    }
}

/// Flows over a spine among the first `n` rows: those of rings, or the others.
pub open spec fn rows_over(rows: Seq<SpineRow>, spine: int, ring: bool, n: nat) -> nat
    decreases n,
{
    if n == 0 {
        0
    } else {
        rows_over(rows, spine, ring, (n - 1) as nat) + if rows[n - 1].spine == spine && rows[n - 1].is_ring == ring {
            1nat
        } else {
            0nat
        }
    }
}

/// Flows from a leaf over a spine among the first `n` rows.
pub open spec fn rows_from(rows: Seq<SpineRow>, hosts_per_leaf: nat, leaf: int, spine: int, n: nat) -> nat
    decreases n,
{
    if n == 0 {
        0
    } else {
        rows_from(rows, hosts_per_leaf, leaf, spine, (n - 1) as nat) + if rows[n - 1].spine == spine
            && rows[n - 1].src_host as int / hosts_per_leaf as int == leaf {
            1nat
        } else {
            0nat
        }
    }
}

impl PerfectRoutingSystem {
    /// Notes how many flows have been given spines. The result is whether there have never been as
    /// many.
    pub fn note_flows(&mut self, count: usize) -> (r: bool)
        ensures
            final(self).core == old(self).core,
            r == (count > old(self).max_flows_seen),
            final(self).max_flows_seen == if r {
                count
            } else {
                old(self).max_flows_seen
            },
    {
        if count > self.max_flows_seen {
            self.max_flows_seen = count;
            true
        } else {
            false
        }
    }
}

/// How many flows go over a spine: those of rings, or the others.
pub fn count_over(rows: &Vec<SpineRow>, spine: usize, ring: bool) -> (r: usize)
    ensures
        r == rows_over(rows@, spine as int, ring, rows@.len()),
{
    let mut count: usize = 0;
    let mut i: usize = 0;
    while i < rows.len()
        invariant
            i <= rows@.len(),
            count <= i,
            count == rows_over(rows@, spine as int, ring, i as nat),
        decreases rows@.len() - i,
    {
        if rows[i].spine == spine && rows[i].is_ring == ring {
            count += 1;
        }
        i += 1;
    }
    count
}

/// How many flows go from a leaf over a spine.
pub fn count_from(rows: &Vec<SpineRow>, hosts_per_leaf: usize, leaf: usize, spine: usize) -> (r: usize)
    requires
        hosts_per_leaf > 0,
    ensures
        r == rows_from(rows@, hosts_per_leaf as nat, leaf as int, spine as int, rows@.len()),
{
    let mut count: usize = 0;
    let mut i: usize = 0;
    while i < rows.len()
        invariant
            i <= rows@.len(),
            hosts_per_leaf > 0,
            count <= i,
            count == rows_from(rows@, hosts_per_leaf as nat, leaf as int, spine as int, i as nat),
        decreases rows@.len() - i,
    {
        if rows[i].spine == spine && rows[i].src_host / hosts_per_leaf == leaf {
            count += 1;
        }
        i += 1;
    }
    count
}

} // verus!
