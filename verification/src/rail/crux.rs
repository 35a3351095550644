//! Rail networks in which the flows of jobs that compute and send more choose their routes first.

use vstd::prelude::*;

use crate::network::graph::LinkId;
use crate::rail::routing::{rail_route, rail_route_over};
use crate::rail::topology::{RailSize, RailTree, RailTreeRouter};
use crate::routing::intensity::{by_key, sort_by_key};
use crate::routing::job_flows::{all_host_flows, job_flows, FlowBook, HostFlow, JobFlow};
use crate::routing::load::{best_path, find_best_path, path_views, raise_path, raised_all};
use crate::simulator::context::{placement_views, MLContext, WaitingFlow};
use crate::simulator::flows::SimFault;
use crate::simulator::ml_job::MLJob;
use crate::simulator::ml_worker::{FlowId, JobId};
use crate::spine::routing::{copy_path, pair_routes, same_route};
use crate::spine::topology::{Path, RouteFault};
use crate::utils::data::DHashMap;

verus! {

/// The spine of a flow of a job for which no route has been set up.
pub open spec fn fallback_spine(job_id: JobId, job_flow_idx: usize, spines: nat) -> int {
    job_id.wrapping_mul(31).wrapping_add(job_flow_idx) as int % spines as int
}

/// The spine of a flow of a job for which no route has been set up.
pub fn pick_fallback(job_id: JobId, job_flow_idx: usize, spines: usize) -> (r: usize)
    requires
        spines > 0,
    ensures
        r == fallback_spine(job_id, job_flow_idx, spines as nat),
        r < spines,
{
    job_id.wrapping_mul(31).wrapping_add(job_flow_idx) % spines
}

/// A router that gives the routes that have been set up for the flows of jobs, the same in every
/// iteration.
pub struct RailCruxRouter {
    pub template_cache: DHashMap<(JobId, usize), Vec<usize>>,
}

/// The route of a flow.
pub open spec fn rail_template_route(
    t: Map<(usize, usize), Seq<usize>>,
    s: RailSize,
    waiting: Map<FlowId, WaitingFlow>,
    src: usize,
    dst: usize,
    flow_id: FlowId,
) -> Result<Seq<usize>, RouteFault> {
    if !waiting.contains_key(flow_id) {
        Err(RouteFault::UnknownFlow(flow_id))
    } else {
        let w = waiting[flow_id];
        if t.contains_key((w.0, w.1)) {
            Ok(t[(w.0, w.1)])
        } else if s.pod_of(src as int) == s.pod_of(dst as int) {
            Ok(rail_route(s, src as int, dst as int, 0))
        } else {
            Ok(rail_route(s, src as int, dst as int, fallback_spine(w.0, w.1, s.num_spines)))
        }
    }
}

impl RailCruxRouter {
    /// A router without routes.
    pub fn new() -> (r: Self)
        ensures
            pair_routes(r.template_cache@) == Map::<(usize, usize), Seq<usize>>::empty(),
    {
        let r = RailCruxRouter { template_cache: DHashMap::new() };
        proof {
            assert(pair_routes(r.template_cache@) =~= Map::<(usize, usize), Seq<usize>>::empty());
        }
        r
    }

    /// Forgets all routes.
    pub fn clear_templates(&mut self)
        ensures
            pair_routes(final(self).template_cache@) == Map::<(usize, usize), Seq<usize>>::empty(),
    {
        self.template_cache.clear();
        proof {
            assert(pair_routes(self.template_cache@) =~= Map::<(usize, usize), Seq<usize>>::empty());
        }
    }

    /// Sets up the route of a flow of a job.
    pub fn inject_template(&mut self, job_id: JobId, job_flow_idx: usize, path: Path)
        ensures
            pair_routes(final(self).template_cache@) == pair_routes(old(self).template_cache@).insert(
                (job_id, job_flow_idx),
                path@,
            ),
    {
        let ghost before = self.template_cache@;
        self.template_cache.insert((job_id, job_flow_idx), path);
        proof {
            assert(pair_routes(self.template_cache@) =~= pair_routes(before).insert((job_id, job_flow_idx), path@));
        }
    }
}

impl RailTreeRouter for RailCruxRouter {
    /// The route that is set up, or one over a spine that follows from the job and the flow.
    fn route(
        &mut self,
        topo: &RailTree,
        ctx: &MLContext,
        src: usize,
        dst: usize,
        flow_id: FlowId,
    ) -> (r: Result<Path, RouteFault>)
        ensures
            *final(self) == *old(self),
            same_route(
                r,
                rail_template_route(
                    pair_routes(old(self).template_cache@),
                    topo.size(),
                    ctx.waiting_flows@,
                    src,
                    dst,
                    flow_id,
                ),
            ),
    {
        match ctx.waiting_flows.get(&flow_id) {
            None => Err(RouteFault::UnknownFlow(flow_id)),
            Some(w) => match self.template_cache.get(&(w.0, w.1)) {
                Some(p) => Ok(copy_path(p)),
                None => {
                    let spine: Option<usize> = if topo.host_pod(src) != topo.host_pod(dst) {
                        Some(pick_fallback(w.0, w.1, topo.num_spines))
                    } else {
                        None
                    };
                    Ok(rail_route_over(topo, src, dst, spine))
                },
            },
        }
    }

    fn complete_flow(&mut self, flow_id: FlowId)
        ensures
            *final(self) == *old(self),
    {
    }
}

/// The ways between two GPUs: over each spine between pods, and one within a pod.
pub open spec fn rail_ways(s: RailSize, src: int, dst: int) -> Seq<Seq<LinkId>> {
    if s.pod_of(src) == s.pod_of(dst) {
        seq![rail_route(s, src, dst, 0)]
    } else {
        Seq::new(s.num_spines, |k: int| rail_route(s, src, dst, k))
    }
}

/// There is a way between two GPUs.
pub open spec fn rail_reachable(s: RailSize, src: int, dst: int) -> bool {
    &&& 0 <= src < s.gpus()
    &&& 0 <= dst < s.gpus()
    &&& src != dst
    &&& rail_ways(s, src, dst).len() > 0
}

/// The way between two GPUs whose busiest link carries the least.
pub open spec fn best_rail_way(loads: Map<LinkId, usize>, s: RailSize, src: int, dst: int) -> Seq<LinkId> {
    let all = rail_ways(s, src, dst);
    all[best_path(loads, all, all.len())]
}

/// The way between two GPUs whose busiest link carries the least.
pub fn compute_best_rail_path(loads: &DHashMap<LinkId, usize>, topo: &RailTree, src: usize, dst: usize) -> (r: Option<Path>)
    requires
        topo.wf(),
    ensures
        r is Some == rail_reachable(topo.size(), src as int, dst as int),
        r matches Some(p) ==> p@ == best_rail_way(loads@, topo.size(), src as int, dst as int),
{
    let ghost s = topo.size();
    let gpus: usize = topo.total_gpus();
    if src >= gpus || dst >= gpus || src == dst {
        return None;
    }
    let ghost all = rail_ways(s, src as int, dst as int);
    let mut list: Vec<Vec<LinkId>> = Vec::new();
    if topo.host_pod(src) == topo.host_pod(dst) {
        list.push(rail_route_over(topo, src, dst, None));
        assert(path_views(list@) =~= all);
    } else {
        let mut i: usize = 0;
        while i < topo.num_spines
            invariant
                i <= topo.num_spines,
                topo.wf(),
                s == topo.size(),
                src < s.gpus(),
                dst < s.gpus(),
                src != dst,
                list@.len() == i,
                forall|k: int| 0 <= k < i ==> (#[trigger] list@[k])@ == rail_route(s, src as int, dst as int, k),
            decreases topo.num_spines - i,
        {
            list.push(rail_route_over(topo, src, dst, Some(i)));
            i += 1;
        }
        assert(path_views(list@) =~= all);
    }
    if list.len() == 0 {
        return None;
    }
    let b: usize = find_best_path(loads, &list);
    Some(copy_path(&list[b]))
}

/// The state while flows are routed one after the other.
#[verifier::ext_equal]
pub struct RailPlan {
    pub loads: Map<LinkId, usize>,
    /// The routes between hosts.
    pub pairs: Map<(usize, usize), Seq<LinkId>>,
    /// The routes of the flows of jobs.
    pub routes: Map<(usize, usize), Seq<LinkId>>,
}

/// Another flow has been routed. Flows between the same hosts share their route.
pub open spec fn with_rail_flow(s: RailSize, p: RailPlan, f: HostFlow) -> RailPlan {
    let pair = (f.src_host, f.dst_host);
    let key = (f.job_id, f.job_flow_idx);
    if p.pairs.contains_key(pair) {
        RailPlan { routes: p.routes.insert(key, p.pairs[pair]), ..p }
    } else {
        let path = best_rail_way(p.loads, s, f.src_host as int, f.dst_host as int);
        RailPlan {
            loads: raised_all(p.loads, path, path.len()),
            pairs: p.pairs.insert(pair, path),
            routes: p.routes.insert(key, path),
        }
    }
}

/// The first `n` flows have been routed.
pub open spec fn rail_plan(s: RailSize, flows: Seq<HostFlow>, n: nat) -> RailPlan
    decreases n,
{
    if n == 0 {
        RailPlan { loads: Map::empty(), pairs: Map::empty(), routes: Map::empty() }
    } else {
        with_rail_flow(s, rail_plan(s, flows, (n - 1) as nat), flows[n - 1])
    }
}

/// The first `n` flows are between GPUs that are linked.
pub open spec fn all_reachable(s: RailSize, flows: Seq<HostFlow>, n: nat) -> bool {
    forall|i: int|
        0 <= i < n ==> rail_reachable(s, (#[trigger] flows[i]).src_host as int, flows[i].dst_host as int)
}

/// How much the job of a flow does.
pub open spec fn host_flow_key(intensity: Map<JobId, u64>) -> spec_fn(HostFlow) -> u64 {
    |f: HostFlow|
        if intensity.contains_key(f.job_id) {
            intensity[f.job_id]
        } else {
            0
        }
}

/// The flows in the order in which they are routed: by falling intensity of their jobs, then by job
/// and index.
pub open spec fn rail_order(flows: Seq<HostFlow>, intensity: Map<JobId, u64>) -> Seq<HostFlow> {
    by_key(flows, host_flow_key(intensity), flows.len())
}

/// Sets up the routes of the flows of all jobs.
pub struct RailCruxSystemModule {
    pub core: FlowBook,
    /// A key for each job: the more the job computes and sends, the larger.
    pub intensity: DHashMap<JobId, u64>,
}

impl Default for RailCruxSystemModule {
    fn default() -> (r: Self)
        ensures
            r.core.lists() == Map::<JobId, Seq<JobFlow>>::empty(),
            r.intensity@ == Map::<JobId, u64>::empty(),
    {
        RailCruxSystemModule::new()
    }
}

impl RailCruxSystemModule {
    /// A module without jobs.
    pub fn new() -> (r: Self)
        ensures
            r.core.lists() == Map::<JobId, Seq<JobFlow>>::empty(),
            r.intensity@ == Map::<JobId, u64>::empty(),
    {
        RailCruxSystemModule { core: FlowBook::new(), intensity: DHashMap::new() }
    }

    /// Sets how much a job does.
    pub fn set_intensity(&mut self, job_id: JobId, key: u64)
        ensures
            final(self).core == old(self).core,
            final(self).intensity@ == old(self).intensity@.insert(job_id, key),
    {
        self.intensity.insert(job_id, key);
    }

    /// A job has been placed.
    pub fn on_job_scheduled(&mut self, job: &MLJob) -> (r: Result<(), SimFault>)
        ensures
            final(self).intensity == old(self).intensity,
            match job_flows(*job) {
                Ok(l) => r is Ok && final(self).core.lists() == old(self).core.lists().insert(job.id, l),
                Err(f) => r is Err && r->Err_0 == f && final(self).core == old(self).core,
            },
    {
        self.core.record_job(job)
    }

    /// A job has completed.
    pub fn on_job_completed(&mut self, job_id: JobId)
        ensures
            final(self).intensity == old(self).intensity,
            final(self).core.lists() == old(self).core.lists().remove(job_id),
    {
        self.core.remove_job(job_id);
    }

    /// Routes the flows of all jobs anew, or finds one that has no route.
    #[verifier::rlimit(40)]
    pub fn recompute_routes(&self, ctx: &MLContext, topo: &RailTree, router: &mut RailCruxRouter) -> (r: Result<(), RouteFault>)
        requires
            topo.wf(),
        ensures
            ({
                let s = topo.size();
                let flows = rail_order(
                    all_host_flows(self.core.lists(), placement_views(ctx.placements@)),
                    self.intensity@,
                );
                match r {
                    Ok(_) => {
                        &&& all_reachable(s, flows, flows.len())
                        &&& pair_routes(final(router).template_cache@) == rail_plan(s, flows, flows.len()).routes
                    },
                    Err(fault) => exists|i: int|
                        0 <= i < flows.len() && all_reachable(s, flows, i as nat) && !rail_reachable(
                            s,
                            (#[trigger] flows[i]).src_host as int,
                            flows[i].dst_host as int,
                        ) && fault == RouteFault::NoJobRoute(flows[i].job_id, flows[i].job_flow_idx),
                }
            }),
    {
        let ghost s = topo.size();
        let list = self.core.list_host_flows(ctx);
        let ghost key = host_flow_key(self.intensity@);
        let mut keys: Vec<u64> = Vec::new();
        let mut i: usize = 0;
        while i < list.len()
            invariant
                i <= list@.len(),
                key == host_flow_key(self.intensity@),
                keys@.len() == i,
                forall|k: int| 0 <= k < i ==> keys@[k] == key(#[trigger] list@[k]),
            decreases list@.len() - i,
        {
            let k: u64 = match self.intensity.get(&list[i].job_id) {
                Some(k) => *k,
                None => 0,
            };
            keys.push(k);
            i += 1;
        }
        let flows = sort_by_key(&list, &keys, Ghost(key));
        router.clear_templates();
        let mut loads: DHashMap<LinkId, usize> = DHashMap::new();
        let mut pairs: DHashMap<(usize, usize), Vec<usize>> = DHashMap::new();
        proof {
            assert(pair_routes(pairs@) =~= Map::<(usize, usize), Seq<usize>>::empty());
        }
        let mut n: usize = 0;
        while n < flows.len()
            invariant
                n <= flows@.len(),
                topo.wf(),
                s == topo.size(),
                flows@ == rail_order(
                    all_host_flows(self.core.lists(), placement_views(ctx.placements@)),
                    self.intensity@,
                ),
                all_reachable(s, flows@, n as nat),
                loads@ == rail_plan(s, flows@, n as nat).loads,
                pair_routes(pairs@) == rail_plan(s, flows@, n as nat).pairs,
                pair_routes(router.template_cache@) == rail_plan(s, flows@, n as nat).routes,
                forall|p: (usize, usize)| #[trigger] pairs@.contains_key(p) ==> rail_reachable(s, p.0 as int, p.1 as int),
            decreases flows@.len() - n,
        {
            let f = flows[n];
            let ghost before = rail_plan(s, flows@, n as nat);
            match pairs.get(&(f.src_host, f.dst_host)) {
                Some(p) => {
                    let path = copy_path(p);
                    proof {
                        assert(before.pairs.contains_key((f.src_host, f.dst_host)));
                        assert(path@ == before.pairs[(f.src_host, f.dst_host)]);
                    }
                    router.inject_template(f.job_id, f.job_flow_idx, path);
                },
                None => {
                    proof {
                        assert(!before.pairs.contains_key((f.src_host, f.dst_host)));
                    }
                    match compute_best_rail_path(&loads, topo, f.src_host, f.dst_host) {
                        None => {
                            assert(f == flows@[n as int]);
                            return Err(RouteFault::NoJobRoute(f.job_id, f.job_flow_idx));
                        },
                        Some(path) => {
                            let ghost was = pairs@;
                            raise_path(&mut loads, &path);
                            let kept = copy_path(&path);
                            pairs.insert((f.src_host, f.dst_host), kept);
                            proof {
                                assert(pair_routes(pairs@) =~= pair_routes(was).insert((f.src_host, f.dst_host), path@));
                            }
                            router.inject_template(f.job_id, f.job_flow_idx, path);
                        },
                    }
                },
            }
            n += 1;
        }
        Ok(())
    }
}

} // verus!
