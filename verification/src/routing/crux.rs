//! Routes for the flows of jobs that compute and send more are chosen first, each over the links that
//! carry the least.

use vstd::prelude::*;

use crate::network::graph::LinkId;
use crate::routing::fat_tree::{
    far_nodes, link_path, near_nodes, pod_nodes, same_links, FatTree, FatTreeRouter, FatTreeView,
};
use crate::routing::intensity::{by_key, sort_by_key, with_flow};
use crate::routing::load::{best_path, find_best_path, path_views, raise_path, raised_all};
use crate::simulator::context::{MLContext, WaitingFlow};
use crate::simulator::ml_job::{ascending, lemma_ascending};
use crate::simulator::ml_worker::{FlowId, JobId};
use crate::spine::routing::{copy_path, paths};
use crate::spine::topology::{Path, RouteFault};
use crate::utils::data::{lemma_push_to_set, DHashMap};

verus! {

/// How many ways there are between two hosts.
pub open spec fn way_count(t: FatTreeView, src: int, dst: int) -> nat {
    if t.host_tor[src] == t.host_tor[dst] {
        1
    } else if t.host_pod[src] == t.host_pod[dst] {
        t.degree_agg
    } else {
        t.degree_agg * t.degree_core
    }
}

/// One of the ways between two hosts, if its switches are there and are linked. Between pods each
/// aggregation switch leads to its own core switches; from a core switch the way down is fixed.
pub open spec fn way(t: FatTreeView, src: int, dst: int, i: int) -> Option<Seq<LinkId>> {
    if t.host_tor[src] == t.host_tor[dst] {
        link_path(t, near_nodes(t, src, dst))
    } else if t.host_pod[src] == t.host_pod[dst] {
        link_path(t, pod_nodes(t, src, dst, i))
    } else {
        let down = i / t.degree_agg as int;
        if i < t.cores.len() && down < t.degree_agg {
            link_path(t, far_nodes(t, src, dst, i / t.degree_core as int, i, down))
        } else {
            None
        }
    }
}

/// There are ways between two hosts, and none of them is broken.
pub open spec fn all_ways(t: FatTreeView, src: int, dst: int) -> bool {
    way_count(t, src, dst) > 0 && forall|i: int| 0 <= i < way_count(t, src, dst) ==> (#[trigger] way(t, src, dst, i)) is Some
}

/// The ways between two hosts.
pub open spec fn ways(t: FatTreeView, src: int, dst: int) -> Seq<Seq<LinkId>> {
    Seq::new(way_count(t, src, dst), |i: int| way(t, src, dst, i)->0)
}

/// The way between two hosts whose busiest link carries the least.
pub open spec fn best_way(loads: Map<LinkId, usize>, t: FatTreeView, src: usize, dst: usize) -> Option<Seq<LinkId>> {
    let hosts = t.host_tor.len();
    let all = ways(t, src as int, dst as int);
    if src < hosts && dst < hosts && all_ways(t, src as int, dst as int) {
        Some(all[best_path(loads, all, all.len())])
    } else {
        None
    }
}

/// Loads and routes when the first `n` flows have been routed one after the other.
pub open spec fn routed_flows(
    t: FatTreeView,
    ends: Map<FlowId, (usize, usize)>,
    order: Seq<FlowId>,
    n: nat,
) -> (Map<LinkId, usize>, Map<FlowId, Seq<LinkId>>)
    decreases n,
{
    if n == 0 {
        (Map::empty(), Map::empty())
    } else {
        let (loads, routes) = routed_flows(t, ends, order, (n - 1) as nat);
        let f = order[n - 1];
        let path = best_way(loads, t, ends[f].0, ends[f].1)->0;
        (raised_all(loads, path, path.len()), routes.insert(f, path))
    }
}

/// The first `n` flows all have a route.
pub open spec fn routes_exist(t: FatTreeView, ends: Map<FlowId, (usize, usize)>, order: Seq<FlowId>, n: nat) -> bool {
    forall|i: int|
        0 <= i < n ==> best_way(
            routed_flows(t, ends, order, i as nat).0,
            t,
            ends[#[trigger] order[i]].0,
            ends[order[i]].1,
        ) is Some
}

/// How much the job of a flow does; nothing if the job is not known.
pub open spec fn flow_key(
    waiting: Map<FlowId, WaitingFlow>,
    intensity: Map<JobId, u64>,
) -> spec_fn(FlowId) -> u64 {
    |f: FlowId|
        if waiting.contains_key(f) && intensity.contains_key(waiting[f].0) {
            intensity[waiting[f].0]
        } else {
            0
        }
}

/// The flows in the order in which they are routed: by falling intensity of their jobs, then by
/// number.
pub open spec fn route_order(
    flows: Set<FlowId>,
    waiting: Map<FlowId, WaitingFlow>,
    intensity: Map<JobId, u64>,
) -> Seq<FlowId> {
    by_key(ascending(flows), flow_key(waiting, intensity), ascending(flows).len())
}

/// A router that chooses all routes anew for each flow that comes.
pub struct CruxRouter {
    /// Routes of the flows.
    pub path_cache: DHashMap<FlowId, Vec<usize>>,
    /// Source and destination of the flows.
    pub flow_endpoints: DHashMap<FlowId, (usize, usize)>,
    /// Flows on each link.
    pub link_load: DHashMap<LinkId, usize>,
    /// A key for each job: the more the job computes and sends, the larger.
    pub intensity: DHashMap<JobId, u64>,
}

impl FatTree {
    /// One of the ways between two hosts.
    fn find_way(&self, src: usize, dst: usize, i: usize) -> (r: Option<Path>)
        requires
            self.wf(),
            src < self.hosts(),
            dst < self.hosts(),
            i < way_count(self@, src as int, dst as int),
        ensures
            same_links(r, way(self@, src as int, dst as int, i as int)),
    {
        if self.host_tor[src] == self.host_tor[dst] {
            self.near_path(src, dst)
        } else if self.host_pod[src] == self.host_pod[dst] {
            self.pod_path(src, dst, i)
        } else {
            proof {
                let d = self.degree_core as int;
                assert(self.degree_agg > 0 && d > 0) by (nonlinear_arith)
                    requires
                        0 <= i < self.degree_agg * self.degree_core,
                        d == self.degree_core,
                ;
                vstd::arithmetic::div_mod::lemma_fundamental_div_mod(i as int, d);
                vstd::arithmetic::div_mod::lemma_mod_bound(i as int, d);
                let q = i as int / d;
                assert(q < self.degree_agg) by (nonlinear_arith)
                    requires
                        d * q <= i,
                        i < self.degree_agg * d,
                        d > 0,
                ;
            }
            let up: usize = i / self.degree_core;
            let down: usize = i / self.degree_agg;
            if i < self.cores.len() && down < self.degree_agg {
                self.far_path(src, dst, up, i, down)
            } else {
                None
            }
        }
    }

    /// The number of ways between two hosts, if it can be counted.
    fn count_ways(&self, src: usize, dst: usize) -> (r: Option<usize>)
        requires
            self.wf(),
            src < self.hosts(),
            dst < self.hosts(),
        ensures
            r matches Some(n) ==> n == way_count(self@, src as int, dst as int),
            r is None ==> way_count(self@, src as int, dst as int) > usize::MAX,
    {
        if self.host_tor[src] == self.host_tor[dst] {
            Some(1)
        } else if self.host_pod[src] == self.host_pod[dst] {
            Some(self.degree_agg)
        } else {
            self.degree_agg.checked_mul(self.degree_core)
        }
    }
}

/// The way between two hosts whose busiest link carries the least.
pub fn compute_best_path(loads: &DHashMap<LinkId, usize>, topo: &FatTree, src: usize, dst: usize) -> (r: Option<Path>)
    requires
        topo.wf(),
    ensures
        same_links(r, best_way(loads@, topo@, src, dst)),
{
    let ghost t = topo@;
    let hosts: usize = topo.host_tor.len();
    if src >= hosts || dst >= hosts {
        return None;
    }
    let ghost s = src as int;
    let ghost d = dst as int;
    let n: usize = match topo.count_ways(src, dst) {
        Some(n) => n,
        None => {
            proof {
                let top = topo.cores@.len();
                let m: usize = topo.cores.len();
                assert(top <= usize::MAX);
                assert(way(t, s, d, top as int) is None);
            }
            return None;
        },
    };
    if n == 0 {
        return None;
    }
    let ghost all = ways(t, s, d);
    let mut list: Vec<Vec<LinkId>> = Vec::new();
    let mut i: usize = 0;
    while i < n
        invariant
            i <= n,
            n == way_count(t, s, d),
            topo.wf(),
            t == topo@,
            s == src,
            d == dst,
            src < topo.hosts(),
            dst < topo.hosts(),
            all == ways(t, s, d),
            list@.len() == i,
            forall|k: int| 0 <= k < i ==> (#[trigger] way(t, s, d, k)) is Some,
            forall|k: int| 0 <= k < i ==> (#[trigger] list@[k])@ == all[k],
        decreases n - i,
    {
        match topo.find_way(src, dst, i) {
            Some(p) => {
                list.push(p);
            },
            None => {
                assert(way(t, s, d, i as int) is None);
                return None;
            },
        }
        i += 1;
    }
    assert(path_views(list@) =~= all);
    let b: usize = find_best_path(loads, &list);
    let r = copy_path(&list[b]);
    Some(r)
}

impl CruxRouter {
    /// A router without flows.
    pub fn new() -> (r: Self)
        ensures
            paths(r.path_cache@) == Map::<FlowId, Seq<usize>>::empty(),
            r.flow_endpoints@ == Map::<FlowId, (usize, usize)>::empty(),
            r.link_load@ == Map::<LinkId, usize>::empty(),
            r.intensity@ == Map::<JobId, u64>::empty(),
    {
        let r = CruxRouter {
            path_cache: DHashMap::new(),
            flow_endpoints: DHashMap::new(),
            link_load: DHashMap::new(),
            intensity: DHashMap::new(),
        };
        proof {
            assert(paths(r.path_cache@) =~= Map::<FlowId, Seq<usize>>::empty());
        }
        r
    }

    /// Sets how much a job does.
    pub fn set_intensity(&mut self, job_id: JobId, key: u64)
        ensures
            final(self).intensity@ == old(self).intensity@.insert(job_id, key),
            *final(self) == (CruxRouter { intensity: final(self).intensity, ..*old(self) }),
    {
        self.intensity.insert(job_id, key);
    }

    /// The flows in the order in which they are routed.
    fn order_flows(&self, ctx: &MLContext) -> (r: Vec<FlowId>)
        ensures
            r@ == route_order(self.flow_endpoints@.dom(), ctx.waiting_flows@, self.intensity@),
            forall|i: int| 0 <= i < r@.len() ==> self.flow_endpoints@.contains_key(#[trigger] r@[i]),
            forall|f: FlowId| self.flow_endpoints@.contains_key(f) ==> #[trigger] r@.contains(f),
    {
        let ids = self.flow_endpoints.sorted_keys();
        let ghost key = flow_key(ctx.waiting_flows@, self.intensity@);
        proof {
            lemma_ascending(ids@, self.flow_endpoints@.dom());
        }
        let mut keys: Vec<u64> = Vec::new();
        let mut i: usize = 0;
        while i < ids.len()
            invariant
                i <= ids@.len(),
                key == flow_key(ctx.waiting_flows@, self.intensity@),
                keys@.len() == i,
                forall|k: int| 0 <= k < i ==> keys@[k] == key(#[trigger] ids@[k]),
            decreases ids@.len() - i,
        {
            let k: u64 = match ctx.waiting_flows.get(&ids[i]) {
                Some(w) => match self.intensity.get(&w.0) {
                    Some(k) => *k,
                    None => 0,
                },
                None => 0,
            };
            keys.push(k);
            i += 1;
        }
        let r = sort_by_key(&ids, &keys, Ghost(key));
        proof {
            lemma_by_key(ids@, key, ids@.len());
            assert(ids@.take(ids@.len() as int) =~= ids@);
            assert forall|i: int| 0 <= i < r@.len() implies self.flow_endpoints@.contains_key(#[trigger] r@[i]) by {
                assert(r@.to_set().contains(r@[i]));
                assert(ids@.to_set().contains(r@[i]));
            }
            assert forall|f: FlowId| self.flow_endpoints@.contains_key(f) implies #[trigger] r@.contains(f) by {
                assert(ids@.to_set().contains(f));
                assert(r@.to_set().contains(f));
            }
        }
        r
    }

    /// Routes all flows anew, or finds one that has no route.
    #[verifier::rlimit(40)]
    pub fn recompute_routes(&mut self, ctx: &MLContext, topo: &FatTree) -> (r: Result<(), RouteFault>)
        requires
            topo.wf(),
        ensures
            final(self).flow_endpoints == old(self).flow_endpoints,
            final(self).intensity == old(self).intensity,
            all_rerouted(*old(self), *final(self), ctx.waiting_flows@, topo@, r),
    {
        let ghost t = topo@;
        let ghost ends = self.flow_endpoints@;
        let order = self.order_flows(ctx);
        let mut loads: DHashMap<LinkId, usize> = DHashMap::new();
        let mut routes: DHashMap<FlowId, Vec<usize>> = DHashMap::new();
        proof {
            assert(paths(routes@) =~= Map::<FlowId, Seq<usize>>::empty());
        }
        let mut i: usize = 0;
        while i < order.len()
            invariant
                i <= order@.len(),
                topo.wf(),
                t == topo@,
                ends == self.flow_endpoints@,
                *self == *old(self),
                order@ == route_order(ends.dom(), ctx.waiting_flows@, self.intensity@),
                forall|k: int| 0 <= k < order@.len() ==> ends.contains_key(#[trigger] order@[k]),
                routes_exist(t, ends, order@, i as nat),
                loads@ == routed_flows(t, ends, order@, i as nat).0,
                paths(routes@) == routed_flows(t, ends, order@, i as nat).1,
                forall|f: FlowId| #[trigger] routes@.contains_key(f) ==> ends.contains_key(f),
                forall|k: int| 0 <= k < i ==> routes@.contains_key(#[trigger] order@[k]),
            decreases order@.len() - i,
        {
            let f: FlowId = order[i];
            let e: (usize, usize) = *self.flow_endpoints.get(&f).unwrap();
            match compute_best_path(&loads, topo, e.0, e.1) {
                None => {
                    proof {
                        let k = i as int;
                        assert(best_way(loads@, t, ends[order@[k]].0, ends[order@[k]].1) is None);
                        assert(RouteFault::NoRoute(f) == RouteFault::NoRoute(order@[k]));
                    }
                    return Err(RouteFault::NoRoute(f));
                },
                Some(path) => {
                    let ghost before = routes@;
                    raise_path(&mut loads, &path);
                    routes.insert(f, path);
                    proof {
                        assert(paths(routes@) =~= paths(before).insert(f, path@));
                    }
                },
            }
            i += 1;
        }
        proof {
            assert forall|f: FlowId| routes@.dom().contains(f) == ends.dom().contains(f) by {
                if ends.contains_key(f) {
                    assert(order@.contains(f));
                    let k = choose|k: int| 0 <= k < order@.len() && order@[k] == f;
                    assert(routes@.contains_key(order@[k]));
                }
            }
            assert(routes@.dom() =~= ends.dom());
        }
        self.link_load = loads;
        self.path_cache = routes;
        Ok(())
    }
}

proof fn lemma_with_flow_set(list: Seq<FlowId>, keys: spec_fn(FlowId) -> u64, f: FlowId)
    ensures
        with_flow(list, keys, f).to_set() == list.to_set().insert(f),
    decreases list.len(),
{
    if list.len() == 0 || keys(list.last()) >= keys(f) {
        lemma_push_to_set(list, f);
    } else {
        lemma_with_flow_set(list.drop_last(), keys, f);
        lemma_push_to_set(with_flow(list.drop_last(), keys, f), list.last());
        lemma_push_to_set(list.drop_last(), list.last());
        assert(list.drop_last().push(list.last()) =~= list);
        assert(with_flow(list, keys, f).to_set() =~= list.to_set().insert(f));
    }
}

/// Sorting keeps the flows.
proof fn lemma_by_key(ids: Seq<FlowId>, keys: spec_fn(FlowId) -> u64, n: nat)
    requires
        n <= ids.len(),
    ensures
        by_key(ids, keys, n).to_set() == ids.take(n as int).to_set(),
    decreases n,
{
    if n > 0 {
        lemma_by_key(ids, keys, (n - 1) as nat);
        lemma_with_flow_set(by_key(ids, keys, (n - 1) as nat), keys, ids[n - 1]);
        lemma_push_to_set(ids.take(n - 1), ids[n - 1]);
        assert(ids.take(n - 1).push(ids[n - 1]) =~= ids.take(n as int));
    } else {
        assert(by_key(ids, keys, 0) =~= ids.take(0));
    }
}

/// What routing all flows anew answers: every flow has its route, or one has none and nothing changes.
pub open spec fn all_rerouted(
    before: CruxRouter,
    after: CruxRouter,
    waiting: Map<FlowId, WaitingFlow>,
    t: FatTreeView,
    r: Result<(), RouteFault>,
) -> bool {
    let ends = before.flow_endpoints@;
    let order = route_order(ends.dom(), waiting, before.intensity@);
    match r {
        Ok(_) => {
            &&& routes_exist(t, ends, order, order.len())
            &&& after.link_load@ == routed_flows(t, ends, order, order.len()).0
            &&& paths(after.path_cache@) == routed_flows(t, ends, order, order.len()).1
            &&& after.path_cache@.dom() == ends.dom()
        },
        Err(fault) => {
            &&& after == before
            &&& exists|i: int|
                0 <= i < order.len() && fault == RouteFault::NoRoute(#[trigger] order[i]) && routes_exist(
                    t,
                    ends,
                    order,
                    i as nat,
                ) && best_way(routed_flows(t, ends, order, i as nat).0, t, ends[order[i]].0, ends[order[i]].1) is None
        },
    }
}

impl FatTreeRouter for CruxRouter {
    /// Takes the flow in and routes all flows anew.
    fn route(
        &mut self,
        topo: &FatTree,
        ctx: &MLContext,
        src: usize,
        dst: usize,
        flow_id: FlowId,
    ) -> (r: Result<Path, RouteFault>)
        ensures
            final(self).flow_endpoints@ == old(self).flow_endpoints@.insert(flow_id, (src, dst)),
            final(self).intensity == old(self).intensity,
            all_rerouted(
                CruxRouter { flow_endpoints: final(self).flow_endpoints, ..*old(self) },
                *final(self),
                ctx.waiting_flows@,
                topo@,
                match r {
                    Ok(_) => Ok(()),
                    Err(f) => Err(f),
                },
            ),
            r matches Ok(p) ==> final(self).path_cache@.contains_key(flow_id) && p@ == paths(final(self).path_cache@)[flow_id],
    {
        self.flow_endpoints.insert(flow_id, (src, dst));
        match self.recompute_routes(ctx, topo) {
            Err(f) => Err(f),
            Ok(()) => {
                proof {
                    assert(self.flow_endpoints@.dom().contains(flow_id));
                }
                Ok(copy_path(self.path_cache.get(&flow_id).unwrap()))
            },
        }
    }

    fn complete_flow(&mut self, flow_id: FlowId)
        ensures
            final(self).path_cache@ == old(self).path_cache@.remove(flow_id),
            final(self).flow_endpoints@ == old(self).flow_endpoints@.remove(flow_id),
            final(self).link_load == old(self).link_load,
            final(self).intensity == old(self).intensity,
    {
        self.path_cache.remove(&flow_id);
        self.flow_endpoints.remove(&flow_id);
    }
}

} // verus!
