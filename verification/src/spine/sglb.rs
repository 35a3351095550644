//! Spine group load balancing in spine networks.

use vstd::prelude::*;

use crate::network::graph::LinkId;
use crate::routing::balance::{
    chosen_spine, default_config, eligible, lemma_least_loaded, released, remapped, spine_scores,
    BalancerView, BindingView, FlowBinding, SGLBConfig, SpineBalancer, SpineLayer,
};
use crate::routing::load::raised_all;
use crate::simulator::context::{MLContext, WaitingFlow};
use crate::simulator::ml_worker::{FlowId, JobId};
use crate::simulator::system::{TimerId, TimerRequest};
use crate::spine::routing::{copy_path, leaf_number, route_over, spine_route};
use crate::spine::topology::{lemma_mesh_links, Path, RouteFault, SpineTree, SpineTreeRouter};

verus! {

/// The timer by which flows move.
pub const SGLB_REMAP_TIMER_ID: TimerId = 1;

impl SpineLayer for SpineTree {
    open spec fn valid(&self) -> bool {
        self.wf()
    }

    open spec fn sides(&self) -> nat {
        self.num_leaves as nat
    }

    open spec fn spines(&self) -> nat {
        self.num_spines as nat
    }

    open spec fn up_id(&self, side: int, spine: int) -> LinkId {
        self.size().up_link(side, spine) as usize
    }

    open spec fn down_id(&self, side: int, spine: int) -> LinkId {
        (self.size().up_link(side, spine) + 1) as usize
    }

    fn count_spines(&self) -> (r: usize) {
        self.num_spines
    }

    fn up_link(&self, side: usize, spine: usize) -> (r: LinkId) {
        proof {
            lemma_mesh_links(self.size(), side as int, spine as int);
        }
        let leaf: usize = self.total_hosts() + side;
        self.graph.link_between(leaf, self.get_spine(spine)).unwrap()
    }

    fn down_link(&self, side: usize, spine: usize) -> (r: LinkId) {
        proof {
            lemma_mesh_links(self.size(), side as int, spine as int);
        }
        let leaf: usize = self.total_hosts() + side;
        self.graph.link_between(self.get_spine(spine), leaf).unwrap()
    }
}

/// A router that spreads flows over the spines that carry the least.
pub struct SGLBRouter {
    pub balancer: SpineBalancer,
}

/// Figures of a router.
#[derive(Debug, Clone, Copy, PartialEq, Eq, Structural)]
pub struct SGLBStats {
    pub active_flows: usize,
    pub links_with_flows: usize,
    pub max_link_count: usize,
}

/// The job that a flow is of; zero if it is not known.
pub open spec fn job_of(waiting: Map<FlowId, WaitingFlow>, flow_id: FlowId) -> JobId {
    if waiting.contains_key(flow_id) {
        waiting[flow_id].0
    } else {
        0
    }
}

/// A new flow: its route, and what is kept of it.
pub open spec fn balanced_route(
    cfg: SGLBConfig,
    topo: SpineTree,
    v: BalancerView,
    waiting: Map<FlowId, WaitingFlow>,
    src: usize,
    dst: usize,
    flow_id: FlowId,
) -> (Result<Seq<LinkId>, RouteFault>, BalancerView) {
    let size = topo.size();
    let a = leaf_number(size, src as int);
    let b = leaf_number(size, dst as int);
    let choice = eligible(cfg, topo, v.loads, a, b, Seq::empty());
    if a == b {
        let path = spine_route(size, src as int, dst as int, 0);
        (
            Ok(path),
            BalancerView {
                bindings: v.bindings.insert(
                    flow_id,
                    BindingView { spine: None, src: a as usize, dst: b as usize, path, links: Seq::empty() },
                ),
                ..v
            },
        )
    } else if choice.len() == 0 {
        (Err(RouteFault::NoRoute(flow_id)), v)
    } else {
        let s = chosen_spine(cfg, choice, src, dst, job_of(waiting, flow_id));
        let path = spine_route(size, src as int, dst as int, s as int);
        let links = seq![topo.up_id(a, s as int), topo.down_id(b, s as int)];
        (
            Ok(path),
            BalancerView {
                loads: raised_all(v.loads, links, 2),
                bindings: v.bindings.insert(
                    flow_id,
                    BindingView { spine: Some(s), src: a as usize, dst: b as usize, path, links },
                ),
            },
        )
    }
}

impl SGLBRouter {
    /// A router without flows.
    pub fn new(config: SGLBConfig) -> (r: Self)
        ensures
            r.balancer.config == config,
            r.balancer@ == (BalancerView { loads: Map::empty(), bindings: Map::empty() }),
    {
        SGLBRouter { balancer: SpineBalancer::new(config) }
    }

    /// A router whose flows choose among `k` spines.
    pub fn with_k(k: usize) -> (r: Self)
        ensures
            r.balancer.config == (SGLBConfig { k, ..default_config() }),
            r.balancer@ == (BalancerView { loads: Map::empty(), bindings: Map::empty() }),
    {
        SGLBRouter::new(SGLBConfig::with_k(k))
    }

    /// Moves the flows whose spine is no longer among those that carry the least.
    pub fn remap_ineligible_flows(&mut self, topo: &SpineTree)
        requires
            topo.wf(),
            old(self).balancer.fits(*topo),
        ensures
            final(self).balancer.config == old(self).balancer.config,
            final(self).balancer.fits(*topo),
            final(self).balancer@ == if old(self).balancer.config.enable_remapping {
                remapped(old(self).balancer.config, *topo, old(self).balancer@, false)
            } else {
                old(self).balancer@
            },
    {
        if self.balancer.config.enable_remapping {
            self.balancer.remap(topo, false);
        }
    }

    /// Figures of the router.
    pub fn get_stats(&self) -> (r: SGLBStats)
        ensures
            self.balancer@.bindings.dom().finite(),
            self.balancer@.loads.dom().finite(),
            r.active_flows == self.balancer@.bindings.dom().len(),
            r.links_with_flows == self.balancer@.loads.dom().len(),
            forall|l: LinkId| #[trigger]
                self.balancer@.loads.contains_key(l) ==> self.balancer@.loads[l] <= r.max_link_count,
            r.max_link_count > 0 ==> exists|l: LinkId| #[trigger]
                self.balancer@.loads.contains_key(l) && self.balancer@.loads[l] == r.max_link_count,
    {
        proof {
            assert(self.balancer@.bindings.dom() =~= self.balancer.flow_bindings@.dom());
        }
        SGLBStats {
            active_flows: self.balancer.flow_bindings.len(),
            links_with_flows: self.balancer.link_flow_count.len(),
            max_link_count: self.balancer.max_link_count(),
        }
    }
}

impl Default for SGLBRouter {
    fn default() -> (r: Self)
        ensures
            r.balancer.config == default_config(),
            r.balancer@ == (BalancerView { loads: Map::empty(), bindings: Map::empty() }),
    {
        let config: SGLBConfig = Default::default();
        SGLBRouter::new(config)
    }
}

impl SpineTreeRouter for SGLBRouter {
    /// A flow takes one of the spines that carry the least.
    fn route(
        &mut self,
        topo: &SpineTree,
        ctx: &MLContext,
        src: usize,
        dst: usize,
        flow_id: FlowId,
    ) -> (r: Result<Path, RouteFault>)
        ensures
            final(self).balancer.config == old(self).balancer.config,
            ({
                let want = balanced_route(
                    old(self).balancer.config,
                    *topo,
                    old(self).balancer@,
                    ctx.waiting_flows@,
                    src,
                    dst,
                    flow_id,
                );
                &&& final(self).balancer@ == want.1
                &&& match want.0 {
                    Ok(p) => r is Ok && r->Ok_0@ == p,
                    Err(f) => r is Err && r->Err_0 == f,
                }
            }),
            old(self).balancer.fits(*topo) ==> final(self).balancer.fits(*topo),
    {
        let ghost v = self.balancer@;
        let ghost cfg = self.balancer.config;
        let a: usize = topo.leaf_index_from_node(topo.get_host_leaf(src));
        let b: usize = topo.leaf_index_from_node(topo.get_host_leaf(dst));
        if a == b {
            let path = route_over(topo, src, dst, 0);
            let kept = copy_path(&path);
            let none: Vec<LinkId> = Vec::new();
            self.balancer.bind(flow_id, FlowBinding { spine: None, src: a, dst: b, path: kept, links: none });
            proof {
                assert(none@ =~= Seq::<LinkId>::empty());
            }
            return Ok(path);
        }
        let none: Vec<LinkId> = Vec::new();
        let choice = self.balancer.compute_eligible_spines(topo, a, b, &none);
        proof {
            assert(none@ =~= Seq::<LinkId>::empty());
            lemma_least_loaded(spine_scores(cfg, *topo, v.loads, a as int, b as int, none@), cfg.k as nat);
        }
        if choice.len() == 0 {
            return Err(RouteFault::NoRoute(flow_id));
        }
        let job_id: JobId = match ctx.waiting_flows.get(&flow_id) {
            Some(w) => w.0,
            None => 0,
        };
        let s: usize = self.balancer.hash_select_spine(src, dst, job_id, &choice);
        let path = route_over(topo, src, dst, s);
        let kept = copy_path(&path);
        let mut links: Vec<LinkId> = Vec::new();
        links.push(topo.up_link(a, s));
        links.push(topo.down_link(b, s));
        proof {
            assert(links@ =~= seq![topo.up_id(a as int, s as int), topo.down_id(b as int, s as int)]);
        }
        self.balancer.bind(flow_id, FlowBinding { spine: Some(s), src: a, dst: b, path: kept, links });
        Ok(path)
    }

    fn complete_flow(&mut self, flow_id: FlowId)
        ensures
            final(self).balancer.config == old(self).balancer.config,
            final(self).balancer@ == released(old(self).balancer@, flow_id),
    {
        self.balancer.release(flow_id);
    }
}

/// When flows move.
#[derive(Debug, Clone, Copy, PartialEq, Eq, Structural)]
pub struct SGLBSystemModule {
    pub config: SGLBConfig,
    /// Whether figures are to be printed.
    pub log_stats: bool,
    /// Whether the timer runs.
    pub timer_started: bool,
}

/// The timers with the one by which flows move, if they move at an interval.
pub open spec fn with_remap_timer(timers: Seq<TimerRequest>, config: SGLBConfig, now_us: u64) -> Seq<TimerRequest> {
    if config.remap_interval_us > 0 {
        timers.push(
            TimerRequest {
                fire_at_us: (now_us + config.remap_interval_us) as u64,
                timer_id: SGLB_REMAP_TIMER_ID,
            },
        )
    } else {
        timers
    }
}

/// Asks for the timer by which flows move.
pub fn schedule_remap_timer(config: &SGLBConfig, now_us: u64, timers: &mut Vec<TimerRequest>)
    requires
        now_us + config.remap_interval_us <= u64::MAX,
    ensures
        final(timers)@ == with_remap_timer(old(timers)@, *config, now_us),
{
    if config.remap_interval_us > 0 {
        timers.push(TimerRequest { fire_at_us: now_us + config.remap_interval_us, timer_id: SGLB_REMAP_TIMER_ID });
    }
}

impl SGLBSystemModule {
    /// A module whose timer does not run.
    pub fn new(config: SGLBConfig) -> (r: Self)
        ensures
            r == (SGLBSystemModule { config, log_stats: true, timer_started: false }),
    {
        SGLBSystemModule { config, log_stats: true, timer_started: false }
    }

    /// A module for a choice among `k` spines.
    pub fn with_k(k: usize) -> (r: Self)
        ensures
            r == (SGLBSystemModule {
                config: SGLBConfig { k, ..default_config() },
                log_stats: true,
                timer_started: false,
            }),
    {
        SGLBSystemModule::new(SGLBConfig::with_k(k))
    }

    /// A module that does not print.
    pub fn without_logging(self) -> (r: Self)
        ensures
            r == (SGLBSystemModule { log_stats: false, ..self }),
    {
        SGLBSystemModule { log_stats: false, ..self }
    }

    /// How flows are balanced.
    pub fn config(&self) -> (r: &SGLBConfig)
        ensures
            *r == self.config,
    {
        &self.config
    }

    /// The simulation begins: the timer starts, if flows move at an interval.
    pub fn on_init(&mut self, ctx: &MLContext, timers: &mut Vec<TimerRequest>)
        requires
            ctx.time_us + old(self).config.remap_interval_us <= u64::MAX,
        ensures
            ({
                let on = old(self).config.enable_remapping && old(self).config.remap_interval_us > 0;
                &&& *final(self) == (SGLBSystemModule { timer_started: on || old(self).timer_started, ..*old(self) })
                &&& final(timers)@ == if on {
                    with_remap_timer(old(timers)@, old(self).config, ctx.time_us)
                } else {
                    old(timers)@
                }
            }),
    {
        if self.config.enable_remapping && self.config.remap_interval_us > 0 {
            schedule_remap_timer(&self.config, ctx.time_us, timers);
            self.timer_started = true;
        }
    }

    /// The network is reconfigured: flows move, if they do not do so at an interval.
    pub fn on_reconfigure(&self, topo: &SpineTree, router: &mut SGLBRouter)
        requires
            topo.wf(),
            old(router).balancer.fits(*topo),
        ensures
            final(router).balancer.config == old(router).balancer.config,
            final(router).balancer.fits(*topo),
            final(router).balancer@ == if self.config.enable_remapping && self.config.remap_interval_us == 0
                && old(router).balancer.config.enable_remapping {
                remapped(old(router).balancer.config, *topo, old(router).balancer@, false)
            } else {
                old(router).balancer@
            },
    {
        if self.config.enable_remapping && self.config.remap_interval_us == 0 {
            router.remap_ineligible_flows(topo);
        }
    }

    /// A timer has fired: flows move, and the timer starts anew.
    pub fn on_timer(
        &self,
        ctx: &MLContext,
        timer_id: TimerId,
        topo: &SpineTree,
        router: &mut SGLBRouter,
        timers: &mut Vec<TimerRequest>,
    )
        requires
            topo.wf(),
            old(router).balancer.fits(*topo),
            ctx.time_us + self.config.remap_interval_us <= u64::MAX,
        ensures
            final(router).balancer.config == old(router).balancer.config,
            final(router).balancer.fits(*topo),
            final(router).balancer@ == if timer_id == SGLB_REMAP_TIMER_ID && self.config.enable_remapping
                && old(router).balancer.config.enable_remapping {
                remapped(old(router).balancer.config, *topo, old(router).balancer@, false)
            } else {
                old(router).balancer@
            },
            final(timers)@ == if timer_id == SGLB_REMAP_TIMER_ID {
                with_remap_timer(old(timers)@, self.config, ctx.time_us)
            } else {
                old(timers)@
            },
    {
        if timer_id != SGLB_REMAP_TIMER_ID {
            return;
        }
        if self.config.enable_remapping {
            router.remap_ineligible_flows(topo);
        }
        schedule_remap_timer(&self.config, ctx.time_us, timers);
    }
}

impl Default for SGLBSystemModule {
    fn default() -> (r: Self)
        ensures
            r == (SGLBSystemModule { config: default_config(), log_stats: true, timer_started: false }),
    {
        let config: SGLBConfig = Default::default();
        SGLBSystemModule::new(config)
    }
}

} // verus!
