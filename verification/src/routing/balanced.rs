//! What flows that are balanced over spines are counted on, and which spines they take.

use vstd::prelude::*;

use crate::network::graph::LinkId;
use crate::rail::routing::rail_route;
use crate::rail::sglb::{balanced_rail_route, rail_of};
use crate::rail::topology::RailTree;
use crate::routing::balance::{
    all_moved, chosen_spine, count_without, eligible, lemma_least_loaded, move_hash, moved, released, remapped, rerouted,
    spine_scores, strayed, strays, BalancerView, BindingView, SGLBConfig, SpineLayer,
};
use crate::routing::load::{count_of, lowered_all, raised_all};
use crate::routing::walks::{leads, lemma_rail_route_leads, lemma_spine_route_leads};
use crate::simulator::context::WaitingFlow;
use crate::simulator::ml_job::ascending;
use crate::simulator::ml_worker::FlowId;
use crate::simulator::progress::lemma_ascending_lists;
use crate::spine::routing::{leaf_number, spine_route};
use crate::spine::sglb::balanced_route;
use crate::spine::topology::{lemma_host_links, RouteFault, SpineTree};
use crate::utils::hash::pick;

verus! {

/// What so many flows up to a spine and so many down from it weigh, over the denominator that the weights have
/// in common.
pub open spec fn weighed(cfg: SGLBConfig, up: nat, down: nat) -> int {
    cfg.w1.num * cfg.w2.den * up + cfg.w2.num * cfg.w1.den * down
}

/// What a spine carries between two switches.
pub open spec fn spine_load<L: SpineLayer>(
    cfg: SGLBConfig,
    layer: L,
    loads: Map<LinkId, usize>,
    src: int,
    dst: int,
    spine: int,
) -> int {
    weighed(
        cfg,
        count_of(loads, layer.up_id(src, spine)) as nat,
        count_of(loads, layer.down_id(dst, spine)) as nat,
    )
}

/// The spines that carry less between two switches than a given one.
pub open spec fn lighter_spines<L: SpineLayer>(
    cfg: SGLBConfig,
    layer: L,
    loads: Map<LinkId, usize>,
    src: int,
    dst: int,
    spine: int,
) -> Set<usize> {
    Set::new(
        |t: usize|
            t < layer.spines() && spine_load(cfg, layer, loads, src, dst, t as int) < spine_load(
                cfg,
                layer,
                loads,
                src,
                dst,
                spine,
            ),
    )
}

proof fn lemma_idle_score<L: SpineLayer>(
    cfg: SGLBConfig,
    layer: L,
    loads: Map<LinkId, usize>,
    src: int,
    dst: int,
    t: int,
)
    requires
        0 <= t < layer.spines(),
    ensures
        spine_scores(cfg, layer, loads, src, dst, Seq::empty())[t] == spine_load(cfg, layer, loads, src, dst, t),
{
    assert(count_without(loads, layer.up_id(src, t), Seq::empty()) == count_of(loads, layer.up_id(src, t)));
    assert(count_without(loads, layer.down_id(dst, t), Seq::empty()) == count_of(loads, layer.down_id(dst, t)));
}

/// A spine may be chosen only if fewer than `k` carry less.
pub proof fn lemma_eligible_spine<L: SpineLayer>(
    cfg: SGLBConfig,
    layer: L,
    loads: Map<LinkId, usize>,
    src: int,
    dst: int,
    i: int,
)
    requires
        layer.spines() <= usize::MAX,
        0 <= i < eligible(cfg, layer, loads, src, dst, Seq::empty()).len(),
    ensures
        ({
            let s = eligible(cfg, layer, loads, src, dst, Seq::empty())[i] as int;
            &&& s < layer.spines()
            &&& lighter_spines(cfg, layer, loads, src, dst, s).finite()
            &&& lighter_spines(cfg, layer, loads, src, dst, s).len() < cfg.k
        }),
{
    let scores = spine_scores(cfg, layer, loads, src, dst, Seq::empty());
    let top = eligible(cfg, layer, loads, src, dst, Seq::empty());
    lemma_least_loaded(scores, cfg.k as nat);
    let s = top[i];
    let lighter = lighter_spines(cfg, layer, loads, src, dst, s as int);
    let rest = top.to_set().remove(s);
    assert(top.contains(s));
    top.unique_seq_to_set();
    lemma_idle_score(cfg, layer, loads, src, dst, s as int);
    assert(lighter.subset_of(rest)) by {
        assert forall|t: usize| lighter.contains(t) implies rest.contains(t) by {
            lemma_idle_score(cfg, layer, loads, src, dst, t as int);
            if !top.contains(t) {
                assert(scores[top[i] as int] <= scores[t as int]);
            }
        }
    }
    vstd::set_lib::lemma_len_subset(lighter, rest);
}

/// The spine that a new flow takes may be chosen.
proof fn lemma_chosen_spine<L: SpineLayer>(
    cfg: SGLBConfig,
    layer: L,
    loads: Map<LinkId, usize>,
    a: int,
    b: int,
    src: usize,
    dst: usize,
    job_id: usize,
)
    requires
        layer.spines() <= usize::MAX,
        eligible(cfg, layer, loads, a, b, Seq::empty()).len() > 0,
    ensures
        ({
            let s = chosen_spine(cfg, eligible(cfg, layer, loads, a, b, Seq::empty()), src, dst, job_id) as int;
            &&& s < layer.spines()
            &&& lighter_spines(cfg, layer, loads, a, b, s).finite()
            &&& lighter_spines(cfg, layer, loads, a, b, s).len() < cfg.k
        }),
{
    let choice = eligible(cfg, layer, loads, a, b, Seq::empty());
    lemma_least_loaded(spine_scores(cfg, layer, loads, a, b, Seq::empty()), cfg.k as nat);
    if choice.len() == 1 {
        lemma_eligible_spine(cfg, layer, loads, a, b, 0);
    } else {
        let h = crate::spine::routing::traffic_hash(cfg.seed, src, dst, job_id);
        assert(0 <= pick(h, choice.len()) < choice.len());
        lemma_eligible_spine(cfg, layer, loads, a, b, pick(h, choice.len()) as int);
    }
}

proof fn lemma_two_raised(loads: Map<LinkId, usize>, up: LinkId, down: LinkId, l: LinkId)
    requires
        up != down,
        count_of(loads, up) < usize::MAX,
        count_of(loads, down) < usize::MAX,
    ensures
        count_of(raised_all(loads, seq![up, down], 2), l) == count_of(loads, l) + if l == up || l == down {
            1int
        } else {
            0int
        },
{
    reveal_with_fuel(raised_all, 3);
}

/// A flow is counted once on each of the two links, and nothing else is counted.
pub open spec fn counted_on(before: Map<LinkId, usize>, after: Map<LinkId, usize>, up: LinkId, down: LinkId) -> bool {
    forall|l: LinkId| #[trigger]
        count_of(after, l) == count_of(before, l) + if l == up || l == down {
            1int
        } else {
            0int
        }
}

/// No link has as many flows as can be counted.
pub open spec fn can_count(loads: Map<LinkId, usize>) -> bool {
    forall|l: LinkId| #[trigger] count_of(loads, l) < usize::MAX
}

/// A flow between leaves goes over a spine than which fewer than `k` carry less. It leads from its source to its
/// destination, and it is counted on the second and the third of its own links: those up to the spine and down
/// from it.
pub proof fn lemma_balanced_flow(
    cfg: SGLBConfig,
    topo: SpineTree,
    v: BalancerView,
    waiting: Map<FlowId, WaitingFlow>,
    src: usize,
    dst: usize,
    flow_id: FlowId,
    path: Seq<LinkId>,
    after: BalancerView,
)
    requires
        topo.wf(),
        src < topo.size().hosts(),
        dst < topo.size().hosts(),
        leaf_number(topo.size(), src as int) != leaf_number(topo.size(), dst as int),
        can_count(v.loads),
        balanced_route(cfg, topo, v, waiting, src, dst, flow_id) == (Ok::<Seq<LinkId>, RouteFault>(path), after),
    ensures
        leads(topo.graph.links(), path, src, dst),
        path.len() == 4,
        counted_on(v.loads, after.loads, path[1], path[2]),
        after.bindings == v.bindings.insert(flow_id, after.bindings[flow_id]),
        after.bindings[flow_id].path == path,
        after.bindings[flow_id].links == seq![path[1], path[2]],
        after.bindings[flow_id].spine is Some,
        ({
            let a = leaf_number(topo.size(), src as int);
            let b = leaf_number(topo.size(), dst as int);
            let s = after.bindings[flow_id].spine->0;
            &&& s < topo.num_spines
            &&& path[1] == topo.up_id(a, s as int)
            &&& path[2] == topo.down_id(b, s as int)
            &&& lighter_spines(cfg, topo, v.loads, a, b, s as int).len() < cfg.k
        }),
{
    let size = topo.size();
    let a = leaf_number(size, src as int);
    let b = leaf_number(size, dst as int);
    let choice = eligible(cfg, topo, v.loads, a, b, Seq::empty());
    let job = crate::spine::sglb::job_of(waiting, flow_id);
    lemma_chosen_spine(cfg, topo, v.loads, a, b, src, dst, job);
    let s = chosen_spine(cfg, choice, src, dst, job);
    lemma_spine_route_leads(size, src as int, dst as int, s as int);
    assert(path == spine_route(size, src as int, dst as int, s as int));
    assert(path[1] != path[2]);
    assert(after.bindings[flow_id].links =~= seq![path[1], path[2]]);
    assert(count_of(v.loads, path[1]) < usize::MAX && count_of(v.loads, path[2]) < usize::MAX);
    assert forall|l: LinkId| #[trigger] count_of(after.loads, l) == count_of(v.loads, l) + if l == path[1] || l == path[2] {
        1int
    } else {
        0int
    } by {
        lemma_two_raised(v.loads, path[1], path[2], l);
    }
    assert(after.bindings =~= v.bindings.insert(flow_id, after.bindings[flow_id]));
    assert(lighter_spines(cfg, topo, v.loads, a, b, s as int).len() < cfg.k);
}

/// A flow within a leaf is counted nowhere.
pub proof fn lemma_inner_flow(
    cfg: SGLBConfig,
    topo: SpineTree,
    v: BalancerView,
    waiting: Map<FlowId, WaitingFlow>,
    src: usize,
    dst: usize,
    flow_id: FlowId,
)
    requires
        topo.wf(),
        src < topo.size().hosts(),
        dst < topo.size().hosts(),
        src != dst,
        leaf_number(topo.size(), src as int) == leaf_number(topo.size(), dst as int),
    ensures
        ({
            let (r, after) = balanced_route(cfg, topo, v, waiting, src, dst, flow_id);
            &&& r matches Ok(path) && leads(topo.graph.links(), path, src, dst) && path.len() == 2
                && after.bindings[flow_id].path == path
            &&& after.loads == v.loads
            &&& after.bindings[flow_id].links.len() == 0
        }),
{
    lemma_spine_route_leads(topo.size(), src as int, dst as int, 0);
}

/// The same of a flow between pods of a rail network.
pub proof fn lemma_balanced_rail_flow(
    cfg: SGLBConfig,
    topo: RailTree,
    v: BalancerView,
    waiting: Map<FlowId, WaitingFlow>,
    src: usize,
    dst: usize,
    flow_id: FlowId,
    path: Seq<LinkId>,
    after: BalancerView,
)
    requires
        topo.wf(),
        src < topo.size().gpus(),
        dst < topo.size().gpus(),
        topo.size().pod_of(src as int) != topo.size().pod_of(dst as int),
        can_count(v.loads),
        balanced_rail_route(cfg, topo, v, waiting, src, dst, flow_id) == (Ok::<Seq<LinkId>, RouteFault>(path), after),
    ensures
        leads(topo.graph.links(), path, src, dst),
        path.len() == 4,
        counted_on(v.loads, after.loads, path[1], path[2]),
        after.bindings == v.bindings.insert(flow_id, after.bindings[flow_id]),
        after.bindings[flow_id].path == path,
        after.bindings[flow_id].links == seq![path[1], path[2]],
        after.bindings[flow_id].spine is Some,
        ({
            let a = rail_of(topo.size(), src as int);
            let b = rail_of(topo.size(), dst as int);
            let s = after.bindings[flow_id].spine->0;
            &&& s < topo.num_spines
            &&& path[1] == topo.up_id(a, s as int)
            &&& path[2] == topo.down_id(b, s as int)
            &&& lighter_spines(cfg, topo, v.loads, a, b, s as int).len() < cfg.k
        }),
{
    let size = topo.size();
    let a = rail_of(size, src as int);
    let b = rail_of(size, dst as int);
    let choice = eligible(cfg, topo, v.loads, a, b, Seq::empty());
    let job = crate::spine::sglb::job_of(waiting, flow_id);
    lemma_chosen_spine(cfg, topo, v.loads, a, b, src, dst, job);
    let s = chosen_spine(cfg, choice, src, dst, job);
    lemma_rail_route_leads(size, src as int, dst as int, s as int);
    assert(path == rail_route(size, src as int, dst as int, s as int));
    assert(size.block_of(src as int) != size.block_of(dst as int));
    assert(path[1] != path[2]);
    assert(after.bindings[flow_id].links =~= seq![path[1], path[2]]);
    assert(count_of(v.loads, path[1]) < usize::MAX && count_of(v.loads, path[2]) < usize::MAX);
    assert forall|l: LinkId| #[trigger] count_of(after.loads, l) == count_of(v.loads, l) + if l == path[1] || l == path[2] {
        1int
    } else {
        0int
    } by {
        lemma_two_raised(v.loads, path[1], path[2], l);
    }
    assert(after.bindings =~= v.bindings.insert(flow_id, after.bindings[flow_id]));
    assert(lighter_spines(cfg, topo, v.loads, a, b, s as int).len() < cfg.k);
}

/// A spine carries nothing between two switches.
pub open spec fn is_idle<L: SpineLayer>(layer: L, loads: Map<LinkId, usize>, src: int, dst: int, spine: int) -> bool {
    count_of(loads, layer.up_id(src, spine)) == 0 && count_of(loads, layer.down_id(dst, spine)) == 0
}

/// Both weights count.
pub open spec fn weights_count(cfg: SGLBConfig) -> bool {
    cfg.w1.num > 0 && cfg.w1.den > 0 && cfg.w2.num > 0 && cfg.w2.den > 0
}

/// If a flow takes a spine that carries the least while some spine carries nothing, it takes one that carries
/// nothing.
proof fn lemma_takes_idle<L: SpineLayer>(
    cfg: SGLBConfig,
    layer: L,
    loads: Map<LinkId, usize>,
    src: int,
    dst: int,
    spine: usize,
    idle: usize,
)
    requires
        cfg.k == 1,
        weights_count(cfg),
        spine < layer.spines(),
        idle < layer.spines(),
        is_idle(layer, loads, src, dst, idle as int),
        lighter_spines(cfg, layer, loads, src, dst, spine as int).len() < 1,
        lighter_spines(cfg, layer, loads, src, dst, spine as int).finite(),
    ensures
        is_idle(layer, loads, src, dst, spine as int),
{
    let lighter = lighter_spines(cfg, layer, loads, src, dst, spine as int);
    vstd::set_lib::lemma_set_empty_equivalency_len(lighter);
    assert(!lighter.contains(idle));
    let u = count_of(loads, layer.up_id(src, spine as int)) as int;
    let d = count_of(loads, layer.down_id(dst, spine as int)) as int;
    let p = cfg.w1.num * cfg.w2.den;
    let q = cfg.w2.num * cfg.w1.den;
    assert(p > 0 && q > 0) by (nonlinear_arith)
        requires
            p == cfg.w1.num * cfg.w2.den,
            q == cfg.w2.num * cfg.w1.den,
            cfg.w1.num > 0,
            cfg.w1.den > 0,
            cfg.w2.num > 0,
            cfg.w2.den > 0,
    ;
    assert(spine_load(cfg, layer, loads, src, dst, idle as int) == 0) by {
        assert(p * 0 == 0 && q * 0 == 0);
    }
    assert(p * u + q * d <= 0);
    assert(u == 0 && d == 0) by (nonlinear_arith)
        requires
            p > 0,
            q > 0,
            u >= 0,
            d >= 0,
            p * u + q * d <= 0,
    ;
}

/// Where a flow may choose one spine only, two flows that follow each other between the same leaves take
/// different spines if two carry nothing.
pub proof fn lemma_next_flow_elsewhere(
    cfg: SGLBConfig,
    topo: SpineTree,
    v: BalancerView,
    waiting: Map<FlowId, WaitingFlow>,
    first: (usize, usize, FlowId),
    second: (usize, usize, FlowId),
    one: usize,
    two: usize,
    p: Seq<LinkId>,
    q: Seq<LinkId>,
    mid: BalancerView,
    end: BalancerView,
)
    requires
        topo.wf(),
        cfg.k == 1,
        weights_count(cfg),
        can_count(v.loads),
        can_count(mid.loads),
        first.0 < topo.size().hosts() && first.1 < topo.size().hosts(),
        second.0 < topo.size().hosts() && second.1 < topo.size().hosts(),
        leaf_number(topo.size(), first.0 as int) == leaf_number(topo.size(), second.0 as int),
        leaf_number(topo.size(), first.1 as int) == leaf_number(topo.size(), second.1 as int),
        leaf_number(topo.size(), first.0 as int) != leaf_number(topo.size(), first.1 as int),
        one < topo.num_spines && two < topo.num_spines && one != two,
        is_idle(
            topo,
            v.loads,
            leaf_number(topo.size(), first.0 as int),
            leaf_number(topo.size(), first.1 as int),
            one as int,
        ),
        is_idle(
            topo,
            v.loads,
            leaf_number(topo.size(), first.0 as int),
            leaf_number(topo.size(), first.1 as int),
            two as int,
        ),
        balanced_route(cfg, topo, v, waiting, first.0, first.1, first.2) == (Ok::<Seq<LinkId>, RouteFault>(p), mid),
        balanced_route(cfg, topo, mid, waiting, second.0, second.1, second.2) == (
            Ok::<Seq<LinkId>, RouteFault>(q),
            end,
        ),
    ensures
        p[1] != q[1],
        p[2] != q[2],
        mid.bindings[first.2].spine != end.bindings[second.2].spine,
{
    let size = topo.size();
    let a = leaf_number(size, first.0 as int);
    let b = leaf_number(size, first.1 as int);
    lemma_balanced_flow(cfg, topo, v, waiting, first.0, first.1, first.2, p, mid);
    lemma_balanced_flow(cfg, topo, mid, waiting, second.0, second.1, second.2, q, end);
    lemma_host_links(size, first.0 as int);
    lemma_host_links(size, first.1 as int);
    let s = mid.bindings[first.2].spine->0;
    let t = end.bindings[second.2].spine->0;
    lemma_chosen_spine(cfg, topo, v.loads, a, b, first.0, first.1, crate::spine::sglb::job_of(waiting, first.2));
    lemma_chosen_spine(cfg, topo, mid.loads, a, b, second.0, second.1, crate::spine::sglb::job_of(waiting, second.2));
    assert(count_of(mid.loads, p[1]) == count_of(v.loads, p[1]) + 1);
    // One of the two carries nothing still.
    let other = if s == one {
        two
    } else {
        one
    };
    lemma_links_apart(topo, a, b, s as int, other as int);
    assert(count_of(mid.loads, topo.up_id(a, other as int)) == count_of(v.loads, topo.up_id(a, other as int)));
    assert(count_of(mid.loads, topo.down_id(b, other as int)) == count_of(v.loads, topo.down_id(b, other as int)));
    assert(is_idle(topo, mid.loads, a, b, other as int));
    lemma_takes_idle(cfg, topo, mid.loads, a, b, t, other);
    assert(s != t);
    lemma_links_apart(topo, a, b, s as int, t as int);
}

/// Links over different spines differ, and so do links up and down.
proof fn lemma_links_apart(topo: SpineTree, a: int, b: int, s: int, t: int)
    requires
        topo.wf(),
        0 <= a < topo.num_leaves,
        0 <= b < topo.num_leaves,
        0 <= s < topo.num_spines,
        0 <= t < topo.num_spines,
        s != t,
    ensures
        topo.up_id(a, s) != topo.up_id(a, t),
        topo.down_id(b, s) != topo.down_id(b, t),
        topo.up_id(a, s) != topo.down_id(b, t),
        topo.down_id(b, s) != topo.up_id(a, t),
{
    lemma_up_link_bound(topo, a, s);
    lemma_up_link_bound(topo, a, t);
    lemma_up_link_bound(topo, b, s);
    lemma_up_link_bound(topo, b, t);
}

proof fn lemma_up_link_bound(topo: SpineTree, a: int, s: int)
    requires
        topo.wf(),
        0 <= a < topo.num_leaves,
        0 <= s < topo.num_spines,
    ensures
        0 <= topo.size().up_link(a, s) < topo.size().links() - 1,
        topo.size().up_link(a, s) % 2 == 0,
{
    let (n, m) = (topo.num_spines as int, topo.num_leaves as int);
    assert(0 <= a * n + s && a * n + s < m * n) by (nonlinear_arith)
        requires
            0 <= a < m,
            0 <= s < n,
    ;
}

/// A flow that has gone is no longer counted on its links, and the others are counted as before.
pub proof fn lemma_gone_flow(v: BalancerView, f: FlowId, up: LinkId, down: LinkId, l: LinkId)
    requires
        v.bindings.contains_key(f),
        v.bindings[f].links == seq![up, down],
        up != down,
        count_of(v.loads, up) > 0,
        count_of(v.loads, down) > 0,
    ensures
        !released(v, f).bindings.contains_key(f),
        forall|g: FlowId| #[trigger]
            v.bindings.contains_key(g) && g != f ==> released(v, f).bindings.contains_key(g) && released(v, f).bindings[g]
                == v.bindings[g],
        count_of(released(v, f).loads, l) == count_of(v.loads, l) - if l == up || l == down {
            1int
        } else {
            0int
        },
{
    reveal_with_fuel(lowered_all, 3);
    assert(v.bindings[f].links.len() == 2);
}

/// A flow that moves goes over a spine than which fewer than `k` carry less once the flow is taken off its own
/// links. It stays between the same switches, its route is the same but for the links to and from the spine,
/// and it is counted on those. The other flows stay where they are.
pub proof fn lemma_moved_flow<L: SpineLayer>(cfg: SGLBConfig, layer: L, v: BalancerView, f: FlowId)
    requires
        layer.spines() <= usize::MAX,
        layer.spines() > 0,
        cfg.k > 0,
        v.bindings.contains_key(f),
        v.bindings[f].path.len() >= 3,
        v.bindings[f].spine matches Some(s) && v.bindings[f].path[1] == layer.up_id(v.bindings[f].src as int, s as int)
            && v.bindings[f].path[2] == layer.down_id(v.bindings[f].dst as int, s as int),
        v.bindings[f].links == seq![v.bindings[f].path[1], v.bindings[f].path[2]],
    ensures
        ({
            let after = moved(cfg, layer, v, f);
            let b = v.bindings[f];
            let c = after.bindings[f];
            let freed = released(v, f).loads;
            &&& after.bindings == v.bindings.insert(f, c)
            &&& c.src == b.src && c.dst == b.dst
            &&& c.path.len() == b.path.len()
            &&& forall|i: int| 0 <= i < b.path.len() && i != 1 && i != 2 ==> #[trigger] c.path[i] == b.path[i]
            &&& c.links == seq![c.path[1], c.path[2]]
            &&& after.loads == raised_all(freed, seq![c.path[1], c.path[2]], 2)
            &&& c.spine matches Some(s) && s < layer.spines() && c.path[1] == layer.up_id(c.src as int, s as int)
                && c.path[2] == layer.down_id(c.dst as int, s as int) && lighter_spines(
                cfg,
                layer,
                freed,
                c.src as int,
                c.dst as int,
                s as int,
            ).len() < cfg.k
        }),
{
    let b = v.bindings[f];
    let freed = lowered_all(v.loads, b.links, b.links.len());
    assert(released(v, f).loads == freed);
    let choice = eligible(cfg, layer, freed, b.src as int, b.dst as int, Seq::empty());
    lemma_least_loaded(spine_scores(cfg, layer, freed, b.src as int, b.dst as int, Seq::empty()), cfg.k as nat);
    let h = move_hash(cfg, f, b.src, b.dst);
    let i = pick(h, choice.len()) as int;
    assert(0 <= i < choice.len());
    lemma_eligible_spine(cfg, layer, freed, b.src as int, b.dst as int, i);
    let s = choice[i];
    let after = moved(cfg, layer, v, f);
    if b.spine == Some(s) {
        assert(v.bindings =~= v.bindings.insert(f, b));
    } else {
        let up = layer.up_id(b.src as int, s as int);
        let down = layer.down_id(b.dst as int, s as int);
        assert(rerouted(b.path, up, down)[1] == up);
        assert(rerouted(b.path, up, down)[2] == down);
        assert(after.bindings[f].links =~= seq![up, down]);
    }
}

/// What a spine carries between two switches, without some links.
pub open spec fn load_without<L: SpineLayer>(
    cfg: SGLBConfig,
    layer: L,
    loads: Map<LinkId, usize>,
    src: int,
    dst: int,
    out: Seq<LinkId>,
    spine: int,
) -> int {
    weighed(cfg, count_without(loads, layer.up_id(src, spine), out), count_without(loads, layer.down_id(dst, spine), out))
}

/// The other spines that carry no more than the spine of a binding.
pub open spec fn rivals<L: SpineLayer>(
    cfg: SGLBConfig,
    layer: L,
    loads: Map<LinkId, usize>,
    b: BindingView,
    out: Seq<LinkId>,
) -> Set<usize> {
    Set::new(
        |t: usize|
            t < layer.spines() && b.spine != Some(t) && load_without(
                cfg,
                layer,
                loads,
                b.src as int,
                b.dst as int,
                out,
                t as int,
            ) <= load_without(cfg, layer, loads, b.src as int, b.dst as int, out, b.spine->0 as int),
    )
}

proof fn lemma_stays<L: SpineLayer>(cfg: SGLBConfig, layer: L, v: BalancerView, own: bool, f: FlowId)
    requires
        layer.spines() <= usize::MAX,
        v.bindings[f].spine is None || {
            let b = v.bindings[f];
            let out = if own {
                b.links
            } else {
                Seq::empty()
            };
            b.spine->0 < layer.spines() && rivals(cfg, layer, v.loads, b, out).len() < cfg.k
        },
    ensures
        !strays(cfg, layer, v, own, f),
{
    let b = v.bindings[f];
    if let Some(s) = b.spine {
        let out = if own {
            b.links
        } else {
            Seq::empty()
        };
        let scores = spine_scores(cfg, layer, v.loads, b.src as int, b.dst as int, out);
        let top = eligible(cfg, layer, v.loads, b.src as int, b.dst as int, out);
        let others = rivals(cfg, layer, v.loads, b, out);
        lemma_least_loaded(scores, cfg.k as nat);
        top.unique_seq_to_set();
        let range = vstd::set_lib::set_int_range(0, layer.spines() as int);
        vstd::set_lib::lemma_int_range(0, layer.spines() as int);
        let number = |x: int| x as usize;
        range.lemma_map_finite(number);
        let all = range.map(number);
        assert forall|t: usize| t < layer.spines() implies all.contains(t) by {
            assert(range.contains(t as int) && number(t as int) == t);
        }
        assert(others.subset_of(all));
        vstd::set_lib::lemma_set_subset_finite(all, others);
        if !top.contains(s) {
            assert(top.to_set().subset_of(others)) by {
                assert forall|t: usize| top.to_set().contains(t) implies others.contains(t) by {
                    let i = choose|i: int| 0 <= i < top.len() && top[i] == t;
                    assert(scores[top[i] as int] <= scores[s as int]);
                }
            }
            vstd::set_lib::lemma_len_subset(top.to_set(), others);
            if top.len() < cfg.k {
                vstd::set_lib::lemma_len_subset(others.insert(s), all);
                lemma_map_size(range, number);
                assert(others.insert(s).len() == others.len() + 1);
            }
        }
    }
}

proof fn lemma_map_size(s: Set<int>, f: spec_fn(int) -> usize)
    requires
        s.finite(),
    ensures
        s.map(f).len() <= s.len(),
    decreases s.len(),
{
    if s.len() == 0 {
        assert(s.map(f) =~= Set::empty()) by {
            assert(s =~= Set::empty());
        }
    } else {
        let x = s.choose();
        lemma_map_size(s.remove(x), f);
        s.remove(x).lemma_map_finite(f);
        assert(s.map(f) =~= s.remove(x).map(f).insert(f(x))) by {
            assert forall|y: usize| s.map(f).contains(y) == s.remove(x).map(f).insert(f(x)).contains(y) by {
                if s.map(f).contains(y) {
                    let z = choose|z: int| s.contains(z) && f(z) == y;
                    if z != x {
                        assert(s.remove(x).contains(z));
                    }
                }
                if s.remove(x).map(f).contains(y) {
                    let z = choose|z: int| s.remove(x).contains(z) && f(z) == y;
                    assert(s.contains(z));
                }
                assert(s.contains(x));
            }
        }
    }
}

proof fn lemma_all_moved<L: SpineLayer>(cfg: SGLBConfig, layer: L, v: BalancerView, list: Seq<FlowId>, n: nat)
    requires
        n <= list.len(),
        forall|i: int| 0 <= i < list.len() ==> v.bindings.contains_key(#[trigger] list[i]),
    ensures
        ({
            let after = all_moved(cfg, layer, v, list, n);
            &&& after.bindings.dom() == v.bindings.dom()
            &&& forall|f: FlowId|
                #[trigger] v.bindings.contains_key(f) ==> after.bindings[f].src == v.bindings[f].src && after.bindings[f].dst
                    == v.bindings[f].dst
            &&& forall|f: FlowId|
                #[trigger] v.bindings.contains_key(f) && !list.contains(f) ==> after.bindings[f] == v.bindings[f]
        }),
    decreases n,
{
    if n > 0 {
        lemma_all_moved(cfg, layer, v, list, (n - 1) as nat);
        assert(list.contains(list[n - 1]));
        assert(v.bindings.contains_key(list[n - 1]));
        assert(all_moved(cfg, layer, v, list, n).bindings.dom() =~= v.bindings.dom());
    }
}

proof fn lemma_strayed<L: SpineLayer>(
    cfg: SGLBConfig,
    layer: L,
    v: BalancerView,
    own: bool,
    ids: Seq<FlowId>,
    n: nat,
    f: FlowId,
)
    requires
        n <= ids.len(),
        strayed(cfg, layer, v, own, ids, n).contains(f),
    ensures
        strays(cfg, layer, v, own, f),
        ids.contains(f),
    decreases n,
{
    if n > 0 {
        let list = strayed(cfg, layer, v, own, ids, n);
        let rest = strayed(cfg, layer, v, own, ids, (n - 1) as nat);
        let i = choose|i: int| 0 <= i < list.len() && list[i] == f;
        if i < rest.len() {
            assert(rest[i] == f);
            lemma_strayed(cfg, layer, v, own, ids, (n - 1) as nat, f);
        } else {
            assert(ids[n - 1] == f);
        }
    }
}

/// When flows choose anew, all stay between their switches, and none is lost or added. A flow keeps its spine and its
/// route if fewer than `k` other spines carry no more than its own, or if it goes over none. If `own` is set, what the
/// flow carries itself does not count.
pub proof fn lemma_flows_stay<L: SpineLayer>(cfg: SGLBConfig, layer: L, v: BalancerView, own: bool)
    requires
        layer.spines() <= usize::MAX,
        v.bindings.dom().finite(),
    ensures
        ({
            let after = remapped(cfg, layer, v, own);
            &&& after.bindings.dom() == v.bindings.dom()
            &&& forall|f: FlowId|
                #[trigger] v.bindings.contains_key(f) ==> after.bindings[f].src == v.bindings[f].src && after.bindings[f].dst
                    == v.bindings[f].dst
            &&& forall|f: FlowId|
                #[trigger] v.bindings.contains_key(f) && (v.bindings[f].spine is None || (v.bindings[f].spine->0
                    < layer.spines() && rivals(
                    cfg,
                    layer,
                    v.loads,
                    v.bindings[f],
                    if own {
                        v.bindings[f].links
                    } else {
                        Seq::empty()
                    },
                ).len() < cfg.k)) ==> after.bindings[f] == v.bindings[f]
        }),
{
    let ids = ascending(v.bindings.dom());
    let list = strayed(cfg, layer, v, own, ids, ids.len());
    lemma_ascending_lists(v.bindings.dom());
    assert forall|i: int| 0 <= i < list.len() implies v.bindings.contains_key(#[trigger] list[i]) by {
        assert(list.contains(list[i]));
        lemma_strayed(cfg, layer, v, own, ids, ids.len(), list[i]);
        assert(ids.to_set().contains(list[i]));
    }
    lemma_all_moved(cfg, layer, v, list, list.len());
    assert forall|f: FlowId|
        #[trigger] v.bindings.contains_key(f) && (v.bindings[f].spine is None || (v.bindings[f].spine->0 < layer.spines()
            && rivals(
            cfg,
            layer,
            v.loads,
            v.bindings[f],
            if own {
                v.bindings[f].links
            } else {
                Seq::empty()
            },
        ).len() < cfg.k)) implies remapped(cfg, layer, v, own).bindings[f] == v.bindings[f] by {
        lemma_stays(cfg, layer, v, own, f);
        if list.contains(f) {
            lemma_strayed(cfg, layer, v, own, ids, ids.len(), f);
        }
    }
}

} // verus!
