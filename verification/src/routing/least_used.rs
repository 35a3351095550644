//! Each route is one whose busiest link is used the least by the routes before it.

use vstd::prelude::*;
use vstd::seq_lib::group_seq_properties;

use crate::network::graph::LinkId;
use crate::rail::crux::{all_reachable, best_rail_way, rail_plan, rail_ways, with_rail_flow, RailPlan};
use crate::rail::topology::RailSize;
use crate::routing::balance::occurrences;
use crate::routing::crux::{best_way, routed_flows, routes_exist, way, way_count, ways};
use crate::routing::fat_tree::FatTreeView;
use crate::routing::intensity::{by_key, with_flow};
use crate::routing::job_flows::HostFlow;
use crate::routing::load::{best_path, count_of, lemma_best_path, path_score, raised_all};
use crate::routing::walks::{lemma_rail_route_leads, leads};
use crate::simulator::ml_worker::FlowId;

verus! {

/// No link of the one path is used more than some link of the other: the busiest link of the one is used no
/// more than the busiest of the other.
pub open spec fn no_busier(used: spec_fn(LinkId) -> nat, path: Seq<LinkId>, other: Seq<LinkId>) -> bool {
    forall|l: LinkId| #[trigger]
        path.contains(l) ==> exists|m: LinkId| #[trigger] other.contains(m) && used(l) <= used(m)
}

proof fn lemma_score_covers(loads: Map<LinkId, usize>, path: Seq<LinkId>, n: nat, i: int)
    requires
        0 <= i < n <= path.len(),
    ensures
        count_of(loads, path[i]) <= path_score(loads, path, n),
    decreases n,
{
    if i < n - 1 {
        lemma_score_covers(loads, path, (n - 1) as nat, i);
    }
}

proof fn lemma_score_met(loads: Map<LinkId, usize>, path: Seq<LinkId>, n: nat) -> (i: int)
    requires
        0 < n <= path.len(),
    ensures
        0 <= i < n,
        count_of(loads, path[i]) == path_score(loads, path, n),
    decreases n,
{
    if n == 1 {
        reveal_with_fuel(path_score, 2);
        0
    } else {
        let j = lemma_score_met(loads, path, (n - 1) as nat);
        if count_of(loads, path[n - 1]) > path_score(loads, path, (n - 1) as nat) {
            n - 1
        } else {
            j
        }
    }
}

/// The path that is found to carry the least is no busier than any other.
pub proof fn lemma_best_no_busier(
    loads: Map<LinkId, usize>,
    used: spec_fn(LinkId) -> nat,
    all: Seq<Seq<LinkId>>,
    w: int,
)
    requires
        forall|l: LinkId| #[trigger] count_of(loads, l) == used(l),
        0 <= w < all.len(),
        all[w].len() > 0,
    ensures
        0 <= best_path(loads, all, all.len()) < all.len(),
        no_busier(used, all[best_path(loads, all, all.len())], all[w]),
{
    lemma_best_path(loads, all, all.len());
    let b = best_path(loads, all, all.len());
    let path = all[b];
    let other = all[w];
    assert forall|l: LinkId| #[trigger] path.contains(l) implies exists|m: LinkId| #[trigger]
        other.contains(m) && used(l) <= used(m) by {
        let i = choose|i: int| 0 <= i < path.len() && path[i] == l;
        lemma_score_covers(loads, path, path.len(), i);
        let j = lemma_score_met(loads, other, other.len());
        assert(path_score(loads, all[b], all[b].len()) <= path_score(loads, all[w], all[w].len()));
        assert(count_of(loads, l) == used(l));
        assert(count_of(loads, other[j]) == used(other[j]));
        assert(other.contains(other[j]) && used(l) <= used(other[j]));
    }
}

/// The routes between these hosts that hold a link.
pub open spec fn holders(pairs: Map<(usize, usize), Seq<LinkId>>, l: LinkId) -> Set<(usize, usize)> {
    pairs.dom().filter(|p: (usize, usize)| pairs[p].contains(l))
}

proof fn lemma_raised_once(loads: Map<LinkId, usize>, path: Seq<LinkId>, n: nat, l: LinkId)
    requires
        n <= path.len(),
        path.no_duplicates(),
        forall|x: LinkId| #[trigger] count_of(loads, x) < usize::MAX,
    ensures
        count_of(raised_all(loads, path, n), l) == count_of(loads, l) + if path.take(n as int).contains(l) {
            1int
        } else {
            0int
        },
    decreases n,
{
    if n > 0 {
        let x = path[n - 1];
        lemma_raised_once(loads, path, (n - 1) as nat, l);
        lemma_raised_once(loads, path, (n - 1) as nat, x);
        assert(count_of(loads, x) < usize::MAX);
        let before = path.take(n - 1);
        let after = path.take(n as int);
        assert(!before.contains(x)) by {
            if before.contains(x) {
                let i = choose|i: int| 0 <= i < before.len() && before[i] == x;
                assert(path[i] == path[n - 1]);
            }
        }
        assert(after.contains(l) == (before.contains(l) || l == x)) by {
            assert(after[n - 1] == x);
            if before.contains(l) {
                let i = choose|i: int| 0 <= i < before.len() && before[i] == l;
                assert(after[i] == l);
            }
            if after.contains(l) && l != x {
                let i = choose|i: int| 0 <= i < after.len() && after[i] == l;
                assert(before[i] == l);
            }
        }
    } else {
        assert(!path.take(0).contains(l));
    }
}

/// The loads are the numbers of routes between hosts that hold the links.
spec fn is_tallied(p: RailPlan, n: nat) -> bool {
    &&& p.pairs.dom().finite()
    &&& p.pairs.dom().len() <= n
    &&& forall|l: LinkId| #[trigger] count_of(p.loads, l) == holders(p.pairs, l).len()
}

proof fn lemma_plan_tallied(s: RailSize, flows: Seq<HostFlow>, n: nat)
    requires
        s.fits(),
        n <= flows.len() <= usize::MAX,
        all_reachable(s, flows, n),
    ensures
        is_tallied(rail_plan(s, flows, n), n),
    decreases n,
{
    if n == 0 {
        let p = rail_plan(s, flows, 0);
        assert(p.pairs.dom() =~= Set::<(usize, usize)>::empty());
        assert forall|l: LinkId| #[trigger] count_of(p.loads, l) == holders(p.pairs, l).len() by {
            assert(holders(p.pairs, l) =~= Set::<(usize, usize)>::empty());
        }
    } else {
        lemma_plan_tallied(s, flows, (n - 1) as nat);
        let before = rail_plan(s, flows, (n - 1) as nat);
        let after = rail_plan(s, flows, n);
        let f = flows[n - 1];
        let pair = (f.src_host, f.dst_host);
        if !before.pairs.contains_key(pair) {
            let path = best_rail_way(before.loads, s, f.src_host as int, f.dst_host as int);
            lemma_best_rail_way(before.loads, s, f.src_host as int, f.dst_host as int);
            assert(after.pairs.dom() =~= before.pairs.dom().insert(pair));
            assert forall|x: LinkId| #[trigger] count_of(before.loads, x) < usize::MAX by {
                vstd::set_lib::lemma_len_subset(holders(before.pairs, x), before.pairs.dom());
            }
            assert forall|l: LinkId| #[trigger] count_of(after.loads, l) == holders(after.pairs, l).len() by {
                assert(count_of(before.loads, l) == holders(before.pairs, l).len());
                lemma_raised_once(before.loads, path, path.len(), l);
                assert(path.take(path.len() as int) =~= path);
                if path.contains(l) {
                    assert(holders(after.pairs, l) =~= holders(before.pairs, l).insert(pair));
                } else {
                    assert(holders(after.pairs, l) =~= holders(before.pairs, l));
                }
                vstd::set_lib::lemma_len_subset(holders(before.pairs, l), before.pairs.dom());
            }
        } else {
            assert(after.pairs == before.pairs && after.loads == before.loads);
        }
    }
}

proof fn lemma_best_rail_way(loads: Map<LinkId, usize>, s: RailSize, src: int, dst: int)
    requires
        s.fits(),
        crate::rail::crux::rail_reachable(s, src, dst),
    ensures
        best_rail_way(loads, s, src, dst).no_duplicates(),
        leads(s.all_links(), best_rail_way(loads, s, src, dst), src as usize, dst as usize),
        rail_ways(s, src, dst).contains(best_rail_way(loads, s, src, dst)),
        forall|w: int| 0 <= w < rail_ways(s, src, dst).len() ==> (#[trigger] rail_ways(s, src, dst)[w]).len() > 0,
{
    let all = rail_ways(s, src, dst);
    lemma_best_path(loads, all, all.len());
    assert forall|w: int| 0 <= w < all.len() implies (#[trigger] all[w]).len() > 0 && all[w].no_duplicates() && leads(
        s.all_links(),
        all[w],
        src as usize,
        dst as usize,
    ) by {
        lemma_rail_route_leads(s, src, dst, w);
        lemma_rail_route_leads(s, src, dst, 0);
    }
    assert(all.contains(all[best_path(loads, all, all.len())]));
}

/// The flow as the router knows it.
pub open spec fn route_key(f: HostFlow) -> (usize, usize) {
    (f.job_id, f.job_flow_idx)
}

/// The hosts that the flow is between.
pub open spec fn host_pair(f: HostFlow) -> (usize, usize) {
    (f.src_host, f.dst_host)
}

/// The flows of jobs are all different.
pub open spec fn keys_differ(flows: Seq<HostFlow>) -> bool {
    forall|i: int, j: int|
        0 <= i < flows.len() && 0 <= j < flows.len() && i != j ==> route_key(#[trigger] flows[i]) != route_key(
            #[trigger] flows[j],
        )
}

/// The hosts between which one of the first `n` flows goes over the link.
pub open spec fn pairs_over(
    flows: Seq<HostFlow>,
    routes: Map<(usize, usize), Seq<LinkId>>,
    n: int,
    l: LinkId,
) -> Set<(usize, usize)> {
    Set::new(
        |p: (usize, usize)|
            exists|j: int| 0 <= j < n && host_pair(#[trigger] flows[j]) == p && routes[route_key(flows[j])].contains(l),
    )
}

/// How many routes between different hosts, among those of the first `n` flows, hold the link.
pub open spec fn routes_over(flows: Seq<HostFlow>, routes: Map<(usize, usize), Seq<LinkId>>, n: int) -> spec_fn(
    LinkId,
) -> nat {
    |l: LinkId| pairs_over(flows, routes, n, l).len()
}

/// The routes of the first flows stay as they are, and each is that of its hosts.
proof fn lemma_plan_routes(s: RailSize, flows: Seq<HostFlow>, n: nat, m: nat)
    requires
        n <= m <= flows.len(),
        keys_differ(flows),
    ensures
        forall|j: int|
            0 <= j < n ==> {
                let p = rail_plan(s, flows, n);
                let q = rail_plan(s, flows, m);
                let f = #[trigger] flows[j];
                &&& p.pairs.contains_key(host_pair(f))
                &&& q.pairs.contains_key(host_pair(f))
                &&& q.pairs[host_pair(f)] == p.pairs[host_pair(f)]
                &&& q.routes.contains_key(route_key(f))
                &&& q.routes[route_key(f)] == p.pairs[host_pair(f)]
            },
        forall|x: (usize, usize)| #[trigger]
            rail_plan(s, flows, n).pairs.contains_key(x) ==> exists|j: int| 0 <= j < n && host_pair(#[trigger] flows[j]) == x,
    decreases m, n,
{
    if n < m {
        lemma_plan_routes(s, flows, n, (m - 1) as nat);
        let p = rail_plan(s, flows, n);
        let r = rail_plan(s, flows, (m - 1) as nat);
        let q = rail_plan(s, flows, m);
        assert forall|j: int| 0 <= j < n implies ({
            let f = #[trigger] flows[j];
            &&& p.pairs.contains_key(host_pair(f))
            &&& q.pairs.contains_key(host_pair(f))
            &&& q.pairs[host_pair(f)] == p.pairs[host_pair(f)]
            &&& q.routes.contains_key(route_key(f))
            &&& q.routes[route_key(f)] == p.pairs[host_pair(f)]
        }) by {
            let f = flows[j];
            assert(r.pairs.contains_key(host_pair(f)));
            assert(route_key(flows[j]) != route_key(flows[m - 1]));
        }
    } else if n > 0 {
        lemma_plan_routes(s, flows, (n - 1) as nat, (n - 1) as nat);
        let r = rail_plan(s, flows, (n - 1) as nat);
        let q = rail_plan(s, flows, n);
        assert forall|j: int| 0 <= j < n implies ({
            let f = #[trigger] flows[j];
            &&& q.pairs.contains_key(host_pair(f))
            &&& q.routes.contains_key(route_key(f))
            &&& q.routes[route_key(f)] == q.pairs[host_pair(f)]
        }) by {
            let f = flows[j];
            if j < n - 1 {
                assert(r.pairs.contains_key(host_pair(f)));
                assert(route_key(flows[j]) != route_key(flows[n - 1]));
            }
        }
        assert forall|x: (usize, usize)| #[trigger] q.pairs.contains_key(x) implies exists|j: int|
            0 <= j < n && host_pair(#[trigger] flows[j]) == x by {
            if r.pairs.contains_key(x) {
                let j = choose|j: int| 0 <= j < n - 1 && host_pair(#[trigger] flows[j]) == x;
                assert(host_pair(flows[j]) == x);
            } else {
                assert(host_pair(flows[n - 1]) == x);
            }
        }
    }
}

/// Routes in a rail network are set up one after the other. The route of a flow between hosts that no flow
/// before it is between leads from its source to its destination, and of all ways there it is one whose
/// busiest link is held by the fewest of the routes before it.
pub proof fn lemma_least_used_rail_route(s: RailSize, flows: Seq<HostFlow>, i: int, w: int)
    requires
        s.fits(),
        flows.len() <= usize::MAX,
        all_reachable(s, flows, flows.len()),
        keys_differ(flows),
        0 <= i < flows.len(),
        forall|j: int| 0 <= j < i ==> host_pair(#[trigger] flows[j]) != host_pair(flows[i]),
        0 <= w < rail_ways(s, flows[i].src_host as int, flows[i].dst_host as int).len(),
    ensures
        ({
            let routes = rail_plan(s, flows, flows.len()).routes;
            let f = flows[i];
            let all = rail_ways(s, f.src_host as int, f.dst_host as int);
            &&& routes.contains_key(route_key(f))
            &&& all.contains(routes[route_key(f)])
            &&& leads(s.all_links(), routes[route_key(f)], f.src_host, f.dst_host)
            &&& no_busier(routes_over(flows, routes, i), routes[route_key(f)], all[w])
        }),
{
    let routes = rail_plan(s, flows, flows.len()).routes;
    let f = flows[i];
    let all = rail_ways(s, f.src_host as int, f.dst_host as int);
    let p = rail_plan(s, flows, i as nat);
    let used = routes_over(flows, routes, i);
    assert(all_reachable(s, flows, i as nat)) by {
        assert forall|j: int| 0 <= j < i implies crate::rail::crux::rail_reachable(
            s,
            (#[trigger] flows[j]).src_host as int,
            flows[j].dst_host as int,
        ) by {}
    }
    lemma_plan_tallied(s, flows, i as nat);
    lemma_plan_routes(s, flows, i as nat, flows.len());
    lemma_plan_routes(s, flows, (i + 1) as nat, flows.len());
    assert(!p.pairs.contains_key(host_pair(f)));
    assert forall|l: LinkId| #[trigger] count_of(p.loads, l) == used(l) by {
        assert forall|x: (usize, usize)| holders(p.pairs, l).contains(x) == pairs_over(flows, routes, i, l).contains(x) by {
            if holders(p.pairs, l).contains(x) {
                assert(p.pairs.contains_key(x));
                let j = choose|j: int| 0 <= j < i && host_pair(#[trigger] flows[j]) == x;
                assert(routes[route_key(flows[j])] == p.pairs[x]);
            }
            if pairs_over(flows, routes, i, l).contains(x) {
                let j = choose|j: int|
                    0 <= j < i && host_pair(#[trigger] flows[j]) == x && routes[route_key(flows[j])].contains(l);
                assert(routes[route_key(flows[j])] == p.pairs[x]);
            }
        }
        assert(holders(p.pairs, l) =~= pairs_over(flows, routes, i, l));
        assert(count_of(p.loads, l) == holders(p.pairs, l).len());
    }
    assert(crate::rail::crux::rail_reachable(s, flows[i].src_host as int, flows[i].dst_host as int));
    lemma_best_rail_way(p.loads, s, f.src_host as int, f.dst_host as int);
    assert(all[w].len() > 0);
    lemma_best_no_busier(p.loads, used, all, w);
    let q = rail_plan(s, flows, (i + 1) as nat);
    assert(q == with_rail_flow(s, p, f));
    assert(q.pairs[host_pair(f)] == best_rail_way(p.loads, s, f.src_host as int, f.dst_host as int));
    assert(flows[i] == f);
}

/// Flows between the same hosts share their route.
pub proof fn lemma_shared_rail_route(s: RailSize, flows: Seq<HostFlow>, i: int, j: int)
    requires
        keys_differ(flows),
        0 <= i < flows.len(),
        0 <= j < flows.len(),
        host_pair(flows[i]) == host_pair(flows[j]),
    ensures
        ({
            let routes = rail_plan(s, flows, flows.len()).routes;
            &&& routes.contains_key(route_key(flows[i]))
            &&& routes.contains_key(route_key(flows[j]))
            &&& routes[route_key(flows[i])] == routes[route_key(flows[j])]
        }),
{
    lemma_plan_routes(s, flows, flows.len(), flows.len());
}

/// How often the routes of the first `n` flows hold the link.
pub open spec fn uses(order: Seq<FlowId>, routes: Map<FlowId, Seq<LinkId>>, n: nat, l: LinkId) -> nat
    decreases n,
{
    if n == 0 {
        0
    } else {
        uses(order, routes, (n - 1) as nat, l) + occurrences(routes[order[n - 1]], l, routes[order[n - 1]].len())
    }
}

proof fn lemma_raised_often(loads: Map<LinkId, usize>, path: Seq<LinkId>, n: nat, l: LinkId, room: nat)
    requires
        n <= path.len(),
        n <= room,
        forall|x: LinkId| #[trigger] count_of(loads, x) + room <= usize::MAX,
    ensures
        count_of(raised_all(loads, path, n), l) == count_of(loads, l) + occurrences(path, l, n),
        occurrences(path, l, n) <= n,
    decreases n,
{
    if n > 0 {
        lemma_raised_often(loads, path, (n - 1) as nat, l, room);
        lemma_raised_often(loads, path, (n - 1) as nat, path[n - 1], room);
        assert(count_of(loads, path[n - 1]) + room <= usize::MAX);
    }
}

/// The links of a way: at most six.
proof fn lemma_way_len(t: FatTreeView, src: int, dst: int, i: int)
    requires
        way(t, src, dst, i) is Some,
    ensures
        2 <= (way(t, src, dst, i)->0).len() <= 6,
{
    reveal_with_fuel(crate::network::graph::path_links, 8);
}

proof fn lemma_routed(
    t: FatTreeView,
    ends: Map<FlowId, (usize, usize)>,
    order: Seq<FlowId>,
    n: nat,
    m: nat,
)
    requires
        order.no_duplicates(),
        n <= m <= order.len(),
        routes_exist(t, ends, order, m),
        6 * order.len() <= usize::MAX,
    ensures
        forall|j: int|
            0 <= j < n ==> {
                &&& routed_flows(t, ends, order, m).1.contains_key(#[trigger] order[j])
                &&& routed_flows(t, ends, order, m).1[order[j]] == best_way(
                    routed_flows(t, ends, order, j as nat).0,
                    t,
                    ends[order[j]].0,
                    ends[order[j]].1,
                )->0
            },
    decreases m,
{
    if m > 0 {
        assert(routes_exist(t, ends, order, (m - 1) as nat)) by {
            assert forall|i: int| 0 <= i < m - 1 implies best_way(
                routed_flows(t, ends, order, i as nat).0,
                t,
                ends[#[trigger] order[i]].0,
                ends[order[i]].1,
            ) is Some by {}
        }
        let k = if n < m {
            n
        } else {
            (m - 1) as nat
        };
        lemma_routed(t, ends, order, k, (m - 1) as nat);
        let r = routed_flows(t, ends, order, (m - 1) as nat);
        let q = routed_flows(t, ends, order, m);
        assert forall|j: int| 0 <= j < n implies q.1.contains_key(#[trigger] order[j]) && q.1[order[j]] == best_way(
            routed_flows(t, ends, order, j as nat).0,
            t,
            ends[order[j]].0,
            ends[order[j]].1,
        )->0 by {
            if j < m - 1 {
                assert(order[j] != order[m - 1]);
                assert(r.1.contains_key(order[j]));
            }
        }
    }
}

proof fn lemma_loads_are_uses(
    t: FatTreeView,
    ends: Map<FlowId, (usize, usize)>,
    order: Seq<FlowId>,
    n: nat,
    routes: Map<FlowId, Seq<LinkId>>,
    l: LinkId,
)
    requires
        order.no_duplicates(),
        n <= order.len(),
        routes_exist(t, ends, order, order.len()),
        6 * order.len() <= usize::MAX,
        routes == routed_flows(t, ends, order, order.len()).1,
    ensures
        count_of(routed_flows(t, ends, order, n).0, l) == uses(order, routes, n, l),
        uses(order, routes, n, l) <= 6 * n,
    decreases n,
{
    if n > 0 {
        let r = routed_flows(t, ends, order, (n - 1) as nat);
        lemma_loads_are_uses(t, ends, order, (n - 1) as nat, routes, l);
        lemma_routed(t, ends, order, n, order.len());
        let f = order[n - 1];
        assert(best_way(r.0, t, ends[order[n - 1]].0, ends[order[n - 1]].1) is Some);
        let path = best_way(r.0, t, ends[f].0, ends[f].1)->0;
        assert(routes[order[n - 1]] == path);
        assert forall|x: LinkId| #[trigger] count_of(r.0, x) + 6 <= usize::MAX by {
            lemma_loads_are_uses(t, ends, order, (n - 1) as nat, routes, x);
        }
        let all = ways(t, ends[f].0 as int, ends[f].1 as int);
        lemma_best_path(r.0, all, all.len());
        let b = best_path(r.0, all, all.len());
        assert(way(t, ends[f].0 as int, ends[f].1 as int, b) is Some);
        lemma_way_len(t, ends[f].0 as int, ends[f].1 as int, b);
        lemma_raised_often(r.0, path, path.len(), l, 6);
    }
}

/// Routes in a fat tree are chosen one after the other: each is one of the ways between its hosts, and one
/// whose busiest link is held the least by the routes before it.
pub proof fn lemma_least_used_route(
    t: FatTreeView,
    ends: Map<FlowId, (usize, usize)>,
    order: Seq<FlowId>,
    i: int,
    w: int,
)
    requires
        order.no_duplicates(),
        6 * order.len() <= usize::MAX,
        routes_exist(t, ends, order, order.len()),
        0 <= i < order.len(),
        0 <= w < way_count(t, ends[order[i]].0 as int, ends[order[i]].1 as int),
    ensures
        ({
            let routes = routed_flows(t, ends, order, order.len()).1;
            let (src, dst) = ends[order[i]];
            &&& routes.contains_key(order[i])
            &&& exists|x: int|
                0 <= x < way_count(t, src as int, dst as int) && #[trigger] way(t, src as int, dst as int, x) == Some(
                    routes[order[i]],
                )
            &&& way(t, src as int, dst as int, w) is Some
            &&& no_busier(
                |l: LinkId| uses(order, routes, i as nat, l),
                routes[order[i]],
                way(t, src as int, dst as int, w)->0,
            )
        }),
{
    let routes = routed_flows(t, ends, order, order.len()).1;
    let (src, dst) = ends[order[i]];
    let loads = routed_flows(t, ends, order, i as nat).0;
    let used = |l: LinkId| uses(order, routes, i as nat, l);
    let all = ways(t, src as int, dst as int);
    lemma_routed(t, ends, order, (i + 1) as nat, order.len());
    assert(best_way(loads, t, ends[order[i]].0, ends[order[i]].1) is Some);
    assert forall|l: LinkId| #[trigger] count_of(loads, l) == used(l) by {
        lemma_loads_are_uses(t, ends, order, i as nat, routes, l);
    }
    assert(way(t, src as int, dst as int, w) is Some);
    lemma_way_len(t, src as int, dst as int, w);
    assert(all[w] == way(t, src as int, dst as int, w)->0);
    lemma_best_no_busier(loads, used, all, w);
    let b = best_path(loads, all, all.len());
    assert(way(t, src as int, dst as int, b) is Some);
    assert(all[b] == way(t, src as int, dst as int, b)->0);
    assert(routes[order[i]] == all[b]);
}

proof fn lemma_with_flow_order<F>(list: Seq<F>, keys: spec_fn(F) -> u64, f: F, k: u64)
    requires
        forall|i: int, j: int| 0 <= i < j < list.len() ==> keys(#[trigger] list[i]) >= keys(#[trigger] list[j]),
    ensures
        with_flow(list, keys, f).to_multiset() == list.to_multiset().insert(f),
        with_flow(list, keys, f).len() == list.len() + 1,
        forall|i: int, j: int|
            0 <= i < j < with_flow(list, keys, f).len() ==> keys(#[trigger] with_flow(list, keys, f)[i]) >= keys(
                #[trigger] with_flow(list, keys, f)[j],
            ),
        with_flow(list, keys, f).filter(|x: F| keys(x) == k) == if keys(f) == k {
            list.filter(|x: F| keys(x) == k).push(f)
        } else {
            list.filter(|x: F| keys(x) == k)
        },
        forall|i: int|
            0 <= i < with_flow(list, keys, f).len() ==> #[trigger] keys(with_flow(list, keys, f)[i]) <= if list.len() == 0
                || keys(f) > keys(list[0]) {
                keys(f)
            } else {
                keys(list[0])
            },
    decreases list.len(),
{
    broadcast use group_seq_properties;

    let p = |x: F| keys(x) == k;
    let w = with_flow(list, keys, f);
    if list.len() == 0 || keys(list.last()) >= keys(f) {
        lemma_filter_push(list, p, f);
        assert forall|i: int, j: int| 0 <= i < j < w.len() implies keys(#[trigger] w[i]) >= keys(#[trigger] w[j]) by {
            if j == list.len() && i < list.len() - 1 {
                assert(keys(list[i]) >= keys(list[list.len() - 1]));
            }
        }
        assert forall|i: int| 0 <= i < w.len() implies #[trigger] keys(w[i]) <= if list.len() == 0 || keys(f) > keys(
            list[0],
        ) {
            keys(f)
        } else {
            keys(list[0])
        } by {
            if 0 < i < list.len() {
                assert(keys(list[0]) >= keys(list[i]));
            }
        }
    } else {
        let rest = list.drop_last();
        let last = list.last();
        assert forall|i: int, j: int| 0 <= i < j < rest.len() implies keys(#[trigger] rest[i]) >= keys(
            #[trigger] rest[j],
        ) by {
            assert(keys(list[i]) >= keys(list[j]));
        }
        lemma_with_flow_order(rest, keys, f, k);
        let v = with_flow(rest, keys, f);
        assert(w == v.push(last));
        assert(list =~= rest.push(last));
        lemma_filter_push(v, p, last);
        lemma_filter_push(rest, p, last);
        assert(w.to_multiset() =~= list.to_multiset().insert(f)) by {
            assert(w.to_multiset() =~= v.to_multiset().insert(last));
            assert(list.to_multiset() =~= rest.to_multiset().insert(last));
        }
        assert forall|i: int| 0 <= i < v.len() implies keys(#[trigger] v[i]) >= keys(last) by {
            assert(v.to_multiset().contains(v[i]));
            assert((rest.to_multiset().insert(f)).contains(v[i]));
            if v[i] != f {
                assert(rest.to_multiset().contains(v[i]));
                assert(rest.contains(v[i]));
                let x = choose|x: int| 0 <= x < rest.len() && rest[x] == v[i];
                assert(keys(list[x]) >= keys(list[list.len() - 1]));
            }
        }
        if keys(f) == k && keys(last) == k {
            assert(false);
        }
        assert forall|i: int| 0 <= i < w.len() implies #[trigger] keys(w[i]) <= if list.len() == 0 || keys(f) > keys(
            list[0],
        ) {
            keys(f)
        } else {
            keys(list[0])
        } by {
            if list.len() > 1 {
                assert(rest[0] == list[0]);
                assert(keys(list[0]) >= keys(list[list.len() - 1]));
            }
        }
    }
}

proof fn lemma_filter_push<F>(list: Seq<F>, p: spec_fn(F) -> bool, f: F)
    ensures
        list.push(f).filter(p) == if p(f) {
            list.filter(p).push(f)
        } else {
            list.filter(p)
        },
{
    reveal(Seq::filter);
    assert(list.push(f).drop_last() =~= list);
}

/// The order in which routes are chosen: it holds the flows that are given, no more and no less; those with
/// larger keys come first, and those with the same key in the order in which they are given.
pub proof fn lemma_route_order<F>(flows: Seq<F>, keys: spec_fn(F) -> u64, n: nat, k: u64)
    requires
        n <= flows.len(),
    ensures
        by_key(flows, keys, n).to_multiset() == flows.take(n as int).to_multiset(),
        by_key(flows, keys, n).len() == n,
        forall|i: int, j: int|
            0 <= i < j < n ==> keys(#[trigger] by_key(flows, keys, n)[i]) >= keys(#[trigger] by_key(flows, keys, n)[j]),
        by_key(flows, keys, n).filter(|x: F| keys(x) == k) == flows.take(n as int).filter(|x: F| keys(x) == k),
    decreases n,
{
    broadcast use group_seq_properties;

    let p = |x: F| keys(x) == k;
    if n == 0 {
        assert(by_key(flows, keys, 0) =~= flows.take(0));
    } else {
        lemma_route_order(flows, keys, (n - 1) as nat, k);
        let list = by_key(flows, keys, (n - 1) as nat);
        lemma_with_flow_order(list, keys, flows[n - 1], k);
        lemma_filter_push(flows.take(n - 1), p, flows[n - 1]);
        assert(flows.take(n as int) =~= flows.take(n - 1).push(flows[n - 1]));
    }
}

} // verus!
