//! Routes lead from host to host.

use vstd::prelude::*;

use crate::network::graph::{connected, lemma_last_link, link_id, path_links, LinkId};
use crate::rail::routing::{fresh_rail_route, lemma_rail_route, rail_nodes, rail_route};
use crate::rail::topology::{lemma_gpu, lemma_gpu_node, lemma_rail, RailSize};
use crate::routing::crux::way;
use crate::routing::ecmp::{level_hash, multipath_route};
use crate::routing::fat_tree::{far_nodes, near_nodes, pod_nodes, FatTreeView};
use crate::simulator::context::WaitingFlow;
use crate::simulator::ml_worker::{FlowId, JobId};
use crate::spine::routing::{hashed_route, leaf_number, spine_route, traffic_hash};
use crate::spine::topology::{lemma_host_links, lemma_mesh_links, SpineSize};
use crate::utils::hash::pick;

verus! {

/// Link `i` of the path leads from node `i` to the next.
pub open spec fn is_walk(links: Seq<(usize, usize, usize)>, nodes: Seq<usize>, path: Seq<LinkId>) -> bool {
    &&& nodes.len() == path.len() + 1
    &&& forall|i: int| 0 <= i < path.len() ==> links.contains((nodes[i], nodes[i + 1], #[trigger] path[i]))
}

/// The path leads from one node to another, and passes no node twice.
pub open spec fn leads(links: Seq<(usize, usize, usize)>, path: Seq<LinkId>, from: usize, to: usize) -> bool {
    exists|nodes: Seq<usize>| #[trigger]
        is_walk(links, nodes, path) && nodes.no_duplicates() && nodes[0] == from && nodes[nodes.len() - 1] == to
}

/// A link has one identifier, which no other link has.
pub open spec fn are_distinct_links(links: Seq<(usize, usize, usize)>) -> bool {
    forall|i: int, j: int|
        0 <= i < links.len() && 0 <= j < links.len() && (#[trigger] links[i]).2 == (#[trigger] links[j]).2 ==> i == j
}

/// What is found as the link between two nodes leads from the one to the other.
pub proof fn lemma_link_leads(links: Seq<(usize, usize, usize)>, from: usize, to: usize, id: LinkId)
    requires
        links.len() <= usize::MAX,
        link_id(links, from, to) == Some(id),
    ensures
        links.contains((from, to, id)),
{
    lemma_last_link(links, from, to, links.len());
    let e = crate::network::graph::last_link(links, from, to, links.len())->0;
    assert(links[e as int] == (from, to, id));
}

proof fn lemma_path_link(links: Seq<(usize, usize, usize)>, nodes: Seq<usize>, n: nat, i: int)
    requires
        connected(links, nodes),
        1 <= n <= nodes.len(),
        links.len() <= usize::MAX,
    ensures
        path_links(links, nodes, n).len() == n - 1,
        0 <= i < n - 1 ==> links.contains((nodes[i], nodes[i + 1], path_links(links, nodes, n)[i])),
    decreases n,
{
    if n > 1 {
        lemma_path_link(links, nodes, (n - 1) as nat, i);
        if i == n - 2 {
            assert(link_id(links, nodes[i], nodes[i + 1]) is Some);
            lemma_link_leads(links, nodes[i], nodes[i + 1], link_id(links, nodes[i], nodes[i + 1])->0);
        }
    }
}

/// The links along nodes lead from the first to the last.
pub proof fn lemma_path_leads(links: Seq<(usize, usize, usize)>, nodes: Seq<usize>)
    requires
        connected(links, nodes),
        nodes.len() > 0,
        links.len() <= usize::MAX,
    ensures
        is_walk(links, nodes, path_links(links, nodes, nodes.len())),
{
    let path = path_links(links, nodes, nodes.len());
    lemma_path_link(links, nodes, nodes.len(), 0);
    assert forall|i: int| 0 <= i < path.len() implies links.contains((nodes[i], nodes[i + 1], #[trigger] path[i])) by {
        lemma_path_link(links, nodes, nodes.len(), i);
    }
}

/// A path that passes no node twice uses no link twice.
pub proof fn lemma_walk_links_differ(links: Seq<(usize, usize, usize)>, nodes: Seq<usize>, path: Seq<LinkId>)
    requires
        is_walk(links, nodes, path),
        nodes.no_duplicates(),
        are_distinct_links(links),
    ensures
        path.no_duplicates(),
{
    assert forall|i: int, j: int| 0 <= i < path.len() && 0 <= j < path.len() && i != j implies path[i] != path[j] by {
        if path[i] == path[j] {
            let a = (nodes[i], nodes[i + 1], path[i]);
            let b = (nodes[j], nodes[j + 1], path[j]);
            assert(links.contains(a) && links.contains(b));
            let x = choose|x: int| 0 <= x < links.len() && links[x] == a;
            let y = choose|y: int| 0 <= y < links.len() && links[y] == b;
            assert(links[x].2 == links[y].2);
            assert(nodes[i] == nodes[j]);
        }
    }
}

/// The links of a spine network differ.
pub proof fn lemma_spine_links_differ(s: SpineSize)
    requires
        s.fits(),
    ensures
        are_distinct_links(s.all_links()),
        s.all_links().len() <= usize::MAX,
{
}

/// The links of a rail network differ.
pub proof fn lemma_rail_links_differ(s: RailSize)
    requires
        s.fits(),
    ensures
        are_distinct_links(s.all_links()),
        s.all_links().len() <= usize::MAX,
{
}

/// The leaf of a host is a node of its own.
pub proof fn lemma_leaf(s: SpineSize, host: int)
    requires
        s.fits(),
        0 <= host < s.hosts(),
    ensures
        0 <= leaf_number(s, host) < s.num_leaves,
        s.leaf_of(host) == s.hosts() + leaf_number(s, host),
        s.leaf_of(host) == s.hosts() + host / s.hosts_per_leaf as int,
{
    lemma_host_links(s, host);
}

/// A way over a switch.
proof fn lemma_near_way(links: Seq<(usize, usize, usize)>, n: Seq<usize>, path: Seq<LinkId>)
    requires
        are_distinct_links(links),
        n.len() == 3,
        n.no_duplicates(),
        path.len() == 2,
        links.contains((n[0], n[1], path[0])),
        links.contains((n[1], n[2], path[1])),
    ensures
        is_walk(links, n, path),
        leads(links, path, n[0], n[2]),
        path.no_duplicates(),
{
    assert(is_walk(links, n, path));
    lemma_walk_links_differ(links, n, path);
}

/// A way over three switches.
proof fn lemma_far_way(links: Seq<(usize, usize, usize)>, n: Seq<usize>, path: Seq<LinkId>)
    requires
        are_distinct_links(links),
        n.len() == 5,
        n.no_duplicates(),
        path.len() == 4,
        links.contains((n[0], n[1], path[0])),
        links.contains((n[1], n[2], path[1])),
        links.contains((n[2], n[3], path[2])),
        links.contains((n[3], n[4], path[3])),
    ensures
        is_walk(links, n, path),
        leads(links, path, n[0], n[4]),
        path.no_duplicates(),
{
    assert(is_walk(links, n, path));
    lemma_walk_links_differ(links, n, path);
}

/// The links of a host, and those between its leaf and a spine.
proof fn lemma_way_up(s: SpineSize, host: int, spine: int)
    requires
        s.fits(),
        0 <= host < s.hosts(),
    ensures
        s.all_links().contains((host as usize, s.leaf_of(host) as usize, (2 * host) as usize)),
        s.all_links().contains((s.leaf_of(host) as usize, host as usize, (2 * host + 1) as usize)),
        0 <= spine < s.num_spines ==> s.all_links().contains(
            (
                s.leaf_of(host) as usize,
                (s.hosts() + s.num_leaves + spine) as usize,
                s.up_link(leaf_number(s, host), spine) as usize,
            ),
        ),
        0 <= spine < s.num_spines ==> s.all_links().contains(
            (
                (s.hosts() + s.num_leaves + spine) as usize,
                s.leaf_of(host) as usize,
                (s.up_link(leaf_number(s, host), spine) + 1) as usize,
            ),
        ),
{
    let links = s.all_links();
    let leaf = s.leaf_of(host) as usize;
    lemma_spine_links_differ(s);
    lemma_leaf(s, host);
    lemma_host_links(s, host);
    lemma_link_leads(links, host as usize, leaf, (2 * host) as usize);
    lemma_link_leads(links, leaf, host as usize, (2 * host + 1) as usize);
    if 0 <= spine < s.num_spines {
        let a = leaf_number(s, host);
        let top = (s.hosts() + s.num_leaves + spine) as usize;
        lemma_mesh_links(s, a, spine);
        lemma_link_leads(links, leaf, top, s.up_link(a, spine) as usize);
        lemma_link_leads(links, top, leaf, (s.up_link(a, spine) + 1) as usize);
    }
}

/// The route between two hosts of a spine network leads from the one to the other. It goes up to the leaf
/// of the source and down from the leaf of the destination; between them, where they differ, it goes over
/// the given spine.
pub proof fn lemma_spine_route_leads(s: SpineSize, src: int, dst: int, spine: int)
    requires
        s.fits(),
        0 <= src < s.hosts(),
        0 <= dst < s.hosts(),
        src != dst,
        leaf_number(s, src) != leaf_number(s, dst) ==> 0 <= spine < s.num_spines,
    ensures
        ({
            let route = spine_route(s, src, dst, spine);
            let up = s.leaf_of(src) as usize;
            let down = s.leaf_of(dst) as usize;
            let top = (s.hosts() + s.num_leaves + spine) as usize;
            &&& is_walk(
                s.all_links(),
                if up == down {
                    seq![src as usize, up, dst as usize]
                } else {
                    seq![src as usize, up, top, down, dst as usize]
                },
                route,
            )
            &&& leads(s.all_links(), route, src as usize, dst as usize)
            &&& route.no_duplicates()
        }),
{
    let up = s.leaf_of(src) as usize;
    let down = s.leaf_of(dst) as usize;
    lemma_leaf(s, src);
    lemma_leaf(s, dst);
    if leaf_number(s, src) == leaf_number(s, dst) {
        assert(is_walk(s.all_links(), seq![src as usize, up, dst as usize], spine_route(s, src, dst, spine)) && leads(
            s.all_links(),
            spine_route(s, src, dst, spine),
            src as usize,
            dst as usize,
        ) && spine_route(s, src, dst, spine).no_duplicates()) by {
            lemma_near_route(s, src, dst, spine);
        }
    } else {
        lemma_far_route(s, src, dst, spine);
    }
}

proof fn lemma_near_route(s: SpineSize, src: int, dst: int, spine: int)
    requires
        s.fits(),
        0 <= src < s.hosts(),
        0 <= dst < s.hosts(),
        src != dst,
        leaf_number(s, src) == leaf_number(s, dst),
    ensures
        is_walk(
            s.all_links(),
            seq![src as usize, s.leaf_of(src) as usize, dst as usize],
            spine_route(s, src, dst, spine),
        ),
        leads(s.all_links(), spine_route(s, src, dst, spine), src as usize, dst as usize),
        spine_route(s, src, dst, spine).no_duplicates(),
{
    lemma_spine_links_differ(s);
    lemma_leaf(s, src);
    lemma_leaf(s, dst);
    lemma_way_up(s, src, -1);
    lemma_way_up(s, dst, -1);
    let nodes = seq![src as usize, s.leaf_of(src) as usize, dst as usize];
    assert(nodes.no_duplicates());
    lemma_near_way(s.all_links(), nodes, spine_route(s, src, dst, spine));
}

proof fn lemma_far_route(s: SpineSize, src: int, dst: int, spine: int)
    requires
        s.fits(),
        0 <= src < s.hosts(),
        0 <= dst < s.hosts(),
        leaf_number(s, src) != leaf_number(s, dst),
        0 <= spine < s.num_spines,
    ensures
        is_walk(
            s.all_links(),
            seq![
                src as usize,
                s.leaf_of(src) as usize,
                (s.hosts() + s.num_leaves + spine) as usize,
                s.leaf_of(dst) as usize,
                dst as usize,
            ],
            spine_route(s, src, dst, spine),
        ),
        leads(s.all_links(), spine_route(s, src, dst, spine), src as usize, dst as usize),
        spine_route(s, src, dst, spine).no_duplicates(),
{
    let nodes = seq![
        src as usize,
        s.leaf_of(src) as usize,
        (s.hosts() + s.num_leaves + spine) as usize,
        s.leaf_of(dst) as usize,
        dst as usize,
    ];
    assert(nodes.no_duplicates()) by {
        lemma_leaf(s, src);
        lemma_leaf(s, dst);
    }
    lemma_spine_links_differ(s);
    lemma_way_up(s, src, spine);
    lemma_way_up(s, dst, spine);
    lemma_far_way(s.all_links(), nodes, spine_route(s, src, dst, spine));
}

/// The rail switch of a GPU is a node of its own, and GPUs in different pods have different ones.
proof fn lemma_rail_nodes(s: RailSize, src: int, dst: int)
    requires
        s.fits(),
        0 <= src < s.gpus(),
        0 <= dst < s.gpus(),
    ensures
        s.gpus() <= s.rail_node(s.pod_of(src), s.offset_of(src)) < s.gpus() + s.rails(),
        s.pod_of(src) != s.pod_of(dst) ==> s.rail_node(s.pod_of(src), s.offset_of(src)) != s.rail_node(
            s.pod_of(dst),
            s.offset_of(dst),
        ),
{
    lemma_gpu(s, src);
    lemma_gpu(s, dst);
    lemma_rail(s, s.pod_of(src), s.offset_of(src));
    let (p, q, n) = (s.pod_of(src), s.pod_of(dst), s.block_size as int);
    if p != q {
        let (x, y) = (s.offset_of(src), s.offset_of(dst));
        assert(p * n + x != q * n + y) by (nonlinear_arith)
            requires
                p != q,
                0 <= x < n,
                0 <= y < n,
        ;
    }
}

/// The way between two GPUs passes no node twice.
proof fn lemma_rail_nodes_differ(s: RailSize, src: int, dst: int, spine: int)
    requires
        s.fits(),
        0 <= src < s.gpus(),
        0 <= dst < s.gpus(),
        src != dst,
        s.pod_of(src) != s.pod_of(dst) ==> 0 <= spine < s.num_spines,
    ensures
        rail_nodes(s, src, dst, spine).no_duplicates(),
{
    let nodes = rail_nodes(s, src, dst, spine);
    lemma_rail_nodes(s, src, dst);
    lemma_rail_nodes(s, dst, src);
    lemma_gpu(s, src);
    lemma_gpu(s, dst);
    if s.block_of(src) == s.block_of(dst) {
    } else if s.pod_of(src) == s.pod_of(dst) && s.offset_of(src) == s.offset_of(dst) {
    } else if s.pod_of(src) == s.pod_of(dst) {
        lemma_gpu_node(s, s.block_of(src), s.offset_of(dst));
    } else {
        assert(nodes.len() == 5);
    }
}

/// The route between two GPUs of a rail network leads from the one to the other, over the given spine if they
/// are in different pods.
pub proof fn lemma_rail_route_leads(s: RailSize, src: int, dst: int, spine: int)
    requires
        s.fits(),
        0 <= src < s.gpus(),
        0 <= dst < s.gpus(),
        src != dst,
        s.pod_of(src) != s.pod_of(dst) ==> 0 <= spine < s.num_spines,
    ensures
        ({
            let route = rail_route(s, src, dst, spine);
            &&& leads(s.all_links(), route, src as usize, dst as usize)
            &&& route.no_duplicates()
            &&& route.len() > 0
            &&& s.pod_of(src) != s.pod_of(dst) ==> is_walk(
                s.all_links(),
                seq![
                    src as usize,
                    s.rail_node(s.pod_of(src), s.offset_of(src)) as usize,
                    (s.gpus() + s.rails() + spine) as usize,
                    s.rail_node(s.pod_of(dst), s.offset_of(dst)) as usize,
                    dst as usize,
                ],
                route,
            )
        }),
{
    let links = s.all_links();
    let route = rail_route(s, src, dst, spine);
    let nodes = rail_nodes(s, src, dst, spine);
    lemma_rail_links_differ(s);
    lemma_rail_route(s, src, dst, spine);
    lemma_path_leads(links, nodes);
    lemma_rail_nodes_differ(s, src, dst, spine);
    assert(is_walk(links, nodes, route));
    lemma_walk_links_differ(links, nodes, route);
}

/// A way between two hosts of a fat tree leads from the one to the other: over the switches of both hosts,
/// in different pods also over an aggregation switch of each pod and a core switch.
pub proof fn lemma_way_leads(t: FatTreeView, src: int, dst: int, i: int)
    requires
        t.links.len() <= usize::MAX,
        0 <= src <= usize::MAX,
        0 <= dst <= usize::MAX,
        way(t, src, dst, i) is Some,
    ensures
        exists|nodes: Seq<usize>|
            {
                &&& #[trigger] is_walk(t.links, nodes, way(t, src, dst, i)->0)
                &&& nodes[0] == src && nodes[nodes.len() - 1] == dst
                &&& nodes[1] == t.host_tor[src] && nodes[nodes.len() - 2] == t.host_tor[dst]
                &&& if t.host_tor[src] == t.host_tor[dst] {
                    nodes.len() == 3
                } else if t.host_pod[src] == t.host_pod[dst] {
                    nodes.len() == 5 && nodes[2] == t.aggs[t.host_pod[src] as int][i]
                } else {
                    nodes.len() == 7 && nodes[3] == t.cores[i] && nodes[2] == t.aggs[t.host_pod[src] as int][i
                        / t.degree_core as int] && nodes[4] == t.aggs[t.host_pod[dst] as int][i / t.degree_agg as int]
                }
            },
{
    let nodes = if t.host_tor[src] == t.host_tor[dst] {
        near_nodes(t, src, dst)
    } else if t.host_pod[src] == t.host_pod[dst] {
        pod_nodes(t, src, dst, i)
    } else {
        far_nodes(t, src, dst, i / t.degree_core as int, i, i / t.degree_agg as int)
    };
    lemma_path_leads(t.links, nodes);
    assert(is_walk(t.links, nodes, way(t, src, dst, i)->0));
}

/// The route of a flow in a fat tree leads from the one host to the other: over the switches of both hosts, in the same
/// pod over one aggregation switch of it, and in different pods over one of each pod and a core switch.
pub proof fn lemma_multipath_leads(seed: u64, t: FatTreeView, src: usize, dst: usize, flow_id: FlowId)
    requires
        t.links.len() <= usize::MAX,
        t.degree_agg <= usize::MAX,
        t.cores.len() <= usize::MAX,
        forall|p: int| 0 <= p < t.aggs.len() ==> (#[trigger] t.aggs[p]).len() == t.degree_agg,
        src < t.host_pod.len(),
        dst < t.host_pod.len(),
        forall|h: int| 0 <= h < t.host_pod.len() ==> (#[trigger] t.host_pod[h]) < t.aggs.len(),
    ensures
        multipath_route(seed, t, src, dst, flow_id) matches Ok(path) ==> exists|nodes: Seq<usize>|
            {
                let (s, d) = (src as int, dst as int);
                &&& #[trigger] is_walk(t.links, nodes, path)
                &&& nodes[0] == src && nodes[nodes.len() - 1] == dst
                &&& nodes[1] == t.host_tor[s] && nodes[nodes.len() - 2] == t.host_tor[d]
                &&& if t.host_tor[s] == t.host_tor[d] {
                    nodes.len() == 3
                } else if t.host_pod[s] == t.host_pod[d] {
                    nodes.len() == 5 && t.aggs[t.host_pod[s] as int].contains(nodes[2])
                } else {
                    &&& nodes.len() == 7
                    &&& t.aggs[t.host_pod[s] as int].contains(nodes[2])
                    &&& t.cores.contains(nodes[3])
                    &&& t.aggs[t.host_pod[d] as int].contains(nodes[4])
                }
            },
{
    let (s, d) = (src as int, dst as int);
    if let Ok(path) = multipath_route(seed, t, src, dst, flow_id) {
        let up = pick(level_hash(seed, src, dst, flow_id, 0), t.degree_agg) as int;
        let core = pick(level_hash(seed, src, dst, flow_id, 1), t.cores.len()) as int;
        let down = pick(level_hash(seed, src, dst, flow_id, 2), t.degree_agg) as int;
        let nodes = if t.host_tor[s] == t.host_tor[d] {
            near_nodes(t, s, d)
        } else if t.host_pod[s] == t.host_pod[d] {
            pod_nodes(t, s, d, up)
        } else {
            far_nodes(t, s, d, up, core, down)
        };
        lemma_path_leads(t.links, nodes);
        assert(is_walk(t.links, nodes, path));
        let (a, b) = (t.host_pod[s] as int, t.host_pod[d] as int);
        assert(t.aggs[a].len() == t.degree_agg && t.aggs[b].len() == t.degree_agg);
        if t.host_tor[s] != t.host_tor[d] {
            assert(t.aggs[a][up] == nodes[2]);
        }
    }
}

/// The route that a hash chooses leads from the one host to the other.
pub proof fn lemma_hashed_route_leads(seed: u64, s: SpineSize, src: usize, dst: usize, job_id: JobId)
    requires
        s.fits(),
        src < s.hosts(),
        dst < s.hosts(),
        src != dst,
        leaf_number(s, src as int) != leaf_number(s, dst as int) ==> s.num_spines > 0,
    ensures
        leads(s.all_links(), hashed_route(seed, s, src, dst, job_id), src, dst),
{
    lemma_spine_route_leads(
        s,
        src as int,
        dst as int,
        pick(traffic_hash(seed, src, dst, job_id), s.num_spines) as int,
    );
}

/// The route that a flow is given in a rail network leads from its source to its destination. All flows of a job between
/// the same GPUs are given the same.
pub proof fn lemma_fresh_rail_route_leads(
    seed: u64,
    s: RailSize,
    waiting: Map<FlowId, WaitingFlow>,
    src: usize,
    dst: usize,
    flow_id: FlowId,
    other: FlowId,
)
    requires
        s.fits(),
        src < s.gpus(),
        dst < s.gpus(),
        src != dst,
        s.pod_of(src as int) != s.pod_of(dst as int) ==> s.num_spines > 0,
    ensures
        fresh_rail_route(seed, s, waiting, src, dst, flow_id) is Err == (s.pod_of(src as int) != s.pod_of(dst as int)
            && !waiting.contains_key(flow_id)),
        fresh_rail_route(seed, s, waiting, src, dst, flow_id) matches Ok(route) ==> leads(s.all_links(), route, src, dst),
        waiting.contains_key(flow_id) && waiting.contains_key(other) && waiting[flow_id].0 == waiting[other].0
            ==> fresh_rail_route(seed, s, waiting, src, dst, flow_id) == fresh_rail_route(seed, s, waiting, src, dst, other),
{
    if let Ok(route) = fresh_rail_route(seed, s, waiting, src, dst, flow_id) {
        let spine = if s.pod_of(src as int) == s.pod_of(dst as int) {
            0
        } else {
            pick(traffic_hash(seed, src, dst, waiting[flow_id].0), s.num_spines) as int
        };
        lemma_rail_route_leads(s, src as int, dst as int, spine);
    }
}

} // verus!
