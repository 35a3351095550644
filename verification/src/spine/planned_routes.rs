//! What the routes of planned flows promise.

use vstd::prelude::*;

use crate::network::graph::LinkId;
use crate::routing::walks::{are_distinct_links, is_walk, leads, lemma_leaf, lemma_spine_links_differ, lemma_spine_route_leads};
use crate::simulator::context::WaitingFlow;
use crate::simulator::ml_worker::{FlowId, JobId};
use crate::spine::foresight::{ends_known, is_routing, routed, used_spine};
use crate::spine::route_plan::{lemma_no_shared_links, spine_choice, PlacedFlow};
use crate::spine::routing::{leaf_number, spine_route, template_route};
use crate::spine::topology::{RouteFault, SpineSize};

verus! {

/// Two planned flows are the same flow of a job, in the same iteration.
pub open spec fn is_same_flow(a: PlacedFlow, b: PlacedFlow) -> bool {
    a.job_id == b.job_id && a.job_flow_idx == b.job_flow_idx && a.iter_idx == b.iter_idx
}

/// A plan has each flow once.
pub open spec fn are_different_flows(placed: Seq<PlacedFlow>) -> bool {
    forall|i: int, j: int| 0 <= i < j < placed.len() ==> !is_same_flow(#[trigger] placed[i], #[trigger] placed[j])
}

proof fn lemma_routed(
    t: Map<(JobId, usize, usize), Seq<usize>>,
    placed: Seq<PlacedFlow>,
    spine: Seq<Option<usize>>,
    size: SpineSize,
    n: nat,
    i: int,
)
    requires
        n <= placed.len(),
        0 <= i < n,
        are_different_flows(placed),
    ensures
        ({
            let p = placed[i];
            let key = (p.job_id, p.job_flow_idx, p.iter_idx);
            let after = routed(t, placed, spine, size, n);
            after.contains_key(key) && after[key] == spine_route(
                size,
                p.src_host as int,
                p.dst_host as int,
                used_spine(spine[i]),
            )
        }),
    decreases n,
{
    if i < n - 1 {
        lemma_routed(t, placed, spine, size, (n - 1) as nat, i);
        assert(!is_same_flow(placed[i], placed[n - 1]));
    }
}

proof fn lemma_unrouted(
    t: Map<(JobId, usize, usize), Seq<usize>>,
    placed: Seq<PlacedFlow>,
    spine: Seq<Option<usize>>,
    size: SpineSize,
    n: nat,
    key: (JobId, usize, usize),
)
    requires
        n <= placed.len(),
        forall|i: int|
            0 <= i < placed.len() ==> ((#[trigger] placed[i]).job_id, placed[i].job_flow_idx, placed[i].iter_idx) != key,
    ensures
        ({
            let after = routed(t, placed, spine, size, n);
            after.contains_key(key) == t.contains_key(key) && (t.contains_key(key) ==> after[key] == t[key])
        }),
    decreases n,
{
    if n > 0 {
        lemma_unrouted(t, placed, spine, size, (n - 1) as nat, key);
        let p = placed[n - 1];
        assert((p.job_id, p.job_flow_idx, p.iter_idx) != key);
    }
}

/// Each planned flow gets a route, which leads from its source to its destination.
pub proof fn lemma_planned_route(
    t: Map<(JobId, usize, usize), Seq<usize>>,
    placed: Seq<PlacedFlow>,
    size: SpineSize,
    after: Map<(JobId, usize, usize), Seq<usize>>,
    i: int,
)
    requires
        size.fits(),
        is_routing(t, placed, size, after),
        are_different_flows(placed),
        0 <= i < placed.len(),
        ends_known(placed[i], size),
        placed[i].src_host != placed[i].dst_host,
    ensures
        after.contains_key((placed[i].job_id, placed[i].job_flow_idx, placed[i].iter_idx)),
        leads(
            size.all_links(),
            after[(placed[i].job_id, placed[i].job_flow_idx, placed[i].iter_idx)],
            placed[i].src_host,
            placed[i].dst_host,
        ),
{
    let spine = spine_choice(placed);
    let p = placed[i];
    lemma_routed(t, placed, spine, size, placed.len(), i);
    assert(spine[i] is Some == p.crosses());
    lemma_spine_route_leads(size, p.src_host as int, p.dst_host as int, used_spine(spine[i]));
}

/// Flows that are not planned keep the routes that they have.
pub proof fn lemma_other_routes(
    t: Map<(JobId, usize, usize), Seq<usize>>,
    placed: Seq<PlacedFlow>,
    size: SpineSize,
    after: Map<(JobId, usize, usize), Seq<usize>>,
    key: (JobId, usize, usize),
)
    requires
        is_routing(t, placed, size, after),
        forall|i: int|
            0 <= i < placed.len() ==> ((#[trigger] placed[i]).job_id, placed[i].job_flow_idx, placed[i].iter_idx) != key,
    ensures
        after.contains_key(key) == t.contains_key(key),
        t.contains_key(key) ==> after[key] == t[key],
{
    lemma_unrouted(t, placed, spine_choice(placed), size, placed.len(), key);
}

/// Links that do not lead from the same node to the same node have different identifiers.
proof fn lemma_walks_apart(
    links: Seq<(usize, usize, usize)>,
    an: Seq<usize>,
    a: Seq<LinkId>,
    bn: Seq<usize>,
    b: Seq<LinkId>,
    x: int,
    y: int,
)
    requires
        are_distinct_links(links),
        is_walk(links, an, a),
        is_walk(links, bn, b),
        0 <= x < a.len(),
        0 <= y < b.len(),
        an[x] != bn[y] || an[x + 1] != bn[y + 1],
    ensures
        a[x] != b[y],
{
    let (c, d) = ((an[x], an[x + 1], a[x]), (bn[y], bn[y + 1], b[y]));
    assert(links.contains(c) && links.contains(d));
    let i = choose|i: int| 0 <= i < links.len() && links[i] == c;
    let j = choose|j: int| 0 <= j < links.len() && links[j] == d;
    if a[x] == b[y] {
        assert(links[i].2 == links[j].2);
    }
}

/// The nodes on the way between hosts below different leaves.
spec fn nodes_over(size: SpineSize, e: (int, int, int)) -> Seq<usize> {
    seq![
        e.0 as usize,
        size.leaf_of(e.0) as usize,
        (size.hosts() + size.num_leaves + e.2) as usize,
        size.leaf_of(e.1) as usize,
        e.1 as usize,
    ]
}

/// The way goes over an existing spine, between hosts below different leaves.
pub open spec fn is_over(size: SpineSize, e: (int, int, int)) -> bool {
    &&& 0 <= e.0 < size.hosts()
    &&& 0 <= e.1 < size.hosts()
    &&& 0 <= e.2 < size.num_spines
    &&& leaf_number(size, e.0) != leaf_number(size, e.1)
}

proof fn lemma_over(size: SpineSize, e: (int, int, int))
    requires
        size.fits(),
        is_over(size, e),
    ensures
        is_walk(size.all_links(), nodes_over(size, e), spine_route(size, e.0, e.1, e.2)),
        nodes_over(size, e)[1] == size.hosts() + leaf_number(size, e.0),
        nodes_over(size, e)[2] == size.hosts() + size.num_leaves + e.2,
        nodes_over(size, e)[3] == size.hosts() + leaf_number(size, e.1),
        0 <= leaf_number(size, e.0) < size.num_leaves,
        0 <= leaf_number(size, e.1) < size.num_leaves,
{
    lemma_spine_route_leads(size, e.0, e.1, e.2);
    lemma_leaf(size, e.0);
    lemma_leaf(size, e.1);
}

/// Two ways that have not both a leaf and the spine in common, at neither end, share no link of a spine.
pub proof fn lemma_apart(size: SpineSize, e: (int, int, int), f: (int, int, int), x: int, y: int)
    requires
        size.fits(),
        is_over(size, e),
        is_over(size, f),
        (leaf_number(size, e.0), e.2) != (leaf_number(size, f.0), f.2),
        (leaf_number(size, e.1), e.2) != (leaf_number(size, f.1), f.2),
        1 <= x <= 2,
        1 <= y <= 2,
    ensures
        spine_route(size, e.0, e.1, e.2)[x] != spine_route(size, f.0, f.1, f.2)[y],
{
    lemma_over(size, e);
    lemma_over(size, f);
    lemma_spine_links_differ(size);
    let (an, bn) = (nodes_over(size, e), nodes_over(size, f));
    assert(an[x] != bn[y] || an[x + 1] != bn[y + 1]);
    lemma_walks_apart(
        size.all_links(),
        an,
        spine_route(size, e.0, e.1, e.2),
        bn,
        spine_route(size, f.0, f.1, f.2),
        x,
        y,
    );
}

/// Two flows between leaves that run at the same time share none of the links between leaves and spines.
pub proof fn lemma_routes_apart(
    t: Map<(JobId, usize, usize), Seq<usize>>,
    placed: Seq<PlacedFlow>,
    size: SpineSize,
    after: Map<(JobId, usize, usize), Seq<usize>>,
    i: int,
    j: int,
    x: int,
    y: int,
)
    requires
        size.fits(),
        is_routing(t, placed, size, after),
        are_different_flows(placed),
        0 <= i < placed.len(),
        0 <= j < placed.len(),
        i != j,
        ends_known(placed[i], size),
        ends_known(placed[j], size),
        placed[i].src_leaf != placed[i].dst_leaf,
        placed[j].src_leaf != placed[j].dst_leaf,
        placed[i].start_us < placed[i].end_us,
        placed[j].start_us < placed[j].end_us,
        placed[i].start_us < placed[j].end_us,
        placed[j].start_us < placed[i].end_us,
        1 <= x <= 2,
        1 <= y <= 2,
    ensures
        ({
            let a = after[(placed[i].job_id, placed[i].job_flow_idx, placed[i].iter_idx)];
            let b = after[(placed[j].job_id, placed[j].job_flow_idx, placed[j].iter_idx)];
            a.len() == 4 && b.len() == 4 && a[x] != b[y]
        }),
{
    let spine = spine_choice(placed);
    let (p, q) = (placed[i], placed[j]);
    lemma_routed(t, placed, spine, size, placed.len(), i);
    lemma_routed(t, placed, spine, size, placed.len(), j);
    assert(spine[i] is Some && spine[j] is Some);
    let (s, u) = (used_spine(spine[i]), used_spine(spine[j]));
    lemma_no_shared_links(placed, spine, size.num_spines, i, j);
    lemma_apart(
        size,
        (p.src_host as int, p.dst_host as int, s),
        (q.src_host as int, q.dst_host as int, u),
        x,
        y,
    );
}

/// A waiting flow is given the route that was set up last for its job, its index and its iteration, and no other. What is
/// set up for one flow changes nothing for another.
pub proof fn lemma_set_up_route(
    t: Map<(JobId, usize, usize), Seq<usize>>,
    waiting: Map<FlowId, WaitingFlow>,
    key: (JobId, usize, usize),
    path: Seq<usize>,
    f: FlowId,
)
    ensures
        !waiting.contains_key(f) ==> template_route(t, waiting, f) == Err::<Seq<usize>, RouteFault>(RouteFault::UnknownFlow(f)),
        waiting.contains_key(f) && (waiting[f].0, waiting[f].1, waiting[f].2) == key ==> template_route(
            t.insert(key, path),
            waiting,
            f,
        ) == Ok::<Seq<usize>, RouteFault>(path),
        waiting.contains_key(f) && (waiting[f].0, waiting[f].1, waiting[f].2) == key && !t.contains_key(key)
            ==> template_route(t, waiting, f) == Err::<Seq<usize>, RouteFault>(RouteFault::NoRoute(f)),
        waiting.contains_key(f) && (waiting[f].0, waiting[f].1, waiting[f].2) != key ==> template_route(
            t.insert(key, path),
            waiting,
            f,
        ) == template_route(t, waiting, f),
{
}

} // verus!
