//! Which links the jobs of a spine network use.

use vstd::prelude::*;

use crate::network::graph::LinkId;
use crate::simulator::context::placement_views;
use crate::simulator::ml_job::{ascending, lemma_ascending};
use crate::simulator::ml_worker::{JobId, WorkerId};
use crate::spine::routing::SpineRouteOracle;
use crate::spine::topology::{SpineSize, SpineTree};
use crate::system_modules::cassini::affinity::{node_pairs, with_node, AffinityGraph, AffinityNode};
use crate::system_modules::cassini::loops::has_loop;
use crate::utils::data::{DHashMap, DHashSet};

verus! {

/// Why there is no schedule for some placements.
#[derive(Debug, Clone, Copy, PartialEq, Eq, Structural)]
pub enum CassiniFault {
    /// Two workers of the job cannot reach each other: one is on a host that is not there, or no spine is
    /// between their leaves.
    Unreachable(JobId),
    /// The jobs use too many links.
    TooManyUses,
    /// The jobs and links form a loop, so that no shifts are right for all links.
    Loop,
    /// No common period of the jobs on the link fits.
    NoPeriod(LinkId),
}

/// How many uses of links there can be.
pub const MAX_USES: usize = 2147483646;

/// Traffic between two of the workers of a job would use a link.
pub open spec fn pair_uses<R: SpineRouteOracle>(
    o: R,
    s: SpineSize,
    job_id: JobId,
    hosts: Map<WorkerId, usize>,
    a: WorkerId,
    b: WorkerId,
    l: LinkId,
) -> bool {
    &&& hosts.contains_key(a)
    &&& hosts.contains_key(b)
    &&& a != b
    &&& o.predicted(s, hosts[a], hosts[b], job_id).contains(l)
}

/// Traffic between workers of a job would use a link.
pub open spec fn job_uses<R: SpineRouteOracle>(o: R, s: SpineSize, job_id: JobId, hosts: Map<WorkerId, usize>, l: LinkId) -> bool {
    exists|a: WorkerId, b: WorkerId| #[trigger] pair_uses(o, s, job_id, hosts, a, b, l)
}

/// The links that a job uses, in ascending order.
pub open spec fn links_used<R: SpineRouteOracle>(o: R, s: SpineSize, job_id: JobId, hosts: Map<WorkerId, usize>) -> Seq<LinkId> {
    ascending(Set::new(|l: LinkId| job_uses(o, s, job_id, hosts, l)))
}

/// There is a route between two hosts: they are there, and below one leaf unless there are spines.
pub open spec fn reaches(s: SpineSize, a: usize, b: usize) -> bool {
    &&& a < s.hosts()
    &&& b < s.hosts()
    &&& s.num_spines > 0 || s.leaf_of(a as int) == s.leaf_of(b as int)
}

/// There is a route between any two of the workers.
pub open spec fn workers_meet(s: SpineSize, hosts: Map<WorkerId, usize>) -> bool {
    forall|a: WorkerId, b: WorkerId|
        #![trigger hosts.contains_key(a), hosts.contains_key(b)]
        hosts.contains_key(a) && hosts.contains_key(b) && a != b ==> reaches(s, hosts[a], hosts[b])
}

/// The links that the jobs use: for each of the first `n` jobs in ascending order, its links.
pub open spec fn all_uses<R: SpineRouteOracle>(
    o: R,
    s: SpineSize,
    placements: Map<JobId, Map<WorkerId, usize>>,
    jobs: Seq<JobId>,
    n: nat,
) -> Seq<(JobId, LinkId)>
    decreases n,
{
    if n == 0 {
        Seq::empty()
    } else {
        let j = jobs[n - 1];
        all_uses(o, s, placements, jobs, (n - 1) as nat) + links_used(o, s, j, placements[j]).map_values(
            |l: LinkId| (j, l),
        )
    }
}

/// The links that the jobs use.
pub open spec fn uses<R: SpineRouteOracle>(o: R, s: SpineSize, placements: Map<JobId, Map<WorkerId, usize>>) -> Seq<(JobId, LinkId)> {
    let jobs = ascending(placements.dom());
    all_uses(o, s, placements, jobs, jobs.len())
}

/// The first of some jobs that has two workers without a route between them.
pub open spec fn first_lost(
    s: SpineSize,
    placements: Map<JobId, Map<WorkerId, usize>>,
    jobs: Seq<JobId>,
    n: nat,
) -> Option<JobId>
    decreases n,
{
    if n == 0 {
        None
    } else {
        match first_lost(s, placements, jobs, (n - 1) as nat) {
            Some(j) => Some(j),
            None => if workers_meet(s, placements[jobs[n - 1]]) {
                None
            } else {
                Some(jobs[n - 1])
            },
        }
    }
}

/// The jobs and links of the first `n` uses.
pub open spec fn use_nodes(list: Seq<(JobId, LinkId)>, n: nat) -> Seq<AffinityNode>
    decreases n,
{
    if n == 0 {
        Seq::empty()
    } else {
        with_node(
            with_node(use_nodes(list, (n - 1) as nat), AffinityNode::Job(list[n - 1].0)),
            AffinityNode::Link(list[n - 1].1),
        )
    }
}

/// The graph of uses: each is an edge without a shift.
pub open spec fn is_use_graph(g: AffinityGraph, list: Seq<(JobId, LinkId)>) -> bool {
    &&& g.wf()
    &&& g.nodes@ == use_nodes(list, list.len())
    &&& g.edges().len() == list.len()
    &&& forall|k: int|
        0 <= k < list.len() ==> {
            &&& (#[trigger] g.edges()[k]).2 == 0
            &&& g.nodes@[g.edges()[k].0 as int] == AffinityNode::Job(list[k].0)
            &&& g.nodes@[g.edges()[k].1 as int] == AffinityNode::Link(list[k].1)
        }
}

/// The edges of uses, as nodes.
pub open spec fn use_pairs(list: Seq<(JobId, LinkId)>) -> Seq<(usize, usize)> {
    let nodes = use_nodes(list, list.len());
    list.map_values(
        |u: (JobId, LinkId)|
            (nodes.index_of(AffinityNode::Job(u.0)) as usize, nodes.index_of(AffinityNode::Link(u.1)) as usize),
    )
}

/// The jobs and links of uses form a loop.
pub open spec fn uses_loop(list: Seq<(JobId, LinkId)>) -> bool {
    has_loop(use_pairs(list), list.len())
}

/// The graph of uses has the edges of the uses.
pub proof fn lemma_use_pairs(g: AffinityGraph, list: Seq<(JobId, LinkId)>)
    requires
        is_use_graph(g, list),
    ensures
        node_pairs(g.edges()) == use_pairs(list),
{
    let pairs = node_pairs(g.edges());
    let nodes = g.nodes@;
    assert forall|k: int| 0 <= k < list.len() implies #[trigger] pairs[k] == use_pairs(list)[k] by {
        let e = g.edges()[k];
        let j = AffinityNode::Job(list[k].0);
        let l = AffinityNode::Link(list[k].1);
        assert(nodes[e.0 as int] == j && nodes[e.1 as int] == l);
        let a = nodes.index_of(j);
        let b = nodes.index_of(l);
        assert(nodes.contains(j) && nodes.contains(l));
        assert(nodes[a] == j && nodes[b] == l);
        assert(g.job_to_node@[list[k].0] == a && g.job_to_node@[list[k].0] == e.0);
        assert(g.link_to_node@[list[k].1] == b && g.link_to_node@[list[k].1] == e.1);
    }
    assert(pairs =~= use_pairs(list));
}

/// The links that a job uses, in ascending order.
pub fn identify_links_used<R: SpineRouteOracle>(
    topo: &SpineTree,
    oracle: &R,
    job_id: JobId,
    mapping: &DHashMap<WorkerId, usize>,
) -> (r: Vec<LinkId>)
    requires
        topo.wf(),
        workers_meet(topo.size(), mapping@),
    ensures
        r@ == links_used(*oracle, topo.size(), job_id, mapping@),
        r@.no_duplicates(),
        forall|l: LinkId| #[trigger] r@.contains(l) == job_uses(*oracle, topo.size(), job_id, mapping@, l),
{
    let ghost s = topo.size();
    let ghost o = *oracle;
    let ghost hosts = mapping@;
    let workers = mapping.keys();
    let mut found: DHashSet<LinkId> = DHashSet::new();
    let mut i: usize = 0;
    while i < workers.len()
        invariant
            i <= workers@.len(),
            topo.wf(),
            s == topo.size(),
            o == *oracle,
            hosts == mapping@,
            workers_meet(s, hosts),
            workers@.to_set() == hosts.dom(),
            forall|l: LinkId| #[trigger] found@.contains(l) ==> job_uses(o, s, job_id, hosts, l),
            forall|x: int, b: WorkerId, l: LinkId|
                0 <= x < i && #[trigger] pair_uses(o, s, job_id, hosts, workers@[x], b, l) ==> found@.contains(l),
        decreases workers@.len() - i,
    {
        let a: usize = workers[i];
        assert(workers@.to_set().contains(workers@[i as int]));
        let mut k: usize = 0;
        while k < workers.len()
            invariant
                k <= workers@.len(),
                i < workers@.len(),
                a == workers@[i as int],
                hosts.contains_key(a),
                topo.wf(),
                s == topo.size(),
                o == *oracle,
                hosts == mapping@,
                workers_meet(s, hosts),
                workers@.to_set() == hosts.dom(),
                forall|l: LinkId| #[trigger] found@.contains(l) ==> job_uses(o, s, job_id, hosts, l),
                forall|x: int, b: WorkerId, l: LinkId|
                    0 <= x < i && #[trigger] pair_uses(o, s, job_id, hosts, workers@[x], b, l) ==> found@.contains(l),
                forall|y: int, l: LinkId|
                    0 <= y < k && #[trigger] pair_uses(o, s, job_id, hosts, a, workers@[y], l) ==> found@.contains(l),
            decreases workers@.len() - k,
        {
            let b: usize = workers[k];
            assert(workers@.to_set().contains(workers@[k as int]));
            if a != b {
                if let Some(src) = mapping.get(&a) {
                    if let Some(dst) = mapping.get(&b) {
                        assert(reaches(s, hosts[a], hosts[b]));
                        let path = oracle.predict_path(topo, *src, *dst, job_id);
                        let ghost route = o.predicted(s, hosts[a], hosts[b], job_id);
                        let mut m: usize = 0;
                        while m < path.len()
                            invariant
                                m <= path@.len(),
                                path@ == route,
                                route == o.predicted(s, hosts[a], hosts[b], job_id),
                                hosts.contains_key(a),
                                hosts.contains_key(b),
                                a != b,
                                i < workers@.len(),
                                k < workers@.len(),
                                forall|l: LinkId| #[trigger] found@.contains(l) ==> job_uses(o, s, job_id, hosts, l),
                                forall|x: int, b: WorkerId, l: LinkId|
                                    0 <= x < i && #[trigger] pair_uses(o, s, job_id, hosts, workers@[x], b, l)
                                        ==> found@.contains(l),
                                forall|y: int, l: LinkId|
                                    0 <= y < k && #[trigger] pair_uses(o, s, job_id, hosts, a, workers@[y], l)
                                        ==> found@.contains(l),
                                forall|x: int| 0 <= x < m ==> found@.contains(#[trigger] route[x]),
                            decreases path@.len() - m,
                        {
                            assert(route.contains(path@[m as int]));
                            assert(pair_uses(o, s, job_id, hosts, a, b, path@[m as int]));
                            found.insert(path[m]);
                            m += 1;
                        }
                    }
                }
            }
            k += 1;
        }
        proof {
            assert forall|x: int, b: WorkerId, l: LinkId|
                0 <= x < i + 1 && #[trigger] pair_uses(o, s, job_id, hosts, workers@[x], b, l) implies found@.contains(
                l,
            ) by {
                if x == i {
                    assert(workers@.to_set().contains(b));
                    let y = choose|y: int| 0 <= y < workers@.len() && workers@[y] == b;
                    assert(pair_uses(o, s, job_id, hosts, a, workers@[y], l));
                }
            }
        }
        i += 1;
    }
    let r = found.sorted();
    proof {
        let all = Set::new(|l: LinkId| job_uses(o, s, job_id, hosts, l));
        assert forall|l: LinkId| found@.contains(l) == job_uses(o, s, job_id, hosts, l) by {
            if job_uses(o, s, job_id, hosts, l) {
                let (a, b) = choose|a: WorkerId, b: WorkerId| #[trigger] pair_uses(o, s, job_id, hosts, a, b, l);
                assert(workers@.to_set().contains(a));
                let x = choose|x: int| 0 <= x < workers@.len() && workers@[x] == a;
                assert(pair_uses(o, s, job_id, hosts, workers@[x], b, l));
            }
        }
        assert(r@.to_set() =~= all);
        lemma_ascending(r@, all);
        assert forall|l: LinkId| #[trigger] r@.contains(l) == job_uses(o, s, job_id, hosts, l) by {
            assert(r@.contains(l) == r@.to_set().contains(l));
        }
    }
    r
}

/// Whether there is a route between two hosts.
fn check_reach(topo: &SpineTree, a: usize, b: usize) -> (r: bool)
    requires
        topo.wf(),
    ensures
        r == reaches(topo.size(), a, b),
{
    let total: usize = topo.total_hosts();
    a < total && b < total && (topo.num_spines > 0 || topo.get_host_leaf(a) == topo.get_host_leaf(b))
}

/// Whether there is a route between any two of the workers.
fn check_workers(topo: &SpineTree, mapping: &DHashMap<WorkerId, usize>) -> (r: bool)
    requires
        topo.wf(),
    ensures
        r == workers_meet(topo.size(), mapping@),
{
    let workers = mapping.keys();
    let ghost s = topo.size();
    let ghost hosts = mapping@;
    let mut i: usize = 0;
    while i < workers.len()
        invariant
            i <= workers@.len(),
            topo.wf(),
            s == topo.size(),
            hosts == mapping@,
            workers@.to_set() == hosts.dom(),
            forall|x: int, b: WorkerId|
                0 <= x < i && #[trigger] hosts.contains_key(b) && #[trigger] workers@[x] != b ==> reaches(
                    s,
                    hosts[workers@[x]],
                    hosts[b],
                ),
        decreases workers@.len() - i,
    {
        let a: usize = workers[i];
        assert(workers@.to_set().contains(workers@[i as int]));
        let mut k: usize = 0;
        while k < workers.len()
            invariant
                k <= workers@.len(),
                i < workers@.len(),
                a == workers@[i as int],
                hosts.contains_key(a),
                topo.wf(),
                s == topo.size(),
                hosts == mapping@,
                workers@.to_set() == hosts.dom(),
                forall|y: int| 0 <= y < k && #[trigger] workers@[y] != a ==> reaches(s, hosts[a], hosts[workers@[y]]),
            decreases workers@.len() - k,
        {
            let b: usize = workers[k];
            assert(workers@.to_set().contains(workers@[k as int]));
            if a != b && !check_reach(topo, *mapping.get(&a).unwrap(), *mapping.get(&b).unwrap()) {
                assert(hosts.contains_key(a) && hosts.contains_key(b));
                return false;
            }
            k += 1;
        }
        proof {
            assert forall|x: int, b: WorkerId|
                0 <= x < i + 1 && #[trigger] hosts.contains_key(b) && #[trigger] workers@[x] != b implies reaches(
                s,
                hosts[workers@[x]],
                hosts[b],
            ) by {
                if x == i {
                    assert(workers@.to_set().contains(b));
                    let y = choose|y: int| 0 <= y < workers@.len() && workers@[y] == b;
                    assert(workers@[y] != a);
                }
            }
        }
        i += 1;
    }
    proof {
        assert forall|a: WorkerId, b: WorkerId|
            #![trigger hosts.contains_key(a), hosts.contains_key(b)]
            hosts.contains_key(a) && hosts.contains_key(b) && a != b implies reaches(s, hosts[a], hosts[b]) by {
            assert(workers@.to_set().contains(a));
            let x = choose|x: int| 0 <= x < workers@.len() && workers@[x] == a;
            assert(workers@[x] != b);
        }
    }
    true
}

/// The nodes of uses are at most two for each.
proof fn lemma_use_nodes(list: Seq<(JobId, LinkId)>, n: nat)
    ensures
        use_nodes(list, n).len() <= 2 * n,
    decreases n,
{
    if n > 0 {
        lemma_use_nodes(list, (n - 1) as nat);
    }
}

proof fn lemma_with_node(nodes: Seq<AffinityNode>, n: AffinityNode, k: int)
    requires
        0 <= k < nodes.len(),
    ensures
        with_node(nodes, n).len() >= nodes.len(),
        with_node(nodes, n)[k] == nodes[k],
{
}

/// The graph of uses.
fn build_use_graph(list: &Vec<(JobId, LinkId)>) -> (g: AffinityGraph)
    requires
        list@.len() <= MAX_USES,
    ensures
        is_use_graph(g, list@),
{
    let mut g = AffinityGraph::new();
    let mut i: usize = 0;
    while i < list.len()
        invariant
            i <= list@.len(),
            list@.len() <= MAX_USES,
            g.wf(),
            g.nodes@ == use_nodes(list@, i as nat),
            g.edges().len() == i,
            forall|k: int|
                0 <= k < i ==> {
                    &&& (#[trigger] g.edges()[k]).2 == 0
                    &&& g.nodes@[g.edges()[k].0 as int] == AffinityNode::Job(list@[k].0)
                    &&& g.nodes@[g.edges()[k].1 as int] == AffinityNode::Link(list@[k].1)
                },
        decreases list@.len() - i,
    {
        let ghost before = g;
        let (j, l): (JobId, LinkId) = list[i];
        proof {
            lemma_use_nodes(list@, i as nat);
        }
        g.add_job_link_edge(j, l, 0);
        proof {
            let mid = with_node(before.nodes@, AffinityNode::Job(j));
            assert forall|k: int| 0 <= k < i + 1 implies {
                &&& (#[trigger] g.edges()[k]).2 == 0
                &&& g.nodes@[g.edges()[k].0 as int] == AffinityNode::Job(list@[k].0)
                &&& g.nodes@[g.edges()[k].1 as int] == AffinityNode::Link(list@[k].1)
            } by {
                if k < i {
                    let e = before.edges()[k];
                    assert(g.edges()[k] == e);
                    assert(e.0 < before.nodes@.len() && e.1 < before.nodes@.len());
                    lemma_with_node(before.nodes@, AffinityNode::Job(j), e.0 as int);
                    lemma_with_node(before.nodes@, AffinityNode::Job(j), e.1 as int);
                    lemma_with_node(mid, AffinityNode::Link(l), e.0 as int);
                    lemma_with_node(mid, AffinityNode::Link(l), e.1 as int);
                }
            }
        }
        i += 1;
    }
    g
}

/// Which jobs use which links, where that has no loop.
pub fn build_affinity<R: SpineRouteOracle>(
    topo: &SpineTree,
    oracle: &R,
    placements: &DHashMap<JobId, DHashMap<WorkerId, usize>>,
) -> (r: Result<AffinityGraph, CassiniFault>)
    requires
        topo.wf(),
    ensures
        is_affinity_of(*oracle, topo.size(), placement_views(placements@), r),
{
    let ghost o = *oracle;
    let ghost s = topo.size();
    let ghost places = placement_views(placements@);
    let jobs = placements.sorted_keys();
    proof {
        assert(places.dom() =~= placements@.dom());
        lemma_ascending(jobs@, places.dom());
    }
    let mut i: usize = 0;
    while i < jobs.len()
        invariant
            i <= jobs@.len(),
            topo.wf(),
            s == topo.size(),
            places == placement_views(placements@),
            jobs@.to_set() == placements@.dom(),
            jobs@ == ascending(places.dom()),
            first_lost(s, places, jobs@, i as nat) is None,
            forall|x: int| 0 <= x < i ==> workers_meet(s, places[#[trigger] jobs@[x]]),
        decreases jobs@.len() - i,
    {
        assert(jobs@.to_set().contains(jobs@[i as int]));
        if let Some(hosts) = placements.get(&jobs[i]) {
            assert(places[jobs@[i as int]] == hosts@);
            if !check_workers(topo, hosts) {
                proof {
                    lemma_lost_stays(s, places, jobs@, (i + 1) as nat, jobs@.len());
                }
                return Err(CassiniFault::Unreachable(jobs[i]));
            }
        }
        i += 1;
    }
    let mut list: Vec<(JobId, LinkId)> = Vec::new();
    i = 0;
    while i < jobs.len()
        invariant
            i <= jobs@.len(),
            topo.wf(),
            o == *oracle,
            s == topo.size(),
            places == placement_views(placements@),
            jobs@.to_set() == placements@.dom(),
            forall|x: int| 0 <= x < jobs@.len() ==> workers_meet(s, places[#[trigger] jobs@[x]]),
            list@ == all_uses(o, s, places, jobs@, i as nat),
        decreases jobs@.len() - i,
    {
        assert(jobs@.to_set().contains(jobs@[i as int]));
        let j: usize = jobs[i];
        if let Some(hosts) = placements.get(&j) {
            assert(places[jobs@[i as int]] == hosts@);
            let links = identify_links_used(topo, oracle, j, hosts);
            let ghost before = list@;
            let mut k: usize = 0;
            while k < links.len()
                invariant
                    k <= links@.len(),
                    list@ == before + links@.take(k as int).map_values(|l: LinkId| (j, l)),
                decreases links@.len() - k,
            {
                list.push((j, links[k]));
                assert(list@ =~= before + links@.take(k + 1).map_values(|l: LinkId| (j, l)));
                k += 1;
            }
            assert(links@.take(links@.len() as int) =~= links@);
        }
        i += 1;
    }
    if list.len() > MAX_USES {
        return Err(CassiniFault::TooManyUses);
    }
    let g = build_use_graph(&list);
    proof {
        lemma_use_pairs(g, list@);
    }
    if g.has_loops() {
        return Err(CassiniFault::Loop);
    }
    Ok(g)
}

proof fn lemma_lost_stays(s: SpineSize, places: Map<JobId, Map<WorkerId, usize>>, jobs: Seq<JobId>, n: nat, m: nat)
    requires
        n <= m,
        first_lost(s, places, jobs, n) is Some,
    ensures
        first_lost(s, places, jobs, m) == first_lost(s, places, jobs, n),
    decreases m,
{
    if n < m {
        lemma_lost_stays(s, places, jobs, n, (m - 1) as nat);
    }
}

/// The graph of the links that placed jobs use, or why there is none.
pub open spec fn is_affinity_of<R: SpineRouteOracle>(
    o: R,
    s: SpineSize,
    placements: Map<JobId, Map<WorkerId, usize>>,
    r: Result<AffinityGraph, CassiniFault>,
) -> bool {
    let jobs = ascending(placements.dom());
    let list = uses(o, s, placements);
    match first_lost(s, placements, jobs, jobs.len()) {
        Some(j) => r == Err::<AffinityGraph, CassiniFault>(CassiniFault::Unreachable(j)),
        None => if list.len() > MAX_USES {
            r == Err::<AffinityGraph, CassiniFault>(CassiniFault::TooManyUses)
        } else if uses_loop(list) {
            r == Err::<AffinityGraph, CassiniFault>(CassiniFault::Loop)
        } else {
            r matches Ok(g) && is_use_graph(g, list)
        },
    }
}

} // verus!
