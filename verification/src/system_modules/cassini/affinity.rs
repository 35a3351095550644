//! Which jobs use which links, and how much later each job runs on each link.

use petgraph::graph::UnGraph;
use vstd::prelude::*;

use crate::network::graph::{LinkId, MAX_GRAPH};
use crate::simulator::ml_worker::JobId;
use crate::system_modules::cassini::loops::{
    count_parts, doubled, ends_within, has_loop, has_parts, has_rep, is_loop, is_one_per_part, joined, label_nodes,
    lemma_same_joined, reachable, same_ends,
};
use crate::system_modules::cassini::store::{
    add_weighted_edge, add_weighted_node, edges_from, edges_of, edges_to, find_weighted_edge, is_from, is_to,
    last_between, lemma_edges_from, lemma_edges_to, new_weighted, set_weight, weighted_edges, weighted_nodes,
};
use crate::utils::data::{DHashMap, DHashSet};

verus! {

/// A node of the graph.
#[derive(Debug, Clone, Copy, PartialEq, Eq, Structural)]
pub enum AffinityNode {
    Job(JobId),
    Link(LinkId),
}

/// What belongs to an edge.
#[derive(Debug, Clone, Copy, PartialEq, Eq, Structural)]
pub struct AffinityEdgeData {
    /// How much later the job runs on the link.
    pub weight_us: u64,
}

/// Jobs and links, with an edge for each link that a job uses.
pub struct AffinityGraph {
    pub graph: UnGraph<(), u64>,
    /// What each node of the graph is.
    pub nodes: Vec<AffinityNode>,
    pub job_to_node: DHashMap<JobId, usize>,
    pub link_to_node: DHashMap<LinkId, usize>,
    /// How much later each job runs on each link.
    pub link_time_shifts: DHashMap<(JobId, LinkId), u64>,
}

/// The nodes that edges join.
pub open spec fn node_pairs(edges: Seq<(usize, usize, u64)>) -> Seq<(usize, usize)> {
    edges.map_values(|e: (usize, usize, u64)| (e.0, e.1))
}

/// The job that a node is.
pub open spec fn job_at(nodes: Seq<AffinityNode>, n: usize) -> JobId {
    nodes[n as int]->Job_0
}

/// The link that a node is.
pub open spec fn link_at(nodes: Seq<AffinityNode>, n: usize) -> LinkId {
    nodes[n as int]->Link_0
}

impl AffinityGraph {
    /// The edges: the node of a job, the node of a link, and how much later the job runs on the link.
    pub open spec fn edges(&self) -> Seq<(usize, usize, u64)> {
        weighted_edges(self.graph)
    }

    /// The tables agree with the graph, and each edge is between a job and a link.
    pub open spec fn wf(&self) -> bool {
        &&& weighted_nodes(self.graph).len() == self.nodes@.len()
        &&& self.nodes@.len() <= MAX_GRAPH
        &&& self.edges().len() <= MAX_GRAPH
        &&& forall|j: JobId| #[trigger]
            self.job_to_node@.contains_key(j) ==> self.job_to_node@[j] < self.nodes@.len()
                && self.nodes@[self.job_to_node@[j] as int] == AffinityNode::Job(j)
        &&& forall|l: LinkId| #[trigger]
            self.link_to_node@.contains_key(l) ==> self.link_to_node@[l] < self.nodes@.len()
                && self.nodes@[self.link_to_node@[l] as int] == AffinityNode::Link(l)
        &&& forall|n: int|
            0 <= n < self.nodes@.len() ==> match #[trigger] self.nodes@[n] {
                AffinityNode::Job(j) => self.job_to_node@.contains_key(j) && self.job_to_node@[j] == n,
                AffinityNode::Link(l) => self.link_to_node@.contains_key(l) && self.link_to_node@[l] == n,
            }
        &&& forall|k: int|
            0 <= k < self.edges().len() ==> {
                &&& (#[trigger] self.edges()[k]).0 < self.nodes@.len()
                &&& self.edges()[k].1 < self.nodes@.len()
                &&& self.nodes@[self.edges()[k].0 as int] is Job
                &&& self.nodes@[self.edges()[k].1 as int] is Link
            }
    }

    /// A graph without jobs and links.
    pub fn new() -> (r: Self)
        ensures
            r.wf(),
            r.nodes@ == Seq::<AffinityNode>::empty(),
            r.edges() == Seq::<(usize, usize, u64)>::empty(),
            r.link_time_shifts@ == Map::<(JobId, LinkId), u64>::empty(),
    {
        AffinityGraph {
            graph: new_weighted(),
            nodes: Vec::new(),
            job_to_node: DHashMap::new(),
            link_to_node: DHashMap::new(),
            link_time_shifts: DHashMap::new(),
        }
    }

    /// Adds a job, unless it is there. The result is its node.
    pub fn add_job(&mut self, job_id: JobId) -> (r: usize)
        requires
            old(self).wf(),
            old(self).nodes@.len() < MAX_GRAPH,
        ensures
            final(self).wf(),
            r < final(self).nodes@.len(),
            final(self).nodes@[r as int] == AffinityNode::Job(job_id),
            final(self).nodes@ == if old(self).nodes@.contains(AffinityNode::Job(job_id)) {
                old(self).nodes@
            } else {
                old(self).nodes@.push(AffinityNode::Job(job_id))
            },
            final(self).edges() == old(self).edges(),
            final(self).link_time_shifts == old(self).link_time_shifts,
    {
        let ghost before = self.nodes@;
        if let Some(n) = self.job_to_node.get(&job_id) {
            assert(before[*n as int] == AffinityNode::Job(job_id));
            return *n;
        }
        proof {
            if before.contains(AffinityNode::Job(job_id)) {
                let k = choose|k: int| 0 <= k < before.len() && before[k] == AffinityNode::Job(job_id);
                assert(self.job_to_node@.contains_key(job_id));
            }
        }
        let n: usize = add_weighted_node(&mut self.graph);
        self.nodes.push(AffinityNode::Job(job_id));
        self.job_to_node.insert(job_id, n);
        proof {
            assert forall|x: int| 0 <= x < self.nodes@.len() implies match #[trigger] self.nodes@[x] {
                AffinityNode::Job(j) => self.job_to_node@.contains_key(j) && self.job_to_node@[j] == x,
                AffinityNode::Link(l) => self.link_to_node@.contains_key(l) && self.link_to_node@[l] == x,
            } by {
                if x < n {
                    assert(self.nodes@[x] == before[x]);
                }
            }
        }
        n
    }

    /// Adds a link, unless it is there. The result is its node.
    pub fn add_link(&mut self, link_id: LinkId) -> (r: usize)
        requires
            old(self).wf(),
            old(self).nodes@.len() < MAX_GRAPH,
        ensures
            final(self).wf(),
            r < final(self).nodes@.len(),
            final(self).nodes@[r as int] == AffinityNode::Link(link_id),
            final(self).nodes@ == if old(self).nodes@.contains(AffinityNode::Link(link_id)) {
                old(self).nodes@
            } else {
                old(self).nodes@.push(AffinityNode::Link(link_id))
            },
            final(self).edges() == old(self).edges(),
            final(self).link_time_shifts == old(self).link_time_shifts,
    {
        let ghost before = self.nodes@;
        if let Some(n) = self.link_to_node.get(&link_id) {
            assert(before[*n as int] == AffinityNode::Link(link_id));
            return *n;
        }
        proof {
            if before.contains(AffinityNode::Link(link_id)) {
                let k = choose|k: int| 0 <= k < before.len() && before[k] == AffinityNode::Link(link_id);
                assert(self.link_to_node@.contains_key(link_id));
            }
        }
        let n: usize = add_weighted_node(&mut self.graph);
        self.nodes.push(AffinityNode::Link(link_id));
        self.link_to_node.insert(link_id, n);
        proof {
            assert forall|x: int| 0 <= x < self.nodes@.len() implies match #[trigger] self.nodes@[x] {
                AffinityNode::Job(j) => self.job_to_node@.contains_key(j) && self.job_to_node@[j] == x,
                AffinityNode::Link(l) => self.link_to_node@.contains_key(l) && self.link_to_node@[l] == x,
            } by {
                if x < n {
                    assert(self.nodes@[x] == before[x]);
                }
            }
        }
        n
    }

    /// A job uses a link, and runs so much later there.
    pub fn add_job_link_edge(&mut self, job_id: JobId, link_id: LinkId, time_shift_us: u64)
        requires
            old(self).wf(),
            old(self).nodes@.len() + 2 <= MAX_GRAPH,
            old(self).edges().len() < MAX_GRAPH,
        ensures
            final(self).wf(),
            final(self).nodes@ == with_node(
                with_node(old(self).nodes@, AffinityNode::Job(job_id)),
                AffinityNode::Link(link_id),
            ),
            final(self).job_to_node@.contains_key(job_id),
            final(self).link_to_node@.contains_key(link_id),
            final(self).edges() == old(self).edges().push(
                (final(self).job_to_node@[job_id], final(self).link_to_node@[link_id], time_shift_us),
            ),
            final(self).link_time_shifts@ == old(self).link_time_shifts@.insert((job_id, link_id), time_shift_us),
    {
        let job_node: usize = self.add_job(job_id);
        let ghost mid = self.nodes@;
        let link_node: usize = self.add_link(link_id);
        proof {
            assert(mid[job_node as int] == AffinityNode::Job(job_id));
            assert(self.nodes@[job_node as int] == AffinityNode::Job(job_id));
        }
        add_weighted_edge(&mut self.graph, job_node, link_node, time_shift_us);
        self.link_time_shifts.insert((job_id, link_id), time_shift_us);
    }

    /// Sets how much later a job runs on a link.
    pub fn set_link_time_shift(&mut self, job_id: JobId, link_id: LinkId, time_shift_us: u64)
        requires
            old(self).wf(),
        ensures
            final(self).wf(),
            final(self).nodes@ == old(self).nodes@,
            final(self).link_time_shifts@ == old(self).link_time_shifts@.insert((job_id, link_id), time_shift_us),
            final(self).edges() == with_shift(
                old(self).edges(),
                old(self).job_to_node@,
                old(self).link_to_node@,
                job_id,
                link_id,
                time_shift_us,
            ),
    {
        let ghost e = self.edges();
        self.link_time_shifts.insert((job_id, link_id), time_shift_us);
        if let Some(jn) = self.job_to_node.get(&job_id) {
            if let Some(ln) = self.link_to_node.get(&link_id) {
                let a: usize = *jn;
                let b: usize = *ln;
                proof {
                    lemma_last_between(e, a, b, e.len());
                    lemma_last_between(e, b, a, e.len());
                }
                if let Some(k) = find_weighted_edge(&self.graph, a, b) {
                    set_weight(&mut self.graph, k, time_shift_us);
                }
            }
        }
    }

    /// How much later a job runs on a link.
    pub fn get_link_time_shift(&self, job_id: JobId, link_id: LinkId) -> (r: Option<u64>)
        ensures
            r == (if self.link_time_shifts@.contains_key((job_id, link_id)) {
                Some(self.link_time_shifts@[(job_id, link_id)])
            } else {
                None
            }),
    {
        match self.link_time_shifts.get(&(job_id, link_id)) {
            Some(s) => Some(*s),
            None => None,
        }
    }
}

/// The nodes with another one, unless it is there.
pub open spec fn with_node(nodes: Seq<AffinityNode>, n: AffinityNode) -> Seq<AffinityNode> {
    if nodes.contains(n) {
        nodes
    } else {
        nodes.push(n)
    }
}

/// The edges with another weight for the last edge between a job and a link.
pub open spec fn with_shift(
    edges: Seq<(usize, usize, u64)>,
    jobs: Map<JobId, usize>,
    links: Map<LinkId, usize>,
    job_id: JobId,
    link_id: LinkId,
    weight: u64,
) -> Seq<(usize, usize, u64)> {
    if jobs.contains_key(job_id) && links.contains_key(link_id) {
        match last_between(edges, jobs[job_id], links[link_id], edges.len()) {
            Some(k) => edges.update(k as int, (edges[k as int].0, edges[k as int].1, weight)),
            None => edges,
        }
    } else {
        edges
    }
}

proof fn lemma_last_between(edges: Seq<(usize, usize, u64)>, a: usize, b: usize, n: nat)
    requires
        n <= edges.len(),
        n <= usize::MAX,
    ensures
        last_between(edges, a, b, n) matches Some(k) ==> k < n && edges[k as int].0 == a && edges[k as int].1 == b,
    decreases n,
{
    if n > 0 {
        lemma_last_between(edges, a, b, (n - 1) as nat);
    }
}

impl Default for AffinityGraph {
    fn default() -> (r: Self)
        ensures
            r.wf(),
            r.nodes@ == Seq::<AffinityNode>::empty(),
            r.edges() == Seq::<(usize, usize, u64)>::empty(),
            r.link_time_shifts@ == Map::<(JobId, LinkId), u64>::empty(),
    {
        AffinityGraph::new()
    }
}

proof fn lemma_none_from(edges: Seq<(usize, usize, u64)>, a: usize, n: nat)
    requires
        n <= edges.len(),
        forall|k: int| 0 <= k < n ==> (#[trigger] edges[k]).0 != a,
    ensures
        edges_from(edges, a, n) == Seq::<(usize, u64)>::empty(),
    decreases n,
{
    if n > 0 {
        lemma_none_from(edges, a, (n - 1) as nat);
    }
}

proof fn lemma_none_to(edges: Seq<(usize, usize, u64)>, a: usize, n: nat)
    requires
        n <= edges.len(),
        forall|k: int| 0 <= k < n ==> (#[trigger] edges[k]).1 != a,
    ensures
        edges_to(edges, a, n) == Seq::<(usize, u64)>::empty(),
    decreases n,
{
    if n > 0 {
        lemma_none_to(edges, a, (n - 1) as nat);
    }
}

/// The jobs of the listed ends.
pub open spec fn jobs_of(nodes: Seq<AffinityNode>, list: Seq<(usize, u64)>) -> Seq<JobId> {
    list.map_values(|e: (usize, u64)| job_at(nodes, e.0))
}

/// The links of the listed ends.
pub open spec fn links_of(nodes: Seq<AffinityNode>, list: Seq<(usize, u64)>) -> Seq<LinkId> {
    list.map_values(|e: (usize, u64)| link_at(nodes, e.0))
}

impl AffinityGraph {
    /// The jobs on a link, the last that was added first.
    pub open spec fn jobs_on(&self, link_id: LinkId) -> Seq<JobId> {
        if self.link_to_node@.contains_key(link_id) {
            jobs_of(self.nodes@, edges_to(self.edges(), self.link_to_node@[link_id], self.edges().len()))
        } else {
            Seq::empty()
        }
    }

    /// The links that a job uses, the last that was added first.
    pub open spec fn links_for(&self, job_id: JobId) -> Seq<LinkId> {
        if self.job_to_node@.contains_key(job_id) {
            links_of(self.nodes@, edges_from(self.edges(), self.job_to_node@[job_id], self.edges().len()))
        } else {
            Seq::empty()
        }
    }

    /// The nodes of the jobs on a link, with their weights.
    pub(crate) fn ends_at_link(&self, n: usize) -> (r: Vec<(usize, u64)>)
        requires
            self.wf(),
            n < self.nodes@.len(),
            self.nodes@[n as int] is Link,
        ensures
            r@ == edges_to(self.edges(), n, self.edges().len()),
            forall|i: int|
                0 <= i < r@.len() ==> is_to(self.edges(), n, self.edges().len(), #[trigger] r@[i]) && r@[i].0
                    < self.nodes@.len() && self.nodes@[r@[i].0 as int] is Job,
    {
        let ghost e = self.edges();
        let r = edges_of(&self.graph, n);
        proof {
            assert forall|k: int| 0 <= k < e.len() implies (#[trigger] e[k]).0 != n by {
                assert(self.nodes@[self.edges()[k].0 as int] is Job);
            }
            lemma_none_from(e, n, e.len());
            assert(r@ =~= edges_to(e, n, e.len()));
            assert forall|i: int| 0 <= i < r@.len() implies is_to(e, n, e.len(), #[trigger] r@[i]) && r@[i].0
                < self.nodes@.len() && self.nodes@[r@[i].0 as int] is Job by {
                lemma_edges_to(e, n, e.len(), r@[i]);
                assert(r@.contains(r@[i]));
                let k = choose|k: int| 0 <= k < e.len() && (#[trigger] e[k]) == (r@[i].0, n, r@[i].1);
                assert(self.edges()[k].0 < self.nodes@.len());
            }
        }
        r
    }

    /// The nodes of the links that a job uses, with their weights.
    pub(crate) fn ends_at_job(&self, n: usize) -> (r: Vec<(usize, u64)>)
        requires
            self.wf(),
            n < self.nodes@.len(),
            self.nodes@[n as int] is Job,
        ensures
            r@ == edges_from(self.edges(), n, self.edges().len()),
            forall|i: int|
                0 <= i < r@.len() ==> is_from(self.edges(), n, self.edges().len(), #[trigger] r@[i]) && r@[i].0
                    < self.nodes@.len() && self.nodes@[r@[i].0 as int] is Link,
    {
        let ghost e = self.edges();
        let r = edges_of(&self.graph, n);
        proof {
            assert forall|k: int| 0 <= k < e.len() implies (#[trigger] e[k]).1 != n by {
                assert(self.nodes@[self.edges()[k].1 as int] is Link);
            }
            lemma_none_to(e, n, e.len());
            assert(r@ =~= edges_from(e, n, e.len()));
            assert forall|i: int| 0 <= i < r@.len() implies is_from(e, n, e.len(), #[trigger] r@[i]) && r@[i].0
                < self.nodes@.len() && self.nodes@[r@[i].0 as int] is Link by {
                lemma_edges_from(e, n, e.len(), r@[i]);
                assert(r@.contains(r@[i]));
                let k = choose|k: int| 0 <= k < e.len() && (#[trigger] e[k]) == (n, r@[i].0, r@[i].1);
                assert(self.edges()[k].0 < self.nodes@.len());
            }
        }
        r
    }

    /// The jobs on a link, the last that was added first.
    pub fn get_jobs_on_link(&self, link_id: LinkId) -> (r: Vec<JobId>)
        requires
            self.wf(),
        ensures
            r@ == self.jobs_on(link_id),
    {
        let mut r: Vec<JobId> = Vec::new();
        if let Some(n) = self.link_to_node.get(&link_id) {
            let ends = self.ends_at_link(*n);
            let mut i: usize = 0;
            while i < ends.len()
                invariant
                    i <= ends@.len(),
                    forall|k: int|
                        0 <= k < ends@.len() ==> (#[trigger] ends@[k]).0 < self.nodes@.len()
                            && self.nodes@[ends@[k].0 as int] is Job,
                    r@ == jobs_of(self.nodes@, ends@.take(i as int)),
                decreases ends@.len() - i,
            {
                assert(ends@[i as int].0 < self.nodes@.len());
                if let AffinityNode::Job(j) = self.nodes[ends[i].0] {
                    r.push(j);
                }
                assert(r@ =~= jobs_of(self.nodes@, ends@.take(i + 1)));
                i += 1;
            }
            assert(ends@.take(ends@.len() as int) =~= ends@);
        }
        r
    }

    /// The links that a job uses, the last that was added first.
    pub fn get_links_for_job(&self, job_id: JobId) -> (r: Vec<LinkId>)
        requires
            self.wf(),
        ensures
            r@ == self.links_for(job_id),
    {
        let mut r: Vec<LinkId> = Vec::new();
        if let Some(n) = self.job_to_node.get(&job_id) {
            let ends = self.ends_at_job(*n);
            let mut i: usize = 0;
            while i < ends.len()
                invariant
                    i <= ends@.len(),
                    forall|k: int|
                        0 <= k < ends@.len() ==> (#[trigger] ends@[k]).0 < self.nodes@.len()
                            && self.nodes@[ends@[k].0 as int] is Link,
                    r@ == links_of(self.nodes@, ends@.take(i as int)),
                decreases ends@.len() - i,
            {
                assert(ends@[i as int].0 < self.nodes@.len());
                if let AffinityNode::Link(l) = self.nodes[ends[i].0] {
                    r.push(l);
                }
                assert(r@ =~= links_of(self.nodes@, ends@.take(i + 1)));
                i += 1;
            }
            assert(ends@.take(ends@.len() as int) =~= ends@);
        }
        r
    }

    /// The job is on a link with other entries.
    pub open spec fn shares_link(&self, job_id: JobId) -> bool {
        exists|l: LinkId| #[trigger] self.jobs_on(l).contains(job_id) && self.jobs_on(l).len() > 1
    }

    /// The jobs that are on a link with others, each once, in ascending order.
    pub fn get_jobs_sharing_links(&self) -> (r: Vec<JobId>)
        requires
            self.wf(),
        ensures
            r@.no_duplicates(),
            forall|j: JobId| #[trigger] r@.contains(j) == self.shares_link(j),
    {
        let mut found: DHashSet<JobId> = DHashSet::new();
        let links = self.link_to_node.keys();
        let mut i: usize = 0;
        while i < links.len()
            invariant
                i <= links@.len(),
                self.wf(),
                links@.to_set() == self.link_to_node@.dom(),
                forall|j: JobId| #[trigger] found@.contains(j) ==> self.shares_link(j),
                forall|x: int, j: JobId|
                    0 <= x < i && (#[trigger] self.jobs_on(links@[x])).len() > 1 && #[trigger] self.jobs_on(
                        links@[x],
                    ).contains(j) ==> found@.contains(j),
            decreases links@.len() - i,
        {
            let jobs = self.get_jobs_on_link(links[i]);
            if jobs.len() > 1 {
                let mut k: usize = 0;
                while k < jobs.len()
                    invariant
                        k <= jobs@.len(),
                        i < links@.len(),
                        jobs@.len() > 1,
                        jobs@ == self.jobs_on(links@[i as int]),
                        forall|j: JobId| #[trigger] found@.contains(j) ==> self.shares_link(j),
                        forall|x: int, j: JobId|
                            0 <= x < i && (#[trigger] self.jobs_on(links@[x])).len() > 1 && #[trigger] self.jobs_on(
                                links@[x],
                            ).contains(j) ==> found@.contains(j),
                        forall|x: int| 0 <= x < k ==> found@.contains(#[trigger] jobs@[x]),
                    decreases jobs@.len() - k,
                {
                    proof {
                        assert(self.jobs_on(links@[i as int]).contains(jobs@[k as int]));
                        assert(self.shares_link(jobs@[k as int]));
                    }
                    found.insert(jobs[k]);
                    k += 1;
                }
            }
            i += 1;
        }
        let r = found.sorted();
        proof {
            assert forall|j: JobId| #[trigger] r@.contains(j) == self.shares_link(j) by {
                assert(r@.contains(j) == r@.to_set().contains(j));
                if self.shares_link(j) {
                    let l = choose|l: LinkId| #[trigger] self.jobs_on(l).contains(j) && self.jobs_on(l).len() > 1;
                    assert(links@.to_set().contains(l));
                    let x = choose|x: int| 0 <= x < links@.len() && links@[x] == l;
                    assert(self.jobs_on(links@[x]).contains(j));
                }
            }
        }
        r
    }
}

/// Two of the first `n` edges go from a node to the same node.
spec fn twice(edges: Seq<(usize, usize, u64)>, a: usize, n: nat) -> bool {
    exists|i: int, j: int| 0 <= i < j < n && edges[i].0 == a && #[trigger] same_pair(edges[i], edges[j])
}

/// Two edges go between the same nodes.
spec fn same_pair(x: (usize, usize, u64), y: (usize, usize, u64)) -> bool {
    x.0 == y.0 && x.1 == y.1
}

/// Two entries are the same node.
spec fn repeats(list: Seq<(usize, u64)>) -> bool {
    exists|i: int, j: int| 0 <= i < j < list.len() && (#[trigger] list[i]).0 == (#[trigger] list[j]).0
}

proof fn lemma_repeats(edges: Seq<(usize, usize, u64)>, a: usize, n: nat)
    requires
        n <= edges.len(),
    ensures
        repeats(edges_from(edges, a, n)) == twice(edges, a, n),
    decreases n,
{
    if n > 0 {
        let m = (n - 1) as nat;
        lemma_repeats(edges, a, m);
        let last = edges[m as int];
        let rest = edges_from(edges, a, m);
        let all = edges_from(edges, a, n);
        if last.0 == a {
            assert(all =~= seq![(last.1, last.2)] + rest);
            if repeats(all) {
                let (i, j) = choose|i: int, j: int|
                    0 <= i < j < all.len() && (#[trigger] all[i]).0 == (#[trigger] all[j]).0;
                assert(all[j] == rest[j - 1]);
                if i > 0 {
                    assert(all[i] == rest[i - 1]);
                    assert(repeats(rest));
                    let (x, y) = choose|x: int, y: int|
                        0 <= x < y < m && edges[x].0 == a && #[trigger] same_pair(edges[x], edges[y]);
                    assert(same_pair(edges[x], edges[y]));
                } else {
                    lemma_edges_from(edges, a, m, rest[j - 1]);
                    assert(rest.contains(rest[j - 1]));
                    let k = choose|k: int|
                        0 <= k < m && (#[trigger] edges[k]) == (a, rest[j - 1].0, rest[j - 1].1);
                    assert(same_pair(edges[k], edges[m as int]));
                }
            }
            if twice(edges, a, n) {
                let (x, y) = choose|x: int, y: int|
                    0 <= x < y < n && edges[x].0 == a && #[trigger] same_pair(edges[x], edges[y]);
                if y < m {
                    assert(twice(edges, a, m));
                    let (i, j) = choose|i: int, j: int|
                        0 <= i < j < rest.len() && (#[trigger] rest[i]).0 == (#[trigger] rest[j]).0;
                    assert(all[i + 1] == rest[i] && all[j + 1] == rest[j]);
                } else {
                    let e = (edges[x].1, edges[x].2);
                    lemma_edges_from(edges, a, m, e);
                    assert(edges[x] == (a, e.0, e.1));
                    assert(is_from(edges, a, m, e));
                    let j = choose|j: int| 0 <= j < rest.len() && rest[j] == e;
                    assert(all[j + 1] == e);
                    assert(all[0] == (last.1, last.2));
                }
            }
        } else {
            assert(all =~= rest);
            if twice(edges, a, n) {
                let (x, y) = choose|x: int, y: int|
                    0 <= x < y < n && edges[x].0 == a && #[trigger] same_pair(edges[x], edges[y]);
                assert(y < m);
            }
            if twice(edges, a, m) {
                let (x, y) = choose|x: int, y: int|
                    0 <= x < y < m && edges[x].0 == a && #[trigger] same_pair(edges[x], edges[y]);
                assert(same_pair(edges[x], edges[y]));
            }
        }
    }
}

/// The list holds the edges from the nodes before `v`, and one of them twice exactly if it is there twice.
spec fn listed(edges: Seq<(usize, usize, u64)>, list: Seq<(usize, usize)>, v: int) -> bool {
    &&& forall|x: (usize, usize)| #[trigger] list.contains(x) == (x.0 < v && node_pairs(edges).contains(x))
    &&& list.no_duplicates() == !(exists|a: usize| a < v && #[trigger] twice(edges, a, edges.len()))
}

proof fn lemma_listed_next(
    edges: Seq<(usize, usize, u64)>,
    before: Seq<(usize, usize)>,
    ends: Seq<(usize, u64)>,
    list: Seq<(usize, usize)>,
    v: usize,
)
    requires
        listed(edges, before, v as int),
        ends == edges_from(edges, v, edges.len()),
        list == before + ends.map_values(|e: (usize, u64)| (v, e.0)),
    ensures
        listed(edges, list, v + 1),
{
    let n = edges.len();
    let block = ends.map_values(|e: (usize, u64)| (v, e.0));
    let pairs = node_pairs(edges);
    assert forall|x: (usize, usize)| block.contains(x) == (x.0 == v && pairs.contains(x)) by {
        if block.contains(x) {
            let i = choose|i: int| 0 <= i < block.len() && block[i] == x;
            lemma_edges_from(edges, v, n, ends[i]);
            assert(ends.contains(ends[i]));
            let k = choose|k: int| 0 <= k < n && (#[trigger] edges[k]) == (v, ends[i].0, ends[i].1);
            assert(pairs[k] == x);
        }
        if x.0 == v && pairs.contains(x) {
            let k = choose|k: int| 0 <= k < pairs.len() && pairs[k] == x;
            let e = (edges[k].1, edges[k].2);
            assert(edges[k] == (v, e.0, e.1));
            lemma_edges_from(edges, v, n, e);
            assert(is_from(edges, v, n, e));
            let i = choose|i: int| 0 <= i < ends.len() && ends[i] == e;
            assert(block[i] == x);
        }
    }
    assert forall|x: (usize, usize)| #[trigger] list.contains(x) == (x.0 < v + 1 && pairs.contains(x)) by {
        if list.contains(x) {
            let i = choose|i: int| 0 <= i < list.len() && list[i] == x;
            if i < before.len() {
                assert(before[i] == x);
                assert(before.contains(x));
            } else {
                assert(block[i - before.len()] == x);
                assert(block.contains(x));
            }
        }
        if before.contains(x) {
            let i = choose|i: int| 0 <= i < before.len() && before[i] == x;
            assert(list[i] == x);
        }
        if block.contains(x) {
            let i = choose|i: int| 0 <= i < block.len() && block[i] == x;
            assert(list[before.len() + i] == x);
        }
    }
    lemma_repeats(edges, v, n);
    if list.no_duplicates() {
        assert(before.no_duplicates()) by {
            assert forall|i: int, j: int| 0 <= i < before.len() && 0 <= j < before.len() && i != j implies before[i]
                != before[j] by {
                assert(list[i] == before[i] && list[j] == before[j]);
            }
        }
        if repeats(ends) {
            let (i, j) = choose|i: int, j: int|
                0 <= i < j < ends.len() && (#[trigger] ends[i]).0 == (#[trigger] ends[j]).0;
            assert(list[before.len() + i] == list[before.len() + j]);
        }
    } else {
        let (i, j) = choose|i: int, j: int| 0 <= i < list.len() && 0 <= j < list.len() && i != j && list[i] == list[j];
        if i < before.len() && j < before.len() {
            assert(before[i] == before[j]);
        } else if i >= before.len() && j >= before.len() {
            let (x, y) = (i - before.len(), j - before.len());
            assert(ends[x].0 == ends[y].0);
            assert(x < y ==> repeats(ends));
            assert(y < x ==> repeats(ends));
        } else if i < before.len() {
            assert(before.contains(before[i]));
        } else {
            assert(before.contains(before[j]));
        }
    }
    if exists|a: usize| a < v + 1 && #[trigger] twice(edges, a, n) {
        let a = choose|a: usize| a < v + 1 && #[trigger] twice(edges, a, n);
        assert(a < v || a == v);
    }
}

impl AffinityGraph {
    /// The edges, by their job.
    fn list_edges(&self) -> (r: Vec<(usize, usize)>)
        requires
            self.wf(),
        ensures
            ends_within(r@, self.nodes@.len()),
            forall|k: int| 0 <= k < r@.len() ==> (#[trigger] r@[k]).0 != r@[k].1,
            forall|a: usize, b: usize| #[trigger]
                joined(r@, r@.len(), a, b) == joined(node_pairs(self.edges()), self.edges().len(), a, b),
            doubled(r@, r@.len()) == doubled(node_pairs(self.edges()), self.edges().len()),
    {
        let ghost e = self.edges();
        let ghost pairs = node_pairs(e);
        let mut r: Vec<(usize, usize)> = Vec::new();
        let mut v: usize = 0;
        assert(listed(e, r@, 0));
        while v < self.nodes.len()
            invariant
                self.wf(),
                v <= self.nodes@.len(),
                e == self.edges(),
                listed(e, r@, v as int),
            decreases self.nodes@.len() - v,
        {
            let ghost before = r@;
            if let AffinityNode::Job(_) = self.nodes[v] {
                let ends = self.ends_at_job(v);
                let mut i: usize = 0;
                while i < ends.len()
                    invariant
                        i <= ends@.len(),
                        r@ == before + ends@.take(i as int).map_values(|x: (usize, u64)| (v, x.0)),
                    decreases ends@.len() - i,
                {
                    r.push((v, ends[i].0));
                    assert(r@ =~= before + ends@.take(i + 1).map_values(|x: (usize, u64)| (v, x.0)));
                    i += 1;
                }
                assert(ends@.take(ends@.len() as int) =~= ends@);
                proof {
                    lemma_listed_next(e, before, ends@, r@, v);
                }
            } else {
                proof {
                    assert forall|k: int| 0 <= k < e.len() implies (#[trigger] e[k]).0 != v by {
                        assert(self.nodes@[self.edges()[k].0 as int] is Job);
                    }
                    lemma_none_from(e, v, e.len());
                    let none = Seq::<(usize, u64)>::empty();
                    assert(r@ =~= before + none.map_values(|x: (usize, u64)| (v, x.0)));
                    lemma_listed_next(e, before, none, r@, v);
                }
            }
            v += 1;
        }
        proof {
            assert forall|k: int| 0 <= k < pairs.len() implies (#[trigger] pairs[k]).0 < self.nodes@.len()
                && pairs[k].1 < self.nodes@.len() && self.nodes@[pairs[k].0 as int] is Job
                && self.nodes@[pairs[k].1 as int] is Link by {
                assert(self.edges()[k].0 < self.nodes@.len());
            }
            assert forall|k: int| 0 <= k < r@.len() implies pairs.contains(#[trigger] r@[k]) by {
                assert(r@.contains(r@[k]));
            }
            assert forall|a: usize, b: usize| #[trigger] joined(r@, r@.len(), a, b) == joined(pairs, e.len(), a, b) by {
                lemma_same_pairs(r@, pairs, a, b);
                lemma_same_pairs(pairs, r@, a, b);
            }
            lemma_doubled(e, r@, self.nodes@);
        }
        r
    }

    /// There is a loop: then the time shifts of its jobs cannot agree with those on its links.
    pub fn has_loops(&self) -> (r: bool)
        requires
            self.wf(),
        ensures
            r == has_loop(node_pairs(self.edges()), self.edges().len()),
    {
        let list = self.list_edges();
        let (_, found) = label_nodes(&list, self.nodes.len());
        proof {
            let pairs = node_pairs(self.edges());
            let n = self.edges().len();
            lemma_same_joined(list@, list@.len(), pairs, n);
            if exists|p: Seq<usize>| #[trigger] is_loop(list@, list@.len(), p) {
                let p = choose|p: Seq<usize>| #[trigger] is_loop(list@, list@.len(), p);
                assert(is_loop(pairs, n, p));
            }
            if exists|p: Seq<usize>| #[trigger] is_loop(pairs, n, p) {
                let p = choose|p: Seq<usize>| #[trigger] is_loop(pairs, n, p);
                assert(is_loop(list@, list@.len(), p));
            }
        }
        found
    }

    /// The number of parts of the graph whose nodes have ways between them.
    pub fn count_connected_components(&self) -> (r: usize)
        requires
            self.wf(),
        ensures
            has_parts(node_pairs(self.edges()), self.nodes@.len(), r as nat),
    {
        let list = self.list_edges();
        let r: usize = count_parts(&list, self.nodes.len());
        proof {
            let pairs = node_pairs(self.edges());
            let count = self.nodes@.len();
            lemma_same_joined(list@, list@.len(), pairs, pairs.len());
            let reps = choose|reps: Seq<usize>| #[trigger] is_one_per_part(list@, count, reps) && reps.len() == r;
            assert forall|i: int, j: int| 0 <= i < j < reps.len() implies !#[trigger] reachable(
                pairs,
                pairs.len(),
                reps[i],
                reps[j],
            ) by {
                assert(!reachable(list@, list@.len(), reps[i], reps[j]));
            }
            assert forall|v: usize| v < count implies #[trigger] has_rep(pairs, reps, v) by {
                assert(has_rep(list@, reps, v));
                let i = choose|i: int| 0 <= i < reps.len() && #[trigger] reachable(list@, list@.len(), v, reps[i]);
                assert(reachable(pairs, pairs.len(), v, reps[i]));
            }
            assert(is_one_per_part(pairs, count, reps));
        }
        r
    }
}

proof fn lemma_same_pairs(e: Seq<(usize, usize)>, f: Seq<(usize, usize)>, a: usize, b: usize)
    requires
        forall|k: int| 0 <= k < e.len() ==> f.contains(#[trigger] e[k]),
    ensures
        joined(e, e.len(), a, b) ==> joined(f, f.len(), a, b),
{
    if joined(e, e.len(), a, b) {
        let k = choose|k: int|
            0 <= k < e.len() && ((#[trigger] e[k]).0 == a && e[k].1 == b || e[k].0 == b && e[k].1 == a);
        assert(f.contains(e[k]));
        let m = choose|m: int| 0 <= m < f.len() && f[m] == e[k];
        assert(f[m].0 == a && f[m].1 == b || f[m].0 == b && f[m].1 == a);
    }
}

/// Edges from jobs to links join the same nodes twice exactly if one is listed twice.
proof fn lemma_doubled(edges: Seq<(usize, usize, u64)>, list: Seq<(usize, usize)>, nodes: Seq<AffinityNode>)
    requires
        listed(edges, list, nodes.len() as int),
        forall|k: int|
            0 <= k < edges.len() ==> {
                &&& (#[trigger] edges[k]).0 < nodes.len()
                &&& edges[k].1 < nodes.len()
                &&& nodes[edges[k].0 as int] is Job
                &&& nodes[edges[k].1 as int] is Link
            },
    ensures
        doubled(list, list.len()) == doubled(node_pairs(edges), edges.len()),
{
    let pairs = node_pairs(edges);
    let n = edges.len();
    assert forall|k: int| 0 <= k < list.len() implies nodes[(#[trigger] list[k]).0 as int] is Job
        && nodes[list[k].1 as int] is Link by {
        assert(list.contains(list[k]));
        let m = choose|m: int| 0 <= m < pairs.len() && pairs[m] == list[k];
        assert(nodes[edges[m].0 as int] is Job);
    }
    if doubled(list, list.len()) {
        let (i, j) = choose|i: int, j: int| 0 <= i < j < list.len() && #[trigger] same_ends(list[i], list[j]);
        assert(list[i] == list[j]);
        let a = choose|a: usize| a < nodes.len() && #[trigger] twice(edges, a, n);
        let (x, y) = choose|x: int, y: int|
            0 <= x < y < n && edges[x].0 == a && #[trigger] same_pair(edges[x], edges[y]);
        assert(same_ends(pairs[x], pairs[y]));
    }
    if doubled(pairs, n) {
        let (x, y) = choose|x: int, y: int| 0 <= x < y < n && #[trigger] same_ends(pairs[x], pairs[y]);
        assert(nodes[edges[x].0 as int] is Job && nodes[edges[y].1 as int] is Link);
        assert(same_pair(edges[x], edges[y]));
        assert(twice(edges, edges[x].0, n));
        let (i, j) = choose|i: int, j: int| 0 <= i < list.len() && 0 <= j < list.len() && i != j && list[i] == list[j];
        if i < j {
            assert(same_ends(list[i], list[j]));
        } else {
            assert(same_ends(list[j], list[i]));
        }
    }
}

} // verus!
