//! Networks of two layers: hosts below leaf switches, and every leaf linked to every spine.
//!
//! Nodes are numbered: hosts first, leaf by leaf, then the leaves, then the spines.

use vstd::arithmetic::div_mod::{lemma_fundamental_div_mod, lemma_fundamental_div_mod_converse};
use vstd::prelude::*;

use crate::network::graph::{lemma_last_link, link_id, LinkGraph, LinkId, MAX_GRAPH};
use crate::simulator::context::MLContext;
use crate::simulator::ml_worker::{FlowId, JobId};

verus! {

/// Why a flow has no route.
#[derive(Debug, Clone, Copy, PartialEq, Eq, Structural)]
pub enum RouteFault {
    /// Nothing is known of the flow.
    UnknownFlow(FlowId),
    /// There is no route for the flow.
    NoRoute(FlowId),
    /// There is no route for the flow of a job.
    NoJobRoute(JobId, usize),
}

/// A path through the network.
pub type Path = Vec<LinkId>;

/// The size of a spine network.
pub struct SpineSize {
    pub hosts_per_leaf: nat,
    pub num_leaves: nat,
    pub num_spines: nat,
}

impl SpineSize {
    /// Number of hosts.
    pub open spec fn hosts(self) -> nat {
        self.num_leaves * self.hosts_per_leaf
    }

    /// Number of nodes.
    pub open spec fn nodes(self) -> nat {
        self.hosts() + self.num_leaves + self.num_spines
    }

    /// Number of links.
    pub open spec fn links(self) -> nat {
        2 * self.hosts() + 2 * (self.num_leaves * self.num_spines)
    }

    /// The leaf of a host, as a node.
    pub open spec fn leaf_of(self, host: int) -> int {
        self.hosts() + host / self.hosts_per_leaf as int
    }

    /// The ends of the link with a number: from and to each host in turn, and then from and to each
    /// spine, leaf by leaf.
    pub open spec fn ends(self, id: int) -> (int, int) {
        let h = self.hosts() as int;
        if id < 2 * h {
            let host = id / 2;
            if id % 2 == 0 {
                (host, self.leaf_of(host))
            } else {
                (self.leaf_of(host), host)
            }
        } else {
            let mesh = (id - 2 * h) / 2;
            let leaf = h + mesh / self.num_spines as int;
            let spine = h + self.num_leaves + mesh % self.num_spines as int;
            if id % 2 == 0 {
                (leaf, spine)
            } else {
                (spine, leaf)
            }
        }
    }

    /// All links.
    pub open spec fn all_links(self) -> Seq<(usize, usize, usize)> {
        Seq::new(self.links(), |id: int| (self.ends(id).0 as usize, self.ends(id).1 as usize, id as usize))
    }

    /// The number of the link between leaf and spine.
    pub open spec fn up_link(self, leaf: int, spine: int) -> int {
        2 * self.hosts() + 2 * (leaf * self.num_spines + spine)
    }

    /// The numbers can be used as indices.
    pub open spec fn fits(self) -> bool {
        self.nodes() <= MAX_GRAPH && self.links() <= MAX_GRAPH
    }
}

/// The ends of a link are nodes.
proof fn lemma_ends(s: SpineSize, id: int)
    requires
        0 <= id < s.links(),
    ensures
        0 <= s.ends(id).0 < s.nodes(),
        0 <= s.ends(id).1 < s.nodes(),
        id < 2 * s.hosts() ==> s.hosts_per_leaf > 0 && 0 <= id / 2 < s.hosts() && s.hosts() <= s.leaf_of(id / 2)
            < s.hosts() + s.num_leaves,
        id >= 2 * s.hosts() ==> {
            let mesh = (id - 2 * s.hosts()) / 2;
            &&& s.num_spines > 0
            &&& 0 <= mesh / s.num_spines as int
            &&& (mesh / s.num_spines as int) < s.num_leaves
            &&& 0 <= mesh % (s.num_spines as int) < s.num_spines
            &&& mesh == (mesh / s.num_spines as int) * s.num_spines + mesh % s.num_spines as int
        },
{
    let h = s.hosts() as int;
    let d = s.hosts_per_leaf as int;
    let l = s.num_leaves as int;
    let n = s.num_spines as int;
    if id < 2 * h {
        let host = id / 2;
        assert(d > 0 && l > 0) by (nonlinear_arith)
            requires
                0 <= host < l * d,
                l >= 0,
                d >= 0,
        ;
        lemma_fundamental_div_mod(host, d);
        assert(0 <= host / d && host / d < l) by (nonlinear_arith)
            requires
                0 <= host < l * d,
                d > 0,
                host == d * (host / d) + host % d,
                0 <= host % d < d,
        ;
    } else {
        let mesh = (id - 2 * h) / 2;
        assert(n > 0 && l > 0) by (nonlinear_arith)
            requires
                0 <= mesh < l * n,
                l >= 0,
                n >= 0,
        ;
        lemma_fundamental_div_mod(mesh, n);
        assert(0 <= mesh / n && mesh / n < l && mesh == (mesh / n) * n + mesh % n) by (nonlinear_arith)
            requires
                0 <= mesh < l * n,
                n > 0,
                mesh == n * (mesh / n) + mesh % n,
                0 <= mesh % n < n,
        ;
    }
}

/// A link that is the only one with its ends is found by them.
proof fn lemma_only_link(s: SpineSize, id: int)
    requires
        s.fits(),
        0 <= id < s.links(),
        forall|i: int| 0 <= i < s.links() && i != id ==> #[trigger] s.ends(i) != s.ends(id),
    ensures
        link_id(s.all_links(), s.ends(id).0 as usize, s.ends(id).1 as usize) == Some(id as usize),
{
    let links = s.all_links();
    let a = s.ends(id).0 as usize;
    let b = s.ends(id).1 as usize;
    lemma_ends(s, id);
    lemma_last_link(links, a, b, links.len());
    assert(links[id].0 == a && links[id].1 == b);
    match crate::network::graph::last_link(links, a, b, links.len()) {
        Some(e) => {
            lemma_ends(s, e as int);
            assert(s.ends(e as int) == s.ends(id));
        },
        None => {},
    }
}

/// A host is linked to its leaf, and the leaf to it.
pub proof fn lemma_host_links(s: SpineSize, host: int)
    requires
        s.fits(),
        0 <= host < s.hosts(),
    ensures
        s.hosts() <= s.leaf_of(host) < s.hosts() + s.num_leaves,
        link_id(s.all_links(), host as usize, s.leaf_of(host) as usize) == Some((2 * host) as usize),
        link_id(s.all_links(), s.leaf_of(host) as usize, host as usize) == Some((2 * host + 1) as usize),
{
    lemma_ends(s, 2 * host);
    assert forall|i: int| 0 <= i < s.links() && i != 2 * host implies #[trigger] s.ends(i) != s.ends(2 * host) by {
        lemma_ends(s, i);
    }
    assert forall|i: int| 0 <= i < s.links() && i != 2 * host + 1 implies #[trigger] s.ends(i) != s.ends(
        2 * host + 1,
    ) by {
        lemma_ends(s, i);
    }
    lemma_only_link(s, 2 * host);
    lemma_only_link(s, 2 * host + 1);
}

/// Every leaf is linked to every spine, and every spine to every leaf.
pub proof fn lemma_mesh_links(s: SpineSize, leaf: int, spine: int)
    requires
        s.fits(),
        0 <= leaf < s.num_leaves,
        0 <= spine < s.num_spines,
    ensures
        link_id(
            s.all_links(),
            (s.hosts() + leaf) as usize,
            (s.hosts() + s.num_leaves + spine) as usize,
        ) == Some(s.up_link(leaf, spine) as usize),
        link_id(
            s.all_links(),
            (s.hosts() + s.num_leaves + spine) as usize,
            (s.hosts() + leaf) as usize,
        ) == Some((s.up_link(leaf, spine) + 1) as usize),
{
    let n = s.num_spines as int;
    let id = s.up_link(leaf, spine);
    let mesh = leaf * n + spine;
    assert(0 <= mesh < s.num_leaves * s.num_spines) by (nonlinear_arith)
        requires
            0 <= leaf < s.num_leaves,
            0 <= spine < n,
            n == s.num_spines,
            mesh == leaf * n + spine,
    ;
    lemma_fundamental_div_mod_converse(mesh, n, leaf, spine);
    assert((id - 2 * s.hosts()) / 2 == mesh);
    assert((id + 1 - 2 * s.hosts()) / 2 == mesh);
    assert forall|i: int| 0 <= i < s.links() && i != id implies #[trigger] s.ends(i) != s.ends(id) by {
        lemma_ends(s, i);
    }
    assert forall|i: int| 0 <= i < s.links() && i != id + 1 implies #[trigger] s.ends(i) != s.ends(id + 1) by {
        lemma_ends(s, i);
    }
    lemma_only_link(s, id);
    lemma_only_link(s, id + 1);
}

/// A network of leaves and spines.
pub struct SpineTree {
    pub graph: LinkGraph,
    pub hosts_per_leaf: usize,
    pub num_leaves: usize,
    pub num_spines: usize,
}

/// Finds routes in a spine network. Nothing is assumed of what it answers.
pub trait SpineTreeRouter: Sized {
    /// The route of a flow from one host to another.
    fn route(
        &mut self,
        topo: &SpineTree,
        ctx: &MLContext,
        src: usize,
        dst: usize,
        flow_id: FlowId,
    ) -> (r: Result<Path, RouteFault>)
        requires
            topo.wf(),
            topo.num_spines > 0 || topo.size().leaf_of(src as int) == topo.size().leaf_of(dst as int),
            src < topo.size().hosts(),
            dst < topo.size().hosts(),
    ;

    /// The flow is through.
    fn complete_flow(&mut self, flow_id: FlowId);
}

impl SpineTree {
    /// The size of the network.
    pub open spec fn size(&self) -> SpineSize {
        SpineSize {
            hosts_per_leaf: self.hosts_per_leaf as nat,
            num_leaves: self.num_leaves as nat,
            num_spines: self.num_spines as nat,
        }
    }

    /// The graph is that of a network of this size.
    pub open spec fn wf(&self) -> bool {
        &&& self.size().fits()
        &&& self.graph.num_nodes() == self.size().nodes()
        &&& self.graph.links() == self.size().all_links()
    }

    /// Builds the network.
    pub fn new(hosts_per_leaf: usize, num_leaves: usize, num_spines: usize) -> (r: Self)
        requires
            (SpineSize {
                hosts_per_leaf: hosts_per_leaf as nat,
                num_leaves: num_leaves as nat,
                num_spines: num_spines as nat,
            }).fits(),
        ensures
            r.wf(),
            r.hosts_per_leaf == hosts_per_leaf,
            r.num_leaves == num_leaves,
            r.num_spines == num_spines,
    {
        let ghost s = SpineSize {
            hosts_per_leaf: hosts_per_leaf as nat,
            num_leaves: num_leaves as nat,
            num_spines: num_spines as nat,
        };
        let hosts: usize = num_leaves * hosts_per_leaf;
        let nodes: usize = hosts + num_leaves + num_spines;
        let mesh: usize = num_leaves * num_spines;
        let total: usize = 2 * hosts + 2 * mesh;
        let mut graph = LinkGraph::new();
        let mut i: usize = 0;
        while i < nodes
            invariant
                i <= nodes <= MAX_GRAPH,
                graph.num_nodes() == i,
                graph.links() == Seq::<(usize, usize, usize)>::empty(),
            decreases nodes - i,
        {
            graph.add_node();
            i += 1;
        }
        let mut id: usize = 0;
        proof {
            assert(graph.links() =~= s.all_links().take(0));
        }
        while id < total
            invariant
                id <= total,
                total == s.links(),
                hosts == s.hosts(),
                nodes == s.nodes(),
                s.hosts_per_leaf == hosts_per_leaf,
                s.num_leaves == num_leaves,
                s.num_spines == num_spines,
                s.fits(),
                graph.num_nodes() == nodes,
                graph.links() == s.all_links().take(id as int),
            decreases total - id,
        {
            proof {
                lemma_ends(s, id as int);
            }
            let (from, to): (usize, usize) = if id < 2 * hosts {
                let host: usize = id / 2;
                (host, hosts + host / hosts_per_leaf)
            } else {
                let m: usize = (id - 2 * hosts) / 2;
                (hosts + m / num_spines, hosts + num_leaves + m % num_spines)
            };
            if id % 2 == 0 {
                graph.add_link(from, to, id);
            } else {
                graph.add_link(to, from, id);
            }
            proof {
                assert(graph.links() =~= s.all_links().take(id + 1));
            }
            id += 1;
        }
        proof {
            assert(s.all_links().take(total as int) =~= s.all_links());
        }
        SpineTree { graph, hosts_per_leaf, num_leaves, num_spines }
    }

    /// Number of hosts.
    pub fn total_hosts(&self) -> (r: usize)
        requires
            self.wf(),
        ensures
            r == self.size().hosts(),
    {
        self.num_leaves * self.hosts_per_leaf
    }

    /// The node of a host.
    pub fn get_host_by_index(&self, index: usize) -> (r: Option<usize>)
        requires
            self.wf(),
        ensures
            r == if index < self.size().hosts() {
                Some(index)
            } else {
                None
            },
    {
        if index < self.total_hosts() {
            Some(index)
        } else {
            None
        }
    }

    /// The node of a host below a leaf.
    pub fn get_host(&self, leaf: usize, host: usize) -> (r: Option<usize>)
        requires
            self.wf(),
        ensures
            r == if leaf < self.num_leaves && host < self.hosts_per_leaf {
                Some((leaf * self.hosts_per_leaf + host) as usize)
            } else {
                None
            },
            r matches Some(n) ==> n < self.size().hosts() && n == leaf * self.hosts_per_leaf + host,
    {
        if leaf < self.num_leaves && host < self.hosts_per_leaf {
            proof {
                assert(leaf * self.hosts_per_leaf + host < self.num_leaves * self.hosts_per_leaf) by (nonlinear_arith)
                    requires
                        leaf < self.num_leaves,
                        host < self.hosts_per_leaf,
                ;
            }
            Some(leaf * self.hosts_per_leaf + host)
        } else {
            None
        }
    }

    /// The node of a leaf.
    pub fn get_leaf(&self, leaf: usize) -> (r: Option<usize>)
        requires
            self.wf(),
        ensures
            r == if leaf < self.num_leaves {
                Some((self.size().hosts() + leaf) as usize)
            } else {
                None
            },
    {
        if leaf < self.num_leaves {
            Some(self.total_hosts() + leaf)
        } else {
            None
        }
    }

    /// The node of a spine.
    pub fn get_spine(&self, spine: usize) -> (r: usize)
        requires
            self.wf(),
            spine < self.num_spines,
        ensures
            r == self.size().hosts() + self.num_leaves + spine,
    {
        self.total_hosts() + self.num_leaves + spine
    }

    /// The leaf of a host, as a node.
    pub fn get_host_leaf(&self, host: usize) -> (r: usize)
        requires
            self.wf(),
            host < self.size().hosts(),
        ensures
            r == self.size().leaf_of(host as int),
            self.size().hosts() <= r < self.size().hosts() + self.num_leaves,
    {
        proof {
            lemma_ends(self.size(), 2 * host);
        }
        self.total_hosts() + host / self.hosts_per_leaf
    }

    /// The number of a leaf that is given as a node.
    pub fn leaf_index_from_node(&self, leaf: usize) -> (r: usize)
        requires
            self.wf(),
            self.size().hosts() <= leaf < self.size().hosts() + self.num_leaves,
        ensures
            r == leaf - self.size().hosts(),
    {
        leaf - self.total_hosts()
    }

    /// The number of a spine that is given as a node.
    pub fn spine_index_from_node(&self, spine: usize) -> (r: usize)
        requires
            self.wf(),
            self.size().hosts() + self.num_leaves <= spine < self.size().nodes(),
        ensures
            r == spine - self.size().hosts() - self.num_leaves,
    {
        spine - self.total_hosts() - self.num_leaves
    }

    /// The leaf of a host and its place there.
    pub fn leaf_and_host_from_node(&self, host: usize) -> (r: (usize, usize))
        requires
            self.wf(),
            host < self.size().hosts(),
        ensures
            r.0 == host / self.hosts_per_leaf,
            r.1 == host % self.hosts_per_leaf,
            r.0 < self.num_leaves,
    {
        proof {
            lemma_ends(self.size(), 2 * host);
        }
        (host / self.hosts_per_leaf, host % self.hosts_per_leaf)
    }
}

} // verus!
