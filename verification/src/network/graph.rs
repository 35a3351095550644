//! The graph of a network: nodes are hosts and switches, links lead from one to another and have
//! identifiers.

use petgraph::graph::{DiGraph, EdgeIndex, NodeIndex};
use vstd::prelude::*;

verus! {

/// Identifies a link.
pub type LinkId = usize;

/// The graphs of petgraph.
#[verifier::external_type_specification]
#[verifier::external_body]
#[verifier::reject_recursive_types(N)]
#[verifier::reject_recursive_types(E)]
#[verifier::reject_recursive_types(Ty)]
#[verifier::reject_recursive_types(Ix)]
pub struct ExGraph<N, E, Ty, Ix>(petgraph::graph::Graph<N, E, Ty, Ix>);

/// The marker of directed graphs.
#[verifier::external_type_specification]
#[verifier::external_body]
pub struct ExDirected(petgraph::Directed);

/// The nodes of a graph, by index.
pub uninterp spec fn graph_nodes(g: DiGraph<(), usize>) -> Seq<()>;

/// The links of a graph in the order in which they were added: from, to, and the identifier.
pub uninterp spec fn graph_links(g: DiGraph<(), usize>) -> Seq<(usize, usize, usize)>;

/// Calls `petgraph::graph::Graph::new`, which makes a graph without nodes and edges.
#[verifier::external_body]
fn new_graph() -> (g: DiGraph<(), usize>)
    ensures
        (graph_nodes(g) == Seq::<()>::empty()),
        (graph_links(g) == Seq::<(usize, usize, usize)>::empty()),
{
    DiGraph::new()
}

/// Calls `petgraph::graph::Graph::add_node`, which appends a node and returns its index. It panics
/// at the largest number of nodes that 32-bit indices allow.
#[verifier::external_body]
fn add_graph_node(g: &mut DiGraph<(), usize>) -> (r: usize)
    requires
        graph_nodes(*old(g)).len() < u32::MAX,
    ensures
        r == graph_nodes(*old(g)).len(),
        graph_nodes(*final(g)) == graph_nodes(*old(g)).push(()),
        graph_links(*final(g)) == graph_links(*old(g)),
{
    g.add_node(()).index()
}

/// Calls `petgraph::graph::Graph::add_edge`, which appends an edge between two nodes, next to those
/// that there are. It panics if a node does not exist, and at the largest number of edges that
/// 32-bit indices allow.
#[verifier::external_body]
fn add_graph_edge(g: &mut DiGraph<(), usize>, from: usize, to: usize, id: usize)
    requires
        from < graph_nodes(*old(g)).len(),
        to < graph_nodes(*old(g)).len(),
        graph_links(*old(g)).len() < u32::MAX,
    ensures
        graph_nodes(*final(g)) == graph_nodes(*old(g)),
        graph_links(*final(g)) == graph_links(*old(g)).push((from, to, id)),
{
    g.add_edge(NodeIndex::new(from), NodeIndex::new(to), id);
}

/// Calls `petgraph::graph::Graph::find_edge`, which returns the index of an edge from one node to
/// another, the last that was added of several, if there is one.
#[verifier::external_body]
fn find_graph_edge(g: &DiGraph<(), usize>, from: usize, to: usize) -> (r: Option<usize>)
    requires
        from < graph_nodes(*g).len(),
        to < graph_nodes(*g).len(),
    ensures
        r == last_link(graph_links(*g), from, to, graph_links(*g).len()),
{
    g.find_edge(NodeIndex::new(from), NodeIndex::new(to)).map(|e| e.index())
}

/// Calls `petgraph::graph::Graph::edge_weight`, which returns what belongs to the edge with an
/// index, if there is one.
#[verifier::external_body]
fn graph_edge_weight(g: &DiGraph<(), usize>, edge: usize) -> (r: Option<usize>)
    requires
        edge <= u32::MAX,
    ensures
        (r == if edge < graph_links(*g).len() {
            Some(graph_links(*g)[edge as int].2)
        } else {
            None
        }),
{
    g.edge_weight(EdgeIndex::new(edge)).copied()
}

/// The position of the last among the first `n` links that leads from one node to another.
pub open spec fn last_link(links: Seq<(usize, usize, usize)>, from: usize, to: usize, n: nat) -> Option<usize>
    decreases n,
{
    if n == 0 {
        None
    } else if links[n - 1].0 == from && links[n - 1].1 == to {
        Some((n - 1) as usize)
    } else {
        last_link(links, from, to, (n - 1) as nat)
    }
}

/// The identifier of the link from one node to another.
pub open spec fn link_id(links: Seq<(usize, usize, usize)>, from: usize, to: usize) -> Option<LinkId> {
    match last_link(links, from, to, links.len()) {
        Some(e) => Some(links[e as int].2),
        None => None,
    }
}

/// What `last_link` finds.
pub proof fn lemma_last_link(links: Seq<(usize, usize, usize)>, from: usize, to: usize, n: nat)
    requires
        n <= links.len(),
        n <= usize::MAX,
    ensures
        last_link(links, from, to, n) matches Some(e) ==> e < n && links[e as int].0 == from && links[e as int].1 == to,
        last_link(links, from, to, n) is None <==> forall|i: int|
            0 <= i < n ==> !((#[trigger] links[i]).0 == from && links[i].1 == to),
    decreases n,
{
    if n > 0 {
        lemma_last_link(links, from, to, (n - 1) as nat);
    }
}

/// The most nodes and links.
pub const MAX_GRAPH: usize = 4294967295;

/// A network of nodes and links.
pub struct LinkGraph {
    pub inner: DiGraph<(), usize>,
}

impl LinkGraph {
    /// Number of nodes.
    pub open spec fn num_nodes(&self) -> nat {
        graph_nodes(self.inner).len()
    }

    /// The links, in the order in which they were added.
    pub open spec fn links(&self) -> Seq<(usize, usize, usize)> {
        graph_links(self.inner)
    }

    /// A network without nodes.
    pub fn new() -> (r: Self)
        ensures
            r.num_nodes() == 0,
            r.links() == Seq::<(usize, usize, usize)>::empty(),
    {
        LinkGraph { inner: new_graph() }
    }

    /// Adds a node. The result is its number.
    pub fn add_node(&mut self) -> (r: usize)
        requires
            old(self).num_nodes() < MAX_GRAPH,
        ensures
            r == old(self).num_nodes(),
            final(self).num_nodes() == old(self).num_nodes() + 1,
            final(self).links() == old(self).links(),
    {
        add_graph_node(&mut self.inner)
    }

    /// Adds a link.
    pub fn add_link(&mut self, from: usize, to: usize, id: LinkId)
        requires
            from < old(self).num_nodes(),
            to < old(self).num_nodes(),
            old(self).links().len() < MAX_GRAPH,
        ensures
            final(self).num_nodes() == old(self).num_nodes(),
            final(self).links() == old(self).links().push((from, to, id)),
    {
        add_graph_edge(&mut self.inner, from, to, id);
    }

    /// The link from one node to another.
    pub fn link_between(&self, from: usize, to: usize) -> (r: Option<LinkId>)
        requires
            from < self.num_nodes(),
            to < self.num_nodes(),
            self.links().len() <= MAX_GRAPH,
        ensures
            r == link_id(self.links(), from, to),
    {
        match find_graph_edge(&self.inner, from, to) {
            Some(e) => {
                proof {
                    lemma_last_link(self.links(), from, to, self.links().len());
                }
                graph_edge_weight(&self.inner, e)
            },
            None => None,
        }
    }
}

/// The identifiers of the links along a path of nodes, as far as the first `n` nodes.
pub open spec fn path_links(links: Seq<(usize, usize, usize)>, nodes: Seq<usize>, n: nat) -> Seq<LinkId>
    decreases n,
{
    if n <= 1 {
        Seq::empty()
    } else {
        path_links(links, nodes, (n - 1) as nat).push(
            match link_id(links, nodes[n - 2], nodes[n - 1]) {
                Some(l) => l,
                None => 0,
            },
        )
    }
}

/// Consecutive nodes are linked.
pub open spec fn connected(links: Seq<(usize, usize, usize)>, nodes: Seq<usize>) -> bool {
    forall|i: int| 0 <= i < nodes.len() - 1 ==> link_id(links, #[trigger] nodes[i], nodes[i + 1]) is Some
}

impl LinkGraph {
    /// The links along a path of nodes; nothing if there is a gap.
    pub fn convert_path(&self, nodes: &Vec<usize>) -> (r: Option<Vec<LinkId>>)
        requires
            self.links().len() <= MAX_GRAPH,
            forall|i: int| 0 <= i < nodes@.len() ==> (#[trigger] nodes@[i]) < self.num_nodes(),
        ensures
            r is Some == connected(self.links(), nodes@),
            r matches Some(p) ==> p@ == path_links(self.links(), nodes@, nodes@.len()),
    {
        let mut r: Vec<LinkId> = Vec::new();
        let mut i: usize = 1;
        while i < nodes.len()
            invariant
                1 <= i,
                i <= nodes@.len() || nodes@.len() == 0,
                self.links().len() <= MAX_GRAPH,
                forall|i: int| 0 <= i < nodes@.len() ==> (#[trigger] nodes@[i]) < self.num_nodes(),
                nodes@.len() > 0 ==> r@ == path_links(self.links(), nodes@, i as nat),
                nodes@.len() == 0 ==> r@ == Seq::<LinkId>::empty(),
                forall|j: int| 0 <= j < i - 1 ==> link_id(self.links(), #[trigger] nodes@[j], nodes@[j + 1]) is Some,
            decreases nodes@.len() - i,
        {
            match self.link_between(nodes[i - 1], nodes[i]) {
                Some(l) => {
                    r.push(l);
                },
                None => {
                    assert(link_id(self.links(), nodes@[i - 1], nodes@[i as int]) is None);
                    return None;
                },
            }
            i += 1;
        }
        Some(r)
    }
}

} // verus!
