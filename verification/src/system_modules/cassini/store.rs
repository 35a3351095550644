//! An undirected graph with weights.

use petgraph::graph::{EdgeIndex, NodeIndex, UnGraph};
use petgraph::visit::EdgeRef;
use vstd::prelude::*;

verus! {

/// The marker of undirected graphs.
#[verifier::external_type_specification]
#[verifier::external_body]
pub struct ExUndirected(petgraph::Undirected);

/// The nodes of an undirected graph, by index.
pub uninterp spec fn weighted_nodes(g: UnGraph<(), u64>) -> Seq<()>;

/// The edges of an undirected graph in the order in which they were added: the two nodes as they were
/// given, and the weight.
pub uninterp spec fn weighted_edges(g: UnGraph<(), u64>) -> Seq<(usize, usize, u64)>;

/// Calls `petgraph::graph::Graph::new_undirected`, which makes a graph without nodes and edges.
#[verifier::external_body]
pub(crate) fn new_weighted() -> (g: UnGraph<(), u64>)
    ensures
        (weighted_nodes(g) == Seq::<()>::empty()),
        (weighted_edges(g) == Seq::<(usize, usize, u64)>::empty()),
{
    UnGraph::new_undirected()
}

/// Calls `petgraph::graph::Graph::add_node`, which appends a node and returns its index. It panics at
/// the largest number of nodes that 32-bit indices allow.
#[verifier::external_body]
pub(crate) fn add_weighted_node(g: &mut UnGraph<(), u64>) -> (r: usize)
    requires
        weighted_nodes(*old(g)).len() < u32::MAX,
    ensures
        r == weighted_nodes(*old(g)).len(),
        weighted_nodes(*final(g)) == weighted_nodes(*old(g)).push(()),
        weighted_edges(*final(g)) == weighted_edges(*old(g)),
{
    g.add_node(()).index()
}

/// Calls `petgraph::graph::Graph::add_edge`, which appends an edge between two nodes, next to those
/// that there are. It panics if a node does not exist, and at the largest number of edges that 32-bit
/// indices allow.
#[verifier::external_body]
pub(crate) fn add_weighted_edge(g: &mut UnGraph<(), u64>, a: usize, b: usize, weight: u64)
    requires
        a < weighted_nodes(*old(g)).len(),
        b < weighted_nodes(*old(g)).len(),
        weighted_edges(*old(g)).len() < u32::MAX,
    ensures
        weighted_nodes(*final(g)) == weighted_nodes(*old(g)),
        weighted_edges(*final(g)) == weighted_edges(*old(g)).push((a, b, weight)),
{
    g.add_edge(NodeIndex::new(a), NodeIndex::new(b), weight);
}

/// The last of the first `n` edges that was given from one node to another.
pub open spec fn last_between(edges: Seq<(usize, usize, u64)>, a: usize, b: usize, n: nat) -> Option<usize>
    decreases n,
{
    if n == 0 {
        None
    } else if edges[n - 1].0 == a && edges[n - 1].1 == b {
        Some((n - 1) as usize)
    } else {
        last_between(edges, a, b, (n - 1) as nat)
    }
}

/// Calls `petgraph::graph::Graph::find_edge`, which returns the index of an edge between two nodes: the
/// last that was given from the first to the second, or else the last that was given the other way
/// round, if there is one.
#[verifier::external_body]
pub(crate) fn find_weighted_edge(g: &UnGraph<(), u64>, a: usize, b: usize) -> (r: Option<usize>)
    requires
        a < weighted_nodes(*g).len(),
        b < weighted_nodes(*g).len(),
    ensures
        (r == match last_between(weighted_edges(*g), a, b, weighted_edges(*g).len()) {
            Some(e) => Some(e),
            None => last_between(weighted_edges(*g), b, a, weighted_edges(*g).len()),
        }),
{
    g.find_edge(NodeIndex::new(a), NodeIndex::new(b)).map(|e| e.index())
}

/// Calls `petgraph::graph::Graph::edge_weight_mut`, which gives access to the weight of the edge with an
/// index, and writes it.
#[verifier::external_body]
pub(crate) fn set_weight(g: &mut UnGraph<(), u64>, edge: usize, weight: u64)
    requires
        edge < weighted_edges(*old(g)).len(),
        weighted_edges(*old(g)).len() <= u32::MAX,
    ensures
        weighted_nodes(*final(g)) == weighted_nodes(*old(g)),
        (weighted_edges(*final(g)) == weighted_edges(*old(g)).update(
            edge as int,
            (weighted_edges(*old(g))[edge as int].0, weighted_edges(*old(g))[edge as int].1, weight),
        )),
{
    *g.edge_weight_mut(EdgeIndex::new(edge)).unwrap() = weight;
}

/// The other ends and weights of the edges among the first `n` that were given from a node, the last
/// first.
pub open spec fn edges_from(edges: Seq<(usize, usize, u64)>, a: usize, n: nat) -> Seq<(usize, u64)>
    decreases n,
{
    if n == 0 {
        Seq::empty()
    } else {
        let rest = edges_from(edges, a, (n - 1) as nat);
        if edges[n - 1].0 == a {
            seq![(edges[n - 1].1, edges[n - 1].2)] + rest
        } else {
            rest
        }
    }
}

/// The other ends and weights of the edges among the first `n` that were given to a node from another,
/// the last first.
pub open spec fn edges_to(edges: Seq<(usize, usize, u64)>, a: usize, n: nat) -> Seq<(usize, u64)>
    decreases n,
{
    if n == 0 {
        Seq::empty()
    } else {
        let rest = edges_to(edges, a, (n - 1) as nat);
        if edges[n - 1].1 == a && edges[n - 1].0 != a {
            seq![(edges[n - 1].0, edges[n - 1].2)] + rest
        } else {
            rest
        }
    }
}

/// Calls `petgraph::graph::Graph::edges`, which goes through the edges of a node: those that were given
/// from it, the last first, and then those that were given to it, the last first. Each is seen from the
/// node, with its other end as target.
#[verifier::external_body]
pub(crate) fn edges_of(g: &UnGraph<(), u64>, a: usize) -> (r: Vec<(usize, u64)>)
    requires
        a < weighted_nodes(*g).len(),
    ensures
        (r@ == edges_from(weighted_edges(*g), a, weighted_edges(*g).len()) + edges_to(
            weighted_edges(*g),
            a,
            weighted_edges(*g).len(),
        )),
{
    g.edges(NodeIndex::new(a)).map(|e| (e.target().index(), *e.weight())).collect()
}

/// One of the first `n` edges was given from a node to another end with a weight.
pub open spec fn is_from(edges: Seq<(usize, usize, u64)>, a: usize, n: nat, e: (usize, u64)) -> bool {
    exists|k: int| 0 <= k < n && (#[trigger] edges[k]) == (a, e.0, e.1)
}

/// One of the first `n` edges was given to a node from another end with a weight.
pub open spec fn is_to(edges: Seq<(usize, usize, u64)>, a: usize, n: nat, e: (usize, u64)) -> bool {
    e.0 != a && exists|k: int| 0 <= k < n && (#[trigger] edges[k]) == (e.0, a, e.1)
}

/// What is in the list of edges from a node.
pub proof fn lemma_edges_from(edges: Seq<(usize, usize, u64)>, a: usize, n: nat, e: (usize, u64))
    requires
        n <= edges.len(),
    ensures
        edges_from(edges, a, n).contains(e) == is_from(edges, a, n, e),
    decreases n,
{
    if n > 0 {
        lemma_edges_from(edges, a, (n - 1) as nat, e);
        let rest = edges_from(edges, a, (n - 1) as nat);
        let list = edges_from(edges, a, n);
        if list.contains(e) {
            let i = choose|i: int| 0 <= i < list.len() && list[i] == e;
            if edges[n - 1].0 == a && i == 0 {
                assert(edges[n - 1] == (a, e.0, e.1));
            } else {
                if edges[n - 1].0 == a {
                    assert(rest[i - 1] == e);
                } else {
                    assert(rest[i] == e);
                }
                assert(rest.contains(e));
                let k = choose|k: int| 0 <= k < n - 1 && (#[trigger] edges[k]) == (a, e.0, e.1);
                assert(0 <= k < n && edges[k] == (a, e.0, e.1));
            }
        }
        if is_from(edges, a, n, e) {
            let k = choose|k: int| 0 <= k < n && (#[trigger] edges[k]) == (a, e.0, e.1);
            if k == n - 1 {
                assert(list[0] == e);
            } else {
                assert(is_from(edges, a, (n - 1) as nat, e));
                let i = choose|i: int| 0 <= i < rest.len() && rest[i] == e;
                if edges[n - 1].0 == a {
                    assert(list[i + 1] == e);
                } else {
                    assert(list[i] == e);
                }
            }
        }
    }
}

/// What is in the list of edges to a node.
pub proof fn lemma_edges_to(edges: Seq<(usize, usize, u64)>, a: usize, n: nat, e: (usize, u64))
    requires
        n <= edges.len(),
    ensures
        edges_to(edges, a, n).contains(e) == is_to(edges, a, n, e),
    decreases n,
{
    if n > 0 {
        lemma_edges_to(edges, a, (n - 1) as nat, e);
        let rest = edges_to(edges, a, (n - 1) as nat);
        let list = edges_to(edges, a, n);
        let here = edges[n - 1].1 == a && edges[n - 1].0 != a;
        if list.contains(e) {
            let i = choose|i: int| 0 <= i < list.len() && list[i] == e;
            if here && i == 0 {
                assert(edges[n - 1] == (e.0, a, e.1));
            } else {
                if here {
                    assert(rest[i - 1] == e);
                } else {
                    assert(rest[i] == e);
                }
                assert(rest.contains(e));
                let k = choose|k: int| 0 <= k < n - 1 && (#[trigger] edges[k]) == (e.0, a, e.1);
                assert(0 <= k < n && edges[k] == (e.0, a, e.1));
            }
        }
        if is_to(edges, a, n, e) {
            let k = choose|k: int| 0 <= k < n && (#[trigger] edges[k]) == (e.0, a, e.1);
            if k == n - 1 {
                assert(list[0] == e);
            } else {
                assert(is_to(edges, a, (n - 1) as nat, e));
                let i = choose|i: int| 0 <= i < rest.len() && rest[i] == e;
                if here {
                    assert(list[i + 1] == e);
                } else {
                    assert(list[i] == e);
                }
            }
        }
    }
}

} // verus!
