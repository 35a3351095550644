//! Ways and loops in undirected graphs.

use vstd::prelude::*;

verus! {

/// One of the first `n` edges joins two nodes.
pub open spec fn joined(edges: Seq<(usize, usize)>, n: nat, a: usize, b: usize) -> bool {
    exists|k: int|
        0 <= k < n && ((#[trigger] edges[k]).0 == a && edges[k].1 == b || edges[k].0 == b && edges[k].1 == a)
}

/// Each node is joined with the next by one of the first `n` edges.
pub open spec fn is_way(edges: Seq<(usize, usize)>, n: nat, p: Seq<usize>) -> bool {
    p.len() > 0 && forall|i: int| 0 <= i < p.len() - 1 ==> joined(edges, n, #[trigger] p[i], p[i + 1])
}

/// There is a way between two nodes over the first `n` edges.
pub open spec fn reachable(edges: Seq<(usize, usize)>, n: nat, a: usize, b: usize) -> bool {
    exists|p: Seq<usize>| #[trigger] is_way(edges, n, p) && p[0] == a && p.last() == b
}

/// A way through at least three different nodes that comes back to where it starts.
pub open spec fn is_loop(edges: Seq<(usize, usize)>, n: nat, p: Seq<usize>) -> bool {
    &&& p.len() >= 3
    &&& p.no_duplicates()
    &&& is_way(edges, n, p)
    &&& joined(edges, n, p.last(), p[0])
}

/// Two edges join the same nodes.
pub open spec fn same_ends(x: (usize, usize), y: (usize, usize)) -> bool {
    x == y || (x.0 == y.1 && x.1 == y.0)
}

/// Two of the first `n` edges join the same nodes.
pub open spec fn doubled(edges: Seq<(usize, usize)>, n: nat) -> bool {
    exists|i: int, j: int| 0 <= i < j < n && #[trigger] same_ends(edges[i], edges[j])
}

/// The first `n` edges have a loop: two edges between the same nodes, or a loop through more nodes.
pub open spec fn has_loop(edges: Seq<(usize, usize)>, n: nat) -> bool {
    doubled(edges, n) || exists|p: Seq<usize>| #[trigger] is_loop(edges, n, p)
}

proof fn lemma_joined_more(edges: Seq<(usize, usize)>, n: nat, m: nat, a: usize, b: usize)
    requires
        n <= m,
        joined(edges, n, a, b),
    ensures
        joined(edges, m, a, b),
        joined(edges, m, b, a),
{
    let k = choose|k: int|
        0 <= k < n && ((#[trigger] edges[k]).0 == a && edges[k].1 == b || edges[k].0 == b && edges[k].1 == a);
    assert(0 <= k < m && (edges[k].0 == a && edges[k].1 == b || edges[k].0 == b && edges[k].1 == a));
}

/// Ways stay when edges come.
proof fn lemma_way_more(edges: Seq<(usize, usize)>, n: nat, m: nat, p: Seq<usize>)
    requires
        n <= m,
        is_way(edges, n, p),
    ensures
        is_way(edges, m, p),
{
    assert forall|i: int| 0 <= i < p.len() - 1 implies joined(edges, m, #[trigger] p[i], p[i + 1]) by {
        lemma_joined_more(edges, n, m, p[i], p[i + 1]);
    }
}

/// Ways can be put together.
pub proof fn lemma_reachable_trans(edges: Seq<(usize, usize)>, n: nat, a: usize, b: usize, c: usize)
    requires
        reachable(edges, n, a, b),
        reachable(edges, n, b, c),
    ensures
        reachable(edges, n, a, c),
{
    let p = choose|p: Seq<usize>| #[trigger] is_way(edges, n, p) && p[0] == a && p.last() == b;
    let q = choose|q: Seq<usize>| #[trigger] is_way(edges, n, q) && q[0] == b && q.last() == c;
    let r = p + q.skip(1);
    assert forall|i: int| 0 <= i < r.len() - 1 implies joined(edges, n, #[trigger] r[i], r[i + 1]) by {
        if i < p.len() - 1 {
            assert(r[i] == p[i] && r[i + 1] == p[i + 1]);
        } else {
            let k = i - (p.len() - 1);
            assert(r[i] == q[k]);
            assert(r[i + 1] == q[k + 1]);
        }
    }
    assert(is_way(edges, n, r));
    assert(r[0] == a);
    if q.len() > 1 {
        assert(r.last() == q.last());
    } else {
        assert(r =~= p);
    }
}

/// Ways can be gone backwards.
pub proof fn lemma_reachable_back(edges: Seq<(usize, usize)>, n: nat, a: usize, b: usize)
    requires
        reachable(edges, n, a, b),
    ensures
        reachable(edges, n, b, a),
{
    let p = choose|p: Seq<usize>| #[trigger] is_way(edges, n, p) && p[0] == a && p.last() == b;
    let r = p.reverse();
    assert forall|i: int| 0 <= i < r.len() - 1 implies joined(edges, n, #[trigger] r[i], r[i + 1]) by {
        let k = p.len() - 2 - i;
        assert(joined(edges, n, p[k], p[k + 1]));
        lemma_joined_more(edges, n, n, p[k], p[k + 1]);
        assert(r[i] == p[k + 1] && r[i + 1] == p[k]);
    }
    assert(is_way(edges, n, r));
}

/// A node has a way to itself.
pub proof fn lemma_reachable_self(edges: Seq<(usize, usize)>, n: nat, a: usize)
    ensures
        reachable(edges, n, a, a),
{
    let p = seq![a];
    assert(is_way(edges, n, p));
}

/// Joined nodes have a way between them.
pub proof fn lemma_reachable_joined(edges: Seq<(usize, usize)>, n: nat, a: usize, b: usize)
    requires
        joined(edges, n, a, b),
    ensures
        reachable(edges, n, a, b),
{
    let p = seq![a, b];
    assert(is_way(edges, n, p)) by {
        assert forall|i: int| 0 <= i < p.len() - 1 implies joined(edges, n, #[trigger] p[i], p[i + 1]) by {}
    }
}

/// Between nodes with a way between them there is one that meets no node twice.
pub proof fn lemma_simple_way(edges: Seq<(usize, usize)>, n: nat, p: Seq<usize>) -> (q: Seq<usize>)
    requires
        is_way(edges, n, p),
    ensures
        is_way(edges, n, q),
        q.no_duplicates(),
        q[0] == p[0],
        q.last() == p.last(),
    decreases p.len(),
{
    if p.no_duplicates() {
        p
    } else {
        let (i, j) = choose|i: int, j: int| 0 <= i < p.len() && 0 <= j < p.len() && i != j && p[i] == p[j];
        let a = if i < j {
            i
        } else {
            j
        };
        let b = if i < j {
            j
        } else {
            i
        };
        let r = p.take(a) + p.skip(b);
        assert forall|k: int| 0 <= k < r.len() - 1 implies joined(edges, n, #[trigger] r[k], r[k + 1]) by {
            if k < a - 1 {
                assert(r[k] == p[k] && r[k + 1] == p[k + 1]);
            } else if k == a - 1 {
                assert(r[k] == p[k] && r[k + 1] == p[b]);
                assert(p[a] == p[b]);
                assert(joined(edges, n, p[k], p[k + 1]));
            } else {
                let m = k - a + b;
                assert(r[k] == p[m] && r[k + 1] == p[m + 1]);
            }
        }
        assert(is_way(edges, n, r));
        assert(r.last() == p.last());
        assert(r[0] == p[0]) by {
            if a == 0 {
                assert(r[0] == p[b]);
            }
        }
        lemma_simple_way(edges, n, r)
    }
}

/// Two nodes have the same label exactly if there is a way between them over the first `n` edges.
pub open spec fn labels_ways(edges: Seq<(usize, usize)>, n: nat, label: Seq<usize>) -> bool {
    forall|a: usize, b: usize|
        a < label.len() && b < label.len() ==> (label[a as int] == label[b as int]) == #[trigger] reachable(edges, n, a, b)
}

/// The edges join nodes that have labels.
pub open spec fn ends_within(edges: Seq<(usize, usize)>, count: nat) -> bool {
    forall|k: int| 0 <= k < edges.len() ==> (#[trigger] edges[k]).0 < count && edges[k].1 < count
}

/// Nodes of a way have the same label, if joined nodes have.
proof fn lemma_way_labels(edges: Seq<(usize, usize)>, n: nat, label: Seq<usize>, p: Seq<usize>)
    requires
        n <= edges.len(),
        ends_within(edges, label.len()),
        is_way(edges, n, p),
        p[0] < label.len(),
        forall|k: int| 0 <= k < n ==> label[(#[trigger] edges[k]).0 as int] == label[edges[k].1 as int],
    ensures
        p.last() < label.len(),
        label[p.last() as int] == label[p[0] as int],
    decreases p.len(),
{
    if p.len() > 1 {
        let q = p.drop_last();
        assert forall|i: int| 0 <= i < q.len() - 1 implies joined(edges, n, #[trigger] q[i], q[i + 1]) by {
            assert(joined(edges, n, p[i], p[i + 1]));
        }
        lemma_way_labels(edges, n, label, q);
        let a = p[p.len() - 2];
        let b = p[p.len() - 1];
        assert(joined(edges, n, p[p.len() - 2], p[p.len() - 2 + 1]));
        let k = choose|k: int|
            0 <= k < n && ((#[trigger] edges[k]).0 == a && edges[k].1 == b || edges[k].0 == b && edges[k].1 == a);
        assert(label[edges[k].0 as int] == label[edges[k].1 as int]);
    }
}

/// Labels after another edge.
proof fn lemma_labels_next(
    edges: Seq<(usize, usize)>,
    n: nat,
    before: Seq<usize>,
    after: Seq<usize>,
    a: usize,
    b: usize,
)
    requires
        n < edges.len(),
        edges[n as int] == (a, b),
        ends_within(edges, before.len()),
        labels_ways(edges, n, before),
        after.len() == before.len(),
        forall|v: int|
            0 <= v < before.len() ==> #[trigger] after[v] == if before[v] == before[b as int] {
                before[a as int]
            } else {
                before[v]
            },
    ensures
        labels_ways(edges, n + 1, after),
{
    assert forall|k: int| 0 <= k < n + 1 implies after[(#[trigger] edges[k]).0 as int] == after[edges[k].1 as int] by {
        if k < n {
            let x = edges[k].0;
            let y = edges[k].1;
            assert(joined(edges, n, x, y));
            lemma_reachable_joined(edges, n, x, y);
            assert(before[x as int] == before[y as int]);
        }
    }
    assert forall|x: usize, y: usize| x < after.len() && y < after.len() implies (after[x as int] == after[y as int])
        == #[trigger] reachable(edges, n + 1, x, y) by {
        if reachable(edges, n + 1, x, y) {
            let p = choose|p: Seq<usize>| #[trigger] is_way(edges, n + 1, p) && p[0] == x && p.last() == y;
            lemma_way_labels(edges, n + 1, after, p);
        }
        if after[x as int] == after[y as int] {
            let la = before[a as int];
            let lb = before[b as int];
            assert(joined(edges, n + 1, a, b));
            lemma_reachable_joined(edges, n + 1, a, b);
            lemma_reachable_back(edges, n + 1, a, b);
            if before[x as int] == before[y as int] {
                assert(reachable(edges, n, x, y));
                lemma_reachable_more(edges, n, n + 1, x, y);
            } else if before[x as int] == lb {
                assert(before[y as int] == la);
                assert(reachable(edges, n, x, b));
                assert(reachable(edges, n, a, y));
                lemma_reachable_more(edges, n, n + 1, x, b);
                lemma_reachable_more(edges, n, n + 1, a, y);
                lemma_reachable_trans(edges, n + 1, x, b, a);
                lemma_reachable_trans(edges, n + 1, x, a, y);
            } else {
                assert(before[y as int] == lb && before[x as int] == la);
                assert(reachable(edges, n, x, a));
                assert(reachable(edges, n, b, y));
                lemma_reachable_more(edges, n, n + 1, x, a);
                lemma_reachable_more(edges, n, n + 1, b, y);
                lemma_reachable_trans(edges, n + 1, x, a, b);
                lemma_reachable_trans(edges, n + 1, x, b, y);
            }
        }
    }
}

proof fn lemma_reachable_more(edges: Seq<(usize, usize)>, n: nat, m: nat, a: usize, b: usize)
    requires
        n <= m,
        reachable(edges, n, a, b),
    ensures
        reachable(edges, m, a, b),
{
    let p = choose|p: Seq<usize>| #[trigger] is_way(edges, n, p) && p[0] == a && p.last() == b;
    lemma_way_more(edges, n, m, p);
}

proof fn lemma_loop_more(edges: Seq<(usize, usize)>, n: nat, m: nat)
    requires
        n <= m,
        has_loop(edges, n),
    ensures
        has_loop(edges, m),
{
    if doubled(edges, n) {
        let (i, j) = choose|i: int, j: int| 0 <= i < j < n && #[trigger] same_ends(edges[i], edges[j]);
        assert(0 <= i < j < m && same_ends(edges[i], edges[j]));
    } else {
        let p = choose|p: Seq<usize>| #[trigger] is_loop(edges, n, p);
        lemma_way_more(edges, n, m, p);
        lemma_joined_more(edges, n, m, p.last(), p[0]);
        assert(is_loop(edges, m, p));
    }
}

/// An edge between nodes that have a way between them makes a loop.
proof fn lemma_loop_found(edges: Seq<(usize, usize)>, n: nat, a: usize, b: usize)
    requires
        n < edges.len(),
        edges[n as int] == (a, b),
        a != b,
        reachable(edges, n, a, b),
    ensures
        has_loop(edges, n + 1),
{
    if joined(edges, n, a, b) {
        let k = choose|k: int|
            0 <= k < n && ((#[trigger] edges[k]).0 == a && edges[k].1 == b || edges[k].0 == b && edges[k].1 == a);
        assert(same_ends(edges[k], edges[n as int]));
    } else {
        let p = choose|p: Seq<usize>| #[trigger] is_way(edges, n, p) && p[0] == a && p.last() == b;
        let q = lemma_simple_way(edges, n, p);
        if q.len() == 2 {
            assert(joined(edges, n, q[0], q[0int + 1]));
        }
        lemma_way_more(edges, n, n + 1, q);
        assert(joined(edges, n + 1, b, a));
        assert(is_loop(edges, n + 1, q));
    }
}

/// A join that needs the last edge is between its ends.
proof fn lemma_joined_last(edges: Seq<(usize, usize)>, n: nat, x: usize, y: usize)
    requires
        n < edges.len(),
        joined(edges, n + 1, x, y),
        !joined(edges, n, x, y),
    ensures
        (x == edges[n as int].0 && y == edges[n as int].1) || (x == edges[n as int].1 && y == edges[n as int].0),
{
    let k = choose|k: int|
        0 <= k < n + 1 && ((#[trigger] edges[k]).0 == x && edges[k].1 == y || edges[k].0 == y && edges[k].1 == x);
    if k < n {
        assert(joined(edges, n, x, y));
    }
}

/// The node after another one on a loop.
spec fn after_on(p: Seq<usize>, i: int) -> usize {
    if i == p.len() - 1 {
        p[0]
    } else {
        p[i + 1]
    }
}

/// An edge between nodes that have no way between them makes no loop.
proof fn lemma_no_loop_next(edges: Seq<(usize, usize)>, n: nat, a: usize, b: usize)
    requires
        n < edges.len(),
        edges[n as int] == (a, b),
        a != b,
        !has_loop(edges, n),
        !reachable(edges, n, a, b),
    ensures
        !has_loop(edges, n + 1),
{
    if doubled(edges, n + 1) {
        let (i, j) = choose|i: int, j: int| 0 <= i < j < n + 1 && #[trigger] same_ends(edges[i], edges[j]);
        if j < n {
            assert(doubled(edges, n));
        } else {
            assert(joined(edges, n, a, b)) by {
                assert(edges[i].0 == a && edges[i].1 == b || edges[i].0 == b && edges[i].1 == a);
            }
            lemma_reachable_joined(edges, n, a, b);
        }
    } else if has_loop(edges, n + 1) {
        let p = choose|p: Seq<usize>| #[trigger] is_loop(edges, n + 1, p);
        assert forall|i: int| 0 <= i < p.len() implies joined(edges, n + 1, #[trigger] p[i], after_on(p, i)) by {
            if i < p.len() - 1 {
                assert(joined(edges, n + 1, p[i], p[i + 1]));
            }
        }
        if forall|i: int| 0 <= i < p.len() ==> joined(edges, n, #[trigger] p[i], after_on(p, i)) {
            assert forall|i: int| 0 <= i < p.len() - 1 implies joined(edges, n, #[trigger] p[i], p[i + 1]) by {
                assert(after_on(p, i) == p[i + 1]);
            }
            assert(joined(edges, n, p[p.len() - 1], after_on(p, p.len() - 1)));
            assert(is_loop(edges, n, p));
        } else {
            let k = choose|k: int| 0 <= k < p.len() && !joined(edges, n, #[trigger] p[k], after_on(p, k));
            let x = p[k];
            let y = after_on(p, k);
            lemma_joined_last(edges, n, x, y);
            let q = p.skip(k + 1) + p.take(k + 1);
            assert(q.len() == p.len());
            assert forall|i: int| 0 <= i < q.len() - 1 implies joined(edges, n, #[trigger] q[i], q[i + 1]) by {
                let m = if i + k + 1 < p.len() {
                    i + k + 1
                } else {
                    i + k + 1 - p.len()
                };
                assert(q[i] == p[m]);
                assert(q[i + 1] == after_on(p, m));
                assert(m != k);
                assert(joined(edges, n + 1, p[m], after_on(p, m)));
                if !joined(edges, n, p[m], after_on(p, m)) {
                    lemma_joined_last(edges, n, p[m], after_on(p, m));
                    let m1 = if m == p.len() - 1 {
                        0
                    } else {
                        m + 1
                    };
                    let k1 = if k == p.len() - 1 {
                        0
                    } else {
                        k + 1
                    };
                    assert(p[m] != p[k]);
                    assert(p[m1] == after_on(p, m) && p[k1] == after_on(p, k));
                    assert(p[m] == p[k1] && p[m1] == p[k]);
                    assert(m == k1 && m1 == k);
                }
            }
            assert(is_way(edges, n, q));
            assert(q[0] == y && q.last() == x);
            assert(reachable(edges, n, y, x));
            lemma_reachable_back(edges, n, y, x);
        }
    }
}

/// Edges that join the same nodes have the same ways and loops.
pub proof fn lemma_same_joined(e: Seq<(usize, usize)>, n: nat, f: Seq<(usize, usize)>, m: nat)
    requires
        forall|a: usize, b: usize| #[trigger] joined(e, n, a, b) == joined(f, m, a, b),
    ensures
        forall|p: Seq<usize>| #[trigger] is_way(e, n, p) == is_way(f, m, p),
        forall|p: Seq<usize>| #[trigger] is_loop(e, n, p) == is_loop(f, m, p),
        forall|a: usize, b: usize| #[trigger] reachable(e, n, a, b) == reachable(f, m, a, b),
{
    assert forall|p: Seq<usize>| #[trigger] is_way(e, n, p) == is_way(f, m, p) by {
        if is_way(e, n, p) {
            assert forall|i: int| 0 <= i < p.len() - 1 implies joined(f, m, #[trigger] p[i], p[i + 1]) by {
                assert(joined(e, n, p[i], p[i + 1]));
            }
        }
        if is_way(f, m, p) {
            assert forall|i: int| 0 <= i < p.len() - 1 implies joined(e, n, #[trigger] p[i], p[i + 1]) by {
                assert(joined(f, m, p[i], p[i + 1]));
            }
        }
    }
    assert forall|p: Seq<usize>| #[trigger] is_loop(e, n, p) == is_loop(f, m, p) by {
        assert(is_way(e, n, p) == is_way(f, m, p));
        assert(joined(e, n, p.last(), p[0]) == joined(f, m, p.last(), p[0]));
    }
    assert forall|a: usize, b: usize| #[trigger] reachable(e, n, a, b) == reachable(f, m, a, b) by {
        if reachable(e, n, a, b) {
            let p = choose|p: Seq<usize>| #[trigger] is_way(e, n, p) && p[0] == a && p.last() == b;
            assert(is_way(f, m, p));
        }
        if reachable(f, m, a, b) {
            let p = choose|p: Seq<usize>| #[trigger] is_way(f, m, p) && p[0] == a && p.last() == b;
            assert(is_way(e, n, p));
        }
    }
}

/// Some nodes, one for each part of a graph whose nodes have ways between them.
pub open spec fn is_one_per_part(edges: Seq<(usize, usize)>, count: nat, reps: Seq<usize>) -> bool {
    &&& forall|i: int| 0 <= i < reps.len() ==> (#[trigger] reps[i]) < count
    &&& forall|i: int, j: int|
        0 <= i < j < reps.len() ==> !#[trigger] reachable(edges, edges.len(), reps[i], reps[j])
    &&& forall|v: usize| v < count ==> #[trigger] has_rep(edges, reps, v)
}

/// There is a way from a node to one of some nodes.
pub open spec fn has_rep(edges: Seq<(usize, usize)>, reps: Seq<usize>, v: usize) -> bool {
    exists|i: int| 0 <= i < reps.len() && #[trigger] reachable(edges, edges.len(), v, reps[i])
}

/// The number of parts of a graph whose nodes have ways between them.
pub open spec fn has_parts(edges: Seq<(usize, usize)>, count: nat, parts: nat) -> bool {
    exists|reps: Seq<usize>| #[trigger] is_one_per_part(edges, count, reps) && reps.len() == parts
}

/// Labels the nodes by the ways between them, and finds out whether there is a loop. A label is one of
/// the nodes that have it.
pub fn label_nodes(edges: &Vec<(usize, usize)>, count: usize) -> (r: (Vec<usize>, bool))
    requires
        ends_within(edges@, count as nat),
        forall|k: int| 0 <= k < edges@.len() ==> (#[trigger] edges@[k]).0 != edges@[k].1,
    ensures
        r.0@.len() == count,
        labels_ways(edges@, edges@.len(), r.0@),
        forall|v: int| 0 <= v < count ==> (#[trigger] r.0@[v]) < count && r.0@[r.0@[v] as int] == r.0@[v],
        r.1 == has_loop(edges@, edges@.len()),
{
    let ghost e = edges@;
    let mut label: Vec<usize> = Vec::new();
    let mut v: usize = 0;
    while v < count
        invariant
            v <= count,
            label@.len() == v,
            forall|x: int| 0 <= x < v ==> #[trigger] label@[x] == x,
        decreases count - v,
    {
        label.push(v);
        v += 1;
    }
    let mut found = false;
    proof {
        assert forall|a: usize, b: usize| a < count && b < count implies (label@[a as int] == label@[b as int])
            == #[trigger] reachable(e, 0, a, b) by {
            lemma_reachable_self(e, 0, a);
            if reachable(e, 0, a, b) {
                let p = choose|p: Seq<usize>| #[trigger] is_way(e, 0, p) && p[0] == a && p.last() == b;
                if p.len() > 1 {
                    assert(joined(e, 0, p[0], p[0int + 1]));
                }
            }
        }
        assert(!has_loop(e, 0)) by {
            if has_loop(e, 0) {
                let p = choose|p: Seq<usize>| #[trigger] is_loop(e, 0, p);
                assert(joined(e, 0, p.last(), p[0]));
            }
        }
    }
    let mut i: usize = 0;
    while i < edges.len()
        invariant
            i <= edges@.len(),
            e == edges@,
            ends_within(e, count as nat),
            forall|k: int| 0 <= k < e.len() ==> (#[trigger] e[k]).0 != e[k].1,
            label@.len() == count,
            labels_ways(e, i as nat, label@),
            forall|x: int| 0 <= x < count ==> (#[trigger] label@[x]) < count && label@[label@[x] as int] == label@[x],
            found == has_loop(e, i as nat),
        decreases edges@.len() - i,
    {
        let (a, b): (usize, usize) = edges[i];
        assert(e[i as int] == (a, b));
        let la: usize = label[a];
        let lb: usize = label[b];
        assert((la == lb) == reachable(e, i as nat, a, b));
        if la == lb {
            found = true;
            proof {
                lemma_loop_found(e, i as nat, a, b);
            }
        }
        proof {
            if has_loop(e, i as nat) {
                lemma_loop_more(e, i as nat, (i + 1) as nat);
            } else if la != lb {
                lemma_no_loop_next(e, i as nat, a, b);
            }
        }
        let ghost before = label@;
        let mut x: usize = 0;
        while x < count
            invariant
                x <= count,
                label@.len() == count,
                before.len() == count,
                forall|y: int|
                    0 <= y < x ==> #[trigger] label@[y] == if before[y] == lb {
                        la
                    } else {
                        before[y]
                    },
                forall|y: int| x <= y < count ==> #[trigger] label@[y] == before[y],
            decreases count - x,
        {
            if label[x] == lb {
                label.set(x, la);
            }
            x += 1;
        }
        proof {
            lemma_labels_next(e, i as nat, before, label@, a, b);
            assert forall|y: int| 0 <= y < count implies (#[trigger] label@[y]) < count && label@[label@[y] as int]
                == label@[y] by {
                assert(before[y] < count && before[before[y] as int] == before[y]);
                assert(before[a as int] == la);
                assert(before[la as int] == la);
            }
        }
        i += 1;
    }
    (label, found)
}

/// Counts the parts of a graph whose nodes have ways between them.
pub fn count_parts(edges: &Vec<(usize, usize)>, count: usize) -> (r: usize)
    requires
        ends_within(edges@, count as nat),
        forall|k: int| 0 <= k < edges@.len() ==> (#[trigger] edges@[k]).0 != edges@[k].1,
    ensures
        has_parts(edges@, count as nat, r as nat),
{
    let (label, _) = label_nodes(edges, count);
    let ghost e = edges@;
    let n: usize = count;
    let mut r: usize = 0;
    let mut v: usize = 0;
    let ghost mut reps: Seq<usize> = Seq::empty();
    while v < n
        invariant
            n == label@.len(),
            v <= n,
            r == reps.len(),
            r <= v,
            forall|i: int| 0 <= i < reps.len() ==> (#[trigger] reps[i]) < v && label@[reps[i] as int] == reps[i],
            reps.no_duplicates(),
            forall|x: usize| x < v && label@[x as int] == x ==> #[trigger] reps.contains(x),
        decreases n - v,
    {
        if label[v] == v {
            proof {
                let before = reps;
                reps = reps.push(v);
                assert forall|x: usize| x < v + 1 && label@[x as int] == x implies #[trigger] reps.contains(x) by {
                    if x < v {
                        assert(before.contains(x));
                        let i = choose|i: int| 0 <= i < before.len() && before[i] == x;
                        assert(reps[i] == x);
                    } else {
                        assert(reps[before.len() as int] == x);
                    }
                }
            }
            r += 1;
        }
        v += 1;
    }
    proof {
        assert forall|i: int, j: int| 0 <= i < j < reps.len() implies !#[trigger] reachable(
            e,
            e.len(),
            reps[i],
            reps[j],
        ) by {
            assert(reps[i] != reps[j]);
            assert(reps[i] < n && reps[j] < n);
        }
        assert forall|x: usize| x < n implies #[trigger] has_rep(e, reps, x) by {
            let l = label@[x as int];
            assert(label@[l as int] == l);
            assert(reps.contains(l));
            let i = choose|i: int| 0 <= i < reps.len() && reps[i] == l;
            assert(reachable(e, e.len(), x, reps[i]));
        }
        assert(is_one_per_part(e, n as nat, reps));
    }
    r
}

} // verus!
