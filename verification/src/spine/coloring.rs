//! Colours for the edges of a bipartite graph: as many colours as the largest degree are enough.

use vstd::prelude::*;

verus! {

/// The end of an edge on one side.
pub open spec fn end_of(edge: (usize, usize), left: bool) -> usize {
    if left {
        edge.0
    } else {
        edge.1
    }
}

/// How many of the first `n` edges end at a node.
pub open spec fn degree(edges: Seq<(usize, usize)>, left: bool, node: usize, n: nat) -> nat
    decreases n,
{
    if n == 0 {
        0
    } else {
        degree(edges, left, node, (n - 1) as nat) + if end_of(edges[n - 1], left) == node {
            1nat
        } else {
            0nat
        }
    }
}

/// No node has more than `cap` edges.
pub open spec fn degrees_within(edges: Seq<(usize, usize)>, cap: nat) -> bool {
    forall|left: bool, node: usize| #[trigger] degree(edges, left, node, edges.len()) <= cap
}

/// Edges of the same colour share no node.
pub open spec fn proper(edges: Seq<(usize, usize)>, col: Seq<Option<usize>>) -> bool {
    &&& col.len() == edges.len()
    &&& forall|i: int, j: int|
        0 <= i < j < edges.len() && col[i] is Some && #[trigger] col[i] == #[trigger] col[j] ==> edges[i].0 != edges[j].0
            && edges[i].1 != edges[j].1
}

/// The edge ends at the node and has the colour.
pub open spec fn colored_at(
    edges: Seq<(usize, usize)>,
    col: Seq<Option<usize>>,
    left: bool,
    node: usize,
    c: usize,
    i: int,
) -> bool {
    0 <= i < edges.len() && end_of(edges[i], left) == node && col[i] == Some(c)
}

/// No edge at the node has the colour.
pub open spec fn missing(edges: Seq<(usize, usize)>, col: Seq<Option<usize>>, left: bool, node: usize, c: usize) -> bool {
    forall|i: int| !#[trigger] colored_at(edges, col, left, node, c, i)
}

/// The least colour that no edge at the node has.
pub open spec fn is_first_free(
    edges: Seq<(usize, usize)>,
    col: Seq<Option<usize>>,
    left: bool,
    node: usize,
    c: usize,
) -> bool {
    missing(edges, col, left, node, c) && forall|d: usize| d < c ==> !#[trigger] missing(edges, col, left, node, d)
}

/// The least colour that no edge at the node has.
pub open spec fn first_free(edges: Seq<(usize, usize)>, col: Seq<Option<usize>>, left: bool, node: usize) -> usize {
    choose|c: usize| is_first_free(edges, col, left, node, c)
}

/// There is one least colour that no edge at a node has.
pub proof fn lemma_first_free(edges: Seq<(usize, usize)>, col: Seq<Option<usize>>, left: bool, node: usize, c: usize)
    requires
        is_first_free(edges, col, left, node, c),
    ensures
        first_free(edges, col, left, node) == c,
{
    let d = first_free(edges, col, left, node);
    assert(is_first_free(edges, col, left, node, d));
    assert(missing(edges, col, left, node, d) && missing(edges, col, left, node, c));
}

/// One of the first `n` edges at the node has the colour.
spec fn used_at(
    edges: Seq<(usize, usize)>,
    col: Seq<Option<usize>>,
    left: bool,
    node: usize,
    c: usize,
    n: nat,
) -> bool {
    exists|i: int| 0 <= i < n && #[trigger] colored_at(edges, col, left, node, c, i)
}

proof fn lemma_degree_le(edges: Seq<(usize, usize)>, left: bool, node: usize, n: nat, m: nat)
    requires
        n <= m,
    ensures
        degree(edges, left, node, n) <= degree(edges, left, node, m),
        degree(edges, left, node, m) <= m,
    decreases m,
{
    if m > 0 {
        if n < m {
            lemma_degree_le(edges, left, node, n, (m - 1) as nat);
        } else {
            lemma_degree_le(edges, left, node, (m - 1) as nat, (m - 1) as nat);
        }
    }
}

/// How many of the first `n` edges at a node have a colour below `k`.
spec fn colored_below(
    edges: Seq<(usize, usize)>,
    col: Seq<Option<usize>>,
    left: bool,
    node: usize,
    n: nat,
    k: nat,
) -> nat
    decreases n,
{
    if n == 0 {
        0
    } else {
        colored_below(edges, col, left, node, (n - 1) as nat, k) + if end_of(edges[n - 1], left) == node
            && col[n - 1] is Some && col[n - 1]->0 < k {
            1nat
        } else {
            0nat
        }
    }
}

proof fn lemma_colored_below_step(
    edges: Seq<(usize, usize)>,
    col: Seq<Option<usize>>,
    left: bool,
    node: usize,
    n: nat,
    k: usize,
)
    requires
        n <= edges.len(),
    ensures
        colored_below(edges, col, left, node, n, k as nat) <= colored_below(edges, col, left, node, n, k as nat + 1),
        (exists|i: int| 0 <= i < n && #[trigger] colored_at(edges, col, left, node, k, i)) ==> colored_below(
            edges,
            col,
            left,
            node,
            n,
            k as nat,
        ) + 1 <= colored_below(edges, col, left, node, n, k as nat + 1),
        colored_below(edges, col, left, node, n, k as nat) <= degree(edges, left, node, n),
    decreases n,
{
    if n > 0 {
        lemma_colored_below_step(edges, col, left, node, (n - 1) as nat, k);
        if exists|i: int| 0 <= i < n && #[trigger] colored_at(edges, col, left, node, k, i) {
            let i = choose|i: int| 0 <= i < n && #[trigger] colored_at(edges, col, left, node, k, i);
            if i < n - 1 {
                assert(0 <= i < n - 1 && colored_at(edges, col, left, node, k, i));
            }
        }
    }
}

/// A node at which the first `k` colours are used has at least `k` edges.
proof fn lemma_colors_need_edges(
    edges: Seq<(usize, usize)>,
    col: Seq<Option<usize>>,
    left: bool,
    node: usize,
    n: nat,
    k: nat,
)
    requires
        n <= edges.len(),
        k <= usize::MAX,
        forall|c: usize| c < k ==> #[trigger] used_at(edges, col, left, node, c, n),
    ensures
        colored_below(edges, col, left, node, n, k) >= k,
        degree(edges, left, node, n) >= k,
    decreases k,
{
    if k > 0 {
        lemma_colors_need_edges(edges, col, left, node, n, (k - 1) as nat);
        lemma_colored_below_step(edges, col, left, node, n, (k - 1) as usize);
        let c = (k - 1) as usize;
        assert(used_at(edges, col, left, node, c, n));
        lemma_below_degree(edges, col, left, node, n, k);
    }
}

proof fn lemma_below_degree(
    edges: Seq<(usize, usize)>,
    col: Seq<Option<usize>>,
    left: bool,
    node: usize,
    n: nat,
    k: nat,
)
    ensures
        colored_below(edges, col, left, node, n, k) <= degree(edges, left, node, n),
    decreases n,
{
    if n > 0 {
        lemma_below_degree(edges, col, left, node, (n - 1) as nat, k);
    }
}

/// The edge of a colour at a node.
fn find_colored(edges: &Vec<(usize, usize)>, col: &Vec<Option<usize>>, left: bool, node: usize, c: usize) -> (r: Option<usize>)
    requires
        edges@.len() == col@.len(),
    ensures
        match r {
            Some(i) => colored_at(edges@, col@, left, node, c, i as int),
            None => missing(edges@, col@, left, node, c),
        },
{
    let mut i: usize = 0;
    while i < edges.len()
        invariant
            i <= edges@.len(),
            edges@.len() == col@.len(),
            forall|j: int| 0 <= j < i ==> !#[trigger] colored_at(edges@, col@, left, node, c, j),
        decreases edges@.len() - i,
    {
        let end: usize = if left {
            edges[i].0
        } else {
            edges[i].1
        };
        let same = match col[i] {
            Some(x) => x == c,
            None => false,
        };
        if end == node && same {
            return Some(i);
        }
        i += 1;
    }
    None
}

/// The least colour that no edge at a node has, if fewer than `cap` edges there are coloured.
fn free_color(edges: &Vec<(usize, usize)>, col: &Vec<Option<usize>>, left: bool, node: usize, cap: usize, n: usize) -> (r: usize)
    requires
        edges@.len() == col@.len(),
        n <= edges@.len(),
        forall|i: int| n <= i < col@.len() ==> col@[i] is None,
        degree(edges@, left, node, n as nat) < cap,
    ensures
        r < cap,
        missing(edges@, col@, left, node, r),
        r == first_free(edges@, col@, left, node),
{
    let mut c: usize = 0;
    while c < cap
        invariant
            c <= cap,
            edges@.len() == col@.len(),
            n <= edges@.len(),
            forall|i: int| n <= i < col@.len() ==> col@[i] is None,
            degree(edges@, left, node, n as nat) < cap,
            forall|d: usize| d < c ==> #[trigger] used_at(edges@, col@, left, node, d, n as nat),
        decreases cap - c,
    {
        match find_colored(edges, col, left, node, c) {
            None => {
                proof {
                    assert forall|d: usize| d < c implies !#[trigger] missing(edges@, col@, left, node, d) by {
                        assert(used_at(edges@, col@, left, node, d, n as nat));
                    }
                    lemma_first_free(edges@, col@, left, node, c);
                }
                return c;
            },
            Some(i) => {
                assert(0 <= i < n && colored_at(edges@, col@, left, node, c, i as int));
                assert(used_at(edges@, col@, left, node, c, n as nat));
            },
        }
        c += 1;
    }
    proof {
        lemma_colors_need_edges(edges@, col@, left, node, n as nat, cap as nat);
    }
    0
}

/// The colours at position `k` of a path that alternates between two, from the first.
pub open spec fn alternate(a: usize, b: usize, k: int) -> usize {
    if k % 2 == 0 {
        a
    } else {
        b
    }
}

/// An edge of a path and the next one share a node: in turn on the left and on the right.
pub open spec fn meets_next(edges: Seq<(usize, usize)>, p: Seq<usize>, k: int) -> bool {
    end_of(edges[p[k] as int], k % 2 == 0) == end_of(edges[p[k + 1] as int], k % 2 == 0)
}

/// A path of edges that starts at a node on the right and alternates between two colours.
pub open spec fn alternating(
    edges: Seq<(usize, usize)>,
    col: Seq<Option<usize>>,
    v: usize,
    a: usize,
    b: usize,
    p: Seq<usize>,
) -> bool {
    &&& p.len() > 0
    &&& edges[p[0] as int].1 == v
    &&& forall|k: int|
        0 <= k < p.len() ==> (#[trigger] p[k]) < edges.len() && col[p[k] as int] == Some(alternate(a, b, k))
    &&& forall|k: int| 0 <= k < p.len() - 1 ==> #[trigger] meets_next(edges, p, k)
    &&& p.no_duplicates()
}

/// The path cannot be continued.
pub open spec fn ended(edges: Seq<(usize, usize)>, col: Seq<Option<usize>>, a: usize, b: usize, p: Seq<usize>) -> bool {
    let k = p.len() - 1;
    missing(edges, col, k % 2 == 0, end_of(edges[p[k] as int], k % 2 == 0), alternate(a, b, k + 1))
}

/// The whole path that starts at a node on the right and alternates between two colours.
pub open spec fn path_from(
    edges: Seq<(usize, usize)>,
    col: Seq<Option<usize>>,
    v: usize,
    a: usize,
    b: usize,
) -> Seq<usize> {
    choose|p: Seq<usize>| #[trigger] alternating(edges, col, v, a, b, p) && ended(edges, col, a, b, p)
}

/// Two paths from a node go over the same edges as far as both go.
proof fn lemma_paths_agree(
    edges: Seq<(usize, usize)>,
    col: Seq<Option<usize>>,
    v: usize,
    a: usize,
    b: usize,
    p: Seq<usize>,
    q: Seq<usize>,
    k: int,
)
    requires
        proper(edges, col),
        alternating(edges, col, v, a, b, p),
        alternating(edges, col, v, a, b, q),
        0 <= k < p.len(),
        k < q.len(),
    ensures
        p[k] == q[k],
    decreases k,
{
    let x = p[k] as int;
    let y = q[k] as int;
    assert(col[p[k] as int] == Some(alternate(a, b, k)));
    assert(col[q[k] as int] == Some(alternate(a, b, k)));
    if k > 0 {
        lemma_paths_agree(edges, col, v, a, b, p, q, k - 1);
        assert(meets_next(edges, p, k - 1));
        assert(meets_next(edges, q, k - 1));
    }
    if x < y {
        assert(edges[x].0 != edges[y].0 && edges[x].1 != edges[y].1);
    } else if y < x {
        assert(edges[y].0 != edges[x].0 && edges[y].1 != edges[x].1);
    }
}

/// A path does not go beyond where another has ended.
proof fn lemma_path_stops(
    edges: Seq<(usize, usize)>,
    col: Seq<Option<usize>>,
    v: usize,
    a: usize,
    b: usize,
    p: Seq<usize>,
    q: Seq<usize>,
)
    requires
        proper(edges, col),
        alternating(edges, col, v, a, b, p),
        alternating(edges, col, v, a, b, q),
        ended(edges, col, a, b, p),
    ensures
        q.len() <= p.len(),
{
    if q.len() > p.len() {
        let k = p.len() - 1;
        lemma_paths_agree(edges, col, v, a, b, p, q, k);
        assert(meets_next(edges, q, k));
        assert(col[q[k + 1] as int] == Some(alternate(a, b, k + 1)));
        assert(colored_at(
            edges,
            col,
            k % 2 == 0,
            end_of(edges[p[k] as int], k % 2 == 0),
            alternate(a, b, k + 1),
            q[k + 1] as int,
        ));
    }
}

/// Where edges of the same colour share no node, there is one whole path from a node.
pub proof fn lemma_path_from(
    edges: Seq<(usize, usize)>,
    col: Seq<Option<usize>>,
    v: usize,
    a: usize,
    b: usize,
    p: Seq<usize>,
)
    requires
        proper(edges, col),
        alternating(edges, col, v, a, b, p),
        ended(edges, col, a, b, p),
    ensures
        path_from(edges, col, v, a, b) == p,
{
    let q = path_from(edges, col, v, a, b);
    lemma_path_stops(edges, col, v, a, b, p, q);
    lemma_path_stops(edges, col, v, a, b, q, p);
    assert forall|k: int| 0 <= k < p.len() implies q[k] == p[k] by {
        lemma_paths_agree(edges, col, v, a, b, q, p, k);
    }
    assert(q =~= p);
}

/// The last edge of a path, and the edge that continues it.
spec fn continues(
    edges: Seq<(usize, usize)>,
    col: Seq<Option<usize>>,
    a: usize,
    b: usize,
    p: Seq<usize>,
    e: usize,
) -> bool {
    let k = p.len() - 1;
    colored_at(edges, col, k % 2 == 0, end_of(edges[p[k] as int], k % 2 == 0), alternate(a, b, k + 1), e as int)
}

/// Edges of the same colour that share a node are the same.
proof fn lemma_same_edge(edges: Seq<(usize, usize)>, col: Seq<Option<usize>>, left: bool, x: int, y: int)
    requires
        proper(edges, col),
        0 <= x < edges.len(),
        0 <= y < edges.len(),
        col[x] is Some,
        col[x] == col[y],
        end_of(edges[x], left) == end_of(edges[y], left),
    ensures
        x == y,
{
    if x < y {
        assert(edges[x].0 != edges[y].0 && edges[x].1 != edges[y].1);
    } else if y < x {
        assert(edges[y].0 != edges[x].0 && edges[y].1 != edges[x].1);
    }
}

/// An edge that continues an alternating path is not at a place of it.
proof fn lemma_not_on_path(
    edges: Seq<(usize, usize)>,
    col: Seq<Option<usize>>,
    v: usize,
    a: usize,
    b: usize,
    p: Seq<usize>,
    e: usize,
    j: int,
)
    requires
        proper(edges, col),
        a != b,
        alternating(edges, col, v, a, b, p),
        missing(edges, col, false, v, b),
        continues(edges, col, a, b, p, e),
        0 <= j < p.len(),
    ensures
        p[j] != e,
{
    let n = p.len() as int;
    if p[j] == e {
        let y = p[n - 1];
        assert(col[p[j] as int] == Some(alternate(a, b, j)));
        assert(col[p[n - 1] as int] == Some(alternate(a, b, n - 1)));
        assert(j % 2 == n % 2);
        if j == 0 {
            assert(edges[p[0] as int].1 == v);
            assert(colored_at(edges, col, false, v, b, y as int));
        } else {
            let x = p[j - 1];
            assert(col[p[j - 1] as int] == Some(alternate(a, b, j - 1)));
            assert((j - 1) % 2 == (n - 1) % 2);
            assert(meets_next(edges, p, j - 1));
            lemma_same_edge(edges, col, (j - 1) % 2 == 0, x as int, y as int);
            assert(p[j - 1] == p[n - 1]);
        }
    }
}

/// An edge that continues an alternating path is not on it yet.
proof fn lemma_path_is_new(
    edges: Seq<(usize, usize)>,
    col: Seq<Option<usize>>,
    v: usize,
    a: usize,
    b: usize,
    p: Seq<usize>,
    e: usize,
)
    requires
        proper(edges, col),
        a != b,
        alternating(edges, col, v, a, b, p),
        missing(edges, col, false, v, b),
        continues(edges, col, a, b, p, e),
    ensures
        alternating(edges, col, v, a, b, p.push(e)),
{
    let n = p.len() as int;
    let q = p.push(e);
    assert forall|k: int| 0 <= k < q.len() implies (#[trigger] q[k]) < edges.len() && col[q[k] as int] == Some(
        alternate(a, b, k),
    ) by {
        if k < n {
            assert(q[k] == p[k]);
        }
    }
    assert forall|k: int| 0 <= k < q.len() - 1 implies #[trigger] meets_next(edges, q, k) by {
        assert(q[k] == p[k]);
        if k < n - 1 {
            assert(meets_next(edges, p, k));
            assert(q[k + 1] == p[k + 1]);
        }
    }
    assert(q.no_duplicates()) by {
        assert forall|i: int, j: int| 0 <= i < q.len() && 0 <= j < q.len() && i != j implies q[i] != q[j] by {
            if i < n && j < n {
            } else if i < n {
                lemma_not_on_path(edges, col, v, a, b, p, e, i);
            } else {
                lemma_not_on_path(edges, col, v, a, b, p, e, j);
            }
        }
    }
}

/// The two colours exchanged along a path.
pub open spec fn exchanged(col: Seq<Option<usize>>, p: Seq<usize>, a: usize, b: usize) -> Seq<Option<usize>> {
    Seq::new(
        col.len(),
        |i: int|
            if p.contains(i as usize) {
                if col[i] == Some(a) {
                    Some(b)
                } else {
                    Some(a)
                }
            } else {
                col[i]
            },
    )
}

/// An edge next to the path with the other colour is on the path.
proof fn lemma_path_closed(
    edges: Seq<(usize, usize)>,
    col: Seq<Option<usize>>,
    v: usize,
    a: usize,
    b: usize,
    p: Seq<usize>,
    k: int,
    j: int,
)
    requires
        proper(edges, col),
        edges.len() <= usize::MAX,
        a != b,
        alternating(edges, col, v, a, b, p),
        ended(edges, col, a, b, p),
        missing(edges, col, false, v, b),
        0 <= k < p.len(),
        0 <= j < edges.len(),
        col[j] == Some(alternate(a, b, k + 1)),
        edges[j].0 == edges[p[k] as int].0 || edges[j].1 == edges[p[k] as int].1,
    ensures
        p.contains(j as usize),
{
    let forward = k % 2 == 0;
    let i = p[k] as int;
    if end_of(edges[j], forward) == end_of(edges[i], forward) {
        if k == p.len() - 1 {
            assert(colored_at(edges, col, forward, end_of(edges[i], forward), alternate(a, b, k + 1), j));
        } else {
            let x = p[k + 1] as int;
            assert(col[x] == Some(alternate(a, b, k + 1)));
            assert(meets_next(edges, p, k));
            if x < j {
                assert(edges[x].0 != edges[j].0);
            } else if j < x {
                assert(edges[j].0 != edges[x].0);
            }
            assert(p[k + 1] == j as usize);
        }
    } else {
        assert(end_of(edges[j], !forward) == end_of(edges[i], !forward));
        if k == 0 {
            assert(colored_at(edges, col, false, v, b, j));
        } else {
            let x = p[k - 1] as int;
            assert(col[x] == Some(alternate(a, b, k - 1)));
            assert(meets_next(edges, p, k - 1));
            if x < j {
                assert(edges[x].0 != edges[j].0);
            } else if j < x {
                assert(edges[j].0 != edges[x].0);
            }
            assert(p[k - 1] == j as usize);
        }
    }
}

/// An edge on the path and one off the path that get the same colour do not meet.
proof fn lemma_exchange_apart(
    edges: Seq<(usize, usize)>,
    col: Seq<Option<usize>>,
    v: usize,
    a: usize,
    b: usize,
    p: Seq<usize>,
    i: int,
    j: int,
)
    requires
        proper(edges, col),
        edges.len() <= usize::MAX,
        a != b,
        alternating(edges, col, v, a, b, p),
        ended(edges, col, a, b, p),
        missing(edges, col, false, v, b),
        0 <= i < edges.len(),
        0 <= j < edges.len(),
        p.contains(i as usize),
        !p.contains(j as usize),
        exchanged(col, p, a, b)[i] == exchanged(col, p, a, b)[j],
    ensures
        edges[i].0 != edges[j].0,
        edges[i].1 != edges[j].1,
{
    let k = choose|k: int| 0 <= k < p.len() && p[k] == i as usize;
    assert(col[p[k] as int] == Some(alternate(a, b, k)));
    if edges[j].0 == edges[i].0 || edges[j].1 == edges[i].1 {
        assert(col[j] == Some(alternate(a, b, k + 1)));
        lemma_path_closed(edges, col, v, a, b, p, k, j);
    }
}

/// Exchanging the colours along the whole path keeps the colouring proper.
proof fn lemma_exchange_proper(
    edges: Seq<(usize, usize)>,
    col: Seq<Option<usize>>,
    v: usize,
    a: usize,
    b: usize,
    p: Seq<usize>,
)
    requires
        proper(edges, col),
        edges.len() <= usize::MAX,
        a != b,
        alternating(edges, col, v, a, b, p),
        ended(edges, col, a, b, p),
        missing(edges, col, false, v, b),
    ensures
        proper(edges, exchanged(col, p, a, b)),
{
    let after = exchanged(col, p, a, b);
    assert forall|i: int, j: int|
        0 <= i < j < edges.len() && after[i] is Some && #[trigger] after[i] == #[trigger] after[j] implies edges[i].0
        != edges[j].0 && edges[i].1 != edges[j].1 by {
        let x = p.contains(i as usize);
        let y = p.contains(j as usize);
        if x && y {
            let k = choose|k: int| 0 <= k < p.len() && p[k] == i as usize;
            let l = choose|l: int| 0 <= l < p.len() && p[l] == j as usize;
            assert(col[p[k] as int] == Some(alternate(a, b, k)));
            assert(col[p[l] as int] == Some(alternate(a, b, l)));
            assert(col[i] == col[j]);
        } else if !x && !y {
            assert(col[i] == col[j]);
        } else if x {
            lemma_exchange_apart(edges, col, v, a, b, p, i, j);
        } else {
            lemma_exchange_apart(edges, col, v, a, b, p, j, i);
        }
    }
}

/// Exchanging the colours along the whole path frees the first colour at the start.
proof fn lemma_exchange_start(
    edges: Seq<(usize, usize)>,
    col: Seq<Option<usize>>,
    v: usize,
    a: usize,
    b: usize,
    p: Seq<usize>,
)
    requires
        proper(edges, col),
        edges.len() <= usize::MAX,
        a != b,
        alternating(edges, col, v, a, b, p),
        ended(edges, col, a, b, p),
        missing(edges, col, false, v, b),
    ensures
        missing(edges, exchanged(col, p, a, b), false, v, a),
{
    let after = exchanged(col, p, a, b);
    assert forall|i: int| !#[trigger] colored_at(edges, after, false, v, a, i) by {
        if colored_at(edges, after, false, v, a, i) {
            if p.contains(i as usize) {
                let k = choose|k: int| 0 <= k < p.len() && p[k] == i as usize;
                assert(col[p[k] as int] == Some(alternate(a, b, k)));
                assert(colored_at(edges, col, false, v, b, i));
            } else {
                let x = p[0] as int;
                assert(col[x] == Some(alternate(a, b, 0)));
                assert(col[i] == Some(a));
                if x < i {
                    assert(edges[x].1 != edges[i].1);
                } else if i < x {
                    assert(edges[i].1 != edges[x].1);
                } else {
                    assert(p.contains(p[0]));
                }
            }
        }
    }
}

/// Exchanging the colours along the whole path keeps the colouring proper, and frees the first
/// colour at the start; where it was missing on the left, it still is.
proof fn lemma_exchange(
    edges: Seq<(usize, usize)>,
    col: Seq<Option<usize>>,
    u: usize,
    v: usize,
    a: usize,
    b: usize,
    p: Seq<usize>,
)
    requires
        proper(edges, col),
        edges.len() <= usize::MAX,
        a != b,
        alternating(edges, col, v, a, b, p),
        ended(edges, col, a, b, p),
        missing(edges, col, false, v, b),
        missing(edges, col, true, u, a),
    ensures
        proper(edges, exchanged(col, p, a, b)),
        missing(edges, exchanged(col, p, a, b), false, v, a),
        missing(edges, exchanged(col, p, a, b), true, u, a),
{
    let after = exchanged(col, p, a, b);
    lemma_exchange_proper(edges, col, v, a, b, p);
    lemma_exchange_start(edges, col, v, a, b, p);
    assert forall|i: int| !#[trigger] colored_at(edges, after, true, u, a, i) by {
        if colored_at(edges, after, true, u, a, i) {
            if p.contains(i as usize) {
                let k = choose|k: int| 0 <= k < p.len() && p[k] == i as usize;
                assert(col[p[k] as int] == Some(alternate(a, b, k)));
                assert(k % 2 == 1);
                assert(col[p[k - 1] as int] == Some(alternate(a, b, k - 1)));
                assert(meets_next(edges, p, k - 1));
                assert(colored_at(edges, col, true, u, a, p[k - 1] as int));
            } else {
                assert(colored_at(edges, col, true, u, a, i));
            }
        }
    }
}

/// Makes the first colour free at `v` by exchanging it with the second along a path from there.
fn make_free(edges: &Vec<(usize, usize)>, col: &mut Vec<Option<usize>>, Ghost(u): Ghost<usize>, v: usize, a: usize, b: usize)
    requires
        proper(edges@, old(col)@),
        a != b,
        missing(edges@, old(col)@, true, u, a),
        missing(edges@, old(col)@, false, v, b),
        !missing(edges@, old(col)@, false, v, a),
    ensures
        final(col)@ == exchanged(old(col)@, path_from(edges@, old(col)@, v, a, b), a, b),
        proper(edges@, final(col)@),
        missing(edges@, final(col)@, true, u, a),
        missing(edges@, final(col)@, false, v, a),
        forall|i: int|
            0 <= i < edges@.len() ==> #[trigger] final(col)@[i] == old(col)@[i] || (old(col)@[i] is Some && (
            final(col)@[i] == Some(a) || final(col)@[i] == Some(b))),
{
    let n: usize = edges.len();
    let first: usize = match find_colored(edges, col, false, v, a) {
        Some(e) => e,
        None => {
            return;
        },
    };
    let mut path: Vec<usize> = Vec::new();
    path.push(first);
    let ghost before = col@;
    proof {
        assert(alternating(edges@, col@, v, a, b, path@));
    }
    let mut open = true;
    let mut left = true;
    let mut last: usize = first;
    while open
        invariant
            n == edges@.len(),
            col@ == before,
            proper(edges@, before),
            a != b,
            missing(edges@, before, false, v, b),
            alternating(edges@, before, v, a, b, path@),
            last == path@[path@.len() - 1],
            left == ((path@.len() - 1) % 2 == 0),
            !open ==> ended(edges@, before, a, b, path@),
        decreases
                n - path@.len() + if open {
                    1int
                } else {
                    0int
                },
    {
        proof {
            lemma_distinct_bounded(path@, n as nat);
            assert(last < edges@.len());
        }
        let node: usize = if left {
            edges[last].0
        } else {
            edges[last].1
        };
        let want: usize = if left {
            b
        } else {
            a
        };
        match find_colored(edges, col, left, node, want) {
            Some(e) => {
                proof {
                    assert(want == alternate(a, b, path@.len() as int));
                    assert(continues(edges@, before, a, b, path@, e));
                    lemma_path_is_new(edges@, before, v, a, b, path@, e);
                    lemma_distinct_bounded(path@.push(e), n as nat);
                }
                path.push(e);
                last = e;
                left = !left;
            },
            None => {
                proof {
                    assert(want == alternate(a, b, path@.len() as int));
                }
                open = false;
            },
        }
    }
    proof {
        lemma_exchange(edges@, before, u, v, a, b, path@);
        lemma_path_from(edges@, before, v, a, b, path@);
    }
    let ghost p = path@;
    let mut k: usize = 0;
    proof {
        assert(col@ =~= exchanged(before, p.take(0), a, b));
    }
    while k < path.len()
        invariant
            k <= path@.len(),
            p == path@,
            a != b,
            n == edges@.len(),
            before.len() == n,
            alternating(edges@, before, v, a, b, p),
            col@ == exchanged(before, p.take(k as int), a, b),
        decreases path@.len() - k,
    {
        let e: usize = path[k];
        proof {
            assert(p[k as int] < edges@.len());
            assert(!p.take(k as int).contains(e)) by {
                if p.take(k as int).contains(e) {
                    let j = choose|j: int| 0 <= j < k && p.take(k as int)[j] == e;
                    assert(p[j] == p[k as int]);
                }
            }
        }
        let to: usize = match col[e] {
            Some(c) => if c == a {
                b
            } else {
                a
            },
            None => a,
        };
        col.set(e, Some(to));
        proof {
            assert(col@ =~= exchanged(before, p.take(k + 1), a, b)) by {
                assert forall|i: int| 0 <= i < before.len() implies col@[i] == exchanged(before, p.take(k + 1), a, b)[i] by {
                    if i == e {
                        assert(p.take(k + 1)[k as int] == e);
                        assert(p.take(k + 1).contains(e));
                    } else {
                        let x = p.take(k as int);
                        let y = p.take(k + 1);
                        if x.contains(i as usize) {
                            let j = choose|j: int| 0 <= j < k && x[j] == i as usize;
                            assert(y[j] == i as usize);
                        }
                        if y.contains(i as usize) {
                            let j = choose|j: int| 0 <= j < k + 1 && y[j] == i as usize;
                            assert(x[j] == i as usize);
                        }
                    }
                }
            }
        }
        k += 1;
    }
    proof {
        assert(p.take(p.len() as int) =~= p);
        assert forall|i: int| 0 <= i < edges@.len() implies #[trigger] col@[i] == before[i] || (before[i] is Some && (
        col@[i] == Some(a) || col@[i] == Some(b))) by {
            if p.contains(i as usize) {
                let j = choose|j: int| 0 <= j < p.len() && p[j] == i as usize;
                assert(before[p[j] as int] == Some(alternate(a, b, j)));
            }
        }
    }
}

/// Distinct numbers below `n` are at most `n`.
pub proof fn lemma_distinct_bounded(s: Seq<usize>, n: nat)
    requires
        s.no_duplicates(),
        forall|i: int| 0 <= i < s.len() ==> (#[trigger] s[i]) < n,
    ensures
        s.len() <= n,
{
    let all = Set::<int>::new(|x: int| 0 <= x < n);
    vstd::set_lib::lemma_int_range(0, n as int);
    let t = s.map_values(|x: usize| x as int);
    assert(t.no_duplicates()) by {
        assert forall|i: int, j: int| 0 <= i < t.len() && 0 <= j < t.len() && i != j implies t[i] != t[j] by {
            assert(s[i] != s[j]);
        }
    }
    t.unique_seq_to_set();
    assert(t.to_set().subset_of(vstd::set_lib::set_int_range(0, n as int))) by {
        assert forall|x: int| t.to_set().contains(x) implies vstd::set_lib::set_int_range(0, n as int).contains(x) by {
            assert(t.contains(x));
            let i = choose|i: int| 0 <= i < t.len() && t[i] == x;
            assert(s[i] < n);
        }
    }
    vstd::set_lib::lemma_len_subset(t.to_set(), vstd::set_lib::set_int_range(0, n as int));
}

/// Whether no node has more than `cap` edges.
fn check_degrees(edges: &Vec<(usize, usize)>, cap: usize) -> (r: bool)
    ensures
        r == degrees_within(edges@, cap as nat),
{
    let mut i: usize = 0;
    while i < edges.len()
        invariant
            i <= edges@.len(),
            forall|j: int, left: bool|
                0 <= j < i ==> degree(edges@, left, end_of(#[trigger] edges@[j], left), edges@.len()) <= cap
                    || !#[trigger] is_side(left),
        decreases edges@.len() - i,
    {
        let a: usize = count_degree(edges, true, edges[i].0);
        let b: usize = count_degree(edges, false, edges[i].1);
        if a > cap {
            assert(degree(edges@, true, edges@[i as int].0, edges@.len()) > cap);
            return false;
        }
        if b > cap {
            assert(degree(edges@, false, edges@[i as int].1, edges@.len()) > cap);
            return false;
        }
        i += 1;
    }
    proof {
        assert forall|left: bool, node: usize| #[trigger] degree(edges@, left, node, edges@.len()) <= cap by {
            lemma_degree_zero(edges@, left, node, edges@.len());
            if degree(edges@, left, node, edges@.len()) > 0 {
                let j = choose|j: int| 0 <= j < edges@.len() && end_of(#[trigger] edges@[j], left) == node;
                assert(is_side(left));
            }
        }
    }
    true
}

spec fn is_side(left: bool) -> bool {
    true
}

proof fn lemma_degree_zero(edges: Seq<(usize, usize)>, left: bool, node: usize, n: nat)
    requires
        n <= edges.len(),
    ensures
        degree(edges, left, node, n) > 0 ==> exists|j: int| 0 <= j < n && end_of(#[trigger] edges[j], left) == node,
    decreases n,
{
    if n > 0 {
        lemma_degree_zero(edges, left, node, (n - 1) as nat);
    }
}

fn count_degree(edges: &Vec<(usize, usize)>, left: bool, node: usize) -> (r: usize)
    ensures
        r == degree(edges@, left, node, edges@.len()),
{
    let mut count: usize = 0;
    let mut i: usize = 0;
    while i < edges.len()
        invariant
            i <= edges@.len(),
            count == degree(edges@, left, node, i as nat),
            count <= i,
        decreases edges@.len() - i,
    {
        let end: usize = if left {
            edges[i].0
        } else {
            edges[i].1
        };
        if end == node {
            count += 1;
        }
        i += 1;
    }
    count
}

/// A colouring with `cap` colours.
pub open spec fn is_coloring(edges: Seq<(usize, usize)>, colors: Seq<usize>, cap: nat) -> bool {
    &&& colors.len() == edges.len()
    &&& forall|i: int| 0 <= i < colors.len() ==> (#[trigger] colors[i]) < cap
    &&& forall|i: int, j: int|
        0 <= i < j < edges.len() && #[trigger] colors[i] == #[trigger] colors[j] ==> edges[i].0 != edges[j].0
            && edges[i].1 != edges[j].1
}

/// The colours with that of one more edge. It gets the first colour that is free at its left end. Where
/// that is taken at the right end, it is exchanged with the first that is free there, along the path from
/// the right end that alternates between the two.
pub open spec fn with_next(edges: Seq<(usize, usize)>, col: Seq<Option<usize>>, e: int) -> Seq<Option<usize>> {
    let (u, v) = edges[e];
    let a = first_free(edges, col, true, u);
    let b = first_free(edges, col, false, v);
    if missing(edges, col, false, v, a) {
        col.update(e, Some(a))
    } else {
        exchanged(col, path_from(edges, col, v, a, b), a, b).update(e, Some(a))
    }
}

/// The colours once the first `n` edges have theirs.
pub open spec fn colored_first(edges: Seq<(usize, usize)>, n: nat) -> Seq<Option<usize>>
    decreases n,
{
    if n == 0 {
        Seq::new(edges.len(), |i: int| None)
    } else {
        with_next(edges, colored_first(edges, (n - 1) as nat), n - 1)
    }
}

/// The colours of the edges, given to them one after the other.
pub open spec fn edge_colors(edges: Seq<(usize, usize)>) -> Seq<usize> {
    colored_first(edges, edges.len()).map_values(|c: Option<usize>| c->0)
}

/// Colours the edges with `cap` colours. That is possible exactly if no node has more edges.
pub fn color_edges(edges: &Vec<(usize, usize)>, cap: usize) -> (r: Option<Vec<usize>>)
    ensures
        r is Some == degrees_within(edges@, cap as nat),
        r matches Some(c) ==> c@ == edge_colors(edges@) && is_coloring(edges@, c@, cap as nat),
{
    if !check_degrees(edges, cap) {
        return None;
    }
    let n: usize = edges.len();
    let mut col: Vec<Option<usize>> = Vec::new();
    let mut i: usize = 0;
    while i < n
        invariant
            i <= n,
            col@.len() == i,
            forall|j: int| 0 <= j < i ==> (#[trigger] col@[j]) is None,
        decreases n - i,
    {
        col.push(None);
        i += 1;
    }
    proof {
        assert(col@ =~= colored_first(edges@, 0));
    }
    let mut e: usize = 0;
    while e < n
        invariant
            e <= n,
            n == edges@.len(),
            degrees_within(edges@, cap as nat),
            proper(edges@, col@),
            col@ == colored_first(edges@, e as nat),
            forall|j: int| 0 <= j < e ==> (#[trigger] col@[j]) is Some && col@[j]->0 < cap,
            forall|j: int| e <= j < n ==> (#[trigger] col@[j]) is None,
        decreases n - e,
    {
        let (u, v): (usize, usize) = edges[e];
        proof {
            assert(degree(edges@, true, u, edges@.len()) <= cap);
            assert(degree(edges@, false, v, edges@.len()) <= cap);
            lemma_degree_le(edges@, true, u, (e + 1) as nat, n as nat);
            lemma_degree_le(edges@, false, v, (e + 1) as nat, n as nat);
        }
        let a: usize = free_color(edges, &col, true, u, cap, e);
        let b: usize = free_color(edges, &col, false, v, cap, e);
        let ghost before = col@;
        let taken = match find_colored(edges, &col, false, v, a) {
            Some(_) => true,
            None => false,
        };
        if taken {
            make_free(edges, &mut col, Ghost(u), v, a, b);
        }
        let ghost mid = col@;
        proof {
            if taken {
                assert(!missing(edges@, before, false, v, a));
            }
            assert(missing(edges@, mid, true, u, a));
            assert(missing(edges@, mid, false, v, a));
            assert(mid[e as int] is None);
        }
        col.set(e, Some(a));
        proof {
            assert(col@ == with_next(edges@, before, e as int));
            assert(col@ == colored_first(edges@, (e + 1) as nat));
            assert forall|i: int, j: int|
                0 <= i < j < n && col@[i] is Some && #[trigger] col@[i] == #[trigger] col@[j] implies edges@[i].0
                != edges@[j].0 && edges@[i].1 != edges@[j].1 by {
                if i == e {
                    assert(!colored_at(edges@, mid, true, u, a, j));
                    assert(!colored_at(edges@, mid, false, v, a, j));
                } else if j == e {
                    assert(!colored_at(edges@, mid, true, u, a, i));
                    assert(!colored_at(edges@, mid, false, v, a, i));
                } else {
                    assert(mid[i] == mid[j]);
                }
            }
            assert forall|j: int| 0 <= j < e + 1 implies (#[trigger] col@[j]) is Some && col@[j]->0 < cap by {
                if j < e {
                    assert(before[j] is Some);
                    assert(mid[j] == before[j] || mid[j] == Some(a) || mid[j] == Some(b));
                }
            }
            assert forall|j: int| e + 1 <= j < n implies (#[trigger] col@[j]) is None by {
                assert(before[j] is None);
                assert(mid[j] is None);
            }
        }
        e += 1;
    }
    let mut r: Vec<usize> = Vec::new();
    let mut k: usize = 0;
    while k < n
        invariant
            k <= n,
            n == edges@.len(),
            col@.len() == n,
            col@ == colored_first(edges@, n as nat),
            forall|j: int| 0 <= j < n ==> (#[trigger] col@[j]) is Some && col@[j]->0 < cap,
            r@.len() == k,
            forall|j: int| 0 <= j < k ==> col@[j] == Some(#[trigger] r@[j]),
        decreases n - k,
    {
        if let Some(c) = col[k] {
            r.push(c);
        }
        k += 1;
    }
    proof {
        assert forall|i: int, j: int| 0 <= i < j < n && #[trigger] r@[i] == #[trigger] r@[j] implies edges@[i].0
            != edges@[j].0 && edges@[i].1 != edges@[j].1 by {
            assert(col@[i] == col@[j]);
        }
        assert(r@ =~= edge_colors(edges@)) by {
            assert forall|j: int| 0 <= j < n implies r@[j] == edge_colors(edges@)[j] by {
                assert(col@[j] == Some(r@[j]));
            }
        }
    }
    Some(r)
}

} // verus!
