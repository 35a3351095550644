//! Earliest start times of steps that depend on each other.

use vstd::prelude::*;

verus! {

/// When a step ends.
pub open spec fn finish_us(est: Seq<u64>, dur: Seq<u64>, u: int) -> u64 {
    if est[u] + dur[u] > u64::MAX {
        u64::MAX
    } else {
        (est[u] + dur[u]) as u64
    }
}

/// A list of steps in which each comes after all that it depends on, and that cannot be continued.
pub open spec fn is_run_order(edges: Seq<(usize, usize)>, n: nat, order: Seq<usize>) -> bool {
    &&& order.no_duplicates()
    &&& forall|k: int| 0 <= k < order.len() ==> (#[trigger] order[k]) < n
    &&& forall|k: int, j: int|
        0 <= k < order.len() && 0 <= j < edges.len() && (#[trigger] edges[j]).1 == #[trigger] order[k]
            ==> order.take(k).contains(edges[j].0)
    &&& forall|v: usize| v < n && !order.contains(v) ==> #[trigger] is_held_back(edges, order, v)
}

/// The step depends on one that is not in the list.
pub open spec fn is_held_back(edges: Seq<(usize, usize)>, order: Seq<usize>, v: usize) -> bool {
    exists|j: int| 0 <= j < edges.len() && (#[trigger] edges[j]).1 == v && !order.contains(edges[j].0)
}

/// Every step starts when the last of those in the list that it depends on ends, and at zero if
/// there is none.
pub open spec fn are_earliest(
    edges: Seq<(usize, usize)>,
    dur: Seq<u64>,
    order: Seq<usize>,
    est: Seq<u64>,
) -> bool {
    &&& est.len() == dur.len()
    &&& forall|j: int|
        0 <= j < edges.len() && order.contains((#[trigger] edges[j]).0) ==> finish_us(est, dur, edges[j].0 as int)
            <= est[edges[j].1 as int]
    &&& forall|v: int| 0 <= v < est.len() ==> (#[trigger] est[v] == 0 || waits_for(edges, dur, order, est, v))
}

/// The step starts when one of those in the list that it depends on ends.
pub open spec fn waits_for(edges: Seq<(usize, usize)>, dur: Seq<u64>, order: Seq<usize>, est: Seq<u64>, v: int) -> bool {
    exists|j: int|
        0 <= j < edges.len() && (#[trigger] edges[j]).1 == v && order.contains(edges[j].0) && est[v] == finish_us(
            est,
            dur,
            edges[j].0 as int,
        )
}

/// Number of the first `n` edges to `v` that are not in `seen`.
spec fn unseen(edges: Seq<(usize, usize)>, seen: Set<int>, v: usize, n: nat) -> nat
    decreases n,
{
    if n == 0 {
        0
    } else {
        unseen(edges, seen, v, (n - 1) as nat) + if edges[n - 1].1 == v && !seen.contains(n - 1) {
            1nat
        } else {
            0nat
        }
    }
}

proof fn lemma_unseen(edges: Seq<(usize, usize)>, seen: Set<int>, v: usize, n: nat, j: int)
    requires
        n <= edges.len(),
        0 <= j < n,
        !seen.contains(j),
    ensures
        unseen(edges, seen.insert(j), v, n) == unseen(edges, seen, v, n) - if edges[j].1 == v {
            1int
        } else {
            0int
        },
        edges[j].1 == v ==> unseen(edges, seen, v, n) > 0,
    decreases n,
{
    if j == n - 1 {
        lemma_unseen_same(edges, seen, seen.insert(j), v, (n - 1) as nat);
    } else {
        lemma_unseen(edges, seen, v, (n - 1) as nat, j);
    }
}

proof fn lemma_unseen_same(edges: Seq<(usize, usize)>, a: Set<int>, b: Set<int>, v: usize, n: nat)
    requires
        forall|j: int| 0 <= j < n ==> a.contains(j) == b.contains(j),
    ensures
        unseen(edges, a, v, n) == unseen(edges, b, v, n),
    decreases n,
{
    if n > 0 {
        lemma_unseen_same(edges, a, b, v, (n - 1) as nat);
    }
}

proof fn lemma_unseen_zero(edges: Seq<(usize, usize)>, seen: Set<int>, v: usize, n: nat)
    requires
        n <= edges.len(),
    ensures
        unseen(edges, seen, v, n) == 0 ==> forall|j: int| 0 <= j < n && (#[trigger] edges[j]).1 == v ==> seen.contains(j),
        unseen(edges, seen, v, n) > 0 ==> exists|j: int| 0 <= j < n && (#[trigger] edges[j]).1 == v && !seen.contains(j),
        unseen(edges, seen, v, n) <= n,
    decreases n,
{
    if n > 0 {
        lemma_unseen_zero(edges, seen, v, (n - 1) as nat);
    }
}

/// The state of the search: `seen` are the edges that have been followed, `q` the steps that wait
/// for nothing more, of which the first `head` are done.
spec fn search_ok(
    edges: Seq<(usize, usize)>,
    dur: Seq<u64>,
    seen: Set<int>,
    q: Seq<usize>,
    head: int,
    indeg: Seq<usize>,
    est: Seq<u64>,
) -> bool {
    let n = dur.len();
    &&& indeg.len() == n
    &&& est.len() == n
    &&& 0 <= head <= q.len()
    &&& q.no_duplicates()
    &&& forall|k: int| 0 <= k < q.len() ==> (#[trigger] q[k]) < n
    &&& forall|v: usize| v < n ==> #[trigger] indeg[v as int] == unseen(edges, seen, v, edges.len())
    &&& forall|v: usize| v < n ==> (#[trigger] q.contains(v) <==> indeg[v as int] == 0)
    &&& forall|j: int| #[trigger] seen.contains(j) ==> 0 <= j < edges.len()
    &&& forall|k: int, j: int|
        0 <= k < q.len() && 0 <= j < edges.len() && (#[trigger] edges[j]).1 == #[trigger] q[k] ==> q.take(k).contains(
            edges[j].0,
        )
    &&& forall|j: int|
        #[trigger] seen.contains(j) ==> q.contains(edges[j].0) && finish_us(est, dur, edges[j].0 as int)
            <= est[edges[j].1 as int]
    &&& forall|v: int| 0 <= v < n ==> (#[trigger] est[v] == 0 || seen_wait(edges, dur, seen, est, v))
}

spec fn seen_wait(edges: Seq<(usize, usize)>, dur: Seq<u64>, seen: Set<int>, est: Seq<u64>, v: int) -> bool {
    exists|j: int|
        0 <= j < edges.len() && seen.contains(j) && (#[trigger] edges[j]).1 == v && est[v] == finish_us(
            est,
            dur,
            edges[j].0 as int,
        )
}

/// Following an edge from the step at the head.
proof fn lemma_follow(
    edges: Seq<(usize, usize)>,
    dur: Seq<u64>,
    seen: Set<int>,
    q: Seq<usize>,
    head: int,
    indeg: Seq<usize>,
    est: Seq<u64>,
    j: int,
    q2: Seq<usize>,
    indeg2: Seq<usize>,
    est2: Seq<u64>,
)
    requires
        search_ok(edges, dur, seen, q, head, indeg, est),
        dur.len() <= usize::MAX,
        0 <= j < edges.len(),
        forall|i: int| 0 <= i < edges.len() ==> (#[trigger] edges[i]).0 < dur.len() && edges[i].1 < dur.len(),
        !seen.contains(j),
        head < q.len(),
        q[head] == edges[j].0,
        forall|i: int|
            #[trigger] seen.contains(i) ==> q.take(head + 1).contains(edges[i].0),
        ({
            let v = edges[j].1 as int;
            let f = finish_us(est, dur, edges[j].0 as int);
            &&& est2 == est.update(
                v,
                if est[v] < f {
                    f
                } else {
                    est[v]
                },
            )
            &&& indeg2 == indeg.update(v, (indeg[v] - 1) as usize)
            &&& q2 == if indeg[v] == 1 {
                q.push(edges[j].1)
            } else {
                q
            }
        }),
    ensures
        indeg[edges[j].1 as int] > 0,
        search_ok(edges, dur, seen.insert(j), q2, head, indeg2, est2),
        q2.take(head + 1) == q.take(head + 1),
{
    let u = edges[j].0;
    let v = edges[j].1;
    let n = dur.len();
    let after = seen.insert(j);
    lemma_unseen(edges, seen, v, edges.len(), j);
    lemma_unseen_zero(edges, seen, v, edges.len());
    assert(indeg[v as int] > 0);
    assert(!q.contains(v));
    assert(q.contains(u)) by {
        assert(q[head] == u);
    }
    assert(u != v);
    assert forall|x: usize| x < n implies #[trigger] indeg2[x as int] == unseen(edges, after, x, edges.len()) by {
        lemma_unseen(edges, seen, x, edges.len(), j);
        assert(indeg[x as int] == unseen(edges, seen, x, edges.len()));
    }
    assert forall|x: usize| x < n implies (#[trigger] q2.contains(x) <==> indeg2[x as int] == 0) by {
        assert(q.contains(x) <==> indeg[x as int] == 0);
        if q.contains(x) {
            let k = choose|k: int| 0 <= k < q.len() && q[k] == x;
            assert(q2[k] == x);
        }
        if indeg[v as int] == 1 {
            assert(q2[q.len() as int] == v);
        }
    }
    assert(q2.no_duplicates()) by {
        assert forall|a: int, b: int| 0 <= a < q2.len() && 0 <= b < q2.len() && a != b implies q2[a] != q2[b] by {
            if a < q.len() {
                assert(q.contains(q[a]));
            }
            if b < q.len() {
                assert(q.contains(q[b]));
            }
        }
    }
    assert forall|k: int, i: int|
        0 <= k < q2.len() && 0 <= i < edges.len() && (#[trigger] edges[i]).1 == #[trigger] q2[k] implies q2.take(k).contains(
        edges[i].0,
    ) by {
        if k < q.len() {
            assert(q2[k] == q[k]);
            assert(q2.take(k) =~= q.take(k));
            assert(q.take(k).contains(edges[i].0));
        } else {
            assert(q2[k] == v);
            assert(unseen(edges, after, v, edges.len()) == 0);
            lemma_unseen_zero(edges, after, v, edges.len());
            assert(after.contains(i));
            assert(q2.take(k) =~= q);
            if i != j {
                assert(q.contains(edges[i].0));
            }
        }
    }
    assert forall|i: int| #[trigger] after.contains(i) implies q2.contains(edges[i].0) && finish_us(
        est2,
        dur,
        edges[i].0 as int,
    ) <= est2[edges[i].1 as int] by {
        if i == j {
            assert(q2[head] == u);
        } else {
            assert(seen.contains(i));
            assert(q.contains(edges[i].0));
            let k = choose|k: int| 0 <= k < q.len() && q[k] == edges[i].0;
            assert(q2[k] == edges[i].0);
            assert(edges[i].0 != v);
        }
    }
    assert forall|x: int| 0 <= x < n implies (#[trigger] est2[x] == 0 || seen_wait(edges, dur, after, est2, x)) by {
        if x == v {
            if est2[x] != est[x] {
                assert(after.contains(j) && edges[j].1 == x);
            } else if est[x] != 0 {
                assert(seen_wait(edges, dur, seen, est, x));
                let i = choose|i: int|
                    0 <= i < edges.len() && seen.contains(i) && (#[trigger] edges[i]).1 == x && est[x] == finish_us(
                        est,
                        dur,
                        edges[i].0 as int,
                    );
                assert(q.contains(edges[i].0));
                assert(edges[i].0 != v);
                assert(after.contains(i) && edges[i].1 == x);
            }
        } else if est[x] != 0 {
            assert(est2[x] == est[x]);
            assert(seen_wait(edges, dur, seen, est, x));
            let i = choose|i: int|
                0 <= i < edges.len() && seen.contains(i) && (#[trigger] edges[i]).1 == x && est[x] == finish_us(
                    est,
                    dur,
                    edges[i].0 as int,
                );
            assert(q.contains(edges[i].0));
            assert(edges[i].0 != v);
            assert(after.contains(i) && edges[i].1 == x);
        }
    }
    assert(q2.take(head + 1) =~= q.take(head + 1));
}

/// The earliest start of each step. Steps that wait for each other in a circle, and those behind
/// them, wait only for the steps before them.
pub fn earliest_starts(dur: &Vec<u64>, edges: &Vec<(usize, usize)>) -> (est: Vec<u64>)
    requires
        forall|j: int| 0 <= j < edges@.len() ==> (#[trigger] edges@[j]).0 < dur@.len() && edges@[j].1 < dur@.len(),
    ensures
        exists|order: Seq<usize>| #[trigger]
            is_run_order(edges@, dur@.len(), order) && are_earliest(edges@, dur@, order, est@),
{
    let n: usize = dur.len();
    let m: usize = edges.len();
    let ghost mut seen: Set<int> = Set::empty();
    let mut est: Vec<u64> = Vec::new();
    let mut indeg: Vec<usize> = Vec::new();
    let mut i: usize = 0;
    while i < n
        invariant
            i <= n,
            est@.len() == i,
            indeg@.len() == i,
            forall|v: int| 0 <= v < i ==> #[trigger] est@[v] == 0,
            forall|v: int| 0 <= v < i ==> #[trigger] indeg@[v] == 0,
        decreases n - i,
    {
        est.push(0);
        indeg.push(0);
        i += 1;
    }
    let mut j: usize = 0;
    while j < m
        invariant
            j <= m,
            n == dur@.len(),
            m == edges@.len(),
            indeg@.len() == n,
            seen == Set::<int>::empty(),
            forall|j: int| 0 <= j < edges@.len() ==> (#[trigger] edges@[j]).0 < dur@.len() && edges@[j].1 < dur@.len(),
            forall|v: usize| v < n ==> #[trigger] indeg@[v as int] == unseen(edges@, seen, v, j as nat),
        decreases m - j,
    {
        let v: usize = edges[j].1;
        proof {
            lemma_unseen_zero(edges@, seen, v, j as nat);
        }
        indeg.set(v, indeg[v] + 1);
        j += 1;
    }
    let mut q: Vec<usize> = Vec::new();
    let mut k: usize = 0;
    while k < n
        invariant
            k <= n,
            n == indeg@.len(),
            q@.no_duplicates(),
            forall|x: int| 0 <= x < q@.len() ==> (#[trigger] q@[x]) < k,
            forall|v: usize| v < k ==> (#[trigger] q@.contains(v) <==> indeg@[v as int] == 0),
        decreases n - k,
    {
        let ghost before = q@;
        if indeg[k] == 0 {
            q.push(k);
        }
        proof {
            assert forall|v: usize| v < k + 1 implies (#[trigger] q@.contains(v) <==> indeg@[v as int] == 0) by {
                if v < k {
                    assert(before.contains(v) <==> indeg@[v as int] == 0);
                    if before.contains(v) {
                        let x = choose|x: int| 0 <= x < before.len() && before[x] == v;
                        assert(q@[x] == v);
                    }
                } else if indeg@[k as int] == 0 {
                    assert(q@[before.len() as int] == k);
                }
            }
        }
        k += 1;
    }
    proof {
        assert forall|k: int, j: int|
            0 <= k < q@.len() && 0 <= j < edges@.len() && (#[trigger] edges@[j]).1 == #[trigger] q@[k] implies q@.take(
            k,
        ).contains(edges@[j].0) by {
            assert(q@.contains(q@[k]));
            lemma_unseen_zero(edges@, seen, q@[k], edges@.len());
            assert(seen.contains(j));
        }
        assert(search_ok(edges@, dur@, seen, q@, 0, indeg@, est@));
    }
    let mut head: usize = 0;
    while head < q.len()
        invariant
            n == dur@.len(),
            m == edges@.len(),
            head <= q@.len(),
            forall|j: int| 0 <= j < edges@.len() ==> (#[trigger] edges@[j]).0 < dur@.len() && edges@[j].1 < dur@.len(),
            search_ok(edges@, dur@, seen, q@, head as int, indeg@, est@),
            forall|i: int| 0 <= i < edges@.len() ==> (#[trigger] seen.contains(i) <==> q@.take(head as int).contains(
                edges@[i].0,
            )),
        decreases n - head,
    {
        let u: usize = q[head];
        proof {
            crate::spine::coloring::lemma_distinct_bounded(q@, n as nat);
        }
        let ghost done = q@.take(head as int);
        let mut e: usize = 0;
        while e < m
            invariant
                n == dur@.len(),
                m == edges@.len(),
                e <= m,
                head < q@.len(),
                u == q@[head as int],
                done == q@.take(head as int),
                forall|j: int| 0 <= j < edges@.len() ==> (#[trigger] edges@[j]).0 < dur@.len() && edges@[j].1 < dur@.len(),
                search_ok(edges@, dur@, seen, q@, head as int, indeg@, est@),
                forall|i: int|
                    0 <= i < edges@.len() ==> (#[trigger] seen.contains(i) <==> (done.contains(edges@[i].0) || (
                    edges@[i].0 == u && i < e))),
            decreases m - e,
        {
            if edges[e].0 == u {
                let v: usize = edges[e].1;
                proof {
                    assert(!done.contains(u)) by {
                        if done.contains(u) {
                            let x = choose|x: int| 0 <= x < done.len() && done[x] == u;
                            assert(q@[x] == q@[head as int]);
                        }
                    }
                    assert(!seen.contains(e as int));
                    lemma_unseen(edges@, seen, v, edges@.len(), e as int);
                    assert forall|i: int| #[trigger] seen.contains(i) implies q@.take(head + 1).contains(edges@[i].0) by {
                        assert(0 <= i < edges@.len());
                        if done.contains(edges@[i].0) {
                            let x = choose|x: int| 0 <= x < done.len() && done[x] == edges@[i].0;
                            assert(q@.take(head + 1)[x] == edges@[i].0);
                        } else {
                            assert(q@.take(head + 1)[head as int] == u);
                        }
                    }
                }
                let ghost q1 = q@;
                let ghost indeg1 = indeg@;
                let ghost est1 = est@;
                let finish: u64 = match est[u].checked_add(dur[u]) {
                    Some(f) => f,
                    None => u64::MAX,
                };
                if est[v] < finish {
                    est.set(v, finish);
                }
                indeg.set(v, indeg[v] - 1);
                if indeg[v] == 0 {
                    q.push(v);
                }
                proof {
                    assert(est@ =~= est1.update(
                        v as int,
                        if est1[v as int] < finish {
                            finish
                        } else {
                            est1[v as int]
                        },
                    ));
                    lemma_follow(
                        edges@,
                        dur@,
                        seen,
                        q1,
                        head as int,
                        indeg1,
                        est1,
                        e as int,
                        q@,
                        indeg@,
                        est@,
                    );
                    seen = seen.insert(e as int);
                    assert(q@[head as int] == u) by {
                        assert(q@.take(head + 1)[head as int] == q1.take(head + 1)[head as int]);
                    }
                    assert(q@.take(head as int) =~= done) by {
                        assert(q@.take(head + 1).take(head as int) =~= q@.take(head as int));
                        assert(q1.take(head + 1).take(head as int) =~= q1.take(head as int));
                    }
                }
            }
            e += 1;
        }
        proof {
            assert(q@.take(head + 1) =~= done.push(u));
            assert forall|i: int| 0 <= i < edges@.len() implies (#[trigger] seen.contains(i) <==> q@.take(head + 1).contains(
                edges@[i].0,
            )) by {
                let longer = q@.take(head + 1);
                if done.contains(edges@[i].0) {
                    let x = choose|x: int| 0 <= x < done.len() && done[x] == edges@[i].0;
                    assert(longer[x] == edges@[i].0);
                }
                assert(longer[head as int] == u);
                if longer.contains(edges@[i].0) && edges@[i].0 != u {
                    let x = choose|x: int| 0 <= x < longer.len() && longer[x] == edges@[i].0;
                    assert(done[x] == edges@[i].0);
                }
            }
        }
        head += 1;
    }
    proof {
        let order = q@;
        assert(q@.take(head as int) =~= q@);
        assert forall|v: usize| v < n && !order.contains(v) implies #[trigger] is_held_back(edges@, order, v) by {
            lemma_unseen_zero(edges@, seen, v, edges@.len());
            assert(indeg@[v as int] != 0);
            let j = choose|j: int| 0 <= j < edges@.len() && (#[trigger] edges@[j]).1 == v && !seen.contains(j);
            assert(!order.contains(edges@[j].0));
        }
        assert(is_run_order(edges@, dur@.len(), order));
        assert forall|v: int| 0 <= v < est@.len() implies (#[trigger] est@[v] == 0 || waits_for(
            edges@,
            dur@,
            order,
            est@,
            v,
        )) by {
            if est@[v] != 0 {
                assert(seen_wait(edges@, dur@, seen, est@, v));
                let j = choose|j: int|
                    0 <= j < edges@.len() && seen.contains(j) && (#[trigger] edges@[j]).1 == v && est@[v] == finish_us(
                        est@,
                        dur@,
                        edges@[j].0 as int,
                    );
                assert(order.contains(edges@[j].0));
            }
        }
        assert forall|j: int| 0 <= j < edges@.len() && order.contains((#[trigger] edges@[j]).0) implies finish_us(
            est@,
            dur@,
            edges@[j].0 as int,
        ) <= est@[edges@[j].1 as int] by {
            assert(seen.contains(j));
        }
        assert(are_earliest(edges@, dur@, order, est@));
    }
    est
}

} // verus!
