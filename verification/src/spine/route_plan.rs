//! Spines for planned flows. Flows whose rounds overlap in time, directly or through others, form a
//! group; within a group no two flows share a link between a leaf and a spine.

use vstd::prelude::*;

use crate::simulator::ml_worker::JobId;
use crate::spine::coloring::{color_edges, degree, degrees_within, edge_colors, end_of, is_coloring};

verus! {

/// A flow of an iteration that has been given a time.
#[derive(Debug, Clone, Copy, PartialEq, Eq, Structural)]
pub struct PlacedFlow {
    pub job_id: JobId,
    pub job_flow_idx: usize,
    pub iter_idx: usize,
    pub start_us: u64,
    pub end_us: u64,
    pub src_host: usize,
    pub dst_host: usize,
    pub src_leaf: usize,
    pub dst_leaf: usize,
}

impl PlacedFlow {
    /// The iteration that the flow belongs to.
    pub open spec fn round(self) -> (JobId, usize) {
        (self.job_id, self.iter_idx)
    }

    /// The flow goes over a spine.
    pub open spec fn crosses(self) -> bool {
        self.src_leaf != self.dst_leaf
    }

    /// The two leaves.
    pub open spec fn leaves(self) -> (usize, usize) {
        (self.src_leaf, self.dst_leaf)
    }
}

/// Two flows run at the same time.
pub open spec fn overlap(a: PlacedFlow, b: PlacedFlow) -> bool {
    a.start_us < b.end_us && b.start_us < a.end_us && a.start_us < a.end_us && b.start_us < b.end_us
}

/// Flows of two iterations run at the same time.
pub open spec fn meet(placed: Seq<PlacedFlow>, a: (JobId, usize), b: (JobId, usize)) -> bool {
    exists|i: int, j: int|
        0 <= i < placed.len() && 0 <= j < placed.len() && placed[i].round() == a && placed[j].round() == b && overlap(
            #[trigger] placed[i],
            #[trigger] placed[j],
        )
}

/// A chain of iterations, each of which meets the next.
pub open spec fn is_chain(placed: Seq<PlacedFlow>, p: Seq<(JobId, usize)>) -> bool {
    forall|k: int| 0 <= k < p.len() - 1 ==> meet(placed, #[trigger] p[k], p[k + 1])
}

/// Two iterations overlap, directly or through others.
pub open spec fn linked(placed: Seq<PlacedFlow>, a: (JobId, usize), b: (JobId, usize)) -> bool {
    exists|p: Seq<(JobId, usize)>| p.len() > 0 && p[0] == a && p[p.len() - 1] == b && #[trigger] is_chain(placed, p)
}

pub proof fn lemma_meet_symmetric(placed: Seq<PlacedFlow>, a: (JobId, usize), b: (JobId, usize))
    ensures
        meet(placed, a, b) == meet(placed, b, a),
{
    if meet(placed, a, b) {
        let (i, j) = choose|i: int, j: int|
            0 <= i < placed.len() && 0 <= j < placed.len() && placed[i].round() == a && placed[j].round() == b
                && overlap(#[trigger] placed[i], #[trigger] placed[j]);
        assert(overlap(placed[j], placed[i]));
    }
    if meet(placed, b, a) {
        let (i, j) = choose|i: int, j: int|
            0 <= i < placed.len() && 0 <= j < placed.len() && placed[i].round() == b && placed[j].round() == a
                && overlap(#[trigger] placed[i], #[trigger] placed[j]);
        assert(overlap(placed[j], placed[i]));
    }
}

/// Linked iterations form groups: every one is linked to itself, links go both ways and add up.
pub proof fn lemma_linked(placed: Seq<PlacedFlow>, a: (JobId, usize), b: (JobId, usize), c: (JobId, usize))
    ensures
        linked(placed, a, a),
        linked(placed, a, b) ==> linked(placed, b, a),
        linked(placed, a, b) && linked(placed, b, c) ==> linked(placed, a, c),
        meet(placed, a, b) ==> linked(placed, a, b),
{
    assert(is_chain(placed, seq![a]));
    if meet(placed, a, b) {
        assert(is_chain(placed, seq![a, b]));
    }
    if linked(placed, a, b) {
        let p = choose|p: Seq<(JobId, usize)>|
            p.len() > 0 && p[0] == a && p[p.len() - 1] == b && #[trigger] is_chain(placed, p);
        let q = Seq::new(p.len(), |k: int| p[p.len() - 1 - k]);
        assert forall|k: int| 0 <= k < q.len() - 1 implies meet(placed, #[trigger] q[k], q[k + 1]) by {
            let m = p.len() - 2 - k;
            assert(meet(placed, p[m], p[m + 1]));
            lemma_meet_symmetric(placed, p[m], p[m + 1]);
        }
        assert(is_chain(placed, q));
        if linked(placed, b, c) {
            let r = choose|r: Seq<(JobId, usize)>|
                r.len() > 0 && r[0] == b && r[r.len() - 1] == c && #[trigger] is_chain(placed, r);
            let t = p + r.skip(1);
            assert forall|k: int| 0 <= k < t.len() - 1 implies meet(placed, #[trigger] t[k], t[k + 1]) by {
                if k < p.len() - 1 {
                    assert(meet(placed, p[k], p[k + 1]));
                } else {
                    let m = k - (p.len() - 1);
                    assert(meet(placed, r[m], r[m + 1]));
                    assert(t[k + 1] == r[m + 1]);
                    assert(t[k] == r[m]);
                }
            }
            assert(is_chain(placed, t));
        }
    }
}

/// One iteration comes before another.
pub open spec fn round_before(a: (JobId, usize), b: (JobId, usize)) -> bool {
    a.0 < b.0 || (a.0 == b.0 && a.1 < b.1)
}

/// The iterations of the flows, each once and in order.
pub open spec fn is_round_list(placed: Seq<PlacedFlow>, n: nat, rounds: Seq<(JobId, usize)>) -> bool {
    &&& forall|i: int, j: int| 0 <= i < j < rounds.len() ==> round_before(#[trigger] rounds[i], #[trigger] rounds[j])
    &&& forall|i: int| 0 <= i < n ==> rounds.contains((#[trigger] placed[i]).round())
    &&& forall|k: int|
        0 <= k < rounds.len() ==> exists|i: int| 0 <= i < n && (#[trigger] placed[i]).round() == #[trigger] rounds[k]
}

/// The iterations of the flows, each once and in order.
pub open spec fn rounds_of(placed: Seq<PlacedFlow>) -> Seq<(JobId, usize)> {
    choose|rounds: Seq<(JobId, usize)>| is_round_list(placed, placed.len(), rounds)
}

/// Two lists of the iterations agree as far as both go.
proof fn lemma_rounds_agree(placed: Seq<PlacedFlow>, a: Seq<(JobId, usize)>, b: Seq<(JobId, usize)>, k: int)
    requires
        is_round_list(placed, placed.len(), a),
        is_round_list(placed, placed.len(), b),
        0 <= k < a.len(),
        k < b.len(),
    ensures
        a[k] == b[k],
    decreases k,
{
    let i = choose|i: int| 0 <= i < placed.len() && (#[trigger] placed[i]).round() == a[k];
    assert(b.contains(placed[i].round()));
    let m = choose|m: int| 0 <= m < b.len() && b[m] == a[k];
    let j = choose|j: int| 0 <= j < placed.len() && (#[trigger] placed[j]).round() == b[k];
    assert(a.contains(placed[j].round()));
    let l = choose|l: int| 0 <= l < a.len() && a[l] == b[k];
    if m < k {
        lemma_rounds_agree(placed, a, b, m);
        assert(round_before(a[m], a[k]));
    }
    if l < k {
        lemma_rounds_agree(placed, a, b, l);
        assert(round_before(b[l], b[k]));
    }
    if k < m {
        assert(round_before(b[k], b[m]));
        if k < l {
            assert(round_before(a[k], a[l]));
        }
    }
}

proof fn lemma_rounds_end(placed: Seq<PlacedFlow>, a: Seq<(JobId, usize)>, b: Seq<(JobId, usize)>)
    requires
        is_round_list(placed, placed.len(), a),
        is_round_list(placed, placed.len(), b),
    ensures
        a.len() <= b.len(),
{
    if a.len() > b.len() {
        let k = b.len() as int;
        let i = choose|i: int| 0 <= i < placed.len() && (#[trigger] placed[i]).round() == a[k];
        assert(b.contains(placed[i].round()));
        let m = choose|m: int| 0 <= m < b.len() && b[m] == a[k];
        lemma_rounds_agree(placed, a, b, m);
        assert(round_before(a[m], a[k]));
    }
}

/// The iterations have one list.
pub proof fn lemma_rounds_of(placed: Seq<PlacedFlow>, rounds: Seq<(JobId, usize)>)
    requires
        is_round_list(placed, placed.len(), rounds),
    ensures
        rounds_of(placed) == rounds,
{
    let other = rounds_of(placed);
    lemma_rounds_end(placed, rounds, other);
    lemma_rounds_end(placed, other, rounds);
    assert forall|k: int| 0 <= k < rounds.len() implies other[k] == rounds[k] by {
        lemma_rounds_agree(placed, other, rounds, k);
    }
    assert(other =~= rounds);
}

/// Lists the iterations of the flows.
fn list_rounds(placed: &Vec<PlacedFlow>) -> (rounds: Vec<(JobId, usize)>)
    ensures
        is_round_list(placed@, placed@.len(), rounds@),
        rounds@ == rounds_of(placed@),
{
    let mut rounds: Vec<(JobId, usize)> = Vec::new();
    let mut i: usize = 0;
    while i < placed.len()
        invariant
            i <= placed@.len(),
            is_round_list(placed@, i as nat, rounds@),
        decreases placed@.len() - i,
    {
        let key: (JobId, usize) = (placed[i].job_id, placed[i].iter_idx);
        let mut pos: usize = rounds.len();
        while pos > 0 && comes_before(key, rounds[pos - 1])
            invariant
                pos <= rounds@.len(),
                forall|k: int| pos <= k < rounds@.len() ==> round_before(key, #[trigger] rounds@[k]),
            decreases pos,
        {
            pos -= 1;
        }
        let ghost before = rounds@;
        let known = pos > 0 && rounds[pos - 1].0 == key.0 && rounds[pos - 1].1 == key.1;
        if !known {
            rounds.insert(pos, key);
            proof {
                assert(rounds@ =~= before.insert(pos as int, key));
                assert forall|a: int, b: int| 0 <= a < b < rounds@.len() implies round_before(
                    #[trigger] rounds@[a],
                    #[trigger] rounds@[b],
                ) by {
                    let x = if a < pos {
                        a
                    } else {
                        a - 1
                    };
                    let y = if b < pos {
                        b
                    } else {
                        b - 1
                    };
                    if a == pos {
                        assert(rounds@[b] == before[y]);
                    } else if b == pos {
                        assert(rounds@[a] == before[a]);
                        if a < pos - 1 {
                            assert(round_before(before[a], before[pos - 1]));
                        }
                    } else {
                        assert(rounds@[a] == before[x] && rounds@[b] == before[y]);
                    }
                }
            }
        }
        proof {
            assert(rounds@.contains(key)) by {
                if known {
                    assert(rounds@[pos - 1] == key);
                } else {
                    assert(rounds@[pos as int] == key);
                }
            }
            assert forall|j: int| 0 <= j < i + 1 implies rounds@.contains((#[trigger] placed@[j]).round()) by {
                if j < i {
                    assert(before.contains(placed@[j].round()));
                    let k = choose|k: int| 0 <= k < before.len() && before[k] == placed@[j].round();
                    if !known {
                        assert(rounds@[if k < pos {
                            k
                        } else {
                            k + 1
                        }] == before[k]);
                    }
                }
            }
            assert forall|k: int| 0 <= k < rounds@.len() implies exists|j: int|
                0 <= j < i + 1 && (#[trigger] placed@[j]).round() == #[trigger] rounds@[k] by {
                if !known && k == pos {
                    assert(placed@[i as int].round() == rounds@[k]);
                } else {
                    let x = if known || k < pos {
                        k
                    } else {
                        k - 1
                    };
                    assert(before[x] == rounds@[k]);
                    let j = choose|j: int| 0 <= j < i && (#[trigger] placed@[j]).round() == before[x];
                    assert(placed@[j].round() == rounds@[k]);
                }
            }
        }
        i += 1;
    }
    proof {
        lemma_rounds_of(placed@, rounds@);
    }
    rounds
}

fn comes_before(a: (JobId, usize), b: (JobId, usize)) -> (r: bool)
    ensures
        r == round_before(a, b),
{
    a.0 < b.0 || (a.0 == b.0 && a.1 < b.1)
}

fn in_round(f: &PlacedFlow, key: (JobId, usize)) -> (r: bool)
    ensures
        r == (f.round() == key),
{
    f.job_id == key.0 && f.iter_idx == key.1
}

/// Whether flows of two iterations run at the same time.
fn check_meet(placed: &Vec<PlacedFlow>, a: (JobId, usize), b: (JobId, usize)) -> (r: bool)
    ensures
        r == meet(placed@, a, b),
{
    let mut i: usize = 0;
    while i < placed.len()
        invariant
            i <= placed@.len(),
            forall|x: int, y: int|
                0 <= x < i && 0 <= y < placed@.len() && placed@[x].round() == a && placed@[y].round() == b ==> !overlap(
                    #[trigger] placed@[x],
                    #[trigger] placed@[y],
                ),
        decreases placed@.len() - i,
    {
        if in_round(&placed[i], a) {
            let mut j: usize = 0;
            while j < placed.len()
                invariant
                    i < placed@.len(),
                    j <= placed@.len(),
                    placed@[i as int].round() == a,
                    forall|y: int|
                        0 <= y < j && placed@[y].round() == b ==> !overlap(placed@[i as int], #[trigger] placed@[y]),
                decreases placed@.len() - j,
            {
                if in_round(&placed[j], b) {
                    let x = placed[i];
                    let y = placed[j];
                    if x.start_us < y.end_us && y.start_us < x.end_us && x.start_us < x.end_us && y.start_us < y.end_us {
                        assert(overlap(placed@[i as int], placed@[j as int]));
                        return true;
                    }
                }
                j += 1;
            }
        }
        i += 1;
    }
    false
}

/// The groups of a list of iterations: each iteration is in one group, and two are in the same group
/// exactly if they are linked.
pub open spec fn is_grouping(
    placed: Seq<PlacedFlow>,
    rounds: Seq<(JobId, usize)>,
    label: Seq<usize>,
    groups: Seq<Vec<usize>>,
) -> bool {
    &&& label.len() == rounds.len()
    &&& forall|a: int| 0 <= a < label.len() ==> (#[trigger] label[a]) < groups.len()
    &&& forall|a: int, b: int|
        0 <= a < rounds.len() && 0 <= b < rounds.len() ==> (#[trigger] label[a] == #[trigger] label[b] <==> linked(
            placed,
            rounds[a],
            rounds[b],
        ))
    &&& forall|g: int| 0 <= g < groups.len() ==> lists_label(label, #[trigger] groups[g]@, g as usize)
}

/// The list has each position with the label once.
pub open spec fn lists_label(label: Seq<usize>, list: Seq<usize>, g: usize) -> bool {
    &&& list.no_duplicates()
    &&& forall|k: int| 0 <= k < list.len() ==> (#[trigger] list[k]) < label.len() && label[list[k] as int] == g
    &&& forall|a: int| 0 <= a < label.len() && label[a] == g ==> list.contains(#[trigger] (a as usize))
}

/// A chain stays within a label that is closed.
proof fn lemma_chain_label(
    placed: Seq<PlacedFlow>,
    rounds: Seq<(JobId, usize)>,
    label: Seq<usize>,
    p: Seq<(JobId, usize)>,
    a: int,
    b: int,
)
    requires
        label.len() == rounds.len(),
        is_round_list(placed, placed.len(), rounds),
        is_chain(placed, p),
        p.len() > 0,
        0 <= a < rounds.len(),
        0 <= b < rounds.len(),
        p[0] == rounds[a],
        p[p.len() - 1] == rounds[b],
        forall|x: int, y: int|
            0 <= x < rounds.len() && 0 <= y < rounds.len() && meet(placed, #[trigger] rounds[x], #[trigger] rounds[y])
                ==> label[x] == label[y],
    ensures
        label[a] == label[b],
    decreases p.len(),
{
    if p.len() == 1 {
        if a < b {
            assert(round_before(rounds[a], rounds[b]));
        } else if b < a {
            assert(round_before(rounds[b], rounds[a]));
        }
    } else {
        assert(meet(placed, p[0], p[1]));
        let (i, j) = choose|i: int, j: int|
            0 <= i < placed.len() && 0 <= j < placed.len() && placed[i].round() == p[0] && placed[j].round() == p[1]
                && overlap(#[trigger] placed[i], #[trigger] placed[j]);
        assert(rounds.contains(placed[j].round()));
        let c = choose|c: int| 0 <= c < rounds.len() && rounds[c] == p[1];
        let q = p.skip(1);
        assert forall|k: int| 0 <= k < q.len() - 1 implies meet(placed, #[trigger] q[k], q[k + 1]) by {
            assert(meet(placed, p[k + 1], p[k + 2]));
        }
        assert(q[q.len() - 1] == p[p.len() - 1]);
        lemma_chain_label(placed, rounds, label, q, c, b);
        assert(meet(placed, rounds[a], rounds[c]));
    }
}

/// A list of iterations, by their positions, with those of the first `n` that meet another one and are
/// not listed yet.
pub open spec fn with_met(
    placed: Seq<PlacedFlow>,
    rounds: Seq<(JobId, usize)>,
    list: Seq<usize>,
    u: usize,
    n: nat,
) -> Seq<usize>
    decreases n,
{
    if n == 0 {
        list
    } else {
        let before = with_met(placed, rounds, list, u, (n - 1) as nat);
        let v = (n - 1) as usize;
        if meet(placed, rounds[u as int], rounds[n - 1]) && !before.contains(v) {
            before.push(v)
        } else {
            before
        }
    }
}

/// The iterations that are reached from one, by their positions, once those that the first `n` of them
/// meet are listed.
pub open spec fn reached(placed: Seq<PlacedFlow>, rounds: Seq<(JobId, usize)>, root: usize, n: nat) -> Seq<usize>
    decreases n,
{
    if n == 0 {
        seq![root]
    } else {
        let before = reached(placed, rounds, root, (n - 1) as nat);
        if n <= before.len() {
            with_met(placed, rounds, before, before[n - 1], rounds.len())
        } else {
            before
        }
    }
}

proof fn lemma_all_reached(placed: Seq<PlacedFlow>, rounds: Seq<(JobId, usize)>, root: usize, n: nat, m: nat)
    requires
        reached(placed, rounds, root, n).len() <= n <= m,
    ensures
        reached(placed, rounds, root, m) == reached(placed, rounds, root, n),
    decreases m,
{
    if n < m {
        lemma_all_reached(placed, rounds, root, n, (m - 1) as nat);
    }
}

/// No iteration before this one is in its group.
pub open spec fn is_group_first(placed: Seq<PlacedFlow>, rounds: Seq<(JobId, usize)>, root: int) -> bool {
    forall|a: int| 0 <= a < root ==> !linked(placed, #[trigger] rounds[a], rounds[root])
}

/// The groups of the first `n` iterations, in the order of their first iterations. Within a group the
/// iterations come in the order in which they are reached from the first.
pub open spec fn groups_of(placed: Seq<PlacedFlow>, rounds: Seq<(JobId, usize)>, n: nat) -> Seq<Seq<usize>>
    decreases n,
{
    if n == 0 {
        Seq::empty()
    } else {
        let before = groups_of(placed, rounds, (n - 1) as nat);
        if is_group_first(placed, rounds, n - 1) {
            before.push(reached(placed, rounds, (n - 1) as usize, rounds.len()))
        } else {
            before
        }
    }
}

/// The lists that some vectors hold.
pub open spec fn lists_of(groups: Seq<Vec<usize>>) -> Seq<Seq<usize>> {
    groups.map_values(|v: Vec<usize>| v@)
}

/// Some iterations have a label below `g`, and the others none. What meets a labelled iteration has the same
/// label, and iterations with the same label are linked.
spec fn partly_labelled(placed: Seq<PlacedFlow>, rounds: Seq<(JobId, usize)>, label: Seq<usize>, g: nat) -> bool {
    &&& label.len() == rounds.len()
    &&& forall|a: int| 0 <= a < rounds.len() ==> (#[trigger] label[a]) < g || label[a] == rounds.len()
    &&& forall|a: int, b: int|
        0 <= a < rounds.len() && 0 <= b < rounds.len() && label[a] < rounds.len() && meet(
            placed,
            #[trigger] rounds[a],
            #[trigger] rounds[b],
        ) ==> label[a] == label[b]
    &&& forall|a: int, b: int|
        0 <= a < rounds.len() && 0 <= b < rounds.len() && label[a] < rounds.len() && #[trigger] label[a] == #[trigger] label[b]
            ==> linked(placed, rounds[a], rounds[b])
}

/// The iterations with another label, or with none, keep it while others get label `g`.
spec fn labels_kept(before: Seq<usize>, after: Seq<usize>, g: usize) -> bool {
    &&& after.len() == before.len()
    &&& forall|a: int|
        0 <= a < before.len() ==> (#[trigger] after[a] == before[a] || (before[a] == before.len() && after[a] == g))
}

/// An iteration is the first of its group exactly if it has no label yet.
proof fn lemma_group_first(
    placed: Seq<PlacedFlow>,
    rounds: Seq<(JobId, usize)>,
    label: Seq<usize>,
    groups: Seq<Vec<usize>>,
    root: int,
)
    requires
        is_round_list(placed, placed.len(), rounds),
        0 <= root < rounds.len(),
        groups.len() <= root,
        rounds.len() <= usize::MAX,
        partly_labelled(placed, rounds, label, groups.len()),
        forall|a: int| 0 <= a < root ==> (#[trigger] label[a]) < groups.len(),
        forall|g: int| 0 <= g < groups.len() ==> lists_label(label, #[trigger] groups[g]@, g as usize),
        forall|g: int| 0 <= g < groups.len() ==> (#[trigger] groups[g]@).len() > 0 && groups[g]@[0] < root,
    ensures
        is_group_first(placed, rounds, root) == (label[root] == rounds.len()),
{
    if label[root] == rounds.len() {
        assert forall|x: int, y: int|
            0 <= x < rounds.len() && 0 <= y < rounds.len() && meet(placed, #[trigger] rounds[x], #[trigger] rounds[y])
                implies label[x] == label[y] by {
            lemma_meet_symmetric(placed, rounds[x], rounds[y]);
            assert(meet(placed, rounds[y], rounds[x]));
            if label[x] < rounds.len() {
            } else if label[y] < rounds.len() {
                assert(label[y] == label[x]);
            }
        }
        assert forall|a: int| 0 <= a < root implies !linked(placed, #[trigger] rounds[a], rounds[root]) by {
            if linked(placed, rounds[a], rounds[root]) {
                let p = choose|p: Seq<(JobId, usize)>|
                    p.len() > 0 && p[0] == rounds[a] && p[p.len() - 1] == rounds[root] && #[trigger] is_chain(placed, p);
                lemma_chain_label(placed, rounds, label, p, a, root);
                assert(label[a] < groups.len());
            }
        }
    } else {
        let g = label[root] as int;
        let a = groups[g]@[0] as int;
        assert(lists_label(label, groups[g]@, g as usize));
        assert(groups[g]@[0] < label.len() && label[a] == g);
        assert(label[a] == label[root]);
        assert(linked(placed, rounds[a], rounds[root]));
    }
}

/// Iterations that are reached from one form a group of their own.
proof fn lemma_new_group(
    placed: Seq<PlacedFlow>,
    rounds: Seq<(JobId, usize)>,
    before: Seq<usize>,
    after: Seq<usize>,
    list: Seq<usize>,
    root: usize,
    g: usize,
)
    requires
        partly_labelled(placed, rounds, before, g as nat),
        g < rounds.len() <= usize::MAX,
        root < rounds.len(),
        labels_kept(before, after, g),
        lists_label(after, list, g),
        forall|k: int|
            0 <= k < list.len() ==> linked(placed, rounds[root as int], rounds[(#[trigger] list[k]) as int]),
        forall|k: int, b: int|
            0 <= k < list.len() && 0 <= b < rounds.len() && meet(
                placed,
                rounds[(#[trigger] list[k]) as int],
                #[trigger] rounds[b],
            ) ==> after[b] == g,
    ensures
        partly_labelled(placed, rounds, after, g as nat + 1),
{
    let n = rounds.len();
    assert forall|a: int| 0 <= a < n implies (#[trigger] after[a]) < g + 1 || after[a] == n by {
        assert(before[a] < g || before[a] == n);
    }
    assert forall|a: int, b: int|
        0 <= a < n && 0 <= b < n && after[a] < n && meet(placed, #[trigger] rounds[a], #[trigger] rounds[b]) implies after[a]
        == after[b] by {
        if after[a] == g {
            assert(list.contains(a as usize));
            let k = choose|k: int| 0 <= k < list.len() && list[k] == a as usize;
            assert(after[b] == g);
        } else {
            assert(after[a] == before[a]);
            assert(before[a] == before[b]);
            assert(after[b] == before[b] || before[b] == n);
        }
    }
    assert forall|a: int, b: int|
        0 <= a < n && 0 <= b < n && after[a] < n && #[trigger] after[a] == #[trigger] after[b] implies linked(
        placed,
        rounds[a],
        rounds[b],
    ) by {
        if after[a] == g {
            assert(list.contains(a as usize));
            assert(list.contains(b as usize));
            let k = choose|k: int| 0 <= k < list.len() && list[k] == a as usize;
            let l = choose|l: int| 0 <= l < list.len() && list[l] == b as usize;
            lemma_linked(placed, rounds[root as int], rounds[a], rounds[a]);
            lemma_linked(placed, rounds[a], rounds[root as int], rounds[b]);
        } else {
            assert(after[a] == before[a] && after[b] == before[b]);
        }
    }
}

/// Lists, and gives label `g` to, the iterations that one meets and that have no label yet.
fn reach_met(
    placed: &Vec<PlacedFlow>,
    rounds: &Vec<(JobId, usize)>,
    label: &mut Vec<usize>,
    comp: &mut Vec<usize>,
    u: usize,
    g: usize,
    Ghost(label0): Ghost<Seq<usize>>,
    Ghost(root): Ghost<usize>,
)
    requires
        partly_labelled(placed@, rounds@, label0, g as nat),
        g < rounds@.len(),
        root < rounds@.len(),
        u < rounds@.len(),
        label0[u as int] == rounds@.len(),
        labels_kept(label0, old(label)@, g),
        lists_label(old(label)@, old(comp)@, g),
        old(comp)@.contains(u),
        forall|k: int|
            0 <= k < old(comp)@.len() ==> linked(
                placed@,
                rounds@[root as int],
                rounds@[(#[trigger] old(comp)@[k]) as int],
            ),
    ensures
        final(comp)@ == with_met(placed@, rounds@, old(comp)@, u, rounds@.len()),
        final(comp)@.len() <= rounds@.len(),
        old(comp)@.is_prefix_of(final(comp)@),
        labels_kept(label0, final(label)@, g),
        lists_label(final(label)@, final(comp)@, g),
        forall|a: int| 0 <= a < rounds@.len() && old(label)@[a] == g ==> #[trigger] final(label)@[a] == g,
        forall|b: int|
            0 <= b < rounds@.len() && meet(placed@, rounds@[u as int], #[trigger] rounds@[b]) ==> final(label)@[b] == g,
        forall|k: int|
            0 <= k < final(comp)@.len() ==> linked(
                placed@,
                rounds@[root as int],
                rounds@[(#[trigger] final(comp)@[k]) as int],
            ),
{
    let n: usize = rounds.len();
    let ghost base = comp@;
    let ghost label1 = label@;
    let mut v: usize = 0;
    proof {
        lemma_label_bound(label@, comp@, g);
    }
    while v < n
        invariant
            n == rounds@.len(),
            partly_labelled(placed@, rounds@, label0, g as nat),
            g < n,
            root < n,
            u < n,
            label0[u as int] == n,
            labels_kept(label0, label@, g),
            lists_label(label@, comp@, g),
            comp@.len() <= n,
            base.is_prefix_of(comp@),
            base.contains(u),
            comp@ == with_met(placed@, rounds@, base, u, v as nat),
            v <= n,
            label1.len() == n,
            forall|a: int| 0 <= a < n && label1[a] == g ==> #[trigger] label@[a] == g,
            forall|k: int|
                0 <= k < comp@.len() ==> linked(placed@, rounds@[root as int], rounds@[(#[trigger] comp@[k]) as int]),
            forall|b: int| 0 <= b < v && meet(placed@, rounds@[u as int], #[trigger] rounds@[b]) ==> label@[b] == g,
        decreases n - v,
    {
        let ghost before = label@;
        let ghost list = comp@;
        let touches = check_meet(placed, rounds[u], rounds[v]);
        proof {
            if touches && label0[v as int] < n {
                lemma_meet_symmetric(placed@, rounds@[u as int], rounds@[v as int]);
                assert(meet(placed@, rounds@[v as int], rounds@[u as int]));
                assert(label0[v as int] == label0[u as int]);
            }
            if touches {
                if list.contains(v) {
                    let k = choose|k: int| 0 <= k < list.len() && list[k] == v;
                    assert(label@[list[k] as int] == g);
                } else if label@[v as int] == g {
                    assert(list.contains(v as int as usize));
                }
                assert(label@[v as int] == label0[v as int] || label@[v as int] == g);
                assert((label@[v as int] == n) == !list.contains(v));
            }
        }
        if touches && label[v] == n {
            label.set(v, g);
            comp.push(v);
            proof {
                let k = choose|k: int| 0 <= k < base.len() && base[k] == u;
                assert(list[k] == u);
                lemma_linked(placed@, rounds@[root as int], rounds@[u as int], rounds@[v as int]);
                lemma_linked(placed@, rounds@[u as int], rounds@[v as int], rounds@[v as int]);
                lemma_list_push(before, list, g, v);
                lemma_label_bound(label@, comp@, g);
            }
        }
        v += 1;
    }
}

/// Lists, and gives label `g` to, the iterations that are reached from one without a label.
fn reach_group(
    placed: &Vec<PlacedFlow>,
    rounds: &Vec<(JobId, usize)>,
    label: &mut Vec<usize>,
    root: usize,
    g: usize,
) -> (comp: Vec<usize>)
    requires
        partly_labelled(placed@, rounds@, old(label)@, g as nat),
        g <= root < rounds@.len(),
        old(label)@[root as int] == rounds@.len(),
    ensures
        partly_labelled(placed@, rounds@, final(label)@, g as nat + 1),
        labels_kept(old(label)@, final(label)@, g),
        final(label)@[root as int] == g,
        lists_label(final(label)@, comp@, g),
        comp@.len() > 0,
        comp@[0] == root,
        comp@ == reached(placed@, rounds@, root, rounds@.len()),
{
    let n: usize = rounds.len();
    let ghost label0 = label@;
    let mut comp: Vec<usize> = Vec::new();
    label.set(root, g);
    comp.push(root);
    let mut pos: usize = 0;
    proof {
        lemma_linked(placed@, rounds@[root as int], rounds@[root as int], rounds@[root as int]);
        assert(comp@[0] == root);
        assert(comp@ =~= reached(placed@, rounds@, root, 0));
        assert forall|a: int| 0 <= a < n && label@[a] == g implies comp@.contains(#[trigger] (a as usize)) by {
            assert(label0[a] < g || label0[a] == n);
            assert(a == root);
        }
    }
    while pos < comp.len()
        invariant
            n == rounds@.len(),
            g <= root < n,
            partly_labelled(placed@, rounds@, label0, g as nat),
            label0[root as int] == n,
            labels_kept(label0, label@, g),
            label@[root as int] == g,
            pos <= comp@.len() <= n,
            comp@.len() > 0,
            comp@[0] == root,
            comp@ == reached(placed@, rounds@, root, pos as nat),
            lists_label(label@, comp@, g),
            forall|k: int|
                0 <= k < comp@.len() ==> linked(placed@, rounds@[root as int], rounds@[(#[trigger] comp@[k]) as int]),
            forall|k: int, b: int|
                0 <= k < pos && 0 <= b < n && meet(
                    placed@,
                    rounds@[(#[trigger] comp@[k]) as int],
                    #[trigger] rounds@[b],
                ) ==> label@[b] == g,
        decreases n - pos,
    {
        let u: usize = comp[pos];
        let ghost before = label@;
        let ghost list = comp@;
        proof {
            assert(label@[list[pos as int] as int] == g);
            assert(label0[u as int] == n);
        }
        reach_met(placed, rounds, label, &mut comp, u, g, Ghost(label0), Ghost(root));
        proof {
            assert(comp@ == reached(placed@, rounds@, root, (pos + 1) as nat));
            assert forall|k: int, b: int|
                0 <= k < pos + 1 && 0 <= b < n && meet(
                    placed@,
                    rounds@[(#[trigger] comp@[k]) as int],
                    #[trigger] rounds@[b],
                ) implies label@[b] == g by {
                assert(comp@[k] == list[k]);
                if k < pos {
                    assert(before[b] == g);
                }
            }
            assert(comp@[0] == list[0]);
        }
        pos += 1;
    }
    proof {
        lemma_new_group(placed@, rounds@, label0, label@, comp@, root, g);
        lemma_all_reached(placed@, rounds@, root, pos as nat, n as nat);
    }
    comp
}

/// Finds the groups. Within a group the iterations come in the order in which they are reached from
/// the first.
fn group_rounds(placed: &Vec<PlacedFlow>, rounds: &Vec<(JobId, usize)>) -> (r: (Vec<usize>, Vec<Vec<usize>>))
    requires
        is_round_list(placed@, placed@.len(), rounds@),
    ensures
        is_grouping(placed@, rounds@, r.0@, r.1@),
        lists_of(r.1@) == groups_of(placed@, rounds@, rounds@.len()),
{
    let n: usize = rounds.len();
    let mut label: Vec<usize> = Vec::new();
    let mut i: usize = 0;
    while i < n
        invariant
            i <= n,
            label@.len() == i,
            forall|a: int| 0 <= a < i ==> #[trigger] label@[a] == n,
        decreases n - i,
    {
        label.push(n);
        i += 1;
    }
    let mut groups: Vec<Vec<usize>> = Vec::new();
    let mut root: usize = 0;
    proof {
        assert(lists_of(groups@) =~= groups_of(placed@, rounds@, 0));
    }
    while root < n
        invariant
            root <= n,
            n == rounds@.len(),
            is_round_list(placed@, placed@.len(), rounds@),
            groups@.len() <= root,
            partly_labelled(placed@, rounds@, label@, groups@.len()),
            forall|a: int| 0 <= a < root ==> (#[trigger] label@[a]) < groups@.len(),
            forall|g: int| 0 <= g < groups@.len() ==> lists_label(label@, #[trigger] groups@[g]@, g as usize),
            forall|g: int| 0 <= g < groups@.len() ==> (#[trigger] groups@[g]@).len() > 0 && groups@[g]@[0] < root,
            lists_of(groups@) == groups_of(placed@, rounds@, root as nat),
        decreases n - root,
    {
        proof {
            lemma_group_first(placed@, rounds@, label@, groups@, root as int);
        }
        if label[root] == n {
            let g: usize = groups.len();
            let ghost label0 = label@;
            let ghost earlier = groups@;
            let comp = reach_group(placed, rounds, &mut label, root, g);
            proof {
                assert forall|h: int| 0 <= h < groups@.len() implies lists_label(label@, #[trigger] groups@[h]@, h as usize) by {
                    lemma_list_kept(label0, label@, groups@[h]@, h as usize, g);
                }
            }
            groups.push(comp);
            proof {
                assert(lists_of(groups@) =~= lists_of(earlier).push(comp@));
            }
        }
        root += 1;
    }
    proof {
        assert forall|a: int, b: int| 0 <= a < rounds@.len() && 0 <= b < rounds@.len() implies (#[trigger] label@[a]
            == #[trigger] label@[b] <==> linked(placed@, rounds@[a], rounds@[b])) by {
            if linked(placed@, rounds@[a], rounds@[b]) {
                let p = choose|p: Seq<(JobId, usize)>|
                    p.len() > 0 && p[0] == rounds@[a] && p[p.len() - 1] == rounds@[b] && #[trigger] is_chain(placed@, p);
                lemma_chain_label(placed@, rounds@, label@, p, a, b);
            }
        }
    }
    (label, groups)
}

proof fn lemma_list_push(label: Seq<usize>, list: Seq<usize>, g: usize, v: usize)
    requires
        lists_label(label, list, g),
        v < label.len(),
        label.len() <= usize::MAX,
        label[v as int] != g,
    ensures
        lists_label(label.update(v as int, g), list.push(v), g),
{
    let after = label.update(v as int, g);
    let r = list.push(v);
    assert(!list.contains(v)) by {
        if list.contains(v) {
            let k = choose|k: int| 0 <= k < list.len() && list[k] == v;
            assert(label[list[k] as int] == g);
        }
    }
    assert(r.no_duplicates()) by {
        assert forall|i: int, j: int| 0 <= i < r.len() && 0 <= j < r.len() && i != j implies r[i] != r[j] by {
            if i < list.len() {
                assert(list.contains(list[i]));
            }
            if j < list.len() {
                assert(list.contains(list[j]));
            }
        }
    }
    assert forall|k: int| 0 <= k < r.len() implies (#[trigger] r[k]) < after.len() && after[r[k] as int] == g by {
        if k < list.len() {
            assert(r[k] == list[k]);
        }
    }
    assert forall|a: int| 0 <= a < after.len() && after[a] == g implies r.contains(#[trigger] (a as usize)) by {
        if a == v {
            assert(r[list.len() as int] == v);
        } else {
            assert(list.contains(a as usize));
            let k = choose|k: int| 0 <= k < list.len() && list[k] == a as usize;
            assert(r[k] == a as usize);
        }
    }
}

proof fn lemma_label_bound(label: Seq<usize>, list: Seq<usize>, g: usize)
    requires
        lists_label(label, list, g),
    ensures
        list.len() <= label.len(),
{
    let t = list.map_values(|x: usize| x as int);
    vstd::set_lib::lemma_int_range(0, label.len() as int);
    assert(t.no_duplicates()) by {
        assert forall|i: int, j: int| 0 <= i < t.len() && 0 <= j < t.len() && i != j implies t[i] != t[j] by {
            assert(list[i] != list[j]);
        }
    }
    t.unique_seq_to_set();
    assert(t.to_set().subset_of(vstd::set_lib::set_int_range(0, label.len() as int))) by {
        assert forall|x: int| t.to_set().contains(x) implies vstd::set_lib::set_int_range(
            0,
            label.len() as int,
        ).contains(x) by {
            assert(t.contains(x));
            let i = choose|i: int| 0 <= i < t.len() && t[i] == x;
            assert(list[i] < label.len());
        }
    }
    vstd::set_lib::lemma_len_subset(t.to_set(), vstd::set_lib::set_int_range(0, label.len() as int));
}

proof fn lemma_list_kept(before: Seq<usize>, after: Seq<usize>, list: Seq<usize>, h: usize, g: usize)
    requires
        lists_label(before, list, h),
        labels_kept(before, after, g),
        h < g < before.len(),
    ensures
        lists_label(after, list, h),
{
    assert forall|k: int| 0 <= k < list.len() implies (#[trigger] list[k]) < after.len() && after[list[k] as int] == h by {
        assert(before[list[k] as int] == h);
        assert(after[list[k] as int] == before[list[k] as int]);
    }
    assert forall|a: int| 0 <= a < after.len() && after[a] == h implies list.contains(#[trigger] (a as usize)) by {
        assert(before[a] == h);
    }
}

/// Two flows belong to the same group.
pub open spec fn together(placed: Seq<PlacedFlow>, i: int, j: int) -> bool {
    linked(placed, placed[i].round(), placed[j].round())
}

/// The flows over spines in the group of flow `i` that start, or end, below a leaf.
pub open spec fn leaf_flows(placed: Seq<PlacedFlow>, i: int, left: bool, leaf: usize) -> Set<int> {
    Set::new(
        |j: int|
            0 <= j < placed.len() && placed[j].crosses() && together(placed, i, j) && end_of(placed[j].leaves(), left)
                == leaf,
    )
}

/// In the group of flow `i`, no leaf has more flows than there are spines.
pub open spec fn group_fits(placed: Seq<PlacedFlow>, i: int, spines: nat) -> bool {
    forall|left: bool, leaf: usize| #[trigger] leaf_flows(placed, i, left, leaf).len() <= spines
}

/// No group needs more spines than there are.
pub open spec fn routable(placed: Seq<PlacedFlow>, spines: nat) -> bool {
    forall|i: int| 0 <= i < placed.len() ==> #[trigger] group_fits(placed, i, spines)
}

/// Spines for the flows: one for each flow between leaves, and within a group never the same for
/// two flows from a leaf, nor for two flows to a leaf.
pub open spec fn is_spine_plan(placed: Seq<PlacedFlow>, spine: Seq<Option<usize>>, spines: nat) -> bool {
    &&& spine.len() == placed.len()
    &&& forall|i: int|
        0 <= i < placed.len() ==> (#[trigger] spine[i]) is Some == placed[i].crosses() && (spine[i] is Some
            ==> spine[i]->0 < spines)
    &&& forall|i: int, j: int|
        0 <= i < placed.len() && 0 <= j < placed.len() && i != j && spine[i] is Some && #[trigger] spine[i]
            == #[trigger] spine[j] && together(placed, i, j) ==> placed[i].src_leaf != placed[j].src_leaf
            && placed[i].dst_leaf != placed[j].dst_leaf
}

/// Flows that run at the same time do not share a link between a leaf and a spine.
pub proof fn lemma_no_shared_links(placed: Seq<PlacedFlow>, spine: Seq<Option<usize>>, spines: nat, i: int, j: int)
    requires
        is_spine_plan(placed, spine, spines),
        0 <= i < placed.len(),
        0 <= j < placed.len(),
        i != j,
        placed[i].crosses(),
        placed[j].crosses(),
        overlap(placed[i], placed[j]),
    ensures
        (placed[i].src_leaf, spine[i]) != (placed[j].src_leaf, spine[j]),
        (placed[i].dst_leaf, spine[i]) != (placed[j].dst_leaf, spine[j]),
{
    assert(meet(placed, placed[i].round(), placed[j].round()));
    lemma_linked(placed, placed[i].round(), placed[j].round(), placed[j].round());
    assert(spine[i] is Some && spine[j] is Some);
}

/// The flows between leaves in a group, each once.
spec fn lists_group(
    placed: Seq<PlacedFlow>,
    rounds: Seq<(JobId, usize)>,
    label: Seq<usize>,
    g: usize,
    list: Seq<usize>,
) -> bool {
    &&& list.no_duplicates()
    &&& forall|k: int|
        0 <= k < list.len() ==> (#[trigger] list[k]) < placed.len() && placed[list[k] as int].crosses() && has_label(
            placed,
            rounds,
            label,
            list[k] as int,
            g,
        )
    &&& forall|i: int|
        0 <= i < placed.len() && placed[i].crosses() && #[trigger] has_label(placed, rounds, label, i, g)
            ==> list.contains(i as usize)
}

/// The iteration of the flow has the label.
spec fn has_label(placed: Seq<PlacedFlow>, rounds: Seq<(JobId, usize)>, label: Seq<usize>, i: int, g: usize) -> bool {
    exists|a: int| 0 <= a < rounds.len() && #[trigger] rounds[a] == placed[i].round() && label[a] == g
}

/// The same with those iterations that are among the first `n` of a list of positions.
spec fn in_first(placed: Seq<PlacedFlow>, rounds: Seq<(JobId, usize)>, comp: Seq<usize>, n: int, i: int) -> bool {
    exists|k: int| 0 <= k < n && rounds[(#[trigger] comp[k]) as int] == placed[i].round()
}

/// Those of the first `n` flows between leaves that belong to an iteration.
pub open spec fn round_flows(placed: Seq<PlacedFlow>, key: (JobId, usize), n: nat) -> Seq<usize>
    decreases n,
{
    if n == 0 {
        Seq::empty()
    } else {
        let before = round_flows(placed, key, (n - 1) as nat);
        if placed[n - 1].round() == key && placed[n - 1].crosses() {
            before.push((n - 1) as usize)
        } else {
            before
        }
    }
}

/// The flows between leaves of the first `n` of some iterations: iteration by iteration, in the order of
/// the list.
pub open spec fn flows_of(
    placed: Seq<PlacedFlow>,
    rounds: Seq<(JobId, usize)>,
    group: Seq<usize>,
    n: nat,
) -> Seq<usize>
    decreases n,
{
    if n == 0 {
        Seq::empty()
    } else {
        flows_of(placed, rounds, group, (n - 1) as nat) + round_flows(
            placed,
            rounds[group[n - 1] as int],
            placed.len(),
        )
    }
}

/// Lists the flows between leaves of a group: iteration by iteration, in the order of the list.
fn list_group_flows(
    placed: &Vec<PlacedFlow>,
    rounds: &Vec<(JobId, usize)>,
    comp: &Vec<usize>,
    Ghost(label): Ghost<Seq<usize>>,
    Ghost(g): Ghost<usize>,
) -> (list: Vec<usize>)
    requires
        is_round_list(placed@, placed@.len(), rounds@),
        label.len() == rounds@.len(),
        lists_label(label, comp@, g),
    ensures
        lists_group(placed@, rounds@, label, g, list@),
        list@ == flows_of(placed@, rounds@, comp@, comp@.len()),
{
    let n: usize = placed.len();
    let total: usize = rounds.len();
    let mut list: Vec<usize> = Vec::new();
    let mut k: usize = 0;
    while k < comp.len()
        invariant
            n == placed@.len(),
            total == rounds@.len(),
            is_round_list(placed@, placed@.len(), rounds@),
            label.len() == rounds@.len(),
            lists_label(label, comp@, g),
            k <= comp@.len(),
            list@ == flows_of(placed@, rounds@, comp@, k as nat),
            list@.no_duplicates(),
            forall|x: int|
                0 <= x < list@.len() ==> (#[trigger] list@[x]) < n && placed@[list@[x] as int].crosses() && in_first(
                    placed@,
                    rounds@,
                    comp@,
                    k as int,
                    list@[x] as int,
                ),
            forall|i: int|
                0 <= i < n && placed@[i].crosses() && #[trigger] in_first(placed@, rounds@, comp@, k as int, i)
                    ==> list@.contains(i as usize),
        decreases comp@.len() - k,
    {
        proof {
            assert(comp@[k as int] < label.len());
        }
        let key: (JobId, usize) = rounds[comp[k]];
        let ghost before = list@;
        let mut i: usize = 0;
        proof {
            assert(before + round_flows(placed@, key, 0) =~= before);
        }
        while i < n
            invariant
                n == placed@.len(),
                total == rounds@.len(),
                k < comp@.len(),
                label.len() == rounds@.len(),
                lists_label(label, comp@, g),
                is_round_list(placed@, placed@.len(), rounds@),
                key == rounds@[comp@[k as int] as int],
                i <= n,
                list@ == before + round_flows(placed@, key, i as nat),
                list@.no_duplicates(),
                before.len() <= list@.len(),
                list@.take(before.len() as int) == before,
                forall|x: int|
                    0 <= x < before.len() ==> (#[trigger] before[x]) < n && placed@[before[x] as int].crosses() && in_first(
                        placed@,
                        rounds@,
                        comp@,
                        k as int,
                        before[x] as int,
                    ),
                forall|x: int|
                    before.len() <= x < list@.len() ==> (#[trigger] list@[x]) < i && placed@[list@[x] as int].crosses()
                        && placed@[list@[x] as int].round() == key,
                forall|j: int|
                    0 <= j < i && placed@[j].crosses() && (#[trigger] placed@[j]).round() == key ==> list@.contains(
                        j as usize,
                    ),
            decreases n - i,
        {
            if in_round(&placed[i], key) && placed[i].src_leaf != placed[i].dst_leaf {
                let ghost l = list@;
                proof {
                    assert(!l.contains(i)) by {
                        if l.contains(i) {
                            let x = choose|x: int| 0 <= x < l.len() && l[x] == i;
                            if x < before.len() {
                                assert(before[x] == l.take(before.len() as int)[x]);
                                assert(in_first(placed@, rounds@, comp@, k as int, i as int));
                                let m = choose|m: int|
                                    0 <= m < k && rounds@[(#[trigger] comp@[m]) as int] == placed@[i as int].round();
                                let p = comp@[m] as int;
                                let q = comp@[k as int] as int;
                                assert(comp@[m] < label.len() && comp@[k as int] < label.len());
                                assert(p != q);
                                if p < q {
                                    assert(round_before(rounds@[p], rounds@[q]));
                                } else {
                                    assert(round_before(rounds@[q], rounds@[p]));
                                }
                            }
                        }
                    }
                }
                list.push(i);
                proof {
                    assert(list@ =~= before + round_flows(placed@, key, (i + 1) as nat));
                    assert(list@.take(before.len() as int) =~= before);
                    assert(list@.no_duplicates()) by {
                        assert forall|x: int, y: int|
                            0 <= x < list@.len() && 0 <= y < list@.len() && x != y implies list@[x] != list@[y] by {
                            if x < l.len() {
                                assert(l.contains(l[x]));
                            }
                            if y < l.len() {
                                assert(l.contains(l[y]));
                            }
                        }
                    }
                    assert(list@[l.len() as int] == i);
                    assert forall|j: int|
                        0 <= j < i + 1 && placed@[j].crosses() && (#[trigger] placed@[j]).round() == key implies list@.contains(
                        j as usize,
                    ) by {
                        if j < i {
                            assert(l.contains(j as usize));
                            let x = choose|x: int| 0 <= x < l.len() && l[x] == j as usize;
                            assert(list@[x] == j as usize);
                        }
                    }
                }
            }
            i += 1;
        }
        proof {
            assert forall|x: int| 0 <= x < list@.len() implies (#[trigger] list@[x]) < n && placed@[list@[x] as int].crosses()
                && in_first(placed@, rounds@, comp@, k + 1, list@[x] as int) by {
                if x < before.len() {
                    assert(list@[x] == list@.take(before.len() as int)[x]);
                    assert(before[x] == list@[x]);
                    let m = choose|m: int|
                        0 <= m < k && rounds@[(#[trigger] comp@[m]) as int] == placed@[before[x] as int].round();
                    assert(0 <= m < k + 1 && rounds@[comp@[m] as int] == placed@[list@[x] as int].round());
                } else {
                    assert(rounds@[comp@[k as int] as int] == placed@[list@[x] as int].round());
                }
            }
            assert forall|i: int|
                0 <= i < n && placed@[i].crosses() && #[trigger] in_first(placed@, rounds@, comp@, k + 1, i) implies list@.contains(
                i as usize,
            ) by {
                let m = choose|m: int| 0 <= m < k + 1 && rounds@[(#[trigger] comp@[m]) as int] == placed@[i].round();
                if m < k {
                    assert(in_first(placed@, rounds@, comp@, k as int, i));
                    assert(before.contains(i as usize));
                    let x = choose|x: int| 0 <= x < before.len() && before[x] == i as usize;
                    assert(list@[x] == list@.take(before.len() as int)[x]);
                } else {
                    assert(placed@[i].round() == key);
                }
            }
        }
        k += 1;
    }
    proof {
        assert forall|x: int| 0 <= x < list@.len() implies (#[trigger] list@[x]) < placed@.len()
            && placed@[list@[x] as int].crosses() && has_label(placed@, rounds@, label, list@[x] as int, g) by {
            let m = choose|m: int|
                0 <= m < comp@.len() && rounds@[(#[trigger] comp@[m]) as int] == placed@[list@[x] as int].round();
            let a = comp@[m] as int;
            assert(comp@[m] < label.len() && label[a] == g);
            assert(0 <= a < rounds@.len() && rounds@[a] == placed@[list@[x] as int].round() && label[a] == g);
        }
        assert forall|i: int|
            0 <= i < placed@.len() && placed@[i].crosses() && #[trigger] has_label(placed@, rounds@, label, i, g) implies list@.contains(
            i as usize,
        ) by {
            let a = choose|a: int| 0 <= a < rounds@.len() && #[trigger] rounds@[a] == placed@[i].round() && label[a] == g;
            assert(comp@.contains(a as usize));
            let m = choose|m: int| 0 <= m < comp@.len() && comp@[m] == a as usize;
            assert(rounds@[comp@[m] as int] == placed@[i].round());
            assert(in_first(placed@, rounds@, comp@, comp@.len() as int, i));
        }
    }
    list
}

/// Having a label, and being in the same group as a flow that has it, is the same.
proof fn lemma_label_together(
    placed: Seq<PlacedFlow>,
    rounds: Seq<(JobId, usize)>,
    label: Seq<usize>,
    groups: Seq<Vec<usize>>,
    g: usize,
    i: int,
    j: int,
)
    requires
        is_round_list(placed, placed.len(), rounds),
        is_grouping(placed, rounds, label, groups),
        0 <= i < placed.len(),
        0 <= j < placed.len(),
        has_label(placed, rounds, label, i, g),
    ensures
        has_label(placed, rounds, label, j, g) == together(placed, i, j),
{
    let a = choose|a: int| 0 <= a < rounds.len() && #[trigger] rounds[a] == placed[i].round() && label[a] == g;
    assert(rounds.contains(placed[j].round()));
    let b = choose|b: int| 0 <= b < rounds.len() && rounds[b] == placed[j].round();
    assert(label[a] == label[b] <==> linked(placed, rounds[a], rounds[b]));
    if has_label(placed, rounds, label, j, g) {
        let c = choose|c: int| 0 <= c < rounds.len() && #[trigger] rounds[c] == placed[j].round() && label[c] == g;
        if b < c {
            assert(round_before(rounds[b], rounds[c]));
        } else if c < b {
            assert(round_before(rounds[c], rounds[b]));
        }
        assert(b == c);
    }
    if together(placed, i, j) {
        assert(rounds[b] == placed[j].round() && label[b] == g);
    }
}

/// The edges of a list of flows.
pub open spec fn flow_edges(placed: Seq<PlacedFlow>, list: Seq<usize>) -> Seq<(usize, usize)> {
    list.map_values(|i: usize| placed[i as int].leaves())
}

/// Those of the first `n` of a list of flows that start, or end, below a leaf.
spec fn listed_at(placed: Seq<PlacedFlow>, list: Seq<usize>, left: bool, leaf: usize, n: nat) -> Set<int>
    decreases n,
{
    if n == 0 {
        Set::empty()
    } else {
        let rest = listed_at(placed, list, left, leaf, (n - 1) as nat);
        if end_of(placed[list[n - 1] as int].leaves(), left) == leaf {
            rest.insert(list[n - 1] as int)
        } else {
            rest
        }
    }
}

proof fn lemma_listed_at(placed: Seq<PlacedFlow>, list: Seq<usize>, left: bool, leaf: usize, n: nat)
    requires
        list.no_duplicates(),
        n <= list.len(),
    ensures
        listed_at(placed, list, left, leaf, n).finite(),
        listed_at(placed, list, left, leaf, n).len() == degree(flow_edges(placed, list), left, leaf, n),
        forall|j: int|
            #[trigger] listed_at(placed, list, left, leaf, n).contains(j) <==> exists|k: int|
                0 <= k < n && #[trigger] list[k] == j && end_of(placed[j].leaves(), left) == leaf,
    decreases n,
{
    if n > 0 {
        lemma_listed_at(placed, list, left, leaf, (n - 1) as nat);
        let rest = listed_at(placed, list, left, leaf, (n - 1) as nat);
        let all = listed_at(placed, list, left, leaf, n);
        let last = list[n - 1] as int;
        assert(!rest.contains(last)) by {
            if rest.contains(last) {
                let k = choose|k: int|
                    0 <= k < n - 1 && #[trigger] list[k] == last && end_of(placed[last].leaves(), left) == leaf;
                assert(list[k] == list[n - 1]);
            }
        }
        assert forall|j: int|
            #[trigger] all.contains(j) <==> exists|k: int|
                0 <= k < n && #[trigger] list[k] == j && end_of(placed[j].leaves(), left) == leaf by {
            if rest.contains(j) {
                let k = choose|k: int|
                    0 <= k < n - 1 && #[trigger] list[k] == j && end_of(placed[j].leaves(), left) == leaf;
                assert(0 <= k < n && list[k] == j && end_of(placed[j].leaves(), left) == leaf);
            }
            if all.contains(j) && j == last && !rest.contains(j) {
                assert(list[n - 1] == j && end_of(placed[j].leaves(), left) == leaf);
            }
            if exists|k: int| 0 <= k < n && #[trigger] list[k] == j && end_of(placed[j].leaves(), left) == leaf {
                let k = choose|k: int|
                    0 <= k < n && #[trigger] list[k] == j && end_of(placed[j].leaves(), left) == leaf;
                if k < n - 1 {
                    assert(0 <= k < n - 1 && list[k] == j && end_of(placed[j].leaves(), left) == leaf);
                }
            }
        }
    }
}

/// The degree of a leaf among the edges of a group is the number of its flows.
proof fn lemma_group_degree(
    placed: Seq<PlacedFlow>,
    rounds: Seq<(JobId, usize)>,
    label: Seq<usize>,
    groups: Seq<Vec<usize>>,
    g: usize,
    list: Seq<usize>,
    i: int,
    left: bool,
    leaf: usize,
)
    requires
        placed.len() <= usize::MAX,
        is_round_list(placed, placed.len(), rounds),
        is_grouping(placed, rounds, label, groups),
        lists_group(placed, rounds, label, g, list),
        0 <= i < placed.len(),
        has_label(placed, rounds, label, i, g),
    ensures
        degree(flow_edges(placed, list), left, leaf, list.len()) == leaf_flows(placed, i, left, leaf).len(),
{
    lemma_listed_at(placed, list, left, leaf, list.len());
    let a = listed_at(placed, list, left, leaf, list.len());
    let b = leaf_flows(placed, i, left, leaf);
    assert forall|j: int| a.contains(j) == b.contains(j) by {
        if a.contains(j) {
            let k = choose|k: int|
                0 <= k < list.len() && #[trigger] list[k] == j && end_of(placed[j].leaves(), left) == leaf;
            assert(list[k] < placed.len());
            assert(has_label(placed, rounds, label, list[k] as int, g));
            lemma_label_together(placed, rounds, label, groups, g, i, j);
        }
        if b.contains(j) {
            lemma_label_together(placed, rounds, label, groups, g, i, j);
            assert(list.contains(j as usize));
            let k = choose|k: int| 0 <= k < list.len() && list[k] == j as usize;
            assert(list[k] == j);
        }
    }
    assert(a =~= b);
}

/// Spines, with those of the first `n` of a list of flows.
pub open spec fn with_spines(
    spine: Seq<Option<usize>>,
    list: Seq<usize>,
    colors: Seq<usize>,
    n: nat,
) -> Seq<Option<usize>>
    decreases n,
{
    if n == 0 {
        spine
    } else {
        with_spines(spine, list, colors, (n - 1) as nat).update(list[n - 1] as int, Some(colors[n - 1]))
    }
}

/// The spines of the flows of the first `n` groups. In a group, the flows between leaves are the edges
/// from the leaves at which they start to those at which they end, and their colours are the spines.
pub open spec fn spines_of(
    placed: Seq<PlacedFlow>,
    rounds: Seq<(JobId, usize)>,
    groups: Seq<Seq<usize>>,
    n: nat,
) -> Seq<Option<usize>>
    decreases n,
{
    if n == 0 {
        Seq::new(placed.len(), |i: int| None)
    } else {
        let group = groups[n - 1];
        let list = flows_of(placed, rounds, group, group.len());
        with_spines(
            spines_of(placed, rounds, groups, (n - 1) as nat),
            list,
            edge_colors(flow_edges(placed, list)),
            list.len(),
        )
    }
}

/// The spine of each flow; a flow below one leaf has none.
pub open spec fn spine_choice(placed: Seq<PlacedFlow>) -> Seq<Option<usize>> {
    let rounds = rounds_of(placed);
    let groups = groups_of(placed, rounds, rounds.len());
    spines_of(placed, rounds, groups, groups.len())
}

/// The spines that the flows of the first groups have been given.
spec fn partly_assigned(
    placed: Seq<PlacedFlow>,
    rounds: Seq<(JobId, usize)>,
    label: Seq<usize>,
    spine: Seq<Option<usize>>,
    spines: nat,
    done: usize,
) -> bool {
    &&& spine.len() == placed.len()
    &&& forall|i: int|
        #![trigger spine[i]]
        0 <= i < placed.len() ==> {
            &&& spine[i] is Some ==> placed[i].crosses() && spine[i]->0 < spines
            &&& spine[i] is Some ==> exists|g: usize| g < done && #[trigger] has_label(placed, rounds, label, i, g)
            &&& forall|g: usize|
                g < done && placed[i].crosses() && #[trigger] has_label(placed, rounds, label, i, g) ==> spine[i] is Some
        }
    &&& forall|i: int, j: int|
        0 <= i < placed.len() && 0 <= j < placed.len() && i != j && spine[i] is Some && #[trigger] spine[i]
            == #[trigger] spine[j] && together(placed, i, j) ==> placed[i].src_leaf != placed[j].src_leaf
            && placed[i].dst_leaf != placed[j].dst_leaf
    &&& forall|i: int, g: usize|
        0 <= i < placed.len() && g < done && #[trigger] has_label(placed, rounds, label, i, g) ==> group_fits(
            placed,
            i,
            spines,
        )
}

/// The flow has one of the first labels.
spec fn labelled(placed: Seq<PlacedFlow>, rounds: Seq<(JobId, usize)>, label: Seq<usize>, i: int, n: usize) -> bool {
    exists|h: usize| h < n && #[trigger] has_label(placed, rounds, label, i, h)
}

/// A flow has one label.
proof fn lemma_one_label(
    placed: Seq<PlacedFlow>,
    rounds: Seq<(JobId, usize)>,
    label: Seq<usize>,
    i: int,
    g: usize,
    h: usize,
)
    requires
        is_round_list(placed, placed.len(), rounds),
        has_label(placed, rounds, label, i, g),
        has_label(placed, rounds, label, i, h),
    ensures
        g == h,
{
    let a = choose|a: int| 0 <= a < rounds.len() && #[trigger] rounds[a] == placed[i].round() && label[a] == g;
    let b = choose|b: int| 0 <= b < rounds.len() && #[trigger] rounds[b] == placed[i].round() && label[b] == h;
    if a < b {
        assert(round_before(rounds[a], rounds[b]));
    } else if b < a {
        assert(round_before(rounds[b], rounds[a]));
    }
}

/// The colours of a group's edges are spines for its flows.
proof fn lemma_assign_group(
    placed: Seq<PlacedFlow>,
    rounds: Seq<(JobId, usize)>,
    label: Seq<usize>,
    groups: Seq<Vec<usize>>,
    before: Seq<Option<usize>>,
    after: Seq<Option<usize>>,
    spines: nat,
    g: usize,
    list: Seq<usize>,
    colors: Seq<usize>,
)
    requires
        placed.len() <= usize::MAX,
        g < usize::MAX,
        is_round_list(placed, placed.len(), rounds),
        is_grouping(placed, rounds, label, groups),
        partly_assigned(placed, rounds, label, before, spines, g),
        lists_group(placed, rounds, label, g, list),
        degrees_within(flow_edges(placed, list), spines),
        is_coloring(flow_edges(placed, list), colors, spines),
        after.len() == before.len(),
        forall|k: int| 0 <= k < list.len() ==> after[(#[trigger] list[k]) as int] == Some(colors[k]),
        forall|i: int| 0 <= i < before.len() && !list.contains(i as usize) ==> #[trigger] after[i] == before[i],
    ensures
        partly_assigned(placed, rounds, label, after, spines, (g + 1) as usize),
{
    let done = (g + 1) as usize;
    let edges = flow_edges(placed, list);
    assert forall|i: int|
        #![trigger after[i]]
        0 <= i < placed.len() implies {
        &&& after[i] is Some ==> placed[i].crosses() && after[i]->0 < spines
        &&& after[i] is Some ==> exists|h: usize| h < done && #[trigger] has_label(placed, rounds, label, i, h)
        &&& forall|h: usize|
            h < done && placed[i].crosses() && #[trigger] has_label(placed, rounds, label, i, h) ==> after[i] is Some
    } by {
        if list.contains(i as usize) {
            let k = choose|k: int| 0 <= k < list.len() && list[k] == i as usize;
            assert(after[list[k] as int] == Some(colors[k]));
            assert(has_label(placed, rounds, label, i, g));
        } else {
            assert(after[i] == before[i]);
            if before[i] is Some {
                let h = choose|h: usize| h < g && #[trigger] has_label(placed, rounds, label, i, h);
                assert(h < done && has_label(placed, rounds, label, i, h));
            }
            assert forall|h: usize|
                h < done && placed[i].crosses() && #[trigger] has_label(placed, rounds, label, i, h) implies after[i] is Some by {
                if h == g {
                    assert(list.contains(i as usize));
                }
            }
        }
    }
    assert forall|i: int, j: int|
        0 <= i < placed.len() && 0 <= j < placed.len() && i != j && after[i] is Some && #[trigger] after[i]
            == #[trigger] after[j] && together(placed, i, j) implies placed[i].src_leaf != placed[j].src_leaf
        && placed[i].dst_leaf != placed[j].dst_leaf by {
        if list.contains(i as usize) && list.contains(j as usize) {
            let k = choose|k: int| 0 <= k < list.len() && list[k] == i as usize;
            let l = choose|l: int| 0 <= l < list.len() && list[l] == j as usize;
            assert(after[list[k] as int] == Some(colors[k]));
            assert(after[list[l] as int] == Some(colors[l]));
            assert(edges[k] == placed[i].leaves() && edges[l] == placed[j].leaves());
            if k < l {
                assert(colors[k] == colors[l]);
            } else {
                assert(l < k);
                assert(colors[l] == colors[k]);
            }
        } else if !list.contains(i as usize) && !list.contains(j as usize) {
            assert(before[i] == before[j]);
        } else {
            let (x, y) = if list.contains(i as usize) {
                (i, j)
            } else {
                (j, i)
            };
            let k = choose|k: int| 0 <= k < list.len() && list[k] == x as usize;
            assert(has_label(placed, rounds, label, x, g));
            lemma_linked(placed, placed[i].round(), placed[j].round(), placed[i].round());
            lemma_label_together(placed, rounds, label, groups, g, x, y);
            assert(has_label(placed, rounds, label, y, g));
            assert(after[y] == before[y]);
            assert(before[y] is Some);
            let h = choose|h: usize| h < g && #[trigger] has_label(placed, rounds, label, y, h);
            lemma_one_label(placed, rounds, label, y, g, h);
        }
    }
    assert forall|i: int, h: usize|
        0 <= i < placed.len() && h < done && #[trigger] has_label(placed, rounds, label, i, h) implies group_fits(
        placed,
        i,
        spines,
    ) by {
        if h == g {
            assert forall|left: bool, leaf: usize| #[trigger] leaf_flows(placed, i, left, leaf).len() <= spines by {
                lemma_group_degree(placed, rounds, label, groups, g, list, i, left, leaf);
                assert(degree(edges, left, leaf, edges.len()) <= spines);
            }
        }
    }
}

/// Gives each flow between leaves a spine, if there are enough.
pub fn assign_spines(placed: &Vec<PlacedFlow>, num_spines: usize) -> (r: Option<Vec<Option<usize>>>)
    ensures
        r is Some == routable(placed@, num_spines as nat),
        r matches Some(spine) ==> spine@ == spine_choice(placed@) && is_spine_plan(
            placed@,
            spine@,
            num_spines as nat,
        ),
{
    let n: usize = placed.len();
    let rounds = list_rounds(placed);
    let (label, groups) = group_rounds(placed, &rounds);
    let mut spine: Vec<Option<usize>> = Vec::new();
    let mut i: usize = 0;
    while i < n
        invariant
            i <= n,
            spine@.len() == i,
            forall|j: int| 0 <= j < i ==> (#[trigger] spine@[j]) is None,
        decreases n - i,
    {
        spine.push(None);
        i += 1;
    }
    let total: usize = groups.len();
    let mut g: usize = 0;
    let ghost lists = lists_of(groups@);
    proof {
        assert(spine@ =~= spines_of(placed@, rounds@, lists, 0));
    }
    while g < total
        invariant
            n == placed@.len(),
            total == groups@.len(),
            g <= total,
            is_round_list(placed@, placed@.len(), rounds@),
            is_grouping(placed@, rounds@, label@, groups@),
            partly_assigned(placed@, rounds@, label@, spine@, num_spines as nat, g),
            lists == lists_of(groups@),
            spine@ == spines_of(placed@, rounds@, lists, g as nat),
        decreases total - g,
    {
        proof {
            assert(lists_label(label@, groups@[g as int]@, g));
        }
        let list = list_group_flows(placed, &rounds, &groups[g], Ghost(label@), Ghost(g));
        let mut edges: Vec<(usize, usize)> = Vec::new();
        let mut k: usize = 0;
        while k < list.len()
            invariant
                k <= list@.len(),
                lists_group(placed@, rounds@, label@, g, list@),
                edges@.len() == k,
                forall|j: int| 0 <= j < k ==> #[trigger] edges@[j] == placed@[list@[j] as int].leaves(),
            decreases list@.len() - k,
        {
            proof {
                assert(list@[k as int] < placed@.len());
            }
            let f = placed[list[k]];
            edges.push((f.src_leaf, f.dst_leaf));
            k += 1;
        }
        proof {
            assert(edges@ =~= flow_edges(placed@, list@));
        }
        let colors = match color_edges(&edges, num_spines) {
            Some(c) => c,
            None => {
                proof {
                    let (left, leaf) = choose|left: bool, leaf: usize|
                        #[trigger] degree(edges@, left, leaf, edges@.len()) > num_spines;
                    assert(edges@.len() > 0) by {
                        if edges@.len() == 0 {
                            assert(degree(edges@, left, leaf, 0) == 0);
                        }
                    }
                    let i = list@[0] as int;
                    assert(list@[0] < placed@.len());
                    lemma_group_degree(placed@, rounds@, label@, groups@, g, list@, i, left, leaf);
                    assert(leaf_flows(placed@, i, left, leaf).len() > num_spines);
                    assert(!group_fits(placed@, i, num_spines as nat));
                }
                return None;
            },
        };
        let ghost before = spine@;
        let mut m: usize = 0;
        while m < list.len()
            invariant
                m <= list@.len(),
                n == placed@.len(),
                before.len() == n,
                spine@.len() == n,
                colors@.len() == list@.len(),
                spine@ == with_spines(before, list@, colors@, m as nat),
                lists_group(placed@, rounds@, label@, g, list@),
                forall|k: int| 0 <= k < m ==> spine@[(#[trigger] list@[k]) as int] == Some(colors@[k]),
                forall|i: int| 0 <= i < n && !list@.take(m as int).contains(i as usize) ==> #[trigger] spine@[i] == before[i],
            decreases list@.len() - m,
        {
            let ghost mid = spine@;
            proof {
                assert(list@[m as int] < placed@.len());
            }
            spine.set(list[m], Some(colors[m]));
            proof {
                assert forall|k: int| 0 <= k < m + 1 implies spine@[(#[trigger] list@[k]) as int] == Some(colors@[k]) by {
                    if k < m {
                        assert(list@[k] != list@[m as int]);
                        assert(mid[list@[k] as int] == Some(colors@[k]));
                    }
                }
                assert forall|i: int|
                    0 <= i < n && !list@.take(m + 1).contains(i as usize) implies #[trigger] spine@[i] == before[i] by {
                    let shorter = list@.take(m as int);
                    let longer = list@.take(m + 1);
                    assert(longer[m as int] == list@[m as int]);
                    if i == list@[m as int] {
                        assert(longer.contains(i as usize));
                    }
                    if shorter.contains(i as usize) {
                        let x = choose|x: int| 0 <= x < shorter.len() && shorter[x] == i as usize;
                        assert(longer[x] == i as usize);
                    }
                    assert(mid[i] == before[i]);
                }
            }
            m += 1;
        }
        proof {
            assert(list@.take(list@.len() as int) =~= list@);
            assert(lists[g as int] == groups@[g as int]@);
            assert(spine@ == spines_of(placed@, rounds@, lists, (g + 1) as nat));
            lemma_assign_group(
                placed@,
                rounds@,
                label@,
                groups@,
                before,
                spine@,
                num_spines as nat,
                g,
                list@,
                colors@,
            );
        }
        g += 1;
    }
    proof {
        assert forall|i: int| 0 <= i < n implies #[trigger] labelled(placed@, rounds@, label@, i, total) by {
            assert(rounds@.contains(placed@[i].round()));
            let a = choose|a: int| 0 <= a < rounds@.len() && rounds@[a] == placed@[i].round();
            assert(rounds@[a] == placed@[i].round() && label@[a] == label@[a]);
            assert(has_label(placed@, rounds@, label@, i, label@[a]));
        }
        assert forall|i: int| 0 <= i < placed@.len() implies #[trigger] group_fits(placed@, i, num_spines as nat) by {
            assert(labelled(placed@, rounds@, label@, i, total));
            let h = choose|h: usize| h < total && #[trigger] has_label(placed@, rounds@, label@, i, h);
        }
        assert forall|i: int| 0 <= i < placed@.len() implies (#[trigger] spine@[i]) is Some == placed@[i].crosses()
            && (spine@[i] is Some ==> spine@[i]->0 < num_spines) by {
            assert(labelled(placed@, rounds@, label@, i, total));
            let h = choose|h: usize| h < total && #[trigger] has_label(placed@, rounds@, label@, i, h);
        }
    }
    Some(spine)
}

} // verus!
