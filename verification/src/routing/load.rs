//! Flows on links.

use vstd::prelude::*;

use crate::network::graph::LinkId;
use crate::utils::data::DHashMap;

verus! {

/// Flows on a link.
pub open spec fn count_of(loads: Map<LinkId, usize>, link: LinkId) -> usize {
    if loads.contains_key(link) {
        loads[link]
    } else {
        0
    }
}

/// With another flow on a link, as the machine counts.
pub open spec fn raised(loads: Map<LinkId, usize>, link: LinkId) -> Map<LinkId, usize> {
    let n = count_of(loads, link);
    loads.insert(
        link,
        if n == usize::MAX {
            0
        } else {
            (n + 1) as usize
        },
    )
}

/// With a flow less on a link. A link without flows is not listed.
pub open spec fn lowered(loads: Map<LinkId, usize>, link: LinkId) -> Map<LinkId, usize> {
    if !loads.contains_key(link) {
        loads
    } else if loads[link] <= 1 {
        loads.remove(link)
    } else {
        loads.insert(link, (loads[link] - 1) as usize)
    }
}

/// With another flow on the first `n` links of a path.
pub open spec fn raised_all(loads: Map<LinkId, usize>, path: Seq<LinkId>, n: nat) -> Map<LinkId, usize>
    decreases n,
{
    if n == 0 {
        loads
    } else {
        raised(raised_all(loads, path, (n - 1) as nat), path[n - 1])
    }
}

/// With a flow less on the first `n` links of a path.
pub open spec fn lowered_all(loads: Map<LinkId, usize>, path: Seq<LinkId>, n: nat) -> Map<LinkId, usize>
    decreases n,
{
    if n == 0 {
        loads
    } else {
        lowered(lowered_all(loads, path, (n - 1) as nat), path[n - 1])
    }
}

/// The most flows on any of the first `n` links of a path.
pub open spec fn path_score(loads: Map<LinkId, usize>, path: Seq<LinkId>, n: nat) -> usize
    decreases n,
{
    if n == 0 {
        0
    } else {
        let rest = path_score(loads, path, (n - 1) as nat);
        let here = count_of(loads, path[n - 1]);
        if here > rest {
            here
        } else {
            rest
        }
    }
}

/// Every listed link has flows.
pub open spec fn all_used(loads: Map<LinkId, usize>) -> bool {
    forall|l: LinkId| #[trigger] loads.contains_key(l) ==> loads[l] > 0
}

/// The flows on a link.
pub fn get_count(loads: &DHashMap<LinkId, usize>, link: LinkId) -> (r: usize)
    ensures
        r == count_of(loads@, link),
{
    match loads.get(&link) {
        Some(n) => *n,
        None => 0,
    }
}

/// Puts a flow on a link.
pub fn raise(loads: &mut DHashMap<LinkId, usize>, link: LinkId)
    ensures
        final(loads)@ == raised(old(loads)@, link),
{
    let n: usize = get_count(loads, link);
    loads.insert(link, n.wrapping_add(1));
}

/// Takes a flow off a link.
pub fn lower(loads: &mut DHashMap<LinkId, usize>, link: LinkId)
    ensures
        final(loads)@ == lowered(old(loads)@, link),
{
    if loads.contains_key(&link) {
        let n: usize = get_count(loads, link);
        if n <= 1 {
            loads.remove(&link);
        } else {
            loads.insert(link, n - 1);
        }
    }
}

/// Puts a flow on each link of a path.
pub fn raise_path(loads: &mut DHashMap<LinkId, usize>, path: &Vec<LinkId>)
    ensures
        final(loads)@ == raised_all(old(loads)@, path@, path@.len()),
{
    let mut i: usize = 0;
    while i < path.len()
        invariant
            i <= path@.len(),
            loads@ == raised_all(old(loads)@, path@, i as nat),
        decreases path@.len() - i,
    {
        raise(loads, path[i]);
        i += 1;
    }
}

/// Takes a flow off each link of a path.
pub fn lower_path(loads: &mut DHashMap<LinkId, usize>, path: &Vec<LinkId>)
    ensures
        final(loads)@ == lowered_all(old(loads)@, path@, path@.len()),
{
    let mut i: usize = 0;
    while i < path.len()
        invariant
            i <= path@.len(),
            loads@ == lowered_all(old(loads)@, path@, i as nat),
        decreases path@.len() - i,
    {
        lower(loads, path[i]);
        i += 1;
    }
}

/// The most flows on any link of a path.
pub fn score_path(loads: &DHashMap<LinkId, usize>, path: &Vec<LinkId>) -> (r: usize)
    ensures
        r == path_score(loads@, path@, path@.len()),
{
    let mut best: usize = 0;
    let mut i: usize = 0;
    while i < path.len()
        invariant
            i <= path@.len(),
            best == path_score(loads@, path@, i as nat),
        decreases path@.len() - i,
    {
        let n: usize = get_count(loads, path[i]);
        if n > best {
            best = n;
        }
        i += 1;
    }
    best
}

/// A flow that leaves the two links that it took leaves the network as it was.
pub proof fn lemma_release(loads: Map<LinkId, usize>, up: LinkId, down: LinkId)
    requires
        all_used(loads),
        up != down,
        count_of(loads, up) < usize::MAX,
        count_of(loads, down) < usize::MAX,
    ensures
        lowered_all(raised_all(loads, seq![up, down], 2), seq![up, down], 2) == loads,
{
    let path = seq![up, down];
    reveal_with_fuel(raised_all, 3);
    reveal_with_fuel(lowered_all, 3);
    let a = raised_all(loads, path, 2);
    assert(a =~= raised(raised(loads, up), down));
    assert(lowered_all(a, path, 2) =~= lowered(lowered(a, up), down));
    assert(lowered(lowered(a, up), down) =~= loads);
}

/// Flows that come and go leave only links with flows listed.
pub proof fn lemma_all_used(loads: Map<LinkId, usize>, link: LinkId)
    requires
        all_used(loads),
        count_of(loads, link) < usize::MAX,
    ensures
        all_used(raised(loads, link)),
        all_used(lowered(loads, link)),
{
}

/// The first of the first `n` paths whose busiest link carries the least.
pub open spec fn best_path(loads: Map<LinkId, usize>, all: Seq<Seq<LinkId>>, n: nat) -> int
    decreases n,
{
    if n <= 1 {
        0
    } else {
        let b = best_path(loads, all, (n - 1) as nat);
        if path_score(loads, all[n - 1], all[n - 1].len()) < path_score(loads, all[b], all[b].len()) {
            n - 1
        } else {
            b
        }
    }
}

/// What `best_path` finds is the first of the paths with the least load.
pub proof fn lemma_best_path(loads: Map<LinkId, usize>, all: Seq<Seq<LinkId>>, n: nat)
    requires
        0 < n <= all.len(),
    ensures
        0 <= best_path(loads, all, n) < n,
        forall|i: int|
            0 <= i < n ==> {
                let b = best_path(loads, all, n);
                let best = path_score(loads, all[b], all[b].len());
                let here = path_score(loads, #[trigger] all[i], all[i].len());
                best <= here && (i < b ==> best < here)
            },
    decreases n,
{
    if n > 1 {
        lemma_best_path(loads, all, (n - 1) as nat);
    }
}

/// The links of paths.
pub open spec fn path_views(all: Seq<Vec<LinkId>>) -> Seq<Seq<LinkId>> {
    all.map_values(|p: Vec<LinkId>| p@)
}

/// The first of the paths whose busiest link carries the least.
pub fn find_best_path(loads: &DHashMap<LinkId, usize>, all: &Vec<Vec<LinkId>>) -> (r: usize)
    requires
        all@.len() > 0,
    ensures
        r == best_path(loads@, path_views(all@), all@.len()),
        r < all@.len(),
{
    let ghost views = path_views(all@);
    let mut best: usize = 0;
    let mut score: usize = score_path(loads, &all[0]);
    let mut i: usize = 1;
    while i < all.len()
        invariant
            1 <= i <= all@.len(),
            best < i,
            views == path_views(all@),
            best == best_path(loads@, views, i as nat),
            score == path_score(loads@, views[best as int], views[best as int].len()),
        decreases all@.len() - i,
    {
        assert(views[i as int] == all@[i as int]@);
        let here: usize = score_path(loads, &all[i]);
        if here < score {
            score = here;
            best = i;
        }
        i += 1;
    }
    best
}

} // verus!
