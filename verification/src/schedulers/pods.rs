//! How the blocks of a job lie in pods.

use vstd::prelude::*;

use crate::schedulers::packing::{
    all_free, best_fit, block_choice, fill_choice, fill_pods, free_counts, fullest, group_count, group_free,
    lemma_best_fit, lemma_block_choice, lemma_fill_pods, lemma_full_group, lemma_fullest,
    lemma_pod_free, lemma_pod_part, lemma_pods_greedy, lemma_some_group_free, lemma_take_blocks,
    lemma_whole_pods, pod_blocks, pod_choice, pod_part, pods_greedy, shifted, take_blocks, whole_pods,
};
use crate::schedulers::spread::{
    filled_before, is_open, lemma_fill_group, lemma_fullest_first, lemma_open_blocks, lemma_open_group, open_blocks,
    room,
};
use crate::simulator::context::lemma_set_at;
use crate::simulator::job_scheduler::free_hosts;

verus! {

/// The pod of a block, if a pod has `p` blocks.
pub open spec fn pod_at(p: nat, b: usize) -> int {
    b as int / p as int
}

/// All blocks of the list lie in one pod.
pub open spec fn in_pod(p: nat, blocks: Seq<usize>, g: int) -> bool {
    forall|i: int| 0 <= i < blocks.len() ==> pod_at(p, #[trigger] blocks[i]) == g
}

/// The pod with the least room among those that have room for so many blocks, and the first of them.
pub open spec fn is_tightest(taken: Seq<bool>, p: nat, need: nat, g: int) -> bool {
    &&& room(taken, p, g) >= need
    &&& forall|h: int| #[trigger]
        room(taken, p, h) >= need ==> room(taken, p, g) <= room(taken, p, h) && (room(taken, p, g) == room(taken, p, h)
            ==> g <= h)
}

/// What is found as the best fit is the tightest pod.
proof fn lemma_tightest(taken: Seq<bool>, p: nat, need: nat)
    requires
        p > 0,
        need > 0,
        taken.len() <= usize::MAX,
    ensures
        match best_fit(free_counts(taken, p, group_count(taken.len(), p)), need, group_count(taken.len(), p)) {
            Some(g) => g < group_count(taken.len(), p) && is_tightest(taken, p, need, g as int),
            None => forall|g: int| #[trigger] room(taken, p, g) < need,
        },
{
    let pods = group_count(taken.len(), p);
    let counts = free_counts(taken, p, pods);
    lemma_best_fit(counts, need, pods);
    assert forall|g: int| #[trigger] room(taken, p, g) >= need implies 0 <= g < pods && counts[g] == room(taken, p, g) by {
        lemma_room_in_group(taken, p, g);
        lemma_open_blocks(taken, p, g as nat);
    }
    if let Some(g) = best_fit(counts, need, pods) {
        lemma_open_blocks(taken, p, g);
        assert(counts[g as int] == room(taken, p, g as int));
        assert forall|h: int| #[trigger] room(taken, p, h) >= need implies room(taken, p, g as int) <= room(taken, p, h) && (
        room(taken, p, g as int) == room(taken, p, h) ==> g <= h) by {
            assert(counts[h] >= need);
        }
    }
}

/// Where there is room, there is a pod.
proof fn lemma_room_in_group(taken: Seq<bool>, p: nat, g: int)
    requires
        p > 0,
        taken.len() <= usize::MAX,
        room(taken, p, g) > 0,
    ensures
        0 <= g < group_count(taken.len(), p),
{
    let s = open_blocks(taken, p, g);
    let b = s.choose();
    if !s.contains(b) {
        assert(s =~= Set::<usize>::empty());
    }
    lemma_open_group(taken, p, b);
}

/// The blocks are chosen pod by pod: some pods are filled, one with the most room after the other, and what is then
/// still needed lies in the tightest of the others.
pub open spec fn are_filled(taken: Seq<bool>, p: nat, blocks: Seq<usize>, m: int) -> bool {
    &&& 0 <= m <= blocks.len()
    // The first `m` blocks fill their pods.
    &&& forall|i: int, y: usize|
        0 <= i < m && is_open(taken, y) && pod_at(p, y) == pod_at(p, #[trigger] blocks[i]) ==> #[trigger] blocks.take(
            m,
        ).contains(y)
    // No other pod has more room than they.
    &&& forall|i: int, y: usize|
        0 <= i < m && is_open(taken, y) && !#[trigger] blocks.take(m).contains(y) ==> filled_before(
            taken,
            p,
            pod_at(p, #[trigger] blocks[i]),
            pod_at(p, y),
        )
    // The rest lies in one pod, in its first blocks.
    &&& forall|i: int, j: int|
        m <= i < j < blocks.len() ==> pod_at(p, #[trigger] blocks[i]) == pod_at(p, #[trigger] blocks[j]) && blocks[i]
            < blocks[j]
    &&& forall|i: int, y: usize|
        m <= i < blocks.len() && is_open(taken, y) && pod_at(p, y) == pod_at(p, blocks[i]) && y < #[trigger] blocks[i]
            ==> #[trigger] blocks.contains(y)
    // That pod has room for it, and no other pod that has is tighter.
    &&& forall|i: int|
        m <= i < blocks.len() ==> room(taken, p, pod_at(p, #[trigger] blocks[i])) >= blocks.len() - m && !blocks.take(
            m,
        ).contains(blocks[i])
    &&& forall|i: int, y: usize|
        m <= i < blocks.len() && is_open(taken, y) && !#[trigger] blocks.take(m).contains(y) && room(
            taken,
            p,
            pod_at(p, y),
        ) >= blocks.len() - m ==> room(taken, p, pod_at(p, #[trigger] blocks[i])) <= room(taken, p, pod_at(p, y))
}

proof fn lemma_fill_order(taken: Seq<bool>, p: nat, need: nat) -> (m: int)
    requires
        p > 0,
        taken.len() <= usize::MAX,
        all_free(taken).len() >= need,
    ensures
        are_filled(taken, p, fill_pods(taken, p, need), m),
        m > 0 ==> forall|g: int| #[trigger] room(taken, p, g) < need,
        m == 0 && need > 0 ==> exists|g: int| #[trigger] room(taken, p, g) >= need,
    decreases need,
{
    let r = fill_pods(taken, p, need);
    if need == 0 {
        return 0;
    }
    let pods = group_count(taken.len(), p);
    let counts = free_counts(taken, p, pods);
    lemma_tightest(taken, p, need);
    lemma_some_group_free(taken, p);
    lemma_fullest(counts, pods);
    if let Some(g) = best_fit(counts, need, pods) {
        lemma_open_blocks(taken, p, g);
        let whole = group_free(taken, p, g);
        assert(r == whole.take(need as int));
        assert(r.take(0) =~= Seq::<usize>::empty());
        assert forall|i: int| 0 <= i < r.len() implies pod_at(p, #[trigger] r[i]) == g && r[i] == whole[i] by {
            assert(whole.contains(whole[i]));
            assert(open_blocks(taken, p, g as int).contains(whole[i]));
        }
        assert forall|i: int, y: usize|
            0 <= i < r.len() && is_open(taken, y) && pod_at(p, y) == pod_at(p, r[i]) && y < #[trigger] r[i] implies #[trigger] r.contains(
            y,
        ) by {
            assert(open_blocks(taken, p, g as int).contains(y));
            assert(whole.contains(y));
            let x = choose|x: int| 0 <= x < whole.len() && whole[x] == y;
            assert(r[i] == whole[i]);
            if x > i {
                assert(whole[i] < whole[x]);
            }
            assert(r[x] == y);
        }
        assert(room(taken, p, g as int) >= need);
        return 0;
    }
    let g = fullest(counts, pods)->0;
    lemma_open_blocks(taken, p, g);
    let part = group_free(taken, p, g);
    assert(counts[g as int] == part.len());
    assert(room(taken, p, g as int) < need);
    lemma_take_blocks(taken, part, part.len());
    lemma_set_at(taken, part, true, part.len());
    let after = take_blocks(taken, part);
    let left = (need - part.len()) as nat;
    let rest = fill_pods(after, p, left);
    assert(r == part + rest);
    lemma_fill_pods(after, p, left);
    let n = lemma_fill_order(after, p, left);
    let m = part.len() + n;
    lemma_fill_step(taken, p, g, part, after, rest, n);
    m
}

proof fn lemma_fill_step(taken: Seq<bool>, p: nat, g: nat, part: Seq<usize>, after: Seq<bool>, rest: Seq<usize>, n: int)
    requires
        p > 0,
        taken.len() <= usize::MAX,
        fullest(free_counts(taken, p, group_count(taken.len(), p)), group_count(taken.len(), p)) == Some(g),
        g < group_count(taken.len(), p),
        part == group_free(taken, p, g),
        after == take_blocks(taken, part),
        free_hosts(rest, after),
        are_filled(after, p, rest, n),
    ensures
        are_filled(taken, p, part + rest, part.len() + n),
{
    let r = part + rest;
    let m = part.len() + n;
    let k = part.len() as int;
    lemma_open_blocks(taken, p, g);
    let head = r.take(m);
    let inner = rest.take(n);
    assert(head =~= part + inner);
    assert forall|y: usize| head.contains(y) == (part.contains(y) || inner.contains(y)) by {
        if part.contains(y) {
            let i = choose|i: int| 0 <= i < part.len() && part[i] == y;
            assert(head[i] == y);
        }
        if inner.contains(y) {
            let i = choose|i: int| 0 <= i < inner.len() && inner[i] == y;
            assert(head[k + i] == y);
        }
        if head.contains(y) {
            let i = choose|i: int| 0 <= i < head.len() && head[i] == y;
            if i < k {
                assert(part[i] == y);
            } else {
                assert(inner[i - k] == y);
            }
        }
    }
    assert forall|y: usize| #[trigger] part.contains(y) == (is_open(taken, y) && pod_at(p, y) == g) by {
        assert(part.contains(y) == open_blocks(taken, p, g as int).contains(y));
    }
    assert forall|y: usize| #[trigger] is_open(after, y) == (is_open(taken, y) && pod_at(p, y) != g) by {
        lemma_fill_group(taken, p, g, y);
    }
    assert forall|h: int| h != g implies #[trigger] room(after, p, h) == room(taken, p, h) by {
        assert(open_blocks(after, p, h) =~= open_blocks(taken, p, h));
    }
    assert forall|j: int| 0 <= j < rest.len() implies is_open(taken, #[trigger] rest[j]) && pod_at(p, rest[j]) != g by {
        assert(rest[j] < after.len() && !after[rest[j] as int]);
        lemma_fill_group(taken, p, g, rest[j]);
        assert(is_open(after, rest[j]));
    }
    assert forall|i: int, y: usize|
        0 <= i < m && is_open(taken, y) && pod_at(p, y) == pod_at(p, #[trigger] r[i]) implies #[trigger] head.contains(
        y,
    ) by {
        if i < k {
            assert(r[i] == part[i]);
            assert(part.contains(part[i]));
            assert(part.contains(y));
        } else {
            assert(r[i] == rest[i - k]);
            assert(is_open(after, y));
            assert(inner.contains(y));
        }
    }
    assert forall|i: int, y: usize|
        0 <= i < m && is_open(taken, y) && !#[trigger] head.contains(y) implies filled_before(
        taken,
        p,
        pod_at(p, #[trigger] r[i]),
        pod_at(p, y),
    ) by {
        assert(!part.contains(y));
        assert(pod_at(p, y) != g);
        if i < k {
            assert(r[i] == part[i]);
            assert(part.contains(part[i]));
            lemma_fullest_first(taken, p, g, y);
        } else {
            let x = rest[i - k];
            assert(r[i] == x);
            assert(is_open(after, y));
            assert(!inner.contains(y));
            assert(filled_before(after, p, pod_at(p, rest[i - k]), pod_at(p, y)));
            assert(room(after, p, pod_at(p, x)) == room(taken, p, pod_at(p, x)));
            assert(room(after, p, pod_at(p, y)) == room(taken, p, pod_at(p, y)));
        }
    }
    assert forall|i: int, j: int|
        m <= i < j < r.len() implies pod_at(p, #[trigger] r[i]) == pod_at(p, #[trigger] r[j]) && r[i] < r[j] by {
        assert(r[i] == rest[i - k] && r[j] == rest[j - k]);
    }
    assert forall|i: int, y: usize|
        m <= i < r.len() && is_open(taken, y) && pod_at(p, y) == pod_at(p, r[i]) && y < #[trigger] r[i] implies #[trigger] r.contains(
        y,
    ) by {
        assert(r[i] == rest[i - k]);
        assert(is_open(after, y));
        assert(rest.contains(y));
        let x = choose|x: int| 0 <= x < rest.len() && rest[x] == y;
        assert(r[k + x] == y);
    }
    assert forall|i: int|
        m <= i < r.len() implies room(taken, p, pod_at(p, #[trigger] r[i])) >= r.len() - m && !head.contains(r[i]) by {
        let x = rest[i - k];
        assert(r[i] == x);
        assert(room(after, p, pod_at(p, x)) == room(taken, p, pod_at(p, x)));
        assert(!inner.contains(rest[i - k]));
        assert(!part.contains(x));
    }
    assert forall|i: int, y: usize|
        m <= i < r.len() && is_open(taken, y) && !#[trigger] head.contains(y) && room(taken, p, pod_at(p, y)) >= r.len()
            - m implies room(taken, p, pod_at(p, #[trigger] r[i])) <= room(taken, p, pod_at(p, y)) by {
        let x = rest[i - k];
        assert(r[i] == x);
        assert(!part.contains(y));
        assert(is_open(after, y));
        assert(!inner.contains(y));
        assert(room(after, p, pod_at(p, x)) == room(taken, p, pod_at(p, x)));
        assert(room(after, p, pod_at(p, y)) == room(taken, p, pod_at(p, y)));
        assert(room(after, p, pod_at(p, rest[i - k])) <= room(after, p, pod_at(p, y)));
    }
}

/// A job that fits in a pod lies in one: the tightest, and there in the first blocks. A job that fits in none fills
/// the pods with the most room, and what is then left of it lies in the tightest pod that has room for that.
pub proof fn lemma_pods_filled(all: Seq<bool>, p: nat, need: nat, blocks: Seq<usize>)
    requires
        p > 0,
        need > 0,
        all.len() <= usize::MAX,
        fill_choice(all, p, need) == Some(blocks),
    ensures
        blocks.len() == need,
        exists|m: int|
            {
                &&& #[trigger] are_filled(whole_pods(all, p), p, blocks, m)
                &&& (m == 0) == (exists|g: int| #[trigger] room(whole_pods(all, p), p, g) >= need)
            },
{
    let taken = whole_pods(all, p);
    lemma_whole_pods(all, p);
    lemma_fill_pods(taken, p, need);
    let m = lemma_fill_order(taken, p, need);
    assert(are_filled(taken, p, blocks, m));
}

/// What is chosen in a pod lies in it.
proof fn lemma_part_in_pod(taken: Seq<bool>, p: nat, k: nat, g: nat, need: nat)
    requires
        p > 0,
        k > 0,
        taken.len() <= usize::MAX,
        g < group_count(taken.len(), p),
        g * p + p <= taken.len(),
        group_free(taken, p, g).len() > 0,
    ensures
        in_pod(p, pod_part(taken, p, k, g, need), g as int),
        need >= group_free(taken, p, g).len() ==> forall|y: usize| #[trigger]
            pod_part(taken, p, k, g, need).contains(y) == open_blocks(taken, p, g as int).contains(y),
{
    lemma_pod_part(taken, p, k, g, need);
    lemma_open_blocks(taken, p, g);
    let part = pod_part(taken, p, k, g, need);
    let inner = pod_blocks(taken, p, g);
    lemma_pod_free(taken, g * p, p, p);
    let have = group_free(taken, p, g).len();
    let count = if need <= have {
        need
    } else {
        have
    };
    lemma_block_choice(inner, k, count);
    assert(all_free(inner).len() == have);
    let blocks = block_choice(inner, k, count)->0;
    assert(part == shifted(blocks, g * p));
    assert forall|i: int| 0 <= i < part.len() implies pod_at(p, #[trigger] part[i]) == g by {
        assert(blocks[i] < inner.len());
        assert(part[i] == blocks[i] + g * p);
        assert(g * p == g as int * p as int);
        vstd::arithmetic::div_mod::lemma_fundamental_div_mod_converse(
            part[i] as int,
            p as int,
            g as int,
            blocks[i] as int,
        );
    }
    if need >= have {
        let want = open_blocks(taken, p, g as int);
        assert(part.no_duplicates());
        part.unique_seq_to_set();
        assert forall|y: usize| part.to_set().contains(y) implies want.contains(y) by {
            let i = choose|i: int| 0 <= i < part.len() && part[i] == y;
            assert(part[i] < taken.len() && !taken[part[i] as int]);
            assert(pod_at(p, part[i]) == g);
        }
        vstd::set_lib::lemma_subset_equality(part.to_set(), want);
        assert forall|y: usize| #[trigger] part.contains(y) == want.contains(y) by {
            assert(part.to_set().contains(y) == want.contains(y));
        }
    }
}

/// Where a block is taken in a pod, all that can be had in the pods that are filled before it is taken.
pub open spec fn are_first_pods(taken: Seq<bool>, p: nat, blocks: Seq<usize>) -> bool {
    forall|i: int, y: usize|
        0 <= i < blocks.len() && is_open(taken, y) && filled_before(taken, p, pod_at(p, y), pod_at(p, #[trigger] blocks[i]))
            ==> #[trigger] blocks.contains(y)
}

proof fn lemma_pods_in_order(taken: Seq<bool>, p: nat, k: nat, need: nat)
    requires
        p > 0,
        k > 0,
        taken.len() <= usize::MAX,
        taken.len() % p == 0,
        all_free(taken).len() >= need,
    ensures
        are_first_pods(taken, p, pods_greedy(taken, p, k, need)),
    decreases need,
{
    if need > 0 {
        let r = pods_greedy(taken, p, k, need);
        let pods = group_count(taken.len(), p);
        let counts = free_counts(taken, p, pods);
        lemma_some_group_free(taken, p);
        lemma_fullest(counts, pods);
        let g = fullest(counts, pods)->0;
        lemma_full_group(taken.len(), p, g);
        lemma_open_blocks(taken, p, g);
        lemma_pod_part(taken, p, k, g, need);
        lemma_part_in_pod(taken, p, k, g, need);
        let part = pod_part(taken, p, k, g, need);
        lemma_take_blocks(taken, part, part.len());
        lemma_set_at(taken, part, true, part.len());
        let after = take_blocks(taken, part);
        let left = (need - part.len()) as nat;
        let rest = pods_greedy(after, p, k, left);
        assert(r == part + rest);
        lemma_pods_in_order(after, p, k, left);
        lemma_pods_greedy(after, p, k, left);
        let n = part.len() as int;
        assert forall|y: usize| left > 0 implies #[trigger] is_open(after, y) == (is_open(taken, y) && pod_at(p, y) != g) by {
            if y < taken.len() {
                if part.contains(y) {
                    let i = choose|i: int| 0 <= i < part.len() && part[i] == y;
                    assert(0 <= i < part.len() && part[i] == y as int);
                    assert(after[y as int]);
                    assert(pod_at(p, part[i]) == g);
                } else {
                    assert(forall|i: int| 0 <= i < part.len() ==> #[trigger] part[i] != y as int);
                    assert(after[y as int] == taken[y as int]);
                    assert(!open_blocks(taken, p, g as int).contains(y));
                }
            }
        }
        assert forall|h: int| left > 0 && h != g implies #[trigger] room(after, p, h) == room(taken, p, h) by {
            assert(open_blocks(after, p, h) =~= open_blocks(taken, p, h));
        }
        assert forall|i: int, y: usize|
            0 <= i < r.len() && is_open(taken, y) && filled_before(taken, p, pod_at(p, y), pod_at(p, #[trigger] r[i])) implies #[trigger] r.contains(
            y,
        ) by {
            if i < n {
                assert(r[i] == part[i]);
                assert(pod_at(p, part[i]) == g);
                lemma_fullest_first(taken, p, g, y);
            } else {
                let x = rest[i - n];
                assert(r[i] == x);
                assert(x < after.len() && !after[x as int]);
                assert(is_open(after, x));
                if pod_at(p, y) == g {
                    assert(open_blocks(taken, p, g as int).contains(y));
                    assert(part.contains(y));
                    let j = choose|j: int| 0 <= j < part.len() && part[j] == y;
                    assert(r[j] == y);
                } else {
                    assert(is_open(after, y));
                    assert(room(after, p, pod_at(p, x)) == room(taken, p, pod_at(p, x)));
                    assert(room(after, p, pod_at(p, y)) == room(taken, p, pod_at(p, y)));
                    assert(filled_before(after, p, pod_at(p, y), pod_at(p, rest[i - n])));
                    assert(rest.contains(y));
                    let j = choose|j: int| 0 <= j < rest.len() && rest[j] == y;
                    assert(r[n + j] == y);
                }
            }
        }
    }
}

/// In a network of pods with switches, a job that fits in a pod lies in the tightest. A job that fits in none takes
/// all that can be had in the pods with the most room before it takes anything in another.
pub proof fn lemma_pods_chosen(all: Seq<bool>, p: nat, k: nat, need: nat, blocks: Seq<usize>)
    requires
        p > 0,
        k > 0,
        need > 0,
        all.len() <= usize::MAX,
        pod_choice(all, p, k, need) == Some(blocks),
    ensures
        (exists|g: int| #[trigger] room(whole_pods(all, p), p, g) >= need) ==> exists|g: int|
            {
                &&& #[trigger] is_tightest(whole_pods(all, p), p, need, g)
                &&& in_pod(p, blocks, g)
            },
        !(exists|g: int| #[trigger] room(whole_pods(all, p), p, g) >= need) ==> are_first_pods(
            whole_pods(all, p),
            p,
            blocks,
        ),
{
    let taken = whole_pods(all, p);
    let pods = group_count(taken.len(), p);
    let counts = free_counts(taken, p, pods);
    lemma_whole_pods(all, p);
    lemma_tightest(taken, p, need);
    match best_fit(counts, need, pods) {
        Some(g) => {
            lemma_full_group(taken.len(), p, g);
            lemma_open_blocks(taken, p, g);
            lemma_part_in_pod(taken, p, k, g, need);
            assert(is_tightest(taken, p, need, g as int));
        },
        None => {
            lemma_pods_in_order(taken, p, k, need);
        },
    }
}

} // verus!
