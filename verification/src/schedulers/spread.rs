//! How the blocks of a job lie in groups.

use vstd::arithmetic::div_mod::{lemma_fundamental_div_mod, lemma_fundamental_div_mod_converse};
use vstd::prelude::*;

use crate::schedulers::packing::{
    all_free, best_fit, block_choice, free_counts, fullest, greedy, group_count, group_end, group_free,
    group_part, lemma_best_fit, lemma_block_group, lemma_free_between, lemma_free_prefix, lemma_fullest, lemma_greedy,
    lemma_group_bounds, lemma_some_group_free, lemma_take_blocks, take_blocks,
};
use crate::simulator::context::lemma_set_at;
use crate::simulator::job_scheduler::free_hosts;

verus! {

/// The block can be had.
pub open spec fn is_open(taken: Seq<bool>, b: usize) -> bool {
    b < taken.len() && !taken[b as int]
}

/// The blocks of group `g` that can be had, if a group has `k` blocks.
pub open spec fn open_blocks(taken: Seq<bool>, k: nat, g: int) -> Set<usize> {
    Set::new(|b: usize| is_open(taken, b) && b as int / k as int == g)
}

/// How many blocks of group `g` can be had.
pub open spec fn room(taken: Seq<bool>, k: nat, g: int) -> nat {
    open_blocks(taken, k, g).len()
}

/// Group `a` is filled before group `b`: it has more room, or the same and comes first.
pub open spec fn filled_before(taken: Seq<bool>, k: nat, a: int, b: int) -> bool {
    room(taken, k, a) > room(taken, k, b) || (room(taken, k, a) == room(taken, k, b) && a < b)
}

/// Block `a` is taken before block `b`: its group is filled before, or it comes first in the group.
pub open spec fn taken_before(taken: Seq<bool>, k: nat, a: usize, b: usize) -> bool {
    let g = a as int / k as int;
    let h = b as int / k as int;
    filled_before(taken, k, g, h) || (g == h && a < b)
}

/// Only such blocks are chosen before which all others are chosen, and they are listed in that order.
pub open spec fn are_first(taken: Seq<bool>, k: nat, blocks: Seq<usize>) -> bool {
    &&& forall|i: int, y: usize|
        0 <= i < blocks.len() && is_open(taken, y) && taken_before(taken, k, y, #[trigger] blocks[i])
            ==> #[trigger] blocks.contains(y)
    &&& forall|i: int, j: int|
        0 <= i < j < blocks.len() ==> taken_before(taken, k, #[trigger] blocks[i], #[trigger] blocks[j])
}

/// The group of a block.
proof fn lemma_in_group(n: nat, k: nat, g: nat, b: int)
    requires
        k > 0,
        g < group_count(n, k),
        0 <= b < n,
    ensures
        (g * k <= b < group_end(n, k, g)) == (b / k as int == g),
{
    lemma_fundamental_div_mod(b, k as int);
    lemma_group_bounds(n, k, g);
    let q = b / k as int;
    if q == g {
        assert(g * k <= b < g * k + k) by (nonlinear_arith)
            requires
                b == k as int * q + b % k as int,
                0 <= b % (k as int) < k,
                q == g,
        ;
    }
    if g * k <= b < g * k + k {
        assert(g * k == g as int * k as int);
        lemma_fundamental_div_mod_converse(b, k as int, g as int, b - g * k);
    }
}

/// The free blocks of a group are those that can be had there, each once and in order.
pub proof fn lemma_open_blocks(taken: Seq<bool>, k: nat, g: nat)
    requires
        k > 0,
        taken.len() <= usize::MAX,
        g < group_count(taken.len(), k),
    ensures
        forall|b: usize| #[trigger] group_free(taken, k, g).contains(b) == open_blocks(taken, k, g as int).contains(b),
        group_free(taken, k, g).len() == room(taken, k, g as int),
        open_blocks(taken, k, g as int).finite(),
        forall|i: int, j: int|
            0 <= i < j < group_free(taken, k, g).len() ==> group_free(taken, k, g)[i] < group_free(taken, k, g)[j],
        free_hosts(group_free(taken, k, g), taken),
{
    let n = taken.len();
    let list = group_free(taken, k, g);
    lemma_group_bounds(n, k, g);
    lemma_free_between(taken, g * k, group_end(n, k, g));
    assert forall|b: usize| #[trigger] list.contains(b) == open_blocks(taken, k, g as int).contains(b) by {
        if b < n {
            lemma_in_group(n, k, g, b as int);
        }
        if open_blocks(taken, k, g as int).contains(b) {
            let x = b as int;
            assert(list.contains(x as usize));
        }
        if list.contains(b) {
            let i = choose|i: int| 0 <= i < list.len() && list[i] == b;
            assert(list[i] < taken.len() && !taken[list[i] as int]);
            assert(g * k <= list[i] < group_end(n, k, g));
        }
    }
    assert(list.to_set() =~= open_blocks(taken, k, g as int));
    assert(list.no_duplicates());
    list.unique_seq_to_set();
}

/// A block that can be had lies in a group.
pub proof fn lemma_open_group(taken: Seq<bool>, k: nat, b: usize)
    requires
        k > 0,
        taken.len() <= usize::MAX,
        is_open(taken, b),
    ensures
        0 <= b as int / k as int,
        b as int / (k as int) < group_count(taken.len(), k),
        room(taken, k, b as int / k as int) > 0,
{
    lemma_block_group(taken, k, b as int);
    let g = b as int / k as int;
    lemma_open_blocks(taken, k, g as nat);
    let list = group_free(taken, k, g as nat);
    assert(list.contains(b));
    assert(list.len() > 0);
}

/// The fullest group is filled first.
pub proof fn lemma_fullest_first(taken: Seq<bool>, k: nat, g: nat, b: usize)
    requires
        k > 0,
        taken.len() <= usize::MAX,
        fullest(free_counts(taken, k, group_count(taken.len(), k)), group_count(taken.len(), k)) == Some(g),
        is_open(taken, b),
        b as int / k as int != g,
    ensures
        g < group_count(taken.len(), k),
        filled_before(taken, k, g as int, b as int / k as int),
{
    let groups = group_count(taken.len(), k);
    let counts = free_counts(taken, k, groups);
    let h = b as int / k as int;
    lemma_fullest(counts, groups);
    lemma_open_group(taken, k, b);
    lemma_open_blocks(taken, k, g);
    lemma_open_blocks(taken, k, h as nat);
    assert(counts[h] == room(taken, k, h));
    assert(counts[g as int] == room(taken, k, g as int));
}

/// Filling a group leaves the others as they are.
pub proof fn lemma_fill_group(taken: Seq<bool>, k: nat, g: nat, b: usize)
    requires
        k > 0,
        taken.len() <= usize::MAX,
        g < group_count(taken.len(), k),
    ensures
        is_open(take_blocks(taken, group_free(taken, k, g)), b) == (is_open(taken, b) && b as int / k as int != g),
        take_blocks(taken, group_free(taken, k, g)).len() == taken.len(),
{
    let part = group_free(taken, k, g);
    lemma_open_blocks(taken, k, g);
    lemma_set_at(taken, part, true, part.len());
    let after = take_blocks(taken, part);
    if b < taken.len() {
        if part.contains(b) {
            let i = choose|i: int| 0 <= i < part.len() && part[i] == b;
            assert(0 <= i < part.len() && part[i] == b as int);
            assert(after[b as int]);
            assert(open_blocks(taken, k, g as int).contains(b));
        } else {
            assert(!open_blocks(taken, k, g as int).contains(b));
            assert(forall|i: int| 0 <= i < part.len() ==> #[trigger] part[i] != b as int);
            assert(after[b as int] == taken[b as int]);
        }
    }
}

/// Greedy filling takes the first blocks, in order.
proof fn lemma_greedy_first(taken: Seq<bool>, k: nat, need: nat)
    requires
        k > 0,
        taken.len() <= usize::MAX,
        all_free(taken).len() >= need,
    ensures
        are_first(taken, k, greedy(taken, k, need)),
    decreases need,
{
    if need > 0 {
        let r = greedy(taken, k, need);
        let groups = group_count(taken.len(), k);
        let counts = free_counts(taken, k, groups);
        lemma_some_group_free(taken, k);
        lemma_fullest(counts, groups);
        let g = fullest(counts, groups)->0;
        lemma_open_blocks(taken, k, g);
        let whole = group_free(taken, k, g);
        let part = group_part(taken, k, g, need);
        if whole.len() > need {
            lemma_free_prefix(whole, taken, need as int);
        }
        lemma_take_blocks(taken, part, part.len());
        lemma_set_at(taken, part, true, part.len());
        let after = take_blocks(taken, part);
        let rest = greedy(after, k, (need - part.len()) as nat);
        assert(r == part + rest);
        lemma_greedy_first(after, k, (need - part.len()) as nat);
        lemma_greedy(after, k, (need - part.len()) as nat);
        assert forall|i: int| 0 <= i < part.len() implies (#[trigger] part[i]) as int / k as int == g && is_open(
            taken,
            part[i],
        ) by {
            assert(part[i] == whole[i]);
            assert(whole.contains(whole[i]));
            assert(open_blocks(taken, k, g as int).contains(whole[i]));
        }
        // Once a group is full, what is left is in the other groups, which have the room that they had.
        assert forall|j: int| 0 <= j < rest.len() implies is_open(taken, #[trigger] rest[j]) && rest[j] as int / k as int
            != g && part == whole by {
            assert(rest[j] < after.len() && !after[rest[j] as int]);
            lemma_fill_group(taken, k, g, rest[j]);
            assert(is_open(after, rest[j]));
        }
        assert forall|h: int| part == whole && h != g implies #[trigger] room(after, k, h) == room(taken, k, h) by {
            assert forall|b: usize| open_blocks(after, k, h).contains(b) == open_blocks(taken, k, h).contains(b) by {
                lemma_fill_group(taken, k, g, b);
            }
            assert(open_blocks(after, k, h) =~= open_blocks(taken, k, h));
        }
        assert forall|i: int, y: usize|
            0 <= i < r.len() && is_open(taken, y) && taken_before(taken, k, y, #[trigger] r[i]) implies #[trigger] r.contains(
            y,
        ) by {
            let h = y as int / k as int;
            if i < part.len() {
                assert(r[i] == part[i]);
                if h != g {
                    lemma_fullest_first(taken, k, g, y);
                }
                assert(open_blocks(taken, k, g as int).contains(y));
                assert(whole.contains(y));
                let p = choose|p: int| 0 <= p < whole.len() && whole[p] == y;
                assert(part[i] == whole[i]);
                assert(p < i) by {
                    if p > i {
                        assert(whole[i] < whole[p]);
                    }
                }
                assert(r[p] == y);
            } else {
                let x = rest[i - part.len()];
                assert(r[i] == x);
                let e = x as int / k as int;
                assert(e != g);
                if h == g {
                    assert(open_blocks(taken, k, g as int).contains(y));
                    assert(whole.contains(y));
                    let p = choose|p: int| 0 <= p < whole.len() && whole[p] == y;
                    assert(r[p] == y);
                } else {
                    lemma_fill_group(taken, k, g, y);
                    assert(room(after, k, h) == room(taken, k, h));
                    assert(room(after, k, e) == room(taken, k, e));
                    assert(taken_before(after, k, y, rest[i - part.len()]));
                    assert(rest.contains(y));
                    let p = choose|p: int| 0 <= p < rest.len() && rest[p] == y;
                    assert(r[part.len() + p] == y);
                }
            }
        }
        assert forall|i: int, j: int| 0 <= i < j < r.len() implies taken_before(
            taken,
            k,
            #[trigger] r[i],
            #[trigger] r[j],
        ) by {
            if j < part.len() {
                assert(r[i] == whole[i] && r[j] == whole[j]);
                assert(part[i] == r[i] && part[j] == r[j]);
            } else {
                let y = rest[j - part.len()];
                assert(r[j] == y);
                if i < part.len() {
                    assert(r[i] == part[i]);
                    lemma_fullest_first(taken, k, g, y);
                } else {
                    let x = rest[i - part.len()];
                    assert(r[i] == x);
                    assert(taken_before(after, k, x, y));
                    let (e, h) = (x as int / k as int, y as int / k as int);
                    assert(room(after, k, h) == room(taken, k, h));
                    assert(room(after, k, e) == room(taken, k, e));
                }
            }
        }
    }
}

/// A job that fits in a group lies in one: in one with the least room for it, in the first of those, and
/// there in the first blocks that can be had.
pub proof fn lemma_fitting_group(taken: Seq<bool>, k: nat, need: nat, blocks: Seq<usize>, g: int)
    requires
        k > 0,
        taken.len() <= usize::MAX,
        need > 0,
        block_choice(taken, k, need) == Some(blocks),
        room(taken, k, g) >= need,
    ensures
        exists|h: int|
            {
                &&& #[trigger] room(taken, k, h) >= need
                &&& room(taken, k, h) <= room(taken, k, g)
                &&& room(taken, k, h) == room(taken, k, g) ==> h <= g
                &&& forall|i: int| 0 <= i < blocks.len() ==> open_blocks(taken, k, h).contains(#[trigger] blocks[i])
            },
        blocks.len() == need,
        forall|i: int, j: int| 0 <= i < j < blocks.len() ==> blocks[i] < blocks[j],
        forall|i: int, y: usize|
            0 <= i < blocks.len() && is_open(taken, y) && y as int / k as int == (#[trigger] blocks[i]) as int / k as int
                && y < blocks[i] ==> #[trigger] blocks.contains(y),
{
    let groups = group_count(taken.len(), k);
    let counts = free_counts(taken, k, groups);
    lemma_best_fit(counts, need, groups);
    assert(open_blocks(taken, k, g).len() > 0);
    let b = open_blocks(taken, k, g).choose();
    assert(open_blocks(taken, k, g).contains(b)) by {
        if open_blocks(taken, k, g).finite() {
            vstd::set_lib::lemma_set_empty_equivalency_len(open_blocks(taken, k, g));
        }
        assert(!(open_blocks(taken, k, g) =~= Set::<usize>::empty()));
    }
    lemma_open_group(taken, k, b);
    lemma_open_blocks(taken, k, g as nat);
    assert(counts[g] == room(taken, k, g));
    let h = best_fit(counts, need, groups)->0;
    lemma_open_blocks(taken, k, h);
    assert(counts[h as int] == room(taken, k, h as int));
    let whole = group_free(taken, k, h);
    assert(blocks == whole.take(need as int));
    assert forall|i: int| 0 <= i < blocks.len() implies open_blocks(taken, k, h as int).contains(#[trigger] blocks[i]) by {
        assert(blocks[i] == whole[i]);
        assert(whole.contains(whole[i]));
    }
    assert forall|i: int, y: usize|
        0 <= i < blocks.len() && is_open(taken, y) && y as int / k as int == (#[trigger] blocks[i]) as int / k as int
            && y < blocks[i] implies #[trigger] blocks.contains(y) by {
        assert(open_blocks(taken, k, h as int).contains(blocks[i]));
        assert(open_blocks(taken, k, h as int).contains(y));
        assert(whole.contains(y));
        let p = choose|p: int| 0 <= p < whole.len() && whole[p] == y;
        assert(blocks[i] == whole[i]);
        assert(p < i) by {
            if p > i {
                assert(whole[i] < whole[p]);
            }
        }
        assert(blocks[p] == y);
    }
    assert(room(taken, k, h as int) >= need);
}

/// A job that fits in no group takes all that can be had in the groups with the most room, one group after
/// the other, and of the last the first blocks.
pub proof fn lemma_spread_over_groups(taken: Seq<bool>, k: nat, need: nat, blocks: Seq<usize>)
    requires
        k > 0,
        taken.len() <= usize::MAX,
        block_choice(taken, k, need) == Some(blocks),
        forall|g: int| #[trigger] room(taken, k, g) < need,
    ensures
        blocks.len() == need,
        are_first(taken, k, blocks),
{
    let groups = group_count(taken.len(), k);
    let counts = free_counts(taken, k, groups);
    lemma_best_fit(counts, need, groups);
    if best_fit(counts, need, groups) is Some {
        let h = best_fit(counts, need, groups)->0;
        lemma_open_blocks(taken, k, h);
        assert(counts[h as int] == room(taken, k, h as int));
        assert(false);
    }
    lemma_greedy(taken, k, need);
    lemma_greedy_first(taken, k, need);
}

/// A job is spread over as few groups as can be: where it lies in a group, it takes all that can be had in
/// each group with more room, unless it fits in one.
pub proof fn lemma_roomier_groups_first(taken: Seq<bool>, k: nat, need: nat, blocks: Seq<usize>, i: int, y: usize)
    requires
        k > 0,
        taken.len() <= usize::MAX,
        block_choice(taken, k, need) == Some(blocks),
        forall|g: int| #[trigger] room(taken, k, g) < need,
        0 <= i < blocks.len(),
        is_open(taken, y),
        room(taken, k, y as int / k as int) > room(taken, k, blocks[i] as int / k as int),
    ensures
        blocks.contains(y),
{
    lemma_spread_over_groups(taken, k, need, blocks);
    assert(taken_before(taken, k, y, blocks[i]));
}

/// There are blocks for a job whenever as many can be had as it needs.
pub proof fn lemma_room_suffices(taken: Seq<bool>, k: nat, need: nat)
    requires
        k > 0,
        taken.len() <= usize::MAX,
        need > 0,
    ensures
        block_choice(taken, k, need) is Some == (Set::new(|b: usize| is_open(taken, b)).len() >= need),
{
    let list = all_free(taken);
    lemma_free_between(taken, 0, taken.len());
    let all = Set::new(|b: usize| is_open(taken, b));
    assert(list.to_set() =~= all) by {
        assert forall|b: usize| list.to_set().contains(b) == all.contains(b) by {
            if is_open(taken, b) {
                let x = b as int;
                assert(list.contains(x as usize));
            }
            if list.contains(b) {
                let i = choose|i: int| 0 <= i < list.len() && list[i] == b;
                assert(list[i] < taken.len() && !taken[list[i] as int]);
            }
        }
    }
    list.unique_seq_to_set();
}

} // verus!
