//! What the alternatives for a job promise.

use vstd::prelude::*;

use crate::schedulers::candidates::{
    alternatives, complete, distinct_groups, goes_before, group_lists, in_order, lemma_group_count, lemma_in_order,
    lemma_room_order, nonempty_groups, over_groups, room_order, rotations, several_groups, single_group, some_of, spread,
    with_alternative, with_group, with_rotations,
};
use crate::schedulers::cassini_block::{
    busy_between, last_best, load_beside, tor_end, tors_used, PlacementScorer, RatedBlockScheduler,
};
use crate::schedulers::packing::{all_free, free_counts, group_count, group_free, lemma_free_between};
use crate::schedulers::pods::{in_pod, pod_at};
use crate::schedulers::spread::{is_open, lemma_open_blocks, lemma_open_group, open_blocks, room};
use crate::simulator::job_scheduler::JobScheduler;
use crate::simulator::ml_job::ascending;
use crate::simulator::ml_worker::JobId;
use crate::simulator::progress::lemma_ascending_lists;

verus! {

/// The blocks lie in a group that has room for them.
pub open spec fn is_within(taken: Seq<bool>, k: nat, need: nat, blocks: Seq<usize>) -> bool {
    &&& blocks.len() == need
    &&& in_pod(k, blocks, pod_at(k, blocks[0]))
    &&& room(taken, k, pod_at(k, blocks[0])) >= need
    &&& forall|i: int| 0 <= i < blocks.len() ==> is_open(taken, #[trigger] blocks[i])
}

/// Alternatives that have been found in groups with at most so much room, those with less room first.
spec fn are_within(taken: Seq<bool>, k: nat, need: nat, list: Seq<Seq<usize>>, most: nat) -> bool {
    &&& forall|i: int|
        0 <= i < list.len() ==> is_within(taken, k, need, #[trigger] list[i]) && room(taken, k, pod_at(k, list[i][0])) <= most
    &&& forall|i: int, j: int|
        0 <= i < j < list.len() ==> room(taken, k, pod_at(k, (#[trigger] list[i])[0])) <= room(
            taken,
            k,
            pod_at(k, (#[trigger] list[j])[0]),
        )
}

proof fn lemma_part_within(taken: Seq<bool>, k: nat, g: nat, need: nat, part: Seq<usize>, from: int)
    requires
        k > 0,
        need > 0,
        taken.len() <= usize::MAX,
        g < group_count(taken.len(), k),
        group_free(taken, k, g).len() >= need,
        0 <= from <= group_free(taken, k, g).len() - need,
        part.len() == need,
        forall|i: int| 0 <= i < need ==> #[trigger] part[i] == group_free(taken, k, g)[from + i],
    ensures
        is_within(taken, k, need, part),
        pod_at(k, part[0]) == g,
{
    lemma_open_blocks(taken, k, g);
    let free = group_free(taken, k, g);
    assert forall|i: int| 0 <= i < part.len() implies is_open(taken, #[trigger] part[i]) && pod_at(k, part[i]) == g by {
        assert(part[i] == free[from + i]);
        assert(free.contains(free[from + i]));
        assert(open_blocks(taken, k, g as int).contains(part[i]));
    }
}

proof fn lemma_added_within(taken: Seq<bool>, k: nat, need: nat, list: Seq<Seq<usize>>, part: Seq<usize>, most: nat)
    requires
        are_within(taken, k, need, list, most),
        is_within(taken, k, need, part),
        room(taken, k, pod_at(k, part[0])) == most,
    ensures
        are_within(taken, k, need, with_alternative(list, Some(part)), most),
{
}

proof fn lemma_with_group(taken: Seq<bool>, k: nat, g: nat, need: nat, max: nat, list: Seq<Seq<usize>>, most: nat)
    requires
        k > 0,
        need > 0,
        taken.len() <= usize::MAX,
        g < group_count(taken.len(), k),
        group_free(taken, k, g).len() >= need,
        are_within(taken, k, need, list, most),
        most <= room(taken, k, g as int),
    ensures
        are_within(taken, k, need, with_group(list, group_free(taken, k, g), need, max), room(taken, k, g as int)),
{
    let free = group_free(taken, k, g);
    let m = room(taken, k, g as int);
    assert(are_within(taken, k, need, list, m));
    let first = free.take(need as int);
    lemma_part_within(taken, k, g, need, first, 0);
    let l1 = with_alternative(list, Some(first));
    lemma_added_within(taken, k, need, list, first, m);
    let last = free.skip(free.len() - need);
    lemma_part_within(taken, k, g, need, last, free.len() - need);
    lemma_added_within(taken, k, need, l1, last, m);
    if free.len() > need {
        let next = free.subrange(1, need + 1int);
        lemma_part_within(taken, k, g, need, next, 1);
        lemma_added_within(taken, k, need, with_alternative(l1, Some(last)), next, m);
    }
}

proof fn lemma_single_group(taken: Seq<bool>, k: nat, order: Seq<usize>, need: nat, max: nat, n: nat)
    requires
        k > 0,
        need > 0,
        taken.len() <= usize::MAX,
        n <= order.len(),
        forall|i: int|
            0 <= i < order.len() ==> (#[trigger] order[i]) < group_count(taken.len(), k) && room(taken, k, order[i] as int)
                >= need,
        forall|i: int, j: int|
            0 <= i < j < order.len() ==> room(taken, k, #[trigger] order[i] as int) <= room(taken, k, #[trigger] order[j] as int),
    ensures
        are_within(
            taken,
            k,
            need,
            single_group(taken, k, order, need, max, n),
            if n == 0 {
                0
            } else {
                room(taken, k, order[n - 1] as int)
            },
        ),
        n > 0 && max > 0 ==> {
            let list = single_group(taken, k, order, need, max, n);
            list.len() > 0 && list[0] == group_free(taken, k, order[0] as nat).take(need as int)
        },
    decreases n,
{
    if n > 0 {
        lemma_single_group(taken, k, order, need, max, (n - 1) as nat);
        let g = order[n - 1] as nat;
        lemma_open_blocks(taken, k, g);
        let before = single_group(taken, k, order, need, max, (n - 1) as nat);
        let most = if n == 1 {
            0
        } else {
            room(taken, k, order[n - 2] as int)
        };
        assert(most <= room(taken, k, g as int)) by {
            if n > 1 {
                assert(room(taken, k, order[n - 2] as int) <= room(taken, k, order[n - 1] as int));
            }
        }
        lemma_with_group(taken, k, g, need, max, before, most);
    }
}

proof fn lemma_fitting(taken: Seq<bool>, k: nat, need: nat)
    requires
        k > 0,
        need > 0,
        taken.len() <= usize::MAX,
    ensures
        ({
            let groups = group_count(taken.len(), k);
            let order = room_order(free_counts(taken, k, groups), need, false, groups);
            &&& forall|i: int|
                0 <= i < order.len() ==> (#[trigger] order[i]) < groups && room(taken, k, order[i] as int) >= need
            &&& forall|i: int, j: int|
                0 <= i < j < order.len() ==> room(taken, k, #[trigger] order[i] as int) <= room(
                    taken,
                    k,
                    #[trigger] order[j] as int,
                )
            &&& forall|g: int| #[trigger] room(taken, k, g) >= need ==> order.contains(g as usize) && 0 <= g < groups
            &&& groups <= taken.len()
        }),
{
    let groups = group_count(taken.len(), k);
    let counts = free_counts(taken, k, groups);
    let order = room_order(counts, need, false, groups);
    lemma_group_count(taken.len(), k);
    lemma_room_order(counts, need, false, groups);
    assert forall|g: int| 0 <= g < groups implies #[trigger] counts[g] == room(taken, k, g) by {
        lemma_open_blocks(taken, k, g as nat);
    }
    assert forall|i: int| 0 <= i < order.len() implies (#[trigger] order[i]) < groups && room(taken, k, order[i] as int) >= need by {
        assert(order.contains(order[i]));
        assert(counts[order[i] as int] == room(taken, k, order[i] as int));
    }
    assert forall|i: int, j: int| 0 <= i < j < order.len() implies room(taken, k, #[trigger] order[i] as int) <= room(
        taken,
        k,
        #[trigger] order[j] as int,
    ) by {
        assert(order[i] < groups && order[j] < groups);
        assert(goes_before(counts[order[i] as int], counts[order[j] as int], false));
        assert(counts[order[i] as int] == room(taken, k, order[i] as int));
        assert(counts[order[j] as int] == room(taken, k, order[j] as int));
    }
    assert forall|g: int| #[trigger] room(taken, k, g) >= need implies order.contains(g as usize) && 0 <= g < groups by {
        let s = open_blocks(taken, k, g);
        assert(s.len() > 0);
        assert(exists|b: usize| s.contains(b)) by {
            if forall|b: usize| !s.contains(b) {
                assert(s =~= Set::empty());
            }
        }
        let b = choose|b: usize| s.contains(b);
        lemma_open_group(taken, k, b);
        assert(counts[g] == room(taken, k, g));
    }
}

/// If the job fits below a switch, each alternative lies below one with room for it, those with the least room come
/// first, and the first alternative is on the first free blocks below a switch with the least room.
pub proof fn lemma_alternatives_within(taken: Seq<bool>, k: nat, need: nat, max: nat, g: int)
    requires
        k > 0,
        need > 0,
        taken.len() <= usize::MAX,
        room(taken, k, g) >= need,
    ensures
        ({
            let list = alternatives(taken, k, need, max);
            &&& max > 0 ==> list.len() > 0
            &&& forall|i: int| 0 <= i < list.len() ==> is_within(taken, k, need, #[trigger] list[i])
            &&& forall|i: int, j: int|
                0 <= i < j < list.len() ==> room(taken, k, pod_at(k, (#[trigger] list[i])[0])) <= room(
                    taken,
                    k,
                    pod_at(k, (#[trigger] list[j])[0]),
                )
            &&& max > 0 ==> room(taken, k, pod_at(k, list[0][0])) <= room(taken, k, g)
            &&& max > 0 ==> forall|i: int, y: usize|
                0 <= i < need && is_open(taken, y) && pod_at(k, y) == pod_at(k, list[0][0]) && y < #[trigger] list[0][i]
                    ==> #[trigger] list[0].contains(y)
        }),
{
    let groups = group_count(taken.len(), k);
    let order = room_order(free_counts(taken, k, groups), need, false, groups);
    let list = alternatives(taken, k, need, max);
    lemma_fitting(taken, k, need);
    assert(room(taken, k, g) >= need);
    let x = choose|x: int| 0 <= x < order.len() && order[x] == g as usize;
    lemma_enough_free(taken, k, need, g);
    lemma_single_group(taken, k, order, need, max, order.len());
    if max > 0 {
        let f = order[0] as nat;
        let free = group_free(taken, k, f);
        lemma_open_blocks(taken, k, f);
        lemma_part_within(taken, k, f, need, list[0], 0);
        if x > 0 {
            assert(room(taken, k, order[0] as int) <= room(taken, k, order[x] as int));
        }
        assert forall|i: int, y: usize|
            0 <= i < need && is_open(taken, y) && pod_at(k, y) == pod_at(k, list[0][0]) && y < #[trigger] list[0][i] implies #[trigger] list[0].contains(
            y,
        ) by {
            assert(open_blocks(taken, k, f as int).contains(y));
            assert(free.contains(y));
            let j = choose|j: int| 0 <= j < free.len() && free[j] == y;
            assert(free[i] == list[0][i]);
            if j > i {
                assert(free[i] < free[j]);
            }
            assert(list[0][j] == y);
        }
    }
}

/// A group with room has that many free blocks, and there are no fewer in all.
proof fn lemma_enough_free(taken: Seq<bool>, k: nat, need: nat, g: int)
    requires
        k > 0,
        need > 0,
        taken.len() <= usize::MAX,
        room(taken, k, g) >= need,
    ensures
        all_free(taken).len() >= need,
{
    lemma_fitting(taken, k, need);
    let groups = group_count(taken.len(), k);
    assert(0 <= g < groups);
    lemma_open_blocks(taken, k, g as nat);
    let part = group_free(taken, k, g as nat);
    let all = all_free(taken);
    lemma_free_between(taken, 0, taken.len());
    assert(part.to_set().subset_of(all.to_set())) by {
        assert forall|b: usize| part.to_set().contains(b) implies all.to_set().contains(b) by {
            assert(part.contains(b));
            assert(open_blocks(taken, k, g).contains(b));
            let x = b as int;
            assert(all.contains(x as usize));
        }
    }
    part.unique_seq_to_set();
    all.unique_seq_to_set();
    vstd::set_lib::lemma_len_subset(part.to_set(), all.to_set());
}

/// The blocks of the group are among the chosen.
spec fn is_used_up(taken: Seq<bool>, k: nat, g: int, blocks: Seq<usize>) -> bool {
    forall|b: usize| #[trigger] open_blocks(taken, k, g).contains(b) ==> blocks.contains(b)
}

proof fn lemma_in_order_full(taken: Seq<bool>, k: nat, order: Seq<usize>, need: nat, last_fit: bool, n: nat)
    requires
        k > 0,
        taken.len() <= usize::MAX,
        n <= order.len(),
        distinct_groups(order, group_count(taken.len(), k)),
    ensures
        ({
            let r = in_order(taken, k, order, need, last_fit, n);
            &&& forall|b: usize|
                #[trigger] r.contains(b) ==> is_open(taken, b) && order.take(n as int).contains(pod_at(k, b) as usize)
            &&& forall|b: usize, x: int, y: int|
                0 <= y < x < n && #[trigger] r.contains(b) && pod_at(k, b) == #[trigger] order[x] ==> is_used_up(
                    taken,
                    k,
                    #[trigger] order[y] as int,
                    r,
                )
            &&& r.len() < need ==> forall|y: int| 0 <= y < n ==> is_used_up(taken, k, #[trigger] order[y] as int, r)
        }),
    decreases n,
{
    if n > 0 {
        lemma_in_order_full(taken, k, order, need, last_fit, (n - 1) as nat);
        let before = in_order(taken, k, order, need, last_fit, (n - 1) as nat);
        let r = in_order(taken, k, order, need, last_fit, n);
        let g = order[n - 1] as nat;
        let free = group_free(taken, k, g);
        let part = some_of(free, need - before.len(), last_fit);
        lemma_open_blocks(taken, k, g);
        let (now, earlier) = (order.take(n as int), order.take(n - 1));
        assert forall|b: usize| before.contains(b) implies #[trigger] r.contains(b) by {
            let i = choose|i: int| 0 <= i < before.len() && before[i] == b;
            assert(r[i] == b);
        }
        assert forall|b: usize| #[trigger] r.contains(b) implies before.contains(b) || open_blocks(taken, k, g as int).contains(b) by {
            let i = choose|i: int| 0 <= i < r.len() && r[i] == b;
            if i < before.len() {
                assert(before[i] == b);
            } else {
                assert(part[i - before.len()] == b);
                if last_fit {
                    assert(free.reverse()[i - before.len()] == b);
                    assert(free[free.len() - 1 - (i - before.len())] == b);
                }
                assert(free.contains(b));
            }
        }
        assert forall|b: usize| #[trigger] r.contains(b) implies is_open(taken, b) && now.contains(pod_at(k, b) as usize) by {
            if before.contains(b) {
                let i = choose|i: int| 0 <= i < earlier.len() && earlier[i] == pod_at(k, b) as usize;
                assert(now[i] == pod_at(k, b) as usize);
            } else {
                assert(now[n - 1] == pod_at(k, b) as usize);
            }
        }
        assert forall|b: usize, x: int, y: int|
            0 <= y < x < n && #[trigger] r.contains(b) && pod_at(k, b) == #[trigger] order[x] implies is_used_up(
            taken,
            k,
            #[trigger] order[y] as int,
            r,
        ) by {
            if x < n - 1 {
                if !before.contains(b) {
                    assert(pod_at(k, b) == g);
                    assert(order[x] == order[n - 1]);
                }
                assert(is_used_up(taken, k, order[y] as int, before));
            } else {
                if before.len() >= need {
                    assert(part.len() == 0);
                    assert(r =~= before);
                    assert(earlier.contains(pod_at(k, b) as usize));
                    let i = choose|i: int| 0 <= i < earlier.len() && earlier[i] == pod_at(k, b) as usize;
                    assert(order[i] == order[n - 1]);
                }
                assert(is_used_up(taken, k, order[y] as int, before));
            }
        }
        if r.len() < need {
            assert forall|y: int| 0 <= y < n implies is_used_up(taken, k, #[trigger] order[y] as int, r) by {
                if y < n - 1 {
                    assert(is_used_up(taken, k, order[y] as int, before));
                } else {
                    assert forall|b: usize| #[trigger] open_blocks(taken, k, g as int).contains(b) implies r.contains(b) by {
                        assert(free.contains(b));
                        let i = choose|i: int| 0 <= i < free.len() && free[i] == b;
                        if last_fit {
                            assert(part[free.len() - 1 - i] == b);
                            assert(r[before.len() + (free.len() - 1 - i)] == b);
                        } else {
                            assert(part[i] == b);
                            assert(r[before.len() + i] == b);
                        }
                    }
                }
            }
        }
    }
}

/// A job that fits below no switch has, as its first alternative, blocks below the switches with the most free blocks:
/// all of them below a switch, before any below one with fewer.
pub proof fn lemma_first_spread(taken: Seq<bool>, k: nat, need: nat, max: nat)
    requires
        k > 0,
        need > 0,
        max > 0,
        taken.len() <= usize::MAX,
        all_free(taken).len() >= need,
        forall|g: int| #[trigger] room(taken, k, g) < need,
    ensures
        ({
            let list = alternatives(taken, k, need, max);
            &&& list.len() > 0
            &&& list[0].len() == need
            &&& forall|i: int, y: usize|
                0 <= i < need && is_open(taken, y) && room(taken, k, pod_at(k, y)) > room(
                    taken,
                    k,
                    pod_at(k, #[trigger] list[0][i]),
                ) ==> #[trigger] list[0].contains(y)
        }),
{
    let groups = group_count(taken.len(), k);
    let counts = free_counts(taken, k, groups);
    lemma_fitting(taken, k, need);
    let fitting = room_order(counts, need, false, groups);
    if fitting.len() > 0 {
        assert(room(taken, k, fitting[0] as int) >= need);
    }
    let order = room_order(counts, 0, true, groups);
    lemma_room_order(counts, 0, true, groups);
    lemma_in_order_full(taken, k, order, need, false, order.len());
    lemma_in_order(taken, k, order, need, false, order.len());
    assert forall|g: int| 0 <= g < groups implies #[trigger] counts[g] == room(taken, k, g) by {
        lemma_open_blocks(taken, k, g as nat);
    }
    let r = in_order(taken, k, order, need, false, order.len());
    assert forall|b: usize| #[trigger] is_open(taken, b) implies order.contains(pod_at(k, b) as usize) by {
        lemma_open_group(taken, k, b);
        assert(counts[pod_at(k, b)] == room(taken, k, pod_at(k, b)));
    }
    assert(r.len() == need) by {
        if r.len() < need {
            let all = all_free(taken);
            lemma_free_between(taken, 0, taken.len());
            assert(all.to_set().subset_of(r.to_set())) by {
                assert forall|b: usize| all.to_set().contains(b) implies r.to_set().contains(b) by {
                    let i = choose|i: int| 0 <= i < all.len() && all[i] == b;
                    assert(all[i] < taken.len() && !taken[all[i] as int]);
                    assert(is_open(taken, b));
                    lemma_open_group(taken, k, b);
                    assert(order.contains(pod_at(k, b) as usize));
                    let y = choose|y: int| 0 <= y < order.len() && order[y] == pod_at(k, b) as usize;
                    assert(is_used_up(taken, k, order[y] as int, r));
                    assert(open_blocks(taken, k, order[y] as int).contains(b));
                }
            }
            all.unique_seq_to_set();
            vstd::seq_lib::seq_to_set_is_finite(r);
            r.lemma_cardinality_of_set();
            vstd::set_lib::lemma_len_subset(all.to_set(), r.to_set());
        }
    }
    let list = alternatives(taken, k, need, max);
    let first = ascending(r.to_set());
    vstd::seq_lib::seq_to_set_is_finite(r);
    lemma_ascending_lists(r.to_set());
    assert(over_groups(taken, k, order, need, false) == Some(first));
    lemma_first_kept(taken, k, need, max, first);
    assert(list[0] == first);
    assert(first.len() == need) by {
        assert(first.no_duplicates());
        first.unique_seq_to_set();
        r.unique_seq_to_set();
    }
    assert forall|i: int, y: usize|
        0 <= i < need && is_open(taken, y) && room(taken, k, pod_at(k, y)) > room(taken, k, pod_at(k, #[trigger] first[i])) implies #[trigger] first.contains(
        y,
    ) by {
        let b = first[i];
        assert(first.to_set().contains(b));
        assert(r.contains(b));
        assert(order.take(order.len() as int) =~= order);
        lemma_open_group(taken, k, b);
        lemma_open_group(taken, k, y);
        let x = choose|x: int| 0 <= x < order.len() && order[x] == pod_at(k, b) as usize;
        assert(order.contains(pod_at(k, y) as usize));
        let z = choose|z: int| 0 <= z < order.len() && order[z] == pod_at(k, y) as usize;
        assert(counts[order[x] as int] == room(taken, k, pod_at(k, b)));
        assert(counts[order[z] as int] == room(taken, k, pod_at(k, y)));
        if x < z {
            assert(goes_before(counts[order[x] as int], counts[order[z] as int], true));
        }
        assert(z < x);
        assert(is_used_up(taken, k, order[z] as int, r));
        assert(open_blocks(taken, k, order[z] as int).contains(y));
        assert(r.to_set().contains(y));
    }
}

/// The first alternative stays the first.
proof fn lemma_first_kept(taken: Seq<bool>, k: nat, need: nat, max: nat, first: Seq<usize>)
    requires
        max > 0,
        over_groups(
            taken,
            k,
            room_order(free_counts(taken, k, group_count(taken.len(), k)), 0, true, group_count(taken.len(), k)),
            need,
            false,
        ) == Some(first),
    ensures
        several_groups(taken, k, need, max).len() > 0,
        several_groups(taken, k, need, max)[0] == first,
{
    let groups = group_count(taken.len(), k);
    let counts = free_counts(taken, k, groups);
    let by_room = room_order(counts, 0, true, groups);
    let in_turn = nonempty_groups(counts, groups);
    let l1 = with_alternative(Seq::empty(), over_groups(taken, k, by_room, need, false));
    assert(l1 =~= seq![first]);
    let l2 = with_alternative(l1, over_groups(taken, k, by_room, need, true));
    let l3 = with_alternative(
        l2,
        complete(
            spread(group_lists(taken, k, in_turn), need),
            need,
        ),
    );
    if l1.len() < max && l2.len() < max && l3.len() < max {
        lemma_rotations_keep(
            l3,
            taken,
            k,
            in_turn,
            need,
            max,
            rotations(in_turn.len(), max, l3.len()),
        );
    }
}

proof fn lemma_rotations_keep(
    list: Seq<Seq<usize>>,
    taken: Seq<bool>,
    k: nat,
    order: Seq<usize>,
    need: nat,
    max: nat,
    n: nat,
)
    requires
        list.len() > 0,
    ensures
        with_rotations(list, taken, k, order, need, max, n).len() > 0,
        with_rotations(list, taken, k, order, need, max, n)[0] == list[0],
    decreases n,
{
    if n > 0 {
        lemma_rotations_keep(list, taken, k, order, need, max, (n - 1) as nat);
    }
}

/// The busy hosts below a switch.
pub open spec fn busy_below(busy: Seq<bool>, hosts_per_tor: nat, tor: int) -> Set<int> {
    Set::new(|h: int| 0 <= h < busy.len() && busy[h] && h / hosts_per_tor as int == tor)
}

proof fn lemma_busy_between(busy: Seq<bool>, lo: nat, hi: nat)
    requires
        hi <= busy.len(),
    ensures
        Set::new(|h: int| lo <= h < hi && busy[h]).finite(),
        Set::new(|h: int| lo <= h < hi && busy[h]).len() == busy_between(busy, lo, hi),
    decreases hi,
{
    let s = Set::new(|h: int| lo <= h < hi && busy[h]);
    if hi <= lo {
        assert(s =~= Set::empty());
    } else {
        lemma_busy_between(busy, lo, (hi - 1) as nat);
        let before = Set::new(|h: int| lo <= h < (hi - 1) as nat && busy[h]);
        if busy[hi - 1] {
            assert(s =~= before.insert(hi - 1));
        } else {
            assert(s =~= before);
        }
    }
}

/// The load beside a placement is, for each switch that it uses, by their numbers, how many hosts below it are busy.
pub proof fn lemma_load_beside(hosts: Seq<usize>, busy: Seq<bool>, hosts_per_tor: nat)
    requires
        hosts_per_tor > 0,
        busy.len() <= usize::MAX,
        forall|i: int| 0 <= i < hosts.len() ==> (#[trigger] hosts[i]) < busy.len(),
    ensures
        ({
            let tors = ascending(tors_used(hosts, hosts_per_tor));
            let load = load_beside(hosts, busy, hosts_per_tor);
            &&& load.len() == tors.len()
            &&& forall|x: int, y: int| 0 <= x < y < tors.len() ==> tors[x] < tors[y]
            &&& forall|i: int|
                0 <= i < hosts.len() ==> tors.contains(((#[trigger] hosts[i]) as int / hosts_per_tor as int) as usize)
            &&& forall|x: int| 0 <= x < tors.len() ==> #[trigger] load[x] == busy_below(busy, hosts_per_tor, tors[x] as int).len()
        }),
{
    let used = tors_used(hosts, hosts_per_tor);
    let k = hosts_per_tor as int;
    lemma_tors_finite(hosts, hosts_per_tor);
    lemma_ascending_lists(used);
    let tors = ascending(used);
    let load = load_beside(hosts, busy, hosts_per_tor);
    assert forall|i: int| 0 <= i < hosts.len() implies tors.contains(((#[trigger] hosts[i]) as int / k) as usize) by {
        vstd::arithmetic::div_mod::lemma_div_is_ordered_by_denominator(hosts[i] as int, 1, k);
        vstd::arithmetic::div_mod::lemma_div_basics_2(hosts[i] as int);
        vstd::arithmetic::div_mod::lemma_div_pos_is_pos(hosts[i] as int, k);
        assert(used.contains((hosts[i] as int / k) as usize));
    }
    assert forall|x: int| 0 <= x < tors.len() implies #[trigger] load[x] == busy_below(busy, hosts_per_tor, tors[x] as int).len() by {
        let t = tors[x] as int;
        assert(tors.to_set().contains(tors[x]));
        assert(used.contains(tors[x]));
        let i = choose|i: int| 0 <= i < hosts.len() && (#[trigger] hosts[i]) as int / k == t;
        let lo = (tors[x] as nat * hosts_per_tor) as nat;
        let hi = tor_end(busy.len(), hosts_per_tor, tors[x] as nat);
        lemma_busy_between(busy, lo, hi);
        let s = Set::new(|h: int| lo <= h < hi && busy[h]);
        assert(s =~= busy_below(busy, hosts_per_tor, t)) by {
            assert forall|h: int| s.contains(h) == busy_below(busy, hosts_per_tor, t).contains(h) by {
                vstd::arithmetic::div_mod::lemma_fundamental_div_mod(h, k);
                let q = h / k;
                if q == t {
                    assert(t * k <= h < t * k + k) by (nonlinear_arith)
                        requires
                            h == k * q + h % k,
                            0 <= h % k < k,
                            q == t,
                    ;
                }
                if t * k <= h < t * k + k {
                    vstd::arithmetic::div_mod::lemma_fundamental_div_mod_converse(h, k, t, h - t * k);
                }
                assert(lo == t * k);
            }
        }
        let range = vstd::set_lib::set_int_range(0, busy.len() as int);
        vstd::set_lib::lemma_int_range(0, busy.len() as int);
        vstd::set_lib::lemma_len_subset(s, range);
    }
}

proof fn lemma_tors_finite(hosts: Seq<usize>, hosts_per_tor: nat)
    requires
        hosts_per_tor > 0,
    ensures
        tors_used(hosts, hosts_per_tor).finite(),
{
    let k = hosts_per_tor as int;
    let list = hosts.map_values(|h: usize| (h as int / k) as usize);
    vstd::seq_lib::seq_to_set_is_finite(list);
    assert(tors_used(hosts, hosts_per_tor).subset_of(list.to_set())) by {
        assert forall|t: usize| tors_used(hosts, hosts_per_tor).contains(t) implies list.to_set().contains(t) by {
            let i = choose|i: int| 0 <= i < hosts.len() && (#[trigger] hosts[i]) as int / k == t;
            assert(list[i] == t);
        }
    }
    vstd::set_lib::lemma_set_subset_finite(list.to_set(), tors_used(hosts, hosts_per_tor));
}

/// A job goes to one of its alternatives, and no other of them has a better rating for the load beside it.
pub proof fn lemma_best_rated<P: PlacementScorer>(
    s: &RatedBlockScheduler<P>,
    job_id: JobId,
    num_workers: usize,
    busy: Seq<bool>,
    hosts: Seq<usize>,
)
    requires
        s.chooses(job_id, num_workers, busy, hosts),
    ensures
        s.host_choices(num_workers, busy).contains(hosts),
        forall|k: int|
            0 <= k < s.host_choices(num_workers, busy).len() ==> s.scorer.rating(
                load_beside(#[trigger] s.host_choices(num_workers, busy)[k], busy, s.inner.hosts_per_tor as nat),
                num_workers,
                s.inner.hosts_per_tor,
            ) <= s.scorer.rating(
                load_beside(hosts, busy, s.inner.hosts_per_tor as nat),
                num_workers,
                s.inner.hosts_per_tor,
            ),
{
    let all = s.host_choices(num_workers, busy);
    let scores = s.ratings(num_workers, busy);
    let i = choose|i: int| #[trigger] last_best(scores, i) && hosts == all[i];
    assert(all[i] == hosts);
    assert forall|k: int| 0 <= k < all.len() implies s.scorer.rating(
        load_beside(#[trigger] all[k], busy, s.inner.hosts_per_tor as nat),
        num_workers,
        s.inner.hosts_per_tor,
    ) <= s.scorer.rating(load_beside(hosts, busy, s.inner.hosts_per_tor as nat), num_workers, s.inner.hosts_per_tor) by {
        assert(scores[k] <= scores[i]);
    }
}

} // verus!
