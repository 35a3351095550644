//! Alternatives for the placement of a job by blocks, and how they are enumerated.

use vstd::arithmetic::div_mod::lemma_fundamental_div_mod_converse;
use vstd::multiset::Multiset;
use vstd::prelude::*;

use crate::schedulers::packing::{
    all_free, count_free, free_counts, group_count, group_end, group_free, lemma_block_group, lemma_free_between,
    lemma_group_bounds, list_free, list_group,
};
use crate::simulator::job_scheduler::free_hosts;
use crate::simulator::ml_job::{ascending, lemma_ascending};
use crate::utils::data::{sort_distinct, strictly_ascending};

verus! {

/// A group with room `a` comes before one with room `b`, or has come before it.
pub open spec fn goes_before(a: nat, b: nat, most_first: bool) -> bool {
    if most_first {
        a >= b
    } else {
        a <= b
    }
}

/// `g` put into an order of groups by room, behind those with equal room.
pub open spec fn insert_group(order: Seq<usize>, counts: Seq<nat>, g: usize, most_first: bool) -> Seq<usize>
    decreases order.len(),
{
    if order.len() == 0 || goes_before(counts[order.last() as int], counts[g as int], most_first) {
        order.push(g)
    } else {
        insert_group(order.drop_last(), counts, g, most_first).push(order.last())
    }
}

/// Those of the first `n` groups that have a free block and room for `need`, ordered by room.
pub open spec fn room_order(counts: Seq<nat>, need: nat, most_first: bool, n: nat) -> Seq<usize>
    decreases n,
{
    if n == 0 {
        Seq::empty()
    } else {
        let rest = room_order(counts, need, most_first, (n - 1) as nat);
        if counts[n - 1] > 0 && counts[n - 1] >= need {
            insert_group(rest, counts, (n - 1) as usize, most_first)
        } else {
            rest
        }
    }
}

/// Those of the first `n` groups that have a free block.
pub open spec fn nonempty_groups(counts: Seq<nat>, n: nat) -> Seq<usize>
    decreases n,
{
    if n == 0 {
        Seq::empty()
    } else if counts[n - 1] > 0 {
        nonempty_groups(counts, (n - 1) as nat).push((n - 1) as usize)
    } else {
        nonempty_groups(counts, (n - 1) as nat)
    }
}

/// Distinct groups.
pub open spec fn distinct_groups(order: Seq<usize>, groups: nat) -> bool {
    &&& order.no_duplicates()
    &&& forall|i: int| 0 <= i < order.len() ==> (#[trigger] order[i]) < groups
}

proof fn lemma_insert_group(order: Seq<usize>, counts: Seq<nat>, g: usize, most_first: bool)
    requires
        order.no_duplicates(),
        !order.contains(g),
        forall|i: int, j: int|
            0 <= i < j < order.len() ==> goes_before(counts[order[i] as int], counts[order[j] as int], most_first),
    ensures
        ({
            let r = insert_group(order, counts, g, most_first);
            &&& r.no_duplicates()
            &&& r.len() == order.len() + 1
            &&& forall|x: usize| r.contains(x) <==> order.contains(x) || x == g
            &&& forall|i: int, j: int|
                0 <= i < j < r.len() ==> goes_before(counts[r[i] as int], counts[r[j] as int], most_first)
        }),
    decreases order.len(),
{
    let r = insert_group(order, counts, g, most_first);
    if order.len() == 0 || goes_before(counts[order.last() as int], counts[g as int], most_first) {
        assert forall|x: usize| r.contains(x) <==> order.contains(x) || x == g by {
            if order.contains(x) {
                let i = choose|i: int| 0 <= i < order.len() && order[i] == x;
                assert(r[i] == x);
            }
            assert(r[order.len() as int] == g);
        }
        assert forall|i: int, j: int| 0 <= i < j < r.len() implies goes_before(
            counts[r[i] as int],
            counts[r[j] as int],
            most_first,
        ) by {
            if j == order.len() && i < order.len() - 1 {
                assert(goes_before(counts[order[i] as int], counts[order.last() as int], most_first));
            }
        }
    } else {
        let front = order.drop_last();
        let last = order.last();
        assert(!front.contains(g)) by {
            if front.contains(g) {
                let i = choose|i: int| 0 <= i < front.len() && front[i] == g;
                assert(order[i] == g);
            }
        }
        assert(!front.contains(last)) by {
            if front.contains(last) {
                let i = choose|i: int| 0 <= i < front.len() && front[i] == last;
                assert(order[i] == order[order.len() - 1]);
            }
        }
        assert(last != g) by {
            assert(order[order.len() - 1] == last);
        }
        lemma_insert_group(front, counts, g, most_first);
        let f = insert_group(front, counts, g, most_first);
        assert forall|x: usize| r.contains(x) <==> order.contains(x) || x == g by {
            if f.contains(x) {
                let i = choose|i: int| 0 <= i < f.len() && f[i] == x;
                assert(r[i] == x);
            }
            assert(r[f.len() as int] == last);
            if order.contains(x) {
                let i = choose|i: int| 0 <= i < order.len() && order[i] == x;
                if i < front.len() {
                    assert(front[i] == x);
                }
            }
            if front.contains(x) {
                let i = choose|i: int| 0 <= i < front.len() && front[i] == x;
                assert(order[i] == x);
            }
        }
        assert(!f.contains(last));
        assert forall|i: int, j: int| 0 <= i < j < r.len() implies goes_before(
            counts[r[i] as int],
            counts[r[j] as int],
            most_first,
        ) by {
            if j == f.len() {
                assert(f.contains(f[i]));
                if f[i] != g {
                    assert(front.contains(f[i]));
                    let m = choose|m: int| 0 <= m < front.len() && front[m] == f[i];
                    assert(goes_before(counts[order[m] as int], counts[order[order.len() - 1] as int], most_first));
                }
            }
        }
        assert(r.no_duplicates()) by {
            assert forall|i: int, j: int| 0 <= i < r.len() && 0 <= j < r.len() && i != j implies r[i] != r[j] by {
                if i < f.len() {
                    assert(f.contains(f[i]));
                }
                if j < f.len() {
                    assert(f.contains(f[j]));
                }
            }
        }
    }
}

/// The order lists each group with enough room once, those with the least room first, or those
/// with the most.
pub proof fn lemma_room_order(counts: Seq<nat>, need: nat, most_first: bool, n: nat)
    requires
        n <= counts.len(),
        n <= usize::MAX,
    ensures
        ({
            let r = room_order(counts, need, most_first, n);
            &&& distinct_groups(r, n)
            &&& forall|g: usize| r.contains(g) <==> g < n && counts[g as int] > 0 && counts[g as int] >= need
            &&& forall|i: int, j: int|
                0 <= i < j < r.len() ==> goes_before(counts[r[i] as int], counts[r[j] as int], most_first)
        }),
    decreases n,
{
    if n > 0 {
        lemma_room_order(counts, need, most_first, (n - 1) as nat);
        let rest = room_order(counts, need, most_first, (n - 1) as nat);
        let r = room_order(counts, need, most_first, n);
        if counts[n - 1] > 0 && counts[n - 1] >= need {
            assert(!rest.contains((n - 1) as usize));
            lemma_insert_group(rest, counts, (n - 1) as usize, most_first);
        }
        assert forall|i: int| 0 <= i < r.len() implies (#[trigger] r[i]) < n by {
            assert(r.contains(r[i]));
        }
    }
}

/// The groups with a free block, each once.
pub proof fn lemma_nonempty_groups(counts: Seq<nat>, n: nat)
    requires
        n <= counts.len(),
        n <= usize::MAX,
    ensures
        distinct_groups(nonempty_groups(counts, n), n),
        forall|i: int|
            0 <= i < nonempty_groups(counts, n).len() ==> counts[(#[trigger] nonempty_groups(counts, n)[i]) as int] > 0,
    decreases n,
{
    if n > 0 {
        lemma_nonempty_groups(counts, (n - 1) as nat);
    }
}

/// The rotation of an order by `by` places.
pub open spec fn rotated(order: Seq<usize>, by: int) -> Seq<usize> {
    order.skip(by) + order.take(by)
}

proof fn lemma_rotated(order: Seq<usize>, by: int, groups: nat)
    requires
        distinct_groups(order, groups),
        0 <= by <= order.len(),
    ensures
        distinct_groups(rotated(order, by), groups),
{
    let r = rotated(order, by);
    let m = order.len() - by;
    assert forall|i: int| 0 <= i < r.len() implies #[trigger] r[i] == order[if i < m {
        i + by
    } else {
        i - m
    }] by {}
}

/// As many of a list as are needed: the first, or from the back.
pub open spec fn some_of(list: Seq<usize>, need: int, last_fit: bool) -> Seq<usize> {
    let l = if last_fit {
        list.reverse()
    } else {
        list
    };
    if need <= 0 {
        Seq::empty()
    } else if need < l.len() {
        l.take(need)
    } else {
        l
    }
}

/// Blocks from the first `n` groups of the order, until there are enough.
pub open spec fn in_order(taken: Seq<bool>, k: nat, order: Seq<usize>, need: nat, last_fit: bool, n: nat) -> Seq<usize>
    decreases n,
{
    if n == 0 {
        Seq::empty()
    } else {
        let before = in_order(taken, k, order, need, last_fit, (n - 1) as nat);
        before + some_of(group_free(taken, k, order[n - 1] as nat), need - before.len(), last_fit)
    }
}

/// Enough blocks, in ascending order.
pub open spec fn complete(blocks: Seq<usize>, need: nat) -> Option<Seq<usize>> {
    if blocks.len() == need {
        Some(ascending(blocks.to_set()))
    } else {
        None
    }
}

/// A free block of a group is in that group.
proof fn lemma_in_group(taken: Seq<bool>, k: nat, g: nat, b: usize)
    requires
        k > 0,
        taken.len() <= usize::MAX,
        g < group_count(taken.len(), k),
        group_free(taken, k, g).contains(b),
    ensures
        b as int / k as int == g,
        b < taken.len(),
        !taken[b as int],
{
    lemma_group_bounds(taken.len(), k, g);
    lemma_free_between(taken, g * k, group_end(taken.len(), k, g));
    let list = group_free(taken, k, g);
    let i = choose|i: int| 0 <= i < list.len() && list[i] == b;
    assert(g * k == g as int * k as int);
    lemma_fundamental_div_mod_converse(b as int, k as int, g as int, b - g * k);
}

/// What is taken of a list is of the list.
proof fn lemma_some_of(list: Seq<usize>, need: int, last_fit: bool)
    requires
        list.no_duplicates(),
    ensures
        some_of(list, need, last_fit).no_duplicates(),
        forall|i: int|
            0 <= i < some_of(list, need, last_fit).len() ==> list.contains(#[trigger] some_of(list, need, last_fit)[i]),
        some_of(list, need, last_fit).len() <= if need > 0 {
            need
        } else {
            0
        },
{
    let r = some_of(list, need, last_fit);
    assert forall|i: int| 0 <= i < r.len() implies #[trigger] r[i] == list[if last_fit {
        list.len() - 1 - i
    } else {
        i
    }] by {}
}

/// The blocks that are taken in order are distinct and free, and no more than needed.
pub proof fn lemma_in_order(taken: Seq<bool>, k: nat, order: Seq<usize>, need: nat, last_fit: bool, n: nat)
    requires
        k > 0,
        taken.len() <= usize::MAX,
        distinct_groups(order, group_count(taken.len(), k)),
        n <= order.len(),
    ensures
        ({
            let r = in_order(taken, k, order, need, last_fit, n);
            &&& free_hosts(r, taken)
            &&& r.len() <= need
            &&& forall|i: int|
                0 <= i < r.len() ==> exists|m: int| 0 <= m < n && #[trigger] order[m] == (#[trigger] r[i]) as int / k as int
        }),
    decreases n,
{
    if n > 0 {
        lemma_in_order(taken, k, order, need, last_fit, (n - 1) as nat);
        let before = in_order(taken, k, order, need, last_fit, (n - 1) as nat);
        let g = order[n - 1] as nat;
        let list = group_free(taken, k, g);
        lemma_group_bounds(taken.len(), k, g);
        lemma_free_between(taken, g * k, group_end(taken.len(), k, g));
        lemma_some_of(list, need - before.len(), last_fit);
        let part = some_of(list, need - before.len(), last_fit);
        let r = in_order(taken, k, order, need, last_fit, n);
        assert forall|i: int| 0 <= i < part.len() implies (#[trigger] part[i]) as int / k as int == g && part[i]
            < taken.len() && !taken[part[i] as int] by {
            lemma_in_group(taken, k, g, part[i]);
        }
        assert forall|i: int| 0 <= i < r.len() implies exists|m: int|
            0 <= m < n && #[trigger] order[m] == (#[trigger] r[i]) as int / k as int by {
            if i < before.len() {
                assert(r[i] == before[i]);
                let m = choose|m: int| 0 <= m < n - 1 && #[trigger] order[m] == before[i] as int / k as int;
                assert(0 <= m < n && order[m] == r[i] as int / k as int);
            } else {
                assert(r[i] == part[i - before.len()]);
                assert(order[n - 1] == r[i] as int / k as int);
            }
        }
        assert forall|i: int| 0 <= i < r.len() implies (#[trigger] r[i]) < taken.len() && !taken[r[i] as int] by {
            if i < before.len() {
                assert(r[i] == before[i]);
            } else {
                assert(r[i] == part[i - before.len()]);
            }
        }
        assert forall|i: int, j: int| 0 <= i < before.len() && 0 <= j < part.len() implies before[i] != part[j] by {
            let m = choose|m: int| 0 <= m < n - 1 && #[trigger] order[m] == before[i] as int / k as int;
            assert(part[j] as int / k as int == g);
            assert(order[m] != order[n - 1]);
        }
        assert(r.no_duplicates()) by {
            assert forall|i: int, j: int| 0 <= i < r.len() && 0 <= j < r.len() && i != j implies r[i] != r[j] by {
                if i < before.len() && j < before.len() {
                    assert(r[i] == before[i] && r[j] == before[j]);
                } else if i < before.len() {
                    assert(r[i] == before[i] && r[j] == part[j - before.len()]);
                } else if j < before.len() {
                    assert(r[i] == part[i - before.len()] && r[j] == before[j]);
                } else {
                    assert(r[i] == part[i - before.len()] && r[j] == part[j - before.len()]);
                }
            }
        }
    }
}

/// Sorting keeps what makes a placement.
pub proof fn lemma_complete(blocks: Seq<usize>, need: nat, taken: Seq<bool>)
    requires
        free_hosts(blocks, taken),
    ensures
        complete(blocks, need) matches Some(r) ==> r.len() == need && free_hosts(r, taken) && strictly_ascending(r)
            && r.to_set() == blocks.to_set(),
{
    if blocks.len() == need {
        crate::utils::data::lemma_can_sort(blocks);
        let s = choose|s: Seq<usize>| #[trigger] strictly_ascending(s) && s.to_set() == blocks.to_set() && s.len()
            == blocks.len();
        lemma_ascending(s, blocks.to_set());
        assert forall|i: int| 0 <= i < s.len() implies (#[trigger] s[i]) < taken.len() && !taken[s[i] as int] by {
            assert(s.to_set().contains(s[i]));
            assert(blocks.contains(s[i]));
            let j = choose|j: int| 0 <= j < blocks.len() && blocks[j] == s[i];
        }
    }
}

/// One round over the first `n` lists: the last of each list that has any is taken, until there are
/// enough. The result is what was taken, and what is left of the lists.
pub open spec fn spread_round(lists: Seq<Seq<usize>>, need: nat, n: nat) -> (Seq<usize>, Seq<Seq<usize>>)
    decreases n,
{
    if n == 0 {
        (Seq::empty(), Seq::empty())
    } else {
        let (picks, rest) = spread_round(lists, need, (n - 1) as nat);
        let list = lists[n - 1];
        if picks.len() < need && list.len() > 0 {
            (picks.push(list.last()), rest.push(list.drop_last()))
        } else {
            (picks, rest.push(list))
        }
    }
}

/// Round after round, until there are enough.
pub open spec fn spread(lists: Seq<Seq<usize>>, need: nat) -> Seq<usize>
    decreases need,
{
    let (picks, rest) = spread_round(lists, need, lists.len());
    if need == 0 || picks.len() == 0 || picks.len() > need {
        Seq::empty()
    } else {
        picks + spread(rest, (need - picks.len()) as nat)
    }
}

/// What is in the first `n` lists.
pub open spec fn contents(lists: Seq<Seq<usize>>, n: nat) -> Multiset<usize>
    decreases n,
{
    if n == 0 {
        Multiset::empty()
    } else {
        contents(lists, (n - 1) as nat).add(lists[n - 1].to_multiset())
    }
}

/// The free blocks of the groups of an order.
pub open spec fn group_lists(taken: Seq<bool>, k: nat, order: Seq<usize>) -> Seq<Seq<usize>> {
    order.map_values(|g: usize| group_free(taken, k, g as nat))
}

proof fn lemma_spread_round(lists: Seq<Seq<usize>>, need: nat, n: nat)
    requires
        n <= lists.len(),
    ensures
        ({
            let (picks, rest) = spread_round(lists, need, n);
            &&& picks.len() <= need
            &&& rest.len() == n
            &&& contents(rest, n).add(picks.to_multiset()) =~= contents(lists, n)
        }),
    decreases n,
{
    broadcast use vstd::seq_lib::group_to_multiset_ensures;

    if n > 0 {
        lemma_spread_round(lists, need, (n - 1) as nat);
        let (p0, r0) = spread_round(lists, need, (n - 1) as nat);
        let (p1, r1) = spread_round(lists, need, n);
        lemma_contents_prefix(r0, r1, (n - 1) as nat);
        let list = lists[n - 1];
        if p0.len() < need && list.len() > 0 {
            assert(list =~= list.drop_last().push(list.last()));
        }
    } else {
        assert(Seq::<usize>::empty().to_multiset() =~= Multiset::empty());
    }
}

proof fn lemma_contents_prefix(a: Seq<Seq<usize>>, b: Seq<Seq<usize>>, n: nat)
    requires
        n <= a.len(),
        n <= b.len(),
        forall|i: int| 0 <= i < n ==> a[i] == b[i],
    ensures
        contents(a, n) == contents(b, n),
    decreases n,
{
    if n > 0 {
        lemma_contents_prefix(a, b, (n - 1) as nat);
    }
}

/// What is spread comes from the lists.
proof fn lemma_spread(lists: Seq<Seq<usize>>, need: nat)
    ensures
        spread(lists, need).len() <= need,
        forall|b: usize|
            #[trigger] spread(lists, need).to_multiset().count(b) <= contents(lists, lists.len()).count(b),
    decreases need,
{
    broadcast use vstd::seq_lib::group_to_multiset_ensures;

    let (picks, rest) = spread_round(lists, need, lists.len());
    lemma_spread_round(lists, need, lists.len());
    if need == 0 || picks.len() == 0 || picks.len() > need {
        assert(Seq::<usize>::empty().to_multiset() =~= Multiset::empty());
    } else {
        let more = spread(rest, (need - picks.len()) as nat);
        lemma_spread(rest, (need - picks.len()) as nat);
        vstd::seq_lib::lemma_multiset_commutative(picks, more);
        assert forall|b: usize|
            #[trigger] spread(lists, need).to_multiset().count(b) <= contents(lists, lists.len()).count(b) by {
            assert(more.to_multiset().count(b) <= contents(rest, rest.len()).count(b));
            assert(contents(rest, lists.len()).add(picks.to_multiset()).count(b) == contents(
                lists,
                lists.len(),
            ).count(b));
        }
    }
}

/// The lists of distinct groups hold no block twice, and only free ones.
proof fn lemma_group_contents(taken: Seq<bool>, k: nat, order: Seq<usize>, n: nat, b: usize)
    requires
        k > 0,
        taken.len() <= usize::MAX,
        distinct_groups(order, group_count(taken.len(), k)),
        n <= order.len(),
    ensures
        contents(group_lists(taken, k, order), n).count(b) <= 1,
        contents(group_lists(taken, k, order), n).count(b) > 0 ==> b < taken.len() && !taken[b as int] && exists|m: int|
            0 <= m < n && #[trigger] order[m] == b as int / k as int,
    decreases n,
{
    broadcast use vstd::seq_lib::group_to_multiset_ensures;

    let lists = group_lists(taken, k, order);
    if n > 0 {
        lemma_group_contents(taken, k, order, (n - 1) as nat, b);
        let g = order[n - 1] as nat;
        let list = lists[n - 1];
        assert(list == group_free(taken, k, g));
        lemma_group_bounds(taken.len(), k, g);
        lemma_free_between(taken, g * k, group_end(taken.len(), k, g));
        list.lemma_multiset_has_no_duplicates();
        if list.to_multiset().count(b) > 0 {
            assert(list.contains(b));
            lemma_in_group(taken, k, g, b);
            assert(order[n - 1] == b as int / k as int);
            if contents(lists, (n - 1) as nat).count(b) > 0 {
                let m = choose|m: int| 0 <= m < n - 1 && #[trigger] order[m] == b as int / k as int;
                assert(order[m] == order[n - 1]);
            }
            assert(list.to_multiset().contains(b));
        }
        if contents(lists, (n - 1) as nat).count(b) > 0 {
            let m = choose|m: int| 0 <= m < n - 1 && #[trigger] order[m] == b as int / k as int;
            assert(0 <= m < n && order[m] == b as int / k as int);
        }
    }
}

/// What is spread over distinct groups is distinct and free, and no more than needed.
pub proof fn lemma_spread_free(taken: Seq<bool>, k: nat, order: Seq<usize>, need: nat)
    requires
        k > 0,
        taken.len() <= usize::MAX,
        distinct_groups(order, group_count(taken.len(), k)),
    ensures
        free_hosts(spread(group_lists(taken, k, order), need), taken),
        spread(group_lists(taken, k, order), need).len() <= need,
{
    broadcast use vstd::seq_lib::group_to_multiset_ensures;

    let lists = group_lists(taken, k, order);
    let r = spread(lists, need);
    lemma_spread(lists, need);
    assert forall|b: usize| r.to_multiset().contains(b) implies r.to_multiset().count(b) == 1 by {
        lemma_group_contents(taken, k, order, order.len(), b);
        assert(r.to_multiset().count(b) <= contents(lists, lists.len()).count(b));
    }
    r.lemma_multiset_has_no_duplicates_conv();
    assert forall|i: int| 0 <= i < r.len() implies (#[trigger] r[i]) < taken.len() && !taken[r[i] as int] by {
        assert(r.contains(r[i]));
        assert(r.to_multiset().count(r[i]) > 0);
        lemma_group_contents(taken, k, order, order.len(), r[i]);
    }
}

/// The alternatives with another one, if it is one and is new.
pub open spec fn with_alternative(list: Seq<Seq<usize>>, c: Option<Seq<usize>>) -> Seq<Seq<usize>> {
    match c {
        Some(c) if !list.contains(c) => list.push(c),
        _ => list,
    }
}

/// The alternatives within one group with the free blocks `free`: the first, the last, and those
/// behind the first block.
pub open spec fn with_group(list: Seq<Seq<usize>>, free: Seq<usize>, need: nat, max: nat) -> Seq<Seq<usize>> {
    let l1 = with_alternative(list, Some(free.take(need as int)));
    let l2 = with_alternative(l1, Some(free.skip(free.len() - need)));
    if list.len() >= max {
        list
    } else if l1.len() >= max {
        l1
    } else if l2.len() >= max || free.len() <= need {
        l2
    } else {
        with_alternative(l2, Some(free.subrange(1, need + 1int)))
    }
}

/// The alternatives within the first `n` groups of the order.
pub open spec fn single_group(taken: Seq<bool>, k: nat, order: Seq<usize>, need: nat, max: nat, n: nat) -> Seq<Seq<usize>>
    decreases n,
{
    if n == 0 {
        Seq::empty()
    } else {
        with_group(
            single_group(taken, k, order, need, max, (n - 1) as nat),
            group_free(taken, k, order[n - 1] as nat),
            need,
            max,
        )
    }
}

/// A placement over the groups of an order.
pub open spec fn over_groups(taken: Seq<bool>, k: nat, order: Seq<usize>, need: nat, last_fit: bool) -> Option<Seq<usize>> {
    complete(in_order(taken, k, order, need, last_fit, order.len()), need)
}

/// The alternatives with the placements over the first rotations of an order.
pub open spec fn with_rotations(
    list: Seq<Seq<usize>>,
    taken: Seq<bool>,
    k: nat,
    order: Seq<usize>,
    need: nat,
    max: nat,
    n: nat,
) -> Seq<Seq<usize>>
    decreases n,
{
    if n == 0 {
        list
    } else {
        let before = with_rotations(list, taken, k, order, need, max, (n - 1) as nat);
        if before.len() >= max {
            before
        } else {
            with_alternative(before, over_groups(taken, k, rotated(order, n as int), need, false))
        }
    }
}

/// How many rotations are tried.
pub open spec fn rotations(groups: nat, max: nat, found: nat) -> nat {
    if groups == 0 {
        0
    } else if groups - 1 <= max - found {
        (groups - 1) as nat
    } else {
        (max - found) as nat
    }
}

/// The alternatives over several groups: the groups with the most room first, from the front and
/// from the back; spread evenly; and by rotations of the groups. None if none is asked for.
pub open spec fn several_groups(taken: Seq<bool>, k: nat, need: nat, max: nat) -> Seq<Seq<usize>> {
    let groups = group_count(taken.len(), k);
    let counts = free_counts(taken, k, groups);
    let by_room = room_order(counts, 0, true, groups);
    let in_turn = nonempty_groups(counts, groups);
    let l1 = with_alternative(Seq::empty(), over_groups(taken, k, by_room, need, false));
    let l2 = with_alternative(l1, over_groups(taken, k, by_room, need, true));
    let l3 = with_alternative(l2, complete(spread(group_lists(taken, k, in_turn), need), need));
    if max == 0 {
        Seq::empty()
    } else if l1.len() >= max {
        l1
    } else if l2.len() >= max {
        l2
    } else if l3.len() >= max {
        l3
    } else {
        with_rotations(l3, taken, k, in_turn, need, max, rotations(in_turn.len(), max, l3.len()))
    }
}

/// The alternatives for `need` blocks: within a group, if it fits in one; else over several.
pub open spec fn alternatives(taken: Seq<bool>, k: nat, need: nat, max: nat) -> Seq<Seq<usize>> {
    let groups = group_count(taken.len(), k);
    let counts = free_counts(taken, k, groups);
    let fitting = room_order(counts, need, false, groups);
    if all_free(taken).len() < need || all_free(taken).len() == 0 {
        Seq::empty()
    } else if fitting.len() > 0 {
        single_group(taken, k, fitting, need, max, fitting.len())
    } else {
        several_groups(taken, k, need, max)
    }
}

/// Each is a placement for `need` blocks, in ascending order, and none occurs twice.
pub open spec fn proper(list: Seq<Seq<usize>>, taken: Seq<bool>, need: nat) -> bool {
    &&& list.no_duplicates()
    &&& forall|i: int| 0 <= i < list.len() ==> is_placement(#[trigger] list[i], taken, need)
}

/// A placement for `need` blocks, in ascending order.
pub open spec fn is_placement(blocks: Seq<usize>, taken: Seq<bool>, need: nat) -> bool {
    blocks.len() == need && free_hosts(blocks, taken) && strictly_ascending(blocks)
}

proof fn lemma_with_alternative(list: Seq<Seq<usize>>, c: Option<Seq<usize>>, taken: Seq<bool>, need: nat)
    requires
        proper(list, taken, need),
        c matches Some(b) ==> is_placement(b, taken, need),
    ensures
        proper(with_alternative(list, c), taken, need),
        list.len() <= with_alternative(list, c).len() <= list.len() + 1,
        c is Some ==> with_alternative(list, c).len() > 0,
{
}

proof fn lemma_single_group(taken: Seq<bool>, k: nat, order: Seq<usize>, need: nat, max: nat, n: nat)
    requires
        k > 0,
        taken.len() <= usize::MAX,
        distinct_groups(order, group_count(taken.len(), k)),
        forall|i: int| 0 <= i < order.len() ==> group_free(taken, k, (#[trigger] order[i]) as nat).len() >= need,
        n <= order.len(),
    ensures
        proper(single_group(taken, k, order, need, max, n), taken, need),
        single_group(taken, k, order, need, max, n).len() <= max,
        n > 0 && max > 0 ==> single_group(taken, k, order, need, max, n).len() > 0,
    decreases n,
{
    if n > 0 {
        lemma_single_group(taken, k, order, need, max, (n - 1) as nat);
        let list = single_group(taken, k, order, need, max, (n - 1) as nat);
        let g = order[n - 1] as nat;
        let free = group_free(taken, k, g);
        lemma_group_bounds(taken.len(), k, g);
        lemma_free_between(taken, g * k, group_end(taken.len(), k, g));
        lemma_part_free(free, taken, 0, need as int);
        lemma_part_free(free, taken, free.len() - need, free.len() as int);
        assert(free.take(need as int) =~= free.subrange(0, need as int));
        assert(free.skip(free.len() - need) =~= free.subrange(free.len() - need, free.len() as int));
        let l1 = with_alternative(list, Some(free.take(need as int)));
        lemma_with_alternative(list, Some(free.take(need as int)), taken, need);
        let l2 = with_alternative(l1, Some(free.skip(free.len() - need)));
        lemma_with_alternative(l1, Some(free.skip(free.len() - need)), taken, need);
        if free.len() > need {
            lemma_part_free(free, taken, 1, need + 1int);
            lemma_with_alternative(l2, Some(free.subrange(1, need + 1int)), taken, need);
        }
    }
}

proof fn lemma_part_free(list: Seq<usize>, taken: Seq<bool>, lo: int, hi: int)
    requires
        free_hosts(list, taken),
        strictly_ascending(list),
        0 <= lo <= hi <= list.len(),
    ensures
        is_placement(list.subrange(lo, hi), taken, (hi - lo) as nat),
{
    assert forall|i: int| 0 <= i < hi - lo implies (#[trigger] list.subrange(lo, hi)[i]) < taken.len()
        && !taken[list.subrange(lo, hi)[i] as int] by {
        assert(list.subrange(lo, hi)[i] == list[lo + i]);
    }
}

proof fn lemma_over_groups(taken: Seq<bool>, k: nat, order: Seq<usize>, need: nat, last_fit: bool)
    requires
        k > 0,
        taken.len() <= usize::MAX,
        distinct_groups(order, group_count(taken.len(), k)),
    ensures
        over_groups(taken, k, order, need, last_fit) matches Some(b) ==> is_placement(b, taken, need),
{
    lemma_in_order(taken, k, order, need, last_fit, order.len());
    lemma_complete(in_order(taken, k, order, need, last_fit, order.len()), need, taken);
}

proof fn lemma_with_rotations(
    list: Seq<Seq<usize>>,
    taken: Seq<bool>,
    k: nat,
    order: Seq<usize>,
    need: nat,
    max: nat,
    n: nat,
)
    requires
        k > 0,
        taken.len() <= usize::MAX,
        distinct_groups(order, group_count(taken.len(), k)),
        n <= order.len(),
        proper(list, taken, need),
        list.len() <= max,
    ensures
        proper(with_rotations(list, taken, k, order, need, max, n), taken, need),
        list.len() <= with_rotations(list, taken, k, order, need, max, n).len() <= max,
    decreases n,
{
    if n > 0 {
        lemma_with_rotations(list, taken, k, order, need, max, (n - 1) as nat);
        let before = with_rotations(list, taken, k, order, need, max, (n - 1) as nat);
        lemma_rotated(order, n as int, group_count(taken.len(), k));
        lemma_over_groups(taken, k, rotated(order, n as int), need, false);
        lemma_with_alternative(before, over_groups(taken, k, rotated(order, n as int), need, false), taken, need);
    }
}

/// As long as there are too few, all free blocks of the first `n` groups of the order are taken.
proof fn lemma_all_taken(
    taken: Seq<bool>,
    k: nat,
    order: Seq<usize>,
    need: nat,
    last_fit: bool,
    n: nat,
    m: int,
    b: usize,
)
    requires
        in_order(taken, k, order, need, last_fit, n).len() < need,
        0 <= m < n,
        group_free(taken, k, order[m] as nat).contains(b),
    ensures
        in_order(taken, k, order, need, last_fit, n).contains(b),
    decreases n,
{
    let before = in_order(taken, k, order, need, last_fit, (n - 1) as nat);
    let list = group_free(taken, k, order[n - 1] as nat);
    let part = some_of(list, need - before.len(), last_fit);
    let r = in_order(taken, k, order, need, last_fit, n);
    if m < n - 1 {
        lemma_all_taken(taken, k, order, need, last_fit, (n - 1) as nat, m, b);
        let i = choose|i: int| 0 <= i < before.len() && before[i] == b;
        assert(r[i] == b);
    } else {
        let i = choose|i: int| 0 <= i < list.len() && list[i] == b;
        if last_fit {
            assert(part[list.len() - 1 - i] == b);
            assert(r[before.len() + (list.len() - 1 - i)] == b);
        } else {
            assert(part[i] == b);
            assert(r[before.len() + i] == b);
        }
    }
}

/// Where there is room, the groups with free blocks have enough of them.
proof fn lemma_enough(taken: Seq<bool>, k: nat, order: Seq<usize>, need: nat, last_fit: bool)
    requires
        k > 0,
        taken.len() <= usize::MAX,
        distinct_groups(order, group_count(taken.len(), k)),
        forall|g: usize|
            g < group_count(taken.len(), k) && group_free(taken, k, g as nat).len() > 0 ==> #[trigger] order.contains(g),
        all_free(taken).len() >= need,
    ensures
        over_groups(taken, k, order, need, last_fit) is Some,
{
    let r = in_order(taken, k, order, need, last_fit, order.len());
    let all = all_free(taken);
    lemma_in_order(taken, k, order, need, last_fit, order.len());
    if r.len() < need {
        lemma_free_between(taken, 0, taken.len());
        assert forall|b: usize| all.to_set().contains(b) implies r.to_set().contains(b) by {
            let i = choose|i: int| 0 <= i < all.len() && all[i] == b;
            assert(!taken[b as int]);
            lemma_block_group(taken, k, b as int);
            let g = (b as int / k as int) as nat;
            lemma_group_count(taken.len(), k);
            assert(order.contains(g as usize));
            let m = choose|m: int| 0 <= m < order.len() && order[m] == g as usize;
            lemma_all_taken(taken, k, order, need, last_fit, order.len(), m, b);
        }
        all.unique_seq_to_set();
        r.unique_seq_to_set();
        vstd::set_lib::lemma_len_subset(all.to_set(), r.to_set());
    }
}

/// Every alternative is a placement on distinct free blocks, as many as needed; no two are the
/// same; and there are no more than asked for. There is one, if one is asked for and there are enough free
/// blocks.
pub proof fn lemma_alternatives(taken: Seq<bool>, k: nat, need: nat, max: nat)
    requires
        k > 0,
        taken.len() <= usize::MAX,
    ensures
        proper(alternatives(taken, k, need, max), taken, need),
        alternatives(taken, k, need, max).len() <= max,
        alternatives(taken, k, need, max).len() > 0 <==> max > 0 && all_free(taken).len() >= need && all_free(taken).len()
            > 0,
{
    let groups = group_count(taken.len(), k);
    let counts = free_counts(taken, k, groups);
    lemma_group_count(taken.len(), k);
    lemma_room_order(counts, need, false, groups);
    let fitting = room_order(counts, need, false, groups);
    if all_free(taken).len() < need || all_free(taken).len() == 0 {
    } else if fitting.len() > 0 {
        assert forall|i: int| 0 <= i < fitting.len() implies group_free(taken, k, (#[trigger] fitting[i]) as nat).len()
            >= need by {
            assert(fitting.contains(fitting[i]));
            assert(counts[fitting[i] as int] == group_free(taken, k, fitting[i] as nat).len());
        }
        lemma_single_group(taken, k, fitting, need, max, fitting.len());
    } else {
        let by_room = room_order(counts, 0, true, groups);
        let in_turn = nonempty_groups(counts, groups);
        lemma_room_order(counts, 0, true, groups);
        lemma_nonempty_groups(counts, groups);
        lemma_over_groups(taken, k, by_room, need, false);
        lemma_over_groups(taken, k, by_room, need, true);
        assert forall|g: usize| g < groups && group_free(taken, k, g as nat).len() > 0 implies #[trigger] by_room.contains(
            g,
        ) by {
            assert(counts[g as int] == group_free(taken, k, g as nat).len());
        }
        lemma_enough(taken, k, by_room, need, false);
        lemma_spread_free(taken, k, in_turn, need);
        let even = complete(spread(group_lists(taken, k, in_turn), need), need);
        lemma_complete(spread(group_lists(taken, k, in_turn), need), need, taken);
        let l0 = Seq::<Seq<usize>>::empty();
        let l1 = with_alternative(l0, over_groups(taken, k, by_room, need, false));
        lemma_with_alternative(l0, over_groups(taken, k, by_room, need, false), taken, need);
        let l2 = with_alternative(l1, over_groups(taken, k, by_room, need, true));
        lemma_with_alternative(l1, over_groups(taken, k, by_room, need, true), taken, need);
        let l3 = with_alternative(l2, even);
        lemma_with_alternative(l2, even, taken, need);
        if l3.len() < max {
            lemma_with_rotations(l3, taken, k, in_turn, need, max, rotations(in_turn.len(), max, l3.len()));
        }
    }
}

/// Any two alternatives differ in the blocks that they take, whatever the order.
pub proof fn lemma_alternatives_differ(taken: Seq<bool>, k: nat, need: nat, max: nat, i: int, j: int)
    requires
        k > 0,
        taken.len() <= usize::MAX,
        0 <= i < j < alternatives(taken, k, need, max).len(),
    ensures
        alternatives(taken, k, need, max)[i].to_set() != alternatives(taken, k, need, max)[j].to_set(),
{
    let list = alternatives(taken, k, need, max);
    lemma_alternatives(taken, k, need, max);
    assert(is_placement(list[i], taken, need) && is_placement(list[j], taken, need));
    if list[i].to_set() == list[j].to_set() {
        lemma_ascending(list[i], list[i].to_set());
        lemma_ascending(list[j], list[j].to_set());
        assert(list[i] == list[j]);
    }
}

/// There are no more groups than blocks.
pub proof fn lemma_group_count(n: nat, k: nat)
    requires
        k > 0,
    ensures
        group_count(n, k) <= n,
{
    vstd::arithmetic::div_mod::lemma_fundamental_div_mod(n as int, k as int);
    assert(n as int / k as int <= n && (n as int % k as int != 0 ==> n as int / k as int + 1 <= n)) by (nonlinear_arith)
        requires
            k > 0,
            n >= 0,
            n as int == k as int * (n as int / k as int) + n as int % k as int,
            0 <= n as int % (k as int) < k,
    ;
}

/// The counts as numbers.
pub open spec fn nats(v: Seq<usize>) -> Seq<nat> {
    v.map_values(|c: usize| c as nat)
}

fn is_before(a: usize, b: usize, most_first: bool) -> (r: bool)
    ensures
        r == goes_before(a as nat, b as nat, most_first),
{
    if most_first {
        a >= b
    } else {
        a <= b
    }
}

/// Puts a group into an order.
fn put_group(order: &mut Vec<usize>, counts: &Vec<usize>, g: usize, most_first: bool)
    requires
        g < counts@.len(),
        forall|i: int| 0 <= i < old(order)@.len() ==> (#[trigger] old(order)@[i]) < counts@.len(),
    ensures
        final(order)@ == insert_group(old(order)@, nats(counts@), g, most_first),
{
    let ghost o = order@;
    let ghost c = nats(counts@);
    let mut pos: usize = order.len();
    proof {
        assert(o.take(o.len() as int) =~= o);
        assert(insert_group(o, c, g, most_first) =~= insert_group(o.take(pos as int), c, g, most_first) + o.skip(
            pos as int,
        ));
    }
    while pos > 0 && !is_before(counts[order[pos - 1]], counts[g], most_first)
        invariant
            pos <= o.len(),
            o == order@,
            c == nats(counts@),
            g < counts@.len(),
            forall|i: int| 0 <= i < o.len() ==> (#[trigger] o[i]) < counts@.len(),
            insert_group(o, c, g, most_first) == insert_group(o.take(pos as int), c, g, most_first) + o.skip(pos as int),
        decreases pos,
    {
        proof {
            let a = o.take(pos as int);
            assert(a.last() == o[pos - 1]);
            assert(a.drop_last() =~= o.take(pos - 1));
            assert(insert_group(a, c, g, most_first) == insert_group(o.take(pos - 1), c, g, most_first).push(o[pos - 1]));
            assert(insert_group(o.take(pos - 1), c, g, most_first).push(o[pos - 1]) + o.skip(pos as int)
                =~= insert_group(o.take(pos - 1), c, g, most_first) + o.skip(pos - 1));
        }
        pos -= 1;
    }
    order.insert(pos, g);
    proof {
        let a = o.take(pos as int);
        if pos > 0 {
            assert(a.last() == o[pos - 1]);
        }
        assert(insert_group(a, c, g, most_first) == a.push(g));
        assert(order@ =~= a.push(g) + o.skip(pos as int));
    }
}

/// The groups with enough room, by room.
pub fn order_by_room(counts: &Vec<usize>, need: usize, most_first: bool) -> (r: Vec<usize>)
    ensures
        r@ == room_order(nats(counts@), need as nat, most_first, counts@.len()),
        distinct_groups(r@, counts@.len()),
{
    let n: usize = counts.len();
    let ghost c = nats(counts@);
    let mut r: Vec<usize> = Vec::new();
    let mut g: usize = 0;
    while g < n
        invariant
            g <= n,
            n == counts@.len(),
            c == nats(counts@),
            r@ == room_order(c, need as nat, most_first, g as nat),
        decreases n - g,
    {
        proof {
            lemma_room_order(c, need as nat, most_first, g as nat);
        }
        if counts[g] > 0 && counts[g] >= need {
            put_group(&mut r, counts, g, most_first);
        }
        g += 1;
    }
    proof {
        lemma_room_order(c, need as nat, most_first, n as nat);
    }
    r
}

/// The groups with a free block.
pub fn list_nonempty(counts: &Vec<usize>) -> (r: Vec<usize>)
    ensures
        r@ == nonempty_groups(nats(counts@), counts@.len()),
        distinct_groups(r@, counts@.len()),
{
    let n: usize = counts.len();
    let ghost c = nats(counts@);
    let mut r: Vec<usize> = Vec::new();
    let mut g: usize = 0;
    while g < n
        invariant
            g <= n,
            n == counts@.len(),
            c == nats(counts@),
            r@ == nonempty_groups(c, g as nat),
        decreases n - g,
    {
        if counts[g] > 0 {
            r.push(g);
        }
        g += 1;
    }
    proof {
        lemma_nonempty_groups(c, n as nat);
    }
    r
}

/// Takes as many of a list as are needed, from the front or from the back.
fn take_some(list: &Vec<usize>, need: usize, last_fit: bool) -> (r: Vec<usize>)
    ensures
        r@ == some_of(list@, need as int, last_fit),
{
    let n: usize = list.len();
    let count: usize = if need < n {
        need
    } else {
        n
    };
    let ghost l = if last_fit {
        list@.reverse()
    } else {
        list@
    };
    let mut r: Vec<usize> = Vec::new();
    let mut i: usize = 0;
    while i < count
        invariant
            i <= count <= n,
            n == list@.len(),
            l == if last_fit {
                list@.reverse()
            } else {
                list@
            },
            r@ == l.take(i as int),
        decreases count - i,
    {
        if last_fit {
            r.push(list[n - 1 - i]);
        } else {
            r.push(list[i]);
        }
        proof {
            assert(r@ =~= l.take(i + 1));
        }
        i += 1;
    }
    proof {
        assert(l.take(l.len() as int) =~= l);
        assert(l.take(0) =~= Seq::<usize>::empty());
    }
    r
}

/// Blocks from the groups of an order, until there are enough.
fn pick_in_order(taken: &Vec<bool>, k: usize, order: &Vec<usize>, need: usize, last_fit: bool) -> (r: Vec<usize>)
    requires
        k > 0,
        distinct_groups(order@, group_count(taken@.len(), k as nat)),
    ensures
        r@ == in_order(taken@, k as nat, order@, need as nat, last_fit, order@.len()),
        free_hosts(r@, taken@),
{
    let n: usize = taken.len();
    let mut r: Vec<usize> = Vec::new();
    let mut i: usize = 0;
    proof {
        lemma_in_order(taken@, k as nat, order@, need as nat, last_fit, order@.len());
    }
    while i < order.len()
        invariant
            k > 0,
            n == taken@.len(),
            i <= order@.len(),
            distinct_groups(order@, group_count(taken@.len(), k as nat)),
            r@ == in_order(taken@, k as nat, order@, need as nat, last_fit, i as nat),
        decreases order@.len() - i,
    {
        proof {
            lemma_in_order(taken@, k as nat, order@, need as nat, last_fit, i as nat);
        }
        let list = list_group(taken, k, order[i]);
        let mut part = take_some(&list, need - r.len(), last_fit);
        r.append(&mut part);
        i += 1;
    }
    r
}

/// Enough blocks, in ascending order.
fn finish(blocks: Vec<usize>, need: usize) -> (r: Option<Vec<usize>>)
    requires
        blocks@.no_duplicates(),
    ensures
        same_choice(r, complete(blocks@, need as nat)),
{
    if blocks.len() == need {
        let ghost b = blocks@;
        let sorted = sort_distinct(blocks);
        proof {
            lemma_ascending(sorted@, b.to_set());
        }
        Some(sorted)
    } else {
        None
    }
}

/// The same choice of blocks.
pub open spec fn same_choice(r: Option<Vec<usize>>, c: Option<Seq<usize>>) -> bool {
    match r {
        Some(v) => c == Some(v@),
        None => c is None,
    }
}

/// A placement over the groups of an order.
fn place_over(taken: &Vec<bool>, k: usize, order: &Vec<usize>, need: usize, last_fit: bool) -> (r: Option<Vec<usize>>)
    requires
        k > 0,
        distinct_groups(order@, group_count(taken@.len(), k as nat)),
    ensures
        same_choice(r, over_groups(taken@, k as nat, order@, need as nat, last_fit)),
{
    finish(pick_in_order(taken, k, order, need, last_fit), need)
}

/// Lists as sequences.
pub open spec fn views(v: Seq<Vec<usize>>) -> Seq<Seq<usize>> {
    v.map_values(|l: Vec<usize>| l@)
}

/// One round over the lists.
fn pop_round(lists: &mut Vec<Vec<usize>>, need: usize) -> (picks: Vec<usize>)
    ensures
        picks@ == spread_round(views(old(lists)@), need as nat, old(lists)@.len()).0,
        views(final(lists)@) == spread_round(views(old(lists)@), need as nat, old(lists)@.len()).1,
{
    let ghost l0 = views(lists@);
    let mut picks: Vec<usize> = Vec::new();
    let mut i: usize = 0;
    while i < lists.len()
        invariant
            i <= lists@.len(),
            lists@.len() == l0.len(),
            picks@ == spread_round(l0, need as nat, i as nat).0,
            picks@.len() <= need,
            spread_round(l0, need as nat, i as nat).1.len() == i,
            forall|j: int| 0 <= j < i ==> (#[trigger] lists@[j])@ == spread_round(l0, need as nat, i as nat).1[j],
            forall|j: int| i <= j < l0.len() ==> (#[trigger] lists@[j])@ == l0[j],
        decreases lists@.len() - i,
    {
        let ghost before = lists@;
        if picks.len() < need {
            let list = &mut lists[i];
            if let Some(b) = list.pop() {
                picks.push(b);
            }
        }
        proof {
            let rest = spread_round(l0, need as nat, i as nat).1;
            assert(before[i as int]@ == l0[i as int]);
            let now = spread_round(l0, need as nat, (i + 1) as nat).1;
            assert forall|j: int| 0 <= j < i + 1 implies (#[trigger] lists@[j])@ == now[j] by {
                if j < i {
                    assert(before[j]@ == rest[j]);
                }
            }
            assert forall|j: int| i + 1 <= j < l0.len() implies (#[trigger] lists@[j])@ == l0[j] by {
                assert(before[j]@ == l0[j]);
            }
        }
        i += 1;
    }
    proof {
        assert(views(lists@) =~= spread_round(l0, need as nat, l0.len()).1);
    }
    picks
}

/// Spreads blocks evenly over groups.
fn pick_evenly(taken: &Vec<bool>, k: usize, order: &Vec<usize>, need: usize) -> (r: Vec<usize>)
    requires
        k > 0,
        distinct_groups(order@, group_count(taken@.len(), k as nat)),
    ensures
        r@ == spread(group_lists(taken@, k as nat, order@), need as nat),
        free_hosts(r@, taken@),
{
    let n: usize = taken.len();
    let mut lists: Vec<Vec<usize>> = Vec::new();
    let mut i: usize = 0;
    while i < order.len()
        invariant
            k > 0,
            i <= order@.len(),
            distinct_groups(order@, group_count(taken@.len(), k as nat)),
            lists@.len() == i,
            forall|j: int| 0 <= j < i ==> (#[trigger] lists@[j])@ == group_free(taken@, k as nat, order@[j] as nat),
        decreases order@.len() - i,
    {
        lists.push(list_group(taken, k, order[i]));
        i += 1;
    }
    let ghost l0 = group_lists(taken@, k as nat, order@);
    proof {
        assert(views(lists@) =~= l0);
        lemma_spread_free(taken@, k as nat, order@, need as nat);
    }
    let mut r: Vec<usize> = Vec::new();
    let mut left: usize = need;
    proof {
        assert(r@ + spread(views(lists@), left as nat) =~= spread(l0, need as nat));
    }
    while left > 0
        invariant
            r@ + spread(views(lists@), left as nat) == spread(l0, need as nat),
            l0 == group_lists(taken@, k as nat, order@),
            free_hosts(spread(l0, need as nat), taken@),
        decreases left,
    {
        let ghost before = views(lists@);
        proof {
            lemma_spread_round(before, left as nat, before.len());
        }
        let mut picks = pop_round(&mut lists, left);
        if picks.len() == 0 {
            proof {
                assert(r@ + Seq::<usize>::empty() =~= r@);
            }
            return r;
        }
        proof {
            let more = spread(views(lists@), (left - picks@.len()) as nat);
            assert(r@ + (picks@ + more) =~= (r@ + picks@) + more);
        }
        left -= picks.len();
        r.append(&mut picks);
    }
    proof {
        assert(spread(views(lists@), 0) =~= Seq::<usize>::empty());
        assert(r@ + Seq::<usize>::empty() =~= r@);
    }
    r
}

/// Whether two lists are the same.
fn same_list(a: &Vec<usize>, b: &Vec<usize>) -> (r: bool)
    ensures
        r == (a@ == b@),
{
    if a.len() != b.len() {
        return false;
    }
    let mut i: usize = 0;
    while i < a.len()
        invariant
            i <= a@.len(),
            a@.len() == b@.len(),
            forall|j: int| 0 <= j < i ==> a@[j] == b@[j],
        decreases a@.len() - i,
    {
        if a[i] != b[i] {
            assert(a@[i as int] != b@[i as int]);
            return false;
        }
        i += 1;
    }
    assert(a@ =~= b@);
    true
}

/// Adds an alternative, if it is one and is new.
fn add_alternative(list: &mut Vec<Vec<usize>>, c: Option<Vec<usize>>)
    ensures
        ({
            let before = views(old(list)@);
            match c {
                Some(v) => views(final(list)@) == with_alternative(before, Some(v@)),
                None => views(final(list)@) == before,
            }
        }),
{
    if let Some(v) = c {
        let ghost before = views(list@);
        let mut i: usize = 0;
        while i < list.len()
            invariant
                i <= list@.len(),
                c == Some(v),
                before == views(list@),
                before == views(old(list)@),
                forall|j: int| 0 <= j < i ==> before[j] != v@,
            decreases list@.len() - i,
        {
            if same_list(&list[i], &v) {
                assert(before[i as int] == v@);
                assert(before.contains(v@));
                return;
            }
            i += 1;
        }
        list.push(v);
        proof {
            assert(views(list@) =~= before.push(v@));
        }
    }
}

/// A part of a list.
fn part_of(list: &Vec<usize>, lo: usize, hi: usize) -> (r: Vec<usize>)
    requires
        lo <= hi <= list@.len(),
    ensures
        r@ == list@.subrange(lo as int, hi as int),
{
    let mut r: Vec<usize> = Vec::new();
    let mut i: usize = lo;
    while i < hi
        invariant
            lo <= i <= hi <= list@.len(),
            r@ == list@.subrange(lo as int, i as int),
        decreases hi - i,
    {
        r.push(list[i]);
        proof {
            assert(r@ =~= list@.subrange(lo as int, i + 1));
        }
        i += 1;
    }
    r
}

/// The alternatives within single groups.
pub fn list_single_group(taken: &Vec<bool>, k: usize, order: &Vec<usize>, need: usize, max: usize) -> (r: Vec<Vec<usize>>)
    requires
        k > 0,
        distinct_groups(order@, group_count(taken@.len(), k as nat)),
        forall|i: int| 0 <= i < order@.len() ==> group_free(taken@, k as nat, (#[trigger] order@[i]) as nat).len() >= need,
    ensures
        views(r@) == single_group(taken@, k as nat, order@, need as nat, max as nat, order@.len()),
{
    let mut r: Vec<Vec<usize>> = Vec::new();
    let mut i: usize = 0;
    proof {
        assert(views(r@) =~= Seq::<Seq<usize>>::empty());
    }
    while i < order.len()
        invariant
            k > 0,
            i <= order@.len(),
            distinct_groups(order@, group_count(taken@.len(), k as nat)),
            forall|i: int|
                0 <= i < order@.len() ==> group_free(taken@, k as nat, (#[trigger] order@[i]) as nat).len() >= need,
            views(r@) == single_group(taken@, k as nat, order@, need as nat, max as nat, i as nat),
        decreases order@.len() - i,
    {
        if r.len() < max {
            let free = list_group(taken, k, order[i]);
            let n: usize = free.len();
            let first = part_of(&free, 0, need);
            let last = part_of(&free, n - need, n);
            proof {
                assert(first@ =~= free@.take(need as int));
                assert(last@ =~= free@.skip(n - need));
            }
            add_alternative(&mut r, Some(first));
            if r.len() < max {
                add_alternative(&mut r, Some(last));
                if r.len() < max && n > need {
                    let middle = part_of(&free, 1, need + 1);
                    add_alternative(&mut r, Some(middle));
                }
            }
        }
        i += 1;
    }
    r
}

/// The rotation of an order.
fn rotate(order: &Vec<usize>, by: usize) -> (r: Vec<usize>)
    requires
        by <= order@.len(),
    ensures
        r@ == rotated(order@, by as int),
{
    let mut r = part_of(order, by, order.len());
    let mut front = part_of(order, 0, by);
    r.append(&mut front);
    proof {
        assert(r@ =~= rotated(order@, by as int));
    }
    r
}

/// The alternatives over several groups.
pub fn list_several_groups(taken: &Vec<bool>, k: usize, counts: &Vec<usize>, need: usize, max: usize) -> (r: Vec<Vec<usize>>)
    requires
        k > 0,
        counts@.len() == group_count(taken@.len(), k as nat),
        nats(counts@) == free_counts(taken@, k as nat, counts@.len()),
    ensures
        views(r@) == several_groups(taken@, k as nat, need as nat, max as nat),
{
    let mut r: Vec<Vec<usize>> = Vec::new();
    proof {
        assert(views(r@) =~= Seq::<Seq<usize>>::empty());
    }
    if max == 0 {
        return r;
    }
    let by_room = order_by_room(counts, 0, true);
    let in_turn = list_nonempty(counts);
    add_alternative(&mut r, place_over(taken, k, &by_room, need, false));
    if r.len() >= max {
        return r;
    }
    add_alternative(&mut r, place_over(taken, k, &by_room, need, true));
    if r.len() >= max {
        return r;
    }
    add_alternative(&mut r, finish(pick_evenly(taken, k, &in_turn, need), need));
    if r.len() >= max {
        return r;
    }
    let found: usize = r.len();
    let groups: usize = in_turn.len();
    let count: usize = if groups == 0 {
        0
    } else if groups - 1 <= max - found {
        groups - 1
    } else {
        max - found
    };
    let ghost l3 = views(r@);
    let mut i: usize = 0;
    while i < count
        invariant
            k > 0,
            i <= count,
            count <= in_turn@.len(),
            distinct_groups(in_turn@, group_count(taken@.len(), k as nat)),
            views(r@) == with_rotations(l3, taken@, k as nat, in_turn@, need as nat, max as nat, i as nat),
        decreases count - i,
    {
        if r.len() < max {
            let order = rotate(&in_turn, i + 1);
            proof {
                lemma_rotated(in_turn@, i + 1, group_count(taken@.len(), k as nat));
            }
            add_alternative(&mut r, place_over(taken, k, &order, need, false));
        }
        i += 1;
    }
    r
}

/// The alternatives for a job.
pub fn list_alternatives(taken: &Vec<bool>, k: usize, need: usize, max: usize) -> (r: Vec<Vec<usize>>)
    requires
        k > 0,
    ensures
        views(r@) == alternatives(taken@, k as nat, need as nat, max as nat),
{
    let n: usize = taken.len();
    let free: usize = list_free(taken, 0, n).len();
    if free < need || free == 0 {
        let none: Vec<Vec<usize>> = Vec::new();
        proof {
            assert(views(none@) =~= Seq::<Seq<usize>>::empty());
        }
        return none;
    }
    let counts = count_free(taken, k);
    let fitting = order_by_room(&counts, need, false);
    if fitting.len() > 0 {
        proof {
            let c = free_counts(taken@, k as nat, counts@.len());
            lemma_room_order(c, need as nat, false, counts@.len());
            assert forall|i: int| 0 <= i < fitting@.len() implies group_free(
                taken@,
                k as nat,
                (#[trigger] fitting@[i]) as nat,
            ).len() >= need by {
                assert(fitting@.contains(fitting@[i]));
                assert(c[fitting@[i] as int] == group_free(taken@, k as nat, fitting@[i] as nat).len());
            }
        }
        return list_single_group(taken, k, &fitting, need, max);
    }
    list_several_groups(taken, k, &counts, need, max)
}

} // verus!
