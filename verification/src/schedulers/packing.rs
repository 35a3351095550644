//! How jobs are packed into groups of blocks. A block is a run of hosts of fixed size that are
//! allocated together; a group is a run of blocks below one switch or in one pod.

use vstd::arithmetic::div_mod::{lemma_fundamental_div_mod, lemma_fundamental_div_mod_converse};
use vstd::prelude::*;

use crate::simulator::context::{lemma_set_at, set_at};
use crate::simulator::job_scheduler::free_hosts;

verus! {

/// The block exists, and none of its hosts is busy.
pub open spec fn block_free(busy: Seq<bool>, size: nat, b: int) -> bool {
    &&& 0 <= b < busy.len() / size
    &&& forall|h: int| b * size <= h < b * size + size ==> !#[trigger] busy[h]
}

/// Which blocks cannot be allocated.
pub open spec fn block_map(busy: Seq<bool>, size: nat) -> Seq<bool> {
    Seq::new(busy.len() / size, |b: int| !block_free(busy, size, b))
}

/// The hosts of the blocks, in order.
pub open spec fn block_hosts(blocks: Seq<usize>, size: nat) -> Seq<usize> {
    Seq::new(blocks.len() * size, |w: int| (blocks[w / size as int] * size + w % size as int) as usize)
}

/// The last host of a block is within range.
pub proof fn lemma_block_end(n: nat, size: nat, b: int)
    requires
        size > 0,
        0 <= b < n / size,
    ensures
        0 <= b * size,
        b * size + size <= n,
{
    lemma_fundamental_div_mod(n as int, size as int);
    assert(b * size + size <= size * (n as int / size as int)) by (nonlinear_arith)
        requires
            0 <= b < n as int / size as int,
            size > 0,
    ;
    assert(0 <= b * size) by (nonlinear_arith)
        requires
            0 <= b,
            size > 0,
    ;
}

/// Distinct free blocks have distinct free hosts.
pub proof fn lemma_block_hosts_free(busy: Seq<bool>, size: nat, blocks: Seq<usize>)
    requires
        size > 0,
        busy.len() <= usize::MAX,
        free_hosts(blocks, block_map(busy, size)),
    ensures
        free_hosts(block_hosts(blocks, size), busy),
{
    let hosts = block_hosts(blocks, size);
    let d = size as int;
    assert forall|w: int| 0 <= w < hosts.len() implies (#[trigger] hosts[w]) < busy.len() && !busy[hosts[w] as int]
        && hosts[w] == blocks[w / d] * size + w % d && 0 <= (w / d) && (w / d) < blocks.len() && hosts[w] as int / d
        == blocks[w / d] && hosts[w] as int % d == w % d by {
        lemma_fundamental_div_mod(w, d);
        assert(0 <= w / d && w / d < blocks.len()) by (nonlinear_arith)
            requires
                0 <= w < blocks.len() * size,
                d == size,
                d > 0,
                w == d * (w / d) + w % d,
                0 <= w % d < d,
        ;
        let b = blocks[w / d] as int;
        assert(!block_map(busy, size)[b]);
        lemma_block_end(busy.len(), size, b);
        assert(!busy[b * size + w % d]);
        assert(b * size == b * d);
        lemma_fundamental_div_mod_converse(b * size + w % d, d, b, w % d);
    }
    assert forall|v: int, w: int| 0 <= v < hosts.len() && 0 <= w < hosts.len() && v != w implies hosts[v]
        != hosts[w] by {
        if hosts[v] == hosts[w] {
            lemma_fundamental_div_mod(v, d);
            lemma_fundamental_div_mod(w, d);
            assert(blocks[v / d] == blocks[w / d]);
            assert(v / d == w / d);
        }
    }
}

/// Whether a block is free.
pub fn check_block_free(busy: &[bool], size: usize, b: usize) -> (r: bool)
    requires
        size > 0,
    ensures
        r == block_free(busy@, size as nat, b as int),
{
    let n: usize = busy.len();
    if b >= n / size {
        return false;
    }
    proof {
        lemma_block_end(busy@.len(), size as nat, b as int);
    }
    let start: usize = b * size;
    let mut i: usize = 0;
    while i < size
        invariant
            i <= size,
            start == b * size,
            start + size <= n,
            n == busy@.len(),
            forall|h: int| start <= h < start + i ==> !#[trigger] busy@[h],
        decreases size - i,
    {
        if busy[start + i] {
            assert(busy@[start + i]);
            return false;
        }
        i += 1;
    }
    true
}

/// Which blocks cannot be allocated.
pub fn map_blocks(busy: &[bool], size: usize) -> (r: Vec<bool>)
    requires
        size > 0,
    ensures
        r@ == block_map(busy@, size as nat),
{
    let n: usize = busy.len() / size;
    let mut r: Vec<bool> = Vec::new();
    let mut b: usize = 0;
    while b < n
        invariant
            b <= n,
            size > 0,
            n == busy@.len() / size as nat,
            r@.len() == b,
            forall|i: int| 0 <= i < b ==> r@[i] == !block_free(busy@, size as nat, i),
        decreases n - b,
    {
        r.push(!check_block_free(busy, size, b));
        b += 1;
    }
    assert(r@ =~= block_map(busy@, size as nat));
    r
}

/// The hosts of the blocks, in order.
pub fn list_hosts(blocks: &Vec<usize>, size: usize, num_hosts: usize) -> (r: Vec<usize>)
    requires
        size > 0,
        forall|i: int| 0 <= i < blocks@.len() ==> (#[trigger] blocks@[i]) < num_hosts / size,
    ensures
        r@ == block_hosts(blocks@, size as nat),
{
    let mut r: Vec<usize> = Vec::new();
    let mut i: usize = 0;
    let ghost d = size as int;
    while i < blocks.len()
        invariant
            size > 0,
            d == size,
            i <= blocks@.len(),
            forall|i: int| 0 <= i < blocks@.len() ==> (#[trigger] blocks@[i]) < num_hosts / size,
            r@.len() == i * d,
            forall|w: int| 0 <= w < r@.len() ==> #[trigger] r@[w] == blocks@[w / d] * d + w % d,
        decreases blocks@.len() - i,
    {
        let b: usize = blocks[i];
        proof {
            assert(blocks@[i as int] < num_hosts / size);
            lemma_block_end(num_hosts as nat, size as nat, b as int);
        }
        let start: usize = b * size;
        let mut j: usize = 0;
        while j < size
            invariant
                size > 0,
                d == size,
                j <= size,
                i < blocks@.len(),
                b == blocks@[i as int],
                start == b * d,
                start + size <= usize::MAX,
                r@.len() == i * d + j,
                forall|w: int| 0 <= w < r@.len() ==> #[trigger] r@[w] == blocks@[w / d] * d + w % d,
            decreases size - j,
        {
            let ghost before = r@;
            r.push(start + j);
            proof {
                lemma_fundamental_div_mod_converse(i * d + j, d, i as int, j as int);
            }
            j += 1;
        }
        assert(i * d + d == (i + 1) * d) by (nonlinear_arith);
        i += 1;
    }
    proof {
        assert(r@.len() == blocks@.len() * d);
        assert(r@ =~= block_hosts(blocks@, size as nat));
    }
    r
}

/// Number of groups of `k` blocks among `n`; the last may be shorter.
pub open spec fn group_count(n: nat, k: nat) -> nat {
    if n % k == 0 {
        n / k
    } else {
        n / k + 1
    }
}

/// Where group `g` ends.
pub open spec fn group_end(n: nat, k: nat, g: nat) -> nat {
    if g * k + k <= n {
        g * k + k
    } else {
        n
    }
}

/// The blocks from `lo` to before `hi` that are not taken, in ascending order.
pub open spec fn free_between(taken: Seq<bool>, lo: nat, hi: nat) -> Seq<usize>
    decreases hi,
{
    if hi <= lo {
        Seq::empty()
    } else if taken[hi - 1] {
        free_between(taken, lo, (hi - 1) as nat)
    } else {
        free_between(taken, lo, (hi - 1) as nat).push((hi - 1) as usize)
    }
}

/// The blocks of group `g` that are not taken.
pub open spec fn group_free(taken: Seq<bool>, k: nat, g: nat) -> Seq<usize> {
    free_between(taken, g * k, group_end(taken.len(), k, g))
}

/// How many blocks of each group are not taken.
pub open spec fn free_counts(taken: Seq<bool>, k: nat, groups: nat) -> Seq<nat> {
    Seq::new(groups, |g: int| group_free(taken, k, g as nat).len())
}

/// All blocks that are not taken.
pub open spec fn all_free(taken: Seq<bool>) -> Seq<usize> {
    free_between(taken, 0, taken.len())
}

/// The first among the first `n` groups with the least free blocks that still fits `need`. A group
/// without free blocks does not count.
pub open spec fn best_fit(counts: Seq<nat>, need: nat, n: nat) -> Option<nat>
    decreases n,
{
    if n == 0 {
        None
    } else {
        let best = best_fit(counts, need, (n - 1) as nat);
        if counts[n - 1] > 0 && counts[n - 1] >= need && (best is None || counts[n - 1] < counts[best->0 as int]) {
            Some((n - 1) as nat)
        } else {
            best
        }
    }
}

/// The first among the first `n` groups with the most free blocks, if any has some.
pub open spec fn fullest(counts: Seq<nat>, n: nat) -> Option<nat>
    decreases n,
{
    if n == 0 {
        None
    } else {
        let best = fullest(counts, (n - 1) as nat);
        if counts[n - 1] > 0 && (best is None || counts[n - 1] > counts[best->0 as int]) {
            Some((n - 1) as nat)
        } else {
            best
        }
    }
}

/// The best fit fits, no other group that fits has less room, and it is the first of those with as
/// little room. There is none only if no group fits.
pub proof fn lemma_best_fit(counts: Seq<nat>, need: nat, n: nat)
    requires
        n <= counts.len(),
    ensures
        best_fit(counts, need, n) matches Some(g) ==> g < n && counts[g as int] > 0 && counts[g as int] >= need
            && forall|i: int|
            0 <= i < n && counts[i] > 0 && #[trigger] counts[i] >= need ==> counts[g as int] <= counts[i] && (i < g
                ==> counts[g as int] < counts[i]),
        best_fit(counts, need, n) is None ==> forall|i: int|
            0 <= i < n ==> #[trigger] counts[i] == 0 || counts[i] < need,
    decreases n,
{
    if n > 0 {
        lemma_best_fit(counts, need, (n - 1) as nat);
    }
}

/// The fullest group has free blocks, no other has more, and it is the first with so many. There is
/// none only if nothing is free.
pub proof fn lemma_fullest(counts: Seq<nat>, n: nat)
    requires
        n <= counts.len(),
    ensures
        fullest(counts, n) matches Some(g) ==> g < n && counts[g as int] > 0 && forall|i: int|
            0 <= i < n ==> #[trigger] counts[i] <= counts[g as int] && (i < g ==> counts[i] < counts[g as int]),
        fullest(counts, n) is None ==> forall|i: int| 0 <= i < n ==> #[trigger] counts[i] == 0,
    decreases n,
{
    if n > 0 {
        lemma_fullest(counts, (n - 1) as nat);
    }
}

/// `free_between` lists the free blocks of its range, each once and in order.
pub proof fn lemma_free_between(taken: Seq<bool>, lo: nat, hi: nat)
    requires
        hi <= taken.len(),
        taken.len() <= usize::MAX,
    ensures
        free_hosts(free_between(taken, lo, hi), taken),
        forall|i: int|
            0 <= i < free_between(taken, lo, hi).len() ==> lo <= (#[trigger] free_between(taken, lo, hi)[i]) < hi,
        forall|i: int, j: int|
            0 <= i < j < free_between(taken, lo, hi).len() ==> free_between(taken, lo, hi)[i] < free_between(
                taken,
                lo,
                hi,
            )[j],
        forall|b: int|
            lo <= b < hi && !taken[b] ==> free_between(taken, lo, hi).contains(#[trigger] (b as usize)),
        free_between(taken, lo, hi).len() <= if hi >= lo {
            hi - lo
        } else {
            0
        },
    decreases hi,
{
    if hi > lo {
        lemma_free_between(taken, lo, (hi - 1) as nat);
        let before = free_between(taken, lo, (hi - 1) as nat);
        let after = free_between(taken, lo, hi);
        assert forall|b: int| lo <= b < hi && !taken[b] implies after.contains(#[trigger] (b as usize)) by {
            if b < hi - 1 {
                assert(before.contains(b as usize));
                let i = choose|i: int| 0 <= i < before.len() && before[i] == b as usize;
                assert(after[i] == b as usize);
            } else {
                assert(after[after.len() - 1] == b as usize);
            }
        }
    }
}

/// Taking a free block makes one less free.
proof fn lemma_take_one(taken: Seq<bool>, lo: nat, hi: nat, b: int)
    requires
        0 <= lo <= b < taken.len(),
        hi <= taken.len(),
        !taken[b],
    ensures
        free_between(taken.update(b, true), lo, hi).len() == free_between(taken, lo, hi).len() - if b < hi {
            1int
        } else {
            0int
        },
    decreases hi,
{
    if hi > lo {
        lemma_take_one(taken, lo, (hi - 1) as nat, b);
    }
}

/// Taking distinct free blocks makes as many less free.
pub proof fn lemma_take_blocks(taken: Seq<bool>, blocks: Seq<usize>, n: nat)
    requires
        free_hosts(blocks, taken),
        n <= blocks.len(),
    ensures
        all_free(set_at(taken, blocks, true, n)).len() == all_free(taken).len() - n,
    decreases n,
{
    if n > 0 {
        lemma_take_blocks(taken, blocks, (n - 1) as nat);
        lemma_set_at(taken, blocks, true, (n - 1) as nat);
        let before = set_at(taken, blocks, true, (n - 1) as nat);
        let b = blocks[n - 1] as int;
        assert(!before[b]) by {
            assert(forall|i: int| 0 <= i < n - 1 ==> #[trigger] blocks[i] != blocks[n - 1]);
        }
        lemma_take_one(before, 0, before.len(), b);
    }
}

/// A free block is among those of its group.
pub proof fn lemma_block_group(taken: Seq<bool>, k: nat, b: int)
    requires
        k > 0,
        taken.len() <= usize::MAX,
        0 <= b < taken.len(),
        !taken[b],
    ensures
        0 <= b / k as int,
        b / (k as int) < group_count(taken.len(), k),
        group_free(taken, k, (b / k as int) as nat).contains(b as usize),
{
    let n = taken.len();
    let g = b / k as int;
    lemma_fundamental_div_mod(b, k as int);
    lemma_fundamental_div_mod(n as int, k as int);
    let q = n as int / k as int;
    let groups = group_count(n, k);
    assert(0 <= g && g * k <= b < g * k + k && g < groups) by (nonlinear_arith)
        requires
            k > 0,
            0 <= b < n,
            b == k as int * g + b % k as int,
            0 <= b % (k as int) < k,
            n == k as int * q + n as int % k as int,
            0 <= n as int % (k as int) < k,
            groups == (if n as int % k as int == 0 {
                q
            } else {
                q + 1
            }),
    ;
    assert(g as nat * k == g * k);
    lemma_free_between(taken, (g as nat) * k, group_end(n, k, g as nat));
}

/// Where a free block is, its group has free blocks.
pub proof fn lemma_some_group_free(taken: Seq<bool>, k: nat)
    requires
        k > 0,
        taken.len() <= usize::MAX,
        all_free(taken).len() > 0,
    ensures
        fullest(free_counts(taken, k, group_count(taken.len(), k)), group_count(taken.len(), k)) is Some,
{
    lemma_free_between(taken, 0, taken.len());
    let b = all_free(taken)[0] as int;
    let g = b / k as int;
    lemma_block_group(taken, k, b);
    let groups = group_count(taken.len(), k);
    let counts = free_counts(taken, k, groups);
    lemma_fullest(counts, groups);
    assert(counts[g] > 0);
}

/// Blocks whose hosts are the same are the same.
pub proof fn lemma_hosts_tell_blocks(busy: Seq<bool>, size: nat, a: Seq<usize>, b: Seq<usize>)
    requires
        size > 0,
        busy.len() <= usize::MAX,
        free_hosts(a, block_map(busy, size)),
        free_hosts(b, block_map(busy, size)),
        block_hosts(a, size).to_set() == block_hosts(b, size).to_set(),
    ensures
        a.to_set() == b.to_set(),
{
    lemma_hosts_within(busy, size, a, b);
    lemma_hosts_within(busy, size, b, a);
    assert(a.to_set() =~= b.to_set());
}

proof fn lemma_hosts_within(busy: Seq<bool>, size: nat, a: Seq<usize>, b: Seq<usize>)
    requires
        size > 0,
        busy.len() <= usize::MAX,
        free_hosts(a, block_map(busy, size)),
        free_hosts(b, block_map(busy, size)),
        block_hosts(a, size).to_set().subset_of(block_hosts(b, size).to_set()),
    ensures
        a.to_set().subset_of(b.to_set()),
{
    let d = size as int;
    let ha = block_hosts(a, size);
    let hb = block_hosts(b, size);
    assert forall|x: usize| a.to_set().contains(x) implies b.to_set().contains(x) by {
        let i = choose|i: int| 0 <= i < a.len() && a[i] == x;
        let v = i * d;
        assert(0 <= v < a.len() * size) by (nonlinear_arith)
            requires
                0 <= i < a.len(),
                v == i * d,
                d == size,
                d > 0,
        ;
        lemma_fundamental_div_mod_converse(v, d, i, 0);
        lemma_block_end(busy.len(), size, x as int);
        assert(ha[v] == x * size);
        assert(ha.to_set().contains(ha[v]));
        assert(hb.to_set().contains(ha[v]));
        let w = choose|w: int| 0 <= w < hb.len() && hb[w] == ha[v];
        lemma_fundamental_div_mod(w, d);
        assert(0 <= w / d && w / d < b.len()) by (nonlinear_arith)
            requires
                0 <= w < b.len() * size,
                d == size,
                d > 0,
                w == d * (w / d) + w % d,
                0 <= w % d < d,
        ;
        let y = b[w / d] as int;
        lemma_block_end(busy.len(), size, y);
        assert(y * size + w % d == x * size);
        lemma_fundamental_div_mod_converse(y * size + w % d, d, y, w % d);
        lemma_fundamental_div_mod_converse(x * size, d, x as int, 0);
        assert(b.to_set().contains(b[w / d]));
    }
}

/// As many of the free blocks of group `g` as are needed, from the first.
pub open spec fn group_part(taken: Seq<bool>, k: nat, g: nat, need: nat) -> Seq<usize> {
    let list = group_free(taken, k, g);
    if list.len() <= need {
        list
    } else {
        list.take(need as int)
    }
}

/// `taken` with these blocks taken too.
pub open spec fn take_blocks(taken: Seq<bool>, blocks: Seq<usize>) -> Seq<bool> {
    set_at(taken, blocks, true, blocks.len())
}

/// Blocks from the fullest group, then from the one that is fullest after that, until there are
/// enough.
pub open spec fn greedy(taken: Seq<bool>, k: nat, need: nat) -> Seq<usize>
    decreases need,
{
    let groups = group_count(taken.len(), k);
    if need == 0 {
        Seq::empty()
    } else {
        match fullest(free_counts(taken, k, groups), groups) {
            Some(g) => {
                let part = group_part(taken, k, g, need);
                if 0 < part.len() <= need {
                    part + greedy(take_blocks(taken, part), k, (need - part.len()) as nat)
                } else {
                    Seq::empty()
                }
            },
            None => Seq::empty(),
        }
    }
}

/// Where `need` blocks go: in the group that they fit best, or else in the fullest groups. There
/// has to be room, and at least one free block.
pub open spec fn block_choice(taken: Seq<bool>, k: nat, need: nat) -> Option<Seq<usize>> {
    let groups = group_count(taken.len(), k);
    if all_free(taken).len() < need || all_free(taken).len() == 0 {
        None
    } else {
        match best_fit(free_counts(taken, k, groups), need, groups) {
            Some(g) => Some(group_free(taken, k, g).take(need as int)),
            None => Some(greedy(taken, k, need)),
        }
    }
}

/// The groups lie within the blocks.
pub proof fn lemma_group_bounds(n: nat, k: nat, g: nat)
    requires
        k > 0,
        g < group_count(n, k),
    ensures
        g * k < n,
        g * k <= group_end(n, k, g) <= n,
        group_end(n, k, g) - g * k <= k,
{
    lemma_fundamental_div_mod(n as int, k as int);
    let q = n as int / k as int;
    assert(g * k < n) by (nonlinear_arith)
        requires
            k > 0,
            n == k as int * q + n as int % k as int,
            0 <= n as int % (k as int) < k,
            g < (if n as int % k as int == 0 {
                q
            } else {
                q + 1
            }),
    ;
}

/// A prefix of a list of free blocks is a list of free blocks.
pub proof fn lemma_free_prefix(list: Seq<usize>, taken: Seq<bool>, n: int)
    requires
        free_hosts(list, taken),
        0 <= n <= list.len(),
    ensures
        free_hosts(list.take(n), taken),
{
    assert forall|i: int| 0 <= i < n implies (#[trigger] list.take(n)[i]) < taken.len() && !taken[list.take(
        n,
    )[i] as int] by {
        assert(list.take(n)[i] == list[i]);
    }
}

/// Free blocks, and more blocks that are free after those are taken, are free together.
pub proof fn lemma_free_concat(a: Seq<usize>, b: Seq<usize>, taken: Seq<bool>)
    requires
        free_hosts(a, taken),
        free_hosts(b, take_blocks(taken, a)),
    ensures
        free_hosts(a + b, taken),
{
    lemma_set_at(taken, a, true, a.len());
    let after = take_blocks(taken, a);
    let c = a + b;
    assert forall|j: int| 0 <= j < b.len() implies (#[trigger] b[j]) < taken.len() && !taken[b[j] as int]
        && !a.contains(b[j]) by {
        assert(!after[b[j] as int]);
        if a.contains(b[j]) {
            let i = choose|i: int| 0 <= i < a.len() && a[i] == b[j];
            assert(0 <= i < a.len() && a[i] == b[j] as int);
        }
    }
    assert forall|i: int| 0 <= i < c.len() implies (#[trigger] c[i]) < taken.len() && !taken[c[i] as int] by {
        if i >= a.len() {
            assert(c[i] == b[i - a.len()]);
        } else {
            assert(c[i] == a[i]);
        }
    }
    assert forall|i: int, j: int| 0 <= i < c.len() && 0 <= j < c.len() && i != j implies c[i] != c[j] by {
        if i < a.len() && j >= a.len() {
            assert(c[j] == b[j - a.len()]);
            assert(a.contains(a[i]));
        } else if j < a.len() && i >= a.len() {
            assert(c[i] == b[i - a.len()]);
            assert(a.contains(a[j]));
        } else if i >= a.len() {
            assert(c[i] == b[i - a.len()] && c[j] == b[j - a.len()]);
        }
    }
}

/// With enough free blocks, the greedy choice finds as many as are needed.
pub proof fn lemma_greedy(taken: Seq<bool>, k: nat, need: nat)
    requires
        k > 0,
        taken.len() <= usize::MAX,
        all_free(taken).len() >= need,
    ensures
        greedy(taken, k, need).len() == need,
        free_hosts(greedy(taken, k, need), taken),
    decreases need,
{
    if need > 0 {
        let groups = group_count(taken.len(), k);
        let counts = free_counts(taken, k, groups);
        lemma_some_group_free(taken, k);
        lemma_fullest(counts, groups);
        let g = fullest(counts, groups)->0;
        lemma_group_bounds(taken.len(), k, g);
        lemma_free_between(taken, g * k, group_end(taken.len(), k, g));
        let part = group_part(taken, k, g, need);
        if group_free(taken, k, g).len() > need {
            lemma_free_prefix(group_free(taken, k, g), taken, need as int);
        }
        lemma_take_blocks(taken, part, part.len());
        lemma_set_at(taken, part, true, part.len());
        lemma_greedy(take_blocks(taken, part), k, (need - part.len()) as nat);
        lemma_free_concat(part, greedy(take_blocks(taken, part), k, (need - part.len()) as nat), taken);
    }
}

/// The blocks that are chosen are as many as needed, distinct and free.
pub proof fn lemma_block_choice(taken: Seq<bool>, k: nat, need: nat)
    requires
        k > 0,
        taken.len() <= usize::MAX,
    ensures
        block_choice(taken, k, need) matches Some(blocks) ==> blocks.len() == need && free_hosts(blocks, taken),
{
    let groups = group_count(taken.len(), k);
    let counts = free_counts(taken, k, groups);
    if block_choice(taken, k, need) is Some {
        lemma_best_fit(counts, need, groups);
        match best_fit(counts, need, groups) {
            Some(g) => {
                lemma_group_bounds(taken.len(), k, g);
                lemma_free_between(taken, g * k, group_end(taken.len(), k, g));
                lemma_free_prefix(group_free(taken, k, g), taken, need as int);
            },
            None => {
                lemma_greedy(taken, k, need);
            },
        }
    }
}

/// The blocks of a range that are not taken.
pub fn list_free(taken: &Vec<bool>, lo: usize, hi: usize) -> (r: Vec<usize>)
    requires
        hi <= taken@.len(),
    ensures
        r@ == free_between(taken@, lo as nat, hi as nat),
{
    let mut r: Vec<usize> = Vec::new();
    let mut b: usize = lo;
    while b < hi
        invariant
            lo <= b,
            b <= hi || b == lo,
            hi <= taken@.len(),
            r@ == free_between(taken@, lo as nat, b as nat),
        decreases hi - b,
    {
        if !taken[b] {
            r.push(b);
        }
        b += 1;
    }
    r
}

/// The number of groups.
pub fn count_groups(n: usize, k: usize) -> (r: usize)
    requires
        k > 0,
    ensures
        r == group_count(n as nat, k as nat),
        r <= n,
{
    proof {
        lemma_fundamental_div_mod(n as int, k as int);
        assert(n as int / k as int <= n && (n as int % k as int != 0 ==> n as int / k as int + 1 <= n)) by (nonlinear_arith)
            requires
                k > 0,
                n >= 0,
                n as int == k as int * (n as int / k as int) + n as int % k as int,
                0 <= n as int % (k as int) < k,
        ;
    }
    if n % k == 0 {
        n / k
    } else {
        n / k + 1
    }
}

/// The blocks of a group that are not taken.
pub fn list_group(taken: &Vec<bool>, k: usize, g: usize) -> (r: Vec<usize>)
    requires
        k > 0,
        g < group_count(taken@.len(), k as nat),
    ensures
        r@ == group_free(taken@, k as nat, g as nat),
        free_hosts(r@, taken@),
{
    let n: usize = taken.len();
    proof {
        lemma_group_bounds(n as nat, k as nat, g as nat);
        lemma_free_between(taken@, (g * k) as nat, group_end(n as nat, k as nat, g as nat));
    }
    let lo: usize = g * k;
    let hi: usize = if n - lo < k {
        n
    } else {
        lo + k
    };
    list_free(taken, lo, hi)
}

/// How many blocks of each group are not taken.
pub fn count_free(taken: &Vec<bool>, k: usize) -> (r: Vec<usize>)
    requires
        k > 0,
    ensures
        r@.len() == group_count(taken@.len(), k as nat),
        r@.map_values(|c: usize| c as nat) == free_counts(taken@, k as nat, r@.len()),
{
    let groups: usize = count_groups(taken.len(), k);
    let mut r: Vec<usize> = Vec::new();
    let mut g: usize = 0;
    while g < groups
        invariant
            k > 0,
            g <= groups,
            groups == group_count(taken@.len(), k as nat),
            r@.len() == g,
            forall|i: int| 0 <= i < g ==> #[trigger] r@[i] == group_free(taken@, k as nat, i as nat).len(),
        decreases groups - g,
    {
        r.push(list_group(taken, k, g).len());
        g += 1;
    }
    proof {
        assert(r@.map_values(|c: usize| c as nat) =~= free_counts(taken@, k as nat, r@.len()));
    }
    r
}

/// The group that fits best.
pub fn find_best_fit(counts: &Vec<usize>, need: usize) -> (r: Option<usize>)
    ensures
        ({
            let c = counts@.map_values(|c: usize| c as nat);
            match best_fit(c, need as nat, c.len()) {
                Some(g) => r == Some(g as usize) && g < counts@.len(),
                None => r is None,
            }
        }),
{
    let ghost c = counts@.map_values(|c: usize| c as nat);
    let mut best: Option<usize> = None;
    let mut i: usize = 0;
    while i < counts.len()
        invariant
            i <= counts@.len(),
            c == counts@.map_values(|c: usize| c as nat),
            match best_fit(c, need as nat, i as nat) {
                Some(g) => best == Some(g as usize) && g < i,
                None => best is None,
            },
        decreases counts@.len() - i,
    {
        let better = match best {
            Some(b) => counts[i] < counts[b],
            None => true,
        };
        if counts[i] > 0 && counts[i] >= need && better {
            best = Some(i);
        }
        i += 1;
    }
    best
}

/// The group with the most room.
pub fn find_fullest(counts: &Vec<usize>) -> (r: Option<usize>)
    ensures
        ({
            let c = counts@.map_values(|c: usize| c as nat);
            match fullest(c, c.len()) {
                Some(g) => r == Some(g as usize) && g < counts@.len(),
                None => r is None,
            }
        }),
{
    let ghost c = counts@.map_values(|c: usize| c as nat);
    let mut best: Option<usize> = None;
    let mut i: usize = 0;
    while i < counts.len()
        invariant
            i <= counts@.len(),
            c == counts@.map_values(|c: usize| c as nat),
            match fullest(c, i as nat) {
                Some(g) => best == Some(g as usize) && g < i,
                None => best is None,
            },
        decreases counts@.len() - i,
    {
        let better = match best {
            Some(b) => counts[i] > counts[b],
            None => true,
        };
        if counts[i] > 0 && better {
            best = Some(i);
        }
        i += 1;
    }
    best
}

/// Takes the needed blocks from the fullest groups.
fn pick_greedily(taken: &mut Vec<bool>, k: usize, need: usize) -> (r: Vec<usize>)
    requires
        k > 0,
        all_free(old(taken)@).len() >= need,
    ensures
        r@ == greedy(old(taken)@, k as nat, need as nat),
{
    let n: usize = taken.len();
    let mut r: Vec<usize> = Vec::new();
    let mut left: usize = need;
    proof {
        assert(r@ + greedy(taken@, k as nat, left as nat) =~= greedy(taken@, k as nat, left as nat));
    }
    while left > 0
        invariant
            k > 0,
            n == taken@.len(),
            all_free(taken@).len() >= left,
            r@ + greedy(taken@, k as nat, left as nat) == greedy(old(taken)@, k as nat, need as nat),
        decreases left,
    {
        let counts = count_free(taken, k);
        let ghost before = taken@;
        let ghost c = free_counts(before, k as nat, counts@.len());
        proof {
            lemma_some_group_free(before, k as nat);
            lemma_fullest(c, counts@.len());
        }
        match find_fullest(&counts) {
            Some(g) => {
                let mut part = list_group(taken, k, g);
                let ghost whole = part@;
                if part.len() > left {
                    part.truncate(left);
                    proof {
                        assert(part@ =~= whole.take(left as int));
                        lemma_free_prefix(whole, before, left as int);
                    }
                }
                proof {
                    assert(c[g as int] == whole.len());
                    assert(part@ == group_part(before, k as nat, g as nat, left as nat));
                    lemma_take_blocks(before, part@, part@.len());
                    lemma_set_at(before, part@, true, part@.len());
                }
                crate::simulator::sim_state::write_at(taken, &part, true);
                proof {
                    let rest = greedy(taken@, k as nat, (left - part@.len()) as nat);
                    assert(greedy(before, k as nat, left as nat) == part@ + rest);
                    assert(r@ + (part@ + rest) =~= (r@ + part@) + rest);
                }
                left -= part.len();
                r.append(&mut part);
            },
            None => {
                return r;
            },
        }
    }
    proof {
        assert(r@ + greedy(taken@, k as nat, 0) =~= r@);
    }
    r
}

/// Chooses the blocks for a job.
pub fn choose_blocks(taken: &Vec<bool>, k: usize, need: usize) -> (r: Option<Vec<usize>>)
    requires
        k > 0,
    ensures
        r is Some == block_choice(taken@, k as nat, need as nat) is Some,
        r matches Some(blocks) ==> {
            &&& Some(blocks@) == block_choice(taken@, k as nat, need as nat)
            &&& blocks@.len() == need
            &&& free_hosts(blocks@, taken@)
        },
{
    let n: usize = taken.len();
    proof {
        lemma_block_choice(taken@, k as nat, need as nat);
    }
    let free: usize = list_free(taken, 0, n).len();
    if free < need || free == 0 {
        return None;
    }
    let counts = count_free(taken, k);
    let ghost c = free_counts(taken@, k as nat, counts@.len());
    proof {
        lemma_best_fit(c, need as nat, counts@.len());
    }
    match find_best_fit(&counts, need) {
        Some(g) => {
            let mut blocks = list_group(taken, k, g);
            let ghost whole = blocks@;
            proof {
                assert(c[g as int] == whole.len());
            }
            blocks.truncate(need);
            proof {
                assert(blocks@ =~= whole.take(need as int));
            }
            Some(blocks)
        },
        None => {
            let mut left: Vec<bool> = copy_flags(taken);
            Some(pick_greedily(&mut left, k, need))
        },
    }
}

/// A copy.
pub fn copy_flags(v: &Vec<bool>) -> (r: Vec<bool>)
    ensures
        r@ == v@,
{
    let mut r: Vec<bool> = Vec::new();
    let mut i: usize = 0;
    while i < v.len()
        invariant
            i <= v@.len(),
            r@ == v@.take(i as int),
        decreases v@.len() - i,
    {
        r.push(v[i]);
        proof {
            assert(r@ =~= v@.take(i + 1));
        }
        i += 1;
    }
    proof {
        assert(v@.take(v@.len() as int) =~= v@);
    }
    r
}

/// The blocks of the pods that are complete, if a pod has `p` blocks.
pub open spec fn whole_pods(taken: Seq<bool>, p: nat) -> Seq<bool> {
    taken.take((taken.len() / p * p) as int)
}

/// The blocks of pod `g`.
pub open spec fn pod_blocks(taken: Seq<bool>, p: nat, g: nat) -> Seq<bool> {
    taken.subrange((g * p) as int, (g * p + p) as int)
}

/// Positions within a pod as positions among all blocks.
pub open spec fn shifted(blocks: Seq<usize>, by: nat) -> Seq<usize> {
    blocks.map_values(|b: usize| (b + by) as usize)
}

/// Whole pods are groups of full size.
pub proof fn lemma_whole_pods(taken: Seq<bool>, p: nat)
    requires
        p > 0,
    ensures
        taken.len() / p * p <= taken.len(),
        group_count(whole_pods(taken, p).len(), p) == taken.len() / p,
        whole_pods(taken, p).len() == taken.len() / p * p,
        whole_pods(taken, p).len() % p == 0,
{
    let n = taken.len();
    let q = n / p;
    lemma_fundamental_div_mod(n as int, p as int);
    assert(q * p == p as int * (n as int / p as int)) by (nonlinear_arith)
        requires
            q == n as int / p as int,
    ;
    assert(q * p <= n);
    lemma_fundamental_div_mod_converse((q * p) as int, p as int, q as int, 0);
}

/// What is free in a pod, seen from the pod and from all blocks.
pub proof fn lemma_pod_free(taken: Seq<bool>, lo: nat, m: nat, hi: nat)
    requires
        lo + m <= taken.len(),
        taken.len() <= usize::MAX,
        hi <= m,
    ensures
        shifted(free_between(taken.subrange(lo as int, (lo + m) as int), 0, hi), lo) == free_between(
            taken,
            lo,
            lo + hi,
        ),
    decreases hi,
{
    let part = taken.subrange(lo as int, (lo + m) as int);
    if hi > 0 {
        lemma_pod_free(taken, lo, m, (hi - 1) as nat);
        let a = free_between(part, 0, (hi - 1) as nat);
        assert(part[hi - 1] == taken[lo + hi - 1]);
        assert(shifted(a.push((hi - 1) as usize), lo) =~= shifted(a, lo).push((lo + hi - 1) as usize));
    } else {
        assert(shifted(Seq::<usize>::empty(), lo) =~= Seq::<usize>::empty());
    }
}

/// Blocks that are free in a pod are free.
pub proof fn lemma_shifted_free(taken: Seq<bool>, lo: nat, m: nat, blocks: Seq<usize>)
    requires
        lo + m <= taken.len(),
        taken.len() <= usize::MAX,
        free_hosts(blocks, taken.subrange(lo as int, (lo + m) as int)),
    ensures
        free_hosts(shifted(blocks, lo), taken),
{
    let part = taken.subrange(lo as int, (lo + m) as int);
    let s = shifted(blocks, lo);
    assert forall|i: int| 0 <= i < s.len() implies (#[trigger] s[i]) < taken.len() && !taken[s[i] as int] && s[i]
        == blocks[i] + lo by {
        assert(!part[blocks[i] as int]);
    }
    assert forall|i: int, j: int| 0 <= i < s.len() && 0 <= j < s.len() && i != j implies s[i] != s[j] by {
        assert(s[i] == blocks[i] + lo && s[j] == blocks[j] + lo);
    }
}

/// Blocks in pod `g`, as many as are needed or fit.
pub open spec fn pod_part(taken: Seq<bool>, p: nat, k: nat, g: nat, need: nat) -> Seq<usize> {
    let room = group_free(taken, p, g).len();
    let count = if need <= room {
        need
    } else {
        room
    };
    match block_choice(pod_blocks(taken, p, g), k, count) {
        Some(blocks) => shifted(blocks, g * p),
        None => Seq::empty(),
    }
}

/// Blocks from the fullest pod, then from the one that is fullest after that, until there are
/// enough. Within a pod of `p` blocks they are chosen by groups of `k`.
pub open spec fn pods_greedy(taken: Seq<bool>, p: nat, k: nat, need: nat) -> Seq<usize>
    decreases need,
{
    let pods = group_count(taken.len(), p);
    if need == 0 {
        Seq::empty()
    } else {
        match fullest(free_counts(taken, p, pods), pods) {
            Some(g) => {
                let part = pod_part(taken, p, k, g, need);
                if 0 < part.len() <= need {
                    part + pods_greedy(take_blocks(taken, part), p, k, (need - part.len()) as nat)
                } else {
                    Seq::empty()
                }
            },
            None => Seq::empty(),
        }
    }
}

/// Where `need` blocks go in pods of `p` blocks with groups of `k`: in the pod that they fit best,
/// or else in the fullest pods.
pub open spec fn pod_choice(all: Seq<bool>, p: nat, k: nat, need: nat) -> Option<Seq<usize>> {
    let taken = whole_pods(all, p);
    let pods = group_count(taken.len(), p);
    if all_free(taken).len() < need {
        None
    } else if need == 0 {
        Some(Seq::empty())
    } else {
        match best_fit(free_counts(taken, p, pods), need, pods) {
            Some(g) => Some(pod_part(taken, p, k, g, need)),
            None => Some(pods_greedy(taken, p, k, need)),
        }
    }
}

/// What is chosen in a pod is free, and as much as is needed or fits.
pub proof fn lemma_pod_part(taken: Seq<bool>, p: nat, k: nat, g: nat, need: nat)
    requires
        p > 0,
        k > 0,
        taken.len() <= usize::MAX,
        g < group_count(taken.len(), p),
        g * p + p <= taken.len(),
        group_free(taken, p, g).len() > 0,
    ensures
        free_hosts(pod_part(taken, p, k, g, need), taken),
        pod_part(taken, p, k, g, need).len() == if need <= group_free(taken, p, g).len() {
            need
        } else {
            group_free(taken, p, g).len()
        },
{
    let part = pod_blocks(taken, p, g);
    lemma_pod_free(taken, g * p, p, p);
    assert(all_free(part).len() == group_free(taken, p, g).len());
    let room = group_free(taken, p, g).len();
    let count = if need <= room {
        need
    } else {
        room
    };
    lemma_block_choice(part, k, count);
    lemma_shifted_free(taken, g * p, p, block_choice(part, k, count)->0);
}

/// With enough free blocks, the greedy choice over pods finds as many as are needed.
pub proof fn lemma_pods_greedy(taken: Seq<bool>, p: nat, k: nat, need: nat)
    requires
        p > 0,
        k > 0,
        taken.len() <= usize::MAX,
        taken.len() % p == 0,
        all_free(taken).len() >= need,
    ensures
        pods_greedy(taken, p, k, need).len() == need,
        free_hosts(pods_greedy(taken, p, k, need), taken),
    decreases need,
{
    if need > 0 {
        let pods = group_count(taken.len(), p);
        let counts = free_counts(taken, p, pods);
        lemma_some_group_free(taken, p);
        lemma_fullest(counts, pods);
        let g = fullest(counts, pods)->0;
        lemma_full_group(taken.len(), p, g);
        lemma_pod_part(taken, p, k, g, need);
        let part = pod_part(taken, p, k, g, need);
        lemma_take_blocks(taken, part, part.len());
        lemma_set_at(taken, part, true, part.len());
        lemma_pods_greedy(take_blocks(taken, part), p, k, (need - part.len()) as nat);
        lemma_free_concat(part, pods_greedy(take_blocks(taken, part), p, k, (need - part.len()) as nat), taken);
    }
}

/// Without a remainder, every group is full.
pub proof fn lemma_full_group(n: nat, p: nat, g: nat)
    requires
        p > 0,
        n % p == 0,
        g < group_count(n, p),
    ensures
        g * p + p <= n,
        group_end(n, p, g) == g * p + p,
{
    lemma_fundamental_div_mod(n as int, p as int);
    assert(g * p + p <= p * (n / p)) by (nonlinear_arith)
        requires
            g < n / p,
    ;
}

/// The blocks that are chosen over pods are as many as needed, distinct and free.
pub proof fn lemma_pod_choice(all: Seq<bool>, p: nat, k: nat, need: nat)
    requires
        p > 0,
        k > 0,
        all.len() <= usize::MAX,
    ensures
        pod_choice(all, p, k, need) matches Some(blocks) ==> blocks.len() == need && free_hosts(blocks, all),
{
    let taken = whole_pods(all, p);
    let pods = group_count(taken.len(), p);
    let counts = free_counts(taken, p, pods);
    lemma_whole_pods(all, p);
    if pod_choice(all, p, k, need) is Some && need > 0 {
        lemma_best_fit(counts, need, pods);
        match best_fit(counts, need, pods) {
            Some(g) => {
                lemma_full_group(taken.len(), p, g);
                lemma_pod_part(taken, p, k, g, need);
            },
            None => {
                lemma_pods_greedy(taken, p, k, need);
            },
        }
        let blocks = pod_choice(all, p, k, need)->0;
        assert forall|i: int| 0 <= i < blocks.len() implies (#[trigger] blocks[i]) < all.len()
            && !all[blocks[i] as int] by {
            assert(!taken[blocks[i] as int]);
        }
    }
}

/// Blocks in the pod that they fit best; while they fit in none, the fullest pod is filled first.
pub open spec fn fill_pods(taken: Seq<bool>, p: nat, need: nat) -> Seq<usize>
    decreases need,
{
    let pods = group_count(taken.len(), p);
    let counts = free_counts(taken, p, pods);
    if need == 0 {
        Seq::empty()
    } else {
        match best_fit(counts, need, pods) {
            Some(g) => group_free(taken, p, g).take(need as int),
            None => match fullest(counts, pods) {
                Some(g) => {
                    let part = group_free(taken, p, g);
                    if 0 < part.len() <= need {
                        part + fill_pods(take_blocks(taken, part), p, (need - part.len()) as nat)
                    } else {
                        Seq::empty()
                    }
                },
                None => Seq::empty(),
            },
        }
    }
}

/// Where `need` blocks go in pods of `p` blocks.
pub open spec fn fill_choice(all: Seq<bool>, p: nat, need: nat) -> Option<Seq<usize>> {
    let taken = whole_pods(all, p);
    if all_free(taken).len() < need {
        None
    } else {
        Some(fill_pods(taken, p, need))
    }
}

/// With enough free blocks, filling pods finds as many as are needed.
pub proof fn lemma_fill_pods(taken: Seq<bool>, p: nat, need: nat)
    requires
        p > 0,
        taken.len() <= usize::MAX,
        all_free(taken).len() >= need,
    ensures
        fill_pods(taken, p, need).len() == need,
        free_hosts(fill_pods(taken, p, need), taken),
    decreases need,
{
    if need > 0 {
        let pods = group_count(taken.len(), p);
        let counts = free_counts(taken, p, pods);
        lemma_some_group_free(taken, p);
        lemma_fullest(counts, pods);
        lemma_best_fit(counts, need, pods);
        match best_fit(counts, need, pods) {
            Some(g) => {
                lemma_group_bounds(taken.len(), p, g);
                lemma_free_between(taken, g * p, group_end(taken.len(), p, g));
                lemma_free_prefix(group_free(taken, p, g), taken, need as int);
            },
            None => {
                let g = fullest(counts, pods)->0;
                lemma_group_bounds(taken.len(), p, g);
                lemma_free_between(taken, g * p, group_end(taken.len(), p, g));
                let part = group_free(taken, p, g);
                assert(counts[g as int] == part.len());
                lemma_take_blocks(taken, part, part.len());
                lemma_set_at(taken, part, true, part.len());
                lemma_fill_pods(take_blocks(taken, part), p, (need - part.len()) as nat);
                lemma_free_concat(part, fill_pods(take_blocks(taken, part), p, (need - part.len()) as nat), taken);
            },
        }
    }
}

/// The blocks that pods are filled with are as many as needed, distinct and free.
pub proof fn lemma_fill_choice(all: Seq<bool>, p: nat, need: nat)
    requires
        p > 0,
        all.len() <= usize::MAX,
    ensures
        fill_choice(all, p, need) matches Some(blocks) ==> blocks.len() == need && free_hosts(blocks, all),
{
    let taken = whole_pods(all, p);
    lemma_whole_pods(all, p);
    if fill_choice(all, p, need) is Some {
        lemma_fill_pods(taken, p, need);
        let blocks = fill_choice(all, p, need)->0;
        assert forall|i: int| 0 <= i < blocks.len() implies (#[trigger] blocks[i]) < all.len()
            && !all[blocks[i] as int] by {
            assert(!taken[blocks[i] as int]);
        }
    }
}

/// The blocks of the complete pods.
pub fn keep_whole_pods(taken: &Vec<bool>, p: usize) -> (r: Vec<bool>)
    requires
        p > 0,
    ensures
        r@ == whole_pods(taken@, p as nat),
{
    let n: usize = taken.len();
    proof {
        lemma_whole_pods(taken@, p as nat);
    }
    copy_range(taken, 0, n / p * p)
}

/// A part of the flags.
fn copy_range(v: &Vec<bool>, lo: usize, hi: usize) -> (r: Vec<bool>)
    requires
        lo <= hi <= v@.len(),
    ensures
        r@ == v@.subrange(lo as int, hi as int),
{
    let mut r: Vec<bool> = Vec::new();
    let mut i: usize = lo;
    while i < hi
        invariant
            lo <= i <= hi <= v@.len(),
            r@ == v@.subrange(lo as int, i as int),
        decreases hi - i,
    {
        r.push(v[i]);
        proof {
            assert(r@ =~= v@.subrange(lo as int, i + 1));
        }
        i += 1;
    }
    r
}

/// Chooses blocks in a pod.
fn choose_in_pod(taken: &Vec<bool>, p: usize, k: usize, g: usize, need: usize) -> (r: Vec<usize>)
    requires
        p > 0,
        k > 0,
        taken@.len() % p as nat == 0,
        g < group_count(taken@.len(), p as nat),
        0 < need <= group_free(taken@, p as nat, g as nat).len(),
    ensures
        r@ == pod_part(taken@, p as nat, k as nat, g as nat, need as nat),
        free_hosts(r@, taken@),
        r@.len() == need,
{
    let n: usize = taken.len();
    proof {
        lemma_full_group(n as nat, p as nat, g as nat);
        lemma_pod_part(taken@, p as nat, k as nat, g as nat, need as nat);
        lemma_pod_free(taken@, (g * p) as nat, p as nat, p as nat);
    }
    let base: usize = g * p;
    let pod = copy_range(taken, base, base + p);
    proof {
        assert(pod@ == pod_blocks(taken@, p as nat, g as nat));
        assert(all_free(pod@).len() == group_free(taken@, p as nat, g as nat).len());
    }
    let mut r: Vec<usize> = Vec::new();
    if let Some(blocks) = choose_blocks(&pod, k, need) {
        let mut i: usize = 0;
        while i < blocks.len()
            invariant
                i <= blocks@.len(),
                base + pod@.len() <= n,
                free_hosts(blocks@, pod@),
                r@ == shifted(blocks@.take(i as int), base as nat),
            decreases blocks@.len() - i,
        {
            proof {
                assert(blocks@[i as int] < pod@.len());
            }
            let b: usize = base + blocks[i];
            r.push(b);
            proof {
                assert(blocks@.take(i + 1) =~= blocks@.take(i as int).push(blocks@[i as int]));
                assert(r@ =~= shifted(blocks@.take(i + 1), base as nat));
            }
            i += 1;
        }
        proof {
            assert(blocks@.take(blocks@.len() as int) =~= blocks@);
        }
    }
    r
}

/// Chooses the blocks for a job over pods.
pub fn choose_in_pods(all: &Vec<bool>, p: usize, k: usize, need: usize) -> (r: Option<Vec<usize>>)
    requires
        p > 0,
        k > 0,
    ensures
        r is Some == pod_choice(all@, p as nat, k as nat, need as nat) is Some,
        r matches Some(blocks) ==> {
            &&& Some(blocks@) == pod_choice(all@, p as nat, k as nat, need as nat)
            &&& blocks@.len() == need
            &&& free_hosts(blocks@, all@)
        },
{
    let total: usize = all.len();
    proof {
        lemma_pod_choice(all@, p as nat, k as nat, need as nat);
        lemma_whole_pods(all@, p as nat);
    }
    let mut taken = keep_whole_pods(all, p);
    let n: usize = taken.len();
    let free: usize = list_free(&taken, 0, n).len();
    if free < need {
        return None;
    }
    if need == 0 {
        let none: Vec<usize> = Vec::new();
        proof {
            assert(none@ =~= Seq::<usize>::empty());
        }
        return Some(none);
    }
    let counts = count_free(&taken, p);
    let ghost c = free_counts(taken@, p as nat, counts@.len());
    proof {
        lemma_best_fit(c, need as nat, counts@.len());
    }
    if let Some(g) = find_best_fit(&counts, need) {
        proof {
            assert(c[g as int] == group_free(taken@, p as nat, g as nat).len());
        }
        return Some(choose_in_pod(&taken, p, k, g, need));
    }
    let ghost t0 = taken@;
    let mut r: Vec<usize> = Vec::new();
    let mut left: usize = need;
    proof {
        assert(r@ + pods_greedy(taken@, p as nat, k as nat, left as nat) =~= pods_greedy(
            taken@,
            p as nat,
            k as nat,
            left as nat,
        ));
    }
    while left > 0
        invariant
            p > 0,
            k > 0,
            n == taken@.len(),
            n % p == 0,
            all_free(taken@).len() >= left,
            r@ + pods_greedy(taken@, p as nat, k as nat, left as nat) == pods_greedy(t0, p as nat, k as nat, need as nat),
        decreases left,
    {
        let counts = count_free(&taken, p);
        let ghost before = taken@;
        let ghost c = free_counts(before, p as nat, counts@.len());
        proof {
            lemma_some_group_free(before, p as nat);
            lemma_fullest(c, counts@.len());
        }
        match find_fullest(&counts) {
            Some(g) => {
                proof {
                    assert(c[g as int] == group_free(before, p as nat, g as nat).len());
                }
                let count: usize = if counts[g] < left {
                    counts[g]
                } else {
                    left
                };
                proof {
                    assert(counts@.map_values(|c: usize| c as nat)[g as int] == counts@[g as int] as nat);
                    assert(pod_part(before, p as nat, k as nat, g as nat, left as nat) == pod_part(
                        before,
                        p as nat,
                        k as nat,
                        g as nat,
                        count as nat,
                    ));
                }
                let mut part = choose_in_pod(&taken, p, k, g, count);
                proof {
                    lemma_take_blocks(before, part@, part@.len());
                    lemma_set_at(before, part@, true, part@.len());
                }
                crate::simulator::sim_state::write_at(&mut taken, &part, true);
                proof {
                    let rest = pods_greedy(taken@, p as nat, k as nat, (left - part@.len()) as nat);
                    assert(pods_greedy(before, p as nat, k as nat, left as nat) == part@ + rest);
                    assert(r@ + (part@ + rest) =~= (r@ + part@) + rest);
                }
                left -= part.len();
                r.append(&mut part);
            },
            None => {
                return Some(r);
            },
        }
    }
    proof {
        assert(r@ + pods_greedy(taken@, p as nat, k as nat, 0) =~= r@);
    }
    Some(r)
}

/// Chooses the blocks for a job by filling pods.
pub fn choose_by_filling(all: &Vec<bool>, p: usize, need: usize) -> (r: Option<Vec<usize>>)
    requires
        p > 0,
    ensures
        r is Some == fill_choice(all@, p as nat, need as nat) is Some,
        r matches Some(blocks) ==> {
            &&& Some(blocks@) == fill_choice(all@, p as nat, need as nat)
            &&& blocks@.len() == need
            &&& free_hosts(blocks@, all@)
        },
{
    let total: usize = all.len();
    proof {
        lemma_fill_choice(all@, p as nat, need as nat);
        lemma_whole_pods(all@, p as nat);
    }
    let mut taken = keep_whole_pods(all, p);
    let n: usize = taken.len();
    let free: usize = list_free(&taken, 0, n).len();
    if free < need {
        return None;
    }
    let ghost t0 = taken@;
    let mut r: Vec<usize> = Vec::new();
    let mut left: usize = need;
    proof {
        assert(r@ + fill_pods(taken@, p as nat, left as nat) =~= fill_pods(taken@, p as nat, left as nat));
    }
    while left > 0
        invariant
            p > 0,
            n == taken@.len(),
            all_free(taken@).len() >= left,
            r@ + fill_pods(taken@, p as nat, left as nat) == fill_pods(t0, p as nat, need as nat),
            fill_choice(all@, p as nat, need as nat) == Some(fill_pods(t0, p as nat, need as nat)),
            fill_pods(t0, p as nat, need as nat).len() == need,
            free_hosts(fill_pods(t0, p as nat, need as nat), all@),
        decreases left,
    {
        let counts = count_free(&taken, p);
        let ghost before = taken@;
        let ghost c = free_counts(before, p as nat, counts@.len());
        proof {
            lemma_some_group_free(before, p as nat);
            lemma_fullest(c, counts@.len());
            lemma_best_fit(c, left as nat, counts@.len());
        }
        if let Some(g) = find_best_fit(&counts, left) {
            let mut part = list_group(&taken, p, g);
            let ghost whole = part@;
            proof {
                assert(c[g as int] == whole.len());
            }
            part.truncate(left);
            proof {
                assert(part@ =~= whole.take(left as int));
            }
            r.append(&mut part);
            return Some(r);
        }
        match find_fullest(&counts) {
            Some(g) => {
                let mut part = list_group(&taken, p, g);
                proof {
                    assert(c[g as int] == part@.len());
                    lemma_take_blocks(before, part@, part@.len());
                    lemma_set_at(before, part@, true, part@.len());
                }
                crate::simulator::sim_state::write_at(&mut taken, &part, true);
                proof {
                    let rest = fill_pods(taken@, p as nat, (left - part@.len()) as nat);
                    assert(fill_pods(before, p as nat, left as nat) == part@ + rest);
                    assert(r@ + (part@ + rest) =~= (r@ + part@) + rest);
                }
                left -= part.len();
                r.append(&mut part);
            },
            None => {
                return Some(r);
            },
        }
    }
    proof {
        assert(r@ + fill_pods(taken@, p as nat, 0) =~= r@);
    }
    Some(r)
}

} // verus!
