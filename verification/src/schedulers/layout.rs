//! Which hosts jobs get.

use vstd::arithmetic::div_mod::{lemma_fundamental_div_mod, lemma_fundamental_div_mod_converse};
use vstd::prelude::*;

use crate::schedulers::block::{block_placement, BlockScheduler};
use crate::schedulers::cluster::ClusterScheduler;
use crate::schedulers::fat_tree_block::FatTreeBlockScheduler;
use crate::schedulers::fifo_block::FifoBlockScheduler;
use crate::schedulers::packing::{
    block_choice, block_hosts, block_map, fill_choice, lemma_block_choice, lemma_block_end, lemma_block_hosts_free, lemma_fill_choice,
    lemma_pod_choice, pod_choice, whole_pods,
};
use crate::schedulers::pods::{are_filled, are_first_pods, in_pod, is_tightest, lemma_pods_chosen, lemma_pods_filled, pod_at};
use crate::schedulers::preloaded_rail_block::PreloadedRailBlockScheduler;
use crate::schedulers::rail_block::RailBlockScheduler;
use crate::schedulers::spread::{
    filled_before, is_open, lemma_fitting_group, lemma_spread_over_groups, open_blocks, room, taken_before,
};
use crate::simulator::job_scheduler::{
    free_count, free_hosts, free_list, lemma_free_list, FifoScheduler, JobScheduler,
};
use crate::simulator::ml_worker::JobId;

verus! {

/// A block can be had if it exists and all of its hosts are free.
pub proof fn lemma_open_block(busy: Seq<bool>, size: nat, b: usize)
    requires
        size > 0,
    ensures
        is_open(block_map(busy, size), b) == (b * size + size <= busy.len() && forall|h: int|
            b * size <= h < b * size + size ==> !#[trigger] busy[h]),
{
    let n = busy.len();
    lemma_fundamental_div_mod(n as int, size as int);
    let q = n as int / size as int;
    assert((b < q) == (b * size + size <= n)) by (nonlinear_arith)
        requires
            size > 0,
            n == size as int * q + n as int % size as int,
            0 <= n as int % (size as int) < size,
    ;
}

/// The hosts are those of whole blocks, block by block: the first host is the first of a block, and each host is
/// followed by the next of the same block.
pub open spec fn are_whole_blocks(hosts: Seq<usize>, size: nat) -> bool {
    &&& hosts.len() as int % size as int == 0
    &&& forall|w: int| 0 <= w < hosts.len() ==> #[trigger] hosts[w] as int % size as int == w % size as int
    &&& forall|v: int, w: int|
        0 <= v < hosts.len() && 0 <= w < hosts.len() && v / size as int == w / size as int ==> #[trigger] hosts[v] as int
            / size as int == #[trigger] hosts[w] as int / size as int
}

/// The host is in the block that the worker belongs to.
spec fn is_host_of(size: nat, blocks: Seq<usize>, w: int, host: usize) -> bool {
    &&& 0 <= w / size as int
    &&& w / (size as int) < blocks.len()
    &&& host as int / size as int == blocks[w / size as int]
}

/// The hosts of a list of blocks.
proof fn lemma_hosts_of_blocks(busy: Seq<bool>, size: nat, blocks: Seq<usize>)
    requires
        size > 0,
        busy.len() <= usize::MAX,
        free_hosts(blocks, block_map(busy, size)),
    ensures
        are_whole_blocks(block_hosts(blocks, size), size),
        block_hosts(blocks, size).len() == blocks.len() * size,
        forall|w: int|
            0 <= w < block_hosts(blocks, size).len() ==> is_host_of(size, blocks, w, #[trigger] block_hosts(blocks, size)[w]),
{
    let hosts = block_hosts(blocks, size);
    let d = size as int;
    assert forall|w: int| 0 <= w < hosts.len() implies is_host_of(size, blocks, w, #[trigger] hosts[w]) && hosts[w] as int
        % d == w % d by {
        lemma_fundamental_div_mod(w, d);
        assert(0 <= w / d && w / d < blocks.len()) by (nonlinear_arith)
            requires
                0 <= w < blocks.len() * size,
                d == size,
                d > 0,
                w == d * (w / d) + w % d,
                0 <= w % d < d,
        ;
        let b = blocks[w / d] as int;
        assert(!block_map(busy, size)[b]);
        lemma_block_end(busy.len(), size, b);
        assert(b * size == b * d);
        lemma_fundamental_div_mod_converse(b * size + w % d, d, b, w % d);
    }
    vstd::arithmetic::div_mod::lemma_mod_multiples_basic(blocks.len() as int, d);
}

/// Where jobs get whole blocks below switches, each with `k` blocks: the hosts are whole blocks and free. A job that
/// fits below a switch lies below the one with the least room for it. A job that fits below none takes all free
/// blocks below the switches with the most of them first.
pub proof fn lemma_block_layout(busy: Seq<bool>, size: nat, k: nat, num_workers: nat, hosts: Seq<usize>)
    requires
        size > 0,
        k > 0,
        busy.len() <= usize::MAX,
        num_workers / size > 0,
        block_placement(busy, size, k, num_workers) == Some(hosts),
    ensures
        are_whole_blocks(hosts, size),
        free_hosts(hosts, busy),
        ({
            let taken = block_map(busy, size);
            let need = num_workers / size;
            &&& hosts.len() == need * size
            &&& (exists|g: int| #[trigger] room(taken, k, g) >= need) ==> exists|h: int|
                {
                    &&& #[trigger] is_tightest(taken, k, need, h)
                    &&& forall|w: int|
                        0 <= w < hosts.len() ==> (#[trigger] hosts[w]) as int / size as int / k as int == h
                }
            &&& !(exists|g: int| #[trigger] room(taken, k, g) >= need) ==> forall|w: int, y: usize|
                0 <= w < hosts.len() && is_open(taken, y) && taken_before(
                    taken,
                    k,
                    y,
                    ((#[trigger] hosts[w]) as int / size as int) as usize,
                ) ==> #[trigger] is_taken_block(hosts, size, y)
        }),
{
    let taken = block_map(busy, size);
    let need = num_workers / size;
    let blocks = block_choice(taken, k, need)->0;
    lemma_block_choice(taken, k, need);
    lemma_hosts_of_blocks(busy, size, blocks);
    lemma_block_hosts_free(busy, size, blocks);
    if exists|g: int| #[trigger] room(taken, k, g) >= need {
        let g = choose|g: int| #[trigger] room(taken, k, g) >= need;
        lemma_tightest_choice(taken, k, need, blocks, g);
        let h = choose|h: int| #[trigger] is_tightest(taken, k, need, h) && in_pod(k, blocks, h);
        assert forall|w: int| 0 <= w < hosts.len() implies (#[trigger] hosts[w]) as int / size as int / k as int == h by {
            assert(is_host_of(size, blocks, w, block_hosts(blocks, size)[w]));
            assert(pod_at(k, blocks[w / size as int]) == h);
        }
        assert(is_tightest(taken, k, need, h));
    } else {
        lemma_spread_over_groups(taken, k, need, blocks);
        assert forall|w: int, y: usize|
            0 <= w < hosts.len() && is_open(taken, y) && taken_before(
                taken,
                k,
                y,
                ((#[trigger] hosts[w]) as int / size as int) as usize,
            ) implies #[trigger] is_taken_block(hosts, size, y) by {
            assert(blocks[w / size as int] == (hosts[w] as int / size as int) as usize);
            assert(blocks.contains(y));
            lemma_taken_block(busy, size, blocks, y);
        }
    }
}

/// Some of the hosts is in the block.
pub open spec fn is_taken_block(hosts: Seq<usize>, size: nat, b: usize) -> bool {
    exists|w: int| 0 <= w < hosts.len() && (#[trigger] hosts[w]) as int / size as int == b
}

proof fn lemma_taken_block(busy: Seq<bool>, size: nat, blocks: Seq<usize>, b: usize)
    requires
        size > 0,
        busy.len() <= usize::MAX,
        free_hosts(blocks, block_map(busy, size)),
        blocks.contains(b),
    ensures
        is_taken_block(block_hosts(blocks, size), size, b),
{
    let hosts = block_hosts(blocks, size);
    lemma_hosts_of_blocks(busy, size, blocks);
    let i = choose|i: int| 0 <= i < blocks.len() && blocks[i] == b;
    let d = size as int;
    let w = i * d;
    assert(0 <= w < blocks.len() * size) by (nonlinear_arith)
        requires
            0 <= i < blocks.len(),
            w == i * d,
            d == size,
            d > 0,
    ;
    lemma_fundamental_div_mod_converse(w, d, i, 0);
    assert(hosts[w] as int / d == b);
}

/// A job that fits in a group lies in the tightest.
proof fn lemma_tightest_choice(taken: Seq<bool>, k: nat, need: nat, blocks: Seq<usize>, g: int)
    requires
        k > 0,
        need > 0,
        taken.len() <= usize::MAX,
        block_choice(taken, k, need) == Some(blocks),
        room(taken, k, g) >= need,
    ensures
        exists|h: int| #[trigger] is_tightest(taken, k, need, h) && in_pod(k, blocks, h),
{
    lemma_fitting_group(taken, k, need, blocks, g);
    let h = blocks[0] as int / k as int;
    assert forall|i: int| 0 <= i < blocks.len() implies pod_at(k, #[trigger] blocks[i]) == h by {
        let x = choose|x: int|
            {
                &&& #[trigger] room(taken, k, x) >= need
                &&& room(taken, k, x) <= room(taken, k, g)
                &&& room(taken, k, x) == room(taken, k, g) ==> x <= g
                &&& forall|i: int| 0 <= i < blocks.len() ==> open_blocks(taken, k, x).contains(#[trigger] blocks[i])
            };
        assert(open_blocks(taken, k, x).contains(blocks[0]));
        assert(open_blocks(taken, k, x).contains(blocks[i]));
    }
    assert forall|y: int| #[trigger] room(taken, k, y) >= need implies room(taken, k, h) <= room(taken, k, y) && (room(
        taken,
        k,
        h,
    ) == room(taken, k, y) ==> h <= y) && room(taken, k, h) >= need by {
        lemma_fitting_group(taken, k, need, blocks, y);
        let x = choose|x: int|
            {
                &&& #[trigger] room(taken, k, x) >= need
                &&& room(taken, k, x) <= room(taken, k, y)
                &&& room(taken, k, x) == room(taken, k, y) ==> x <= y
                &&& forall|i: int| 0 <= i < blocks.len() ==> open_blocks(taken, k, x).contains(#[trigger] blocks[i])
            };
        assert(open_blocks(taken, k, x).contains(blocks[0]));
        assert(x == h);
    }
    assert(room(taken, k, g) >= need);
    assert(is_tightest(taken, k, need, h));
}

/// The block scheduler works by the blocks below its switches.
pub proof fn lemma_block_scheduler(s: &BlockScheduler, num_workers: usize, busy: Seq<bool>, hosts: Seq<usize>)
    requires
        s.wf(),
        busy.len() <= usize::MAX,
        num_workers % s.block_size == 0,
        num_workers > 0,
        s.placement(num_workers, busy) == Some(hosts),
    ensures
        hosts.len() == num_workers,
        are_whole_blocks(hosts, s.block_size as nat),
        free_hosts(hosts, busy),
        ({
            let taken = block_map(busy, s.block_size as nat);
            let k = (s.hosts_per_tor / s.block_size) as nat;
            let need = num_workers as nat / s.block_size as nat;
            &&& (exists|g: int| #[trigger] room(taken, k, g) >= need) ==> exists|h: int|
                {
                    &&& #[trigger] is_tightest(taken, k, need, h)
                    &&& forall|w: int|
                        0 <= w < hosts.len() ==> (#[trigger] hosts[w]) as int / s.block_size as int / k as int == h
                }
            &&& !(exists|g: int| #[trigger] room(taken, k, g) >= need) ==> forall|w: int, y: usize|
                0 <= w < hosts.len() && is_open(taken, y) && taken_before(
                    taken,
                    k,
                    y,
                    ((#[trigger] hosts[w]) as int / s.block_size as int) as usize,
                ) ==> #[trigger] is_taken_block(hosts, s.block_size as nat, y)
        }),
{
    let (n, d) = (num_workers as int, s.block_size as int);
    lemma_fundamental_div_mod(n, d);
    lemma_fundamental_div_mod(s.hosts_per_tor as int, d);
    assert(n / d > 0) by (nonlinear_arith)
        requires
            n > 0,
            n == d * (n / d),
            d > 0,
    ;
    assert(s.hosts_per_tor as int / d > 0) by (nonlinear_arith)
        requires
            s.hosts_per_tor > 0,
            s.hosts_per_tor as int == d * (s.hosts_per_tor as int / d),
            d > 0,
    ;
    crate::schedulers::block::lemma_whole_blocks(num_workers as nat, s.block_size as nat);
    lemma_block_layout(busy, s.block_size as nat, s.tor_blocks(), num_workers as nat, hosts);
}

/// The host is free.
pub open spec fn is_free(busy: Seq<bool>, h: usize) -> bool {
    h < busy.len() && !busy[h as int]
}

/// The free hosts below a switch.
pub open spec fn free_below(busy: Seq<bool>, hosts_per_tor: nat, tor: int) -> Set<usize> {
    Set::new(|h: usize| is_free(busy, h) && h as int / hosts_per_tor as int == tor)
}

/// The cluster scheduler puts a job that fits below a switch below the one with the fewest free hosts that suffice.
/// Another job takes all free hosts below a switch before it takes one below a switch with fewer.
pub proof fn lemma_cluster_scheduler(s: &ClusterScheduler, num_workers: usize, busy: Seq<bool>, hosts: Seq<usize>)
    requires
        s.wf(),
        busy.len() <= usize::MAX,
        num_workers > 0,
        s.placement(num_workers, busy) == Some(hosts),
    ensures
        hosts.len() == num_workers,
        free_hosts(hosts, busy),
        ({
            let k = s.hosts_per_tor as nat;
            let some_fits = exists|g: int| (#[trigger] free_below(busy, k, g)).len() >= num_workers;
            &&& some_fits ==> forall|v: int, w: int|
                0 <= v < hosts.len() && 0 <= w < hosts.len() ==> (#[trigger] hosts[v]) as int / k as int == (
                #[trigger] hosts[w]) as int / k as int
            &&& some_fits ==> forall|w: int, g: int|
                0 <= w < hosts.len() && (#[trigger] free_below(busy, k, g)).len() >= num_workers ==> free_below(
                    busy,
                    k,
                    (#[trigger] hosts[w]) as int / k as int,
                ).len() <= free_below(busy, k, g).len()
            &&& !some_fits ==> forall|w: int, y: usize|
                0 <= w < hosts.len() && #[trigger] is_free(busy, y) && free_below(busy, k, y as int / k as int).len()
                    > free_below(busy, k, (#[trigger] hosts[w]) as int / k as int).len() ==> hosts.contains(y)
        }),
{
    let k = s.hosts_per_tor as nat;
    let taken = block_map(busy, 1);
    let need = num_workers as nat;
    assert(num_workers as nat / 1nat == num_workers);
    lemma_block_layout(busy, 1, k, num_workers as nat, hosts);
    assert(need * 1 == need);
    assert forall|y: usize| #[trigger] is_open(taken, y) == is_free(busy, y) by {
        lemma_open_block(busy, 1, y);
        assert(y * 1 == y);
    }
    assert forall|g: int| room(taken, k, g) == (#[trigger] free_below(busy, k, g)).len() by {
        assert(open_blocks(taken, k, g) =~= free_below(busy, k, g));
    }
    assert forall|w: int| 0 <= w < hosts.len() implies (#[trigger] hosts[w]) as int / 1int == hosts[w] by {}
    if exists|g: int| (#[trigger] free_below(busy, k, g)).len() >= num_workers {
        let g = choose|g: int| (#[trigger] free_below(busy, k, g)).len() >= num_workers;
        assert(room(taken, k, g) >= need);
        let h = choose|h: int|
            {
                &&& #[trigger] is_tightest(taken, k, need, h)
                &&& forall|w: int| 0 <= w < hosts.len() ==> (#[trigger] hosts[w]) as int / 1int / k as int == h
            };
        assert forall|w: int, g: int|
            0 <= w < hosts.len() && (#[trigger] free_below(busy, k, g)).len() >= num_workers implies free_below(
            busy,
            k,
            (#[trigger] hosts[w]) as int / k as int,
        ).len() <= free_below(busy, k, g).len() by {
            assert(room(taken, k, g) >= need);
            assert(hosts[w] as int / 1int / k as int == h);
        }
        assert forall|v: int, w: int|
            0 <= v < hosts.len() && 0 <= w < hosts.len() implies (#[trigger] hosts[v]) as int / k as int == (
        #[trigger] hosts[w]) as int / k as int by {
            assert(hosts[v] as int / 1int / k as int == h);
            assert(hosts[w] as int / 1int / k as int == h);
        }
    } else {
        assert forall|g: int| #[trigger] room(taken, k, g) < need by {
            assert(free_below(busy, k, g).len() < num_workers);
        }
        assert forall|w: int, y: usize|
            0 <= w < hosts.len() && #[trigger] is_free(busy, y) && free_below(busy, k, y as int / k as int).len() > free_below(
                busy,
                k,
                (#[trigger] hosts[w]) as int / k as int,
            ).len() implies hosts.contains(y) by {
            assert(is_open(taken, y));
            let x = (hosts[w] as int / 1int) as usize;
            assert(x == hosts[w]);
            assert(taken_before(taken, k, y, x));
            assert(is_taken_block(hosts, 1, y));
            let i = choose|i: int| 0 <= i < hosts.len() && (#[trigger] hosts[i]) as int / 1int == y;
            assert(hosts[i] == y);
        }
    }
}

/// A job gets whole blocks of pods. If it fits in a pod, it lies in the tightest; else the pods with the most room are
/// filled, and what is then left lies in the tightest pod that has room for it.
pub proof fn lemma_rail_scheduler(s: &RailBlockScheduler, num_workers: usize, busy: Seq<bool>, hosts: Seq<usize>)
    requires
        s.wf(),
        busy.len() <= usize::MAX,
        num_workers as nat / s.block_size as nat > 0,
        s.placement(num_workers, busy) == Some(hosts),
    ensures
        are_whole_blocks(hosts, s.block_size as nat),
        free_hosts(hosts, busy),
        ({
            let taken = whole_pods(block_map(busy, s.block_size as nat), s.blocks_per_pod as nat);
            let need = num_workers as nat / s.block_size as nat;
            exists|blocks: Seq<usize>, m: int|
                {
                    &&& #[trigger] are_filled(
                        whole_pods(block_map(busy, s.block_size as nat), s.blocks_per_pod as nat),
                        s.blocks_per_pod as nat,
                        blocks,
                        m,
                    )
                    &&& blocks.len() == need
                    &&& (m == 0) == (exists|g: int| #[trigger] room(taken, s.blocks_per_pod as nat, g) >= need)
                    &&& hosts.len() == need * s.block_size
                    &&& forall|w: int|
                        0 <= w < hosts.len() ==> (#[trigger] hosts[w]) as int / s.block_size as int == blocks[w
                            / s.block_size as int]
                }
        }),
{
    let size = s.block_size as nat;
    let p = s.blocks_per_pod as nat;
    let all = block_map(busy, size);
    let need = num_workers as nat / size;
    let blocks = fill_choice(all, p, need)->0;
    lemma_block_count(busy, size);
    lemma_fill_choice(all, p, need);
    lemma_hosts_of_blocks(busy, size, blocks);
    lemma_block_hosts_free(busy, size, blocks);
    lemma_pods_filled(all, p, need, blocks);
}

/// There are no more blocks than hosts.
proof fn lemma_block_count(busy: Seq<bool>, size: nat)
    requires
        size > 0,
    ensures
        block_map(busy, size).len() <= busy.len(),
{
    vstd::arithmetic::div_mod::lemma_div_is_ordered_by_denominator(busy.len() as int, 1, size as int);
}

/// In a fat tree a job gets whole blocks. If it fits in a pod, it lies in the tightest; else it takes all that can be
/// had in the pods with the most room before it takes anything in another.
pub proof fn lemma_fat_tree_scheduler(s: &FatTreeBlockScheduler, num_workers: usize, busy: Seq<bool>, hosts: Seq<usize>)
    requires
        s.wf(),
        s.pod_blocks() > 0,
        s.inner.tor_blocks() > 0,
        busy.len() <= usize::MAX,
        num_workers as nat / s.block_size as nat > 0,
        s.placement(num_workers, busy) == Some(hosts),
    ensures
        are_whole_blocks(hosts, s.block_size as nat),
        free_hosts(hosts, busy),
        ({
            let p = s.pod_blocks();
            let taken = whole_pods(block_map(busy, s.block_size as nat), p);
            let need = num_workers as nat / s.block_size as nat;
            &&& hosts.len() == need * s.block_size
            &&& (exists|g: int| #[trigger] room(taken, p, g) >= need) ==> exists|g: int|
                {
                    &&& #[trigger] is_tightest(taken, p, need, g)
                    &&& forall|w: int|
                        0 <= w < hosts.len() ==> (#[trigger] hosts[w]) as int / s.block_size as int / p as int == g
                }
            &&& !(exists|g: int| #[trigger] room(taken, p, g) >= need) ==> forall|w: int, y: usize|
                0 <= w < hosts.len() && is_open(taken, y) && filled_before(
                    taken,
                    p,
                    y as int / p as int,
                    (#[trigger] hosts[w]) as int / s.block_size as int / p as int,
                ) ==> #[trigger] is_taken_block(hosts, s.block_size as nat, y)
        }),
{
    let size = s.block_size as nat;
    let p = s.pod_blocks();
    let k = s.inner.tor_blocks();
    let all = block_map(busy, size);
    let need = num_workers as nat / size;
    let blocks = pod_choice(all, p, k, need)->0;
    lemma_block_count(busy, size);
    lemma_pod_choice(all, p, k, need);
    lemma_hosts_of_blocks(busy, size, blocks);
    lemma_block_hosts_free(busy, size, blocks);
    lemma_pods_chosen(all, p, k, need, blocks);
    let taken = whole_pods(all, p);
    if exists|g: int| #[trigger] room(taken, p, g) >= need {
        let g = choose|g: int| #[trigger] is_tightest(taken, p, need, g) && in_pod(p, blocks, g);
        assert forall|w: int| 0 <= w < hosts.len() implies (#[trigger] hosts[w]) as int / s.block_size as int / p as int == g by {
            assert(is_host_of(size, blocks, w, block_hosts(blocks, size)[w]));
            assert(pod_at(p, blocks[w / size as int]) == g);
        }
        assert(is_tightest(taken, p, need, g));
    } else {
        assert(are_first_pods(taken, p, blocks));
        assert forall|w: int, y: usize|
            0 <= w < hosts.len() && is_open(taken, y) && filled_before(
                taken,
                p,
                y as int / p as int,
                (#[trigger] hosts[w]) as int / s.block_size as int / p as int,
            ) implies #[trigger] is_taken_block(hosts, s.block_size as nat, y) by {
            let i = w / size as int;
            assert(hosts[w] as int / size as int == blocks[i]);
            assert(filled_before(
                taken,
                p,
                pod_at(p, y),
                pod_at(p, blocks[i]),
            ));
            assert(blocks.contains(y));
            lemma_taken_block(busy, size, blocks, y);
        }
    }
}

/// The first of the free hosts: no free host that comes before one of them is left out.
pub open spec fn are_first_free(busy: Seq<bool>, hosts: Seq<usize>) -> bool {
    &&& forall|i: int| 0 <= i < hosts.len() ==> is_free(busy, #[trigger] hosts[i])
    &&& forall|i: int, j: int| 0 <= i < j < hosts.len() ==> hosts[i] < hosts[j]
    &&& forall|i: int, h: usize| 0 <= i < hosts.len() && #[trigger] is_free(busy, h) && h < #[trigger] hosts[i] ==> hosts.contains(h)
}

proof fn lemma_first_free(busy: Seq<bool>, n: nat)
    requires
        busy.len() <= usize::MAX,
    ensures
        (free_count(busy, busy.len()) >= n) == (Set::new(|h: usize| is_free(busy, h)).len() >= n),
        free_count(busy, busy.len()) >= n ==> are_first_free(busy, free_list(busy, busy.len()).take(n as int))
            && free_list(busy, busy.len()).take(n as int).len() == n,
{
    let list = free_list(busy, busy.len());
    let all = Set::new(|h: usize| is_free(busy, h));
    lemma_free_list(busy, busy.len());
    assert(list.to_set() =~= all) by {
        assert forall|h: usize| list.to_set().contains(h) == all.contains(h) by {
            if is_free(busy, h) {
                let x = h as int;
                assert(list.contains(x as usize));
            }
            if list.contains(h) {
                let i = choose|i: int| 0 <= i < list.len() && list[i] == h;
                assert(list[i] < busy.len() && !busy[list[i] as int]);
            }
        }
    }
    list.unique_seq_to_set();
    if free_count(busy, busy.len()) >= n {
        let hosts = list.take(n as int);
        assert forall|i: int| 0 <= i < hosts.len() implies is_free(busy, #[trigger] hosts[i]) by {
            assert(hosts[i] == list[i]);
        }
        assert forall|i: int, h: usize| 0 <= i < hosts.len() && #[trigger] is_free(busy, h) && h < #[trigger] hosts[i] implies hosts.contains(
            h,
        ) by {
            let x = h as int;
            assert(list.contains(x as usize));
            let j = choose|j: int| 0 <= j < list.len() && list[j] == h;
            assert(hosts[i] == list[i]);
            if j > i {
                assert(list[i] < list[j]);
            }
            assert(hosts[j] == h);
        }
    }
}

/// The first-come scheduler puts a job on the first free hosts as soon as there are as many as it has workers.
pub proof fn lemma_fifo_scheduler(s: &FifoScheduler, job_id: JobId, num_workers: usize, busy: Seq<bool>, hosts: Seq<usize>)
    requires
        busy.len() <= usize::MAX,
    ensures
        s.fits(job_id, num_workers, busy) == (Set::new(|h: usize| is_free(busy, h)).len() >= num_workers),
        s.fits(job_id, num_workers, busy) && s.chooses(job_id, num_workers, busy, hosts) ==> hosts.len() == num_workers
            && are_first_free(busy, hosts),
{
    lemma_first_free(busy, num_workers as nat);
}

/// Without fixed hosts, a job gets the first free blocks; with fixed hosts, it gets those, if they are free and as many
/// as it has workers.
pub proof fn lemma_fifo_block_scheduler(
    s: &FifoBlockScheduler,
    job_id: JobId,
    num_workers: usize,
    busy: Seq<bool>,
)
    requires
        s.wf(),
        busy.len() <= usize::MAX,
    ensures
        s.fixed().contains_key(job_id) ==> s.placement(job_id, num_workers, busy) == if s.fixed()[job_id].len() == num_workers
            && forall|i: int| 0 <= i < s.fixed()[job_id].len() ==> is_free(busy, #[trigger] s.fixed()[job_id][i]) {
            Some(s.fixed()[job_id])
        } else {
            None
        },
        !s.fixed().contains_key(job_id) ==> match s.placement(job_id, num_workers, busy) {
            Some(hosts) => {
                &&& are_whole_blocks(hosts, s.block_size as nat)
                &&& free_hosts(hosts, busy)
                &&& hosts.len() == num_workers as nat / s.block_size as nat * s.block_size
                &&& forall|w: int, y: usize|
                    0 <= w < hosts.len() && is_open(block_map(busy, s.block_size as nat), y) && y < (#[trigger] hosts[w]) as int
                        / s.block_size as int ==> #[trigger] is_taken_block(hosts, s.block_size as nat, y)
            },
            None => Set::new(|b: usize| is_open(block_map(busy, s.block_size as nat), b)).len() < num_workers as nat
                / s.block_size as nat,
        },
{
    let size = s.block_size as nat;
    let taken = block_map(busy, size);
    let need = num_workers as nat / size;
    lemma_block_count(busy, size);
    lemma_first_free(taken, need);
    assert(Set::new(|h: usize| is_free(taken, h)) =~= Set::new(|b: usize| is_open(taken, b)));
    if !s.fixed().contains_key(job_id) {
        if let Some(hosts) = s.placement(job_id, num_workers, busy) {
            let blocks = free_list(taken, taken.len()).take(need as int);
            assert(free_hosts(blocks, taken)) by {
                assert forall|i: int| 0 <= i < blocks.len() implies (#[trigger] blocks[i]) < taken.len()
                    && !taken[blocks[i] as int] by {
                    assert(is_free(taken, blocks[i]));
                }
            }
            lemma_hosts_of_blocks(busy, size, blocks);
            lemma_block_hosts_free(busy, size, blocks);
            assert forall|w: int, y: usize|
                0 <= w < hosts.len() && is_open(taken, y) && y < (#[trigger] hosts[w]) as int / s.block_size as int implies #[trigger] is_taken_block(
                hosts,
                s.block_size as nat,
                y,
            ) by {
                assert(hosts[w] as int / size as int == blocks[w / size as int]);
                assert(is_free(taken, y) && y < blocks[w / size as int]);
                assert(blocks.contains(y));
                lemma_taken_block(busy, size, blocks, y);
            }
        }
    }
}

/// A job with fixed hosts gets those, if they are free and as many as it has workers; others are placed by pods.
pub proof fn lemma_preloaded_scheduler(
    s: &PreloadedRailBlockScheduler,
    job_id: JobId,
    num_workers: usize,
    busy: Seq<bool>,
)
    ensures
        s.fixed().contains_key(job_id) ==> s.placement(job_id, num_workers, busy) == if s.fixed()[job_id].len() == num_workers
            && forall|i: int| 0 <= i < s.fixed()[job_id].len() ==> is_free(busy, #[trigger] s.fixed()[job_id][i]) {
            Some(s.fixed()[job_id])
        } else {
            None
        },
        !s.fixed().contains_key(job_id) ==> s.placement(job_id, num_workers, busy) == s.inner.placement(num_workers, busy),
{
}

} // verus!
