//! How much a job computes and sends. Routers serve jobs that do more first.

use vstd::prelude::*;

use crate::simulator::context::ActiveJobInfo;
use crate::utils::compatibility::Step;

verus! {

/// The sum, at most the largest number.
pub open spec fn wide_sum(a: u128, b: u64) -> u128 {
    if a + b > u128::MAX {
        u128::MAX
    } else {
        (a + b) as u128
    }
}

/// Computation time and bytes sent, with those of the first `n` steps.
pub open spec fn with_steps(start: (u128, u128), steps: Seq<Step>, n: nat) -> (u128, u128)
    decreases n,
{
    if n == 0 {
        start
    } else {
        let (c, b) = with_steps(start, steps, (n - 1) as nat);
        let s = steps[n - 1];
        (
            wide_sum(c, s.compute_us),
            match s.flow {
                Some(f) => wide_sum(b, f.size_bytes),
                None => b,
            },
        )
    }
}

/// Computation time and bytes sent of the first `n` workers in an iteration.
pub open spec fn worker_totals(workers: Seq<Seq<Step>>, n: nat) -> (u128, u128)
    decreases n,
{
    if n == 0 {
        (0, 0)
    } else {
        with_steps(worker_totals(workers, (n - 1) as nat), workers[n - 1], workers[n - 1].len())
    }
}

fn add_wide(a: u128, b: u64) -> (r: u128)
    ensures
        r == wide_sum(a, b),
{
    if a > u128::MAX - b as u128 {
        u128::MAX
    } else {
        a + b as u128
    }
}

/// Computation time and bytes sent of all workers of a job in an iteration.
pub fn job_totals(info: &ActiveJobInfo) -> (r: (u128, u128))
    ensures
        r == worker_totals(info@.worker_descriptions, info@.worker_descriptions.len()),
{
    let ghost views = info@.worker_descriptions;
    let mut compute: u128 = 0;
    let mut bytes: u128 = 0;
    let mut i: usize = 0;
    while i < info.worker_descriptions.len()
        invariant
            i <= info.worker_descriptions@.len(),
            views == info@.worker_descriptions,
            (compute, bytes) == worker_totals(views, i as nat),
        decreases info.worker_descriptions@.len() - i,
    {
        let ghost start = (compute, bytes);
        let steps = &info.worker_descriptions[i].steps;
        assert(views[i as int] == steps@);
        let mut j: usize = 0;
        while j < steps.len()
            invariant
                j <= steps@.len(),
                (compute, bytes) == with_steps(start, steps@, j as nat),
            decreases steps@.len() - j,
        {
            compute = add_wide(compute, steps[j].compute_us);
            if let Some(f) = steps[j].flow {
                bytes = add_wide(bytes, f.size_bytes);
            }
            j += 1;
        }
        i += 1;
    }
    (compute, bytes)
}

/// A list of flows with another one, after those whose keys are not smaller.
pub open spec fn with_flow<F>(list: Seq<F>, keys: spec_fn(F) -> u64, f: F) -> Seq<F>
    decreases list.len(),
{
    if list.len() == 0 || keys(list.last()) >= keys(f) {
        list.push(f)
    } else {
        with_flow(list.drop_last(), keys, f).push(list.last())
    }
}

/// The first `n` flows by falling key; flows with the same key stay in order.
pub open spec fn by_key<F>(ids: Seq<F>, keys: spec_fn(F) -> u64, n: nat) -> Seq<F>
    decreases n,
{
    if n == 0 {
        Seq::empty()
    } else {
        with_flow(by_key(ids, keys, (n - 1) as nat), keys, ids[n - 1])
    }
}

proof fn lemma_with_flow<F>(list: Seq<F>, keys: spec_fn(F) -> u64, f: F, p: int)
    requires
        0 <= p <= list.len(),
        p > 0 ==> keys(list[p - 1]) >= keys(f),
        forall|k: int| p <= k < list.len() ==> keys(#[trigger] list[k]) < keys(f),
    ensures
        with_flow(list, keys, f) == list.insert(p, f),
    decreases list.len(),
{
    if p < list.len() {
        assert(keys(list[list.len() - 1]) < keys(f));
        lemma_with_flow(list.drop_last(), keys, f, p);
    }
    assert(with_flow(list, keys, f) =~= list.insert(p, f));
}

/// Sorts by falling key. `keys` has the key of each listed flow at its place.
pub fn sort_by_key<F: Copy>(ids: &Vec<F>, keys: &Vec<u64>, Ghost(key): Ghost<spec_fn(F) -> u64>) -> (r: Vec<F>)
    requires
        keys@.len() == ids@.len(),
        forall|i: int| 0 <= i < ids@.len() ==> keys@[i] == key(#[trigger] ids@[i]),
    ensures
        r@ == by_key(ids@, key, ids@.len()),
{
    let mut r: Vec<F> = Vec::new();
    let mut k: Vec<u64> = Vec::new();
    let mut i: usize = 0;
    while i < ids.len()
        invariant
            i <= ids@.len(),
            keys@.len() == ids@.len(),
            forall|i: int| 0 <= i < ids@.len() ==> keys@[i] == key(#[trigger] ids@[i]),
            r@ == by_key(ids@, key, i as nat),
            k@.len() == r@.len(),
            forall|j: int| 0 <= j < r@.len() ==> k@[j] == key(#[trigger] r@[j]),
        decreases ids@.len() - i,
    {
        let x: u64 = keys[i];
        let mut p: usize = r.len();
        while p > 0 && k[p - 1] < x
            invariant
                p <= r@.len(),
                k@.len() == r@.len(),
                i < ids@.len(),
                x == key(ids@[i as int]),
                forall|j: int| 0 <= j < r@.len() ==> k@[j] == key(#[trigger] r@[j]),
                forall|j: int| p <= j < r@.len() ==> key(#[trigger] r@[j]) < x,
            decreases p,
        {
            p -= 1;
        }
        assert(x == key(ids@[i as int]));
        proof {
            if p > 0 {
                assert(k@[p - 1] == key(r@[p - 1]));
            }
            lemma_with_flow(r@, key, ids@[i as int], p as int);
        }
        let ghost before = r@;
        let ghost kb = k@;
        r.insert(p, ids[i]);
        k.insert(p, x);
        proof {
            assert forall|j: int| 0 <= j < r@.len() implies k@[j] == key(#[trigger] r@[j]) by {
                if j < p {
                    assert(kb[j] == key(before[j]));
                } else if j > p {
                    assert(kb[j - 1] == key(before[j - 1]));
                }
            }
        }
        i += 1;
    }
    r
}

} // verus!
