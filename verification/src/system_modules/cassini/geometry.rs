//! Common periods, and demand beyond what a link carries.

use vstd::arithmetic::div_mod::{
    lemma_div_multiples_vanish, lemma_fundamental_div_mod, lemma_mod_bound,
};
use vstd::prelude::*;

use crate::spine::routing::copy_path;

verus! {

/// The greatest common divisor.
pub open spec fn gcd(a: nat, b: nat) -> nat
    decreases b,
{
    if b == 0 {
        a
    } else {
        proof {
            lemma_mod_bound(a as int, b as int);
        }
        gcd(b, a % b)
    }
}

/// One number divides another.
pub open spec fn divides(d: nat, n: nat) -> bool {
    exists|q: nat| n == #[trigger] (d * q)
}

/// The least common multiple.
pub open spec fn lcm(a: nat, b: nat) -> nat {
    if a == 0 || b == 0 {
        0
    } else {
        (a * b) / gcd(a, b)
    }
}

/// A divisor of two numbers divides their combinations.
proof fn lemma_divides_sum(d: nat, x: nat, y: nat, q: nat)
    requires
        divides(d, x),
        divides(d, y),
    ensures
        divides(d, x * q + y),
{
    let u = choose|u: nat| x == #[trigger] (d * u);
    let v = choose|v: nat| y == #[trigger] (d * v);
    assert(x * q + y == d * (u * q + v)) by (nonlinear_arith)
        requires
            x == d * u,
            y == d * v,
    ;
}

proof fn lemma_divides_rest(d: nat, a: nat, b: nat)
    requires
        b > 0,
        divides(d, a),
        divides(d, b),
    ensures
        divides(d, a % b),
{
    let u = choose|u: nat| a == #[trigger] (d * u);
    let v = choose|v: nat| b == #[trigger] (d * v);
    let q = a / b;
    lemma_fundamental_div_mod(a as int, b as int);
    lemma_mod_bound(a as int, b as int);
    let r = a % b;
    assert(a == b * q + r);
    assert(d > 0) by (nonlinear_arith)
        requires
            b == d * v,
            b > 0,
            d >= 0,
    ;
    assert(u >= v * q) by (nonlinear_arith)
        requires
            d * u == (d * v) * q + r,
            r >= 0,
            d > 0,
    ;
    let w = (u - v * q) as nat;
    assert(r == d * w) by (nonlinear_arith)
        requires
            d * u == (d * v) * q + r,
            w == u - v * q,
    ;
    assert(divides(d, r));
}

/// The greatest common divisor divides both numbers, and every other common divisor divides it.
pub proof fn lemma_gcd(a: nat, b: nat)
    ensures
        divides(gcd(a, b), a),
        divides(gcd(a, b), b),
        forall|d: nat| divides(d, a) && divides(d, b) ==> #[trigger] divides(d, gcd(a, b)),
        a > 0 || b > 0 ==> gcd(a, b) > 0,
    decreases b,
{
    if b == 0 {
        assert(a == a * 1);
        assert(divides(a, a));
        assert(0 == a * 0);
        assert(divides(a, 0));
    } else {
        let r = a % b;
        lemma_mod_bound(a as int, b as int);
        lemma_gcd(b, r);
        let g = gcd(a, b);
        lemma_fundamental_div_mod(a as int, b as int);
        lemma_divides_sum(g, b, r, a / b);
        assert(a == b * (a / b) + r);
        assert forall|d: nat| divides(d, a) && divides(d, b) implies #[trigger] divides(d, g) by {
            lemma_divides_rest(d, a, b);
        }
    }
}

/// The greatest common divisor.
pub fn compute_gcd(a: u64, b: u64) -> (r: u64)
    ensures
        r == gcd(a as nat, b as nat),
{
    let mut x: u64 = a;
    let mut y: u64 = b;
    while y != 0
        invariant
            gcd(x as nat, y as nat) == gcd(a as nat, b as nat),
        decreases y,
    {
        let rest: u64 = x % y;
        x = y;
        y = rest;
    }
    x
}

/// The least common multiple of the first `n` numbers, taken one after the other.
pub open spec fn lcm_all(times: Seq<u64>, n: nat) -> nat
    decreases n,
{
    if times.len() == 0 {
        1
    } else if n == 0 {
        times[0] as nat
    } else {
        lcm(lcm_all(times, (n - 1) as nat), times[n - 1] as nat)
    }
}

/// The least common multiple of numbers can be computed.
pub open spec fn lcm_fits(times: Seq<u64>) -> bool {
    forall|n: nat| n <= times.len() ==> #[trigger] lcm_all(times, n) <= u64::MAX
}

/// Iterations of jobs as circles of a number of places.
#[derive(Debug, Clone, Copy, PartialEq, Eq, Structural)]
pub struct GeometricAbstraction {
    pub places: usize,
}

impl GeometricAbstraction {
    /// Circles with a place for every five degrees.
    pub fn new() -> (r: Self)
        ensures
            r.places == 72,
    {
        GeometricAbstraction { places: 72 }
    }

    /// The least common multiple; one for no numbers.
    pub fn calculate_lcm(&self, iteration_times: &Vec<u64>) -> (r: u64)
        requires
            lcm_fits(iteration_times@),
        ensures
            r == lcm_all(iteration_times@, iteration_times@.len()),
    {
        checked_lcm(iteration_times).unwrap()
    }
}

/// The least common multiple, if it can be computed; one for no numbers.
pub fn checked_lcm(iteration_times: &Vec<u64>) -> (r: Option<u64>)
    ensures
        r is Some == lcm_fits(iteration_times@),
        r matches Some(l) ==> l == lcm_all(iteration_times@, iteration_times@.len()),
{
    if iteration_times.len() == 0 {
        assert forall|n: nat| n <= iteration_times@.len() implies #[trigger] lcm_all(iteration_times@, n) <= u64::MAX by {
            assert(n == 0);
        }
        return Some(1);
    }
    let mut acc: u64 = iteration_times[0];
    let mut i: usize = 0;
    while i < iteration_times.len()
        invariant
            iteration_times@.len() > 0,
            i <= iteration_times@.len(),
            forall|n: nat| n <= i ==> #[trigger] lcm_all(iteration_times@, n) <= u64::MAX,
            acc == lcm_all(iteration_times@, i as nat),
        decreases iteration_times@.len() - i,
    {
        let t: u64 = iteration_times[i];
        if acc == 0 || t == 0 {
            acc = 0;
        } else {
            let g: u64 = compute_gcd(acc, t);
            proof {
                lemma_gcd(acc as nat, t as nat);
            }
            let a: u128 = acc as u128;
            let b: u128 = t as u128;
            assert(a * b <= 0xffff_ffff_ffff_ffffu128 * 0xffff_ffff_ffff_ffffu128) by (nonlinear_arith)
                requires
                    a <= 0xffff_ffff_ffff_ffffu128,
                    b <= 0xffff_ffff_ffff_ffffu128,
            ;
            let l: u128 = (a * b) / (g as u128);
            assert(l == lcm_all(iteration_times@, (i + 1) as nat));
            if l > 0xffff_ffff_ffff_ffffu128 {
                return None;
            }
            acc = l as u64;
        }
        assert forall|n: nat| n <= i + 1 implies #[trigger] lcm_all(iteration_times@, n) <= u64::MAX by {
            if n == i + 1 {
                assert(lcm_all(iteration_times@, n) == acc);
            }
        }
        i += 1;
    }
    Some(acc)
}

/// The least common multiple is a multiple of both numbers.
pub proof fn lemma_lcm(a: nat, b: nat)
    ensures
        divides(a, lcm(a, b)),
        divides(b, lcm(a, b)),
{
    if a == 0 || b == 0 {
        assert(0 == a * 0);
        assert(0 == b * 0);
    } else {
        lemma_gcd(a, b);
        let g = gcd(a, b);
        let u = choose|u: nat| a == #[trigger] (g * u);
        let v = choose|v: nat| b == #[trigger] (g * v);
        assert(a * b == (a * v) * g && a * b == (b * u) * g) by (nonlinear_arith)
            requires
                a == g * u,
                b == g * v,
        ;
        lemma_div_multiples_vanish((a * v) as int, g as int);
        lemma_div_multiples_vanish((b * u) as int, g as int);
        assert(g * (a * v) == (a * v) * g) by (nonlinear_arith);
        assert(g * (b * u) == (b * u) * g) by (nonlinear_arith);
        assert(lcm(a, b) == a * v);
        assert(lcm(a, b) == b * u);
    }
}

/// What the first `m` jobs demand together at a place of the circle, each turned by its shift.
pub open spec fn demand_at(samples: Seq<Seq<u64>>, shifts: Seq<nat>, n: nat, place: int, m: nat) -> nat
    decreases m,
{
    if m == 0 {
        0
    } else {
        demand_at(samples, shifts, n, place, (m - 1) as nat) + samples[m - 1][(place - shifts[m - 1]) % n as int] as nat
    }
}

/// What a demand is beyond the capacity.
pub open spec fn beyond(demand: nat, capacity: nat) -> nat {
    if demand > capacity {
        (demand - capacity) as nat
    } else {
        0
    }
}

/// What the jobs demand beyond the capacity at the first `k` places of the circle.
pub open spec fn excess(samples: Seq<Seq<u64>>, shifts: Seq<nat>, n: nat, capacity: nat, k: nat) -> nat
    decreases k,
{
    if k == 0 {
        0
    } else {
        excess(samples, shifts, n, capacity, (k - 1) as nat) + beyond(
            demand_at(samples, shifts, n, k - 1, samples.len()),
            capacity,
        )
    }
}

/// The shifts of steps.
pub open spec fn step_shifts(table: Seq<usize>, steps: Seq<usize>) -> Seq<nat> {
    steps.map_values(|s: usize| table[s as int] as nat)
}

/// What the jobs demand beyond the capacity if they are turned by steps.
pub open spec fn step_excess(samples: Seq<Seq<u64>>, table: Seq<usize>, capacity: nat, steps: Seq<usize>) -> nat {
    let n = samples[0].len();
    excess(samples, step_shifts(table, steps), n, capacity, n)
}

/// The best turn so far, and what is demanded beyond the capacity with it.
#[verifier::ext_equal]
pub struct BestTurn {
    pub steps: Seq<usize>,
    pub excess: nat,
}

/// The best turn after those that begin with some steps, tried in order, have been tried too.
pub open spec fn search_from(
    samples: Seq<Seq<u64>>,
    table: Seq<usize>,
    capacity: nat,
    begin: Seq<usize>,
    best: BestTurn,
) -> BestTurn
    decreases samples.len() - begin.len(), table.len() + 1,
{
    if begin.len() >= samples.len() {
        let e = step_excess(samples, table, capacity, begin);
        if e < best.excess {
            BestTurn { steps: begin, excess: e }
        } else {
            best
        }
    } else {
        search_steps(samples, table, capacity, begin, best, table.len())
    }
}

/// The best turn after those that begin with some steps and one of the first `k` for the next job
/// have been tried too.
pub open spec fn search_steps(
    samples: Seq<Seq<u64>>,
    table: Seq<usize>,
    capacity: nat,
    begin: Seq<usize>,
    best: BestTurn,
    k: nat,
) -> BestTurn
    decreases samples.len() - begin.len(), k,
{
    if k == 0 || begin.len() >= samples.len() {
        best
    } else {
        search_from(
            samples,
            table,
            capacity,
            begin.push((k - 1) as usize),
            search_steps(samples, table, capacity, begin, best, (k - 1) as nat),
        )
    }
}

/// A choice of steps for all jobs that begins with the given ones.
pub open spec fn is_turn(samples: Seq<Seq<u64>>, table: Seq<usize>, begin: Seq<usize>, steps: Seq<usize>) -> bool {
    &&& steps.len() == samples.len()
    &&& begin.len() <= steps.len()
    &&& steps.take(begin.len() as int) == begin
    &&& forall|i: int| begin.len() <= i < steps.len() ==> (#[trigger] steps[i]) < table.len()
}

/// No turn that has been tried is better than the one that is found.
pub proof fn lemma_search(
    samples: Seq<Seq<u64>>,
    table: Seq<usize>,
    capacity: nat,
    begin: Seq<usize>,
    best: BestTurn,
    steps: Seq<usize>,
)
    requires
        begin.len() <= samples.len(),
        table.len() <= usize::MAX,
    ensures
        search_from(samples, table, capacity, begin, best).excess <= best.excess,
        is_turn(samples, table, begin, steps) ==> search_from(samples, table, capacity, begin, best).excess
            <= step_excess(samples, table, capacity, steps),
    decreases samples.len() - begin.len(), table.len() + 1,
{
    if begin.len() >= samples.len() {
        if is_turn(samples, table, begin, steps) {
            assert(steps.take(begin.len() as int) =~= steps);
        }
    } else {
        lemma_search_steps(samples, table, capacity, begin, best, table.len(), steps);
        if is_turn(samples, table, begin, steps) {
            assert(steps[begin.len() as int] < table.len());
        }
    }
}

proof fn lemma_search_steps(
    samples: Seq<Seq<u64>>,
    table: Seq<usize>,
    capacity: nat,
    begin: Seq<usize>,
    best: BestTurn,
    k: nat,
    steps: Seq<usize>,
)
    requires
        begin.len() < samples.len(),
        k <= table.len(),
        table.len() <= usize::MAX,
    ensures
        search_steps(samples, table, capacity, begin, best, k).excess <= best.excess,
        is_turn(samples, table, begin, steps) && steps[begin.len() as int] < k ==> search_steps(
            samples,
            table,
            capacity,
            begin,
            best,
            k,
        ).excess <= step_excess(samples, table, capacity, steps),
    decreases samples.len() - begin.len(), k,
{
    if k > 0 {
        let mid = search_steps(samples, table, capacity, begin, best, (k - 1) as nat);
        lemma_search_steps(samples, table, capacity, begin, best, (k - 1) as nat, steps);
        let next = begin.push((k - 1) as usize);
        lemma_search(samples, table, capacity, next, mid, steps);
        if is_turn(samples, table, begin, steps) && steps[begin.len() as int] == k - 1 {
            assert(steps.take(next.len() as int) =~= next) by {
                assert(steps.take(begin.len() as int) == begin);
                assert forall|i: int| 0 <= i < next.len() implies steps.take(next.len() as int)[i] == next[i] by {
                    if i < begin.len() {
                        assert(steps.take(begin.len() as int)[i] == begin[i]);
                    }
                }
            }
            assert(is_turn(samples, table, next, steps));
        }
    }
}

/// What a turn is measured against at first: turns with which the average demand beyond the capacity
/// reaches the capacity count for nothing.
pub open spec fn no_turn(samples: Seq<Seq<u64>>, capacity: nat) -> BestTurn {
    BestTurn { steps: Seq::new(samples.len(), |i: int| 0usize), excess: samples[0].len() * capacity }
}

/// The values of circles.
pub open spec fn sample_views(samples: Seq<Vec<u64>>) -> Seq<Seq<u64>> {
    samples.map_values(|v: Vec<u64>| v@)
}

/// Circles with the same number of places.
pub open spec fn same_places(samples: Seq<Seq<u64>>) -> bool {
    forall|j: int| 0 <= j < samples.len() ==> (#[trigger] samples[j]).len() == samples[0].len()
}

proof fn lemma_demand_bound(samples: Seq<Seq<u64>>, shifts: Seq<nat>, n: nat, place: int, m: nat)
    requires
        m <= samples.len(),
    ensures
        demand_at(samples, shifts, n, place, m) <= m * u64::MAX,
    decreases m,
{
    if m > 0 {
        lemma_demand_bound(samples, shifts, n, place, (m - 1) as nat);
        assert(m * u64::MAX == (m - 1) * u64::MAX + u64::MAX) by (nonlinear_arith);
    }
}

proof fn lemma_excess_bound(samples: Seq<Seq<u64>>, shifts: Seq<nat>, n: nat, capacity: nat, k: nat)
    ensures
        excess(samples, shifts, n, capacity, k) <= k * (samples.len() * u64::MAX),
    decreases k,
{
    if k > 0 {
        lemma_excess_bound(samples, shifts, n, capacity, (k - 1) as nat);
        lemma_demand_bound(samples, shifts, n, k - 1, samples.len());
        let c = samples.len() * u64::MAX;
        assert(k * c == (k - 1) * c + c) by (nonlinear_arith);
    }
}

proof fn lemma_product_bound(places: nat, jobs: nat)
    requires
        places * jobs <= u64::MAX,
    ensures
        places * (jobs * u64::MAX) <= u128::MAX,
        places > 0 ==> jobs * u64::MAX <= u128::MAX,
{
    assert(places * (jobs * u64::MAX) == (places * jobs) * u64::MAX) by (nonlinear_arith);
    assert((places * jobs) * u64::MAX <= u64::MAX * u64::MAX) by (nonlinear_arith)
        requires
            0 <= places * jobs <= u64::MAX,
    ;
    if places > 0 {
        assert(jobs * u64::MAX <= places * (jobs * u64::MAX)) by (nonlinear_arith)
            requires
                places >= 1,
                jobs * u64::MAX >= 0,
        ;
    }
}

/// Whether an arc covers a place. An arc that wraps covers what lies from its start on and what lies up
/// to its end.
pub open spec fn covers(start: int, end: int, wraps: bool, place: int) -> bool {
    if wraps {
        start <= place || place <= end
    } else {
        start <= place <= end
    }
}

/// Raises the demand on an arc of a circle to at least `demand`.
pub fn mark_arc(samples: &mut Vec<u64>, start: usize, end: usize, wraps: bool, demand: u64)
    ensures
        final(samples)@ == old(samples)@.map(
            |i: int, v: u64|
                if covers(start as int, end as int, wraps, i) && v < demand {
                    demand
                } else {
                    v
                },
        ),
{
    let ghost before = samples@;
    let mut i: usize = 0;
    while i < samples.len()
        invariant
            i <= samples@.len(),
            samples@.len() == before.len(),
            forall|k: int|
                0 <= k < i ==> #[trigger] samples@[k] == if covers(start as int, end as int, wraps, k) && before[k]
                    < demand {
                    demand
                } else {
                    before[k]
                },
            forall|k: int| i <= k < before.len() ==> #[trigger] samples@[k] == before[k],
        decreases samples@.len() - i,
    {
        let inside = if wraps {
            start <= i || i <= end
        } else {
            start <= i && i <= end
        };
        if inside && samples[i] < demand {
            samples.set(i, demand);
        }
        i += 1;
    }
}

/// What the jobs demand beyond the capacity if they are turned by steps.
pub fn evaluate_rotation_combination(
    samples: &Vec<Vec<u64>>,
    table: &Vec<usize>,
    capacity: u64,
    steps: &Vec<usize>,
) -> (r: u128)
    requires
        samples@.len() > 0,
        steps@.len() == samples@.len(),
        same_places(sample_views(samples@)),
        forall|i: int| 0 <= i < steps@.len() ==> (#[trigger] steps@[i]) < table@.len(),
        forall|i: int| 0 <= i < table@.len() ==> (#[trigger] table@[i]) <= samples@[0]@.len(),
        samples@[0]@.len() * samples@.len() <= u64::MAX,
    ensures
        r == step_excess(sample_views(samples@), table@, capacity as nat, steps@),
{
    let ghost views = sample_views(samples@);
    let ghost shifts = step_shifts(table@, steps@);
    let n: usize = samples[0].len();
    let m: usize = samples.len();
    assert(views[0].len() == n);
    let mut total: u128 = 0;
    let mut k: usize = 0;
    while k < n
        invariant
            k <= n,
            n == views[0].len(),
            m == samples@.len(),
            m > 0,
            views == sample_views(samples@),
            shifts == step_shifts(table@, steps@),
            steps@.len() == samples@.len(),
            same_places(views),
            forall|i: int| 0 <= i < steps@.len() ==> (#[trigger] steps@[i]) < table@.len(),
            forall|i: int| 0 <= i < table@.len() ==> (#[trigger] table@[i]) <= n,
            n * m <= u64::MAX,
            total == excess(views, shifts, n as nat, capacity as nat, k as nat),
        decreases n - k,
    {
        proof {
            lemma_product_bound(n as nat, m as nat);
            lemma_excess_bound(views, shifts, n as nat, capacity as nat, (k + 1) as nat);
            let c = m * u64::MAX;
            assert((k + 1) * c <= n * c) by (nonlinear_arith)
                requires
                    0 <= k + 1 <= n,
                    c >= 0,
            ;
        }
        let mut demand: u128 = 0;
        let mut j: usize = 0;
        while j < m
            invariant
                j <= m,
                k < n,
                n == views[0].len(),
                m == samples@.len(),
                views == sample_views(samples@),
                shifts == step_shifts(table@, steps@),
                steps@.len() == samples@.len(),
                same_places(views),
                forall|i: int| 0 <= i < steps@.len() ==> (#[trigger] steps@[i]) < table@.len(),
                forall|i: int| 0 <= i < table@.len() ==> (#[trigger] table@[i]) <= n,
                m * u64::MAX <= u128::MAX,
                demand == demand_at(views, shifts, n as nat, k as int, j as nat),
            decreases m - j,
        {
            proof {
                lemma_demand_bound(views, shifts, n as nat, k as int, (j + 1) as nat);
                assert((j + 1) * u64::MAX <= m * u64::MAX) by (nonlinear_arith)
                    requires
                        0 <= j + 1 <= m,
                ;
                assert(views[j as int] == samples@[j as int]@);
                assert(views[j as int].len() == n);
            }
            assert(steps@[j as int] < table@.len());
            let shift: usize = table[steps[j]];
            let place: usize = if shift <= k {
                k - shift
            } else {
                k + (n - shift)
            };
            proof {
                let d = k - shift;
                if shift <= k {
                    vstd::arithmetic::div_mod::lemma_small_mod(d as nat, n as nat);
                } else {
                    vstd::arithmetic::div_mod::lemma_mod_add_multiples_vanish(d, n as int);
                    vstd::arithmetic::div_mod::lemma_small_mod((d + n) as nat, n as nat);
                }
                assert(place == (k - shifts[j as int]) % n as int);
            }
            demand = demand + samples[j][place] as u128;
            j += 1;
        }
        if demand > capacity as u128 {
            total = total + (demand - capacity as u128);
        }
        k += 1;
    }
    total
}

/// Tries the turns that begin with some steps.
fn recursive_rotation_search(
    samples: &Vec<Vec<u64>>,
    table: &Vec<usize>,
    capacity: u64,
    steps: &mut Vec<usize>,
    best: &mut Vec<usize>,
    best_excess: &mut u128,
)
    requires
        samples@.len() > 0,
        old(steps)@.len() <= samples@.len(),
        same_places(sample_views(samples@)),
        forall|i: int| 0 <= i < old(steps)@.len() ==> (#[trigger] old(steps)@[i]) < table@.len(),
        forall|i: int| 0 <= i < table@.len() ==> (#[trigger] table@[i]) <= samples@[0]@.len(),
        samples@[0]@.len() * samples@.len() <= u64::MAX,
    ensures
        final(steps)@ == old(steps)@,
        (BestTurn { steps: final(best)@, excess: *final(best_excess) as nat }) == search_from(
            sample_views(samples@),
            table@,
            capacity as nat,
            old(steps)@,
            BestTurn { steps: old(best)@, excess: *old(best_excess) as nat },
        ),
    decreases samples@.len() - old(steps)@.len(),
{
    let ghost views = sample_views(samples@);
    let ghost begin = steps@;
    let ghost first = BestTurn { steps: best@, excess: *best_excess as nat };
    if steps.len() >= samples.len() {
        let e: u128 = evaluate_rotation_combination(samples, table, capacity, steps);
        if e < *best_excess {
            *best_excess = e;
            *best = copy_path(steps);
        }
        return;
    }
    let mut k: usize = 0;
    while k < table.len()
        invariant
            k <= table@.len(),
            samples@.len() > 0,
            views == sample_views(samples@),
            steps@ == begin,
            begin.len() < samples@.len(),
            begin == old(steps)@,
            same_places(views),
            forall|i: int| 0 <= i < begin.len() ==> (#[trigger] begin[i]) < table@.len(),
            forall|i: int| 0 <= i < table@.len() ==> (#[trigger] table@[i]) <= samples@[0]@.len(),
            samples@[0]@.len() * samples@.len() <= u64::MAX,
            (BestTurn { steps: best@, excess: *best_excess as nat }) == search_steps(
                views,
                table@,
                capacity as nat,
                begin,
                first,
                k as nat,
            ),
        decreases table@.len() - k,
    {
        steps.push(k);
        recursive_rotation_search(samples, table, capacity, steps, best, best_excess);
        steps.pop();
        proof {
            assert(steps@ =~= begin);
        }
        k += 1;
    }
}

/// The first turn with which the jobs demand the least beyond the capacity, and that demand. The first
/// job is not turned. There is no turn if the average demand beyond the capacity reaches the capacity
/// with every one.
pub fn search_rotations(samples: &Vec<Vec<u64>>, table: &Vec<usize>, capacity: u64) -> (r: (Vec<usize>, Option<u128>))
    requires
        samples@.len() > 0,
        same_places(sample_views(samples@)),
        table@.len() > 0,
        table@[0] == 0,
        forall|i: int| 0 <= i < table@.len() ==> (#[trigger] table@[i]) <= samples@[0]@.len(),
        samples@[0]@.len() * samples@.len() <= u64::MAX,
    ensures
        ({
            let views = sample_views(samples@);
            let none = no_turn(views, capacity as nat);
            let found = search_from(views, table@, capacity as nat, seq![0usize], none);
            &&& r.0@ == found.steps
            &&& r.1 is Some == (found.excess < none.excess)
            &&& r.1 is Some ==> r.1->0 == found.excess
        }),
{
    let ghost views = sample_views(samples@);
    let n: usize = samples[0].len();
    let m: usize = samples.len();
    let t: usize = table.len();
    assert(t == table@.len());
    assert(views[0].len() == n);
    let a: u128 = n as u128;
    let b: u128 = capacity as u128;
    assert(a * b <= 0xffff_ffff_ffff_ffffu128 * 0xffff_ffff_ffff_ffffu128) by (nonlinear_arith)
        requires
            a <= 0xffff_ffff_ffff_ffffu128,
            b <= 0xffff_ffff_ffff_ffffu128,
    ;
    let limit: u128 = a * b;
    let mut best: Vec<usize> = Vec::new();
    let mut i: usize = 0;
    while i < m
        invariant
            i <= m,
            best@ == Seq::new(i as nat, |k: int| 0usize),
        decreases m - i,
    {
        best.push(0);
        assert(best@ =~= Seq::new((i + 1) as nat, |k: int| 0usize));
        i += 1;
    }
    let mut best_excess: u128 = limit;
    let mut steps: Vec<usize> = Vec::new();
    steps.push(0);
    assert(steps@ =~= seq![0usize]);
    proof {
        assert(views[0].len() * capacity as nat == limit as nat);
        assert((BestTurn { steps: best@, excess: best_excess as nat }) =~= no_turn(views, capacity as nat));
        lemma_search(views, table@, capacity as nat, seq![0usize], no_turn(views, capacity as nat), best@);
    }
    recursive_rotation_search(samples, table, capacity, &mut steps, &mut best, &mut best_excess);
    let found: Option<u128> = if best_excess < limit {
        Some(best_excess)
    } else {
        None
    };
    (best, found)
}

} // verus!
