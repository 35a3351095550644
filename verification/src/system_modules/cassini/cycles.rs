//! What common periods and turned circles promise.

use vstd::arithmetic::div_mod::{
    lemma_div_multiples_vanish, lemma_fundamental_div_mod, lemma_mod_bound, lemma_mod_twice, lemma_small_mod,
    lemma_sub_mod_noop,
};
use vstd::prelude::*;

use crate::system_modules::cassini::geometry::{
    demand_at, divides, excess, gcd, is_turn, lcm, lcm_all, lemma_gcd, lemma_lcm, lemma_search, search_from, search_steps,
    step_excess, BestTurn,
};

verus! {

/// The greatest common divisor is a combination of the two numbers.
proof fn lemma_combination(a: nat, b: nat) -> (r: (int, int))
    ensures
        gcd(a, b) == r.0 * a + r.1 * b,
    decreases b,
{
    if b == 0 {
        (1, 0)
    } else {
        let m = a % b;
        let q = a as int / b as int;
        lemma_mod_bound(a as int, b as int);
        lemma_fundamental_div_mod(a as int, b as int);
        let (s, t) = lemma_combination(b, m);
        assert(s * b + t * m == t * a + (s - t * q) * b) by (nonlinear_arith)
            requires
                a as int == b as int * q + m as int,
        ;
        (t, s - t * q)
    }
}

/// The least common multiple divides every common multiple.
pub proof fn lemma_lcm_least(a: nat, b: nat, m: nat)
    requires
        a > 0,
        b > 0,
        divides(a, m),
        divides(b, m),
    ensures
        lcm(a, b) > 0,
        divides(lcm(a, b), m),
        m > 0 ==> lcm(a, b) <= m,
{
    let g = gcd(a, b);
    let l = lcm(a, b);
    lemma_gcd(a, b);
    lemma_lcm(a, b);
    let (s, t) = lemma_combination(a, b);
    let x = choose|x: nat| m == #[trigger] (a * x);
    let y = choose|y: nat| m == #[trigger] (b * y);
    let u = choose|u: nat| a == #[trigger] (g * u);
    let ub = u * b;
    assert(a * b == g * ub) by (nonlinear_arith)
        requires
            a == g * u,
            ub == u * b,
    ;
    lemma_div_multiples_vanish(ub as int, g as int);
    assert(l == ub);
    assert(l > 0) by (nonlinear_arith)
        requires
            l == u * b,
            a == g * u,
            a > 0,
            b > 0,
    ;
    let k = y * s + x * t;
    let ab = (a * b) as int;
    assert(m * g == (m * a) * s + (m * b) * t) by (nonlinear_arith)
        requires
            g == s * a + t * b,
    ;
    assert(m * a == ab * y) by (nonlinear_arith)
        requires
            m == b * y,
            ab == a * b,
    ;
    assert(m * b == ab * x) by (nonlinear_arith)
        requires
            m == a * x,
            ab == a * b,
    ;
    assert((ab * y) * s + (ab * x) * t == ab * k) by (nonlinear_arith)
        requires
            k == y * s + x * t,
    ;
    assert(ab * k == (l * k) * g) by (nonlinear_arith)
        requires
            ab == g * l,
    ;
    assert(m == l * k) by (nonlinear_arith)
        requires
            m * g == (l * k) * g,
            g > 0,
    ;
    assert(k >= 0) by (nonlinear_arith)
        requires
            m == l * k,
            l > 0,
    ;
    let n = k as nat;
    assert(m == l * n);
    assert(m > 0 ==> l <= m) by (nonlinear_arith)
        requires
            m == l * n,
    ;
}

proof fn lemma_divides_trans(a: nat, b: nat, c: nat)
    requires
        divides(a, b),
        divides(b, c),
    ensures
        divides(a, c),
{
    let x = choose|x: nat| b == #[trigger] (a * x);
    let y = choose|y: nat| c == #[trigger] (b * y);
    assert(c == a * (x * y)) by (nonlinear_arith)
        requires
            b == a * x,
            c == b * y,
    ;
}

proof fn lemma_common_to(times: Seq<u64>, n: nat)
    requires
        n <= times.len(),
        times.len() > 0,
        forall|i: int| 0 <= i < times.len() ==> #[trigger] times[i] > 0,
    ensures
        lcm_all(times, n) > 0,
        forall|i: int| 0 <= i < n ==> divides(#[trigger] times[i] as nat, lcm_all(times, n)),
        forall|m: nat|
            (forall|i: int| 0 <= i < times.len() ==> divides(#[trigger] times[i] as nat, m)) ==> #[trigger] divides(
                lcm_all(times, n),
                m,
            ),
    decreases n,
{
    if n == 0 {
        assert forall|m: nat|
            (forall|i: int| 0 <= i < times.len() ==> divides(#[trigger] times[i] as nat, m)) implies #[trigger] divides(
            lcm_all(times, n),
            m,
        ) by {
            assert(divides(times[0] as nat, m));
        }
    } else {
        lemma_common_to(times, (n - 1) as nat);
        let a = lcm_all(times, (n - 1) as nat);
        let b = times[n - 1] as nat;
        lemma_lcm(a, b);
        assert(times[n - 1] > 0);
        lemma_lcm_least(a, b, lcm(a, b));
        assert forall|i: int| 0 <= i < n implies divides(#[trigger] times[i] as nat, lcm_all(times, n)) by {
            if i < n - 1 {
                lemma_divides_trans(times[i] as nat, a, lcm(a, b));
            }
        }
        assert forall|m: nat|
            (forall|i: int| 0 <= i < times.len() ==> divides(#[trigger] times[i] as nat, m)) implies #[trigger] divides(
            lcm_all(times, n),
            m,
        ) by {
            assert(divides(times[n - 1] as nat, m));
            assert(divides(a, m));
            lemma_lcm_least(a, b, m);
        }
    }
}

/// The period of jobs holds whole iterations of each of them, and no shorter time does.
pub proof fn lemma_common_period(times: Seq<u64>, m: nat)
    requires
        times.len() > 0,
        forall|i: int| 0 <= i < times.len() ==> #[trigger] times[i] > 0,
    ensures
        lcm_all(times, times.len()) > 0,
        forall|i: int| 0 <= i < times.len() ==> divides(#[trigger] times[i] as nat, lcm_all(times, times.len())),
        m > 0 && (forall|i: int| 0 <= i < times.len() ==> divides(#[trigger] times[i] as nat, m)) ==> lcm_all(
            times,
            times.len(),
        ) <= m,
{
    let l = lcm_all(times, times.len());
    lemma_common_to(times, times.len());
    if m > 0 && (forall|i: int| 0 <= i < times.len() ==> divides(#[trigger] times[i] as nat, m)) {
        assert(divides(l, m));
        let q = choose|q: nat| m == #[trigger] (l * q);
        assert(l <= m) by (nonlinear_arith)
            requires
                m == l * q,
                m > 0,
        ;
    }
}

/// A job that is turned by a shift demands, so many places further on, what it demands without.
pub proof fn lemma_turned_demand(samples: Seq<Seq<u64>>, shifts: Seq<nat>, n: nat, x: int, m: nat)
    requires
        0 < m <= samples.len(),
        shifts.len() == samples.len(),
        0 <= x < n,
    ensures
        ({
            let place = (x + shifts[m - 1]) % n as int;
            demand_at(samples, shifts, n, place, m) == demand_at(samples, shifts, n, place, (m - 1) as nat) + samples[m - 1][x]
        }),
{
    let s = shifts[m - 1] as int;
    let d = n as int;
    lemma_sub_mod_noop(x + s, s, d);
    lemma_small_mod(x as nat, n);
    let place = (x + s) % d;
    assert((place - s) % d == x) by {
        lemma_sub_mod_noop(place, s, d);
        lemma_mod_twice(x + s, d);
    }
}

/// Nothing is demanded beyond the capacity exactly if at every place no more than the capacity is demanded.
pub proof fn lemma_nothing_beyond(samples: Seq<Seq<u64>>, shifts: Seq<nat>, n: nat, capacity: nat, k: nat)
    ensures
        (excess(samples, shifts, n, capacity, k) == 0) == (forall|p: int|
            0 <= p < k ==> #[trigger] demand_at(samples, shifts, n, p, samples.len()) <= capacity),
    decreases k,
{
    if k > 0 {
        lemma_nothing_beyond(samples, shifts, n, capacity, (k - 1) as nat);
        assert(demand_at(samples, shifts, n, k - 1, samples.len()) <= capacity || !(demand_at(
            samples,
            shifts,
            n,
            k - 1,
            samples.len(),
        ) <= capacity));
    }
}

/// A place at which more is demanded adds what is beyond the capacity.
pub proof fn lemma_excess_adds(samples: Seq<Seq<u64>>, shifts: Seq<nat>, n: nat, capacity: nat, k: nat)
    ensures
        ({
            let more = excess(samples, shifts, n, capacity, (k + 1) as nat) - excess(samples, shifts, n, capacity, k);
            let demand = demand_at(samples, shifts, n, k as int, samples.len());
            more >= 0 && more + capacity >= demand && (more > 0 ==> more + capacity == demand)
        }),
{
}

proof fn lemma_found_steps(
    samples: Seq<Seq<u64>>,
    table: Seq<usize>,
    capacity: nat,
    begin: Seq<usize>,
    best: BestTurn,
    k: nat,
)
    requires
        begin.len() < samples.len(),
        k <= table.len(),
        table.len() <= usize::MAX,
    ensures
        ({
            let found = search_steps(samples, table, capacity, begin, best, k);
            found == best || (is_turn(samples, table, begin, found.steps) && found.excess == step_excess(
                samples,
                table,
                capacity,
                found.steps,
            ) && found.excess < best.excess)
        }),
    decreases samples.len() - begin.len(), k,
{
    if k > 0 {
        lemma_found_steps(samples, table, capacity, begin, best, (k - 1) as nat);
        let before = search_steps(samples, table, capacity, begin, best, (k - 1) as nat);
        let next = begin.push((k - 1) as usize);
        lemma_found(samples, table, capacity, next, before);
        let found = search_from(samples, table, capacity, next, before);
        if found != before {
            assert(found.steps.take(begin.len() as int) =~= begin) by {
                assert(found.steps.take(next.len() as int) == next);
                assert forall|i: int| 0 <= i < begin.len() implies found.steps[i] == begin[i] by {
                    assert(found.steps.take(next.len() as int)[i] == next[i]);
                }
            }
            assert forall|i: int| begin.len() <= i < found.steps.len() implies (#[trigger] found.steps[i]) < table.len() by {
                if i == begin.len() {
                    assert(found.steps.take(next.len() as int)[i] == next[i]);
                }
            }
        }
    }
}

/// What the search finds is a turn that has the given first steps and is better than the one to beat, or the latter.
pub proof fn lemma_found(samples: Seq<Seq<u64>>, table: Seq<usize>, capacity: nat, begin: Seq<usize>, best: BestTurn)
    requires
        begin.len() <= samples.len(),
        table.len() <= usize::MAX,
    ensures
        ({
            let found = search_from(samples, table, capacity, begin, best);
            found == best || (is_turn(samples, table, begin, found.steps) && found.excess == step_excess(
                samples,
                table,
                capacity,
                found.steps,
            ) && found.excess < best.excess)
        }),
    decreases samples.len() - begin.len(), table.len() + 1,
{
    if begin.len() >= samples.len() {
        assert(begin.take(begin.len() as int) =~= begin);
    } else {
        lemma_found_steps(samples, table, capacity, begin, best, table.len());
    }
}

/// Where the search finds a turn, no other demands less beyond the capacity; where it finds none, none is good enough.
pub proof fn lemma_best_found(
    samples: Seq<Seq<u64>>,
    table: Seq<usize>,
    capacity: nat,
    begin: Seq<usize>,
    best: BestTurn,
    steps: Seq<usize>,
)
    requires
        begin.len() <= samples.len(),
        table.len() <= usize::MAX,
        is_turn(samples, table, begin, steps),
    ensures
        ({
            let found = search_from(samples, table, capacity, begin, best);
            if found == best {
                best.excess <= step_excess(samples, table, capacity, steps)
            } else {
                step_excess(samples, table, capacity, found.steps) <= step_excess(samples, table, capacity, steps)
            }
        }),
{
    lemma_search(samples, table, capacity, begin, best, steps);
    lemma_found(samples, table, capacity, begin, best);
}

} // verus!
