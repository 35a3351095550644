//! Spine group load balancing: a flow takes one of the spines whose links carry the fewest flows, and
//! may move to another when others do.

use vstd::prelude::*;

use crate::network::graph::LinkId;
use crate::routing::load::{count_of, get_count, lower_path, lowered_all, raise_path, raised_all};
use crate::simulator::context::wrapping_sum;
use crate::simulator::ml_job::{ascending, lemma_ascending};
use crate::simulator::ml_worker::{FlowId, JobId};
use crate::spine::routing::{copy_path, traffic_hash};
use crate::utils::data::DHashMap;
use crate::utils::hash::{hash_pair, hash_three, le_bytes, pick, pick_by_hash, xx_hash};

verus! {

/// A weight, as a fraction whose denominator is not zero.
#[derive(Debug, Clone, Copy, PartialEq, Eq, Structural)]
pub struct Weight {
    pub num: i32,
    pub den: u16,
}

impl Weight {
    /// A fraction.
    pub fn new(num: i32, den: u16) -> (r: Self)
        ensures
            r == (Weight { num, den }),
    {
        Weight { num, den }
    }

    /// The fractions have the same value.
    pub open spec fn same(self, other: Self) -> bool {
        self.num * other.den == other.num * self.den
    }
}

/// How flows are balanced.
#[derive(Debug, Clone, Copy, PartialEq, Eq, Structural)]
pub struct SGLBConfig {
    /// How many spines a flow may choose from.
    pub k: usize,
    /// What a flow on the link up to a spine weighs.
    pub w1: Weight,
    /// What a flow on the link down from a spine weighs.
    pub w2: Weight,
    /// Seed of the hash that chooses.
    pub seed: u64,
    /// Whether flows move.
    pub enable_remapping: bool,
    /// How often flows move; with zero only when the network is reconfigured.
    pub remap_interval_us: u64,
}

impl Default for SGLBConfig {
    fn default() -> (r: Self)
        ensures
            r == (SGLBConfig {
                k: 4,
                w1: Weight { num: 1, den: 1 },
                w2: Weight { num: 1, den: 1 },
                seed: 0x5A3B_1C2D_4E5F_6A7B,
                enable_remapping: true,
                remap_interval_us: 10_000,
            }),
    {
        SGLBConfig {
            k: 4,
            w1: Weight { num: 1, den: 1 },
            w2: Weight { num: 1, den: 1 },
            seed: 0x5A3B_1C2D_4E5F_6A7B,
            enable_remapping: true,
            remap_interval_us: 10_000,
        }
    }
}

/// The configuration that is used unless another is asked for.
pub open spec fn default_config() -> SGLBConfig {
    SGLBConfig {
        k: 4,
        w1: Weight { num: 1, den: 1 },
        w2: Weight { num: 1, den: 1 },
        seed: 0x5A3B_1C2D_4E5F_6A7B,
        enable_remapping: true,
        remap_interval_us: 10_000,
    }
}

impl SGLBConfig {
    /// A choice among `k` spines.
    pub fn with_k(k: usize) -> (r: Self)
        ensures
            r == (SGLBConfig { k, ..default_config() }),
    {
        let d: SGLBConfig = Default::default();
        SGLBConfig { k, ..d }
    }

    /// A choice among `k` spines, with weights.
    pub fn with_weights(k: usize, w1: Weight, w2: Weight) -> (r: Self)
        ensures
            r == (SGLBConfig { k, w1, w2, ..default_config() }),
    {
        let d: SGLBConfig = Default::default();
        SGLBConfig { k, w1, w2, ..d }
    }

    /// A choice among `k` spines; flows move at the interval.
    pub fn with_remap_interval(k: usize, interval_us: u64) -> (r: Self)
        ensures
            r == (SGLBConfig { k, remap_interval_us: interval_us, ..default_config() }),
    {
        let d: SGLBConfig = Default::default();
        SGLBConfig { k, remap_interval_us: interval_us, ..d }
    }

    /// Flows move only when the network is reconfigured.
    pub fn without_periodic_remap(self) -> (r: Self)
        ensures
            r == (SGLBConfig { remap_interval_us: 0, ..self }),
    {
        SGLBConfig { remap_interval_us: 0, ..self }
    }
}

/// A network whose switches are all linked with all spines.
pub trait SpineLayer: Sized {
    /// The network is well-formed.
    spec fn valid(&self) -> bool;

    /// Switches below the spines.
    spec fn sides(&self) -> nat;

    /// Spines.
    spec fn spines(&self) -> nat;

    /// The link from a switch up to a spine.
    spec fn up_id(&self, side: int, spine: int) -> LinkId;

    /// The link from a spine down to a switch.
    spec fn down_id(&self, side: int, spine: int) -> LinkId;

    /// Number of spines.
    fn count_spines(&self) -> (r: usize)
        ensures
            r == self.spines(),
    ;

    /// The link from a switch up to a spine.
    fn up_link(&self, side: usize, spine: usize) -> (r: LinkId)
        requires
            self.valid(),
            side < self.sides(),
            spine < self.spines(),
        ensures
            r == self.up_id(side as int, spine as int),
    ;

    /// The link from a spine down to a switch.
    fn down_link(&self, side: usize, spine: usize) -> (r: LinkId)
        requires
            self.valid(),
            side < self.sides(),
            spine < self.spines(),
        ensures
            r == self.down_id(side as int, spine as int),
    ;
}

/// How often a link occurs among the first `n`.
pub open spec fn occurrences(links: Seq<LinkId>, link: LinkId, n: nat) -> nat
    decreases n,
{
    if n == 0 {
        0
    } else {
        occurrences(links, link, (n - 1) as nat) + if links[n - 1] == link {
            1nat
        } else {
            0nat
        }
    }
}

/// Flows on a link without those that are left out.
pub open spec fn count_without(loads: Map<LinkId, usize>, link: LinkId, out: Seq<LinkId>) -> nat {
    let n = count_of(loads, link);
    let m = occurrences(out, link, out.len());
    if n <= m {
        0
    } else {
        (n - m) as nat
    }
}

/// What a spine carries between two switches, weighed. The sum is taken over the denominator that the two
/// weights have in common, so that it orders the spines as the weighed sum does.
pub open spec fn spine_score<L: SpineLayer>(
    cfg: SGLBConfig,
    layer: L,
    loads: Map<LinkId, usize>,
    src: int,
    dst: int,
    out: Seq<LinkId>,
    spine: int,
) -> int {
    cfg.w1.num * cfg.w2.den * count_without(loads, layer.up_id(src, spine), out) + cfg.w2.num * cfg.w1.den * count_without(
        loads,
        layer.down_id(dst, spine),
        out,
    )
}

/// What each spine carries between two switches.
pub open spec fn spine_scores<L: SpineLayer>(
    cfg: SGLBConfig,
    layer: L,
    loads: Map<LinkId, usize>,
    src: int,
    dst: int,
    out: Seq<LinkId>,
) -> Seq<int> {
    Seq::new(layer.spines(), |s: int| spine_score(cfg, layer, loads, src, dst, out, s))
}

/// A list of spines with another one, after those that do not carry more.
pub open spec fn with_spine(list: Seq<usize>, scores: Seq<int>, s: usize) -> Seq<usize>
    decreases list.len(),
{
    if list.len() == 0 || scores[list.last() as int] <= scores[s as int] {
        list.push(s)
    } else {
        with_spine(list.drop_last(), scores, s).push(list.last())
    }
}

/// The first `n` spines by what they carry, then by number.
pub open spec fn ranked(scores: Seq<int>, n: nat) -> Seq<usize>
    decreases n,
{
    if n == 0 {
        Seq::empty()
    } else {
        with_spine(ranked(scores, (n - 1) as nat), scores, (n - 1) as usize)
    }
}

/// The `k` spines that carry the least.
pub open spec fn least_loaded(scores: Seq<int>, k: nat) -> Seq<usize> {
    ranked(scores, scores.len()).take(
        if k < scores.len() {
            k as int
        } else {
            scores.len() as int
        },
    )
}

/// The spine that a new flow takes among those that it may choose from.
pub open spec fn chosen_spine(cfg: SGLBConfig, eligible: Seq<usize>, src: usize, dst: usize, job_id: JobId) -> usize {
    if eligible.len() == 1 {
        eligible[0]
    } else {
        eligible[pick(traffic_hash(cfg.seed, src, dst, job_id), eligible.len()) as int]
    }
}

/// The hash by which a flow that moves chooses.
pub open spec fn move_hash(cfg: SGLBConfig, flow_id: FlowId, src: usize, dst: usize) -> u64 {
    xx_hash(
        wrapping_sum(cfg.seed, flow_id as u64),
        le_bytes(flow_id as nat, 8) + le_bytes(src as nat, 8) + le_bytes(dst as nat, 8),
    )
}

/// One spine comes before another: it carries less, or the same and has the smaller number.
pub open spec fn lighter(scores: Seq<int>, a: usize, b: usize) -> bool {
    scores[a as int] < scores[b as int] || (scores[a as int] == scores[b as int] && a < b)
}

proof fn lemma_common_denominator(a1: int, a2: int, b1: int, b2: int, p1: int, p2: int, q1: int, q2: int, u: int, d: int)
    requires
        a1 * q1 == b1 * p1,
        a2 * q2 == b2 * p2,
    ensures
        (a1 * p2 * u + a2 * p1 * d) * (q1 * q2) == (b1 * q2 * u + b2 * q1 * d) * (p1 * p2),
{
    assert((a1 * p2 * u) * (q1 * q2) == (a1 * q1) * (p2 * u * q2)) by (nonlinear_arith);
    assert((b1 * q2 * u) * (p1 * p2) == (b1 * p1) * (p2 * u * q2)) by (nonlinear_arith);
    assert((a2 * p1 * d) * (q1 * q2) == (a2 * q2) * (p1 * d * q1)) by (nonlinear_arith);
    assert((b2 * q1 * d) * (p1 * p2) == (b2 * p2) * (p1 * d * q1)) by (nonlinear_arith);
    assert((a1 * p2 * u + a2 * p1 * d) * (q1 * q2) == (a1 * p2 * u) * (q1 * q2) + (a2 * p1 * d) * (q1 * q2))
        by (nonlinear_arith);
    assert((b1 * q2 * u + b2 * q1 * d) * (p1 * p2) == (b1 * q2 * u) * (p1 * p2) + (b2 * q1 * d) * (p1 * p2))
        by (nonlinear_arith);
}

proof fn lemma_scaled(x: int, y: int, v: int, w: int, q: int, p: int)
    requires
        q > 0,
        p > 0,
        x * q == v * p,
        y * q == w * p,
    ensures
        (x < y) == (v < w),
        x == y ==> v == w,
        v == w ==> x == y,
{
    if x < y {
        assert(x * q < y * q) by (nonlinear_arith)
            requires
                x < y,
                q > 0,
        ;
    } else {
        assert(x * q >= y * q) by (nonlinear_arith)
            requires
                x >= y,
                q > 0,
        ;
    }
    if v < w {
        assert(v * p < w * p) by (nonlinear_arith)
            requires
                v < w,
                p > 0,
        ;
    } else {
        assert(v * p >= w * p) by (nonlinear_arith)
            requires
                v >= w,
                p > 0,
        ;
    }
    if x == y {
        assert(v == w) by (nonlinear_arith)
            requires
                v * p == w * p,
                p > 0,
        ;
    }
    if v == w {
        assert(x == y) by (nonlinear_arith)
            requires
                x * q == y * q,
                q > 0,
        ;
    }
}

/// The order of the spines depends on the values of the weights only, not on how the fractions are
/// written.
pub proof fn lemma_same_weights<L: SpineLayer>(
    a: SGLBConfig,
    b: SGLBConfig,
    layer: L,
    loads: Map<LinkId, usize>,
    src: int,
    dst: int,
    out: Seq<LinkId>,
    s: usize,
    t: usize,
)
    requires
        a.w1.den > 0 && a.w2.den > 0,
        b.w1.den > 0 && b.w2.den > 0,
        a.w1.same(b.w1),
        a.w2.same(b.w2),
        s < layer.spines(),
        t < layer.spines(),
    ensures
        lighter(spine_scores(a, layer, loads, src, dst, out), s, t) == lighter(
            spine_scores(b, layer, loads, src, dst, out),
            s,
            t,
        ),
{
    let (a1, a2, b1, b2) = (a.w1.num as int, a.w2.num as int, b.w1.num as int, b.w2.num as int);
    let (p1, p2, q1, q2) = (a.w1.den as int, a.w2.den as int, b.w1.den as int, b.w2.den as int);
    let (us, ds) = (
        count_without(loads, layer.up_id(src, s as int), out) as int,
        count_without(loads, layer.down_id(dst, s as int), out) as int,
    );
    let (ut, dt) = (
        count_without(loads, layer.up_id(src, t as int), out) as int,
        count_without(loads, layer.down_id(dst, t as int), out) as int,
    );
    lemma_common_denominator(a1, a2, b1, b2, p1, p2, q1, q2, us, ds);
    lemma_common_denominator(a1, a2, b1, b2, p1, p2, q1, q2, ut, dt);
    assert(q1 * q2 > 0) by (nonlinear_arith)
        requires
            q1 > 0,
            q2 > 0,
    ;
    assert(p1 * p2 > 0) by (nonlinear_arith)
        requires
            p1 > 0,
            p2 > 0,
    ;
    lemma_scaled(
        a1 * p2 * us + a2 * p1 * ds,
        a1 * p2 * ut + a2 * p1 * dt,
        b1 * q2 * us + b2 * q1 * ds,
        b1 * q2 * ut + b2 * q1 * dt,
        q1 * q2,
        p1 * p2,
    );
    assert(spine_scores(a, layer, loads, src, dst, out)[s as int] == a1 * p2 * us + a2 * p1 * ds);
    assert(spine_scores(a, layer, loads, src, dst, out)[t as int] == a1 * p2 * ut + a2 * p1 * dt);
    assert(spine_scores(b, layer, loads, src, dst, out)[s as int] == b1 * q2 * us + b2 * q1 * ds);
    assert(spine_scores(b, layer, loads, src, dst, out)[t as int] == b1 * q2 * ut + b2 * q1 * dt);
}

/// Spines in order.
pub open spec fn in_rank(scores: Seq<int>, list: Seq<usize>) -> bool {
    forall|i: int, j: int| 0 <= i < j < list.len() ==> lighter(scores, #[trigger] list[i], #[trigger] list[j])
}

proof fn lemma_with_spine(list: Seq<usize>, scores: Seq<int>, s: usize, p: int)
    requires
        0 <= p <= list.len(),
        p > 0 ==> scores[list[p - 1] as int] <= scores[s as int],
        forall|k: int| p <= k < list.len() ==> scores[(#[trigger] list[k]) as int] > scores[s as int],
    ensures
        with_spine(list, scores, s) == list.insert(p, s),
    decreases list.len(),
{
    if p < list.len() {
        assert(scores[list[list.len() - 1] as int] > scores[s as int]);
        lemma_with_spine(list.drop_last(), scores, s, p);
    }
    assert(with_spine(list, scores, s) =~= list.insert(p, s));
}

proof fn lemma_with_spine_ranked(list: Seq<usize>, scores: Seq<int>, s: usize)
    requires
        in_rank(scores, list),
        forall|i: int| 0 <= i < list.len() ==> (#[trigger] list[i]) < s,
    ensures
        in_rank(scores, with_spine(list, scores, s)),
        with_spine(list, scores, s).len() == list.len() + 1,
        forall|x: usize| #[trigger] with_spine(list, scores, s).contains(x) == (list.contains(x) || x == s),
        list.len() > 0 && scores[list.last() as int] > scores[s as int] ==> with_spine(list, scores, s).last() == list.last(),
    decreases list.len(),
{
    let w = with_spine(list, scores, s);
    if list.len() == 0 || scores[list.last() as int] <= scores[s as int] {
        assert forall|i: int, j: int| 0 <= i < j < w.len() implies lighter(scores, #[trigger] w[i], #[trigger] w[j]) by {
            if j == list.len() {
                if i < list.len() - 1 {
                    assert(lighter(scores, list[i], list[list.len() - 1]));
                }
                assert(list[i] < s);
            }
        }
        assert forall|x: usize| #[trigger] w.contains(x) == (list.contains(x) || x == s) by {
            if list.contains(x) {
                let i = choose|i: int| 0 <= i < list.len() && list[i] == x;
                assert(w[i] == x);
            }
            assert(w[list.len() as int] == s);
        }
    } else {
        let rest = list.drop_last();
        assert forall|i: int, j: int| 0 <= i < j < rest.len() implies lighter(
            scores,
            #[trigger] rest[i],
            #[trigger] rest[j],
        ) by {
            assert(lighter(scores, list[i], list[j]));
        }
        lemma_with_spine_ranked(rest, scores, s);
        let v = with_spine(rest, scores, s);
        assert forall|x: usize| #[trigger] w.contains(x) == (list.contains(x) || x == s) by {
            if v.contains(x) {
                let i = choose|i: int| 0 <= i < v.len() && v[i] == x;
                assert(w[i] == x);
                if rest.contains(x) {
                    let k = choose|k: int| 0 <= k < rest.len() && rest[k] == x;
                    assert(list[k] == x);
                }
            }
            assert(w[v.len() as int] == list.last());
            if list.contains(x) {
                let k = choose|k: int| 0 <= k < list.len() && list[k] == x;
                if k < rest.len() {
                    assert(rest[k] == x);
                }
            }
            assert(v.contains(s));
        }
        assert forall|i: int, j: int| 0 <= i < j < w.len() implies lighter(scores, #[trigger] w[i], #[trigger] w[j]) by {
            if j < v.len() {
                assert(lighter(scores, v[i], v[j]));
            } else {
                assert(v.contains(v[i]));
                if v[i] != s {
                    assert(rest.contains(v[i]));
                    let k = choose|k: int| 0 <= k < rest.len() && rest[k] == v[i];
                    assert(lighter(scores, list[k], list[list.len() - 1]));
                }
            }
        }
    }
}

/// The order of the first `n` spines holds each of them once.
pub proof fn lemma_ranked(scores: Seq<int>, n: nat)
    requires
        n <= scores.len(),
        n <= usize::MAX,
    ensures
        in_rank(scores, ranked(scores, n)),
        ranked(scores, n).len() == n,
        forall|x: usize| #[trigger] ranked(scores, n).contains(x) == (x < n),
    decreases n,
{
    if n > 0 {
        lemma_ranked(scores, (n - 1) as nat);
        let list = ranked(scores, (n - 1) as nat);
        assert forall|i: int| 0 <= i < list.len() implies (#[trigger] list[i]) < (n - 1) as usize by {
            assert(list.contains(list[i]));
        }
        lemma_with_spine_ranked(list, scores, (n - 1) as usize);
    }
}

/// A flow may choose from `k` spines, or from all if there are fewer; none of the others carries
/// less than one of them.
pub proof fn lemma_least_loaded(scores: Seq<int>, k: nat)
    requires
        scores.len() <= usize::MAX,
    ensures
        least_loaded(scores, k).len() == if k < scores.len() {
            k
        } else {
            scores.len()
        },
        least_loaded(scores, k).no_duplicates(),
        forall|i: int| 0 <= i < least_loaded(scores, k).len() ==> (#[trigger] least_loaded(scores, k)[i]) < scores.len(),
        forall|i: int, s: usize|
            0 <= i < least_loaded(scores, k).len() && s < scores.len() && !least_loaded(scores, k).contains(s)
                ==> scores[(#[trigger] least_loaded(scores, k)[i]) as int] <= #[trigger] scores[s as int],
{
    let all = ranked(scores, scores.len());
    let top = least_loaded(scores, k);
    lemma_ranked(scores, scores.len());
    assert forall|i: int| 0 <= i < top.len() implies (#[trigger] top[i]) < scores.len() by {
        assert(all.contains(all[i]));
    }
    assert forall|i: int, j: int| 0 <= i < j < top.len() implies top[i] != top[j] by {
        assert(lighter(scores, all[i], all[j]));
    }
    assert forall|i: int, s: usize| 0 <= i < top.len() && s < scores.len() && !top.contains(s) implies scores[(
    #[trigger] top[i]) as int] <= #[trigger] scores[s as int] by {
        assert(all.contains(s));
        let j = choose|j: int| 0 <= j < all.len() && all[j] == s;
        if j < top.len() {
            assert(top[j] == s);
        }
        assert(lighter(scores, all[i], all[j]));
    }
}

/// If a flow may choose from as many spines as there are, it may choose any.
pub proof fn lemma_all_eligible(scores: Seq<int>, k: nat, spine: usize)
    requires
        scores.len() <= usize::MAX,
        k >= scores.len(),
        spine < scores.len(),
    ensures
        least_loaded(scores, k).contains(spine),
{
    lemma_ranked(scores, scores.len());
    assert(least_loaded(scores, k) =~= ranked(scores, scores.len()));
}

/// Where all spines carry the same, they come by number.
pub proof fn lemma_even_spines(scores: Seq<int>, n: nat)
    requires
        n <= scores.len(),
        n <= usize::MAX,
        forall|i: int, j: int| 0 <= i < n && 0 <= j < n ==> #[trigger] scores[i] == #[trigger] scores[j],
    ensures
        ranked(scores, n) == Seq::new(n, |i: int| i as usize),
    decreases n,
{
    if n > 0 {
        lemma_even_spines(scores, (n - 1) as nat);
        let list = ranked(scores, (n - 1) as nat);
        if list.len() > 0 {
            assert(list.last() == (n - 2) as usize);
            assert(scores[n - 2] == scores[n - 1]);
        }
        assert(ranked(scores, n) =~= Seq::new(n, |i: int| i as usize));
    } else {
        assert(ranked(scores, n) =~= Seq::new(n, |i: int| i as usize));
    }
}

proof fn lemma_product(a: int, x: int, m: int, n: int)
    requires
        -m <= a <= m,
        0 <= x <= n,
    ensures
        -(m * n) <= a * x <= m * n,
{
    assert(-(m * x) <= a * x <= m * x) by (nonlinear_arith)
        requires
            -m <= a <= m,
            0 <= x,
    ;
    assert(m * x <= m * n) by (nonlinear_arith)
        requires
            m >= 0,
            0 <= x <= n,
    ;
}

/// The spines by what they carry.
fn rank_spines(scores: &Vec<i128>) -> (r: Vec<usize>)
    ensures
        r@ == ranked(scores@.map_values(|x: i128| x as int), scores@.len()),
{
    let ghost view = scores@.map_values(|x: i128| x as int);
    let mut r: Vec<usize> = Vec::new();
    let mut i: usize = 0;
    let n: usize = scores.len();
    while i < n
        invariant
            i <= n,
            n == scores@.len(),
            view == scores@.map_values(|x: i128| x as int),
            r@ == ranked(view, i as nat),
        decreases n - i,
    {
        proof {
            lemma_ranked(view, i as nat);
            assert forall|k: int| 0 <= k < r@.len() implies (#[trigger] r@[k]) < n by {
                assert(r@.contains(r@[k]));
            }
        }
        let mut p: usize = r.len();
        while p > 0 && scores[r[p - 1]] > scores[i]
            invariant
                p <= r@.len(),
                i < n,
                n == scores@.len(),
                forall|k: int| 0 <= k < r@.len() ==> (#[trigger] r@[k]) < n,
                forall|k: int| p <= k < r@.len() ==> scores@[(#[trigger] r@[k]) as int] > scores@[i as int],
            decreases p,
        {
            p -= 1;
        }
        proof {
            lemma_with_spine(r@, view, i, p as int);
        }
        r.insert(p, i);
        i += 1;
    }
    r
}

/// Where a flow runs.
pub struct FlowBinding {
    /// The spine; a flow that needs none has none.
    pub spine: Option<usize>,
    /// The switch at its source.
    pub src: usize,
    /// The switch at its destination.
    pub dst: usize,
    pub path: Vec<LinkId>,
    /// The links to and from the spine.
    pub links: Vec<LinkId>,
}

/// The value of a `FlowBinding`.
#[verifier::ext_equal]
pub struct BindingView {
    pub spine: Option<usize>,
    pub src: usize,
    pub dst: usize,
    pub path: Seq<LinkId>,
    pub links: Seq<LinkId>,
}

impl View for FlowBinding {
    type V = BindingView;

    open spec fn view(&self) -> BindingView {
        BindingView { spine: self.spine, src: self.src, dst: self.dst, path: self.path@, links: self.links@ }
    }
}

/// The values of bindings.
pub open spec fn binding_views(m: Map<FlowId, FlowBinding>) -> Map<FlowId, BindingView> {
    m.map_values(|b: FlowBinding| b@)
}

/// Flows, and how many of them each link to or from a spine carries.
pub struct SpineBalancer {
    pub config: SGLBConfig,
    pub link_flow_count: DHashMap<LinkId, usize>,
    pub flow_bindings: DHashMap<FlowId, FlowBinding>,
}

/// What changes in a `SpineBalancer`: its flows and the loads of the links. Its configuration stays as it is.
#[verifier::ext_equal]
pub struct BalancerView {
    pub loads: Map<LinkId, usize>,
    pub bindings: Map<FlowId, BindingView>,
}

impl View for SpineBalancer {
    type V = BalancerView;

    open spec fn view(&self) -> BalancerView {
        BalancerView { loads: self.link_flow_count@, bindings: binding_views(self.flow_bindings@) }
    }
}

/// The spines that a flow between two switches may choose from.
pub open spec fn eligible<L: SpineLayer>(
    cfg: SGLBConfig,
    layer: L,
    loads: Map<LinkId, usize>,
    src: int,
    dst: int,
    out: Seq<LinkId>,
) -> Seq<usize> {
    least_loaded(spine_scores(cfg, layer, loads, src, dst, out), cfg.k as nat)
}

/// The flow is over a spine that it may no longer choose. If `own` is set, what it carries itself is
/// not held against its spine.
pub open spec fn strays<L: SpineLayer>(cfg: SGLBConfig, layer: L, v: BalancerView, own: bool, f: FlowId) -> bool {
    let b = v.bindings[f];
    b.spine matches Some(s) && !eligible(
        cfg,
        layer,
        v.loads,
        b.src as int,
        b.dst as int,
        if own {
            b.links
        } else {
            Seq::empty()
        },
    ).contains(s)
}

/// Those of the first `n` flows that stray.
pub open spec fn strayed<L: SpineLayer>(
    cfg: SGLBConfig,
    layer: L,
    v: BalancerView,
    own: bool,
    ids: Seq<FlowId>,
    n: nat,
) -> Seq<FlowId>
    decreases n,
{
    if n == 0 {
        Seq::empty()
    } else {
        let rest = strayed(cfg, layer, v, own, ids, (n - 1) as nat);
        if strays(cfg, layer, v, own, ids[n - 1]) {
            rest.push(ids[n - 1])
        } else {
            rest
        }
    }
}

/// The path over another spine.
pub open spec fn rerouted(path: Seq<LinkId>, up: LinkId, down: LinkId) -> Seq<LinkId> {
    if path.len() >= 3 {
        path.update(1, up).update(2, down)
    } else {
        path
    }
}

/// A flow has been taken off its links and has chosen a spine anew.
pub open spec fn moved<L: SpineLayer>(cfg: SGLBConfig, layer: L, v: BalancerView, f: FlowId) -> BalancerView {
    let b = v.bindings[f];
    let freed = lowered_all(v.loads, b.links, b.links.len());
    let choice = eligible(cfg, layer, freed, b.src as int, b.dst as int, Seq::empty());
    let s = choice[pick(move_hash(cfg, f, b.src, b.dst), choice.len()) as int];
    if b.spine == Some(s) {
        BalancerView { loads: raised_all(freed, b.links, b.links.len()), ..v }
    } else {
        let up = layer.up_id(b.src as int, s as int);
        let down = layer.down_id(b.dst as int, s as int);
        BalancerView {
            loads: raised_all(freed, seq![up, down], 2),
            bindings: v.bindings.insert(
                f,
                BindingView { spine: Some(s), path: rerouted(b.path, up, down), links: seq![up, down], ..b },
            ),
        }
    }
}

/// The first `n` flows have moved, one after the other.
pub open spec fn all_moved<L: SpineLayer>(
    cfg: SGLBConfig,
    layer: L,
    v: BalancerView,
    list: Seq<FlowId>,
    n: nat,
) -> BalancerView
    decreases n,
{
    if n == 0 {
        v
    } else {
        moved(cfg, layer, all_moved(cfg, layer, v, list, (n - 1) as nat), list[n - 1])
    }
}

/// The flows that stray have moved.
pub open spec fn remapped<L: SpineLayer>(cfg: SGLBConfig, layer: L, v: BalancerView, own: bool) -> BalancerView {
    let ids = ascending(v.bindings.dom());
    let list = strayed(cfg, layer, v, own, ids, ids.len());
    all_moved(cfg, layer, v, list, list.len())
}

/// A binding is between switches of the network, over one of its spines.
pub open spec fn binding_fits<L: SpineLayer>(cfg: SGLBConfig, layer: L, b: BindingView) -> bool {
    b.spine matches Some(s) ==> s < layer.spines() && b.src < layer.sides() && b.dst < layer.sides() && cfg.k > 0
}

impl SpineBalancer {
    /// The flows run in the network.
    pub open spec fn fits<L: SpineLayer>(&self, layer: L) -> bool {
        forall|f: FlowId| #[trigger]
            self@.bindings.contains_key(f) ==> binding_fits(self.config, layer, self@.bindings[f])
    }

    /// No flows.
    pub fn new(config: SGLBConfig) -> (r: Self)
        ensures
            r.config == config,
            r@.loads == Map::<LinkId, usize>::empty(),
            r@.bindings == Map::<FlowId, BindingView>::empty(),
    {
        let r = SpineBalancer { config, link_flow_count: DHashMap::new(), flow_bindings: DHashMap::new() };
        proof {
            assert(r@.bindings =~= Map::<FlowId, BindingView>::empty());
        }
        r
    }

    /// Flows on a link without those that are left out.
    fn count_excluding(&self, link: LinkId, out: &Vec<LinkId>) -> (r: usize)
        ensures
            r == count_without(self@.loads, link, out@),
    {
        let n: usize = get_count(&self.link_flow_count, link);
        let mut m: usize = 0;
        let mut i: usize = 0;
        while i < out.len()
            invariant
                i <= out@.len(),
                m <= i,
                m == occurrences(out@, link, i as nat),
            decreases out@.len() - i,
        {
            if out[i] == link {
                m += 1;
            }
            i += 1;
        }
        if n <= m {
            0
        } else {
            n - m
        }
    }

    /// The spines that a flow between two switches may choose from.
    pub fn compute_eligible_spines<L: SpineLayer>(
        &self,
        layer: &L,
        src: usize,
        dst: usize,
        out: &Vec<LinkId>,
    ) -> (r: Vec<usize>)
        requires
            layer.valid(),
            src < layer.sides(),
            dst < layer.sides(),
        ensures
            r@ == eligible(self.config, *layer, self@.loads, src as int, dst as int, out@),
    {
        let n: usize = layer.count_spines();
        let ghost scores = spine_scores(self.config, *layer, self@.loads, src as int, dst as int, out@);
        let mut list: Vec<i128> = Vec::new();
        let mut s: usize = 0;
        while s < n
            invariant
                s <= n,
                n == layer.spines(),
                layer.valid(),
                src < layer.sides(),
                dst < layer.sides(),
                scores == spine_scores(self.config, *layer, self@.loads, src as int, dst as int, out@),
                list@.len() == s,
                forall|i: int| 0 <= i < s ==> (#[trigger] list@[i]) as int == scores[i],
            decreases n - s,
        {
            let up: usize = self.count_excluding(layer.up_link(src, s), out);
            let down: usize = self.count_excluding(layer.down_link(dst, s), out);
            let w1: Weight = self.config.w1;
            let w2: Weight = self.config.w2;
            proof {
                lemma_product(w1.num as int, w2.den as int, 0x8000_0000, 0xffff);
                lemma_product(w2.num as int, w1.den as int, 0x8000_0000, 0xffff);
            }
            let a: i128 = w1.num as i128 * w2.den as i128;
            let b: i128 = w2.num as i128 * w1.den as i128;
            let x: i128 = up as i128;
            let y: i128 = down as i128;
            proof {
                lemma_product(a as int, x as int, 0x8000_0000int * 0xffffint, u64::MAX as int);
                lemma_product(b as int, y as int, 0x8000_0000int * 0xffffint, u64::MAX as int);
            }
            list.push(a * x + b * y);
            assert(scores[s as int] == spine_score(
                self.config,
                *layer,
                self@.loads,
                src as int,
                dst as int,
                out@,
                s as int,
            ));
            s += 1;
        }
        assert(list@.map_values(|x: i128| x as int) =~= scores);
        let order = rank_spines(&list);
        proof {
            lemma_ranked(scores, scores.len());
        }
        let k: usize = if self.config.k < n {
            self.config.k
        } else {
            n
        };
        let mut r: Vec<usize> = Vec::new();
        let mut i: usize = 0;
        while i < k
            invariant
                i <= k,
                k <= order@.len(),
                r@ == order@.take(i as int),
            decreases k - i,
        {
            r.push(order[i]);
            assert(r@ =~= order@.take(i + 1));
            i += 1;
        }
        r
    }

    /// The spine that a new flow takes among those that it may choose from.
    pub fn hash_select_spine(&self, src: usize, dst: usize, job_id: JobId, eligible: &Vec<usize>) -> (r: usize)
        requires
            eligible@.len() > 0,
        ensures
            r == chosen_spine(self.config, eligible@, src, dst, job_id),
    {
        if eligible.len() == 1 {
            return eligible[0];
        }
        let hash: u64 = hash_pair(self.config.seed, src, dst, job_id);
        eligible[pick_by_hash(hash, eligible.len())]
    }

    /// Takes a flow on.
    pub fn bind(&mut self, flow_id: FlowId, binding: FlowBinding)
        ensures
            final(self).config == old(self).config,
            final(self)@ == (BalancerView {
                loads: raised_all(old(self)@.loads, binding.links@, binding.links@.len()),
                bindings: old(self)@.bindings.insert(flow_id, binding@),
            }),
    {
        let ghost before = self.flow_bindings@;
        raise_path(&mut self.link_flow_count, &binding.links);
        self.flow_bindings.insert(flow_id, binding);
        proof {
            assert(binding_views(self.flow_bindings@) =~= binding_views(before).insert(flow_id, binding@));
        }
    }

    /// Lets a flow go.
    pub fn release(&mut self, flow_id: FlowId)
        ensures
            final(self).config == old(self).config,
            final(self)@ == released(old(self)@, flow_id),
    {
        let ghost before = self.flow_bindings@;
        let ghost v = self@;
        match self.flow_bindings.remove(&flow_id) {
            Some(b) => {
                lower_path(&mut self.link_flow_count, &b.links);
                proof {
                    assert(v.bindings[flow_id] == b@);
                }
            },
            None => {},
        }
        proof {
            assert(binding_views(self.flow_bindings@) =~= binding_views(before).remove(flow_id));
            if !before.contains_key(flow_id) {
                assert(v.bindings.remove(flow_id) =~= v.bindings);
            }
        }
    }
}

/// A flow has gone.
pub open spec fn released(v: BalancerView, f: FlowId) -> BalancerView {
    if v.bindings.contains_key(f) {
        BalancerView {
            loads: lowered_all(v.loads, v.bindings[f].links, v.bindings[f].links.len()),
            bindings: v.bindings.remove(f),
        }
    } else {
        v
    }
}

proof fn lemma_eligible<L: SpineLayer>(
    cfg: SGLBConfig,
    layer: L,
    loads: Map<LinkId, usize>,
    src: int,
    dst: int,
    out: Seq<LinkId>,
)
    requires
        layer.spines() <= usize::MAX,
    ensures
        layer.spines() > 0 && cfg.k > 0 ==> eligible(cfg, layer, loads, src, dst, out).len() > 0,
        forall|i: int|
            0 <= i < eligible(cfg, layer, loads, src, dst, out).len() ==> (#[trigger] eligible(
                cfg,
                layer,
                loads,
                src,
                dst,
                out,
            )[i]) < layer.spines(),
{
    lemma_least_loaded(spine_scores(cfg, layer, loads, src, dst, out), cfg.k as nat);
}

impl SpineBalancer {
    /// Whether a flow strays.
    fn check_stray<L: SpineLayer>(&self, layer: &L, own: bool, flow_id: FlowId) -> (r: bool)
        requires
            layer.valid(),
            self.fits(*layer),
            self@.bindings.contains_key(flow_id),
        ensures
            r == strays(self.config, *layer, self@, own, flow_id),
    {
        let b = self.flow_bindings.get(&flow_id).unwrap();
        proof {
            assert(self@.bindings[flow_id] == b@);
            assert(binding_fits(self.config, *layer, self@.bindings[flow_id]));
        }
        match b.spine {
            None => false,
            Some(s) => {
                let none: Vec<LinkId> = Vec::new();
                let choice = if own {
                    self.compute_eligible_spines(layer, b.src, b.dst, &b.links)
                } else {
                    self.compute_eligible_spines(layer, b.src, b.dst, &none)
                };
                let mut found = false;
                let mut i: usize = 0;
                while i < choice.len()
                    invariant
                        i <= choice@.len(),
                        found == choice@.take(i as int).contains(s),
                    decreases choice@.len() - i,
                {
                    proof {
                        assert(choice@.take(i + 1) =~= choice@.take(i as int).push(choice@[i as int]));
                        let part = choice@.take(i as int);
                        let longer = choice@.take(i + 1);
                        assert(longer[i as int] == choice@[i as int]);
                        if part.contains(s) {
                            let x = choose|x: int| 0 <= x < part.len() && part[x] == s;
                            assert(longer[x] == s);
                        }
                        if longer.contains(s) && choice@[i as int] != s {
                            let x = choose|x: int| 0 <= x < longer.len() && longer[x] == s;
                            assert(part[x] == s);
                        }
                    }
                    if choice[i] == s {
                        found = true;
                    }
                    i += 1;
                }
                proof {
                    assert(choice@.take(choice@.len() as int) =~= choice@);
                    assert(none@ =~= Seq::<LinkId>::empty());
                }
                !found
            },
        }
    }

    /// Moves a flow.
    fn move_flow<L: SpineLayer>(&mut self, layer: &L, flow_id: FlowId)
        requires
            layer.valid(),
            layer.spines() <= usize::MAX,
            old(self).fits(*layer),
            old(self)@.bindings.contains_key(flow_id),
            old(self)@.bindings[flow_id].spine is Some,
        ensures
            final(self).config == old(self).config,
            final(self)@ == moved(old(self).config, *layer, old(self)@, flow_id),
            final(self).fits(*layer),
            forall|f: FlowId| #[trigger]
                final(self)@.bindings.contains_key(f) == old(self)@.bindings.contains_key(f),
            forall|f: FlowId| #[trigger]
                final(self)@.bindings.contains_key(f) ==> final(self)@.bindings[f].spine is Some
                    == old(self)@.bindings[f].spine is Some,
    {
        let ghost before = self@;
        let ghost cfg = self.config;
        let ghost b0 = before.bindings[flow_id];
        proof {
            assert(binding_fits(self.config, *layer, self@.bindings[flow_id]));
        }
        let (src, dst, spine): (usize, usize, Option<usize>) = {
            let b = self.flow_bindings.get(&flow_id).unwrap();
            (b.src, b.dst, b.spine)
        };
        let old_links = {
            let b = self.flow_bindings.get(&flow_id).unwrap();
            copy_path(&b.links)
        };
        assert(b0 == self.flow_bindings@[flow_id]@);
        lower_path(&mut self.link_flow_count, &old_links);
        let none: Vec<LinkId> = Vec::new();
        let ghost freed = self.link_flow_count@;
        proof {
            lemma_eligible(cfg, *layer, freed, src as int, dst as int, Seq::empty());
            assert(none@ =~= Seq::<LinkId>::empty());
        }
        let choice = self.compute_eligible_spines(layer, src, dst, &none);
        let seed: u64 = self.config.seed.wrapping_add(flow_id as u64);
        let hash: u64 = hash_three(seed, flow_id, src, dst);
        let s: usize = choice[pick_by_hash(hash, choice.len())];
        if spine == Some(s) {
            raise_path(&mut self.link_flow_count, &old_links);
            return;
        }
        let up: LinkId = layer.up_link(src, s);
        let down: LinkId = layer.down_link(dst, s);
        let mut links: Vec<LinkId> = Vec::new();
        links.push(up);
        links.push(down);
        assert(links@ =~= seq![up, down]);
        raise_path(&mut self.link_flow_count, &links);
        let ghost was = self.flow_bindings@;
        if let Some(b) = self.flow_bindings.get_mut(&flow_id) {
            b.spine = Some(s);
            if b.path.len() >= 3 {
                b.path.set(1, up);
                b.path.set(2, down);
            }
            b.links = links;
        }
        proof {
            let b1 = BindingView { spine: Some(s), path: rerouted(b0.path, up, down), links: seq![up, down], ..b0 };
            assert(self.flow_bindings@[flow_id]@ =~= b1);
            assert(binding_views(self.flow_bindings@) =~= before.bindings.insert(flow_id, b1));
        }
    }

    /// Moves the flows that stray, by ascending number.
    pub fn remap<L: SpineLayer>(&mut self, layer: &L, own: bool)
        requires
            layer.valid(),
            layer.spines() <= usize::MAX,
            old(self).fits(*layer),
        ensures
            final(self).config == old(self).config,
            final(self)@ == remapped(old(self).config, *layer, old(self)@, own),
            final(self).fits(*layer),
    {
        let ids = self.flow_bindings.sorted_keys();
        let ghost v = self@;
        let ghost cfg = self.config;
        proof {
            assert(v.bindings.dom() =~= self.flow_bindings@.dom());
            lemma_ascending(ids@, v.bindings.dom());
        }
        let mut list: Vec<FlowId> = Vec::new();
        let mut i: usize = 0;
        while i < ids.len()
            invariant
                i <= ids@.len(),
                layer.valid(),
                self.fits(*layer),
                v == self@,
                cfg == self.config,
                ids@.to_set() == v.bindings.dom(),
                list@ == strayed(cfg, *layer, v, own, ids@, i as nat),
                forall|x: int|
                    0 <= x < list@.len() ==> v.bindings.contains_key(#[trigger] list@[x]) && v.bindings[list@[x]].spine is Some,
            decreases ids@.len() - i,
        {
            proof {
                assert(ids@.to_set().contains(ids@[i as int]));
            }
            if self.check_stray(layer, own, ids[i]) {
                list.push(ids[i]);
            }
            i += 1;
        }
        let mut k: usize = 0;
        while k < list.len()
            invariant
                k <= list@.len(),
                layer.valid(),
                layer.spines() <= usize::MAX,
                self.fits(*layer),
                self.config == cfg,
                self@ == all_moved(cfg, *layer, v, list@, k as nat),
                forall|x: int|
                    0 <= x < list@.len() ==> self@.bindings.contains_key(#[trigger] list@[x]) && self@.bindings[list@[x]].spine is Some,
            decreases list@.len() - k,
        {
            assert(self@.bindings.contains_key(list@[k as int]));
            self.move_flow(layer, list[k]);
            k += 1;
        }
    }

    /// The most flows on any link.
    pub fn max_link_count(&self) -> (r: usize)
        ensures
            forall|l: LinkId| #[trigger] self@.loads.contains_key(l) ==> self@.loads[l] <= r,
            r > 0 ==> exists|l: LinkId| #[trigger] self@.loads.contains_key(l) && self@.loads[l] == r,
    {
        let ks = self.link_flow_count.keys();
        let mut best: usize = 0;
        let mut i: usize = 0;
        while i < ks.len()
            invariant
                i <= ks@.len(),
                ks@.to_set() == self@.loads.dom(),
                forall|x: int| 0 <= x < i ==> self@.loads[#[trigger] ks@[x]] <= best,
                best > 0 ==> exists|l: LinkId| #[trigger] self@.loads.contains_key(l) && self@.loads[l] == best,
            decreases ks@.len() - i,
        {
            proof {
                assert(ks@.to_set().contains(ks@[i as int]));
            }
            let n: usize = get_count(&self.link_flow_count, ks[i]);
            if n > best {
                best = n;
                assert(self@.loads.contains_key(ks@[i as int]) && self@.loads[ks@[i as int]] == best);
            }
            i += 1;
        }
        proof {
            assert forall|l: LinkId| #[trigger] self@.loads.contains_key(l) implies self@.loads[l] <= best by {
                assert(ks@.to_set().contains(l));
                let x = choose|x: int| 0 <= x < ks@.len() && ks@[x] == l;
                assert(self@.loads[ks@[x]] <= best);
            }
        }
        best
    }
}

/// A flow that is alone keeps its spine: what it carries itself is not held against it.
pub proof fn lemma_lone_flow<L: SpineLayer>(cfg: SGLBConfig, layer: L, v: BalancerView, f: FlowId, spine: usize)
    requires
        layer.spines() <= usize::MAX,
        v.bindings.contains_key(f),
        v.bindings.dom() == set![f],
        v.bindings[f].spine == Some(spine),
        v.loads == raised_all(Map::empty(), v.bindings[f].links, 2),
        v.bindings[f].links.len() == 2,
        eligible(
            cfg,
            layer,
            Map::empty(),
            v.bindings[f].src as int,
            v.bindings[f].dst as int,
            Seq::empty(),
        ).contains(spine),
    ensures
        !strays(cfg, layer, v, true, f),
        remapped(cfg, layer, v, true) == v,
{
    let b = v.bindings[f];
    let links = b.links;
    let src = b.src as int;
    let dst = b.dst as int;
    let empty = Map::<LinkId, usize>::empty();
    reveal_with_fuel(raised_all, 3);
    reveal_with_fuel(occurrences, 3);
    assert forall|l: LinkId| count_without(v.loads, l, links) == 0 by {}
    let own = spine_scores(cfg, layer, v.loads, src, dst, links);
    let idle = spine_scores(cfg, layer, empty, src, dst, Seq::empty());
    assert forall|s: int| 0 <= s < layer.spines() implies own[s] == idle[s] by {
        assert(count_without(v.loads, layer.up_id(src, s), links) == 0);
        assert(count_without(v.loads, layer.down_id(dst, s), links) == 0);
        assert(count_without(empty, layer.up_id(src, s), Seq::empty()) == 0);
        assert(count_without(empty, layer.down_id(dst, s), Seq::empty()) == 0);
    }
    assert(own =~= idle);
    let ids = ascending(v.bindings.dom());
    let want = seq![f];
    assert(want.to_set() =~= set![f]) by {
        assert(want[0] == f);
    }
    lemma_ascending(want, v.bindings.dom());
    assert(strayed(cfg, layer, v, true, ids, 0) =~= Seq::<FlowId>::empty());
    assert(strayed(cfg, layer, v, true, ids, 1) =~= Seq::<FlowId>::empty());
}

/// How often the flows of a set use a link.
pub open spec fn carried(bindings: Map<FlowId, BindingView>, flows: Set<FlowId>, link: LinkId) -> nat
    decreases flows.len(),
{
    if flows.finite() && flows.len() > 0 {
        let f = flows.choose();
        occurrences(bindings[f].links, link, bindings[f].links.len()) + carried(bindings, flows.remove(f), link)
    } else {
        0
    }
}

/// Each link counts the flows that use it.
pub open spec fn well_counted(v: BalancerView) -> bool {
    &&& v.bindings.dom().finite()
    &&& forall|l: LinkId| #[trigger] count_of(v.loads, l) == carried(v.bindings, v.bindings.dom(), l)
}

/// No count is at its end.
pub open spec fn has_headroom(loads: Map<LinkId, usize>) -> bool {
    forall|l: LinkId| #[trigger] count_of(loads, l) + 2 <= usize::MAX
}

proof fn lemma_carried_remove(bindings: Map<FlowId, BindingView>, flows: Set<FlowId>, link: LinkId, x: FlowId)
    requires
        flows.finite(),
        flows.contains(x),
    ensures
        carried(bindings, flows, link) == occurrences(bindings[x].links, link, bindings[x].links.len()) + carried(
            bindings,
            flows.remove(x),
            link,
        ),
    decreases flows.len(),
{
    let f = flows.choose();
    assert(flows.contains(f));
    if f != x {
        lemma_carried_remove(bindings, flows.remove(f), link, x);
        lemma_carried_remove(bindings, flows.remove(x), link, f);
        assert(flows.remove(f).remove(x) =~= flows.remove(x).remove(f));
    }
}

proof fn lemma_carried_same(a: Map<FlowId, BindingView>, b: Map<FlowId, BindingView>, flows: Set<FlowId>, link: LinkId)
    requires
        flows.finite(),
        forall|f: FlowId| #[trigger] flows.contains(f) ==> a[f] == b[f],
    ensures
        carried(a, flows, link) == carried(b, flows, link),
    decreases flows.len(),
{
    if flows.len() > 0 {
        let f = flows.choose();
        assert(flows.contains(f));
        lemma_carried_same(a, b, flows.remove(f), link);
    }
}

proof fn lemma_raised_count(loads: Map<LinkId, usize>, path: Seq<LinkId>, n: nat, l: LinkId)
    requires
        n <= path.len(),
        n <= 2,
        has_headroom(loads),
    ensures
        count_of(raised_all(loads, path, n), l) == count_of(loads, l) + occurrences(path, l, n),
        occurrences(path, l, n) <= n,
    decreases n,
{
    if n > 0 {
        lemma_raised_count(loads, path, (n - 1) as nat, l);
        lemma_raised_count(loads, path, (n - 1) as nat, path[n - 1]);
        assert(count_of(loads, path[n - 1]) + 2 <= usize::MAX);
    }
}

proof fn lemma_lowered_count(loads: Map<LinkId, usize>, path: Seq<LinkId>, n: nat, l: LinkId)
    requires
        n <= path.len(),
        occurrences(path, l, n) <= count_of(loads, l),
    ensures
        count_of(lowered_all(loads, path, n), l) == count_of(loads, l) - occurrences(path, l, n),
    decreases n,
{
    if n > 0 {
        lemma_lowered_count(loads, path, (n - 1) as nat, l);
    }
}

/// Taking on a flow that is not bound keeps the counts true.
pub proof fn lemma_bind_counted(v: BalancerView, f: FlowId, b: BindingView)
    requires
        well_counted(v),
        !v.bindings.contains_key(f),
        b.links.len() <= 2,
        has_headroom(v.loads),
    ensures
        well_counted(
            BalancerView { loads: raised_all(v.loads, b.links, b.links.len()), bindings: v.bindings.insert(f, b) },
        ),
{
    let after = BalancerView { loads: raised_all(v.loads, b.links, b.links.len()), bindings: v.bindings.insert(f, b) };
    let dom = after.bindings.dom();
    assert(dom =~= v.bindings.dom().insert(f));
    assert forall|l: LinkId| #[trigger] count_of(after.loads, l) == carried(after.bindings, dom, l) by {
        lemma_raised_count(v.loads, b.links, b.links.len(), l);
        lemma_carried_remove(after.bindings, dom, l, f);
        assert(dom.remove(f) =~= v.bindings.dom());
        lemma_carried_same(after.bindings, v.bindings, v.bindings.dom(), l);
        assert(count_of(v.loads, l) == carried(v.bindings, v.bindings.dom(), l));
    }
}

/// Letting a flow go keeps the counts true.
pub proof fn lemma_release_counted(v: BalancerView, f: FlowId)
    requires
        well_counted(v),
    ensures
        well_counted(released(v, f)),
{
    if v.bindings.contains_key(f) {
        let b = v.bindings[f];
        let after = released(v, f);
        let dom = v.bindings.dom();
        assert(after.bindings.dom() =~= dom.remove(f));
        assert forall|l: LinkId| #[trigger] count_of(after.loads, l) == carried(after.bindings, dom.remove(f), l) by {
            lemma_carried_remove(v.bindings, dom, l, f);
            assert(count_of(v.loads, l) == carried(v.bindings, dom, l));
            lemma_lowered_count(v.loads, b.links, b.links.len(), l);
            lemma_carried_same(after.bindings, v.bindings, dom.remove(f), l);
        }
    }
}

/// A flow that moves keeps the counts true.
pub proof fn lemma_move_counted<L: SpineLayer>(cfg: SGLBConfig, layer: L, v: BalancerView, f: FlowId)
    requires
        well_counted(v),
        v.bindings.contains_key(f),
        v.bindings[f].links.len() <= 2,
        has_headroom(v.loads),
    ensures
        well_counted(moved(cfg, layer, v, f)),
{
    let b = v.bindings[f];
    let freed = lowered_all(v.loads, b.links, b.links.len());
    let out = released(v, f);
    lemma_release_counted(v, f);
    assert(has_headroom(freed)) by {
        assert forall|l: LinkId| #[trigger] count_of(freed, l) + 2 <= usize::MAX by {
            lemma_carried_remove(v.bindings, v.bindings.dom(), l, f);
            assert(count_of(v.loads, l) == carried(v.bindings, v.bindings.dom(), l));
            lemma_lowered_count(v.loads, b.links, b.links.len(), l);
            assert(count_of(v.loads, l) + 2 <= usize::MAX);
        }
    }
    let after = moved(cfg, layer, v, f);
    let choice = eligible(cfg, layer, freed, b.src as int, b.dst as int, Seq::empty());
    let s = choice[pick(move_hash(cfg, f, b.src, b.dst), choice.len()) as int];
    if b.spine == Some(s) {
        lemma_bind_counted(out, f, b);
        assert(out.bindings.insert(f, b) =~= v.bindings);
    } else {
        let b1 = after.bindings[f];
        lemma_bind_counted(out, f, b1);
        assert(out.bindings.insert(f, b1) =~= after.bindings);
    }
}

} // verus!
