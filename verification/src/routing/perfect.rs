//! Spines for the flows of all jobs: flows of rings by colouring, others in turn.

use vstd::prelude::*;

use crate::routing::job_flows::HostFlow;
use crate::simulator::ml_worker::JobId;
use crate::spine::coloring::{color_edges, degree, degrees_within, edge_colors, is_coloring};
use crate::spine::topology::RouteFault;
use crate::utils::data::DHashMap;

verus! {

/// The colours that the edges get one after the other, which are as few as possible.
pub open spec fn is_least_coloring(edges: Seq<(usize, usize)>, colors: Seq<usize>, count: nat) -> bool {
    &&& colors == edge_colors(edges)
    &&& is_coloring(edges, colors, count)
    &&& degrees_within(edges, count)
    &&& forall|c: nat| c < count ==> !#[trigger] degrees_within(edges, c)
}

proof fn lemma_degree_at_most(edges: Seq<(usize, usize)>, left: bool, node: usize, n: nat)
    ensures
        degree(edges, left, node, n) <= n,
    decreases n,
{
    if n > 0 {
        lemma_degree_at_most(edges, left, node, (n - 1) as nat);
    }
}

/// Colours edges with as few colours as possible. The result is the colours, and how many there are.
pub fn compute_edge_coloring(edges: &Vec<(usize, usize)>) -> (r: (Vec<usize>, usize))
    ensures
        is_least_coloring(edges@, r.0@, r.1 as nat),
{
    let n: usize = edges.len();
    let mut count: usize = 0;
    proof {
        assert forall|left: bool, node: usize| #[trigger] degree(edges@, left, node, edges@.len()) <= n by {
            lemma_degree_at_most(edges@, left, node, edges@.len());
        }
        assert(degrees_within(edges@, n as nat));
    }
    loop
        invariant
            count <= n,
            degrees_within(edges@, n as nat),
            forall|c: nat| c < count ==> !#[trigger] degrees_within(edges@, c),
        decreases n - count,
    {
        match color_edges(edges, count) {
            Some(colors) => {
                return (colors, count);
            },
            None => {
                assert(!degrees_within(edges@, count as nat));
                assert(count < n);
                count += 1;
            },
        }
    }
}

/// The spine of a colour. If there are more colours than spines, several colours share a spine.
pub open spec fn spine_of_color(color: usize, count: nat, spines: nat) -> int {
    if count > spines {
        color as int % spines as int
    } else {
        color as int
    }
}

/// Spines by a colouring with as few colours as possible.
pub open spec fn are_ring_spines(edges: Seq<(usize, usize)>, spines: nat, r: Seq<usize>) -> bool {
    exists|colors: Seq<usize>, count: nat|
        {
            &&& #[trigger] is_least_coloring(edges, colors, count)
            &&& r.len() == edges.len()
            &&& forall|i: int| 0 <= i < r.len() ==> #[trigger] r[i] == spine_of_color(colors[i], count, spines)
        }
}

/// If no switch has more ring flows than there are spines, those from a switch, and those to a switch,
/// all go over different spines.
pub proof fn lemma_ring_spines(edges: Seq<(usize, usize)>, spines: nat, r: Seq<usize>, i: int, j: int)
    requires
        are_ring_spines(edges, spines, r),
        degrees_within(edges, spines),
        0 <= i < edges.len(),
        0 <= j < edges.len(),
        i != j,
        edges[i].0 == edges[j].0 || edges[i].1 == edges[j].1,
    ensures
        r[i] != r[j],
{
    let (colors, count) = choose|colors: Seq<usize>, count: nat|
        {
            &&& #[trigger] is_least_coloring(edges, colors, count)
            &&& r.len() == edges.len()
            &&& forall|i: int| 0 <= i < r.len() ==> #[trigger] r[i] == spine_of_color(colors[i], count, spines)
        };
    if count > spines {
        assert(!degrees_within(edges, spines));
    }
    if i < j {
        assert(colors[i] != colors[j]);
    } else {
        assert(colors[j] != colors[i]);
    }
    assert(r[i] == colors[i] && r[j] == colors[j]);
}

/// Gives ring flows their spines.
pub fn assign_ring_spines(edges: &Vec<(usize, usize)>, spines: usize) -> (r: Vec<usize>)
    requires
        spines > 0,
    ensures
        are_ring_spines(edges@, spines as nat, r@),
        forall|i: int| 0 <= i < r@.len() ==> (#[trigger] r@[i]) < spines,
{
    let (colors, count): (Vec<usize>, usize) = compute_edge_coloring(edges);
    let n: usize = edges.len();
    let mut r: Vec<usize> = Vec::new();
    let mut i: usize = 0;
    while i < n
        invariant
            i <= n,
            n == edges@.len(),
            spines > 0,
            is_least_coloring(edges@, colors@, count as nat),
            r@.len() == i,
            forall|k: int| 0 <= k < i ==> #[trigger] r@[k] == spine_of_color(colors@[k], count as nat, spines as nat),
            forall|k: int| 0 <= k < i ==> (#[trigger] r@[k]) < spines,
        decreases n - i,
    {
        assert(colors@[i as int] < count);
        let s: usize = if count > spines {
            colors[i] % spines
        } else {
            colors[i]
        };
        r.push(s);
        i += 1;
    }
    r
}

/// Spines of pairs of hosts, and how many pairs each group has.
#[verifier::ext_equal]
pub struct PairSpines {
    pub spines: Map<(usize, usize), usize>,
    pub counts: Map<usize, usize>,
}

/// Pairs of a group so far.
pub open spec fn group_count(p: PairSpines, group: usize) -> int {
    if p.counts.contains_key(group) {
        p.counts[group] as int
    } else {
        0
    }
}

/// With another pair of hosts: a new one takes the next spine of its group, which begins at the spine
/// of its own number.
pub open spec fn with_pair(p: PairSpines, pair: (usize, usize), group: usize, spines: nat) -> PairSpines {
    if p.spines.contains_key(pair) {
        p
    } else {
        PairSpines {
            spines: p.spines.insert(pair, ((group + group_count(p, group)) % spines as int) as usize),
            counts: p.counts.insert(group, (group_count(p, group) + 1) as usize),
        }
    }
}

/// The spines of the first `n` pairs.
pub open spec fn pair_spines(pairs: Seq<(usize, usize)>, groups: Seq<usize>, spines: nat, n: nat) -> PairSpines
    decreases n,
{
    if n == 0 {
        PairSpines { spines: Map::empty(), counts: Map::empty() }
    } else {
        with_pair(pair_spines(pairs, groups, spines, (n - 1) as nat), pairs[n - 1], groups[n - 1], spines)
    }
}

proof fn lemma_group_count(pairs: Seq<(usize, usize)>, groups: Seq<usize>, spines: nat, n: nat, group: usize)
    requires
        n <= pairs.len(),
        n <= groups.len(),
        n <= usize::MAX,
    ensures
        0 <= group_count(pair_spines(pairs, groups, spines, n), group) <= n,
    decreases n,
{
    if n > 0 {
        lemma_group_count(pairs, groups, spines, (n - 1) as nat, group);
        lemma_group_count(pairs, groups, spines, (n - 1) as nat, groups[n - 1]);
    }
}

/// How many of the first `n` pairs are the first of their kind, in a group, and go over a spine.
pub open spec fn hits(
    pairs: Seq<(usize, usize)>,
    groups: Seq<usize>,
    spines: nat,
    group: usize,
    spine: usize,
    n: nat,
) -> nat
    decreases n,
{
    if n == 0 {
        0
    } else {
        let before = pair_spines(pairs, groups, spines, (n - 1) as nat);
        let after = pair_spines(pairs, groups, spines, n);
        hits(pairs, groups, spines, group, spine, (n - 1) as nat) + if groups[n - 1] == group
            && !before.spines.contains_key(pairs[n - 1]) && after.spines[pairs[n - 1]] == spine {
            1nat
        } else {
            0nat
        }
    }
}

/// How often a turn that begins at `g` comes to `s` in `c` steps.
spec fn visits(g: int, m: int, s: int, c: nat) -> nat
    decreases c,
{
    if c == 0 {
        0
    } else {
        visits(g, m, s, (c - 1) as nat) + if (g + (c - 1)) % m == s {
            1nat
        } else {
            0nat
        }
    }
}

proof fn lemma_rest_is(y: int, s: int, m: int)
    requires
        0 <= s < m,
    ensures
        (y % m == s) == ((y - s) % m == 0),
{
    vstd::arithmetic::div_mod::lemma_fundamental_div_mod(y, m);
    vstd::arithmetic::div_mod::lemma_mod_bound(y, m);
    let q = y / m;
    let d = y % m - s;
    vstd::arithmetic::div_mod::lemma_mod_multiples_vanish(q, d, m);
    assert(y - s == m * q + d);
    if d >= 0 {
        vstd::arithmetic::div_mod::lemma_small_mod(d as nat, m as nat);
    } else {
        vstd::arithmetic::div_mod::lemma_mod_add_multiples_vanish(d, m);
        vstd::arithmetic::div_mod::lemma_small_mod((d + m) as nat, m as nat);
    }
}

/// A quotient grows where the remainder comes back to zero.
proof fn lemma_next_quotient(x: int, m: int)
    requires
        x >= 0,
        m > 0,
    ensures
        (x + 1) / m == x / m + if (x + 1) % m == 0 {
            1int
        } else {
            0int
        },
{
    vstd::arithmetic::div_mod::lemma_fundamental_div_mod(x, m);
    vstd::arithmetic::div_mod::lemma_mod_bound(x, m);
    let q = x / m;
    let r = x % m;
    if r + 1 == m {
        assert(x + 1 == m * (q + 1) + 0) by (nonlinear_arith)
            requires
                x == m * q + r,
                r + 1 == m,
        ;
        assert(x + 1 == (q + 1) * m + 0) by (nonlinear_arith)
            requires
                x + 1 == m * (q + 1) + 0,
        ;
        vstd::arithmetic::div_mod::lemma_fundamental_div_mod_converse(x + 1, m, q + 1, 0);
    } else {
        assert(x + 1 == q * m + (r + 1)) by (nonlinear_arith)
            requires
                x == m * q + r,
        ;
        vstd::arithmetic::div_mod::lemma_fundamental_div_mod_converse(x + 1, m, q, r + 1);
    }
}

proof fn lemma_visits(g: int, m: int, s: int, c: nat)
    requires
        0 <= s < m,
    ensures
        visits(g, m, s, c) == (c + m - 1 - (s - g) % m) / m,
    decreases c,
{
    let off = (s - g) % m;
    vstd::arithmetic::div_mod::lemma_mod_bound(s - g, m);
    if c == 0 {
        vstd::arithmetic::div_mod::lemma_basic_div(m - 1 - off, m);
    } else {
        let t = c - 1;
        lemma_visits(g, m, s, t as nat);
        let x = t + m - 1 - off;
        lemma_next_quotient(x, m);
        lemma_rest_is(g + t, s, m);
        vstd::arithmetic::div_mod::lemma_sub_mod_noop(t, s - g, m);
        vstd::arithmetic::div_mod::lemma_sub_mod_noop(t, off, m);
        vstd::arithmetic::div_mod::lemma_small_mod(off as nat, m as nat);
        vstd::arithmetic::div_mod::lemma_mod_add_multiples_vanish(t - off, m);
        assert(x + 1 == m + (t - off));
        assert((x + 1) % m == (t - off) % m);
        assert((t - off) % m == (t - (s - g)) % m);
        assert(t - (s - g) == (g + t) - s);
    }
}

proof fn lemma_hits(pairs: Seq<(usize, usize)>, groups: Seq<usize>, spines: nat, group: usize, spine: usize, n: nat)
    requires
        0 < spines <= usize::MAX,
        n <= pairs.len(),
        n <= groups.len(),
        n <= usize::MAX,
    ensures
        hits(pairs, groups, spines, group, spine, n) == visits(
            group as int,
            spines as int,
            spine as int,
            group_count(pair_spines(pairs, groups, spines, n), group) as nat,
        ),
    decreases n,
{
    if n > 0 {
        let k = (n - 1) as nat;
        lemma_hits(pairs, groups, spines, group, spine, k);
        lemma_group_count(pairs, groups, spines, k, group);
        lemma_group_count(pairs, groups, spines, k, groups[n - 1]);
        let before = pair_spines(pairs, groups, spines, k);
        if groups[n - 1] == group && !before.spines.contains_key(pairs[n - 1]) {
            vstd::arithmetic::div_mod::lemma_mod_bound(group + group_count(before, group), spines as int);
        }
    }
}

/// The pairs of hosts of a group are spread evenly over the spines: no spine gets two more than another.
pub proof fn lemma_even_pairs(
    pairs: Seq<(usize, usize)>,
    groups: Seq<usize>,
    spines: nat,
    group: usize,
    a: usize,
    b: usize,
)
    requires
        0 < spines <= usize::MAX,
        pairs.len() == groups.len(),
        pairs.len() <= usize::MAX,
        a < spines,
        b < spines,
    ensures
        hits(pairs, groups, spines, group, a, pairs.len()) <= hits(pairs, groups, spines, group, b, pairs.len()) + 1,
{
    let m = spines as int;
    let g = group as int;
    let n = pairs.len();
    lemma_hits(pairs, groups, spines, group, a, n);
    lemma_hits(pairs, groups, spines, group, b, n);
    lemma_group_count(pairs, groups, spines, n, group);
    let c = group_count(pair_spines(pairs, groups, spines, n), group) as nat;
    lemma_visits(g, m, a as int, c);
    lemma_visits(g, m, b as int, c);
    vstd::arithmetic::div_mod::lemma_mod_bound(a - g, m);
    vstd::arithmetic::div_mod::lemma_mod_bound(b - g, m);
    let x = c + m - 1 - (a - g) % m;
    let y = c + m - 1 - (b - g) % m;
    vstd::arithmetic::div_mod::lemma_div_is_ordered(x, y + m, m);
    vstd::arithmetic::div_mod::lemma_div_plus_one(y, m);
}

/// The sum of two numbers modulo a third, without overflow.
fn add_mod(a: usize, b: usize, m: usize) -> (r: usize)
    requires
        m > 0,
    ensures
        r == (a + b) % m as int,
        r < m,
{
    proof {
        vstd::arithmetic::div_mod::lemma_mod_bound(a + b, m as int);
    }
    ((a as u128 + b as u128) % (m as u128)) as usize
}

/// Gives pairs of hosts their spines.
pub fn assign_pair_spines(pairs: &Vec<(usize, usize)>, groups: &Vec<usize>, spines: usize) -> (r: DHashMap<(usize, usize), usize>)
    requires
        spines > 0,
        groups@.len() == pairs@.len(),
    ensures
        r@ == pair_spines(pairs@, groups@, spines as nat, pairs@.len()).spines,
        forall|i: int| 0 <= i < pairs@.len() ==> r@.contains_key(#[trigger] pairs@[i]),
        forall|p: (usize, usize)| #[trigger] r@.contains_key(p) ==> r@[p] < spines,
{
    let n: usize = pairs.len();
    let mut r: DHashMap<(usize, usize), usize> = DHashMap::new();
    let mut counts: DHashMap<usize, usize> = DHashMap::new();
    let mut i: usize = 0;
    while i < n
        invariant
            i <= n,
            n == pairs@.len(),
            spines > 0,
            groups@.len() == pairs@.len(),
            r@ == pair_spines(pairs@, groups@, spines as nat, i as nat).spines,
            counts@ == pair_spines(pairs@, groups@, spines as nat, i as nat).counts,
            forall|k: int| 0 <= k < i ==> r@.contains_key(#[trigger] pairs@[k]),
            forall|p: (usize, usize)| #[trigger] r@.contains_key(p) ==> r@[p] < spines,
        decreases n - i,
    {
        let pair: (usize, usize) = pairs[i];
        let group: usize = groups[i];
        if !r.contains_key(&pair) {
            let c: usize = match counts.get(&group) {
                Some(c) => *c,
                None => 0,
            };
            proof {
                lemma_group_count(pairs@, groups@, spines as nat, i as nat, group);
            }
            r.insert(pair, add_mod(group, c, spines));
            counts.insert(group, c + 1);
        }
        i += 1;
    }
    r
}

/// A network that flows between its regions cross over spines.
pub trait Fabric: Sized {
    /// The network can be asked.
    spec fn usable(&self) -> bool;

    /// Number of spines.
    spec fn spine_total(&self) -> nat;

    /// The region of a host. Flows within a region need no spine.
    spec fn region_of(&self, host: usize) -> usize;

    /// The switch above a host.
    spec fn port_of(&self, host: usize) -> usize;

    /// The group in which the pairs of hosts from a host take turns.
    spec fn turn_of(&self, host: usize) -> usize;

    /// Number of spines.
    fn get_spine_total(&self) -> (r: usize)
        ensures
            r == self.spine_total(),
    ;

    /// The region of a host.
    fn get_region(&self, host: usize) -> (r: usize)
        requires
            self.usable(),
        ensures
            r == self.region_of(host),
    ;

    /// The switch above a host.
    fn get_port(&self, host: usize) -> (r: usize)
        requires
            self.usable(),
        ensures
            r == self.port_of(host),
    ;

    /// The group in which the pairs of hosts from a host take turns.
    fn get_turn(&self, host: usize) -> (r: usize)
        requires
            self.usable(),
        ensures
            r == self.turn_of(host),
    ;
}

/// The spine that a flow of a job has been given.
#[derive(Debug, Clone, Copy, PartialEq, Eq, Structural)]
pub struct SpineRow {
    pub job_id: JobId,
    pub job_flow_idx: usize,
    pub src_host: usize,
    pub dst_host: usize,
    pub spine: usize,
    pub is_ring: bool,
}

/// The flow needs a spine.
pub open spec fn needs_spine<T: Fabric>(topo: T, f: HostFlow) -> bool {
    topo.region_of(f.src_host) != topo.region_of(f.dst_host)
}

/// Those of the first `n` flows that need a spine and belong to rings, or do not.
pub open spec fn spine_flows<T: Fabric>(topo: T, flows: Seq<HostFlow>, ring: bool, n: nat) -> Seq<HostFlow>
    decreases n,
{
    if n == 0 {
        Seq::empty()
    } else {
        let rest = spine_flows(topo, flows, ring, (n - 1) as nat);
        let f = flows[n - 1];
        if needs_spine(topo, f) && f.is_ring_flow == ring {
            rest.push(f)
        } else {
            rest
        }
    }
}

/// The switches that flows run between.
pub open spec fn switch_pairs<T: Fabric>(topo: T, flows: Seq<HostFlow>) -> Seq<(usize, usize)> {
    flows.map_values(|f: HostFlow| (topo.port_of(f.src_host), topo.port_of(f.dst_host)))
}

/// The hosts that flows run between.
pub open spec fn host_pairs(flows: Seq<HostFlow>) -> Seq<(usize, usize)> {
    flows.map_values(|f: HostFlow| (f.src_host, f.dst_host))
}

/// The groups in which flows take turns.
pub open spec fn turns<T: Fabric>(topo: T, flows: Seq<HostFlow>) -> Seq<usize> {
    flows.map_values(|f: HostFlow| topo.turn_of(f.src_host))
}

/// A flow with its spine.
pub open spec fn row_of(f: HostFlow, spine: usize) -> SpineRow {
    SpineRow {
        job_id: f.job_id,
        job_flow_idx: f.job_flow_idx,
        src_host: f.src_host,
        dst_host: f.dst_host,
        spine,
        is_ring: f.is_ring_flow,
    }
}

/// Spines for all flows that need one: ring flows first, by a colouring with as few colours as
/// possible; then the others, pair of hosts by pair.
pub open spec fn are_spine_rows<T: Fabric>(topo: T, flows: Seq<HostFlow>, rows: Seq<SpineRow>) -> bool {
    let ring = spine_flows(topo, flows, true, flows.len());
    let other = spine_flows(topo, flows, false, flows.len());
    let turn = pair_spines(host_pairs(other), turns(topo, other), topo.spine_total(), other.len()).spines;
    exists|colors: Seq<usize>|
        {
            &&& #[trigger] are_ring_spines(switch_pairs(topo, ring), topo.spine_total(), colors)
            &&& rows == Seq::new(ring.len(), |i: int| row_of(ring[i], colors[i])) + other.map_values(
                |f: HostFlow| row_of(f, turn[(f.src_host, f.dst_host)]),
            )
        }
}

/// What `assign_spine_rows` answers: spines for all flows that need one, or the first of them if
/// there are no spines.
pub open spec fn spines_assigned<T: Fabric>(topo: T, flows: Seq<HostFlow>, r: Result<Vec<SpineRow>, RouteFault>) -> bool {
    if topo.spine_total() > 0 || forall|i: int| 0 <= i < flows.len() ==> !needs_spine(topo, #[trigger] flows[i]) {
        r is Ok && (topo.spine_total() > 0 ==> are_spine_rows(topo, flows, r->Ok_0@)) && (topo.spine_total() == 0
            ==> r->Ok_0@.len() == 0)
    } else {
        r is Err && exists|i: int|
            0 <= i < flows.len() && needs_spine(topo, #[trigger] flows[i]) && r->Err_0 == RouteFault::NoJobRoute(
                flows[i].job_id,
                flows[i].job_flow_idx,
            ) && forall|k: int| 0 <= k < i ==> !needs_spine(topo, #[trigger] flows[k])
    }
}

/// The flows that need a spine and belong to rings, or do not.
fn pick_flows<T: Fabric>(topo: &T, flows: &Vec<HostFlow>, ring: bool) -> (r: Vec<HostFlow>)
    requires
        topo.usable(),
    ensures
        r@ == spine_flows(*topo, flows@, ring, flows@.len()),
{
    let mut r: Vec<HostFlow> = Vec::new();
    let mut i: usize = 0;
    while i < flows.len()
        invariant
            i <= flows@.len(),
            topo.usable(),
            r@ == spine_flows(*topo, flows@, ring, i as nat),
        decreases flows@.len() - i,
    {
        let f = flows[i];
        if topo.get_region(f.src_host) != topo.get_region(f.dst_host) && f.is_ring_flow == ring {
            r.push(f);
        }
        i += 1;
    }
    r
}

/// Gives all flows that need one their spines.
pub fn assign_spine_rows<T: Fabric>(topo: &T, flows: &Vec<HostFlow>) -> (r: Result<Vec<SpineRow>, RouteFault>)
    requires
        topo.usable(),
    ensures
        spines_assigned(*topo, flows@, r),
        r matches Ok(rows) ==> forall|i: int| 0 <= i < rows@.len() ==> (#[trigger] rows@[i]).spine < topo.spine_total(),
{
    let spines: usize = topo.get_spine_total();
    let mut rows: Vec<SpineRow> = Vec::new();
    if spines == 0 {
        let mut i: usize = 0;
        while i < flows.len()
            invariant
                i <= flows@.len(),
                topo.usable(),
                topo.spine_total() == 0,
                forall|k: int| 0 <= k < i ==> !needs_spine(*topo, #[trigger] flows@[k]),
            decreases flows@.len() - i,
        {
            let f = flows[i];
            if topo.get_region(f.src_host) != topo.get_region(f.dst_host) {
                assert(needs_spine(*topo, flows@[i as int]));
                return Err(RouteFault::NoJobRoute(f.job_id, f.job_flow_idx));
            }
            i += 1;
        }
        return Ok(rows);
    }
    let ring = pick_flows(topo, flows, true);
    let other = pick_flows(topo, flows, false);
    let mut edges: Vec<(usize, usize)> = Vec::new();
    let mut i: usize = 0;
    while i < ring.len()
        invariant
            i <= ring@.len(),
            topo.usable(),
            edges@ == switch_pairs(*topo, ring@.take(i as int)),
        decreases ring@.len() - i,
    {
        edges.push((topo.get_port(ring[i].src_host), topo.get_port(ring[i].dst_host)));
        assert(edges@ =~= switch_pairs(*topo, ring@.take(i + 1)));
        i += 1;
    }
    assert(ring@.take(ring@.len() as int) =~= ring@);
    let colors = assign_ring_spines(&edges, spines);
    let mut i: usize = 0;
    while i < ring.len()
        invariant
            i <= ring@.len(),
            colors@.len() == ring@.len(),
            rows@ == Seq::new(i as nat, |k: int| row_of(ring@[k], colors@[k])),
            forall|k: int| 0 <= k < colors@.len() ==> (#[trigger] colors@[k]) < spines,
            forall|k: int| 0 <= k < rows@.len() ==> (#[trigger] rows@[k]).spine < spines,
        decreases ring@.len() - i,
    {
        let f = ring[i];
        assert(colors@[i as int] < spines);
        rows.push(
            SpineRow {
                job_id: f.job_id,
                job_flow_idx: f.job_flow_idx,
                src_host: f.src_host,
                dst_host: f.dst_host,
                spine: colors[i],
                is_ring: f.is_ring_flow,
            },
        );
        assert(rows@ =~= Seq::new((i + 1) as nat, |k: int| row_of(ring@[k], colors@[k])));
        i += 1;
    }
    let ghost first = rows@;
    let mut pairs: Vec<(usize, usize)> = Vec::new();
    let mut groups: Vec<usize> = Vec::new();
    let mut i: usize = 0;
    while i < other.len()
        invariant
            i <= other@.len(),
            topo.usable(),
            pairs@ == host_pairs(other@.take(i as int)),
            groups@ == turns(*topo, other@.take(i as int)),
        decreases other@.len() - i,
    {
        pairs.push((other[i].src_host, other[i].dst_host));
        groups.push(topo.get_turn(other[i].src_host));
        assert(pairs@ =~= host_pairs(other@.take(i + 1)));
        assert(groups@ =~= turns(*topo, other@.take(i + 1)));
        i += 1;
    }
    assert(other@.take(other@.len() as int) =~= other@);
    let table = assign_pair_spines(&pairs, &groups, spines);
    let ghost turn = table@;
    let mut i: usize = 0;
    while i < other.len()
        invariant
            i <= other@.len(),
            turn == table@,
            pairs@ == host_pairs(other@),
            forall|k: int| 0 <= k < pairs@.len() ==> turn.contains_key(#[trigger] pairs@[k]),
            forall|p: (usize, usize)| #[trigger] turn.contains_key(p) ==> turn[p] < spines,
            rows@ == first + other@.take(i as int).map_values(
                |f: HostFlow| row_of(f, turn[(f.src_host, f.dst_host)]),
            ),
            forall|k: int| 0 <= k < rows@.len() ==> (#[trigger] rows@[k]).spine < spines,
        decreases other@.len() - i,
    {
        let f = other[i];
        assert(turn.contains_key(pairs@[i as int]));
        assert(pairs@[i as int] == (f.src_host, f.dst_host));
        let s: usize = *table.get(&(f.src_host, f.dst_host)).unwrap();
        rows.push(
            SpineRow {
                job_id: f.job_id,
                job_flow_idx: f.job_flow_idx,
                src_host: f.src_host,
                dst_host: f.dst_host,
                spine: s,
                is_ring: f.is_ring_flow,
            },
        );
        assert(rows@ =~= first + other@.take(i + 1).map_values(
            |f: HostFlow| row_of(f, turn[(f.src_host, f.dst_host)]),
        ));
        i += 1;
    }
    assert(other@.take(other@.len() as int) =~= other@);
    assert(are_spine_rows(*topo, flows@, rows@));
    Ok(rows)
}

/// Spines by job and flow, with those of the first `n` rows.
pub open spec fn with_rows(start: Map<(usize, usize), usize>, rows: Seq<SpineRow>, n: nat) -> Map<(usize, usize), usize>
    decreases n,
{
    if n == 0 {
        start
    } else {
        with_rows(start, rows, (n - 1) as nat).insert((rows[n - 1].job_id, rows[n - 1].job_flow_idx), rows[n - 1].spine)
    }
}

/// Sets up the spines of flows.
pub fn install_rows(table: &mut DHashMap<(JobId, usize), usize>, rows: &Vec<SpineRow>)
    ensures
        final(table)@ == with_rows(old(table)@, rows@, rows@.len()),
{
    let mut i: usize = 0;
    while i < rows.len()
        invariant
            i <= rows@.len(),
            table@ == with_rows(old(table)@, rows@, i as nat),
        decreases rows@.len() - i,
    {
        table.insert((rows[i].job_id, rows[i].job_flow_idx), rows[i].spine);
        i += 1;
    }
}

} // verus!
