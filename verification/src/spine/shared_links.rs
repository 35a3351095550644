//! What is known of the links that jobs share.

use vstd::prelude::*;

use crate::network::graph::LinkId;
use crate::simulator::ml_job::ascending;
use crate::simulator::ml_worker::{JobId, WorkerId};
use crate::simulator::progress::lemma_ascending_lists;
use crate::spine::cassini::{
    is_shifted, is_staggered, known_jobs, known_on, link_works, times_of, with_all_shifts, with_link_shifts, WorkView,
};
use crate::spine::link_use::{all_uses, is_affinity_of, job_uses, links_used, pair_uses, uses};
use crate::spine::routing::SpineRouteOracle;
use crate::spine::topology::SpineSize;
use crate::system_modules::cassini::affinity::{jobs_of, node_pairs, with_shift, AffinityGraph, AffinityNode};
use crate::system_modules::cassini::cycles::lemma_common_period;
use crate::system_modules::cassini::geometry::{divides, lcm_all, lcm_fits};
use crate::system_modules::cassini::loops::has_loop;
use crate::system_modules::cassini::shifts::{are_unique_shifts, iteration_of, keeps_link, lemma_link_shifts};
use crate::system_modules::cassini::store::{edges_to, is_from, is_to, last_between, lemma_edges_to};
use crate::system_modules::cassini::types::TimeShift;

verus! {

/// The traffic between two workers of the job goes over the link.
pub open spec fn has_traffic<R: SpineRouteOracle>(o: R, s: SpineSize, job_id: JobId, hosts: Map<WorkerId, usize>, l: LinkId) -> bool {
    exists|a: WorkerId, b: WorkerId|
        hosts.contains_key(a) && hosts.contains_key(b) && a != b && (#[trigger] o.predicted(
            s,
            hosts[a],
            hosts[b],
            job_id,
        )).contains(l)
}

proof fn lemma_numbers_finite(s: Set<usize>)
    ensures
        s.finite(),
{
    let all = vstd::set_lib::set_int_range(0, usize::MAX + 1);
    vstd::set_lib::lemma_int_range(0, usize::MAX + 1);
    let f = |x: int| x as usize;
    all.lemma_map_finite(f);
    assert(s.subset_of(all.map(f))) by {
        assert forall|x: usize| s.contains(x) implies all.map(f).contains(x) by {
            assert(all.contains(x as int));
            assert(f(x as int) == x);
        }
    }
    vstd::set_lib::lemma_set_subset_finite(all.map(f), s);
}

proof fn lemma_links_used<R: SpineRouteOracle>(o: R, s: SpineSize, job_id: JobId, hosts: Map<WorkerId, usize>, l: LinkId)
    ensures
        links_used(o, s, job_id, hosts).contains(l) == has_traffic(o, s, job_id, hosts, l),
{
    let set = Set::new(|l: LinkId| job_uses(o, s, job_id, hosts, l));
    lemma_numbers_finite(set);
    lemma_ascending_lists(set);
    let list = links_used(o, s, job_id, hosts);
    assert(list.to_set().contains(l) == set.contains(l));
    if set.contains(l) {
        let (a, b) = choose|a: WorkerId, b: WorkerId| #[trigger]
            pair_uses(o, s, job_id, hosts, a, b, l);
        assert(o.predicted(s, hosts[a], hosts[b], job_id).contains(l));
    }
    if has_traffic(o, s, job_id, hosts, l) {
        let (a, b) = choose|a: WorkerId, b: WorkerId|
            hosts.contains_key(a) && hosts.contains_key(b) && a != b && (#[trigger] o.predicted(
                s,
                hosts[a],
                hosts[b],
                job_id,
            )).contains(l);
        assert(pair_uses(o, s, job_id, hosts, a, b, l));
    }
}

proof fn lemma_all_uses<R: SpineRouteOracle>(
    o: R,
    s: SpineSize,
    placements: Map<JobId, Map<WorkerId, usize>>,
    jobs: Seq<JobId>,
    n: nat,
    u: (JobId, LinkId),
)
    requires
        n <= jobs.len(),
    ensures
        all_uses(o, s, placements, jobs, n).contains(u) == (jobs.take(n as int).contains(u.0) && has_traffic(
            o,
            s,
            u.0,
            placements[u.0],
            u.1,
        )),
    decreases n,
{
    let list = all_uses(o, s, placements, jobs, n);
    if n > 0 {
        lemma_all_uses(o, s, placements, jobs, (n - 1) as nat, u);
        let rest = all_uses(o, s, placements, jobs, (n - 1) as nat);
        let j = jobs[n - 1];
        let links = links_used(o, s, j, placements[j]);
        let new = links.map_values(|l: LinkId| (j, l));
        lemma_links_used(o, s, j, placements[j], u.1);
        let (now, earlier) = (jobs.take(n as int), jobs.take(n - 1));
        assert(now =~= earlier.push(j));
        assert(now.contains(u.0) == (earlier.contains(u.0) || u.0 == j)) by {
            if earlier.contains(u.0) {
                let x = choose|x: int| 0 <= x < earlier.len() && earlier[x] == u.0;
                assert(now[x] == u.0);
            }
            if u.0 == j {
                assert(now[n - 1] == u.0);
            }
            if now.contains(u.0) && u.0 != j {
                let x = choose|x: int| 0 <= x < now.len() && now[x] == u.0;
                assert(earlier[x] == u.0);
            }
        }
        assert(list.contains(u) == (rest.contains(u) || new.contains(u))) by {
            if rest.contains(u) {
                let x = choose|x: int| 0 <= x < rest.len() && rest[x] == u;
                assert(list[x] == u);
            }
            if new.contains(u) {
                let x = choose|x: int| 0 <= x < new.len() && new[x] == u;
                assert(list[rest.len() + x] == u);
            }
            if list.contains(u) {
                let x = choose|x: int| 0 <= x < list.len() && list[x] == u;
                if x < rest.len() {
                    assert(rest[x] == u);
                } else {
                    assert(new[x - rest.len()] == u);
                }
            }
        }
        assert(new.contains(u) == (u.0 == j && links.contains(u.1))) by {
            if new.contains(u) {
                let x = choose|x: int| 0 <= x < new.len() && new[x] == u;
                assert(links[x] == u.1);
            }
            if u.0 == j && links.contains(u.1) {
                let x = choose|x: int| 0 <= x < links.len() && links[x] == u.1;
                assert(new[x] == u);
            }
        }
    }
}

/// A job is on a link exactly if traffic between two of its workers goes over the link.
pub proof fn lemma_jobs_on_link<R: SpineRouteOracle>(
    o: R,
    s: SpineSize,
    placements: Map<JobId, Map<WorkerId, usize>>,
    g: AffinityGraph,
    j: JobId,
    l: LinkId,
)
    requires
        placements.dom().finite(),
        is_affinity_of(o, s, placements, Ok(g)),
    ensures
        g.jobs_on(l).contains(j) == (placements.contains_key(j) && has_traffic(o, s, j, placements[j], l)),
{
    let jobs = ascending(placements.dom());
    let list = uses(o, s, placements);
    lemma_ascending_lists(placements.dom());
    lemma_all_uses(o, s, placements, jobs, jobs.len(), (j, l));
    assert(jobs.take(jobs.len() as int) =~= jobs);
    assert(jobs.contains(j) == placements.contains_key(j)) by {
        assert(jobs.to_set().contains(j) == placements.dom().contains(j));
    }
    let e = g.edges();
    if g.jobs_on(l).contains(j) {
        let ends = edges_to(e, g.link_to_node@[l], e.len());
        let x = choose|x: int| 0 <= x < jobs_of(g.nodes@, ends).len() && jobs_of(g.nodes@, ends)[x] == j;
        lemma_edges_to(e, g.link_to_node@[l], e.len(), ends[x]);
        assert(ends.contains(ends[x]));
        let k = choose|k: int| 0 <= k < e.len() && (#[trigger] e[k]) == (ends[x].0, g.link_to_node@[l], ends[x].1);
        assert(g.nodes@[e[k].0 as int] == AffinityNode::Job(list[k].0));
        assert(g.nodes@[e[k].1 as int] == AffinityNode::Link(list[k].1));
        assert(g.nodes@[g.link_to_node@[l] as int] == AffinityNode::Link(l));
        assert(list[k] == (j, l));
        assert(list.contains((j, l)));
    }
    if list.contains((j, l)) {
        let k = choose|k: int| 0 <= k < list.len() && list[k] == (j, l);
        assert(g.nodes@[e[k].0 as int] == AffinityNode::Job(j));
        assert(g.nodes@[e[k].1 as int] == AffinityNode::Link(l));
        let a = g.link_to_node@[l];
        assert(a == e[k].1);
        lemma_edges_to(e, a, e.len(), (e[k].0, e[k].2));
        assert(is_to(e, a, e.len(), (e[k].0, e[k].2)));
        let ends = edges_to(e, a, e.len());
        let x = choose|x: int| 0 <= x < ends.len() && ends[x] == (e[k].0, e[k].2);
        assert(jobs_of(g.nodes@, ends)[x] == j);
    }
}

proof fn lemma_known_jobs(jobs: Seq<JobId>, times: Map<JobId, u64>, n: nat, j: JobId)
    requires
        n <= jobs.len(),
    ensures
        known_jobs(jobs, times, n).contains(j) == (jobs.take(n as int).contains(j) && times.contains_key(j)),
    decreases n,
{
    if n > 0 {
        lemma_known_jobs(jobs, times, (n - 1) as nat, j);
        let rest = known_jobs(jobs, times, (n - 1) as nat);
        let list = known_jobs(jobs, times, n);
        let (a, b) = (jobs.take(n as int), jobs.take(n - 1));
        assert(a =~= b.push(jobs[n - 1]));
        assert(a.contains(j) == (b.contains(j) || jobs[n - 1] == j)) by {
            if b.contains(j) {
                let x = choose|x: int| 0 <= x < b.len() && b[x] == j;
                assert(a[x] == j);
            }
            if jobs[n - 1] == j {
                assert(a[n - 1] == j);
            }
            if a.contains(j) && jobs[n - 1] != j {
                let x = choose|x: int| 0 <= x < a.len() && a[x] == j;
                assert(b[x] == j);
            }
        }
        if times.contains_key(jobs[n - 1]) {
            assert(list.contains(j) == (rest.contains(j) || jobs[n - 1] == j)) by {
                if rest.contains(j) {
                    let x = choose|x: int| 0 <= x < rest.len() && rest[x] == j;
                    assert(list[x] == j);
                }
                if jobs[n - 1] == j {
                    assert(list[rest.len() as int] == j);
                }
                if list.contains(j) && jobs[n - 1] != j {
                    let x = choose|x: int| 0 <= x < list.len() && list[x] == j;
                    assert(rest[x] == j);
                }
            }
        }
    }
}

/// The time holds whole iterations of each job.
pub open spec fn holds_whole(jobs: Seq<JobId>, times: Map<JobId, u64>, m: nat) -> bool {
    forall|j: JobId| #[trigger] jobs.contains(j) ==> divides(times[j] as nat, m)
}

/// The work on a link: its jobs are those on the link whose iterations have a known length, and there are at least two.
/// The period holds whole iterations of each, and no shorter time does.
pub open spec fn is_work_on(g: AffinityGraph, times: Map<JobId, u64>, w: WorkView) -> bool {
    &&& w.jobs.len() >= 2
    &&& forall|j: JobId| #[trigger] w.jobs.contains(j) == (g.jobs_on(w.link_id).contains(j) && times.contains_key(j))
    &&& w.period_us > 0
    &&& holds_whole(w.jobs, times, w.period_us as nat)
    &&& forall|m: nat| 0 < m && #[trigger] holds_whole(w.jobs, times, m) ==> w.period_us <= m
}

/// Two jobs on the link have iterations of known lengths.
pub open spec fn needs_work(g: AffinityGraph, times: Map<JobId, u64>, l: LinkId) -> bool {
    exists|a: JobId, b: JobId|
        a != b && #[trigger] g.jobs_on(l).contains(a) && #[trigger] g.jobs_on(l).contains(b) && times.contains_key(a)
            && times.contains_key(b)
}

proof fn lemma_work(g: AffinityGraph, times: Map<JobId, u64>, l: LinkId)
    requires
        forall|j: JobId| #[trigger] times.contains_key(j) ==> times[j] > 0,
    ensures
        ({
            let jobs = known_on(g, times, l);
            let lengths = times_of(jobs, times);
            &&& needs_work(g, times, l) ==> jobs.len() > 1
            &&& jobs.len() > 1 ==> lcm_all(lengths, lengths.len()) > 0
            &&& jobs.len() > 1 && lcm_fits(lengths) ==> is_work_on(
                g,
                times,
                (WorkView { link_id: l, jobs, period_us: lcm_all(lengths, lengths.len()) as u64 }),
            )
        }),
{
    let on = g.jobs_on(l);
    let jobs = known_on(g, times, l);
    let lengths = times_of(jobs, times);
    assert(on.take(on.len() as int) =~= on);
    assert forall|j: JobId| #[trigger] jobs.contains(j) == (on.contains(j) && times.contains_key(j)) by {
        lemma_known_jobs(on, times, on.len(), j);
    }
    if needs_work(g, times, l) {
        let (a, b) = choose|a: JobId, b: JobId|
            a != b && #[trigger] g.jobs_on(l).contains(a) && #[trigger] g.jobs_on(l).contains(b) && times.contains_key(a)
                && times.contains_key(b);
        assert(jobs.contains(a) && jobs.contains(b));
    }
    assert forall|i: int| 0 <= i < lengths.len() implies #[trigger] lengths[i] > 0 by {
        assert(jobs.contains(jobs[i]));
    }
    if jobs.len() > 1 {
        let p = lcm_all(lengths, lengths.len());
        lemma_common_period(lengths, 0);
        if lcm_fits(lengths) {
            assert(p <= u64::MAX);
            assert forall|j: JobId| #[trigger] jobs.contains(j) implies divides(times[j] as nat, p) by {
                let i = choose|i: int| 0 <= i < jobs.len() && jobs[i] == j;
                assert(lengths[i] == times[j]);
            }
            assert forall|m: nat| 0 < m && #[trigger] holds_whole(jobs, times, m) implies p <= m by {
                assert forall|i: int| 0 <= i < lengths.len() implies divides(#[trigger] lengths[i] as nat, m) by {
                    assert(jobs.contains(jobs[i]));
                }
                lemma_common_period(lengths, m);
            }
        }
    }
}

/// The work on links, in the order of the links: each link with two jobs whose iterations have known lengths has its
/// work, with the shortest common period.
pub proof fn lemma_link_works(g: AffinityGraph, times: Map<JobId, u64>, links: Seq<LinkId>, n: nat)
    requires
        n <= links.len(),
        forall|j: JobId| #[trigger] times.contains_key(j) ==> times[j] > 0,
    ensures
        link_works(g, times, links, n) matches Ok(works) ==> {
            &&& forall|x: int|
                0 <= x < works.len() ==> is_work_on(g, times, #[trigger] works[x]) && links.take(n as int).contains(
                    works[x].link_id,
                )
            &&& forall|i: int|
                0 <= i < n && needs_work(g, times, #[trigger] links[i]) ==> exists|x: int|
                    0 <= x < works.len() && (#[trigger] works[x]).link_id == links[i]
        },
    decreases n,
{
    if n > 0 {
        lemma_link_works(g, times, links, (n - 1) as nat);
        lemma_work(g, times, links[n - 1]);
        if let Ok(works) = link_works(g, times, links, n) {
            let rest = link_works(g, times, links, (n - 1) as nat)->Ok_0;
            let (now, earlier) = (links.take(n as int), links.take(n - 1));
            assert(now =~= earlier.push(links[n - 1]));
            assert forall|x: int| 0 <= x < works.len() implies is_work_on(g, times, #[trigger] works[x]) && links.take(
                n as int,
            ).contains(works[x].link_id) by {
                if x < rest.len() {
                    assert(works[x] == rest[x]);
                    assert(earlier.contains(rest[x].link_id));
                    let y = choose|y: int| 0 <= y < earlier.len() && earlier[y] == rest[x].link_id;
                    assert(now[y] == rest[x].link_id);
                } else {
                    assert(now[n - 1] == works[x].link_id);
                }
            }
            assert forall|i: int| 0 <= i < n && needs_work(g, times, #[trigger] links[i]) implies exists|x: int|
                0 <= x < works.len() && (#[trigger] works[x]).link_id == links[i] by {
                if i < n - 1 {
                    let x = choose|x: int| 0 <= x < rest.len() && (#[trigger] rest[x]).link_id == links[i];
                    assert(works[x].link_id == links[i]);
                } else {
                    assert(works[works.len() - 1].link_id == links[i]);
                }
            }
        }
    }
}

/// The edge joins the job with the link.
pub open spec fn joins(jobs: Map<JobId, usize>, links: Map<LinkId, usize>, j: JobId, l: LinkId, e: (usize, usize, u64)) -> bool {
    &&& jobs.contains_key(j)
    &&& links.contains_key(l)
    &&& jobs[j] == e.0
    &&& links[l] == e.1
}

/// No later edge joins the same nodes.
pub open spec fn is_last_edge(edges: Seq<(usize, usize, u64)>, k: int) -> bool {
    &&& 0 <= k < edges.len()
    &&& forall|m: int|
        k < m < edges.len() ==> (#[trigger] edges[m]).0 != edges[k].0 || edges[m].1 != edges[k].1
}

/// The edges join the same nodes.
pub open spec fn same_ends(a: Seq<(usize, usize, u64)>, b: Seq<(usize, usize, u64)>) -> bool {
    &&& a.len() == b.len()
    &&& forall|m: int| 0 <= m < a.len() ==> (#[trigger] a[m]).0 == b[m].0 && a[m].1 == b[m].1
}

proof fn lemma_last_edge(edges: Seq<(usize, usize, u64)>, a: usize, b: usize, n: nat)
    requires
        n <= edges.len() <= usize::MAX,
    ensures
        last_between(edges, a, b, n) matches Some(k) ==> k < n && edges[k as int].0 == a && edges[k as int].1 == b && forall|
            m: int,
        |
            k < m < n ==> (#[trigger] edges[m]).0 != a || edges[m].1 != b,
        last_between(edges, a, b, n) is None ==> forall|m: int|
            0 <= m < n ==> (#[trigger] edges[m]).0 != a || edges[m].1 != b,
    decreases n,
{
    if n > 0 {
        lemma_last_edge(edges, a, b, (n - 1) as nat);
    }
}

proof fn lemma_with_shift(
    edges: Seq<(usize, usize, u64)>,
    jobs: Map<JobId, usize>,
    links: Map<LinkId, usize>,
    j: JobId,
    l: LinkId,
    w: u64,
    k: int,
)
    requires
        edges.len() <= usize::MAX,
        is_last_edge(edges, k),
    ensures
        same_ends(edges, with_shift(edges, jobs, links, j, l, w)),
        is_last_edge(with_shift(edges, jobs, links, j, l, w), k),
        with_shift(edges, jobs, links, j, l, w)[k].2 == if joins(jobs, links, j, l, edges[k]) {
            w
        } else {
            edges[k].2
        },
{
    if jobs.contains_key(j) && links.contains_key(l) {
        lemma_last_edge(edges, jobs[j], links[l], edges.len());
    }
}

proof fn lemma_with_link_shifts(
    edges: Seq<(usize, usize, u64)>,
    jobs: Map<JobId, usize>,
    links: Map<LinkId, usize>,
    l: LinkId,
    shifts: Seq<TimeShift>,
    n: nat,
    k: int,
)
    requires
        n <= shifts.len(),
        edges.len() <= usize::MAX,
        is_last_edge(edges, k),
    ensures
        ({
            let after = with_link_shifts(edges, jobs, links, l, shifts, n);
            &&& same_ends(edges, after)
            &&& is_last_edge(after, k)
            &&& (forall|i: int| 0 <= i < n ==> !joins(jobs, links, (#[trigger] shifts[i]).job_id, l, edges[k])) ==> after[k].2
                == edges[k].2
            &&& forall|i: int|
                0 <= i < n && joins(jobs, links, (#[trigger] shifts[i]).job_id, l, edges[k]) && (forall|m: int|
                    i < m < n ==> !joins(jobs, links, (#[trigger] shifts[m]).job_id, l, edges[k])) ==> after[k].2
                    == shifts[i].shift_us
        }),
    decreases n,
{
    if n > 0 {
        lemma_with_link_shifts(edges, jobs, links, l, shifts, (n - 1) as nat, k);
        let before = with_link_shifts(edges, jobs, links, l, shifts, (n - 1) as nat);
        lemma_with_shift(before, jobs, links, shifts[n - 1].job_id, l, shifts[n - 1].shift_us, k);
        assert(before[k].0 == edges[k].0 && before[k].1 == edges[k].1) by {
            assert(edges[k].0 == before[k].0);
        }
    }
}

/// A shift for the link is one of the edge.
pub open spec fn sets_edge(
    jobs: Map<JobId, usize>,
    links: Map<LinkId, usize>,
    found: Seq<(LinkId, Vec<TimeShift>)>,
    x: int,
    i: int,
    e: (usize, usize, u64),
) -> bool {
    &&& 0 <= x < found.len()
    &&& 0 <= i < found[x].1@.len()
    &&& joins(jobs, links, found[x].1@[i].job_id, found[x].0, e)
}

proof fn lemma_with_all_shifts(
    edges: Seq<(usize, usize, u64)>,
    jobs: Map<JobId, usize>,
    links: Map<LinkId, usize>,
    found: Seq<(LinkId, Vec<TimeShift>)>,
    n: nat,
    k: int,
)
    requires
        n <= found.len(),
        edges.len() <= usize::MAX,
        is_last_edge(edges, k),
    ensures
        ({
            let after = with_all_shifts(edges, jobs, links, found, n);
            &&& same_ends(edges, after)
            &&& is_last_edge(after, k)
            &&& (forall|x: int, i: int| x < n ==> !#[trigger] sets_edge(jobs, links, found, x, i, edges[k])) ==> after[k].2
                == edges[k].2
            &&& forall|x: int, i: int|
                x < n && #[trigger] sets_edge(jobs, links, found, x, i, edges[k]) && (forall|y: int, m: int|
                    y < n && (x < y || (x == y && i < m)) ==> !#[trigger] sets_edge(jobs, links, found, y, m, edges[k]))
                    ==> after[k].2 == found[x].1@[i].shift_us
        }),
    decreases n,
{
    if n > 0 {
        lemma_with_all_shifts(edges, jobs, links, found, (n - 1) as nat, k);
        let before = with_all_shifts(edges, jobs, links, found, (n - 1) as nat);
        let after = with_all_shifts(edges, jobs, links, found, n);
        let (l, shifts) = (found[n - 1].0, found[n - 1].1@);
        lemma_with_link_shifts(before, jobs, links, l, shifts, shifts.len(), k);
        assert(edges[k].0 == before[k].0 && edges[k].1 == before[k].1);
        assert(same_ends(edges, after)) by {
            assert forall|m: int| 0 <= m < edges.len() implies (#[trigger] edges[m]).0 == after[m].0 && edges[m].1 == after[m].1 by {
                assert(before[m].0 == after[m].0 && before[m].1 == after[m].1);
            }
        }
        assert forall|i: int| 0 <= i < shifts.len() implies joins(jobs, links, (#[trigger] shifts[i]).job_id, l, before[k])
            == sets_edge(jobs, links, found, n - 1, i, edges[k]) by {}
        if forall|x: int, i: int| x < n ==> !#[trigger] sets_edge(jobs, links, found, x, i, edges[k]) {
            assert(after[k].2 == before[k].2);
        }
        assert forall|x: int, i: int|
            x < n && #[trigger] sets_edge(jobs, links, found, x, i, edges[k]) && (forall|y: int, m: int|
                y < n && (x < y || (x == y && i < m)) ==> !#[trigger] sets_edge(jobs, links, found, y, m, edges[k])) implies after[k].2
            == found[x].1@[i].shift_us by {
            if x == n - 1 {
                assert forall|m: int| i < m < shifts.len() implies !joins(
                    jobs,
                    links,
                    (#[trigger] shifts[m]).job_id,
                    l,
                    before[k],
                ) by {
                    assert(!sets_edge(jobs, links, found, n - 1, m, edges[k]));
                }
                assert(joins(jobs, links, shifts[i].job_id, l, before[k]));
            } else {
                assert forall|m: int| 0 <= m < shifts.len() implies !joins(
                    jobs,
                    links,
                    (#[trigger] shifts[m]).job_id,
                    l,
                    before[k],
                ) by {
                    assert(!sets_edge(jobs, links, found, n - 1, m, edges[k]));
                }
                assert(after[k].2 == before[k].2);
            }
        }
    }
}

/// A job runs on a link by so much later as was found last for it there; where nothing was found, as before.
pub proof fn lemma_shifts_set(g: AffinityGraph, found: Seq<(LinkId, Vec<TimeShift>)>, after: AffinityGraph, k: int)
    requires
        g.wf(),
        is_shifted(g, found, after),
        is_last_edge(g.edges(), k),
    ensures
        same_ends(g.edges(), after.edges()),
        (forall|x: int, i: int| !#[trigger] sets_edge(g.job_to_node@, g.link_to_node@, found, x, i, g.edges()[k]))
            ==> after.edges()[k].2 == g.edges()[k].2,
        forall|x: int, i: int|
            #[trigger] sets_edge(g.job_to_node@, g.link_to_node@, found, x, i, g.edges()[k]) && (forall|y: int, m: int|
                x < y || (x == y && i < m) ==> !#[trigger] sets_edge(
                    g.job_to_node@,
                    g.link_to_node@,
                    found,
                    y,
                    m,
                    g.edges()[k],
                )) ==> after.edges()[k].2 == found[x].1@[i].shift_us,
{
    lemma_with_all_shifts(g.edges(), g.job_to_node@, g.link_to_node@, found, found.len(), k);
}

/// Where jobs are staggered, the first does not wait, each waits for less than an iteration, and each of the next three waits
/// for so many quarters of its iteration.
pub proof fn lemma_staggered(shifts: Map<JobId, TimeShift>, times: Map<JobId, u64>, i: int, j: JobId)
    requires
        0 <= i,
        times[j] > 0,
        is_staggered(shifts, times, i, j),
    ensures
        shifts[j].shift_us < times[j],
        i == 0 ==> shifts[j].shift_us == 0,
        i < 4 ==> 4 * shifts[j].shift_us <= i * times[j] < 4 * shifts[j].shift_us + 4,
{
    let t = times[j] as int;
    let x = (i * t) / 4;
    vstd::arithmetic::div_mod::lemma_mod_bound(x, t);
    assert(i * t >= 0) by (nonlinear_arith)
        requires
            0 <= i,
            t > 0,
    ;
    if i == 0 {
        assert(i * t == 0) by (nonlinear_arith)
            requires
                i == 0,
        ;
        vstd::arithmetic::div_mod::lemma_small_mod(0, t as nat);
    }
    if i < 4 {
        assert(i * t <= 3 * t) by (nonlinear_arith)
            requires
                0 <= i < 4,
                t > 0,
        ;
        vstd::arithmetic::div_mod::lemma_small_mod(x as nat, t as nat);
    }
}

/// The job at node `m` runs on the link by `wm` later. Each other job there starts later than it by as much as it runs later
/// on the link, up to whole iterations of its own.
pub open spec fn leads_link(
    g: AffinityGraph,
    times: Map<JobId, u64>,
    shifts: Map<JobId, TimeShift>,
    l: usize,
    m: usize,
    wm: u64,
) -> bool {
    &&& is_from(g.edges(), m, g.edges().len(), (l, wm))
    &&& forall|b: usize, w: u64| #[trigger]
        is_from(g.edges(), b, g.edges().len(), (l, w)) && b != m && iteration_of(times, g.nodes@[b as int]->Job_0) > 0 ==> {
            let t = iteration_of(times, g.nodes@[b as int]->Job_0) as int;
            let late = shifts[g.nodes@[b as int]->Job_0].shift_us - shifts[g.nodes@[m as int]->Job_0].shift_us;
            (late - (w - wm)) % t == 0 && shifts[g.nodes@[b as int]->Job_0].shift_us < t
        }
}

/// Where there is no loop, the jobs on a link keep the times by which they differ there.
pub proof fn lemma_links_kept(g: AffinityGraph, times: Map<JobId, u64>, shifts: Map<JobId, TimeShift>, l: usize)
    requires
        g.wf(),
        are_unique_shifts(g, times, shifts),
        !has_loop(node_pairs(g.edges()), g.edges().len()),
        exists|a: usize, w: u64| #[trigger] is_from(g.edges(), a, g.edges().len(), (l, w)),
    ensures
        exists|m: usize, wm: u64| #[trigger] leads_link(g, times, shifts, l, m, wm),
{
    lemma_link_shifts(g, times, shifts, l);
    let (m, wm) = choose|m: usize, wm: u64| #[trigger] keeps_link(g, times, shifts, l, m, wm);
    assert forall|b: usize, w: u64| #[trigger]
        is_from(g.edges(), b, g.edges().len(), (l, w)) && b != m && iteration_of(times, g.nodes@[b as int]->Job_0) > 0 implies ({
        let t = iteration_of(times, g.nodes@[b as int]->Job_0) as int;
        let late = shifts[g.nodes@[b as int]->Job_0].shift_us - shifts[g.nodes@[m as int]->Job_0].shift_us;
        (late - (w - wm)) % t == 0 && shifts[g.nodes@[b as int]->Job_0].shift_us < t
    }) by {
        let t = iteration_of(times, g.nodes@[b as int]->Job_0) as int;
        let x = shifts[g.nodes@[m as int]->Job_0].shift_us - wm + w;
        let y = shifts[g.nodes@[b as int]->Job_0].shift_us as int;
        assert(y == x % t);
        vstd::arithmetic::div_mod::lemma_mod_bound(x, t);
        vstd::arithmetic::div_mod::lemma_fundamental_div_mod(x, t);
        let q = x / t;
        assert(y - x == t * (-q)) by (nonlinear_arith)
            requires
                x == t * q + x % t,
                y == x % t,
        ;
        vstd::arithmetic::div_mod::lemma_mod_multiples_basic(-q, t);
        assert((-q) * t == t * (-q)) by (nonlinear_arith);
    }
    assert(leads_link(g, times, shifts, l, m, wm));
}

} // verus!
