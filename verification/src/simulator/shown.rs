//! What the context shows of jobs, and how their flows are numbered.

use vstd::prelude::*;

use crate::simulator::context::{put_placement, put_workers, receive_neighbors, send_bytes, send_neighbors};
use crate::simulator::ml_job::{ascending, flow_indices, job_flow_indices, number_sends, send_count, sends_before, total_sends};
use crate::simulator::ml_worker::{
    first_occurrences, receive_peers, send_peers, EventView, JobId, MLWorker, WorkerEventKind, WorkerId,
};
use crate::simulator::progress::lemma_ascending_lists;

verus! {

proof fn lemma_put_workers(
    h2w: Seq<Option<(JobId, WorkerId)>>,
    job_id: JobId,
    hosts: Map<WorkerId, usize>,
    ids: Seq<WorkerId>,
    n: nat,
)
    requires
        n <= ids.len(),
        ids.no_duplicates(),
        forall|a: int, b: int| 0 <= a < b < ids.len() ==> hosts[#[trigger] ids[a]] != hosts[#[trigger] ids[b]],
    ensures
        ({
            let after = put_workers(h2w, job_id, hosts, ids, n);
            &&& after.len() == h2w.len()
            &&& forall|i: int|
                0 <= i < n && hosts[#[trigger] ids[i]] < h2w.len() ==> after[hosts[ids[i]] as int] == Some((job_id, ids[i]))
            &&& forall|h: int|
                0 <= h < h2w.len() && (forall|i: int| 0 <= i < n ==> hosts[#[trigger] ids[i]] != h) ==> #[trigger] after[h] == h2w[h]
        }),
    decreases n,
{
    if n > 0 {
        lemma_put_workers(h2w, job_id, hosts, ids, (n - 1) as nat);
        let before = put_workers(h2w, job_id, hosts, ids, (n - 1) as nat);
        let after = put_workers(h2w, job_id, hosts, ids, n);
        assert forall|i: int| 0 <= i < n && hosts[#[trigger] ids[i]] < h2w.len() implies after[hosts[ids[i]] as int] == Some(
            (job_id, ids[i]),
        ) by {
            if i < n - 1 {
                assert(hosts[ids[i]] != hosts[ids[n - 1]]);
            }
        }
        assert forall|h: int| 0 <= h < h2w.len() && (forall|i: int| 0 <= i < n ==> hosts[#[trigger] ids[i]] != h) implies #[trigger] after[h]
            == h2w[h] by {
            assert(hosts[ids[n - 1]] != h);
            assert(before[h] == h2w[h]);
        }
    }
}

/// Each worker of a placed job is shown on its host, and other hosts are shown as before.
pub proof fn lemma_shown_on_hosts(h2w: Seq<Option<(JobId, WorkerId)>>, job_id: JobId, hosts: Map<WorkerId, usize>)
    requires
        hosts.dom().finite(),
        forall|a: WorkerId, b: WorkerId| #[trigger]
            hosts.contains_key(a) && #[trigger] hosts.contains_key(b) && a != b ==> hosts[a] != hosts[b],
    ensures
        ({
            let after = put_placement(h2w, job_id, hosts);
            &&& after.len() == h2w.len()
            &&& forall|w: WorkerId| #[trigger]
                hosts.contains_key(w) && hosts[w] < h2w.len() ==> after[hosts[w] as int] == Some((job_id, w))
            &&& forall|h: int|
                0 <= h < h2w.len() && (forall|w: WorkerId| #[trigger] hosts.contains_key(w) ==> hosts[w] != h)
                    ==> #[trigger] after[h] == h2w[h]
        }),
{
    let ids = ascending(hosts.dom());
    lemma_ascending_lists(hosts.dom());
    assert forall|i: int| 0 <= i < ids.len() implies hosts.contains_key(#[trigger] ids[i]) by {
        assert(ids.to_set().contains(ids[i]));
    }
    assert forall|a: int, b: int| 0 <= a < b < ids.len() implies hosts[#[trigger] ids[a]] != hosts[#[trigger] ids[b]] by {
        assert(hosts.contains_key(ids[a]) && hosts.contains_key(ids[b]));
    }
    lemma_put_workers(h2w, job_id, hosts, ids, ids.len());
    let after = put_placement(h2w, job_id, hosts);
    assert forall|w: WorkerId| #[trigger] hosts.contains_key(w) && hosts[w] < h2w.len() implies after[hosts[w] as int] == Some(
        (job_id, w),
    ) by {
        assert(hosts.dom().contains(w));
        assert(ids.contains(w));
        let i = choose|i: int| 0 <= i < ids.len() && ids[i] == w;
        assert(hosts[ids[i]] < h2w.len());
    }
}

proof fn lemma_first_occurrences(s: Seq<usize>)
    ensures
        first_occurrences(s).no_duplicates(),
        forall|x: usize| #[trigger] first_occurrences(s).contains(x) == s.contains(x),
    decreases s.len(),
{
    if s.len() > 0 {
        let short = s.drop_last();
        lemma_first_occurrences(short);
        let before = first_occurrences(short);
        let after = first_occurrences(s);
        assert forall|x: usize| #[trigger] after.contains(x) == s.contains(x) by {
            assert(before.contains(x) == short.contains(x));
            if short.contains(x) {
                let i = choose|i: int| 0 <= i < short.len() && short[i] == x;
                assert(s[i] == x);
            }
            if s.contains(x) && !short.contains(x) {
                let i = choose|i: int| 0 <= i < s.len() && s[i] == x;
                if i < short.len() {
                    assert(short[i] == x);
                }
            }
            if before.contains(x) {
                let i = choose|i: int| 0 <= i < before.len() && before[i] == x;
                assert(after[i] == x);
            }
            if x == s.last() {
                assert(s[s.len() - 1] == x);
                if !before.contains(x) {
                    assert(after[before.len() as int] == x);
                }
            }
            if after.contains(x) && !before.contains(x) {
                let i = choose|i: int| 0 <= i < after.len() && after[i] == x;
                if i < before.len() {
                    assert(before[i] == x);
                }
            }
        }
    }
}

proof fn lemma_peers(t: Seq<EventView>, n: nat)
    requires
        n <= t.len(),
    ensures
        forall|v: WorkerId| #[trigger]
            send_peers(t, n).contains(v) == exists|i: int|
                0 <= i < n && (#[trigger] t[i]).flow_send is Some && t[i].flow_send->0.dst_worker == v,
        forall|v: WorkerId| #[trigger]
            receive_peers(t, n).contains(v) == exists|i: int|
                0 <= i < n && (#[trigger] t[i]).flow_receive is Some && t[i].flow_receive->0.src_worker == v,
    decreases n,
{
    if n > 0 {
        lemma_peers(t, (n - 1) as nat);
        let e = t[n - 1];
        let (a, b) = (send_peers(t, (n - 1) as nat), send_peers(t, n));
        assert forall|v: WorkerId| #[trigger] b.contains(v) == exists|i: int|
            0 <= i < n && (#[trigger] t[i]).flow_send is Some && t[i].flow_send->0.dst_worker == v by {
            lemma_push_contains(a, b, if e.flow_send is Some { Some(e.flow_send->0.dst_worker) } else { None }, v);
            if a.contains(v) {
                let i = choose|i: int|
                    0 <= i < n - 1 && (#[trigger] t[i]).flow_send is Some && t[i].flow_send->0.dst_worker == v;
                assert(t[i].flow_send is Some);
            }
            if e.flow_send is Some && e.flow_send->0.dst_worker == v {
                assert(t[n - 1].flow_send is Some);
            }
        }
        let (c, d) = (receive_peers(t, (n - 1) as nat), receive_peers(t, n));
        assert forall|v: WorkerId| #[trigger] d.contains(v) == exists|i: int|
            0 <= i < n && (#[trigger] t[i]).flow_receive is Some && t[i].flow_receive->0.src_worker == v by {
            lemma_push_contains(c, d, if e.flow_receive is Some { Some(e.flow_receive->0.src_worker) } else { None }, v);
            if c.contains(v) {
                let i = choose|i: int|
                    0 <= i < n - 1 && (#[trigger] t[i]).flow_receive is Some && t[i].flow_receive->0.src_worker == v;
                assert(t[i].flow_receive is Some);
            }
            if e.flow_receive is Some && e.flow_receive->0.src_worker == v {
                assert(t[n - 1].flow_receive is Some);
            }
        }
    }
}

proof fn lemma_push_contains(a: Seq<usize>, b: Seq<usize>, x: Option<usize>, v: usize)
    requires
        b == match x {
            Some(x) => a.push(x),
            None => a,
        },
    ensures
        b.contains(v) == (a.contains(v) || x == Some(v)),
{
    if a.contains(v) {
        let i = choose|i: int| 0 <= i < a.len() && a[i] == v;
        assert(b[i] == v);
    }
    if x == Some(v) {
        assert(b[a.len() as int] == v);
    }
    if b.contains(v) {
        let i = choose|i: int| 0 <= i < b.len() && b[i] == v;
        if i < a.len() {
            assert(a[i] == v);
        }
    }
}

/// The neighbours of a worker are those that it sends to, and those that it receives from, each once.
pub proof fn lemma_neighbors(w: MLWorker)
    ensures
        send_neighbors(w).no_duplicates(),
        receive_neighbors(w).no_duplicates(),
        forall|v: WorkerId| #[trigger]
            send_neighbors(w).contains(v) == exists|i: int|
                0 <= i < w.templates().len() && (#[trigger] w.templates()[i]).flow_send is Some
                    && w.templates()[i].flow_send->0.dst_worker == v,
        forall|v: WorkerId| #[trigger]
            receive_neighbors(w).contains(v) == exists|i: int|
                0 <= i < w.templates().len() && (#[trigger] w.templates()[i]).flow_receive is Some
                    && w.templates()[i].flow_receive->0.src_worker == v,
{
    let t = w.templates();
    lemma_peers(t, t.len());
    lemma_first_occurrences(send_peers(t, t.len()));
    lemma_first_occurrences(receive_peers(t, t.len()));
}

/// How much the first `n` events send.
pub open spec fn sent(t: Seq<EventView>, n: nat) -> nat
    decreases n,
{
    if n == 0 {
        0
    } else {
        sent(t, (n - 1) as nat) + if t[n - 1].kind == WorkerEventKind::FlowSend && t[n - 1].flow_send is Some {
            t[n - 1].flow_send->0.size_bytes as nat
        } else {
            0
        }
    }
}

/// What a worker sends in an iteration is the sum over its sends, if that fits.
pub proof fn lemma_send_bytes(t: Seq<EventView>, n: nat)
    requires
        sent(t, n) <= u64::MAX,
    ensures
        send_bytes(t, n) == sent(t, n),
    decreases n,
{
    if n > 0 {
        lemma_send_bytes(t, (n - 1) as nat);
    }
}

proof fn lemma_number_sends(m: Map<(WorkerId, usize), usize>, w: WorkerId, t: Seq<EventView>, base: nat, k: nat)
    requires
        k <= t.len(),
        base + send_count(t, k) <= usize::MAX,
        forall|i: int, j: int|
            0 <= i < j < t.len() ==> (#[trigger] t[i]).template_id != (#[trigger] t[j]).template_id,
    ensures
        ({
            let after = number_sends(m, w, t, base, k);
            &&& forall|i: int|
                0 <= i < k && (#[trigger] t[i]).kind == WorkerEventKind::FlowSend ==> after.contains_key((w, t[i].template_id))
                    && after[(w, t[i].template_id)] == base + send_count(t, i as nat)
            &&& forall|key: (WorkerId, usize)|
                key.0 != w ==> #[trigger] after.contains_key(key) == m.contains_key(key) && (m.contains_key(key) ==> after[key]
                    == m[key])
        }),
    decreases k,
{
    if k > 0 {
        lemma_number_sends(m, w, t, base, (k - 1) as nat);
        vstd::arithmetic::div_mod::lemma_small_mod(base + send_count(t, (k - 1) as nat), usize::MAX as nat + 1);
        let after = number_sends(m, w, t, base, k);
        assert forall|i: int| 0 <= i < k && (#[trigger] t[i]).kind == WorkerEventKind::FlowSend implies after.contains_key(
            (w, t[i].template_id),
        ) && after[(w, t[i].template_id)] == base + send_count(t, i as nat) by {
            if i < k - 1 {
                assert(t[i].template_id != t[k - 1].template_id);
            }
        }
        let before = number_sends(m, w, t, base, (k - 1) as nat);
        assert forall|key: (WorkerId, usize)| key.0 != w implies #[trigger] after.contains_key(key) == m.contains_key(key) && (
        m.contains_key(key) ==> after[key] == m[key]) by {
            assert(before.contains_key(key) == m.contains_key(key));
        }
    }
}

proof fn lemma_sends_before(workers: Map<WorkerId, MLWorker>, ids: Seq<WorkerId>, n: nat, m: nat)
    requires
        n <= m,
    ensures
        sends_before(workers, ids, n) <= sends_before(workers, ids, m),
    decreases m,
{
    if n < m {
        lemma_sends_before(workers, ids, n, (m - 1) as nat);
    }
}

proof fn lemma_flow_number(workers: Map<WorkerId, MLWorker>, ids: Seq<WorkerId>, n: nat, x: int, i: int)
    requires
        n <= ids.len(),
        0 <= x < n,
        ids.no_duplicates(),
        sends_before(workers, ids, n) <= usize::MAX,
        0 <= i < workers[ids[x]].templates().len(),
        workers[ids[x]].templates()[i].kind == WorkerEventKind::FlowSend,
        forall|y: int, a: int, b: int|
            0 <= y < ids.len() && 0 <= a < b < workers[ids[y]].templates().len() ==> (
            #[trigger] workers[ids[y]].templates()[a]).template_id != (#[trigger] workers[ids[y]].templates()[b]).template_id,
    ensures
        ({
            let t = workers[ids[x]].templates();
            let key = (ids[x], t[i].template_id);
            let m = flow_indices(workers, ids, n);
            m.contains_key(key) && m[key] == sends_before(workers, ids, x as nat) + send_count(t, i as nat)
        }),
    decreases n,
{
    let t = workers[ids[n - 1]].templates();
    let base = sends_before(workers, ids, (n - 1) as nat);
    let before = flow_indices(workers, ids, (n - 1) as nat);
    assert forall|a: int, b: int| 0 <= a < b < t.len() implies (#[trigger] t[a]).template_id != (#[trigger] t[b]).template_id by {
        assert(workers[ids[n - 1]].templates()[a].template_id != workers[ids[n - 1]].templates()[b].template_id);
    }
    lemma_number_sends(before, ids[n - 1], t, base, t.len());
    if x < n - 1 {
        lemma_flow_number(workers, ids, (n - 1) as nat, x, i);
        assert(ids[x] != ids[n - 1]);
    }
}

/// The flows of a job are numbered worker by worker, and those of a worker in the order of its events: the number of a flow
/// is that of the sends before it.
pub proof fn lemma_flow_numbers(workers: Map<WorkerId, MLWorker>, w: WorkerId, i: int, x: int)
    requires
        workers.dom().finite(),
        total_sends(workers) <= usize::MAX,
        0 <= x < ascending(workers.dom()).len(),
        ascending(workers.dom())[x] == w,
        0 <= i < workers[w].templates().len(),
        workers[w].templates()[i].kind == WorkerEventKind::FlowSend,
        forall|v: WorkerId, a: int, b: int| #[trigger]
            workers.contains_key(v) && 0 <= a < b < workers[v].templates().len() ==> (
            #[trigger] workers[v].templates()[a]).template_id != (#[trigger] workers[v].templates()[b]).template_id,
    ensures
        ({
            let key = (w, workers[w].templates()[i].template_id);
            &&& job_flow_indices(workers).contains_key(key)
            &&& job_flow_indices(workers)[key] == sends_before(workers, ascending(workers.dom()), x as nat) + send_count(
                workers[w].templates(),
                i as nat,
            )
        }),
{
    let ids = ascending(workers.dom());
    lemma_ascending_lists(workers.dom());
    assert forall|y: int, a: int, b: int|
        0 <= y < ids.len() && 0 <= a < b < workers[ids[y]].templates().len() implies (
    #[trigger] workers[ids[y]].templates()[a]).template_id != (#[trigger] workers[ids[y]].templates()[b]).template_id by {
        assert(ids.to_set().contains(ids[y]));
        assert(workers.contains_key(ids[y]));
    }
    lemma_flow_number(workers, ids, ids.len(), x, i);
}

} // verus!
