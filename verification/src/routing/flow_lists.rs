//! Which flows the jobs have.

use vstd::prelude::*;

use crate::routing::job_flows::{
    all_host_flows, by_index, host_flows, job_flows, with_indexed, with_placed, with_sends, worker_flows, HostFlow, JobFlow,
};
use crate::simulator::ml_job::{ascending, MLJob};
use crate::simulator::ml_worker::{EventView, FlowKind, JobId, WorkerEventKind, WorkerId};
use crate::simulator::progress::lemma_ascending_lists;

verus! {

/// The flow runs between the hosts of the two workers of a flow of the job.
pub open spec fn is_placed_as(f: JobFlow, j: JobId, hosts: Map<WorkerId, usize>, h: HostFlow) -> bool {
    &&& hosts.contains_key(f.src_worker_id)
    &&& hosts.contains_key(f.dst_worker_id)
    &&& h.job_id == j
    &&& h.job_flow_idx == f.job_flow_idx
    &&& h.src_host == hosts[f.src_worker_id]
    &&& h.dst_host == hosts[f.dst_worker_id]
    &&& h.is_ring_flow == f.is_ring_flow
}

/// The flow is flow `i` of a job that is placed.
pub open spec fn comes_from(
    jobs: Map<JobId, Seq<JobFlow>>,
    placements: Map<JobId, Map<WorkerId, usize>>,
    j: JobId,
    i: int,
    h: HostFlow,
) -> bool {
    &&& jobs.contains_key(j)
    &&& placements.contains_key(j)
    &&& 0 <= i < jobs[j].len()
    &&& is_placed_as(jobs[j][i], j, placements[j], h)
}

proof fn lemma_with_placed(start: Seq<HostFlow>, flows: Seq<JobFlow>, j: JobId, hosts: Map<WorkerId, usize>, n: nat)
    requires
        n <= flows.len(),
    ensures
        ({
            let list = with_placed(start, flows, j, hosts, n);
            &&& list.len() >= start.len()
            &&& forall|k: int| 0 <= k < start.len() ==> #[trigger] list[k] == start[k]
            &&& forall|k: int|
                start.len() <= k < list.len() ==> exists|i: int|
                    0 <= i < n && is_placed_as(#[trigger] flows[i], j, hosts, #[trigger] list[k])
            &&& forall|i: int, h: HostFlow|
                0 <= i < n && #[trigger] is_placed_as(flows[i], j, hosts, h) ==> list.skip(start.len() as int).contains(h)
        }),
    decreases n,
{
    let list = with_placed(start, flows, j, hosts, n);
    if n > 0 {
        lemma_with_placed(start, flows, j, hosts, (n - 1) as nat);
        let rest = with_placed(start, flows, j, hosts, (n - 1) as nat);
        let f = flows[n - 1];
        let m = start.len() as int;
        assert forall|k: int| m <= k < list.len() implies exists|i: int|
            0 <= i < n && is_placed_as(#[trigger] flows[i], j, hosts, #[trigger] list[k]) by {
            if k < rest.len() {
                assert(list[k] == rest[k]);
                let i = choose|i: int| 0 <= i < n - 1 && is_placed_as(#[trigger] flows[i], j, hosts, rest[k]);
                assert(is_placed_as(flows[i], j, hosts, list[k]));
            } else {
                assert(is_placed_as(flows[n - 1], j, hosts, list[k]));
            }
        }
        assert forall|i: int, h: HostFlow| 0 <= i < n && #[trigger] is_placed_as(flows[i], j, hosts, h) implies list.skip(
            m,
        ).contains(h) by {
            if i < n - 1 {
                assert(rest.skip(m).contains(h));
                let x = choose|x: int| 0 <= x < rest.skip(m).len() && rest.skip(m)[x] == h;
                assert(list.skip(m)[x] == h);
            } else {
                assert(list.skip(m)[list.len() - 1 - m] == h);
            }
        }
    }
}

/// The flow belongs to one of the first `n` jobs.
spec fn is_among(
    jobs: Map<JobId, Seq<JobFlow>>,
    placements: Map<JobId, Map<WorkerId, usize>>,
    ids: Seq<JobId>,
    n: nat,
    h: HostFlow,
) -> bool {
    exists|x: int, i: int| 0 <= x < n && #[trigger] comes_from(jobs, placements, ids[x], i, h)
}

proof fn lemma_host_flows(
    jobs: Map<JobId, Seq<JobFlow>>,
    placements: Map<JobId, Map<WorkerId, usize>>,
    ids: Seq<JobId>,
    n: nat,
)
    requires
        n <= ids.len(),
        forall|k: int| 0 <= k < ids.len() ==> jobs.contains_key(#[trigger] ids[k]),
        forall|a: int, b: int| 0 <= a < b < ids.len() ==> ids[a] < ids[b],
    ensures
        ({
            let list = host_flows(jobs, placements, ids, n);
            &&& forall|k: int|
                0 <= k < list.len() ==> is_among(jobs, placements, ids, n, #[trigger] list[k])
            &&& forall|x: int, i: int, h: HostFlow|
                0 <= x < n && #[trigger] comes_from(jobs, placements, ids[x], i, h) ==> list.contains(h)
            &&& forall|a: int, b: int| 0 <= a < b < list.len() ==> list[a].job_id <= list[b].job_id
        }),
    decreases n,
{
    let list = host_flows(jobs, placements, ids, n);
    if n > 0 {
        lemma_host_flows(jobs, placements, ids, (n - 1) as nat);
        let rest = host_flows(jobs, placements, ids, (n - 1) as nat);
        let j = ids[n - 1];
        if placements.contains_key(j) {
            lemma_with_placed(rest, jobs[j], j, placements[j], jobs[j].len());
        }
        let m = rest.len() as int;
        assert forall|k: int| 0 <= k < list.len() implies is_among(jobs, placements, ids, n, #[trigger] list[k]) by {
            if k < m {
                assert(list[k] == rest[k]);
                assert(is_among(jobs, placements, ids, (n - 1) as nat, rest[k]));
                let (x, i) = choose|x: int, i: int|
                    0 <= x < n - 1 && #[trigger] comes_from(jobs, placements, ids[x], i, rest[k]);
                assert(comes_from(jobs, placements, ids[x], i, list[k]));
            } else {
                let i = choose|i: int|
                    0 <= i < jobs[j].len() && is_placed_as(#[trigger] jobs[j][i], j, placements[j], list[k]);
                assert(comes_from(jobs, placements, ids[n - 1], i, list[k]));
            }
        }
        assert forall|x: int, i: int, h: HostFlow|
            0 <= x < n && #[trigger] comes_from(jobs, placements, ids[x], i, h) implies list.contains(h) by {
            if x < n - 1 {
                assert(rest.contains(h));
                let y = choose|y: int| 0 <= y < rest.len() && rest[y] == h;
                assert(list[y] == h);
            } else {
                assert(is_placed_as(jobs[j][i], j, placements[j], h));
                assert(list.skip(m).contains(h));
                let y = choose|y: int| 0 <= y < list.skip(m).len() && list.skip(m)[y] == h;
                assert(list[y + m] == h);
            }
        }
        assert forall|a: int, b: int| 0 <= a < b < list.len() implies list[a].job_id <= list[b].job_id by {
            if b < m {
                assert(list[a] == rest[a] && list[b] == rest[b]);
            } else {
                if a < m {
                    assert(list[a] == rest[a]);
                    assert(is_among(jobs, placements, ids, (n - 1) as nat, rest[a]));
                    let (x, i) = choose|x: int, i: int|
                        0 <= x < n - 1 && #[trigger] comes_from(jobs, placements, ids[x], i, rest[a]);
                    assert(ids[x] < ids[n - 1]);
                }
            }
        }
    }
}

/// The flow belongs to a job that is placed.
pub open spec fn has_origin(jobs: Map<JobId, Seq<JobFlow>>, placements: Map<JobId, Map<WorkerId, usize>>, h: HostFlow) -> bool {
    exists|i: int| #[trigger] comes_from(jobs, placements, h.job_id, i, h)
}

/// The flows of all jobs, by job: those between workers that are placed, from the host of the one to that of the other.
pub proof fn lemma_all_host_flows(jobs: Map<JobId, Seq<JobFlow>>, placements: Map<JobId, Map<WorkerId, usize>>)
    requires
        jobs.dom().finite(),
    ensures
        ({
            let list = all_host_flows(jobs, placements);
            &&& forall|k: int|
                0 <= k < list.len() ==> has_origin(jobs, placements, #[trigger] list[k])
            &&& forall|j: JobId, i: int, h: HostFlow|
                #[trigger] comes_from(jobs, placements, j, i, h) ==> list.contains(h)
            &&& forall|a: int, b: int| 0 <= a < b < list.len() ==> list[a].job_id <= list[b].job_id
        }),
{
    let ids = ascending(jobs.dom());
    lemma_ascending_lists(jobs.dom());
    assert forall|k: int| 0 <= k < ids.len() implies jobs.contains_key(#[trigger] ids[k]) by {
        assert(ids.to_set().contains(ids[k]));
    }
    lemma_host_flows(jobs, placements, ids, ids.len());
    let list = all_host_flows(jobs, placements);
    assert forall|k: int| 0 <= k < list.len() implies has_origin(jobs, placements, #[trigger] list[k]) by {
        assert(is_among(jobs, placements, ids, ids.len(), list[k]));
        let (x, i) = choose|x: int, i: int|
            0 <= x < ids.len() && #[trigger] comes_from(jobs, placements, ids[x], i, list[k]);
        assert(comes_from(jobs, placements, list[k].job_id, i, list[k]));
    }
    assert forall|j: JobId, i: int, h: HostFlow| #[trigger] comes_from(jobs, placements, j, i, h) implies list.contains(h) by {
        assert(jobs.dom().contains(j));
        assert(ids.contains(j));
        let x = choose|x: int| 0 <= x < ids.len() && ids[x] == j;
        assert(comes_from(jobs, placements, ids[x], i, h));
    }
}

/// The flow is that of a send of a worker.
pub open spec fn is_sent_by(job: MLJob, w: WorkerId, e: EventView, f: JobFlow) -> bool {
    &&& e.kind == WorkerEventKind::FlowSend
    &&& e.flow_send is Some
    &&& job.send_template_to_flow_idx@.contains_key((w, e.template_id))
    &&& f.job_id == job.id
    &&& f.job_flow_idx == job.send_template_to_flow_idx@[(w, e.template_id)]
    &&& f.src_worker_id == w
    &&& f.dst_worker_id == e.flow_send->0.dst_worker
    &&& f.is_ring_flow == (e.flow_send->0.flow_kind == FlowKind::Ring)
}

/// The send does not say what is sent, or its flow has no index.
pub open spec fn is_bad_send(job: MLJob, w: WorkerId, e: EventView) -> bool {
    &&& e.kind == WorkerEventKind::FlowSend
    &&& e.flow_send is None || !job.send_template_to_flow_idx@.contains_key((w, e.template_id))
}

/// An event of a worker of the job.
pub open spec fn has_event(job: MLJob, w: WorkerId, i: int) -> bool {
    job.workers@.contains_key(w) && 0 <= i < job.workers@[w].templates().len()
}

proof fn lemma_with_sends(start: Seq<JobFlow>, job: MLJob, w: WorkerId, n: nat)
    requires
        n <= job.workers@[w].templates().len(),
    ensures
        ({
            let t = job.workers@[w].templates();
            match with_sends(start, job.id, w, t, job.send_template_to_flow_idx@, n) {
                Ok(list) => {
                    &&& forall|f: JobFlow|
                        #[trigger] list.contains(f) ==> start.contains(f) || exists|i: int|
                            0 <= i < n && is_sent_by(job, w, #[trigger] t[i], f)
                    &&& forall|f: JobFlow| start.contains(f) ==> #[trigger] list.contains(f)
                    &&& forall|i: int, f: JobFlow| 0 <= i < n && #[trigger] is_sent_by(job, w, t[i], f) ==> list.contains(f)
                    &&& forall|i: int| 0 <= i < n ==> !is_bad_send(job, w, #[trigger] t[i])
                },
                Err(_) => exists|i: int| 0 <= i < n && is_bad_send(job, w, #[trigger] t[i]),
            }
        }),
    decreases n,
{
    let t = job.workers@[w].templates();
    let idx = job.send_template_to_flow_idx@;
    if n > 0 {
        lemma_with_sends(start, job, w, (n - 1) as nat);
        match with_sends(start, job.id, w, t, idx, (n - 1) as nat) {
            Err(_) => {
                let i = choose|i: int| 0 <= i < n - 1 && is_bad_send(job, w, #[trigger] t[i]);
                assert(0 <= i < n && is_bad_send(job, w, t[i]));
            },
            Ok(rest) => {
                let e = t[n - 1];
                match with_sends(start, job.id, w, t, idx, n) {
                    Err(_) => {
                        assert(is_bad_send(job, w, t[n - 1]));
                    },
                    Ok(list) => {
                        assert forall|f: JobFlow| rest.contains(f) implies #[trigger] list.contains(f) by {
                            let x = choose|x: int| 0 <= x < rest.len() && rest[x] == f;
                            assert(list[x] == f);
                        }
                        assert forall|f: JobFlow| #[trigger] list.contains(f) implies start.contains(f) || exists|i: int|
                            0 <= i < n && is_sent_by(job, w, #[trigger] t[i], f) by {
                            let x = choose|x: int| 0 <= x < list.len() && list[x] == f;
                            if x < rest.len() {
                                assert(rest[x] == f);
                                assert(rest.contains(f));
                                if !start.contains(f) {
                                    let i = choose|i: int| 0 <= i < n - 1 && is_sent_by(job, w, #[trigger] t[i], f);
                                    assert(is_sent_by(job, w, t[i], f));
                                }
                            } else {
                                assert(is_sent_by(job, w, t[n - 1], f));
                            }
                        }
                        assert forall|i: int, f: JobFlow| 0 <= i < n && #[trigger] is_sent_by(job, w, t[i], f) implies list.contains(
                            f,
                        ) by {
                            if i < n - 1 {
                                assert(rest.contains(f));
                            } else {
                                assert(list[list.len() - 1] == f);
                            }
                        }
                    },
                }
            },
        }
    }
}

proof fn lemma_worker_flows(job: MLJob, ids: Seq<WorkerId>, n: nat)
    requires
        n <= ids.len(),
        forall|k: int| 0 <= k < ids.len() ==> job.workers@.contains_key(#[trigger] ids[k]),
    ensures
        match worker_flows(job, ids, n) {
            Ok(list) => {
                &&& forall|f: JobFlow|
                    #[trigger] list.contains(f) ==> exists|i: int|
                        has_event(job, f.src_worker_id, i) && is_sent_by(
                            job,
                            f.src_worker_id,
                            #[trigger] job.workers@[f.src_worker_id].templates()[i],
                            f,
                        )
                &&& forall|x: int, i: int, f: JobFlow|
                    0 <= x < n && has_event(job, ids[x], i) && #[trigger] is_sent_by(
                        job,
                        ids[x],
                        job.workers@[ids[x]].templates()[i],
                        f,
                    ) ==> list.contains(f)
                &&& forall|x: int, i: int|
                    0 <= x < n && #[trigger] has_event(job, ids[x], i) ==> !is_bad_send(
                        job,
                        ids[x],
                        job.workers@[ids[x]].templates()[i],
                    )
            },
            Err(_) => exists|x: int, i: int|
                0 <= x < n && #[trigger] has_event(job, ids[x], i) && is_bad_send(
                    job,
                    ids[x],
                    job.workers@[ids[x]].templates()[i],
                ),
        },
    decreases n,
{
    if n > 0 {
        lemma_worker_flows(job, ids, (n - 1) as nat);
        match worker_flows(job, ids, (n - 1) as nat) {
            Err(_) => {
                let (x, i) = choose|x: int, i: int|
                    0 <= x < n - 1 && #[trigger] has_event(job, ids[x], i) && is_bad_send(
                        job,
                        ids[x],
                        job.workers@[ids[x]].templates()[i],
                    );
                assert(0 <= x < n && has_event(job, ids[x], i));
            },
            Ok(rest) => {
                let w = ids[n - 1];
                let t = job.workers@[w].templates();
                lemma_with_sends(rest, job, w, t.len());
                match worker_flows(job, ids, n) {
                    Err(_) => {
                        let i = choose|i: int| 0 <= i < t.len() && is_bad_send(job, w, #[trigger] t[i]);
                        assert(has_event(job, ids[n - 1], i));
                    },
                    Ok(list) => {
                        assert forall|f: JobFlow| #[trigger] list.contains(f) implies exists|i: int|
                            has_event(job, f.src_worker_id, i) && is_sent_by(
                                job,
                                f.src_worker_id,
                                #[trigger] job.workers@[f.src_worker_id].templates()[i],
                                f,
                            ) by {
                            if rest.contains(f) {
                            } else {
                                let i = choose|i: int| 0 <= i < t.len() && is_sent_by(job, w, #[trigger] t[i], f);
                                assert(has_event(job, f.src_worker_id, i));
                                assert(is_sent_by(
                                    job,
                                    f.src_worker_id,
                                    job.workers@[f.src_worker_id].templates()[i],
                                    f,
                                ));
                            }
                        }
                    },
                }
            },
        }
    }
}

proof fn lemma_with_indexed(list: Seq<JobFlow>, f: JobFlow)
    requires
        forall|a: int, b: int| 0 <= a < b < list.len() ==> list[a].job_flow_idx <= list[b].job_flow_idx,
    ensures
        ({
            let r = with_indexed(list, f);
            &&& r.to_multiset() == list.to_multiset().insert(f)
            &&& forall|a: int, b: int| 0 <= a < b < r.len() ==> r[a].job_flow_idx <= r[b].job_flow_idx
            &&& r.len() == list.len() + 1
            &&& r.last() == f || (list.len() > 0 && r.last() == list.last())
            &&& r.last().job_flow_idx >= f.job_flow_idx
        }),
    decreases list.len(),
{
    broadcast use vstd::seq_lib::group_to_multiset_ensures;

    if list.len() == 0 || list.last().job_flow_idx <= f.job_flow_idx {
    } else {
        let short = list.drop_last();
        lemma_with_indexed(short, f);
        assert(list =~= short.push(list.last()));
    }
}

proof fn lemma_by_index(list: Seq<JobFlow>, n: nat)
    requires
        n <= list.len(),
    ensures
        by_index(list, n).to_multiset() == list.take(n as int).to_multiset(),
        forall|a: int, b: int|
            0 <= a < b < by_index(list, n).len() ==> by_index(list, n)[a].job_flow_idx <= by_index(list, n)[b].job_flow_idx,
    decreases n,
{
    broadcast use vstd::seq_lib::group_to_multiset_ensures;

    if n > 0 {
        lemma_by_index(list, (n - 1) as nat);
        lemma_with_indexed(by_index(list, (n - 1) as nat), list[n - 1]);
        assert(list.take(n as int) =~= list.take(n - 1).push(list[n - 1]));
    } else {
        assert(list.take(0) =~= Seq::empty());
    }
}

/// The flows of a job are those of its sends, by their indices, unless a send is not as it should be.
pub proof fn lemma_flows_of_sends(job: MLJob)
    requires
        job.workers@.dom().finite(),
    ensures
        match job_flows(job) {
            Ok(list) => {
                &&& forall|f: JobFlow|
                    #[trigger] list.contains(f) ==> exists|i: int|
                        has_event(job, f.src_worker_id, i) && is_sent_by(
                            job,
                            f.src_worker_id,
                            #[trigger] job.workers@[f.src_worker_id].templates()[i],
                            f,
                        )
                &&& forall|w: WorkerId, i: int, f: JobFlow|
                    has_event(job, w, i) && #[trigger] is_sent_by(job, w, job.workers@[w].templates()[i], f) ==> list.contains(f)
                &&& forall|w: WorkerId, i: int|
                    #[trigger] has_event(job, w, i) ==> !is_bad_send(job, w, job.workers@[w].templates()[i])
                &&& forall|a: int, b: int| 0 <= a < b < list.len() ==> list[a].job_flow_idx <= list[b].job_flow_idx
            },
            Err(_) => exists|w: WorkerId, i: int|
                #[trigger] has_event(job, w, i) && is_bad_send(job, w, job.workers@[w].templates()[i]),
        },
{
    broadcast use vstd::seq_lib::group_to_multiset_ensures;

    let ids = ascending(job.workers@.dom());
    lemma_ascending_lists(job.workers@.dom());
    assert forall|k: int| 0 <= k < ids.len() implies job.workers@.contains_key(#[trigger] ids[k]) by {
        assert(ids.to_set().contains(ids[k]));
    }
    lemma_worker_flows(job, ids, ids.len());
    match worker_flows(job, ids, ids.len()) {
        Err(_) => {
            let (x, i) = choose|x: int, i: int|
                0 <= x < ids.len() && #[trigger] has_event(job, ids[x], i) && is_bad_send(
                    job,
                    ids[x],
                    job.workers@[ids[x]].templates()[i],
                );
            assert(has_event(job, ids[x], i));
        },
        Ok(all) => {
            let list = by_index(all, all.len());
            lemma_by_index(all, all.len());
            assert(all.take(all.len() as int) =~= all);
            assert forall|f: JobFlow| #[trigger] list.contains(f) == all.contains(f) by {
                assert(list.contains(f) == (list.to_multiset().count(f) > 0));
                assert(all.contains(f) == (all.to_multiset().count(f) > 0));
            }
            assert forall|w: WorkerId, i: int, f: JobFlow|
                has_event(job, w, i) && #[trigger] is_sent_by(job, w, job.workers@[w].templates()[i], f) implies list.contains(f) by {
                assert(job.workers@.dom().contains(w));
                assert(ids.contains(w));
                let x = choose|x: int| 0 <= x < ids.len() && ids[x] == w;
                assert(is_sent_by(job, ids[x], job.workers@[ids[x]].templates()[i], f));
                assert(all.contains(f));
            }
            assert forall|w: WorkerId, i: int| #[trigger] has_event(job, w, i) implies !is_bad_send(
                job,
                w,
                job.workers@[w].templates()[i],
            ) by {
                assert(job.workers@.dom().contains(w));
                assert(ids.contains(w));
                let x = choose|x: int| 0 <= x < ids.len() && ids[x] == w;
                assert(has_event(job, ids[x], i));
            }
        },
    }
}

} // verus!
