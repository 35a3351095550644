//! Which job is on which host, and in which order jobs get hosts.

use vstd::prelude::*;

use crate::network::{Arrival, NetworkSimulator};
use crate::simulator::context::{lemma_set_at, placement_views};
use crate::simulator::flow_scheduler::FlowScheduler;
use crate::simulator::job_scheduler::{available, placed_on, JobScheduler};
use crate::simulator::migration::{
    current_host, entry_moves, job_moved, job_moves, job_released, job_relocated, pending_targets,
};
use crate::simulator::ml_job::{ascending, is_host_of, placed_hosts, JobState, MLJob};
use crate::simulator::ml_simulator::{job_statistics, transfer_arrivals, MLSimulator};
use crate::simulator::ml_worker::{JobId, WorkerId};
use crate::simulator::progress::lemma_ascending_lists;
use crate::simulator::sim_state::{admitted, SimState};
use crate::simulator::system::{SystemModule, WorkerMigrationInfo};

verus! {

/// The listed hosts of a placement are those of its workers.
proof fn lemma_placed(hosts: Map<WorkerId, usize>, h: usize)
    requires
        hosts.dom().finite(),
    ensures
        placed_hosts(hosts).contains(h) == is_host_of(hosts, h),
{
    let ids = ascending(hosts.dom());
    let list = placed_hosts(hosts);
    lemma_ascending_lists(hosts.dom());
    if list.contains(h) {
        let i = choose|i: int| 0 <= i < list.len() && list[i] == h;
        assert(ids.to_set().contains(ids[i]));
        assert(hosts.contains_key(ids[i]) && hosts[ids[i]] == h);
    }
    if is_host_of(hosts, h) {
        let w = choose|w: WorkerId| #[trigger] hosts.contains_key(w) && hosts[w] == h;
        assert(hosts.dom().contains(w));
        let i = choose|i: int| 0 <= i < ids.len() && ids[i] == w;
        assert(list[i] == h);
    }
}

proof fn lemma_set_at_hosts<T>(s: Seq<T>, hosts: Map<WorkerId, usize>, v: T, h: int)
    requires
        hosts.dom().finite(),
        0 <= h < s.len() <= usize::MAX,
    ensures
        crate::simulator::context::set_at(s, placed_hosts(hosts), v, placed_hosts(hosts).len())[h] == if is_host_of(
            hosts,
            h as usize,
        ) {
            v
        } else {
            s[h]
        },
        crate::simulator::context::set_at(s, placed_hosts(hosts), v, placed_hosts(hosts).len()).len() == s.len(),
{
    let list = placed_hosts(hosts);
    lemma_set_at(s, list, v, list.len());
    lemma_placed(hosts, h as usize);
    if list.contains(h as usize) {
        let i = choose|i: int| 0 <= i < list.len() && list[i] == h as usize;
        assert(0 <= i < list.len() && list[i] == h);
    } else {
        assert forall|i: int| 0 <= i < list.len() implies #[trigger] list[i] != h by {
            if list[i] == h {
                assert(list[i] == h as usize);
            }
        }
    }
}

/// A placed job takes the hosts of its workers, and no others: they are busy and belong to it. It runs from now on.
pub proof fn lemma_takes_its_hosts(before: &SimState, after: &SimState, job_id: JobId, h: int)
    requires
        admitted(before, after, job_id),
        before.jobs@[job_id].worker_to_host@.dom().finite(),
        before.host_busy@.len() == before.host_assignment@.len(),
        0 <= h < before.host_busy@.len() <= usize::MAX,
    ensures
        after.host_busy@.len() == before.host_busy@.len(),
        is_host_of(before.jobs@[job_id].worker_to_host@, h as usize) ==> after.host_busy@[h] && after.host_assignment@[h]
            == Some(job_id),
        !is_host_of(before.jobs@[job_id].worker_to_host@, h as usize) ==> after.host_busy@[h] == before.host_busy@[h]
            && after.host_assignment@[h] == before.host_assignment@[h],
        after.jobs@[job_id].state == JobState::Running,
        after.jobs@[job_id].start_time_us == Some(before.now_us),
        after.jobs@[job_id].worker_to_host == before.jobs@[job_id].worker_to_host,
        after.jobs@[job_id].workers == before.jobs@[job_id].workers,
        after.active_jobs@.contains(job_id),
        placement_views(after.context.placements@).contains_key(job_id),
        placement_views(after.context.placements@)[job_id] == before.jobs@[job_id].worker_to_host@,
        forall|j: JobId| #[trigger] before.jobs@.contains_key(j) && j != job_id ==> after.jobs@[j] == before.jobs@[j],
{
    let hosts = before.jobs@[job_id].worker_to_host@;
    lemma_set_at_hosts(before.host_busy@, hosts, true, h);
    lemma_set_at_hosts(before.host_assignment@, hosts, Some(job_id), h);
}

/// A job that is done leaves the hosts of its workers that belong to it, and no others.
pub proof fn lemma_leaves_its_hosts(before: &SimState, after: &SimState, job_id: JobId, h: int)
    requires
        job_released(before, after, job_id),
        before.jobs@[job_id].worker_to_host@.dom().finite(),
        before.host_busy@.len() == before.host_assignment@.len(),
        0 <= h < before.host_busy@.len() <= usize::MAX,
    ensures
        after.host_busy@.len() == before.host_busy@.len(),
        ({
            let its = is_host_of(before.jobs@[job_id].worker_to_host@, h as usize) && before.host_assignment@[h] == Some(
                job_id,
            );
            &&& its ==> !after.host_busy@[h] && after.host_assignment@[h] is None
            &&& !its ==> after.host_busy@[h] == before.host_busy@[h] && after.host_assignment@[h]
                == before.host_assignment@[h]
        }),
        !after.active_jobs@.contains(job_id),
        !after.context.placements@.contains_key(job_id),
        forall|j: JobId| j != job_id ==> #[trigger] after.active_jobs@.contains(j) == before.active_jobs@.contains(j),
{
    lemma_placed(before.jobs@[job_id].worker_to_host@, h as usize);
}

/// A job that takes free hosts and then leaves them leaves all hosts as they were.
pub proof fn lemma_hosts_come_back(before: &SimState, mid: &SimState, after: &SimState, job_id: JobId, h: int)
    requires
        admitted(before, mid, job_id),
        job_released(mid, after, job_id),
        before.wf(),
        before.jobs@[job_id].worker_to_host@.dom().finite(),
        0 <= h < before.host_busy@.len() <= usize::MAX,
        is_host_of(before.jobs@[job_id].worker_to_host@, h as usize) ==> !before.host_busy@[h],
        before.host_assignment@[h] != Some(job_id),
    ensures
        after.host_busy@[h] == before.host_busy@[h],
        after.host_assignment@[h] == before.host_assignment@[h],
{
    lemma_takes_its_hosts(before, mid, job_id, h);
    lemma_takes_its_hosts(before, mid, job_id, 0);
    let hosts = before.jobs@[job_id].worker_to_host@;
    lemma_set_at_hosts(before.host_assignment@, hosts, Some(job_id), h);
    lemma_leaves_its_hosts(mid, after, job_id, h);
    assert(before.host_busy@[h] == (before.host_assignment@[h] is Some));
}

/// A job is put on free hosts, worker by worker, in the order in which the scheduler lists them; nothing else changes.
pub proof fn lemma_placed_on_free_hosts<S: JobScheduler, FS: FlowScheduler, M: SystemModule<S, FS>, N: NetworkSimulator>(
    before: MLSimulator<S, FS, M, N>,
    after: MLSimulator<S, FS, M, N>,
    job_id: JobId,
    hosts: Seq<usize>,
    w: WorkerId,
)
    requires
        before.places(after, job_id, hosts),
        w < hosts.len(),
    ensures
        before.scheduler.chooses(
            before.state.jobs@[job_id].id,
            before.state.jobs@[job_id].num_workers,
            before.state.host_busy@,
            hosts,
        ),
        hosts.len() == before.state.jobs@[job_id].num_workers,
        hosts[w as int] < before.state.host_busy@.len(),
        !before.state.host_busy@[hosts[w as int] as int],
        after.state.jobs@[job_id].worker_to_host@[w] == hosts[w as int],
        before.state.jobs@[job_id].workers@.contains_key(w) ==> after.state.jobs@[job_id].workers@[w].host_index
            == hosts[w as int],
        forall|j: JobId| #[trigger]
            before.state.jobs@.contains_key(j) && j != job_id ==> after.state.jobs@[j] == before.state.jobs@[j],
        after.state.host_busy == before.state.host_busy,
{
    let job = before.state.jobs@[job_id];
    assert(available(hosts, before.state.host_busy@));
    assert(hosts[w as int] < before.state.host_busy@.len());
    assert(placed_on(&job, &after.state.jobs@[job_id], hosts));
}

/// Jobs are served in the order in which they wait: those that have been served were the first, and those that
/// still wait keep their order.
proof fn lemma_queue_served<S: JobScheduler, FS: FlowScheduler, M: SystemModule<S, FS>, N: NetworkSimulator>(
    before: MLSimulator<S, FS, M, N>,
    after: MLSimulator<S, FS, M, N>,
    queue: Seq<JobId>,
    k: nat,
)
    requires
        before.serves_jobs(after, queue, k),
        before.scheduler.queue() == queue,
        k <= queue.len(),
    ensures
        after.scheduler.queue() == queue.skip(k as int),
    decreases k,
{
    if k == 0 {
        assert(queue.skip(0) =~= queue);
    } else {
        let last = queue[k - 1];
        let mid = choose|mid: MLSimulator<S, FS, M, N>|
            before.serves_jobs(mid, queue, (k - 1) as nat) && #[trigger] mid.serves_first(after, last);
        lemma_queue_served(before, mid, queue, (k - 1) as nat);
        if mid.awaits_place(last) {
            let m = choose|m: MLSimulator<S, FS, M, N>| #[trigger] mid.launches(m, last, false) && m.dequeues(after);
            lemma_launch_keeps_queue(mid, m, last, false);
            assert(m.scheduler.queue() == mid.scheduler.queue());
        }
        assert(queue.skip(k - 1).skip(1) =~= queue.skip(k as int));
    }
}

proof fn lemma_launch_keeps_queue<S: JobScheduler, FS: FlowScheduler, M: SystemModule<S, FS>, N: NetworkSimulator>(
    before: MLSimulator<S, FS, M, N>,
    after: MLSimulator<S, FS, M, N>,
    job_id: JobId,
    on_arrival: bool,
)
    requires
        before.launches(after, job_id, on_arrival),
    ensures
        after.scheduler.queue() == before.scheduler.queue(),
{
    let (hosts, placed) = choose|hosts: Seq<usize>, placed: MLSimulator<S, FS, M, N>| #[trigger]
        before.places(placed, job_id, hosts) && placed.starts_job(after, job_id, on_arrival);
    placed.lemma_start_keeps_scheduling(after, job_id, on_arrival);
}

/// When waiting jobs are served, a first part of the queue leaves it and the rest keeps its order. Nobody is passed
/// over: if jobs still wait and none are about to move, there is no place for the first of them.
pub proof fn lemma_first_come_first_served<S: JobScheduler, FS: FlowScheduler, M: SystemModule<S, FS>, N: NetworkSimulator>(
    before: MLSimulator<S, FS, M, N>,
    after: MLSimulator<S, FS, M, N>,
)
    requires
        before.serves(after),
    ensures
        exists|k: nat|
            {
                &&& k <= before.scheduler.queue().len()
                &&& after.scheduler.queue() == #[trigger] before.scheduler.queue().skip(k as int)
            },
        !before.state.migration_pending() && after.scheduler.queue().len() > 0 ==> after.awaits_place(
            after.scheduler.queue()[0],
        ) && !after.finds_place(after.scheduler.queue()[0]),
{
    let queue = before.scheduler.queue();
    if before.state.migration_pending() {
        assert(queue.skip(0nat as int) =~= queue);
    } else {
        let (k, mid) = choose|k: nat, mid: MLSimulator<S, FS, M, N>|
            {
                &&& k <= queue.len()
                &&& #[trigger] before.serves_jobs(mid, queue, k)
                &&& mid.unchanged(after)
                &&& k < queue.len() ==> mid.awaits_place(queue[k as int]) && !mid.finds_place(queue[k as int])
            };
        lemma_queue_served(before, mid, queue, k);
        assert(after.scheduler.queue() == queue.skip(k as int));
        if after.scheduler.queue().len() > 0 {
            assert(queue.skip(k as int)[0] == queue[k as int]);
            assert(mid.scheduler.fits(
                mid.state.jobs@[queue[k as int]].id,
                mid.state.jobs@[queue[k as int]].num_workers,
                mid.state.host_busy@,
            ) == after.scheduler.fits(
                after.state.jobs@[queue[k as int]].id,
                after.state.jobs@[queue[k as int]].num_workers,
                after.state.host_busy@,
            ));
        }
    }
}

/// A job that arrives waits behind all that wait already. If none waits and there is a place for it, it is launched;
/// if there is none, it waits alone and nothing else changes.
pub proof fn lemma_arrival<S: JobScheduler, FS: FlowScheduler, M: SystemModule<S, FS>, N: NetworkSimulator>(
    before: MLSimulator<S, FS, M, N>,
    after: MLSimulator<S, FS, M, N>,
    job_id: JobId,
)
    requires
        before.arrives(after, job_id),
        before.state.jobs@.contains_key(job_id),
    ensures
        before.state.jobs_migrating@.len() > 0 && before.state.jobs_migrating@.finite() ==> after.scheduler.queue()
            == before.scheduler.queue().push(job_id) && after.state == before.state,
        before.state.jobs_migrating@ == Set::<JobId>::empty() && before.scheduler.queue().len() > 0 ==> exists|k: nat|
            {
                &&& k <= before.scheduler.queue().len() + 1
                &&& after.scheduler.queue() == #[trigger] before.scheduler.queue().push(job_id).skip(k as int)
            },
        before.state.jobs_migrating@ == Set::<JobId>::empty() && before.scheduler.queue().len() == 0
            && before.finds_place(job_id) ==> before.launches(after, job_id, true) && after.scheduler.queue().len() == 0,
        before.state.jobs_migrating@ == Set::<JobId>::empty() && before.scheduler.queue().len() == 0
            && !before.finds_place(job_id) ==> after.scheduler.queue() == seq![job_id] && after.state.jobs@
            == before.state.jobs@ && after.state.host_busy == before.state.host_busy,
{
    if before.state.jobs_migrating@ == Set::<JobId>::empty() {
        if before.scheduler.queue().len() > 0 {
            let mid = choose|mid: MLSimulator<S, FS, M, N>| #[trigger] before.queues(mid, job_id) && mid.serves(after);
            lemma_first_come_first_served(mid, after);
            let k = choose|k: nat|
                {
                    &&& k <= mid.scheduler.queue().len()
                    &&& after.scheduler.queue() == #[trigger] mid.scheduler.queue().skip(k as int)
                };
            assert(after.scheduler.queue() == before.scheduler.queue().push(job_id).skip(k as int));
        } else if !before.finds_place(job_id) {
            let mid = choose|mid: MLSimulator<S, FS, M, N>| #[trigger] before.unchanged(mid) && mid.queues(after, job_id);
            assert(before.scheduler.queue().push(job_id) =~= seq![job_id]);
        }
    }
}

/// A worker that is to move does so from the host where it is to the host that the plan has for it; a worker that is
/// there already does not move. What moves with it is what it sends in an iteration.
pub proof fn lemma_moves_of_entry(
    placements: Map<JobId, Map<WorkerId, usize>>,
    jobs: Map<JobId, MLJob>,
    job_id: JobId,
    targets: Map<WorkerId, usize>,
)
    requires
        targets.dom().finite(),
        jobs.contains_key(job_id),
    ensures
        ({
            let moves = entry_moves(placements, jobs, job_id, targets);
            &&& forall|i: int| 0 <= i < moves.len() ==> is_move(placements, jobs[job_id], job_id, targets, #[trigger] moves[i])
            &&& forall|w: WorkerId| #[trigger]
                targets.contains_key(w) && is_elsewhere(placements, jobs[job_id], job_id, w, targets[w]) ==> exists|i: int|
                    0 <= i < moves.len() && (#[trigger] moves[i]).worker_id == w
            &&& forall|i: int, j: int|
                0 <= i < j < moves.len() ==> (#[trigger] moves[i]).worker_id < (#[trigger] moves[j]).worker_id
        }),
{
    let ids = ascending(targets.dom());
    lemma_ascending_lists(targets.dom());
    lemma_job_moves(placements, jobs[job_id], job_id, targets, ids, ids.len());
    let moves = entry_moves(placements, jobs, job_id, targets);
    assert forall|w: WorkerId| #[trigger]
        targets.contains_key(w) && is_elsewhere(placements, jobs[job_id], job_id, w, targets[w]) implies exists|i: int|
        0 <= i < moves.len() && (#[trigger] moves[i]).worker_id == w by {
        assert(targets.dom().contains(w));
        let k = choose|k: int| 0 <= k < ids.len() && ids[k] == w;
        assert(is_elsewhere(placements, jobs[job_id], job_id, ids[k], targets[ids[k]]));
    }
}

/// The worker is known to be on another host: the placements have it there, or, if they do not have it, the worker.
pub open spec fn is_elsewhere(
    placements: Map<JobId, Map<WorkerId, usize>>,
    job: MLJob,
    job_id: JobId,
    w: WorkerId,
    target: usize,
) -> bool {
    if placements.contains_key(job_id) && placements[job_id].contains_key(w) {
        placements[job_id][w] != target
    } else {
        job.workers@.contains_key(w) && job.workers@[w].host_index != target
    }
}

/// The move of a worker.
pub open spec fn is_move(
    placements: Map<JobId, Map<WorkerId, usize>>,
    job: MLJob,
    job_id: JobId,
    targets: Map<WorkerId, usize>,
    m: WorkerMigrationInfo,
) -> bool {
    &&& m.job_id == job_id
    &&& targets.contains_key(m.worker_id)
    &&& m.dst_host == targets[m.worker_id]
    &&& m.src_host != m.dst_host
    &&& placements.contains_key(job_id) && placements[job_id].contains_key(m.worker_id) ==> m.src_host
        == placements[job_id][m.worker_id]
    &&& !(placements.contains_key(job_id) && placements[job_id].contains_key(m.worker_id)) && job.workers@.contains_key(
        m.worker_id,
    ) ==> m.src_host == job.workers@[m.worker_id].host_index
    &&& job.workers@.contains_key(m.worker_id) ==> m.model_size_bytes
        == crate::simulator::context::iteration_bytes(job.workers@[m.worker_id])
}

proof fn lemma_job_moves(
    placements: Map<JobId, Map<WorkerId, usize>>,
    job: MLJob,
    job_id: JobId,
    targets: Map<WorkerId, usize>,
    ids: Seq<WorkerId>,
    n: nat,
)
    requires
        n <= ids.len(),
        crate::utils::data::strictly_ascending(ids),
        ids.to_set() == targets.dom(),
    ensures
        ({
            let moves = job_moves(placements, job, job_id, targets, ids, n);
            &&& forall|i: int| 0 <= i < moves.len() ==> is_move(placements, job, job_id, targets, #[trigger] moves[i])
            &&& forall|i: int|
                0 <= i < moves.len() ==> exists|k: int| 0 <= k < n && (#[trigger] moves[i]).worker_id == #[trigger] ids[k]
            &&& forall|k: int|
                0 <= k < n && is_elsewhere(placements, job, job_id, #[trigger] ids[k], targets[ids[k]]) ==> exists|i: int|
                    0 <= i < moves.len() && (#[trigger] moves[i]).worker_id == ids[k]
            &&& forall|i: int, j: int|
                0 <= i < j < moves.len() ==> (#[trigger] moves[i]).worker_id < (#[trigger] moves[j]).worker_id
        }),
    decreases n,
{
    if n > 0 {
        lemma_job_moves(placements, job, job_id, targets, ids, (n - 1) as nat);
        let before = job_moves(placements, job, job_id, targets, ids, (n - 1) as nat);
        let after = job_moves(placements, job, job_id, targets, ids, n);
        let w = ids[n - 1];
        assert(ids.to_set().contains(w));
        let moves_too = current_host(placements, job, job_id, w) != targets[w];
        assert forall|i: int| 0 <= i < after.len() implies exists|k: int|
            0 <= k < n && (#[trigger] after[i]).worker_id == #[trigger] ids[k] by {
            if i < before.len() {
                assert(after[i] == before[i]);
                let k = choose|k: int| 0 <= k < n - 1 && before[i].worker_id == #[trigger] ids[k];
                assert(after[i].worker_id == ids[k]);
            } else {
                assert(after[i].worker_id == ids[n - 1]);
            }
        }
        assert forall|k: int|
            0 <= k < n && is_elsewhere(placements, job, job_id, #[trigger] ids[k], targets[ids[k]]) implies exists|i: int|
            0 <= i < after.len() && (#[trigger] after[i]).worker_id == ids[k] by {
            if k < n - 1 {
                let i = choose|i: int| 0 <= i < before.len() && (#[trigger] before[i]).worker_id == ids[k];
                assert(after[i] == before[i]);
            } else {
                assert(after[before.len() as int].worker_id == w);
            }
        }
        assert forall|i: int, j: int| 0 <= i < j < after.len() implies (#[trigger] after[i]).worker_id < (
        #[trigger] after[j]).worker_id by {
            if j < before.len() {
                assert(after[i] == before[i] && after[j] == before[j]);
            } else {
                assert(after[i] == before[i]);
                let k = choose|k: int| 0 <= k < n - 1 && before[i].worker_id == #[trigger] ids[k];
                assert(ids[k] < ids[n - 1]);
            }
        }
    }
}

/// The data of a worker that moves goes through the network from the host that it leaves to the host that it goes to;
/// a worker that stays or has no data sends nothing.
pub proof fn lemma_transfers_of_moves(moves: Seq<WorkerMigrationInfo>, now_us: u64, n: nat)
    requires
        n <= moves.len(),
    ensures
        forall|k: int|
            0 <= k < transfer_arrivals(moves, now_us, n).len() ==> exists|i: int|
                0 <= i < n && is_transfer_of(#[trigger] transfer_arrivals(moves, now_us, n)[k], #[trigger] moves[i], now_us),
        forall|i: int|
            0 <= i < n && (#[trigger] moves[i]).src_host != moves[i].dst_host && moves[i].model_size_bytes > 0 ==> exists|
                k: int,
            |
                0 <= k < transfer_arrivals(moves, now_us, n).len() && is_transfer_of(
                    #[trigger] transfer_arrivals(moves, now_us, n)[k],
                    moves[i],
                    now_us,
                ),
    decreases n,
{
    if n > 0 {
        lemma_transfers_of_moves(moves, now_us, (n - 1) as nat);
        let before = transfer_arrivals(moves, now_us, (n - 1) as nat);
        let after = transfer_arrivals(moves, now_us, n);
        assert forall|k: int| 0 <= k < after.len() implies exists|i: int|
            0 <= i < n && is_transfer_of(#[trigger] after[k], #[trigger] moves[i], now_us) by {
            if k < before.len() {
                assert(after[k] == before[k]);
                let i = choose|i: int| 0 <= i < n - 1 && is_transfer_of(before[k], #[trigger] moves[i], now_us);
                assert(is_transfer_of(after[k], moves[i], now_us));
            } else {
                assert(is_transfer_of(after[k], moves[n - 1], now_us));
            }
        }
        assert forall|i: int|
            0 <= i < n && (#[trigger] moves[i]).src_host != moves[i].dst_host && moves[i].model_size_bytes > 0 implies exists|
            k: int,
        | 0 <= k < after.len() && is_transfer_of(#[trigger] after[k], moves[i], now_us) by {
            if i < n - 1 {
                let k = choose|k: int| 0 <= k < before.len() && is_transfer_of(#[trigger] before[k], moves[i], now_us);
                assert(after[k] == before[k]);
            } else {
                assert(is_transfer_of(after[before.len() as int], moves[i], now_us));
            }
        }
    }
}

/// The transfer of the data of a worker that moves.
pub open spec fn is_transfer_of(a: Arrival, m: WorkerMigrationInfo, now_us: u64) -> bool {
    &&& a.src_host == m.src_host
    &&& a.dst_host == m.dst_host
    &&& a.size_bytes == m.model_size_bytes
    &&& a.now_us == now_us
    &&& m.src_host != m.dst_host && m.model_size_bytes > 0
}

/// A job that has moved is on the hosts that the plan has for its workers, and where the plan has none, on those
/// that it had. These are its own. Of those that it had it keeps none else, unless the plan moves a job there.
pub proof fn lemma_moved_job(before: &SimState, after: &SimState, job_id: JobId, moves: Map<WorkerId, usize>, h: int)
    requires
        job_relocated(before, after, job_id, moves),
        before.jobs@[job_id].worker_to_host@.dom().finite(),
        after.jobs@[job_id].worker_to_host@.dom().finite(),
        before.host_busy@.len() == before.host_assignment@.len(),
        0 <= h < before.host_busy@.len() <= usize::MAX,
    ensures
        forall|w: WorkerId| #[trigger]
            moves.contains_key(w) ==> after.jobs@[job_id].worker_to_host@.contains_key(w)
                && after.jobs@[job_id].worker_to_host@[w] == moves[w],
        forall|w: WorkerId| #[trigger]
            before.jobs@[job_id].worker_to_host@.contains_key(w) && !moves.contains_key(w)
                ==> after.jobs@[job_id].worker_to_host@.contains_key(w) && after.jobs@[job_id].worker_to_host@[w]
                == before.jobs@[job_id].worker_to_host@[w],
        forall|w: WorkerId| #[trigger]
            before.jobs@[job_id].workers@.contains_key(w) && after.jobs@[job_id].worker_to_host@.contains_key(w)
                ==> after.jobs@[job_id].workers@[w].host_index == after.jobs@[job_id].worker_to_host@[w],
        ({
            let old_hosts = before.jobs@[job_id].worker_to_host@;
            let new_hosts = after.jobs@[job_id].worker_to_host@;
            &&& is_host_of(new_hosts, h as usize) ==> after.host_busy@[h] && after.host_assignment@[h] == Some(job_id)
            &&& !is_host_of(new_hosts, h as usize) && is_host_of(old_hosts, h as usize) && !pending_targets(
                before.pending_migration,
            ).contains(h as usize) ==> !after.host_busy@[h] && after.host_assignment@[h] is None
            &&& !is_host_of(new_hosts, h as usize) && !is_host_of(old_hosts, h as usize) ==> after.host_busy@[h]
                == before.host_busy@[h] && after.host_assignment@[h] == before.host_assignment@[h]
        }),
{
    let job0 = before.jobs@[job_id];
    let job1 = after.jobs@[job_id];
    assert(job_moved(job0, job1, moves));
    lemma_placed(job0.worker_to_host@, h as usize);
    let targets = pending_targets(before.pending_migration);
    let old_hosts = placed_hosts(job0.worker_to_host@);
    let left = |x: int| crate::simulator::migration::vacates(old_hosts, targets, x);
    lemma_set_at_hosts(
        crate::simulator::migration::set_where(before.host_busy@, false, left),
        job1.worker_to_host@,
        true,
        h,
    );
    lemma_set_at_hosts(
        crate::simulator::migration::set_where(before.host_assignment@, None, left),
        job1.worker_to_host@,
        Some(job_id),
        h,
    );
}

/// The statistics have an entry for each complete job and for no other, in the order of the list: when it was
/// submitted, started and completed.
pub proof fn lemma_statistics(jobs: Map<JobId, MLJob>, ids: Seq<JobId>, n: nat)
    requires
        n <= ids.len(),
    ensures
        forall|k: int|
            0 <= k < job_statistics(jobs, ids, n).len() ==> exists|i: int|
                0 <= i < n && is_entry_of(#[trigger] job_statistics(jobs, ids, n)[k], jobs[#[trigger] ids[i]]),
        forall|i: int|
            0 <= i < n && jobs[#[trigger] ids[i]].state == JobState::Completed ==> exists|k: int|
                0 <= k < job_statistics(jobs, ids, n).len() && is_entry_of(
                    #[trigger] job_statistics(jobs, ids, n)[k],
                    jobs[ids[i]],
                ),
    decreases n,
{
    if n > 0 {
        lemma_statistics(jobs, ids, (n - 1) as nat);
        let before = job_statistics(jobs, ids, (n - 1) as nat);
        let after = job_statistics(jobs, ids, n);
        assert forall|k: int| 0 <= k < after.len() implies exists|i: int|
            0 <= i < n && is_entry_of(#[trigger] after[k], jobs[#[trigger] ids[i]]) by {
            if k < before.len() {
                assert(after[k] == before[k]);
                let i = choose|i: int| 0 <= i < n - 1 && is_entry_of(before[k], jobs[#[trigger] ids[i]]);
                assert(is_entry_of(after[k], jobs[ids[i]]));
            } else {
                assert(is_entry_of(after[k], jobs[ids[n - 1]]));
            }
        }
        assert forall|i: int| 0 <= i < n && jobs[#[trigger] ids[i]].state == JobState::Completed implies exists|k: int|
            0 <= k < after.len() && is_entry_of(#[trigger] after[k], jobs[ids[i]]) by {
            if i < n - 1 {
                let k = choose|k: int| 0 <= k < before.len() && is_entry_of(#[trigger] before[k], jobs[ids[i]]);
                assert(after[k] == before[k]);
            } else {
                assert(is_entry_of(after[before.len() as int], jobs[ids[i]]));
            }
        }
    }
}

/// The entry of a complete job.
pub open spec fn is_entry_of(e: (JobId, u64, u64, Option<u64>), job: MLJob) -> bool {
    &&& job.state == JobState::Completed
    &&& e.0 == job.id
    &&& e.1 == job.submit_time_us
    &&& job.start_time_us is Some ==> e.2 == job.start_time_us->0
    &&& e.3 == job.completion_time_us
}

} // verus!
