//! Jobs leave their hosts, move to others, and wait for each other while they do.

use vstd::prelude::*;

use crate::simulator::context::{
    compute_iteration_bytes, iteration_bytes, lemma_set_at, neighbor_views, placement_views,
    put_placement, set_at, without_job, MLContext,
};
use crate::simulator::ml_job::{ascending, is_host_of, lemma_ascending, placed_hosts, MLJob};
use crate::simulator::ml_worker::{JobId, MLWorker, WorkerId};
use crate::simulator::ranks::lemma_rank_valid_kept;
use crate::simulator::sim_state::{
    busy_if_assigned, hosts_exist, job_changed, job_ok, jobs_ok, lemma_set_both, write_at, SimState,
};
use crate::simulator::system::{JobMigration, MigrationPlan, PendingJobMigration, WorkerMigrationInfo};
use crate::utils::data::{lemma_push_to_set, strictly_ascending, DHashMap, DHashSet};

verus! {

/// Host `h` is listed and belongs to the job.
pub open spec fn owns(hosts: Seq<usize>, assignment: Seq<Option<JobId>>, job_id: JobId, h: int) -> bool {
    hosts.contains(h as usize) && assignment[h] == Some(job_id)
}

/// `s` with `v` where `sel` holds.
pub open spec fn set_where<T>(s: Seq<T>, v: T, sel: spec_fn(int) -> bool) -> Seq<T> {
    Seq::new(
        s.len(),
        |h: int|
            if sel(h) {
                v
            } else {
                s[h]
            },
    )
}

/// The context once a job is gone from its hosts.
pub open spec fn context_releases(before: &MLContext, after: &MLContext, job_id: JobId, freed: spec_fn(int) -> bool) -> bool {
    &&& after.active_jobs@ == before.active_jobs@.remove(job_id)
    &&& after.placements@ == before.placements@.remove(job_id)
    &&& after.host_to_worker@ == set_where(before.host_to_worker@, None, freed)
    &&& neighbor_views(after.worker_send_neighbors@) == without_job(
        neighbor_views(before.worker_send_neighbors@),
        job_id,
    )
    &&& neighbor_views(after.worker_recv_neighbors@) == without_job(
        neighbor_views(before.worker_recv_neighbors@),
        job_id,
    )
    &&& *after == (MLContext {
        active_jobs: after.active_jobs,
        placements: after.placements,
        host_to_worker: after.host_to_worker,
        worker_send_neighbors: after.worker_send_neighbors,
        worker_recv_neighbors: after.worker_recv_neighbors,
        ..*before
    })
}

/// The same hosts appear among the first `i + 1` as among the first `i`, and the next one.
proof fn lemma_take_contains(s: Seq<usize>, i: int, x: usize)
    requires
        0 <= i < s.len(),
    ensures
        s.take(i + 1).contains(x) <==> s.take(i).contains(x) || x == s[i],
{
    let a = s.take(i);
    let b = s.take(i + 1);
    if a.contains(x) {
        let k = choose|k: int| 0 <= k < a.len() && a[k] == x;
        assert(b[k] == x);
    }
    assert(b[i] == s[i]);
    if b.contains(x) {
        let k = choose|k: int| 0 <= k < b.len() && b[k] == x;
        if k < i {
            assert(a[k] == x);
        }
    }
}

/// The job has left those of its hosts that were still its own, and the context shows it no more.
pub open spec fn job_released(before: &SimState, after: &SimState, job_id: JobId) -> bool {
    let hosts = placed_hosts(before.jobs@[job_id].worker_to_host@);
    let own = |h: int| owns(hosts, before.host_assignment@, job_id, h);
    &&& after.active_jobs@ == before.active_jobs@.remove(job_id)
    &&& after.host_busy@ == set_where(before.host_busy@, false, own)
    &&& after.host_assignment@ == set_where(before.host_assignment@, None, own)
    &&& context_releases(&before.context, &after.context, job_id, own)
    &&& *after == (SimState {
        active_jobs: after.active_jobs,
        host_busy: after.host_busy,
        host_assignment: after.host_assignment,
        context: after.context,
        ..*before
    })
}

impl SimState {
    /// A job that is done leaves those of its hosts that are still its own. A host that another job
    /// has taken over in a migration stays with that job.
    pub fn release_job(&mut self, job_id: JobId)
        requires
            old(self).wf(),
            old(self).jobs@.contains_key(job_id),
        ensures
            final(self).wf(),
            final(self).host_busy@.len() == old(self).host_busy@.len(),
            job_released(old(self), final(self), job_id),
    {
        self.active_jobs.remove(&job_id);
        self.context.active_jobs.remove(&job_id);
        let hosts = self.jobs.get(&job_id).unwrap().get_assigned_hosts();
        let ghost a0 = self.host_assignment@;
        let ghost own = |h: int| owns(hosts@, a0, job_id, h);
        proof {
            assert(self.host_busy@ =~= set_where(self.host_busy@, false, |h: int| owns(hosts@.take(0), a0, job_id, h)));
            assert(a0 =~= set_where(a0, None, |h: int| owns(hosts@.take(0), a0, job_id, h)));
            assert(self.context.host_to_worker@ =~= set_where(
                self.context.host_to_worker@,
                None,
                |h: int| owns(hosts@.take(0), a0, job_id, h),
            ));
        }
        let n: usize = self.host_busy.len();
        let mut i: usize = 0;
        while i < hosts.len()
            invariant
                i <= hosts.len(),
                a0 == old(self).host_assignment@,
                n == a0.len(),
                self.host_busy@.len() == a0.len(),
                self.host_assignment@.len() == a0.len(),
                self.context.host_to_worker@.len() == a0.len(),
                old(self).host_busy@.len() == a0.len(),
                old(self).context.host_to_worker@.len() == a0.len(),
                self.host_busy@ == set_where(
                    old(self).host_busy@,
                    false,
                    |h: int| owns(hosts@.take(i as int), a0, job_id, h),
                ),
                self.host_assignment@ == set_where(a0, None, |h: int| owns(hosts@.take(i as int), a0, job_id, h)),
                self.context.host_to_worker@ == set_where(
                    old(self).context.host_to_worker@,
                    None,
                    |h: int| owns(hosts@.take(i as int), a0, job_id, h),
                ),
                self.active_jobs@ == old(self).active_jobs@.remove(job_id),
                self.context.active_jobs@ == old(self).context.active_jobs@.remove(job_id),
                *self == (SimState {
                    active_jobs: self.active_jobs,
                    host_busy: self.host_busy,
                    host_assignment: self.host_assignment,
                    context: MLContext {
                        active_jobs: self.context.active_jobs,
                        host_to_worker: self.context.host_to_worker,
                        ..old(self).context
                    },
                    ..*old(self)
                }),
            decreases hosts.len() - i,
        {
            let host: usize = hosts[i];
            let ghost busy1 = self.host_busy@;
            let ghost assign1 = self.host_assignment@;
            let ghost h2w1 = self.context.host_to_worker@;
            proof {
                assert forall|h: int| #![trigger a0[h]]
                    0 <= h < a0.len() implies (hosts@.take(i + 1).contains(h as usize) <==> hosts@.take(
                    i as int,
                ).contains(h as usize) || h == host) by {
                    lemma_take_contains(hosts@, i as int, h as usize);
                }
            }
            let mine = host < n && match self.host_assignment[host] {
                Some(j) => j == job_id,
                None => false,
            };
            if mine {
                self.host_busy.set(host, false);
                self.host_assignment.set(host, None);
                self.context.host_to_worker.set(host, None);
            }
            proof {
                if host < n {
                    assert(assign1[host as int] == if owns(hosts@.take(i as int), a0, job_id, host as int) {
                        None
                    } else {
                        a0[host as int]
                    });
                }
                assert forall|h: int| 0 <= h < a0.len() implies #[trigger] self.host_busy@[h] == if owns(
                    hosts@.take(i + 1),
                    a0,
                    job_id,
                    h,
                ) {
                    false
                } else {
                    old(self).host_busy@[h]
                } by {
                    assert(a0[h] == a0[h]);
                    assert(busy1[h] == busy1[h]);
                    lemma_take_contains(hosts@, i as int, h as usize);
                }
                assert forall|h: int| 0 <= h < a0.len() implies #[trigger] self.host_assignment@[h] == if owns(
                    hosts@.take(i + 1),
                    a0,
                    job_id,
                    h,
                ) {
                    None
                } else {
                    a0[h]
                } by {
                    assert(assign1[h] == assign1[h]);
                    lemma_take_contains(hosts@, i as int, h as usize);
                }
                assert forall|h: int| 0 <= h < a0.len() implies #[trigger] self.context.host_to_worker@[h] == if owns(
                    hosts@.take(i + 1),
                    a0,
                    job_id,
                    h,
                ) {
                    None
                } else {
                    old(self).context.host_to_worker@[h]
                } by {
                    assert(h2w1[h] == h2w1[h]);
                    lemma_take_contains(hosts@, i as int, h as usize);
                }
                let sel = |h: int| owns(hosts@.take(i + 1), a0, job_id, h);
                assert(self.host_busy@ =~= set_where(old(self).host_busy@, false, sel));
                assert(self.host_assignment@ =~= set_where(a0, None, sel));
                assert(self.context.host_to_worker@ =~= set_where(old(self).context.host_to_worker@, None, sel));
            }
            i += 1;
        }
        proof {
            assert(hosts@.take(hosts@.len() as int) =~= hosts@);
        }
        self.context.placements.remove(&job_id);
        self.context.drop_neighbors(job_id);
    }
}

/// The position of the first of the `n` entries that is for the job.
pub open spec fn plan_position(plan: Seq<JobMigration>, job_id: JobId, n: nat) -> Option<int>
    decreases n,
{
    if n == 0 {
        None
    } else {
        match plan_position(plan, job_id, (n - 1) as nat) {
            Some(i) => Some(i),
            None => if plan[n - 1].job_id == job_id {
                Some(n - 1)
            } else {
                None
            },
        }
    }
}

/// The new hosts that the plan has for the job, in its first entry; none if it has no entry.
pub open spec fn plan_hosts(plan: Option<MigrationPlan>, job_id: JobId) -> Option<Map<WorkerId, usize>> {
    match plan {
        Some(p) => match plan_position(p.jobs@, job_id, p.jobs@.len()) {
            Some(i) => Some(p.jobs@[i].worker_to_host@),
            None => None,
        },
        None => None,
    }
}

/// The first `n` entries without those for the job.
pub open spec fn plan_without(plan: Seq<JobMigration>, job_id: JobId, n: nat) -> Seq<JobMigration>
    decreases n,
{
    if n == 0 {
        Seq::empty()
    } else if plan[n - 1].job_id == job_id {
        plan_without(plan, job_id, (n - 1) as nat)
    } else {
        plan_without(plan, job_id, (n - 1) as nat).push(plan[n - 1])
    }
}

/// The hosts that the first `n` entries move to.
pub open spec fn plan_targets(plan: Seq<JobMigration>, n: nat) -> Set<usize> {
    Set::new(
        |h: usize|
            exists|i: int, w: WorkerId|
                0 <= i < n && (#[trigger] plan[i].worker_to_host@.contains_key(w)) && plan[i].worker_to_host@[w] == h,
    )
}

/// The hosts that a pending plan moves to.
pub open spec fn pending_targets(plan: Option<MigrationPlan>) -> Set<usize> {
    match plan {
        Some(p) => plan_targets(p.jobs@, p.jobs@.len()),
        None => Set::empty(),
    }
}

/// Finds the first entry for a job.
pub fn find_in_plan(plan: &Option<MigrationPlan>, job_id: JobId) -> (r: Option<usize>)
    ensures
        match r {
            Some(i) => *plan matches Some(p) && i < p.jobs@.len() && plan_position(p.jobs@, job_id, p.jobs@.len())
                == Some(i as int),
            None => plan_hosts(*plan, job_id) is None,
        },
{
    match plan {
        Some(p) => {
            let mut found: Option<usize> = None;
            let mut i: usize = 0;
            while i < p.jobs.len()
                invariant
                    i <= p.jobs.len(),
                    match found {
                        Some(f) => f < i && plan_position(p.jobs@, job_id, i as nat) == Some(f as int),
                        None => plan_position(p.jobs@, job_id, i as nat) is None,
                    },
                decreases p.jobs.len() - i,
            {
                if found.is_none() && p.jobs[i].job_id == job_id {
                    found = Some(i);
                }
                i += 1;
            }
            found
        },
        None => None,
    }
}

/// A copy of the new hosts that the plan has for a job.
pub fn copy_plan_hosts(plan: &Option<MigrationPlan>, job_id: JobId) -> (r: Option<DHashMap<WorkerId, usize>>)
    ensures
        match r {
            Some(m) => plan_hosts(*plan, job_id) == Some(m@),
            None => plan_hosts(*plan, job_id) is None,
        },
{
    match find_in_plan(plan, job_id) {
        Some(i) => match plan {
            Some(p) => Some(p.jobs[i].worker_to_host.duplicate()),
            None => None,
        },
        None => None,
    }
}

/// The values of a table, in key order.
pub fn table_hosts(m: &DHashMap<WorkerId, usize>) -> (r: Vec<usize>)
    ensures
        r@ == placed_hosts(m@),
        forall|i: int| 0 <= i < r@.len() ==> is_host_of(m@, #[trigger] r@[i]),
        forall|w: WorkerId| #[trigger] m@.contains_key(w) ==> r@.contains(m@[w]),
{
    let ids = m.sorted_keys();
    proof {
        lemma_ascending(ids@, m@.dom());
    }
    let mut hosts: Vec<usize> = Vec::new();
    let mut i: usize = 0;
    while i < ids.len()
        invariant
            i <= ids.len(),
            ids@.to_set() == m@.dom(),
            hosts@.len() == i,
            forall|j: int| 0 <= j < i ==> hosts@[j] == m@[#[trigger] ids@[j]],
        decreases ids.len() - i,
    {
        proof {
            assert(ids@.to_set().contains(ids@[i as int]));
        }
        hosts.push(*m.get(&ids[i]).unwrap());
        i += 1;
    }
    proof {
        assert(hosts@ =~= placed_hosts(m@));
        assert forall|k: int| 0 <= k < hosts@.len() implies is_host_of(m@, #[trigger] hosts@[k]) by {
            assert(ids@.to_set().contains(ids@[k]));
            assert(m@.contains_key(ids@[k]) && m@[ids@[k]] == hosts@[k]);
        }
        assert forall|w: WorkerId| #[trigger] m@.contains_key(w) implies hosts@.contains(m@[w]) by {
            assert(ids@.to_set().contains(w));
            let i = choose|i: int| 0 <= i < ids@.len() && ids@[i] == w;
            assert(hosts@[i] == m@[w]);
        }
    }
    hosts
}

/// A job has a worker on a host.
pub open spec fn occupies(placements: Map<JobId, DHashMap<WorkerId, usize>>, job_id: JobId, host: usize) -> bool {
    placements.contains_key(job_id) && is_host_of(placements[job_id]@, host)
}

impl SimState {
    /// The job that each host belongs to by the placements. The job with the greatest number counts
    /// where there are several.
    pub fn list_host_jobs(&self) -> (r: Vec<Option<JobId>>)
        ensures
            r@.len() == self.host_assignment@.len(),
            forall|h: usize|
                h < r@.len() ==> match #[trigger] r@[h as int] {
                    Some(j) => occupies(self.context.placements@, j, h) && forall|k: JobId|
                        occupies(self.context.placements@, k, h) ==> k <= j,
                    None => forall|k: JobId| !occupies(self.context.placements@, k, h),
                },
    {
        let ghost m = self.context.placements@;
        let n: usize = self.host_assignment.len();
        let mut r: Vec<Option<JobId>> = Vec::new();
        let mut i: usize = 0;
        while i < n
            invariant
                i <= n,
                r@.len() == i,
                forall|h: int| 0 <= h < i ==> #[trigger] r@[h] is None,
            decreases n - i,
        {
            r.push(None);
            i += 1;
        }
        let ids = self.context.placements.sorted_keys();
        let mut a: usize = 0;
        while a < ids.len()
            invariant
                a <= ids@.len(),
                m == self.context.placements@,
                n == self.host_assignment@.len(),
                r@.len() == n,
                strictly_ascending(ids@),
                ids@.to_set() == m.dom(),
                forall|h: usize|
                    h < n ==> match #[trigger] r@[h as int] {
                        Some(j) => occupies(m, j, h) && ids@.take(a as int).contains(j) && forall|k: JobId|
                            occupies(m, k, h) && ids@.take(a as int).contains(k) ==> k <= j,
                        None => forall|k: JobId| occupies(m, k, h) ==> !ids@.take(a as int).contains(k),
                    },
            decreases ids@.len() - a,
        {
            let id: JobId = ids[a];
            proof {
                assert(ids@.to_set().contains(id));
            }
            let hosts = table_hosts(self.context.placements.get(&id).unwrap());
            let ghost before = r@;
            let mut b: usize = 0;
            while b < hosts.len()
                invariant
                    b <= hosts@.len(),
                    r@.len() == n,
                    before.len() == n,
                    m.contains_key(id),
                    forall|i: int| 0 <= i < hosts@.len() ==> is_host_of(m[id]@, #[trigger] hosts@[i]),
                    forall|h: usize|
                        h < n ==> #[trigger] r@[h as int] == if hosts@.take(b as int).contains(h) {
                            Some(id)
                        } else {
                            before[h as int]
                        },
                decreases hosts@.len() - b,
            {
                proof {
                    assert(hosts@.take(b + 1) =~= hosts@.take(b as int).push(hosts@[b as int]));
                    broadcast use vstd::seq_lib::group_seq_properties;

                }
                if hosts[b] < n {
                    r.set(hosts[b], Some(id));
                }
                b += 1;
            }
            proof {
                let taken = ids@.take(a as int);
                let next = ids@.take(a + 1);
                assert(next =~= taken.push(id));
                assert(hosts@.take(hosts@.len() as int) =~= hosts@);
                assert forall|h: usize| h < n implies match #[trigger] r@[h as int] {
                    Some(j) => occupies(m, j, h) && next.contains(j) && forall|k: JobId|
                        occupies(m, k, h) && next.contains(k) ==> k <= j,
                    None => forall|k: JobId| occupies(m, k, h) ==> !next.contains(k),
                } by {
                    assert(before[h as int] == before[h as int]);
                    assert(occupies(m, id, h) == hosts@.contains(h)) by {
                        if occupies(m, id, h) {
                            let w = choose|w: WorkerId| #[trigger] m[id]@.contains_key(w) && m[id]@[w] == h;
                            assert(hosts@.contains(m[id]@[w]));
                        }
                    }
                    assert(next[a as int] == id);
                    assert(next.contains(id));
                    assert forall|k: JobId| next.contains(k) implies k == id || (taken.contains(k) && k < id) by {
                        let i = choose|i: int| 0 <= i < next.len() && next[i] == k;
                        if i < a {
                            assert(taken[i] == k);
                            assert(ids@[i] < ids@[a as int]);
                        }
                    }
                    assert forall|k: JobId| taken.contains(k) implies next.contains(k) by {
                        let i = choose|i: int| 0 <= i < taken.len() && taken[i] == k;
                        assert(next[i] == k);
                    }
                }
            }
            a += 1;
        }
        proof {
            assert(ids@.take(ids@.len() as int) =~= ids@);
            assert forall|k: JobId, h: usize| occupies(m, k, h) implies ids@.contains(k) by {
                assert(ids@.to_set().contains(k));
            }
        }
        r
    }
}

/// The hosts that a pending plan moves to.
pub fn collect_targets(plan: &Option<MigrationPlan>) -> (r: DHashSet<usize>)
    ensures
        r@ == pending_targets(*plan),
{
    let mut set: DHashSet<usize> = DHashSet::new();
    match plan {
        Some(p) => {
            let mut i: usize = 0;
            proof {
                assert(set@ =~= plan_targets(p.jobs@, 0));
            }
            while i < p.jobs.len()
                invariant
                    i <= p.jobs.len(),
                    set@ == plan_targets(p.jobs@, i as nat),
                decreases p.jobs.len() - i,
            {
                let hosts = table_hosts(&p.jobs[i].worker_to_host);
                let ghost m = p.jobs@[i as int].worker_to_host@;
                let ghost before = set@;
                let mut k: usize = 0;
                proof {
                    assert(set@ =~= before.union(hosts@.take(0).to_set()));
                }
                while k < hosts.len()
                    invariant
                        k <= hosts.len(),
                        set@ == before.union(hosts@.take(k as int).to_set()),
                    decreases hosts.len() - k,
                {
                    set.insert(hosts[k]);
                    proof {
                        assert(hosts@.take(k + 1) =~= hosts@.take(k as int).push(hosts@[k as int]));
                        lemma_push_to_set(hosts@.take(k as int), hosts@[k as int]);
                        assert(set@ =~= before.union(hosts@.take(k + 1).to_set()));
                    }
                    k += 1;
                }
                proof {
                    assert(hosts@.take(hosts@.len() as int) =~= hosts@);
                    assert forall|h: usize| set@.contains(h) == plan_targets(p.jobs@, i as nat + 1).contains(h) by {
                        if before.contains(h) {
                            let (j, w) = choose|j: int, w: WorkerId|
                                0 <= j < i && (#[trigger] p.jobs@[j].worker_to_host@.contains_key(w))
                                    && p.jobs@[j].worker_to_host@[w] == h;
                            assert(p.jobs@[j].worker_to_host@.contains_key(w));
                        }
                        if hosts@.contains(h) {
                            let x = choose|x: int| 0 <= x < hosts@.len() && hosts@[x] == h;
                            let w = choose|w: WorkerId| #[trigger] m.contains_key(w) && m[w] == hosts@[x];
                            assert(p.jobs@[i as int].worker_to_host@.contains_key(w));
                        }
                        if plan_targets(p.jobs@, i as nat + 1).contains(h) {
                            let (j, w) = choose|j: int, w: WorkerId|
                                0 <= j < i + 1 && (#[trigger] p.jobs@[j].worker_to_host@.contains_key(w))
                                    && p.jobs@[j].worker_to_host@[w] == h;
                            if j == i {
                                assert(hosts@.contains(m[w]));
                            } else {
                                assert(before.contains(h));
                            }
                        }
                    }
                    assert(set@ =~= plan_targets(p.jobs@, i as nat + 1));
                }
                i += 1;
            }
        },
        None => {},
    }
    set
}

/// A job after its workers have moved: the plan's hosts replace those it had.
pub open spec fn job_moved(before: MLJob, after: MLJob, moves: Map<WorkerId, usize>) -> bool {
    &&& after.worker_to_host@ == before.worker_to_host@.union_prefer_right(moves)
    &&& after.workers@ == before.workers@.map_entries(
        |w: WorkerId, worker: MLWorker|
            MLWorker {
                host_index: if after.worker_to_host@.contains_key(w) {
                    after.worker_to_host@[w]
                } else {
                    worker.host_index
                },
                ..worker
            },
    )
    &&& after == (MLJob { workers: after.workers, worker_to_host: after.worker_to_host, ..before })
}

/// Overlays a placement and moves the workers.
fn move_workers(job: &mut MLJob, moves: &DHashMap<WorkerId, usize>)
    ensures
        job_moved(*old(job), *final(job), moves@),
{
    let ghost job0 = *job;
    let ghost h0 = job.worker_to_host@;
    let keys = moves.sorted_keys();
    let mut i: usize = 0;
    proof {
        assert(h0 =~= h0.union_prefer_right(moves@.restrict(keys@.take(0).to_set())));
    }
    while i < keys.len()
        invariant
            i <= keys.len(),
            keys@.to_set() == moves@.dom(),
            job.worker_to_host@ == h0.union_prefer_right(moves@.restrict(keys@.take(i as int).to_set())),
            *job == (MLJob { worker_to_host: job.worker_to_host, ..job0 }),
        decreases keys.len() - i,
    {
        let w: usize = keys[i];
        proof {
            assert(keys@.to_set().contains(w));
            assert(keys@.take(i + 1) =~= keys@.take(i as int).push(w));
            lemma_push_to_set(keys@.take(i as int), w);
        }
        job.worker_to_host.insert(w, *moves.get(&w).unwrap());
        proof {
            assert(job.worker_to_host@ =~= h0.union_prefer_right(moves@.restrict(keys@.take(i + 1).to_set())));
        }
        i += 1;
    }
    proof {
        assert(keys@.take(keys@.len() as int) =~= keys@);
        assert(moves@.restrict(keys@.to_set()) =~= moves@);
    }
    let ghost h1 = job.worker_to_host@;
    let ghost w0 = job.workers@;
    let ids = job.workers.sorted_keys();
    let mut n: usize = 0;
    while n < ids.len()
        invariant
            n <= ids.len(),
            strictly_ascending(ids@),
            ids@.to_set() == w0.dom(),
            job.worker_to_host@ == h1,
            job.workers@.dom() == w0.dom(),
            forall|k: int|
                0 <= k < n ==> job.workers@[#[trigger] ids@[k]] == (MLWorker {
                    host_index: if h1.contains_key(ids@[k]) {
                        h1[ids@[k]]
                    } else {
                        w0[ids@[k]].host_index
                    },
                    ..w0[ids@[k]]
                }),
            forall|k: int| n <= k < ids@.len() ==> job.workers@[#[trigger] ids@[k]] == w0[ids@[k]],
            *job == (MLJob { workers: job.workers, worker_to_host: job.worker_to_host, ..job0 }),
        decreases ids.len() - n,
    {
        let id: usize = ids[n];
        let ghost ws = job.workers@;
        proof {
            assert(ids@.to_set().contains(id));
        }
        let host: Option<usize> = job.get_worker_host(id);
        if let Some(h) = host {
            if let Some(worker) = job.workers.get_mut(&id) {
                worker.host_index = h;
            }
        }
        proof {
            assert(job.workers@.dom() =~= w0.dom());
            assert forall|k: int| 0 <= k < n + 1 implies job.workers@[#[trigger] ids@[k]] == (MLWorker {
                host_index: if h1.contains_key(ids@[k]) {
                    h1[ids@[k]]
                } else {
                    w0[ids@[k]].host_index
                },
                ..w0[ids@[k]]
            }) by {
                if k < n {
                    assert(ids@[k] != id);
                    assert(job.workers@[ids@[k]] == ws[ids@[k]]);
                }
            }
            assert forall|k: int| n + 1 <= k < ids@.len() implies job.workers@[#[trigger] ids@[k]] == w0[ids@[k]] by {
                assert(ids@[k] != id);
            }
        }
        n += 1;
    }
    proof {
        let goal = w0.map_entries(
            |w: WorkerId, worker: MLWorker|
                MLWorker {
                    host_index: if job.worker_to_host@.contains_key(w) {
                        job.worker_to_host@[w]
                    } else {
                        worker.host_index
                    },
                    ..worker
                },
        );
        assert forall|w: WorkerId| #[trigger] w0.contains_key(w) implies job.workers@[w] == goal[w] by {
            assert(ids@.to_set().contains(w));
            let k = choose|k: int| 0 <= k < ids@.len() && ids@[k] == w;
        }
        assert(job.workers@ =~= goal);
    }
}

/// A moved job is in order.
proof fn lemma_moved_ok(before: MLJob, after: MLJob, moves: Map<WorkerId, usize>)
    requires
        job_ok(&before),
        job_moved(before, after, moves),
    ensures
        job_ok(&after),
{
    assert forall|w: WorkerId| #[trigger] after.workers@.contains_key(w) implies after.workers@[w].templates_closed()
        && before.workers@.contains_key(w) by {
        assert(before.workers@.contains_key(w));
        assert(before.workers@[w].templates_closed());
        assert(after.workers@[w].templates() == before.workers@[w].templates());
    }
    assert(after.workers@.dom() =~= before.workers@.dom());
    lemma_rank_valid_kept(&before, &after);
}

/// The host tables before the moved job takes its new hosts: an old host is given up unless the
/// pending plan moves a job there.
pub open spec fn vacates(old_hosts: Seq<usize>, targets: Set<usize>, h: int) -> bool {
    old_hosts.contains(h as usize) && !targets.contains(h as usize)
}

/// A job has moved to new hosts. The hosts that it leaves are free, unless the plan needs them.
pub open spec fn job_relocated(before: &SimState, after: &SimState, job_id: JobId, moves: Map<WorkerId, usize>) -> bool {
    let job0 = before.jobs@[job_id];
    let job1 = after.jobs@[job_id];
    let old_hosts = placed_hosts(job0.worker_to_host@);
    let new_hosts = placed_hosts(job1.worker_to_host@);
    let targets = pending_targets(before.pending_migration);
    let left = |h: int| vacates(old_hosts, targets, h);
    &&& job_changed(before.jobs@, after.jobs@, job_id)
    &&& job_moved(job0, job1, moves)
    &&& after.host_busy@ == set_at(set_where(before.host_busy@, false, left), new_hosts, true, new_hosts.len())
    &&& after.host_assignment@ == set_at(
        set_where(before.host_assignment@, None, left),
        new_hosts,
        Some(job_id),
        new_hosts.len(),
    )
    &&& after.context.host_to_worker@ == put_placement(
        set_at(before.context.host_to_worker@, old_hosts, None, old_hosts.len()),
        job_id,
        job1.worker_to_host@,
    )
    &&& placement_views(after.context.placements@) == placement_views(before.context.placements@).insert(
        job_id,
        job1.worker_to_host@,
    )
    &&& *after == (SimState {
        jobs: after.jobs,
        host_busy: after.host_busy,
        host_assignment: after.host_assignment,
        context: MLContext {
            host_to_worker: after.context.host_to_worker,
            placements: after.context.placements,
            ..before.context
        },
        ..*before
    })
}

impl SimState {
    /// Moves the workers of a job to the given hosts. Hosts that the job leaves become free, except
    /// those that the pending plan moves a job to.
    pub fn apply_single_job_migration(&mut self, job_id: JobId, moves: &DHashMap<WorkerId, usize>)
        requires
            old(self).wf(),
        ensures
            final(self).wf(),
            final(self).host_busy@.len() == old(self).host_busy@.len(),
            !old(self).jobs@.contains_key(job_id) ==> *final(self) == *old(self),
            old(self).jobs@.contains_key(job_id) ==> job_relocated(old(self), final(self), job_id, moves@),
    {
        if !self.jobs.contains_key(&job_id) {
            return;
        }
        let targets = collect_targets(&self.pending_migration);
        let mut job = self.jobs.remove(&job_id).unwrap();
        let ghost job0 = job;
        let old_hosts = job.get_assigned_hosts();
        self.context.clear_hosts(&old_hosts);
        self.vacate(&old_hosts, &targets);
        move_workers(&mut job, moves);
        let new_hosts = job.get_assigned_hosts();
        proof {
            lemma_set_both(self.host_busy@, self.host_assignment@, new_hosts@, Some(job_id), new_hosts@.len());
        }
        write_at(&mut self.host_busy, &new_hosts, true);
        write_at(&mut self.host_assignment, &new_hosts, Some(job_id));
        self.context.set_placement(job_id, &job.worker_to_host);
        self.context.put_on_hosts(job_id, &job.worker_to_host);
        proof {
            lemma_moved_ok(job0, job, moves@);
        }
        self.jobs.insert(job_id, job);
        proof {
            assert(self.jobs@ =~= old(self).jobs@.insert(job_id, job));
        }
    }

    /// Frees the listed hosts, except those in `targets`.
    fn vacate(&mut self, hosts: &Vec<usize>, targets: &DHashSet<usize>)
        requires
            old(self).host_busy@.len() == old(self).host_assignment@.len(),
        ensures
            final(self).host_busy@ == set_where(
                old(self).host_busy@,
                false,
                |h: int| vacates(hosts@, targets@, h),
            ),
            final(self).host_assignment@ == set_where(
                old(self).host_assignment@,
                None,
                |h: int| vacates(hosts@, targets@, h),
            ),
            *final(self) == (SimState {
                host_busy: final(self).host_busy,
                host_assignment: final(self).host_assignment,
                ..*old(self)
            }),
    {
        let ghost b0 = self.host_busy@;
        let ghost a0 = self.host_assignment@;
        let n: usize = self.host_busy.len();
        let mut i: usize = 0;
        proof {
            assert(b0 =~= set_where(b0, false, |h: int| vacates(hosts@.take(0), targets@, h)));
            assert(a0 =~= set_where(a0, None, |h: int| vacates(hosts@.take(0), targets@, h)));
        }
        while i < hosts.len()
            invariant
                i <= hosts.len(),
                b0 == old(self).host_busy@,
                a0 == old(self).host_assignment@,
                n == b0.len(),
                n == a0.len(),
                self.host_busy@.len() == n,
                self.host_assignment@.len() == n,
                self.host_busy@ == set_where(b0, false, |h: int| vacates(hosts@.take(i as int), targets@, h)),
                self.host_assignment@ == set_where(a0, None, |h: int| vacates(hosts@.take(i as int), targets@, h)),
                *self == (SimState {
                    host_busy: self.host_busy,
                    host_assignment: self.host_assignment,
                    ..*old(self)
                }),
            decreases hosts.len() - i,
        {
            let host: usize = hosts[i];
            let ghost b1 = self.host_busy@;
            let ghost a1 = self.host_assignment@;
            if host < n && !targets.contains(&host) {
                self.host_busy.set(host, false);
                self.host_assignment.set(host, None);
            }
            proof {
                let sel = |h: int| vacates(hosts@.take(i + 1), targets@, h);
                assert forall|h: int| 0 <= h < n implies #[trigger] self.host_busy@[h] == if sel(h) {
                    false
                } else {
                    b0[h]
                } by {
                    assert(b1[h] == b1[h]);
                    lemma_take_contains(hosts@, i as int, h as usize);
                }
                assert forall|h: int| 0 <= h < n implies #[trigger] self.host_assignment@[h] == if sel(h) {
                    None
                } else {
                    a0[h]
                } by {
                    assert(a1[h] == a1[h]);
                    lemma_take_contains(hosts@, i as int, h as usize);
                }
                assert(self.host_busy@ =~= set_where(b0, false, sel));
                assert(self.host_assignment@ =~= set_where(a0, None, sel));
            }
            i += 1;
        }
        proof {
            assert(hosts@.take(hosts@.len() as int) =~= hosts@);
        }
    }
}

/// Host `h` was kept for a job that never came: the plan moves the job there, and the job that the
/// host still belongs to has left it.
pub open spec fn orphaned(
    targets: Map<WorkerId, usize>,
    assignment: Seq<Option<JobId>>,
    jobs: Map<JobId, MLJob>,
    job_id: JobId,
    h: int,
) -> bool {
    &&& is_host_of(targets, h as usize)
    &&& assignment[h] matches Some(owner) && owner != job_id && !(jobs.contains_key(owner) && is_host_of(
        jobs[owner].worker_to_host@,
        h as usize,
    ))
}

/// The hosts that are orphaned when a job leaves the pending plan.
pub open spec fn orphans(
    plan: Option<MigrationPlan>,
    assignment: Seq<Option<JobId>>,
    jobs: Map<JobId, MLJob>,
    job_id: JobId,
) -> spec_fn(int) -> bool {
    |h: int|
        match plan_hosts(plan, job_id) {
            Some(targets) => orphaned(targets, assignment, jobs, job_id, h),
            None => false,
        }
}

/// Whether a worker of the placement is on the host.
fn has_host(m: &DHashMap<WorkerId, usize>, host: usize) -> (r: bool)
    ensures
        r == is_host_of(m@, host),
{
    let hosts = table_hosts(m);
    let mut i: usize = 0;
    while i < hosts.len()
        invariant
            i <= hosts.len(),
            forall|k: int| 0 <= k < i ==> hosts@[k] != host,
            forall|k: int| 0 <= k < hosts@.len() ==> is_host_of(m@, #[trigger] hosts@[k]),
        decreases hosts.len() - i,
    {
        if hosts[i] == host {
            proof {
                assert(is_host_of(m@, hosts@[i as int]));
            }
            return true;
        }
        i += 1;
    }
    proof {
        if is_host_of(m@, host) {
            let w = choose|w: WorkerId| #[trigger] m@.contains_key(w) && m@[w] == host;
            assert(hosts@.contains(m@[w]));
        }
    }
    false
}

/// Takes the entries for a job out of a plan.
fn drop_from_plan(plan: &mut MigrationPlan, job_id: JobId)
    ensures
        final(plan).jobs@ == plan_without(old(plan).jobs@, job_id, old(plan).jobs@.len()),
{
    let ghost p0 = plan.jobs@;
    let ghost mut seen: nat = 0;
    let mut i: usize = 0;
    proof {
        assert(p0 =~= plan_without(p0, job_id, 0) + p0.skip(0));
    }
    while i < plan.jobs.len()
        invariant
            seen <= p0.len(),
            i == plan_without(p0, job_id, seen).len(),
            plan.jobs@ == plan_without(p0, job_id, seen) + p0.skip(seen as int),
        decreases p0.len() - seen,
    {
        proof {
            assert(seen < p0.len());
            assert(plan.jobs@[i as int] == p0[seen as int]);
        }
        let ghost before = plan.jobs@;
        if plan.jobs[i].job_id == job_id {
            plan.jobs.remove(i);
            proof {
                assert(plan.jobs@ =~= plan_without(p0, job_id, seen + 1) + p0.skip(seen as int + 1));
            }
        } else {
            i += 1;
            proof {
                assert(plan.jobs@ =~= plan_without(p0, job_id, seen + 1) + p0.skip(seen as int + 1));
            }
        }
        proof {
            seen = seen + 1;
        }
    }
    proof {
        assert(seen == p0.len());
        assert(plan.jobs@ =~= plan_without(p0, job_id, p0.len()));
    }
}

/// `after` is the plan `before` without the job.
pub open spec fn plan_dropped(before: Option<MigrationPlan>, after: Option<MigrationPlan>, job_id: JobId) -> bool {
    match before {
        Some(p) => after matches Some(q) && q.jobs@ == plan_without(p.jobs@, job_id, p.jobs@.len()),
        None => after is None,
    }
}

/// The values of a table of dependents.
pub open spec fn dependent_views(m: Map<JobId, DHashSet<JobId>>) -> Map<JobId, Set<JobId>> {
    m.map_values(|s: DHashSet<JobId>| s@)
}

/// The job takes no part in the migration any more: hosts kept for it are free, the plan and the
/// dependencies do not name it, and `waiting` are the jobs that waited for it.
pub open spec fn migration_cancelled(before: &SimState, after: &SimState, job_id: JobId, waiting: Seq<JobId>) -> bool {
    let sel = orphans(before.pending_migration, before.host_assignment@, before.jobs@, job_id);
    &&& after.pending_job_migrations@ == before.pending_job_migrations@.remove(job_id)
    &&& after.host_busy@ == set_where(before.host_busy@, false, sel)
    &&& after.host_assignment@ == set_where(before.host_assignment@, None, sel)
    &&& after.context.host_to_worker@ == set_where(before.context.host_to_worker@, None, sel)
    &&& plan_dropped(before.pending_migration, after.pending_migration, job_id)
    &&& after.migration_dependents@ == before.migration_dependents@.remove(job_id)
    &&& strictly_ascending(waiting)
    &&& waiting.to_set() == if before.migration_dependents@.contains_key(job_id) {
        before.migration_dependents@[job_id]@
    } else {
        Set::empty()
    }
    &&& *after == (SimState {
        pending_job_migrations: after.pending_job_migrations,
        host_busy: after.host_busy,
        host_assignment: after.host_assignment,
        context: MLContext { host_to_worker: after.context.host_to_worker, ..before.context },
        pending_migration: after.pending_migration,
        migration_dependents: after.migration_dependents,
        ..*before
    })
}

impl SimState {
    /// A job that is done while its migration is pending leaves the plan: hosts that were kept for
    /// it become free. The result are the jobs that waited for it; none if no migration was pending.
    pub fn cancel_migration(&mut self, job_id: JobId) -> (r: Option<Vec<JobId>>)
        requires
            old(self).wf(),
        ensures
            final(self).wf(),
            r is Some == old(self).pending_job_migrations@.contains_key(job_id),
            final(self).pending_job_migrations@ == old(self).pending_job_migrations@.remove(job_id),
            final(self).host_busy@.len() == old(self).host_busy@.len(),
            r is None ==> *final(self) == *old(self),
            r matches Some(waiting) ==> migration_cancelled(old(self), final(self), job_id, waiting@),
    {
        if !self.pending_job_migrations.contains_key(&job_id) {
            proof {
                assert(self.pending_job_migrations@ =~= self.pending_job_migrations@.remove(job_id));
            }
            return None;
        }
        self.pending_job_migrations.remove(&job_id);
        self.free_orphans(job_id);
        let plan = self.pending_migration.take();
        self.pending_migration = match plan {
            Some(p) => {
                let mut p = p;
                drop_from_plan(&mut p, job_id);
                Some(p)
            },
            None => None,
        };
        let waiting = match self.migration_dependents.remove(&job_id) {
            Some(set) => set.sorted(),
            None => Vec::new(),
        };
        proof {
            if !old(self).migration_dependents@.contains_key(job_id) {
                assert(waiting@.to_set() =~= Set::empty());
            }
        }
        Some(waiting)
    }

    /// Frees the hosts that were kept for a job.
    fn free_orphans(&mut self, job_id: JobId)
        requires
            old(self).wf(),
        ensures
            final(self).wf(),
            ({
                let sel = orphans(
                    old(self).pending_migration,
                    old(self).host_assignment@,
                    old(self).jobs@,
                    job_id,
                );
                &&& final(self).host_busy@ == set_where(old(self).host_busy@, false, sel)
                &&& final(self).host_assignment@ == set_where(old(self).host_assignment@, None, sel)
                &&& final(self).context.host_to_worker@ == set_where(old(self).context.host_to_worker@, None, sel)
            }),
            *final(self) == (SimState {
                host_busy: final(self).host_busy,
                host_assignment: final(self).host_assignment,
                context: MLContext { host_to_worker: final(self).context.host_to_worker, ..old(self).context },
                ..*old(self)
            }),
    {
        let ghost b0 = self.host_busy@;
        let ghost a0 = self.host_assignment@;
        let ghost w0 = self.context.host_to_worker@;
        let ghost sel = orphans(self.pending_migration, a0, self.jobs@, job_id);
        let n: usize = self.host_busy.len();
        match copy_plan_hosts(&self.pending_migration, job_id) {
            Some(targets) => {
                let mut h: usize = 0;
                while h < n
                    invariant
                        h <= n,
                        n == b0.len(),
                        n == a0.len(),
                        n == w0.len(),
                        b0 == old(self).host_busy@,
                        a0 == old(self).host_assignment@,
                        w0 == old(self).context.host_to_worker@,
                        self.host_busy@.len() == n,
                        self.host_assignment@.len() == n,
                        self.context.host_to_worker@.len() == n,
                        plan_hosts(old(self).pending_migration, job_id) == Some(targets@),
                        sel == orphans(old(self).pending_migration, a0, old(self).jobs@, job_id),
                        forall|x: int|
                            0 <= x < n ==> #[trigger] self.host_busy@[x] == if x < h && sel(x) {
                                false
                            } else {
                                b0[x]
                            },
                        forall|x: int|
                            0 <= x < n ==> #[trigger] self.host_assignment@[x] == if x < h && sel(x) {
                                None
                            } else {
                                a0[x]
                            },
                        forall|x: int|
                            0 <= x < n ==> #[trigger] self.context.host_to_worker@[x] == if x < h && sel(x) {
                                None
                            } else {
                                w0[x]
                            },
                        *self == (SimState {
                            host_busy: self.host_busy,
                            host_assignment: self.host_assignment,
                            context: MLContext {
                                host_to_worker: self.context.host_to_worker,
                                ..old(self).context
                            },
                            ..*old(self)
                        }),
                    decreases n - h,
                {
                    let mut orphan = false;
                    if has_host(&targets, h) {
                        if let Some(owner) = self.host_assignment[h] {
                            if owner != job_id {
                                let used = match self.jobs.get(&owner) {
                                    Some(job) => has_host(&job.worker_to_host, h),
                                    None => false,
                                };
                                orphan = !used;
                            }
                        }
                    }
                    proof {
                        assert(self.host_assignment@[h as int] == a0[h as int]);
                        assert(orphan == sel(h as int));
                    }
                    if orphan {
                        self.host_busy.set(h, false);
                        self.host_assignment.set(h, None);
                        self.context.host_to_worker.set(h, None);
                    }
                    h += 1;
                }
            },
            None => {},
        }
        proof {
            assert(self.host_busy@ =~= set_where(b0, false, sel));
            assert(self.host_assignment@ =~= set_where(a0, None, sel));
            assert(self.context.host_to_worker@ =~= set_where(w0, None, sel));
        }
    }
}

/// The host of a worker as far as it is known: from the placements, else from the worker.
pub open spec fn current_host(
    placements: Map<JobId, Map<WorkerId, usize>>,
    job: MLJob,
    job_id: JobId,
    worker_id: WorkerId,
) -> usize {
    if placements.contains_key(job_id) && placements[job_id].contains_key(worker_id) {
        placements[job_id][worker_id]
    } else if job.workers@.contains_key(worker_id) {
        job.workers@[worker_id].host_index
    } else {
        0
    }
}

/// The bytes that move with a worker.
pub open spec fn model_size(job: MLJob, worker_id: WorkerId) -> u64 {
    if job.workers@.contains_key(worker_id) {
        iteration_bytes(job.workers@[worker_id])
    } else {
        0
    }
}

/// The moves among the first `n` workers of a plan entry.
pub open spec fn job_moves(
    placements: Map<JobId, Map<WorkerId, usize>>,
    job: MLJob,
    job_id: JobId,
    targets: Map<WorkerId, usize>,
    ids: Seq<WorkerId>,
    n: nat,
) -> Seq<WorkerMigrationInfo>
    decreases n,
{
    if n == 0 {
        Seq::empty()
    } else {
        let before = job_moves(placements, job, job_id, targets, ids, (n - 1) as nat);
        let w = ids[n - 1];
        let src = current_host(placements, job, job_id, w);
        if src != targets[w] {
            before.push(
                WorkerMigrationInfo {
                    job_id,
                    worker_id: w,
                    src_host: src,
                    dst_host: targets[w],
                    model_size_bytes: model_size(job, w),
                },
            )
        } else {
            before
        }
    }
}

/// The moves of a plan entry; none if there is no such job.
pub open spec fn entry_moves(
    placements: Map<JobId, Map<WorkerId, usize>>,
    jobs: Map<JobId, MLJob>,
    job_id: JobId,
    targets: Map<WorkerId, usize>,
) -> Seq<WorkerMigrationInfo> {
    if jobs.contains_key(job_id) {
        let ids = ascending(targets.dom());
        job_moves(placements, jobs[job_id], job_id, targets, ids, ids.len())
    } else {
        Seq::empty()
    }
}

/// The moves of the first `n` plan entries.
pub open spec fn plan_moves(
    placements: Map<JobId, Map<WorkerId, usize>>,
    jobs: Map<JobId, MLJob>,
    plan: Seq<JobMigration>,
    n: nat,
) -> Seq<WorkerMigrationInfo>
    decreases n,
{
    if n == 0 {
        Seq::empty()
    } else {
        plan_moves(placements, jobs, plan, (n - 1) as nat) + entry_moves(
            placements,
            jobs,
            plan[n - 1].job_id,
            plan[n - 1].worker_to_host@,
        )
    }
}

impl SimState {
    /// The moves of a plan entry, in worker order.
    pub fn entry_migrations(&self, entry: &JobMigration) -> (r: Vec<WorkerMigrationInfo>)
        ensures
            r@ == entry_moves(
                placement_views(self.context.placements@),
                self.jobs@,
                entry.job_id,
                entry.worker_to_host@,
            ),
    {
        let mut out: Vec<WorkerMigrationInfo> = Vec::new();
        let ghost p = placement_views(self.context.placements@);
        let ghost t = entry.worker_to_host@;
        let job_id: usize = entry.job_id;
        if let Some(job) = self.jobs.get(&job_id) {
            let ids = entry.worker_to_host.sorted_keys();
            proof {
                lemma_ascending(ids@, t.dom());
            }
            let mut i: usize = 0;
            while i < ids.len()
                invariant
                    i <= ids.len(),
                    ids@.to_set() == t.dom(),
                    t == entry.worker_to_host@,
                    p == placement_views(self.context.placements@),
                    out@ == job_moves(p, *job, job_id, t, ids@, i as nat),
                decreases ids.len() - i,
            {
                let w: usize = ids[i];
                proof {
                    assert(ids@.to_set().contains(w));
                }
                let dst: usize = *entry.worker_to_host.get(&w).unwrap();
                let placed: Option<usize> = match self.context.placements.get(&job_id) {
                    Some(m) => match m.get(&w) {
                        Some(h) => Some(*h),
                        None => None,
                    },
                    None => None,
                };
                let src: usize = match placed {
                    Some(h) => h,
                    None => match job.workers.get(&w) {
                        Some(worker) => worker.host_index,
                        None => 0,
                    },
                };
                if src != dst {
                    let size: u64 = match job.workers.get(&w) {
                        Some(worker) => compute_iteration_bytes(worker),
                        None => 0,
                    };
                    out.push(
                        WorkerMigrationInfo {
                            job_id,
                            worker_id: w,
                            src_host: src,
                            dst_host: dst,
                            model_size_bytes: size,
                        },
                    );
                }
                i += 1;
            }
        }
        out
    }

    /// The moves of a plan: entry by entry, in worker order.
    pub fn compute_worker_migrations(&self, plan: &MigrationPlan) -> (r: Vec<WorkerMigrationInfo>)
        ensures
            r@ == plan_moves(
                placement_views(self.context.placements@),
                self.jobs@,
                plan.jobs@,
                plan.jobs@.len(),
            ),
    {
        let mut out: Vec<WorkerMigrationInfo> = Vec::new();
        let ghost p = placement_views(self.context.placements@);
        let mut i: usize = 0;
        while i < plan.jobs.len()
            invariant
                i <= plan.jobs.len(),
                p == placement_views(self.context.placements@),
                out@ == plan_moves(p, self.jobs@, plan.jobs@, i as nat),
            decreases plan.jobs.len() - i,
        {
            let mut moves = self.entry_migrations(&plan.jobs[i]);
            out.append(&mut moves);
            i += 1;
        }
        out
    }
}

/// The value of a `PendingJobMigration`.
pub struct PendingView {
    pub moves: Seq<WorkerMigrationInfo>,
    pub waiting_for: Set<JobId>,
    pub at_barrier: bool,
    pub flows_started: bool,
}

impl View for PendingJobMigration {
    type V = PendingView;

    open spec fn view(&self) -> PendingView {
        PendingView {
            moves: self.moves@,
            waiting_for: self.waiting_for@,
            at_barrier: self.at_barrier,
            flows_started: self.flows_started,
        }
    }
}

/// The values of a table of pending migrations.
pub open spec fn pending_views(m: Map<JobId, PendingJobMigration>) -> Map<JobId, PendingView> {
    m.map_values(|p: PendingJobMigration| p@)
}

/// The other jobs that hold a host which the entry moves to.
pub open spec fn occupants(assignment: Seq<Option<JobId>>, targets: Map<WorkerId, usize>, job_id: JobId) -> Set<JobId> {
    Set::new(
        |o: JobId|
            o != job_id && exists|w: WorkerId| #[trigger]
                targets.contains_key(w) && assignment[targets[w] as int] == Some(o),
    )
}

/// `deps` with the job waiting for each of `waiting_for`.
pub open spec fn add_dependent(deps: Map<JobId, Set<JobId>>, waiting_for: Set<JobId>, job_id: JobId) -> Map<
    JobId,
    Set<JobId>,
> {
    Map::new(
        |d: JobId| deps.contains_key(d) || waiting_for.contains(d),
        |d: JobId|
            if waiting_for.contains(d) {
                (if deps.contains_key(d) {
                    deps[d]
                } else {
                    Set::empty()
                }).insert(job_id)
            } else {
                deps[d]
            },
    )
}

/// The hosts that have to be left before a job can move: those of the last entry that the plan has for it.
pub open spec fn awaited_hosts(plan: Seq<JobMigration>, job_id: JobId) -> Map<WorkerId, usize>
    decreases plan.len(),
{
    if plan.len() == 0 {
        Map::empty()
    } else if plan.last().job_id == job_id {
        plan.last().worker_to_host@
    } else {
        awaited_hosts(plan.drop_last(), job_id)
    }
}

/// The moves of the job that the first `n` entries ask for, entry by entry.
pub open spec fn moves_asked(
    placements: Map<JobId, Map<WorkerId, usize>>,
    jobs: Map<JobId, MLJob>,
    plan: Seq<JobMigration>,
    job_id: JobId,
    n: nat,
) -> Seq<WorkerMigrationInfo>
    decreases n,
{
    if n == 0 {
        Seq::empty()
    } else {
        let rest = moves_asked(placements, jobs, plan, job_id, (n - 1) as nat);
        let e = plan[n - 1];
        if e.job_id == job_id {
            rest + entry_moves(placements, jobs, job_id, e.worker_to_host@)
        } else {
            rest
        }
    }
}

/// One of the first `n` entries is for the job.
pub open spec fn names_within(plan: Seq<JobMigration>, n: nat, job_id: JobId) -> bool {
    exists|j: int| 0 <= j < n && (#[trigger] plan[j]).job_id == job_id
}

/// The moves that the entry at `i` takes up: the first entry of a job takes all moves of the job, and
/// leaves none to a later one.
pub open spec fn taken_moves(
    placements: Map<JobId, Map<WorkerId, usize>>,
    jobs: Map<JobId, MLJob>,
    plan: Seq<JobMigration>,
    i: int,
) -> Seq<WorkerMigrationInfo> {
    if names_within(plan, i as nat, plan[i].job_id) {
        Seq::empty()
    } else {
        moves_asked(placements, jobs, plan, plan[i].job_id, plan.len())
    }
}

/// Who waits for whom after the first `n` plan entries.
pub open spec fn plan_dependents(
    deps: Map<JobId, Set<JobId>>,
    assignment: Seq<Option<JobId>>,
    plan: Seq<JobMigration>,
    n: nat,
) -> Map<JobId, Set<JobId>>
    decreases n,
{
    if n == 0 {
        deps
    } else {
        let e = plan[n - 1];
        add_dependent(
            plan_dependents(deps, assignment, plan, (n - 1) as nat),
            occupants(assignment, awaited_hosts(plan, e.job_id), e.job_id),
            e.job_id,
        )
    }
}

/// What is pending after the first `n` plan entries.
pub open spec fn plan_pending(
    pending: Map<JobId, PendingView>,
    placements: Map<JobId, Map<WorkerId, usize>>,
    jobs: Map<JobId, MLJob>,
    assignment: Seq<Option<JobId>>,
    plan: Seq<JobMigration>,
    n: nat,
) -> Map<JobId, PendingView>
    decreases n,
{
    if n == 0 {
        pending
    } else {
        let e = plan[n - 1];
        plan_pending(pending, placements, jobs, assignment, plan, (n - 1) as nat).insert(
            e.job_id,
            PendingView {
                moves: taken_moves(placements, jobs, plan, n - 1),
                waiting_for: occupants(assignment, awaited_hosts(plan, e.job_id), e.job_id),
                at_barrier: false,
                flows_started: false,
            },
        )
    }
}

/// Each job has one entry at most.
pub open spec fn plan_distinct(plan: Seq<JobMigration>) -> bool {
    forall|i: int, j: int| 0 <= i < j < plan.len() ==> plan[i].job_id != plan[j].job_id
}

/// Every host that a job of the plan waits for exists.
pub open spec fn plan_hosts_exist(plan: Seq<JobMigration>, n: nat) -> bool {
    forall|i: int| 0 <= i < plan.len() ==> hosts_exist(awaited_hosts(plan, (#[trigger] plan[i]).job_id), n)
}

/// A job of the plan only waits for hosts that are free, its own or those of jobs of the plan.
pub open spec fn move_is_closed(plan: Seq<JobMigration>, assignment: Seq<Option<JobId>>, job_id: JobId) -> bool {
    let hosts = awaited_hosts(plan, job_id);
    forall|w: WorkerId| #[trigger]
        hosts.contains_key(w) ==> match assignment[hosts[w] as int] {
            Some(o) => o == job_id || names_within(plan, plan.len(), o),
            None => true,
        }
}

/// The jobs of the plan only wait for hosts that are free or belong to a job of the plan.
pub open spec fn plan_is_closed(plan: Seq<JobMigration>, assignment: Seq<Option<JobId>>) -> bool {
    forall|i: int| 0 <= i < plan.len() ==> move_is_closed(plan, assignment, (#[trigger] plan[i]).job_id)
}

/// A plan has been taken over: each of its jobs is pending, and waits for those that hold its new
/// hosts.
pub open spec fn migrations_prepared(before: &SimState, after: &SimState, plan: MigrationPlan) -> bool {
    &&& dependent_views(after.migration_dependents@) == plan_dependents(
        dependent_views(before.migration_dependents@),
        before.host_assignment@,
        plan.jobs@,
        plan.jobs@.len(),
    )
    &&& pending_views(after.pending_job_migrations@) == plan_pending(
        pending_views(before.pending_job_migrations@),
        placement_views(before.context.placements@),
        before.jobs@,
        before.host_assignment@,
        plan.jobs@,
        plan.jobs@.len(),
    )
    &&& after.pending_migration == Some(plan)
    &&& *after == (SimState {
        migration_dependents: after.migration_dependents,
        pending_job_migrations: after.pending_job_migrations,
        pending_migration: after.pending_migration,
        migrating: true,
        ..*before
    })
}

impl SimState {
    /// The other jobs that hold a host which the entry moves to.
    fn collect_occupants(&self, entry: &JobMigration) -> (r: DHashSet<JobId>)
        requires
            hosts_exist(entry.worker_to_host@, self.host_assignment@.len()),
        ensures
            r@ == occupants(self.host_assignment@, entry.worker_to_host@, entry.job_id),
    {
        let hosts = table_hosts(&entry.worker_to_host);
        let ghost t = entry.worker_to_host@;
        let mut set: DHashSet<JobId> = DHashSet::new();
        let mut i: usize = 0;
        while i < hosts.len()
            invariant
                i <= hosts.len(),
                t == entry.worker_to_host@,
                hosts_exist(t, self.host_assignment@.len()),
                forall|k: int| 0 <= k < hosts@.len() ==> is_host_of(t, #[trigger] hosts@[k]),
                forall|o: JobId| #[trigger]
                    set@.contains(o) <==> o != entry.job_id && exists|k: int|
                        0 <= k < i && self.host_assignment@[(#[trigger] hosts@[k]) as int] == Some(o),
            decreases hosts.len() - i,
        {
            proof {
                assert(is_host_of(t, hosts@[i as int]));
                let w = choose|w: WorkerId| #[trigger] t.contains_key(w) && t[w] == hosts@[i as int];
            }
            let ghost before = set@;
            if let Some(owner) = self.host_assignment[hosts[i]] {
                if owner != entry.job_id {
                    set.insert(owner);
                }
            }
            proof {
                assert forall|o: JobId| #[trigger] set@.contains(o) <==> o != entry.job_id && exists|k: int|
                    0 <= k < i + 1 && self.host_assignment@[(#[trigger] hosts@[k]) as int] == Some(o) by {
                    if before.contains(o) {
                        let k = choose|k: int|
                            0 <= k < i && self.host_assignment@[(#[trigger] hosts@[k]) as int] == Some(o);
                        assert(0 <= k < i + 1 && self.host_assignment@[hosts@[k] as int] == Some(o));
                    }
                    if self.host_assignment@[hosts@[i as int] as int] == Some(o) {
                        assert(0 <= i < i + 1);
                    }
                    if exists|k: int|
                        0 <= k < i + 1 && self.host_assignment@[(#[trigger] hosts@[k]) as int] == Some(o) {
                        let k = choose|k: int|
                            0 <= k < i + 1 && self.host_assignment@[(#[trigger] hosts@[k]) as int] == Some(o);
                        if k < i && o != entry.job_id {
                            assert(before.contains(o));
                        }
                    }
                }
            }
            i += 1;
        }
        proof {
            let goal = occupants(self.host_assignment@, t, entry.job_id);
            assert forall|o: JobId| set@.contains(o) == goal.contains(o) by {
                if set@.contains(o) {
                    let k = choose|k: int|
                        0 <= k < hosts@.len() && self.host_assignment@[(#[trigger] hosts@[k]) as int] == Some(o);
                    assert(is_host_of(t, hosts@[k]));
                    let w = choose|w: WorkerId| #[trigger] t.contains_key(w) && t[w] == hosts@[k];
                    assert(t.contains_key(w));
                }
                if goal.contains(o) {
                    let w = choose|w: WorkerId| #[trigger]
                        t.contains_key(w) && self.host_assignment@[t[w] as int] == Some(o);
                    assert(hosts@.contains(t[w]));
                    let k = choose|k: int| 0 <= k < hosts@.len() && hosts@[k] == t[w];
                    assert(self.host_assignment@[hosts@[k] as int] == Some(o));
                }
            }
            assert(set@ =~= goal);
        }
        set
    }

    /// Records that a job waits for each of the listed jobs.
    fn record_waiting(&mut self, job_id: JobId, waiting_for: &DHashSet<JobId>)
        ensures
            dependent_views(final(self).migration_dependents@) == add_dependent(
                dependent_views(old(self).migration_dependents@),
                waiting_for@,
                job_id,
            ),
            *final(self) == (SimState { migration_dependents: final(self).migration_dependents, ..*old(self) }),
    {
        let ids = waiting_for.elements();
        let ghost d0 = dependent_views(self.migration_dependents@);
        let mut i: usize = 0;
        proof {
            assert(d0 =~= add_dependent(d0, ids@.take(0).to_set(), job_id));
        }
        while i < ids.len()
            invariant
                i <= ids.len(),
                ids@.no_duplicates(),
                d0 == dependent_views(old(self).migration_dependents@),
                dependent_views(self.migration_dependents@) == add_dependent(
                    d0,
                    ids@.take(i as int).to_set(),
                    job_id,
                ),
                *self == (SimState { migration_dependents: self.migration_dependents, ..*old(self) }),
            decreases ids.len() - i,
        {
            let d: usize = ids[i];
            let ghost d1 = dependent_views(self.migration_dependents@);
            proof {
                assert(ids@.take(i + 1) =~= ids@.take(i as int).push(d));
                lemma_push_to_set(ids@.take(i as int), d);
                if ids@.take(i as int).contains(d) {
                    let k = choose|k: int| 0 <= k < i && ids@.take(i as int)[k] == d;
                    assert(ids@[k] == ids@[i as int]);
                }
            }
            let mut set = match self.migration_dependents.remove(&d) {
                Some(set) => set,
                None => DHashSet::new(),
            };
            set.insert(job_id);
            self.migration_dependents.insert(d, set);
            proof {
                let entry = (if d1.contains_key(d) {
                    d1[d]
                } else {
                    Set::empty()
                }).insert(job_id);
                assert(set@ =~= entry);
                assert(dependent_views(self.migration_dependents@) =~= d1.insert(d, entry));
                assert(add_dependent(d0, ids@.take(i + 1).to_set(), job_id) =~= d1.insert(d, entry));
            }
            i += 1;
        }
        proof {
            assert(ids@.take(ids@.len() as int) =~= ids@);
        }
    }

    /// The moves of the job that the plan asks for.
    fn collect_moves(&self, plan: &MigrationPlan, job_id: JobId) -> (r: Vec<WorkerMigrationInfo>)
        ensures
            r@ == moves_asked(
                placement_views(self.context.placements@),
                self.jobs@,
                plan.jobs@,
                job_id,
                plan.jobs@.len(),
            ),
    {
        let mut moves: Vec<WorkerMigrationInfo> = Vec::new();
        let mut i: usize = 0;
        while i < plan.jobs.len()
            invariant
                i <= plan.jobs.len(),
                moves@ == moves_asked(
                    placement_views(self.context.placements@),
                    self.jobs@,
                    plan.jobs@,
                    job_id,
                    i as nat,
                ),
            decreases plan.jobs.len() - i,
        {
            if plan.jobs[i].job_id == job_id {
                let mut next = self.entry_migrations(&plan.jobs[i]);
                moves.append(&mut next);
            }
            i += 1;
        }
        moves
    }

    /// Takes over a plan: each of its jobs waits for its iteration barrier, and for the jobs that
    /// hold its new hosts to reach theirs.
    pub fn prepare_migrations(&mut self, plan: MigrationPlan)
        requires
            plan_hosts_exist(plan.jobs@, old(self).host_assignment@.len()),
            plan_is_closed(plan.jobs@, old(self).host_assignment@),
        ensures
            migrations_prepared(old(self), final(self), plan),
    {
        let ghost d0 = dependent_views(self.migration_dependents@);
        let ghost p0 = pending_views(self.pending_job_migrations@);
        let ghost pl = placement_views(self.context.placements@);
        let mut i: usize = 0;
        while i < plan.jobs.len()
            invariant
                i <= plan.jobs.len(),
                plan_hosts_exist(plan.jobs@, self.host_assignment@.len()),
                pl == placement_views(self.context.placements@),
                dependent_views(self.migration_dependents@) == plan_dependents(
                    d0,
                    self.host_assignment@,
                    plan.jobs@,
                    i as nat,
                ),
                pending_views(self.pending_job_migrations@) == plan_pending(
                    p0,
                    pl,
                    self.jobs@,
                    self.host_assignment@,
                    plan.jobs@,
                    i as nat,
                ),
                *self == (SimState {
                    migration_dependents: self.migration_dependents,
                    pending_job_migrations: self.pending_job_migrations,
                    ..*old(self)
                }),
            decreases plan.jobs.len() - i,
        {
            let ghost q = pending_views(self.pending_job_migrations@);
            let job_id: usize = plan.jobs[i].job_id;
            proof {
                assert(hosts_exist(awaited_hosts(plan.jobs@, plan.jobs@[i as int].job_id), self.host_assignment@.len()));
            }
            let last: usize = find_last(&plan, i);
            let waiting_for = self.collect_occupants(&plan.jobs[last]);
            let moves = if names_job(&plan, i, job_id) {
                Vec::new()
            } else {
                self.collect_moves(&plan, job_id)
            };
            self.record_waiting(job_id, &waiting_for);
            let pending = PendingJobMigration { moves, waiting_for, at_barrier: false, flows_started: false };
            let ghost pv = pending@;
            self.pending_job_migrations.insert(job_id, pending);
            proof {
                assert(pending_views(self.pending_job_migrations@) =~= q.insert(job_id, pv));
            }
            i += 1;
        }
        self.pending_migration = Some(plan);
        self.migrating = true;
    }
}

/// The placement of a job once its plan entry is applied.
pub open spec fn merged_hosts(jobs: Map<JobId, MLJob>, e: JobMigration) -> Map<WorkerId, usize> {
    jobs[e.job_id].worker_to_host@.union_prefer_right(e.worker_to_host@)
}

/// The hosts that the first `n` entries lead to, entry by entry.
pub open spec fn plan_claims(jobs: Map<JobId, MLJob>, plan: Seq<JobMigration>, n: nat) -> Seq<usize>
    decreases n,
{
    if n == 0 {
        Seq::empty()
    } else {
        plan_claims(jobs, plan, (n - 1) as nat) + placed_hosts(merged_hosts(jobs, plan[n - 1]))
    }
}

/// `s` with `v` on the hosts that the jobs of the first `n` entries have.
pub open spec fn leave_all<T>(s: Seq<T>, v: T, jobs: Map<JobId, MLJob>, plan: Seq<JobMigration>, n: nat) -> Seq<T>
    decreases n,
{
    if n == 0 {
        s
    } else {
        let hosts = placed_hosts(jobs[plan[n - 1].job_id].worker_to_host@);
        set_at(leave_all(s, v, jobs, plan, (n - 1) as nat), hosts, v, hosts.len())
    }
}

/// `busy` with the hosts that the first `n` entries lead to.
pub open spec fn occupy_all(busy: Seq<bool>, jobs: Map<JobId, MLJob>, plan: Seq<JobMigration>, n: nat) -> Seq<bool>
    decreases n,
{
    if n == 0 {
        busy
    } else {
        let hosts = placed_hosts(merged_hosts(jobs, plan[n - 1]));
        set_at(occupy_all(busy, jobs, plan, (n - 1) as nat), hosts, true, hosts.len())
    }
}

/// `assignment` with the hosts that the first `n` entries lead to.
pub open spec fn assign_all(
    assignment: Seq<Option<JobId>>,
    jobs: Map<JobId, MLJob>,
    plan: Seq<JobMigration>,
    n: nat,
) -> Seq<Option<JobId>>
    decreases n,
{
    if n == 0 {
        assignment
    } else {
        let e = plan[n - 1];
        let hosts = placed_hosts(merged_hosts(jobs, e));
        set_at(assign_all(assignment, jobs, plan, (n - 1) as nat), hosts, Some(e.job_id), hosts.len())
    }
}

proof fn lemma_assigned(
    assignment: Seq<Option<JobId>>,
    jobs: Map<JobId, MLJob>,
    plan: Seq<JobMigration>,
    n: nat,
    i: int,
    k: int,
)
    requires
        n <= plan.len(),
        0 <= i < n,
        plan_claims(jobs, plan, n).no_duplicates(),
        0 <= k < placed_hosts(merged_hosts(jobs, plan[i])).len(),
        placed_hosts(merged_hosts(jobs, plan[i]))[k] < assignment.len(),
    ensures
        assign_all(assignment, jobs, plan, n).len() == assignment.len(),
        assign_all(assignment, jobs, plan, n)[placed_hosts(merged_hosts(jobs, plan[i]))[k] as int] == Some(
            plan[i].job_id,
        ),
        plan_claims(jobs, plan, n).contains(placed_hosts(merged_hosts(jobs, plan[i]))[k]),
    decreases n,
{
    let m = (n - 1) as nat;
    let e = plan[n - 1];
    let hosts = placed_hosts(merged_hosts(jobs, e));
    let before = plan_claims(jobs, plan, m);
    let all = plan_claims(jobs, plan, n);
    let h = placed_hosts(merged_hosts(jobs, plan[i]))[k];
    lemma_assign_len(assignment, jobs, plan, m);
    lemma_set_at(assign_all(assignment, jobs, plan, m), hosts, Some(e.job_id), hosts.len());
    if i == n - 1 {
        assert(hosts[k] == h);
        assert(all[before.len() + k] == h);
    } else {
        assert(before.no_duplicates()) by {
            assert forall|x: int, y: int| 0 <= x < before.len() && 0 <= y < before.len() && x != y implies before[x]
                != before[y] by {
                assert(all[x] == before[x] && all[y] == before[y]);
            }
        }
        lemma_assigned(assignment, jobs, plan, m, i, k);
        let x = choose|x: int| 0 <= x < before.len() && before[x] == h;
        assert(all[x] == h);
        if exists|y: int| 0 <= y < hosts.len() && #[trigger] hosts[y] == h {
            let y = choose|y: int| 0 <= y < hosts.len() && #[trigger] hosts[y] == h;
            assert(all[before.len() + y] == h);
        }
    }
}

proof fn lemma_assign_len(assignment: Seq<Option<JobId>>, jobs: Map<JobId, MLJob>, plan: Seq<JobMigration>, n: nat)
    ensures
        assign_all(assignment, jobs, plan, n).len() == assignment.len(),
    decreases n,
{
    if n > 0 {
        lemma_assign_len(assignment, jobs, plan, (n - 1) as nat);
        let hosts = placed_hosts(merged_hosts(jobs, plan[n - 1]));
        lemma_set_at(
            assign_all(assignment, jobs, plan, (n - 1) as nat),
            hosts,
            Some(plan[n - 1].job_id),
            hosts.len(),
        );
    }
}

/// Once a plan that fits has been applied, each host that a worker of its jobs moves to or stays on is that
/// job's: no two jobs of the plan share a host.
pub proof fn lemma_plan_no_conflict(s: &SimState, plan: Seq<JobMigration>, i: int, k: int)
    requires
        s.wf(),
        s.plan_fits(plan),
        0 <= i < plan.len(),
        0 <= k < placed_hosts(merged_hosts(s.jobs@, plan[i])).len(),
        placed_hosts(merged_hosts(s.jobs@, plan[i]))[k] < s.host_assignment@.len(),
    ensures
        assign_all(
            leave_all(s.host_assignment@, None, s.jobs@, plan, plan.len()),
            s.jobs@,
            plan,
            plan.len(),
        )[placed_hosts(merged_hosts(s.jobs@, plan[i]))[k] as int] == Some(plan[i].job_id),
{
    lemma_leave_len(s.host_assignment@, None, s.jobs@, plan, plan.len());
    lemma_assigned(
        leave_all(s.host_assignment@, None, s.jobs@, plan, plan.len()),
        s.jobs@,
        plan,
        plan.len(),
        i,
        k,
    );
}

proof fn lemma_leave_len<T>(a: Seq<T>, v: T, jobs: Map<JobId, MLJob>, plan: Seq<JobMigration>, n: nat)
    ensures
        leave_all(a, v, jobs, plan, n).len() == a.len(),
    decreases n,
{
    if n > 0 {
        lemma_leave_len(a, v, jobs, plan, (n - 1) as nat);
        let hosts = placed_hosts(jobs[plan[n - 1].job_id].worker_to_host@);
        lemma_set_at(leave_all(a, v, jobs, plan, (n - 1) as nat), hosts, v, hosts.len());
    }
}

/// `h2w` after the first `n` jobs have moved, one after the other.
pub open spec fn move_all(
    h2w: Seq<Option<(JobId, WorkerId)>>,
    jobs: Map<JobId, MLJob>,
    plan: Seq<JobMigration>,
    n: nat,
) -> Seq<Option<(JobId, WorkerId)>>
    decreases n,
{
    if n == 0 {
        h2w
    } else {
        let e = plan[n - 1];
        let hosts = placed_hosts(jobs[e.job_id].worker_to_host@);
        put_placement(
            set_at(move_all(h2w, jobs, plan, (n - 1) as nat), hosts, None, hosts.len()),
            e.job_id,
            merged_hosts(jobs, e),
        )
    }
}

/// The placements after the first `n` jobs have moved.
pub open spec fn place_all(
    placements: Map<JobId, Map<WorkerId, usize>>,
    jobs: Map<JobId, MLJob>,
    plan: Seq<JobMigration>,
    n: nat,
) -> Map<JobId, Map<WorkerId, usize>>
    decreases n,
{
    if n == 0 {
        placements
    } else {
        let e = plan[n - 1];
        place_all(placements, jobs, plan, (n - 1) as nat).insert(e.job_id, merged_hosts(jobs, e))
    }
}

/// All jobs of a plan have moved at once.
pub open spec fn plan_applied(before: &SimState, after: &SimState, plan: Seq<JobMigration>) -> bool {
    let n = plan.len();
    &&& after.jobs@.dom() == before.jobs@.dom()
    &&& forall|i: int|
        0 <= i < n ==> job_moved(
            before.jobs@[(#[trigger] plan[i]).job_id],
            after.jobs@[plan[i].job_id],
            plan[i].worker_to_host@,
        )
    &&& forall|j: JobId| #[trigger]
        before.jobs@.contains_key(j) && (forall|i: int| 0 <= i < n ==> (#[trigger] plan[i]).job_id != j)
            ==> after.jobs@[j] == before.jobs@[j]
    &&& after.host_busy@ == occupy_all(leave_all(before.host_busy@, false, before.jobs@, plan, n), before.jobs@, plan, n)
    &&& after.host_assignment@ == assign_all(
        leave_all(before.host_assignment@, None, before.jobs@, plan, n),
        before.jobs@,
        plan,
        n,
    )
    &&& after.context.host_to_worker@ == move_all(before.context.host_to_worker@, before.jobs@, plan, n)
    &&& placement_views(after.context.placements@) == place_all(
        placement_views(before.context.placements@),
        before.jobs@,
        plan,
        n,
    )
    &&& *after == (SimState {
        jobs: after.jobs,
        host_busy: after.host_busy,
        host_assignment: after.host_assignment,
        context: MLContext {
            host_to_worker: after.context.host_to_worker,
            placements: after.context.placements,
            ..before.context
        },
        ..*before
    })
}

impl SimState {
    /// The plan covers its jobs, and every host it leads to exists and is free once these jobs have
    /// left theirs.
    pub open spec fn plan_fits(&self, plan: Seq<JobMigration>) -> bool {
        let free = leave_all(self.host_busy@, false, self.jobs@, plan, plan.len());
        &&& plan_distinct(plan)
        &&& forall|i: int| #![trigger plan[i]]
            0 <= i < plan.len() ==> {
                &&& self.jobs@.contains_key(plan[i].job_id)
                &&& merged_hosts(self.jobs@, plan[i]).dom().len() == self.jobs@[plan[i].job_id].num_workers
                &&& hosts_exist(self.jobs@[plan[i].job_id].worker_to_host@, self.host_busy@.len())
                &&& hosts_exist(merged_hosts(self.jobs@, plan[i]), self.host_busy@.len())
            }
        &&& plan_claims(self.jobs@, plan, plan.len()).no_duplicates()
        &&& forall|k: int|
            0 <= k < plan_claims(self.jobs@, plan, plan.len()).len() ==> !free[(#[trigger] plan_claims(
                self.jobs@,
                plan,
                plan.len(),
            )[k]) as int]
    }

    /// Moves all jobs of a plan at once.
    pub fn apply_migration_plan(&mut self, plan: &MigrationPlan)
        requires
            old(self).wf(),
            old(self).plan_fits(plan.jobs@),
        ensures
            final(self).wf(),
            final(self).host_busy@.len() == old(self).host_busy@.len(),
            plan_applied(old(self), final(self), plan.jobs@),
    {
        let ghost jobs0 = self.jobs@;
        let ghost p = plan.jobs@;
        let mut i: usize = 0;
        while i < plan.jobs.len()
            invariant
                i <= plan.jobs.len(),
                p == plan.jobs@,
                jobs0 == old(self).jobs@,
                old(self).plan_fits(p),
                self.host_busy@ == leave_all(old(self).host_busy@, false, jobs0, p, i as nat),
                self.host_assignment@ == leave_all(old(self).host_assignment@, None, jobs0, p, i as nat),
                self.host_busy@.len() == old(self).host_busy@.len(),
                self.host_assignment@.len() == self.host_busy@.len(),
                busy_if_assigned(self.host_busy@, self.host_assignment@),
                *self == (SimState {
                    host_busy: self.host_busy,
                    host_assignment: self.host_assignment,
                    ..*old(self)
                }),
            decreases plan.jobs.len() - i,
        {
            proof {
                assert(jobs0.contains_key(p[i as int].job_id));
            }
            let hosts = self.jobs.get(&plan.jobs[i].job_id).unwrap().get_assigned_hosts();
            proof {
                lemma_set_both(self.host_busy@, self.host_assignment@, hosts@, None, hosts@.len());
            }
            write_at(&mut self.host_busy, &hosts, false);
            write_at(&mut self.host_assignment, &hosts, None);
            i += 1;
        }
        let ghost b1 = self.host_busy@;
        let ghost a1 = self.host_assignment@;
        let mut k: usize = 0;
        while k < plan.jobs.len()
            invariant
                k <= plan.jobs.len(),
                p == plan.jobs@,
                jobs0 == old(self).jobs@,
                jobs_ok(jobs0),
                jobs_ok(self.jobs@),
                plan_distinct(p),
                old(self).plan_fits(p),
                self.jobs@.dom() == jobs0.dom(),
                forall|x: int|
                    0 <= x < k ==> job_moved(
                        jobs0[(#[trigger] p[x]).job_id],
                        self.jobs@[p[x].job_id],
                        p[x].worker_to_host@,
                    ),
                forall|j: JobId| #[trigger]
                    jobs0.contains_key(j) && (forall|x: int| 0 <= x < k ==> (#[trigger] p[x]).job_id != j)
                        ==> self.jobs@[j] == jobs0[j],
                self.host_busy@ == occupy_all(b1, jobs0, p, k as nat),
                self.host_assignment@ == assign_all(a1, jobs0, p, k as nat),
                self.context.host_to_worker@ == move_all(old(self).context.host_to_worker@, jobs0, p, k as nat),
                placement_views(self.context.placements@) == place_all(
                    placement_views(old(self).context.placements@),
                    jobs0,
                    p,
                    k as nat,
                ),
                self.host_busy@.len() == old(self).host_busy@.len(),
                self.host_assignment@.len() == self.host_busy@.len(),
                busy_if_assigned(self.host_busy@, self.host_assignment@),
                self.context.host_to_worker@.len() == old(self).context.host_to_worker@.len(),
                *self == (SimState {
                    jobs: self.jobs,
                    host_busy: self.host_busy,
                    host_assignment: self.host_assignment,
                    context: MLContext {
                        host_to_worker: self.context.host_to_worker,
                        placements: self.context.placements,
                        ..old(self).context
                    },
                    ..*old(self)
                }),
            decreases plan.jobs.len() - k,
        {
            let id: usize = plan.jobs[k].job_id;
            let ghost js = self.jobs@;
            proof {
                assert(jobs0.contains_key(p[k as int].job_id));
                assert forall|x: int| 0 <= x < k implies (#[trigger] p[x]).job_id != id by {
                    assert(p[x].job_id != p[k as int].job_id);
                }
                assert(js[id] == jobs0[id]);
            }
            let mut job = self.jobs.remove(&id).unwrap();
            let ghost job0 = job;
            let old_hosts = job.get_assigned_hosts();
            self.context.clear_hosts(&old_hosts);
            move_workers(&mut job, &plan.jobs[k].worker_to_host);
            let new_hosts = job.get_assigned_hosts();
            proof {
                lemma_set_both(self.host_busy@, self.host_assignment@, new_hosts@, Some(id), new_hosts@.len());
            }
            write_at(&mut self.host_busy, &new_hosts, true);
            write_at(&mut self.host_assignment, &new_hosts, Some(id));
            self.context.set_placement(id, &job.worker_to_host);
            self.context.put_on_hosts(id, &job.worker_to_host);
            proof {
                assert(job.worker_to_host@ == merged_hosts(jobs0, p[k as int]));
                lemma_moved_ok(job0, job, p[k as int].worker_to_host@);
            }
            self.jobs.insert(id, job);
            proof {
                assert(self.jobs@.dom() =~= jobs0.dom());
                assert forall|j: JobId| #[trigger] self.jobs@.contains_key(j) implies job_ok(&self.jobs@[j]) by {
                    if j != id {
                        assert(js.contains_key(j));
                    }
                }
                assert forall|x: int| 0 <= x < k + 1 implies job_moved(
                    jobs0[(#[trigger] p[x]).job_id],
                    self.jobs@[p[x].job_id],
                    p[x].worker_to_host@,
                ) by {
                    if x < k {
                        assert(p[x].job_id != p[k as int].job_id);
                        assert(self.jobs@[p[x].job_id] == js[p[x].job_id]);
                    }
                }
                assert forall|j: JobId| #[trigger]
                    jobs0.contains_key(j) && (forall|x: int| 0 <= x < k + 1 ==> (#[trigger] p[x]).job_id != j) implies self.jobs@[j]
                    == jobs0[j] by {
                    assert(p[k as int].job_id != j);
                    assert(forall|x: int| 0 <= x < k ==> (#[trigger] p[x]).job_id != j);
                    assert(js[j] == jobs0[j]);
                }
            }
            k += 1;
        }
    }
}

/// A table with the entries of `b` over those of `a`.
fn overlay(a: &DHashMap<WorkerId, usize>, b: &DHashMap<WorkerId, usize>) -> (r: DHashMap<WorkerId, usize>)
    ensures
        r@ == a@.union_prefer_right(b@),
{
    let mut r = a.duplicate();
    let keys = b.keys();
    let mut i: usize = 0;
    proof {
        assert(r@ =~= a@.union_prefer_right(b@.restrict(keys@.take(0).to_set())));
    }
    while i < keys.len()
        invariant
            i <= keys.len(),
            keys@.to_set() == b@.dom(),
            r@ == a@.union_prefer_right(b@.restrict(keys@.take(i as int).to_set())),
        decreases keys.len() - i,
    {
        let w: usize = keys[i];
        proof {
            assert(keys@.to_set().contains(w));
            assert(keys@.take(i + 1) =~= keys@.take(i as int).push(w));
            lemma_push_to_set(keys@.take(i as int), w);
        }
        r.insert(w, *b.get(&w).unwrap());
        proof {
            assert(r@ =~= a@.union_prefer_right(b@.restrict(keys@.take(i + 1).to_set())));
        }
        i += 1;
    }
    proof {
        assert(keys@.take(keys@.len() as int) =~= keys@);
        assert(b@.restrict(keys@.to_set()) =~= b@);
    }
    r
}

/// Whether every host of a placement exists.
fn check_hosts_exist(m: &DHashMap<WorkerId, usize>, n: usize) -> (r: bool)
    ensures
        r == hosts_exist(m@, n as nat),
{
    let hosts = table_hosts(m);
    let mut i: usize = 0;
    while i < hosts.len()
        invariant
            i <= hosts.len(),
            forall|k: int| 0 <= k < i ==> hosts@[k] < n,
            forall|k: int| 0 <= k < hosts@.len() ==> is_host_of(m@, #[trigger] hosts@[k]),
        decreases hosts.len() - i,
    {
        if hosts[i] >= n {
            proof {
                assert(is_host_of(m@, hosts@[i as int]));
            }
            return false;
        }
        i += 1;
    }
    proof {
        assert forall|w: WorkerId| #[trigger] m@.contains_key(w) implies m@[w] < n by {
            assert(hosts@.contains(m@[w]));
        }
    }
    true
}

/// Whether each job has one entry at most.
fn check_distinct(plan: &MigrationPlan) -> (r: bool)
    ensures
        r == plan_distinct(plan.jobs@),
{
    let mut j: usize = 0;
    while j < plan.jobs.len()
        invariant
            j <= plan.jobs.len(),
            forall|x: int, y: int| 0 <= x < y < j ==> plan.jobs@[x].job_id != plan.jobs@[y].job_id,
        decreases plan.jobs.len() - j,
    {
        let mut i: usize = 0;
        while i < j
            invariant
                i <= j,
                j < plan.jobs@.len(),
                forall|x: int| 0 <= x < i ==> (#[trigger] plan.jobs@[x]).job_id != plan.jobs@[j as int].job_id,
            decreases j - i,
        {
            if plan.jobs[i].job_id == plan.jobs[j].job_id {
                return false;
            }
            i += 1;
        }
        j += 1;
    }
    true
}

/// Whether one of the first `n` entries is for the job.
fn names_job(plan: &MigrationPlan, n: usize, job_id: JobId) -> (r: bool)
    requires
        n <= plan.jobs@.len(),
    ensures
        r == names_within(plan.jobs@, n as nat, job_id),
{
    let mut j: usize = 0;
    while j < n
        invariant
            j <= n <= plan.jobs@.len(),
            forall|x: int| 0 <= x < j ==> (#[trigger] plan.jobs@[x]).job_id != job_id,
        decreases n - j,
    {
        if plan.jobs[j].job_id == job_id {
            return true;
        }
        j += 1;
    }
    false
}

/// The last entry for the job that the entry at `i` is for.
fn find_last(plan: &MigrationPlan, i: usize) -> (r: usize)
    requires
        i < plan.jobs@.len(),
    ensures
        i <= r < plan.jobs@.len(),
        plan.jobs@[r as int].job_id == plan.jobs@[i as int].job_id,
        plan.jobs@[r as int].worker_to_host@ == awaited_hosts(plan.jobs@, plan.jobs@[i as int].job_id),
{
    let ghost p = plan.jobs@;
    let n: usize = plan.jobs.len();
    let mut last: usize = i;
    let mut k: usize = i + 1;
    proof {
        assert(p.take(i + 1).last() == p[i as int]);
    }
    while k < n
        invariant
            p == plan.jobs@,
            n == p.len(),
            i <= last < k <= p.len(),
            p[last as int].job_id == p[i as int].job_id,
            p[last as int].worker_to_host@ == awaited_hosts(p.take(k as int), p[i as int].job_id),
        decreases p.len() - k,
    {
        proof {
            assert(p.take(k + 1).last() == p[k as int]);
            assert(p.take(k + 1).drop_last() =~= p.take(k as int));
        }
        if plan.jobs[k].job_id == plan.jobs[i].job_id {
            last = k;
        }
        k += 1;
    }
    proof {
        assert(p.take(p.len() as int) =~= p);
    }
    last
}

impl SimState {
    /// The plan can be prepared.
    pub open spec fn plan_ok(&self, plan: &MigrationPlan) -> bool {
        &&& plan_hosts_exist(plan.jobs@, self.host_assignment@.len())
        &&& plan_is_closed(plan.jobs@, self.host_assignment@)
    }

    /// Whether an entry, the last of its job, leads to hosts that are free, its own or those of jobs of
    /// the plan.
    fn check_entry_closed(&self, plan: &MigrationPlan, i: usize) -> (r: bool)
        requires
            i < plan.jobs@.len(),
            plan.jobs@[i as int].worker_to_host@ == awaited_hosts(plan.jobs@, plan.jobs@[i as int].job_id),
            hosts_exist(plan.jobs@[i as int].worker_to_host@, self.host_assignment@.len()),
        ensures
            r == move_is_closed(plan.jobs@, self.host_assignment@, plan.jobs@[i as int].job_id),
    {
        let hosts = table_hosts(&plan.jobs[i].worker_to_host);
        let ghost m = plan.jobs@[i as int].worker_to_host@;
        let n: usize = plan.jobs.len();
        let mut k: usize = 0;
        while k < hosts.len()
            invariant
                k <= hosts.len(),
                n == plan.jobs@.len(),
                i < plan.jobs@.len(),
                m == plan.jobs@[i as int].worker_to_host@,
                m == awaited_hosts(plan.jobs@, plan.jobs@[i as int].job_id),
                hosts_exist(m, self.host_assignment@.len()),
                forall|x: int| 0 <= x < hosts@.len() ==> is_host_of(m, #[trigger] hosts@[x]),
                forall|x: int|
                    0 <= x < k ==> match self.host_assignment@[(#[trigger] hosts@[x]) as int] {
                        Some(o) => o == plan.jobs@[i as int].job_id || names_within(plan.jobs@, n as nat, o),
                        None => true,
                    },
            decreases hosts.len() - k,
        {
            proof {
                assert(is_host_of(m, hosts@[k as int]));
                let w = choose|w: WorkerId| #[trigger] m.contains_key(w) && m[w] == hosts@[k as int];
                assert(m.contains_key(w));
            }
            if let Some(o) = self.host_assignment[hosts[k]] {
                if o != plan.jobs[i].job_id && !names_job(plan, n, o) {
                    return false;
                }
            }
            k += 1;
        }
        proof {
            assert forall|w: WorkerId| #[trigger] m.contains_key(w) implies match self.host_assignment@[m[w] as int] {
                Some(o) => o == plan.jobs@[i as int].job_id || names_within(plan.jobs@, n as nat, o),
                None => true,
            } by {
                assert(hosts@.contains(m[w]));
                let x = choose|x: int| 0 <= x < hosts@.len() && hosts@[x] == m[w];
            }
        }
        true
    }

    /// Whether the plan can be prepared.
    pub fn check_plan(&self, plan: &MigrationPlan) -> (r: bool)
        ensures
            r == self.plan_ok(plan),
    {
        let n: usize = self.host_assignment.len();
        let mut i: usize = 0;
        while i < plan.jobs.len()
            invariant
                i <= plan.jobs.len(),
                n == self.host_assignment@.len(),
                forall|x: int|
                    0 <= x < i ==> hosts_exist(awaited_hosts(plan.jobs@, (#[trigger] plan.jobs@[x]).job_id), n as nat),
                forall|x: int|
                    0 <= x < i ==> move_is_closed(
                        plan.jobs@,
                        self.host_assignment@,
                        (#[trigger] plan.jobs@[x]).job_id,
                    ),
            decreases plan.jobs.len() - i,
        {
            let last: usize = find_last(plan, i);
            if !check_hosts_exist(&plan.jobs[last].worker_to_host, n) {
                return false;
            }
            if !self.check_entry_closed(plan, last) {
                return false;
            }
            i += 1;
        }
        true
    }

    /// Whether the plan can be applied at once.
    pub fn check_plan_fits(&self, plan: &MigrationPlan) -> (r: bool)
        requires
            self.wf(),
        ensures
            r == self.plan_fits(plan.jobs@),
    {
        let ghost p = plan.jobs@;
        let ghost jobs = self.jobs@;
        if !check_distinct(plan) {
            return false;
        }
        let n: usize = self.host_busy.len();
        let mut free: Vec<bool> = Vec::new();
        let mut h: usize = 0;
        while h < n
            invariant
                h <= n,
                n == self.host_busy@.len(),
                free@ == self.host_busy@.take(h as int),
            decreases n - h,
        {
            free.push(self.host_busy[h]);
            proof {
                assert(self.host_busy@.take(h + 1) =~= self.host_busy@.take(h as int).push(self.host_busy@[h as int]));
            }
            h += 1;
        }
        proof {
            assert(self.host_busy@.take(n as int) =~= self.host_busy@);
        }
        let mut claims: Vec<usize> = Vec::new();
        let mut i: usize = 0;
        while i < plan.jobs.len()
            invariant
                i <= plan.jobs.len(),
                n == self.host_busy@.len(),
                p == plan.jobs@,
                jobs == self.jobs@,
                free@ == leave_all(self.host_busy@, false, jobs, p, i as nat),
                free@.len() == n,
                claims@ == plan_claims(jobs, p, i as nat),
                forall|k: int| 0 <= k < claims@.len() ==> (#[trigger] claims@[k]) < n,
                forall|x: int| #![trigger p[x]]
                    0 <= x < i ==> {
                        &&& jobs.contains_key(p[x].job_id)
                        &&& merged_hosts(jobs, p[x]).dom().len() == jobs[p[x].job_id].num_workers
                        &&& hosts_exist(jobs[p[x].job_id].worker_to_host@, n as nat)
                        &&& hosts_exist(merged_hosts(jobs, p[x]), n as nat)
                    },
            decreases plan.jobs.len() - i,
        {
            let job = match self.jobs.get(&plan.jobs[i].job_id) {
                Some(job) => job,
                None => {
                    proof {
                        assert(!jobs.contains_key(p[i as int].job_id));
                    }
                    return false;
                },
            };
            let merged = overlay(&job.worker_to_host, &plan.jobs[i].worker_to_host);
            proof {
                assert(merged@ == merged_hosts(jobs, p[i as int]));
            }
            if merged.len() != job.num_workers || !check_hosts_exist(&job.worker_to_host, n) || !check_hosts_exist(
                &merged,
                n,
            ) {
                proof {
                    assert(p[i as int] == p[i as int]);
                }
                return false;
            }
            let hosts = job.get_assigned_hosts();
            write_at(&mut free, &hosts, false);
            let mut next = table_hosts(&merged);
            proof {
                assert forall|k: int| 0 <= k < next@.len() implies (#[trigger] next@[k]) < n by {
                    assert(is_host_of(merged@, next@[k]));
                }
            }
            claims.append(&mut next);
            i += 1;
        }
        let mut k: usize = 0;
        while k < claims.len()
            invariant
                k <= claims.len(),
                n == self.host_busy@.len(),
                p == plan.jobs@,
                jobs == self.jobs@,
                claims@ == plan_claims(jobs, p, p.len()),
                free@.len() == n,
                forall|x: int| 0 <= x < claims@.len() ==> (#[trigger] claims@[x]) < n,
                forall|x: int, y: int| 0 <= x < y < k ==> claims@[x] != claims@[y],
                forall|x: int|
                    0 <= x < k ==> !leave_all(self.host_busy@, false, jobs, p, p.len())[(#[trigger] claims@[x]) as int],
                forall|g: int|
                    0 <= g < n ==> (#[trigger] free@[g]) == (leave_all(self.host_busy@, false, jobs, p, p.len())[g] || (
                    exists|x: int| 0 <= x < k && #[trigger] claims@[x] == g)),
            decreases claims.len() - k,
        {
            let c: usize = claims[k];
            if free[c] {
                proof {
                    let all = plan_claims(jobs, p, p.len());
                    if leave_all(self.host_busy@, false, jobs, p, p.len())[c as int] {
                        assert(all[k as int] == c);
                    } else {
                        let x = choose|x: int| 0 <= x < k && #[trigger] claims@[x] == c;
                        assert(all[x] == all[k as int]);
                    }
                }
                return false;
            }
            free.set(c, true);
            proof {
                assert forall|g: int| 0 <= g < n implies (#[trigger] free@[g]) == (leave_all(
                    self.host_busy@,
                    false,
                    jobs,
                    p,
                    p.len(),
                )[g] || (exists|x: int| 0 <= x < k + 1 && #[trigger] claims@[x] == g)) by {
                    if exists|x: int| 0 <= x < k && #[trigger] claims@[x] == g {
                        let x = choose|x: int| 0 <= x < k && #[trigger] claims@[x] == g;
                        assert(0 <= x < k + 1 && claims@[x] == g);
                    }
                    assert(claims@[k as int] == c);
                }
                assert forall|x: int, y: int| 0 <= x < y < k + 1 implies claims@[x] != claims@[y] by {
                    if y == k && claims@[x] == c {
                        assert(exists|z: int| 0 <= z < k && #[trigger] claims@[z] == c);
                    }
                }
            }
            k += 1;
        }
        true
    }
}

} // verus!
