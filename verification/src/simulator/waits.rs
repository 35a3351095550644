//! For whom jobs that are to move wait.

use vstd::prelude::*;

use crate::network::NetworkSimulator;
use crate::simulator::context::placement_views;
use crate::simulator::flow_scheduler::FlowScheduler;
use crate::simulator::job_scheduler::JobScheduler;
use crate::simulator::migration::{
    awaited_hosts, dependent_views, migrations_prepared, occupants, pending_views, plan_dependents, plan_pending, PendingView,
};
use crate::simulator::ml_job::MLJob;
use crate::simulator::ml_simulator::MLSimulator;
use crate::simulator::ml_worker::{JobId, WorkerId};
use crate::simulator::sim_state::SimState;
use crate::simulator::system::{JobMigration, MigrationPlan, SystemModule};

verus! {

/// No job has two entries.
pub open spec fn are_different_jobs(plan: Seq<JobMigration>) -> bool {
    forall|i: int, j: int| 0 <= i < j < plan.len() ==> (#[trigger] plan[i]).job_id != (#[trigger] plan[j]).job_id
}

/// The entry moves a worker to a host that another job has.
pub open spec fn is_in_the_way(assignment: Seq<Option<JobId>>, e: JobMigration, o: JobId) -> bool {
    o != e.job_id && exists|w: WorkerId| #[trigger]
        e.worker_to_host@.contains_key(w) && assignment[e.worker_to_host@[w] as int] == Some(o)
}

proof fn lemma_awaited(plan: Seq<JobMigration>, i: int)
    requires
        0 <= i < plan.len(),
        are_different_jobs(plan),
    ensures
        awaited_hosts(plan, plan[i].job_id) == plan[i].worker_to_host@,
    decreases plan.len(),
{
    if i < plan.len() - 1 {
        let short = plan.drop_last();
        assert(plan[i].job_id != plan[plan.len() - 1].job_id);
        assert(are_different_jobs(short)) by {
            assert forall|a: int, b: int| 0 <= a < b < short.len() implies (#[trigger] short[a]).job_id != (
            #[trigger] short[b]).job_id by {
                assert(plan[a].job_id != plan[b].job_id);
            }
        }
        lemma_awaited(short, i);
        assert(short[i] == plan[i]);
    }
}

proof fn lemma_plan_pending(
    pending: Map<JobId, PendingView>,
    placements: Map<JobId, Map<WorkerId, usize>>,
    jobs: Map<JobId, MLJob>,
    assignment: Seq<Option<JobId>>,
    plan: Seq<JobMigration>,
    n: nat,
    i: int,
)
    requires
        0 <= i < n <= plan.len(),
        are_different_jobs(plan),
    ensures
        ({
            let after = plan_pending(pending, placements, jobs, assignment, plan, n);
            let j = plan[i].job_id;
            &&& after.contains_key(j)
            &&& !after[j].at_barrier
            &&& !after[j].flows_started
            &&& forall|o: JobId| #[trigger] after[j].waiting_for.contains(o) == is_in_the_way(assignment, plan[i], o)
        }),
    decreases n,
{
    lemma_awaited(plan, i);
    if i < n - 1 {
        lemma_plan_pending(pending, placements, jobs, assignment, plan, (n - 1) as nat, i);
        assert(plan[i].job_id != plan[n - 1].job_id);
    } else {
        assert forall|o: JobId|
            occupants(assignment, plan[i].worker_to_host@, plan[i].job_id).contains(o) == is_in_the_way(assignment, plan[i], o) by {}
    }
}

proof fn lemma_plan_dependents(
    deps: Map<JobId, Set<JobId>>,
    assignment: Seq<Option<JobId>>,
    plan: Seq<JobMigration>,
    n: nat,
    i: int,
    o: JobId,
)
    requires
        0 <= i < n <= plan.len(),
        are_different_jobs(plan),
        is_in_the_way(assignment, plan[i], o),
    ensures
        plan_dependents(deps, assignment, plan, n).contains_key(o),
        plan_dependents(deps, assignment, plan, n)[o].contains(plan[i].job_id),
    decreases n,
{
    lemma_awaited(plan, i);
    if i < n - 1 {
        lemma_plan_dependents(deps, assignment, plan, (n - 1) as nat, i, o);
    } else {
        assert(occupants(assignment, plan[i].worker_to_host@, plan[i].job_id).contains(o));
    }
}

/// A job of a plan is not at its barrier yet. It waits for the other jobs that have a host which one of its workers moves
/// to, and for no others, and is noted with each of them.
pub proof fn lemma_waits_for_holders(before: &SimState, after: &SimState, plan: MigrationPlan, i: int)
    requires
        migrations_prepared(before, after, plan),
        are_different_jobs(plan.jobs@),
        0 <= i < plan.jobs@.len(),
    ensures
        ({
            let e = plan.jobs@[i];
            let p = pending_views(after.pending_job_migrations@);
            let d = dependent_views(after.migration_dependents@);
            &&& p.contains_key(e.job_id)
            &&& !p[e.job_id].at_barrier
            &&& !p[e.job_id].flows_started
            &&& forall|o: JobId| #[trigger]
                p[e.job_id].waiting_for.contains(o) == is_in_the_way(before.host_assignment@, e, o)
            &&& forall|o: JobId| #[trigger]
                is_in_the_way(before.host_assignment@, e, o) ==> d.contains_key(o) && d[o].contains(e.job_id)
        }),
{
    let list = plan.jobs@;
    lemma_plan_pending(
        pending_views(before.pending_job_migrations@),
        placement_views(before.context.placements@),
        before.jobs@,
        before.host_assignment@,
        list,
        list.len(),
        i,
    );
    assert forall|o: JobId| #[trigger] is_in_the_way(before.host_assignment@, list[i], o) implies dependent_views(
        after.migration_dependents@,
    ).contains_key(o) && dependent_views(after.migration_dependents@)[o].contains(list[i].job_id) by {
        lemma_plan_dependents(
            dependent_views(before.migration_dependents@),
            before.host_assignment@,
            list,
            list.len(),
            i,
            o,
        );
    }
}

/// A job that is not at its barrier, or still waits for another, does not move. One that is at its barrier, waits for none
/// and has not started does.
pub proof fn lemma_moves_when_free<S: JobScheduler, FS: FlowScheduler, M: SystemModule<S, FS>, N: NetworkSimulator>(
    before: MLSimulator<S, FS, M, N>,
    after: MLSimulator<S, FS, M, N>,
    job_id: JobId,
    o: JobId,
)
    requires
        before.tries_migration(after, job_id),
        before.state.pending_job_migrations@.contains_key(job_id),
    ensures
        ({
            let p = before.state.pending_job_migrations@[job_id]@;
            &&& !p.at_barrier || p.waiting_for.contains(o) || p.flows_started ==> after == before
            &&& p.at_barrier && !p.flows_started && (forall|x: JobId| !#[trigger] p.waiting_for.contains(x))
                ==> before.starts_migration(after, job_id)
        }),
{
    let p = before.state.pending_job_migrations@[job_id]@;
    if forall|x: JobId| !#[trigger] p.waiting_for.contains(x) {
        assert(p.waiting_for =~= Set::<JobId>::empty());
    }
}

/// A job that reaches its barrier is no longer waited for by those that waited for it.
pub proof fn lemma_no_longer_waits<S: JobScheduler, FS: FlowScheduler, M: SystemModule<S, FS>, N: NetworkSimulator>(
    before: MLSimulator<S, FS, M, N>,
    after: MLSimulator<S, FS, M, N>,
    dependent: JobId,
    job_id: JobId,
)
    requires
        before.frees(after, dependent, job_id),
        before.state.pending_job_migrations@.contains_key(dependent),
    ensures
        ({
            let p = before.state.pending_job_migrations@[dependent]@;
            let q = after.state.pending_job_migrations@[dependent]@;
            &&& !q.waiting_for.contains(job_id)
            &&& forall|x: JobId| x != job_id ==> #[trigger] q.waiting_for.contains(x) == p.waiting_for.contains(x)
            &&& q.moves == p.moves && q.at_barrier == p.at_barrier && q.flows_started == p.flows_started
        }),
        forall|j: JobId|
            j != dependent ==> #[trigger] after.state.pending_job_migrations@.contains_key(j)
                == before.state.pending_job_migrations@.contains_key(j),
{
}

} // verus!
