//! What generated and described jobs promise.

use vstd::multiset::Multiset;
use vstd::prelude::*;

use crate::routing::intensity::{with_steps, worker_totals};
use crate::simulator::event_queue::{MLEvent, MLEventKind};
use crate::simulator::ml_job::MLJob;
use crate::simulator::ml_worker::{EventView, JobId, WorkerEventKind, WorkerId};
use crate::utils::compatibility::{description, steps_before, Step};
use crate::utils::job_gen::{is_ring_job, with_arrivals};
use crate::utils::job_loader::{
    find_name, lemma_insert_get, loaded, most_rings, or_default, pipeline_ok, replicas_for, step_compute_us, step_rings,
    total_compute_us, JobDefinition, JobStep, PipelineParams, DEFAULT_BACKWARD_US, DEFAULT_FORWARD_US,
};

verus! {

/// Each worker of a ring computes, and then sends to a worker that receives as much from it.
pub proof fn lemma_ring_closes(job: MLJob, id: JobId, n: nat, compute_us: u64, size_bytes: u64, w: WorkerId)
    requires
        2 <= n <= usize::MAX,
        is_ring_job(job, id, n, compute_us, size_bytes),
        w < n,
    ensures
        ({
            let t = job.workers@[w].templates();
            let next = t[1].flow_send->0.dst_worker;
            let u = job.workers@[next].templates();
            &&& t.len() == 3
            &&& t[0].kind == WorkerEventKind::Compute && t[0].compute->0.duration_us == compute_us
            &&& t[0].dependencies.len() == 0
            &&& t[1].kind == WorkerEventKind::FlowSend && t[1].flow_send->0.size_bytes == size_bytes
            &&& t[1].dependencies == seq![t[0].id]
            &&& t[2].kind == WorkerEventKind::FlowReceive && t[2].flow_receive->0.size_bytes == size_bytes
            &&& t[2].dependencies == seq![t[0].id]
            &&& next < n
            &&& next != w
            &&& next == w + 1 || (w == n - 1 && next == 0)
            &&& u[2].flow_receive->0.src_worker == w
        }),
{
    let (x, m) = (w as int, n as int);
    assert(job.workers@.contains_key(w));
    if x + 1 < m {
        vstd::arithmetic::div_mod::lemma_small_mod((x + 1) as nat, n);
        let next = (w + 1) as usize;
        assert(job.workers@.contains_key(next));
        vstd::arithmetic::div_mod::lemma_mod_add_multiples_vanish(x, m);
        vstd::arithmetic::div_mod::lemma_small_mod(x as nat, n);
        assert((next + m - 1) % m == x);
    } else {
        vstd::arithmetic::div_mod::lemma_mod_self_0(m);
        assert(job.workers@.contains_key(0usize));
        vstd::arithmetic::div_mod::lemma_small_mod((m - 1) as nat, n);
    }
}

/// The jobs arrive one after the other, one in each microsecond; other events stay.
pub proof fn lemma_arrivals(q: Multiset<MLEvent>, n: nat, i: nat)
    requires
        n <= usize::MAX,
        n <= u64::MAX,
    ensures
        i < n ==> exists|e: MLEvent|
            #[trigger] with_arrivals(q, n).count(e) == q.count(e) + 1 && e.time_us == i && e.kind == MLEventKind::JobArrival
                && e.job_id == Some(i as usize),
        with_arrivals(q, n).len() == q.len() + n,
        forall|e: MLEvent|
            e.kind != MLEventKind::JobArrival ==> #[trigger] with_arrivals(q, n).count(e) == q.count(e),
        forall|e: MLEvent| e.time_us >= n ==> #[trigger] with_arrivals(q, n).count(e) == q.count(e),
    decreases n,
{
    broadcast use vstd::multiset::group_multiset_axioms;

    if n > 0 {
        lemma_arrivals(q, (n - 1) as nat, i);
        let before = with_arrivals(q, (n - 1) as nat);
        let new = MLEvent::of_job((n - 1) as u64, MLEventKind::JobArrival, (n - 1) as usize);
        if i == n - 1 {
            assert(new.time_us >= n - 1);
            assert(before.count(new) == q.count(new));
            assert(with_arrivals(q, n).count(new) == q.count(new) + 1);
        } else if i < n - 1 {
            let e = choose|e: MLEvent|
                #[trigger] before.count(e) == q.count(e) + 1 && e.time_us == i && e.kind == MLEventKind::JobArrival
                    && e.job_id == Some(i as usize);
            assert(e != new);
            assert(with_arrivals(q, n).count(e) == q.count(e) + 1);
        }
    }
}

/// How long the first `n` events compute.
pub open spec fn computed(t: Seq<EventView>, n: nat) -> nat
    decreases n,
{
    if n == 0 {
        0
    } else {
        computed(t, (n - 1) as nat) + if t[n - 1].kind == WorkerEventKind::Compute && t[n - 1].compute is Some {
            t[n - 1].compute->0.duration_us as nat
        } else {
            0
        }
    }
}

/// How long the first `n` steps compute.
pub open spec fn step_time(steps: Seq<Step>, n: nat) -> nat
    decreases n,
{
    if n == 0 {
        0
    } else {
        step_time(steps, (n - 1) as nat) + steps[n - 1].compute_us as nat
    }
}

/// The event is a send with something to send.
pub open spec fn is_send(e: EventView) -> bool {
    e.kind == WorkerEventKind::FlowSend && e.flow_send is Some
}

/// Sends among the first `n` events.
pub open spec fn sends(t: Seq<EventView>, n: nat) -> nat
    decreases n,
{
    if n == 0 {
        0
    } else {
        sends(t, (n - 1) as nat) + if is_send(t[n - 1]) {
            1nat
        } else {
            0nat
        }
    }
}

proof fn lemma_step_time_push(steps: Seq<Step>, s: Step, n: nat)
    requires
        n <= steps.len(),
    ensures
        step_time(steps.push(s), n) == step_time(steps, n),
    decreases n,
{
    if n > 0 {
        lemma_step_time_push(steps, s, (n - 1) as nat);
    }
}

proof fn lemma_steps_before(t: Seq<EventView>, n: nat, m: nat)
    requires
        n <= m <= t.len(),
        computed(t, m) <= u64::MAX,
    ensures
        computed(t, n) <= computed(t, m),
        ({
            let (steps, acc) = steps_before(t, n);
            &&& step_time(steps, steps.len()) + acc == computed(t, n)
            &&& steps.len() == sends(t, n)
            &&& forall|i: int| 0 <= i < steps.len() ==> (#[trigger] steps[i]).flow is Some
            &&& forall|k: int|
                0 <= k < n && is_send(#[trigger] t[k]) ==> sends(t, k as nat) < steps.len() && steps[sends(
                    t,
                    k as nat,
                ) as int].flow->0.template_id == t[k].template_id && steps[sends(t, k as nat) as int].flow->0.size_bytes
                    == t[k].flow_send->0.size_bytes
        }),
    decreases m, n,
{
    if n < m {
        lemma_computed_grows(t, n, m);
        lemma_steps_before(t, n, n);
    } else if n > 0 {
        lemma_computed_grows(t, (n - 1) as nat, n);
        lemma_steps_before(t, (n - 1) as nat, (n - 1) as nat);
        let (rest, acc) = steps_before(t, (n - 1) as nat);
        let (steps, _) = steps_before(t, n);
        if is_send(t[n - 1]) {
            lemma_step_time_push(rest, steps[rest.len() as int], rest.len());
        }
    }
}

proof fn lemma_computed_grows(t: Seq<EventView>, n: nat, m: nat)
    requires
        n <= m,
    ensures
        computed(t, n) <= computed(t, m),
    decreases m,
{
    if n < m {
        lemma_computed_grows(t, n, (m - 1) as nat);
    }
}

/// The steps of a worker have the sends of its events, in order, and compute as long as its events do. A step without a
/// send comes last, if at all.
pub proof fn lemma_description(t: Seq<EventView>)
    requires
        computed(t, t.len()) <= u64::MAX,
    ensures
        ({
            let steps = description(t);
            &&& step_time(steps, steps.len()) == computed(t, t.len())
            &&& sends(t, t.len()) <= steps.len() <= sends(t, t.len()) + 1
            &&& forall|i: int| 0 <= i < steps.len() ==> (#[trigger] steps[i]).flow is Some == (i < sends(t, t.len()))
            &&& forall|k: int|
                0 <= k < t.len() && is_send(#[trigger] t[k]) ==> steps[sends(t, k as nat) as int].flow->0.template_id
                    == t[k].template_id && steps[sends(t, k as nat) as int].flow->0.size_bytes == t[k].flow_send->0.size_bytes
        }),
{
    lemma_steps_before(t, t.len(), t.len());
    let (steps, acc) = steps_before(t, t.len());
    if acc > 0 {
        lemma_step_time_push(steps, Step { compute_us: acc, flow: None }, steps.len());
    }
}

/// Bytes that the first `n` steps send.
pub open spec fn step_bytes(steps: Seq<Step>, n: nat) -> nat
    decreases n,
{
    if n == 0 {
        0
    } else {
        step_bytes(steps, (n - 1) as nat) + if steps[n - 1].flow is Some {
            steps[n - 1].flow->0.size_bytes as nat
        } else {
            0
        }
    }
}

/// How long the first `n` workers compute, and how much they send.
pub open spec fn all_work(workers: Seq<Seq<Step>>, n: nat) -> (nat, nat)
    decreases n,
{
    if n == 0 {
        (0, 0)
    } else {
        let (c, b) = all_work(workers, (n - 1) as nat);
        let w = workers[n - 1];
        (c + step_time(w, w.len()), b + step_bytes(w, w.len()))
    }
}

proof fn lemma_with_steps(start: (u128, u128), steps: Seq<Step>, n: nat)
    requires
        n <= steps.len(),
        start.0 + step_time(steps, n) <= u128::MAX,
        start.1 + step_bytes(steps, n) <= u128::MAX,
    ensures
        with_steps(start, steps, n).0 == start.0 + step_time(steps, n),
        with_steps(start, steps, n).1 == start.1 + step_bytes(steps, n),
    decreases n,
{
    if n > 0 {
        lemma_with_steps(start, steps, (n - 1) as nat);
    }
}

/// The totals of a job are the sums over all steps of all its workers.
pub proof fn lemma_worker_totals(workers: Seq<Seq<Step>>, n: nat)
    requires
        n <= workers.len(),
        all_work(workers, n).0 <= u128::MAX,
        all_work(workers, n).1 <= u128::MAX,
    ensures
        worker_totals(workers, n).0 == all_work(workers, n).0,
        worker_totals(workers, n).1 == all_work(workers, n).1,
    decreases n,
{
    if n > 0 {
        lemma_worker_totals(workers, (n - 1) as nat);
        lemma_with_steps(worker_totals(workers, (n - 1) as nat), workers[n - 1], workers[n - 1].len());
    }
}

/// A job type is that of the last file with its name.
pub proof fn lemma_last_file_counts(files: Seq<(String, JobDefinition)>, n: nat, k: int)
    requires
        0 <= k < n <= files.len(),
        forall|i: int| k < i < n ==> (#[trigger] files[i]).0@ != files[k].0@,
    ensures
        ({
            let list = loaded(files, n);
            match find_name(list, files[k].0@, list.len()) {
                Some(i) => list[i].1 == files[k].1,
                None => false,
            }
        }),
    decreases n,
{
    let before = loaded(files, (n - 1) as nat);
    lemma_insert_get(before, files[n - 1].0, files[n - 1].1, files[k].0@);
    if k < n - 1 {
        lemma_last_file_counts(files, (n - 1) as nat, k);
    }
}

/// A name that no file has is not known.
pub proof fn lemma_unknown_name(files: Seq<(String, JobDefinition)>, n: nat, name: Seq<char>)
    requires
        n <= files.len(),
        forall|i: int| 0 <= i < n ==> (#[trigger] files[i]).0@ != name,
    ensures
        find_name(loaded(files, n), name, loaded(files, n).len()) is None,
    decreases n,
{
    if n > 0 {
        lemma_unknown_name(files, (n - 1) as nat, name);
        lemma_insert_get(loaded(files, (n - 1) as nat), files[n - 1].0, files[n - 1].1, name);
    }
}

/// A job has as many rings as the step with the most of them, and at least one.
pub proof fn lemma_most_rings(steps: Seq<JobStep>, num_workers: int, n: nat)
    requires
        n <= steps.len(),
    ensures
        most_rings(steps, num_workers, n) >= 1,
        forall|i: int| 0 <= i < n ==> step_rings(#[trigger] steps[i], num_workers) <= most_rings(steps, num_workers, n),
        most_rings(steps, num_workers, n) > 1 ==> exists|i: int|
            0 <= i < n && step_rings(#[trigger] steps[i], num_workers) == most_rings(steps, num_workers, n),
    decreases n,
{
    if n > 0 {
        lemma_most_rings(steps, num_workers, (n - 1) as nat);
        let most = most_rings(steps, num_workers, n);
        if most > 1 {
            if most == most_rings(steps, num_workers, (n - 1) as nat) {
                let i = choose|i: int| 0 <= i < n - 1 && step_rings(#[trigger] steps[i], num_workers) == most;
                assert(step_rings(steps[i], num_workers) == most);
            } else {
                assert(step_rings(steps[n - 1], num_workers) == most);
            }
        }
    }
}

/// Where the number of replicas is not given, stages and tensor groups of all replicas take all the workers.
pub proof fn lemma_whole_replicas(p: PipelineParams, num_workers: int)
    requires
        pipeline_ok(p, num_workers),
        p.dp_replicas is None,
    ensures
        replicas_for(p, num_workers) * (p.num_stages * p.tp_size) == num_workers,
{
    let d = p.num_stages * p.tp_size;
    vstd::arithmetic::div_mod::lemma_fundamental_div_mod(num_workers, d);
    assert(num_workers / d * d == d * (num_workers / d)) by (nonlinear_arith);
}

/// How long the forward and the backward pass of a stage take.
pub open spec fn pass_us(p: PipelineParams) -> int {
    or_default(p.forward_us, DEFAULT_FORWARD_US) + or_default(p.backward_us, DEFAULT_BACKWARD_US)
}

/// A single microbatch goes through each stage once, forward and backward; each further one takes one more pass of both.
pub proof fn lemma_pipeline_time(p: PipelineParams, q: PipelineParams)
    requires
        q.num_stages == p.num_stages,
        q.forward_us == p.forward_us,
        q.backward_us == p.backward_us,
        q.microbatches == p.microbatches + 1,
    ensures
        p.microbatches == 1 ==> step_compute_us(JobStep::Pipeline(p)) == p.num_stages * pass_us(p),
        step_compute_us(JobStep::Pipeline(q)) == step_compute_us(JobStep::Pipeline(p)) + pass_us(p),
{
    let (n, d) = (p.num_stages + p.microbatches - 1, pass_us(p));
    assert((n + 1) * d == n * d + d) by (nonlinear_arith);
}

/// The computation times of two lists of steps add up.
pub proof fn lemma_times_add(a: Seq<JobStep>, b: Seq<JobStep>, n: nat)
    requires
        n <= b.len(),
    ensures
        total_compute_us(a + b, a.len() + n) == total_compute_us(a, a.len()) + total_compute_us(b, n),
    decreases n,
{
    if n == 0 {
        lemma_same_times(a + b, a, a.len());
    } else {
        lemma_times_add(a, b, (n - 1) as nat);
        assert((a + b)[a.len() + n - 1] == b[n - 1]);
    }
}

proof fn lemma_same_times(a: Seq<JobStep>, b: Seq<JobStep>, n: nat)
    requires
        n <= a.len(),
        n <= b.len(),
        forall|i: int| 0 <= i < n ==> a[i] == #[trigger] b[i],
    ensures
        total_compute_us(a, n) == total_compute_us(b, n),
    decreases n,
{
    if n > 0 {
        lemma_same_times(a, b, (n - 1) as nat);
        assert(a[n - 1] == b[n - 1]);
    }
}

/// A computation takes the time that it says, and a step that only communicates takes none.
pub proof fn lemma_step_time(s: JobStep)
    ensures
        s matches JobStep::Compute(p) ==> total_compute_us(seq![s], 1) == p.duration_us,
        s is AllReduce || s is AllToAll || s is AllToAllRing || s is StridedRing ==> total_compute_us(seq![s], 1) == 0,
{
    reveal_with_fuel(total_compute_us, 2);
}

} // verus!
