//! The demand of overlapping transfers over time.

use vstd::prelude::*;

use crate::system_modules::cassini::types::CommunicationPhase;
use crate::utils::compatibility::saturating_sum;

verus! {

/// A transfer with a constant demand.
#[derive(Debug, Clone, Copy, PartialEq, Eq, Structural)]
pub struct FlowInterval {
    pub start: u64,
    pub end: u64,
    pub demand: u64,
}

/// The transfer runs at a time.
pub open spec fn is_active(iv: FlowInterval, t: u64) -> bool {
    iv.start <= t < iv.end
}

/// The demand of the first `n` transfers at a time: the sum of those that run, or the largest number where
/// it does not fit.
pub open spec fn active_demand(list: Seq<FlowInterval>, t: u64, n: nat) -> u64
    decreases n,
{
    if n == 0 {
        0
    } else {
        let before = active_demand(list, t, (n - 1) as nat);
        if is_active(list[n - 1], t) {
            saturating_sum(before, list[n - 1].demand)
        } else {
            before
        }
    }
}

/// How long the first `n` phases take.
pub open spec fn phase_start(phases: Seq<CommunicationPhase>, n: nat) -> int
    decreases n,
{
    if n == 0 {
        0
    } else {
        phase_start(phases, (n - 1) as nat) + phases[n - 1].duration_us
    }
}

/// The phases are those of the transfers up to a time: in each the demand is constant, and it changes from
/// one to the next.
pub open spec fn is_timeline(list: Seq<FlowInterval>, total: u64, phases: Seq<CommunicationPhase>) -> bool {
    &&& phase_start(phases, phases.len()) == total
    &&& forall|i: int|
        0 <= i < phases.len() ==> (#[trigger] phases[i]).duration_us > 0 && phases[i].is_up_phase == (
        phases[i].bandwidth_demand > 0)
    &&& forall|i: int, j: int|
        0 <= i < phases.len() && j == i + 1 && j < phases.len() ==> (#[trigger] phases[i]).bandwidth_demand != (
        #[trigger] phases[j]).bandwidth_demand
    &&& forall|i: int, t: u64|
        0 <= i < phases.len() && phase_start(phases, i as nat) <= t < phase_start(phases, (i + 1) as nat) ==> (
        #[trigger] phases[i]).bandwidth_demand == #[trigger] active_demand(list, t, list.len())
}

proof fn lemma_same_starts(a: Seq<CommunicationPhase>, b: Seq<CommunicationPhase>, n: nat)
    requires
        n <= a.len(),
        n <= b.len(),
        forall|i: int| 0 <= i < n ==> (#[trigger] a[i]).duration_us == b[i].duration_us,
    ensures
        phase_start(a, n) == phase_start(b, n),
    decreases n,
{
    if n > 0 {
        lemma_same_starts(a, b, (n - 1) as nat);
    }
}

proof fn lemma_starts_ascend(phases: Seq<CommunicationPhase>, i: nat, j: nat)
    requires
        i <= j <= phases.len(),
    ensures
        0 <= phase_start(phases, i) <= phase_start(phases, j),
    decreases j,
{
    if i < j {
        lemma_starts_ascend(phases, i, (j - 1) as nat);
    } else if j > 0 {
        lemma_starts_ascend(phases, (i - 1) as nat, (j - 1) as nat);
    }
}

/// No transfer starts or ends after one time and before another.
spec fn is_quiet(list: Seq<FlowInterval>, t: u64, next: u64, n: nat) -> bool {
    forall|i: int|
        0 <= i < n ==> ((#[trigger] list[i]).start <= t || list[i].start >= next) && (list[i].end <= t || list[i].end
            >= next)
}

proof fn lemma_quiet(list: Seq<FlowInterval>, t: u64, next: u64, u: u64, n: nat)
    requires
        n <= list.len(),
        is_quiet(list, t, next, n),
        t <= u < next,
    ensures
        active_demand(list, u, n) == active_demand(list, t, n),
    decreases n,
{
    if n > 0 {
        lemma_quiet(list, t, next, u, (n - 1) as nat);
        assert((list[n - 1].start <= t || list[n - 1].start >= next) && (list[n - 1].end <= t || list[n - 1].end
            >= next));
    }
}

/// The demand at a time, and the next time up to a limit at which a transfer starts or ends.
fn look_ahead(list: &Vec<FlowInterval>, t: u64, limit: u64) -> (r: (u64, u64))
    requires
        t < limit,
    ensures
        r.0 == active_demand(list@, t, list@.len()),
        t < r.1 <= limit,
        is_quiet(list@, t, r.1, list@.len()),
{
    let mut demand: u64 = 0;
    let mut next: u64 = limit;
    let mut i: usize = 0;
    while i < list.len()
        invariant
            i <= list@.len(),
            t < next <= limit,
            demand == active_demand(list@, t, i as nat),
            is_quiet(list@, t, next, i as nat),
        decreases list@.len() - i,
    {
        let iv = list[i];
        if iv.start <= t && t < iv.end {
            demand = match demand.checked_add(iv.demand) {
                Some(d) => d,
                None => u64::MAX,
            };
        }
        if t < iv.start && iv.start < next {
            next = iv.start;
        }
        if t < iv.end && iv.end < next {
            next = iv.end;
        }
        i += 1;
    }
    (demand, next)
}

/// Another stretch of time is added to the phases.
proof fn lemma_timeline_next(
    list: Seq<FlowInterval>,
    t: u64,
    next: u64,
    demand: u64,
    before: Seq<CommunicationPhase>,
    after: Seq<CommunicationPhase>,
)
    requires
        is_timeline(list, t, before),
        t < next,
        demand == active_demand(list, t, list.len()),
        is_quiet(list, t, next, list.len()),
        ({
            let k = before.len() - 1;
            if before.len() > 0 && before[k].bandwidth_demand == demand {
                after == before.update(
                    k,
                    CommunicationPhase {
                        duration_us: (before[k].duration_us + (next - t)) as u64,
                        bandwidth_demand: demand,
                        is_up_phase: demand > 0,
                    },
                ) && before[k].duration_us + (next - t) <= u64::MAX
            } else {
                after == before.push(
                    CommunicationPhase { duration_us: (next - t) as u64, bandwidth_demand: demand, is_up_phase: demand > 0 },
                )
            }
        }),
    ensures
        is_timeline(list, next, after),
{
    let n = before.len();
    let merged = n > 0 && before[n - 1].bandwidth_demand == demand;
    let last = after.len() - 1;
    lemma_same_starts(before, after, last as nat);
    assert(phase_start(after, after.len()) == next);
    assert forall|i: int, j: int| 0 <= i < after.len() && j == i + 1 && j < after.len() implies (
    #[trigger] after[i]).bandwidth_demand != (#[trigger] after[j]).bandwidth_demand by {
        if j < last {
            assert(before[i].bandwidth_demand != before[j].bandwidth_demand);
        } else if merged {
            assert(before[i].bandwidth_demand != before[j].bandwidth_demand);
        }
    }
    assert forall|i: int, u: u64|
        0 <= i < after.len() && phase_start(after, i as nat) <= u < phase_start(after, (i + 1) as nat) implies (
    #[trigger] after[i]).bandwidth_demand == #[trigger] active_demand(list, u, list.len()) by {
        if i < last {
            lemma_same_starts(before, after, i as nat);
            lemma_same_starts(before, after, (i + 1) as nat);
            assert(before[i].bandwidth_demand == active_demand(list, u, list.len()));
        } else if u >= t {
            lemma_quiet(list, t, next, u, list.len());
        } else {
            assert(merged);
            assert(phase_start(before, n) == t);
            assert(before[i].bandwidth_demand == active_demand(list, u, list.len()));
        }
    }
}

/// The phases of transfers up to a time.
pub fn build_timeline(list: &Vec<FlowInterval>, total: u64) -> (r: Vec<CommunicationPhase>)
    ensures
        is_timeline(list@, total, r@),
{
    let mut phases: Vec<CommunicationPhase> = Vec::new();
    let mut t: u64 = 0;
    while t < total
        invariant
            t <= total,
            is_timeline(list@, t, phases@),
        decreases total - t,
    {
        let (demand, next): (u64, u64) = look_ahead(list, t, total);
        let ghost before = phases@;
        let n: usize = phases.len();
        if n > 0 && phases[n - 1].bandwidth_demand == demand {
            let d: u64 = phases[n - 1].duration_us;
            proof {
                lemma_starts_ascend(before, (n - 1) as nat, (n - 1) as nat);
                assert(phase_start(before, n as nat) == phase_start(before, (n - 1) as nat) + d);
            }
            phases.set(
                n - 1,
                CommunicationPhase { duration_us: d + (next - t), bandwidth_demand: demand, is_up_phase: demand > 0 },
            );
        } else {
            phases.push(
                CommunicationPhase { duration_us: next - t, bandwidth_demand: demand, is_up_phase: demand > 0 },
            );
        }
        proof {
            lemma_timeline_next(list@, t, next, demand, before, phases@);
        }
        t = next;
    }
    phases
}

/// The phases are determined by the transfers.
pub proof fn lemma_one_timeline(
    list: Seq<FlowInterval>,
    total: u64,
    a: Seq<CommunicationPhase>,
    b: Seq<CommunicationPhase>,
)
    requires
        is_timeline(list, total, a),
        is_timeline(list, total, b),
    ensures
        a == b,
{
    lemma_same_prefix(list, total, a, b, a.len());
    if a.len() < b.len() {
        lemma_same_starts(a, b, a.len());
        assert(b[a.len() as int].duration_us > 0);
        lemma_starts_ascend(b, (a.len() + 1) as nat, b.len());
    }
    assert(a =~= b);
}

proof fn lemma_same_prefix(
    list: Seq<FlowInterval>,
    total: u64,
    a: Seq<CommunicationPhase>,
    b: Seq<CommunicationPhase>,
    n: nat,
)
    requires
        is_timeline(list, total, a),
        is_timeline(list, total, b),
        n <= a.len(),
    ensures
        n <= b.len(),
        forall|i: int| 0 <= i < n ==> #[trigger] a[i] == b[i],
    decreases n,
{
    if n > 0 {
        let k = (n - 1) as nat;
        lemma_same_prefix(list, total, a, b, k);
        lemma_same_starts(a, b, k);
        lemma_starts_ascend(a, k, k);
        lemma_starts_ascend(a, n, a.len());
        let t = phase_start(a, k) as u64;
        assert(a[k as int].duration_us > 0);
        if k == b.len() {
            assert(false);
        }
        lemma_starts_ascend(b, n, b.len());
        assert(b[k as int].duration_us > 0);
        assert(a[k as int].bandwidth_demand == active_demand(list, t, list.len()));
        assert(b[k as int].bandwidth_demand == active_demand(list, t, list.len()));
        if a[k as int].duration_us < b[k as int].duration_us {
            lemma_no_longer(list, total, a, b, k);
        }
        if b[k as int].duration_us < a[k as int].duration_us {
            lemma_same_starts(b, a, k);
            lemma_no_longer(list, total, b, a, k);
        }
    }
}

/// A phase does not end before the demand changes.
proof fn lemma_no_longer(
    list: Seq<FlowInterval>,
    total: u64,
    a: Seq<CommunicationPhase>,
    b: Seq<CommunicationPhase>,
    k: nat,
)
    requires
        is_timeline(list, total, a),
        is_timeline(list, total, b),
        k < a.len(),
        k < b.len(),
        phase_start(a, k) == phase_start(b, k),
        a[k as int].bandwidth_demand == b[k as int].bandwidth_demand,
    ensures
        a[k as int].duration_us >= b[k as int].duration_us,
{
    if a[k as int].duration_us < b[k as int].duration_us {
        let u = phase_start(a, k + 1);
        assert(u == phase_start(a, k) + a[k as int].duration_us);
        assert(u < phase_start(b, k + 1));
        lemma_starts_ascend(a, k + 1, k + 1);
        lemma_starts_ascend(b, k + 1, b.len());
        if k + 1 < a.len() {
            assert(a[k as int + 1].duration_us > 0);
            lemma_starts_ascend(a, k, k);
            let t = u as u64;
            assert(phase_start(a, k + 2) == u + a[k as int + 1].duration_us);
            assert(a[k as int + 1].bandwidth_demand == active_demand(list, t, list.len()));
            assert(b[k as int].bandwidth_demand == active_demand(list, t, list.len()));
            assert(a[k as int].bandwidth_demand != a[k as int + 1].bandwidth_demand);
        }
    }
}

} // verus!
