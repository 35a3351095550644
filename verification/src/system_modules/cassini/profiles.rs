//! What the profiles of jobs promise.

use vstd::arithmetic::div_mod::{lemma_fundamental_div_mod, lemma_mod_bound};
use vstd::prelude::*;

use crate::simulator::ml_worker::{EventView, WorkerEventKind};
use crate::system_modules::cassini::profiler::{flow_intervals, is_analysis, last_end};
use crate::system_modules::cassini::timeline::{active_demand, phase_start, FlowInterval};
use crate::system_modules::cassini::timing::{
    event_demand, event_duration, event_spans, is_earliest, is_ranked, last_with, latest_end, lemma_event_spans,
};
use crate::system_modules::cassini::types::CommunicationPhase;
use crate::utils::compatibility::saturating_sum;

verus! {

/// The event moves so many bytes.
pub open spec fn moves(ev: EventView, size: u64) -> bool {
    ||| ev.kind == WorkerEventKind::FlowSend && ev.flow_send is Some && ev.flow_send->0.size_bytes == size
    ||| ev.kind == WorkerEventKind::FlowReceive && ev.flow_receive is Some && ev.flow_receive->0.size_bytes == size
}

/// A computation takes the time that it says, and demands nothing. A transfer takes the time in which its bytes are moved
/// at the throughput, without the rest, and demands as much as moves its bytes in that time.
pub proof fn lemma_event_times(ev: EventView, throughput: u64, size: u64)
    requires
        throughput > 0,
    ensures
        ev.kind == WorkerEventKind::Compute && ev.compute is Some ==> event_duration(ev, throughput)
            == ev.compute->0.duration_us,
        ev.kind == WorkerEventKind::Compute ==> event_demand(ev, throughput) == 0,
        moves(ev, size) ==> {
            let d = event_duration(ev, throughput);
            let demand = event_demand(ev, throughput);
            &&& d * throughput <= size < (d + 1) * throughput
            &&& d == 0 ==> demand == size
            &&& d > 0 ==> demand * d <= size < (demand + 1) * d
        },
{
    if moves(ev, size) {
        let d = size as int / throughput as int;
        lemma_fundamental_div_mod(size as int, throughput as int);
        lemma_mod_bound(size as int, throughput as int);
        assert(d * throughput <= size < (d + 1) * throughput) by (nonlinear_arith)
            requires
                size as int == throughput as int * d + size as int % throughput as int,
                0 <= size as int % (throughput as int) < throughput as int,
        ;
        if d > 0 {
            let q = size as int / d;
            lemma_fundamental_div_mod(size as int, d);
            lemma_mod_bound(size as int, d);
            assert(q * d <= size < (q + 1) * d) by (nonlinear_arith)
                requires
                    size as int == d * q + size as int % d,
                    0 <= size as int % d < d,
            ;
        }
    }
}

/// When a span starts.
pub open spec fn start_of(span: Option<(u64, u64)>) -> u64 {
    match span {
        Some((start, _)) => start,
        None => 0,
    }
}

/// When a span ends.
pub open spec fn end_of(span: Option<(u64, u64)>) -> u64 {
    match span {
        Some((_, end)) => end,
        None => 0,
    }
}

/// The last event with the identifier.
pub open spec fn is_last_with(events: Seq<EventView>, id: usize, q: int) -> bool {
    &&& 0 <= q < events.len()
    &&& events[q].id == id
    &&& forall|r: int| q < r < events.len() ==> (#[trigger] events[r]).id != id
}

proof fn lemma_is_last_with(events: Seq<EventView>, id: usize, q: int, n: nat)
    requires
        is_last_with(events, id, q),
        q < n <= events.len(),
    ensures
        last_with(events, id, n) == Some(q as nat),
    decreases n,
{
    if q < n - 1 {
        lemma_is_last_with(events, id, q, (n - 1) as nat);
    }
}

proof fn lemma_last_is(events: Seq<EventView>, id: usize, n: nat)
    requires
        n <= events.len(),
        forall|r: int| n <= r < events.len() ==> (#[trigger] events[r]).id != id,
    ensures
        last_with(events, id, n) matches Some(q) ==> is_last_with(events, id, q as int),
    decreases n,
{
    if n > 0 && events[n - 1].id != id {
        lemma_last_is(events, id, (n - 1) as nat);
    }
}

proof fn lemma_latest(events: Seq<EventView>, spans: Seq<Option<(u64, u64)>>, p: int, n: nat)
    requires
        0 <= p < events.len(),
        n <= events[p].dependencies.len(),
    ensures
        ({
            let last = latest_end(events, spans, p, n);
            &&& forall|i: int, q: int|
                0 <= i < n && #[trigger] is_last_with(events, events[p].dependencies[i], q) && spans[q] is Some
                    ==> end_of(spans[q]) <= last
            &&& last > 0 ==> exists|i: int, q: int|
                0 <= i < n && #[trigger] is_last_with(events, events[p].dependencies[i], q) && spans[q] is Some
                    && end_of(spans[q]) == last
        }),
    decreases n,
{
    if n > 0 {
        lemma_latest(events, spans, p, (n - 1) as nat);
        let last = latest_end(events, spans, p, n);
        let before = latest_end(events, spans, p, (n - 1) as nat);
        let id = events[p].dependencies[n - 1];
        lemma_last_is(events, id, events.len());
        assert forall|i: int, q: int|
            0 <= i < n && #[trigger] is_last_with(events, events[p].dependencies[i], q) && spans[q] is Some implies end_of(spans[q])
            <= last by {
            if i == n - 1 {
                lemma_is_last_with(events, id, q, events.len());
            }
        }
        if last > 0 {
            if last == before {
                let (i, q) = choose|i: int, q: int|
                    0 <= i < n - 1 && #[trigger] is_last_with(events, events[p].dependencies[i], q) && spans[q] is Some
                        && end_of(spans[q]) == before;
                assert(is_last_with(events, events[p].dependencies[i], q));
            } else {
                let q = last_with(events, id, events.len())->0 as int;
                assert(is_last_with(events, events[p].dependencies[n - 1], q));
            }
        }
    }
}

/// Where no event waits for itself, an event starts when the last of those that it waits for ends, or at once if it waits
/// for none. It ends when its time has passed.
pub proof fn lemma_event_starts(events: Seq<EventView>, throughput: u64, rank: Seq<nat>, p: int)
    requires
        is_ranked(events, rank),
        0 <= p < events.len(),
        forall|r: int| p < r < events.len() ==> (#[trigger] events[r]).id != events[p].id,
    ensures
        ({
            let spans = event_spans(events, throughput, events.len());
            &&& spans[p] is Some
            &&& forall|i: int, q: int|
                0 <= i < events[p].dependencies.len() && #[trigger] is_last_with(events, events[p].dependencies[i], q)
                    ==> spans[q] is Some && end_of(spans[q]) <= start_of(spans[p])
            &&& start_of(spans[p]) > 0 ==> exists|i: int, q: int|
                0 <= i < events[p].dependencies.len() && #[trigger] is_last_with(events, events[p].dependencies[i], q)
                    && end_of(spans[q]) == start_of(spans[p])
            &&& end_of(spans[p]) == if start_of(spans[p]) + event_duration(events[p], throughput) <= u64::MAX {
                start_of(spans[p]) + event_duration(events[p], throughput)
            } else {
                u64::MAX as int
            }
        }),
{
    let spans = event_spans(events, throughput, events.len());
    lemma_event_spans(events, throughput, rank);
    lemma_is_last_with(events, events[p].id, p, events.len());
    assert(is_earliest(events, throughput, spans, p));
    assert(last_with(events, events[p].id, events.len()) == Some(p as nat));
    assert(spans[p] is Some);
    lemma_latest(events, spans, p, events[p].dependencies.len());
    assert forall|i: int, q: int|
        0 <= i < events[p].dependencies.len() && #[trigger] is_last_with(events, events[p].dependencies[i], q) implies spans[q] is Some
        && end_of(spans[q]) <= start_of(spans[p]) by {
        lemma_is_last_with(events, events[p].dependencies[i], q, events.len());
        assert(last_with(events, events[p].dependencies[i], events.len()) == Some(q as nat));
    }
}

proof fn lemma_last_end(spans: Seq<Option<(u64, u64)>>, n: nat)
    requires
        n <= spans.len(),
    ensures
        forall|p: int| 0 <= p < n && (#[trigger] spans[p]) is Some ==> end_of(spans[p]) <= last_end(spans, n),
        last_end(spans, n) > 0 ==> exists|p: int|
            0 <= p < n && (#[trigger] spans[p]) is Some && end_of(spans[p]) == last_end(spans, n),
    decreases n,
{
    if n > 0 {
        lemma_last_end(spans, (n - 1) as nat);
        let last = last_end(spans, n);
        if last > 0 {
            if last == last_end(spans, (n - 1) as nat) {
                let p = choose|p: int| 0 <= p < n - 1 && (#[trigger] spans[p]) is Some && end_of(spans[p]) == last;
                assert(spans[p] is Some && end_of(spans[p]) == last);
            } else {
                assert(spans[n - 1] is Some && end_of(spans[n - 1]) == last);
            }
        }
    }
}

/// An iteration takes until the last of its events ends, and at least some time.
pub proof fn lemma_iteration_time(
    events: Seq<EventView>,
    throughput: u64,
    iteration_time_us: u64,
    phases: Seq<CommunicationPhase>,
)
    requires
        is_analysis(events, throughput, iteration_time_us, phases),
    ensures
        ({
            let spans = event_spans(events, throughput, events.len());
            &&& iteration_time_us > 0
            &&& forall|p: int| 0 <= p < spans.len() && (#[trigger] spans[p]) is Some ==> end_of(spans[p]) <= iteration_time_us
            &&& iteration_time_us > 1 ==> exists|p: int|
                0 <= p < spans.len() && (#[trigger] spans[p]) is Some && end_of(spans[p]) == iteration_time_us
            &&& phase_start(phases, phases.len()) == iteration_time_us
        }),
{
    let spans = event_spans(events, throughput, events.len());
    lemma_last_end(spans, spans.len());
}

/// What two lists of transfers demand together is the sum, as far as it fits.
pub proof fn lemma_demands_add(a: Seq<FlowInterval>, b: Seq<FlowInterval>, t: u64, n: nat)
    requires
        n <= b.len(),
    ensures
        active_demand(a + b, t, a.len() + n) == saturating_sum(active_demand(a, t, a.len()), active_demand(b, t, n)),
    decreases n,
{
    if n == 0 {
        lemma_demand_same(a + b, a, t, a.len());
    } else {
        lemma_demands_add(a, b, t, (n - 1) as nat);
        assert((a + b)[a.len() + n - 1] == b[n - 1]);
    }
}

proof fn lemma_demand_same(a: Seq<FlowInterval>, b: Seq<FlowInterval>, t: u64, n: nat)
    requires
        n <= a.len(),
        n <= b.len(),
        forall|i: int| 0 <= i < n ==> a[i] == #[trigger] b[i],
    ensures
        active_demand(a, t, n) == active_demand(b, t, n),
    decreases n,
{
    if n > 0 {
        lemma_demand_same(a, b, t, (n - 1) as nat);
        assert(a[n - 1] == b[n - 1]);
    }
}

/// A single transfer demands what it says from its start until its end, and else nothing.
pub proof fn lemma_single_demand(iv: FlowInterval, t: u64)
    ensures
        active_demand(seq![iv], t, 1) == if iv.start <= t && t < iv.end {
            iv.demand
        } else {
            0
        },
{
    reveal_with_fuel(active_demand, 2);
}

/// The transfer of an event.
pub open spec fn is_transfer_of(ev: EventView, throughput: u64, span: Option<(u64, u64)>, iv: FlowInterval) -> bool {
    &&& span is Some
    &&& iv.start == start_of(span)
    &&& iv.end == end_of(span)
    &&& iv.start < iv.end
    &&& iv.demand == event_demand(ev, throughput)
    &&& iv.demand > 0
    &&& event_duration(ev, throughput) > 0
}

/// The transfer is that of an event.
pub open spec fn is_of_event(events: Seq<EventView>, throughput: u64, spans: Seq<Option<(u64, u64)>>, iv: FlowInterval) -> bool {
    exists|p: int| 0 <= p < events.len() && is_transfer_of(#[trigger] events[p], throughput, spans[p], iv)
}

/// The transfers are those of the events that take time and demand something.
pub proof fn lemma_transfers_listed(events: Seq<EventView>, throughput: u64, spans: Seq<Option<(u64, u64)>>, n: nat)
    requires
        n <= events.len(),
    ensures
        ({
            let list = flow_intervals(events, throughput, spans, n);
            &&& forall|k: int| 0 <= k < list.len() ==> is_of_event(events, throughput, spans, #[trigger] list[k])
            &&& forall|p: int, iv: FlowInterval|
                0 <= p < n && #[trigger] is_transfer_of(events[p], throughput, spans[p], iv) ==> list.contains(iv)
        }),
    decreases n,
{
    if n > 0 {
        lemma_transfers_listed(events, throughput, spans, (n - 1) as nat);
        let rest = flow_intervals(events, throughput, spans, (n - 1) as nat);
        let list = flow_intervals(events, throughput, spans, n);
        assert forall|k: int| 0 <= k < list.len() implies is_of_event(events, throughput, spans, #[trigger] list[k]) by {
            if k < rest.len() {
                assert(list[k] == rest[k]);
            } else {
                assert(is_transfer_of(events[n - 1], throughput, spans[n - 1], list[k]));
            }
        }
        assert forall|p: int, iv: FlowInterval|
            0 <= p < n && #[trigger] is_transfer_of(events[p], throughput, spans[p], iv) implies list.contains(iv) by {
            if p < n - 1 {
                assert(rest.contains(iv));
                let x = choose|x: int| 0 <= x < rest.len() && rest[x] == iv;
                assert(list[x] == iv);
            } else {
                assert(list[list.len() - 1] == iv);
            }
        }
    }
}

proof fn lemma_active(list: Seq<FlowInterval>, t: u64, n: nat)
    requires
        n <= list.len(),
        forall|k: int| 0 <= k < list.len() ==> (#[trigger] list[k]).demand > 0,
    ensures
        (active_demand(list, t, n) > 0) == (exists|k: int| 0 <= k < n && (#[trigger] list[k]).start <= t && t < list[k].end),
    decreases n,
{
    if n > 0 {
        lemma_active(list, t, (n - 1) as nat);
        assert(list[n - 1].demand > 0);
        if active_demand(list, t, (n - 1) as nat) > 0 {
            let k = choose|k: int| 0 <= k < n - 1 && (#[trigger] list[k]).start <= t && t < list[k].end;
            assert(list[k].start <= t && t < list[k].end);
        } else if list[n - 1].start <= t && t < list[n - 1].end {
            assert(list[n - 1].start <= t);
        }
    }
}

/// At each moment of an iteration, the job is in a phase of communication exactly if the transfer of one of its events
/// runs.
pub proof fn lemma_communicates(
    events: Seq<EventView>,
    throughput: u64,
    iteration_time_us: u64,
    phases: Seq<CommunicationPhase>,
    i: int,
    t: u64,
)
    requires
        is_analysis(events, throughput, iteration_time_us, phases),
        0 <= i < phases.len(),
        phase_start(phases, i as nat) <= t < phase_start(phases, (i + 1) as nat),
    ensures
        ({
            let spans = event_spans(events, throughput, events.len());
            phases[i].is_up_phase == exists|p: int, iv: FlowInterval|
                0 <= p < events.len() && #[trigger] is_transfer_of(events[p], throughput, spans[p], iv) && iv.start <= t && t
                    < iv.end
        }),
{
    let spans = event_spans(events, throughput, events.len());
    let list = flow_intervals(events, throughput, spans, events.len());
    lemma_transfers_listed(events, throughput, spans, events.len());
    assert forall|k: int| 0 <= k < list.len() implies (#[trigger] list[k]).demand > 0 by {
        assert(is_of_event(events, throughput, spans, list[k]));
    }
    lemma_active(list, t, list.len());
    assert(phases[i].bandwidth_demand == active_demand(list, t, list.len()));
    if phases[i].is_up_phase {
        let k = choose|k: int| 0 <= k < list.len() && (#[trigger] list[k]).start <= t && t < list[k].end;
        assert(is_of_event(events, throughput, spans, list[k]));
        let p = choose|p: int| 0 <= p < events.len() && is_transfer_of(#[trigger] events[p], throughput, spans[p], list[k]);
        assert(is_transfer_of(events[p], throughput, spans[p], list[k]));
    }
    if exists|p: int, iv: FlowInterval|
        0 <= p < events.len() && #[trigger] is_transfer_of(events[p], throughput, spans[p], iv) && iv.start <= t && t < iv.end {
        let (p, iv) = choose|p: int, iv: FlowInterval|
            0 <= p < events.len() && #[trigger] is_transfer_of(events[p], throughput, spans[p], iv) && iv.start <= t && t < iv.end;
        assert(list.contains(iv));
        let k = choose|k: int| 0 <= k < list.len() && list[k] == iv;
        assert(list[k].start <= t && t < list[k].end);
    }
}

} // verus!
