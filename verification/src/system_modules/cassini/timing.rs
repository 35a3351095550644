//! When the events of an iteration can run at the earliest.

use vstd::prelude::*;

use crate::simulator::ml_worker::{event_views, EventView, WorkerEvent, WorkerEventKind};
use crate::utils::compatibility::saturating_sum;
use crate::utils::data::DHashMap;

verus! {

/// The bytes that an event moves, if it is a transfer.
pub open spec fn moved_bytes(ev: EventView) -> Option<u64> {
    match ev.kind {
        WorkerEventKind::Compute => None,
        WorkerEventKind::FlowSend => match ev.flow_send {
            Some(f) => Some(f.size_bytes),
            None => None,
        },
        WorkerEventKind::FlowReceive => match ev.flow_receive {
            Some(f) => Some(f.size_bytes),
            None => None,
        },
    }
}

/// How long an event takes, with transfers at a throughput.
pub open spec fn event_duration(ev: EventView, throughput: u64) -> u64 {
    match moved_bytes(ev) {
        Some(size) => size / throughput,
        None => match (ev.kind, ev.compute) {
            (WorkerEventKind::Compute, Some(c)) => c.duration_us,
            _ => 0,
        },
    }
}

/// The bytes that an event moves in each microsecond.
pub open spec fn event_demand(ev: EventView, throughput: u64) -> u64 {
    match moved_bytes(ev) {
        Some(size) => if event_duration(ev, throughput) > 0 {
            size / event_duration(ev, throughput)
        } else {
            size
        },
        None => 0,
    }
}

/// How long an event takes, and the bytes that it moves in each microsecond.
pub fn time_event(ev: &WorkerEvent, throughput: u64) -> (r: (u64, u64))
    requires
        throughput > 0,
    ensures
        r.0 == event_duration(ev@, throughput),
        r.1 == event_demand(ev@, throughput),
{
    let mut size: Option<u64> = None;
    match ev.kind {
        WorkerEventKind::Compute => {
            return match &ev.compute {
                Some(c) => (c.duration_us, 0),
                None => (0, 0),
            };
        },
        WorkerEventKind::FlowSend => {
            if let Some(f) = &ev.flow_send {
                size = Some(f.size_bytes);
            }
        },
        WorkerEventKind::FlowReceive => {
            if let Some(f) = &ev.flow_receive {
                size = Some(f.size_bytes);
            }
        },
    }
    match size {
        Some(bytes) => {
            let d: u64 = bytes / throughput;
            if d > 0 {
                (d, bytes / d)
            } else {
                (d, bytes)
            }
        },
        None => (0, 0),
    }
}

/// The last of the first `n` events that has an identifier.
pub open spec fn last_with(events: Seq<EventView>, id: usize, n: nat) -> Option<nat>
    decreases n,
{
    if n == 0 {
        None
    } else if events[n - 1].id == id {
        Some((n - 1) as nat)
    } else {
        last_with(events, id, (n - 1) as nat)
    }
}

/// An event with an identifier is found.
pub proof fn lemma_last_with(events: Seq<EventView>, id: usize, n: nat)
    requires
        n <= events.len(),
    ensures
        last_with(events, id, n) matches Some(p) ==> p < n && events[p as int].id == id,
        last_with(events, id, n) is None ==> forall|i: int| 0 <= i < n ==> (#[trigger] events[i]).id != id,
    decreases n,
{
    if n > 0 {
        lemma_last_with(events, id, (n - 1) as nat);
    }
}

/// How many events are not being gone into.
pub open spec fn count_free(open: Seq<bool>) -> nat
    decreases open.len(),
{
    if open.len() == 0 {
        0
    } else {
        count_free(open.drop_last()) + if open.last() {
            0nat
        } else {
            1nat
        }
    }
}

/// Going into an event leaves one less.
pub proof fn lemma_count_free(open: Seq<bool>, p: int)
    requires
        0 <= p < open.len(),
        !open[p],
    ensures
        count_free(open.update(p, true)) + 1 == count_free(open),
    decreases open.len(),
{
    let next = open.update(p, true);
    if p == open.len() - 1 {
        assert(next.drop_last() =~= open.drop_last());
    } else {
        assert(next.drop_last() =~= open.drop_last().update(p, true));
        lemma_count_free(open.drop_last(), p);
    }
}

/// When an event starts and ends: at the earliest after the events that it waits for. What was found out
/// so far is in `memo`. An event that waits for itself is taken to start at once.
pub open spec fn visited(
    events: Seq<EventView>,
    throughput: u64,
    p: nat,
    memo: Seq<Option<(u64, u64)>>,
    open: Seq<bool>,
) -> ((u64, u64), Seq<Option<(u64, u64)>>)
    decreases count_free(open), 0nat,
{
    if p >= open.len() {
        ((0, 0), memo)
    } else if memo[p as int] is Some {
        (memo[p as int]->0, memo)
    } else if open[p as int] {
        ((0, event_duration(events[p as int], throughput)), memo)
    } else {
        proof {
            lemma_count_free(open, p as int);
        }
        let (start, m) = awaited(
            events,
            throughput,
            p,
            events[p as int].dependencies.len(),
            memo,
            open.update(p as int, true),
        );
        let span = (start, saturating_sum(start, event_duration(events[p as int], throughput)));
        (span, m.update(p as int, Some(span)))
    }
}

/// When the first `n` events that an event waits for have ended.
pub open spec fn awaited(
    events: Seq<EventView>,
    throughput: u64,
    p: nat,
    n: nat,
    memo: Seq<Option<(u64, u64)>>,
    open: Seq<bool>,
) -> (u64, Seq<Option<(u64, u64)>>)
    decreases count_free(open), n,
{
    if n == 0 {
        (0, memo)
    } else {
        let (start, m) = awaited(events, throughput, p, (n - 1) as nat, memo, open);
        match last_with(events, events[p as int].dependencies[n - 1], events.len()) {
            None => (start, m),
            Some(q) => {
                let (span, m2) = visited(events, throughput, q, m, open);
                (
                    if span.1 > start {
                        span.1
                    } else {
                        start
                    },
                    m2,
                )
            },
        }
    }
}

/// When the first `n` events, and all that they wait for, start and end. Of events with the same identifier
/// only the last counts.
pub open spec fn event_spans(events: Seq<EventView>, throughput: u64, n: nat) -> Seq<Option<(u64, u64)>>
    decreases n,
{
    if n == 0 {
        Seq::new(events.len(), |i: int| None)
    } else {
        let memo = event_spans(events, throughput, (n - 1) as nat);
        match last_with(events, events[n - 1].id, events.len()) {
            Some(p) => visited(events, throughput, p, memo, Seq::new(events.len(), |i: int| false)).1,
            None => memo,
        }
    }
}

/// Where the identifiers are.
spec fn are_positions(events: Seq<EventView>, positions: Map<usize, usize>) -> bool {
    forall|id: usize|
        match #[trigger] last_with(events, id, events.len()) {
            Some(p) => positions.contains_key(id) && positions[id] == p,
            None => !positions.contains_key(id),
        }
}

fn visit_event(
    events: &Vec<WorkerEvent>,
    positions: &DHashMap<usize, usize>,
    throughput: u64,
    p: usize,
    memo: &mut Vec<Option<(u64, u64)>>,
    open: &mut Vec<bool>,
) -> (r: (u64, u64))
    requires
        throughput > 0,
        are_positions(event_views(events@), positions@),
        p < events@.len(),
        old(memo)@.len() == events@.len(),
        old(open)@.len() == events@.len(),
    ensures
        (r, final(memo)@) == visited(event_views(events@), throughput, p as nat, old(memo)@, old(open)@),
        final(memo)@.len() == events@.len(),
        final(open)@ == old(open)@,
    decreases count_free(old(open)@),
{
    let ghost views = event_views(events@);
    let ghost first = memo@;
    let ghost before = open@;
    if let Some(span) = memo[p] {
        return span;
    }
    let (duration, _): (u64, u64) = time_event(&events[p], throughput);
    if open[p] {
        return (0, duration);
    }
    open.set(p, true);
    let ghost inner = open@;
    proof {
        lemma_count_free(before, p as int);
    }
    let mut start: u64 = 0;
    let mut i: usize = 0;
    while i < events[p].dependencies.len()
        invariant
            p < events@.len(),
            i <= events@[p as int].dependencies@.len(),
            throughput > 0,
            views == event_views(events@),
            are_positions(views, positions@),
            memo@.len() == events@.len(),
            open@ == inner,
            inner.len() == events@.len(),
            count_free(inner) < count_free(old(open)@),
            (start, memo@) == awaited(views, throughput, p as nat, i as nat, first, inner),
        decreases events@[p as int].dependencies@.len() - i,
    {
        let id: usize = events[p].dependencies[i];
        proof {
            assert(views[p as int].dependencies[i as int] == id);
            lemma_last_with(views, id, views.len());
        }
        if let Some(q) = positions.get(&id) {
            let span: (u64, u64) = visit_event(events, positions, throughput, *q, memo, open);
            if span.1 > start {
                start = span.1;
            }
        }
        i += 1;
    }
    let finish: u64 = match start.checked_add(duration) {
        Some(f) => f,
        None => u64::MAX,
    };
    memo.set(p, Some((start, finish)));
    open.set(p, false);
    proof {
        assert(open@ =~= before);
    }
    (start, finish)
}

/// When the events start and end at the earliest.
pub fn compute_spans(events: &Vec<WorkerEvent>, throughput: u64) -> (r: Vec<Option<(u64, u64)>>)
    requires
        throughput > 0,
    ensures
        r@ == event_spans(event_views(events@), throughput, events@.len()),
        r@.len() == events@.len(),
{
    let ghost views = event_views(events@);
    let mut positions: DHashMap<usize, usize> = DHashMap::new();
    let mut memo: Vec<Option<(u64, u64)>> = Vec::new();
    let mut open: Vec<bool> = Vec::new();
    let mut i: usize = 0;
    while i < events.len()
        invariant
            i <= events@.len(),
            views == event_views(events@),
            memo@ =~= Seq::new(i as nat, |x: int| None),
            open@ =~= Seq::new(i as nat, |x: int| false),
            forall|id: usize|
                match #[trigger] last_with(views, id, i as nat) {
                    Some(p) => positions@.contains_key(id) && positions@[id] == p,
                    None => !positions@.contains_key(id),
                },
        decreases events@.len() - i,
    {
        assert(views[i as int].id == events@[i as int].id);
        let ghost known = positions@;
        positions.insert(events[i].id, i);
        proof {
            assert forall|id: usize|
                match #[trigger] last_with(views, id, (i + 1) as nat) {
                    Some(p) => positions@.contains_key(id) && positions@[id] == p,
                    None => !positions@.contains_key(id),
                } by {
                let l = last_with(views, id, i as nat);
                assert(match l {
                    Some(p) => known.contains_key(id) && known[id] == p,
                    None => !known.contains_key(id),
                });
            }
        }
        memo.push(None);
        open.push(false);
        i += 1;
    }
    let ghost closed = open@;
    assert(are_positions(views, positions@));
    i = 0;
    while i < events.len()
        invariant
            i <= events@.len(),
            throughput > 0,
            views == event_views(events@),
            are_positions(views, positions@),
            memo@.len() == events@.len(),
            open@ == closed,
            closed =~= Seq::new(events@.len(), |x: int| false),
            memo@ == event_spans(views, throughput, i as nat),
        decreases events@.len() - i,
    {
        proof {
            assert(views[i as int].id == events@[i as int].id);
            lemma_last_with(views, views[i as int].id, views.len());
            assert(open@ =~= Seq::new(views.len(), |x: int| false));
        }
        if let Some(p) = positions.get(&events[i].id) {
            visit_event(events, &positions, throughput, *p, &mut memo, &mut open);
        }
        i += 1;
    }
    memo
}

/// Each event has a higher rank than those that it waits for.
pub open spec fn is_ranked(events: Seq<EventView>, rank: Seq<nat>) -> bool {
    &&& rank.len() == events.len()
    &&& forall|p: int, i: int|
        0 <= p < events.len() && 0 <= i < events[p].dependencies.len() ==> match last_with(
            events,
            #[trigger] events[p].dependencies[i],
            events.len(),
        ) {
            Some(q) => rank[q as int] < rank[p],
            None => true,
        }
}

/// When the first `n` events that an event waits for have ended, by given times.
pub open spec fn latest_end(events: Seq<EventView>, spans: Seq<Option<(u64, u64)>>, p: int, n: nat) -> u64
    decreases n,
{
    if n == 0 {
        0
    } else {
        let before = latest_end(events, spans, p, (n - 1) as nat);
        match last_with(events, events[p].dependencies[n - 1], events.len()) {
            Some(q) => match spans[q as int] {
                Some((_, end)) => if end > before {
                    end
                } else {
                    before
                },
                None => before,
            },
            None => before,
        }
    }
}

/// An event starts when all that it waits for have ended, and takes its time.
pub open spec fn is_earliest(
    events: Seq<EventView>,
    throughput: u64,
    spans: Seq<Option<(u64, u64)>>,
    p: int,
) -> bool {
    spans[p] matches Some(span) ==> {
        &&& span.0 == latest_end(events, spans, p, events[p].dependencies.len())
        &&& span.1 == saturating_sum(span.0, event_duration(events[p], throughput))
        &&& all_known(events, spans, p)
    }
}

/// The times of all events that an event waits for are known.
pub open spec fn all_known(events: Seq<EventView>, spans: Seq<Option<(u64, u64)>>, p: int) -> bool {
    forall|i: int|
        0 <= i < events[p].dependencies.len() ==> match last_with(
            events,
            #[trigger] events[p].dependencies[i],
            events.len(),
        ) {
            Some(q) => spans[q as int] is Some,
            None => true,
        }
}

/// Times stay as they are once they are known.
spec fn grows(before: Seq<Option<(u64, u64)>>, after: Seq<Option<(u64, u64)>>) -> bool {
    &&& before.len() == after.len()
    &&& forall|p: int| 0 <= p < before.len() && (#[trigger] before[p]) is Some ==> after[p] == before[p]
}

/// All times that are known are the earliest.
spec fn are_earliest(events: Seq<EventView>, throughput: u64, memo: Seq<Option<(u64, u64)>>) -> bool {
    &&& memo.len() == events.len()
    &&& forall|p: int| 0 <= p < events.len() ==> #[trigger] is_earliest(events, throughput, memo, p)
}

/// Known ends stay as they are.
proof fn lemma_latest_grows(
    events: Seq<EventView>,
    before: Seq<Option<(u64, u64)>>,
    after: Seq<Option<(u64, u64)>>,
    p: int,
    n: nat,
)
    requires
        grows(before, after),
        before.len() == events.len(),
        0 <= p < events.len(),
        n <= events[p].dependencies.len(),
        forall|i: int|
            0 <= i < n ==> match last_with(events, #[trigger] events[p].dependencies[i], events.len()) {
                Some(q) => before[q as int] is Some,
                None => true,
            },
    ensures
        latest_end(events, after, p, n) == latest_end(events, before, p, n),
    decreases n,
{
    if n > 0 {
        lemma_latest_grows(events, before, after, p, (n - 1) as nat);
        let id = events[p].dependencies[n - 1];
        lemma_last_with(events, id, events.len());
    }
}

proof fn lemma_earliest_grows(
    events: Seq<EventView>,
    throughput: u64,
    before: Seq<Option<(u64, u64)>>,
    after: Seq<Option<(u64, u64)>>,
    p: int,
)
    requires
        grows(before, after),
        before.len() == events.len(),
        0 <= p < events.len(),
        before[p] is Some,
        is_earliest(events, throughput, before, p),
    ensures
        is_earliest(events, throughput, after, p),
{
    lemma_latest_grows(events, before, after, p, events[p].dependencies.len());
    assert forall|i: int| 0 <= i < events[p].dependencies.len() implies match last_with(
        events,
        #[trigger] events[p].dependencies[i],
        events.len(),
    ) {
        Some(q) => after[q as int] is Some,
        None => true,
    } by {
        lemma_last_with(events, events[p].dependencies[i], events.len());
        assert(all_known(events, before, p));
    }
}

proof fn lemma_visited(
    events: Seq<EventView>,
    throughput: u64,
    rank: Seq<nat>,
    p: nat,
    memo: Seq<Option<(u64, u64)>>,
    open: Seq<bool>,
)
    requires
        is_ranked(events, rank),
        are_earliest(events, throughput, memo),
        open.len() == events.len(),
        p < events.len(),
        forall|q: int| 0 <= q < open.len() && #[trigger] open[q] ==> rank[q] > rank[p as int],
    ensures
        ({
            let (span, m) = visited(events, throughput, p, memo, open);
            &&& are_earliest(events, throughput, m)
            &&& grows(memo, m)
            &&& m[p as int] == Some(span)
        }),
    decreases rank[p as int], 1nat, 0nat,
{
    if memo[p as int] is None {
        assert(!open[p as int]);
        let next = open.update(p as int, true);
        let n = events[p as int].dependencies.len();
        lemma_awaited(events, throughput, rank, p, n, memo, next);
        let (start, m) = awaited(events, throughput, p, n, memo, next);
        let span = (start, saturating_sum(start, event_duration(events[p as int], throughput)));
        let after = m.update(p as int, Some(span));
        if m[p as int] is Some {
            assert(is_earliest(events, throughput, m, p as int));
            assert(m[p as int] == Some(span));
            assert(after =~= m);
        }
        assert(grows(m, after));
        lemma_latest_grows(events, m, after, p as int, n);
        assert forall|r: int| 0 <= r < events.len() implies #[trigger] is_earliest(events, throughput, after, r) by {
            if r == p {
                assert forall|i: int| 0 <= i < n implies match last_with(
                    events,
                    #[trigger] events[r].dependencies[i],
                    events.len(),
                ) {
                    Some(q) => after[q as int] is Some,
                    None => true,
                } by {
                    lemma_last_with(events, events[r].dependencies[i], events.len());
                }
            } else if m[r] is Some {
                assert(is_earliest(events, throughput, m, r));
                lemma_earliest_grows(events, throughput, m, after, r);
            }
        }
        assert forall|r: int| 0 <= r < memo.len() && (#[trigger] memo[r]) is Some implies after[r] == memo[r] by {
            assert(m[r] == memo[r]);
        }
    }
}

proof fn lemma_awaited(
    events: Seq<EventView>,
    throughput: u64,
    rank: Seq<nat>,
    p: nat,
    n: nat,
    memo: Seq<Option<(u64, u64)>>,
    open: Seq<bool>,
)
    requires
        is_ranked(events, rank),
        are_earliest(events, throughput, memo),
        open.len() == events.len(),
        p < events.len(),
        n <= events[p as int].dependencies.len(),
        forall|q: int| 0 <= q < open.len() && #[trigger] open[q] ==> rank[q] >= rank[p as int],
    ensures
        ({
            let (start, m) = awaited(events, throughput, p, n, memo, open);
            &&& are_earliest(events, throughput, m)
            &&& grows(memo, m)
            &&& start == latest_end(events, m, p as int, n)
            &&& forall|i: int|
                0 <= i < n ==> match last_with(events, #[trigger] events[p as int].dependencies[i], events.len()) {
                    Some(q) => m[q as int] is Some,
                    None => true,
                }
        }),
    decreases rank[p as int], 0nat, n,
{
    if n > 0 {
        let k = (n - 1) as nat;
        lemma_awaited(events, throughput, rank, p, k, memo, open);
        let (start, m) = awaited(events, throughput, p, k, memo, open);
        let id = events[p as int].dependencies[n - 1];
        lemma_last_with(events, id, events.len());
        match last_with(events, id, events.len()) {
            Some(q) => {
                assert(rank[q as int] < rank[p as int]);
                lemma_visited(events, throughput, rank, q, m, open);
                let (span, m2) = visited(events, throughput, q, m, open);
                lemma_latest_grows(events, m, m2, p as int, k);
                assert forall|i: int| 0 <= i < n implies match last_with(
                    events,
                    #[trigger] events[p as int].dependencies[i],
                    events.len(),
                ) {
                    Some(q) => m2[q as int] is Some,
                    None => true,
                } by {
                    lemma_last_with(events, events[p as int].dependencies[i], events.len());
                }
                assert forall|r: int| 0 <= r < memo.len() && (#[trigger] memo[r]) is Some implies m2[r] == memo[r] by {
                    assert(m[r] == memo[r]);
                }
            },
            None => {},
        }
    }
}

/// Where no event waits for itself, each event starts when all that it waits for have ended, and the times
/// of all events are known.
pub proof fn lemma_event_spans(events: Seq<EventView>, throughput: u64, rank: Seq<nat>)
    requires
        is_ranked(events, rank),
    ensures
        forall|p: int|
            0 <= p < events.len() ==> #[trigger] is_earliest(
                events,
                throughput,
                event_spans(events, throughput, events.len()),
                p,
            ),
        forall|p: int|
            0 <= p < events.len() && last_with(events, (#[trigger] events[p]).id, events.len()) == Some(p as nat)
                ==> event_spans(events, throughput, events.len())[p] is Some,
{
    lemma_spans_to(events, throughput, rank, events.len());
}

proof fn lemma_spans_to(events: Seq<EventView>, throughput: u64, rank: Seq<nat>, n: nat)
    requires
        is_ranked(events, rank),
        n <= events.len(),
    ensures
        are_earliest(events, throughput, event_spans(events, throughput, n)),
        forall|i: int|
            0 <= i < n ==> match last_with(events, (#[trigger] events[i]).id, events.len()) {
                Some(p) => event_spans(events, throughput, n)[p as int] is Some,
                None => true,
            },
    decreases n,
{
    if n > 0 {
        let k = (n - 1) as nat;
        lemma_spans_to(events, throughput, rank, k);
        let memo = event_spans(events, throughput, k);
        let open = Seq::new(events.len(), |i: int| false);
        let id = events[n - 1].id;
        lemma_last_with(events, id, events.len());
        if let Some(p) = last_with(events, id, events.len()) {
            lemma_visited(events, throughput, rank, p, memo, open);
        }
        assert forall|i: int| 0 <= i < n implies match last_with(events, (#[trigger] events[i]).id, events.len()) {
            Some(p) => event_spans(events, throughput, n)[p as int] is Some,
            None => true,
        } by {
            lemma_last_with(events, events[i].id, events.len());
        }
    }
}

} // verus!
