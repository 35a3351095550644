//! The events of an iteration run in the order that their dependencies ask for.

use vstd::prelude::*;

use crate::simulator::ml_worker::{
    add_dependents, complete_event, dependents_of, fresh_iteration, id_map, instance, instances, pending_of, ready_of,
    run_all, satisfy, satisfy_all, start_ready, waiting_of, EventState, EventView, IterView,
};

verus! {

/// How often an identifier is among the first `n` of a list.
pub open spec fn occurs(list: Seq<usize>, x: usize, n: nat) -> nat
    decreases n,
{
    if n == 0 {
        0
    } else {
        occurs(list, x, (n - 1) as nat) + if list[n - 1] == x {
            1nat
        } else {
            0nat
        }
    }
}

/// How many of the first `n` dependencies have not completed.
pub open spec fn unmet(deps: Seq<usize>, completed: Seq<EventView>, n: nat) -> nat
    decreases n,
{
    if n == 0 {
        0
    } else {
        unmet(deps, completed, (n - 1) as nat) + if has_id(completed, deps[n - 1]) {
            0nat
        } else {
            1nat
        }
    }
}

/// One of the events has an identifier.
pub open spec fn has_id(list: Seq<EventView>, id: usize) -> bool {
    exists|i: int| 0 <= i < list.len() && (#[trigger] list[i]).id == id
}

/// The events have different identifiers, and wait for each other only.
pub open spec fn is_event_graph(ev: Seq<EventView>) -> bool {
    &&& forall|i: int, j: int| 0 <= i < j < ev.len() ==> (#[trigger] ev[i]).id != (#[trigger] ev[j]).id
    &&& forall|i: int, k: int|
        0 <= i < ev.len() && 0 <= k < ev[i].dependencies.len() ==> has_id(ev, #[trigger] ev[i].dependencies[k])
    &&& forall|i: int| 0 <= i < ev.len() ==> (#[trigger] ev[i]).dependencies.len() <= usize::MAX
}

/// An event waits as long as one of its dependencies has not completed. Then it is ready, runs, or has
/// completed: exactly one of them.
pub open spec fn in_place(s: IterView, e: EventView) -> bool {
    let left = unmet(e.dependencies, s.completed, e.dependencies.len());
    let ready = has_id(s.ready, e.id);
    let running = s.running.contains_key(e.id);
    let completed = has_id(s.completed, e.id);
    &&& s.waiting.contains_key(e.id) == (left > 0)
    &&& left > 0 ==> !ready && !running && !completed
    &&& left == 0 ==> (ready && !running && !completed) || (!ready && running && !completed) || (!ready && !running
        && completed)
}

/// The events that wait for an event.
pub open spec fn listed_for(s: IterView, d: usize) -> Seq<usize> {
    if s.dependents.contains_key(d) {
        s.dependents[d]
    } else {
        Seq::empty()
    }
}

/// The counts of unsatisfied dependencies are right, and each event is listed for what it waits for.
pub open spec fn is_counted(ev: Seq<EventView>, s: IterView) -> bool {
    &&& forall|i: int|
        0 <= i < ev.len() ==> s.pending.contains_key((#[trigger] ev[i]).id) && s.pending[ev[i].id] == unmet(
            ev[i].dependencies,
            s.completed,
            ev[i].dependencies.len(),
        )
    &&& forall|i: int, d: usize|
        0 <= i < ev.len() && !has_id(s.completed, d) ==> #[trigger] occurs(
            listed_for(s, d),
            ev[i].id,
            listed_for(s, d).len(),
        ) == occurs(ev[i].dependencies, d, ev[i].dependencies.len())
    &&& forall|id: usize| #[trigger] s.waiting.contains_key(id) ==> s.waiting[id].id == id
    &&& forall|id: usize| #[trigger] s.running.contains_key(id) ==> s.running[id].id == id
}

/// An iteration of the events has run in the order that their dependencies ask for.
pub open spec fn in_order(ev: Seq<EventView>, s: IterView) -> bool {
    &&& is_event_graph(ev)
    &&& forall|i: int| 0 <= i < ev.len() ==> in_place(s, #[trigger] ev[i])
    &&& is_counted(ev, s)
}

/// An event that is ready, runs or has completed comes after all that it depends on.
pub proof fn lemma_dependencies_first(ev: Seq<EventView>, s: IterView, i: int, k: int)
    requires
        in_order(ev, s),
        0 <= i < ev.len(),
        0 <= k < ev[i].dependencies.len(),
        has_id(s.ready, ev[i].id) || s.running.contains_key(ev[i].id) || has_id(s.completed, ev[i].id),
    ensures
        has_id(s.completed, ev[i].dependencies[k]),
{
    assert(in_place(s, ev[i]));
    lemma_unmet_none(ev[i].dependencies, s.completed, ev[i].dependencies.len(), k);
}

/// When nothing is left to run, all events have completed.
pub proof fn lemma_done_completed(ev: Seq<EventView>, s: IterView, i: int)
    requires
        in_order(ev, s),
        s.done(),
        0 <= i < ev.len(),
    ensures
        has_id(s.completed, ev[i].id),
{
    assert(in_place(s, ev[i]));
    assert(!s.waiting.contains_key(ev[i].id));
    assert(!s.running.contains_key(ev[i].id));
}

proof fn lemma_unmet_none(deps: Seq<usize>, completed: Seq<EventView>, n: nat, k: int)
    requires
        unmet(deps, completed, n) == 0,
        0 <= k < n,
    ensures
        has_id(completed, deps[k]),
    decreases n,
{
    if k < n - 1 {
        lemma_unmet_none(deps, completed, (n - 1) as nat, k);
    }
}

proof fn lemma_has_push(list: Seq<EventView>, e: EventView, x: usize)
    ensures
        has_id(list.push(e), x) == (has_id(list, x) || e.id == x),
{
    let next = list.push(e);
    if has_id(list, x) {
        let i = choose|i: int| 0 <= i < list.len() && (#[trigger] list[i]).id == x;
        assert(next[i].id == x);
    }
    if e.id == x {
        assert(next[list.len() as int].id == x);
    }
    if has_id(next, x) {
        let i = choose|i: int| 0 <= i < next.len() && (#[trigger] next[i]).id == x;
        if i < list.len() {
            assert(list[i].id == x);
        }
    }
}

/// Starting what is ready keeps the order.
pub proof fn lemma_start_in_order(ev: Seq<EventView>, s: IterView)
    requires
        in_order(ev, s),
    ensures
        in_order(ev, start_ready(s)),
{
    let after = start_ready(s);
    assert forall|id: usize| #[trigger] after.running.contains_key(id) == (s.running.contains_key(id) || has_id(s.ready, id))
        && (after.running.contains_key(id) ==> after.running[id].id == id) by {
        lemma_run_all(s.running, s.ready, s.ready.len(), id);
    }
    assert forall|i: int| 0 <= i < ev.len() implies in_place(after, #[trigger] ev[i]) by {
        assert(in_place(s, ev[i]));
        assert(after.running.contains_key(ev[i].id) == (s.running.contains_key(ev[i].id) || has_id(s.ready, ev[i].id)));
    }
    assert forall|i: int, d: usize| 0 <= i < ev.len() && !has_id(after.completed, d) implies #[trigger] occurs(
        listed_for(after, d),
        ev[i].id,
        listed_for(after, d).len(),
    ) == occurs(ev[i].dependencies, d, ev[i].dependencies.len()) by {
        assert(listed_for(after, d) == listed_for(s, d));
        assert(occurs(listed_for(s, d), ev[i].id, listed_for(s, d).len()) == occurs(
            ev[i].dependencies,
            d,
            ev[i].dependencies.len(),
        ));
    }
}

proof fn lemma_run_all(m: Map<usize, EventView>, list: Seq<EventView>, k: nat, x: usize)
    requires
        k <= list.len(),
        m.contains_key(x) ==> m[x].id == x,
    ensures
        run_all(m, list, k).contains_key(x) == (m.contains_key(x) || has_id(list.take(k as int), x)),
        run_all(m, list, k).contains_key(x) ==> run_all(m, list, k)[x].id == x,
        has_id(list.take(list.len() as int), x) == has_id(list, x),
    decreases k,
{
    assert(list.take(list.len() as int) =~= list);
    if k > 0 {
        lemma_run_all(m, list, (k - 1) as nat, x);
        assert(list.take(k as int) =~= list.take(k - 1).push(list[k - 1]));
        lemma_has_push(list.take(k - 1), list[k - 1], x);
    } else {
        assert(list.take(0) =~= Seq::<EventView>::empty());
    }
}

proof fn lemma_unmet_complete(deps: Seq<usize>, completed: Seq<EventView>, e: EventView, n: nat)
    requires
        !has_id(completed, e.id),
    ensures
        unmet(deps, completed.push(e), n) + occurs(deps, e.id, n) == unmet(deps, completed, n),
    decreases n,
{
    if n > 0 {
        lemma_unmet_complete(deps, completed, e, (n - 1) as nat);
        lemma_has_push(completed, e, deps[n - 1]);
    }
}

proof fn lemma_occurs_up_to(list: Seq<usize>, x: usize, k: nat, n: nat)
    requires
        k <= n,
    ensures
        occurs(list, x, k) <= occurs(list, x, n),
    decreases n,
{
    if k < n {
        lemma_occurs_up_to(list, x, k, (n - 1) as nat);
    }
}

/// What the satisfied dependencies do to an event.
proof fn lemma_satisfy_all(s: IterView, list: Seq<usize>, k: nat, x: usize)
    requires
        k <= list.len(),
        s.pending.contains_key(x),
        s.waiting.contains_key(x) == (s.pending[x] > 0),
        occurs(list, x, list.len()) <= s.pending[x],
        forall|id: usize| #[trigger] s.waiting.contains_key(id) ==> s.waiting[id].id == id,
    ensures
        ({
            let t = satisfy_all(s, list, k);
            &&& t.pending.contains_key(x)
            &&& t.pending[x] == s.pending[x] - occurs(list, x, k)
            &&& t.waiting.contains_key(x) == (t.pending[x] > 0)
            &&& forall|id: usize| #[trigger] t.waiting.contains_key(id) ==> t.waiting[id].id == id
            &&& has_id(t.ready, x) == (has_id(s.ready, x) || (s.pending[x] > 0 && t.pending[x] == 0))
            &&& t.running == s.running
            &&& t.completed == s.completed
            &&& t.dependents == s.dependents
        }),
    decreases k,
{
    if k > 0 {
        let m = (k - 1) as nat;
        lemma_satisfy_all(s, list, m, x);
        lemma_occurs_up_to(list, x, k, list.len());
        let t = satisfy_all(s, list, m);
        let d = list[k - 1];
        let u = satisfy(t, d);
        if t.pending.contains_key(d) && t.waiting.contains_key(d) {
            lemma_has_push(t.ready, t.waiting[d], x);
        }
    }
}

proof fn lemma_event_of(ev: Seq<EventView>, s: IterView, i: int)
    requires
        in_order(ev, s),
        0 <= i < ev.len(),
    ensures
        s.pending.contains_key(ev[i].id),
        s.waiting.contains_key(ev[i].id) == (s.pending[ev[i].id] > 0),
{
    assert(in_place(s, ev[i]));
}

/// The completion of a running event keeps the order.
pub proof fn lemma_complete_in_order(ev: Seq<EventView>, s: IterView, id: usize)
    requires
        in_order(ev, s),
        has_id(ev, id),
        s.running.contains_key(id),
    ensures
        in_order(ev, complete_event(s, id)),
{
    let after = complete_event(s, id);
    let e = EventView { state: EventState::Completed, ..s.running[id] };
    let moved = IterView {
        running: s.running.remove(id),
        completed: s.completed.push(e),
        dependents: s.dependents.remove(id),
        ..s
    };
    let list = listed_for(s, id);
    assert(e.id == id);
    let j = choose|j: int| 0 <= j < ev.len() && (#[trigger] ev[j]).id == id;
    assert(in_place(s, ev[j]));
    assert(!has_id(s.completed, id));
    assert(after == satisfy_all(moved, list, list.len())) by {
        if !s.dependents.contains_key(id) {
            assert(satisfy_all(moved, list, 0) == moved);
        }
    }
    assert forall|i: int| 0 <= i < ev.len() implies in_place(after, #[trigger] ev[i]) && after.pending.contains_key(
        ev[i].id,
    ) && after.pending[ev[i].id] == unmet(ev[i].dependencies, after.completed, ev[i].dependencies.len())
        && after.running == moved.running && after.completed == moved.completed && after.dependents == moved.dependents by {
        let x = ev[i].id;
        let n = ev[i].dependencies.len();
        lemma_event_of(ev, s, i);
        assert(occurs(list, x, list.len()) == occurs(ev[i].dependencies, id, n));
        lemma_unmet_complete(ev[i].dependencies, s.completed, e, n);
        lemma_satisfy_all(moved, list, list.len(), x);
        lemma_has_push(s.completed, e, x);
        assert(in_place(s, ev[i]));
    }
    lemma_satisfy_values(moved, list, list.len());
    assert forall|i: int, d: usize| 0 <= i < ev.len() && !has_id(after.completed, d) implies #[trigger] occurs(
        listed_for(after, d),
        ev[i].id,
        listed_for(after, d).len(),
    ) == occurs(ev[i].dependencies, d, ev[i].dependencies.len()) by {
        lemma_has_push(s.completed, e, d);
        assert(listed_for(after, d) == listed_for(s, d));
        assert(occurs(listed_for(s, d), ev[i].id, listed_for(s, d).len()) == occurs(
            ev[i].dependencies,
            d,
            ev[i].dependencies.len(),
        ));
    }
}

proof fn lemma_satisfy_values(s: IterView, list: Seq<usize>, k: nat)
    requires
        k <= list.len(),
        forall|id: usize| #[trigger] s.waiting.contains_key(id) ==> s.waiting[id].id == id,
    ensures
        forall|id: usize| #[trigger]
            satisfy_all(s, list, k).waiting.contains_key(id) ==> satisfy_all(s, list, k).waiting[id].id == id,
        satisfy_all(s, list, k).running == s.running,
        satisfy_all(s, list, k).completed == s.completed,
        satisfy_all(s, list, k).dependents == s.dependents,
    decreases k,
{
    if k > 0 {
        lemma_satisfy_values(s, list, (k - 1) as nat);
    }
}

/// The entry of a table of lists.
spec fn list_at(m: Map<usize, Seq<usize>>, d: usize) -> Seq<usize> {
    if m.contains_key(d) {
        m[d]
    } else {
        Seq::empty()
    }
}

proof fn lemma_occurs_push(list: Seq<usize>, y: usize, x: usize)
    ensures
        occurs(list.push(y), x, (list.len() + 1) as nat) == occurs(list, x, list.len()) + if x == y {
            1nat
        } else {
            0nat
        },
{
    lemma_occurs_same(list.push(y), list, x, list.len());
}

proof fn lemma_occurs_same(a: Seq<usize>, b: Seq<usize>, x: usize, n: nat)
    requires
        n <= a.len(),
        n <= b.len(),
        forall|i: int| 0 <= i < n ==> a[i] == b[i],
    ensures
        occurs(a, x, n) == occurs(b, x, n),
    decreases n,
{
    if n > 0 {
        lemma_occurs_same(a, b, x, (n - 1) as nat);
    }
}

proof fn lemma_add_dependents(m: Map<usize, Seq<usize>>, id: usize, deps: Seq<usize>, k: nat, d: usize, x: usize)
    requires
        k <= deps.len(),
    ensures
        ({
            let after = list_at(add_dependents(m, id, deps, k), d);
            occurs(after, x, after.len()) == occurs(list_at(m, d), x, list_at(m, d).len()) + if x == id {
                occurs(deps, d, k)
            } else {
                0nat
            }
        }),
    decreases k,
{
    if k > 0 {
        lemma_add_dependents(m, id, deps, (k - 1) as nat, d, x);
        let before = add_dependents(m, id, deps, (k - 1) as nat);
        if deps[k - 1] == d {
            let list = list_at(before, d);
            assert(list_at(add_dependents(m, id, deps, k), d) =~= list.push(id));
            lemma_occurs_push(list, id, x);
        }
    }
}

proof fn lemma_dependents_of(ev: Seq<EventView>, n: nat, d: usize, i: int)
    requires
        is_event_graph(ev),
        n <= ev.len(),
        0 <= i < ev.len(),
    ensures
        ({
            let list = list_at(dependents_of(ev, n), d);
            occurs(list, ev[i].id, list.len()) == if i < n {
                occurs(ev[i].dependencies, d, ev[i].dependencies.len())
            } else {
                0nat
            }
        }),
    decreases n,
{
    if n > 0 {
        lemma_dependents_of(ev, (n - 1) as nat, d, i);
        let e = ev[n - 1];
        lemma_add_dependents(
            dependents_of(ev, (n - 1) as nat),
            e.id,
            e.dependencies,
            e.dependencies.len(),
            d,
            ev[i].id,
        );
        if i < n - 1 {
            assert(ev[i].id != ev[n - 1].id);
        } else if i > n - 1 {
            assert(ev[n - 1].id != ev[i].id);
        }
    }
}

proof fn lemma_fresh_tables(ev: Seq<EventView>, n: nat, i: int)
    requires
        is_event_graph(ev),
        n <= ev.len(),
        0 <= i < ev.len(),
    ensures
        pending_of(ev, n).contains_key(ev[i].id) == (i < n),
        i < n ==> pending_of(ev, n)[ev[i].id] == ev[i].dependencies.len(),
        waiting_of(ev, n).contains_key(ev[i].id) == (i < n && ev[i].dependencies.len() > 0),
        has_id(ready_of(ev, n), ev[i].id) == (i < n && ev[i].dependencies.len() == 0),
        forall|id: usize| #[trigger] waiting_of(ev, n).contains_key(id) ==> waiting_of(ev, n)[id].id == id,
    decreases n,
{
    if n > 0 {
        lemma_fresh_tables(ev, (n - 1) as nat, i);
        if i < n - 1 {
            assert(ev[i].id != ev[n - 1].id);
        } else if i > n - 1 {
            assert(ev[n - 1].id != ev[i].id);
        }
        lemma_has_push(ready_of(ev, (n - 1) as nat), ev[n - 1], ev[i].id);
    }
}

proof fn lemma_unmet_all(deps: Seq<usize>, n: nat)
    ensures
        unmet(deps, Seq::empty(), n) == n,
    decreases n,
{
    if n > 0 {
        lemma_unmet_all(deps, (n - 1) as nat);
    }
}

proof fn lemma_id_map(t: Seq<EventView>, ids: Seq<usize>, n: nat, i: int)
    requires
        is_event_graph(t),
        n <= t.len(),
        0 <= i < n,
    ensures
        id_map(t, ids, n).contains_key(t[i].id),
        id_map(t, ids, n)[t[i].id] == ids[i],
    decreases n,
{
    if i < n - 1 {
        lemma_id_map(t, ids, (n - 1) as nat, i);
        assert(t[i].id != t[n - 1].id);
    }
}

/// The events of an iteration form a graph as their templates do.
proof fn lemma_instances(t: Seq<EventView>, ids: Seq<usize>)
    requires
        is_event_graph(t),
        ids.len() == t.len(),
        ids.no_duplicates(),
    ensures
        is_event_graph(instances(t, ids)),
{
    let ev = instances(t, ids);
    let m = id_map(t, ids, t.len());
    assert forall|i: int| 0 <= i < ev.len() implies (#[trigger] ev[i]).id == ids[i] && ev[i].dependencies.len()
        == t[i].dependencies.len() by {
        lemma_id_map(t, ids, t.len(), i);
        assert(ev[i] == instance(t[i], m));
    }
    assert forall|i: int, k: int| 0 <= i < ev.len() && 0 <= k < ev[i].dependencies.len() implies has_id(
        ev,
        #[trigger] ev[i].dependencies[k],
    ) by {
        assert(ev[i] == instance(t[i], m));
        assert(has_id(t, t[i].dependencies[k]));
        let j = choose|j: int| 0 <= j < t.len() && (#[trigger] t[j]).id == t[i].dependencies[k];
        lemma_id_map(t, ids, t.len(), j);
        assert(ev[j].id == ids[j]);
    }
}

/// An iteration begins in order.
pub proof fn lemma_fresh_in_order(t: Seq<EventView>, ids: Seq<usize>)
    requires
        is_event_graph(t),
        ids.len() == t.len(),
        ids.no_duplicates(),
    ensures
        in_order(instances(t, ids), fresh_iteration(t, ids)),
{
    let ev = instances(t, ids);
    let s = fresh_iteration(t, ids);
    lemma_instances(t, ids);
    let none = Seq::<EventView>::empty();
    assert forall|i: int| 0 <= i < ev.len() implies in_place(s, #[trigger] ev[i]) && s.pending.contains_key(ev[i].id)
        && s.pending[ev[i].id] == unmet(ev[i].dependencies, s.completed, ev[i].dependencies.len()) by {
        lemma_fresh_tables(ev, ev.len(), i);
        lemma_unmet_all(ev[i].dependencies, ev[i].dependencies.len());
    }
    assert forall|id: usize| #[trigger] s.waiting.contains_key(id) implies s.waiting[id].id == id by {
        if ev.len() > 0 {
            lemma_fresh_tables(ev, ev.len(), 0);
        }
    }
    assert forall|i: int, d: usize| 0 <= i < ev.len() && !has_id(s.completed, d) implies #[trigger] occurs(
        listed_for(s, d),
        ev[i].id,
        listed_for(s, d).len(),
    ) == occurs(ev[i].dependencies, d, ev[i].dependencies.len()) by {
        lemma_dependents_of(ev, ev.len(), d, i);
        assert(list_at(dependents_of(ev, ev.len()), d) == listed_for(s, d));
    }
}

} // verus!
