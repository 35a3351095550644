//! A worker runs a graph of events once per iteration.

use std::collections::VecDeque;
use vstd::prelude::*;

use crate::utils::data::{lemma_push_to_set, DHashMap, DHashSet};

verus! {

/// Identifies a job.
pub type JobId = usize;

/// Identifies a worker inside its job.
pub type WorkerId = usize;

/// Identifies a flow in the network.
pub type FlowId = usize;

/// What the simulator needs of a ready event to schedule it.
#[derive(Debug, Clone, Copy)]
pub struct ReadyEventInfo {
    pub id: usize,
    pub kind: WorkerEventKind,
    /// Zero unless the event is a computation.
    pub compute_duration_us: u64,
}

/// What the completion of an event led to.
#[derive(Debug, Clone, Copy, PartialEq, Eq, Structural)]
pub enum WorkerNotifyResult {
    EventDone,
    IterationCompleted { iteration_idx: usize },
    JobCompleted,
}

/// The three kinds of worker events.
#[derive(Debug, Clone, Copy, PartialEq, Eq, Structural)]
pub enum WorkerEventKind {
    /// A computation that takes a fixed time.
    Compute,
    /// The start of a transfer.
    FlowSend,
    /// The wait for a transfer.
    FlowReceive,
}

/// How the peer of a flow follows from the worker's rank.
#[derive(Debug, Clone, Copy, PartialEq, Eq, Structural)]
pub enum FlowKind {
    /// A ring collective: the peer is a fixed stride away.
    Ring,
    /// A transfer between pipeline stages.
    Pipeline,
    /// An all-to-all collective.
    AllToAll,
    /// Any other transfer.
    Other,
}

impl Default for FlowKind {
    fn default() -> (r: Self)
        ensures
            r == FlowKind::Other,
    {
        FlowKind::Other
    }
}

/// A computation.
#[derive(Debug)]
pub struct ComputeEvent {
    pub duration_us: u64,
    pub name: Option<String>,
}

impl Clone for ComputeEvent {
    fn clone(&self) -> (r: Self)
        ensures
            r == *self,
    {
        ComputeEvent { duration_us: self.duration_us, name: clone_name(&self.name) }
    }
}

/// A transfer to another worker.
#[derive(Debug)]
pub struct FlowSendEvent {
    pub dst_worker: WorkerId,
    pub size_bytes: u64,
    pub name: Option<String>,
    pub flow_kind: FlowKind,
}

impl Clone for FlowSendEvent {
    fn clone(&self) -> (r: Self)
        ensures
            r == *self,
    {
        FlowSendEvent {
            dst_worker: self.dst_worker,
            size_bytes: self.size_bytes,
            name: clone_name(&self.name),
            flow_kind: self.flow_kind,
        }
    }
}

impl FlowSendEvent {
    /// Whether the transfer belongs to a ring.
    pub fn is_ring_flow(&self) -> (r: bool)
        ensures
            r == (self.flow_kind == FlowKind::Ring),
    {
        self.flow_kind == FlowKind::Ring
    }
}

/// A transfer from another worker.
#[derive(Debug)]
pub struct FlowReceiveEvent {
    pub src_worker: WorkerId,
    pub size_bytes: u64,
    pub name: Option<String>,
    pub flow_kind: FlowKind,
}

impl Clone for FlowReceiveEvent {
    fn clone(&self) -> (r: Self)
        ensures
            r == *self,
    {
        FlowReceiveEvent {
            src_worker: self.src_worker,
            size_bytes: self.size_bytes,
            name: clone_name(&self.name),
            flow_kind: self.flow_kind,
        }
    }
}

/// Where an event stands in its iteration.
#[derive(Debug, Clone, Copy, PartialEq, Eq, Structural)]
pub enum EventState {
    Waiting,
    Ready,
    Running,
    Completed,
}

/// One node of a worker's event graph.
#[derive(Debug)]
pub struct WorkerEvent {
    pub id: usize,
    /// The identifier in the template, the same in every iteration.
    pub template_id: usize,
    pub kind: WorkerEventKind,
    pub compute: Option<ComputeEvent>,
    pub flow_send: Option<FlowSendEvent>,
    pub flow_receive: Option<FlowReceiveEvent>,
    /// Identifiers of the events that have to complete first.
    pub dependencies: Vec<usize>,
    pub state: EventState,
}

/// The value of a `WorkerEvent`.
pub struct EventView {
    pub id: usize,
    pub template_id: usize,
    pub kind: WorkerEventKind,
    pub compute: Option<ComputeEvent>,
    pub flow_send: Option<FlowSendEvent>,
    pub flow_receive: Option<FlowReceiveEvent>,
    pub dependencies: Seq<usize>,
    pub state: EventState,
}

impl View for WorkerEvent {
    type V = EventView;

    open spec fn view(&self) -> EventView {
        EventView {
            id: self.id,
            template_id: self.template_id,
            kind: self.kind,
            compute: self.compute,
            flow_send: self.flow_send,
            flow_receive: self.flow_receive,
            dependencies: self.dependencies@,
            state: self.state,
        }
    }
}

/// Copies an optional name.
pub fn clone_name(name: &Option<String>) -> (r: Option<String>)
    ensures
        r == *name,
{
    match name {
        Some(s) => Some(s.clone()),
        None => None,
    }
}

/// Copies a list of identifiers.
pub fn clone_ids(ids: &Vec<usize>) -> (r: Vec<usize>)
    ensures
        r@ == ids@,
{
    let mut out: Vec<usize> = Vec::new();
    let mut i: usize = 0;
    while i < ids.len()
        invariant
            i <= ids.len(),
            out@ == ids@.take(i as int),
        decreases ids.len() - i,
    {
        out.push(ids[i]);
        proof {
            assert(ids@.take(i + 1) == ids@.take(i as int).push(ids@[i as int]));
        }
        i += 1;
    }
    proof {
        assert(ids@.take(ids@.len() as int) == ids@);
    }
    out
}

impl Clone for WorkerEvent {
    fn clone(&self) -> (r: Self)
        ensures
            r@ == self@,
    {
        WorkerEvent {
            id: self.id,
            template_id: self.template_id,
            kind: self.kind,
            compute: match &self.compute {
                Some(c) => Some(c.clone()),
                None => None,
            },
            flow_send: match &self.flow_send {
                Some(f) => Some(f.clone()),
                None => None,
            },
            flow_receive: match &self.flow_receive {
                Some(f) => Some(f.clone()),
                None => None,
            },
            dependencies: clone_ids(&self.dependencies),
            state: self.state,
        }
    }
}

impl WorkerEvent {
    /// A computation of the given length.
    pub fn new_compute(id: usize, duration_us: u64, dependencies: Vec<usize>) -> (r: Self)
        ensures
            r == (WorkerEvent {
                id,
                template_id: id,
                kind: WorkerEventKind::Compute,
                compute: Some(ComputeEvent { duration_us, name: None }),
                flow_send: None,
                flow_receive: None,
                dependencies,
                state: EventState::Waiting,
            }),
    {
        WorkerEvent {
            id,
            template_id: id,
            kind: WorkerEventKind::Compute,
            compute: Some(ComputeEvent { duration_us, name: None }),
            flow_send: None,
            flow_receive: None,
            dependencies,
            state: EventState::Waiting,
        }
    }

    /// A transfer of no particular kind.
    pub fn new_flow_send(id: usize, dst_worker: WorkerId, size_bytes: u64, dependencies: Vec<usize>) -> (r: Self)
        ensures
            r == send_event(id, dst_worker, size_bytes, dependencies, FlowKind::Other),
    {
        Self::new_flow_send_with_kind(id, dst_worker, size_bytes, dependencies, FlowKind::Other)
    }

    /// A transfer that may belong to a ring.
    pub fn new_flow_send_ex(
        id: usize,
        dst_worker: WorkerId,
        size_bytes: u64,
        dependencies: Vec<usize>,
        is_ring_flow: bool,
    ) -> (r: Self)
        ensures
            r == send_event(
                id,
                dst_worker,
                size_bytes,
                dependencies,
                if is_ring_flow {
                    FlowKind::Ring
                } else {
                    FlowKind::Other
                },
            ),
    {
        let flow_kind = if is_ring_flow {
            FlowKind::Ring
        } else {
            FlowKind::Other
        };
        Self::new_flow_send_with_kind(id, dst_worker, size_bytes, dependencies, flow_kind)
    }

    /// A transfer of the given kind.
    pub fn new_flow_send_with_kind(
        id: usize,
        dst_worker: WorkerId,
        size_bytes: u64,
        dependencies: Vec<usize>,
        flow_kind: FlowKind,
    ) -> (r: Self)
        ensures
            r == send_event(id, dst_worker, size_bytes, dependencies, flow_kind),
    {
        WorkerEvent {
            id,
            template_id: id,
            kind: WorkerEventKind::FlowSend,
            compute: None,
            flow_send: Some(FlowSendEvent { dst_worker, size_bytes, name: None, flow_kind }),
            flow_receive: None,
            dependencies,
            state: EventState::Waiting,
        }
    }

    /// The wait for a transfer of no particular kind.
    pub fn new_flow_receive(id: usize, src_worker: WorkerId, size_bytes: u64, dependencies: Vec<usize>) -> (r: Self)
        ensures
            r == receive_event(id, src_worker, size_bytes, dependencies, FlowKind::Other),
    {
        Self::new_flow_receive_with_kind(id, src_worker, size_bytes, dependencies, FlowKind::Other)
    }

    /// The wait for a transfer of the given kind.
    pub fn new_flow_receive_with_kind(
        id: usize,
        src_worker: WorkerId,
        size_bytes: u64,
        dependencies: Vec<usize>,
        flow_kind: FlowKind,
    ) -> (r: Self)
        ensures
            r == receive_event(id, src_worker, size_bytes, dependencies, flow_kind),
    {
        WorkerEvent {
            id,
            template_id: id,
            kind: WorkerEventKind::FlowReceive,
            compute: None,
            flow_send: None,
            flow_receive: Some(FlowReceiveEvent { src_worker, size_bytes, name: None, flow_kind }),
            dependencies,
            state: EventState::Waiting,
        }
    }
}

/// A waiting send event without a name.
pub open spec fn send_event(
    id: usize,
    dst_worker: WorkerId,
    size_bytes: u64,
    dependencies: Vec<usize>,
    flow_kind: FlowKind,
) -> WorkerEvent {
    WorkerEvent {
        id,
        template_id: id,
        kind: WorkerEventKind::FlowSend,
        compute: None,
        flow_send: Some(FlowSendEvent { dst_worker, size_bytes, name: None, flow_kind }),
        flow_receive: None,
        dependencies,
        state: EventState::Waiting,
    }
}

/// A waiting receive event without a name.
pub open spec fn receive_event(
    id: usize,
    src_worker: WorkerId,
    size_bytes: u64,
    dependencies: Vec<usize>,
    flow_kind: FlowKind,
) -> WorkerEvent {
    WorkerEvent {
        id,
        template_id: id,
        kind: WorkerEventKind::FlowReceive,
        compute: None,
        flow_send: None,
        flow_receive: Some(FlowReceiveEvent { src_worker, size_bytes, name: None, flow_kind }),
        dependencies,
        state: EventState::Waiting,
    }
}

/// The values of a list of events.
pub open spec fn event_views(s: Seq<WorkerEvent>) -> Seq<EventView> {
    s.map_values(|e: WorkerEvent| e@)
}

/// The values of a table of events.
pub open spec fn event_table(m: Map<usize, WorkerEvent>) -> Map<usize, EventView> {
    m.map_values(|e: WorkerEvent| e@)
}

/// The values of a table of lists.
pub open spec fn id_lists(m: Map<usize, Vec<usize>>) -> Map<usize, Seq<usize>> {
    m.map_values(|v: Vec<usize>| v@)
}

/// Where the events of an iteration stand.
pub struct IterView {
    pub waiting: Map<usize, EventView>,
    pub ready: Seq<EventView>,
    pub running: Map<usize, EventView>,
    pub completed: Seq<EventView>,
    /// Unsatisfied dependencies per event.
    pub pending: Map<usize, usize>,
    /// Events to look at when an event completes.
    pub dependents: Map<usize, Seq<usize>>,
}

impl IterView {
    /// No event is left to run.
    pub open spec fn done(self) -> bool {
        self.waiting == Map::<usize, EventView>::empty() && self.ready.len() == 0 && self.running == Map::<
            usize,
            EventView,
        >::empty()
    }
}

/// Template identifiers to the identifiers of one iteration; of equal template identifiers the
/// last counts.
pub open spec fn id_map(t: Seq<EventView>, ids: Seq<usize>, n: nat) -> Map<usize, usize>
    decreases n,
{
    if n == 0 {
        Map::empty()
    } else {
        id_map(t, ids, (n - 1) as nat).insert(t[n - 1].id, ids[n - 1])
    }
}

/// A template event as it enters an iteration.
pub open spec fn instance(t: EventView, m: Map<usize, usize>) -> EventView {
    EventView {
        id: m[t.id],
        template_id: t.id,
        dependencies: t.dependencies.map_values(|d: usize| m[d]),
        state: EventState::Waiting,
        ..t
    }
}

/// The events of an iteration, in template order.
pub open spec fn instances(t: Seq<EventView>, ids: Seq<usize>) -> Seq<EventView> {
    t.map_values(|e: EventView| instance(e, id_map(t, ids, t.len())))
}

/// The first `k` of `deps` each get `id` as a dependent.
pub open spec fn add_dependents(m: Map<usize, Seq<usize>>, id: usize, deps: Seq<usize>, k: nat) -> Map<
    usize,
    Seq<usize>,
>
    decreases k,
{
    if k == 0 {
        m
    } else {
        let before = add_dependents(m, id, deps, (k - 1) as nat);
        let d = deps[k - 1];
        before.insert(
            d,
            if before.contains_key(d) {
                before[d].push(id)
            } else {
                seq![id]
            },
        )
    }
}

/// Dependents that the first `n` events give.
pub open spec fn dependents_of(ev: Seq<EventView>, n: nat) -> Map<usize, Seq<usize>>
    decreases n,
{
    if n == 0 {
        Map::empty()
    } else {
        let e = ev[n - 1];
        add_dependents(dependents_of(ev, (n - 1) as nat), e.id, e.dependencies, e.dependencies.len())
    }
}

/// Dependency counts of the first `n` events.
pub open spec fn pending_of(ev: Seq<EventView>, n: nat) -> Map<usize, usize>
    decreases n,
{
    if n == 0 {
        Map::empty()
    } else {
        pending_of(ev, (n - 1) as nat).insert(ev[n - 1].id, ev[n - 1].dependencies.len() as usize)
    }
}

/// Those of the first `n` events that depend on another.
pub open spec fn waiting_of(ev: Seq<EventView>, n: nat) -> Map<usize, EventView>
    decreases n,
{
    if n == 0 {
        Map::empty()
    } else {
        let before = waiting_of(ev, (n - 1) as nat);
        if ev[n - 1].dependencies.len() == 0 {
            before
        } else {
            before.insert(ev[n - 1].id, ev[n - 1])
        }
    }
}

/// Those of the first `n` events that depend on none.
pub open spec fn ready_of(ev: Seq<EventView>, n: nat) -> Seq<EventView>
    decreases n,
{
    if n == 0 {
        Seq::empty()
    } else {
        let before = ready_of(ev, (n - 1) as nat);
        if ev[n - 1].dependencies.len() == 0 {
            before.push(ev[n - 1])
        } else {
            before
        }
    }
}

/// An iteration before anything has run.
pub open spec fn fresh_iteration(t: Seq<EventView>, ids: Seq<usize>) -> IterView {
    let ev = instances(t, ids);
    IterView {
        waiting: waiting_of(ev, ev.len()),
        ready: ready_of(ev, ev.len()),
        running: Map::empty(),
        completed: Seq::empty(),
        pending: pending_of(ev, ev.len()),
        dependents: dependents_of(ev, ev.len()),
    }
}

/// One dependency of event `d` is satisfied; with the last one the event becomes ready.
pub open spec fn satisfy(s: IterView, d: usize) -> IterView {
    if s.pending.contains_key(d) {
        let left: usize = if s.pending[d] > 0 {
            (s.pending[d] - 1) as usize
        } else {
            0
        };
        let pending = s.pending.insert(d, left);
        if left == 0 && s.waiting.contains_key(d) {
            IterView { pending, waiting: s.waiting.remove(d), ready: s.ready.push(s.waiting[d]), ..s }
        } else {
            IterView { pending, ..s }
        }
    } else {
        s
    }
}

/// The first `k` of `list` have a dependency satisfied.
pub open spec fn satisfy_all(s: IterView, list: Seq<usize>, k: nat) -> IterView
    decreases k,
{
    if k == 0 {
        s
    } else {
        satisfy(satisfy_all(s, list, (k - 1) as nat), list[k - 1])
    }
}

/// The running event `id` completes.
pub open spec fn complete_event(s: IterView, id: usize) -> IterView {
    let moved = IterView {
        running: s.running.remove(id),
        completed: s.completed.push(EventView { state: EventState::Completed, ..s.running[id] }),
        dependents: s.dependents.remove(id),
        ..s
    };
    if s.dependents.contains_key(id) {
        satisfy_all(moved, s.dependents[id], s.dependents[id].len())
    } else {
        moved
    }
}

/// The events with the first `k` of `list` running too.
pub open spec fn run_all(m: Map<usize, EventView>, list: Seq<EventView>, k: nat) -> Map<usize, EventView>
    decreases k,
{
    if k == 0 {
        m
    } else {
        run_all(m, list, (k - 1) as nat).insert(
            list[k - 1].id,
            EventView { state: EventState::Running, ..list[k - 1] },
        )
    }
}

/// Every ready event starts to run.
pub open spec fn start_ready(s: IterView) -> IterView {
    IterView { ready: Seq::empty(), running: run_all(s.running, s.ready, s.ready.len()), ..s }
}

/// What the scheduler is told of a ready event.
pub open spec fn ready_info(e: EventView) -> ReadyEventInfo {
    ReadyEventInfo {
        id: e.id,
        kind: e.kind,
        compute_duration_us: match e.compute {
            Some(c) => c.duration_us,
            None => 0,
        },
    }
}

/// A worker of a job.
pub struct MLWorker {
    pub job_id: JobId,
    pub id: WorkerId,
    /// Host on which the worker runs.
    pub host_index: usize,
    /// The event graph of one iteration.
    pub template_events: Vec<WorkerEvent>,
    /// Events with unsatisfied dependencies.
    pub waiting_events: DHashMap<usize, WorkerEvent>,
    /// Events that can start.
    pub ready_queue: VecDeque<WorkerEvent>,
    /// Events that have started.
    pub running_events: DHashMap<usize, WorkerEvent>,
    /// Events of this iteration that have completed.
    pub completed_events: Vec<WorkerEvent>,
    /// Unsatisfied dependencies per event.
    pub pending_dep_count: DHashMap<usize, usize>,
    /// Events that wait for an event.
    pub dependents: DHashMap<usize, Vec<usize>>,
    /// The current iteration, counted from zero.
    pub current_iteration: usize,
    pub total_iterations: usize,
    /// Flows that the worker has in the network.
    pub active_flows: Vec<FlowId>,
    /// Start of the current iteration.
    pub last_iteration_start_time_us: Option<u64>,
}

impl MLWorker {
    /// The template graph.
    pub open spec fn templates(&self) -> Seq<EventView> {
        event_views(self.template_events@)
    }

    /// The state of the current iteration.
    pub open spec fn iter(&self) -> IterView {
        IterView {
            waiting: event_table(self.waiting_events@),
            ready: event_views(self.ready_queue@),
            running: event_table(self.running_events@),
            completed: event_views(self.completed_events@),
            pending: self.pending_dep_count@,
            dependents: id_lists(self.dependents@),
        }
    }

    /// `self` and `other` differ at most in the state of the iteration.
    pub open spec fn same_but_iteration(&self, other: &MLWorker) -> bool {
        &&& self.job_id == other.job_id
        &&& self.id == other.id
        &&& self.host_index == other.host_index
        &&& self.template_events == other.template_events
        &&& self.total_iterations == other.total_iterations
        &&& self.active_flows == other.active_flows
    }

    /// Every dependency of a template event names a template event.
    pub open spec fn templates_closed(&self) -> bool {
        forall|i: int, k: int|
            0 <= i < self.templates().len() && 0 <= k < self.templates()[i].dependencies.len() ==> exists|j: int|
                0 <= j < self.templates().len() && self.templates()[j].id
                    == #[trigger] self.templates()[i].dependencies[k]
    }

    /// A worker without events.
    pub fn new(job_id: JobId, id: WorkerId, host_index: usize, total_iterations: usize) -> (r: Self)
        ensures
            r.job_id == job_id,
            r.id == id,
            r.host_index == host_index,
            r.total_iterations == total_iterations,
            r.current_iteration == 0,
            r.templates() == Seq::<EventView>::empty(),
            r.template_events@.len() == 0,
            r.iter() == fresh_iteration(Seq::empty(), Seq::empty()),
            r.active_flows@.len() == 0,
            r.last_iteration_start_time_us is None,
    {
        let r = MLWorker {
            job_id,
            id,
            host_index,
            template_events: Vec::new(),
            waiting_events: DHashMap::new(),
            ready_queue: VecDeque::new(),
            running_events: DHashMap::new(),
            completed_events: Vec::new(),
            pending_dep_count: DHashMap::new(),
            dependents: DHashMap::new(),
            current_iteration: 0,
            total_iterations,
            active_flows: Vec::new(),
            last_iteration_start_time_us: None,
        };
        proof {
            let f = fresh_iteration(Seq::empty(), Seq::empty());
            assert(r.iter().waiting =~= f.waiting);
            assert(r.iter().ready =~= f.ready);
            assert(r.iter().running =~= f.running);
            assert(r.iter().completed =~= f.completed);
            assert(r.iter().pending =~= f.pending);
            assert(r.iter().dependents =~= f.dependents);
        }
        r
    }

    /// Adds an event to the template graph.
    pub fn add_event_template(&mut self, event: WorkerEvent)
        ensures
            final(self).templates() == old(self).templates().push(event@),
            final(self).template_events@ == old(self).template_events@.push(event),
            final(self).iter() == old(self).iter(),
            *final(self) == (MLWorker { template_events: final(self).template_events, ..*old(self) }),
    {
        self.template_events.push(event);
        proof {
            assert(self.templates() =~= old(self).templates().push(event@));
        }
    }
}

/// A template identifier among the first `n` templates has an iteration identifier.
proof fn lemma_id_map_dom(t: Seq<EventView>, ids: Seq<usize>, n: nat, j: int)
    requires
        0 <= j < n <= t.len(),
    ensures
        id_map(t, ids, n).contains_key(t[j].id),
    decreases n,
{
    if j < n - 1 {
        lemma_id_map_dom(t, ids, (n - 1) as nat, j);
    }
}

/// Maps template identifiers to the identifiers of one iteration.
fn map_ids(templates: &Vec<WorkerEvent>, ids: &Vec<usize>) -> (m: DHashMap<usize, usize>)
    requires
        templates@.len() == ids@.len(),
    ensures
        m@ == id_map(event_views(templates@), ids@, templates@.len()),
{
    let mut m: DHashMap<usize, usize> = DHashMap::new();
    let mut i: usize = 0;
    while i < templates.len()
        invariant
            i <= templates.len(),
            templates@.len() == ids@.len(),
            m@ == id_map(event_views(templates@), ids@, i as nat),
        decreases templates.len() - i,
    {
        m.insert(templates[i].id, ids[i]);
        i += 1;
    }
    m
}

/// Makes the event of one iteration from its template.
fn instantiate(template: &WorkerEvent, m: &DHashMap<usize, usize>) -> (r: WorkerEvent)
    requires
        m@.contains_key(template.id),
        forall|k: int| 0 <= k < template.dependencies@.len() ==> m@.contains_key(#[trigger] template.dependencies@[k]),
    ensures
        r@ == instance(template@, m@),
{
    let mut dependencies: Vec<usize> = Vec::new();
    let mut k: usize = 0;
    while k < template.dependencies.len()
        invariant
            k <= template.dependencies.len(),
            forall|k: int|
                0 <= k < template.dependencies@.len() ==> m@.contains_key(#[trigger] template.dependencies@[k]),
            dependencies@.len() == k,
            forall|j: int| 0 <= j < k ==> dependencies@[j] == m@[#[trigger] template.dependencies@[j]],
        decreases template.dependencies.len() - k,
    {
        dependencies.push(*m.get(&template.dependencies[k]).unwrap());
        k += 1;
    }
    let mut r = template.clone();
    r.template_id = template.id;
    r.id = *m.get(&template.id).unwrap();
    r.dependencies = dependencies;
    r.state = EventState::Waiting;
    proof {
        assert(r@.dependencies =~= instance(template@, m@).dependencies);
    }
    r
}

/// Records `id` as a dependent of each of `deps`.
fn record_dependents(dependents: &mut DHashMap<usize, Vec<usize>>, id: usize, deps: &Vec<usize>)
    ensures
        id_lists(final(dependents)@) == add_dependents(id_lists(old(dependents)@), id, deps@, deps@.len()),
{
    let mut k: usize = 0;
    while k < deps.len()
        invariant
            k <= deps.len(),
            id_lists(dependents@) == add_dependents(id_lists(old(dependents)@), id, deps@, k as nat),
        decreases deps.len() - k,
    {
        let d: usize = deps[k];
        let ghost before = id_lists(dependents@);
        let mut list: Vec<usize> = match dependents.remove(&d) {
            Some(v) => v,
            None => Vec::new(),
        };
        list.push(id);
        dependents.insert(d, list);
        proof {
            let entry = if before.contains_key(d) {
                before[d].push(id)
            } else {
                seq![id]
            };
            assert(list@ =~= entry);
            assert(id_lists(dependents@) =~= before.insert(d, entry));
        }
        k += 1;
    }
}

impl MLWorker {
    /// Starts the first iteration, if there is one.
    pub fn start(&mut self, event_ids: Vec<usize>, now_us: u64)
        requires
            old(self).total_iterations > 0 ==> event_ids@.len() == old(self).template_events@.len()
                && old(self).templates_closed(),
        ensures
            final(self).same_but_iteration(old(self)),
            final(self).current_iteration == old(self).current_iteration,
            old(self).total_iterations == 0 ==> *final(self) == *old(self),
            old(self).total_iterations > 0 ==> final(self).iter() == fresh_iteration(
                old(self).templates(),
                event_ids@,
            ) && final(self).last_iteration_start_time_us == Some(now_us),
    {
        if self.total_iterations > 0 {
            self.reset_iteration(event_ids, now_us);
        }
    }

    /// Starts an iteration: the template graph is instantiated with the given identifiers.
    fn reset_iteration(&mut self, event_ids: Vec<usize>, now_us: u64)
        requires
            event_ids@.len() == old(self).template_events@.len(),
            old(self).templates_closed(),
        ensures
            final(self).same_but_iteration(old(self)),
            final(self).current_iteration == old(self).current_iteration,
            final(self).iter() == fresh_iteration(old(self).templates(), event_ids@),
            final(self).last_iteration_start_time_us == Some(now_us),
    {
        let ghost t = self.templates();
        let ghost ids = event_ids@;
        let ghost ev = instances(t, ids);
        let m = map_ids(&self.template_events, &event_ids);
        let mut waiting: DHashMap<usize, WorkerEvent> = DHashMap::new();
        let mut ready: VecDeque<WorkerEvent> = VecDeque::new();
        let mut pending: DHashMap<usize, usize> = DHashMap::new();
        let mut dependents: DHashMap<usize, Vec<usize>> = DHashMap::new();
        proof {
            assert(event_table(waiting@) =~= waiting_of(ev, 0));
            assert(event_views(ready@) =~= ready_of(ev, 0));
            assert(id_lists(dependents@) =~= dependents_of(ev, 0));
        }
        let mut i: usize = 0;
        while i < self.template_events.len()
            invariant
                i <= self.template_events.len(),
                *self == *old(self),
                t == self.templates(),
                t.len() == self.template_events@.len(),
                ids.len() == t.len(),
                self.templates_closed(),
                ev == instances(t, ids),
                m@ == id_map(t, ids, t.len()),
                event_table(waiting@) == waiting_of(ev, i as nat),
                event_views(ready@) == ready_of(ev, i as nat),
                pending@ == pending_of(ev, i as nat),
                id_lists(dependents@) == dependents_of(ev, i as nat),
            decreases self.template_events.len() - i,
        {
            proof {
                lemma_id_map_dom(t, ids, t.len(), i as int);
                assert(t[i as int] == self.template_events@[i as int]@);
                assert forall|k: int| 0 <= k < self.template_events@[i as int].dependencies@.len() implies m@.contains_key(
                    #[trigger] self.template_events@[i as int].dependencies@[k],
                ) by {
                    let d = t[i as int].dependencies[k];
                    let j = choose|j: int| 0 <= j < t.len() && t[j].id == d;
                    lemma_id_map_dom(t, ids, t.len(), j);
                }
            }
            let event = instantiate(&self.template_events[i], &m);
            proof {
                assert(event@ == ev[i as int]);
            }
            pending.insert(event.id, event.dependencies.len());
            record_dependents(&mut dependents, event.id, &event.dependencies);
            let ghost waiting0 = event_table(waiting@);
            let ghost ready0 = event_views(ready@);
            if event.dependencies.len() == 0 {
                ready.push_back(event);
                proof {
                    assert(event_views(ready@) =~= ready0.push(ev[i as int]));
                }
            } else {
                waiting.insert(event.id, event);
                proof {
                    assert(event_table(waiting@) =~= waiting0.insert(ev[i as int].id, ev[i as int]));
                }
            }
            i += 1;
        }
        self.last_iteration_start_time_us = Some(now_us);
        self.waiting_events = waiting;
        self.ready_queue = ready;
        self.completed_events = Vec::new();
        self.running_events = DHashMap::new();
        self.pending_dep_count = pending;
        self.dependents = dependents;
        proof {
            assert(self.iter().running =~= Map::empty());
            assert(self.iter().completed =~= Seq::empty());
        }
    }

    /// Moves every ready event to the running ones and reports them in order.
    pub fn get_all_ready_events(&mut self) -> (r: Vec<ReadyEventInfo>)
        ensures
            r@ == old(self).iter().ready.map_values(|e: EventView| ready_info(e)),
            final(self).iter() == start_ready(old(self).iter()),
            final(self).same_but_iteration(old(self)),
            final(self).current_iteration == old(self).current_iteration,
            final(self).last_iteration_start_time_us == old(self).last_iteration_start_time_us,
    {
        let mut ready_events: Vec<ReadyEventInfo> = Vec::new();
        let ghost s0 = self.iter();
        proof {
            assert(s0.ready.skip(0) =~= s0.ready);
        }
        while self.ready_queue.len() > 0
            invariant
                s0 == old(self).iter(),
                ready_events@.len() <= s0.ready.len(),
                event_views(self.ready_queue@) == s0.ready.skip(ready_events@.len() as int),
                forall|i: int| 0 <= i < ready_events@.len() ==> ready_events@[i] == ready_info(#[trigger] s0.ready[i]),
                self.iter() == (IterView {
                    ready: s0.ready.skip(ready_events@.len() as int),
                    running: run_all(s0.running, s0.ready, ready_events@.len()),
                    ..s0
                }),
                self.same_but_iteration(old(self)),
                self.current_iteration == old(self).current_iteration,
                self.last_iteration_start_time_us == old(self).last_iteration_start_time_us,
            decreases self.ready_queue.len(),
        {
            let ghost n = ready_events@.len();
            let ghost q0 = self.ready_queue@;
            let ghost run0 = event_table(self.running_events@);
            proof {
                assert(event_views(q0).len() == q0.len());
                assert(s0.ready.skip(n as int).len() > 0);
                assert(event_views(q0)[0] == s0.ready.skip(n as int)[0]);
            }
            let mut event = self.ready_queue.pop_front().unwrap();
            proof {
                assert(event@ == s0.ready[n as int]);
                assert(event_views(self.ready_queue@) =~= event_views(q0).skip(1));
                assert(s0.ready.skip(n as int).skip(1) =~= s0.ready.skip(n as int + 1));
                assert(event_views(self.ready_queue@) =~= s0.ready.skip(n as int + 1));
            }
            let info = ReadyEventInfo {
                id: event.id,
                kind: event.kind,
                compute_duration_us: match &event.compute {
                    Some(c) => c.duration_us,
                    None => 0,
                },
            };
            event.state = EventState::Running;
            let ghost e = event@;
            self.running_events.insert(event.id, event);
            proof {
                assert(event_table(self.running_events@) =~= run0.insert(e.id, e));
            }
            ready_events.push(info);
        }
        proof {
            assert(s0.ready.skip(ready_events@.len() as int).len() == 0);
            assert(ready_events@ =~= s0.ready.map_values(|e: EventView| ready_info(e)));
            assert(self.iter().ready =~= Seq::empty());
        }
        ready_events
    }

    /// Whether the current iteration has nothing left to run.
    pub fn is_current_iteration_complete(&self) -> (r: bool)
        ensures
            r == self.iter().done(),
    {
        proof {
            let s = self.iter();
            assert(s.waiting.dom() =~= self.waiting_events@.dom());
            assert(s.running.dom() =~= self.running_events@.dom());
            if self.waiting_events@ == Map::<usize, WorkerEvent>::empty() {
                assert(s.waiting =~= Map::empty());
            }
            if self.running_events@ == Map::<usize, WorkerEvent>::empty() {
                assert(s.running =~= Map::empty());
            }
        }
        self.waiting_events.is_empty() && self.ready_queue.len() == 0 && self.running_events.is_empty()
    }
}

impl MLWorker {
    /// A dependency of each listed event is satisfied.
    fn satisfy_dependents(&mut self, list: &Vec<usize>)
        ensures
            final(self).iter() == satisfy_all(old(self).iter(), list@, list@.len()),
            final(self).same_but_iteration(old(self)),
            final(self).current_iteration == old(self).current_iteration,
            final(self).last_iteration_start_time_us == old(self).last_iteration_start_time_us,
    {
        let mut k: usize = 0;
        while k < list.len()
            invariant
                k <= list.len(),
                self.iter() == satisfy_all(old(self).iter(), list@, k as nat),
                self.same_but_iteration(old(self)),
                self.current_iteration == old(self).current_iteration,
                self.last_iteration_start_time_us == old(self).last_iteration_start_time_us,
            decreases list.len() - k,
        {
            let ghost s = self.iter();
            let d: usize = list[k];
            let count: Option<usize> = match self.pending_dep_count.get(&d) {
                Some(c) => Some(*c),
                None => None,
            };
            if let Some(c) = count {
                let left: usize = c.saturating_sub(1);
                self.pending_dep_count.insert(d, left);
                if left == 0 {
                    let ghost w0 = self.waiting_events@;
                    let ghost q0 = self.ready_queue@;
                    if let Some(event) = self.waiting_events.remove(&d) {
                        self.ready_queue.push_back(event);
                        proof {
                            assert(event_views(self.ready_queue@) =~= event_views(q0).push(w0[d]@));
                            assert(event_table(self.waiting_events@) =~= event_table(w0).remove(d));
                        }
                    } else {
                        proof {
                            assert(event_table(self.waiting_events@) =~= event_table(w0));
                        }
                    }
                }
            }
            proof {
                assert(self.iter() == satisfy(s, d));
            }
            k += 1;
        }
    }

    /// Records that a running event has completed.
    ///
    /// The next iteration does not start by itself: the simulator starts it once every worker of
    /// the job has completed the current one.
    pub fn notify_event_completed_ex(&mut self, event_id: usize) -> (r: WorkerNotifyResult)
        requires
            old(self).iter().running.contains_key(event_id),
            complete_event(old(self).iter(), event_id).done() ==> old(self).current_iteration < usize::MAX,
        ensures
            final(self).iter() == complete_event(old(self).iter(), event_id),
            final(self).same_but_iteration(old(self)),
            final(self).last_iteration_start_time_us == old(self).last_iteration_start_time_us,
            final(self).current_iteration == if final(self).iter().done() {
                old(self).current_iteration + 1
            } else {
                old(self).current_iteration as int
            },
            r == if !final(self).iter().done() {
                WorkerNotifyResult::EventDone
            } else if final(self).current_iteration >= old(self).total_iterations {
                WorkerNotifyResult::JobCompleted
            } else {
                WorkerNotifyResult::IterationCompleted { iteration_idx: old(self).current_iteration }
            },
    {
        let ghost s0 = self.iter();
        let ghost running0 = self.running_events@;
        let ghost completed0 = self.completed_events@;
        let ghost dependents0 = self.dependents@;
        let mut event = self.running_events.remove(&event_id).unwrap();
        event.state = EventState::Completed;
        let ghost e = event@;
        self.completed_events.push(event);
        let list = self.dependents.remove(&event_id);
        proof {
            assert(event_table(self.running_events@) =~= s0.running.remove(event_id));
            assert(event_views(self.completed_events@) =~= s0.completed.push(e));
            assert(id_lists(self.dependents@) =~= s0.dependents.remove(event_id));
        }
        if let Some(ids) = list {
            self.satisfy_dependents(&ids);
        }
        if self.is_current_iteration_complete() {
            let finished_iter: usize = self.current_iteration;
            self.current_iteration = self.current_iteration + 1;
            if self.current_iteration >= self.total_iterations {
                return WorkerNotifyResult::JobCompleted;
            }
            return WorkerNotifyResult::IterationCompleted { iteration_idx: finished_iter };
        }
        WorkerNotifyResult::EventDone
    }

    /// Starts the next iteration.
    pub fn start_next_iteration(&mut self, event_ids: Vec<usize>, now_us: u64)
        requires
            event_ids@.len() == old(self).template_events@.len(),
            old(self).templates_closed(),
        ensures
            final(self).same_but_iteration(old(self)),
            final(self).current_iteration == old(self).current_iteration,
            final(self).iter() == fresh_iteration(old(self).templates(), event_ids@),
            final(self).last_iteration_start_time_us == Some(now_us),
    {
        self.reset_iteration(event_ids, now_us);
    }

    /// Whether the worker has completed an iteration and the next has not started.
    pub fn is_waiting_for_barrier(&self) -> (r: bool)
        ensures
            r == (self.iter().done() && self.current_iteration < self.total_iterations),
    {
        self.is_current_iteration_complete() && self.current_iteration < self.total_iterations
    }

    /// Records that a running event has completed; `true` if that was the last of all.
    pub fn notify_event_completed(&mut self, event_id: usize) -> (r: bool)
        requires
            old(self).iter().running.contains_key(event_id),
            complete_event(old(self).iter(), event_id).done() ==> old(self).current_iteration < usize::MAX,
        ensures
            final(self).iter() == complete_event(old(self).iter(), event_id),
            final(self).same_but_iteration(old(self)),
            final(self).last_iteration_start_time_us == old(self).last_iteration_start_time_us,
            final(self).current_iteration == if final(self).iter().done() {
                old(self).current_iteration + 1
            } else {
                old(self).current_iteration as int
            },
            r == (final(self).iter().done() && final(self).current_iteration >= old(self).total_iterations),
    {
        self.notify_event_completed_ex(event_id) == WorkerNotifyResult::JobCompleted
    }

    /// Whether all iterations have completed.
    pub fn is_completely_finished(&self) -> (r: bool)
        ensures
            r == (self.current_iteration >= self.total_iterations),
    {
        self.current_iteration >= self.total_iterations
    }

    /// Whether the current iteration has events left.
    pub fn has_pending_events(&self) -> (r: bool)
        ensures
            r == !self.iter().done(),
    {
        !self.is_current_iteration_complete()
    }

    /// The running event with the given identifier.
    pub fn get_running_event(&self, event_id: usize) -> (r: Option<&WorkerEvent>)
        ensures
            r == (if self.running_events@.contains_key(event_id) {
                Some(&self.running_events@[event_id])
            } else {
                None
            }),
    {
        self.running_events.get(&event_id)
    }

    /// The running events.
    pub fn get_running_events(&self) -> (r: &DHashMap<usize, WorkerEvent>)
        ensures
            *r == self.running_events,
    {
        &self.running_events
    }

    /// The workers that this worker sends to, each once, in template order.
    pub fn get_send_neighbors(&self) -> (r: Vec<WorkerId>)
        ensures
            r@ == first_occurrences(send_peers(self.templates(), self.templates().len())),
    {
        let mut seen: DHashSet<usize> = DHashSet::new();
        let mut neighbors: Vec<WorkerId> = Vec::new();
        let ghost t = self.templates();
        let mut i: usize = 0;
        proof {
            assert(neighbors@ =~= first_occurrences(send_peers(t, 0)));
            assert(seen@ =~= neighbors@.to_set());
        }
        while i < self.template_events.len()
            invariant
                i <= self.template_events.len(),
                t == self.templates(),
                t.len() == self.template_events@.len(),
                neighbors@ == first_occurrences(send_peers(t, i as nat)),
                seen@ == neighbors@.to_set(),
            decreases self.template_events.len() - i,
        {
            proof {
                assert(t[i as int] == self.template_events@[i as int]@);
            }
            if let Some(fs) = &self.template_events[i].flow_send {
                proof {
                    let before = send_peers(t, i as nat);
                    assert(before.push(fs.dst_worker).drop_last() =~= before);
                    lemma_push_to_set(neighbors@, fs.dst_worker);
                }
                if seen.insert(fs.dst_worker) {
                    neighbors.push(fs.dst_worker);
                }
            }
            i += 1;
        }
        neighbors
    }

    /// The workers that this worker receives from, each once, in template order.
    pub fn get_receive_neighbors(&self) -> (r: Vec<WorkerId>)
        ensures
            r@ == first_occurrences(receive_peers(self.templates(), self.templates().len())),
    {
        let mut seen: DHashSet<usize> = DHashSet::new();
        let mut neighbors: Vec<WorkerId> = Vec::new();
        let ghost t = self.templates();
        let mut i: usize = 0;
        proof {
            assert(neighbors@ =~= first_occurrences(receive_peers(t, 0)));
            assert(seen@ =~= neighbors@.to_set());
        }
        while i < self.template_events.len()
            invariant
                i <= self.template_events.len(),
                t == self.templates(),
                t.len() == self.template_events@.len(),
                neighbors@ == first_occurrences(receive_peers(t, i as nat)),
                seen@ == neighbors@.to_set(),
            decreases self.template_events.len() - i,
        {
            proof {
                assert(t[i as int] == self.template_events@[i as int]@);
            }
            if let Some(fr) = &self.template_events[i].flow_receive {
                proof {
                    let before = receive_peers(t, i as nat);
                    assert(before.push(fr.src_worker).drop_last() =~= before);
                    lemma_push_to_set(neighbors@, fr.src_worker);
                }
                if seen.insert(fr.src_worker) {
                    neighbors.push(fr.src_worker);
                }
            }
            i += 1;
        }
        neighbors
    }
}

/// The destinations of the sends among the first `n` templates.
pub open spec fn send_peers(t: Seq<EventView>, n: nat) -> Seq<WorkerId>
    decreases n,
{
    if n == 0 {
        Seq::empty()
    } else {
        let before = send_peers(t, (n - 1) as nat);
        match t[n - 1].flow_send {
            Some(f) => before.push(f.dst_worker),
            None => before,
        }
    }
}

/// The sources of the receives among the first `n` templates.
pub open spec fn receive_peers(t: Seq<EventView>, n: nat) -> Seq<WorkerId>
    decreases n,
{
    if n == 0 {
        Seq::empty()
    } else {
        let before = receive_peers(t, (n - 1) as nat);
        match t[n - 1].flow_receive {
            Some(f) => before.push(f.src_worker),
            None => before,
        }
    }
}

/// The distinct elements of `s` in the order of their first occurrence.
pub open spec fn first_occurrences(s: Seq<usize>) -> Seq<usize>
    decreases s.len(),
{
    if s.len() == 0 {
        Seq::empty()
    } else {
        let before = first_occurrences(s.drop_last());
        if before.contains(s.last()) {
            before
        } else {
            before.push(s.last())
        }
    }
}

} // verus!
