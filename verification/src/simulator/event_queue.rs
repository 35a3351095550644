//! The pending events of a simulation.

use vstd::multiset::Multiset;
use vstd::prelude::*;

use crate::simulator::ml_worker::{FlowId, JobId, WorkerId};
use crate::simulator::system::TimerId;

verus! {

/// The kinds of simulation events.
#[derive(Debug, Clone, Copy, PartialEq, Eq, Structural)]
pub enum MLEventKind {
    /// A job arrives.
    JobArrival,
    /// A computation completes.
    ComputeCompletion,
    /// A worker is ready to send.
    FlowSendReady,
    /// A worker is ready to receive.
    FlowReceiveReady,
    /// A transfer has completed.
    FlowSendComplete,
    /// A job has completed.
    JobComplete,
    /// Something happened in the network.
    NetworkEvent,
    /// Routing and scheduling are to be updated.
    Reconfigure,
    /// A migration begins.
    MigrationBegin,
    /// A migration ends.
    MigrationEnd,
    /// The flow scheduler wants to be polled.
    FlowSchedulerPoll,
    /// A migrated job resumes.
    PostMigrationRestart,
    /// A timer of the system module fires.
    SystemTimer,
}

impl MLEventKind {
    /// Among events of the same time, the lower rank goes first.
    pub open spec fn rank_spec(self) -> u8 {
        match self {
            MLEventKind::JobArrival => 0,
            MLEventKind::ComputeCompletion => 1,
            MLEventKind::FlowSendReady => 2,
            MLEventKind::FlowReceiveReady => 3,
            MLEventKind::FlowSendComplete => 4,
            MLEventKind::JobComplete => 5,
            MLEventKind::NetworkEvent => 6,
            MLEventKind::Reconfigure => 7,
            MLEventKind::MigrationBegin => 8,
            MLEventKind::MigrationEnd => 9,
            MLEventKind::FlowSchedulerPoll => 10,
            MLEventKind::PostMigrationRestart => 11,
            MLEventKind::SystemTimer => 12,
        }
    }

    /// Among events of the same time, the lower rank goes first.
    pub fn rank(self) -> (r: u8)
        ensures
            r == self.rank_spec(),
    {
        match self {
            MLEventKind::JobArrival => 0,
            MLEventKind::ComputeCompletion => 1,
            MLEventKind::FlowSendReady => 2,
            MLEventKind::FlowReceiveReady => 3,
            MLEventKind::FlowSendComplete => 4,
            MLEventKind::JobComplete => 5,
            MLEventKind::NetworkEvent => 6,
            MLEventKind::Reconfigure => 7,
            MLEventKind::MigrationBegin => 8,
            MLEventKind::MigrationEnd => 9,
            MLEventKind::FlowSchedulerPoll => 10,
            MLEventKind::PostMigrationRestart => 11,
            MLEventKind::SystemTimer => 12,
        }
    }
}

/// An event with what it refers to.
#[derive(Debug, Clone, Copy)]
pub struct MLEvent {
    pub time_us: u64,
    pub kind: MLEventKind,
    pub job_id: Option<JobId>,
    pub worker_id: Option<WorkerId>,
    pub event_id: Option<usize>,
    pub flow_id: Option<FlowId>,
    pub timer_id: Option<TimerId>,
}

/// Event `a` is due no later than event `b`: by time, then by kind.
pub open spec fn due_no_later(a: MLEvent, b: MLEvent) -> bool {
    a.time_us < b.time_us || (a.time_us == b.time_us && a.kind.rank_spec() <= b.kind.rank_spec())
}

impl MLEvent {
    /// An event that refers to nothing.
    pub open spec fn plain(time_us: u64, kind: MLEventKind) -> MLEvent {
        MLEvent { time_us, kind, job_id: None, worker_id: None, event_id: None, flow_id: None, timer_id: None }
    }

    /// An event that refers to nothing.
    pub fn at(time_us: u64, kind: MLEventKind) -> (r: MLEvent)
        ensures
            r == MLEvent::plain(time_us, kind),
    {
        MLEvent { time_us, kind, job_id: None, worker_id: None, event_id: None, flow_id: None, timer_id: None }
    }

    /// An event of a job.
    pub open spec fn of_job(time_us: u64, kind: MLEventKind, job_id: JobId) -> MLEvent {
        MLEvent { job_id: Some(job_id), ..MLEvent::plain(time_us, kind) }
    }

    /// An event of a job.
    pub fn for_job(time_us: u64, kind: MLEventKind, job_id: JobId) -> (r: MLEvent)
        ensures
            r == MLEvent::of_job(time_us, kind, job_id),
    {
        MLEvent {
            time_us,
            kind,
            job_id: Some(job_id),
            worker_id: None,
            event_id: None,
            flow_id: None,
            timer_id: None,
        }
    }

    /// An event about a flow.
    pub open spec fn of_flow(time_us: u64, kind: MLEventKind, flow_id: FlowId) -> MLEvent {
        MLEvent { flow_id: Some(flow_id), ..MLEvent::plain(time_us, kind) }
    }

    /// An event about a flow.
    pub fn for_flow(time_us: u64, kind: MLEventKind, flow_id: FlowId) -> (r: MLEvent)
        ensures
            r == MLEvent::of_flow(time_us, kind, flow_id),
    {
        let mut e = MLEvent::at(time_us, kind);
        e.flow_id = Some(flow_id);
        e
    }

    /// An event of a worker.
    pub open spec fn of_worker(
        time_us: u64,
        kind: MLEventKind,
        job_id: JobId,
        worker_id: WorkerId,
        event_id: usize,
    ) -> MLEvent {
        MLEvent {
            job_id: Some(job_id),
            worker_id: Some(worker_id),
            event_id: Some(event_id),
            ..MLEvent::plain(time_us, kind)
        }
    }

    /// An event of a worker.
    pub fn for_worker(
        time_us: u64,
        kind: MLEventKind,
        job_id: JobId,
        worker_id: WorkerId,
        event_id: usize,
    ) -> (r: MLEvent)
        ensures
            r == MLEvent::of_worker(time_us, kind, job_id, worker_id, event_id),
    {
        MLEvent {
            time_us,
            kind,
            job_id: Some(job_id),
            worker_id: Some(worker_id),
            event_id: Some(event_id),
            flow_id: None,
            timer_id: None,
        }
    }

    /// Whether the event is due no later than another.
    fn is_due_no_later(&self, other: &MLEvent) -> (r: bool)
        ensures
            r == due_no_later(*self, *other),
    {
        self.time_us < other.time_us || (self.time_us == other.time_us && self.kind.rank() <= other.kind.rank())
    }
}

/// A priority queue of events: the event that is due first leaves first.
pub struct EventQueue {
    events: Vec<MLEvent>,
}

impl View for EventQueue {
    type V = Multiset<MLEvent>;

    closed spec fn view(&self) -> Multiset<MLEvent> {
        self.events@.to_multiset()
    }
}

/// `e` is in `m`, and no event of `m` is due before it.
pub open spec fn is_first_due(m: Multiset<MLEvent>, e: MLEvent) -> bool {
    m.count(e) > 0 && forall|x: MLEvent| m.count(x) > 0 ==> due_no_later(e, x)
}

impl EventQueue {
    /// An empty queue.
    pub fn new() -> (r: Self)
        ensures
            r@ == Multiset::<MLEvent>::empty(),
    {
        let r = EventQueue { events: Vec::new() };
        proof {
            r.events@.to_multiset_ensures();
            assert(r@ =~= Multiset::empty());
        }
        r
    }

    /// Adds an event.
    pub fn push(&mut self, e: MLEvent)
        ensures
            final(self)@ == old(self)@.insert(e),
    {
        proof {
            self.events@.to_multiset_ensures();
        }
        self.events.push(e);
        proof {
            assert(self@ =~= old(self)@.insert(e));
        }
    }

    /// Position of an event that is due first.
    fn first_due(&self) -> (r: usize)
        requires
            self.events@.len() > 0,
        ensures
            r < self.events@.len(),
            is_first_due(self@, self.events@[r as int]),
    {
        let mut best: usize = 0;
        let mut i: usize = 1;
        while i < self.events.len()
            invariant
                best < i <= self.events@.len(),
                forall|j: int| 0 <= j < i ==> due_no_later(self.events@[best as int], #[trigger] self.events@[j]),
            decreases self.events.len() - i,
        {
            if !self.events[best].is_due_no_later(&self.events[i]) {
                best = i;
            }
            i += 1;
        }
        proof {
            self.events@.to_multiset_ensures();
            let e = self.events@[best as int];
            assert(self.events@.contains(e));
            assert forall|x: MLEvent| self@.count(x) > 0 implies due_no_later(e, x) by {
                assert(self.events@.contains(x));
                let j = choose|j: int| 0 <= j < self.events@.len() && self.events@[j] == x;
            }
        }
        best
    }

    /// Takes out an event that is due first.
    pub fn pop(&mut self) -> (r: Option<MLEvent>)
        ensures
            match r {
                Some(e) => is_first_due(old(self)@, e) && final(self)@ == old(self)@.remove(e),
                None => old(self)@.len() == 0 && final(self)@ == old(self)@,
            },
    {
        proof {
            self.events@.to_multiset_ensures();
        }
        if self.events.len() == 0 {
            return None;
        }
        let i: usize = self.first_due();
        let e = self.events.remove(i);
        proof {
            assert(self@ =~= old(self)@.remove(e));
        }
        Some(e)
    }

    /// The time of the event that is due first.
    pub fn peek_time(&self) -> (r: Option<u64>)
        ensures
            match r {
                Some(t) => exists|e: MLEvent| #[trigger] is_first_due(self@, e) && e.time_us == t,
                None => self@.len() == 0,
            },
    {
        proof {
            self.events@.to_multiset_ensures();
        }
        if self.events.len() == 0 {
            return None;
        }
        let i: usize = self.first_due();
        Some(self.events[i].time_us)
    }
}

} // verus!
