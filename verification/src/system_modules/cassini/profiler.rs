//! How a job communicates, from the events of its workers.

use vstd::prelude::*;

use crate::simulator::ml_job::{ascending, lemma_ascending, MLJob};
use crate::simulator::ml_worker::{clone_name, event_views, EventView, WorkerEvent};
use crate::system_modules::cassini::timeline::{build_timeline, is_timeline, FlowInterval};
use crate::system_modules::cassini::timing::{compute_spans, event_demand, event_duration, event_spans, time_event};
use crate::system_modules::cassini::types::{CommunicationPhase, JobProfile};

verus! {

/// The throughput where none is set: that of a link of one gigabit per second.
pub const DEFAULT_THROUGHPUT_BYTES_PER_US: u64 = 125;

/// The demand that a job without a known pattern is taken to have.
pub const DEFAULT_DEMAND: u64 = 1000;

/// Finds out how jobs communicate.
#[derive(Debug, Clone, Copy)]
pub struct JobProfiler {
    /// By which the duration of a transfer is estimated.
    pub baseline_throughput_bytes_per_us: u64,
}

/// When the last of the first `n` events ends.
pub open spec fn last_end(spans: Seq<Option<(u64, u64)>>, n: nat) -> u64
    decreases n,
{
    if n == 0 {
        0
    } else {
        let before = last_end(spans, (n - 1) as nat);
        match spans[n - 1] {
            Some((_, end)) => if end > before {
                end
            } else {
                before
            },
            None => before,
        }
    }
}

/// How long an iteration takes.
pub open spec fn iteration_length(spans: Seq<Option<(u64, u64)>>) -> u64 {
    if last_end(spans, spans.len()) == 0 {
        1
    } else {
        last_end(spans, spans.len())
    }
}

/// The transfers of the first `n` events.
pub open spec fn flow_intervals(
    events: Seq<EventView>,
    throughput: u64,
    spans: Seq<Option<(u64, u64)>>,
    n: nat,
) -> Seq<FlowInterval>
    decreases n,
{
    if n == 0 {
        Seq::empty()
    } else {
        let before = flow_intervals(events, throughput, spans, (n - 1) as nat);
        let ev = events[n - 1];
        match spans[n - 1] {
            Some((start, end)) => if event_demand(ev, throughput) != 0 && event_duration(ev, throughput) != 0 && end
                > start {
                before.push(FlowInterval { start, end, demand: event_demand(ev, throughput) })
            } else {
                before
            },
            None => before,
        }
    }
}

/// What the events of an iteration say about it: how long it takes, and its phases.
pub open spec fn is_analysis(
    events: Seq<EventView>,
    throughput: u64,
    iteration_time_us: u64,
    phases: Seq<CommunicationPhase>,
) -> bool {
    let spans = event_spans(events, throughput, events.len());
    &&& iteration_time_us == iteration_length(spans)
    &&& is_timeline(flow_intervals(events, throughput, spans, events.len()), iteration_time_us, phases)
}

/// The events that stand for a job: those of its first worker.
pub open spec fn profiled_events(job: MLJob) -> Seq<EventView> {
    job.workers@[ascending(job.workers@.dom())[0]].templates()
}

/// The job has events to go by.
pub open spec fn can_profile(job: MLJob) -> bool {
    job.workers@.dom() != Set::<usize>::empty() && profiled_events(job).len() > 0
}

impl JobProfiler {
    /// The transfers have a throughput.
    pub open spec fn wf(&self) -> bool {
        self.baseline_throughput_bytes_per_us > 0
    }

    /// A profiler with the default throughput.
    pub fn new() -> (r: Self)
        ensures
            r.baseline_throughput_bytes_per_us == DEFAULT_THROUGHPUT_BYTES_PER_US,
            r.wf(),
    {
        JobProfiler { baseline_throughput_bytes_per_us: DEFAULT_THROUGHPUT_BYTES_PER_US }
    }

    /// Sets the throughput by which the duration of a transfer is estimated, at least one.
    pub fn set_baseline_throughput_bytes_per_us(&mut self, throughput_b_per_us: u64)
        ensures
            final(self).baseline_throughput_bytes_per_us == if throughput_b_per_us == 0 {
                1
            } else {
                throughput_b_per_us
            },
            final(self).wf(),
    {
        self.baseline_throughput_bytes_per_us = if throughput_b_per_us == 0 {
            1
        } else {
            throughput_b_per_us
        };
    }

    /// How a job communicates, by the events of its first worker.
    pub fn profile_job(&self, job: &MLJob) -> (r: Option<JobProfile>)
        requires
            self.wf(),
        ensures
            r is Some == can_profile(*job),
            r matches Some(p) ==> {
                &&& p.job_id == job.id
                &&& p.num_workers == job.num_workers
                &&& p.name == job.name
                &&& is_analysis(
                    profiled_events(*job),
                    self.baseline_throughput_bytes_per_us,
                    p.iteration_time_us,
                    p.communication_phases@,
                )
            },
    {
        let ids = job.workers.sorted_keys();
        proof {
            lemma_ascending(ids@, job.workers@.dom());
        }
        if ids.len() == 0 {
            proof {
                assert(ids@.to_set() =~= Set::<usize>::empty());
            }
            return None;
        }
        proof {
            assert(ids@.to_set().contains(ids@[0]));
            assert(job.workers@.dom() != Set::<usize>::empty());
        }
        match job.workers.get(&ids[0]) {
            Some(w) => {
                if w.template_events.len() == 0 {
                    return None;
                }
                let (iteration_time_us, communication_phases) = self.analyze_events(&w.template_events);
                Some(
                    JobProfile {
                        job_id: job.id,
                        iteration_time_us,
                        communication_phases,
                        num_workers: job.num_workers,
                        name: clone_name(&job.name),
                    },
                )
            },
            None => None,
        }
    }

    /// How long the events take, started as early as possible, and the demand of their transfers over time.
    pub fn analyze_events(&self, events: &Vec<WorkerEvent>) -> (r: (u64, Vec<CommunicationPhase>))
        requires
            self.wf(),
        ensures
            is_analysis(event_views(events@), self.baseline_throughput_bytes_per_us, r.0, r.1@),
    {
        let throughput: u64 = self.baseline_throughput_bytes_per_us;
        let ghost views = event_views(events@);
        let spans = compute_spans(events, throughput);
        let mut total: u64 = 0;
        let mut list: Vec<FlowInterval> = Vec::new();
        let mut i: usize = 0;
        while i < events.len()
            invariant
                i <= events@.len(),
                throughput > 0,
                views == event_views(events@),
                spans@.len() == events@.len(),
                total == last_end(spans@, i as nat),
                list@ == flow_intervals(views, throughput, spans@, i as nat),
            decreases events@.len() - i,
        {
            assert(views[i as int] == events@[i as int]@);
            if let Some((start, end)) = spans[i] {
                if end > total {
                    total = end;
                }
                let (duration, demand): (u64, u64) = time_event(&events[i], throughput);
                if demand != 0 && duration != 0 && end > start {
                    list.push(FlowInterval { start, end, demand });
                }
            }
            i += 1;
        }
        if total == 0 {
            total = 1;
        }
        let phases = build_timeline(&list, total);
        (total, phases)
    }

    /// How long a transfer takes.
    pub fn estimate_flow_duration(&self, size_bytes: u64) -> (r: u64)
        requires
            self.wf(),
        ensures
            r == size_bytes / self.baseline_throughput_bytes_per_us,
    {
        size_bytes / self.baseline_throughput_bytes_per_us
    }

    /// A profile for a job without a known pattern: it computes for seven tenths of the iteration and
    /// communicates for the rest.
    pub fn create_default_profile(&self, job: &MLJob, iteration_time_us: u64) -> (r: JobProfile)
        requires
            iteration_time_us * 7 <= u64::MAX,
        ensures
            r.job_id == job.id,
            r.iteration_time_us == iteration_time_us,
            r.num_workers == job.num_workers,
            r.name == job.name,
            r.communication_phases@ == seq![
                CommunicationPhase {
                    duration_us: ((iteration_time_us * 7) / 10) as u64,
                    bandwidth_demand: 0,
                    is_up_phase: false,
                },
                CommunicationPhase {
                    duration_us: ((iteration_time_us * 3) / 10) as u64,
                    bandwidth_demand: DEFAULT_DEMAND,
                    is_up_phase: true,
                },
            ],
    {
        let compute_phase = CommunicationPhase {
            duration_us: iteration_time_us * 7 / 10,
            bandwidth_demand: 0,
            is_up_phase: false,
        };
        let comm_phase = CommunicationPhase {
            duration_us: iteration_time_us * 3 / 10,
            bandwidth_demand: DEFAULT_DEMAND,
            is_up_phase: true,
        };
        JobProfile {
            job_id: job.id,
            iteration_time_us,
            communication_phases: vec![compute_phase, comm_phase],
            num_workers: job.num_workers,
            name: clone_name(&job.name),
        }
    }
}

impl Default for JobProfiler {
    fn default() -> (r: Self)
        ensures
            r.baseline_throughput_bytes_per_us == DEFAULT_THROUGHPUT_BYTES_PER_US,
            r.wf(),
    {
        JobProfiler::new()
    }
}

} // verus!
