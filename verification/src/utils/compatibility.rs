//! What a worker computes and sends in one iteration.

use vstd::prelude::*;
use vstd::string::*;

use crate::simulator::ml_worker::{EventView, MLWorker, WorkerEventKind};
use crate::utils::text::{decimal, push_decimal, push_index};

verus! {

/// A send of a worker.
#[derive(Debug, Clone, Copy, PartialEq, Eq, Structural)]
pub struct FlowSummary {
    pub template_id: usize,
    pub size_bytes: u64,
}

/// Computation followed by at most one send.
#[derive(Debug, Clone, Copy, PartialEq, Eq)]
pub struct Step {
    pub compute_us: u64,
    pub flow: Option<FlowSummary>,
}

/// The steps of one iteration.
#[derive(Debug)]
pub struct WorkerDescription {
    pub steps: Vec<Step>,
}

/// The sum, at most the largest number.
pub open spec fn saturating_sum(a: u64, b: u64) -> u64 {
    if a + b > u64::MAX {
        u64::MAX
    } else {
        (a + b) as u64
    }
}

/// Steps that end among the first `n` events, and the computation since.
pub open spec fn steps_before(t: Seq<EventView>, n: nat) -> (Seq<Step>, u64)
    decreases n,
{
    if n == 0 {
        (Seq::empty(), 0)
    } else {
        let (steps, acc) = steps_before(t, (n - 1) as nat);
        let e = t[n - 1];
        match e.kind {
            WorkerEventKind::Compute => match e.compute {
                Some(c) => (steps, saturating_sum(acc, c.duration_us)),
                None => (steps, acc),
            },
            WorkerEventKind::FlowSend => match e.flow_send {
                Some(f) => (
                    steps.push(
                        Step {
                            compute_us: acc,
                            flow: Some(FlowSummary { template_id: e.template_id, size_bytes: f.size_bytes }),
                        },
                    ),
                    0,
                ),
                None => (steps, acc),
            },
            WorkerEventKind::FlowReceive => (steps, acc),
        }
    }
}

/// The steps of an event graph in declaration order.
pub open spec fn description(t: Seq<EventView>) -> Seq<Step> {
    let (steps, acc) = steps_before(t, t.len());
    if acc > 0 {
        steps.push(Step { compute_us: acc, flow: None })
    } else {
        steps
    }
}

/// The text of a step.
pub open spec fn step_text(s: Step) -> Seq<char> {
    match s.flow {
        Some(f) => "Compute("@ + decimal(s.compute_us as nat) + " ms) -> Flow(tid="@ + decimal(f.template_id as nat)
            + ", size="@ + decimal(f.size_bytes as nat) + " B)"@,
        None => "Compute("@ + decimal(s.compute_us as nat) + " us)"@,
    }
}

/// The text of the first `n` steps, numbered from one, a line each.
pub open spec fn steps_text(s: Seq<Step>, n: nat) -> Seq<char>
    decreases n,
{
    if n == 0 {
        Seq::empty()
    } else {
        steps_text(s, (n - 1) as nat) + "  "@ + decimal(n) + ". "@ + step_text(s[n - 1]) + "\n"@
    }
}

impl Step {
    /// The step as text.
    pub fn to_text(&self) -> (r: String)
        ensures
            r@ == step_text(*self),
    {
        let mut s = String::from_str("Compute(");
        push_decimal(&mut s, self.compute_us);
        match &self.flow {
            Some(flow) => {
                s.append(" ms) -> Flow(tid=");
                push_index(&mut s, flow.template_id);
                s.append(", size=");
                push_decimal(&mut s, flow.size_bytes);
                s.append(" B)");
            },
            None => {
                s.append(" us)");
            },
        }
        s
    }
}

impl WorkerDescription {
    /// The description as text, a line per step.
    pub fn to_text(&self) -> (r: String)
        ensures
            r@ == steps_text(self.steps@, self.steps@.len()),
    {
        let mut s = String::new();
        let n: usize = self.steps.len();
        let mut i: usize = 0;
        while i < n
            invariant
                i <= n,
                n == self.steps@.len(),
                s@ == steps_text(self.steps@, i as nat),
            decreases n - i,
        {
            s.append("  ");
            push_index(&mut s, i + 1);
            s.append(". ");
            let text = self.steps[i].to_text();
            s.append(text.as_str());
            s.append("\n");
            i += 1;
        }
        s
    }

    /// The steps of a worker: computation is summed up until the next send.
    pub fn from_worker(worker: &MLWorker) -> (r: Self)
        ensures
            r.steps@ == description(worker.templates()),
    {
        let mut steps: Vec<Step> = Vec::new();
        let mut acc: u64 = 0;
        let ghost t = worker.templates();
        let mut i: usize = 0;
        while i < worker.template_events.len()
            invariant
                i <= worker.template_events.len(),
                t == worker.templates(),
                t.len() == worker.template_events@.len(),
                steps@ == steps_before(t, i as nat).0,
                acc == steps_before(t, i as nat).1,
            decreases worker.template_events.len() - i,
        {
            let ev = &worker.template_events[i];
            proof {
                assert(t[i as int] == ev@);
            }
            match ev.kind {
                WorkerEventKind::Compute => {
                    if let Some(c) = &ev.compute {
                        acc = acc.saturating_add(c.duration_us);
                    }
                },
                WorkerEventKind::FlowSend => {
                    if let Some(f) = &ev.flow_send {
                        steps.push(
                            Step {
                                compute_us: acc,
                                flow: Some(FlowSummary { template_id: ev.template_id, size_bytes: f.size_bytes }),
                            },
                        );
                        acc = 0;
                    }
                },
                WorkerEventKind::FlowReceive => {},
            }
            i += 1;
        }
        if acc > 0 {
            steps.push(Step { compute_us: acc, flow: None });
        }
        WorkerDescription { steps }
    }
}

} // verus!
