//! Job types: the steps that all workers of a job run in each iteration.

use vstd::prelude::*;
use vstd::string::*;

use crate::simulator::ml_worker::JobId;
use crate::utils::text::{lemma_first_on, lemma_one_first, precedes, same_text, text_before};

verus! {

/// A computation.
#[derive(Debug, Clone, Copy, PartialEq, Eq, Structural)]
pub struct ComputeParams {
    pub duration_us: u64,
}

/// A ring all-reduce of the job's model.
#[derive(Debug, Clone, Copy, PartialEq, Eq, Structural)]
pub struct AllReduceParams {}

/// An exchange of all workers with all others.
#[derive(Debug, Clone, Copy, PartialEq, Eq, Structural)]
pub struct AllToAllParams {
    /// Bytes over all flows.
    pub total_size_bytes: u64,
}

/// An exchange of all workers with all others, ring by ring.
#[derive(Debug, Clone, Copy, PartialEq, Eq, Structural)]
pub struct AllToAllRingParams {
    /// Bytes over all flows.
    pub total_size_bytes: u64,
}

/// All-reduces in several rings.
#[derive(Debug, Clone, Copy, PartialEq, Eq, Structural)]
pub struct StridedRingParams {
    /// Distance between neighbours in a ring.
    pub stride: usize,
    pub model_size_bytes: u64,
}

/// A stage of a pipeline.
#[derive(Debug, Clone, Copy, PartialEq, Eq)]
pub struct PipelineStageParams {
    pub forward_us: u64,
    pub backward_us: u64,
    pub activation_size_bytes: u64,
    /// The size of activations, unless it is given.
    pub gradient_size_bytes: Option<u64>,
}

/// The size of activations, unless it is given.
pub const DEFAULT_ACTIVATION_SIZE: u64 = 1_000_000_000;

/// The time of a forward pass, unless it is given.
pub const DEFAULT_FORWARD_US: u64 = 50000;

/// The time of a backward pass, unless it is given.
pub const DEFAULT_BACKWARD_US: u64 = 100000;

/// The workers of a stage come in blocks of this size.
pub const GPU_BLOCK_SIZE: usize = 8;

/// A pipeline of stages.
#[derive(Debug)]
pub struct PipelineParams {
    pub num_stages: usize,
    /// Workers that share a stage of a replica.
    pub tp_size: usize,
    /// Replicas of the pipeline; follows from the number of workers, unless it is given.
    pub dp_replicas: Option<usize>,
    pub microbatches: usize,
    /// The stages; all the same if none is given.
    pub stages: Vec<PipelineStageParams>,
    pub forward_us: Option<u64>,
    pub backward_us: Option<u64>,
    pub activation_size_bytes: Option<u64>,
    /// Bytes that the replicas of a stage reduce at the end.
    pub model_shard_bytes: u64,
}

/// A stage of a pipeline, with all sizes.
#[derive(Debug, Clone, Copy, PartialEq, Eq, Structural)]
pub struct StageSpec {
    pub forward_us: u64,
    pub backward_us: u64,
    pub activation_size_bytes: u64,
    pub gradient_size_bytes: u64,
}

/// How the microbatches run through a pipeline.
#[derive(Debug, Clone, Copy, PartialEq, Eq, Structural)]
pub enum PipelineSchedule {
    /// All forward passes, then all backward passes.
    GPipe,
}

/// A pipeline for a number of workers.
#[derive(Debug)]
pub struct PipelineConfig {
    pub num_stages: usize,
    pub tp_size: usize,
    pub dp_replicas: usize,
    pub microbatches: usize,
    pub schedule: PipelineSchedule,
    pub stages: Vec<StageSpec>,
}

/// A number, or what is taken unless it is given.
pub open spec fn or_default(n: Option<u64>, d: u64) -> u64 {
    match n {
        Some(n) => n,
        None => d,
    }
}

fn get_or(n: Option<u64>, d: u64) -> (r: u64)
    ensures
        r == or_default(n, d),
{
    match n {
        Some(n) => n,
        None => d,
    }
}

/// A stage with all sizes.
pub open spec fn stage_spec(s: PipelineStageParams) -> StageSpec {
    StageSpec {
        forward_us: s.forward_us,
        backward_us: s.backward_us,
        activation_size_bytes: s.activation_size_bytes,
        gradient_size_bytes: or_default(s.gradient_size_bytes, s.activation_size_bytes),
    }
}

/// The replicas of a pipeline for a number of workers.
pub open spec fn replicas_for(p: PipelineParams, num_workers: int) -> int {
    match p.dp_replicas {
        Some(d) => d as int,
        None => num_workers / (p.num_stages * p.tp_size),
    }
}

/// A pipeline can be set up for a number of workers: they make whole replicas, and the workers of a
/// stage make whole blocks.
pub open spec fn pipeline_ok(p: PipelineParams, num_workers: int) -> bool {
    &&& p.num_stages * p.tp_size <= usize::MAX
    &&& p.num_stages * p.tp_size > 0
    &&& num_workers % (p.num_stages * p.tp_size) == 0
    &&& p.tp_size * replicas_for(p, num_workers) <= usize::MAX
    &&& (p.tp_size * replicas_for(p, num_workers)) % GPU_BLOCK_SIZE as int == 0
}

/// The pipeline for a number of workers.
pub open spec fn is_config(p: PipelineParams, num_workers: int, c: PipelineConfig) -> bool {
    &&& c.num_stages == p.num_stages
    &&& c.tp_size == p.tp_size
    &&& c.dp_replicas == replicas_for(p, num_workers)
    &&& c.microbatches == p.microbatches
    &&& c.schedule == PipelineSchedule::GPipe
    &&& c.stages@ == if p.stages@.len() > 0 {
        p.stages@.map_values(|s: PipelineStageParams| stage_spec(s))
    } else {
        let size = or_default(p.activation_size_bytes, DEFAULT_ACTIVATION_SIZE);
        seq![
            StageSpec {
                forward_us: or_default(p.forward_us, DEFAULT_FORWARD_US),
                backward_us: or_default(p.backward_us, DEFAULT_BACKWARD_US),
                activation_size_bytes: size,
                gradient_size_bytes: size,
            },
        ]
    }
}

impl PipelineParams {
    /// Workers of a replica.
    pub fn workers_per_replica(&self) -> (r: usize)
        requires
            self.num_stages * self.tp_size <= usize::MAX,
        ensures
            r == self.num_stages * self.tp_size,
    {
        self.num_stages * self.tp_size
    }

    /// The pipeline for a number of workers.
    pub fn to_config_with_workers(&self, num_workers: usize) -> (r: PipelineConfig)
        requires
            pipeline_ok(*self, num_workers as int),
        ensures
            is_config(*self, num_workers as int, r),
    {
        let dp_replicas: usize = match self.dp_replicas {
            Some(d) => d,
            None => num_workers / self.workers_per_replica(),
        };
        let mut stages: Vec<StageSpec> = Vec::new();
        if self.stages.len() > 0 {
            let mut i: usize = 0;
            while i < self.stages.len()
                invariant
                    i <= self.stages@.len(),
                    stages@ == self.stages@.take(i as int).map_values(|s: PipelineStageParams| stage_spec(s)),
                decreases self.stages@.len() - i,
            {
                let s = self.stages[i];
                stages.push(
                    StageSpec {
                        forward_us: s.forward_us,
                        backward_us: s.backward_us,
                        activation_size_bytes: s.activation_size_bytes,
                        gradient_size_bytes: get_or(s.gradient_size_bytes, s.activation_size_bytes),
                    },
                );
                proof {
                    assert(stages@ =~= self.stages@.take(i + 1).map_values(|s: PipelineStageParams| stage_spec(s)));
                }
                i += 1;
            }
            proof {
                assert(self.stages@.take(self.stages@.len() as int) =~= self.stages@);
            }
        } else {
            let size: u64 = get_or(self.activation_size_bytes, DEFAULT_ACTIVATION_SIZE);
            stages.push(
                StageSpec {
                    forward_us: get_or(self.forward_us, DEFAULT_FORWARD_US),
                    backward_us: get_or(self.backward_us, DEFAULT_BACKWARD_US),
                    activation_size_bytes: size,
                    gradient_size_bytes: size,
                },
            );
        }
        PipelineConfig {
            num_stages: self.num_stages,
            tp_size: self.tp_size,
            dp_replicas,
            microbatches: self.microbatches,
            schedule: PipelineSchedule::GPipe,
            stages,
        }
    }

    /// The replicas that are given, or one.
    pub fn dp_replicas_or_default(&self) -> (r: usize)
        ensures
            r == match self.dp_replicas {
                Some(d) => d,
                None => 1,
            },
    {
        match self.dp_replicas {
            Some(d) => d,
            None => 1,
        }
    }
}

/// A step of an iteration.
#[derive(Debug)]
pub enum JobStep {
    Compute(ComputeParams),
    AllReduce(AllReduceParams),
    AllToAll(AllToAllParams),
    AllToAllRing(AllToAllRingParams),
    StridedRing(StridedRingParams),
    Pipeline(PipelineParams),
}

/// A job type.
#[derive(Debug)]
pub struct JobDefinition {
    pub name: String,
    /// Bytes of the model.
    pub model_size_bytes: u64,
    /// What all workers run in each iteration.
    pub steps: Vec<JobStep>,
}

/// How long a step computes. A pipeline takes one forward and one backward pass for each stage and
/// for each microbatch but one.
pub open spec fn step_compute_us(s: JobStep) -> int {
    match s {
        JobStep::Compute(p) => p.duration_us as int,
        JobStep::Pipeline(p) => (p.num_stages + p.microbatches - 1) * (or_default(p.forward_us, DEFAULT_FORWARD_US)
            + or_default(p.backward_us, DEFAULT_BACKWARD_US)),
        _ => 0,
    }
}

/// How long the first `n` steps compute.
pub open spec fn total_compute_us(steps: Seq<JobStep>, n: nat) -> int
    decreases n,
{
    if n == 0 {
        0
    } else {
        total_compute_us(steps, (n - 1) as nat) + step_compute_us(steps[n - 1])
    }
}

/// A pipeline has a stage or a microbatch, and its times can be counted.
pub open spec fn step_ok(s: JobStep) -> bool {
    s matches JobStep::Pipeline(p) ==> 1 <= p.num_stages + p.microbatches <= usize::MAX
}

/// The computation time of a job type can be counted.
pub open spec fn times_ok(d: JobDefinition) -> bool {
    &&& forall|i: int| 0 <= i < d.steps@.len() ==> step_ok(#[trigger] d.steps@[i])
    &&& total_compute_us(d.steps@, d.steps@.len()) <= u64::MAX
}

proof fn lemma_total_compute(steps: Seq<JobStep>, n: nat, m: nat)
    requires
        n <= m <= steps.len(),
        forall|i: int| 0 <= i < steps.len() ==> step_ok(#[trigger] steps[i]),
    ensures
        0 <= total_compute_us(steps, n) <= total_compute_us(steps, m),
    decreases m,
{
    if m > 0 {
        assert(step_ok(steps[m - 1]));
        assert(step_compute_us(steps[m - 1]) >= 0) by {
            if let JobStep::Pipeline(p) = steps[m - 1] {
                let a = p.num_stages + p.microbatches - 1;
                let b = or_default(p.forward_us, DEFAULT_FORWARD_US) + or_default(p.backward_us, DEFAULT_BACKWARD_US);
                assert(a * b >= 0) by (nonlinear_arith)
                    requires
                        a >= 0,
                        b >= 0,
                ;
            }
        }
        if n < m {
            lemma_total_compute(steps, n, (m - 1) as nat);
        } else {
            lemma_total_compute(steps, (n - 1) as nat, (m - 1) as nat);
        }
    }
}

/// What a job is built of.
#[derive(Debug)]
pub enum BuildOp {
    Compute(u64),
    AllReduce { model_size: u64 },
    AllToAll { total_data_size: u64 },
    AllToAllRing { total_data_size: u64 },
    StridedRing { stride: usize, model_size: u64 },
    Pipeline { config: PipelineConfig, model_shard_size: u64 },
}

/// How a job is built.
#[derive(Debug)]
pub struct BuildPlan {
    pub job_id: JobId,
    pub submit_time_us: u64,
    pub name: String,
    pub num_workers: usize,
    pub num_iterations: usize,
    pub ops: Vec<BuildOp>,
    /// The number of rings; a pipeline has its own.
    pub ring_count: Option<usize>,
}

/// What a step becomes.
pub open spec fn is_op_of(s: JobStep, model_size: u64, num_workers: int, op: BuildOp) -> bool {
    match s {
        JobStep::Compute(p) => op == BuildOp::Compute(p.duration_us),
        JobStep::AllReduce(_) => op == (BuildOp::AllReduce { model_size }),
        JobStep::AllToAll(p) => op == (BuildOp::AllToAll { total_data_size: p.total_size_bytes }),
        JobStep::AllToAllRing(p) => op == (BuildOp::AllToAllRing { total_data_size: p.total_size_bytes }),
        JobStep::StridedRing(p) => op == (BuildOp::StridedRing { stride: p.stride, model_size: p.model_size_bytes }),
        JobStep::Pipeline(p) => op matches BuildOp::Pipeline { config, model_shard_size } && is_config(
            p,
            num_workers,
            config,
        ) && model_shard_size == p.model_shard_bytes,
    }
}

/// The rings of a step.
pub open spec fn step_rings(s: JobStep, num_workers: int) -> int {
    match s {
        JobStep::StridedRing(p) => p.stride as int,
        JobStep::Pipeline(p) => replicas_for(p, num_workers),
        _ => 1,
    }
}

/// The most rings of any of the first `n` steps.
pub open spec fn most_rings(steps: Seq<JobStep>, num_workers: int, n: nat) -> int
    decreases n,
{
    if n == 0 {
        1
    } else {
        let rest = most_rings(steps, num_workers, (n - 1) as nat);
        let here = step_rings(steps[n - 1], num_workers);
        if here > rest {
            here
        } else {
            rest
        }
    }
}

/// One of the first `n` steps is a pipeline.
pub open spec fn has_pipeline(steps: Seq<JobStep>, n: nat) -> bool {
    exists|i: int| 0 <= i < n && (#[trigger] steps[i]) is Pipeline
}

/// The pipelines of a job type fit a number of workers.
pub open spec fn steps_ok(def: JobDefinition, num_workers: usize) -> bool {
    forall|i: int|
        0 <= i < def.steps@.len() ==> ((#[trigger] def.steps@[i]) matches JobStep::Pipeline(p) ==> pipeline_ok(
            p,
            num_workers as int,
        ))
}

/// The job has the name of its type, and is submitted at the start. Every step is an operation, in order. A
/// job without pipelines has as many rings as the step with the most of them.
pub open spec fn is_plan_of(
    def: JobDefinition,
    job_id: JobId,
    num_workers: usize,
    num_iterations: usize,
    plan: BuildPlan,
) -> bool {
    &&& plan.job_id == job_id
    &&& plan.submit_time_us == 0
    &&& plan.name@ == def.name@
    &&& plan.num_workers == num_workers
    &&& plan.num_iterations == num_iterations
    &&& plan.ops@.len() == def.steps@.len()
    &&& forall|i: int|
        0 <= i < def.steps@.len() ==> is_op_of(
            #[trigger] def.steps@[i],
            def.model_size_bytes,
            num_workers as int,
            plan.ops@[i],
        )
    &&& plan.ring_count is None == has_pipeline(def.steps@, def.steps@.len())
    &&& plan.ring_count is Some ==> plan.ring_count->0 == most_rings(
        def.steps@,
        num_workers as int,
        def.steps@.len(),
    )
}

impl JobDefinition {
    /// How long a worker computes in an iteration.
    pub fn compute_time_us(&self) -> (r: u64)
        requires
            times_ok(*self),
        ensures
            r == total_compute_us(self.steps@, self.steps@.len()),
    {
        let mut total: u64 = 0;
        let mut i: usize = 0;
        while i < self.steps.len()
            invariant
                i <= self.steps@.len(),
                times_ok(*self),
                total == total_compute_us(self.steps@, i as nat),
            decreases self.steps@.len() - i,
        {
            proof {
                lemma_total_compute(self.steps@, (i + 1) as nat, self.steps@.len());
                lemma_total_compute(self.steps@, i as nat, (i + 1) as nat);
                assert(step_ok(self.steps@[i as int]));
            }
            match &self.steps[i] {
                JobStep::Compute(p) => {
                    total = total + p.duration_us;
                },
                JobStep::Pipeline(p) => {
                    let passes: usize = p.num_stages + p.microbatches - 1;
                    let forward: u64 = get_or(p.forward_us, DEFAULT_FORWARD_US);
                    let backward: u64 = get_or(p.backward_us, DEFAULT_BACKWARD_US);
                    let ghost a = passes as int;
                    let ghost b = forward + backward;
                    assert(step_compute_us(self.steps@[i as int]) == a * b);
                    if passes > 0 {
                        proof {
                            assert(a * b >= b) by (nonlinear_arith)
                                requires
                                    a >= 1,
                                    b >= 0,
                            ;
                        }
                        total = total + (passes as u64) * (forward + backward);
                    } else {
                        assert(a * b == 0) by (nonlinear_arith)
                            requires
                                a == 0,
                        ;
                    }
                },
                _ => {},
            }
            i += 1;
        }
        total
    }

    /// How a job of this type is built for a number of workers and iterations.
    pub fn build_job(&self, job_id: JobId, num_workers: usize, num_iterations: usize) -> (r: BuildPlan)
        requires
            steps_ok(*self, num_workers),
        ensures
            is_plan_of(*self, job_id, num_workers, num_iterations, r),
    {
        let mut ops: Vec<BuildOp> = Vec::new();
        let mut rings: usize = 1;
        let mut pipeline = false;
        let mut i: usize = 0;
        while i < self.steps.len()
            invariant
                i <= self.steps@.len(),
                forall|k: int|
                    0 <= k < self.steps@.len() ==> ((#[trigger] self.steps@[k]) matches JobStep::Pipeline(p) ==> pipeline_ok(
                        p,
                        num_workers as int,
                    )),
                ops@.len() == i,
                forall|k: int|
                    0 <= k < i ==> is_op_of(
                        #[trigger] self.steps@[k],
                        self.model_size_bytes,
                        num_workers as int,
                        ops@[k],
                    ),
                rings >= 1,
                rings == most_rings(self.steps@, num_workers as int, i as nat),
                pipeline == has_pipeline(self.steps@, i as nat),
            decreases self.steps@.len() - i,
        {
            proof {
                if pipeline {
                    let k = choose|k: int| 0 <= k < i && (#[trigger] self.steps@[k]) is Pipeline;
                    assert(0 <= k < i + 1 && self.steps@[k] is Pipeline);
                }
            }
            match &self.steps[i] {
                JobStep::Compute(p) => {
                    ops.push(BuildOp::Compute(p.duration_us));
                },
                JobStep::AllReduce(_) => {
                    ops.push(BuildOp::AllReduce { model_size: self.model_size_bytes });
                },
                JobStep::AllToAll(p) => {
                    ops.push(BuildOp::AllToAll { total_data_size: p.total_size_bytes });
                },
                JobStep::AllToAllRing(p) => {
                    ops.push(BuildOp::AllToAllRing { total_data_size: p.total_size_bytes });
                },
                JobStep::StridedRing(p) => {
                    if p.stride > rings {
                        rings = p.stride;
                    }
                    ops.push(BuildOp::StridedRing { stride: p.stride, model_size: p.model_size_bytes });
                },
                JobStep::Pipeline(p) => {
                    let config = p.to_config_with_workers(num_workers);
                    if config.dp_replicas > rings {
                        rings = config.dp_replicas;
                    }
                    pipeline = true;
                    assert(self.steps@[i as int] is Pipeline);
                    ops.push(BuildOp::Pipeline { config, model_shard_size: p.model_shard_bytes });
                },
            }
            i += 1;
        }
        BuildPlan {
            job_id,
            submit_time_us: 0,
            name: self.name.clone(),
            num_workers,
            num_iterations,
            ops,
            ring_count: if pipeline {
                None
            } else {
                Some(rings)
            },
        }
    }
}

/// Job types by name.
#[derive(Debug)]
pub struct JobRegistry {
    /// The job types in the order in which they were added.
    pub definitions: Vec<(String, JobDefinition)>,
}

/// Where the first `n` entries have a name.
pub open spec fn find_name(list: Seq<(String, JobDefinition)>, name: Seq<char>, n: nat) -> Option<int>
    decreases n,
{
    if n == 0 {
        None
    } else {
        match find_name(list, name, (n - 1) as nat) {
            Some(i) => Some(i),
            None => if list[n - 1].0@ == name {
                Some(n - 1)
            } else {
                None
            },
        }
    }
}

proof fn lemma_find_name(list: Seq<(String, JobDefinition)>, name: Seq<char>, n: nat)
    requires
        n <= list.len(),
    ensures
        find_name(list, name, n) matches Some(i) ==> 0 <= i < n && list[i].0@ == name,
        find_name(list, name, n) is None ==> forall|i: int| 0 <= i < n ==> (#[trigger] list[i]).0@ != name,
    decreases n,
{
    if n > 0 {
        lemma_find_name(list, name, (n - 1) as nat);
    }
}

/// The job types with another one, in place of one of the same name.
pub open spec fn with_definition(
    list: Seq<(String, JobDefinition)>,
    name: String,
    def: JobDefinition,
) -> Seq<(String, JobDefinition)> {
    match find_name(list, name@, list.len()) {
        Some(i) => list.update(i, (name, def)),
        None => list.push((name, def)),
    }
}

/// The job types of the first `n` files, one after the other.
pub open spec fn loaded(files: Seq<(String, JobDefinition)>, n: nat) -> Seq<(String, JobDefinition)>
    decreases n,
{
    if n == 0 {
        Seq::empty()
    } else {
        with_definition(loaded(files, (n - 1) as nat), files[n - 1].0, files[n - 1].1)
    }
}

impl JobRegistry {
    /// No two job types have the same name.
    pub open spec fn wf(&self) -> bool {
        forall|i: int, j: int|
            0 <= i < j < self.definitions@.len() ==> (#[trigger] self.definitions@[i]).0@ != (
            #[trigger] self.definitions@[j]).0@
    }

    /// No job types.
    pub fn new() -> (r: Self)
        ensures
            r.wf(),
            r.definitions@ == Seq::<(String, JobDefinition)>::empty(),
    {
        JobRegistry { definitions: Vec::new() }
    }

    fn find(&self, name: &str) -> (r: Option<usize>)
        ensures
            r is Some == find_name(self.definitions@, name@, self.definitions@.len()) is Some,
            r matches Some(i) ==> Some(i as int) == find_name(self.definitions@, name@, self.definitions@.len()) && i
                < self.definitions@.len(),
    {
        let mut i: usize = 0;
        while i < self.definitions.len()
            invariant
                i <= self.definitions@.len(),
                find_name(self.definitions@, name@, i as nat) is None,
            decreases self.definitions@.len() - i,
        {
            if same_text(self.definitions[i].0.as_str(), name) {
                proof {
                    lemma_find_stays(self.definitions@, name@, (i + 1) as nat, self.definitions@.len());
                }
                return Some(i);
            }
            i += 1;
        }
        None
    }

    /// Adds a job type, in place of one of the same name.
    pub fn insert(&mut self, name: String, def: JobDefinition)
        requires
            old(self).wf(),
        ensures
            final(self).wf(),
            final(self).definitions@ == with_definition(old(self).definitions@, name, def),
    {
        let ghost before = self.definitions@;
        match self.find(name.as_str()) {
            Some(i) => {
                proof {
                    lemma_find_name(before, name@, before.len());
                }
                self.definitions.set(i, (name, def));
            },
            None => {
                proof {
                    lemma_find_name(before, name@, before.len());
                }
                self.definitions.push((name, def));
            },
        }
    }

    /// The job types of files, each with the name of its file. A later one takes the place of one of
    /// the same name.
    pub fn load_all(files: Vec<(String, JobDefinition)>) -> (r: Self)
        ensures
            r.wf(),
            r.definitions@ == loaded(files@, files@.len()),
    {
        let mut files = files;
        let ghost all = files@;
        let mut r = JobRegistry::new();
        let mut rest: Vec<(String, JobDefinition)> = Vec::new();
        let n: usize = files.len();
        let mut i: usize = 0;
        while i < n
            invariant
                i <= n,
                n == all.len(),
                files@ == all.take(n - i),
                rest@.len() == i,
                forall|k: int| 0 <= k < i ==> #[trigger] rest@[k] == all[n - 1 - k],
            decreases n - i,
        {
            let e = files.pop().unwrap();
            rest.push(e);
            i += 1;
        }
        let mut i: usize = 0;
        while i < n
            invariant
                i <= n,
                n == all.len(),
                r.wf(),
                rest@.len() == n - i,
                forall|k: int| 0 <= k < n - i ==> #[trigger] rest@[k] == all[n - 1 - k],
                r.definitions@ == loaded(all, i as nat),
            decreases n - i,
        {
            let (name, def) = rest.pop().unwrap();
            r.insert(name, def);
            i += 1;
        }
        r
    }

    /// The job type of a name.
    pub fn get(&self, job_type: &str) -> (r: Option<&JobDefinition>)
        ensures
            r == match find_name(self.definitions@, job_type@, self.definitions@.len()) {
                Some(i) => Some(&self.definitions@[i].1),
                None => None,
            },
    {
        match self.find(job_type) {
            Some(i) => Some(&self.definitions[i].1),
            None => None,
        }
    }

    /// How a job of a type is built for a number of workers and iterations.
    pub fn build_job(&self, job_type: &str, job_id: JobId, num_workers: usize, num_iterations: usize) -> (r: Result<
        BuildPlan,
        String,
    >)
        requires
            forall|k: int|
                0 <= k < self.definitions@.len() ==> (#[trigger] self.definitions@[k]).0@ == job_type@ ==> steps_ok(
                    self.definitions@[k].1,
                    num_workers,
                ),
        ensures
            match find_name(self.definitions@, job_type@, self.definitions@.len()) {
                Some(i) => r matches Ok(plan) && is_plan_of(
                    self.definitions@[i].1,
                    job_id,
                    num_workers,
                    num_iterations,
                    plan,
                ),
                None => r matches Err(text) && text@ == "Unknown job type: "@ + job_type@,
            },
    {
        proof {
            lemma_find_name(self.definitions@, job_type@, self.definitions@.len());
        }
        match self.get(job_type) {
            Some(d) => Ok(d.build_job(job_id, num_workers, num_iterations)),
            None => {
                let mut s = String::from_str("Unknown job type: ");
                s.append(job_type);
                Err(s)
            },
        }
    }

    /// The names of the job types, in the order in which they were added.
    pub fn job_types(&self) -> (r: Vec<&str>)
        ensures
            r@.len() == self.definitions@.len(),
            forall|i: int| 0 <= i < r@.len() ==> (#[trigger] r@[i])@ == self.definitions@[i].0@,
    {
        let mut r: Vec<&str> = Vec::new();
        let mut i: usize = 0;
        while i < self.definitions.len()
            invariant
                i <= self.definitions@.len(),
                r@.len() == i,
                forall|k: int| 0 <= k < i ==> (#[trigger] r@[k])@ == self.definitions@[k].0@,
            decreases self.definitions@.len() - i,
        {
            r.push(self.definitions[i].0.as_str());
            i += 1;
        }
        r
    }

    /// Number of job types.
    pub fn len(&self) -> (r: usize)
        ensures
            r == self.definitions@.len(),
    {
        self.definitions.len()
    }

    /// Whether there is no job type.
    pub fn is_empty(&self) -> (r: bool)
        ensures
            r == (self.definitions@.len() == 0),
    {
        self.definitions.len() == 0
    }
}

proof fn lemma_find_stays(list: Seq<(String, JobDefinition)>, name: Seq<char>, n: nat, m: nat)
    requires
        n <= m,
        find_name(list, name, n) is Some,
    ensures
        find_name(list, name, m) == find_name(list, name, n),
    decreases m,
{
    if n < m {
        lemma_find_stays(list, name, n, (m - 1) as nat);
    }
}

/// What is added is found again, and nothing else changes.
pub proof fn lemma_insert_get(list: Seq<(String, JobDefinition)>, name: String, def: JobDefinition, other: Seq<char>)
    ensures
        ({
            let after = with_definition(list, name, def);
            match find_name(after, name@, after.len()) {
                Some(i) => after[i].1 == def,
                None => false,
            }
        }),
        other != name@ ==> ({
            let after = with_definition(list, name, def);
            match (find_name(list, other, list.len()), find_name(after, other, after.len())) {
                (Some(i), Some(j)) => after[j] == list[i],
                (None, None) => true,
                _ => false,
            }
        }),
{
    let after = with_definition(list, name, def);
    lemma_find_name(list, name@, list.len());
    match find_name(list, name@, list.len()) {
        Some(i) => {
            lemma_find_same(list, after, name@, list.len());
            lemma_find_same(list, after, other, list.len());
            lemma_find_name(list, other, list.len());
        },
        None => {
            lemma_find_same(list, after, name@, list.len());
            lemma_find_same(list, after, other, list.len());
            lemma_find_name(list, other, list.len());
        },
    }
}

proof fn lemma_find_same(a: Seq<(String, JobDefinition)>, b: Seq<(String, JobDefinition)>, name: Seq<char>, n: nat)
    requires
        n <= a.len(),
        n <= b.len(),
        forall|i: int| 0 <= i < n ==> (#[trigger] a[i]).0@ == b[i].0@,
    ensures
        find_name(a, name, n) == find_name(b, name, n),
    decreases n,
{
    if n > 0 {
        lemma_find_same(a, b, name, (n - 1) as nat);
    }
}

/// Name, size of the model and computation time of a job type.
pub fn get_job_definition(registry: &JobRegistry, kind: &str) -> (r: Option<(String, u64, u64)>)
    requires
        forall|i: int|
            0 <= i < registry.definitions@.len() ==> (#[trigger] registry.definitions@[i]).0@ == kind@ ==> times_ok(
                registry.definitions@[i].1,
            ),
    ensures
        match find_name(registry.definitions@, kind@, registry.definitions@.len()) {
            Some(i) => {
                let d = registry.definitions@[i].1;
                r matches Some((name, size, time)) && name@ == d.name@ && size == d.model_size_bytes && time
                    == total_compute_us(d.steps@, d.steps@.len())
            },
            None => r is None,
        },
{
    proof {
        lemma_find_name(registry.definitions@, kind@, registry.definitions@.len());
    }
    match registry.get(kind) {
        Some(d) => Some((d.name.clone(), d.model_size_bytes, d.compute_time_us())),
        None => None,
    }
}

/// A list of texts with another one, after those that do not come after it.
pub open spec fn with_text(list: Seq<Seq<char>>, t: Seq<char>) -> Seq<Seq<char>>
    decreases list.len(),
{
    if list.len() == 0 || !precedes(t, list.last(), 0) {
        list.push(t)
    } else {
        with_text(list.drop_last(), t).push(list.last())
    }
}

/// The first `n` names in the order of a dictionary.
pub open spec fn sorted_names(list: Seq<(String, JobDefinition)>, n: nat) -> Seq<Seq<char>>
    decreases n,
{
    if n == 0 {
        Seq::empty()
    } else {
        with_text(sorted_names(list, (n - 1) as nat), list[n - 1].0@)
    }
}

proof fn lemma_with_text(list: Seq<Seq<char>>, t: Seq<char>, p: int)
    requires
        0 <= p <= list.len(),
        p > 0 ==> !precedes(t, list[p - 1], 0),
        forall|k: int| p <= k < list.len() ==> precedes(t, #[trigger] list[k], 0),
    ensures
        with_text(list, t) == list.insert(p, t),
    decreases list.len(),
{
    if p < list.len() {
        assert(precedes(t, list[list.len() - 1], 0));
        lemma_with_text(list.drop_last(), t, p);
    }
    assert(with_text(list, t) =~= list.insert(p, t));
}

/// Each text comes before all that follow.
pub open spec fn in_dictionary_order(list: Seq<Seq<char>>) -> bool {
    forall|i: int, j: int| 0 <= i < j < list.len() ==> precedes(#[trigger] list[i], #[trigger] list[j], 0)
}

/// A new text has its place in the order.
proof fn lemma_text_added(list: Seq<Seq<char>>, t: Seq<char>)
    requires
        in_dictionary_order(list),
        !list.contains(t),
    ensures
        in_dictionary_order(with_text(list, t)),
        forall|x: Seq<char>| #[trigger] with_text(list, t).contains(x) == (x == t || list.contains(x)),
    decreases list.len(),
{
    let after = with_text(list, t);
    if list.len() == 0 || !precedes(t, list.last(), 0) {
        if list.len() > 0 {
            let last = list.len() - 1;
            assert(list.contains(list[last]));
            assert(t.take(0) =~= list.last().take(0));
            lemma_one_first(t, list.last(), 0);
            assert forall|i: int, j: int| 0 <= i < j < after.len() implies precedes(
                #[trigger] after[i],
                #[trigger] after[j],
                0,
            ) by {
                if j == list.len() && i < last {
                    assert(precedes(list[i], list[last], 0));
                    lemma_first_on(list[i], list[last], t, 0);
                }
            }
        }
        assert forall|x: Seq<char>| #[trigger] after.contains(x) == (x == t || list.contains(x)) by {
            assert(after[list.len() as int] == t);
            if list.contains(x) {
                let i = choose|i: int| 0 <= i < list.len() && list[i] == x;
                assert(after[i] == x);
            }
        }
    } else {
        let rest = list.drop_last();
        let end = list.last();
        assert(list =~= rest.push(end));
        assert(!rest.contains(t)) by {
            if rest.contains(t) {
                let i = choose|i: int| 0 <= i < rest.len() && rest[i] == t;
                assert(list[i] == t);
            }
        }
        assert(in_dictionary_order(rest)) by {
            assert forall|i: int, j: int| 0 <= i < j < rest.len() implies precedes(
                #[trigger] rest[i],
                #[trigger] rest[j],
                0,
            ) by {
                assert(precedes(list[i], list[j], 0));
            }
        }
        lemma_text_added(rest, t);
        let w = with_text(rest, t);
        assert forall|i: int, j: int| 0 <= i < j < after.len() implies precedes(
            #[trigger] after[i],
            #[trigger] after[j],
            0,
        ) by {
            if j < w.len() {
                assert(precedes(w[i], w[j], 0));
            } else {
                assert(w.contains(w[i]));
                if w[i] != t {
                    let k = choose|k: int| 0 <= k < rest.len() && rest[k] == w[i];
                    assert(precedes(list[k], list[list.len() - 1], 0));
                }
            }
        }
        assert forall|x: Seq<char>| #[trigger] after.contains(x) == (x == t || list.contains(x)) by {
            assert(after[w.len() as int] == end);
            assert(list[rest.len() as int] == end);
            if w.contains(x) {
                let i = choose|i: int| 0 <= i < w.len() && w[i] == x;
                assert(after[i] == x);
            }
            if rest.contains(x) {
                let i = choose|i: int| 0 <= i < rest.len() && rest[i] == x;
                assert(list[i] == x);
            }
            if list.contains(x) && x != end {
                let i = choose|i: int| 0 <= i < list.len() && list[i] == x;
                assert(rest[i] == x);
            }
            if after.contains(x) && x != end {
                let i = choose|i: int| 0 <= i < after.len() && after[i] == x;
                assert(w[i] == x);
            }
        }
    }
}

/// The listed job types are those that are found, each once and in the order of a dictionary.
pub proof fn lemma_sorted_names(list: Seq<(String, JobDefinition)>, n: nat)
    requires
        n <= list.len(),
        forall|i: int, j: int| 0 <= i < j < list.len() ==> (#[trigger] list[i]).0@ != (#[trigger] list[j]).0@,
    ensures
        in_dictionary_order(sorted_names(list, n)),
        sorted_names(list, n).no_duplicates(),
        forall|t: Seq<char>| #[trigger] sorted_names(list, n).contains(t) == (find_name(list, t, n) is Some),
    decreases n,
{
    let all = sorted_names(list, n);
    if n > 0 {
        let m = (n - 1) as nat;
        let name = list[n - 1].0@;
        lemma_sorted_names(list, m);
        lemma_find_name(list, name, m);
        assert(!sorted_names(list, m).contains(name));
        lemma_text_added(sorted_names(list, m), name);
        assert forall|t: Seq<char>| #[trigger] all.contains(t) == (find_name(list, t, n) is Some) by {
            assert(sorted_names(list, m).contains(t) == (find_name(list, t, m) is Some));
        }
    }
    assert forall|i: int, j: int| 0 <= i < all.len() && 0 <= j < all.len() && i != j implies all[i] != all[j] by {
        lemma_first_on(all[i], all[i], all[i], 0);
        if i < j {
            assert(precedes(all[i], all[j], 0));
        } else {
            assert(precedes(all[j], all[i], 0));
        }
    }
}

/// The names of the job types in the order of a dictionary.
pub fn list_job_types(registry: &JobRegistry) -> (r: Vec<String>)
    ensures
        r@.map_values(|s: String| s@) == sorted_names(registry.definitions@, registry.definitions@.len()),
{
    let ghost list = registry.definitions@;
    let mut r: Vec<String> = Vec::new();
    let mut i: usize = 0;
    proof {
        assert(r@.map_values(|s: String| s@) =~= sorted_names(list, 0));
    }
    while i < registry.definitions.len()
        invariant
            i <= list.len(),
            list == registry.definitions@,
            r@.map_values(|s: String| s@) == sorted_names(list, i as nat),
        decreases list.len() - i,
    {
        let name = registry.definitions[i].0.clone();
        let ghost before = r@.map_values(|s: String| s@);
        let mut p: usize = r.len();
        while p > 0 && text_before(name.as_str(), r[p - 1].as_str())
            invariant
                p <= r@.len(),
                forall|k: int| p <= k < r@.len() ==> precedes(name@, (#[trigger] r@[k])@, 0),
            decreases p,
        {
            p -= 1;
        }
        proof {
            assert forall|k: int| p <= k < before.len() implies precedes(name@, #[trigger] before[k], 0) by {
                assert(before[k] == r@[k]@);
            }
            lemma_with_text(before, name@, p as int);
        }
        r.insert(p, name);
        proof {
            assert(r@.map_values(|s: String| s@) =~= before.insert(p as int, name@));
        }
        i += 1;
    }
    r
}

/// A path without an ending that it has. A file whose name is nothing but the ending does not have it.
pub open spec fn without_ending(path: Seq<char>, ending: Seq<char>) -> Option<Seq<char>> {
    let n = path.len() - ending.len();
    if n > 0 && path.skip(n) == ending && path[n - 1] != '/' {
        Some(path.take(n))
    } else {
        None
    }
}

/// The name of the job type in a file: its path without the ending. Files with another ending hold none.
pub open spec fn key_of(path: Seq<char>) -> Option<Seq<char>> {
    match without_ending(path, ".yaml"@) {
        Some(key) => Some(key),
        None => without_ending(path, ".yml"@),
    }
}

fn strip_ending(path: &str, ending: &str) -> (r: Option<String>)
    ensures
        match without_ending(path@, ending@) {
            Some(key) => r matches Some(s) && s@ == key,
            None => r is None,
        },
{
    let all: usize = path.unicode_len();
    let tail: usize = ending.unicode_len();
    if all <= tail {
        return None;
    }
    let n: usize = all - tail;
    let end = path.substring_char(n, all);
    proof {
        assert(end@ =~= path@.skip(n as int));
    }
    if same_text(end, ending) && path.get_char(n - 1) != '/' {
        let key = path.substring_char(0, n);
        proof {
            assert(key@ =~= path@.take(n as int));
        }
        Some(key.to_owned())
    } else {
        None
    }
}

/// The name of the job type in a file, if it holds one, from its path in the directory of job types.
pub fn job_key(relative: &str) -> (r: Option<String>)
    ensures
        match key_of(relative@) {
            Some(key) => r matches Some(s) && s@ == key,
            None => r is None,
        },
{
    match strip_ending(relative, ".yaml") {
        Some(key) => Some(key),
        None => strip_ending(relative, ".yml"),
    }
}

/// Where job types are kept.
pub const DEFAULT_JOBS_DIR: &'static str = "jobs";

/// The registry of the files of the usual directory.
pub fn load_default_registry(files: Vec<(String, JobDefinition)>) -> (r: JobRegistry)
    ensures
        r.wf(),
        r.definitions@ == loaded(files@, files@.len()),
{
    JobRegistry::load_all(files)
}

} // verus!
