//! Job types and what they become.

use network_sim::utils::compatibility::WorkerDescription;
use network_sim::utils::job_loader::{
    get_job_definition, list_job_types, load_default_registry, AllReduceParams, AllToAllParams, BuildOp,
    ComputeParams, JobDefinition, JobRegistry, JobStep, PipelineParams, StridedRingParams,
};
use network_sim::simulator::ml_worker::{MLWorker, WorkerEvent};
use serde_yaml::Value;

const S1_YAML: &str = r#"
name: "S1"
model_size_bytes: 6875000000
steps:
  - !compute
    duration_us: 500
  - !all_reduce {}
"#;

fn read_step(v: &Value) -> JobStep {
    match v {
        Value::Tagged(t) => {
            if t.tag == "compute" {
                JobStep::Compute(ComputeParams { duration_us: t.value["duration_us"].as_u64().unwrap() })
            } else {
                assert!(t.tag == "all_reduce");
                JobStep::AllReduce(AllReduceParams {})
            }
        }
        _ => panic!("a step has a tag"),
    }
}

fn read_definition(text: &str) -> JobDefinition {
    let v: Value = serde_yaml::from_str(text).unwrap();
    JobDefinition {
        name: v["name"].as_str().unwrap().to_string(),
        model_size_bytes: v["model_size_bytes"].as_u64().unwrap(),
        steps: v["steps"].as_sequence().unwrap().iter().map(read_step).collect(),
    }
}

#[test]
fn test_parse_s1_yaml() {
    let def = read_definition(S1_YAML);
    assert_eq!(def.name, "S1");
    assert_eq!(def.model_size_bytes, 6_875_000_000);
    assert_eq!(def.steps.len(), 2);
    assert_eq!(def.compute_time_us(), 500);
}

fn simple(name: &str, us: u64, size: u64) -> JobDefinition {
    JobDefinition {
        name: name.to_string(),
        model_size_bytes: size,
        steps: vec![
            JobStep::Compute(ComputeParams { duration_us: us }),
            JobStep::AllReduce(AllReduceParams {}),
        ],
    }
}

fn pipeline() -> PipelineParams {
    PipelineParams {
        num_stages: 2,
        tp_size: 1,
        dp_replicas: Some(8),
        microbatches: 2,
        stages: vec![],
        forward_us: Some(50000),
        backward_us: Some(100000),
        activation_size_bytes: Some(500000000),
        model_shard_bytes: 4000000000,
    }
}

#[test]
fn a_plain_job_becomes_its_steps() {
    let plan = simple("S1", 500, 6_875_000_000).build_job(7, 4, 10);
    assert_eq!((plan.job_id, plan.num_workers, plan.num_iterations), (7, 4, 10));
    assert_eq!((plan.name.as_str(), plan.submit_time_us), ("S1", 0));
    assert_eq!(plan.ring_count, Some(1));
    assert_eq!(plan.ops.len(), 2);
    assert!(matches!(plan.ops[0], BuildOp::Compute(500)));
    assert!(matches!(plan.ops[1], BuildOp::AllReduce { model_size: 6_875_000_000 }));
}

#[test]
fn a_strided_ring_has_several_rings() {
    let def = JobDefinition {
        name: "Strided Ring Test".to_string(),
        model_size_bytes: 1000000000,
        steps: vec![
            JobStep::Compute(ComputeParams { duration_us: 50 }),
            JobStep::StridedRing(StridedRingParams { stride: 2, model_size_bytes: 500000000 }),
            JobStep::AllToAll(AllToAllParams { total_size_bytes: 7 }),
        ],
    };
    let plan = def.build_job(0, 8, 10);
    assert_eq!(plan.ring_count, Some(2));
    assert!(matches!(plan.ops[1], BuildOp::StridedRing { stride: 2, model_size: 500000000 }));
    assert!(matches!(plan.ops[2], BuildOp::AllToAll { total_data_size: 7 }));
    assert_eq!(def.compute_time_us(), 50);
}

#[test]
fn a_pipeline_fits_its_workers() {
    let p = pipeline();
    assert_eq!(p.workers_per_replica(), 2);
    assert_eq!(p.dp_replicas_or_default(), 8);
    let c = p.to_config_with_workers(16);
    assert_eq!((c.num_stages, c.tp_size, c.dp_replicas, c.microbatches), (2, 1, 8, 2));
    assert_eq!(c.stages.len(), 1);
    assert_eq!(c.stages[0].forward_us, 50000);
    assert_eq!(c.stages[0].gradient_size_bytes, 500000000);
    let def = JobDefinition {
        name: "Pipeline Test".to_string(),
        model_size_bytes: 8000000000,
        steps: vec![JobStep::Pipeline(p)],
    };
    // Two stages and two microbatches: three passes forward and back.
    assert_eq!(def.compute_time_us(), 450000);
    let plan = def.build_job(0, 16, 10);
    assert_eq!(plan.ring_count, None);
    assert!(matches!(plan.ops[0], BuildOp::Pipeline { model_shard_size: 4000000000, .. }));
}

#[test]
fn a_registry_gives_back_what_was_put_in() {
    let mut r = JobRegistry::new();
    assert!(r.is_empty());
    r.insert("b".to_string(), simple("B", 10, 20));
    r.insert("a".to_string(), simple("A", 30, 40));
    assert_eq!(r.len(), 2);
    assert_eq!(r.get("b").unwrap().name, "B");
    assert!(r.get("c").is_none());
    let mut types = r.job_types();
    types.sort();
    assert_eq!(types, vec!["a", "b"]);
    r.insert("b".to_string(), simple("C", 1, 2));
    assert_eq!(r.len(), 2);
    assert_eq!(r.get("b").unwrap().name, "C");
    assert_eq!(get_job_definition(&r, "a"), Some(("A".to_string(), 40, 30)));
    assert_eq!(get_job_definition(&r, "z"), None);
    let long = JobStep::Compute(ComputeParams { duration_us: u64::MAX });
    let again = JobStep::Compute(ComputeParams { duration_us: 1 });
    let endless = JobDefinition { name: "Endless".to_string(), model_size_bytes: 0, steps: vec![long, again] };
    r.insert("e".to_string(), endless);
    assert_eq!(get_job_definition(&r, "a"), Some(("A".to_string(), 40, 30)));
    assert_eq!(list_job_types(&r), vec!["a".to_string(), "b".to_string(), "e".to_string()]);
}

#[test]
fn files_become_job_types() {
    let r = load_default_registry(vec![
        ("s2".to_string(), simple("S2", 1, 2)),
        ("s1".to_string(), simple("S1", 3, 4)),
    ]);
    assert_eq!(list_job_types(&r), vec!["s1".to_string(), "s2".to_string()]);
}

#[test]
fn a_worker_can_be_described() {
    let mut w = MLWorker::new(0, 2, 0, 1);
    w.add_event_template(WorkerEvent::new_compute(0, 15, vec![]));
    w.add_event_template(WorkerEvent::new_flow_send(1, 3, 99, vec![0]));
    let d = WorkerDescription::from_worker(&w);
    assert_eq!(d.to_text(), "  1. Compute(15 ms) -> Flow(tid=1, size=99 B)\n");
}
