//! Time shifts that keep the traffic of jobs apart.

use network_sim::simulator::ml_job::MLJob;
use network_sim::simulator::ml_worker::{
    ComputeEvent, EventState, FlowKind, FlowSendEvent, MLWorker, WorkerEvent, WorkerEventKind,
};
use network_sim::system_modules::cassini::affinity::AffinityGraph;
use network_sim::system_modules::cassini::geometry::{
    checked_lcm, compute_gcd, evaluate_rotation_combination, search_rotations, GeometricAbstraction,
};
use network_sim::system_modules::cassini::profiler::JobProfiler;
use network_sim::system_modules::cassini::shifts::compute_follow;
use network_sim::system_modules::cassini::system::CassiniSystemModule;
use network_sim::system_modules::cassini::timeline::{build_timeline, FlowInterval};
use network_sim::system_modules::cassini::timing::compute_spans;
use network_sim::system_modules::cassini::types::{CassiniSchedule, TimeShift};
use network_sim::utils::data::DHashMap;

#[test]
fn test_basic_affinity_graph() {
    let mut graph = AffinityGraph::new();

    graph.add_job(1);
    graph.add_job(2);
    graph.add_link(100);

    graph.add_job_link_edge(1, 100, 50);
    graph.add_job_link_edge(2, 100, 75);

    let mut jobs_on_link = graph.get_jobs_on_link(100);
    jobs_on_link.sort();
    assert_eq!(jobs_on_link, vec![1, 2]);
    assert_eq!(graph.get_links_for_job(1), vec![100]);
    assert_eq!(graph.get_links_for_job(2), vec![100]);
    assert!(!graph.has_loops());
}

#[test]
fn test_time_shift_computation() {
    let mut graph = AffinityGraph::new();

    graph.add_job_link_edge(1, 100, 30);
    graph.add_job_link_edge(2, 100, 20);
    graph.add_job_link_edge(2, 200, 40);
    graph.add_job_link_edge(3, 200, 10);

    let mut iteration_times: DHashMap<usize, u64> = DHashMap::new();
    iteration_times.insert(1, 1000);
    iteration_times.insert(2, 1000);
    iteration_times.insert(3, 1000);

    let time_shifts = graph.compute_unique_time_shifts(&iteration_times);

    assert_eq!(time_shifts.len(), 3);
    assert!(time_shifts.contains_key(&1));
    assert!(time_shifts.contains_key(&2));

    let job1_shift = time_shifts.get(&1).unwrap().shift_us;
    let job2_shift = time_shifts.get(&2).unwrap().shift_us;

    assert!(job1_shift < 1000);
    assert!(job2_shift < 1000);

    assert!(time_shifts.contains_key(&2));
    assert!(time_shifts.contains_key(&3));

    // The first job stays, and the others follow over the links.
    assert_eq!(job1_shift, 0);
    assert_eq!(job2_shift, 990);
    assert_eq!(time_shifts.get(&3).unwrap().shift_us, 960);
}

#[test]
fn test_loop_detection() {
    let mut graph = AffinityGraph::new();

    graph.add_job_link_edge(1, 100, 30);
    graph.add_job_link_edge(2, 100, 20);
    graph.add_job_link_edge(2, 200, 40);
    graph.add_job_link_edge(1, 200, 10);

    assert!(graph.has_loops());
}

#[test]
fn test_jobs_sharing_links() {
    let mut graph = AffinityGraph::new();

    graph.add_job_link_edge(1, 100, 30);
    graph.add_job_link_edge(2, 100, 20);
    graph.add_job_link_edge(3, 200, 40);

    let sharing_jobs = graph.get_jobs_sharing_links();
    assert_eq!(sharing_jobs.len(), 2);
    assert!(sharing_jobs.contains(&1));
    assert!(sharing_jobs.contains(&2));
    assert!(!sharing_jobs.contains(&3));
}

#[test]
fn test_connected_components() {
    let mut graph = AffinityGraph::new();

    graph.add_job_link_edge(1, 100, 30);
    graph.add_job_link_edge(2, 100, 20);

    graph.add_job_link_edge(3, 200, 40);
    graph.add_job_link_edge(4, 200, 10);

    assert_eq!(graph.count_connected_components(), 2);
}

#[test]
fn test_lcm_calculation() {
    let geom = GeometricAbstraction::new();

    assert_eq!(geom.calculate_lcm(&vec![]), 1);
    assert_eq!(geom.calculate_lcm(&vec![60]), 60);
    assert_eq!(geom.calculate_lcm(&vec![40, 60]), 120);
    assert_eq!(geom.calculate_lcm(&vec![15, 25, 35]), 525);
}

#[test]
fn test_simple_compute_communication_pattern() {
    let profiler = JobProfiler::new();
    let mut job = MLJob::new(1, 0, 2, 100);

    let mut worker = MLWorker::new(1, 0, 0, 100);

    let compute_event = WorkerEvent {
        id: 0,
        template_id: 0,
        kind: WorkerEventKind::Compute,
        compute: Some(ComputeEvent { duration_us: 100, name: Some("forward_pass".to_string()) }),
        flow_send: None,
        flow_receive: None,
        dependencies: vec![],
        state: EventState::Waiting,
    };

    let send_event = WorkerEvent {
        id: 1,
        template_id: 1,
        kind: WorkerEventKind::FlowSend,
        compute: None,
        flow_send: Some(FlowSendEvent {
            dst_worker: 1,
            size_bytes: 1000000,
            name: Some("gradient_sync".to_string()),
            flow_kind: FlowKind::Ring,
        }),
        flow_receive: None,
        dependencies: vec![0],
        state: EventState::Waiting,
    };

    worker.template_events = vec![compute_event, send_event];
    job.workers.insert(0, worker);

    let profile = profiler.profile_job(&job).unwrap();

    assert_eq!(profile.job_id, 1);
    assert_eq!(profile.num_workers, 2);
    assert!(profile.iteration_time_us > 100);
    assert_eq!(profile.communication_phases.len(), 2);

    assert!(!profile.communication_phases[0].is_up_phase);
    assert_eq!(profile.communication_phases[0].bandwidth_demand, 0);

    assert!(profile.communication_phases[1].is_up_phase);
    assert!(profile.communication_phases[1].bandwidth_demand > 0);

    // A megabyte at 125 bytes for each microsecond.
    assert_eq!(profile.iteration_time_us, 8100);
    assert_eq!(profile.communication_phases[1].bandwidth_demand, 125);
    assert_eq!(profile.communication_phases[1].duration_us, 8000);
}

#[test]
fn test_default_profile_creation() {
    let profiler = JobProfiler::new();
    let job = MLJob::new(1, 0, 4, 100);

    let profile = profiler.create_default_profile(&job, 1000);

    assert_eq!(profile.job_id, 1);
    assert_eq!(profile.iteration_time_us, 1000);
    assert_eq!(profile.num_workers, 4);
    assert_eq!(profile.communication_phases.len(), 2);

    assert!(!profile.communication_phases[0].is_up_phase);
    assert!(profile.communication_phases[1].is_up_phase);
}

#[test]
fn a_job_without_events_has_no_profile() {
    let profiler = JobProfiler::new();
    let mut job = MLJob::new(1, 0, 1, 1);
    assert!(profiler.profile_job(&job).is_none());
    job.workers.insert(0, MLWorker::new(1, 0, 0, 1));
    assert!(profiler.profile_job(&job).is_none());
}

#[test]
fn the_throughput_is_at_least_one() {
    let mut profiler = JobProfiler::new();
    assert_eq!(profiler.estimate_flow_duration(1000), 8);
    profiler.set_baseline_throughput_bytes_per_us(0);
    assert_eq!(profiler.baseline_throughput_bytes_per_us, 1);
}

#[test]
fn events_start_when_all_they_wait_for_have_ended() {
    let events = vec![
        WorkerEvent::new_compute(0, 10, vec![]),
        WorkerEvent::new_compute(1, 30, vec![]),
        WorkerEvent::new_compute(2, 5, vec![0, 1]),
        WorkerEvent::new_compute(3, 1, vec![2, 99]),
    ];
    let spans = compute_spans(&events, 125);
    assert_eq!(spans, vec![Some((0, 10)), Some((0, 30)), Some((30, 35)), Some((35, 36))]);
}

#[test]
fn events_that_wait_for_each_other_still_get_times() {
    let events = vec![WorkerEvent::new_compute(0, 10, vec![1]), WorkerEvent::new_compute(1, 30, vec![0])];
    let spans = compute_spans(&events, 125);
    assert_eq!(spans, vec![Some((40, 50)), Some((10, 40))]);
}

#[test]
fn overlapping_transfers_add_up() {
    let list = vec![
        FlowInterval { start: 10, end: 30, demand: 5 },
        FlowInterval { start: 20, end: 40, demand: 7 },
    ];
    let phases = build_timeline(&list, 50);
    let seen: Vec<(u64, u64, bool)> =
        phases.iter().map(|p| (p.duration_us, p.bandwidth_demand, p.is_up_phase)).collect();
    assert_eq!(seen, vec![(10, 0, false), (10, 5, true), (10, 12, true), (10, 7, true), (10, 0, false)]);
}

#[test]
fn transfers_that_follow_each_other_are_one_phase() {
    let list = vec![
        FlowInterval { start: 0, end: 10, demand: 5 },
        FlowInterval { start: 10, end: 20, demand: 5 },
    ];
    let phases = build_timeline(&list, 20);
    assert_eq!(phases.len(), 1);
    assert_eq!(phases[0].duration_us, 20);
}

#[test]
fn a_link_used_twice_by_a_job_is_a_loop() {
    let mut graph = AffinityGraph::new();
    graph.add_job_link_edge(1, 100, 30);
    assert!(!graph.has_loops());
    graph.add_job_link_edge(1, 100, 40);
    assert!(graph.has_loops());
}

#[test]
fn the_last_edge_of_a_pair_gets_the_shift() {
    let mut graph = AffinityGraph::new();
    graph.add_job_link_edge(1, 100, 30);
    graph.add_job_link_edge(2, 100, 0);
    graph.set_link_time_shift(2, 100, 25);
    assert_eq!(graph.get_link_time_shift(2, 100), Some(25));
    assert_eq!(graph.get_link_time_shift(3, 100), None);
    let times: DHashMap<usize, u64> = DHashMap::new();
    let shifts = graph.compute_unique_time_shifts(&times);
    assert_eq!(shifts.get(&2).unwrap().shift_us, 995);
}

#[test]
fn shifts_on_a_link_differ_as_its_weights() {
    let mut graph = AffinityGraph::new();
    graph.add_job_link_edge(5, 1, 100);
    graph.add_job_link_edge(3, 1, 250);
    graph.add_job_link_edge(4, 1, 400);
    graph.add_job_link_edge(4, 2, 50);
    graph.add_job_link_edge(6, 2, 600);
    assert!(!graph.has_loops());
    assert_eq!(graph.count_connected_components(), 1);
    let mut times: DHashMap<usize, u64> = DHashMap::new();
    for j in 3..7 {
        times.insert(j, 700);
    }
    let shifts = graph.compute_unique_time_shifts(&times);
    let at = |j: usize| shifts.get(&j).unwrap().shift_us as i64;
    assert_eq!((at(4) - at(3) - (400 - 250)).rem_euclid(700), 0);
    assert_eq!((at(5) - at(3) - (100 - 250)).rem_euclid(700), 0);
    assert_eq!((at(5) - at(4) - (100 - 400)).rem_euclid(700), 0);
    assert_eq!((at(6) - at(4) - (600 - 50)).rem_euclid(700), 0);
}

#[test]
fn a_shift_stays_within_an_iteration() {
    assert_eq!(compute_follow(0, 30, 20, 1000), 990);
    assert_eq!(compute_follow(900, 30, 250, 1000), 120);
    assert_eq!(compute_follow(0, 5000, 0, 7), (7 - 5000 % 7) % 7);
    assert_eq!(compute_follow(u64::MAX, 0, u64::MAX, 10), 0);
}

#[test]
fn common_divisors_and_multiples() {
    assert_eq!(compute_gcd(12, 18), 6);
    assert_eq!(compute_gcd(0, 5), 5);
    assert_eq!(checked_lcm(&vec![u64::MAX, u64::MAX - 1]), None);
    assert_eq!(checked_lcm(&vec![0, 5]), Some(0));
}

#[test]
fn the_best_turn_keeps_two_jobs_apart() {
    let samples = vec![vec![8, 8, 0, 0], vec![8, 8, 0, 0]];
    let table = vec![0, 1, 2, 3];
    assert_eq!(evaluate_rotation_combination(&samples, &table, 10, &vec![0, 0]), 12);
    assert_eq!(evaluate_rotation_combination(&samples, &table, 10, &vec![0, 2]), 0);
    let (steps, excess) = search_rotations(&samples, &table, 10);
    assert_eq!(steps, vec![0, 2]);
    assert_eq!(excess, Some(0));
}

#[test]
fn schedules_are_numbered() {
    let mut module = CassiniSystemModule::new();
    assert_eq!(module.current_schedule_version(), 0);
    assert_eq!(module.next_schedule_version(), 1);
    assert_eq!(module.next_schedule_version(), 2);
    assert_eq!(module.current_schedule_version(), 2);
}

#[test]
fn a_schedule_gives_back_what_was_added() {
    let mut schedule = CassiniSchedule::new();
    assert!(schedule.get_time_shift(3).is_none());
    schedule.add_time_shift(TimeShift { job_id: 3, shift_us: 12 });
    assert_eq!(schedule.get_time_shift(3).unwrap().shift_us, 12);
}
