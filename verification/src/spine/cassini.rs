//! Cassini on a spine network: which jobs meet on which links, and when each job runs.

use vstd::prelude::*;

use crate::network::graph::LinkId;
use crate::simulator::context::{placement_views, MLContext};
use crate::simulator::ml_job::{ascending, lemma_ascending, MLJob};
use crate::simulator::ml_worker::{JobId, WorkerId};
use crate::spine::link_use::{build_affinity, is_affinity_of, CassiniFault};
use crate::spine::routing::SpineRouteOracle;
use crate::spine::topology::SpineTree;
use crate::system_modules::cassini::affinity::{with_shift, AffinityGraph, AffinityNode};
use crate::system_modules::cassini::geometry::{checked_lcm, lcm_all, lcm_fits};
use crate::system_modules::cassini::profiler::{can_profile, is_analysis, profiled_events, JobProfiler};
use crate::system_modules::cassini::shifts::are_unique_shifts;
use crate::system_modules::cassini::system::CassiniSystemModule;
use crate::system_modules::cassini::types::{CassiniSchedule, CommunicationPhase, JobProfile, TimeShift};
use crate::utils::data::DHashMap;

verus! {

/// The capacity of a link where none is set.
pub const DEFAULT_LINK_CAPACITY: u64 = 10000;

/// The length of an iteration of a job without a known pattern.
pub const DEFAULT_ITERATION_US: u64 = 1000;

/// Cassini for a spine network.
pub struct SpineCassiniSystemModule {
    pub base: CassiniSystemModule,
    pub profiler: JobProfiler,
    /// How the jobs communicate.
    pub job_profiles: DHashMap<JobId, JobProfile>,
    /// The bytes that a link can carry in a microsecond.
    pub link_capacity: u64,
    /// The jobs come with their placements.
    pub use_static_placement: bool,
}

/// The iteration times of profiles.
pub open spec fn profile_times(profiles: Map<JobId, JobProfile>) -> Map<JobId, u64> {
    profiles.map_values(|p: JobProfile| p.iteration_time_us)
}

/// The profile of a job.
pub open spec fn is_profile(profiler: JobProfiler, job: MLJob, p: JobProfile) -> bool {
    &&& p.job_id == job.id
    &&& p.num_workers == job.num_workers
    &&& p.name == job.name
    &&& if can_profile(job) {
        is_analysis(
            profiled_events(job),
            profiler.baseline_throughput_bytes_per_us,
            p.iteration_time_us,
            p.communication_phases@,
        )
    } else {
        &&& p.iteration_time_us == DEFAULT_ITERATION_US
        &&& p.communication_phases@ == seq![
            CommunicationPhase { duration_us: 700, bandwidth_demand: 0, is_up_phase: false },
            CommunicationPhase { duration_us: 300, bandwidth_demand: 1000, is_up_phase: true },
        ]
    }
}

/// The jobs of a list that have iteration times.
pub open spec fn known_jobs(jobs: Seq<JobId>, times: Map<JobId, u64>, n: nat) -> Seq<JobId>
    decreases n,
{
    if n == 0 {
        Seq::empty()
    } else {
        let before = known_jobs(jobs, times, (n - 1) as nat);
        if times.contains_key(jobs[n - 1]) {
            before.push(jobs[n - 1])
        } else {
            before
        }
    }
}

/// The iteration times of jobs.
pub open spec fn times_of(jobs: Seq<JobId>, times: Map<JobId, u64>) -> Seq<u64> {
    jobs.map_values(|j: JobId| times[j])
}

/// A link on which the times of jobs have to be set against each other.
#[derive(Debug)]
pub struct LinkWork {
    pub link_id: LinkId,
    pub jobs: Vec<JobId>,
    /// The shortest time that holds whole iterations of all the jobs.
    pub period_us: u64,
}

/// The value of a `LinkWork`.
#[verifier::ext_equal]
pub struct WorkView {
    pub link_id: LinkId,
    pub jobs: Seq<JobId>,
    pub period_us: u64,
}

impl View for LinkWork {
    type V = WorkView;

    open spec fn view(&self) -> WorkView {
        WorkView { link_id: self.link_id, jobs: self.jobs@, period_us: self.period_us }
    }
}

/// The values of work on links.
pub open spec fn work_views(s: Seq<LinkWork>) -> Seq<WorkView> {
    s.map_values(|w: LinkWork| w@)
}

/// The jobs with iteration times on a link.
pub open spec fn known_on(g: AffinityGraph, times: Map<JobId, u64>, l: LinkId) -> Seq<JobId> {
    known_jobs(g.jobs_on(l), times, g.jobs_on(l).len())
}

/// The links, among the first `n`, on which the times of jobs have to be set against each other: those with
/// at least two jobs with iteration times. A link whose jobs have no common period is a fault.
pub open spec fn link_works(
    g: AffinityGraph,
    times: Map<JobId, u64>,
    links: Seq<LinkId>,
    n: nat,
) -> Result<Seq<WorkView>, CassiniFault>
    decreases n,
{
    if n == 0 {
        Ok(Seq::empty())
    } else {
        match link_works(g, times, links, (n - 1) as nat) {
            Err(e) => Err(e),
            Ok(before) => {
                let l = links[n - 1];
                let jobs = known_on(g, times, l);
                let lengths = times_of(jobs, times);
                if jobs.len() <= 1 {
                    Ok(before)
                } else if !lcm_fits(lengths) {
                    Err(CassiniFault::NoPeriod(l))
                } else if lcm_all(lengths, lengths.len()) == 0 {
                    Ok(before)
                } else {
                    Ok(before.push(WorkView { link_id: l, jobs, period_us: lcm_all(lengths, lengths.len()) as u64 }))
                }
            },
        }
    }
}

/// The edges after the first `n` shifts for a link have been set.
pub open spec fn with_link_shifts(
    edges: Seq<(usize, usize, u64)>,
    jobs: Map<JobId, usize>,
    links: Map<LinkId, usize>,
    l: LinkId,
    shifts: Seq<TimeShift>,
    n: nat,
) -> Seq<(usize, usize, u64)>
    decreases n,
{
    if n == 0 {
        edges
    } else {
        with_shift(
            with_link_shifts(edges, jobs, links, l, shifts, (n - 1) as nat),
            jobs,
            links,
            shifts[n - 1].job_id,
            l,
            shifts[n - 1].shift_us,
        )
    }
}

/// The edges after the shifts for the first `n` links have been set.
pub open spec fn with_all_shifts(
    edges: Seq<(usize, usize, u64)>,
    jobs: Map<JobId, usize>,
    links: Map<LinkId, usize>,
    found: Seq<(LinkId, Vec<TimeShift>)>,
    n: nat,
) -> Seq<(usize, usize, u64)>
    decreases n,
{
    if n == 0 {
        edges
    } else {
        with_link_shifts(
            with_all_shifts(edges, jobs, links, found, (n - 1) as nat),
            jobs,
            links,
            found[n - 1].0,
            found[n - 1].1@,
            found[n - 1].1@.len(),
        )
    }
}

/// The graph after the shifts for links have been set.
pub open spec fn is_shifted(g: AffinityGraph, found: Seq<(LinkId, Vec<TimeShift>)>, after: AffinityGraph) -> bool {
    &&& after.wf()
    &&& after.nodes@ == g.nodes@
    &&& after.edges() == with_all_shifts(g.edges(), g.job_to_node@, g.link_to_node@, found, found.len())
}

/// The shift of a job: nothing where none is known.
pub open spec fn shift_or_none(shifts: Map<JobId, TimeShift>, j: JobId) -> TimeShift {
    if shifts.contains_key(j) {
        shifts[j]
    } else {
        TimeShift { job_id: j, shift_us: 0 }
    }
}

/// A schedule of all jobs with profiles.
pub open spec fn is_schedule(
    times: Map<JobId, u64>,
    shifts: Map<JobId, TimeShift>,
    now_us: u64,
    r: CassiniSchedule,
) -> bool {
    &&& r.version == 0
    &&& r.computed_at_us == now_us
    &&& r.job_periods@ == times
    &&& r.time_shifts@ == Map::new(|j: JobId| times.contains_key(j), |j: JobId| shift_or_none(shifts, j))
}

/// The schedule that follows from the shifts that were found for links.
pub open spec fn follows_from(
    g: AffinityGraph,
    times: Map<JobId, u64>,
    found: Seq<(LinkId, Vec<TimeShift>)>,
    now_us: u64,
    r: CassiniSchedule,
) -> bool {
    exists|after: AffinityGraph, shifts: Map<JobId, TimeShift>|
        #![trigger is_shifted(g, found, after), is_schedule(times, shifts, now_us, r)]
        is_shifted(g, found, after) && are_unique_shifts(after, times, shifts) && is_schedule(times, shifts, now_us, r)
}

impl SpineCassiniSystemModule {
    /// All iterations take some time.
    pub open spec fn wf(&self) -> bool {
        &&& self.profiler.wf()
        &&& forall|j: JobId| #[trigger]
            self.job_profiles@.contains_key(j) ==> self.job_profiles@[j].iteration_time_us > 0
    }

    /// A module that knows no job.
    pub fn new() -> (r: Self)
        ensures
            r.wf(),
            r.base.schedule_version == 0,
            r.job_profiles@ == Map::<JobId, JobProfile>::empty(),
            r.link_capacity == DEFAULT_LINK_CAPACITY,
            !r.use_static_placement,
    {
        SpineCassiniSystemModule {
            base: CassiniSystemModule::new(),
            profiler: JobProfiler::new(),
            job_profiles: DHashMap::new(),
            link_capacity: DEFAULT_LINK_CAPACITY,
            use_static_placement: false,
        }
    }

    /// With links of a capacity.
    pub fn with_link_capacity(self, capacity_bytes_per_us: u64) -> (r: Self)
        ensures
            r == (SpineCassiniSystemModule { link_capacity: capacity_bytes_per_us, ..self }),
    {
        SpineCassiniSystemModule { link_capacity: capacity_bytes_per_us, ..self }
    }

    /// For jobs that come with their placements.
    pub fn with_static_placement(self) -> (r: Self)
        ensures
            r == (SpineCassiniSystemModule { use_static_placement: true, ..self }),
    {
        SpineCassiniSystemModule { use_static_placement: true, ..self }
    }

    /// Takes over the bandwidth of the network, at least one byte for each microsecond.
    pub fn set_bandwidth(&mut self, bytes_per_us: u64)
        requires
            old(self).wf(),
        ensures
            final(self).wf(),
            final(self).link_capacity == if bytes_per_us == 0 {
                1
            } else {
                bytes_per_us
            },
            final(self).profiler.baseline_throughput_bytes_per_us == final(self).link_capacity,
            *final(self) == (SpineCassiniSystemModule {
                link_capacity: final(self).link_capacity,
                profiler: final(self).profiler,
                ..*old(self)
            }),
    {
        self.link_capacity = if bytes_per_us == 0 {
            1
        } else {
            bytes_per_us
        };
        self.profiler.set_baseline_throughput_bytes_per_us(bytes_per_us);
    }

    /// Finds out how a job communicates, unless that is known.
    pub fn record_job(&mut self, job: &MLJob)
        requires
            old(self).wf(),
        ensures
            final(self).wf(),
            *final(self) == (SpineCassiniSystemModule { job_profiles: final(self).job_profiles, ..*old(self) }),
            old(self).job_profiles@.contains_key(job.id) ==> final(self).job_profiles@ == old(self).job_profiles@,
            !old(self).job_profiles@.contains_key(job.id) ==> final(self).job_profiles@.contains_key(job.id)
                && final(self).job_profiles@ == old(self).job_profiles@.insert(
                job.id,
                final(self).job_profiles@[job.id],
            ) && is_profile(old(self).profiler, *job, final(self).job_profiles@[job.id]),
    {
        if self.job_profiles.contains_key(&job.id) {
            return;
        }
        let profile = match self.profiler.profile_job(job) {
            Some(p) => p,
            None => self.profiler.create_default_profile(job, DEFAULT_ITERATION_US),
        };
        self.job_profiles.insert(job.id, profile);
    }

    /// Forgets a job.
    pub fn remove_job(&mut self, job_id: JobId)
        requires
            old(self).wf(),
        ensures
            final(self).wf(),
            *final(self) == (SpineCassiniSystemModule { job_profiles: final(self).job_profiles, ..*old(self) }),
            final(self).job_profiles@ == old(self).job_profiles@.remove(job_id),
    {
        self.job_profiles.remove(&job_id);
    }

    /// Chooses one of some placements of a job. A job meets no other on its links as long as it is looked at
    /// alone, so each placement is as good as any, and the first is taken.
    pub fn evaluate_placement_candidates(
        &mut self,
        job: &MLJob,
        candidates: &Vec<DHashMap<WorkerId, usize>>,
        bytes_per_us: u64,
    ) -> (r: Option<usize>)
        requires
            old(self).wf(),
        ensures
            final(self).wf(),
            r == if candidates@.len() == 0 {
                None
            } else {
                Some(0usize)
            },
            candidates@.len() == 0 ==> *final(self) == *old(self),
            candidates@.len() > 0 ==> {
                &&& final(self).link_capacity == if bytes_per_us == 0 {
                    1
                } else {
                    bytes_per_us
                }
                &&& final(self).profiler.baseline_throughput_bytes_per_us == final(self).link_capacity
                &&& old(self).job_profiles@.contains_key(job.id) ==> final(self).job_profiles@
                    == old(self).job_profiles@
                &&& !old(self).job_profiles@.contains_key(job.id) ==> final(self).job_profiles@.contains_key(job.id)
                    && final(self).job_profiles@ == old(self).job_profiles@.insert(
                    job.id,
                    final(self).job_profiles@[job.id],
                ) && is_profile(final(self).profiler, *job, final(self).job_profiles@[job.id])
                &&& *final(self) == (SpineCassiniSystemModule {
                    link_capacity: final(self).link_capacity,
                    profiler: final(self).profiler,
                    job_profiles: final(self).job_profiles,
                    ..*old(self)
                })
            },
    {
        if candidates.len() == 0 {
            return None;
        }
        self.set_bandwidth(bytes_per_us);
        self.record_job(job);
        Some(0)
    }

    /// The iteration times of the jobs with profiles.
    fn copy_times(&self) -> (r: DHashMap<JobId, u64>)
        ensures
            r@ == profile_times(self.job_profiles@),
    {
        let ids = self.job_profiles.keys();
        let mut r: DHashMap<JobId, u64> = DHashMap::new();
        let mut i: usize = 0;
        while i < ids.len()
            invariant
                i <= ids@.len(),
                ids@.to_set() == self.job_profiles@.dom(),
                forall|j: JobId| #[trigger]
                    r@.contains_key(j) ==> self.job_profiles@.contains_key(j) && r@[j]
                        == self.job_profiles@[j].iteration_time_us,
                forall|x: int| 0 <= x < i ==> r@.contains_key(#[trigger] ids@[x]),
            decreases ids@.len() - i,
        {
            assert(ids@.to_set().contains(ids@[i as int]));
            if let Some(p) = self.job_profiles.get(&ids[i]) {
                r.insert(ids[i], p.iteration_time_us);
            }
            i += 1;
        }
        proof {
            assert forall|j: JobId| self.job_profiles@.contains_key(j) implies r@.contains_key(j) by {
                assert(ids@.to_set().contains(j));
                let x = choose|x: int| 0 <= x < ids@.len() && ids@[x] == j;
                assert(r@.contains_key(ids@[x]));
            }
            assert(r@ =~= profile_times(self.job_profiles@));
        }
        r
    }

    /// The links on which the times of jobs have to be set against each other, in ascending order.
    pub fn list_link_work(&self, g: &AffinityGraph) -> (r: Result<Vec<LinkWork>, CassiniFault>)
        requires
            g.wf(),
        ensures
            ({
                let times = profile_times(self.job_profiles@);
                let links = ascending(g.link_to_node@.dom());
                match link_works(*g, times, links, links.len()) {
                    Ok(list) => r matches Ok(v) && work_views(v@) == list,
                    Err(e) => r == Err::<Vec<LinkWork>, CassiniFault>(e),
                }
            }),
    {
        let ghost times = profile_times(self.job_profiles@);
        let links = g.link_to_node.sorted_keys();
        proof {
            lemma_ascending(links@, g.link_to_node@.dom());
        }
        let mut r: Vec<LinkWork> = Vec::new();
        assert(work_views(r@) =~= Seq::<WorkView>::empty());
        let mut i: usize = 0;
        while i < links.len()
            invariant
                i <= links@.len(),
                g.wf(),
                times == profile_times(self.job_profiles@),
                links@ == ascending(g.link_to_node@.dom()),
                link_works(*g, times, links@, i as nat) == Ok::<Seq<WorkView>, CassiniFault>(work_views(r@)),
            decreases links@.len() - i,
        {
            let l: usize = links[i];
            let on = g.get_jobs_on_link(l);
            let mut jobs: Vec<JobId> = Vec::new();
            let mut lengths: Vec<u64> = Vec::new();
            let mut k: usize = 0;
            assert(lengths@ =~= times_of(jobs@, times));
            while k < on.len()
                invariant
                    k <= on@.len(),
                    times == profile_times(self.job_profiles@),
                    jobs@ == known_jobs(on@, times, k as nat),
                    lengths@ == times_of(jobs@, times),
                decreases on@.len() - k,
            {
                let ghost had = jobs@;
                if let Some(p) = self.job_profiles.get(&on[k]) {
                    jobs.push(on[k]);
                    lengths.push(p.iteration_time_us);
                    assert(lengths@ =~= times_of(jobs@, times));
                }
                k += 1;
            }
            if jobs.len() > 1 {
                match checked_lcm(&lengths) {
                    None => {
                        proof {
                            lemma_work_fault(*g, times, links@, (i + 1) as nat, links@.len());
                        }
                        return Err(CassiniFault::NoPeriod(l));
                    },
                    Some(period_us) => {
                        if period_us != 0 {
                            let ghost before = r@;
                            r.push(LinkWork { link_id: l, jobs, period_us });
                            assert(work_views(r@) =~= work_views(before).push(
                                WorkView { link_id: l, jobs: jobs@, period_us },
                            ));
                        }
                    },
                }
            }
            i += 1;
        }
        Ok(r)
    }

    /// The schedule that follows from the shifts that were found for links. Jobs that meet no other run
    /// without a shift.
    pub fn assemble_schedule(&self, g: AffinityGraph, found: &Vec<(LinkId, Vec<TimeShift>)>, now_us: u64) -> (r:
        CassiniSchedule)
        requires
            self.wf(),
            g.wf(),
        ensures
            follows_from(g, profile_times(self.job_profiles@), found@, now_us, r),
    {
        let ghost start = g;
        let ghost list = found@;
        let mut work = g;
        let mut i: usize = 0;
        while i < found.len()
            invariant
                i <= found@.len(),
                list == found@,
                work.wf(),
                work.nodes@ == start.nodes@,
                start.wf(),
                work.edges() == with_all_shifts(
                    start.edges(),
                    start.job_to_node@,
                    start.link_to_node@,
                    list,
                    i as nat,
                ),
            decreases found@.len() - i,
        {
            let l: usize = found[i].0;
            let ghost shifts = found@[i as int].1@;
            let ghost before = work.edges();
            let mut k: usize = 0;
            while k < found[i].1.len()
                invariant
                    i < found@.len(),
                    k <= found@[i as int].1@.len(),
                    shifts == found@[i as int].1@,
                    work.wf(),
                    work.nodes@ == start.nodes@,
                    start.wf(),
                    work.edges() == with_link_shifts(
                        before,
                        start.job_to_node@,
                        start.link_to_node@,
                        l,
                        shifts,
                        k as nat,
                    ),
                decreases found@[i as int].1@.len() - k,
            {
                let t = found[i].1[k];
                proof {
                    lemma_same_tables(start, work);
                }
                work.set_link_time_shift(t.job_id, l, t.shift_us);
                k += 1;
            }
            i += 1;
        }
        let times = self.copy_times();
        let shifts = work.compute_unique_time_shifts(&times);
        let mut r = CassiniSchedule::new();
        r.computed_at_us = now_us;
        let ids = self.job_profiles.keys();
        let ghost goal = Map::new(|j: JobId| times@.contains_key(j), |j: JobId| shift_or_none(shifts@, j));
        i = 0;
        while i < ids.len()
            invariant
                i <= ids@.len(),
                ids@.to_set() == self.job_profiles@.dom(),
                times@ == profile_times(self.job_profiles@),
                goal == Map::new(|j: JobId| times@.contains_key(j), |j: JobId| shift_or_none(shifts@, j)),
                forall|j: JobId| #[trigger] shifts@.contains_key(j) ==> shifts@[j].job_id == j,
                r.version == 0,
                r.computed_at_us == now_us,
                forall|j: JobId| #[trigger]
                    r.time_shifts@.contains_key(j) ==> goal.contains_key(j) && r.time_shifts@[j] == goal[j],
                forall|x: int| 0 <= x < i ==> r.time_shifts@.contains_key(#[trigger] ids@[x]),
            decreases ids@.len() - i,
        {
            let j: usize = ids[i];
            assert(ids@.to_set().contains(j));
            let t = match shifts.get(&j) {
                Some(t) => *t,
                None => TimeShift { job_id: j, shift_us: 0 },
            };
            r.add_time_shift(t);
            i += 1;
        }
        proof {
            assert forall|j: JobId| goal.contains_key(j) implies r.time_shifts@.contains_key(j) by {
                assert(ids@.to_set().contains(j));
                let x = choose|x: int| 0 <= x < ids@.len() && ids@[x] == j;
                assert(r.time_shifts@.contains_key(ids@[x]));
            }
            assert(r.time_shifts@ =~= goal);
            assert(is_shifted(start, list, work));
        }
        let ghost all = shifts@;
        r.job_periods = times;
        assert(is_schedule(profile_times(self.job_profiles@), all, now_us, r));
        r
    }

    /// What the placements of the jobs mean for the links: nothing where there is no job, or no placement.
    pub fn plan_reconfigure<R: SpineRouteOracle>(&self, ctx: &MLContext, topo: &SpineTree, oracle: &R) -> (r: Option<
        Result<AffinityGraph, CassiniFault>,
    >)
        requires
            topo.wf(),
        ensures
            r is None == (self.job_profiles@.dom() == Set::<JobId>::empty() || ctx.placements@.dom() == Set::<
                JobId,
            >::empty()),
            r matches Some(a) ==> is_affinity_of(*oracle, topo.size(), placement_views(ctx.placements@), a),
    {
        if self.job_profiles.is_empty() || ctx.placements.is_empty() {
            return None;
        }
        Some(build_affinity(topo, oracle, &ctx.placements))
    }

    /// A schedule that starts each job a quarter of its iteration later than the one before.
    pub fn compute_global_schedule(&self, now_us: u64) -> (r: CassiniSchedule)
        requires
            self.wf(),
        ensures
            r.version == 0,
            r.computed_at_us == now_us,
            r.job_periods@ == profile_times(self.job_profiles@),
            r.time_shifts@.dom() == self.job_profiles@.dom(),
            forall|i: int|
                0 <= i < ascending(self.job_profiles@.dom()).len() ==> is_staggered(
                    r.time_shifts@,
                    profile_times(self.job_profiles@),
                    i,
                    #[trigger] ascending(self.job_profiles@.dom())[i],
                ),
    {
        let ids = self.job_profiles.sorted_keys();
        proof {
            lemma_ascending(ids@, self.job_profiles@.dom());
        }
        let ghost times = profile_times(self.job_profiles@);
        let mut r = CassiniSchedule::new();
        r.computed_at_us = now_us;
        let mut i: usize = 0;
        while i < ids.len()
            invariant
                i <= ids@.len(),
                self.wf(),
                ids@.to_set() == self.job_profiles@.dom(),
                crate::utils::data::strictly_ascending(ids@),
                times == profile_times(self.job_profiles@),
                r.version == 0,
                r.computed_at_us == now_us,
                forall|j: JobId| #[trigger] r.time_shifts@.contains_key(j) ==> times.contains_key(j),
                forall|x: int| 0 <= x < i ==> is_staggered(r.time_shifts@, times, x, #[trigger] ids@[x]),
            decreases ids@.len() - i,
        {
            let j: usize = ids[i];
            assert(ids@.to_set().contains(j));
            let ghost before = r.time_shifts@;
            if let Some(p) = self.job_profiles.get(&j) {
                let t: u64 = p.iteration_time_us;
                assert(t > 0);
                assert(i as u128 * t as u128 <= u128::MAX) by (nonlinear_arith)
                    requires
                        i <= usize::MAX,
                        t <= u64::MAX,
                ;
                let late: u128 = (i as u128 * t as u128) / 4 % (t as u128);
                r.add_time_shift(TimeShift { job_id: j, shift_us: late as u64 });
                assert(is_staggered(r.time_shifts@, times, i as int, j));
            }
            proof {
                assert forall|x: int| 0 <= x < i + 1 implies is_staggered(
                    r.time_shifts@,
                    times,
                    x,
                    #[trigger] ids@[x],
                ) by {
                    if x < i {
                        assert(ids@[x] < ids@[i as int]);
                        assert(is_staggered(before, times, x, ids@[x]));
                    }
                }
            }
            i += 1;
        }
        proof {
            assert(r.time_shifts@.dom() =~= self.job_profiles@.dom()) by {
                assert forall|j: JobId| self.job_profiles@.contains_key(j) implies r.time_shifts@.contains_key(j) by {
                    assert(ids@.to_set().contains(j));
                    let x = choose|x: int| 0 <= x < ids@.len() && ids@[x] == j;
                    assert(is_staggered(r.time_shifts@, times, x, ids@[x]));
                }
            }
        }
        r.job_periods = self.copy_times();
        r
    }
}

/// A job starts so many quarters of its iteration later.
pub open spec fn is_staggered(shifts: Map<JobId, TimeShift>, times: Map<JobId, u64>, i: int, j: JobId) -> bool {
    &&& shifts.contains_key(j)
    &&& shifts[j].job_id == j
    &&& shifts[j].shift_us == ((i * times[j]) / 4) % (times[j] as int)
}

proof fn lemma_work_fault(g: AffinityGraph, times: Map<JobId, u64>, links: Seq<LinkId>, n: nat, m: nat)
    requires
        n <= m,
        link_works(g, times, links, n) is Err,
    ensures
        link_works(g, times, links, m) == link_works(g, times, links, n),
    decreases m,
{
    if n < m {
        lemma_work_fault(g, times, links, n, (m - 1) as nat);
    }
}

/// Graphs with the same nodes find them at the same places.
proof fn lemma_same_tables(g: AffinityGraph, h: AffinityGraph)
    requires
        g.wf(),
        h.wf(),
        g.nodes@ == h.nodes@,
    ensures
        g.job_to_node@ == h.job_to_node@,
        g.link_to_node@ == h.link_to_node@,
{
    assert forall|j: JobId| g.job_to_node@.contains_key(j) == h.job_to_node@.contains_key(j) && (
    g.job_to_node@.contains_key(j) ==> g.job_to_node@[j] == h.job_to_node@[j]) by {
        if g.job_to_node@.contains_key(j) {
            assert(h.nodes@[g.job_to_node@[j] as int] == AffinityNode::Job(j));
        }
        if h.job_to_node@.contains_key(j) {
            assert(g.nodes@[h.job_to_node@[j] as int] == AffinityNode::Job(j));
        }
    }
    assert(g.job_to_node@ =~= h.job_to_node@);
    assert forall|l: LinkId| g.link_to_node@.contains_key(l) == h.link_to_node@.contains_key(l) && (
    g.link_to_node@.contains_key(l) ==> g.link_to_node@[l] == h.link_to_node@[l]) by {
        if g.link_to_node@.contains_key(l) {
            assert(h.nodes@[g.link_to_node@[l] as int] == AffinityNode::Link(
                l,
            ));
        }
        if h.link_to_node@.contains_key(l) {
            assert(g.nodes@[h.link_to_node@[l] as int] == AffinityNode::Link(
                l,
            ));
        }
    }
    assert(g.link_to_node@ =~= h.link_to_node@);
}

impl Default for SpineCassiniSystemModule {
    fn default() -> (r: Self)
        ensures
            r.wf(),
            r.base.schedule_version == 0,
            r.job_profiles@ == Map::<JobId, JobProfile>::empty(),
            r.link_capacity == DEFAULT_LINK_CAPACITY,
            !r.use_static_placement,
    {
        SpineCassiniSystemModule::new()
    }
}

} // verus!
