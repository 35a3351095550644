//! When the flows of a plan are released.

use vstd::prelude::*;

use crate::simulator::ml_worker::JobId;
use crate::spine::foresight::{
    is_schedule_of, is_serial_schedule, lemma_releases, lemma_serial_schedule, release_of, FlowReleaseSchedule,
    FlowReleaseSpec,
};
use crate::spine::route_plan::PlacedFlow;
use crate::utils::data::sorted_list;

verus! {

/// The entry releases the flow at its start.
pub open spec fn releases_flow(e: FlowReleaseSpec, p: PlacedFlow) -> bool {
    e.job_id == p.job_id && e.job_flow_idx == p.job_flow_idx && e.offset_us == p.start_us
}

/// A schedule releases each flow of the plan at its start, and no others, in the order of their times. The period goes on
/// beyond the last release.
pub proof fn lemma_released_at_start(placed: Seq<PlacedFlow>, version: u64, s: FlowReleaseSchedule)
    requires
        is_schedule_of(placed, version, s),
    ensures
        s.entries@.len() == placed.len(),
        forall|k: int|
            0 <= k < s.entries@.len() ==> exists|p: int|
                0 <= p < placed.len() && releases_flow(#[trigger] s.entries@[k], #[trigger] placed[p]),
        forall|p: int|
            0 <= p < placed.len() ==> exists|k: int|
                0 <= k < s.entries@.len() && releases_flow(#[trigger] s.entries@[k], #[trigger] placed[p]),
        forall|a: int, b: int|
            0 <= a < b < s.entries@.len() ==> (#[trigger] s.entries@[a]).offset_us <= (#[trigger] s.entries@[b]).offset_us,
        forall|k: int| 0 <= k < s.entries@.len() ==> (#[trigger] s.entries@[k]).offset_us < s.period_us,
{
    broadcast use vstd::seq_lib::group_to_multiset_ensures;

    let list = s.entries@;
    let whole = placed.map_values(|p: PlacedFlow| release_of(p));
    lemma_releases(placed, placed.len());
    assert(placed.take(placed.len() as int) =~= placed);
    assert(list.to_multiset() == whole.to_multiset());
    assert(list.len() == list.to_multiset().len() && whole.len() == whole.to_multiset().len());
    assert forall|k: int| 0 <= k < list.len() implies exists|p: int|
        0 <= p < placed.len() && releases_flow(#[trigger] list[k], #[trigger] placed[p]) by {
        assert(list.contains(list[k]));
        assert(list.to_multiset().count(list[k]) > 0);
        assert(whole.contains(list[k]));
        let p = choose|p: int| 0 <= p < whole.len() && whole[p] == list[k];
        assert(releases_flow(list[k], placed[p]));
    }
    assert forall|p: int| 0 <= p < placed.len() implies exists|k: int|
        0 <= k < list.len() && releases_flow(#[trigger] list[k], #[trigger] placed[p]) by {
        let e = whole[p];
        assert(whole.contains(e));
        assert(whole.to_multiset().count(e) > 0);
        assert(list.contains(e));
        let k = choose|k: int| 0 <= k < list.len() && list[k] == e;
        assert(releases_flow(list[k], placed[p]));
    }
}

/// One release after the other, in the order in which the jobs were submitted, and within a job by the indices of the flows.
pub proof fn lemma_released_in_turn(jobs: Map<JobId, (u64, Seq<usize>)>, version: u64, s: FlowReleaseSchedule, a: int, b: int)
    requires
        is_serial_schedule(jobs, version, s),
        forall|j: JobId| #[trigger] jobs.contains_key(j) ==> sorted_list(jobs[j].1) && jobs[j].1.no_duplicates(),
        0 <= a < b < s.entries@.len(),
    ensures
        ({
            let (x, y) = (s.entries@[a], s.entries@[b]);
            &&& x.offset_us < y.offset_us < s.period_us
            &&& jobs[x.job_id].0 <= jobs[y.job_id].0
            &&& jobs[x.job_id].0 == jobs[y.job_id].0 ==> x.job_id <= y.job_id
            &&& x.job_id == y.job_id ==> x.job_flow_idx < y.job_flow_idx
        }),
{
    lemma_serial_schedule(jobs, version, s);
}

} // verus!
