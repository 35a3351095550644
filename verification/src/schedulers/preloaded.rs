//! Placements that are fixed in advance.

use std::collections::HashMap;
use vstd::prelude::*;

use crate::simulator::job_scheduler::available;
use crate::simulator::ml_worker::JobId;

verus! {

/// A fixed placement, if it is for that many workers and its hosts are available.
pub open spec fn fixed_placement(hosts: Seq<usize>, num_workers: nat, busy: Seq<bool>) -> Option<Seq<usize>> {
    if hosts.len() == num_workers && available(hosts, busy) {
        Some(hosts)
    } else {
        None
    }
}

/// The hosts that are fixed for each job.
pub open spec fn fixed_hosts(m: Map<JobId, Vec<usize>>) -> Map<JobId, Seq<usize>> {
    m.map_values(|v: Vec<usize>| v@)
}

/// Whether a fixed placement can be used.
pub fn is_usable(hosts: &Vec<usize>, num_workers: usize, busy: &[bool]) -> (r: bool)
    ensures
        r == fixed_placement(hosts@, num_workers as nat, busy@) is Some,
{
    if hosts.len() != num_workers {
        return false;
    }
    let mut i: usize = 0;
    while i < hosts.len()
        invariant
            i <= hosts@.len(),
            forall|j: int| 0 <= j < i ==> (#[trigger] hosts@[j]) < busy@.len() && !busy@[hosts@[j] as int],
        decreases hosts@.len() - i,
    {
        if hosts[i] >= busy.len() || busy[hosts[i]] {
            assert(!(hosts@[i as int] < busy@.len() && !busy@[hosts@[i as int] as int]));
            return false;
        }
        i += 1;
    }
    true
}

/// Fixes the hosts of a job.
pub fn fix_hosts(m: &mut HashMap<JobId, Vec<usize>>, job_id: JobId, hosts: Vec<usize>)
    ensures
        fixed_hosts(final(m)@) == fixed_hosts(old(m)@).insert(job_id, hosts@),
{
    broadcast use vstd::std_specs::hash::group_hash_axioms;

    m.insert(job_id, hosts);
    proof {
        assert(fixed_hosts(m@) =~= fixed_hosts(old(m)@).insert(job_id, hosts@));
    }
}

} // verus!
