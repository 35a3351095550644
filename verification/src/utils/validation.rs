//! Checks of job and cluster sizes.

use vstd::prelude::*;
use vstd::string::*;

use crate::schedulers::block::DEFAULT_BLOCK_SIZE;
use crate::simulator::ml_job::MLJob;
use crate::utils::text::{decimal, push_index};

verus! {

/// A size fits the blocks.
pub open spec fn whole_blocks(n: int, block_size: int) -> bool {
    n % block_size == 0
}

/// What is wrong with a number of workers.
pub open spec fn worker_count_message(num_workers: nat, block_size: nat) -> Seq<char> {
    decimal(num_workers) + " workers is not a multiple of block size "@ + decimal(block_size)
}

/// What is wrong with a number of hosts below a switch.
pub open spec fn topology_message(hosts_per_tor: nat, block_size: nat) -> Seq<char> {
    "hosts_per_tor ("@ + decimal(hosts_per_tor) + ") must be divisible by block_size ("@ + decimal(block_size) + ")"@
}

/// What is wrong with a job.
pub open spec fn job_message(job: MLJob, block_size: nat) -> Seq<char> {
    "Job "@ + decimal(job.id as nat) + " requests "@ + decimal(job.num_workers as nat)
        + " workers, but must be a multiple of "@ + decimal(block_size) + " for block-based scheduling"@
}

/// A job in the list of those that are wrong.
pub open spec fn job_line(job: MLJob, block_size: nat) -> Seq<char> {
    "  Job "@ + decimal(job.id as nat) + ": "@ + decimal(job.num_workers as nat) + " workers (not divisible by "@
        + decimal(block_size) + ")"@
}

/// The lines of the jobs that are wrong among the first `n`, one below the other.
pub open spec fn job_lines(jobs: Seq<MLJob>, block_size: nat, n: nat) -> Seq<char>
    decreases n,
{
    if n == 0 {
        Seq::empty()
    } else {
        let rest = job_lines(jobs, block_size, (n - 1) as nat);
        if whole_blocks(jobs[n - 1].num_workers as int, block_size as int) {
            rest
        } else {
            rest + "\n"@ + job_line(jobs[n - 1], block_size)
        }
    }
}

/// What is wrong with a list of jobs.
pub open spec fn jobs_message(jobs: Seq<MLJob>, block_size: nat) -> Seq<char> {
    "The following jobs are invalid for block-based scheduling:"@ + job_lines(jobs, block_size, jobs.len())
}

/// A text that begins with another.
fn text(s: &str) -> (r: String)
    ensures
        r@ == s@,
{
    let mut r = String::new();
    r.append(s);
    proof {
        assert(r@ =~= s@);
    }
    r
}

/// Checks that a number of workers fits blocks of the usual size.
pub fn validate_worker_count(num_workers: usize) -> (r: Result<(), String>)
    ensures
        r is Ok == whole_blocks(num_workers as int, DEFAULT_BLOCK_SIZE as int),
        r is Err ==> r->Err_0@ == worker_count_message(num_workers as nat, DEFAULT_BLOCK_SIZE as nat),
{
    validate_worker_count_with_block_size(num_workers, DEFAULT_BLOCK_SIZE)
}

/// Checks that a number of workers fits blocks.
pub fn validate_worker_count_with_block_size(num_workers: usize, block_size: usize) -> (r: Result<(), String>)
    requires
        block_size > 0,
    ensures
        r is Ok == whole_blocks(num_workers as int, block_size as int),
        r is Err ==> r->Err_0@ == worker_count_message(num_workers as nat, block_size as nat),
{
    if num_workers % block_size != 0 {
        let mut s = String::new();
        push_index(&mut s, num_workers);
        s.append(" workers is not a multiple of block size ");
        push_index(&mut s, block_size);
        proof {
            assert(s@ =~= worker_count_message(num_workers as nat, block_size as nat));
        }
        Err(s)
    } else {
        Ok(())
    }
}

/// Checks that the hosts below a switch fit blocks.
pub fn validate_topology_for_blocks(hosts_per_tor: usize, block_size: usize) -> (r: Result<(), String>)
    requires
        block_size > 0,
    ensures
        r is Ok == whole_blocks(hosts_per_tor as int, block_size as int),
        r is Err ==> r->Err_0@ == topology_message(hosts_per_tor as nat, block_size as nat),
{
    if hosts_per_tor % block_size != 0 {
        let mut s = text("hosts_per_tor (");
        push_index(&mut s, hosts_per_tor);
        s.append(") must be divisible by block_size (");
        push_index(&mut s, block_size);
        s.append(")");
        proof {
            assert(s@ =~= topology_message(hosts_per_tor as nat, block_size as nat));
        }
        Err(s)
    } else {
        Ok(())
    }
}

/// Checks that the workers of a job fit blocks.
pub fn validate_job_for_block_scheduler(job: &MLJob, block_size: usize) -> (r: Result<(), String>)
    requires
        block_size > 0,
    ensures
        r is Ok == whole_blocks(job.num_workers as int, block_size as int),
        r is Err ==> r->Err_0@ == job_message(*job, block_size as nat),
{
    if job.num_workers % block_size != 0 {
        let mut s = text("Job ");
        push_index(&mut s, job.id);
        s.append(" requests ");
        push_index(&mut s, job.num_workers);
        s.append(" workers, but must be a multiple of ");
        push_index(&mut s, block_size);
        s.append(" for block-based scheduling");
        proof {
            assert(s@ =~= job_message(*job, block_size as nat));
        }
        Err(s)
    } else {
        Ok(())
    }
}

/// Checks that the workers of all jobs fit blocks.
pub fn validate_jobs_for_block_scheduler(jobs: &Vec<MLJob>, block_size: usize) -> (r: Result<(), String>)
    requires
        block_size > 0,
    ensures
        r is Ok == forall|i: int|
            0 <= i < jobs@.len() ==> whole_blocks((#[trigger] jobs@[i]).num_workers as int, block_size as int),
        r is Err ==> r->Err_0@ == jobs_message(jobs@, block_size as nat),
{
    let ghost head = "The following jobs are invalid for block-based scheduling:"@;
    let mut s = text("The following jobs are invalid for block-based scheduling:");
    let mut all = true;
    let mut i: usize = 0;
    proof {
        assert(s@ =~= head + job_lines(jobs@, block_size as nat, 0));
    }
    while i < jobs.len()
        invariant
            i <= jobs@.len(),
            block_size > 0,
            s@ == head + job_lines(jobs@, block_size as nat, i as nat),
            all == forall|k: int|
                0 <= k < i ==> whole_blocks((#[trigger] jobs@[k]).num_workers as int, block_size as int),
        decreases jobs@.len() - i,
    {
        let ghost before = s@;
        if jobs[i].num_workers % block_size != 0 {
            all = false;
            assert(!whole_blocks(jobs@[i as int].num_workers as int, block_size as int));
            s.append("\n");
            s.append("  Job ");
            push_index(&mut s, jobs[i].id);
            s.append(": ");
            push_index(&mut s, jobs[i].num_workers);
            s.append(" workers (not divisible by ");
            push_index(&mut s, block_size);
            s.append(")");
            proof {
                assert(s@ =~= before + ("\n"@ + job_line(jobs@[i as int], block_size as nat)));
                assert(s@ =~= head + job_lines(jobs@, block_size as nat, (i + 1) as nat));
            }
        }
        i += 1;
    }
    if all {
        Ok(())
    } else {
        Err(s)
    }
}

} // verus!
