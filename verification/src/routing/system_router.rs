//! Routes that are set up from outside.

use vstd::prelude::*;

use crate::routing::fat_tree::{FatTree, FatTreeRouter};
use crate::simulator::context::MLContext;
use crate::simulator::ml_worker::{FlowId, JobId};
use crate::spine::routing::{copy_path, paths, same_route, template_route, templates};
use crate::spine::topology::{Path, RouteFault};
use crate::utils::data::DHashMap;

verus! {

/// A router that gives the routes that have been set up for the flows of jobs. It computes none.
pub struct SystemRouter {
    /// Routes that have been given.
    pub path_cache: DHashMap<FlowId, Vec<usize>>,
    /// Routes by job, flow of the job, and iteration.
    pub template_cache: DHashMap<(JobId, usize, usize), Vec<usize>>,
}

impl SystemRouter {
    /// A router without routes.
    pub fn new() -> (r: Self)
        ensures
            paths(r.path_cache@) == Map::<FlowId, Seq<usize>>::empty(),
            templates(r.template_cache@) == Map::<(JobId, usize, usize), Seq<usize>>::empty(),
    {
        let r = SystemRouter { path_cache: DHashMap::new(), template_cache: DHashMap::new() };
        proof {
            assert(paths(r.path_cache@) =~= Map::<FlowId, Seq<usize>>::empty());
            assert(templates(r.template_cache@) =~= Map::<(JobId, usize, usize), Seq<usize>>::empty());
        }
        r
    }

    /// Sets up the route of a flow of a job in an iteration.
    pub fn inject_route(&mut self, job_id: JobId, job_flow_idx: usize, iter_idx: usize, path: Path)
        ensures
            final(self).path_cache == old(self).path_cache,
            templates(final(self).template_cache@) == templates(old(self).template_cache@).insert(
                (job_id, job_flow_idx, iter_idx),
                path@,
            ),
    {
        let ghost before = self.template_cache@;
        self.template_cache.insert((job_id, job_flow_idx, iter_idx), path);
        proof {
            assert(templates(self.template_cache@) =~= templates(before).insert(
                (job_id, job_flow_idx, iter_idx),
                path@,
            ));
        }
    }
}

impl FatTreeRouter for SystemRouter {
    /// The route that is set up. A flow keeps the route that it was given.
    fn route(
        &mut self,
        topo: &FatTree,
        ctx: &MLContext,
        src: usize,
        dst: usize,
        flow_id: FlowId,
    ) -> (r: Result<Path, RouteFault>)
        ensures
            final(self).template_cache == old(self).template_cache,
            ({
                let cache = paths(old(self).path_cache@);
                if cache.contains_key(flow_id) {
                    r is Ok && r->Ok_0@ == cache[flow_id] && *final(self) == *old(self)
                } else {
                    let want = template_route(templates(old(self).template_cache@), ctx.waiting_flows@, flow_id);
                    &&& same_route(r, want)
                    &&& match want {
                        Ok(p) => paths(final(self).path_cache@) == cache.insert(flow_id, p),
                        Err(_) => *final(self) == *old(self),
                    }
                }
            }),
    {
        if let Some(p) = self.path_cache.get(&flow_id) {
            return Ok(copy_path(p));
        }
        let path = match ctx.waiting_flows.get(&flow_id) {
            None => {
                return Err(RouteFault::UnknownFlow(flow_id));
            },
            Some(w) => match self.template_cache.get(&(w.0, w.1, w.2)) {
                Some(p) => copy_path(p),
                None => {
                    return Err(RouteFault::NoRoute(flow_id));
                },
            },
        };
        let ghost before = self.path_cache@;
        let kept = copy_path(&path);
        self.path_cache.insert(flow_id, kept);
        proof {
            assert(paths(self.path_cache@) =~= paths(before).insert(flow_id, path@));
        }
        Ok(path)
    }

    fn complete_flow(&mut self, flow_id: FlowId)
        ensures
            final(self).template_cache == old(self).template_cache,
            final(self).path_cache@ == old(self).path_cache@.remove(flow_id),
    {
        self.path_cache.remove(&flow_id);
    }
}

} // verus!
