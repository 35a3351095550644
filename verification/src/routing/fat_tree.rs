//! Fat trees: hosts below top-of-rack switches, aggregation switches in each pod, and core switches.

use vstd::prelude::*;

use crate::network::graph::{connected, path_links, LinkGraph, LinkId, MAX_GRAPH};
use crate::simulator::context::MLContext;
use crate::simulator::ml_worker::FlowId;
use crate::spine::topology::{Path, RouteFault};

verus! {

/// A fat tree. Hosts come first among the nodes.
pub struct FatTree {
    pub graph: LinkGraph,
    /// The top-of-rack switch of each host.
    pub host_tor: Vec<usize>,
    /// The pod of each host.
    pub host_pod: Vec<usize>,
    /// The aggregation switches of each pod.
    pub aggs: Vec<Vec<usize>>,
    pub cores: Vec<usize>,
    /// Aggregation switches in a pod.
    pub degree_agg: usize,
    /// Core switches that an aggregation switch is linked with.
    pub degree_core: usize,
}

/// The value of a `FatTree`.
pub struct FatTreeView {
    pub num_nodes: nat,
    pub links: Seq<(usize, usize, usize)>,
    pub host_tor: Seq<usize>,
    pub host_pod: Seq<usize>,
    pub aggs: Seq<Seq<usize>>,
    pub cores: Seq<usize>,
    pub degree_agg: nat,
    pub degree_core: nat,
}

impl View for FatTree {
    type V = FatTreeView;

    open spec fn view(&self) -> FatTreeView {
        FatTreeView {
            num_nodes: self.graph.num_nodes(),
            links: self.graph.links(),
            host_tor: self.host_tor@,
            host_pod: self.host_pod@,
            aggs: self.aggs@.map_values(|a: Vec<usize>| a@),
            cores: self.cores@,
            degree_agg: self.degree_agg as nat,
            degree_core: self.degree_core as nat,
        }
    }
}

impl FatTree {
    /// The tables speak of nodes of the graph.
    pub open spec fn wf(&self) -> bool {
        let n = self.graph.num_nodes();
        &&& n <= MAX_GRAPH
        &&& self.graph.links().len() <= MAX_GRAPH
        &&& self.host_tor@.len() == self.host_pod@.len()
        &&& self.host_tor@.len() <= n
        &&& forall|h: int| 0 <= h < self.host_tor@.len() ==> (#[trigger] self.host_tor@[h]) < n
        &&& forall|h: int| 0 <= h < self.host_pod@.len() ==> (#[trigger] self.host_pod@[h]) < self.aggs@.len()
        &&& forall|p: int| 0 <= p < self.aggs@.len() ==> (#[trigger] self.aggs@[p])@.len() == self.degree_agg
        &&& forall|p: int, a: int|
            0 <= p < self.aggs@.len() && 0 <= a < self.degree_agg ==> (#[trigger] self.aggs@[p]@[a]) < n
        &&& forall|c: int| 0 <= c < self.cores@.len() ==> (#[trigger] self.cores@[c]) < n
    }

    /// Number of hosts.
    pub open spec fn hosts(&self) -> nat {
        self.host_tor@.len()
    }
}

/// The links along nodes, if they are linked.
pub open spec fn link_path(t: FatTreeView, nodes: Seq<usize>) -> Option<Seq<LinkId>> {
    if connected(t.links, nodes) {
        Some(path_links(t.links, nodes, nodes.len()))
    } else {
        None
    }
}

/// The nodes between hosts below one switch.
pub open spec fn near_nodes(t: FatTreeView, src: int, dst: int) -> Seq<usize> {
    seq![src as usize, t.host_tor[src], dst as usize]
}

/// The nodes between hosts in one pod.
pub open spec fn pod_nodes(t: FatTreeView, src: int, dst: int, agg: int) -> Seq<usize> {
    seq![src as usize, t.host_tor[src], t.aggs[t.host_pod[src] as int][agg], t.host_tor[dst], dst as usize]
}

/// The nodes between hosts in different pods.
pub open spec fn far_nodes(t: FatTreeView, src: int, dst: int, up: int, core: int, down: int) -> Seq<usize> {
    seq![
        src as usize,
        t.host_tor[src],
        t.aggs[t.host_pod[src] as int][up],
        t.cores[core],
        t.aggs[t.host_pod[dst] as int][down],
        t.host_tor[dst],
        dst as usize,
    ]
}

impl FatTree {
    /// The links between hosts below one switch.
    pub fn near_path(&self, src: usize, dst: usize) -> (r: Option<Path>)
        requires
            self.wf(),
            src < self.hosts(),
            dst < self.hosts(),
        ensures
            same_links(r, link_path(self@, near_nodes(self@, src as int, dst as int))),
    {
        let mut nodes: Vec<usize> = Vec::new();
        nodes.push(src);
        nodes.push(self.host_tor[src]);
        nodes.push(dst);
        assert(nodes@ =~= near_nodes(self@, src as int, dst as int));
        self.graph.convert_path(&nodes)
    }

    /// The links between hosts in one pod.
    pub fn pod_path(&self, src: usize, dst: usize, agg: usize) -> (r: Option<Path>)
        requires
            self.wf(),
            src < self.hosts(),
            dst < self.hosts(),
            agg < self.degree_agg,
        ensures
            same_links(r, link_path(self@, pod_nodes(self@, src as int, dst as int, agg as int))),
    {
        let pod: usize = self.host_pod[src];
        let mut nodes: Vec<usize> = Vec::new();
        nodes.push(src);
        nodes.push(self.host_tor[src]);
        nodes.push(self.aggs[pod][agg]);
        nodes.push(self.host_tor[dst]);
        nodes.push(dst);
        assert(nodes@ =~= pod_nodes(self@, src as int, dst as int, agg as int));
        self.graph.convert_path(&nodes)
    }

    /// The links between hosts in different pods.
    pub fn far_path(&self, src: usize, dst: usize, up: usize, core: usize, down: usize) -> (r: Option<Path>)
        requires
            self.wf(),
            src < self.hosts(),
            dst < self.hosts(),
            up < self.degree_agg,
            down < self.degree_agg,
            core < self.cores@.len(),
        ensures
            same_links(
                r,
                link_path(self@, far_nodes(self@, src as int, dst as int, up as int, core as int, down as int)),
            ),
    {
        let src_pod: usize = self.host_pod[src];
        let dst_pod: usize = self.host_pod[dst];
        let mut nodes: Vec<usize> = Vec::new();
        nodes.push(src);
        nodes.push(self.host_tor[src]);
        nodes.push(self.aggs[src_pod][up]);
        nodes.push(self.cores[core]);
        nodes.push(self.aggs[dst_pod][down]);
        nodes.push(self.host_tor[dst]);
        nodes.push(dst);
        assert(nodes@ =~= far_nodes(self@, src as int, dst as int, up as int, core as int, down as int));
        self.graph.convert_path(&nodes)
    }
}

/// The same links, or none.
pub open spec fn same_links(r: Option<Path>, s: Option<Seq<LinkId>>) -> bool {
    match (r, s) {
        (Some(p), Some(q)) => p@ == q,
        (None, None) => true,
        _ => false,
    }
}

/// Finds routes in a fat tree. Nothing is assumed of what it answers.
pub trait FatTreeRouter: Sized {
    /// The route of a flow from one host to another.
    fn route(
        &mut self,
        topo: &FatTree,
        ctx: &MLContext,
        src: usize,
        dst: usize,
        flow_id: FlowId,
    ) -> (r: Result<Path, RouteFault>)
        requires
            topo.wf(),
            src < topo.hosts(),
            dst < topo.hosts(),
    ;

    /// The flow is through.
    fn complete_flow(&mut self, flow_id: FlowId);
}

} // verus!
