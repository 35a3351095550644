//! Rail-optimised networks. Hosts are the GPUs of servers; the GPUs of a server are linked to each
//! other. In a pod there is a rail switch for each place in a server, linked to the GPUs at that
//! place; every rail switch is linked to every spine.
//!
//! Nodes are numbered: GPUs first, pod by pod and server by server, then the rail switches pod by
//! pod, then the spines.

use vstd::arithmetic::div_mod::{lemma_fundamental_div_mod, lemma_fundamental_div_mod_converse};
use vstd::prelude::*;

use crate::network::graph::{lemma_last_link, link_id, LinkGraph, MAX_GRAPH};
use crate::simulator::context::MLContext;
use crate::simulator::ml_worker::FlowId;
use crate::spine::topology::{Path, RouteFault};

verus! {

/// The size of a rail network.
pub struct RailSize {
    /// GPUs in a server, and rail switches in a pod.
    pub block_size: nat,
    /// Servers in a pod.
    pub blocks_per_pod: nat,
    pub num_pods: nat,
    pub num_spines: nat,
}

impl RailSize {
    /// Number of servers.
    pub open spec fn blocks(self) -> nat {
        self.num_pods * self.blocks_per_pod
    }

    /// Number of GPUs.
    pub open spec fn gpus(self) -> nat {
        self.blocks() * self.block_size
    }

    /// Number of rail switches.
    pub open spec fn rails(self) -> nat {
        self.num_pods * self.block_size
    }

    /// Number of nodes.
    pub open spec fn nodes(self) -> nat {
        self.gpus() + self.rails() + self.num_spines
    }

    /// Number of links within a server.
    pub open spec fn inner_links(self) -> nat {
        if self.block_size == 0 {
            0
        } else {
            self.block_size * (self.block_size - 1) as nat
        }
    }

    /// Where the links between GPUs and rail switches begin.
    pub open spec fn rail_base(self) -> nat {
        self.blocks() * self.inner_links()
    }

    /// Where the links between rail switches and spines begin.
    pub open spec fn spine_base(self) -> nat {
        self.rail_base() + 2 * self.gpus()
    }

    /// Number of links.
    pub open spec fn links(self) -> nat {
        self.spine_base() + 2 * (self.rails() * self.num_spines)
    }

    /// The server of a GPU.
    pub open spec fn block_of(self, gpu: int) -> int {
        gpu / self.block_size as int
    }

    /// The pod of a GPU.
    pub open spec fn pod_of(self, gpu: int) -> int {
        self.block_of(gpu) / self.blocks_per_pod as int
    }

    /// The place of a GPU in its server.
    pub open spec fn offset_of(self, gpu: int) -> int {
        gpu % self.block_size as int
    }

    /// The rail switch of a place in a pod, as a node.
    pub open spec fn rail_node(self, pod: int, rail: int) -> int {
        self.gpus() + pod * self.block_size + rail
    }

    /// The GPU at a place in a server.
    pub open spec fn gpu_node(self, block: int, gpu: int) -> int {
        block * self.block_size + gpu
    }

    /// The ends of the link with a number, if the links within servers come first.
    pub open spec fn inner_ends(self, id: int) -> (int, int) {
        let per = self.inner_links() as int;
        let others = self.block_size - 1;
        let block = id / per;
        let src = (id % per) / others;
        let nth = (id % per) % others;
        let dst = if nth < src {
            nth
        } else {
            nth + 1
        };
        (self.gpu_node(block, src), self.gpu_node(block, dst))
    }

    /// The ends of the link with a number: within the servers, then from and to the rail switch of
    /// each GPU in turn, then from and to each spine, rail switch by rail switch.
    pub open spec fn ends(self, id: int) -> (int, int) {
        if id < self.rail_base() {
            self.inner_ends(id)
        } else if id < self.spine_base() {
            let k = id - self.rail_base();
            let gpu = k / 2;
            let rail = self.rail_node(self.pod_of(gpu), self.offset_of(gpu));
            if k % 2 == 0 {
                (gpu, rail)
            } else {
                (rail, gpu)
            }
        } else {
            let k = id - self.spine_base();
            let mesh = k / 2;
            let rail = self.gpus() + mesh / self.num_spines as int;
            let spine = self.gpus() + self.rails() + mesh % self.num_spines as int;
            if k % 2 == 0 {
                (rail, spine)
            } else {
                (spine, rail)
            }
        }
    }

    /// All links.
    pub open spec fn all_links(self) -> Seq<(usize, usize, usize)> {
        Seq::new(self.links(), |id: int| (self.ends(id).0 as usize, self.ends(id).1 as usize, id as usize))
    }

    /// The numbers can be used as indices.
    pub open spec fn fits(self) -> bool {
        self.nodes() <= MAX_GRAPH && self.links() <= MAX_GRAPH
    }
}

/// A number below a product has a quotient below the one factor and a remainder below the other.
proof fn lemma_split(x: int, a: int, b: int)
    requires
        0 <= x < a * b,
        a >= 0,
        b >= 0,
    ensures
        a > 0,
        b > 0,
        0 <= x / b,
        x / b < a,
        0 <= x % b < b,
        x == (x / b) * b + x % b,
{
    assert(a > 0 && b > 0) by (nonlinear_arith)
        requires
            0 <= x < a * b,
            a >= 0,
            b >= 0,
    ;
    lemma_fundamental_div_mod(x, b);
    assert(0 <= x / b && x / b < a && x == (x / b) * b + x % b) by (nonlinear_arith)
        requires
            0 <= x < a * b,
            b > 0,
            x == b * (x / b) + x % b,
            0 <= x % b < b,
    ;
}

/// The place of a GPU among servers and pods.
pub proof fn lemma_gpu(s: RailSize, gpu: int)
    requires
        0 <= gpu < s.gpus(),
    ensures
        s.block_size > 0,
        s.blocks_per_pod > 0,
        0 <= s.block_of(gpu) < s.blocks(),
        0 <= s.offset_of(gpu) < s.block_size,
        gpu == s.gpu_node(s.block_of(gpu), s.offset_of(gpu)),
        0 <= s.pod_of(gpu) < s.num_pods,
        s.gpus() <= s.rail_node(s.pod_of(gpu), s.offset_of(gpu)) < s.gpus() + s.rails(),
{
    lemma_split(gpu, s.blocks() as int, s.block_size as int);
    lemma_split(s.block_of(gpu), s.num_pods as int, s.blocks_per_pod as int);
    lemma_rail(s, s.pod_of(gpu), s.offset_of(gpu));
}

/// A rail switch is a node.
pub proof fn lemma_rail(s: RailSize, pod: int, rail: int)
    requires
        0 <= pod < s.num_pods,
        0 <= rail < s.block_size,
    ensures
        s.gpus() <= s.rail_node(pod, rail) < s.gpus() + s.rails(),
{
    assert(0 <= pod * s.block_size && pod * s.block_size + rail < s.num_pods * s.block_size) by (nonlinear_arith)
        requires
            0 <= pod < s.num_pods,
            0 <= rail < s.block_size,
    ;
}

/// A GPU at a place in a server is a node.
pub proof fn lemma_gpu_node(s: RailSize, block: int, gpu: int)
    requires
        0 <= block < s.blocks(),
        0 <= gpu < s.block_size,
    ensures
        0 <= s.gpu_node(block, gpu) < s.gpus(),
        s.block_of(s.gpu_node(block, gpu)) == block,
        s.offset_of(s.gpu_node(block, gpu)) == gpu,
{
    assert(0 <= block * s.block_size && block * s.block_size + gpu < s.blocks() * s.block_size) by (nonlinear_arith)
        requires
            0 <= block < s.blocks(),
            0 <= gpu < s.block_size,
    ;
    lemma_fundamental_div_mod_converse(block * s.block_size + gpu, s.block_size as int, block, gpu);
}

/// The ends of a link are nodes of the right kind.
proof fn lemma_rail_ends(s: RailSize, id: int)
    requires
        0 <= id < s.links(),
    ensures
        0 <= s.ends(id).0 < s.nodes(),
        0 <= s.ends(id).1 < s.nodes(),
        id < s.rail_base() ==> {
            let per = s.inner_links() as int;
            let others = s.block_size - 1;
            &&& per > 0
            &&& others > 0
            &&& 0 <= id / per < s.blocks()
            &&& 0 <= id % per < per
            &&& 0 <= (id % per) / others < s.block_size
            &&& 0 <= (id % per) % others < others
            &&& id == (id / per) * per + ((id % per) / others) * others + (id % per) % others
            &&& 0 <= s.ends(id).0 < s.gpus()
            &&& 0 <= s.ends(id).1 < s.gpus()
            &&& s.block_of(s.ends(id).0) == id / per
            &&& s.offset_of(s.ends(id).0) == (id % per) / others
            &&& s.block_of(s.ends(id).1) == id / per
            &&& s.offset_of(s.ends(id).1) == (if (id % per) % others < (id % per) / others {
                (id % per) % others
            } else {
                (id % per) % others + 1
            })
        },
        s.rail_base() <= id < s.spine_base() ==> {
            let gpu = (id - s.rail_base()) / 2;
            &&& 0 <= gpu < s.gpus()
            &&& s.block_size > 0
            &&& s.blocks_per_pod > 0
            &&& s.gpus() <= s.rail_node(s.pod_of(gpu), s.offset_of(gpu)) < s.gpus() + s.rails()
        },
        s.spine_base() <= id ==> {
            let mesh = (id - s.spine_base()) / 2;
            &&& s.num_spines > 0
            &&& 0 <= mesh / s.num_spines as int
            &&& (mesh / s.num_spines as int) < s.rails()
            &&& 0 <= mesh % (s.num_spines as int) < s.num_spines
            &&& mesh == (mesh / s.num_spines as int) * s.num_spines + mesh % s.num_spines as int
        },
{
    if id < s.rail_base() {
        let per = s.inner_links() as int;
        lemma_split(id, s.blocks() as int, per);
        let others = s.block_size - 1;
        assert(others >= 0);
        lemma_split(id % per, s.block_size as int, others);
        let src = (id % per) / others;
        let nth = (id % per) % others;
        let dst = if nth < src {
            nth
        } else {
            nth + 1
        };
        lemma_gpu_node(s, id / per, src);
        lemma_gpu_node(s, id / per, dst);
    } else if id < s.spine_base() {
        let gpu = (id - s.rail_base()) / 2;
        lemma_gpu(s, gpu);
    } else {
        let mesh = (id - s.spine_base()) / 2;
        lemma_split(mesh, s.rails() as int, s.num_spines as int);
    }
}

/// A link that is the only one with its ends is found by them.
proof fn lemma_only_rail_link(s: RailSize, id: int)
    requires
        s.fits(),
        0 <= id < s.links(),
        forall|i: int| 0 <= i < s.links() && i != id ==> #[trigger] s.ends(i) != s.ends(id),
    ensures
        link_id(s.all_links(), s.ends(id).0 as usize, s.ends(id).1 as usize) == Some(id as usize),
{
    let links = s.all_links();
    let a = s.ends(id).0 as usize;
    let b = s.ends(id).1 as usize;
    lemma_rail_ends(s, id);
    lemma_last_link(links, a, b, links.len());
    assert(links[id].0 == a && links[id].1 == b);
    match crate::network::graph::last_link(links, a, b, links.len()) {
        Some(e) => {
            lemma_rail_ends(s, e as int);
            assert(s.ends(e as int) == s.ends(id));
        },
        None => {},
    }
}

/// A GPU is linked to its rail switch, and the switch to it.
pub proof fn lemma_rail_links(s: RailSize, gpu: int)
    requires
        s.fits(),
        0 <= gpu < s.gpus(),
    ensures
        ({
            let rail = s.rail_node(s.pod_of(gpu), s.offset_of(gpu));
            &&& link_id(s.all_links(), gpu as usize, rail as usize) == Some((s.rail_base() + 2 * gpu) as usize)
            &&& link_id(s.all_links(), rail as usize, gpu as usize) == Some((s.rail_base() + 2 * gpu + 1) as usize)
        }),
{
    let id = s.rail_base() + 2 * gpu;
    lemma_rail_ends(s, id);
    lemma_rail_ends(s, id + 1);
    assert forall|i: int| 0 <= i < s.links() && i != id implies #[trigger] s.ends(i) != s.ends(id) by {
        lemma_rail_ends(s, i);
    }
    assert forall|i: int| 0 <= i < s.links() && i != id + 1 implies #[trigger] s.ends(i) != s.ends(id + 1) by {
        lemma_rail_ends(s, i);
    }
    lemma_only_rail_link(s, id);
    lemma_only_rail_link(s, id + 1);
}

/// Every rail switch is linked to every spine, and every spine to every rail switch.
pub proof fn lemma_rail_mesh_links(s: RailSize, rail: int, spine: int)
    requires
        s.fits(),
        0 <= rail < s.rails(),
        0 <= spine < s.num_spines,
    ensures
        ({
            let id = s.spine_base() + 2 * (rail * s.num_spines + spine);
            let a = (s.gpus() + rail) as usize;
            let b = (s.gpus() + s.rails() + spine) as usize;
            &&& link_id(s.all_links(), a, b) == Some(id as usize)
            &&& link_id(s.all_links(), b, a) == Some((id + 1) as usize)
        }),
{
    let n = s.num_spines as int;
    let mesh = rail * n + spine;
    let id = s.spine_base() + 2 * mesh;
    assert(0 <= mesh < s.rails() * s.num_spines) by (nonlinear_arith)
        requires
            0 <= rail < s.rails(),
            0 <= spine < n,
            n == s.num_spines,
            mesh == rail * n + spine,
    ;
    lemma_fundamental_div_mod_converse(mesh, n, rail, spine);
    assert((id - s.spine_base()) / 2 == mesh);
    assert((id + 1 - s.spine_base()) / 2 == mesh);
    assert forall|i: int| 0 <= i < s.links() && i != id implies #[trigger] s.ends(i) != s.ends(id) by {
        lemma_rail_ends(s, i);
    }
    assert forall|i: int| 0 <= i < s.links() && i != id + 1 implies #[trigger] s.ends(i) != s.ends(id + 1) by {
        lemma_rail_ends(s, i);
    }
    lemma_only_rail_link(s, id);
    lemma_only_rail_link(s, id + 1);
}

/// The number of the link between two GPUs of a server.
pub open spec fn inner_link(s: RailSize, block: int, src: int, dst: int) -> int {
    block * s.inner_links() + src * (s.block_size - 1) + (if dst < src {
        dst
    } else {
        dst - 1
    })
}

/// Two GPUs of a server are linked.
pub proof fn lemma_inner_links(s: RailSize, block: int, src: int, dst: int)
    requires
        s.fits(),
        0 <= block < s.blocks(),
        0 <= src < s.block_size,
        0 <= dst < s.block_size,
        src != dst,
    ensures
        link_id(s.all_links(), s.gpu_node(block, src) as usize, s.gpu_node(block, dst) as usize) == Some(
            inner_link(s, block, src, dst) as usize,
        ),
{
    let per = s.inner_links() as int;
    let others = s.block_size - 1;
    let nth = if dst < src {
        dst
    } else {
        dst - 1
    };
    let id = inner_link(s, block, src, dst);
    assert(0 <= src * others + nth && src * others + nth < per) by (nonlinear_arith)
        requires
            0 <= src < s.block_size,
            0 <= nth < others,
            others == s.block_size - 1,
            per == s.block_size * others,
    ;
    assert(0 <= id < s.blocks() * s.inner_links()) by (nonlinear_arith)
        requires
            0 <= block < s.blocks(),
            0 <= src * others + nth < per,
            per == s.inner_links(),
            id == block * s.inner_links() + (src * others + nth),
    ;
    lemma_fundamental_div_mod_converse(id, per, block, src * others + nth);
    lemma_fundamental_div_mod_converse(src * others + nth, others, src, nth);
    lemma_rail_ends(s, id);
    assert(s.ends(id) == (s.gpu_node(block, src), s.gpu_node(block, dst)));
    assert forall|i: int| 0 <= i < s.links() && i != id implies #[trigger] s.ends(i) != s.ends(id) by {
        lemma_rail_ends(s, i);
    }
    lemma_only_rail_link(s, id);
}

/// A rail network.
pub struct RailTree {
    pub graph: LinkGraph,
    pub block_size: usize,
    pub blocks_per_pod: usize,
    pub num_pods: usize,
    pub num_spines: usize,
}

/// Finds routes in a rail network. Nothing is assumed of what it answers.
pub trait RailTreeRouter: Sized {
    /// The route of a flow from one GPU to another.
    fn route(
        &mut self,
        topo: &RailTree,
        ctx: &MLContext,
        src: usize,
        dst: usize,
        flow_id: FlowId,
    ) -> (r: Result<Path, RouteFault>)
        requires
            topo.wf(),
            topo.num_spines > 0 || topo.size().pod_of(src as int) == topo.size().pod_of(dst as int),
            src < topo.size().gpus(),
            dst < topo.size().gpus(),
            src != dst,
    ;

    /// The flow is through.
    fn complete_flow(&mut self, flow_id: FlowId);
}

impl RailTree {
    /// The size of the network.
    pub open spec fn size(&self) -> RailSize {
        RailSize {
            block_size: self.block_size as nat,
            blocks_per_pod: self.blocks_per_pod as nat,
            num_pods: self.num_pods as nat,
            num_spines: self.num_spines as nat,
        }
    }

    /// The graph is that of a network of this size.
    pub open spec fn wf(&self) -> bool {
        &&& self.size().fits()
        &&& self.num_pods * self.blocks_per_pod <= usize::MAX
        &&& self.blocks_per_pod * self.block_size <= usize::MAX
        &&& self.graph.num_nodes() == self.size().nodes()
        &&& self.graph.links() == self.size().all_links()
    }

    /// Builds the network.
    pub fn new(block_size: usize, blocks_per_pod: usize, num_pods: usize, num_spines: usize) -> (r: Self)
        requires
            (RailSize {
                block_size: block_size as nat,
                blocks_per_pod: blocks_per_pod as nat,
                num_pods: num_pods as nat,
                num_spines: num_spines as nat,
            }).fits(),
            num_pods * blocks_per_pod <= usize::MAX,
            blocks_per_pod * block_size <= usize::MAX,
        ensures
            r.wf(),
            r.block_size == block_size,
            r.blocks_per_pod == blocks_per_pod,
            r.num_pods == num_pods,
            r.num_spines == num_spines,
    {
        let ghost s = RailSize {
            block_size: block_size as nat,
            blocks_per_pod: blocks_per_pod as nat,
            num_pods: num_pods as nat,
            num_spines: num_spines as nat,
        };
        let blocks: usize = num_pods * blocks_per_pod;
        let gpus: usize = blocks * block_size;
        let rails: usize = num_pods * block_size;
        let nodes: usize = gpus + rails + num_spines;
        let mut graph = LinkGraph::new();
        let mut i: usize = 0;
        while i < nodes
            invariant
                i <= nodes <= MAX_GRAPH,
                graph.num_nodes() == i,
                graph.links() == Seq::<(usize, usize, usize)>::empty(),
            decreases nodes - i,
        {
            graph.add_node();
            i += 1;
        }
        proof {
            assert(blocks == 0 ==> s.rail_base() == 0) by (nonlinear_arith)
                requires
                    s.rail_base() == blocks * s.inner_links(),
            ;
            assert(blocks > 0 ==> s.inner_links() <= s.rail_base()) by (nonlinear_arith)
                requires
                    s.rail_base() == blocks * s.inner_links(),
            ;
        }
        let per: usize = if block_size == 0 || blocks == 0 {
            0
        } else {
            block_size * (block_size - 1)
        };
        let rail_base: usize = blocks * per;
        let spine_base: usize = rail_base + 2 * gpus;
        let total: usize = spine_base + 2 * (rails * num_spines);
        proof {
            assert(rail_base == s.rail_base());
            assert(graph.links() =~= s.all_links().take(0));
        }
        let mut id: usize = 0;
        while id < total
            invariant
                id <= total,
                total == s.links(),
                blocks == s.blocks(),
                gpus == s.gpus(),
                rails == s.rails(),
                nodes == s.nodes(),
                rail_base == s.rail_base(),
                spine_base == s.spine_base(),
                blocks > 0 ==> per == s.inner_links(),
                s.block_size == block_size,
                s.blocks_per_pod == blocks_per_pod,
                s.num_pods == num_pods,
                s.num_spines == num_spines,
                s.fits(),
                graph.num_nodes() == nodes,
                graph.links() == s.all_links().take(id as int),
            decreases total - id,
        {
            proof {
                lemma_rail_ends(s, id as int);
            }
            if id < rail_base {
                let block: usize = id / per;
                let src: usize = (id % per) / (block_size - 1);
                let nth: usize = (id % per) % (block_size - 1);
                let dst: usize = if nth < src {
                    nth
                } else {
                    nth + 1
                };
                proof {
                    lemma_gpu_node(s, block as int, src as int);
                    lemma_gpu_node(s, block as int, dst as int);
                    lemma_gpu_node(s, block as int, 0);
                }
                graph.add_link(block * block_size + src, block * block_size + dst, id);
            } else if id < spine_base {
                let gpu: usize = (id - rail_base) / 2;
                let pod: usize = gpu / block_size / blocks_per_pod;
                proof {
                    lemma_gpu(s, gpu as int);
                    lemma_rail(s, pod as int, 0);
                }
                let rail: usize = gpus + pod * block_size + gpu % block_size;
                if (id - rail_base) % 2 == 0 {
                    graph.add_link(gpu, rail, id);
                } else {
                    graph.add_link(rail, gpu, id);
                }
            } else {
                let mesh: usize = (id - spine_base) / 2;
                let rail: usize = gpus + mesh / num_spines;
                let spine: usize = gpus + rails + mesh % num_spines;
                if (id - spine_base) % 2 == 0 {
                    graph.add_link(rail, spine, id);
                } else {
                    graph.add_link(spine, rail, id);
                }
            }
            proof {
                assert(graph.links() =~= s.all_links().take(id + 1));
            }
            id += 1;
        }
        proof {
            assert(s.all_links().take(total as int) =~= s.all_links());
        }
        RailTree { graph, block_size, blocks_per_pod, num_pods, num_spines }
    }
}

impl RailTree {
    /// Number of GPUs.
    pub fn total_gpus(&self) -> (r: usize)
        requires
            self.wf(),
        ensures
            r == self.size().gpus(),
    {
        self.num_pods * self.blocks_per_pod * self.block_size
    }

    /// Number of hosts: every GPU is one.
    pub fn total_hosts(&self) -> (r: usize)
        requires
            self.wf(),
        ensures
            r == self.size().gpus(),
    {
        self.total_gpus()
    }

    /// Number of GPUs in a pod.
    pub fn gpus_per_pod(&self) -> (r: usize)
        requires
            self.wf(),
        ensures
            r == self.block_size * self.blocks_per_pod,
    {
        proof {
            assert(self.block_size * self.blocks_per_pod == self.blocks_per_pod * self.block_size) by (nonlinear_arith);
        }
        self.block_size * self.blocks_per_pod
    }

    /// Number of rail switches in a pod.
    pub fn num_rails_per_pod(&self) -> (r: usize)
        ensures
            r == self.block_size,
    {
        self.block_size
    }

    /// The node of a host.
    pub fn get_host_by_index(&self, index: usize) -> (r: Option<usize>)
        requires
            self.wf(),
        ensures
            r == if index < self.size().gpus() {
                Some(index)
            } else {
                None
            },
    {
        if index < self.total_gpus() {
            Some(index)
        } else {
            None
        }
    }

    /// The node of a GPU.
    pub fn get_host(&self, pod: usize, block: usize, gpu: usize) -> (r: Option<usize>)
        requires
            self.wf(),
        ensures
            r is Some == (pod < self.num_pods && block < self.blocks_per_pod && gpu < self.block_size),
            r matches Some(n) ==> {
                &&& n == self.size().gpu_node(pod * self.blocks_per_pod + block, gpu as int)
                &&& n < self.size().gpus()
                &&& self.size().block_of(n as int) == pod * self.blocks_per_pod + block
                &&& self.size().pod_of(n as int) == pod
                &&& self.size().offset_of(n as int) == gpu
            },
    {
        if pod < self.num_pods && block < self.blocks_per_pod && gpu < self.block_size {
            proof {
                let s = self.size();
                let b = self.blocks_per_pod as int;
                let nth = pod * b + block;
                assert(0 <= pod * b && nth < s.num_pods * s.blocks_per_pod) by (nonlinear_arith)
                    requires
                        pod < s.num_pods,
                        block < b,
                        b == s.blocks_per_pod,
                        nth == pod * b + block,
                ;
                lemma_fundamental_div_mod_converse(nth, b, pod as int, block as int);
                lemma_gpu_node(s, nth, gpu as int);
                lemma_gpu_node(s, nth, 0);
            }
            Some((pod * self.blocks_per_pod + block) * self.block_size + gpu)
        } else {
            None
        }
    }

    /// The node of a rail switch.
    pub fn get_rail(&self, pod: usize, rail: usize) -> (r: Option<usize>)
        requires
            self.wf(),
        ensures
            r is Some == (pod < self.num_pods && rail < self.block_size),
            r matches Some(n) ==> n == self.size().rail_node(pod as int, rail as int) && self.size().gpus() <= n
                < self.size().gpus() + self.size().rails(),
    {
        if pod < self.num_pods && rail < self.block_size {
            proof {
                lemma_rail(self.size(), pod as int, rail as int);
                lemma_rail(self.size(), pod as int, 0);
            }
            Some(self.total_gpus() + pod * self.block_size + rail)
        } else {
            None
        }
    }

    /// The node of a spine.
    pub fn get_spine(&self, spine: usize) -> (r: usize)
        requires
            self.wf(),
            spine < self.num_spines,
        ensures
            r == self.size().gpus() + self.size().rails() + spine,
    {
        self.total_gpus() + self.num_pods * self.block_size + spine
    }

    /// The pod of a GPU.
    pub fn host_pod(&self, host: usize) -> (r: usize)
        requires
            self.wf(),
            host < self.size().gpus(),
        ensures
            r == self.size().pod_of(host as int),
            r < self.num_pods,
    {
        proof {
            lemma_gpu(self.size(), host as int);
        }
        host / self.block_size / self.blocks_per_pod
    }

    /// The place of a GPU's server in its pod.
    pub fn host_block_in_pod(&self, host: usize) -> (r: usize)
        requires
            self.wf(),
            host < self.size().gpus(),
        ensures
            r == self.size().block_of(host as int) % self.blocks_per_pod as int,
            r < self.blocks_per_pod,
    {
        proof {
            lemma_gpu(self.size(), host as int);
        }
        (host / self.block_size) % self.blocks_per_pod
    }

    /// The place of a GPU in its server.
    pub fn host_gpu_offset(&self, host: usize) -> (r: usize)
        requires
            self.wf(),
            host < self.size().gpus(),
        ensures
            r == self.size().offset_of(host as int),
            r < self.block_size,
    {
        proof {
            lemma_gpu(self.size(), host as int);
        }
        host % self.block_size
    }

    /// The server of a GPU.
    pub fn host_block_global(&self, host: usize) -> (r: usize)
        requires
            self.wf(),
            host < self.size().gpus(),
        ensures
            r == self.size().block_of(host as int),
    {
        proof {
            lemma_gpu(self.size(), host as int);
        }
        host / self.block_size
    }

    /// The pod and the place of a rail switch that is given as a node.
    pub fn rail_coords_from_node(&self, rail: usize) -> (r: (usize, usize))
        requires
            self.wf(),
            self.size().gpus() <= rail < self.size().gpus() + self.size().rails(),
        ensures
            r.0 < self.num_pods,
            r.1 < self.block_size,
            rail == self.size().rail_node(r.0 as int, r.1 as int),
    {
        let flat: usize = rail - self.total_gpus();
        proof {
            lemma_split(flat as int, self.num_pods as int, self.block_size as int);
        }
        (flat / self.block_size, flat % self.block_size)
    }

    /// The number of a rail switch that is given as a node.
    pub fn rail_global_index(&self, rail: usize) -> (r: usize)
        requires
            self.wf(),
            self.size().gpus() <= rail < self.size().gpus() + self.size().rails(),
        ensures
            r == rail - self.size().gpus(),
    {
        rail - self.total_gpus()
    }
}

} // verus!
