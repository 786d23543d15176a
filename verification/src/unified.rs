//! One engine over three backends (WebGPU, CUDA, Vulkan), chosen by name,
//! plus the planner.
use vstd::prelude::*;
use crate::backends::cuda::CudaGraph;
use crate::backends::vulkan::VkGraph;
use crate::edges::{adjacency_of, stray_count};
use crate::gpu_graph::GpuGraph;
use crate::planner::GpuPlanner;
use crate::reach::{
    closed_from, is_bfs_order, is_dfs_order, is_distance_table, targets_in_range,
    is_kahn_order, has_cycle,
};

verus! {

/// The backend that graph algorithms are dispatched to.
#[derive(Clone, Copy, Debug, PartialEq, Eq, Structural)]
pub enum Backend {
    WebGpu,
    Cuda,
    Vulkan,
}

/// The backend a name selects: "cuda", "vulkan", and WebGPU for any other name.
pub open spec fn backend_of(name: Seq<char>) -> Backend {
    if name == "cuda"@ {
        Backend::Cuda
    } else if name == "vulkan"@ {
        Backend::Vulkan
    } else {
        Backend::WebGpu
    }
}

/// The backend a name selects.
pub fn backend_from_name(name: &str) -> (b: Backend)
    ensures
        b == backend_of(name@),
{
    let owned: String = name.to_owned();
    if owned == "cuda".to_owned() {
        Backend::Cuda
    } else if owned == "vulkan".to_owned() {
        Backend::Vulkan
    } else {
        Backend::WebGpu
    }
}

fn copy_edges(edges: &Vec<(u32, u32)>) -> (out: Vec<(u32, u32)>)
    ensures
        out@ == edges@,
{
    let mut out: Vec<(u32, u32)> = Vec::new();
    let mut i: usize = 0;
    while i < edges.len()
        invariant
            i <= edges@.len(),
            out@ == edges@.subrange(0, i as int),
        decreases edges@.len() - i,
    {
        out.push(edges[i]);
        i = i + 1;
        assert(out@ =~= edges@.subrange(0, i as int));
    }
    assert(edges@.subrange(0, edges@.len() as int) =~= edges@);
    out
}

/// Graph engine that dispatches each algorithm to the selected backend.
pub struct UnifiedGpu {
    backend: String,
    webgpu_graph: Option<GpuGraph>,
    cuda_graph: Option<CudaGraph>,
    vulkan_graph: Option<VkGraph>,
    planner: Option<GpuPlanner>,
}

impl UnifiedGpu {
    /// The name of the selected backend.
    pub closed spec fn backend_name(&self) -> Seq<char> {
        self.backend@
    }

    pub closed spec fn webgpu(&self) -> Option<GpuGraph> {
        self.webgpu_graph
    }

    pub closed spec fn cuda(&self) -> Option<CudaGraph> {
        self.cuda_graph
    }

    pub closed spec fn vulkan(&self) -> Option<VkGraph> {
        self.vulkan_graph
    }

    pub closed spec fn planner(&self) -> Option<GpuPlanner> {
        self.planner
    }

    /// The backend the selected name dispatches to.
    pub open spec fn selected(&self) -> Backend {
        backend_of(self.backend_name())
    }

    /// Create an engine for `backend` ("webgpu" when none is given), with
    /// empty graphs on every backend and a planner without a GPU device.
    pub fn new(backend: Option<String>) -> (u: Self)
        ensures
            u.backend_name() == (match backend {
                Some(name) => name@,
                None => "webgpu"@,
            }),
            u.webgpu() matches Some(g) && g.adjacency() == Seq::<Seq<u32>>::empty() && g.stray_edges() == 0,
            u.cuda() matches Some(c) && c@ == (0usize, Seq::<(u32, u32)>::empty()),
            u.vulkan() matches Some(v) && v@ == (0usize, Seq::<(u32, u32)>::empty()),
            u.planner() matches Some(p) && !p.has_device(),
    {
        let backend = match backend {
            Some(name) => name,
            None => "webgpu".to_owned(),
        };
        let cuda_graph = match CudaGraph::new(0, Vec::new()) {
            Ok(g) => Some(g),
            Err(_) => None,
        };
        let vulkan_graph = match VkGraph::new(0, Vec::new()) {
            Ok(g) => Some(g),
            Err(_) => None,
        };
        UnifiedGpu {
            backend,
            webgpu_graph: Some(GpuGraph::empty()),
            cuda_graph,
            vulkan_graph,
            planner: GpuPlanner::new(),
        }
    }

    /// Load (or replace) the graph on every backend that has one.
    pub fn load_graph(&mut self, n_nodes: usize, edges: Vec<(u32, u32)>)
        requires
            n_nodes < usize::MAX,
            edges@.len() <= u32::MAX,
        ensures
            final(self).backend_name() == old(self).backend_name(),
            final(self).planner() == old(self).planner(),
            final(self).webgpu() is Some == old(self).webgpu() is Some,
            final(self).webgpu() matches Some(g) ==> g.adjacency() == adjacency_of(n_nodes as nat, edges@)
                && g.stray_edges() == stray_count(edges@, n_nodes as int),
            final(self).cuda() is Some == old(self).cuda() is Some,
            final(self).cuda() matches Some(c) ==> c@ == (n_nodes, edges@),
            final(self).vulkan() is Some == old(self).vulkan() is Some,
            final(self).vulkan() matches Some(v) ==> v@ == (n_nodes, edges@),
    {
        let mut webgpu_graph = self.webgpu_graph.take();
        match webgpu_graph {
            Some(ref mut g) => g.load(n_nodes, copy_edges(&edges)),
            None => {},
        }
        self.webgpu_graph = webgpu_graph;
        let mut cuda_graph = self.cuda_graph.take();
        match cuda_graph {
            Some(ref mut g) => g.load(n_nodes, copy_edges(&edges)),
            None => {},
        }
        self.cuda_graph = cuda_graph;
        let mut vulkan_graph = self.vulkan_graph.take();
        match vulkan_graph {
            Some(ref mut g) => g.load(n_nodes, edges),
            None => {},
        }
        self.vulkan_graph = vulkan_graph;
    }

    /// BFS from `start` on the selected backend; returns visited node IDs in
    /// level order (empty on a backend without a graph or without a kernel).
    pub fn bfs(&self, start: u32) -> (order: Vec<u32>)
        requires
            self.selected() == Backend::WebGpu && self.webgpu() is Some && (start as int)
                < self.webgpu()->0.adjacency().len() ==> closed_from(self.webgpu()->0.adjacency(), start as int),
        ensures
            match (self.selected(), self.webgpu()) {
                (Backend::WebGpu, Some(g)) => {
                    &&& (start as int) >= g.adjacency().len() ==> order@.len() == 0
                    &&& (start as int) < g.adjacency().len() ==> is_bfs_order(g.adjacency(), start as int, order@)
                },
                _ => order@.len() == 0,
            },
    {
        match backend_from_name(self.backend.as_str()) {
            Backend::Cuda => match &self.cuda_graph {
                Some(g) => g.bfs(start),
                None => Vec::new(),
            },
            Backend::Vulkan => match &self.vulkan_graph {
                Some(g) => g.bfs(start),
                None => Vec::new(),
            },
            Backend::WebGpu => match &self.webgpu_graph {
                Some(g) => g.bfs(start),
                None => Vec::new(),
            },
        }
    }

    /// DFS from `start` on the selected backend; returns visited node IDs in
    /// depth-first pre-order (empty on a backend without a graph or kernel).
    pub fn dfs(&self, start: u32) -> (order: Vec<u32>)
        requires
            self.selected() == Backend::WebGpu && self.webgpu() is Some && (start as int)
                < self.webgpu()->0.adjacency().len() ==> closed_from(self.webgpu()->0.adjacency(), start as int),
        ensures
            match (self.selected(), self.webgpu()) {
                (Backend::WebGpu, Some(g)) => {
                    &&& (start as int) >= g.adjacency().len() ==> order@.len() == 0
                    &&& (start as int) < g.adjacency().len() ==> is_dfs_order(g.adjacency(), start as int, order@)
                },
                _ => order@.len() == 0,
            },
    {
        match backend_from_name(self.backend.as_str()) {
            Backend::Cuda => match &self.cuda_graph {
                Some(g) => g.dfs(start),
                None => Vec::new(),
            },
            Backend::Vulkan => match &self.vulkan_graph {
                Some(g) => g.dfs(start),
                None => Vec::new(),
            },
            Backend::WebGpu => match &self.webgpu_graph {
                Some(g) => g.dfs(start),
                None => Vec::new(),
            },
        }
    }

    /// Shortest-path distances from `start` on the selected backend:
    /// `(node, distance)` pairs by increasing node ID (empty when `start` is
    /// not a node).
    pub fn shortest_paths(&self, start: u32) -> (pairs: Vec<(u32, u32)>)
        requires
            self.selected() == Backend::WebGpu && self.webgpu() is Some ==> {
                &&& self.webgpu()->0.adjacency().len() <= u32::MAX
                &&& (start as int) < self.webgpu()->0.adjacency().len() ==> closed_from(
                    self.webgpu()->0.adjacency(),
                    start as int,
                )
            },
        ensures
            match (self.selected(), self.webgpu()) {
                (Backend::WebGpu, Some(g)) => {
                    &&& (start as int) >= g.adjacency().len() ==> pairs@.len() == 0
                    &&& (start as int) < g.adjacency().len() ==> is_distance_table(g.adjacency(), start as int, pairs@)
                },
                _ => pairs@.len() == 0,
            },
    {
        match backend_from_name(self.backend.as_str()) {
            Backend::Cuda => match &self.cuda_graph {
                Some(g) => g.shortest_paths(start),
                None => Vec::new(),
            },
            Backend::Vulkan => match &self.vulkan_graph {
                Some(g) => g.shortest_paths(start),
                None => Vec::new(),
            },
            Backend::WebGpu => match &self.webgpu_graph {
                Some(g) => g.shortest_paths(start),
                None => Vec::new(),
            },
        }
    }

    /// Topological sort on the selected backend; `None` if the graph has a
    /// cycle (and on a backend without a graph or kernel).
    pub fn topo_sort(&self) -> (res: Option<Vec<u32>>)
        requires
            self.selected() == Backend::WebGpu && self.webgpu() is Some ==> targets_in_range(
                self.webgpu()->0.adjacency(),
            ),
        ensures
            match (self.selected(), self.webgpu()) {
                (Backend::WebGpu, Some(g)) => {
                    &&& res is Some <==> g.adjacency().len() <= u32::MAX && !has_cycle(
                        g.adjacency(),
                    )
                    &&& res matches Some(order) ==> is_kahn_order(g.adjacency(), order@)
                },
                _ => res is None,
            },
    {
        match backend_from_name(self.backend.as_str()) {
            Backend::Cuda => match &self.cuda_graph {
                Some(g) => g.topo_sort(),
                None => None,
            },
            Backend::Vulkan => match &self.vulkan_graph {
                Some(g) => g.topo_sort(),
                None => None,
            },
            Backend::WebGpu => match &self.webgpu_graph {
                Some(g) => g.topo_sort(),
                None => None,
            },
        }
    }

    /// Run the planner pipeline on serialised block bytes; the block comes
    /// back unchanged (empty when there is no planner).
    pub fn plan(&self, block_bytes: &[u8]) -> (out: Vec<u8>)
        ensures
            out@ == (match self.planner() {
                Some(_) => block_bytes@,
                None => Seq::<u8>::empty(),
            }),
    {
        match &self.planner {
            Some(p) => p.run(block_bytes),
            None => Vec::new(),
        }
    }

    /// Whether the planner has a GPU device ready.
    pub fn planner_ready(&self) -> (b: bool)
        ensures
            b == (self.planner() matches Some(p) && p.has_device()),
    {
        match &self.planner {
            Some(p) => p.is_gpu_ready(),
            None => false,
        }
    }

    /// The WebGPU backend's graph, if there is one.
    pub fn webgpu_graph(&self) -> (g: Option<&GpuGraph>)
        ensures
            match (g, self.webgpu()) {
                (Some(r), Some(w)) => *r == w,
                (None, None) => true,
                _ => false,
            },
    {
        self.webgpu_graph.as_ref()
    }

    /// The selected backend's name.
    pub fn backend(&self) -> (name: &str)
        ensures
            name@ == self.backend_name(),
    {
        self.backend.as_str()
    }

    /// Select another backend by name.
    pub fn set_backend(&mut self, backend: String)
        ensures
            final(self).backend_name() == backend@,
            final(self).webgpu() == old(self).webgpu(),
            final(self).cuda() == old(self).cuda(),
            final(self).vulkan() == old(self).vulkan(),
            final(self).planner() == old(self).planner(),
    {
        self.backend = backend;
    }
}

} // verus!
