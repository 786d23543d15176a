//! CUDA backend placeholder: holds the graph data; every algorithm returns
//! an empty result until CUDA kernels are wired in.
use vstd::prelude::*;

verus! {

/// Graph data kept for a CUDA backend.
pub struct CudaGraph {
    n_nodes: usize,
    edges: Vec<(u32, u32)>,
}

impl View for CudaGraph {
    type V = (usize, Seq<(u32, u32)>);

    /// The node count and the edge list.
    closed spec fn view(&self) -> (usize, Seq<(u32, u32)>) {
        (self.n_nodes, self.edges@)
    }
}

impl CudaGraph {
    /// Keep the graph data; never fails.
    pub fn new(n_nodes: usize, edges: Vec<(u32, u32)>) -> (res: Result<Self, String>)
        ensures
            res matches Ok(g) && g@ == (n_nodes, edges@),
    {
        Ok(CudaGraph { n_nodes, edges })
    }

    /// Replace the graph data.
    pub fn load(&mut self, n_nodes: usize, edges: Vec<(u32, u32)>)
        ensures
            final(self)@ == (n_nodes, edges@),
    {
        self.n_nodes = n_nodes;
        self.edges = edges;
    }

    pub fn node_count(&self) -> (n: usize)
        ensures
            n == self@.0,
    {
        self.n_nodes
    }

    /// BFS: empty until a CUDA kernel is wired in.
    pub fn bfs(&self, _start: u32) -> (order: Vec<u32>)
        ensures
            order@ == Seq::<u32>::empty(),
    {
        Vec::new()
    }

    /// DFS: empty until a CUDA kernel is wired in.
    pub fn dfs(&self, _start: u32) -> (order: Vec<u32>)
        ensures
            order@ == Seq::<u32>::empty(),
    {
        Vec::new()
    }

    /// Shortest paths: empty until a CUDA kernel is wired in.
    pub fn shortest_paths(&self, _start: u32) -> (pairs: Vec<(u32, u32)>)
        ensures
            pairs@ == Seq::<(u32, u32)>::empty(),
    {
        Vec::new()
    }

    /// Topological sort: `None` until a CUDA kernel is wired in.
    pub fn topo_sort(&self) -> (res: Option<Vec<u32>>)
        ensures
            res is None,
    {
        None
    }
}

} // verus!
