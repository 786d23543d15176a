use sovereign_gpu::backends::cuda::CudaGraph;
use sovereign_gpu::backends::vulkan::VkGraph;
use sovereign_gpu::csr::CsrGraph;
use sovereign_gpu::dispatch::{
    advance_frontier, bfs_seed, distance_seed, distance_table, workgroups, LevelSearch, RelaxPasses, WORKGROUP,
};
use sovereign_gpu::gpu_graph::GpuGraph;
use sovereign_gpu::planner::GpuPlanner;
use sovereign_gpu::unified::{backend_from_name, Backend, UnifiedGpu};

fn diamond() -> Vec<(u32, u32)> {
    vec![(0, 1), (0, 2), (1, 3), (2, 3), (3, 4)]
}

#[test]
fn from_edges_builds_rows() {
    let g = CsrGraph::from_edges(3, &[(0, 1), (0, 2), (1, 2)]);
    assert_eq!(g.n_nodes, 3);
    assert_eq!(g.row_ptr, vec![0, 2, 3, 3]);
    assert_eq!(g.col_idx, vec![1, 2, 2]);
}

#[test]
fn from_edges_keeps_edge_order_within_rows() {
    let g = CsrGraph::from_edges(3, &[(1, 0), (0, 2), (1, 2), (0, 1)]);
    assert_eq!(g.row_ptr, vec![0, 2, 4, 4]);
    assert_eq!(g.col_idx, vec![2, 1, 0, 2]);
}

#[test]
fn from_edges_leaves_stray_edges_out_of_rows() {
    let g = CsrGraph::from_edges(2, &[(0, 1), (5, 0), (1, 0)]);
    assert_eq!(g.row_ptr, vec![0, 1, 2]);
    assert_eq!(g.col_idx, vec![1, 0, 0]);
}

#[test]
fn from_edges_empty() {
    let g = CsrGraph::from_edges(0, &[]);
    assert_eq!(g.row_ptr, vec![0]);
    assert!(g.col_idx.is_empty());
}

#[test]
fn bfs_level_order() {
    let g = GpuGraph::new(5, diamond());
    assert_eq!(g.bfs(0), vec![0, 1, 2, 3, 4]);
    assert_eq!(g.bfs(3), vec![3, 4]);
    assert_eq!(g.bfs(4), vec![4]);
}

#[test]
fn bfs_start_outside_graph_is_empty() {
    let g = GpuGraph::new(5, diamond());
    assert_eq!(g.bfs(5), Vec::<u32>::new());
    assert_eq!(g.dfs(9), Vec::<u32>::new());
}

#[test]
fn bfs_visits_nearer_nodes_first() {
    // 0 -> 1 -> 2 -> 3 and a shortcut 0 -> 3
    let g = GpuGraph::new(4, vec![(0, 1), (1, 2), (2, 3), (0, 3)]);
    assert_eq!(g.bfs(0), vec![0, 1, 3, 2]);
}

#[test]
fn dfs_pre_order() {
    let g = GpuGraph::new(5, diamond());
    assert_eq!(g.dfs(0), vec![0, 1, 3, 4, 2]);
}

#[test]
fn dfs_and_bfs_visit_the_same_nodes() {
    let g = GpuGraph::new(6, vec![(0, 1), (1, 2), (2, 0), (2, 3), (4, 5)]);
    let mut b = g.bfs(0);
    let mut d = g.dfs(0);
    b.sort();
    d.sort();
    assert_eq!(b, d);
    assert_eq!(b, vec![0, 1, 2, 3]);
}

#[test]
fn shortest_paths_from_start() {
    let g = GpuGraph::new(5, diamond());
    assert_eq!(g.shortest_paths(0), vec![(0, 0), (1, 1), (2, 1), (3, 2), (4, 3)]);
    assert_eq!(g.shortest_paths(2), vec![(2, 0), (3, 1), (4, 2)]);
}

#[test]
fn shortest_paths_skip_unreachable_nodes() {
    let g = GpuGraph::new(4, vec![(1, 0), (0, 3)]);
    assert_eq!(g.shortest_paths(0), vec![(0, 0), (3, 1)]);
}

#[test]
fn shortest_paths_list_the_bfs_nodes() {
    let g = GpuGraph::new(6, vec![(0, 4), (4, 1), (1, 5), (0, 5)]);
    let mut nodes: Vec<u32> = g.shortest_paths(0).iter().map(|p| p.0).collect();
    let mut b = g.bfs(0);
    b.sort();
    nodes.sort();
    assert_eq!(nodes, b);
}

#[test]
fn topo_sort_of_dag() {
    let g = GpuGraph::new(5, diamond());
    assert_eq!(g.topo_sort(), Some(vec![0, 1, 2, 3, 4]));
}

#[test]
fn topo_sort_orders_every_edge_forward() {
    let edges = vec![(3, 1), (1, 0), (3, 2), (2, 0), (4, 3)];
    let g = GpuGraph::new(5, edges.clone());
    let order = g.topo_sort().unwrap();
    assert_eq!(order, vec![4, 3, 1, 2, 0]);
    let pos = |v: u32| order.iter().position(|&x| x == v).unwrap();
    for (u, v) in edges {
        assert!(pos(u) < pos(v));
    }
}

#[test]
fn topo_sort_lists_sources_first_by_id() {
    let g = GpuGraph::new(5, vec![(3, 1), (0, 2), (4, 2), (2, 1)]);
    assert_eq!(g.topo_sort(), Some(vec![0, 3, 4, 2, 1]));
}

#[test]
fn topo_sort_releases_neighbours_in_row_order() {
    let g = GpuGraph::new(4, vec![(0, 3), (0, 1), (0, 2)]);
    assert_eq!(g.topo_sort(), Some(vec![0, 3, 1, 2]));
    // A node comes once the last edge into it is taken.
    let g = GpuGraph::new(4, vec![(0, 2), (0, 1), (1, 2), (0, 3)]);
    assert_eq!(g.topo_sort(), Some(vec![0, 1, 3, 2]));
}

#[test]
fn traversals_agree_across_engines() {
    let edges = vec![(0, 3), (0, 1), (3, 2), (1, 2), (2, 4), (4, 0)];
    let g = GpuGraph::new(5, edges.clone());
    let mut u = UnifiedGpu::new(Some("webgpu".to_string()));
    u.load_graph(5, edges.clone());
    let mut h = GpuGraph::empty();
    h.load(5, edges);
    for s in 0..5u32 {
        assert_eq!(g.bfs(s), u.bfs(s));
        assert_eq!(g.bfs(s), h.bfs(s));
        assert_eq!(g.dfs(s), u.dfs(s));
        assert_eq!(g.dfs(s), h.dfs(s));
        assert_eq!(g.shortest_paths(s), u.shortest_paths(s));
    }
    assert_eq!(g.bfs(0), vec![0, 3, 1, 2, 4]);
    assert_eq!(g.dfs(0), vec![0, 3, 2, 4, 1]);
    assert_eq!(g.topo_sort(), None);
    assert_eq!(u.topo_sort(), None);
}

#[test]
fn topo_sort_of_cycle_is_none() {
    let g = GpuGraph::new(3, vec![(0, 1), (1, 2), (2, 0)]);
    assert_eq!(g.topo_sort(), None);
    let g = GpuGraph::new(1, vec![(0, 0)]);
    assert_eq!(g.topo_sort(), None);
}

#[test]
fn topo_sort_ignores_stray_edges() {
    // An edge whose source is not a node is in no row, so it adds no edge.
    let g = GpuGraph::new(2, vec![(0, 1), (7, 1)]);
    assert_eq!(g.topo_sort(), Some(vec![0, 1]));
    let g = GpuGraph::new(2, vec![(5, 1)]);
    assert_eq!(g.topo_sort(), Some(vec![0, 1]));
    let g = GpuGraph::new(0, vec![(4, 1)]);
    assert_eq!(g.topo_sort(), Some(vec![]));
}

#[test]
fn topo_sort_of_empty_graph() {
    let g = GpuGraph::empty();
    assert_eq!(g.topo_sort(), Some(vec![]));
}

#[test]
fn targets_are_nodes_checks_every_row() {
    assert!(GpuGraph::new(3, vec![(0, 1), (1, 2)]).targets_are_nodes());
    assert!(!GpuGraph::new(3, vec![(0, 1), (1, 3)]).targets_are_nodes());
    // A stray edge is in no row; its target is not checked.
    assert!(GpuGraph::new(0, vec![(4, 1)]).targets_are_nodes());
    assert!(GpuGraph::new(1, vec![(4, 9)]).targets_are_nodes());
}

#[test]
fn checked_searches_report_targets_outside_the_graph() {
    let g = GpuGraph::new(3, vec![(0, 1), (1, 7)]);
    assert_eq!(g.checked_bfs(0), None);
    assert_eq!(g.checked_dfs(0), None);
    assert_eq!(g.checked_shortest_paths(0), None);
    assert_eq!(g.checked_bfs(2), Some(vec![2]));
    assert_eq!(g.checked_dfs(2), Some(vec![2]));
    assert_eq!(g.checked_shortest_paths(2), Some(vec![(2, 0)]));
    assert_eq!(g.checked_bfs(3), Some(vec![]));
    assert_eq!(g.checked_shortest_paths(3), Some(vec![]));
}

#[test]
fn shortest_paths_from_a_start_outside_the_graph_is_empty() {
    let g = GpuGraph::new(5, diamond());
    assert_eq!(g.shortest_paths(5), Vec::<(u32, u32)>::new());
    assert_eq!(g.shortest_paths(u32::MAX), Vec::<(u32, u32)>::new());
    let mut u = UnifiedGpu::new(None);
    u.load_graph(5, diamond());
    assert_eq!(u.shortest_paths(9), Vec::<(u32, u32)>::new());
}

#[test]
fn load_replaces_the_graph() {
    let mut g = GpuGraph::empty();
    assert_eq!(g.bfs(0), Vec::<u32>::new());
    g.load(3, vec![(0, 2), (2, 1)]);
    assert_eq!(g.bfs(0), vec![0, 2, 1]);
    g.load(2, vec![(1, 0)]);
    assert_eq!(g.bfs(0), vec![0]);
    assert_eq!(g.bfs(1), vec![1, 0]);
}

#[test]
fn cuda_placeholder() {
    let mut g = CudaGraph::new(3, vec![(0, 1)]).unwrap();
    assert_eq!(g.node_count(), 3);
    assert!(g.bfs(0).is_empty());
    assert!(g.dfs(0).is_empty());
    assert!(g.shortest_paths(0).is_empty());
    assert_eq!(g.topo_sort(), None);
    g.load(7, vec![]);
    assert_eq!(g.node_count(), 7);
}

#[test]
fn vulkan_placeholder() {
    let mut g = VkGraph::new(2, vec![(0, 1)]).unwrap();
    assert_eq!(g.node_count(), 2);
    assert!(g.bfs(0).is_empty());
    assert!(g.dfs(1).is_empty());
    assert!(g.shortest_paths(0).is_empty());
    assert_eq!(g.topo_sort(), None);
    g.load(5, vec![(1, 2)]);
    assert_eq!(g.node_count(), 5);
}

#[test]
fn backend_names() {
    assert_eq!(backend_from_name("cuda"), Backend::Cuda);
    assert_eq!(backend_from_name("vulkan"), Backend::Vulkan);
    assert_eq!(backend_from_name("webgpu"), Backend::WebGpu);
    assert_eq!(backend_from_name("CUDA"), Backend::WebGpu);
    assert_eq!(backend_from_name(""), Backend::WebGpu);
}

#[test]
fn unified_dispatches_by_backend() {
    let mut u = UnifiedGpu::new(None);
    assert_eq!(u.backend(), "webgpu");
    u.load_graph(5, diamond());
    assert_eq!(u.bfs(0), vec![0, 1, 2, 3, 4]);
    assert_eq!(u.dfs(0), vec![0, 1, 3, 4, 2]);
    assert_eq!(u.shortest_paths(0), vec![(0, 0), (1, 1), (2, 1), (3, 2), (4, 3)]);
    assert_eq!(u.topo_sort(), Some(vec![0, 1, 2, 3, 4]));
    u.set_backend("cuda".to_string());
    assert_eq!(u.backend(), "cuda");
    assert!(u.bfs(0).is_empty());
    assert!(u.dfs(0).is_empty());
    assert!(u.shortest_paths(0).is_empty());
    assert_eq!(u.topo_sort(), None);
    u.set_backend("vulkan".to_string());
    assert!(u.bfs(0).is_empty());
    assert_eq!(u.topo_sort(), None);
    u.set_backend("anything".to_string());
    assert_eq!(u.bfs(3), vec![3, 4]);
}

#[test]
fn unified_named_backend() {
    let u = UnifiedGpu::new(Some("vulkan".to_string()));
    assert_eq!(u.backend(), "vulkan");
    assert!(u.bfs(0).is_empty());
}

#[test]
fn planner_passes_blocks_through() {
    let p = GpuPlanner::new().unwrap();
    assert_eq!(p.run(&[1, 2, 3]), vec![1, 2, 3]);
    assert!(!p.is_gpu_ready());
    assert!(GpuPlanner::with_device(true).is_gpu_ready());
    let u = UnifiedGpu::new(None);
    assert_eq!(u.plan(&[9, 8]), vec![9, 8]);
    assert!(!u.planner_ready());
}

#[test]
fn workgroups_cover_every_item() {
    assert_eq!(workgroups(0), 0);
    assert_eq!(workgroups(1), 1);
    assert_eq!(workgroups(64), 1);
    assert_eq!(workgroups(65), 2);
    assert_eq!(workgroups(200), 4);
    assert_eq!(WORKGROUP, 64);
}

#[test]
fn bfs_seed_marks_the_start() {
    assert_eq!(bfs_seed(3, 1), (vec![0, 1, 0], vec![1, 1, 0, 0]));
    // A start outside the graph is in the frontier but not marked.
    assert_eq!(bfs_seed(2, 5), (vec![0, 0], vec![1, 5, 0]));
}

#[test]
fn advance_frontier_appends_the_level() {
    let mut order = vec![0];
    let fin = advance_frontier(&mut order, &[9, 3, 1], 2, 4);
    assert_eq!(order, vec![0, 3, 1]);
    assert_eq!(fin, vec![2, 3, 1, 0, 0]);
    let fin = advance_frontier(&mut order, &[7], 0, 2);
    assert_eq!(order, vec![0, 3, 1]);
    assert_eq!(fin, vec![0, 0, 0]);
}

#[test]
fn distance_seed_and_table() {
    assert_eq!(distance_seed(3, 1), vec![u32::MAX, 0, u32::MAX]);
    assert_eq!(distance_seed(2, 7), vec![u32::MAX, u32::MAX]);
    assert_eq!(distance_table(&[0, u32::MAX, 2, 1]), vec![(0, 0), (2, 2), (3, 1)]);
    assert_eq!(distance_table(&[]), Vec::<(u32, u32)>::new());
}

#[test]
fn csr_of_the_graph() {
    let g = GpuGraph::new(3, vec![(0, 1), (5, 0), (0, 2), (1, 2)]);
    let c = g.csr();
    assert_eq!(c.n_nodes, 3);
    assert_eq!(c.row_ptr, vec![0, 2, 3, 3]);
    assert_eq!(c.col_idx, vec![1, 2, 2, 0]);
}

#[test]
fn distances_grow_by_at_most_one_per_edge() {
    let edges = vec![(0, 1), (1, 2), (0, 2), (2, 3), (3, 1), (4, 0)];
    let g = GpuGraph::new(5, edges.clone());
    let table = g.shortest_paths(0);
    assert_eq!(table, vec![(0, 0), (1, 1), (2, 1), (3, 2)]);
    let dist = |v: u32| table.iter().find(|p| p.0 == v).map(|p| p.1);
    for (u, v) in edges {
        if let Some(du) = dist(u) {
            assert!(dist(v).unwrap() <= du + 1);
        }
    }
}

#[test]
fn topological_order_follows_reachability() {
    let g = GpuGraph::new(6, vec![(5, 2), (2, 0), (0, 4), (1, 4), (3, 1)]);
    let order = g.topo_sort().unwrap();
    assert_eq!(order, vec![3, 5, 1, 2, 0, 4]);
    let pos = |v: u32| order.iter().position(|&x| x == v).unwrap();
    for s in 0..6u32 {
        for v in g.bfs(s) {
            assert!(pos(s) <= pos(v));
        }
    }
}

#[test]
fn level_search_steps() {
    let mut s = LevelSearch::new(4, 0);
    assert_eq!(s.frontier_len(), 1);
    assert_eq!(s.level(), 0);
    assert_eq!(s.next_launch(), Some(1));
    assert_eq!(s.on_count(2), Some(3));
    assert_eq!(s.on_frontier(&[0, 2, 1]), vec![2, 2, 1, 0, 0]);
    assert_eq!(s.level(), 1);
    assert_eq!(s.next_launch(), Some(1));
    // An empty frontier ends the search.
    assert_eq!(s.on_count(0), None);
    assert_eq!(s.next_launch(), None);
    assert_eq!(s.into_found(), vec![0, 2, 1]);
}

#[test]
fn level_search_stops_after_one_level_per_node() {
    let mut s = LevelSearch::new(1, 0);
    assert_eq!(s.on_count(1), Some(2));
    assert_eq!(s.on_frontier(&[0, 0]), vec![1, 0]);
    assert_eq!(s.frontier_len(), 1);
    assert_eq!(s.next_launch(), None);
    assert_eq!(s.into_found(), vec![0, 0]);
}

#[test]
fn unified_backend_round_trip_keeps_the_graph() {
    let mut u = UnifiedGpu::new(None);
    u.load_graph(5, diamond());
    let (b, d, p, t) = (u.bfs(0), u.dfs(0), u.shortest_paths(0), u.topo_sort());
    u.set_backend("cuda".to_string());
    assert_eq!(u.backend(), "cuda");
    assert!(u.bfs(0).is_empty());
    u.set_backend("webgpu".to_string());
    assert_eq!((u.bfs(0), u.dfs(0), u.shortest_paths(0), u.topo_sort()), (b, d, p, t));
}

#[test]
fn unified_load_leaves_no_trace_of_the_earlier_graph() {
    let mut u1 = UnifiedGpu::new(None);
    let mut u2 = UnifiedGpu::new(None);
    u1.load_graph(3, vec![(0, 1), (1, 2), (2, 0)]);
    u1.load_graph(4, vec![(0, 2), (2, 3), (1, 3)]);
    u2.load_graph(4, vec![(0, 2), (2, 3), (1, 3)]);
    assert_eq!(u1.topo_sort(), u2.topo_sort());
    assert_eq!(u1.topo_sort(), Some(vec![0, 1, 2, 3]));
    for s in 0..4u32 {
        assert_eq!(u1.bfs(s), u2.bfs(s));
        assert_eq!(u1.dfs(s), u2.dfs(s));
        assert_eq!(u1.shortest_paths(s), u2.shortest_paths(s));
    }
}

#[test]
fn relax_passes_stop_when_nothing_changes_or_after_one_per_node() {
    let mut r = RelaxPasses::new(3);
    assert!(r.launch());
    r.on_pass(1);
    assert!(r.launch());
    r.on_pass(0);
    assert!(!r.launch());
    let mut r = RelaxPasses::new(2);
    r.on_pass(1);
    r.on_pass(1);
    assert!(!r.launch());
    assert!(!RelaxPasses::new(0).launch());
}
