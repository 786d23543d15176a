# sovereign_gpu

A graph engine over a compressed-sparse-row (CSR) layout — breadth-first
search, depth-first search, shortest paths and topological sort — with a
Python extension module around it. The engine is written in Verus: every
traversal carries a contract over a mathematical model of the graph, and
Verus proves the code against it.

## Layout

- `src/` — the verified library.
  - `edges.rs`: the model of an edge list (each node's targets, in order).
  - `csr.rs`: `CsrGraph`, the CSR layout, built from an edge list.
  - `reach.rs`: reachability, distances, and what a BFS, DFS, distance
    table and topological order (Kahn's, first in first out) are.
  - `in_degree.rs`: in-degree counting used by the topological sort.
  - `gpu_graph.rs`: `GpuGraph` and its traversals.
  - `dispatch.rs`: host-side steps of the device kernels (launch sizes,
    the level and pass loops,
    seed buffers, frontier and distance read-back).
  - `backends/`: the CUDA and Vulkan placeholders.
  - `planner.rs`: the planner pipeline (a pass-through for now).
  - `unified.rs`: `UnifiedGpu`, which dispatches to a backend by name.
  - `laws.rs`: properties relating the traversals (BFS and DFS visit the
    same nodes, distances, topological orders, and that each traversal has
    one answer).
- `tests/` — tests of the library on concrete graphs.
- `app/` — the Python module (`pyo3`), the WebGPU device (`wgpu`), the
  device-side search loops, and the GNN embedding engine, which computes in
  `f32`.

The WGSL kernels that the device loops and the GNN engine launch are not
part of this tree; without them the Python classes run the library's CPU
traversals, and embeddings are zero vectors.

## Checking

Verus verifies `src/`; the tests in `tests/` run against the compiled
library.
