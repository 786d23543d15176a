//! Compressed-sparse-row layout of a directed graph.
use vstd::prelude::*;
use crate::edges::{targets, count_below, stray_count, adjacency_of, lemma_targets_push, lemma_targets_prefix, lemma_targets_len, lemma_count_below_len, lemma_count_below_step, lemma_count_below_mono, lemma_count_below_zero};

verus! {

/// A graph in CSR layout: `row_ptr[i] .. row_ptr[i + 1]` indexes the
/// neighbours of node `i` in `col_idx`.
pub struct CsrGraph {
    pub row_ptr: Vec<u32>,
    pub col_idx: Vec<u32>,
    pub n_nodes: usize,
}

impl CsrGraph {
    /// The layout is consistent: one row bound per node plus one, starting at
    /// zero, nondecreasing, and within `col_idx`.
    pub open spec fn wf(&self) -> bool {
        &&& self.row_ptr.len() == self.n_nodes + 1
        &&& self.row_ptr[0] == 0
        &&& forall|i: int, j: int|
            0 <= i <= j <= self.n_nodes ==> #[trigger] self.row_ptr[i] <= #[trigger] self.row_ptr[j]
        &&& self.row_ptr[self.n_nodes as int] <= self.col_idx.len()
        &&& self.col_idx.len() <= u32::MAX
    }

    /// Neighbours of node `u`, in row order.
    pub open spec fn row(&self, u: int) -> Seq<u32> {
        self.col_idx@.subrange(self.row_ptr[u] as int, self.row_ptr[u + 1] as int)
    }

    /// Adjacency: for each node, its neighbours in row order.
    pub open spec fn adjacency(&self) -> Seq<Seq<u32>> {
        Seq::new(self.n_nodes as nat, |u: int| self.row(u))
    }

    /// The entries of `col_idx` past the last row, which belong to no node.
    pub open spec fn tail(&self) -> Seq<u32> {
        self.col_idx@.subrange(self.row_ptr[self.n_nodes as int] as int, self.col_idx.len() as int)
    }

    /// Build a CSR graph from an edge list (0-indexed node IDs).
    ///
    /// Edges whose source is not below `n_nodes` are kept in no row; their
    /// slots stay at the end of `col_idx`, set to 0. Targets are not checked.
    pub fn from_edges(n_nodes: usize, edges: &[(u32, u32)]) -> (g: Self)
        requires
            n_nodes < usize::MAX,
            edges@.len() <= u32::MAX,
        ensures
            g.wf(),
            g.n_nodes == n_nodes,
            g.row_ptr@ == Seq::new((n_nodes + 1) as nat, |i: int| count_below(edges@, i) as u32),
            g.col_idx@.len() == edges@.len(),
            g.adjacency() == adjacency_of(n_nodes as nat, edges@),
            g.tail() == Seq::new(stray_count(edges@, n_nodes as int), |k: int| 0u32),
    {
        let ghost es = edges@;
        let len = edges.len();
        let mut row_ptr: Vec<u32> = vec![0u32; n_nodes + 1];
        // Count the edges of each node.
        let mut j: usize = 0;
        while j < len
            invariant
                len == es.len(),
                es == edges@,
                len <= u32::MAX,
                j <= len,
                row_ptr@.len() == n_nodes + 1,
                row_ptr[0] == 0,
                forall|i: int|
                    1 <= i <= n_nodes ==> #[trigger] row_ptr[i] == targets(es.take(j as int), i - 1).len(),
            decreases len - j,
        {
            let (u, v) = edges[j];
            proof {
                lemma_targets_push(es.take(j as int), (u, v), u as int);
                assert(es.take(j as int).push((u, v)) =~= es.take(j + 1));
                assert forall|w: int| w != u implies
                    #[trigger] targets(es.take(j + 1), w) == targets(es.take(j as int), w) by {
                    lemma_targets_push(es.take(j as int), (u, v), w);
                }
            }
            if (u as usize) < n_nodes {
                let ui = u as usize;
                proof {
                    lemma_targets_len(es.take(j as int), ui as int);
                }
                let c = row_ptr[ui + 1];
                row_ptr.set(ui + 1, c + 1);
            }
            j = j + 1;
        }
        assert(es.take(len as int) =~= es);
        proof {
            lemma_count_below_zero(es);
        }
        // Prefix sums turn counts into row bounds.
        let mut i: usize = 0;
        while i < n_nodes
            invariant
                len == es.len(),
                len <= u32::MAX,
                i <= n_nodes,
                row_ptr@.len() == n_nodes + 1,
                forall|k: int| 0 <= k <= i ==> #[trigger] row_ptr[k] == count_below(es, k),
                forall|k: int|
                    i < k <= n_nodes ==> #[trigger] row_ptr[k] == targets(es, k - 1).len(),
            decreases n_nodes - i,
        {
            proof {
                lemma_count_below_step(es, i as int);
                lemma_count_below_len(es, i + 1);
                lemma_count_below_zero(es);
            }
            let a = row_ptr[i];
            let b = row_ptr[i + 1];
            row_ptr.set(i + 1, a + b);
            i = i + 1;
        }
        proof {
            lemma_count_below_zero(es);
            lemma_count_below_len(es, n_nodes as int);
        }
        assert(row_ptr@ =~= Seq::new((n_nodes + 1) as nat, |i: int| count_below(es, i) as u32));
        // Scatter each edge's target into its node's row.
        let mut col_idx: Vec<u32> = vec![0u32; len];
        let mut pos: Vec<u32> = Vec::new();
        let mut i: usize = 0;
        while i < n_nodes
            invariant
                i <= n_nodes,
                row_ptr@.len() == n_nodes + 1,
                pos@.len() == i,
                forall|k: int| 0 <= k < i ==> #[trigger] pos[k] == row_ptr[k],
            decreases n_nodes - i,
        {
            pos.push(row_ptr[i]);
            i = i + 1;
        }
        let mut j: usize = 0;
        while j < len
            invariant
                len == es.len(),
                es == edges@,
                len <= u32::MAX,
                j <= len,
                row_ptr@ == Seq::new((n_nodes + 1) as nat, |i: int| count_below(es, i) as u32),
                forall|k: int| 0 <= k <= n_nodes ==> #[trigger] row_ptr[k] == count_below(es, k),
                pos@.len() == n_nodes,
                col_idx@.len() == len,
                forall|u: int|
                    0 <= u < n_nodes ==> #[trigger] pos[u] == count_below(es, u) + targets(
                        es.take(j as int),
                        u,
                    ).len(),
                forall|u: int, k: int|
                    0 <= u < n_nodes && 0 <= k < targets(es.take(j as int), u).len()
                        ==> #[trigger] col_idx[count_below(es, u) + k] == #[trigger] targets(
                        es.take(j as int),
                        u,
                    )[k],
                forall|p: int|
                    count_below(es, n_nodes as int) <= p < len ==> #[trigger] col_idx[p] == 0,
            decreases len - j,
        {
            let (u, v) = edges[j];
            proof {
                lemma_targets_push(es.take(j as int), (u, v), u as int);
                assert(es.take(j as int).push((u, v)) =~= es.take(j + 1));
                assert forall|w: int| w != u implies
                    #[trigger] targets(es.take(j + 1), w) == targets(es.take(j as int), w) by {
                    lemma_targets_push(es.take(j as int), (u, v), w);
                }
            }
            if (u as usize) < n_nodes {
                let ui = u as usize;
                let ghost cu = count_below(es, ui as int);
                let ghost tj = targets(es.take(j as int), ui as int);
                proof {
                    lemma_targets_prefix(es, j + 1, ui as int);
                    lemma_count_below_step(es, ui as int);
                    lemma_count_below_mono(es, ui + 1, n_nodes as int);
                    lemma_count_below_len(es, n_nodes as int);
                }
                let idx = pos[ui] as usize;
                assert(idx == cu + tj.len());
                assert(idx < count_below(es, ui + 1));
                let ghost old_col = col_idx@;
                col_idx.set(idx, v);
                let p = pos[ui];
                pos.set(ui, p + 1);
                proof {
                    assert forall|w: int, k: int|
                        0 <= w < n_nodes && 0 <= k < targets(es.take(j + 1), w).len() implies
                        #[trigger] col_idx[count_below(es, w) + k] == #[trigger] targets(
                            es.take(j + 1),
                            w,
                        )[k] by {
                        if w == ui {
                            assert(targets(es.take(j + 1), w) == tj.push(v));
                            if k == tj.len() {
                                assert(col_idx[idx as int] == v);
                            } else {
                                assert(old_col[count_below(es, w) + k] == tj[k]);
                                assert(count_below(es, w) + k != idx);
                            }
                        } else if w < ui {
                            lemma_targets_prefix(es, j as int, w);
                            lemma_count_below_step(es, w);
                            lemma_count_below_mono(es, w + 1, ui as int);
                            assert(targets(es.take(j + 1), w) == targets(es.take(j as int), w));
                            assert(old_col[count_below(es, w) + k] == targets(es.take(j as int), w)[k]);
                            assert(count_below(es, w) + k != idx);
                        } else {
                            lemma_count_below_mono(es, ui + 1, w);
                            lemma_targets_prefix(es, j as int, w);
                            lemma_count_below_step(es, w);
                            lemma_count_below_mono(es, w + 1, n_nodes as int);
                            assert(targets(es.take(j + 1), w) == targets(es.take(j as int), w));
                            assert(old_col[count_below(es, w) + k] == targets(es.take(j as int), w)[k]);
                            assert(count_below(es, w) + k != idx);
                        }
                    }
                }
            }
            j = j + 1;
        }
        assert(es.take(len as int) =~= es);
        let g = CsrGraph { row_ptr, col_idx, n_nodes };
        proof {
            assert forall|i: int, k: int|
                0 <= i <= k <= n_nodes implies #[trigger] g.row_ptr[i] <= #[trigger] g.row_ptr[k] by {
                lemma_count_below_mono(es, i, k);
            }
            assert forall|u: int| 0 <= u < n_nodes implies #[trigger] g.row(u) =~= targets(es, u) by {
                lemma_count_below_step(es, u);
                lemma_count_below_mono(es, u + 1, n_nodes as int);
                lemma_count_below_len(es, n_nodes as int);
                assert(g.row_ptr[u] == count_below(es, u));
                assert(g.row_ptr[u + 1] == count_below(es, u + 1));
                assert forall|k: int| 0 <= k < targets(es, u).len() implies g.row(u)[k]
                    == targets(es, u)[k] by {
                    assert(g.col_idx[count_below(es, u) + k] == targets(es.take(len as int), u)[k]);
                }
            }
            assert(g.adjacency() =~= adjacency_of(n_nodes as nat, es));
            assert(g.tail() =~= Seq::new(stray_count(es, n_nodes as int), |k: int| 0u32));
        }
        g
    }
}

/// The node whose row holds position `k` of `col_idx`, searching from node `u`.
pub proof fn lemma_row_of(g: CsrGraph, k: int, u: int) -> (r: int)
    requires
        g.wf(),
        0 <= u < g.n_nodes,
        g.row_ptr[u] <= k < g.row_ptr[g.n_nodes as int],
    ensures
        u <= r < g.n_nodes,
        g.row_ptr[r] <= k < g.row_ptr[r + 1],
    decreases g.n_nodes - u,
{
    if k < g.row_ptr[u + 1] {
        u
    } else {
        lemma_row_of(g, k, u + 1)
    }
}

} // verus!
