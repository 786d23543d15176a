//! In-degree accounting for Kahn's topological sort: how many listed edges
//! point at a node, and how many of them leave nodes not yet output.
use vstd::prelude::*;
use crate::csr::CsrGraph;
use crate::reach::holds;

verus! {

/// Number of entries of `s` equal to `v`.
pub open spec fn occurrences(s: Seq<u32>, v: int) -> nat
    decreases s.len(),
{
    if s.len() == 0 {
        0
    } else {
        occurrences(s.drop_last(), v) + if s.last() == v {
            1nat
        } else {
            0nat
        }
    }
}

/// Number of edges into `v` that leave the nodes below `k` not listed in `done`.
pub open spec fn pending_in(adj: Seq<Seq<u32>>, done: Seq<u32>, v: int, k: nat) -> nat
    decreases k,
{
    if k == 0 {
        0
    } else {
        pending_in(adj, done, v, (k - 1) as nat) + if holds(done, k - 1) {
            0nat
        } else {
            occurrences(adj[k - 1], v)
        }
    }
}

pub proof fn lemma_occurrences_append(a: Seq<u32>, b: Seq<u32>, v: int)
    ensures
        occurrences(a + b, v) == occurrences(a, v) + occurrences(b, v),
    decreases b.len(),
{
    if b.len() == 0 {
        assert(a + b =~= a);
    } else {
        assert((a + b).drop_last() =~= a + b.drop_last());
        lemma_occurrences_append(a, b.drop_last(), v);
    }
}

pub proof fn lemma_occurrences_le_len(s: Seq<u32>, v: int)
    ensures
        occurrences(s, v) <= s.len(),
    decreases s.len(),
{
    if s.len() > 0 {
        lemma_occurrences_le_len(s.drop_last(), v);
    }
}

/// Dropping the entry at `j` from a suffix removes one occurrence of it.
pub proof fn lemma_occurrences_skip(s: Seq<u32>, j: int, v: int)
    requires
        0 <= j < s.len(),
    ensures
        occurrences(s.skip(j), v) == occurrences(s.skip(j + 1), v) + if s[j] == v {
            1nat
        } else {
            0nat
        },
{
    assert(s.skip(j) =~= seq![s[j]] + s.skip(j + 1));
    lemma_occurrences_append(seq![s[j]], s.skip(j + 1), v);
    assert(seq![s[j]].drop_last() =~= Seq::<u32>::empty());
    assert(occurrences(Seq::<u32>::empty(), v) == 0);
    assert(occurrences(seq![s[j]], v) == if s[j] == v {
        1nat
    } else {
        0nat
    });
}

/// A sequence without occurrences of `v` has no entry equal to `v`.
pub proof fn lemma_occurrences_zero(s: Seq<u32>, v: int, j: int)
    requires
        occurrences(s, v) == 0,
        0 <= j < s.len(),
    ensures
        s[j] != v,
{
    lemma_occurrences_skip(s, j, v);
    assert(s =~= s.take(j) + s.skip(j));
    lemma_occurrences_append(s.take(j), s.skip(j), v);
}

/// A sequence with no entry equal to `v` has no occurrence of it.
pub proof fn lemma_occurrences_none(s: Seq<u32>, v: int)
    requires
        forall|j: int| 0 <= j < s.len() ==> s[j] != v,
    ensures
        occurrences(s, v) == 0,
    decreases s.len(),
{
    if s.len() > 0 {
        lemma_occurrences_none(s.drop_last(), v);
    }
}

/// Marking one more node `x` as done removes its edges from the pending count.
pub proof fn lemma_pending_done(adj: Seq<Seq<u32>>, done: Seq<u32>, x: int, v: int, k: nat)
    requires
        !holds(done, x),
        0 <= x <= u32::MAX,
    ensures
        pending_in(adj, done.push(x as u32), v, k) + (if x < k {
            occurrences(adj[x], v)
        } else {
            0nat
        }) == pending_in(adj, done, v, k),
    decreases k,
{
    if k > 0 {
        lemma_pending_done(adj, done, x, v, (k - 1) as nat);
        let u = k - 1;
        let d2 = done.push(x as u32);
        if holds(done, u) {
            let i = choose|i: int| 0 <= i < done.len() && done[i] == u;
            assert(d2[i] == u);
        }
        if holds(d2, u) && u != x {
            let i = choose|i: int| 0 <= i < d2.len() && d2[i] == u;
            assert(done[i] == u);
        }
        if u == x {
            assert(d2[done.len() as int] == u);
        }
    }
}

/// With no pending edge into `v`, no node below `k` that is not done has `v`
/// as a neighbour.
pub proof fn lemma_pending_zero(adj: Seq<Seq<u32>>, done: Seq<u32>, v: int, k: nat, u: int)
    requires
        pending_in(adj, done, v, k) == 0,
        0 <= u < k,
        !holds(done, u),
    ensures
        occurrences(adj[u], v) == 0,
    decreases k,
{
    if u < k - 1 {
        lemma_pending_zero(adj, done, v, (k - 1) as nat, u);
    }
}

/// When no node below `k` that is not done has an edge into `v`, nothing is pending.
pub proof fn lemma_pending_none(adj: Seq<Seq<u32>>, done: Seq<u32>, v: int, k: nat)
    requires
        forall|u: int| 0 <= u < k && !holds(done, u) ==> occurrences(#[trigger] adj[u], v) == 0,
    ensures
        pending_in(adj, done, v, k) == 0,
    decreases k,
{
    if k > 0 {
        lemma_pending_none(adj, done, v, (k - 1) as nat);
    }
}

/// The rows of the first `k` nodes, laid end to end, hold the pending count
/// of `v` before any node is done.
pub proof fn lemma_rows_occurrences(g: CsrGraph, v: int, k: nat)
    requires
        g.wf(),
        k <= g.n_nodes,
    ensures
        occurrences(g.col_idx@.subrange(0, g.row_ptr@[k as int] as int), v) == pending_in(
            g.adjacency(),
            Seq::empty(),
            v,
            k,
        ),
    decreases k,
{
    if k == 0 {
        assert(g.col_idx@.subrange(0, g.row_ptr@[0] as int) =~= Seq::<u32>::empty());
    } else {
        let u = k - 1;
        lemma_rows_occurrences(g, v, (k - 1) as nat);
        let lo = g.row_ptr@[u] as int;
        let hi = g.row_ptr@[k as int] as int;
        assert(g.row_ptr[0] <= g.row_ptr[u]);
        assert(g.row_ptr[u] <= g.row_ptr[k as int]);
        assert(g.row_ptr[k as int] <= g.row_ptr[g.n_nodes as int]);
        assert(g.col_idx@.subrange(0, hi) =~= g.col_idx@.subrange(0, lo) + g.row(u));
        lemma_occurrences_append(g.col_idx@.subrange(0, lo), g.row(u), v);
        assert(!holds(Seq::<u32>::empty(), u));
        assert(g.adjacency()[u] == g.row(u));
    }
}

} // verus!
