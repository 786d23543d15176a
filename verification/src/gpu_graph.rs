//! Graph engine over a CSR layout: breadth-first search, depth-first search,
//! shortest paths and topological sort.
use vstd::prelude::*;
use std::collections::VecDeque;
use crate::csr::{CsrGraph, lemma_row_of};
use crate::in_degree::{
    occurrences, pending_in, lemma_occurrences_append, lemma_occurrences_le_len, lemma_occurrences_skip,
    lemma_occurrences_zero, lemma_occurrences_none, lemma_pending_done, lemma_pending_zero, lemma_pending_none,
    lemma_rows_occurrences,
};
use crate::edges::{adjacency_of, stray_count};
use crate::laws::law_acyclic_iff_no_cycle;
use crate::reach::{
    is_edge, reach_set, reach_within, reachable, is_distance, distance, closed_from, is_distance_table, holds,
    targets_in_range, is_topological_order, is_acyclic, has_cycle, discovered_by, found_at, all_found, found_in_order,
    is_bfs_order, dfs_step, dfs_found_at, is_dfs_order, is_source, released_by, released_at, released_in_order,
    is_kahn_order, lemma_distinct_covering, lemma_first_missing, lemma_dfs_step_push, lemma_released_by_unique,
    lemma_discovered_by_unique, lemma_discovered_by_push, lemma_reach_step, lemma_distance_le,
    lemma_distance_unique, lemma_closed_set_holds_reachable, lemma_distinct_nodes,
};

verus! {

/// The state of a breadth-first search: `disc` lists the discovered nodes in
/// discovery order, and `dist` holds their distances (`u64::MAX` elsewhere).
spec fn bfs_state(adj: Seq<Seq<u32>>, start: int, disc: Seq<u32>, dist: Seq<u64>) -> bool {
    let n = adj.len();
    &&& dist.len() == n
    &&& 1 <= disc.len() <= n
    &&& disc[0] == start
    &&& disc.no_duplicates()
    &&& forall|a: int| 0 <= a < disc.len() ==> #[trigger] disc[a] < n
    &&& forall|a: int|
        0 <= a < disc.len() ==> is_distance(adj, start, #[trigger] disc[a] as int, dist[disc[a] as int] as nat)
    &&& forall|a: int| 0 <= a < disc.len() ==> dist[#[trigger] disc[a] as int] < disc.len()
    &&& forall|a: int, b: int|
        0 <= a <= b < disc.len() ==> dist[#[trigger] disc[a] as int] <= dist[#[trigger] disc[b] as int]
    &&& forall|v: int| 0 <= v < n ==> (#[trigger] dist[v] != u64::MAX <==> holds(disc, v))
}

/// The first `p` discovered nodes have all their neighbours discovered.
spec fn bfs_expanded(adj: Seq<Seq<u32>>, disc: Seq<u32>, dist: Seq<u64>, p: int) -> bool {
    forall|a: int, j: int|
        0 <= a < p && 0 <= j < adj[disc[a] as int].len() ==> #[trigger] adj[disc[a] as int][j] < adj.len()
            && dist[adj[disc[a] as int][j] as int] != u64::MAX
}

/// Every node reachable within `k <= d` steps is discovered, when the nodes
/// at distance below `d` are all expanded.
proof fn lemma_bfs_frontier(
    adj: Seq<Seq<u32>>,
    start: int,
    disc: Seq<u32>,
    dist: Seq<u64>,
    p: int,
    d: nat,
    k: nat,
    w: int,
)
    requires
        bfs_state(adj, start, disc, dist),
        bfs_expanded(adj, disc, dist, p),
        0 <= p <= disc.len(),
        forall|a: int| p <= a < disc.len() ==> dist[#[trigger] disc[a] as int] >= d,
        k <= d,
        reach_within(adj, start, w, k),
    ensures
        0 <= w < adj.len(),
        holds(disc, w),
    decreases k,
{
    if k == 0 {
        assert(disc[0] == w);
    } else {
        let prev = reach_set(adj, start, (k - 1) as nat);
        if prev.contains(w) {
            lemma_bfs_frontier(adj, start, disc, dist, p, d, (k - 1) as nat, w);
        } else {
            let u = choose|u: int| prev.contains(u) && #[trigger] is_edge(adj, u, w);
            lemma_bfs_frontier(adj, start, disc, dist, p, d, (k - 1) as nat, u);
            let a = choose|a: int| 0 <= a < disc.len() && disc[a] == u;
            lemma_distance_le(adj, start, u, dist[u] as nat, (k - 1) as nat);
            assert(a < p);
            let j = choose|j: int| 0 <= j < adj[u].len() && adj[u][j] == w as u32;
            assert(adj[disc[a] as int][j] < adj.len());
            assert(dist[w] != u64::MAX);
        }
    }
}

/// Every node found so far was found from a node before position `p - 1`,
/// or from position `p - 1` at a neighbour position below `jj`.
spec fn found_before(adj: Seq<Seq<u32>>, disc: Seq<u32>, p: int, jj: int) -> bool {
    forall|i: int, a: int, j: int|
        0 < i < disc.len() && #[trigger] discovered_by(adj, disc, i, a, j) ==> a < p - 1 || (a == p - 1 && j < jj)
}

/// Discovering the neighbour at position `jj` of the node at position
/// `p - 1` keeps the discovery records in order.
proof fn lemma_bfs_found(
    adj: Seq<Seq<u32>>,
    dq: Seq<u32>,
    dist0: Seq<u64>,
    p: int,
    jj: int,
    nbr: u32,
)
    requires
        dist0.len() == adj.len(),
        bfs_expanded(adj, dq, dist0, p - 1),
        1 <= p <= dq.len(),
        dq[p - 1] < adj.len(),
        0 <= jj < adj[dq[p - 1] as int].len(),
        adj[dq[p - 1] as int][jj] == nbr,
        (nbr as int) < adj.len(),
        dist0[nbr as int] == u64::MAX,
        forall|j2: int|
            0 <= j2 < jj ==> #[trigger] adj[dq[p - 1] as int][j2] < adj.len() && dist0[adj[dq[p - 1] as int][j2] as int]
                != u64::MAX,
        all_found(adj, dq),
        found_in_order(adj, dq),
        found_before(adj, dq, p, jj),
    ensures
        all_found(adj, dq.push(nbr)),
        found_in_order(adj, dq.push(nbr)),
        found_before(adj, dq.push(nbr), p, jj + 1),
{
    let dn = dq.push(nbr);
    let m = dq.len() as int;
    let node = dq[p - 1];
    assert(dn[p - 1] == node);
    assert(dn[m] == nbr);
    assert forall|a2: int| 0 <= a2 < p - 1 implies !is_edge(adj, #[trigger] dn[a2] as int, dn[m] as int) by {
        assert(dn[a2] == dq[a2]);
        if is_edge(adj, dq[a2] as int, nbr as int) {
            let j3 = choose|j3: int| 0 <= j3 < adj[dq[a2] as int].len() && adj[dq[a2] as int][j3] == nbr;
            assert(dist0[adj[dq[a2] as int][j3] as int] != u64::MAX);
        }
    }
    assert forall|j2: int| 0 <= j2 < jj implies #[trigger] adj[dn[p - 1] as int][j2] != dn[m] by {
        assert(dist0[adj[dq[p - 1] as int][j2] as int] != u64::MAX);
    }
    assert(discovered_by(adj, dn, m, p - 1, jj));
    assert forall|i: int| 0 < i < dn.len() implies #[trigger] found_at(adj, dn, i) by {
        if i < m {
            assert(found_at(adj, dq, i));
            let (a, j) = choose|a: int, j: int| #[trigger] discovered_by(adj, dq, i, a, j);
            lemma_discovered_by_push(adj, dq, nbr, i, a, j);
        } else {
            assert(discovered_by(adj, dn, i, p - 1, jj));
        }
    }
    assert(all_found(adj, dn));
    assert forall|i: int, a: int, j: int|
        0 < i < dn.len() && #[trigger] discovered_by(adj, dn, i, a, j) implies a < p - 1 || (a == p - 1 && j < jj
            + 1) by {
        if i < m {
            lemma_discovered_by_push(adj, dq, nbr, i, a, j);
        } else {
            lemma_discovered_by_unique(adj, dn, m, a, j, p - 1, jj);
        }
    }
    assert forall|i: int, k: int, a: int, j: int, a2: int, j2: int|
        0 < i < k < dn.len() && #[trigger] discovered_by(adj, dn, i, a, j) && #[trigger] discovered_by(
            adj,
            dn,
            k,
            a2,
            j2,
        ) implies a < a2 || (a == a2 && j < j2) by {
        lemma_discovered_by_push(adj, dq, nbr, i, a, j);
        if k < m {
            lemma_discovered_by_push(adj, dq, nbr, k, a2, j2);
        } else {
            lemma_discovered_by_unique(adj, dn, m, a2, j2, p - 1, jj);
        }
    }
}

/// Each stack entry is the neighbour, at position `tags[t].1`, of the visited
/// node at position `tags[t].0` that pushed it.
spec fn tags_fit(adj: Seq<Seq<u32>>, order: Seq<u32>, stack: Seq<u32>, tags: Seq<(int, int)>) -> bool {
    &&& tags.len() == stack.len()
    &&& forall|t: int|
        0 <= t < tags.len() ==> 0 <= #[trigger] tags[t].0 < order.len() && order[tags[t].0] < adj.len() && 0
            <= tags[t].1 < adj[order[tags[t].0] as int].len() && adj[order[tags[t].0] as int][tags[t].1] == stack[t]
}

/// Up the stack, entries come from later visited nodes, and from one node in
/// reverse neighbour order.
spec fn tags_sorted(tags: Seq<(int, int)>) -> bool {
    forall|t: int, t2: int|
        0 <= t < t2 < tags.len() ==> #[trigger] tags[t].0 <= #[trigger] tags[t2].0 && (tags[t].0 == tags[t2].0
            ==> tags[t].1 > tags[t2].1)
}

/// Every unvisited neighbour, at position `jx` of the visited node at
/// position `a` (with `a < p - 1`, or `a == p - 1` and `jx >= lo`), is on the
/// stack, pushed for that node and position.
spec fn tags_cover(adj: Seq<Seq<u32>>, order: Seq<u32>, tags: Seq<(int, int)>, p: int, lo: int) -> bool {
    forall|a: int, jx: int|
        0 <= a < order.len() && (a < p - 1 || (a == p - 1 && jx >= lo)) && 0 <= jx < adj[order[a] as int].len()
            && !holds(order, #[trigger] adj[order[a] as int][jx] as int) ==> exists|t: int|
            0 <= t < tags.len() && tags[t] == (a, jx)
}

/// The entry on top of the stack, when not yet visited, is the next node of
/// a depth-first search.
proof fn lemma_dfs_next(adj: Seq<Seq<u32>>, order: Seq<u32>, stack: Seq<u32>, tags: Seq<(int, int)>)
    requires
        order.len() > 0,
        stack.len() > 0,
        tags_fit(adj, order, stack, tags),
        tags_sorted(tags),
        tags_cover(adj, order, tags, order.len() + 1int, 0),
        !holds(order, stack.last() as int),
    ensures
        dfs_step(adj, order.push(stack.last()), order.len() as int, tags.last().0, tags.last().1),
{
    let tt = tags.len() - 1;
    let (a0, j0) = tags[tt];
    let w = stack.last();
    let o2 = order.push(w);
    let i = order.len() as int;
    assert(o2.take(i) =~= order);
    assert(o2[a0] == order[a0]);
    assert(o2[i] == w);
    assert(adj[order[a0] as int][j0] == stack[tt]);
    assert forall|j2: int| 0 <= j2 < j0 implies holds(order, #[trigger] adj[order[a0] as int][j2] as int) by {
        if !holds(order, adj[order[a0] as int][j2] as int) {
            let t = choose|t: int| 0 <= t < tags.len() && tags[t] == (a0, j2);
            assert(t != tt);
            assert(tags[t].0 <= tags[tt].0);
        }
    }
    assert forall|a2: int, j3: int| a0 < a2 < i && 0 <= j3 < adj[o2[a2] as int].len() implies holds(
        o2.take(i),
        #[trigger] adj[o2[a2] as int][j3] as int,
    ) by {
        assert(o2[a2] == order[a2]);
        if !holds(order, adj[order[a2] as int][j3] as int) {
            let t = choose|t: int| 0 <= t < tags.len() && tags[t] == (a2, j3);
            assert(t != tt);
            assert(tags[t].0 <= tags[tt].0);
        }
    }
}

/// Popping the top entry and visiting it keeps the stack records.
proof fn lemma_tags_after_visit(
    adj: Seq<Seq<u32>>,
    order: Seq<u32>,
    stack: Seq<u32>,
    tags: Seq<(int, int)>,
    w: u32,
)
    requires
        order.len() > 0,
        stack.len() > 0,
        w == stack.last(),
        tags_fit(adj, order, stack, tags),
        tags_sorted(tags),
        tags_cover(adj, order, tags, order.len() + 1int, 0),
    ensures
        tags_fit(adj, order.push(w), stack.drop_last(), tags.drop_last()),
        tags_sorted(tags.drop_last()),
        forall|t: int|
            0 <= t < tags.drop_last().len() ==> #[trigger] tags.drop_last()[t].0 < order.len(),
        tags_cover(
            adj,
            order.push(w),
            tags.drop_last(),
            order.len() + 1int,
            adj[w as int].len() as int,
        ),
{
    let o2 = order.push(w);
    let t2 = tags.drop_last();
    let s2 = stack.drop_last();
    let tt = tags.len() - 1;
    assert forall|t: int| 0 <= t < t2.len() implies 0 <= #[trigger] t2[t].0 < o2.len() && o2[t2[t].0] < adj.len() && 0
        <= t2[t].1 < adj[o2[t2[t].0] as int].len() && adj[o2[t2[t].0] as int][t2[t].1] == s2[t] by {
        assert(t2[t] == tags[t]);
        assert(o2[tags[t].0] == order[tags[t].0]);
    }
    assert forall|t: int, u: int| 0 <= t < u < t2.len() implies #[trigger] t2[t].0 <= #[trigger] t2[u].0 && (t2[t].0
        == t2[u].0 ==> t2[t].1 > t2[u].1) by {
        assert(t2[t] == tags[t] && t2[u] == tags[u]);
    }
    assert forall|a: int, jx: int|
        0 <= a < o2.len() && (a < order.len() + 1 - 1 || (a == order.len() + 1 - 1 && jx >= adj[w as int].len()))
            && 0 <= jx < adj[o2[a] as int].len() && !holds(o2, #[trigger] adj[o2[a] as int][jx] as int) implies exists|t: int|
        0 <= t < t2.len() && t2[t] == (a, jx) by {
        assert(o2[a] == order[a]);
        let v = adj[order[a] as int][jx] as int;
        if holds(order, v) {
            let i = choose|i: int| 0 <= i < order.len() && order[i] == v;
            assert(o2[i] == v);
        }
        let t = choose|t: int| 0 <= t < tags.len() && tags[t] == (a, jx);
        if t == tt {
            assert(adj[order[tags[tt].0] as int][tags[tt].1] == stack[tt]);
            assert(stack[tt] == v);
            assert(o2[order.len() as int] == v);
        }
        assert(t2[t] == (a, jx));
    }
}

/// Popping a visited top entry keeps the stack records.
proof fn lemma_tags_after_skip(adj: Seq<Seq<u32>>, order: Seq<u32>, stack: Seq<u32>, tags: Seq<(int, int)>)
    requires
        order.len() > 0,
        stack.len() > 0,
        holds(order, stack.last() as int),
        tags_fit(adj, order, stack, tags),
        tags_sorted(tags),
        tags_cover(adj, order, tags, order.len() + 1int, 0),
    ensures
        tags_fit(adj, order, stack.drop_last(), tags.drop_last()),
        tags_sorted(tags.drop_last()),
        tags_cover(adj, order, tags.drop_last(), order.len() + 1int, 0),
{
    let t2 = tags.drop_last();
    let s2 = stack.drop_last();
    let tt = tags.len() - 1;
    assert forall|t: int| 0 <= t < t2.len() implies 0 <= #[trigger] t2[t].0 < order.len() && order[t2[t].0] < adj.len()
        && 0 <= t2[t].1 < adj[order[t2[t].0] as int].len() && adj[order[t2[t].0] as int][t2[t].1] == s2[t] by {
        assert(t2[t] == tags[t]);
    }
    assert forall|t: int, u: int| 0 <= t < u < t2.len() implies #[trigger] t2[t].0 <= #[trigger] t2[u].0 && (t2[t].0
        == t2[u].0 ==> t2[t].1 > t2[u].1) by {
        assert(t2[t] == tags[t] && t2[u] == tags[u]);
    }
    assert forall|a: int, jx: int|
        0 <= a < order.len() && (a < order.len() + 1 - 1 || (a == order.len() + 1 - 1 && jx >= 0)) && 0 <= jx
            < adj[order[a] as int].len() && !holds(order, #[trigger] adj[order[a] as int][jx] as int) implies exists|t: int|
        0 <= t < t2.len() && t2[t] == (a, jx) by {
        let t = choose|t: int| 0 <= t < tags.len() && tags[t] == (a, jx);
        if t == tt {
            assert(adj[order[tags[tt].0] as int][tags[tt].1] == stack[tt]);
            assert(stack[tt] == adj[order[a] as int][jx]);
        }
        assert(t2[t] == (a, jx));
    }
}

/// Pushing the unvisited neighbour at position `jj` of the node at position
/// `p - 1` keeps the stack records.
proof fn lemma_tags_after_push(
    adj: Seq<Seq<u32>>,
    order: Seq<u32>,
    stack: Seq<u32>,
    tags: Seq<(int, int)>,
    p: int,
    jj: int,
    nbr: u32,
)
    requires
        1 <= p == order.len(),
        order[p - 1] < adj.len(),
        0 <= jj < adj[order[p - 1] as int].len(),
        adj[order[p - 1] as int][jj] == nbr,
        tags_fit(adj, order, stack, tags),
        tags_sorted(tags),
        forall|t: int|
            0 <= t < tags.len() ==> #[trigger] tags[t].0 < p - 1 || (tags[t].0 == p - 1 && tags[t].1 >= jj + 1),
        tags_cover(adj, order, tags, p, jj + 1),
    ensures
        tags_fit(adj, order, stack.push(nbr), tags.push((p - 1, jj))),
        tags_sorted(tags.push((p - 1, jj))),
        forall|t: int|
            0 <= t < tags.push((p - 1, jj)).len() ==> #[trigger] tags.push((p - 1, jj))[t].0 < p - 1 || (tags.push(
                (p - 1, jj),
            )[t].0 == p - 1 && tags.push((p - 1, jj))[t].1 >= jj),
        tags_cover(adj, order, tags.push((p - 1, jj)), p, jj),
{
    let t2 = tags.push((p - 1, jj));
    let s2 = stack.push(nbr);
    let m = tags.len() as int;
    assert(t2[m] == (p - 1, jj));
    assert forall|t: int| 0 <= t < t2.len() implies 0 <= #[trigger] t2[t].0 < order.len() && order[t2[t].0] < adj.len()
        && 0 <= t2[t].1 < adj[order[t2[t].0] as int].len() && adj[order[t2[t].0] as int][t2[t].1] == s2[t] by {
        if t < m {
            assert(t2[t] == tags[t]);
        }
    }
    assert forall|t: int, u: int| 0 <= t < u < t2.len() implies #[trigger] t2[t].0 <= #[trigger] t2[u].0 && (t2[t].0
        == t2[u].0 ==> t2[t].1 > t2[u].1) by {
        assert(t2[t] == tags[t]);
        if u < m {
            assert(t2[u] == tags[u]);
        }
    }
    assert forall|t: int| 0 <= t < t2.len() implies #[trigger] t2[t].0 < p - 1 || (t2[t].0 == p - 1 && t2[t].1 >= jj) by {
        if t < m {
            assert(t2[t] == tags[t]);
        }
    }
    assert forall|a: int, jx: int|
        0 <= a < order.len() && (a < p - 1 || (a == p - 1 && jx >= jj)) && 0 <= jx < adj[order[a] as int].len()
            && !holds(order, #[trigger] adj[order[a] as int][jx] as int) implies exists|t: int|
        0 <= t < t2.len() && t2[t] == (a, jx) by {
        if a == p - 1 && jx == jj {
            assert(t2[m] == (a, jx));
        } else {
            let t = choose|t: int| 0 <= t < tags.len() && tags[t] == (a, jx);
            assert(t2[t] == (a, jx));
        }
    }
}

/// A node that is not done has no edge into a node with nothing pending.
proof fn lemma_no_edge_into_ready(adj: Seq<Seq<u32>>, done: Seq<u32>, x: int, w: int)
    requires
        pending_in(adj, done, w, adj.len()) == 0,
        0 <= x < adj.len(),
        !holds(done, x),
    ensures
        !is_edge(adj, x, w),
{
    lemma_pending_zero(adj, done, w, adj.len(), x);
    if is_edge(adj, x, w) {
        let j = choose|j: int| 0 <= j < adj[x].len() && adj[x][j] == w as u32;
        lemma_occurrences_zero(adj[x], w, j);
    }
}

/// Every node released so far was released by a node before position
/// `p - 1`, or by position `p - 1` at a neighbour position below `jj`.
spec fn released_before(adj: Seq<Seq<u32>>, disc: Seq<u32>, p: int, jj: int) -> bool {
    forall|i: int, a: int, j: int| #[trigger] released_by(adj, disc, i, a, j) ==> a < p - 1 || (a == p - 1 && j < jj)
}

/// Every node from position `nsrc` on was released by an earlier node.
spec fn released_from(adj: Seq<Seq<u32>>, disc: Seq<u32>, nsrc: int) -> bool {
    forall|k: int| nsrc <= k < disc.len() ==> #[trigger] released_at(adj, disc, k)
}

/// A node with nothing pending keeps where it was released when a node
/// without an edge into it is appended.
proof fn lemma_released_by_push(adj: Seq<Seq<u32>>, disc: Seq<u32>, x: u32, i: int, a: int, j: int)
    requires
        0 <= i < disc.len(),
    ensures
        released_by(adj, disc.push(x), i, a, j) ==> released_by(adj, disc, i, a, j),
        released_by(adj, disc, i, a, j) && !is_edge(adj, x as int, disc[i] as int) ==> released_by(
            adj,
            disc.push(x),
            i,
            a,
            j,
        ),
{
    let dn = disc.push(x);
    if 0 <= a < i {
        assert(dn[a] == disc[a]);
        assert(dn[i] == disc[i]);
        if released_by(adj, dn, i, a, j) {
            assert forall|a2: int| a < a2 < disc.len() implies !is_edge(adj, #[trigger] disc[a2] as int, disc[i] as int) by {
                assert(dn[a2] == disc[a2]);
                assert(!is_edge(adj, dn[a2] as int, dn[i] as int));
            }
        }
        if released_by(adj, disc, i, a, j) && !is_edge(adj, x as int, disc[i] as int) {
            assert forall|a2: int| a < a2 < dn.len() implies !is_edge(adj, #[trigger] dn[a2] as int, dn[i] as int) by {
                if a2 < disc.len() {
                    assert(dn[a2] == disc[a2]);
                } else {
                    assert(dn[a2] == x);
                }
            }
        }
    }
}

/// Releasing the neighbour at position `jj` of the node at position `p - 1`
/// keeps the release records in order.
proof fn lemma_kahn_release(
    adj: Seq<Seq<u32>>,
    dq: Seq<u32>,
    order: Seq<u32>,
    nsrc: int,
    p: int,
    jj: int,
    x: u32,
)
    requires
        1 <= p == order.len() <= dq.len(),
        0 <= nsrc <= dq.len(),
        order == dq.take(p),
        forall|k: int| 0 <= k < dq.len() ==> #[trigger] dq[k] < adj.len(),
        forall|k: int| p <= k < dq.len() ==> !holds(order, #[trigger] dq[k] as int),
        !holds(dq, x as int),
        (x as int) < adj.len(),
        0 <= jj < adj[dq[p - 1] as int].len(),
        adj[dq[p - 1] as int][jj] == x,
        forall|j2: int| jj < j2 < adj[dq[p - 1] as int].len() ==> #[trigger] adj[dq[p - 1] as int][j2] != x,
        forall|k: int| 0 <= k < dq.len() ==> pending_in(adj, order, #[trigger] dq[k] as int, adj.len()) == 0,
        pending_in(adj, order, x as int, adj.len()) == 0,
        released_from(adj, dq, nsrc),
        released_in_order(adj, dq),
        released_before(adj, dq, p, jj),
    ensures
        released_from(adj, dq.push(x), nsrc),
        released_in_order(adj, dq.push(x)),
        released_before(adj, dq.push(x), p, jj + 1),
{
    let dn = dq.push(x);
    let m = dq.len() as int;
    assert(!holds(order, x as int)) by {
        if holds(order, x as int) {
            let k = choose|k: int| 0 <= k < order.len() && order[k] == x;
            assert(dq[k] == x);
        }
    }
    assert(dn[p - 1] == dq[p - 1]);
    assert(dn[m] == x);
    assert forall|a2: int| p - 1 < a2 < dn.len() implies !is_edge(adj, #[trigger] dn[a2] as int, dn[m] as int) by {
        if a2 < m {
            assert(dn[a2] == dq[a2]);
            lemma_no_edge_into_ready(adj, order, dq[a2] as int, x as int);
        } else {
            lemma_no_edge_into_ready(adj, order, x as int, x as int);
        }
    }
    assert(released_by(adj, dn, m, p - 1, jj));
    assert forall|i: int| 0 <= i < m implies !is_edge(adj, x as int, #[trigger] dq[i] as int) by {
        lemma_no_edge_into_ready(adj, order, x as int, dq[i] as int);
    }
    assert forall|k: int| nsrc <= k < dn.len() implies #[trigger] released_at(adj, dn, k) by {
        if k < m {
            assert(released_at(adj, dq, k));
            let (a, j) = choose|a: int, j: int| #[trigger] released_by(adj, dq, k, a, j);
            lemma_released_by_push(adj, dq, x, k, a, j);
            assert(!is_edge(adj, x as int, dq[k] as int));
        } else {
            assert(released_by(adj, dn, k, p - 1, jj));
        }
    }
    assert forall|i: int, a: int, j: int| #[trigger] released_by(adj, dn, i, a, j) implies a < p - 1 || (a == p - 1
        && j < jj + 1) by {
        if i < m {
            lemma_released_by_push(adj, dq, x, i, a, j);
        } else {
            lemma_released_by_unique(adj, dn, m, a, j, p - 1, jj);
        }
    }
    assert forall|i: int, k: int, a: int, j: int, a2: int, j2: int|
        0 <= i < k < dn.len() && #[trigger] released_by(adj, dn, i, a, j) && #[trigger] released_by(
            adj,
            dn,
            k,
            a2,
            j2,
        ) implies a < a2 || (a == a2 && j < j2) by {
        lemma_released_by_push(adj, dq, x, i, a, j);
        if k < m {
            lemma_released_by_push(adj, dq, x, k, a2, j2);
        } else {
            lemma_released_by_unique(adj, dn, m, a2, j2, p - 1, jj);
        }
    }
}

/// A node has no incoming edge exactly when no edge into it is pending
/// before any node is done.
proof fn lemma_source_iff_nothing_pending(adj: Seq<Seq<u32>>, v: int)
    requires
        0 <= v <= u32::MAX,
    ensures
        is_source(adj, v) <==> pending_in(adj, Seq::empty(), v, adj.len()) == 0,
{
    if pending_in(adj, Seq::empty(), v, adj.len()) == 0 {
        assert forall|u: int| !#[trigger] is_edge(adj, u, v) by {
            if 0 <= u < adj.len() {
                assert(!holds(Seq::<u32>::empty(), u));
                lemma_no_edge_into_ready(adj, Seq::empty(), u, v);
            }
        }
    }
    if is_source(adj, v) {
        assert forall|u: int| 0 <= u < adj.len() && !holds(Seq::<u32>::empty(), u) implies occurrences(
            #[trigger] adj[u],
            v,
        ) == 0 by {
            if occurrences(adj[u], v) != 0 {
                if forall|j: int| 0 <= j < adj[u].len() ==> adj[u][j] != v {
                    lemma_occurrences_none(adj[u], v);
                }
                let j = choose|j: int| 0 <= j < adj[u].len() && adj[u][j] == v;
                assert(adj[u][j] == v as u32);
                assert(is_edge(adj, u, v));
            }
        }
        lemma_pending_none(adj, Seq::empty(), v, adj.len());
    }
}

/// A graph in CSR layout, built from an edge list, with traversals run on the CPU.
pub struct GpuGraph {
    graph: CsrGraph,
}

impl GpuGraph {
    #[verifier::type_invariant]
    spec fn inv(self) -> bool {
        &&& self.graph.wf()
        &&& forall|k: int| 0 <= k < self.graph.tail().len() ==> #[trigger] self.graph.tail()[k] == 0
    }

    /// For each node, its neighbours in the order the edges were listed.
    pub closed spec fn adjacency(&self) -> Seq<Seq<u32>> {
        self.graph.adjacency()
    }

    /// How many listed edges had a source that is not a node; they belong to
    /// no row.
    pub closed spec fn stray_edges(&self) -> nat {
        self.graph.tail().len()
    }

    /// Build the graph with `n_nodes` nodes from an edge list.
    pub fn new(n_nodes: usize, edges: Vec<(u32, u32)>) -> (g: Self)
        requires
            n_nodes < usize::MAX,
            edges@.len() <= u32::MAX,
        ensures
            g.adjacency() == adjacency_of(n_nodes as nat, edges@),
            g.stray_edges() == stray_count(edges@, n_nodes as int),
    {
        let graph = CsrGraph::from_edges(n_nodes, edges.as_slice());
        GpuGraph { graph }
    }

    /// The graph with no node and no edge.
    pub fn empty() -> (g: Self)
        ensures
            g.adjacency() == Seq::<Seq<u32>>::empty(),
            g.stray_edges() == 0,
    {
        let g = Self::new(0, Vec::new());
        assert(adjacency_of(0, Seq::empty()) =~= Seq::<Seq<u32>>::empty());
        g
    }

    /// Replace the graph data.
    pub fn load(&mut self, n_nodes: usize, edges: Vec<(u32, u32)>)
        requires
            n_nodes < usize::MAX,
            edges@.len() <= u32::MAX,
        ensures
            final(self).adjacency() == adjacency_of(n_nodes as nat, edges@),
            final(self).stray_edges() == stray_count(edges@, n_nodes as int),
    {
        let graph = CsrGraph::from_edges(n_nodes, edges.as_slice());
        *self = GpuGraph { graph };
    }

    /// The CSR layout of the graph, as uploaded to a device: its rows are
    /// the adjacency, and the slots of stray edges after them hold 0.
    pub fn csr(&self) -> (g: &CsrGraph)
        ensures
            g.wf(),
            g.adjacency() == self.adjacency(),
            g.tail() == Seq::new(self.stray_edges(), |k: int| 0u32),
    {
        proof {
            use_type_invariant(self);
            assert(self.graph.tail() =~= Seq::new(self.stray_edges(), |k: int| 0u32));
        }
        &self.graph
    }

    /// Breadth-first search from `start`, recording each discovered node's
    /// distance. `None` when a node reachable from `start` is not a node of
    /// the graph.
    fn bfs_search(&self, start: u32) -> (res: Option<(Vec<u32>, Vec<u64>)>)
        requires
            (start as int) < self.adjacency().len(),
        ensures
            res is None <==> !closed_from(self.adjacency(), start as int),
            res matches Some((order, dist)) ==> {
                &&& is_bfs_order(self.adjacency(), start as int, order@)
                &&& dist@.len() == self.adjacency().len()
                &&& forall|v: int| 0 <= v < dist@.len() && dist@[v] != u64::MAX ==> #[trigger] dist@[v] < dist@.len()
                &&& forall|v: int|
                    0 <= v < dist@.len() ==> if reachable(self.adjacency(), start as int, v) {
                        #[trigger] dist@[v] == distance(self.adjacency(), start as int, v) && dist@[v] < dist@.len()
                    } else {
                        dist@[v] == u64::MAX
                    }
            },
    {
        proof {
            use_type_invariant(self);
        }
        let n = self.graph.n_nodes;
        let ghost adj = self.adjacency();
        let ghost s = start as int;
        let mut dist: Vec<u64> = vec![u64::MAX; n];
        dist.set(start as usize, 0);
        let mut order: Vec<u32> = Vec::new();
        let mut queue: VecDeque<u32> = VecDeque::new();
        queue.push_back(start);
        proof {
            assert(reach_set(adj, s, 0).contains(s));
            let disc = order@ + queue@;
            assert(disc =~= seq![start]);
            assert forall|v: int| 0 <= v < n implies (#[trigger] dist@[v] != u64::MAX <==> holds(disc, v)) by {
                if v == s {
                    assert(disc[0] == v);
                }
            }
        }
        while queue.len() > 0
            invariant
                self.graph.wf(),
                n == self.graph.n_nodes,
                adj == self.adjacency(),
                adj.len() == n,
                s == start as int,
                bfs_state(adj, s, order@ + queue@, dist@),
                bfs_expanded(adj, order@ + queue@, dist@, order@.len() as int),
                all_found(adj, order@ + queue@),
                found_in_order(adj, order@ + queue@),
                found_before(adj, order@ + queue@, order@.len() + 1int, 0),
                queue@.len() > 0 ==> forall|a: int|
                    0 <= a < (order@ + queue@).len() ==> dist@[#[trigger] (order@ + queue@)[a] as int]
                        <= dist@[queue@[0] as int] + 1,
            decreases n - order@.len(),
        {
            let ghost disc0 = order@ + queue@;
            let node = queue.pop_front().unwrap();
            order.push(node);
            let ghost p = order@.len() as int;
            let ghost disc = order@ + queue@;
            assert(disc =~= disc0);
            assert(disc[p - 1] == node);
            let d = dist[node as usize];
            let s_row = self.graph.row_ptr[node as usize] as usize;
            let e_row = self.graph.row_ptr[node as usize + 1] as usize;
            assert(adj[node as int] == self.graph.row(node as int));
            let mut j = s_row;
            while j < e_row
                invariant
                    self.graph.wf(),
                    n == self.graph.n_nodes,
                    adj == self.adjacency(),
                    adj.len() == n,
                    s == start as int,
                    (node as int) < n,
                    order@.len() == p,
                    1 <= p,
                    (order@ + queue@)[p - 1] == node,
                    d == dist@[node as int],
                    bfs_state(adj, s, order@ + queue@, dist@),
                    bfs_expanded(adj, order@ + queue@, dist@, p - 1),
                    all_found(adj, order@ + queue@),
                    found_in_order(adj, order@ + queue@),
                    found_before(adj, order@ + queue@, p, j - s_row as int),
                    forall|a: int|
                        p - 1 <= a < (order@ + queue@).len() ==> dist@[#[trigger] (order@ + queue@)[a] as int] >= d,
                    forall|a: int|
                        0 <= a < (order@ + queue@).len() ==> dist@[#[trigger] (order@ + queue@)[a] as int] <= d + 1,
                    s_row == self.graph.row_ptr@[node as int],
                    e_row == self.graph.row_ptr@[node as int + 1],
                    s_row <= j <= e_row,
                    adj[node as int] == self.graph.col_idx@.subrange(s_row as int, e_row as int),
                    forall|jj: int|
                        0 <= jj < j - s_row ==> #[trigger] adj[node as int][jj] < n && dist@[adj[node as int][jj] as int]
                            != u64::MAX,
                decreases e_row - j,
            {
                let nbr = self.graph.col_idx[j];
                let ghost dq = order@ + queue@;
                assert(adj[node as int][j - s_row] == nbr);
                assert(is_edge(adj, node as int, nbr as int));
                proof {
                    let a_node = p - 1;
                    assert(is_distance(adj, s, dq[a_node] as int, dist@[dq[a_node] as int] as nat));
                    lemma_reach_step(adj, s, node as int, nbr as int, d as nat);
                }
                if (nbr as usize) >= n {
                    proof {
                        assert(reachable(adj, s, nbr as int));
                    }
                    return None;
                }
                if dist[nbr as usize] == u64::MAX {
                    proof {
                        assert(!holds(dq, nbr as int));
                        if reach_within(adj, s, nbr as int, d as nat) {
                            lemma_bfs_frontier(adj, s, dq, dist@, p - 1, d as nat, d as nat, nbr as int);
                        }
                        assert(is_distance(adj, s, nbr as int, (d + 1) as nat));
                        let dn = dq.push(nbr);
                        assert forall|a: int| 0 <= a < dn.len() implies #[trigger] dn[a] < n by {}
                        assert(dn.no_duplicates());
                        lemma_distinct_nodes(dn, n as int);
                        assert(dq[p - 1] == node);
                        lemma_bfs_found(adj, dq, dist@, p, j - s_row, nbr);
                    }
                    let ghost dist0 = dist@;
                    dist.set(nbr as usize, d + 1);
                    queue.push_back(nbr);
                    proof {
                        let dn = order@ + queue@;
                        assert(dn =~= dq.push(nbr));
                        assert forall|a: int| 0 <= a < dq.len() implies dist@[#[trigger] dq[a] as int]
                            == dist0[dq[a] as int] by {}
                        assert(bfs_state(adj, s, dn, dist@)) by {
                            assert forall|v: int| 0 <= v < n implies (#[trigger] dist@[v] != u64::MAX
                                <==> holds(dn, v)) by {
                                if v == nbr as int {
                                    assert(dn[dn.len() - 1] == v);
                                } else if holds(dq, v) {
                                    let a = choose|a: int| 0 <= a < dq.len() && dq[a] == v;
                                    assert(dn[a] == v);
                                } else if holds(dn, v) {
                                    let a = choose|a: int| 0 <= a < dn.len() && dn[a] == v;
                                    if a < dq.len() {
                                        assert(dq[a] == v);
                                    }
                                }
                            }
                        }
                    }
                }
                j = j + 1;
            }
            proof {
                let dq = order@ + queue@;
                assert forall|a: int, jj: int|
                    0 <= a < p && 0 <= jj < adj[dq[a] as int].len() implies #[trigger] adj[dq[a] as int][jj]
                        < adj.len() && dist@[adj[dq[a] as int][jj] as int] != u64::MAX by {
                    if a == p - 1 {
                        assert(dq[a] == node);
                    }
                }
                if queue@.len() > 0 {
                    assert(dq[p] == queue@[0]);
                }
                assert forall|i: int, a: int, jj: int|
                    0 < i < dq.len() && #[trigger] discovered_by(adj, dq, i, a, jj) implies a < order@.len() + 1 - 1
                        || (a == order@.len() + 1 - 1 && jj < 0) by {}
            }
        }
        proof {
            let disc = order@ + queue@;
            assert(disc =~= order@);
            let set = Set::new(|v: int| 0 <= v < n && holds(order@, v));
            assert(order@[0] == start);
            assert(set.contains(s));
            assert forall|u: int, w: int| set.contains(u) && #[trigger] is_edge(adj, u, w) implies set.contains(w) by {
                let a = choose|a: int| 0 <= a < order@.len() && order@[a] == u;
                let jj = choose|jj: int| 0 <= jj < adj[u].len() && adj[u][jj] == w as u32;
                assert(adj[disc[a] as int][jj] < n);
                assert(dist@[w] != u64::MAX);
            }
            assert forall|v: int| #[trigger] reachable(adj, s, v) implies 0 <= v < n && holds(order@, v) by {
                let k = choose|k: nat| #[trigger] reach_within(adj, s, v, k);
                lemma_closed_set_holds_reachable(adj, s, set, v, k);
            }
            assert forall|i: int| 0 <= i < order@.len() implies reachable(adj, s, #[trigger] order@[i] as int)
                && distance(adj, s, order@[i] as int) == dist@[order@[i] as int] by {
                assert(is_distance(adj, s, disc[i] as int, dist@[disc[i] as int] as nat));
                lemma_distance_unique(adj, s, order@[i] as int, dist@[order@[i] as int] as nat);
            }
            assert forall|v: int| 0 <= v < dist@.len() implies if reachable(adj, s, v) {
                #[trigger] dist@[v] == distance(adj, s, v) && dist@[v] < dist@.len()
            } else {
                dist@[v] == u64::MAX
            } by {
                if holds(order@, v) {
                    let i = choose|i: int| 0 <= i < order@.len() && order@[i] == v;
                    assert(reachable(adj, s, order@[i] as int));
                    assert(dist@[disc[i] as int] < disc.len());
                }
            }
            assert forall|v: int| 0 <= v < dist@.len() && dist@[v] != u64::MAX implies #[trigger] dist@[v] < dist@.len() by {
                let i = choose|i: int| 0 <= i < order@.len() && order@[i] == v;
                assert(dist@[disc[i] as int] < disc.len());
            }
        }
        Some((order, dist))
    }

    /// Breadth-first search from `start`; returns the visited node IDs in
    /// level order. Empty when `start` is not a node.
    pub fn bfs(&self, start: u32) -> (order: Vec<u32>)
        requires
            (start as int) < self.adjacency().len() ==> closed_from(self.adjacency(), start as int),
        ensures
            (start as int) >= self.adjacency().len() ==> order@.len() == 0,
            (start as int) < self.adjacency().len() ==> is_bfs_order(self.adjacency(), start as int, order@),
    {
        proof {
            use_type_invariant(self);
        }
        if start as usize >= self.graph.n_nodes {
            return Vec::new();
        }
        let (order, _dist) = self.bfs_search(start).unwrap();
        order
    }

    /// Breadth-first search from `start` that reports, with `None`, a node
    /// reachable from `start` that is not a node of the graph (where `bfs`
    /// cannot run).
    pub fn checked_bfs(&self, start: u32) -> (res: Option<Vec<u32>>)
        ensures
            res is None <==> (start as int) < self.adjacency().len() && !closed_from(self.adjacency(), start as int),
            res matches Some(order) ==> {
                &&& (start as int) >= self.adjacency().len() ==> order@.len() == 0
                &&& (start as int) < self.adjacency().len() ==> is_bfs_order(self.adjacency(), start as int, order@)
            },
    {
        proof {
            use_type_invariant(self);
        }
        if start as usize >= self.graph.n_nodes {
            return Some(Vec::new());
        }
        match self.bfs_search(start) {
            Some((order, _dist)) => Some(order),
            None => None,
        }
    }

    /// Shortest-path distances (in edges) from `start`: a `(node, distance)`
    /// pair for each reachable node, by increasing node ID. Empty when
    /// `start` is not a node.
    pub fn shortest_paths(&self, start: u32) -> (pairs: Vec<(u32, u32)>)
        requires
            self.adjacency().len() <= u32::MAX,
            (start as int) < self.adjacency().len() ==> closed_from(self.adjacency(), start as int),
        ensures
            (start as int) >= self.adjacency().len() ==> pairs@.len() == 0,
            (start as int) < self.adjacency().len() ==> is_distance_table(self.adjacency(), start as int, pairs@),
    {
        proof {
            use_type_invariant(self);
        }
        if start as usize >= self.graph.n_nodes {
            return Vec::new();
        }
        let ghost adj = self.adjacency();
        let (_order, dist) = self.bfs_search(start).unwrap();
        let n = self.graph.n_nodes;
        let mut pairs: Vec<(u32, u32)> = Vec::new();
        let mut i: usize = 0;
        while i < n
            invariant
                n == dist@.len(),
                n <= u32::MAX,
                adj.len() == n,
                i <= n,
                forall|v: int| 0 <= v < n && dist@[v] != u64::MAX ==> #[trigger] dist@[v] < n,
                forall|v: int| 0 <= v < n ==> if reachable(adj, start as int, v) {
                    #[trigger] dist@[v] == distance(adj, start as int, v) && dist@[v] < n
                } else {
                    dist@[v] == u64::MAX
                },
                forall|a: int, b: int| 0 <= a < b < pairs@.len() ==> #[trigger] pairs@[a].0 < #[trigger] pairs@[b].0,
                forall|a: int| 0 <= a < pairs@.len() ==> #[trigger] pairs@[a].0 < i,
                forall|a: int|
                    0 <= a < pairs@.len() ==> reachable(adj, start as int, #[trigger] pairs@[a].0 as int)
                        && pairs@[a].1 == distance(adj, start as int, pairs@[a].0 as int),
                forall|v: int|
                    0 <= v < i && #[trigger] reachable(adj, start as int, v) ==> exists|a: int|
                        0 <= a < pairs@.len() && #[trigger] pairs@[a].0 == v,
            decreases n - i,
        {
            let d = dist[i];
            assert(if reachable(adj, start as int, i as int) {
                d == distance(adj, start as int, i as int) && d < n
            } else {
                d == u64::MAX
            });
            if d != u64::MAX {
                assert(d < n);
                let ghost old_pairs = pairs@;
                pairs.push((i as u32, d as u32));
                proof {
                    assert(pairs@[old_pairs.len() as int].0 == i);
                    assert(pairs@[old_pairs.len() as int].1 == distance(adj, start as int, i as int));
                    assert forall|v: int|
                        0 <= v < i + 1 && #[trigger] reachable(adj, start as int, v) implies exists|a: int|
                            0 <= a < pairs@.len() && #[trigger] pairs@[a].0 == v by {
                        if v < i {
                            let a = choose|a: int| 0 <= a < old_pairs.len() && #[trigger] old_pairs[a].0 == v;
                            assert(pairs@[a].0 == v);
                        } else {
                            assert(pairs@[old_pairs.len() as int].0 == v);
                        }
                    }
                }
            }
            i = i + 1;
        }
        proof {
            assert forall|v: int| #[trigger] reachable(adj, start as int, v) implies exists|a: int|
                0 <= a < pairs@.len() && #[trigger] pairs@[a].0 == v by {
                assert(0 <= v < n);
            }
        }
        pairs
    }

    /// Shortest-path distances from `start`, or `None` where `shortest_paths`
    /// cannot run: a node reachable from `start` is not a node of the graph,
    /// or node IDs exceed `u32`.
    pub fn checked_shortest_paths(&self, start: u32) -> (res: Option<Vec<(u32, u32)>>)
        ensures
            res is None <==> !(self.adjacency().len() <= u32::MAX && ((start as int) < self.adjacency().len()
                ==> closed_from(self.adjacency(), start as int))),
            res matches Some(pairs) ==> {
                &&& (start as int) >= self.adjacency().len() ==> pairs@.len() == 0
                &&& (start as int) < self.adjacency().len() ==> is_distance_table(
                    self.adjacency(),
                    start as int,
                    pairs@,
                )
            },
    {
        proof {
            use_type_invariant(self);
        }
        if self.graph.n_nodes > u32::MAX as usize {
            return None;
        }
        if self.checked_bfs(start).is_none() {
            return None;
        }
        Some(self.shortest_paths(start))
    }

    /// Depth-first search from `start`. `None` when a node reachable from
    /// `start` is not a node of the graph.
    fn dfs_search(&self, start: u32) -> (res: Option<Vec<u32>>)
        requires
            (start as int) < self.adjacency().len(),
        ensures
            res is None <==> !closed_from(self.adjacency(), start as int),
            res matches Some(order) ==> is_dfs_order(self.adjacency(), start as int, order@),
    {
        proof {
            use_type_invariant(self);
        }
        let n = self.graph.n_nodes;
        let ghost adj = self.adjacency();
        let ghost s = start as int;
        let mut visited: Vec<bool> = vec![false; n];
        let mut order: Vec<u32> = Vec::new();
        let mut stack: Vec<u32> = Vec::new();
        stack.push(start);
        // For each stack entry, the visited node and neighbour position it was pushed for.
        let ghost mut tags: Seq<(int, int)> = seq![(-1int, 0int)];
        proof {
            assert(reach_set(adj, s, 0).contains(s));
            assert(reach_within(adj, s, s, 0));
        }
        while stack.len() > 0
            invariant
                self.graph.wf(),
                n == self.graph.n_nodes,
                adj == self.adjacency(),
                adj.len() == n,
                s == start as int,
                0 <= s < n,
                visited@.len() == n,
                order@.len() <= n,
                order@.no_duplicates(),
                forall|i: int| 0 <= i < order@.len() ==> #[trigger] order@[i] < n,
                forall|t: int| 0 <= t < stack@.len() ==> #[trigger] stack@[t] < n,
                forall|v: int| 0 <= v < n ==> (#[trigger] visited@[v] <==> holds(order@, v)),
                order@.len() == 0 ==> stack@ == seq![start] && tags == seq![(-1int, 0int)],
                order@.len() > 0 ==> order@[0] == start,
                forall|i: int| 0 <= i < order@.len() ==> reachable(adj, s, #[trigger] order@[i] as int),
                forall|t: int| 0 <= t < stack@.len() ==> reachable(adj, s, #[trigger] stack@[t] as int),
                forall|i: int|
                    0 < i < order@.len() ==> exists|a: int|
                        0 <= a < i && is_edge(adj, order@[a] as int, #[trigger] order@[i] as int),
                forall|i: int| 0 < i < order@.len() ==> #[trigger] dfs_found_at(adj, order@, i),
                forall|t: int|
                    0 <= t < stack@.len() ==> #[trigger] stack@[t] == start || exists|a: int|
                        0 <= a < order@.len() && is_edge(adj, order@[a] as int, stack@[t] as int),
                order@.len() > 0 ==> tags_fit(adj, order@, stack@, tags),
                tags_sorted(tags),
                tags_cover(adj, order@, tags, order@.len() + 1int, 0),
                forall|a: int, jj: int|
                    0 <= a < order@.len() && 0 <= jj < adj[order@[a] as int].len() ==> #[trigger] adj[order@[a] as int][jj]
                        < n && (visited@[adj[order@[a] as int][jj] as int] || holds(
                        stack@,
                        adj[order@[a] as int][jj] as int,
                    )),
            decreases n - order@.len(), stack@.len(),
        {
            let ghost stack0 = stack@;
            let ghost order0 = order@;
            let ghost tags0 = tags;
            let node = stack.pop().unwrap();
            proof {
                tags = tags.drop_last();
            }
            assert(stack0 =~= stack@.push(node));
            assert forall|t: int| 0 <= t < stack@.len() implies #[trigger] stack@[t] == start || exists|a: int|
                0 <= a < order0.len() && is_edge(adj, order0[a] as int, stack@[t] as int) by {
                assert(stack@[t] == stack0[t]);
            }
            if !visited[node as usize] {
                proof {
                    if order0.len() > 0 {
                        lemma_dfs_next(adj, order0, stack0, tags0);
                    }
                }
                visited.set(node as usize, true);
                order.push(node);
                let ghost p = order@.len() as int;
                proof {
                    assert(!holds(order0, node as int));
                    assert(order@.no_duplicates());
                    lemma_distinct_nodes(order@, n as int);
                    assert forall|v: int| 0 <= v < n implies (#[trigger] visited@[v] <==> holds(order@, v)) by {
                        if v == node as int {
                            assert(order@[p - 1] == v);
                        } else if holds(order0, v) {
                            let i = choose|i: int| 0 <= i < order0.len() && order0[i] == v;
                            assert(order@[i] == v);
                        } else if holds(order@, v) {
                            let i = choose|i: int| 0 <= i < order@.len() && order@[i] == v;
                            if i < order0.len() {
                                assert(order0[i] == v);
                            }
                        }
                    }
                    if p > 1 {
                        if node == start {
                            assert(order0[0] == start);
                            assert(holds(order0, node as int));
                        }
                        let a = choose|a: int| 0 <= a < order0.len() && is_edge(adj, order0[a] as int, node as int);
                        assert(order@[a] == order0[a]);
                        assert(0 <= a < p - 1 && is_edge(adj, order@[a] as int, order@[p - 1] as int));
                    } else {
                        assert(stack0 == seq![start]);
                    }
                    assert forall|i: int| 0 < i < order@.len() implies exists|a: int|
                        0 <= a < i && is_edge(adj, order@[a] as int, #[trigger] order@[i] as int) by {
                        if i < p - 1 {
                            let a = choose|a: int| 0 <= a < i && is_edge(adj, order0[a] as int, order0[i] as int);
                            assert(order@[a] == order0[a]);
                        }
                    }
                    assert forall|i: int| 0 < i < order@.len() implies #[trigger] dfs_found_at(adj, order@, i) by {
                        if i < p - 1 {
                            assert(dfs_found_at(adj, order0, i));
                            let (a, j) = choose|a: int, j: int| #[trigger] dfs_step(adj, order0, i, a, j);
                            lemma_dfs_step_push(adj, order0, node, i, a, j);
                        } else {
                            assert(order@ =~= order0.push(stack0.last()));
                            assert(dfs_step(adj, order@, i, tags0.last().0, tags0.last().1));
                        }
                    }
                    assert forall|t: int| 0 <= t < stack@.len() implies #[trigger] stack@[t] == start || exists|a: int|
                        0 <= a < order@.len() && is_edge(adj, order@[a] as int, stack@[t] as int) by {
                        if stack@[t] != start {
                            let a = choose|a: int| 0 <= a < order0.len() && is_edge(adj, order0[a] as int, stack@[t] as int);
                            assert(order@[a] == order0[a]);
                        }
                    }
                    assert forall|a: int, jj: int|
                        0 <= a < p - 1 && 0 <= jj < adj[order@[a] as int].len() implies #[trigger] adj[order@[a] as int][jj]
                            < n && (visited@[adj[order@[a] as int][jj] as int] || holds(
                            stack@,
                            adj[order@[a] as int][jj] as int,
                        )) by {
                        assert(order@[a] == order0[a]);
                        let w = adj[order0[a] as int][jj] as int;
                        if w != node as int && holds(stack0, w) {
                            let t = choose|t: int| 0 <= t < stack0.len() && stack0[t] == w;
                            assert(stack@[t] == w);
                        }
                    }
                    if order0.len() > 0 {
                        lemma_tags_after_visit(adj, order0, stack0, tags0, node);
                    }
                }
                let s_row = self.graph.row_ptr[node as usize] as usize;
                let e_row = self.graph.row_ptr[node as usize + 1] as usize;
                assert(adj[node as int] == self.graph.row(node as int));
                let ghost k_node = choose|k: nat| #[trigger] reach_within(adj, s, node as int, k);
                let mut j = e_row;
                while j > s_row
                    invariant
                        self.graph.wf(),
                        n == self.graph.n_nodes,
                        adj == self.adjacency(),
                        adj.len() == n,
                        s == start as int,
                        0 <= s < n,
                        (node as int) < n,
                        reach_within(adj, s, node as int, k_node),
                        visited@.len() == n,
                        order@.len() == p,
                        1 <= p,
                        order@.len() <= n,
                        order@[p - 1] == node,
                        order@.no_duplicates(),
                        forall|i: int| 0 <= i < order@.len() ==> #[trigger] order@[i] < n,
                        forall|t: int| 0 <= t < stack@.len() ==> #[trigger] stack@[t] < n,
                        forall|v: int| 0 <= v < n ==> (#[trigger] visited@[v] <==> holds(order@, v)),
                        order@[0] == start,
                        forall|i: int| 0 <= i < order@.len() ==> reachable(adj, s, #[trigger] order@[i] as int),
                        forall|t: int| 0 <= t < stack@.len() ==> reachable(adj, s, #[trigger] stack@[t] as int),
                        forall|i: int|
                            0 < i < order@.len() ==> exists|a: int|
                                0 <= a < i && is_edge(adj, order@[a] as int, #[trigger] order@[i] as int),
                        forall|i: int| 0 < i < order@.len() ==> #[trigger] dfs_found_at(adj, order@, i),
                        tags_fit(adj, order@, stack@, tags),
                        tags_sorted(tags),
                        forall|t: int|
                            0 <= t < tags.len() ==> #[trigger] tags[t].0 < p - 1 || (tags[t].0 == p - 1 && tags[t].1
                                >= j - s_row),
                        tags_cover(adj, order@, tags, p, j - s_row as int),
                        forall|t: int|
                            0 <= t < stack@.len() ==> #[trigger] stack@[t] == start || exists|a: int|
                                0 <= a < order@.len() && is_edge(adj, order@[a] as int, stack@[t] as int),
                        forall|a: int, jj: int|
                            0 <= a < p - 1 && 0 <= jj < adj[order@[a] as int].len() ==> #[trigger] adj[order@[a] as int][jj]
                                < n && (visited@[adj[order@[a] as int][jj] as int] || holds(
                                stack@,
                                adj[order@[a] as int][jj] as int,
                            )),
                        s_row == self.graph.row_ptr@[node as int],
                        e_row == self.graph.row_ptr@[node as int + 1],
                        s_row <= j <= e_row,
                        adj[node as int] == self.graph.col_idx@.subrange(s_row as int, e_row as int),
                        forall|jj: int|
                            j - s_row <= jj < adj[node as int].len() ==> #[trigger] adj[node as int][jj] < n && (
                            visited@[adj[node as int][jj] as int] || holds(stack@, adj[node as int][jj] as int)),
                    decreases j,
                {
                    j = j - 1;
                    let nbr = self.graph.col_idx[j];
                    assert(adj[node as int][j - s_row] == nbr);
                    assert(is_edge(adj, node as int, nbr as int));
                    proof {
                        lemma_reach_step(adj, s, node as int, nbr as int, k_node);
                    }
                    if (nbr as usize) >= n {
                        proof {
                            assert(reachable(adj, s, nbr as int));
                        }
                        return None;
                    }
                    if !visited[nbr as usize] {
                        let ghost st0 = stack@;
                        let ghost tg0 = tags;
                        stack.push(nbr);
                        proof {
                            tags = tags.push((p - 1, j - s_row as int));
                            lemma_tags_after_push(adj, order@, st0, tg0, p, j - s_row as int, nbr);
                            assert(order@[p - 1] == node);
                            assert forall|t: int| 0 <= t < stack@.len() implies #[trigger] stack@[t] == start
                                || exists|a: int| 0 <= a < order@.len() && is_edge(adj, order@[a] as int, stack@[t] as int) by {
                                if t < st0.len() {
                                    assert(stack@[t] == st0[t]);
                                } else {
                                    assert(is_edge(adj, order@[p - 1] as int, stack@[t] as int));
                                }
                            }
                            assert forall|w: int| holds(st0, w) implies holds(stack@, w) by {
                                let t = choose|t: int| 0 <= t < st0.len() && st0[t] == w;
                                assert(stack@[t] == w);
                            }
                            assert(stack@[st0.len() as int] == nbr);
                            assert(holds(stack@, nbr as int));
                        }
                    } else {
                        proof {
                            assert(holds(order@, nbr as int));
                        }
                    }
                }
            } else {
                proof {
                    assert(holds(order0, node as int));
                    if order0.len() > 0 {
                        lemma_tags_after_skip(adj, order0, stack0, tags0);
                    }
                    assert forall|a: int, jj: int|
                        0 <= a < order@.len() && 0 <= jj < adj[order@[a] as int].len() implies #[trigger] adj[order@[a] as int][jj]
                            < n && (visited@[adj[order@[a] as int][jj] as int] || holds(
                            stack@,
                            adj[order@[a] as int][jj] as int,
                        )) by {
                        let w = adj[order0[a] as int][jj] as int;
                        if w != node as int && holds(stack0, w) {
                            let t = choose|t: int| 0 <= t < stack0.len() && stack0[t] == w;
                            assert(stack@[t] == w);
                        }
                    }
                }
            }
        }
        proof {
            let set = Set::new(|v: int| 0 <= v < n && holds(order@, v));
            assert(order@.len() > 0);
            assert(order@[0] == start);
            assert(set.contains(s));
            assert forall|u: int, w: int| set.contains(u) && #[trigger] is_edge(adj, u, w) implies set.contains(w) by {
                let a = choose|a: int| 0 <= a < order@.len() && order@[a] == u;
                let jj = choose|jj: int| 0 <= jj < adj[u].len() && adj[u][jj] == w as u32;
                assert(adj[order@[a] as int][jj] < n);
                assert(visited@[w]);
            }
            assert forall|v: int| #[trigger] reachable(adj, s, v) implies 0 <= v < n && holds(order@, v) by {
                let k = choose|k: nat| #[trigger] reach_within(adj, s, v, k);
                lemma_closed_set_holds_reachable(adj, s, set, v, k);
            }
        }
        Some(order)
    }

    /// Depth-first search from `start`; returns the visited node IDs in
    /// depth-first pre-order. Empty when `start` is not a node.
    pub fn dfs(&self, start: u32) -> (order: Vec<u32>)
        requires
            (start as int) < self.adjacency().len() ==> closed_from(self.adjacency(), start as int),
        ensures
            (start as int) >= self.adjacency().len() ==> order@.len() == 0,
            (start as int) < self.adjacency().len() ==> is_dfs_order(self.adjacency(), start as int, order@),
    {
        proof {
            use_type_invariant(self);
        }
        if start as usize >= self.graph.n_nodes {
            return Vec::new();
        }
        self.dfs_search(start).unwrap()
    }

    /// Depth-first search from `start` that reports, with `None`, a node
    /// reachable from `start` that is not a node of the graph (where `dfs`
    /// cannot run).
    pub fn checked_dfs(&self, start: u32) -> (res: Option<Vec<u32>>)
        ensures
            res is None <==> (start as int) < self.adjacency().len() && !closed_from(self.adjacency(), start as int),
            res matches Some(order) ==> {
                &&& (start as int) >= self.adjacency().len() ==> order@.len() == 0
                &&& (start as int) < self.adjacency().len() ==> is_dfs_order(self.adjacency(), start as int, order@)
            },
    {
        proof {
            use_type_invariant(self);
        }
        if start as usize >= self.graph.n_nodes {
            return Some(Vec::new());
        }
        self.dfs_search(start)
    }

    /// Whether every neighbour listed in a row is a node ID below the node
    /// count.
    pub fn targets_are_nodes(&self) -> (b: bool)
        ensures
            b == targets_in_range(self.adjacency()),
    {
        proof {
            use_type_invariant(self);
        }
        let n = self.graph.n_nodes;
        let m = self.graph.row_ptr[n] as usize;
        let ghost g = self.graph;
        let mut k: usize = 0;
        while k < m
            invariant
                g == self.graph,
                g.wf(),
                n == g.n_nodes,
                m == g.row_ptr[n as int],
                k <= m,
                forall|q: int| 0 <= q < k ==> #[trigger] g.col_idx@[q] < n,
            decreases m - k,
        {
            if self.graph.col_idx[k] as usize >= n {
                proof {
                    assert(g.row_ptr[0] <= k);
                    let u = lemma_row_of(g, k as int, 0);
                    assert(g.row_ptr[u] <= g.row_ptr[u + 1]);
                    assert(g.adjacency()[u] == g.row(u));
                    assert(g.adjacency()[u][k - g.row_ptr[u]] == g.col_idx@[k as int]);
                }
                return false;
            }
            k = k + 1;
        }
        proof {
            assert forall|u: int, j: int|
                0 <= u < g.adjacency().len() && 0 <= j < g.adjacency()[u].len() implies #[trigger] g.adjacency()[u][j]
                    < g.adjacency().len() by {
                assert(g.row_ptr[u] <= g.row_ptr[u + 1]);
                assert(g.row_ptr[u + 1] <= g.row_ptr[n as int]);
                assert(g.adjacency()[u][j] == g.col_idx@[g.row_ptr[u] + j]);
            }
        }
        true
    }

    /// Topological sort (Kahn's algorithm); `None` when the graph has a
    /// cycle, or when there are more nodes than `u32` IDs.
    pub fn topo_sort(&self) -> (res: Option<Vec<u32>>)
        requires
            targets_in_range(self.adjacency()),
        ensures
            res is Some <==> self.adjacency().len() <= u32::MAX && !has_cycle(self.adjacency()),
            res matches Some(order) ==> is_kahn_order(self.adjacency(), order@),
    {
        proof {
            use_type_invariant(self);
        }
        let n = self.graph.n_nodes;
        if n > u32::MAX as usize {
            // Node IDs are `u32`: no order of distinct IDs can list every node.
            return None;
        }
        proof {
            law_acyclic_iff_no_cycle(self.adjacency());
        }
        // Slots past the last row belong to no node.
        let m = self.graph.row_ptr[n] as usize;
        let ghost g = self.graph;
        let ghost adj = self.adjacency();
        let ghost col = g.col_idx@;
        proof {
            assert forall|q: int| 0 <= q < m implies #[trigger] col[q] < n by {
                assert(g.row_ptr[0] <= q);
                let u = lemma_row_of(g, q, 0);
                assert(g.row_ptr[u] <= g.row_ptr[u + 1]);
                assert(adj[u] == g.row(u));
                assert(adj[u][q - g.row_ptr[u]] == col[q]);
            }
        }
        // In-degree of every node, counting the slots of the rows.
        let mut in_deg: Vec<u32> = vec![0u32; n];
        let mut k: usize = 0;
        while k < m
            invariant
                g == self.graph,
                g.wf(),
                col == g.col_idx@,
                n == g.n_nodes,
                m <= col.len(),
                col.len() <= u32::MAX,
                k <= m,
                forall|q: int| 0 <= q < m ==> #[trigger] col[q] < n,
                in_deg@.len() == n,
                forall|v: int| 0 <= v < n ==> #[trigger] in_deg@[v] == occurrences(col.take(k as int), v),
            decreases m - k,
        {
            let v = self.graph.col_idx[k];
            proof {
                assert forall|w: int| 0 <= w < n implies occurrences(col.take(k + 1), w) == occurrences(
                    col.take(k as int),
                    w,
                ) + if col[k as int] == w {
                    1nat
                } else {
                    0nat
                } by {
                    assert(col.take(k + 1).drop_last() =~= col.take(k as int));
                }
                lemma_occurrences_le_len(col.take(k as int), v as int);
            }
            let c = in_deg[v as usize];
            in_deg.set(v as usize, c + 1);
            k = k + 1;
        }
        proof {
            assert(col.take(m as int) =~= col.subrange(0, m as int));
            assert forall|v: int| 0 <= v < n implies #[trigger] in_deg@[v] == pending_in(adj, Seq::empty(), v, n as nat) by {
                lemma_rows_occurrences(g, v, n as nat);
            }
        }
        // Nodes with no incoming edge, by increasing ID.
        let mut queue: VecDeque<u32> = VecDeque::new();
        let n32 = n as u32;
        let mut i: u32 = 0;
        while i < n32
            invariant
                n32 == n,
                i <= n32,
                in_deg@.len() == n,
                forall|a: int, b: int| 0 <= a < b < queue@.len() ==> #[trigger] queue@[a] < #[trigger] queue@[b],
                forall|a: int| 0 <= a < queue@.len() ==> #[trigger] queue@[a] < i,
                forall|v: int| 0 <= v < i ==> (#[trigger] in_deg@[v] == 0 <==> holds(queue@, v)),
            decreases n32 - i,
        {
            if in_deg[i as usize] == 0 {
                let ghost q0 = queue@;
                queue.push_back(i);
                proof {
                    assert forall|v: int| 0 <= v < i + 1 implies (#[trigger] in_deg@[v] == 0 <==> holds(queue@, v)) by {
                        if v < i && holds(q0, v) {
                            let a = choose|a: int| 0 <= a < q0.len() && q0[a] == v;
                            assert(queue@[a] == v);
                        }
                        if holds(queue@, v) && v < i {
                            let a = choose|a: int| 0 <= a < queue@.len() && queue@[a] == v;
                            assert(a < q0.len());
                            assert(q0[a] == v);
                        }
                        if v == i {
                            assert(queue@[q0.len() as int] == v);
                        }
                    }
                }
            } else {
                proof {
                    assert(!holds(queue@, i as int));
                }
            }
            i = i + 1;
        }
        let mut order: Vec<u32> = Vec::with_capacity(n);
        // The nodes without incoming edges, which open the order.
        let ghost q0 = queue@;
        let ghost nsrc = q0.len() as int;
        proof {
            let d = order@ + queue@;
            assert(d =~= queue@);
            assert forall|v: int| 0 <= v < n implies (#[trigger] holds(q0, v) <==> pending_in(adj, Seq::empty(), v, n as nat) == 0) by {
                assert(in_deg@[v] == pending_in(adj, Seq::empty(), v, n as nat));
            }
            assert forall|i: int, a: int, j: int| !#[trigger] released_by(adj, d, i, a, j) by {
                if released_by(adj, d, i, a, j) {
                    assert(holds(d, d[i] as int));
                    assert(!holds(Seq::<u32>::empty(), d[a] as int));
                    lemma_no_edge_into_ready(adj, Seq::empty(), d[a] as int, d[i] as int);
                    assert(adj[d[a] as int][j] == d[i]);
                    assert(is_edge(adj, d[a] as int, d[i] as int));
                }
            }
            assert(released_from(adj, d, nsrc));
            assert(released_in_order(adj, d));
            assert(released_before(adj, d, 1, 0));
            assert(queue@.no_duplicates());
            lemma_distinct_nodes(queue@, n as int);
            assert forall|a: int, b: int|
                0 <= a < d.len() && 0 <= b < d.len() && is_edge(adj, #[trigger] d[a] as int, #[trigger] d[b] as int)
                implies a < b by {
                assert(holds(d, d[b] as int));
                assert(in_deg@[d[b] as int] == 0);
                assert(!holds(Seq::<u32>::empty(), d[a] as int));
                lemma_no_edge_into_ready(adj, Seq::empty(), d[a] as int, d[b] as int);
            }
        }
        while queue.len() > 0
            invariant
                g == self.graph,
                g.wf(),
                adj == self.adjacency(),
                adj.len() == n,
                n <= u32::MAX,
                targets_in_range(adj),
                in_deg@.len() == n,
                (order@ + queue@).no_duplicates(),
                (order@ + queue@).len() <= n,
                forall|a: int| 0 <= a < (order@ + queue@).len() ==> #[trigger] (order@ + queue@)[a] < n,
                forall|v: int| 0 <= v < n ==> #[trigger] in_deg@[v] == pending_in(adj, order@, v, n as nat),
                forall|v: int| 0 <= v < n ==> (#[trigger] in_deg@[v] == 0 <==> holds(order@ + queue@, v)),
                forall|a: int, b: int|
                    0 <= a < (order@ + queue@).len() && 0 <= b < (order@ + queue@).len() && is_edge(
                        adj,
                        #[trigger] (order@ + queue@)[a] as int,
                        #[trigger] (order@ + queue@)[b] as int,
                    ) ==> a < b,
                forall|v: int| 0 <= v < n ==> (#[trigger] holds(q0, v) <==> pending_in(adj, Seq::empty(), v, n as nat) == 0),
                forall|a: int, b: int| 0 <= a < b < q0.len() ==> #[trigger] q0[a] < #[trigger] q0[b],
                nsrc == q0.len(),
                nsrc <= (order@ + queue@).len(),
                forall|k: int| 0 <= k < nsrc ==> #[trigger] (order@ + queue@)[k] == q0[k],
                released_from(adj, order@ + queue@, nsrc),
                released_in_order(adj, order@ + queue@),
                released_before(adj, order@ + queue@, order@.len() + 1int, 0),
            decreases n - order@.len(),
        {
            let ghost d0 = order@ + queue@;
            let ghost order0 = order@;
            let node = queue.pop_front().unwrap();
            order.push(node);
            let ghost d = order@ + queue@;
            assert(d =~= d0);
            let ghost p = order@.len() as int;
            assert(d[p - 1] == node);
            proof {
                assert(!holds(order0, node as int)) by {
                    if holds(order0, node as int) {
                        let a = choose|a: int| 0 <= a < order0.len() && order0[a] == node;
                        assert(d0[a] == d0[p - 1]);
                    }
                }
                assert(order@ =~= order0.push(node));
                assert forall|v: int| 0 <= v < n implies #[trigger] in_deg@[v] == pending_in(adj, order@, v, n as nat)
                    + occurrences(adj[node as int].skip(0), v) by {
                    lemma_pending_done(adj, order0, node as int, v, n as nat);
                    assert(adj[node as int].skip(0) =~= adj[node as int]);
                }
                assert forall|v: int| 0 <= v < n implies (#[trigger] in_deg@[v] == 0 <==> holds(d, v)) by {
                    assert(holds(d0, v) == holds(d, v));
                }
            }
            let s_row = self.graph.row_ptr[node as usize] as usize;
            let e_row = self.graph.row_ptr[node as usize + 1] as usize;
            assert(adj[node as int] == g.row(node as int));
            let mut j = s_row;
            while j < e_row
                invariant
                    g == self.graph,
                    g.wf(),
                    adj == self.adjacency(),
                    adj.len() == n,
                    n <= u32::MAX,
                    targets_in_range(adj),
                    (node as int) < n,
                    order@.len() == p,
                    1 <= p,
                    order@[p - 1] == node,
                    in_deg@.len() == n,
                    (order@ + queue@).no_duplicates(),
                    (order@ + queue@).len() <= n,
                    forall|a: int| 0 <= a < (order@ + queue@).len() ==> #[trigger] (order@ + queue@)[a] < n,
                    forall|v: int| 0 <= v < n ==> #[trigger] in_deg@[v] == pending_in(adj, order@, v, n as nat)
                        + occurrences(adj[node as int].skip(j - s_row), v),
                    forall|v: int| 0 <= v < n ==> (#[trigger] in_deg@[v] == 0 <==> holds(order@ + queue@, v)),
                    forall|a: int, b: int|
                        0 <= a < (order@ + queue@).len() && 0 <= b < (order@ + queue@).len() && is_edge(
                            adj,
                            #[trigger] (order@ + queue@)[a] as int,
                            #[trigger] (order@ + queue@)[b] as int,
                        ) ==> a < b,
                    forall|v: int| 0 <= v < n ==> (#[trigger] holds(q0, v) <==> pending_in(adj, Seq::empty(), v, n as nat) == 0),
                    forall|a: int, b: int| 0 <= a < b < q0.len() ==> #[trigger] q0[a] < #[trigger] q0[b],
                    nsrc == q0.len(),
                    nsrc <= (order@ + queue@).len(),
                    forall|k: int| 0 <= k < nsrc ==> #[trigger] (order@ + queue@)[k] == q0[k],
                    released_from(adj, order@ + queue@, nsrc),
                    released_in_order(adj, order@ + queue@),
                    released_before(adj, order@ + queue@, p, j - s_row),
                    s_row == g.row_ptr@[node as int],
                    e_row == g.row_ptr@[node as int + 1],
                    s_row <= j <= e_row,
                    adj[node as int] == g.col_idx@.subrange(s_row as int, e_row as int),
                decreases e_row - j,
            {
                let nbr = self.graph.col_idx[j];
                let ghost jj = j - s_row;
                let ghost row = adj[node as int];
                let ghost dq = order@ + queue@;
                assert(row[jj] == nbr);
                assert(nbr < n);
                proof {
                    assert forall|v: int| 0 <= v < n implies occurrences(row.skip(jj), v) == occurrences(
                        row.skip(jj + 1),
                        v,
                    ) + if row[jj] == v {
                        1nat
                    } else {
                        0nat
                    } by {
                        lemma_occurrences_skip(row, jj, v);
                    }
                    assert(in_deg@[nbr as int] >= 1);
                    assert(!holds(dq, nbr as int));
                    assert forall|k: int| 0 <= k < dq.len() implies pending_in(adj, order@, #[trigger] dq[k] as int, n as nat)
                        == 0 by {
                        assert(dq[k] < n);
                        assert(holds(dq, dq[k] as int));
                        assert(in_deg@[dq[k] as int] == 0);
                    }
                }
                let c = in_deg[nbr as usize];
                in_deg.set(nbr as usize, c - 1);
                if c - 1 == 0 {
                    queue.push_back(nbr);
                    proof {
                        let dn = order@ + queue@;
                        assert(dn =~= dq.push(nbr));
                        assert(pending_in(adj, order@, nbr as int, n as nat) == 0);
                        assert(occurrences(row.skip(jj + 1), nbr as int) == 0);
                        assert forall|j2: int| jj < j2 < row.len() implies #[trigger] row[j2] != nbr by {
                            assert(row.skip(jj + 1)[j2 - jj - 1] == row[j2]);
                            lemma_occurrences_zero(row.skip(jj + 1), nbr as int, j2 - jj - 1);
                        }
                        assert(order@ =~= dq.take(p));
                        assert forall|k: int| p <= k < dq.len() implies !holds(order@, #[trigger] dq[k] as int) by {
                            if holds(order@, dq[k] as int) {
                                let a = choose|a: int| 0 <= a < order@.len() && order@[a] == dq[k];
                                assert(dq[a] == dq[k]);
                            }
                        }
                        assert(dq[p - 1] == node);
                        lemma_kahn_release(adj, dq, order@, nsrc, p, jj, nbr);
                        assert(dn.no_duplicates()) by {
                            assert forall|a: int| 0 <= a < dq.len() implies dq[a] != nbr by {
                                if dq[a] == nbr {
                                    assert(holds(dq, nbr as int));
                                }
                            }
                        }
                        lemma_distinct_nodes(dn, n as int);
                        assert forall|v: int| 0 <= v < n implies (#[trigger] in_deg@[v] == 0 <==> holds(dn, v)) by {
                            if v == nbr as int {
                                assert(dn[dq.len() as int] == v);
                            } else {
                                if holds(dq, v) {
                                    let a = choose|a: int| 0 <= a < dq.len() && dq[a] == v;
                                    assert(dn[a] == v);
                                }
                                if holds(dn, v) {
                                    let a = choose|a: int| 0 <= a < dn.len() && dn[a] == v;
                                    if a < dq.len() {
                                        assert(dq[a] == v);
                                    }
                                }
                            }
                        }
                        assert(!holds(order@, nbr as int)) by {
                            if holds(order@, nbr as int) {
                                let a = choose|a: int| 0 <= a < order@.len() && order@[a] == nbr;
                                assert(dq[a] == nbr);
                            }
                        }
                        assert forall|a: int, b: int|
                            0 <= a < dn.len() && 0 <= b < dn.len() && is_edge(adj, #[trigger] dn[a] as int, #[trigger] dn[b] as int)
                            implies a < b by {
                            if a == dq.len() {
                                assert(dn[a] == nbr);
                                assert(in_deg@[dn[b] as int] == 0) by {
                                    if b < dq.len() {
                                        assert(dn[b] == dq[b]);
                                        assert(holds(dq, dq[b] as int));
                                    }
                                }
                                lemma_no_edge_into_ready(adj, order@, nbr as int, dn[b] as int);
                            } else if b < dq.len() {
                                assert(dn[a] == dq[a] && dn[b] == dq[b]);
                            }
                        }
                    }
                } else {
                    proof {
                        assert forall|v: int| 0 <= v < n implies (#[trigger] in_deg@[v] == 0 <==> holds(dq, v)) by {
                            if v == nbr as int {
                                assert(!holds(dq, v));
                            }
                        }
                    }
                }
                j = j + 1;
            }
            proof {
                assert(adj[node as int].skip(e_row - s_row) =~= Seq::<u32>::empty());
                assert forall|v: int| 0 <= v < n implies #[trigger] in_deg@[v] == pending_in(adj, order@, v, n as nat) by {
                    assert(occurrences(adj[node as int].skip(e_row - s_row), v) == 0);
                }
                let dd = order@ + queue@;
                assert(order@.no_duplicates()) by {
                    assert forall|a: int| 0 <= a < order@.len() implies dd[a] == #[trigger] order@[a] by {}
                }
                assert forall|a: int| 0 <= a < order@.len() implies #[trigger] order@[a] < n by {
                    assert(dd[a] == order@[a]);
                }
                lemma_distinct_nodes(order@, n as int);
            }
        }
        let ghost d = order@ + queue@;
        assert(d =~= order@);
        if order.len() == n {
            proof {
                assert(is_topological_order(adj, order@));
                let ord = order@;
                assert forall|v: int| 0 <= v < n implies (is_source(adj, v) <==> #[trigger] holds(q0, v)) by {
                    lemma_source_iff_nothing_pending(adj, v);
                }
                assert forall|i: int, k: int|
                    0 <= i < k < ord.len() && is_source(adj, #[trigger] ord[k] as int) implies is_source(
                        adj,
                        #[trigger] ord[i] as int,
                    ) && ord[i] < ord[k] by {
                    assert(ord[k] < n);
                    assert(holds(q0, ord[k] as int));
                    let a = choose|a: int| 0 <= a < q0.len() && q0[a] == ord[k];
                    assert(ord[a] == q0[a]);
                    assert(ord[i] == q0[i]);
                    assert(holds(q0, ord[i] as int));
                }
                assert forall|i: int| 0 <= i < ord.len() && !is_source(adj, #[trigger] ord[i] as int) implies released_at(
                    adj,
                    ord,
                    i,
                ) by {
                    if i < nsrc {
                        assert(ord[i] == q0[i]);
                        assert(holds(q0, ord[i] as int));
                    }
                }
            }
            Some(order)
        } else {
            proof {
                if is_acyclic(adj) {
                    let pi = choose|pi: Seq<u32>| is_topological_order(adj, pi);
                    lemma_distinct_nodes(pi, n as int);
                    assert(exists|v: int| 0 <= v < n && !holds(order@, v)) by {
                        if forall|v: int| 0 <= v < n ==> #[trigger] holds(order@, v) {
                            lemma_distinct_nodes(order@, n as int);
                            lemma_distinct_covering(order@, n as int);
                        }
                    }
                    let v = choose|v: int| 0 <= v < n && !holds(order@, v);
                    assert(holds(pi, v));
                    let iv = choose|i: int| 0 <= i < pi.len() && pi[i] == v;
                    assert(!holds(order@, pi[iv] as int));
                    let f = lemma_first_missing(pi, order@, 0);
                    let x = pi[f] as int;
                    assert forall|u: int| 0 <= u < n && !holds(order@, u) implies occurrences(#[trigger] adj[u], x) == 0 by {
                        if occurrences(adj[u], x) != 0 {
                            if forall|jj: int| 0 <= jj < adj[u].len() ==> adj[u][jj] != x {
                                lemma_occurrences_none(adj[u], x);
                            }
                            let jj = choose|jj: int| 0 <= jj < adj[u].len() && adj[u][jj] == x;
                            assert(adj[u][jj] == x as u32);
                            assert(is_edge(adj, u, x));
                            assert(holds(pi, u));
                            let a = choose|a: int| 0 <= a < pi.len() && pi[a] == u;
                            assert(is_edge(adj, pi[a] as int, pi[f] as int));
                            assert(a < f);
                        }
                    }
                    lemma_pending_none(adj, order@, x, n as nat);
                    assert(in_deg@[x] == 0);
                    assert(holds(d, x));
                }
            }
            None
        }
    }
}

} // verus!
