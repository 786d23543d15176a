//! Properties that relate the traversals to one another, stated over the
//! results their contracts describe.
use vstd::prelude::*;
use crate::edges::{targets, count_below, stray_count, adjacency_of, lemma_targets_push, lemma_count_below_len};
use crate::reach::{
    holds, is_edge, reach_set, reach_within, reachable, distance, is_distance, is_level_order,
    is_search_order, is_distance_table, is_topological_order, is_acyclic, lemma_has_distance,
    lemma_reach_step, lemma_distinct_nodes, is_kahn_order, is_source, released_by,
    released_at, is_bfs_order, discovered_by, found_at, is_dfs_order, dfs_found_at, dfs_step, has_cycle,
    lemma_distinct_covering, targets_in_range, closed_from,
};

verus! {

/// Breadth-first and depth-first search from the same start visit the same
/// nodes, as many of them.
pub proof fn law_bfs_and_dfs_visit_the_same_nodes(
    adj: Seq<Seq<u32>>,
    s: int,
    bfs_order: Seq<u32>,
    dfs_order: Seq<u32>,
)
    requires
        is_level_order(adj, s, bfs_order),
        is_search_order(adj, s, dfs_order),
    ensures
        forall|v: int| holds(bfs_order, v) <==> holds(dfs_order, v),
        bfs_order.len() == dfs_order.len(),
{
    assert forall|v: int| holds(bfs_order, v) <==> holds(dfs_order, v) by {
        if holds(bfs_order, v) {
            let i = choose|i: int| 0 <= i < bfs_order.len() && bfs_order[i] == v;
            assert(reachable(adj, s, bfs_order[i] as int));
        }
        if holds(dfs_order, v) {
            let i = choose|i: int| 0 <= i < dfs_order.len() && dfs_order[i] == v;
            assert(reachable(adj, s, dfs_order[i] as int));
        }
    }
    lemma_same_distinct_len(bfs_order, dfs_order);
}

/// Two duplicate-free sequences that hold the same values have the same length.
proof fn lemma_same_distinct_len(a: Seq<u32>, b: Seq<u32>)
    requires
        a.no_duplicates(),
        b.no_duplicates(),
        forall|v: int| holds(a, v) <==> holds(b, v),
    ensures
        a.len() == b.len(),
{
    a.unique_seq_to_set();
    b.unique_seq_to_set();
    assert(a.to_set() =~= b.to_set()) by {
        assert forall|x: u32| a.to_set().contains(x) <==> b.to_set().contains(x) by {
            if a.contains(x) {
                let i = choose|i: int| 0 <= i < a.len() && a[i] == x;
                assert(holds(a, x as int));
                assert(holds(b, x as int));
                let j = choose|j: int| 0 <= j < b.len() && b[j] == x;
                assert(b.contains(x));
            }
            if b.contains(x) {
                let i = choose|i: int| 0 <= i < b.len() && b[i] == x;
                assert(holds(b, x as int));
                assert(holds(a, x as int));
                let j = choose|j: int| 0 <= j < a.len() && a[j] == x;
                assert(a.contains(x));
            }
        }
    }
}

/// The distance table lists exactly the nodes that breadth-first search
/// visits from the same start.
pub proof fn law_distance_table_lists_the_bfs_nodes(
    adj: Seq<Seq<u32>>,
    s: int,
    order: Seq<u32>,
    pairs: Seq<(u32, u32)>,
)
    requires
        is_level_order(adj, s, order),
        is_distance_table(adj, s, pairs),
    ensures
        forall|v: int| holds(order, v) <==> exists|i: int| 0 <= i < pairs.len() && #[trigger] pairs[i].0 == v,
{
    assert forall|v: int| holds(order, v) <==> exists|i: int| 0 <= i < pairs.len() && #[trigger] pairs[i].0 == v by {
        if holds(order, v) {
            let i = choose|i: int| 0 <= i < order.len() && order[i] == v;
            assert(reachable(adj, s, order[i] as int));
        }
        if exists|i: int| 0 <= i < pairs.len() && #[trigger] pairs[i].0 == v {
            let i = choose|i: int| 0 <= i < pairs.len() && #[trigger] pairs[i].0 == v;
            assert(reachable(adj, s, pairs[i].0 as int));
        }
    }
}

/// The start is at distance 0 from itself.
pub proof fn law_start_is_at_distance_zero(adj: Seq<Seq<u32>>, s: int, pairs: Seq<(u32, u32)>)
    requires
        is_distance_table(adj, s, pairs),
    ensures
        exists|i: int| 0 <= i < pairs.len() && pairs[i] == (s as u32, 0u32),
{
    assert(reach_set(adj, s, 0).contains(s));
    assert(reach_within(adj, s, s, 0));
    assert(reachable(adj, s, s));
    let i = choose|i: int| 0 <= i < pairs.len() && #[trigger] pairs[i].0 == s;
    assert(is_distance(adj, s, s, 0));
    crate::reach::lemma_distance_unique(adj, s, s, 0);
    assert(pairs[i] == (s as u32, 0u32));
}

/// Along an edge between reachable nodes the distance grows by at most one.
pub proof fn law_distances_grow_by_at_most_one_per_edge(
    adj: Seq<Seq<u32>>,
    s: int,
    pairs: Seq<(u32, u32)>,
    a: int,
    b: int,
)
    requires
        is_distance_table(adj, s, pairs),
        0 <= a < pairs.len(),
        0 <= b < pairs.len(),
        is_edge(adj, pairs[a].0 as int, pairs[b].0 as int),
    ensures
        pairs[b].1 <= pairs[a].1 + 1,
{
    let u = pairs[a].0 as int;
    let v = pairs[b].0 as int;
    assert(reachable(adj, s, u));
    let k = choose|k: nat| #[trigger] reach_within(adj, s, u, k);
    lemma_has_distance(adj, s, u, k);
    let du = distance(adj, s, u);
    lemma_reach_step(adj, s, u, v, du);
    assert(reachable(adj, s, v));
    lemma_has_distance(adj, s, v, du + 1);
}

/// In a topological order, a node comes no later than every node reachable from it.
pub proof fn law_topological_order_follows_reachability(
    adj: Seq<Seq<u32>>,
    ord: Seq<u32>,
    a: int,
    b: int,
)
    requires
        is_topological_order(adj, ord),
        0 <= a < ord.len(),
        0 <= b < ord.len(),
        reachable(adj, ord[a] as int, ord[b] as int),
    ensures
        a <= b,
{
    let k = choose|k: nat| #[trigger] reach_within(adj, ord[a] as int, ord[b] as int, k);
    lemma_topological_reach(adj, ord, a, b, k);
}

proof fn lemma_topological_reach(adj: Seq<Seq<u32>>, ord: Seq<u32>, a: int, b: int, k: nat)
    requires
        is_topological_order(adj, ord),
        0 <= a < ord.len(),
        0 <= b < ord.len(),
        reach_within(adj, ord[a] as int, ord[b] as int, k),
    ensures
        a <= b,
    decreases k,
{
    if k == 0 {
        if a != b {
            assert(ord[a] != ord[b]);
        }
    } else {
        let prev = reach_set(adj, ord[a] as int, (k - 1) as nat);
        if prev.contains(ord[b] as int) {
            lemma_topological_reach(adj, ord, a, b, (k - 1) as nat);
        } else {
            let x = choose|x: int| prev.contains(x) && #[trigger] is_edge(adj, x, ord[b] as int);
            lemma_distinct_nodes(ord, adj.len() as int);
            assert(holds(ord, x));
            let c = choose|c: int| 0 <= c < ord.len() && ord[c] == x;
            assert(is_edge(adj, ord[c] as int, ord[b] as int));
            assert(reach_within(adj, ord[a] as int, ord[c] as int, (k - 1) as nat));
            lemma_topological_reach(adj, ord, a, c, (k - 1) as nat);
        }
    }
}

/// A graph with a cycle (an edge `u -> v` with `u` reachable from `v`) has
/// no topological order.
pub proof fn law_cycle_rules_out_topological_order(adj: Seq<Seq<u32>>, u: int, v: int)
    requires
        is_edge(adj, u, v),
        reachable(adj, v, u),
    ensures
        !is_acyclic(adj),
{
    if is_acyclic(adj) {
        let ord = choose|ord: Seq<u32>| is_topological_order(adj, ord);
        lemma_distinct_nodes(ord, adj.len() as int);
        let k = choose|k: nat| #[trigger] reach_within(adj, v, u, k);
        assert(holds(ord, u));
        let b = choose|b: int| 0 <= b < ord.len() && ord[b] == u;
        if 0 <= v < adj.len() {
            assert(holds(ord, v));
            let c = choose|c: int| 0 <= c < ord.len() && ord[c] == v;
            assert(is_edge(adj, ord[b] as int, ord[c] as int));
            assert(reach_within(adj, ord[c] as int, ord[b] as int, k));
            lemma_topological_reach(adj, ord, c, b, k);
        } else {
            lemma_no_way_out(adj, v, u, k);
        }
    }
}

/// A node outside the graph has no edges out, so it reaches only itself.
proof fn lemma_no_way_out(adj: Seq<Seq<u32>>, v: int, w: int, k: nat)
    requires
        !(0 <= v < adj.len()),
        reach_within(adj, v, w, k),
    ensures
        w == v,
    decreases k,
{
    if k > 0 {
        let prev = reach_set(adj, v, (k - 1) as nat);
        if prev.contains(w) {
            lemma_no_way_out(adj, v, w, (k - 1) as nat);
        } else {
            let x = choose|x: int| prev.contains(x) && #[trigger] is_edge(adj, x, w);
            lemma_no_way_out(adj, v, x, (k - 1) as nat);
        }
    }
}

/// Kahn's algorithm with a first-in first-out queue has one answer: two
/// orders that both follow it are the same order.
pub proof fn law_kahn_order_is_unique(adj: Seq<Seq<u32>>, o1: Seq<u32>, o2: Seq<u32>)
    requires
        is_kahn_order(adj, o1),
        is_kahn_order(adj, o2),
    ensures
        o1 == o2,
{
    lemma_kahn_prefix(adj, o1, o2, o1.len() as int);
    assert(o1 =~= o2);
}

/// Two Kahn orders agree on their first `k` entries.
proof fn lemma_kahn_prefix(adj: Seq<Seq<u32>>, o1: Seq<u32>, o2: Seq<u32>, k: int)
    requires
        is_kahn_order(adj, o1),
        is_kahn_order(adj, o2),
        0 <= k <= o1.len(),
    ensures
        forall|i: int| 0 <= i < k ==> #[trigger] o1[i] == o2[i],
    decreases k,
{
    if k > 0 {
        lemma_kahn_prefix(adj, o1, o2, k - 1);
        lemma_kahn_step(adj, o1, o2, k - 1);
    }
}

/// Where the first entry on which two sequences differ sits in the second.
proof fn lemma_position_in(o1: Seq<u32>, o2: Seq<u32>, k: int) -> (k2: int)
    requires
        o1.no_duplicates(),
        0 <= k < o1.len(),
        holds(o2, o1[k] as int),
        forall|i: int| 0 <= i < k ==> #[trigger] o1[i] == o2[i],
        o1[k] != o2[k],
    ensures
        k < k2 < o2.len(),
        o2[k2] == o1[k],
{
    let k2 = choose|k2: int| 0 <= k2 < o2.len() && o2[k2] == o1[k];
    if k2 < k {
        assert(o1[k2] == o1[k]);
    }
    k2
}

/// A node released by position `a` of one Kahn order is released by the same
/// place in another order that agrees with it up to the node's position.
proof fn lemma_release_carries_over(
    adj: Seq<Seq<u32>>,
    o1: Seq<u32>,
    o2: Seq<u32>,
    k: int,
    a: int,
    j: int,
    k2: int,
)
    requires
        is_topological_order(adj, o1),
        is_topological_order(adj, o2),
        forall|i: int| 0 <= i < k ==> #[trigger] o1[i] == o2[i],
        released_by(adj, o1, k, a, j),
        k < k2 < o2.len(),
        o2[k2] == o1[k],
    ensures
        released_by(adj, o2, k2, a, j),
{
    assert(o2[a] == o1[a]);
    lemma_distinct_nodes(o1, adj.len() as int);
    assert forall|a2: int| a < a2 < o2.len() implies !is_edge(adj, #[trigger] o2[a2] as int, o2[k2] as int) by {
        if is_edge(adj, o2[a2] as int, o2[k2] as int) {
            let w = o2[a2];
            assert(holds(o1, w as int));
            let i1 = choose|i1: int| 0 <= i1 < o1.len() && o1[i1] == w;
            assert(is_edge(adj, o1[i1] as int, o1[k] as int));
            assert(i1 < k);
            assert(i1 <= a);
            assert(o2[i1] == w);
        }
    }
}

/// Two Kahn orders that agree before position `k` agree at `k`.
proof fn lemma_kahn_step(adj: Seq<Seq<u32>>, o1: Seq<u32>, o2: Seq<u32>, k: int)
    requires
        is_kahn_order(adj, o1),
        is_kahn_order(adj, o2),
        0 <= k < o1.len(),
        forall|i: int| 0 <= i < k ==> #[trigger] o1[i] == o2[i],
    ensures
        o1[k] == o2[k],
{
    if o1[k] != o2[k] {
        lemma_distinct_nodes(o1, adj.len() as int);
        lemma_distinct_nodes(o2, adj.len() as int);
        assert(holds(o2, o1[k] as int));
        assert(holds(o1, o2[k] as int));
        let k2 = lemma_position_in(o1, o2, k);
        let k1 = lemma_position_in(o2, o1, k);
        let x = o1[k];
        let y = o2[k];
        if is_source(adj, x as int) {
            assert(is_source(adj, o2[k2] as int));
            assert(is_source(adj, o2[k] as int) && o2[k] < o2[k2]);
            assert(is_source(adj, o1[k1] as int));
            assert(o1[k] < o1[k1]);
        } else if is_source(adj, y as int) {
            assert(is_source(adj, o1[k1] as int));
            assert(is_source(adj, o1[k] as int));
        } else {
            assert(released_at(adj, o1, k));
            let (a, j) = choose|a: int, j: int| #[trigger] released_by(adj, o1, k, a, j);
            assert(released_at(adj, o2, k));
            let (a2, j2) = choose|a2: int, j2: int| #[trigger] released_by(adj, o2, k, a2, j2);
            lemma_release_carries_over(adj, o1, o2, k, a, j, k2);
            lemma_release_carries_over(adj, o2, o1, k, a2, j2, k1);
            assert(a < a2 || (a == a2 && j < j2));
            assert(a2 < a || (a2 == a && j2 < j));
        }
    }
}

/// Two search orders from the same start hold the same nodes, as many of them.
proof fn lemma_search_orders_same_nodes(adj: Seq<Seq<u32>>, s: int, o1: Seq<u32>, o2: Seq<u32>)
    requires
        is_search_order(adj, s, o1),
        is_search_order(adj, s, o2),
    ensures
        forall|v: int| holds(o1, v) <==> holds(o2, v),
        o1.len() == o2.len(),
{
    assert forall|v: int| holds(o1, v) <==> holds(o2, v) by {
        if holds(o1, v) {
            let i = choose|i: int| 0 <= i < o1.len() && o1[i] == v;
            assert(reachable(adj, s, o1[i] as int));
        }
        if holds(o2, v) {
            let i = choose|i: int| 0 <= i < o2.len() && o2[i] == v;
            assert(reachable(adj, s, o2[i] as int));
        }
    }
    lemma_same_distinct_len(o1, o2);
}

/// Breadth-first search has one answer: two breadth-first orders from the
/// same start are the same order.
pub proof fn law_bfs_order_is_unique(adj: Seq<Seq<u32>>, s: int, o1: Seq<u32>, o2: Seq<u32>)
    requires
        is_bfs_order(adj, s, o1),
        is_bfs_order(adj, s, o2),
    ensures
        o1 == o2,
{
    lemma_bfs_is_search(adj, s, o1);
    lemma_bfs_is_search(adj, s, o2);
    lemma_search_orders_same_nodes(adj, s, o1, o2);
    lemma_bfs_prefix(adj, s, o1, o2, o1.len() as int);
    assert(o1 =~= o2);
}

/// A breadth-first order is a search order: every node after the first was
/// found from an earlier one.
proof fn lemma_bfs_is_search(adj: Seq<Seq<u32>>, s: int, o: Seq<u32>)
    requires
        is_bfs_order(adj, s, o),
    ensures
        is_search_order(adj, s, o),
{
    assert forall|i: int| 0 < i < o.len() implies exists|a: int| 0 <= a < i && is_edge(adj, o[a] as int, #[trigger] o[i] as int) by {
        assert(found_at(adj, o, i));
        let (a, j) = choose|a: int, j: int| #[trigger] discovered_by(adj, o, i, a, j);
        assert(adj[o[a] as int][j] == o[i]);
        assert(is_edge(adj, o[a] as int, o[i] as int));
    }
}

/// Two breadth-first orders from the same start agree on their first `k` entries.
proof fn lemma_bfs_prefix(adj: Seq<Seq<u32>>, s: int, o1: Seq<u32>, o2: Seq<u32>, k: int)
    requires
        is_bfs_order(adj, s, o1),
        is_bfs_order(adj, s, o2),
        forall|v: int| holds(o1, v) <==> holds(o2, v),
        0 <= k <= o1.len() == o2.len(),
    ensures
        forall|i: int| 0 <= i < k ==> #[trigger] o1[i] == o2[i],
    decreases k,
{
    if k > 0 {
        lemma_bfs_prefix(adj, s, o1, o2, k - 1);
        lemma_bfs_step(adj, s, o1, o2, k - 1);
    }
}

/// A node found from position `a` of one order is found from the same place
/// in another order that agrees with it before the node's position.
proof fn lemma_discovery_carries_over(
    adj: Seq<Seq<u32>>,
    o1: Seq<u32>,
    o2: Seq<u32>,
    k: int,
    a: int,
    j: int,
    k2: int,
)
    requires
        forall|i: int| 0 <= i < k ==> #[trigger] o1[i] == o2[i],
        discovered_by(adj, o1, k, a, j),
        k < k2 < o2.len(),
        o2[k2] == o1[k],
    ensures
        discovered_by(adj, o2, k2, a, j),
{
    assert(o2[a] == o1[a]);
    assert forall|a2: int| 0 <= a2 < a implies !is_edge(adj, #[trigger] o2[a2] as int, o2[k2] as int) by {
        assert(o2[a2] == o1[a2]);
    }
}

/// Two breadth-first orders that agree before position `k` agree at `k`.
proof fn lemma_bfs_step(adj: Seq<Seq<u32>>, s: int, o1: Seq<u32>, o2: Seq<u32>, k: int)
    requires
        is_bfs_order(adj, s, o1),
        is_bfs_order(adj, s, o2),
        forall|v: int| holds(o1, v) <==> holds(o2, v),
        0 <= k < o1.len() == o2.len(),
        forall|i: int| 0 <= i < k ==> #[trigger] o1[i] == o2[i],
    ensures
        o1[k] == o2[k],
{
    if k > 0 && o1[k] != o2[k] {
        assert(holds(o1, o1[k] as int));
        assert(holds(o2, o2[k] as int));
        let k2 = lemma_position_in(o1, o2, k);
        let k1 = lemma_position_in(o2, o1, k);
        assert(found_at(adj, o1, k));
        let (a, j) = choose|a: int, j: int| #[trigger] discovered_by(adj, o1, k, a, j);
        assert(found_at(adj, o2, k));
        let (a2, j2) = choose|a2: int, j2: int| #[trigger] discovered_by(adj, o2, k, a2, j2);
        lemma_discovery_carries_over(adj, o1, o2, k, a, j, k2);
        lemma_discovery_carries_over(adj, o2, o1, k, a2, j2, k1);
        assert(a < a2 || (a == a2 && j < j2));
        assert(a2 < a || (a2 == a && j2 < j));
    }
}

/// Depth-first search has one answer: two depth-first orders from the same
/// start are the same order.
pub proof fn law_dfs_order_is_unique(adj: Seq<Seq<u32>>, s: int, o1: Seq<u32>, o2: Seq<u32>)
    requires
        is_dfs_order(adj, s, o1),
        is_dfs_order(adj, s, o2),
    ensures
        o1 == o2,
{
    lemma_search_orders_same_nodes(adj, s, o1, o2);
    lemma_dfs_prefix(adj, s, o1, o2, o1.len() as int);
    assert(o1 =~= o2);
}

/// Two depth-first orders from the same start agree on their first `k` entries.
proof fn lemma_dfs_prefix(adj: Seq<Seq<u32>>, s: int, o1: Seq<u32>, o2: Seq<u32>, k: int)
    requires
        is_dfs_order(adj, s, o1),
        is_dfs_order(adj, s, o2),
        0 <= k <= o1.len() == o2.len(),
    ensures
        forall|i: int| 0 <= i < k ==> #[trigger] o1[i] == o2[i],
    decreases k,
{
    if k > 0 {
        lemma_dfs_prefix(adj, s, o1, o2, k - 1);
        lemma_dfs_step_unique(adj, s, o1, o2, k - 1);
    }
}

/// Two depth-first orders that agree before position `k` agree at `k`.
proof fn lemma_dfs_step_unique(adj: Seq<Seq<u32>>, s: int, o1: Seq<u32>, o2: Seq<u32>, k: int)
    requires
        is_dfs_order(adj, s, o1),
        is_dfs_order(adj, s, o2),
        0 <= k < o1.len() == o2.len(),
        forall|i: int| 0 <= i < k ==> #[trigger] o1[i] == o2[i],
    ensures
        o1[k] == o2[k],
{
    if k > 0 && o1[k] != o2[k] {
        let seen = o1.take(k);
        assert(seen =~= o2.take(k));
        assert(dfs_found_at(adj, o1, k));
        let (a, j) = choose|a: int, j: int| #[trigger] dfs_step(adj, o1, k, a, j);
        assert(dfs_found_at(adj, o2, k));
        let (a2, j2) = choose|a2: int, j2: int| #[trigger] dfs_step(adj, o2, k, a2, j2);
        assert(!holds(seen, o1[k] as int)) by {
            if holds(seen, o1[k] as int) {
                let i = choose|i: int| 0 <= i < seen.len() && seen[i] == o1[k];
                assert(o1[i] == o1[k]);
            }
        }
        assert(!holds(seen, o2[k] as int)) by {
            if holds(seen, o2[k] as int) {
                let i = choose|i: int| 0 <= i < seen.len() && seen[i] == o2[k];
                assert(o2[i] == o2[k]);
            }
        }
        assert(o1[a] == o2[a]);
        assert(o1[a2] == o2[a2]);
        if a < a2 {
            assert(holds(seen, adj[o1[a2] as int][j2] as int));
        } else if a2 < a {
            assert(holds(o2.take(k), adj[o2[a] as int][j] as int));
        } else if j < j2 {
            assert(holds(o2.take(k), adj[o2[a2] as int][j] as int));
        } else if j2 < j {
            assert(holds(seen, adj[o1[a] as int][j2] as int));
        }
    }
}

/// The shortest-path table has one answer: two distance tables from the same
/// start are the same table.
pub proof fn law_distance_table_is_unique(
    adj: Seq<Seq<u32>>,
    s: int,
    p1: Seq<(u32, u32)>,
    p2: Seq<(u32, u32)>,
)
    requires
        is_distance_table(adj, s, p1),
        is_distance_table(adj, s, p2),
    ensures
        p1 == p2,
{
    lemma_table_prefix(adj, s, p1, p2, if p1.len() <= p2.len() {
        p1.len() as int
    } else {
        p2.len() as int
    });
    if p1.len() < p2.len() {
        lemma_table_entry(adj, s, p2, p1, p1.len() as int);
    } else if p2.len() < p1.len() {
        lemma_table_entry(adj, s, p1, p2, p2.len() as int);
    }
    assert(p1 =~= p2);
}

/// An entry of one table whose earlier entries the other table shares sits
/// at the same place in the other table.
proof fn lemma_table_entry(adj: Seq<Seq<u32>>, s: int, p1: Seq<(u32, u32)>, p2: Seq<(u32, u32)>, k: int)
    requires
        is_distance_table(adj, s, p1),
        is_distance_table(adj, s, p2),
        0 <= k < p1.len(),
        forall|i: int| 0 <= i < k && i < p2.len() ==> #[trigger] p1[i] == p2[i],
        forall|i: int| k <= i < p2.len() ==> p1[k].0 <= #[trigger] p2[i].0,
    ensures
        k < p2.len(),
        p2[k] == p1[k],
{
    assert(reachable(adj, s, p1[k].0 as int));
    let k2 = choose|k2: int| 0 <= k2 < p2.len() && #[trigger] p2[k2].0 == p1[k].0;
    if k2 < k {
        assert(p1[k2] == p2[k2]);
    } else if k2 > k {
        assert(p2[k].0 < p2[k2].0);
    }
    assert(p2[k].1 == distance(adj, s, p2[k].0 as int));
}

/// Two distance tables from the same start agree on their first `k` entries.
proof fn lemma_table_prefix(adj: Seq<Seq<u32>>, s: int, p1: Seq<(u32, u32)>, p2: Seq<(u32, u32)>, k: int)
    requires
        is_distance_table(adj, s, p1),
        is_distance_table(adj, s, p2),
        0 <= k <= p1.len(),
        k <= p2.len(),
    ensures
        forall|i: int| 0 <= i < k ==> #[trigger] p1[i] == p2[i],
    decreases k,
{
    if k > 0 {
        let m = k - 1;
        lemma_table_prefix(adj, s, p1, p2, m);
        if p1[m].0 <= p2[m].0 {
            assert forall|i: int| m <= i < p2.len() implies p1[m].0 <= #[trigger] p2[i].0 by {
                if i > m {
                    assert(p2[m].0 < p2[i].0);
                }
            }
            lemma_table_entry(adj, s, p1, p2, m);
        } else {
            assert forall|i: int| m <= i < p1.len() implies p2[m].0 <= #[trigger] p1[i].0 by {
                if i > m {
                    assert(p1[m].0 < p1[i].0);
                }
            }
            lemma_table_entry(adj, s, p2, p1, m);
        }
    }
}

/// A graph has a topological order exactly when it has no cycle (its node
/// IDs fitting in `u32`).
pub proof fn law_acyclic_iff_no_cycle(adj: Seq<Seq<u32>>)
    requires
        adj.len() <= u32::MAX + 1,
    ensures
        is_acyclic(adj) <==> !has_cycle(adj),
{
    if has_cycle(adj) {
        let (u, v) = choose|u: int, v: int| #[trigger] is_edge(adj, u, v) && reachable(adj, v, u);
        law_cycle_rules_out_topological_order(adj, u, v);
    } else {
        let ord = lemma_extend_order(adj, Seq::empty());
        assert(is_topological_order(adj, ord));
    }
}

/// `o` can open a topological order: its nodes are distinct nodes of the
/// graph, its edges go forward, and no node outside it has an edge into it.
spec fn closed_prefix(adj: Seq<Seq<u32>>, o: Seq<u32>) -> bool {
    &&& o.no_duplicates()
    &&& forall|i: int| 0 <= i < o.len() ==> #[trigger] o[i] < adj.len()
    &&& forall|a: int, b: int|
        0 <= a < o.len() && 0 <= b < o.len() && is_edge(adj, #[trigger] o[a] as int, #[trigger] o[b] as int) ==> a < b
    &&& forall|u: int, b: int| 0 <= b < o.len() && !holds(o, u) ==> !#[trigger] is_edge(adj, u, o[b] as int)
}

/// In a graph without a cycle, a prefix that can open a topological order
/// grows into one.
proof fn lemma_extend_order(adj: Seq<Seq<u32>>, o: Seq<u32>) -> (ord: Seq<u32>)
    requires
        adj.len() <= u32::MAX + 1,
        !has_cycle(adj),
        closed_prefix(adj, o),
    ensures
        is_topological_order(adj, ord),
    decreases adj.len() - o.len(),
{
    lemma_distinct_nodes(o, adj.len() as int);
    if o.len() == adj.len() {
        o
    } else {
        let x = lemma_remaining_source(adj, o);
        let o2 = o.push(x as u32);
        assert(o2[o.len() as int] == x);
        assert(!is_edge(adj, x, x));
        assert(o2.no_duplicates()) by {
            assert forall|i: int| 0 <= i < o.len() implies o2[i] != x by {
                if o[i] == x {
                    assert(holds(o, x));
                }
            }
        }
        assert forall|a: int, b: int|
            0 <= a < o2.len() && 0 <= b < o2.len() && is_edge(adj, #[trigger] o2[a] as int, #[trigger] o2[b] as int)
            implies a < b by {
            if a == o.len() && b < o.len() {
                assert(o2[b] == o[b]);
            } else if a < o.len() && b < o.len() {
                assert(o2[a] == o[a] && o2[b] == o[b]);
            }
        }
        assert forall|u: int, b: int| 0 <= b < o2.len() && !holds(o2, u) implies !#[trigger] is_edge(
            adj,
            u,
            o2[b] as int,
        ) by {
            assert(!holds(o, u)) by {
                if holds(o, u) {
                    let i = choose|i: int| 0 <= i < o.len() && o[i] == u;
                    assert(o2[i] == u);
                }
            }
            if b < o.len() {
                assert(o2[b] == o[b]);
            }
        }
        lemma_extend_order(adj, o2)
    }
}

/// Walking edges backwards from `v` among the nodes outside `o`, `k` steps.
spec fn back_walk(adj: Seq<Seq<u32>>, o: Seq<u32>, v: int, k: nat) -> int
    decreases k,
{
    if k == 0 {
        v
    } else {
        let w = back_walk(adj, o, v, (k - 1) as nat);
        choose|u: int| !holds(o, u) && #[trigger] is_edge(adj, u, w)
    }
}

/// Where every node outside `o` has an edge into it from outside `o`, the
/// backward walk stays outside `o`, one edge per step.
proof fn lemma_back_walk(adj: Seq<Seq<u32>>, o: Seq<u32>, v: int, k: nat)
    requires
        0 <= v < adj.len(),
        !holds(o, v),
        forall|w: int|
            0 <= w < adj.len() && !holds(o, w) ==> exists|u: int| !holds(o, u) && #[trigger] is_edge(adj, u, w),
    ensures
        0 <= back_walk(adj, o, v, k) < adj.len(),
        !holds(o, back_walk(adj, o, v, k)),
        k > 0 ==> is_edge(adj, back_walk(adj, o, v, k), back_walk(adj, o, v, (k - 1) as nat)),
    decreases k,
{
    if k > 0 {
        lemma_back_walk(adj, o, v, (k - 1) as nat);
        let w = back_walk(adj, o, v, (k - 1) as nat);
        assert(exists|u: int| !holds(o, u) && #[trigger] is_edge(adj, u, w));
    }
}

/// Along the backward walk, a later node reaches an earlier one.
proof fn lemma_back_walk_reaches(adj: Seq<Seq<u32>>, o: Seq<u32>, v: int, i: nat, m: nat)
    requires
        i <= m,
        0 <= v < adj.len(),
        !holds(o, v),
        forall|w: int|
            0 <= w < adj.len() && !holds(o, w) ==> exists|u: int| !holds(o, u) && #[trigger] is_edge(adj, u, w),
    ensures
        reach_within(adj, back_walk(adj, o, v, m), back_walk(adj, o, v, i), (m - i) as nat),
    decreases m - i,
{
    if i == m {
        assert(reach_set(adj, back_walk(adj, o, v, m), 0).contains(back_walk(adj, o, v, m)));
    } else {
        lemma_back_walk_reaches(adj, o, v, i + 1, m);
        lemma_back_walk(adj, o, v, i + 1);
        lemma_reach_step(
            adj,
            back_walk(adj, o, v, m),
            back_walk(adj, o, v, i + 1),
            back_walk(adj, o, v, i),
            (m - (i + 1)) as nat,
        );
    }
}

/// `x` is a node outside `o` with no edge into it from outside `o`.
#[verifier::opaque]
spec fn remaining_source(adj: Seq<Seq<u32>>, o: Seq<u32>, x: int) -> bool {
    &&& 0 <= x < adj.len()
    &&& !holds(o, x)
    &&& forall|u: int| !holds(o, u) ==> !#[trigger] is_edge(adj, u, x)
}

/// In a graph without a cycle, some node outside a prefix `o` that does not
/// hold every node has no edge into it from outside `o`.
proof fn lemma_remaining_source(adj: Seq<Seq<u32>>, o: Seq<u32>) -> (x: int)
    requires
        adj.len() <= u32::MAX + 1,
        !has_cycle(adj),
        o.no_duplicates(),
        forall|i: int| 0 <= i < o.len() ==> #[trigger] o[i] < adj.len(),
        o.len() < adj.len(),
    ensures
        0 <= x < adj.len(),
        !holds(o, x),
        forall|u: int| !holds(o, u) ==> !is_edge(adj, u, x),
{
    let n = adj.len() as int;
    if forall|v: int| 0 <= v < n ==> #[trigger] holds(o, v) {
        lemma_distinct_covering(o, n);
    }
    let v0 = choose|v: int| 0 <= v < n && !holds(o, v);
    if exists|x: int| #[trigger] remaining_source(adj, o, x) {
        let x = choose|x: int| #[trigger] remaining_source(adj, o, x);
        reveal(remaining_source);
        x
    } else {
        assert forall|w: int| 0 <= w < n && !holds(o, w) implies exists|u: int| !holds(o, u) && #[trigger] is_edge(
            adj,
            u,
            w,
        ) by {
            reveal(remaining_source);
            assert(!remaining_source(adj, o, w));
        }
        lemma_no_source_gives_cycle(adj, o, v0);
        v0
    }
}

/// Where some node is outside `o` and every node outside `o` has an edge
/// into it from outside `o`, walking those edges backwards must come back
/// to a node already walked: the graph has a cycle.
proof fn lemma_no_source_gives_cycle(adj: Seq<Seq<u32>>, o: Seq<u32>, v0: int)
    requires
        adj.len() <= u32::MAX + 1,
        0 <= v0 < adj.len(),
        !holds(o, v0),
        forall|w: int|
            0 <= w < adj.len() && !holds(o, w) ==> exists|u: int| !holds(o, u) && #[trigger] is_edge(adj, u, w),
    ensures
        has_cycle(adj),
{
    let n = adj.len() as int;
    let walk = Seq::new((n + 1) as nat, |k: int| back_walk(adj, o, v0, k as nat) as u32);
    assert forall|k: int| 0 <= k < walk.len() implies #[trigger] walk[k] < n && walk[k] == back_walk(
        adj,
        o,
        v0,
        k as nat,
    ) by {
        lemma_back_walk(adj, o, v0, k as nat);
    }
    if walk.no_duplicates() {
        lemma_distinct_nodes(walk, n);
    }
    let (i, j) = choose|i: int, j: int| 0 <= i < walk.len() && 0 <= j < walk.len() && i != j && walk[i] == walk[j];
    let (a, b) = if i < j {
        (i, j)
    } else {
        (j, i)
    };
    assert(walk[a] == walk[b]);
    lemma_back_walk(adj, o, v0, b as nat);
    lemma_back_walk_reaches(adj, o, v0, a as nat, (b - 1) as nat);
    let u = back_walk(adj, o, v0, b as nat);
    let w = back_walk(adj, o, v0, (b - 1) as nat);
    assert(back_walk(adj, o, v0, a as nat) == u);
    assert(reach_within(adj, w, u, (b - 1 - a) as nat));
    assert(is_edge(adj, u, w) && reachable(adj, w, u));
}

/// An edge whose source is not a node is kept in no row: listing one more
/// such edge leaves the row bounds and every node's neighbours as they were
/// (so `CsrGraph::from_edges` builds the same rows), and adds one stray slot.
pub proof fn law_stray_edge_is_ignored(es: Seq<(u32, u32)>, n: nat, e: (u32, u32))
    requires
        e.0 >= n,
    ensures
        forall|i: int| 0 <= i <= n ==> #[trigger] count_below(es.push(e), i) == count_below(es, i),
        adjacency_of(n, es.push(e)) == adjacency_of(n, es),
        stray_count(es.push(e), n as int) == stray_count(es, n as int) + 1,
{
    assert(es.push(e).drop_last() =~= es);
    assert forall|u: int| 0 <= u < n implies #[trigger] targets(es.push(e), u) == targets(es, u) by {
        lemma_targets_push(es, e, u);
    }
    assert(adjacency_of(n, es.push(e)) =~= adjacency_of(n, es));
    assert(count_below(es.push(e), n as int) == count_below(es, n as int));
    lemma_count_below_len(es, n as int);
}

/// What the traversals ask of the targets: every neighbour listed for a node
/// is a node. Nothing more: a node may list a neighbour more than once, in
/// any order (so `topo_sort` answers for parallel edges too).
pub proof fn law_targets_in_range_asks_only_that_targets_are_nodes(adj: Seq<Seq<u32>>)
    ensures
        targets_in_range(adj) <==> forall|u: int, j: int|
            0 <= u < adj.len() && 0 <= j < adj[u].len() ==> #[trigger] adj[u][j] < adj.len(),
        forall|u: int, v: u32|
            0 <= u < adj.len() && (v as int) < adj.len() ==> targets_in_range(adj) == targets_in_range(
                adj.update(u, adj[u].push(v)),
            ),
{
    assert forall|u: int, v: u32| 0 <= u < adj.len() && (v as int) < adj.len() implies targets_in_range(adj)
        == targets_in_range(adj.update(u, adj[u].push(v))) by {
        let a2 = adj.update(u, adj[u].push(v));
        if targets_in_range(adj) {
            assert forall|x: int, j: int| 0 <= x < a2.len() && 0 <= j < a2[x].len() implies #[trigger] a2[x][j] < a2.len() by {
                if x == u && j < adj[u].len() {
                    assert(a2[x][j] == adj[u][j]);
                }
            }
        }
        if targets_in_range(a2) {
            assert forall|x: int, j: int| 0 <= x < adj.len() && 0 <= j < adj[x].len() implies #[trigger] adj[x][j] < adj.len() by {
                if x == u {
                    assert(a2[x][j] == adj[u][j]);
                } else {
                    assert(a2[x] == adj[x]);
                }
            }
        }
    }
}

/// When every listed neighbour is a node, everything reachable from a node
/// is a node: the traversals can run from every node.
pub proof fn law_targets_in_range_closes_every_start(adj: Seq<Seq<u32>>, s: int)
    requires
        targets_in_range(adj),
        0 <= s < adj.len(),
    ensures
        closed_from(adj, s),
{
    assert forall|v: int| #[trigger] reachable(adj, s, v) implies 0 <= v < adj.len() by {
        let k = choose|k: nat| #[trigger] reach_within(adj, s, v, k);
        lemma_reach_stays_in_graph(adj, s, v, k);
    }
}

/// Within `k` edges of a node, only nodes are reached when every listed
/// neighbour is a node.
proof fn lemma_reach_stays_in_graph(adj: Seq<Seq<u32>>, s: int, v: int, k: nat)
    requires
        targets_in_range(adj),
        0 <= s < adj.len(),
        reach_within(adj, s, v, k),
    ensures
        0 <= v < adj.len(),
    decreases k,
{
    if k > 0 {
        let prev = reach_set(adj, s, (k - 1) as nat);
        if prev.contains(v) {
            lemma_reach_stays_in_graph(adj, s, v, (k - 1) as nat);
        } else {
            let u = choose|u: int| prev.contains(u) && #[trigger] is_edge(adj, u, v);
            let j = choose|j: int| 0 <= j < adj[u].len() && adj[u][j] == v as u32;
            assert(adj[u][j] < adj.len());
        }
    }
}

} // verus!
