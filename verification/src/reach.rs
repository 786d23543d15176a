//! Reachability, distances and topological orders over an adjacency
//! `Seq<Seq<u32>>`, where `adj[u]` lists the neighbours of node `u`.
use vstd::prelude::*;
use vstd::set_lib::{set_int_range, lemma_int_range, lemma_len_subset, lemma_subset_equality};

verus! {

/// `s` holds the node `v`.
pub open spec fn holds(s: Seq<u32>, v: int) -> bool {
    exists|i: int| 0 <= i < s.len() && s[i] == v
}

/// There is an edge from `u` to `v`: `u` is a node and `v` is among its neighbours.
pub open spec fn is_edge(adj: Seq<Seq<u32>>, u: int, v: int) -> bool {
    0 <= u < adj.len() && adj[u].contains(v as u32) && 0 <= v <= u32::MAX
}

/// The nodes that can be reached from `s` along at most `k` edges.
pub open spec fn reach_set(adj: Seq<Seq<u32>>, s: int, k: nat) -> Set<int>
    decreases k,
{
    if k == 0 {
        Set::empty().insert(s)
    } else {
        let prev = reach_set(adj, s, (k - 1) as nat);
        prev.union(Set::new(|v: int| exists|u: int| prev.contains(u) && #[trigger] is_edge(adj, u, v)))
    }
}

/// `v` can be reached from `s` along at most `k` edges.
pub open spec fn reach_within(adj: Seq<Seq<u32>>, s: int, v: int, k: nat) -> bool {
    reach_set(adj, s, k).contains(v)
}

/// `v` can be reached from `s`.
pub open spec fn reachable(adj: Seq<Seq<u32>>, s: int, v: int) -> bool {
    exists|k: nat| #[trigger] reach_within(adj, s, v, k)
}

/// `d` is the length of a shortest path from `s` to `v`.
pub open spec fn is_distance(adj: Seq<Seq<u32>>, s: int, v: int, d: nat) -> bool {
    reach_within(adj, s, v, d) && (d == 0 || !reach_within(adj, s, v, (d - 1) as nat))
}

/// The length of a shortest path from `s` to `v` (meaningful where `v` is reachable).
pub open spec fn distance(adj: Seq<Seq<u32>>, s: int, v: int) -> nat {
    choose|d: nat| is_distance(adj, s, v, d)
}

/// Every node reachable from `s` is a node of the graph.
pub open spec fn closed_from(adj: Seq<Seq<u32>>, s: int) -> bool {
    forall|v: int| #[trigger] reachable(adj, s, v) ==> 0 <= v < adj.len()
}

/// Every neighbour listed in the adjacency is a node of the graph.
pub open spec fn targets_in_range(adj: Seq<Seq<u32>>) -> bool {
    forall|u: int, j: int| 0 <= u < adj.len() && 0 <= j < adj[u].len() ==> #[trigger] adj[u][j] < adj.len()
}

/// `ord` lists every node once, and every edge goes from an earlier node to a later one.
pub open spec fn is_topological_order(adj: Seq<Seq<u32>>, ord: Seq<u32>) -> bool {
    &&& ord.len() == adj.len()
    &&& ord.no_duplicates()
    &&& forall|i: int| 0 <= i < ord.len() ==> #[trigger] ord[i] < adj.len()
    &&& forall|a: int, b: int|
        0 <= a < ord.len() && 0 <= b < ord.len() && is_edge(adj, #[trigger] ord[a] as int, #[trigger] ord[b] as int) ==> a < b
}

/// The graph has a topological order (it has no cycle).
pub open spec fn is_acyclic(adj: Seq<Seq<u32>>) -> bool {
    exists|ord: Seq<u32>| is_topological_order(adj, ord)
}

/// The graph has a cycle: an edge `u -> v` with `u` reachable from `v`.
pub open spec fn has_cycle(adj: Seq<Seq<u32>>) -> bool {
    exists|u: int, v: int| #[trigger] is_edge(adj, u, v) && reachable(adj, v, u)
}

/// `order` visits exactly the nodes reachable from `s`, each once, starting
/// at `s`, in order of nondecreasing distance from `s`.
pub open spec fn is_level_order(adj: Seq<Seq<u32>>, s: int, order: Seq<u32>) -> bool {
    &&& order.no_duplicates()
    &&& order.len() > 0
    &&& order[0] == s
    &&& forall|i: int| 0 <= i < order.len() ==> reachable(adj, s, #[trigger] order[i] as int)
    &&& forall|v: int| #[trigger] reachable(adj, s, v) ==> holds(order, v)
    &&& forall|i: int, j: int|
        0 <= i <= j < order.len() ==> distance(adj, s, #[trigger] order[i] as int) <= distance(
            adj,
            s,
            #[trigger] order[j] as int,
        )
}

/// `pairs` lists, by increasing node id, each node reachable from `s` with
/// its distance from `s`.
pub open spec fn is_distance_table(adj: Seq<Seq<u32>>, s: int, pairs: Seq<(u32, u32)>) -> bool {
    &&& forall|i: int, j: int| 0 <= i < j < pairs.len() ==> #[trigger] pairs[i].0 < #[trigger] pairs[j].0
    &&& forall|i: int|
        0 <= i < pairs.len() ==> reachable(adj, s, #[trigger] pairs[i].0 as int) && pairs[i].1
            == distance(adj, s, pairs[i].0 as int)
    &&& forall|v: int| #[trigger] reachable(adj, s, v) ==> exists|i: int| 0 <= i < pairs.len() && #[trigger] pairs[i].0 == v
}

/// `order` visits exactly the nodes reachable from `s`, each once, starting
/// at `s`, and each later node is a neighbour of a node visited before it.
pub open spec fn is_search_order(adj: Seq<Seq<u32>>, s: int, order: Seq<u32>) -> bool {
    &&& order.no_duplicates()
    &&& order.len() > 0
    &&& order[0] == s
    &&& forall|i: int| 0 <= i < order.len() ==> reachable(adj, s, #[trigger] order[i] as int)
    &&& forall|v: int| #[trigger] reachable(adj, s, v) ==> holds(order, v)
    &&& forall|i: int|
        0 < i < order.len() ==> exists|a: int| 0 <= a < i && is_edge(adj, order[a] as int, #[trigger] order[i] as int)
}

/// `order[i]` was found from `order[a]`: `order[a]` is the earliest node of
/// `order` with an edge to `order[i]`, and `j` is the first position of
/// `order[i]` among the neighbours of `order[a]`.
pub open spec fn discovered_by(adj: Seq<Seq<u32>>, order: Seq<u32>, i: int, a: int, j: int) -> bool {
    &&& 0 <= a < i < order.len()
    &&& order[a] < adj.len()
    &&& 0 <= j < adj[order[a] as int].len()
    &&& adj[order[a] as int][j] == order[i]
    &&& forall|a2: int| 0 <= a2 < a ==> !is_edge(adj, #[trigger] order[a2] as int, order[i] as int)
    &&& forall|j2: int| 0 <= j2 < j ==> #[trigger] adj[order[a] as int][j2] != order[i]
}

/// Every node of `order` after the first was found from an earlier node.
pub open spec fn all_found(adj: Seq<Seq<u32>>, order: Seq<u32>) -> bool {
    forall|i: int| 0 < i < order.len() ==> #[trigger] found_at(adj, order, i)
}

/// `order[i]` was found from an earlier node.
pub open spec fn found_at(adj: Seq<Seq<u32>>, order: Seq<u32>, i: int) -> bool {
    exists|a: int, j: int| #[trigger] discovered_by(adj, order, i, a, j)
}

/// Nodes come in the order they were found: by the node they were found
/// from, then by their position among its neighbours.
pub open spec fn found_in_order(adj: Seq<Seq<u32>>, order: Seq<u32>) -> bool {
    forall|i: int, k: int, a: int, j: int, a2: int, j2: int|
        0 < i < k < order.len() && #[trigger] discovered_by(adj, order, i, a, j) && #[trigger] discovered_by(
            adj,
            order,
            k,
            a2,
            j2,
        ) ==> a < a2 || (a == a2 && j < j2)
}

/// `order` is the breadth-first order from `s`: a level order in which
/// every node after the first was found from an earlier node, and nodes
/// come in the order they were found.
pub open spec fn is_bfs_order(adj: Seq<Seq<u32>>, s: int, order: Seq<u32>) -> bool {
    &&& is_level_order(adj, s, order)
    &&& all_found(adj, order)
    &&& found_in_order(adj, order)
}

/// A node is found from one place only.
pub proof fn lemma_discovered_by_unique(
    adj: Seq<Seq<u32>>,
    order: Seq<u32>,
    i: int,
    a: int,
    j: int,
    a2: int,
    j2: int,
)
    requires
        discovered_by(adj, order, i, a, j),
        discovered_by(adj, order, i, a2, j2),
    ensures
        a == a2 && j == j2,
{
    if a < a2 {
        assert(is_edge(adj, order[a] as int, order[i] as int)) by {
            assert(adj[order[a] as int][j] == order[i]);
        }
    } else if a2 < a {
        assert(is_edge(adj, order[a2] as int, order[i] as int)) by {
            assert(adj[order[a2] as int][j2] == order[i]);
        }
    } else if j < j2 {
        assert(adj[order[a] as int][j] == order[i]);
    } else if j2 < j {
        assert(adj[order[a] as int][j2] == order[i]);
    }
}

/// Growing a sequence keeps where its earlier nodes were found.
pub proof fn lemma_discovered_by_push(
    adj: Seq<Seq<u32>>,
    order: Seq<u32>,
    x: u32,
    i: int,
    a: int,
    j: int,
)
    requires
        0 <= i < order.len(),
    ensures
        discovered_by(adj, order, i, a, j) <==> discovered_by(adj, order.push(x), i, a, j),
{
    let o2 = order.push(x);
    if 0 <= a < i {
        assert(o2[a] == order[a]);
        assert(o2[i] == order[i]);
        assert forall|a3: int| 0 <= a3 < a implies (is_edge(adj, #[trigger] o2[a3] as int, o2[i] as int)
            <==> is_edge(adj, order[a3] as int, order[i] as int)) by {
            assert(o2[a3] == order[a3]);
        }
        if discovered_by(adj, o2, i, a, j) {
            assert forall|a3: int| 0 <= a3 < a implies !is_edge(adj, #[trigger] order[a3] as int, order[i] as int) by {
                assert(o2[a3] == order[a3]);
                assert(!is_edge(adj, o2[a3] as int, o2[i] as int));
            }
        }
    }
}

/// `order[i]` is the next node of a depth-first search: among the nodes
/// visited before it, `order[a]` is the latest that still has a neighbour not
/// yet visited (every node visited after `order[a]` has none), and `order[i]`
/// is the first such neighbour of `order[a]`, at position `j`.
pub open spec fn dfs_step(adj: Seq<Seq<u32>>, order: Seq<u32>, i: int, a: int, j: int) -> bool {
    let seen = order.take(i);
    &&& 0 <= a < i < order.len()
    &&& order[a] < adj.len()
    &&& 0 <= j < adj[order[a] as int].len()
    &&& adj[order[a] as int][j] == order[i]
    &&& forall|j2: int| 0 <= j2 < j ==> holds(seen, #[trigger] adj[order[a] as int][j2] as int)
    &&& forall|a2: int, j3: int|
        a < a2 < i && 0 <= j3 < adj[order[a2] as int].len() ==> holds(seen, #[trigger] adj[order[a2] as int][j3] as int)
}

/// `order[i]` is the next node of a depth-first search after `order.take(i)`.
pub open spec fn dfs_found_at(adj: Seq<Seq<u32>>, order: Seq<u32>, i: int) -> bool {
    exists|a: int, j: int| #[trigger] dfs_step(adj, order, i, a, j)
}

/// `order` is the depth-first pre-order from `s`: a search order in which
/// each node after the first is the first unvisited neighbour of the latest
/// visited node that still has one.
pub open spec fn is_dfs_order(adj: Seq<Seq<u32>>, s: int, order: Seq<u32>) -> bool {
    &&& is_search_order(adj, s, order)
    &&& forall|i: int| 0 < i < order.len() ==> #[trigger] dfs_found_at(adj, order, i)
}

/// Growing a sequence keeps how its earlier nodes were reached.
pub proof fn lemma_dfs_step_push(adj: Seq<Seq<u32>>, order: Seq<u32>, x: u32, i: int, a: int, j: int)
    requires
        0 <= i < order.len(),
        dfs_step(adj, order, i, a, j),
    ensures
        dfs_step(adj, order.push(x), i, a, j),
{
    let o2 = order.push(x);
    assert(o2.take(i) =~= order.take(i));
    assert(o2[a] == order[a]);
    assert(o2[i] == order[i]);
    assert forall|a2: int, j3: int| a < a2 < i && 0 <= j3 < adj[o2[a2] as int].len() implies holds(
        o2.take(i),
        #[trigger] adj[o2[a2] as int][j3] as int,
    ) by {
        assert(o2[a2] == order[a2]);
        assert(holds(order.take(i), adj[order[a2] as int][j3] as int));
    }
}

/// No edge comes into `v`.
pub open spec fn is_source(adj: Seq<Seq<u32>>, v: int) -> bool {
    forall|u: int| !#[trigger] is_edge(adj, u, v)
}

/// `order[i]` was released by `order[a]`: no later node of `order` has an
/// edge into `order[i]`, and `j` is the last position of `order[i]` among
/// the neighbours of `order[a]`.
pub open spec fn released_by(adj: Seq<Seq<u32>>, order: Seq<u32>, i: int, a: int, j: int) -> bool {
    &&& 0 <= a < i < order.len()
    &&& order[a] < adj.len()
    &&& 0 <= j < adj[order[a] as int].len()
    &&& adj[order[a] as int][j] == order[i]
    &&& forall|a2: int| a < a2 < order.len() ==> !is_edge(adj, #[trigger] order[a2] as int, order[i] as int)
    &&& forall|j2: int| j < j2 < adj[order[a] as int].len() ==> #[trigger] adj[order[a] as int][j2] != order[i]
}

/// `order[i]` was released by an earlier node.
pub open spec fn released_at(adj: Seq<Seq<u32>>, order: Seq<u32>, i: int) -> bool {
    exists|a: int, j: int| #[trigger] released_by(adj, order, i, a, j)
}

/// Nodes released later come later: by the releasing node, then by position
/// among its neighbours.
pub open spec fn released_in_order(adj: Seq<Seq<u32>>, order: Seq<u32>) -> bool {
    forall|i: int, k: int, a: int, j: int, a2: int, j2: int|
        0 <= i < k < order.len() && #[trigger] released_by(adj, order, i, a, j) && #[trigger] released_by(
            adj,
            order,
            k,
            a2,
            j2,
        ) ==> a < a2 || (a == a2 && j < j2)
}

/// `order` is the order of Kahn's algorithm with a first-in first-out
/// queue: a topological order that starts with the nodes without incoming
/// edges, by increasing ID, and lists every other node once the last edge
/// into it has been taken, in the order those edges are taken.
pub open spec fn is_kahn_order(adj: Seq<Seq<u32>>, order: Seq<u32>) -> bool {
    &&& is_topological_order(adj, order)
    &&& forall|i: int, k: int|
        0 <= i < k < order.len() && is_source(adj, #[trigger] order[k] as int) ==> is_source(
            adj,
            #[trigger] order[i] as int,
        ) && order[i] < order[k]
    &&& forall|i: int| 0 <= i < order.len() && !is_source(adj, #[trigger] order[i] as int) ==> released_at(adj, order, i)
    &&& released_in_order(adj, order)
}

/// A node is released from one place only.
pub proof fn lemma_released_by_unique(
    adj: Seq<Seq<u32>>,
    order: Seq<u32>,
    i: int,
    a: int,
    j: int,
    a2: int,
    j2: int,
)
    requires
        released_by(adj, order, i, a, j),
        released_by(adj, order, i, a2, j2),
    ensures
        a == a2 && j == j2,
{
    if a < a2 {
        assert(is_edge(adj, order[a2] as int, order[i] as int)) by {
            assert(adj[order[a2] as int][j2] == order[i]);
        }
    } else if a2 < a {
        assert(is_edge(adj, order[a] as int, order[i] as int)) by {
            assert(adj[order[a] as int][j] == order[i]);
        }
    } else if j < j2 {
        assert(adj[order[a] as int][j2] == order[i]);
    } else if j2 < j {
        assert(adj[order[a] as int][j] == order[i]);
    }
}

pub proof fn lemma_reach_mono(adj: Seq<Seq<u32>>, s: int, v: int, k: nat, m: nat)
    requires
        k <= m,
        reach_within(adj, s, v, k),
    ensures
        reach_within(adj, s, v, m),
    decreases m,
{
    if k < m {
        lemma_reach_mono(adj, s, v, k, (m - 1) as nat);
    }
}

pub proof fn lemma_reach_step(adj: Seq<Seq<u32>>, s: int, u: int, v: int, k: nat)
    requires
        reach_within(adj, s, u, k),
        is_edge(adj, u, v),
    ensures
        reach_within(adj, s, v, k + 1),
{
    let k1: nat = k + 1;
    assert(((k1 - 1) as nat) == k);
    assert(reach_set(adj, s, k1).contains(v));
}

/// A distance is at most the length of any path.
pub proof fn lemma_distance_le(adj: Seq<Seq<u32>>, s: int, v: int, d: nat, k: nat)
    requires
        is_distance(adj, s, v, d),
        reach_within(adj, s, v, k),
    ensures
        d <= k,
{
    if k < d {
        lemma_reach_mono(adj, s, v, k, (d - 1) as nat);
    }
}

/// A node reachable within `k` steps has a distance of at most `k`.
pub proof fn lemma_has_distance(adj: Seq<Seq<u32>>, s: int, v: int, k: nat)
    requires
        reach_within(adj, s, v, k),
    ensures
        is_distance(adj, s, v, distance(adj, s, v)),
        distance(adj, s, v) <= k,
    decreases k,
{
    if k == 0 || !reach_within(adj, s, v, (k - 1) as nat) {
        assert(is_distance(adj, s, v, k));
        let d = distance(adj, s, v);
        lemma_distance_le(adj, s, v, d, k);
    } else {
        lemma_has_distance(adj, s, v, (k - 1) as nat);
    }
}

/// Distances are unique.
pub proof fn lemma_distance_unique(adj: Seq<Seq<u32>>, s: int, v: int, d: nat)
    requires
        is_distance(adj, s, v, d),
    ensures
        distance(adj, s, v) == d,
{
    lemma_has_distance(adj, s, v, d);
    let e = distance(adj, s, v);
    lemma_distance_le(adj, s, v, e, d);
    lemma_distance_le(adj, s, v, d, e);
}

/// A set that holds `s` and every neighbour of its members holds every node
/// reachable from `s`.
pub proof fn lemma_closed_set_holds_reachable(adj: Seq<Seq<u32>>, s: int, set: Set<int>, v: int, k: nat)
    requires
        set.contains(s),
        forall|u: int, w: int| set.contains(u) && #[trigger] is_edge(adj, u, w) ==> set.contains(w),
        reach_within(adj, s, v, k),
    ensures
        set.contains(v),
    decreases k,
{
    if k > 0 {
        if reach_within(adj, s, v, (k - 1) as nat) {
            lemma_closed_set_holds_reachable(adj, s, set, v, (k - 1) as nat);
        } else {
            let prev = reach_set(adj, s, (k - 1) as nat);
            let u = choose|u: int| prev.contains(u) && #[trigger] is_edge(adj, u, v);
            lemma_closed_set_holds_reachable(adj, s, set, u, (k - 1) as nat);
        }
    }
}

/// A sequence of distinct nodes below `n` has at most `n` elements, and
/// exactly `n` only when it holds every node below `n`.
pub proof fn lemma_distinct_nodes(s: Seq<u32>, n: int)
    requires
        s.no_duplicates(),
        0 <= n,
        forall|i: int| 0 <= i < s.len() ==> #[trigger] s[i] < n,
    ensures
        s.len() <= n,
        s.len() == n ==> forall|v: int| 0 <= v < n ==> #[trigger] holds(s, v),
{
    let m = s.map_values(|x: u32| x as int);
    assert(m.no_duplicates());
    m.unique_seq_to_set();
    lemma_int_range(0, n);
    assert forall|x: int| m.to_set().contains(x) implies set_int_range(0, n).contains(x) by {
        let i = choose|i: int| 0 <= i < m.len() && m[i] == x;
        assert(s[i] < n);
    }
    lemma_len_subset(m.to_set(), set_int_range(0, n));
    if s.len() == n {
        lemma_subset_equality(m.to_set(), set_int_range(0, n));
        assert forall|v: int| 0 <= v < n implies #[trigger] holds(s, v) by {
            assert(set_int_range(0, n).contains(v));
            assert(m.to_set().contains(v));
            let i = choose|i: int| 0 <= i < m.len() && m[i] == v;
            assert(s[i] == v);
        }
    }
}

/// A sequence of distinct nodes that holds every node below `n` has at least `n` elements.
pub proof fn lemma_distinct_covering(s: Seq<u32>, n: int)
    requires
        s.no_duplicates(),
        0 <= n,
        forall|v: int| 0 <= v < n ==> #[trigger] holds(s, v),
    ensures
        s.len() >= n,
{
    let m = s.map_values(|x: u32| x as int);
    assert(m.no_duplicates());
    m.unique_seq_to_set();
    lemma_int_range(0, n);
    assert forall|x: int| set_int_range(0, n).contains(x) implies m.to_set().contains(x) by {
        assert(holds(s, x));
        let i = choose|i: int| 0 <= i < s.len() && s[i] == x;
        assert(m[i] == x);
    }
    vstd::seq_lib::seq_to_set_is_finite(m);
    lemma_len_subset(set_int_range(0, n), m.to_set());
}

/// In a sequence of nodes, the first position whose node `done` does not hold.
pub proof fn lemma_first_missing(ord: Seq<u32>, done: Seq<u32>, i: int) -> (f: int)
    requires
        0 <= i <= ord.len(),
        forall|j: int| 0 <= j < i ==> holds(done, #[trigger] ord[j] as int),
        exists|j: int| i <= j < ord.len() && !holds(done, #[trigger] ord[j] as int),
    ensures
        i <= f < ord.len(),
        !holds(done, ord[f] as int),
        forall|j: int| 0 <= j < f ==> holds(done, #[trigger] ord[j] as int),
    decreases ord.len() - i,
{
    if !holds(done, ord[i] as int) {
        i
    } else {
        lemma_first_missing(ord, done, i + 1)
    }
}

} // verus!
