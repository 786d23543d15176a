//! The model of an edge list `(source, target)`: which targets each source has,
//! in list order, and how many edges leave the sources below a bound.
use vstd::prelude::*;

verus! {

/// Targets of the edges that leave `u`, in the order the edges are listed.
pub open spec fn targets(edges: Seq<(u32, u32)>, u: int) -> Seq<u32>
    decreases edges.len(),
{
    if edges.len() == 0 {
        Seq::empty()
    } else {
        let last = edges.last();
        let rest = targets(edges.drop_last(), u);
        if last.0 as int == u {
            rest.push(last.1)
        } else {
            rest
        }
    }
}

/// Number of edges whose source is below `i`.
pub open spec fn count_below(edges: Seq<(u32, u32)>, i: int) -> nat
    decreases edges.len(),
{
    if edges.len() == 0 {
        0
    } else {
        count_below(edges.drop_last(), i) + if (edges.last().0 as int) < i {
            1nat
        } else {
            0nat
        }
    }
}

/// Number of edges whose source is `n` or above: an edge list read for a
/// graph of `n` nodes keeps no such edge in any node's row.
pub open spec fn stray_count(edges: Seq<(u32, u32)>, n: int) -> nat {
    (edges.len() - count_below(edges, n)) as nat
}

/// Adjacency of the graph with `n` nodes that the edge list describes.
pub open spec fn adjacency_of(n: nat, edges: Seq<(u32, u32)>) -> Seq<Seq<u32>> {
    Seq::new(n, |u: int| targets(edges, u))
}

/// The targets of a concatenation are the targets of each part, in order.
pub proof fn lemma_targets_append(a: Seq<(u32, u32)>, b: Seq<(u32, u32)>, u: int)
    ensures
        targets(a + b, u) =~= targets(a, u) + targets(b, u),
    decreases b.len(),
{
    if b.len() == 0 {
        assert(a + b =~= a);
    } else {
        assert((a + b).drop_last() =~= a + b.drop_last());
        lemma_targets_append(a, b.drop_last(), u);
    }
}

/// Appending one edge adds its target to its source's list only.
pub proof fn lemma_targets_push(a: Seq<(u32, u32)>, e: (u32, u32), u: int)
    ensures
        targets(a.push(e), u) =~= if e.0 as int == u {
            targets(a, u).push(e.1)
        } else {
            targets(a, u)
        },
{
    assert(a.push(e).drop_last() =~= a);
}

/// The targets of a prefix are a prefix of the targets.
pub proof fn lemma_targets_prefix(a: Seq<(u32, u32)>, j: int, u: int)
    requires
        0 <= j <= a.len(),
    ensures
        targets(a.take(j), u).len() <= targets(a, u).len(),
        forall|k: int|
            0 <= k < targets(a.take(j), u).len() ==> #[trigger] targets(a.take(j), u)[k]
                == targets(a, u)[k],
{
    assert(a =~= a.take(j) + a.skip(j));
    lemma_targets_append(a.take(j), a.skip(j), u);
}

pub proof fn lemma_targets_len(a: Seq<(u32, u32)>, u: int)
    ensures
        targets(a, u).len() <= a.len(),
    decreases a.len(),
{
    if a.len() > 0 {
        lemma_targets_len(a.drop_last(), u);
    }
}

pub proof fn lemma_count_below_len(a: Seq<(u32, u32)>, i: int)
    ensures
        count_below(a, i) <= a.len(),
    decreases a.len(),
{
    if a.len() > 0 {
        lemma_count_below_len(a.drop_last(), i);
    }
}

/// Raising the bound by one adds the edges of the node at the old bound.
pub proof fn lemma_count_below_step(a: Seq<(u32, u32)>, i: int)
    ensures
        count_below(a, i + 1) == count_below(a, i) + targets(a, i).len(),
    decreases a.len(),
{
    if a.len() > 0 {
        lemma_count_below_step(a.drop_last(), i);
    }
}

pub proof fn lemma_count_below_mono(a: Seq<(u32, u32)>, i: int, j: int)
    requires
        i <= j,
    ensures
        count_below(a, i) <= count_below(a, j),
    decreases a.len(),
{
    if a.len() > 0 {
        lemma_count_below_mono(a.drop_last(), i, j);
    }
}

pub proof fn lemma_count_below_zero(a: Seq<(u32, u32)>)
    ensures
        count_below(a, 0) == 0,
    decreases a.len(),
{
    if a.len() > 0 {
        lemma_count_below_zero(a.drop_last());
    }
}

} // verus!
