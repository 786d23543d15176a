//! Host side of the graph kernels that run on a GPU device: how many
//! workgroups to launch, the buffers a search starts from, and what is made
//! of the buffers read back after each launch.
use vstd::prelude::*;

verus! {

/// Threads in one workgroup of the graph kernels.
pub const WORKGROUP: u32 = 64;

/// Workgroups to launch so that each of `count` items has a thread: the
/// least number of workgroups whose threads cover `count`.
pub fn workgroups(count: u32) -> (groups: u32)
    requires
        count + WORKGROUP <= u32::MAX,
    ensures
        groups * WORKGROUP >= count,
        groups * WORKGROUP < count + WORKGROUP,
{
    (count + WORKGROUP - 1) / WORKGROUP
}

/// The buffers a breadth-first search on the device starts from: the
/// visited flags of the `n` nodes, with `start` marked when it is a node,
/// and the first frontier, laid out as its length (1) and its node
/// (`start`), padded with zeros to `n + 1` slots.
pub fn bfs_seed(n: usize, start: u32) -> (bufs: (Vec<u32>, Vec<u32>))
    requires
        1 <= n < usize::MAX,
    ensures
        bufs.0@ == Seq::new(n as nat, |i: int| if i == start { 1u32 } else { 0u32 }),
        bufs.1@ == Seq::new(
            (n + 1) as nat,
            |i: int|
                if i == 0 {
                    1u32
                } else if i == 1 {
                    start
                } else {
                    0u32
                },
        ),
{
    let mut visited: Vec<u32> = vec![0u32; n];
    if (start as usize) < n {
        visited.set(start as usize, 1);
    }
    let mut frontier: Vec<u32> = vec![0u32; n + 1];
    frontier.set(0, 1);
    frontier.set(1, start);
    assert(visited@ =~= Seq::new(n as nat, |i: int| if i == start { 1u32 } else { 0u32 }));
    assert(frontier@ =~= Seq::new(
        (n + 1) as nat,
        |i: int|
            if i == 0 {
                1u32
            } else if i == 1 {
                start
            } else {
                0u32
            },
    ));
    (visited, frontier)
}

/// Take the frontier read back after one level of a breadth-first search.
/// Slots `1 ..= count` of `fout` hold its nodes: they join `order`, and the
/// frontier of the next level comes back laid out as its length and its
/// nodes, padded with zeros to `n + 1` slots.
pub fn advance_frontier(order: &mut Vec<u32>, fout: &[u32], count: u32, n: usize) -> (fin: Vec<u32>)
    requires
        count < fout@.len(),
        count <= n < usize::MAX,
    ensures
        final(order)@ == old(order)@ + fout@.subrange(1, count + 1),
        fin@ == Seq::new(
            (n + 1) as nat,
            |i: int|
                if i == 0 {
                    count
                } else if i <= count {
                    fout@[i]
                } else {
                    0u32
                },
        ),
{
    let c = count as usize;
    let mut fin: Vec<u32> = vec![0u32; n + 1];
    fin.set(0, count);
    let mut k: usize = 1;
    while k <= c
        invariant
            c == count,
            c < fout@.len(),
            c <= n < usize::MAX,
            1 <= k <= c + 1,
            order@ == old(order)@ + fout@.subrange(1, k as int),
            fin@.len() == n + 1,
            fin@[0] == count,
            forall|i: int| 1 <= i < k ==> #[trigger] fin@[i] == fout@[i],
            forall|i: int| k <= i <= n ==> #[trigger] fin@[i] == 0,
        decreases c + 1 - k,
    {
        let x = fout[k];
        order.push(x);
        fin.set(k, x);
        k = k + 1;
        assert(order@ =~= old(order)@ + fout@.subrange(1, k as int));
    }
    assert(fin@ =~= Seq::new(
        (n + 1) as nat,
        |i: int|
            if i == 0 {
                count
            } else if i <= count {
                fout@[i]
            } else {
                0u32
            },
    ));
    fin
}

/// The distances a shortest-path search on the device starts from: 0 at
/// `start` when it is a node, and `u32::MAX` (not reached) elsewhere.
pub fn distance_seed(n: usize, start: u32) -> (dist: Vec<u32>)
    ensures
        dist@ == Seq::new(n as nat, |i: int| if i == start { 0u32 } else { u32::MAX }),
{
    let mut dist: Vec<u32> = vec![u32::MAX; n];
    if (start as usize) < n {
        dist.set(start as usize, 0);
    }
    assert(dist@ =~= Seq::new(n as nat, |i: int| if i == start { 0u32 } else { u32::MAX }));
    dist
}

/// The entries of a distance array that were reached (not `u32::MAX`), by
/// increasing position, each as its position cut to `u32` and its distance.
pub open spec fn reached(dist: Seq<u32>) -> Seq<(u32, u32)> {
    Seq::new(dist.len(), |i: int| (i as u32, dist[i])).filter(|p: (u32, u32)| p.1 != u32::MAX)
}

/// The positions the first `i` entries of a distance array are read from in
/// `reached`: increasing, each reached, and every reached position among them.
proof fn lemma_reached_sources(dist: Seq<u32>, i: int) -> (src: Seq<int>)
    requires
        0 <= i <= dist.len(),
    ensures
        src.len() == reached(dist.take(i)).len(),
        forall|k: int|
            0 <= k < src.len() ==> 0 <= #[trigger] src[k] < i && dist[src[k]] != u32::MAX && reached(dist.take(i))[k] == (
                src[k] as u32,
                dist[src[k]],
            ),
        forall|k1: int, k2: int| 0 <= k1 < k2 < src.len() ==> #[trigger] src[k1] < #[trigger] src[k2],
        forall|j: int| 0 <= j < i && #[trigger] dist[j] != u32::MAX ==> exists|k: int| 0 <= k < src.len() && #[trigger] src[k] == j,
    decreases i,
{
    if i == 0 {
        reveal(Seq::filter);
        assert(Seq::new(dist.take(0).len(), |k: int| (k as u32, dist.take(0)[k])).len() == 0);
        Seq::empty()
    } else {
        let src0 = lemma_reached_sources(dist, i - 1);
        let t = dist.take(i);
        let all = Seq::new(t.len(), |k: int| (k as u32, t[k]));
        assert(all.drop_last() =~= Seq::new(dist.take(i - 1).len(), |k: int| (k as u32, dist.take(i - 1)[k])));
        assert(all.last() == ((i - 1) as u32, dist[i - 1]));
        reveal(Seq::filter);
        if dist[i - 1] != u32::MAX {
            let src = src0.push(i - 1);
            assert forall|j: int| 0 <= j < i && #[trigger] dist[j] != u32::MAX implies exists|k: int|
                0 <= k < src.len() && #[trigger] src[k] == j by {
                if j < i - 1 {
                    let k = choose|k: int| 0 <= k < src0.len() && #[trigger] src0[k] == j;
                    assert(src[k] == j);
                } else {
                    assert(src[src.len() - 1] == j);
                }
            }
            src
        } else {
            src0
        }
    }
}

/// The entries `reached` keeps of a distance array: every position `i`
/// whose distance is not `u32::MAX` gives the pair `(i, dist[i])`, the pairs
/// hold nothing else, and they follow the order of the positions.
pub proof fn law_reached_keeps_every_reached_entry(dist: Seq<u32>)
    ensures
        forall|i: int|
            #![trigger dist[i]]
            0 <= i < dist.len() && dist[i] != u32::MAX ==> exists|k: int|
                #![trigger reached(dist)[k]]
                0 <= k < reached(dist).len() && reached(dist)[k] == (i as u32, dist[i]),
        forall|k: int|
            #![trigger reached(dist)[k]]
            0 <= k < reached(dist).len() ==> reached(dist)[k].1 != u32::MAX && exists|i: int|
                #![trigger dist[i]]
                0 <= i < dist.len() && dist[i] != u32::MAX && reached(dist)[k] == (i as u32, dist[i]),
        forall|k1: int, k2: int|
            #![trigger reached(dist)[k1], reached(dist)[k2]]
            0 <= k1 < k2 < reached(dist).len() ==> reached(dist)[k1].1 != u32::MAX && reached(dist)[k2].1
                != u32::MAX && exists|i1: int, i2: int|
                #![trigger dist[i1], dist[i2]]
                0 <= i1 < i2 < dist.len() && reached(dist)[k1] == (i1 as u32, dist[i1]) && reached(dist)[k2] == (
                    i2 as u32,
                    dist[i2],
                ),
{
    let src = lemma_reached_sources(dist, dist.len() as int);
    assert(dist.take(dist.len() as int) =~= dist);
    let r = reached(dist);
    assert forall|j: int| #![trigger dist[j]] 0 <= j < dist.len() && dist[j] != u32::MAX implies exists|k: int|
        #![trigger r[k]]
        0 <= k < r.len() && r[k] == (j as u32, dist[j]) by {
        let k = choose|k: int| 0 <= k < src.len() && #[trigger] src[k] == j;
        assert(r[k] == (j as u32, dist[j]));
    }
    assert forall|k: int| #![trigger r[k]] 0 <= k < r.len() implies r[k].1 != u32::MAX && exists|j: int|
        #![trigger dist[j]]
        0 <= j < dist.len() && dist[j] != u32::MAX && r[k] == (j as u32, dist[j]) by {
        assert(dist[src[k]] != u32::MAX);
    }
    assert forall|k1: int, k2: int| #![trigger r[k1], r[k2]] 0 <= k1 < k2 < r.len() implies r[k1].1 != u32::MAX && r[k2].1
        != u32::MAX && exists|
        i1: int,
        i2: int,
    |
        #![trigger dist[i1], dist[i2]]
        0 <= i1 < i2 < dist.len() && r[k1] == (i1 as u32, dist[i1]) && r[k2] == (i2 as u32, dist[i2]) by {
        assert(src[k1] < src[k2]);
        assert(r[k1] == (src[k1] as u32, dist[src[k1]]));
        assert(r[k2] == (src[k2] as u32, dist[src[k2]]));
    }
}

/// The (node, distance) pairs of the nodes a distance array marks as
/// reached, by increasing node ID: every position `i` whose distance is not
/// `u32::MAX` gives the pair `(i, dist[i])`, the start's own 0 included, and
/// the table holds nothing else, in the order of the positions.
pub fn distance_table(dist: &[u32]) -> (pairs: Vec<(u32, u32)>)
    ensures
        pairs@ == reached(dist@),
        forall|i: int|
            #![trigger dist@[i]]
            0 <= i < dist@.len() && dist@[i] != u32::MAX ==> exists|k: int|
                #![trigger pairs@[k]]
                0 <= k < pairs@.len() && pairs@[k] == (i as u32, dist@[i]),
        forall|k: int|
            #![trigger pairs@[k]]
            0 <= k < pairs@.len() ==> pairs@[k].1 != u32::MAX && exists|i: int|
                #![trigger dist@[i]]
                0 <= i < dist@.len() && dist@[i] != u32::MAX && pairs@[k] == (i as u32, dist@[i]),
        forall|k1: int, k2: int|
            #![trigger pairs@[k1], pairs@[k2]]
            0 <= k1 < k2 < pairs@.len() ==> pairs@[k1].1 != u32::MAX && pairs@[k2].1 != u32::MAX && exists|
                i1: int,
                i2: int,
            |
                #![trigger dist@[i1], dist@[i2]]
                0 <= i1 < i2 < dist@.len() && pairs@[k1] == (i1 as u32, dist@[i1]) && pairs@[k2] == (
                    i2 as u32,
                    dist@[i2],
                ),
{
    let mut pairs: Vec<(u32, u32)> = Vec::new();
    let mut i: usize = 0;
    while i < dist.len()
        invariant
            i <= dist@.len(),
            pairs@ == reached(dist@.take(i as int)),
        decreases dist@.len() - i,
    {
        let d = dist[i];
        proof {
            let t = dist@.take(i + 1);
            let all = Seq::new(t.len(), |k: int| (k as u32, t[k]));
            assert(all.drop_last() =~= Seq::new(dist@.take(i as int).len(), |k: int| (k as u32, dist@.take(i as int)[k])));
            assert(all.last() == (i as u32, d));
            reveal(Seq::filter);
        }
        if d != u32::MAX {
            pairs.push((i as u32, d));
        }
        i = i + 1;
    }
    assert(dist@.take(dist@.len() as int) =~= dist@);
    proof {
        law_reached_keeps_every_reached_entry(dist@);
    }
    pairs
}

/// A breadth-first search run on the device, level by level: the nodes
/// found so far, the length of the current frontier, and how many levels
/// have been read back, out of at most one per node.
pub struct LevelSearch {
    order: Vec<u32>,
    frontier_len: u32,
    level: usize,
    n: usize,
}

impl LevelSearch {
    /// The nodes found so far, in the order they were read back.
    pub closed spec fn found(&self) -> Seq<u32> {
        self.order@
    }

    /// The length of the current frontier.
    pub closed spec fn frontier(&self) -> u32 {
        self.frontier_len
    }

    /// How many levels have been read back.
    pub closed spec fn levels(&self) -> nat {
        self.level as nat
    }

    /// The number of nodes of the graph searched.
    pub closed spec fn node_count(&self) -> nat {
        self.n as nat
    }

    /// The search from `start` over `n` nodes: `start` found, a frontier of
    /// one node, no level read back.
    pub fn new(n: usize, start: u32) -> (s: Self)
        ensures
            s.found() == seq![start],
            s.frontier() == 1,
            s.levels() == 0,
            s.node_count() == n,
    {
        let mut order: Vec<u32> = Vec::new();
        order.push(start);
        LevelSearch { order, frontier_len: 1, level: 0, n }
    }

    /// The length of the current frontier.
    pub fn frontier_len(&self) -> (len: u32)
        ensures
            len == self.frontier(),
    {
        self.frontier_len
    }

    /// How many levels have been read back.
    pub fn level(&self) -> (level: usize)
        ensures
            level == self.levels(),
    {
        self.level
    }

    /// The workgroups to launch for the next level, or `None` when the
    /// search is over: the frontier is empty, or every level was read.
    pub fn next_launch(&self) -> (groups: Option<u32>)
        requires
            self.levels() < self.node_count() && self.frontier() != 0 ==> self.frontier() + WORKGROUP <= u32::MAX,
        ensures
            match groups {
                Some(g) => {
                    &&& self.levels() < self.node_count()
                    &&& self.frontier() != 0
                    &&& g * WORKGROUP >= self.frontier()
                    &&& g * WORKGROUP < self.frontier() + WORKGROUP
                },
                None => self.levels() >= self.node_count() || self.frontier() == 0,
            },
    {
        if self.level < self.n && self.frontier_len != 0 {
            Some(workgroups(self.frontier_len))
        } else {
            None
        }
    }

    /// Take the length of the frontier the launch produced. `None` when it
    /// is empty (the search is over); otherwise how many slots of the
    /// frontier buffer to read back: its length slot and its nodes.
    pub fn on_count(&mut self, count: u32) -> (slots: Option<usize>)
        requires
            count <= old(self).node_count() < usize::MAX,
        ensures
            final(self).frontier() == count,
            final(self).found() == old(self).found(),
            final(self).levels() == old(self).levels(),
            final(self).node_count() == old(self).node_count(),
            slots == (if count == 0 {
                None
            } else {
                Some((count + 1) as usize)
            }),
    {
        self.frontier_len = count;
        if count == 0 {
            None
        } else {
            Some(count as usize + 1)
        }
    }

    /// Take the frontier buffer read back after a level: its nodes (slots
    /// `1 ..= frontier()`) are found, one more level is read, and the
    /// frontier buffer for the next level comes back, laid out as its length
    /// and its nodes, padded with zeros to `n + 1` slots.
    pub fn on_frontier(&mut self, fout: &[u32]) -> (fin: Vec<u32>)
        requires
            old(self).frontier() < fout@.len(),
            old(self).frontier() <= old(self).node_count(),
            old(self).levels() < old(self).node_count() < usize::MAX,
        ensures
            final(self).found() == old(self).found() + fout@.subrange(1, old(self).frontier() + 1),
            final(self).frontier() == old(self).frontier(),
            final(self).levels() == old(self).levels() + 1,
            final(self).node_count() == old(self).node_count(),
            fin@ == Seq::new(
                (old(self).node_count() + 1) as nat,
                |i: int|
                    if i == 0 {
                        old(self).frontier()
                    } else if i <= old(self).frontier() {
                        fout@[i]
                    } else {
                        0u32
                    },
            ),
    {
        let fin = advance_frontier(&mut self.order, fout, self.frontier_len, self.n);
        self.level = self.level + 1;
        fin
    }

    /// The nodes found, in the order they were read back.
    pub fn into_found(self) -> (order: Vec<u32>)
        ensures
            order@ == self.found(),
    {
        self.order
    }
}

/// Relaxation passes of a shortest-path search on the device: how many
/// passes have run, out of at most one per node, and whether the last one
/// changed a distance.
pub struct RelaxPasses {
    done: usize,
    n: usize,
    changed: bool,
}

impl RelaxPasses {
    /// Passes that have run.
    pub closed spec fn passes(&self) -> nat {
        self.done as nat
    }

    /// The number of nodes of the graph searched.
    pub closed spec fn node_count(&self) -> nat {
        self.n as nat
    }

    /// Whether the last pass changed a distance (true before the first).
    pub closed spec fn last_changed(&self) -> bool {
        self.changed
    }

    /// No pass run yet, over `n` nodes.
    pub fn new(n: usize) -> (r: Self)
        ensures
            r.passes() == 0,
            r.node_count() == n,
            r.last_changed(),
    {
        RelaxPasses { done: 0, n, changed: true }
    }

    /// Whether to launch another pass: the last one changed a distance and
    /// fewer passes than nodes have run.
    pub fn launch(&self) -> (more: bool)
        ensures
            more == (self.last_changed() && self.passes() < self.node_count()),
    {
        self.changed && self.done < self.n
    }

    /// Take the change flag read back after a pass (0: nothing changed).
    pub fn on_pass(&mut self, changed: u32)
        requires
            old(self).passes() < old(self).node_count(),
        ensures
            final(self).passes() == old(self).passes() + 1,
            final(self).node_count() == old(self).node_count(),
            final(self).last_changed() == (changed != 0),
    {
        self.done = self.done + 1;
        self.changed = changed != 0;
    }
}

} // verus!
