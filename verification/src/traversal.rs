//! Unit-cost shortest-path traversal over the graph.
//!
//! Edge weights are deliberately ignored here: every edge costs one step,
//! which is what the centrality and sampling analyses are defined over.

use vstd::prelude::*;
use crate::graph::{Graph, edge_joins};

verus! {

/// Whether node `v` can be reached from `s` in at most `d` unit steps.
pub open spec fn reachable_within(g: Graph, s: int, v: int, d: nat) -> bool
    decreases d,
{
    if v == s {
        true
    } else if d == 0 {
        false
    } else {
        exists|u: int| 0 <= u < g.nodes@.len() && g.adjacent(u, v)
            && reachable_within(g, s, u, (d - 1) as nat)
    }
}

/// Whether node `v` is reachable from `s` at all.
pub open spec fn reachable(g: Graph, s: int, v: int) -> bool {
    exists|d: nat| reachable_within(g, s, v, d)
}

/// Whether `d` is the unit-cost shortest-path distance from `s` to `v`.
pub open spec fn has_dist(g: Graph, s: int, v: int, d: nat) -> bool {
    reachable_within(g, s, v, d) && (d == 0 || !reachable_within(g, s, v, (d - 1) as nat))
}

/// One distance table entry is right for node `v`: a shortest distance
/// where `v` is reachable, and nothing where it is not.
pub open spec fn dist_entry_ok(g: Graph, s: int, v: int, e: Option<usize>) -> bool {
    match e {
        Some(d) => has_dist(g, s, v, d as nat),
        None => !reachable(g, s, v),
    }
}

/// A whole distance table is right for source `s`.
pub open spec fn dist_vec_ok(g: Graph, s: int, dv: Seq<Option<usize>>) -> bool {
    &&& dv.len() == g.nodes@.len()
    &&& forall|v: int| 0 <= v < dv.len() ==> dist_entry_ok(g, s, v, #[trigger] dv[v])
}

/// The distance recorded for `v`, read as an integer; -1 where none is.
pub open spec fn dval(dv: Seq<Option<usize>>, v: int) -> int {
    match dv[v] {
        Some(d) => d as int,
        None => -1,
    }
}

/// How many entries hold a distance.
pub open spec fn count_some(ds: Seq<Option<usize>>) -> int
    decreases ds.len(),
{
    if ds.len() == 0 {
        0
    } else {
        count_some(ds.drop_last()) + if ds.last() is Some { 1int } else { 0int }
    }
}

/// The sum of the recorded distances.
pub open spec fn sum_some(ds: Seq<Option<usize>>) -> int
    decreases ds.len(),
{
    if ds.len() == 0 {
        0
    } else {
        sum_some(ds.drop_last()) + match ds.last() {
            Some(d) => d as int,
            None => 0int,
        }
    }
}

/// Counts are bounded by the length and sums are never negative.
pub proof fn lemma_count_sum_bounds(ds: Seq<Option<usize>>)
    ensures
        0 <= count_some(ds) <= ds.len(),
        sum_some(ds) >= 0,
    decreases ds.len(),
{
    if ds.len() > 0 {
        lemma_count_sum_bounds(ds.drop_last());
    }
}

/// Filling a previously empty entry raises the count by one and the sum
/// by the recorded distance.
pub proof fn lemma_count_sum_set(ds: Seq<Option<usize>>, w: int, x: usize)
    requires
        0 <= w < ds.len(),
        ds[w] is None,
    ensures
        count_some(ds.update(w, Some(x))) == count_some(ds) + 1,
        sum_some(ds.update(w, Some(x))) == sum_some(ds) + x,
    decreases ds.len(),
{
    let dsu = ds.update(w, Some(x));
    if w == ds.len() - 1 {
        assert(dsu.drop_last() =~= ds.drop_last());
    } else {
        assert(dsu.drop_last() =~= ds.drop_last().update(w, Some(x)));
        assert(dsu.last() == ds.last());
        lemma_count_sum_set(ds.drop_last(), w, x);
    }
}

/// A table with an empty entry holds fewer distances than entries.
pub proof fn lemma_count_lt_if_none(ds: Seq<Option<usize>>, w: int)
    requires
        0 <= w < ds.len(),
        ds[w] is None,
    ensures
        count_some(ds) <= ds.len() - 1,
    decreases ds.len(),
{
    lemma_count_sum_bounds(ds.drop_last());
    if w < ds.len() - 1 {
        lemma_count_lt_if_none(ds.drop_last(), w);
    }
}

/// Whether one of the first `k` edges joins `u` and `w`.
pub open spec fn adjacent_upto(g: Graph, u: int, w: int, k: int) -> bool {
    exists|e: int| 0 <= e < k && edge_joins(#[trigger] g.edges@[e], u, w)
}

/// At the end of a full traversal every node reachable within `d` steps
/// has been discovered, at a recorded distance of at most `d`.
proof fn lemma_bfs_complete(g: Graph, s: int, dist: Seq<Option<usize>>, queue: Seq<usize>, d: nat)
    requires
        g.wf(),
        0 <= s < g.nodes@.len(),
        dist.len() == g.nodes@.len(),
        dist[s] == Some(0usize),
        forall|v: int| 0 <= v < dist.len() && (#[trigger] dist[v]) is Some
            ==> exists|jj: int| 0 <= jj < queue.len() && queue[jj] == v,
        forall|jj: int| 0 <= jj < queue.len()
            ==> ((#[trigger] queue[jj]) as int) < dist.len() && dist[queue[jj] as int] is Some,
        forall|jj: int, w: int| 0 <= jj < queue.len() && 0 <= w < dist.len()
            && #[trigger] g.adjacent(queue[jj] as int, w)
            ==> dist[w] is Some && dval(dist, w) <= dval(dist, queue[jj] as int) + 1,
    ensures
        forall|v: int| 0 <= v < dist.len() && reachable_within(g, s, v, d)
            ==> (#[trigger] dist[v]) is Some && dval(dist, v) <= d,
    decreases d,
{
    if d > 0 {
        lemma_bfs_complete(g, s, dist, queue, (d - 1) as nat);
    }
    assert forall|v: int| 0 <= v < dist.len() && reachable_within(g, s, v, d)
        implies (#[trigger] dist[v]) is Some && dval(dist, v) <= d by {
        if v == s {
            assert(dval(dist, s) == 0);
        } else {
            let u = choose|u: int| 0 <= u < g.nodes@.len() && g.adjacent(u, v)
                && reachable_within(g, s, u, (d - 1) as nat);
            assert(dist[u] is Some && dval(dist, u) <= d - 1);
            let jj = choose|jj: int| 0 <= jj < queue.len() && queue[jj] == u;
            assert(g.adjacent(queue[jj] as int, v));
        }
    }
}

/// Unit-cost shortest distances from `s` to every node, by breadth-first
/// traversal: `Some(d)` exactly for the reachable nodes, with `d` their
/// shortest distance, and `None` for the rest.
#[verifier::rlimit(100)]
pub fn shortest_distances(g: &Graph, s: usize) -> (dist: Vec<Option<usize>>)
    requires
        g.wf(),
        (s as int) < g.nodes@.len(),
    ensures
        dist_vec_ok(*g, s as int, dist@),
        forall|v: int| 0 <= v < dist@.len() ==> dval(dist@, v) < g.nodes@.len(),
        dist@[s as int] == Some(0usize),
{
    let n = g.nodes.len();
    let mut dist: Vec<Option<usize>> = Vec::new();
    let mut t: usize = 0;
    while t < n
        invariant
            dist@.len() == t,
            t <= n,
            count_some(dist@) == 0,
            forall|v: int| 0 <= v < t ==> (#[trigger] dist@[v]) is None,
        decreases n - t,
    {
        let ghost before = dist@;
        dist.push(None);
        proof {
            assert(dist@.drop_last() =~= before);
        }
        t += 1;
    }
    proof {
        lemma_count_sum_set(dist@, s as int, 0);
    }
    dist.set(s, Some(0));
    let mut queue: Vec<usize> = Vec::new();
    queue.push(s);
    let mut head: usize = 0;
    proof {
        assert(queue@[0] == s);
        assert forall|v: int| 0 <= v < n && (#[trigger] dist@[v]) is Some
            implies exists|jj: int| 0 <= jj < queue@.len() && queue@[jj] == v by {
            assert(v == s);
        }
    }
    while head < queue.len()
        invariant
            g.wf(),
            n == g.nodes@.len(),
            (s as int) < n,
            dist@.len() == n,
            dist@[s as int] == Some(0usize),
            head <= queue@.len(),
            queue@.len() == count_some(dist@),
            count_some(dist@) <= n,
            forall|jj: int| 0 <= jj < queue@.len()
                ==> ((#[trigger] queue@[jj]) as int) < n && dist@[queue@[jj] as int] is Some,
            forall|v: int| 0 <= v < n && (#[trigger] dist@[v]) is Some
                ==> reachable_within(*g, s as int, v, dval(dist@, v) as nat)
                    && dval(dist@, v) < count_some(dist@),
            forall|v: int| 0 <= v < n && (#[trigger] dist@[v]) is Some
                ==> exists|jj: int| 0 <= jj < queue@.len() && queue@[jj] == v,
            forall|j1: int, j2: int| 0 <= j1 < j2 < queue@.len()
                ==> dval(dist@, (#[trigger] queue@[j1]) as int) <= dval(dist@, (#[trigger] queue@[j2]) as int),
            forall|jj: int| head < jj < queue@.len()
                ==> dval(dist@, (#[trigger] queue@[jj]) as int)
                    <= dval(dist@, queue@[head as int] as int) + 1,
            forall|jj: int, w: int| 0 <= jj < head && 0 <= w < n
                && #[trigger] g.adjacent(queue@[jj] as int, w)
                ==> dist@[w] is Some && dval(dist@, w) <= dval(dist@, queue@[jj] as int) + 1,
        decreases n - head,
    {
        let u = queue[head];
        assert(dist@[u as int] is Some);
        let du = match dist[u] {
            Some(d) => d,
            None => {
                proof {
                    assert(false);
                }
                0
            }
        };
        let mut k: usize = 0;
        while k < g.edges.len()
            invariant
                g.wf(),
                n == g.nodes@.len(),
                (s as int) < n,
                dist@.len() == n,
                dist@[s as int] == Some(0usize),
                head < queue@.len(),
                queue@.len() == count_some(dist@),
                count_some(dist@) <= n,
                queue@[head as int] == u,
                (u as int) < n,
                dist@[u as int] == Some(du),
                du < count_some(dist@),
                k <= g.edges@.len(),
                forall|jj: int| 0 <= jj < queue@.len()
                    ==> ((#[trigger] queue@[jj]) as int) < n && dist@[queue@[jj] as int] is Some,
                forall|v: int| 0 <= v < n && (#[trigger] dist@[v]) is Some
                    ==> reachable_within(*g, s as int, v, dval(dist@, v) as nat)
                        && dval(dist@, v) < count_some(dist@),
                forall|v: int| 0 <= v < n && (#[trigger] dist@[v]) is Some
                    ==> exists|jj: int| 0 <= jj < queue@.len() && queue@[jj] == v,
                forall|j1: int, j2: int| 0 <= j1 < j2 < queue@.len()
                    ==> dval(dist@, (#[trigger] queue@[j1]) as int) <= dval(dist@, (#[trigger] queue@[j2]) as int),
                forall|jj: int| head < jj < queue@.len()
                    ==> dval(dist@, (#[trigger] queue@[jj]) as int) <= du + 1,
                forall|jj: int, w: int| 0 <= jj < head && 0 <= w < n
                    && #[trigger] g.adjacent(queue@[jj] as int, w)
                    ==> dist@[w] is Some && dval(dist@, w) <= dval(dist@, queue@[jj] as int) + 1,
                forall|w: int| 0 <= w < n && adjacent_upto(*g, u as int, w, k as int)
                    ==> dist@[w] is Some && dval(dist@, w) <= du + 1,
            decreases g.edges@.len() - k,
        {
            let e = g.edges[k];
            let wo: Option<usize> = if e.a == u {
                Some(e.b)
            } else if e.b == u {
                Some(e.a)
            } else {
                None
            };
            match wo {
                Some(w) => {
                    proof {
                        assert(g.edges@[k as int] == e);
                        assert(edge_joins(e, u as int, w as int));
                        assert(g.adjacent(u as int, w as int));
                    }
                    if dist[w].is_none() {
                        proof {
                            lemma_count_lt_if_none(dist@, w as int);
                            lemma_count_sum_set(dist@, w as int, (du + 1) as usize);
                        }
                        let ghost old_dist = dist@;
                        let ghost old_queue = queue@;
                        dist.set(w, Some(du + 1));
                        queue.push(w);
                        proof {
                            assert(queue@.drop_last() =~= old_queue);
                            assert(count_some(dist@) == count_some(old_dist) + 1);
                            assert(w != s);
                            assert(reachable_within(*g, s as int, w as int, (du + 1) as nat)) by {
                                assert(reachable_within(*g, s as int, u as int, du as nat));
                            }
                            assert forall|v: int| 0 <= v < n && (#[trigger] dist@[v]) is Some
                                implies exists|jj: int| 0 <= jj < queue@.len() && queue@[jj] == v by {
                                if v == w {
                                    assert(queue@[queue@.len() - 1] == w);
                                } else {
                                    assert(old_dist[v] is Some);
                                    let jj = choose|jj: int| 0 <= jj < old_queue.len() && old_queue[jj] == v;
                                    assert(queue@[jj] == v);
                                }
                            }
                            assert forall|j1: int, j2: int| 0 <= j1 < j2 < queue@.len()
                                implies dval(dist@, (#[trigger] queue@[j1]) as int)
                                    <= dval(dist@, (#[trigger] queue@[j2]) as int) by {
                                if j2 == queue@.len() - 1 {
                                    if j1 < head {
                                        assert(dval(old_dist, old_queue[j1] as int)
                                            <= dval(old_dist, old_queue[head as int] as int));
                                    }
                                } else {
                                    assert(queue@[j1] == old_queue[j1]);
                                    assert(queue@[j2] == old_queue[j2]);
                                }
                            }
                            assert forall|jj: int, w2: int| 0 <= jj < head && 0 <= w2 < n
                                && #[trigger] g.adjacent(queue@[jj] as int, w2)
                                implies dist@[w2] is Some
                                    && dval(dist@, w2) <= dval(dist@, queue@[jj] as int) + 1 by {
                                assert(queue@[jj] == old_queue[jj]);
                                assert(old_dist[w2] is Some);
                                assert(w2 != w);
                            }
                        }
                    } else {
                        proof {
                            // an already discovered neighbour sits in the queue,
                            // so its recorded distance is at most one level deeper
                            let jj = choose|jj: int| 0 <= jj < queue@.len() && queue@[jj] == w;
                            if jj < head {
                                assert(dval(dist@, queue@[jj as int] as int)
                                    <= dval(dist@, queue@[head as int] as int));
                            } else if jj == head {
                                assert(dval(dist@, w as int) == du);
                            }
                            assert(dval(dist@, w as int) <= du + 1);
                        }
                    }
                }
                None => {}
            }
            proof {
                assert forall|w2: int| 0 <= w2 < n && adjacent_upto(*g, u as int, w2, k as int + 1)
                    implies dist@[w2] is Some && dval(dist@, w2) <= du + 1 by {
                    if adjacent_upto(*g, u as int, w2, k as int) {
                    } else {
                        let ei = choose|ei: int| 0 <= ei < k as int + 1
                            && edge_joins(g.edges@[ei], u as int, w2);
                        assert(ei == k as int);
                    }
                }
            }
            k += 1;
        }
        proof {
            assert forall|w: int| 0 <= w < n && #[trigger] g.adjacent(u as int, w)
                implies dist@[w] is Some && dval(dist@, w) <= dval(dist@, u as int) + 1 by {
                let ei = choose|ei: int| 0 <= ei < g.edges@.len()
                    && edge_joins(#[trigger] g.edges@[ei], u as int, w);
                assert(adjacent_upto(*g, u as int, w, g.edges@.len() as int));
            }
        }
        head += 1;
    }
    proof {
        lemma_count_sum_bounds(dist@);
        assert forall|v: int| 0 <= v < n implies dist_entry_ok(*g, s as int, v, #[trigger] dist@[v]) by {
            match dist@[v] {
                Some(d) => {
                    if d > 0 && reachable_within(*g, s as int, v, (d - 1) as nat) {
                        lemma_bfs_complete(*g, s as int, dist@, queue@, (d - 1) as nat);
                        assert(false);
                    }
                }
                None => {
                    if reachable(*g, s as int, v) {
                        let d0 = choose|d0: nat| reachable_within(*g, s as int, v, d0);
                        lemma_bfs_complete(*g, s as int, dist@, queue@, d0);
                        assert(false);
                    }
                }
            }
        }
    }
    dist
}

} // verus!
