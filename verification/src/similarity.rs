//! Most similar node pair, by Jaccard similarity of neighbourhoods.

use vstd::prelude::*;
use crate::graph::{Graph, edge_joins};
use crate::ratio::{Ratio, ratio_lt, ratio_lt_exec, lemma_ratio_le_lt_trans};

verus! {

/// The open neighbourhood of node `v`: every node joined to it by an
/// edge; never `v` itself, since no edge is a self-loop.
pub open spec fn neighbor_set(g: Graph, v: int) -> Set<int> {
    Set::new(|u: int| 0 <= u < g.nodes@.len() && g.adjacent(u, v))
}

/// The Jaccard similarity of two nodes' neighbourhoods: intersection
/// size over union size, and zero when both are isolated.
pub open spec fn jaccard(g: Graph, u: int, v: int) -> Ratio {
    let i = neighbor_set(g, u).intersect(neighbor_set(g, v));
    let un = neighbor_set(g, u).union(neighbor_set(g, v));
    if un.len() > 0 {
        Ratio { num: i.len() as usize, den: un.len() as usize }
    } else {
        Ratio::zero_spec()
    }
}

/// The most similar pair: the two node names and their score.
pub struct SimilarPair {
    pub first: String,
    pub second: String,
    pub score: Ratio,
}

/// Whether nodes `i < j` are the winning pair: their score is maximal
/// over all index pairs, and every pair visited earlier in row-major
/// order scores strictly lower, so the first maximal pair wins.
pub open spec fn best_pair(g: Graph, i: int, j: int, r: Ratio) -> bool {
    &&& 0 <= i < j < g.nodes@.len()
    &&& r == jaccard(g, i, j)
    &&& forall|i2: int, j2: int| 0 <= i2 < j2 < g.nodes@.len()
            ==> !ratio_lt(r, #[trigger] jaccard(g, i2, j2))
    &&& forall|i2: int, j2: int| 0 <= i2 < j2 < g.nodes@.len() && (i2 < i || (i2 == i && j2 < j))
            ==> ratio_lt(#[trigger] jaccard(g, i2, j2), r)
}

/// Whether `p` reports a winning pair: some index pair is best and `p`
/// carries its two names and its score.
pub open spec fn similar_ok(g: Graph, p: SimilarPair) -> bool {
    exists|i: int, j: int|
        #[trigger] best_pair(g, i, j, p.score)
        && p.first@ == g.node_names()[i]
        && p.second@ == g.node_names()[j]
}

/// A Jaccard score over a graph whose node count fits the machine is a
/// valid score: its denominator is positive.
pub proof fn lemma_jaccard_wf(g: Graph, u: int, v: int)
    requires
        g.nodes@.len() <= usize::MAX,
    ensures
        jaccard(g, u, v).wf(),
{
    let un = neighbor_set(g, u).union(neighbor_set(g, v));
    let n = g.nodes@.len() as int;
    vstd::set_lib::lemma_int_range(0, n);
    assert(un.subset_of(vstd::set_lib::set_int_range(0, n)));
    vstd::set_lib::lemma_len_subset(un, vstd::set_lib::set_int_range(0, n));
}

/// The common neighbours of `a` and `b` among the first `u` nodes.
pub open spec fn prefix_inter(g: Graph, a: int, b: int, u: int) -> Set<int> {
    Set::new(|w: int| 0 <= w < u && g.adjacent(w, a) && g.adjacent(w, b))
}

/// The nodes adjacent to `a` or `b` among the first `u` nodes.
pub open spec fn prefix_union(g: Graph, a: int, b: int, u: int) -> Set<int> {
    Set::new(|w: int| 0 <= w < u && (g.adjacent(w, a) || g.adjacent(w, b)))
}

/// Whether an edge joins `u` and `v`.
pub fn is_adjacent(g: &Graph, u: usize, v: usize) -> (r: bool)
    ensures
        r == g.adjacent(u as int, v as int),
{
    let mut k: usize = 0;
    while k < g.edges.len()
        invariant
            k <= g.edges@.len(),
            forall|e: int| 0 <= e < k ==> !edge_joins(#[trigger] g.edges@[e], u as int, v as int),
        decreases g.edges@.len() - k,
    {
        let e = g.edges[k];
        if (e.a == u && e.b == v) || (e.a == v && e.b == u) {
            assert(edge_joins(g.edges@[k as int], u as int, v as int));
            return true;
        }
        k += 1;
    }
    false
}

/// The Jaccard similarity of the neighbourhoods of nodes `a` and `b`.
pub fn jaccard_score(g: &Graph, a: usize, b: usize) -> (r: Ratio)
    requires
        g.wf(),
        (a as int) < g.nodes@.len(),
        (b as int) < g.nodes@.len(),
    ensures
        r == jaccard(*g, a as int, b as int),
        r.wf(),
{
    let n = g.nodes.len();
    let mut inter: usize = 0;
    let mut uni: usize = 0;
    let mut u: usize = 0;
    proof {
        assert(prefix_inter(*g, a as int, b as int, 0) =~= Set::<int>::empty());
        assert(prefix_union(*g, a as int, b as int, 0) =~= Set::<int>::empty());
    }
    while u < n
        invariant
            u <= n,
            n == g.nodes@.len(),
            inter <= u,
            uni <= u,
            prefix_inter(*g, a as int, b as int, u as int).finite(),
            prefix_union(*g, a as int, b as int, u as int).finite(),
            inter == prefix_inter(*g, a as int, b as int, u as int).len(),
            uni == prefix_union(*g, a as int, b as int, u as int).len(),
        decreases n - u,
    {
        let na = is_adjacent(g, u, a);
        let nb = is_adjacent(g, u, b);
        proof {
            let pi = prefix_inter(*g, a as int, b as int, u as int);
            let pu = prefix_union(*g, a as int, b as int, u as int);
            let qi = prefix_inter(*g, a as int, b as int, u as int + 1);
            let qu = prefix_union(*g, a as int, b as int, u as int + 1);
            assert(!pi.contains(u as int));
            assert(!pu.contains(u as int));
            if na && nb {
                assert(qi =~= pi.insert(u as int));
                assert(qu =~= pu.insert(u as int));
            } else if na || nb {
                assert(qi =~= pi);
                assert(qu =~= pu.insert(u as int));
            } else {
                assert(qi =~= pi);
                assert(qu =~= pu);
            }
        }
        if na && nb {
            inter += 1;
        }
        if na || nb {
            uni += 1;
        }
        u += 1;
    }
    proof {
        assert(prefix_inter(*g, a as int, b as int, n as int)
            =~= neighbor_set(*g, a as int).intersect(neighbor_set(*g, b as int)));
        assert(prefix_union(*g, a as int, b as int, n as int)
            =~= neighbor_set(*g, a as int).union(neighbor_set(*g, b as int)));
    }
    if uni > 0 {
        Ratio { num: inter, den: uni }
    } else {
        Ratio::zero()
    }
}

/// The pair of distinct nodes whose neighbourhoods are most similar,
/// with ties broken in favour of the first pair in row-major index
/// order; nothing when the graph has fewer than two nodes.
pub fn analyze_similarity(g: &Graph) -> (res: Option<SimilarPair>)
    requires
        g.wf(),
    ensures
        res is None ==> g.nodes@.len() < 2,
        res matches Some(p) ==> g.nodes@.len() >= 2 && similar_ok(*g, p),
{
    let n = g.nodes.len();
    if n < 2 {
        return None;
    }
    let mut bi: usize = 0;
    let mut bj: usize = 1;
    let mut best = jaccard_score(g, 0, 1);
    let mut i: usize = 0;
    while i < n
        invariant
            g.wf(),
            n == g.nodes@.len(),
            n >= 2,
            i <= n,
            0 <= bi < bj < n,
            best == jaccard(*g, bi as int, bj as int),
            best.wf(),
            forall|i2: int, j2: int| 0 <= i2 < j2 < n && (i2 < i)
                ==> !ratio_lt(best, #[trigger] jaccard(*g, i2, j2)),
            forall|i2: int, j2: int| 0 <= i2 < j2 < n && (i2 < i)
                && (i2 < bi || (i2 == bi && j2 < bj))
                ==> ratio_lt(#[trigger] jaccard(*g, i2, j2), best),
            (bi as int, bj as int) == (0int, 1int) || bi < i,
        decreases n - i,
    {
        let mut j: usize = i + 1;
        while j < n
            invariant
                g.wf(),
                n == g.nodes@.len(),
                n >= 2,
                i < n,
                i < j <= n,
                0 <= bi < bj < n,
                best == jaccard(*g, bi as int, bj as int),
                best.wf(),
                forall|i2: int, j2: int| 0 <= i2 < j2 < n && (i2 < i || (i2 == i && j2 < j))
                    ==> !ratio_lt(best, #[trigger] jaccard(*g, i2, j2)),
                forall|i2: int, j2: int| 0 <= i2 < j2 < n && (i2 < i || (i2 == i && j2 < j))
                    && (i2 < bi || (i2 == bi && j2 < bj))
                    ==> ratio_lt(#[trigger] jaccard(*g, i2, j2), best),
                (bi as int, bj as int) == (0int, 1int) || bi < i || (bi == i && bj < j),
            decreases n - j,
        {
            let cur = jaccard_score(g, i, j);
            if ratio_lt_exec(&best, &cur) {
                proof {
                    let ghost ob = best;
                    assert forall|i2: int, j2: int| 0 <= i2 < j2 < n
                        && (i2 < i || (i2 == i && j2 < j))
                        implies ratio_lt(#[trigger] jaccard(*g, i2, j2), cur) by {
                        lemma_jaccard_wf(*g, i2, j2);
                        lemma_ratio_le_lt_trans(jaccard(*g, i2, j2), ob, cur);
                    }
                }
                bi = i;
                bj = j;
                best = cur;
            }
            j += 1;
        }
        i += 1;
    }
    let first = g.nodes[bi].clone();
    let second = g.nodes[bj].clone();
    let found = SimilarPair { first, second, score: best };
    proof {
        assert(best_pair(*g, bi as int, bj as int, found.score));
        assert(found.first@ == g.node_names()[bi as int]);
        assert(found.second@ == g.node_names()[bj as int]);
        assert(g.nodes@.len() >= 2);
        assert(similar_ok(*g, found));
    }
    Some(found)
}

} // verus!
