//! Closeness centrality over unit-cost distances.

use vstd::prelude::*;
use crate::graph::Graph;
use crate::ratio::Ratio;
use crate::traversal::{
    shortest_distances, dist_vec_ok, count_some, sum_some, dval,
    lemma_count_sum_bounds,
};

verus! {

/// The closeness score encoded by a finished distance table: the number
/// of reached nodes less one, over the summed distances; zero when the
/// sum is zero, which covers isolated nodes and single-node graphs.
pub open spec fn closeness_of(dv: Seq<Option<usize>>) -> Ratio {
    if sum_some(dv) > 0 {
        Ratio { num: (count_some(dv) - 1) as usize, den: sum_some(dv) as usize }
    } else {
        Ratio::zero_spec()
    }
}

/// Whether `r` is the closeness score of node `v`: some correct distance
/// table for source `v` encodes it.
pub open spec fn score_ok(g: Graph, v: int, r: Ratio) -> bool {
    exists|dv: Seq<Option<usize>>| dist_vec_ok(g, v, dv) && r == closeness_of(dv)
}

/// A table with a positive distance sum has recorded at least one node.
proof fn lemma_sum_pos_count_pos(ds: Seq<Option<usize>>)
    requires
        sum_some(ds) > 0,
    ensures
        count_some(ds) >= 1,
    decreases ds.len(),
{
    if ds.len() > 0 {
        if sum_some(ds.drop_last()) > 0 {
            lemma_sum_pos_count_pos(ds.drop_last());
            lemma_count_sum_bounds(ds.drop_last());
            assert(count_some(ds) >= count_some(ds.drop_last()));
        } else {
            lemma_count_sum_bounds(ds.drop_last());
        }
    }
}

/// A table whose recorded distances all stay below `b` sums to less
/// than `b` per recorded entry.
proof fn lemma_sum_bound(ds: Seq<Option<usize>>, b: int)
    requires
        b >= 1,
        forall|v: int| 0 <= v < ds.len() ==> dval(ds, v) < b,
    ensures
        sum_some(ds) <= ds.len() * (b - 1),
    decreases ds.len(),
{
    if ds.len() == 0 {
        assert(ds.len() * (b - 1) == 0) by (nonlinear_arith)
            requires ds.len() == 0,
        {}
    } else {
        assert forall|v: int| 0 <= v < ds.drop_last().len()
            implies dval(ds.drop_last(), v) < b by {
            assert(dval(ds, v) < b);
            assert(ds.drop_last()[v] == ds[v]);
        }
        lemma_sum_bound(ds.drop_last(), b);
        assert(dval(ds, ds.len() - 1) < b);
        assert((ds.len() - 1) * (b - 1) + (b - 1) == ds.len() * (b - 1)) by (nonlinear_arith) {}
    }
}

/// Counts the recorded entries of a distance table and sums their
/// distances.
fn count_and_sum(dv: &Vec<Option<usize>>, Ghost(n): Ghost<int>) -> (out: (usize, usize))
    requires
        dv@.len() <= n,
        n * n <= usize::MAX,
        forall|v: int| 0 <= v < dv@.len() ==> dval(dv@, v) < n,
    ensures
        out.0 == count_some(dv@),
        out.1 == sum_some(dv@),
{
    let mut cnt: usize = 0;
    let mut sum: usize = 0;
    let mut i: usize = 0;
    while i < dv.len()
        invariant
            i <= dv@.len(),
            dv@.len() <= n,
            n * n <= usize::MAX,
            forall|v: int| 0 <= v < dv@.len() ==> dval(dv@, v) < n,
            cnt == count_some(dv@.take(i as int)),
            sum == sum_some(dv@.take(i as int)),
            cnt <= i,
            sum <= i * (if n >= 1 { n - 1 } else { 0 }),
        decreases dv@.len() - i,
    {
        let ghost pre = dv@.take(i as int);
        proof {
            assert(dv@.take(i as int + 1).drop_last() =~= pre);
            assert(dv@.take(i as int + 1).last() == dv@[i as int]);
            assert(dval(dv@, i as int) < n);
            assert(i as int * (n - 1) + (n - 1) == (i as int + 1) * (n - 1)) by (nonlinear_arith) {}
            assert((i as int + 1) * (n - 1) <= n * n) by (nonlinear_arith)
                requires i as int + 1 <= n, n >= 1,
            {}
        }
        match dv[i] {
            Some(d) => {
                cnt += 1;
                sum += d;
            }
            None => {}
        }
        i += 1;
    }
    proof {
        assert(dv@.take(dv@.len() as int) =~= dv@);
    }
    (cnt, sum)
}

/// One closeness score per node, in node order: for each source, the
/// number of other nodes it reaches divided by the total unit-cost
/// distance to them, and zero where it reaches nothing.
pub fn compute_centrality(g: &Graph) -> (scores: Vec<Ratio>)
    requires
        g.wf(),
        g.nodes@.len() * g.nodes@.len() <= usize::MAX,
    ensures
        scores@.len() == g.nodes@.len(),
        forall|s: int| 0 <= s < g.nodes@.len() ==> score_ok(*g, s, #[trigger] scores@[s]),
{
    let n = g.nodes.len();
    let mut scores: Vec<Ratio> = Vec::new();
    let mut s: usize = 0;
    while s < n
        invariant
            s <= n,
            n == g.nodes@.len(),
            g.wf(),
            n * n <= usize::MAX,
            scores@.len() == s,
            forall|v: int| 0 <= v < s ==> score_ok(*g, v, #[trigger] scores@[v]),
        decreases n - s,
    {
        let dist = shortest_distances(g, s);
        let (cnt, sum) = count_and_sum(&dist, Ghost(n as int));
        let score = if sum > 0 {
            proof {
                lemma_sum_pos_count_pos(dist@);
            }
            Ratio { num: cnt - 1, den: sum }
        } else {
            Ratio::zero()
        };
        let ghost old_scores = scores@;
        scores.push(score);
        proof {
            assert(scores@[s as int] == closeness_of(dist@));
            assert forall|v: int| 0 <= v < s as int + 1
                implies score_ok(*g, v, #[trigger] scores@[v]) by {
                if v < s as int {
                    assert(scores@[v] == old_scores[v]);
                    assert(score_ok(*g, v, old_scores[v]));
                } else {
                    assert(dist_vec_ok(*g, v, dist@) && scores@[v] == closeness_of(dist@));
                    assert(score_ok(*g, v, scores@[v]));
                }
            }
        }
        s += 1;
    }
    scores
}

} // verus!
