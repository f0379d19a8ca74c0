//! Sampled average shortest-path length.
//!
//! Random node pairs are drawn through a trusted wrapper; everything that
//! is computed from the drawn pairs is verified for every possible draw.

use vstd::prelude::*;
use crate::graph::Graph;
use crate::ratio::Ratio;
use crate::traversal::{
    shortest_distances, has_dist, reachable, reachable_within, dval,
    count_some, sum_some, lemma_count_sum_bounds,
};

verus! {

/// Relies on rand::random_range over `0..n`: a draw from a non-empty
/// range lies inside it.
#[verifier::external_body]
fn random_below(n: usize) -> (r: usize)
    requires
        n >= 1,
    ensures
        r < n,
{
    rand::random_range(0..n)
}

/// One sampled pair's outcome: the unit-cost distance between its two
/// nodes where one exists, nothing where they are disconnected.
pub open spec fn pair_entry_ok(g: Graph, p: (usize, usize), e: Option<usize>) -> bool {
    match e {
        Some(d) => has_dist(g, p.0 as int, p.1 as int, d as nat),
        None => !reachable(g, p.0 as int, p.1 as int),
    }
}

/// The mean of the recorded distances: their sum over their count, or
/// nothing when no pair contributed.
pub open spec fn mean_of(ds: Seq<Option<usize>>) -> Option<Ratio> {
    if count_some(ds) > 0 {
        Some(Ratio { num: sum_some(ds) as usize, den: count_some(ds) as usize })
    } else {
        None
    }
}

/// Whether `res` is the mean distance of `pairs`: some per-pair outcome
/// table matches the pairs and `res` is its mean.
pub open spec fn mean_ok(g: Graph, pairs: Seq<(usize, usize)>, res: Option<Ratio>) -> bool {
    exists|ds: Seq<Option<usize>>|
        #[trigger] ds.len() == pairs.len()
        && (forall|k: int| 0 <= k < ds.len() ==> pair_entry_ok(g, pairs[k], #[trigger] ds[k]))
        && res == mean_of(ds)
}

/// A table all of whose recorded distances are at least one sums to at
/// least its count.
pub proof fn lemma_sum_ge_count(ds: Seq<Option<usize>>)
    requires
        forall|k: int| 0 <= k < ds.len() ==> (match #[trigger] ds[k] {
            Some(d) => d >= 1,
            None => true,
        }),
    ensures
        sum_some(ds) >= count_some(ds),
    decreases ds.len(),
{
    if ds.len() > 0 {
        assert(ds[ds.len() - 1] == ds.last());
        assert forall|k: int| 0 <= k < ds.drop_last().len() implies (match #[trigger] ds.drop_last()[k] {
            Some(d) => d >= 1,
            None => true,
        }) by {
            assert(ds.drop_last()[k] == ds[k]);
        }
        lemma_sum_ge_count(ds.drop_last());
    }
}

/// A table with any recorded distance records at least one.
proof fn lemma_count_pos(ds: Seq<Option<usize>>, k: int)
    requires
        0 <= k < ds.len(),
        ds[k] is Some,
    ensures
        count_some(ds) >= 1,
    decreases ds.len(),
{
    lemma_count_sum_bounds(ds.drop_last());
    if k < ds.len() - 1 {
        assert(ds.drop_last()[k] == ds[k]);
        lemma_count_pos(ds.drop_last(), k);
    }
}

/// A table whose recorded distances stay at or below `b` sums to at
/// most `b` per recorded entry.
pub proof fn lemma_sum_le_count_times(ds: Seq<Option<usize>>, b: int)
    requires
        b >= 0,
        forall|k: int| 0 <= k < ds.len() ==> (match #[trigger] ds[k] {
            Some(d) => d <= b,
            None => true,
        }),
    ensures
        sum_some(ds) <= count_some(ds) * b,
    decreases ds.len(),
{
    if ds.len() == 0 {
        assert(count_some(ds) * b == 0) by (nonlinear_arith)
            requires count_some(ds) == 0,
        {}
    } else {
        assert(ds[ds.len() - 1] == ds.last());
        assert forall|k: int| 0 <= k < ds.drop_last().len() implies (match #[trigger] ds.drop_last()[k] {
            Some(d) => d <= b,
            None => true,
        }) by {
            assert(ds.drop_last()[k] == ds[k]);
        }
        lemma_sum_le_count_times(ds.drop_last(), b);
        let c = count_some(ds.drop_last());
        if ds.last() is Some {
            assert(c * b + b == (c + 1) * b) by (nonlinear_arith) {}
        }
    }
}

/// The exact mean of the unit-cost distances over the given node pairs:
/// each pair of distinct nodes contributes its shortest-path length if
/// the two are connected and is skipped if not, and the result is the
/// sum of contributions over their number, or nothing if none
/// contributed.
pub fn average_distance_of_pairs(g: &Graph, pairs: &Vec<(usize, usize)>) -> (res: Option<Ratio>)
    requires
        g.wf(),
        forall|k: int| 0 <= k < pairs@.len()
            ==> ((#[trigger] pairs@[k]).0 as int) < g.nodes@.len()
                && (pairs@[k].1 as int) < g.nodes@.len()
                && pairs@[k].0 != pairs@[k].1,
        g.nodes@.len() * pairs@.len() <= usize::MAX,
    ensures
        mean_ok(*g, pairs@, res),
        res matches Some(r) ==> r.den >= 1 && r.den <= pairs@.len() && r.num >= r.den
            && r.num <= r.den * (g.nodes@.len() - 1),
{
    let n = g.nodes.len();
    let mut total: usize = 0;
    let mut cnt: usize = 0;
    let ghost mut ds: Seq<Option<usize>> = Seq::empty();
    let mut k: usize = 0;
    while k < pairs.len()
        invariant
            g.wf(),
            n == g.nodes@.len(),
            k <= pairs@.len(),
            forall|k2: int| 0 <= k2 < pairs@.len()
                ==> ((#[trigger] pairs@[k2]).0 as int) < g.nodes@.len()
                    && (pairs@[k2].1 as int) < g.nodes@.len()
                    && pairs@[k2].0 != pairs@[k2].1,
            n * pairs@.len() <= usize::MAX,
            ds.len() == k,
            forall|k2: int| 0 <= k2 < ds.len() ==> pair_entry_ok(*g, pairs@[k2], #[trigger] ds[k2]),
            cnt == count_some(ds),
            total == sum_some(ds),
            cnt <= k,
            total <= k * (if n >= 1 { n - 1 } else { 0 }),
            forall|k2: int| 0 <= k2 < ds.len() ==> (match #[trigger] ds[k2] {
                Some(d) => 1 <= d < n,
                None => true,
            }),
        decreases pairs@.len() - k,
    {
        let (a, b) = pairs[k];
        let dist = shortest_distances(g, a);
        let entry = dist[b];
        proof {
            assert(dval(dist@, b as int) < n);
            match entry {
                Some(d) => {
                    assert(has_dist(*g, a as int, b as int, d as nat));
                    if d == 0 {
                        assert(reachable_within(*g, a as int, b as int, 0));
                        assert(false);
                    }
                    assert(1 <= d < n);
                    assert(k as int * (n - 1) + (n - 1) == (k as int + 1) * (n - 1)) by (nonlinear_arith) {}
                    assert((k as int + 1) * (n - 1) <= n * pairs@.len()) by (nonlinear_arith)
                        requires k as int + 1 <= pairs@.len(), n >= 1,
                    {}
                }
                None => {}
            }
            let ghost pre = ds;
            ds = ds.push(entry);
            assert(ds.drop_last() =~= pre);
            assert(ds.last() == entry);
        }
        match entry {
            Some(d) => {
                total += d;
                cnt += 1;
            }
            None => {}
        }
        proof {
            assert(n >= 1);
            assert(k as int * (n - 1) <= (k as int + 1) * (n - 1)) by (nonlinear_arith)
                requires n >= 1,
            {}
        }
        k += 1;
    }
    let res = if cnt > 0 {
        Some(Ratio { num: total, den: cnt })
    } else {
        None
    };
    proof {
        assert(ds.len() == pairs@.len());
        assert(res == mean_of(ds));
        assert(mean_ok(*g, pairs@, res));
        if cnt > 0 {
            lemma_sum_ge_count(ds);
            assert(pairs@.len() >= 1);
            assert((pairs@[0].0 as int) < n);
            lemma_sum_le_count_times(ds, n - 1);
        }
    }
    res
}

/// Estimates the average shortest-path length by drawing `sample_size`
/// random pairs of distinct nodes.  Whatever the draws: the result is
/// the mean distance of some such sample; a reported mean averages at
/// least one connected pair, so it lies between one and the largest
/// possible distance; a "no data" answer on a well-sized sample
/// certifies a pair of distinct nodes with no connecting path, so on a
/// connected graph a mean is always reported; and a graph with fewer
/// than two nodes, or an empty sample, reports nothing at once.
pub fn compute_shortest_paths(g: &Graph, sample_size: usize) -> (res: Option<Ratio>)
    requires
        g.wf(),
        g.nodes@.len() * sample_size <= usize::MAX,
    ensures
        g.nodes@.len() < 2 ==> res is None,
        sample_size == 0 ==> res is None,
        res matches Some(r) ==> g.nodes@.len() >= 2 && sample_size >= 1
            && r.den >= 1 && r.den <= sample_size && r.num >= r.den
            && r.num <= r.den * (g.nodes@.len() - 1),
        res is None && g.nodes@.len() >= 2 && sample_size >= 1 ==> exists|a: int, b: int|
            0 <= a < g.nodes@.len() && 0 <= b < g.nodes@.len() && a != b
            && !(#[trigger] reachable(*g, a, b)),
        g.nodes@.len() >= 2 ==> exists|drawn: Seq<(usize, usize)>|
            #[trigger] drawn.len() == sample_size
            && (forall|k: int| 0 <= k < drawn.len()
                ==> ((#[trigger] drawn[k]).0 as int) < g.nodes@.len()
                    && (drawn[k].1 as int) < g.nodes@.len()
                    && drawn[k].0 != drawn[k].1)
            && mean_ok(*g, drawn, res),
{
    let n = g.nodes.len();
    if n < 2 {
        return None;
    }
    if sample_size == 0 {
        proof {
            let empty_pairs = Seq::<(usize, usize)>::empty();
            let empty_ds = Seq::<Option<usize>>::empty();
            assert(empty_ds.len() == empty_pairs.len());
            assert(mean_ok(*g, empty_pairs, None::<Ratio>));
            assert(empty_pairs.len() == sample_size);
        }
        return None;
    }
    let mut pairs: Vec<(usize, usize)> = Vec::new();
    let mut t: usize = 0;
    while t < sample_size
        invariant
            n >= 2,
            n == g.nodes@.len(),
            t <= sample_size,
            pairs@.len() == t,
            forall|k: int| 0 <= k < pairs@.len()
                ==> ((#[trigger] pairs@[k]).0 as int) < n
                    && (pairs@[k].1 as int) < n
                    && pairs@[k].0 != pairs@[k].1,
        decreases sample_size - t,
    {
        let a = random_below(n);
        let off = random_below(n - 1);
        let gap = n - 1 - a;
        let b = if off < gap {
            a + 1 + off
        } else {
            off - gap
        };
        pairs.push((a, b));
        t += 1;
    }
    let res = average_distance_of_pairs(g, &pairs);
    proof {
        assert(pairs@.len() == sample_size);
        if res is None {
            let ds = choose|ds: Seq<Option<usize>>|
                #[trigger] ds.len() == pairs@.len()
                && (forall|k: int| 0 <= k < ds.len() ==> pair_entry_ok(*g, pairs@[k], #[trigger] ds[k]))
                && res == mean_of(ds);
            if ds[0] is Some {
                lemma_count_pos(ds, 0);
                assert(false);
            }
            assert(pair_entry_ok(*g, pairs@[0], ds[0]));
            assert(!reachable(*g, pairs@[0].0 as int, pairs@[0].1 as int));
        }
    }
    res
}

} // verus!
