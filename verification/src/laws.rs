//! Library-wide laws: statements that hold of whole families of graphs,
//! proved once here rather than checked case by case.

use vstd::prelude::*;
use crate::records::{dedup_seq, lemma_dedup_contains};
use crate::graph::{
    Graph, edges_wf, weight_between, edge_joins_names, co_count,
};
use crate::degrees::{degree_of, degree_upto, count_with_degree};
use crate::traversal::{
    reachable_within, reachable, has_dist, dist_vec_ok, dist_entry_ok,
    count_some, sum_some,
};
use crate::centrality::{closeness_of, score_ok};
use crate::ratio::Ratio;
use crate::similarity::{neighbor_set, jaccard};
use crate::sampling::{mean_of, mean_ok, pair_entry_ok};

verus! {

/// Whether every pair of distinct nodes is directly connected.
pub open spec fn complete(g: Graph) -> bool {
    forall|u: int, v: int| 0 <= u < g.nodes@.len() && 0 <= v < g.nodes@.len() && u != v
        ==> #[trigger] g.adjacent(u, v)
}

/// Counting co-occurrences over two runs of groups laid end to end
/// counts each run separately: so feeding the same groups twice
/// exactly doubles every weight and creates no further structure.
pub proof fn lemma_co_count_additive(
    gs1: Seq<Seq<Seq<char>>>, gs2: Seq<Seq<Seq<char>>>, x: Seq<char>, y: Seq<char>,
)
    ensures
        co_count(gs1 + gs2, x, y) == co_count(gs1, x, y) + co_count(gs2, x, y),
    decreases gs2.len(),
{
    if gs2.len() == 0 {
        assert(gs1 + gs2 =~= gs1);
    } else {
        assert((gs1 + gs2).drop_last() =~= gs1 + gs2.drop_last());
        assert((gs1 + gs2).last() == gs2.last());
        lemma_co_count_additive(gs1, gs2.drop_last(), x, y);
    }
}

/// Processing the same run of groups twice doubles the co-occurrence
/// count of every pair of names.
pub proof fn lemma_repeated_groups_double(gs: Seq<Seq<Seq<char>>>, x: Seq<char>, y: Seq<char>)
    ensures
        co_count(gs + gs, x, y) == 2 * co_count(gs, x, y),
{
    lemma_co_count_additive(gs, gs, x, y);
}

/// Appending values that were all seen before leaves the de-duplicated
/// run unchanged.
pub proof fn lemma_dedup_append_subsumed<A>(s: Seq<A>, t: Seq<A>)
    requires
        forall|i: int| 0 <= i < t.len() ==> s.contains(#[trigger] t[i]),
    ensures
        dedup_seq(s + t) == dedup_seq(s),
    decreases t.len(),
{
    if t.len() == 0 {
        assert(s + t =~= s);
    } else {
        assert((s + t).drop_last() =~= s + t.drop_last());
        assert((s + t).last() == t.last());
        assert forall|i: int| 0 <= i < t.drop_last().len()
            implies s.contains(#[trigger] t.drop_last()[i]) by {
            assert(t.drop_last()[i] == t[i]);
        }
        lemma_dedup_append_subsumed(s, t.drop_last());
        assert(s.contains(t[t.len() - 1]));
        let i = choose|i: int| 0 <= i < s.len() && s[i] == t.last();
        assert((s + t.drop_last())[i] == t.last());
        assert((s + t.drop_last()).contains(t.last()));
        lemma_dedup_contains(s + t.drop_last());
        assert(dedup_seq(s + t.drop_last()).contains(t.last()));
    }
}

/// Feeding the same records again creates no new node: the distinct
/// names of a run followed by itself are the distinct names of the run.
pub proof fn lemma_repeated_records_same_nodes(names: Seq<Seq<char>>)
    ensures
        dedup_seq(names + names) == dedup_seq(names),
{
    lemma_dedup_append_subsumed(names, names);
}

/// A well-formed graph never holds a self-loop: the weight between a
/// name and itself is always zero, whatever the input looked like.
pub proof fn lemma_no_self_weight(names: Seq<Seq<char>>, es: Seq<crate::graph::Edge>, x: Seq<char>)
    requires
        names.no_duplicates(),
        edges_wf(es, names.len() as int),
    ensures
        weight_between(names, es, x, x) == 0,
    decreases es.len(),
{
    if es.len() > 0 {
        assert forall|k: int| 0 <= k < es.drop_last().len() implies
            (#[trigger] es.drop_last()[k]).a < es.drop_last()[k].b
            && es.drop_last()[k].b < names.len()
            && es.drop_last()[k].weight >= 1 by {
            assert(es.drop_last()[k] == es[k]);
        }
        assert forall|k: int, l: int| 0 <= k < l < es.drop_last().len() implies
            !((#[trigger] es.drop_last()[k]).a == (#[trigger] es.drop_last()[l]).a
                && es.drop_last()[k].b == es.drop_last()[l].b) by {
            assert(es.drop_last()[k] == es[k]);
            assert(es.drop_last()[l] == es[l]);
        }
        lemma_no_self_weight(names, es.drop_last(), x);
        if edge_joins_names(names, es.last(), x, x) {
            let e = es.last();
            assert(es[es.len() - 1] == e);
            assert(e.a < e.b);
            assert(names[e.a as int] != names[e.b as int]);
        }
    }
}

/// With no edges at all, no node can step anywhere: only the source is
/// reachable from itself.
pub proof fn lemma_no_edges_reach(g: Graph, s: int, v: int, d: nat)
    requires
        g.edges@.len() == 0,
        reachable_within(g, s, v, d),
    ensures
        v == s,
    decreases d,
{
    if v != s {
        let u = choose|u: int| 0 <= u < g.nodes@.len() && g.adjacent(u, v)
            && reachable_within(g, s, u, (d - 1) as nat);
        assert(false);
    }
}

/// A distance table whose only entry is a zero at `s` counts one node
/// and sums to nothing.
proof fn lemma_count_sum_single(dv: Seq<Option<usize>>, s: int)
    requires
        0 <= s < dv.len(),
        dv[s] == Some(0usize),
        forall|v: int| 0 <= v < dv.len() && v != s ==> (#[trigger] dv[v]) is None,
    ensures
        count_some(dv) == 1,
        sum_some(dv) == 0,
    decreases dv.len(),
{
    if s == dv.len() - 1 {
        lemma_all_none_zero(dv.drop_last());
    } else {
        assert(dv.last() == dv[dv.len() - 1]);
        assert forall|v: int| 0 <= v < dv.drop_last().len() && v != s
            implies (#[trigger] dv.drop_last()[v]) is None by {
            assert(dv.drop_last()[v] == dv[v]);
        }
        assert(dv.drop_last()[s] == dv[s]);
        lemma_count_sum_single(dv.drop_last(), s);
    }
}

/// A table with no recorded distance counts and sums to nothing.
proof fn lemma_all_none_zero(dv: Seq<Option<usize>>)
    requires
        forall|v: int| 0 <= v < dv.len() ==> (#[trigger] dv[v]) is None,
    ensures
        count_some(dv) == 0,
        sum_some(dv) == 0,
    decreases dv.len(),
{
    if dv.len() > 0 {
        assert(dv.last() == dv[dv.len() - 1]);
        assert forall|v: int| 0 <= v < dv.drop_last().len()
            implies (#[trigger] dv.drop_last()[v]) is None by {
            assert(dv.drop_last()[v] == dv[v]);
        }
        lemma_all_none_zero(dv.drop_last());
    }
}

/// On a graph with no edges every node's degree is zero, the zero
/// bucket of the histogram holds every node, and every other bucket is
/// empty.
pub proof fn lemma_isolated_degrees(g: Graph, d: int, upto: int)
    requires
        g.edges@.len() == 0,
    ensures
        forall|v: int| degree_of(g, v) == 0,
        d == 0 ==> count_with_degree(g, d, upto) == (if upto >= 0 { upto } else { 0 }),
        d != 0 ==> count_with_degree(g, d, upto) == 0,
    decreases (if upto >= 0 { upto } else { 0 }),
{
    if upto > 0 {
        lemma_isolated_degrees(g, d, upto - 1);
    }
}

/// The sum of the first `ld` histogram buckets, each counting the first
/// `upto` nodes.
pub open spec fn bucket_total(g: Graph, ld: int, upto: int) -> int
    decreases (if ld >= 0 { ld } else { 0 }),
{
    if ld <= 0 {
        0
    } else {
        bucket_total(g, ld - 1, upto) + count_with_degree(g, ld - 1, upto)
    }
}

/// A degree is never negative.
proof fn lemma_degree_nonneg(es: Seq<crate::graph::Edge>, v: int, k: int)
    ensures
        degree_upto(es, v, k) >= 0,
    decreases (if k >= 0 { k } else { 0 }),
{
    if k > 0 {
        lemma_degree_nonneg(es, v, k - 1);
    }
}

/// Counting one more node raises exactly the bucket of its degree.
proof fn lemma_bucket_total_step(g: Graph, ld: int, upto: int)
    requires
        upto >= 0,
    ensures
        bucket_total(g, ld, upto + 1) == bucket_total(g, ld, upto)
            + if 0 <= degree_of(g, upto) < ld { 1int } else { 0int },
    decreases (if ld >= 0 { ld } else { 0 }),
{
    if ld > 0 {
        lemma_bucket_total_step(g, ld - 1, upto);
    }
}

/// The degree histogram accounts for every node once: as long as every
/// counted node's degree falls below `ld`, the first `ld` buckets sum
/// to the number of counted nodes.
pub proof fn lemma_histogram_total(g: Graph, ld: int, upto: int)
    requires
        upto >= 0,
        forall|v: int| 0 <= v < upto ==> degree_of(g, v) < ld,
    ensures
        bucket_total(g, ld, upto) == upto,
    decreases upto,
{
    if upto == 0 {
        lemma_bucket_total_zero(g, ld);
    } else {
        lemma_histogram_total(g, ld, upto - 1);
        lemma_bucket_total_step(g, ld, upto - 1);
        lemma_degree_nonneg(g.edges@, upto - 1, g.edges@.len() as int);
    }
}

/// With no nodes counted every bucket is empty.
proof fn lemma_bucket_total_zero(g: Graph, ld: int)
    ensures
        bucket_total(g, ld, 0) == 0,
    decreases (if ld >= 0 { ld } else { 0 }),
{
    if ld > 0 {
        lemma_bucket_total_zero(g, ld - 1);
    }
}

/// On a graph with no edges every closeness score is zero: any correct
/// distance table for any source encodes the zero score.
pub proof fn lemma_isolated_closeness(g: Graph, s: int, dv: Seq<Option<usize>>)
    requires
        g.edges@.len() == 0,
        0 <= s < g.nodes@.len(),
        dist_vec_ok(g, s, dv),
    ensures
        closeness_of(dv) == Ratio::zero_spec(),
{
    assert forall|v: int| 0 <= v < dv.len() && v != s implies (#[trigger] dv[v]) is None by {
        if dv[v] is Some {
            let d = dv[v]->Some_0;
            assert(dist_entry_ok(g, s, v, dv[v]));
            assert(reachable_within(g, s, v, d as nat));
            lemma_no_edges_reach(g, s, v, d as nat);
        }
    }
    assert(dist_entry_ok(g, s, s, dv[s]));
    assert(reachable_within(g, s, s, 0));
    assert(reachable(g, s, s));
    assert(dv[s] is Some);
    let d0 = dv[s]->Some_0;
    if d0 > 0 {
        assert(reachable_within(g, s, s, (d0 - 1) as nat));
        assert(!has_dist(g, s, s, d0 as nat));
    }
    assert(dv[s] == Some(0usize));
    lemma_count_sum_single(dv, s);
}

/// On a graph with no edges every neighbourhood is empty, so every
/// Jaccard similarity degrades to the zero score.
pub proof fn lemma_isolated_similarity(g: Graph, u: int, v: int)
    requires
        g.edges@.len() == 0,
    ensures
        jaccard(g, u, v) == Ratio::zero_spec(),
{
    let un = neighbor_set(g, u).union(neighbor_set(g, v));
    assert(un =~= Set::<int>::empty());
}

/// Reaching a node within some bound keeps holding for larger bounds.
pub proof fn lemma_reachable_monotone(g: Graph, s: int, v: int, d: nat, d2: nat)
    requires
        reachable_within(g, s, v, d),
        d <= d2,
    ensures
        reachable_within(g, s, v, d2),
    decreases d2,
{
    if v != s {
        let u = choose|u: int| 0 <= u < g.nodes@.len() && g.adjacent(u, v)
            && reachable_within(g, s, u, (d - 1) as nat);
        lemma_reachable_monotone(g, s, u, (d - 1) as nat, (d2 - 1) as nat);
    }
}

/// On a complete graph the distance between any two distinct nodes is
/// exactly one.
pub proof fn lemma_complete_distances(g: Graph, a: int, b: int)
    requires
        complete(g),
        0 <= a < g.nodes@.len(),
        0 <= b < g.nodes@.len(),
        a != b,
    ensures
        has_dist(g, a, b, 1),
        forall|d: nat| has_dist(g, a, b, d) ==> d == 1,
{
    assert(reachable_within(g, a, a, 0));
    assert(g.adjacent(a, b));
    assert(reachable_within(g, a, b, 1));
    assert(!reachable_within(g, a, b, 0));
    assert forall|d: nat| has_dist(g, a, b, d) implies d == 1 by {
        if d == 0 {
            assert(reachable_within(g, a, b, 0));
        } else if d > 1 {
            lemma_reachable_monotone(g, a, b, 1, (d - 1) as nat);
        }
    }
}

/// A distance table whose entry at `s` is zero and whose every other
/// entry is one counts every node and sums to one per other node.
proof fn lemma_count_sum_unit(dv: Seq<Option<usize>>, s: int)
    requires
        0 <= s < dv.len(),
        dv[s] == Some(0usize),
        forall|v: int| 0 <= v < dv.len() && v != s ==> (#[trigger] dv[v]) == Some(1usize),
    ensures
        count_some(dv) == dv.len(),
        sum_some(dv) == dv.len() - 1,
    decreases dv.len(),
{
    if s == dv.len() - 1 {
        lemma_all_one(dv.drop_last());
    } else {
        assert(dv.last() == dv[dv.len() - 1]);
        assert forall|v: int| 0 <= v < dv.drop_last().len() && v != s
            implies (#[trigger] dv.drop_last()[v]) == Some(1usize) by {
            assert(dv.drop_last()[v] == dv[v]);
        }
        assert(dv.drop_last()[s] == dv[s]);
        lemma_count_sum_unit(dv.drop_last(), s);
    }
}

/// A table of all ones counts every entry and sums to its length.
proof fn lemma_all_one(dv: Seq<Option<usize>>)
    requires
        forall|v: int| 0 <= v < dv.len() ==> (#[trigger] dv[v]) == Some(1usize),
    ensures
        count_some(dv) == dv.len(),
        sum_some(dv) == dv.len(),
    decreases dv.len(),
{
    if dv.len() > 0 {
        assert(dv.last() == dv[dv.len() - 1]);
        assert forall|v: int| 0 <= v < dv.drop_last().len()
            implies (#[trigger] dv.drop_last()[v]) == Some(1usize) by {
            assert(dv.drop_last()[v] == dv[v]);
        }
        lemma_all_one(dv.drop_last());
    }
}

/// On a complete graph every node's closeness centrality is exactly
/// one: any correct distance table encodes the score (n-1)/(n-1).
pub proof fn lemma_complete_closeness(g: Graph, s: int, dv: Seq<Option<usize>>)
    requires
        complete(g),
        g.nodes@.len() >= 2,
        g.nodes@.len() <= usize::MAX,
        0 <= s < g.nodes@.len(),
        dist_vec_ok(g, s, dv),
    ensures
        closeness_of(dv).num == closeness_of(dv).den,
        closeness_of(dv).den >= 1,
{
    let n = g.nodes@.len() as int;
    assert forall|v: int| 0 <= v < dv.len() && v != s
        implies (#[trigger] dv[v]) == Some(1usize) by {
        assert(dist_entry_ok(g, s, v, dv[v]));
        lemma_complete_distances(g, s, v);
        if dv[v] is None {
            assert(reachable_within(g, s, v, 1));
            assert(reachable(g, s, v));
        }
        let d = dv[v]->Some_0;
        assert(has_dist(g, s, v, d as nat));
    }
    assert(dist_entry_ok(g, s, s, dv[s]));
    assert(reachable_within(g, s, s, 0));
    assert(reachable(g, s, s));
    assert(dv[s] is Some);
    let d0 = dv[s]->Some_0;
    if d0 > 0 {
        assert(reachable_within(g, s, s, (d0 - 1) as nat));
        assert(!has_dist(g, s, s, d0 as nat));
    }
    assert(dv[s] == Some(0usize));
    lemma_count_sum_unit(dv, s);
}

/// On a complete graph every sampled pair contributes a distance of
/// one, so whenever at least one pair was drawn the reported mean is
/// exactly one.
pub proof fn lemma_complete_sample_mean(
    g: Graph, pairs: Seq<(usize, usize)>, res: Option<Ratio>,
)
    requires
        complete(g),
        pairs.len() >= 1,
        pairs.len() <= usize::MAX,
        forall|k: int| 0 <= k < pairs.len()
            ==> ((#[trigger] pairs[k]).0 as int) < g.nodes@.len()
                && (pairs[k].1 as int) < g.nodes@.len()
                && pairs[k].0 != pairs[k].1,
        mean_ok(g, pairs, res),
    ensures
        res matches Some(r) && r.num == r.den && r.den >= 1,
{
    let ds = choose|ds: Seq<Option<usize>>|
        #[trigger] ds.len() == pairs.len()
        && (forall|k: int| 0 <= k < ds.len() ==> pair_entry_ok(g, pairs[k], #[trigger] ds[k]))
        && res == mean_of(ds);
    assert forall|k: int| 0 <= k < ds.len() implies (#[trigger] ds[k]) == Some(1usize) by {
        let a = pairs[k].0 as int;
        let b = pairs[k].1 as int;
        lemma_complete_distances(g, a, b);
        assert(pair_entry_ok(g, pairs[k], ds[k]));
        if ds[k] is None {
            assert(reachable_within(g, a, b, 1));
            assert(reachable(g, a, b));
        }
        let d = ds[k]->Some_0;
        assert(has_dist(g, a, b, d as nat));
    }
    lemma_all_one(ds);
}

/// On a graph with no edges, whatever score `compute_centrality`
/// reports for a node is the zero score.
pub proof fn lemma_isolated_scores(g: Graph, s: int, r: Ratio)
    requires
        g.edges@.len() == 0,
        0 <= s < g.nodes@.len(),
        score_ok(g, s, r),
    ensures
        r == Ratio::zero_spec(),
{
    let dv = choose|dv: Seq<Option<usize>>| dist_vec_ok(g, s, dv) && r == closeness_of(dv);
    lemma_isolated_closeness(g, s, dv);
}

/// On a complete graph, whatever score `compute_centrality` reports for
/// a node is exactly one.
pub proof fn lemma_complete_scores(g: Graph, s: int, r: Ratio)
    requires
        complete(g),
        g.nodes@.len() >= 2,
        g.nodes@.len() <= usize::MAX,
        0 <= s < g.nodes@.len(),
        score_ok(g, s, r),
    ensures
        r.num == r.den,
        r.den >= 1,
{
    let dv = choose|dv: Seq<Option<usize>>| dist_vec_ok(g, s, dv) && r == closeness_of(dv);
    lemma_complete_closeness(g, s, dv);
}

/// On a complete graph `compute_shortest_paths` with a non-empty sample
/// always reports a mean, and that mean is exactly one, whatever the
/// draws: its contract says the result is the mean of some sample of
/// distinct pairs, and every such mean is one.
pub proof fn lemma_complete_sampler(g: Graph, sample_size: usize, res: Option<Ratio>)
    requires
        complete(g),
        g.nodes@.len() >= 2,
        sample_size >= 1,
        exists|drawn: Seq<(usize, usize)>|
            #[trigger] drawn.len() == sample_size
            && (forall|k: int| 0 <= k < drawn.len()
                ==> ((#[trigger] drawn[k]).0 as int) < g.nodes@.len()
                    && (drawn[k].1 as int) < g.nodes@.len()
                    && drawn[k].0 != drawn[k].1)
            && mean_ok(g, drawn, res),
    ensures
        res matches Some(r) && r.num == r.den && r.den >= 1,
{
    let drawn = choose|drawn: Seq<(usize, usize)>|
        #[trigger] drawn.len() == sample_size
        && (forall|k: int| 0 <= k < drawn.len()
            ==> ((#[trigger] drawn[k]).0 as int) < g.nodes@.len()
                && (drawn[k].1 as int) < g.nodes@.len()
                && drawn[k].0 != drawn[k].1)
        && mean_ok(g, drawn, res);
    lemma_complete_sample_mean(g, drawn, res);
}

/// Two distinct nodes with the same non-empty neighbourhood are
/// perfectly similar: their Jaccard score is exactly one.
pub proof fn lemma_identical_neighbors(g: Graph, u: int, v: int, w: int)
    requires
        g.nodes@.len() <= usize::MAX,
        neighbor_set(g, u) == neighbor_set(g, v),
        neighbor_set(g, u).contains(w),
    ensures
        jaccard(g, u, v).num == jaccard(g, u, v).den,
        jaccard(g, u, v).den >= 1,
{
    let sa = neighbor_set(g, u);
    let un = sa.union(neighbor_set(g, v));
    let inter = sa.intersect(neighbor_set(g, v));
    assert(un =~= sa);
    assert(inter =~= sa);
    let n = g.nodes@.len() as int;
    vstd::set_lib::lemma_int_range(0, n);
    assert(sa.subset_of(vstd::set_lib::set_int_range(0, n)));
    vstd::set_lib::lemma_len_subset(sa, vstd::set_lib::set_int_range(0, n));
    if sa.len() == 0 {
        sa.lemma_len0_is_empty();
    }
}

} // verus!
