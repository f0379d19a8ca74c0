//! Degree histogram of the graph.

use vstd::prelude::*;
use crate::graph::{Graph, Edge};

verus! {

/// Whether edge `e` touches node `v`.
pub open spec fn incident(e: Edge, v: int) -> bool {
    e.a == v || e.b == v
}

/// How many of the first `k` edges touch node `v`.
pub open spec fn degree_upto(es: Seq<Edge>, v: int, k: int) -> int
    decreases k,
{
    if k <= 0 {
        0
    } else {
        degree_upto(es, v, k - 1) + if incident(es[k - 1], v) { 1int } else { 0int }
    }
}

/// The degree of node `v`: how many edges touch it, whatever their
/// weight.
pub open spec fn degree_of(g: Graph, v: int) -> int {
    degree_upto(g.edges@, v, g.edges@.len() as int)
}

/// How many of the first `upto` nodes have degree exactly `d`.
pub open spec fn count_with_degree(g: Graph, d: int, upto: int) -> int
    decreases upto,
{
    if upto <= 0 {
        0
    } else {
        count_with_degree(g, d, upto - 1) + if degree_of(g, upto - 1) == d { 1int } else { 0int }
    }
}

/// A degree bucket never holds more nodes than were counted.
pub proof fn lemma_count_with_degree_bounds(g: Graph, d: int, upto: int)
    ensures
        0 <= count_with_degree(g, d, upto) <= if upto >= 0 { upto } else { 0 },
    decreases (if upto >= 0 { upto } else { 0 }),
{
    if upto > 0 {
        lemma_count_with_degree_bounds(g, d, upto - 1);
    }
}

/// The number of edges touching node `v`.
pub fn node_degree(g: &Graph, v: usize) -> (deg: usize)
    ensures
        deg == degree_of(*g, v as int),
{
    let mut deg: usize = 0;
    let mut k: usize = 0;
    while k < g.edges.len()
        invariant
            k <= g.edges@.len(),
            deg <= k,
            deg == degree_upto(g.edges@, v as int, k as int),
        decreases g.edges@.len() - k,
    {
        let e = g.edges[k];
        if e.a == v || e.b == v {
            deg += 1;
        }
        k += 1;
    }
    deg
}

/// The degree histogram: entry `d` counts the nodes of degree `d`.
///
/// The histogram is empty for an empty graph; otherwise it runs exactly
/// up to the largest degree present, whose bucket is never zero.
pub fn analyze_degrees(g: &Graph) -> (hist: Vec<usize>)
    ensures
        forall|d: int| 0 <= d < hist@.len()
            ==> #[trigger] hist@[d] == count_with_degree(*g, d, g.nodes@.len() as int),
        forall|v: int| 0 <= v < g.nodes@.len() ==> degree_of(*g, v) < hist@.len(),
        forall|d: int| d >= hist@.len() ==> count_with_degree(*g, d, g.nodes@.len() as int) == 0,
        hist@.len() > 0 ==> hist@[hist@.len() - 1] > 0,
        g.nodes@.len() == 0 ==> hist@.len() == 0,
{
    let n = g.nodes.len();
    let mut hist: Vec<usize> = Vec::new();
    let mut v: usize = 0;
    while v < n
        invariant
            v <= n,
            n == g.nodes@.len(),
            forall|d: int| 0 <= d < hist@.len()
                ==> #[trigger] hist@[d] == count_with_degree(*g, d, v as int),
            forall|vv: int| 0 <= vv < v ==> degree_of(*g, vv) < hist@.len(),
            forall|d: int| d >= hist@.len() ==> count_with_degree(*g, d, v as int) == 0,
            hist@.len() > 0 ==> hist@[hist@.len() - 1] > 0,
            hist@.len() > 0 ==> v > 0,
        decreases n - v,
    {
        let deg = node_degree(g, v);
        let ghost old_hist = hist@;
        while hist.len() <= deg
            invariant
                v < n,
                n == g.nodes@.len(),
                deg == degree_of(*g, v as int),
                forall|d: int| 0 <= d < hist@.len()
                    ==> #[trigger] hist@[d] == (if d < old_hist.len() { old_hist[d] } else { 0usize }),
                old_hist.len() <= hist@.len(),
                hist@.len() <= old_hist.len() || hist@.len() <= deg + 1,
            decreases deg + 1 - hist@.len(),
        {
            hist.push(0);
        }
        proof {
            lemma_count_with_degree_bounds(*g, deg as int, v as int);
        }
        let bucket = hist[deg];
        hist.set(deg, bucket + 1);
        proof {
            assert forall|d: int| 0 <= d < hist@.len()
                implies #[trigger] hist@[d] == count_with_degree(*g, d, v as int + 1) by {
                if d < old_hist.len() {
                } else {
                    assert(count_with_degree(*g, d, v as int) == 0);
                }
            }
            assert(hist@[hist@.len() - 1] > 0);
            assert forall|d: int| d >= hist@.len()
                implies #[trigger] count_with_degree(*g, d, v as int + 1) == 0 by {
                assert(d >= old_hist.len());
                assert(count_with_degree(*g, d, v as int) == 0);
                assert(degree_of(*g, v as int) < hist@.len());
            }
        }
        v += 1;
    }
    hist
}

/// The sum of the histogram entries with index in `[lo, hi)`; indices
/// outside the histogram count as zero.
pub open spec fn range_sum(hist: Seq<usize>, lo: int, hi: int) -> int
    decreases hi - lo,
{
    if lo >= hi {
        0
    } else {
        range_sum(hist, lo, hi - 1) + if 0 <= hi - 1 < hist.len() { hist[hi - 1] as int } else { 0int }
    }
}

/// A range of histogram entries never sums below zero.
proof fn lemma_range_sum_nonneg(hist: Seq<usize>, lo: int, hi: int)
    ensures
        range_sum(hist, lo, hi) >= 0,
    decreases hi - lo,
{
    if lo < hi {
        lemma_range_sum_nonneg(hist, lo, hi - 1);
    }
}

/// Summing a range piecewise gives the same total.
proof fn lemma_range_sum_split(hist: Seq<usize>, lo: int, mid: int, hi: int)
    requires
        lo <= mid <= hi,
    ensures
        range_sum(hist, lo, hi) == range_sum(hist, lo, mid) + range_sum(hist, mid, hi),
    decreases hi - mid,
{
    if mid < hi {
        lemma_range_sum_split(hist, lo, mid, hi - 1);
        assert(range_sum(hist, mid, hi) == range_sum(hist, mid, hi - 1)
            + if 0 <= hi - 1 < hist.len() { hist[hi - 1] as int } else { 0int });
    }
}

/// Any sub-range sums to at most the whole histogram.
proof fn lemma_range_sum_sub(hist: Seq<usize>, lo: int, hi: int)
    requires
        0 <= lo <= hi <= hist.len(),
    ensures
        range_sum(hist, lo, hi) <= range_sum(hist, 0, hist.len() as int),
{
    lemma_range_sum_split(hist, 0, lo, hi);
    lemma_range_sum_split(hist, 0, hi, hist.len() as int);
    lemma_range_sum_nonneg(hist, 0, lo);
    lemma_range_sum_nonneg(hist, hi, hist.len() as int);
}

/// Re-buckets a histogram into bins of `width` consecutive degrees:
/// bin `b` holds the total count of degrees `b*width ..< (b+1)*width`.
pub fn bin_counts(hist: &Vec<usize>, width: usize) -> (bins: Vec<usize>)
    requires
        width >= 1,
        range_sum(hist@, 0, hist@.len() as int) <= usize::MAX,
    ensures
        bins@.len() * width >= hist@.len(),
        forall|b: int| 0 <= b < bins@.len()
            ==> #[trigger] bins@[b] == range_sum(hist@, b * width, (b + 1) * width),
        hist@.len() > 0 ==> bins@.len() >= 1,
        hist@.len() == 0 ==> bins@.len() == 0,
{
    let mut bins: Vec<usize> = Vec::new();
    let mut lo: usize = 0;
    while lo < hist.len()
        invariant
            width >= 1,
            range_sum(hist@, 0, hist@.len() as int) <= usize::MAX,
            lo == bins@.len() * width
                || (lo == hist@.len() && bins@.len() * width >= hist@.len()),
            lo <= hist@.len(),
            (bins@.len() == 0) <==> (lo == 0),
            forall|b: int| 0 <= b < bins@.len()
                ==> #[trigger] bins@[b] == range_sum(hist@, b * width, (b + 1) * width),
        decreases hist@.len() - lo,
    {
        let stop = if hist.len() - lo < width { hist.len() } else { lo + width };
        let mut total: usize = 0;
        let mut d: usize = lo;
        while d < stop
            invariant
                lo <= d <= stop,
                stop <= hist@.len(),
                range_sum(hist@, 0, hist@.len() as int) <= usize::MAX,
                total == range_sum(hist@, lo as int, d as int),
            decreases stop - d,
        {
            proof {
                lemma_range_sum_nonneg(hist@, lo as int, d as int);
                lemma_range_sum_sub(hist@, lo as int, d as int + 1);
            }
            total += hist[d];
            d += 1;
        }
        proof {
            let b0 = bins@.len() as int;
            lemma_range_sum_zero_outside(hist@, hist@.len() as int, lo as int + width);
            if (stop as int) < lo as int + width {
                lemma_range_sum_split(hist@, lo as int, stop as int, lo as int + width);
                lemma_range_sum_zero_outside(hist@, stop as int, lo as int + width);
            }
            assert(total == range_sum(hist@, lo as int, lo as int + width));
            assert(b0 * width + width == (b0 + 1) * width) by (nonlinear_arith) {}
        }
        bins.push(total);
        lo = stop;
    }
    bins
}

/// A range that lies wholly past the histogram sums to zero.
proof fn lemma_range_sum_zero_outside(hist: Seq<usize>, lo: int, hi: int)
    requires
        lo >= hist.len(),
    ensures
        range_sum(hist, lo, hi) == 0,
    decreases hi - lo,
{
    if lo < hi {
        lemma_range_sum_zero_outside(hist, lo, hi - 1);
    }
}

} // verus!
