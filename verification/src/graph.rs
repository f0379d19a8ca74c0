//! The undirected weighted co-membership graph and its builder.

use vstd::prelude::*;
use crate::records::{
    PlayerSeason, name_views, names_of, dedup_seq, lemma_dedup_contains,
    lemma_dedup_no_duplicates, contains_string,
};

verus! {

/// One undirected edge: endpoints are node indices with `a < b`, and the
/// weight counts the co-occurrence groups shared by the two endpoints.
#[derive(Clone, Copy)]
pub struct Edge {
    pub a: usize,
    pub b: usize,
    pub weight: usize,
}

/// Indexed storage for the graph: node names in an arena addressed by
/// position, and a flat list of unique undirected edges.
pub struct Graph {
    pub nodes: Vec<String>,
    pub edges: Vec<Edge>,
}

/// Whether edge `e` joins node indices `u` and `v`, in either order.
pub open spec fn edge_joins(e: Edge, u: int, v: int) -> bool {
    (e.a == u && e.b == v) || (e.a == v && e.b == u)
}

/// The edge conditions of a well-formed graph over `n` nodes: lower index
/// first, endpoints in range and distinct, positive weight, and no
/// unordered pair listed twice.
pub open spec fn edges_wf(es: Seq<Edge>, n: int) -> bool {
    &&& forall|k: int| 0 <= k < es.len() ==>
            (#[trigger] es[k]).a < es[k].b && es[k].b < n && es[k].weight >= 1
    &&& forall|k: int, l: int| 0 <= k < l < es.len() ==>
            !((#[trigger] es[k]).a == (#[trigger] es[l]).a && es[k].b == es[l].b)
}

impl Graph {
    /// Node names, as character sequences.
    pub open spec fn node_names(self) -> Seq<Seq<char>> {
        name_views(self.nodes@)
    }

    /// Structural invariant: distinct node names and well-formed edges.
    pub open spec fn wf(self) -> bool {
        &&& self.node_names().no_duplicates()
        &&& edges_wf(self.edges@, self.nodes@.len() as int)
    }

    /// Whether node indices `u` and `v` are joined by an edge.
    pub open spec fn adjacent(self, u: int, v: int) -> bool {
        exists|k: int| 0 <= k < self.edges@.len() && edge_joins(#[trigger] self.edges@[k], u, v)
    }

    /// The number of nodes.
    pub fn node_count(&self) -> (n: usize)
        ensures
            n == self.nodes@.len(),
    {
        self.nodes.len()
    }

    /// The number of edges.
    pub fn edge_count(&self) -> (m: usize)
        ensures
            m == self.edges@.len(),
    {
        self.edges.len()
    }
}

/// Whether edge `e`, read through the node-name arena `names`, joins the
/// names `x` and `y`, in either order.
pub open spec fn edge_joins_names(names: Seq<Seq<char>>, e: Edge, x: Seq<char>, y: Seq<char>) -> bool {
    e.a < names.len() && e.b < names.len()
        && ((names[e.a as int] == x && names[e.b as int] == y)
            || (names[e.a as int] == y && names[e.b as int] == x))
}

/// Total weight of the edges that join names `x` and `y`; in a well-formed
/// graph at most one edge does, so this is that edge's weight, or zero.
pub open spec fn weight_between(names: Seq<Seq<char>>, es: Seq<Edge>, x: Seq<char>, y: Seq<char>) -> int
    decreases es.len(),
{
    if es.len() == 0 {
        0
    } else {
        weight_between(names, es.drop_last(), x, y)
            + if edge_joins_names(names, es.last(), x, y) { es.last().weight as int } else { 0 }
    }
}

/// The (team, season) key of a record.
pub open spec fn key_of(r: PlayerSeason) -> (Seq<char>, Seq<char>) {
    (r.team@, r.season@)
}

/// The keys of a run of records, in order, repeats kept.
pub open spec fn keys_seq(rs: Seq<PlayerSeason>) -> Seq<(Seq<char>, Seq<char>)> {
    rs.map_values(|r: PlayerSeason| key_of(r))
}

/// The distinct keys of a run of records, each at its first occurrence.
pub open spec fn keys_of(rs: Seq<PlayerSeason>) -> Seq<(Seq<char>, Seq<char>)> {
    dedup_seq(keys_seq(rs))
}

/// The roster of a key: the names of the records that carry it, in order.
pub open spec fn roster_of(rs: Seq<PlayerSeason>, k: (Seq<char>, Seq<char>)) -> Seq<Seq<char>>
    decreases rs.len(),
{
    if rs.len() == 0 {
        Seq::empty()
    } else {
        roster_of(rs.drop_last(), k)
            + if key_of(rs.last()) == k { seq![rs.last().player_name@] } else { Seq::<Seq<char>>::empty() }
    }
}

/// The co-occurrence groups of a run of records: one roster per distinct
/// (team, season) key.
pub open spec fn groups_of(rs: Seq<PlayerSeason>) -> Seq<Seq<Seq<char>>> {
    keys_of(rs).map_values(|k: (Seq<char>, Seq<char>)| roster_of(rs, k))
}

/// How many of the groups hold both names.
pub open spec fn co_count(gs: Seq<Seq<Seq<char>>>, x: Seq<char>, y: Seq<char>) -> int
    decreases gs.len(),
{
    if gs.len() == 0 {
        0
    } else {
        co_count(gs.drop_last(), x, y)
            + if gs.last().contains(x) && gs.last().contains(y) { 1int } else { 0int }
    }
}

/// A pair of names co-occurs in no more groups than there are groups.
pub proof fn lemma_co_count_bound(gs: Seq<Seq<Seq<char>>>, x: Seq<char>, y: Seq<char>)
    ensures
        0 <= co_count(gs, x, y) <= gs.len(),
    decreases gs.len(),
{
    if gs.len() > 0 {
        lemma_co_count_bound(gs.drop_last(), x, y);
    }
}

/// Every name on a key's roster is the name of some record.
pub proof fn lemma_roster_names(rs: Seq<PlayerSeason>, k: (Seq<char>, Seq<char>), x: Seq<char>)
    requires
        roster_of(rs, k).contains(x),
    ensures
        names_of(rs).contains(x),
    decreases rs.len(),
{
    if rs.len() > 0 {
        let prev = roster_of(rs.drop_last(), k);
        let i = choose|i: int| 0 <= i < roster_of(rs, k).len() && roster_of(rs, k)[i] == x;
        if i < prev.len() {
            assert(prev[i] == x);
            lemma_roster_names(rs.drop_last(), k, x);
            let j = choose|j: int| 0 <= j < names_of(rs.drop_last()).len() && names_of(rs.drop_last())[j] == x;
            assert(names_of(rs)[j] == x);
        } else {
            assert(x == rs.last().player_name@);
            assert(names_of(rs)[rs.len() - 1] == x);
        }
    }
}

/// A matching edge's weight never exceeds the total weight between the
/// two names, and that total is never negative.
pub proof fn lemma_weight_between_lower(
    names: Seq<Seq<char>>, es: Seq<Edge>, x: Seq<char>, y: Seq<char>, k: int,
)
    requires
        0 <= k < es.len(),
        edge_joins_names(names, es[k], x, y),
    ensures
        es[k].weight <= weight_between(names, es, x, y),
    decreases es.len(),
{
    lemma_weight_between_nonneg(names, es, x, y);
    if k < es.len() - 1 {
        lemma_weight_between_lower(names, es.drop_last(), x, y, k);
    } else {
        lemma_weight_between_nonneg(names, es.drop_last(), x, y);
    }
}

/// The total weight between any two names is non-negative.
pub proof fn lemma_weight_between_nonneg(
    names: Seq<Seq<char>>, es: Seq<Edge>, x: Seq<char>, y: Seq<char>,
)
    ensures
        weight_between(names, es, x, y) >= 0,
    decreases es.len(),
{
    if es.len() > 0 {
        lemma_weight_between_nonneg(names, es.drop_last(), x, y);
    }
}

/// The total weight between two names does not depend on their order.
pub proof fn lemma_weight_between_sym(
    names: Seq<Seq<char>>, es: Seq<Edge>, x: Seq<char>, y: Seq<char>,
)
    ensures
        weight_between(names, es, x, y) == weight_between(names, es, y, x),
    decreases es.len(),
{
    if es.len() > 0 {
        lemma_weight_between_sym(names, es.drop_last(), x, y);
    }
}

/// Raising one edge's weight raises the total between the names it joins
/// by the same amount and leaves every other total unchanged.
pub proof fn lemma_weight_between_update(
    names: Seq<Seq<char>>, es: Seq<Edge>, k: int, e: Edge, x: Seq<char>, y: Seq<char>,
)
    requires
        0 <= k < es.len(),
        e.a == es[k].a,
        e.b == es[k].b,
    ensures
        weight_between(names, es.update(k, e), x, y) == weight_between(names, es, x, y)
            + if edge_joins_names(names, es[k], x, y) { e.weight - es[k].weight } else { 0 },
    decreases es.len(),
{
    let esu = es.update(k, e);
    if k < es.len() - 1 {
        assert(esu.drop_last() =~= es.drop_last().update(k, e));
        assert(esu.last() == es.last());
        lemma_weight_between_update(names, es.drop_last(), k, e, x, y);
    } else {
        assert(esu.drop_last() =~= es.drop_last());
        assert(esu.last() == e);
    }
}

/// Looks up a name in the node arena.
pub fn find_node(nodes: &Vec<String>, x: &String) -> (o: Option<usize>)
    ensures
        match o {
            Some(ix) => ix < nodes@.len() && nodes@[ix as int]@ == x@,
            None => !name_views(nodes@).contains(x@),
        },
{
    let mut k: usize = 0;
    while k < nodes.len()
        invariant
            0 <= k <= nodes@.len(),
            forall|j: int| 0 <= j < k ==> name_views(nodes@)[j] != x@,
        decreases nodes@.len() - k,
    {
        if nodes[k].eq(x) {
            assert(name_views(nodes@)[k as int] == x@);
            return Some(k);
        }
        k += 1;
    }
    None
}

/// Looks up the edge whose endpoint pair is exactly (lo, hi).
fn find_edge(edges: &Vec<Edge>, lo: usize, hi: usize) -> (o: Option<usize>)
    ensures
        match o {
            Some(k) => k < edges@.len() && edges@[k as int].a == lo && edges@[k as int].b == hi,
            None => forall|k: int| 0 <= k < edges@.len() ==>
                !((#[trigger] edges@[k]).a == lo && edges@[k].b == hi),
        },
{
    let mut k: usize = 0;
    while k < edges.len()
        invariant
            0 <= k <= edges@.len(),
            forall|j: int| 0 <= j < k ==> !((#[trigger] edges@[j]).a == lo && edges@[j].b == hi),
        decreases edges@.len() - k,
    {
        if edges[k].a == lo && edges[k].b == hi {
            return Some(k);
        }
        k += 1;
    }
    None
}

/// Records one more co-occurrence between the nodes at `lo` and `hi`:
/// raises the existing edge's weight by one, or adds the edge with
/// weight one.
fn bump_edge(edges: &mut Vec<Edge>, lo: usize, hi: usize, Ghost(names): Ghost<Seq<Seq<char>>>)
    requires
        lo < hi,
        hi < names.len(),
        names.no_duplicates(),
        edges_wf(old(edges)@, names.len() as int),
        weight_between(names, old(edges)@, names[lo as int], names[hi as int]) < usize::MAX,
    ensures
        edges_wf(final(edges)@, names.len() as int),
        weight_between(names, final(edges)@, names[lo as int], names[hi as int])
            == weight_between(names, old(edges)@, names[lo as int], names[hi as int]) + 1,
        forall|x: Seq<char>, y: Seq<char>|
            !((x == names[lo as int] && y == names[hi as int])
                || (x == names[hi as int] && y == names[lo as int]))
            ==> weight_between(names, final(edges)@, x, y)
                == weight_between(names, old(edges)@, x, y),
{
    let ghost xn = names[lo as int];
    let ghost yn = names[hi as int];
    match find_edge(edges, lo, hi) {
        Some(k) => {
            let e = edges[k];
            assert(edge_joins_names(names, e, xn, yn));
            proof {
                lemma_weight_between_lower(names, edges@, xn, yn, k as int);
            }
            let e2 = Edge { a: e.a, b: e.b, weight: e.weight + 1 };
            edges.set(k, e2);
            proof {
                assert forall|x: Seq<char>, y: Seq<char>|
                    weight_between(names, edges@, x, y) == weight_between(names, old(edges)@, x, y)
                        + if edge_joins_names(names, old(edges)@[k as int], x, y) { 1int } else { 0 } by {
                    lemma_weight_between_update(names, old(edges)@, k as int, e2, x, y);
                }
                assert forall|x: Seq<char>, y: Seq<char>|
                    edge_joins_names(names, old(edges)@[k as int], x, y)
                    implies ((x == xn && y == yn) || (x == yn && y == xn)) by {}
            }
        }
        None => {
            let e = Edge { a: lo, b: hi, weight: 1 };
            let ghost before = edges@;
            edges.push(e);
            proof {
                assert(edges@.drop_last() =~= before);
                assert(edges@.last() == e);
                assert(edge_joins_names(names, e, xn, yn));
                assert forall|x: Seq<char>, y: Seq<char>|
                    !((x == xn && y == yn) || (x == yn && y == xn))
                    implies !edge_joins_names(names, e, x, y) by {}
                assert forall|k: int, l: int| 0 <= k < l < edges@.len() implies
                    !((#[trigger] edges@[k]).a == (#[trigger] edges@[l]).a && edges@[k].b == edges@[l].b) by {
                    if l == edges@.len() - 1 {
                        assert(edges@[k] == before[k]);
                    }
                }
            }
        }
    }
}

/// The distinct (team, season) keys of the records, each at its first
/// occurrence.
fn distinct_keys(records: &Vec<PlayerSeason>) -> (keys: Vec<(String, String)>)
    ensures
        key_views(keys@) == keys_of(records@),
{
    let mut keys: Vec<(String, String)> = Vec::new();
    let mut i: usize = 0;
    while i < records.len()
        invariant
            0 <= i <= records@.len(),
            key_views(keys@) == dedup_seq(keys_seq(records@).take(i as int)),
        decreases records@.len() - i,
    {
        let ghost pre = keys_seq(records@).take(i as int);
        assert(keys_seq(records@).take(i + 1).drop_last() =~= pre);
        assert(keys_seq(records@).take(i + 1).last() == key_of(records@[i as int]));
        if !contains_key(&keys, &records[i].team, &records[i].season) {
            let ghost before = key_views(keys@);
            keys.push((records[i].team.clone(), records[i].season.clone()));
            assert(key_views(keys@) =~= before.push(key_of(records@[i as int])));
        }
        i += 1;
    }
    assert(keys_seq(records@).take(records@.len() as int) =~= keys_seq(records@));
    keys
}

/// The views of a run of exec key pairs.
pub open spec fn key_views(ks: Seq<(String, String)>) -> Seq<(Seq<char>, Seq<char>)> {
    ks.map_values(|k: (String, String)| (k.0@, k.1@))
}

/// Whether a key pair is already listed.
fn contains_key(ks: &Vec<(String, String)>, team: &String, season: &String) -> (r: bool)
    ensures
        r == key_views(ks@).contains((team@, season@)),
{
    let mut k: usize = 0;
    while k < ks.len()
        invariant
            0 <= k <= ks@.len(),
            forall|j: int| 0 <= j < k ==> key_views(ks@)[j] != (team@, season@),
        decreases ks@.len() - k,
    {
        if ks[k].0.eq(team) && ks[k].1.eq(season) {
            assert(key_views(ks@)[k as int] == (team@, season@));
            return true;
        }
        k += 1;
    }
    false
}

/// The distinct members of one co-occurrence group: the names of the
/// records carrying the key, each kept once, in order of first appearance.
fn group_members(records: &Vec<PlayerSeason>, team: &String, season: &String) -> (members: Vec<String>)
    ensures
        name_views(members@) == dedup_seq(roster_of(records@, (team@, season@))),
{
    let ghost k = (team@, season@);
    let mut members: Vec<String> = Vec::new();
    let mut i: usize = 0;
    while i < records.len()
        invariant
            0 <= i <= records@.len(),
            k == (team@, season@),
            name_views(members@) == dedup_seq(roster_of(records@.take(i as int), k)),
        decreases records@.len() - i,
    {
        let ghost pre = roster_of(records@.take(i as int), k);
        assert(records@.take(i + 1).drop_last() =~= records@.take(i as int));
        assert(records@.take(i + 1).last() == records@[i as int]);
        let same_team = records[i].team.eq(team);
        let same_season = records[i].season.eq(season);
        if same_team && same_season {
            assert(records@[i as int].team@ == team@);
            assert(records@[i as int].season@ == season@);
            assert(key_of(records@[i as int]) == k);
            let ghost cur = roster_of(records@.take(i + 1), k);
            assert(cur =~= pre.push(records@[i as int].player_name@));
            assert(cur.drop_last() =~= pre);
            if !contains_string(&members, &records[i].player_name) {
                let ghost before = name_views(members@);
                members.push(records[i].player_name.clone());
                assert(name_views(members@) =~= before.push(records@[i as int].player_name@));
            }
        } else {
            assert(key_of(records@[i as int]) != k);
            assert(roster_of(records@.take(i + 1), k) =~= pre);
        }
        i += 1;
    }
    assert(records@.take(records@.len() as int) =~= records@);
    members
}

/// Whether a position pair of the distinct roster `dr` strictly before
/// (i1, i2) in row-major order carries the names x and y, in either order.
pub open spec fn pair_covered(dr: Seq<Seq<char>>, i1: int, i2: int, x: Seq<char>, y: Seq<char>) -> bool {
    exists|p: int, q: int|
        0 <= p < q < dr.len()
        && (p < i1 || (p == i1 && q < i2))
        && ((dr[p] == x && dr[q] == y) || (dr[p] == y && dr[q] == x))
}

/// Mid-group accounting: every weight equals the co-occurrence count of
/// the finished groups, plus one if the current group has already paired
/// the two names.
pub open spec fn partial_weights(
    names: Seq<Seq<char>>, es: Seq<Edge>, done: Seq<Seq<Seq<char>>>,
    dr: Seq<Seq<char>>, i1: int, i2: int,
) -> bool {
    forall|x: Seq<char>, y: Seq<char>| x != y ==>
        #[trigger] weight_between(names, es, x, y)
            == co_count(done, x, y) + if pair_covered(dr, i1, i2, x, y) { 1int } else { 0int }
}

/// Converts co-membership records into the undirected weighted graph.
///
/// Nodes are the distinct player names in order of first appearance. The
/// weight between two distinct names equals the number of (team, season)
/// groups on whose roster both appear, so a repeated name on one roster
/// neither yields a self-loop nor inflates a weight.
pub fn build_player_graph(records: &Vec<PlayerSeason>) -> (g: Graph)
    ensures
        g.wf(),
        g.node_names() == dedup_seq(names_of(records@)),
        forall|x: Seq<char>, y: Seq<char>| x != y ==>
            weight_between(g.node_names(), g.edges@, x, y) == co_count(groups_of(records@), x, y),
{
    let mut nodes: Vec<String> = Vec::new();
    let mut i: usize = 0;
    while i < records.len()
        invariant
            0 <= i <= records@.len(),
            name_views(nodes@) == dedup_seq(names_of(records@).take(i as int)),
        decreases records@.len() - i,
    {
        assert(names_of(records@).take(i + 1).drop_last() =~= names_of(records@).take(i as int));
        assert(names_of(records@).take(i + 1).last() == records@[i as int].player_name@);
        if !contains_string(&nodes, &records[i].player_name) {
            let ghost before = name_views(nodes@);
            nodes.push(records[i].player_name.clone());
            assert(name_views(nodes@) =~= before.push(records@[i as int].player_name@));
        }
        i += 1;
    }
    assert(names_of(records@).take(records@.len() as int) =~= names_of(records@));
    let ghost names = name_views(nodes@);
    proof {
        lemma_dedup_no_duplicates(names_of(records@));
    }

    let keys = distinct_keys(records);
    let ghost groups = groups_of(records@);
    proof {
        assert(groups.len() == keys@.len());
    }

    let mut edges: Vec<Edge> = Vec::new();
    let n_keys = keys.len();
    let mut j: usize = 0;
    while j < n_keys
        invariant
            n_keys == keys@.len(),
            0 <= j <= keys@.len(),
            names == name_views(nodes@),
            names == dedup_seq(names_of(records@)),
            names.no_duplicates(),
            key_views(keys@) == keys_of(records@),
            groups == groups_of(records@),
            groups.len() == keys@.len(),
            edges_wf(edges@, names.len() as int),
            forall|x: Seq<char>, y: Seq<char>| x != y ==>
                weight_between(names, edges@, x, y) == co_count(groups.take(j as int), x, y),
        decreases keys@.len() - j,
    {
        let members = group_members(records, &keys[j].0, &keys[j].1);
        let ghost kj = key_views(keys@)[j as int];
        let ghost roster = roster_of(records@, kj);
        let ghost drv = name_views(members@);
        proof {
            assert(kj == (keys@[j as int].0@, keys@[j as int].1@));
            assert(drv == dedup_seq(roster));
            lemma_dedup_no_duplicates(roster);
            lemma_dedup_contains(roster);
            assert(groups[j as int] == roster);
            assert forall|x: Seq<char>, y: Seq<char>| x != y
                implies !pair_covered(drv, 0, 1, x, y) by {}
        }
        let mut i1: usize = 0;
        while i1 < members.len()
            invariant
                0 <= i1 <= members@.len(),
                n_keys == keys@.len(),
                0 <= j < keys@.len(),
                names == name_views(nodes@),
                names == dedup_seq(names_of(records@)),
                names.no_duplicates(),
                groups == groups_of(records@),
                groups.len() == keys@.len(),
                drv == name_views(members@),
                drv == dedup_seq(roster),
                roster == roster_of(records@, kj),
                drv.no_duplicates(),
                groups[j as int] == roster,
                edges_wf(edges@, names.len() as int),
                partial_weights(names, edges@, groups.take(j as int), drv, i1 as int, i1 as int + 1),
            decreases members@.len() - i1,
        {
            let mut i2: usize = i1 + 1;
            while i2 < members.len()
                invariant
                    0 <= i1 < members@.len(),
                    i1 < i2 <= members@.len(),
                    n_keys == keys@.len(),
                    0 <= j < keys@.len(),
                    names == name_views(nodes@),
                    names == dedup_seq(names_of(records@)),
                    names.no_duplicates(),
                    groups == groups_of(records@),
                    groups.len() == keys@.len(),
                    drv == name_views(members@),
                    drv == dedup_seq(roster),
                    roster == roster_of(records@, kj),
                    drv.no_duplicates(),
                    groups[j as int] == roster,
                    edges_wf(edges@, names.len() as int),
                    partial_weights(names, edges@, groups.take(j as int), drv, i1 as int, i2 as int),
                decreases members@.len() - i2,
            {
                let ghost x0 = drv[i1 as int];
                let ghost y0 = drv[i2 as int];
                proof {
                    assert(x0 != y0);
                    assert(drv.contains(x0));
                    assert(drv.contains(y0));
                    lemma_dedup_contains(roster);
                    lemma_roster_names(records@, kj, x0);
                    lemma_roster_names(records@, kj, y0);
                    lemma_dedup_contains(names_of(records@));
                    assert(names.contains(x0));
                    assert(names.contains(y0));
                }
                let ia = match find_node(&nodes, &members[i1]) {
                    Some(v) => v,
                    None => {
                        proof { assert(false); }
                        0
                    }
                };
                let ib = match find_node(&nodes, &members[i2]) {
                    Some(v) => v,
                    None => {
                        proof { assert(false); }
                        0
                    }
                };
                assert(names[ia as int] == x0);
                assert(names[ib as int] == y0);
                assert(ia != ib);
                let lo = if ia < ib { ia } else { ib };
                let hi = if ia < ib { ib } else { ia };
                proof {
                    // the pair about to be recorded is not covered yet,
                    // whichever way round it is named
                    assert forall|x: Seq<char>, y: Seq<char>|
                        (x == x0 && y == y0) || (x == y0 && y == x0)
                        implies !pair_covered(drv, i1 as int, i2 as int, x, y) by {
                        if pair_covered(drv, i1 as int, i2 as int, x, y) {
                            let (p, q) = choose|p: int, q: int|
                                0 <= p < q < drv.len()
                                && (p < i1 || (p == i1 && q < i2))
                                && ((drv[p] == x && drv[q] == y) || (drv[p] == y && drv[q] == x));
                            if drv[p] == x0 {
                                if p != i1 {
                                    assert(drv[p] != drv[i1 as int]);
                                }
                                if q != i2 {
                                    assert(drv[q] != drv[i2 as int]);
                                }
                            } else {
                                if p != i2 {
                                    assert(drv[p] != drv[i2 as int]);
                                }
                                if q != i1 {
                                    assert(drv[q] != drv[i1 as int]);
                                }
                            }
                            assert(false);
                        }
                    }
                    lemma_co_count_bound(groups.take(j as int), x0, y0);
                    lemma_co_count_bound(groups.take(j as int), y0, x0);
                    assert(!pair_covered(drv, i1 as int, i2 as int, names[lo as int], names[hi as int]));
                    assert(co_count(groups.take(j as int), names[lo as int], names[hi as int]) <= j);
                    assert(weight_between(names, edges@, names[lo as int], names[hi as int])
                        < usize::MAX);
                }
                let ghost pre_edges = edges@;
                bump_edge(&mut edges, lo, hi, Ghost(names));
                proof {
                    assert forall|x: Seq<char>, y: Seq<char>| x != y implies
                        pair_covered(drv, i1 as int, i2 as int + 1, x, y)
                            == (pair_covered(drv, i1 as int, i2 as int, x, y)
                                || ((x == x0 && y == y0) || (x == y0 && y == x0))) by {
                        if pair_covered(drv, i1 as int, i2 as int + 1, x, y) {
                            let (p, q) = choose|p: int, q: int|
                                0 <= p < q < drv.len()
                                && (p < i1 || (p == i1 && q < i2 as int + 1))
                                && ((drv[p] == x && drv[q] == y) || (drv[p] == y && drv[q] == x));
                            if p < i1 || (p == i1 && q < i2) {
                                assert(pair_covered(drv, i1 as int, i2 as int, x, y));
                            } else {
                                assert(p == i1 && q == i2);
                            }
                        }
                        if pair_covered(drv, i1 as int, i2 as int, x, y) {
                            let (p, q) = choose|p: int, q: int|
                                0 <= p < q < drv.len()
                                && (p < i1 || (p == i1 && q < i2))
                                && ((drv[p] == x && drv[q] == y) || (drv[p] == y && drv[q] == x));
                            assert(pair_covered(drv, i1 as int, i2 as int + 1, x, y));
                        }
                        if (x == x0 && y == y0) || (x == y0 && y == x0) {
                            assert(0 <= i1 < i2 < drv.len());
                            assert(pair_covered(drv, i1 as int, i2 as int + 1, x, y));
                        }
                    }
                    assert forall|x: Seq<char>, y: Seq<char>| x != y implies
                        weight_between(names, edges@, x, y)
                            == co_count(groups.take(j as int), x, y)
                                + if pair_covered(drv, i1 as int, i2 as int + 1, x, y) { 1int } else { 0int } by {
                        if (x == x0 && y == y0) || (x == y0 && y == x0) {
                            if !(x == names[lo as int] && y == names[hi as int]) {
                                lemma_weight_between_sym(names, edges@, x, y);
                                lemma_weight_between_sym(names, pre_edges, x, y);
                            }
                            assert(weight_between(names, edges@, x, y)
                                == weight_between(names, pre_edges, x, y) + 1);
                        } else {
                            assert(weight_between(names, edges@, x, y)
                                == weight_between(names, pre_edges, x, y));
                        }
                    }
                }
                i2 += 1;
            }
            proof {
                assert forall|x: Seq<char>, y: Seq<char>| x != y implies
                    pair_covered(drv, i1 as int, members@.len() as int, x, y)
                        == pair_covered(drv, i1 as int + 1, i1 as int + 2, x, y) by {
                    if pair_covered(drv, i1 as int, members@.len() as int, x, y) {
                        let (p, q) = choose|p: int, q: int|
                            0 <= p < q < drv.len()
                            && (p < i1 || (p == i1 && q < members@.len()))
                            && ((drv[p] == x && drv[q] == y) || (drv[p] == y && drv[q] == x));
                        assert(p < i1 as int + 1);
                        assert(pair_covered(drv, i1 as int + 1, i1 as int + 2, x, y));
                    }
                    if pair_covered(drv, i1 as int + 1, i1 as int + 2, x, y) {
                        let (p, q) = choose|p: int, q: int|
                            0 <= p < q < drv.len()
                            && (p < i1 as int + 1 || (p == i1 as int + 1 && q < i1 as int + 2))
                            && ((drv[p] == x && drv[q] == y) || (drv[p] == y && drv[q] == x));
                        assert(p <= i1);
                        assert(pair_covered(drv, i1 as int, members@.len() as int, x, y));
                    }
                }
            }
            i1 += 1;
        }
        proof {
            // a full pass over the group covered exactly the name pairs on it
            assert forall|x: Seq<char>, y: Seq<char>| x != y implies
                pair_covered(drv, members@.len() as int, members@.len() as int + 1, x, y)
                    == (drv.contains(x) && drv.contains(y)) by {
                if pair_covered(drv, members@.len() as int, members@.len() as int + 1, x, y) {
                    let (p, q) = choose|p: int, q: int|
                        0 <= p < q < drv.len()
                        && (p < members@.len() || (p == members@.len() && q < members@.len() as int + 1))
                        && ((drv[p] == x && drv[q] == y) || (drv[p] == y && drv[q] == x));
                    assert(drv.contains(drv[p]));
                    assert(drv.contains(drv[q]));
                }
                if drv.contains(x) && drv.contains(y) {
                    let px = choose|px: int| 0 <= px < drv.len() && drv[px] == x;
                    let py = choose|py: int| 0 <= py < drv.len() && drv[py] == y;
                    assert(px != py);
                    if px < py {
                        assert(pair_covered(drv, members@.len() as int, members@.len() as int + 1, x, y));
                    } else {
                        assert(pair_covered(drv, members@.len() as int, members@.len() as int + 1, x, y));
                    }
                }
            }
            lemma_dedup_contains(roster);
            assert(groups.take(j + 1).drop_last() =~= groups.take(j as int));
            assert(groups.take(j + 1).last() == roster);
            assert forall|x: Seq<char>, y: Seq<char>| x != y implies
                weight_between(names, edges@, x, y) == co_count(groups.take(j + 1), x, y) by {
                assert(weight_between(names, edges@, x, y)
                    == co_count(groups.take(j as int), x, y)
                        + if pair_covered(drv, members@.len() as int, members@.len() as int + 1, x, y) { 1int } else { 0int });
            }
        }
        j += 1;
    }
    assert(groups.take(keys@.len() as int) =~= groups);
    Graph { nodes, edges }
}

} // verus!
