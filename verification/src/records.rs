//! Input records and name de-duplication.

use vstd::prelude::*;

verus! {

/// One co-membership record: a player seen with a team in a season.
///
/// Only the three identifying fields matter to the core; any per-game
/// statistics that travel with the raw data are left to the caller.
pub struct PlayerSeason {
    pub player_name: String,
    pub team: String,
    pub season: String,
}

/// The views of a run of strings, in order.
pub open spec fn name_views(v: Seq<String>) -> Seq<Seq<char>> {
    v.map_values(|s: String| s@)
}

/// The player names of a run of records, in order.
pub open spec fn names_of(rs: Seq<PlayerSeason>) -> Seq<Seq<char>> {
    rs.map_values(|r: PlayerSeason| r.player_name@)
}

/// Keeps the first occurrence of each value and drops later repeats.
pub open spec fn dedup_seq<A>(s: Seq<A>) -> Seq<A>
    decreases s.len(),
{
    if s.len() == 0 {
        Seq::empty()
    } else {
        let prev = dedup_seq(s.drop_last());
        if prev.contains(s.last()) {
            prev
        } else {
            prev.push(s.last())
        }
    }
}

/// De-duplication keeps exactly the values that were present.
pub proof fn lemma_dedup_contains<A>(s: Seq<A>)
    ensures
        forall|x: A| dedup_seq(s).contains(x) <==> s.contains(x),
    decreases s.len(),
{
    if s.len() > 0 {
        lemma_dedup_contains(s.drop_last());
        let prev = dedup_seq(s.drop_last());
        assert forall|x: A| s.contains(x) implies dedup_seq(s).contains(x) by {
            let i = choose|i: int| 0 <= i < s.len() && s[i] == x;
            if i < s.len() - 1 {
                assert(s.drop_last()[i] == x);
                assert(s.drop_last().contains(x));
                if !prev.contains(s.last()) {
                    let j = choose|j: int| 0 <= j < prev.len() && prev[j] == x;
                    assert(prev.push(s.last())[j] == x);
                    assert(dedup_seq(s).contains(x));
                }
            } else {
                assert(x == s.last());
                if !prev.contains(s.last()) {
                    assert(prev.push(s.last())[prev.len() as int] == x);
                    assert(dedup_seq(s).contains(x));
                }
            }
        }
        assert forall|x: A| dedup_seq(s).contains(x) implies s.contains(x) by {
            if prev.contains(x) {
                assert(s.drop_last().contains(x));
                let i = choose|i: int| 0 <= i < s.drop_last().len() && s.drop_last()[i] == x;
                assert(s.drop_last()[i] == s[i]);
                assert(s.contains(x));
            } else {
                assert(dedup_seq(s) == prev.push(s.last()));
                let j = choose|j: int| 0 <= j < dedup_seq(s).len() && dedup_seq(s)[j] == x;
                if j < prev.len() {
                    assert(prev[j] == x);
                } else {
                    assert(x == s.last());
                    assert(s[s.len() - 1] == x);
                }
            }
        }
    }
}

/// No value appears twice after de-duplication.
pub proof fn lemma_dedup_no_duplicates<A>(s: Seq<A>)
    ensures
        dedup_seq(s).no_duplicates(),
    decreases s.len(),
{
    if s.len() > 0 {
        lemma_dedup_no_duplicates(s.drop_last());
        let prev = dedup_seq(s.drop_last());
        if !prev.contains(s.last()) {
            assert forall|i: int, j: int|
                0 <= i < prev.push(s.last()).len() && 0 <= j < prev.push(s.last()).len() && i != j
                implies prev.push(s.last())[i] != prev.push(s.last())[j] by {
                if i < prev.len() && j < prev.len() {
                    assert(prev[i] == prev.push(s.last())[i]);
                } else if i < prev.len() {
                    assert(prev.contains(prev[i]));
                } else if j < prev.len() {
                    assert(prev.contains(prev[j]));
                }
            }
        }
    }
}

/// Whether some entry of `v` holds the same characters as `x`.
pub fn contains_string(v: &Vec<String>, x: &String) -> (r: bool)
    ensures
        r == name_views(v@).contains(x@),
{
    let mut k: usize = 0;
    while k < v.len()
        invariant
            0 <= k <= v@.len(),
            forall|j: int| 0 <= j < k ==> name_views(v@)[j] != x@,
        decreases v@.len() - k,
    {
        if v[k].eq(x) {
            assert(name_views(v@)[k as int] == x@);
            return true;
        }
        k += 1;
    }
    false
}

/// Counts the distinct names in a list, each name counted once however
/// often it repeats.
pub fn distinct_count(items: &Vec<String>) -> (c: usize)
    ensures
        c == dedup_seq(name_views(items@)).len(),
{
    let mut seen: Vec<String> = Vec::new();
    let mut i: usize = 0;
    while i < items.len()
        invariant
            0 <= i <= items@.len(),
            name_views(seen@) == dedup_seq(name_views(items@).take(i as int)),
        decreases items@.len() - i,
    {
        let ghost pre = name_views(items@).take(i as int);
        assert(name_views(items@).take(i + 1).drop_last() =~= pre);
        assert(name_views(items@).take(i + 1).last() == items@[i as int]@);
        if !contains_string(&seen, &items[i]) {
            let ghost before = name_views(seen@);
            seen.push(items[i].clone());
            assert(name_views(seen@) =~= before.push(items@[i as int]@));
        }
        i += 1;
    }
    assert(name_views(items@).take(items@.len() as int) =~= name_views(items@));
    seen.len()
}

} // verus!
