//! The neighbor-list calculator.
//!
//! For a spherical cutoff this calculator emits, per species pair, one block
//! of samples holding the displacement vector of every atom pair strictly
//! inside the cutoff, together with the analytic gradient of those vectors
//! with respect to atom positions. Users choose between a half neighbor list
//! (each unordered pair once, atoms ordered so that the species of the first
//! atom is not larger) and a full neighbor list (both orientations of every
//! pair, except that a self-pair under periodic boundaries appears once).

use vstd::prelude::*;

use crate::labels::{sorted_strict, Labels};
use crate::sorted_set::SortedVecSet;
use crate::system::{SysView, SystemData};
use crate::Error;

verus! {

/// Canonical order of a species pair: the pair sorted ascending, and whether
/// the two entries had to be swapped. Equal species are never swapped.
pub open spec fn spec_sort_pair(i: i32, j: i32) -> ((i32, i32), bool) {
    if i <= j {
        ((i, j), false)
    } else {
        ((j, i), true)
    }
}

/// Sort a species pair and report whether the pair was inverted.
pub fn sort_pair(pair: (i32, i32)) -> (r: ((i32, i32), bool))
    ensures
        r == spec_sort_pair(pair.0, pair.1),
{
    let (i, j) = pair;
    if i <= j {
        ((i, j), false)
    } else {
        ((j, i), true)
    }
}

/// Species of the first atom of pair `k` of one system view.
pub open spec fn pair_species_first(v: SysView, k: int) -> i32 {
    v.species[v.pairs[k].first as int]
}

/// Species of the second atom of pair `k` of one system view.
pub open spec fn pair_species_second(v: SysView, k: int) -> i32 {
    v.species[v.pairs[k].second as int]
}

/// Canonical (sorted) species pair of pair `k` of one system view.
pub open spec fn half_pair_key(v: SysView, k: int) -> (i32, i32) {
    spec_sort_pair(pair_species_first(v, k), pair_species_second(v, k)).0
}

/// Was pair `k` inverted by canonicalisation?
pub open spec fn half_pair_inverted(v: SysView, k: int) -> bool {
    spec_sort_pair(pair_species_first(v, k), pair_species_second(v, k)).1
}

/// Does the canonical species pair `(a, b)` occur among the pairs of the
/// batch, looking only at systems before `s` and at pairs before `k` inside
/// system `s`?
pub open spec fn half_key_in_prefix(
    views: Seq<SysView>,
    s: int,
    k: int,
    a: i32,
    b: i32,
) -> bool {
    exists|s2: int, k2: int|
        0 <= s2 < views.len() && 0 <= k2 < views[s2].pairs.len() && (s2 < s || (s2 == s && k2 < k))
            && half_pair_key(views[s2], k2) == (a, b)
}

/// Does the canonical species pair `(a, b)` occur among the pairs of the
/// batch? These are exactly the keys of the half neighbor list.
pub open spec fn half_key_in(views: Seq<SysView>, a: i32, b: i32) -> bool {
    half_key_in_prefix(views, views.len() as int, 0, a, b)
}

/// Does the ordered species pair `(a, b)` occur among the pairs of the batch
/// (in either orientation), looking only before system `s`, pair `k`?
pub open spec fn full_key_in_prefix(
    views: Seq<SysView>,
    s: int,
    k: int,
    a: i32,
    b: i32,
) -> bool {
    exists|s2: int, k2: int|
        0 <= s2 < views.len() && 0 <= k2 < views[s2].pairs.len() && (s2 < s || (s2 == s && k2 < k))
            && ((pair_species_first(views[s2], k2) == a && pair_species_second(views[s2], k2) == b)
            || (pair_species_first(views[s2], k2) == b && pair_species_second(views[s2], k2) == a))
}

/// Does the ordered species pair `(a, b)` occur among the pairs of the
/// batch, in either orientation? These are exactly the keys of the full
/// neighbor list.
pub open spec fn full_key_in(views: Seq<SysView>, a: i32, b: i32) -> bool {
    full_key_in_prefix(views, views.len() as int, 0, a, b)
}

/// A two-column key row.
pub open spec fn key_row(a: i32, b: i32) -> Seq<i32> {
    seq![a, b]
}

/// All snapshots in a batch are well-formed.
pub open spec fn data_wf(data: Seq<SystemData>) -> bool {
    forall|i: int| 0 <= i < data.len() ==> (#[trigger] data[i]).wf()
}

/// Column names of neighbor-list keys.
fn key_names() -> (r: Vec<String>)
    ensures
        r@.map_values(|s: String| s@) == seq!["species_first_atom"@, "species_second_atom"@],
{
    let mut v: Vec<String> = Vec::new();
    v.push("species_first_atom".to_owned());
    v.push("species_second_atom".to_owned());
    proof {
        assert(v@.map_values(|s: String| s@) =~= seq![
            "species_first_atom"@,
            "species_second_atom"@,
        ]);
    }
    v
}

/// Shared skeleton of the two key builders: walk every pair of every system
/// and collect species-pair rows in a sorted set. `full` selects whether the
/// raw pair and its reverse are collected, or the canonically sorted pair.
fn collect_key_rows(data: &Vec<SystemData>, full: bool) -> (r: SortedVecSet)
    requires
        data_wf(data@),
    ensures
        r.wf(),
        forall|row: Seq<i32>| #[trigger] r.rows_view().contains(row) ==> row.len() == 2,
        forall|a: i32, b: i32|
            #[trigger] r.rows_view().contains(key_row(a, b)) <==> (if full {
                full_key_in(crate::system::data_views(data@), a, b)
            } else {
                half_key_in(crate::system::data_views(data@), a, b)
            }),
{
    let ghost views = crate::system::data_views(data@);
    proof {
        assert(views.len() == data@.len());
        assert(forall|s: int| 0 <= s < data@.len() ==> (#[trigger] views[s]) == data@[s].as_view());
    }
    let mut set = SortedVecSet::new();
    let ns = data.len();
    let mut s: usize = 0;
    while s < ns
        invariant
            ns == data@.len(),
            s <= ns,
            data_wf(data@),
            views == crate::system::data_views(data@),
            views.len() == data@.len(),
            forall|s2: int|
                0 <= s2 < data@.len() ==> (#[trigger] views[s2]) == data@[s2].as_view(),
            set.wf(),
            forall|row: Seq<i32>| #[trigger] set.rows_view().contains(row) ==> row.len() == 2,
            forall|a: i32, b: i32|
                #[trigger] set.rows_view().contains(key_row(a, b)) <==> (if full {
                    full_key_in_prefix(views, s as int, 0, a, b)
                } else {
                    half_key_in_prefix(views, s as int, 0, a, b)
                }),
        decreases ns - s,
    {
        let np = data[s].pairs.len();
        let mut k: usize = 0;
        while k < np
            invariant
                ns == data@.len(),
                s < ns,
                np == data@[s as int].pairs@.len(),
                k <= np,
                data_wf(data@),
                views == crate::system::data_views(data@),
                views.len() == data@.len(),
                forall|s2: int|
                    0 <= s2 < data@.len() ==> (#[trigger] views[s2]) == data@[s2].as_view(),
                set.wf(),
                forall|row: Seq<i32>| #[trigger] set.rows_view().contains(row) ==> row.len() == 2,
                forall|a: i32, b: i32|
                    #[trigger] set.rows_view().contains(key_row(a, b)) <==> (if full {
                        full_key_in_prefix(views, s as int, k as int, a, b)
                    } else {
                        half_key_in_prefix(views, s as int, k as int, a, b)
                    }),
            decreases np - k,
        {
            let p = data[s].pairs[k];
            proof {
                assert(data@[s as int].wf());
                assert(p == views[s as int].pairs[k as int]);
            }
            let spf = data[s].species[p.first];
            let sps = data[s].species[p.second];
            proof {
                assert(spf == pair_species_first(views[s as int], k as int));
                assert(sps == pair_species_second(views[s as int], k as int));
            }
            if full {
                let mut row1: Vec<i32> = Vec::new();
                row1.push(spf);
                row1.push(sps);
                proof {
                    assert(row1@ =~= seq![spf, sps]);
                }
                set.insert(row1);
                let mut row2: Vec<i32> = Vec::new();
                row2.push(sps);
                row2.push(spf);
                proof {
                    assert(row2@ =~= seq![sps, spf]);
                }
                set.insert(row2);
                proof {
                    assert forall|a: i32, b: i32| #[trigger] set.rows_view().contains(
                        key_row(a, b),
                    ) implies full_key_in_prefix(views, s as int, k + 1, a, b) by {
                        if key_row(a, b) == seq![spf, sps] || key_row(a, b) == seq![sps, spf] {
                            assert(a == key_row(a, b)[0] && b == key_row(a, b)[1]);
                            assert((pair_species_first(views[s as int], k as int) == a
                                && pair_species_second(views[s as int], k as int) == b) || (
                            pair_species_first(views[s as int], k as int) == b
                                && pair_species_second(views[s as int], k as int) == a));
                        } else {
                            assert(full_key_in_prefix(views, s as int, k as int, a, b));
                            let (s2, k2) = choose|s2: int, k2: int|
                                0 <= s2 < views.len() && 0 <= k2 < views[s2].pairs.len() && (s2 < s
                                    || (s2 == s && k2 < k)) && ((pair_species_first(views[s2], k2)
                                    == a && pair_species_second(views[s2], k2) == b) || (
                                pair_species_first(views[s2], k2) == b && pair_species_second(
                                    views[s2],
                                    k2,
                                ) == a));
                            assert(s2 < s || (s2 == s && k2 < k + 1));
                        }
                    }
                    assert forall|a: i32, b: i32|
                        full_key_in_prefix(views, s as int, k + 1, a, b) implies #[trigger] set
                        .rows_view().contains(key_row(a, b)) by {
                        let (s2, k2) = choose|s2: int, k2: int|
                            0 <= s2 < views.len() && 0 <= k2 < views[s2].pairs.len() && (s2 < s || (
                            s2 == s && k2 < k + 1)) && ((pair_species_first(views[s2], k2) == a
                                && pair_species_second(views[s2], k2) == b) || (pair_species_first(
                                views[s2],
                                k2,
                            ) == b && pair_species_second(views[s2], k2) == a));
                        if s2 == s && k2 == k {
                            assert(key_row(a, b) == seq![spf, sps] || key_row(a, b) == seq![sps,
                                spf]);
                        } else {
                            assert(full_key_in_prefix(views, s as int, k as int, a, b));
                        }
                    }
                }
            } else {
                let ((a0, b0), _inverted) = sort_pair((spf, sps));
                let mut row1: Vec<i32> = Vec::new();
                row1.push(a0);
                row1.push(b0);
                proof {
                    assert(row1@ =~= seq![a0, b0]);
                    assert((a0, b0) == half_pair_key(views[s as int], k as int));
                }
                set.insert(row1);
                proof {
                    assert forall|a: i32, b: i32| #[trigger] set.rows_view().contains(
                        key_row(a, b),
                    ) implies half_key_in_prefix(views, s as int, k + 1, a, b) by {
                        if key_row(a, b) == seq![a0, b0] {
                            assert(a == key_row(a, b)[0] && b == key_row(a, b)[1]);
                            assert(half_pair_key(views[s as int], k as int) == (a, b));
                        } else {
                            assert(half_key_in_prefix(views, s as int, k as int, a, b));
                            let (s2, k2) = choose|s2: int, k2: int|
                                0 <= s2 < views.len() && 0 <= k2 < views[s2].pairs.len() && (s2 < s
                                    || (s2 == s && k2 < k)) && half_pair_key(views[s2], k2) == (
                                a,
                                b,
                                );
                            assert(s2 < s || (s2 == s && k2 < k + 1));
                        }
                    }
                    assert forall|a: i32, b: i32|
                        half_key_in_prefix(views, s as int, k + 1, a, b) implies #[trigger] set
                        .rows_view().contains(key_row(a, b)) by {
                        let (s2, k2) = choose|s2: int, k2: int|
                            0 <= s2 < views.len() && 0 <= k2 < views[s2].pairs.len() && (s2 < s || (
                            s2 == s && k2 < k + 1)) && half_pair_key(views[s2], k2) == (a, b);
                        if s2 == s && k2 == k {
                            assert((a, b) == (a0, b0));
                            assert(key_row(a, b) =~= seq![a0, b0]);
                        } else {
                            assert(half_key_in_prefix(views, s as int, k as int, a, b));
                        }
                    }
                }
            }
            k += 1;
        }
        proof {
            assert forall|a: i32, b: i32|
                half_key_in_prefix(views, s as int, np as int, a, b) == half_key_in_prefix(
                    views,
                    s + 1,
                    0,
                    a,
                    b,
                ) by {
                if half_key_in_prefix(views, s as int, np as int, a, b) {
                    let (s2, k2) = choose|s2: int, k2: int|
                        0 <= s2 < views.len() && 0 <= k2 < views[s2].pairs.len() && (s2 < s || (s2
                            == s && k2 < np)) && half_pair_key(views[s2], k2) == (a, b);
                    assert(s2 < s + 1);
                    assert(half_key_in_prefix(views, s + 1, 0, a, b));
                }
                if half_key_in_prefix(views, s + 1, 0, a, b) {
                    let (s2, k2) = choose|s2: int, k2: int|
                        0 <= s2 < views.len() && 0 <= k2 < views[s2].pairs.len() && (s2 < s + 1 || (
                        s2 == s + 1 && k2 < 0)) && half_pair_key(views[s2], k2) == (a, b);
                    assert(s2 <= s);
                    if s2 == s {
                        assert(k2 < views[s as int].pairs.len());
                        assert(views[s as int] == data@[s as int].as_view());
                        assert(k2 < np);
                    }
                    assert(half_key_in_prefix(views, s as int, np as int, a, b));
                }
            }
            assert forall|a: i32, b: i32|
                full_key_in_prefix(views, s as int, np as int, a, b) == full_key_in_prefix(
                    views,
                    s + 1,
                    0,
                    a,
                    b,
                ) by {
                if full_key_in_prefix(views, s as int, np as int, a, b) {
                    let (s2, k2) = choose|s2: int, k2: int|
                        0 <= s2 < views.len() && 0 <= k2 < views[s2].pairs.len() && (s2 < s || (s2
                            == s && k2 < np)) && ((pair_species_first(views[s2], k2) == a
                            && pair_species_second(views[s2], k2) == b) || (pair_species_first(
                            views[s2],
                            k2,
                        ) == b && pair_species_second(views[s2], k2) == a));
                    assert(s2 < s + 1);
                    assert(full_key_in_prefix(views, s + 1, 0, a, b));
                }
                if full_key_in_prefix(views, s + 1, 0, a, b) {
                    let (s2, k2) = choose|s2: int, k2: int|
                        0 <= s2 < views.len() && 0 <= k2 < views[s2].pairs.len() && (s2 < s + 1 || (
                        s2 == s + 1 && k2 < 0)) && ((pair_species_first(views[s2], k2) == a
                            && pair_species_second(views[s2], k2) == b) || (pair_species_first(
                            views[s2],
                            k2,
                        ) == b && pair_species_second(views[s2], k2) == a));
                    assert(s2 <= s);
                    if s2 == s {
                        assert(views[s as int] == data@[s as int].as_view());
                        assert(k2 < np);
                    }
                    assert(full_key_in_prefix(views, s as int, np as int, a, b));
                }
            }
        }
        s += 1;
    }
    set
}

/// Build the keys of the half neighbor list from captured system data: the
/// canonically sorted species pair of every pair in the batch, each once, in
/// ascending order.
pub fn half_keys_from_data(data: &Vec<SystemData>) -> (r: Labels)
    requires
        data_wf(data@),
    ensures
        r.wf(),
        r.names_view() == seq!["species_first_atom"@, "species_second_atom"@],
        r.spec_width() == 2,
        sorted_strict(r.rows_view()),
        forall|row: Seq<i32>| #[trigger] r.rows_view().contains(row) ==> row.len() == 2,
        forall|a: i32, b: i32|
            #[trigger] r.rows_view().contains(key_row(a, b)) <==> half_key_in(
                crate::system::data_views(data@),
                a,
                b,
            ),
{
    let set = collect_key_rows(data, false);
    keys_from_set(set)
}

/// Build the keys of the full neighbor list from captured system data: every
/// species pair of the batch in both orientations, each once, in ascending
/// order.
pub fn full_keys_from_data(data: &Vec<SystemData>) -> (r: Labels)
    requires
        data_wf(data@),
    ensures
        r.wf(),
        r.names_view() == seq!["species_first_atom"@, "species_second_atom"@],
        r.spec_width() == 2,
        sorted_strict(r.rows_view()),
        forall|row: Seq<i32>| #[trigger] r.rows_view().contains(row) ==> row.len() == 2,
        forall|a: i32, b: i32|
            #[trigger] r.rows_view().contains(key_row(a, b)) <==> full_key_in(
                crate::system::data_views(data@),
                a,
                b,
            ),
{
    let set = collect_key_rows(data, true);
    keys_from_set(set)
}

/// Turn a sorted set of species-pair rows into key labels.
fn keys_from_set(set: SortedVecSet) -> (r: Labels)
    requires
        set.wf(),
        forall|row: Seq<i32>| #[trigger] set.rows_view().contains(row) ==> row.len() == 2,
    ensures
        r.wf(),
        r.names_view() == seq!["species_first_atom"@, "species_second_atom"@],
        r.spec_width() == 2,
        r.rows_view() == set.rows_view(),
        sorted_strict(r.rows_view()),
{
    let names = key_names();
    let ghost setview = set.rows_view();
    proof {
        assert(names@.len() == 2) by {
            assert(names@.map_values(|s: String| s@).len() == names@.len());
        }
        assert forall|i: int| 0 <= i < setview.len() implies (#[trigger] setview[i]).len()
            == 2 by {
            assert(set.rows_view().contains(setview[i]));
        }
    }
    let rows = set.into_rows();
    proof {
        let rview = rows@.map_values(|v: Vec<i32>| v@);
        assert(rview == setview);
        crate::labels::lemma_sorted_strict_unique(rview);
        assert forall|i: int| 0 <= i < rows@.len() implies (#[trigger] rows@[i])@.len()
            == names@.len() by {
            assert(rview[i] == rows@[i]@);
        }
        assert forall|i: int, j: int| 0 <= i < j < rows@.len() implies rows@[i]@
            != rows@[j]@ by {
            assert(rview[i] == rows@[i]@ && rview[j] == rows@[j]@);
        }
    }
    Labels::from_parts(names, rows)
}

} // verus!

verus! {

/// One sample row of a neighbor-list block: structure index, pair index,
/// first atom, second atom.
pub open spec fn sample_row(s: int, k: int, ai: int, aj: int) -> Seq<i32> {
    seq![s as i32, k as i32, ai as i32, aj as i32]
}

/// The atoms of pair `k` in canonical order: swapped when canonicalisation
/// inverted the species pair.
pub open spec fn half_atoms(v: SysView, k: int) -> (usize, usize) {
    if half_pair_inverted(v, k) {
        (v.pairs[k].second, v.pairs[k].first)
    } else {
        (v.pairs[k].first, v.pairs[k].second)
    }
}

/// Half-list sample rows of system `s` for `key`, from the first `upto`
/// pairs, in pair order.
pub open spec fn half_rows_pairs(v: SysView, s: int, key: (i32, i32), upto: int) -> Seq<Seq<i32>>
    decreases upto,
{
    if upto <= 0 {
        Seq::empty()
    } else {
        let prefix = half_rows_pairs(v, s, key, upto - 1);
        if half_pair_key(v, upto - 1) == key {
            prefix.push(
                sample_row(
                    s,
                    upto - 1,
                    half_atoms(v, upto - 1).0 as int,
                    half_atoms(v, upto - 1).1 as int,
                ),
            )
        } else {
            prefix
        }
    }
}

/// Half-list sample rows for `key` of the first `upto` systems, in system
/// then pair order.
pub open spec fn half_rows_systems(views: Seq<SysView>, key: (i32, i32), upto: int) -> Seq<
    Seq<i32>,
>
    decreases upto,
{
    if upto <= 0 {
        Seq::empty()
    } else {
        half_rows_systems(views, key, upto - 1) + half_rows_pairs(
            views[upto - 1],
            upto - 1,
            key,
            views[upto - 1].pairs.len() as int,
        )
    }
}

/// All half-list sample rows of a batch for one key.
pub open spec fn half_sample_rows(views: Seq<SysView>, key: (i32, i32)) -> Seq<Seq<i32>> {
    half_rows_systems(views, key, views.len() as int)
}

/// Full-list sample rows that pair `k` of system `s` contributes to `key`:
/// the matching orientations, a self-pair only once.
pub open spec fn full_rows_pair(v: SysView, s: int, key: (i32, i32), k: int) -> Seq<Seq<i32>> {
    let p = v.pairs[k];
    let spf = pair_species_first(v, k);
    let sps = pair_species_second(v, k);
    if key.0 == key.1 {
        if spf == key.0 && sps == key.1 {
            if p.first != p.second {
                seq![
                    sample_row(s, k, p.first as int, p.second as int),
                    sample_row(s, k, p.second as int, p.first as int),
                ]
            } else {
                seq![sample_row(s, k, p.first as int, p.second as int)]
            }
        } else {
            Seq::empty()
        }
    } else {
        if spf == key.0 && sps == key.1 {
            seq![sample_row(s, k, p.first as int, p.second as int)]
        } else if sps == key.0 && spf == key.1 {
            seq![sample_row(s, k, p.second as int, p.first as int)]
        } else {
            Seq::empty()
        }
    }
}

/// Full-list sample rows of system `s` for `key`, from the first `upto`
/// pairs, in pair order.
pub open spec fn full_rows_pairs(v: SysView, s: int, key: (i32, i32), upto: int) -> Seq<Seq<i32>>
    decreases upto,
{
    if upto <= 0 {
        Seq::empty()
    } else {
        full_rows_pairs(v, s, key, upto - 1) + full_rows_pair(v, s, key, upto - 1)
    }
}

/// Full-list sample rows for `key` of the first `upto` systems.
pub open spec fn full_rows_systems(views: Seq<SysView>, key: (i32, i32), upto: int) -> Seq<
    Seq<i32>,
>
    decreases upto,
{
    if upto <= 0 {
        Seq::empty()
    } else {
        full_rows_systems(views, key, upto - 1) + full_rows_pairs(
            views[upto - 1],
            upto - 1,
            key,
            views[upto - 1].pairs.len() as int,
        )
    }
}

/// All full-list sample rows of a batch for one key.
pub open spec fn full_sample_rows(views: Seq<SysView>, key: (i32, i32)) -> Seq<Seq<i32>> {
    full_rows_systems(views, key, views.len() as int)
}

/// Shape of a block of sample rows built per system: four columns, the
/// structure column equal to `s`, the pair column within range, and pairwise
/// distinct rows.
pub open spec fn system_rows_shape(rows: Seq<Seq<i32>>, s: int, upto: int) -> bool {
    &&& forall|i: int|
        0 <= i < rows.len() ==> (#[trigger] rows[i]).len() == 4 && rows[i][0] == s as i32 && 0
            <= rows[i][1] && rows[i][1] <= upto - 1
    &&& forall|i: int, j: int| 0 <= i < j < rows.len() ==> rows[i] != rows[j]
}

/// The half-list rows of one system are well-shaped and pairwise distinct.
pub proof fn lemma_half_rows_pairs_shape(v: SysView, s: int, key: (i32, i32), upto: int)
    requires
        0 <= s <= i32::MAX,
        0 <= upto <= v.pairs.len(),
        v.bounded(),
    ensures
        system_rows_shape(half_rows_pairs(v, s, key, upto), s, upto),
        forall|i: int, j: int|
            0 <= i < j < half_rows_pairs(v, s, key, upto).len()
                ==> #[trigger] half_rows_pairs(v, s, key, upto)[i][1]
                < #[trigger] half_rows_pairs(v, s, key, upto)[j][1],
    decreases upto,
{
    if upto > 0 {
        lemma_half_rows_pairs_shape(v, s, key, upto - 1);
        let prefix = half_rows_pairs(v, s, key, upto - 1);
        let whole = half_rows_pairs(v, s, key, upto);
        if half_pair_key(v, upto - 1) == key {
            assert(whole == prefix.push(
                sample_row(
                    s,
                    upto - 1,
                    half_atoms(v, upto - 1).0 as int,
                    half_atoms(v, upto - 1).1 as int,
                ),
            ));
            assert(whole[whole.len() - 1][1] == (upto - 1) as i32);
        }
    }
}

/// The full-list rows of one system are well-shaped and pairwise distinct.
pub proof fn lemma_full_rows_pairs_shape(v: SysView, s: int, key: (i32, i32), upto: int)
    requires
        0 <= s <= i32::MAX,
        0 <= upto <= v.pairs.len(),
        v.bounded(),
        v.wf(),
    ensures
        system_rows_shape(full_rows_pairs(v, s, key, upto), s, upto),
    decreases upto,
{
    if upto > 0 {
        lemma_full_rows_pairs_shape(v, s, key, upto - 1);
        let prefix = full_rows_pairs(v, s, key, upto - 1);
        let seg = full_rows_pair(v, s, key, upto - 1);
        let whole = full_rows_pairs(v, s, key, upto);
        let p = v.pairs[upto - 1];
        assert(p.first < v.species.len() && p.second < v.species.len());
        assert forall|i: int| 0 <= i < seg.len() implies (#[trigger] seg[i]).len() == 4 && seg[i][0]
            == s as i32 && seg[i][1] == (upto - 1) as i32 by {}
        assert forall|i: int, j: int| 0 <= i < j < seg.len() implies seg[i] != seg[j] by {
            assert(seg.len() == 2);
            assert(p.first != p.second);
            assert(seg[0][2] == p.first as i32 && seg[1][2] == p.second as i32);
        }
        assert forall|i: int| 0 <= i < whole.len() implies (#[trigger] whole[i]).len() == 4
            && whole[i][0] == s as i32 && 0 <= whole[i][1] && whole[i][1] <= upto - 1 by {
            if i < prefix.len() {
                assert(whole[i] == prefix[i]);
            } else {
                assert(whole[i] == seg[i - prefix.len()]);
            }
        }
        assert forall|i: int, j: int| 0 <= i < j < whole.len() implies whole[i] != whole[j] by {
            if j < prefix.len() {
                assert(whole[i] == prefix[i] && whole[j] == prefix[j]);
            } else if i >= prefix.len() {
                assert(whole[i] == seg[i - prefix.len()] && whole[j] == seg[j - prefix.len()]);
            } else {
                assert(whole[i] == prefix[i] && whole[j] == seg[j - prefix.len()]);
                assert(prefix[i][1] <= upto - 2);
                assert(seg[j - prefix.len()][1] == (upto - 1) as i32);
            }
        }
    }
}

} // verus!

verus! {

/// Shape of the sample rows of a whole batch: four columns, structure column
/// within range, pairwise distinct rows.
pub open spec fn batch_rows_shape(rows: Seq<Seq<i32>>, upto: int) -> bool {
    &&& forall|i: int|
        0 <= i < rows.len() ==> (#[trigger] rows[i]).len() == 4 && 0 <= rows[i][0] && rows[i][0]
            < upto
    &&& forall|i: int, j: int| 0 <= i < j < rows.len() ==> rows[i] != rows[j]
}

/// The half-list sample rows of a batch are well-shaped and distinct.
pub proof fn lemma_half_sample_rows_shape(views: Seq<SysView>, key: (i32, i32), upto: int)
    requires
        crate::system::views_bounded(views),
        0 <= upto <= views.len(),
    ensures
        batch_rows_shape(half_rows_systems(views, key, upto), upto),
    decreases upto,
{
    if upto > 0 {
        lemma_half_sample_rows_shape(views, key, upto - 1);
        let v = views[upto - 1];
        lemma_half_rows_pairs_shape(v, upto - 1, key, v.pairs.len() as int);
        let prefix = half_rows_systems(views, key, upto - 1);
        let seg = half_rows_pairs(v, upto - 1, key, v.pairs.len() as int);
        let whole = half_rows_systems(views, key, upto);
        assert forall|i: int| 0 <= i < whole.len() implies (#[trigger] whole[i]).len() == 4 && 0
            <= whole[i][0] && whole[i][0] < upto by {
            if i < prefix.len() {
                assert(whole[i] == prefix[i]);
            } else {
                assert(whole[i] == seg[i - prefix.len()]);
                assert(whole[i][0] == (upto - 1) as i32);
            }
        }
        assert forall|i: int, j: int| 0 <= i < j < whole.len() implies whole[i] != whole[j] by {
            if j < prefix.len() {
                assert(whole[i] == prefix[i] && whole[j] == prefix[j]);
            } else if i >= prefix.len() {
                assert(whole[i] == seg[i - prefix.len()] && whole[j] == seg[j - prefix.len()]);
            } else {
                assert(whole[i] == prefix[i] && whole[j] == seg[j - prefix.len()]);
                assert(whole[i][0] < upto - 1);
                assert(whole[j][0] == (upto - 1) as i32);
            }
        }
    }
}

/// The full-list sample rows of a batch are well-shaped and distinct.
pub proof fn lemma_full_sample_rows_shape(views: Seq<SysView>, key: (i32, i32), upto: int)
    requires
        crate::system::views_bounded(views),
        crate::system::views_wf(views),
        0 <= upto <= views.len(),
    ensures
        batch_rows_shape(full_rows_systems(views, key, upto), upto),
    decreases upto,
{
    if upto > 0 {
        lemma_full_sample_rows_shape(views, key, upto - 1);
        let v = views[upto - 1];
        lemma_full_rows_pairs_shape(v, upto - 1, key, v.pairs.len() as int);
        let prefix = full_rows_systems(views, key, upto - 1);
        let seg = full_rows_pairs(v, upto - 1, key, v.pairs.len() as int);
        let whole = full_rows_systems(views, key, upto);
        assert forall|i: int| 0 <= i < whole.len() implies (#[trigger] whole[i]).len() == 4 && 0
            <= whole[i][0] && whole[i][0] < upto by {
            if i < prefix.len() {
                assert(whole[i] == prefix[i]);
            } else {
                assert(whole[i] == seg[i - prefix.len()]);
                assert(whole[i][0] == (upto - 1) as i32);
            }
        }
        assert forall|i: int, j: int| 0 <= i < j < whole.len() implies whole[i] != whole[j] by {
            if j < prefix.len() {
                assert(whole[i] == prefix[i] && whole[j] == prefix[j]);
            } else if i >= prefix.len() {
                assert(whole[i] == seg[i - prefix.len()] && whole[j] == seg[j - prefix.len()]);
            } else {
                assert(whole[i] == prefix[i] && whole[j] == seg[j - prefix.len()]);
                assert(whole[i][0] < upto - 1);
                assert(whole[j][0] == (upto - 1) as i32);
            }
        }
    }
}

/// Column names of neighbor-list samples.
fn sample_names() -> (r: Vec<String>)
    ensures
        r@.map_values(|s: String| s@) == seq![
            "structure"@,
            "pair_id"@,
            "first_atom"@,
            "second_atom"@,
        ],
{
    let mut v: Vec<String> = Vec::new();
    v.push("structure".to_owned());
    v.push("pair_id".to_owned());
    v.push("first_atom".to_owned());
    v.push("second_atom".to_owned());
    proof {
        assert(v@.map_values(|s: String| s@) =~= seq![
            "structure"@,
            "pair_id"@,
            "first_atom"@,
            "second_atom"@,
        ]);
    }
    v
}

/// Collect the sample rows of one key over the whole batch. `full` selects
/// the full-list enumeration; otherwise pairs are canonicalised.
fn collect_sample_rows(data: &Vec<SystemData>, a: i32, b: i32, full: bool) -> (rows: Vec<Vec<i32>>)
    requires
        data_wf(data@),
        crate::system::views_bounded(crate::system::data_views(data@)),
    ensures
        rows@.map_values(|v: Vec<i32>| v@) == (if full {
            full_sample_rows(crate::system::data_views(data@), (a, b))
        } else {
            half_sample_rows(crate::system::data_views(data@), (a, b))
        }),
{
    let ghost views = crate::system::data_views(data@);
    let ghost key = (a, b);
    proof {
        assert(views.len() == data@.len());
        assert(forall|s: int| 0 <= s < data@.len() ==> (#[trigger] views[s]) == data@[s].as_view());
    }
    let mut rows: Vec<Vec<i32>> = Vec::new();
    let ns = data.len();
    let mut s: usize = 0;
    proof {
        assert(rows@.map_values(|v: Vec<i32>| v@) =~= Seq::<Seq<i32>>::empty());
    }
    while s < ns
        invariant
            ns == data@.len(),
            s <= ns,
            data_wf(data@),
            crate::system::views_bounded(views),
            views == crate::system::data_views(data@),
            views.len() == data@.len(),
            key == (a, b),
            forall|s2: int|
                0 <= s2 < data@.len() ==> (#[trigger] views[s2]) == data@[s2].as_view(),
            rows@.map_values(|v: Vec<i32>| v@) == (if full {
                full_rows_systems(views, key, s as int)
            } else {
                half_rows_systems(views, key, s as int)
            }),
        decreases ns - s,
    {
        let np = data[s].pairs.len();
        let mut k: usize = 0;
        proof {
            assert(half_rows_pairs(views[s as int], s as int, key, 0) =~= Seq::<Seq<i32>>::empty());
            assert(full_rows_pairs(views[s as int], s as int, key, 0) =~= Seq::<Seq<i32>>::empty());
            assert(rows@.map_values(|v: Vec<i32>| v@) + Seq::<Seq<i32>>::empty()
                =~= rows@.map_values(|v: Vec<i32>| v@));
        }
        while k < np
            invariant
                ns == data@.len(),
                s < ns,
                np == data@[s as int].pairs@.len(),
                k <= np,
                data_wf(data@),
                crate::system::views_bounded(views),
                views == crate::system::data_views(data@),
                views.len() == data@.len(),
                key == (a, b),
                forall|s2: int|
                    0 <= s2 < data@.len() ==> (#[trigger] views[s2]) == data@[s2].as_view(),
                rows@.map_values(|v: Vec<i32>| v@) == (if full {
                    full_rows_systems(views, key, s as int) + full_rows_pairs(
                        views[s as int],
                        s as int,
                        key,
                        k as int,
                    )
                } else {
                    half_rows_systems(views, key, s as int) + half_rows_pairs(
                        views[s as int],
                        s as int,
                        key,
                        k as int,
                    )
                }),
            decreases np - k,
        {
            let ghost v = views[s as int];
            let ghost before = rows@.map_values(|r2: Vec<i32>| r2@);
            let p = data[s].pairs[k];
            proof {
                assert(data@[s as int].wf());
                assert(data@[s as int].as_view().bounded());
                assert(p == v.pairs[k as int]);
                assert(p.first < data@[s as int].species@.len());
                assert(p.second < data@[s as int].species@.len());
            }
            let spf = data[s].species[p.first];
            let sps = data[s].species[p.second];
            proof {
                assert(spf == pair_species_first(v, k as int));
                assert(sps == pair_species_second(v, k as int));
            }
            if full {
                // matching orientations of this pair, a self-pair only once
                if spf == a && sps == b {
                    let mut row: Vec<i32> = Vec::new();
                    row.push(s as i32);
                    row.push(k as i32);
                    row.push(p.first as i32);
                    row.push(p.second as i32);
                    proof {
                        assert(row@ =~= sample_row(
                            s as int,
                            k as int,
                            p.first as int,
                            p.second as int,
                        ));
                    }
                    rows.push(row);
                }
                if (sps == a && spf == b) && !(a == b && p.first == p.second) {
                    let mut row: Vec<i32> = Vec::new();
                    row.push(s as i32);
                    row.push(k as i32);
                    row.push(p.second as i32);
                    row.push(p.first as i32);
                    proof {
                        assert(row@ =~= sample_row(
                            s as int,
                            k as int,
                            p.second as int,
                            p.first as int,
                        ));
                    }
                    rows.push(row);
                }
                proof {
                    let seg = full_rows_pair(v, s as int, key, k as int);
                    let now = rows@.map_values(|r2: Vec<i32>| r2@);
                    assert(now =~= before + seg) by {
                        if a == b {
                            if spf == a && sps == b {
                                if p.first != p.second {
                                    assert(seg.len() == 2);
                                } else {
                                    assert(seg.len() == 1);
                                }
                            } else {
                                assert(seg.len() == 0);
                            }
                        } else {
                            if spf == a && sps == b {
                                assert(seg.len() == 1);
                            } else if sps == a && spf == b {
                                assert(seg.len() == 1);
                            } else {
                                assert(seg.len() == 0);
                            }
                        }
                    }
                    assert(full_rows_pairs(v, s as int, key, k + 1) == full_rows_pairs(
                        v,
                        s as int,
                        key,
                        k as int,
                    ) + seg);
                    assert(now =~= full_rows_systems(views, key, s as int) + full_rows_pairs(
                        v,
                        s as int,
                        key,
                        k + 1,
                    ));
                }
            } else {
                let ((a0, b0), inverted) = sort_pair((spf, sps));
                if a0 == a && b0 == b {
                    let (ai, aj) = if inverted {
                        (p.second, p.first)
                    } else {
                        (p.first, p.second)
                    };
                    let mut row: Vec<i32> = Vec::new();
                    row.push(s as i32);
                    row.push(k as i32);
                    row.push(ai as i32);
                    row.push(aj as i32);
                    proof {
                        assert((ai, aj) == half_atoms(v, k as int));
                        assert(row@ =~= sample_row(s as int, k as int, ai as int, aj as int));
                    }
                    let ghost rowview = row@;
                    rows.push(row);
                    proof {
                        assert(rows@.map_values(|r2: Vec<i32>| r2@) =~= before.push(rowview));
                    }
                }
                proof {
                    let now = rows@.map_values(|r2: Vec<i32>| r2@);
                    if half_pair_key(v, k as int) == key {
                        assert(half_rows_pairs(v, s as int, key, k + 1) == half_rows_pairs(
                            v,
                            s as int,
                            key,
                            k as int,
                        ).push(
                            sample_row(
                                s as int,
                                k as int,
                                half_atoms(v, k as int).0 as int,
                                half_atoms(v, k as int).1 as int,
                            ),
                        ));
                        assert(now =~= half_rows_systems(views, key, s as int) + half_rows_pairs(
                            v,
                            s as int,
                            key,
                            k + 1,
                        ));
                    } else {
                        assert(half_rows_pairs(v, s as int, key, k + 1) == half_rows_pairs(
                            v,
                            s as int,
                            key,
                            k as int,
                        ));
                        assert(now =~= half_rows_systems(views, key, s as int) + half_rows_pairs(
                            v,
                            s as int,
                            key,
                            k + 1,
                        ));
                    }
                }
            }
            k += 1;
        }
        s += 1;
    }
    rows
}

} // verus!

verus! {

/// The sample labels of every key of a neighbor list, from captured data.
fn samples_from_data(data: &Vec<SystemData>, keys: &Labels, full: bool) -> (r: Vec<Labels>)
    requires
        data_wf(data@),
        crate::system::views_bounded(crate::system::data_views(data@)),
        keys.wf(),
        keys.spec_width() == 2,
    ensures
        r@.len() == keys.rows_view().len(),
        forall|b: int|
            0 <= b < r@.len() ==> (#[trigger] r@[b]).wf() && r@[b].names_view() == seq![
                "structure"@,
                "pair_id"@,
                "first_atom"@,
                "second_atom"@,
            ] && r@[b].spec_width() == 4 && r@[b].rows_view() == (if full {
                full_sample_rows(
                    crate::system::data_views(data@),
                    (keys.rows_view()[b][0], keys.rows_view()[b][1]),
                )
            } else {
                half_sample_rows(
                    crate::system::data_views(data@),
                    (keys.rows_view()[b][0], keys.rows_view()[b][1]),
                )
            }),
{
    let ghost views = crate::system::data_views(data@);
    let nk = keys.count();
    let mut out: Vec<Labels> = Vec::new();
    let mut b: usize = 0;
    while b < nk
        invariant
            nk == keys.rows_view().len(),
            b <= nk,
            b == out@.len(),
            data_wf(data@),
            crate::system::views_bounded(views),
            views == crate::system::data_views(data@),
            keys.wf(),
            keys.spec_width() == 2,
            forall|c: int|
                0 <= c < b ==> (#[trigger] out@[c]).wf() && out@[c].names_view() == seq![
                    "structure"@,
                    "pair_id"@,
                    "first_atom"@,
                    "second_atom"@,
                ] && out@[c].spec_width() == 4 && out@[c].rows_view() == (if full {
                    full_sample_rows(views, (keys.rows_view()[c][0], keys.rows_view()[c][1]))
                } else {
                    half_sample_rows(views, (keys.rows_view()[c][0], keys.rows_view()[c][1]))
                }),
        decreases nk - b,
    {
        let krow = keys.row(b);
        proof {
            assert(krow@.len() == 2);
        }
        let ka = krow[0];
        let kb = krow[1];
        let rows = collect_sample_rows(data, ka, kb, full);
        let names = sample_names();
        proof {
            let rview = rows@.map_values(|v: Vec<i32>| v@);
            if full {
                crate::system::lemma_views_wf_of_data(data@);
                lemma_full_sample_rows_shape(views, (ka, kb), views.len() as int);
            } else {
                lemma_half_sample_rows_shape(views, (ka, kb), views.len() as int);
            }
            assert(names@.len() == 4) by {
                assert(names@.map_values(|s: String| s@).len() == names@.len());
            }
            assert forall|i: int| 0 <= i < rows@.len() implies (#[trigger] rows@[i])@.len()
                == names@.len() by {
                assert(rview[i] == rows@[i]@);
            }
            assert forall|i: int, j: int| 0 <= i < j < rows@.len() implies rows@[i]@
                != rows@[j]@ by {
                assert(rview[i] == rows@[i]@ && rview[j] == rows@[j]@);
            }
        }
        let labels = Labels::from_parts(names, rows);
        out.push(labels);
        b += 1;
    }
    out
}

} // verus!

verus! {

/// Position-gradient rows contributed by sample `i` of a block: one row per
/// atom of the pair, referencing the sample by index. For a self-pair the
/// two atoms coincide and a single row is emitted.
pub open spec fn grad_rows_for_sample(rows: Seq<Seq<i32>>, i: int) -> Seq<Seq<i32>> {
    let r = rows[i];
    if r[2] == r[3] {
        seq![seq![i as i32, r[0], r[2]]]
    } else {
        seq![seq![i as i32, r[0], r[2]], seq![i as i32, r[0], r[3]]]
    }
}

/// Position-gradient rows of the first `upto` samples, in sample order.
pub open spec fn grad_rows_upto(rows: Seq<Seq<i32>>, upto: int) -> Seq<Seq<i32>>
    decreases upto,
{
    if upto <= 0 {
        Seq::empty()
    } else {
        grad_rows_upto(rows, upto - 1) + grad_rows_for_sample(rows, upto - 1)
    }
}

/// All position-gradient rows of a block's samples.
pub open spec fn gradient_sample_rows(rows: Seq<Seq<i32>>) -> Seq<Seq<i32>> {
    grad_rows_upto(rows, rows.len() as int)
}

/// The gradient rows of a block are three columns wide, reference samples in
/// range, and are pairwise distinct.
pub proof fn lemma_grad_rows_shape(rows: Seq<Seq<i32>>, upto: int)
    requires
        forall|i: int| 0 <= i < rows.len() ==> (#[trigger] rows[i]).len() == 4,
        rows.len() <= i32::MAX,
        0 <= upto <= rows.len(),
    ensures
        forall|i: int|
            0 <= i < grad_rows_upto(rows, upto).len() ==> (#[trigger] grad_rows_upto(rows, upto)[i]).len()
                == 3 && 0 <= grad_rows_upto(rows, upto)[i][0] && grad_rows_upto(rows, upto)[i][0]
                < upto,
        forall|i: int, j: int|
            0 <= i < j < grad_rows_upto(rows, upto).len() ==> grad_rows_upto(rows, upto)[i]
                != grad_rows_upto(rows, upto)[j],
    decreases upto,
{
    if upto > 0 {
        lemma_grad_rows_shape(rows, upto - 1);
        let prefix = grad_rows_upto(rows, upto - 1);
        let seg = grad_rows_for_sample(rows, upto - 1);
        let whole = grad_rows_upto(rows, upto);
        assert forall|i: int| 0 <= i < seg.len() implies (#[trigger] seg[i]).len() == 3 && seg[i][0]
            == (upto - 1) as i32 by {}
        assert forall|i: int| 0 <= i < whole.len() implies (#[trigger] whole[i]).len() == 3 && 0
            <= whole[i][0] && whole[i][0] < upto by {
            if i < prefix.len() {
                assert(whole[i] == prefix[i]);
            } else {
                assert(whole[i] == seg[i - prefix.len()]);
            }
        }
        assert forall|i: int, j: int| 0 <= i < j < whole.len() implies whole[i] != whole[j] by {
            if j < prefix.len() {
                assert(whole[i] == prefix[i] && whole[j] == prefix[j]);
            } else if i >= prefix.len() {
                assert(whole[i] == seg[i - prefix.len()] && whole[j] == seg[j - prefix.len()]);
                assert(seg.len() == 2 ==> seg[0][2] != seg[1][2]);
            } else {
                assert(whole[i] == prefix[i] && whole[j] == seg[j - prefix.len()]);
                assert(whole[i][0] < upto - 1);
                assert(whole[j][0] == (upto - 1) as i32);
            }
        }
    }
}

/// Column names of position-gradient samples.
fn gradient_sample_names() -> (r: Vec<String>)
    ensures
        r@.map_values(|s: String| s@) == seq!["sample"@, "structure"@, "atom"@],
{
    let mut v: Vec<String> = Vec::new();
    v.push("sample".to_owned());
    v.push("structure".to_owned());
    v.push("atom".to_owned());
    proof {
        assert(v@.map_values(|s: String| s@) =~= seq!["sample"@, "structure"@, "atom"@]);
    }
    v
}

/// Build the position-gradient sample labels for one block's samples: rows
/// `[sample, structure, atom]`, two per sample (one per atom of the pair),
/// one for a self-pair.
pub fn positions_gradient_labels(samples: &Labels) -> (r: Labels)
    requires
        samples.wf(),
        samples.spec_width() == 4,
        samples.rows_view().len() <= i32::MAX,
    ensures
        r.wf(),
        r.names_view() == seq!["sample"@, "structure"@, "atom"@],
        r.spec_width() == 3,
        r.rows_view() == gradient_sample_rows(samples.rows_view()),
{
    let ghost srows = samples.rows_view();
    let n = samples.count();
    let mut rows: Vec<Vec<i32>> = Vec::new();
    let mut i: usize = 0;
    proof {
        assert(rows@.map_values(|v: Vec<i32>| v@) =~= Seq::<Seq<i32>>::empty());
    }
    while i < n
        invariant
            n == srows.len(),
            i <= n,
            srows == samples.rows_view(),
            samples.wf(),
            samples.spec_width() == 4,
            n <= i32::MAX,
            rows@.map_values(|v: Vec<i32>| v@) == grad_rows_upto(srows, i as int),
        decreases n - i,
    {
        let ghost before = rows@.map_values(|v: Vec<i32>| v@);
        let srow = samples.row(i);
        proof {
            assert(srow@.len() == 4);
        }
        let mut row1: Vec<i32> = Vec::new();
        row1.push(i as i32);
        row1.push(srow[0]);
        row1.push(srow[2]);
        proof {
            assert(row1@ =~= seq![(i as int) as i32, srows[i as int][0], srows[i as int][2]]);
        }
        let ghost r1 = row1@;
        rows.push(row1);
        if srow[2] != srow[3] {
            let mut row2: Vec<i32> = Vec::new();
            row2.push(i as i32);
            row2.push(srow[0]);
            row2.push(srow[3]);
            proof {
                assert(row2@ =~= seq![(i as int) as i32, srows[i as int][0], srows[i as int][3]]);
            }
            let ghost r2 = row2@;
            rows.push(row2);
            proof {
                assert(rows@.map_values(|v: Vec<i32>| v@) =~= before.push(r1).push(r2));
                assert(before.push(r1).push(r2) =~= before + grad_rows_for_sample(
                    srows,
                    i as int,
                ));
            }
        } else {
            proof {
                assert(rows@.map_values(|v: Vec<i32>| v@) =~= before.push(r1));
                assert(before.push(r1) =~= before + grad_rows_for_sample(srows, i as int));
            }
        }
        i += 1;
    }
    let names = gradient_sample_names();
    proof {
        lemma_grad_rows_shape(srows, srows.len() as int);
        let rview = rows@.map_values(|v: Vec<i32>| v@);
        assert(names@.len() == 3) by {
            assert(names@.map_values(|s: String| s@).len() == names@.len());
        }
        assert forall|k: int| 0 <= k < rows@.len() implies (#[trigger] rows@[k])@.len()
            == names@.len() by {
            assert(rview[k] == rows@[k]@);
        }
        assert forall|k: int, j: int| 0 <= k < j < rows@.len() implies rows@[k]@
            != rows@[j]@ by {
            assert(rview[k] == rows@[k]@ && rview[j] == rows@[j]@);
        }
    }
    Labels::from_parts(names, rows)
}

} // verus!

verus! {

/// `keys` is exactly the sorted, duplicate-free list of canonical species
/// pairs occurring in `views`.
pub open spec fn half_keys_ok(keys: Labels, views: Seq<SysView>) -> bool {
    &&& keys.wf()
    &&& keys.names_view() == seq!["species_first_atom"@, "species_second_atom"@]
    &&& keys.spec_width() == 2
    &&& sorted_strict(keys.rows_view())
    &&& forall|row: Seq<i32>| #[trigger] keys.rows_view().contains(row) ==> row.len() == 2
    &&& forall|a: i32, b: i32|
        #[trigger] keys.rows_view().contains(key_row(a, b)) <==> half_key_in(views, a, b)
}

/// `keys` is exactly the sorted, duplicate-free list of species pairs
/// occurring in `views`, in both orientations.
pub open spec fn full_keys_ok(keys: Labels, views: Seq<SysView>) -> bool {
    &&& keys.wf()
    &&& keys.names_view() == seq!["species_first_atom"@, "species_second_atom"@]
    &&& keys.spec_width() == 2
    &&& sorted_strict(keys.rows_view())
    &&& forall|row: Seq<i32>| #[trigger] keys.rows_view().contains(row) ==> row.len() == 2
    &&& forall|a: i32, b: i32|
        #[trigger] keys.rows_view().contains(key_row(a, b)) <==> full_key_in(views, a, b)
}

/// `samples` holds, for each key of `keys` in order, exactly the sample rows
/// of that key over `views`.
pub open spec fn samples_ok(
    samples: Seq<Labels>,
    keys: Labels,
    views: Seq<SysView>,
    full: bool,
) -> bool {
    &&& samples.len() == keys.rows_view().len()
    &&& forall|b: int|
        0 <= b < samples.len() ==> (#[trigger] samples[b]).wf() && samples[b].names_view()
            == seq!["structure"@, "pair_id"@, "first_atom"@, "second_atom"@] && samples[b].spec_width()
            == 4 && samples[b].rows_view() == (if full {
            full_sample_rows(views, (keys.rows_view()[b][0], keys.rows_view()[b][1]))
        } else {
            half_sample_rows(views, (keys.rows_view()[b][0], keys.rows_view()[b][1]))
        })
}

/// Implementation of the half neighbor list: each unordered pair once, its
/// atoms ordered so that the species pair is canonically sorted.
pub struct HalfNeighborList {
    /// Spherical cutoff, as a binary64 bit pattern.
    pub cutoff: u64,
}

impl HalfNeighborList {
    /// The species-pair keys of the half neighbor list of a batch.
    pub fn keys<S: crate::system::System>(&self, systems: &mut Vec<S>) -> (r: Result<Labels, Error>)
        requires
            crate::bits::cutoff_is_valid(self.cutoff),
        ensures
            crate::system::systems_preserved(old(systems)@, final(systems)@),
            r matches Ok(keys) ==> half_keys_ok(
                keys,
                crate::system::views_of(old(systems)@, self.cutoff),
            ),
            r matches Err(e) ==> (e matches Error::NeighborList(_)),
    {
        let data = match crate::system::gather(systems, self.cutoff) {
            Ok(d) => d,
            Err(e) => {
                return Err(e);
            },
        };
        Ok(half_keys_from_data(&data))
    }

    /// The sample labels of each key of the half neighbor list.
    pub fn samples<S: crate::system::System>(
        &self,
        keys: &Labels,
        systems: &mut Vec<S>,
    ) -> (r: Result<Vec<Labels>, Error>)
        requires
            crate::bits::cutoff_is_valid(self.cutoff),
            crate::system::views_bounded(crate::system::views_of(systems@, self.cutoff)),
            keys.wf(),
            keys.spec_width() == 2,
        ensures
            crate::system::systems_preserved(old(systems)@, final(systems)@),
            r matches Ok(samples) ==> samples_ok(
                samples@,
                *keys,
                crate::system::views_of(old(systems)@, self.cutoff),
                false,
            ),
            r matches Err(e) ==> (e matches Error::NeighborList(_)),
    {
        let data = match crate::system::gather(systems, self.cutoff) {
            Ok(d) => d,
            Err(e) => {
                return Err(e);
            },
        };
        Ok(samples_from_data(&data, keys, false))
    }
}

/// Implementation of the full neighbor list: each pair in both orientations,
/// a self-pair (an atom paired with its own periodic image) once.
pub struct FullNeighborList {
    /// Spherical cutoff, as a binary64 bit pattern.
    pub cutoff: u64,
}

impl FullNeighborList {
    /// The species-pair keys of the full neighbor list of a batch.
    pub fn keys<S: crate::system::System>(&self, systems: &mut Vec<S>) -> (r: Result<Labels, Error>)
        requires
            crate::bits::cutoff_is_valid(self.cutoff),
        ensures
            crate::system::systems_preserved(old(systems)@, final(systems)@),
            r matches Ok(keys) ==> full_keys_ok(
                keys,
                crate::system::views_of(old(systems)@, self.cutoff),
            ),
            r matches Err(e) ==> (e matches Error::NeighborList(_)),
    {
        let data = match crate::system::gather(systems, self.cutoff) {
            Ok(d) => d,
            Err(e) => {
                return Err(e);
            },
        };
        Ok(full_keys_from_data(&data))
    }

    /// The sample labels of each key of the full neighbor list.
    pub fn samples<S: crate::system::System>(
        &self,
        keys: &Labels,
        systems: &mut Vec<S>,
    ) -> (r: Result<Vec<Labels>, Error>)
        requires
            crate::bits::cutoff_is_valid(self.cutoff),
            crate::system::views_bounded(crate::system::views_of(systems@, self.cutoff)),
            keys.wf(),
            keys.spec_width() == 2,
        ensures
            crate::system::systems_preserved(old(systems)@, final(systems)@),
            r matches Ok(samples) ==> samples_ok(
                samples@,
                *keys,
                crate::system::views_of(old(systems)@, self.cutoff),
                true,
            ),
            r matches Err(e) ==> (e matches Error::NeighborList(_)),
    {
        let data = match crate::system::gather(systems, self.cutoff) {
            Ok(d) => d,
            Err(e) => {
                return Err(e);
            },
        };
        Ok(samples_from_data(&data, keys, true))
    }
}

/// The component labels of every neighbor-list block: one `pair_direction`
/// axis with rows 0, 1, 2.
pub open spec fn is_component_labels(l: Labels) -> bool {
    &&& l.wf()
    &&& l.names_view() == seq!["pair_direction"@]
    &&& l.spec_width() == 1
    &&& l.rows_view() == seq![seq![0i32], seq![1i32], seq![2i32]]
}

/// The property labels of every neighbor-list block: one `distance` column
/// with the single row 0.
pub open spec fn is_property_labels(l: Labels) -> bool {
    &&& l.wf()
    &&& l.names_view() == seq!["distance"@]
    &&& l.spec_width() == 1
    &&& l.rows_view() == seq![seq![0i32]]
}

/// Build the `pair_direction` component labels.
pub fn component_labels() -> (r: Labels)
    ensures
        is_component_labels(r),
{
    let mut names: Vec<String> = Vec::new();
    names.push("pair_direction".to_owned());
    let mut rows: Vec<Vec<i32>> = Vec::new();
    let mut r0: Vec<i32> = Vec::new();
    r0.push(0);
    let mut r1: Vec<i32> = Vec::new();
    r1.push(1);
    let mut r2: Vec<i32> = Vec::new();
    r2.push(2);
    proof {
        assert(r0@ =~= seq![0i32]);
        assert(r1@ =~= seq![1i32]);
        assert(r2@ =~= seq![2i32]);
    }
    rows.push(r0);
    rows.push(r1);
    rows.push(r2);
    proof {
        assert(names@.map_values(|s: String| s@) =~= seq!["pair_direction"@]);
        assert(rows@.len() == 3);
        assert(rows@[0]@ == seq![0i32] && rows@[1]@ == seq![1i32] && rows@[2]@ == seq![2i32]);
        assert(rows@[0]@[0] == 0i32 && rows@[1]@[0] == 1i32 && rows@[2]@[0] == 2i32);
        assert(rows@[0]@ != rows@[1]@ && rows@[0]@ != rows@[2]@ && rows@[1]@ != rows@[2]@);
    }
    let l = Labels::from_parts(names, rows);
    proof {
        assert(l.rows_view() =~= seq![seq![0i32], seq![1i32], seq![2i32]]);
    }
    l
}

/// Build the `distance` property labels.
pub fn property_labels() -> (r: Labels)
    ensures
        is_property_labels(r),
{
    let mut names: Vec<String> = Vec::new();
    names.push("distance".to_owned());
    let mut rows: Vec<Vec<i32>> = Vec::new();
    let mut r0: Vec<i32> = Vec::new();
    r0.push(0);
    proof {
        assert(r0@ =~= seq![0i32]);
    }
    rows.push(r0);
    proof {
        assert(names@.map_values(|s: String| s@) =~= seq!["distance"@]);
        assert(rows@.len() == 1);
        assert(rows@[0]@ == seq![0i32]);
    }
    let l = Labels::from_parts(names, rows);
    proof {
        assert(l.rows_view() =~= seq![seq![0i32]]);
    }
    l
}

/// The neighbor-list calculator: computes, for a given spherical cutoff, the
/// list of distance vectors between all pairs of atoms strictly inside the
/// cutoff, as a block-structured tensor keyed by species pairs.
///
/// Self pairs (pairs between an atom and a periodic copy of itself) can
/// appear when the cutoff is larger than the cell; self pairs at distance
/// zero are excluded by the systems. Each block carries one `distance`
/// property with three `pair_direction` components holding the x, y and z
/// components of the pair vector; samples also carry a pair index to tell
/// apart multiple pairs between the same atoms.
#[derive(Debug, Clone, PartialEq, Eq, Structural)]
pub struct NeighborList {
    /// Spherical cutoff used to decide whether two atoms are neighbors, as a
    /// binary64 bit pattern.
    pub cutoff: u64,
    /// Emit a full neighbor list (each pair twice, once as `i j` and once as
    /// `j i`) instead of a half neighbor list (each pair once)?
    pub full_neighbor_list: bool,
}

impl NeighborList {
    /// The name of this calculator.
    pub fn name(&self) -> (r: String)
        ensures
            r@ == "neighbors list"@,
    {
        "neighbors list".to_owned()
    }

    /// The species-pair keys of the neighbor list of a batch.
    pub fn keys<S: crate::system::System>(&self, systems: &mut Vec<S>) -> (r: Result<Labels, Error>)
        requires
            crate::bits::cutoff_is_valid(self.cutoff),
        ensures
            crate::system::systems_preserved(old(systems)@, final(systems)@),
            r matches Ok(keys) ==> (if self.full_neighbor_list {
                full_keys_ok(keys, crate::system::views_of(old(systems)@, self.cutoff))
            } else {
                half_keys_ok(keys, crate::system::views_of(old(systems)@, self.cutoff))
            }),
            r matches Err(e) ==> (e matches Error::NeighborList(_)),
    {
        if self.full_neighbor_list {
            let inner = FullNeighborList { cutoff: self.cutoff };
            inner.keys(systems)
        } else {
            let inner = HalfNeighborList { cutoff: self.cutoff };
            inner.keys(systems)
        }
    }

    /// Names of the sample columns of every block.
    pub fn samples_names(&self) -> (r: Vec<String>)
        ensures
            r@.map_values(|s: String| s@) == seq![
                "structure"@,
                "pair_id"@,
                "first_atom"@,
                "second_atom"@,
            ],
    {
        sample_names()
    }

    /// The sample labels of each key of the neighbor list.
    pub fn samples<S: crate::system::System>(
        &self,
        keys: &Labels,
        systems: &mut Vec<S>,
    ) -> (r: Result<Vec<Labels>, Error>)
        requires
            crate::bits::cutoff_is_valid(self.cutoff),
            crate::system::views_bounded(crate::system::views_of(systems@, self.cutoff)),
            keys.wf(),
            keys.spec_width() == 2,
        ensures
            crate::system::systems_preserved(old(systems)@, final(systems)@),
            r matches Ok(samples) ==> samples_ok(
                samples@,
                *keys,
                crate::system::views_of(old(systems)@, self.cutoff),
                self.full_neighbor_list,
            ),
            r matches Err(e) ==> (e matches Error::NeighborList(_)),
    {
        if self.full_neighbor_list {
            let inner = FullNeighborList { cutoff: self.cutoff };
            inner.samples(keys, systems)
        } else {
            let inner = HalfNeighborList { cutoff: self.cutoff };
            inner.samples(keys, systems)
        }
    }

    /// Does this calculator compute gradients with respect to `parameter`?
    /// Only position gradients are supported.
    pub fn supports_gradient(&self, parameter: &str) -> (r: bool)
        ensures
            r == (parameter@ == "positions"@),
    {
        let p = parameter.to_owned();
        let q = "positions".to_owned();
        p == q
    }

    /// The position-gradient sample labels matching each block's samples.
    pub fn positions_gradient_samples(&self, samples: &Vec<Labels>) -> (r: Vec<Labels>)
        requires
            forall|b: int|
                0 <= b < samples@.len() ==> (#[trigger] samples@[b]).wf()
                    && samples@[b].spec_width() == 4 && samples@[b].rows_view().len() <= i32::MAX,
        ensures
            r@.len() == samples@.len(),
            forall|b: int|
                0 <= b < r@.len() ==> (#[trigger] r@[b]).wf() && r@[b].names_view() == seq![
                    "sample"@,
                    "structure"@,
                    "atom"@,
                ] && r@[b].spec_width() == 3 && r@[b].rows_view() == gradient_sample_rows(
                    samples@[b].rows_view(),
                ),
    {
        let n = samples.len();
        let mut out: Vec<Labels> = Vec::new();
        let mut b: usize = 0;
        while b < n
            invariant
                n == samples@.len(),
                b <= n,
                b == out@.len(),
                forall|c: int|
                    0 <= c < samples@.len() ==> (#[trigger] samples@[c]).wf()
                        && samples@[c].spec_width() == 4 && samples@[c].rows_view().len()
                        <= i32::MAX,
                forall|c: int|
                    0 <= c < b ==> (#[trigger] out@[c]).wf() && out@[c].names_view() == seq![
                        "sample"@,
                        "structure"@,
                        "atom"@,
                    ] && out@[c].spec_width() == 3 && out@[c].rows_view() == gradient_sample_rows(
                        samples@[c].rows_view(),
                    ),
            decreases n - b,
        {
            let labels = positions_gradient_labels(&samples[b]);
            out.push(labels);
            b += 1;
        }
        out
    }

    /// The component labels of each block: one `pair_direction` axis with
    /// rows 0, 1, 2.
    pub fn components(&self, keys: &Labels) -> (r: Vec<Vec<Labels>>)
        ensures
            r@.len() == keys.rows_view().len(),
            forall|b: int|
                0 <= b < r@.len() ==> (#[trigger] r@[b])@.len() == 1 && is_component_labels(
                    r@[b]@[0],
                ),
    {
        let n = keys.count();
        let mut out: Vec<Vec<Labels>> = Vec::new();
        let mut b: usize = 0;
        while b < n
            invariant
                b <= n,
                b == out@.len(),
                forall|c: int|
                    0 <= c < b ==> (#[trigger] out@[c])@.len() == 1 && is_component_labels(
                        out@[c]@[0],
                    ),
            decreases n - b,
        {
            let mut one: Vec<Labels> = Vec::new();
            one.push(component_labels());
            out.push(one);
            b += 1;
        }
        out
    }

    /// Names of the property columns of every block.
    pub fn properties_names(&self) -> (r: Vec<String>)
        ensures
            r@.map_values(|s: String| s@) == seq!["distance"@],
    {
        let mut v: Vec<String> = Vec::new();
        v.push("distance".to_owned());
        proof {
            assert(v@.map_values(|s: String| s@) =~= seq!["distance"@]);
        }
        v
    }

    /// The property labels of each block: one `distance` column with row 0.
    pub fn properties(&self, keys: &Labels) -> (r: Vec<Labels>)
        ensures
            r@.len() == keys.rows_view().len(),
            forall|b: int| 0 <= b < r@.len() ==> is_property_labels(#[trigger] r@[b]),
    {
        let n = keys.count();
        let mut out: Vec<Labels> = Vec::new();
        let mut b: usize = 0;
        while b < n
            invariant
                b <= n,
                b == out@.len(),
                forall|c: int| 0 <= c < b ==> is_property_labels(#[trigger] out@[c]),
            decreases n - b,
        {
            out.push(property_labels());
            b += 1;
        }
        out
    }
}

} // verus!

verus! {

/// Bit pattern of binary64 one.
pub const ONE_BITS: u64 = 0x3FF0_0000_0000_0000;

/// Bit pattern of binary64 minus one.
pub const MINUS_ONE_BITS: u64 = 0xBFF0_0000_0000_0000;

/// A three-axis tensor index.
pub open spec fn idx3(i: int, c: int, p: int) -> Seq<int> {
    seq![i, c, p]
}

/// A four-axis tensor index.
pub open spec fn idx4(i: int, c1: int, c2: int, p: int) -> Seq<int> {
    seq![i, c1, c2, p]
}

/// The one-column row `[0]`.
pub open spec fn zero_row() -> Seq<i32> {
    seq![0i32]
}

/// The structure and pair columns of `row` address a pair of the batch.
pub open spec fn sample_in_range(views: Seq<SysView>, row: Seq<i32>) -> bool {
    &&& row.len() == 4
    &&& 0 <= row[0]
    &&& (row[0] as int) < views.len()
    &&& 0 <= row[1]
    &&& (row[1] as int) < views[row[0] as int].pairs.len()
}

/// The half-list value of the sample `row` in the block keyed `keyrow`: the
/// canonicalised pair vector when the row is exactly the canonical sample of
/// the pair it addresses under that key, nothing otherwise.
pub open spec fn half_entry(views: Seq<SysView>, keyrow: Seq<i32>, row: Seq<i32>) -> Option<
    crate::bits::Vector3Bits,
> {
    if sample_in_range(views, row) {
        let v = views[row[0] as int];
        let k = row[1] as int;
        let key = half_pair_key(v, k);
        let atoms = half_atoms(v, k);
        if keyrow == key_row(key.0, key.1) && row == sample_row(
            row[0] as int,
            k,
            atoms.0 as int,
            atoms.1 as int,
        ) {
            if half_pair_inverted(v, k) {
                Some(crate::bits::spec_neg_vector(v.pairs[k].vector))
            } else {
                Some(v.pairs[k].vector)
            }
        } else {
            None
        }
    } else {
        None
    }
}

/// The full-list value of the sample `row` in the block keyed `keyrow`: the
/// pair vector for the forward orientation, its negation for the reverse
/// orientation, nothing otherwise. A self-pair only has the forward
/// orientation.
pub open spec fn full_entry(views: Seq<SysView>, keyrow: Seq<i32>, row: Seq<i32>) -> Option<
    crate::bits::Vector3Bits,
> {
    if sample_in_range(views, row) {
        let v = views[row[0] as int];
        let k = row[1] as int;
        let p = v.pairs[k];
        let spf = pair_species_first(v, k);
        let sps = pair_species_second(v, k);
        if keyrow == key_row(spf, sps) && row == sample_row(
            row[0] as int,
            k,
            p.first as int,
            p.second as int,
        ) {
            Some(p.vector)
        } else if keyrow == key_row(sps, spf) && row == sample_row(
            row[0] as int,
            k,
            p.second as int,
            p.first as int,
        ) {
            Some(crate::bits::spec_neg_vector(p.vector))
        } else {
            None
        }
    } else {
        None
    }
}

/// The value of a sample row under the chosen list convention.
pub open spec fn list_entry(
    views: Seq<SysView>,
    keyrow: Seq<i32>,
    row: Seq<i32>,
    full: bool,
) -> Option<crate::bits::Vector3Bits> {
    if full {
        full_entry(views, keyrow, row)
    } else {
        half_entry(views, keyrow, row)
    }
}

/// What compute leaves in one values entry: for the `[0]` property row of a
/// sample whose entry exists, the requested component of the pair vector;
/// everything else keeps its previous value.
pub open spec fn value_after(
    views: Seq<SysView>,
    keyrow: Seq<i32>,
    srow: Seq<i32>,
    prow: Seq<i32>,
    c: int,
    previous: u64,
    full: bool,
) -> u64 {
    if prow == zero_row() {
        match list_entry(views, keyrow, srow, full) {
            Some(vec) => crate::bits::vector_component(vec, c),
            None => previous,
        }
    } else {
        previous
    }
}

/// The sign a gradient row receives: `Some(true)` for the `+1` diagonal of
/// the second atom, `Some(false)` for the `-1` diagonal of the first atom,
/// `None` for a row compute does not touch. The second atom is checked
/// first: for a self-pair both atoms name one gradient row and the `+1`
/// write lands last.
pub open spec fn grad_entry(
    views: Seq<SysView>,
    keyrow: Seq<i32>,
    sample_rows: Seq<Seq<i32>>,
    grow: Seq<i32>,
    full: bool,
) -> Option<bool> {
    if grow.len() == 3 && 0 <= grow[0] && (grow[0] as int) < sample_rows.len() {
        let srow = sample_rows[grow[0] as int];
        if list_entry(views, keyrow, srow, full) is Some {
            if grow == seq![grow[0], srow[0], srow[3]] {
                Some(true)
            } else if grow == seq![grow[0], srow[0], srow[2]] {
                Some(false)
            } else {
                None
            }
        } else {
            None
        }
    } else {
        None
    }
}

/// What compute leaves in one gradient entry: `±1` on the diagonal of the
/// gradient rows of a written sample, everything else untouched. Gradients
/// are only written when the values hold the `[0]` property.
pub open spec fn grad_after(
    views: Seq<SysView>,
    keyrow: Seq<i32>,
    sample_rows: Seq<Seq<i32>>,
    vprops: Seq<Seq<i32>>,
    grow: Seq<i32>,
    prow: Seq<i32>,
    c1: int,
    c2: int,
    previous: u64,
    full: bool,
) -> u64 {
    if vprops.contains(zero_row()) && prow == zero_row() {
        match grad_entry(views, keyrow, sample_rows, grow, full) {
            Some(sign) => if c1 == c2 {
                if sign {
                    ONE_BITS
                } else {
                    MINUS_ONE_BITS
                }
            } else {
                previous
            },
            None => previous,
        }
    } else {
        previous
    }
}

/// The `spatial` gradient component labels: the direction of derivation.
pub open spec fn is_spatial_labels(l: Labels) -> bool {
    &&& l.wf()
    &&& l.names_view() == seq!["spatial"@]
    &&& l.spec_width() == 1
    &&& l.rows_view() == seq![seq![0i32], seq![1i32], seq![2i32]]
}

/// Build the `spatial` gradient component labels.
pub fn spatial_labels() -> (r: Labels)
    ensures
        is_spatial_labels(r),
{
    let mut names: Vec<String> = Vec::new();
    names.push("spatial".to_owned());
    let mut rows: Vec<Vec<i32>> = Vec::new();
    let mut r0: Vec<i32> = Vec::new();
    r0.push(0);
    let mut r1: Vec<i32> = Vec::new();
    r1.push(1);
    let mut r2: Vec<i32> = Vec::new();
    r2.push(2);
    proof {
        assert(r0@ =~= seq![0i32]);
        assert(r1@ =~= seq![1i32]);
        assert(r2@ =~= seq![2i32]);
    }
    rows.push(r0);
    rows.push(r1);
    rows.push(r2);
    proof {
        assert(names@.map_values(|s: String| s@) =~= seq!["spatial"@]);
        assert(rows@.len() == 3);
        assert(rows@[0]@ == seq![0i32] && rows@[1]@ == seq![1i32] && rows@[2]@ == seq![2i32]);
        assert(rows@[0]@[0] == 0i32 && rows@[1]@[0] == 1i32 && rows@[2]@[0] == 2i32);
        assert(rows@[0]@ != rows@[1]@ && rows@[0]@ != rows@[2]@ && rows@[1]@ != rows@[2]@);
    }
    let l = Labels::from_parts(names, rows);
    proof {
        assert(l.rows_view() =~= seq![seq![0i32], seq![1i32], seq![2i32]]);
    }
    l
}

/// The shape this calculator gives its blocks: one `pair_direction`
/// component axis on the values; on the gradient a `spatial` axis and a
/// `pair_direction` axis, and three-column samples. Sample counts fit in a
/// label entry.
pub open spec fn nl_block_shape(bl: crate::tensormap::Block) -> bool {
    &&& bl.values.components@.len() == 1
    &&& is_component_labels(bl.values.components@[0])
    &&& bl.values.samples.spec_width() == 4
    &&& bl.values.samples.rows_view().len() <= i32::MAX
    &&& (bl.positions_gradient matches Some(g) ==> g.components@.len() == 2 && is_spatial_labels(
        g.components@[0],
    ) && is_component_labels(g.components@[1]) && g.samples.spec_width() == 3)
}

/// Every block of the descriptor has the calculator's shape.
pub open spec fn nl_shape(t: crate::tensormap::TensorMap) -> bool {
    forall|b: int|
        0 <= b < t.spec_blocks().len() ==> nl_block_shape(#[trigger] t.spec_blocks()[b])
}

/// The two blocks agree on everything but tensor entries.
pub open spec fn block_structure_preserved(
    b1: crate::tensormap::Block,
    b2: crate::tensormap::Block,
) -> bool {
    &&& b2.values.samples == b1.values.samples
    &&& b2.values.components@ == b1.values.components@
    &&& b2.values.properties == b1.values.properties
    &&& b2.values.data.spec_shape() == b1.values.data.spec_shape()
    &&& (match (b1.positions_gradient, b2.positions_gradient) {
        (Some(g1), Some(g2)) => g2.samples == g1.samples && g2.components@ == g1.components@
            && g2.properties == g1.properties && g2.data.spec_shape() == g1.data.spec_shape(),
        (None, None) => true,
        _ => false,
    })
}

/// The two descriptors agree on keys and on every block's labels and shapes.
pub open spec fn descriptor_structure_preserved(
    t1: crate::tensormap::TensorMap,
    t2: crate::tensormap::TensorMap,
) -> bool {
    &&& t2.spec_keys() == t1.spec_keys()
    &&& t2.spec_blocks().len() == t1.spec_blocks().len()
    &&& forall|b: int|
        0 <= b < t1.spec_blocks().len() ==> block_structure_preserved(
            t1.spec_blocks()[b],
            #[trigger] t2.spec_blocks()[b],
        )
}

} // verus!

verus! {

/// Every species pair that compute will look up is a key of `keys`.
pub open spec fn keys_complete(views: Seq<SysView>, keys: Labels, full: bool) -> bool {
    forall|s: int, k: int|
        0 <= s < views.len() && 0 <= k < views[s].pairs.len() ==> (if full {
            keys.rows_view().contains(
                #[trigger] key_row(pair_species_first(views[s], k), pair_species_second(views[s], k)),
            ) && keys.rows_view().contains(
                key_row(pair_species_second(views[s], k), pair_species_first(views[s], k)),
            )
        } else {
            keys.rows_view().contains(
                #[trigger] key_row(half_pair_key(views[s], k).0, half_pair_key(views[s], k).1),
            )
        })
}

/// Every gradient row that compute will look up is present: for each block
/// with a gradient and each sample row whose entry exists, the gradient
/// samples hold the rows of both atoms of the pair.
pub open spec fn grads_complete(
    views: Seq<SysView>,
    t: crate::tensormap::TensorMap,
    full: bool,
) -> bool {
    forall|b: int, i: int|
        0 <= b < t.spec_blocks().len() && t.spec_blocks()[b].positions_gradient is Some && 0 <= i
            < t.spec_blocks()[b].values.samples.rows_view().len() && list_entry(
            views,
            t.spec_keys().rows_view()[b],
            #[trigger] t.spec_blocks()[b].values.samples.rows_view()[i],
            full,
        ) is Some ==> {
            let srow = t.spec_blocks()[b].values.samples.rows_view()[i];
            let grows = t.spec_blocks()[b].positions_gradient.unwrap().samples.rows_view();
            grows.contains(seq![i as i32, srow[0], srow[2]]) && grows.contains(
                seq![i as i32, srow[0], srow[3]],
            )
        }
}

/// The values entries of `tnew` once the pairs strictly before system `s`,
/// pair `k` have been applied to `told`.
pub open spec fn values_state(
    told: crate::tensormap::TensorMap,
    tnew: crate::tensormap::TensorMap,
    views: Seq<SysView>,
    s: int,
    k: int,
    full: bool,
) -> bool {
    forall|b: int, i: int, c: int, p: int|
        0 <= b < told.spec_blocks().len() && crate::tensor::valid_index(
            told.spec_blocks()[b].values.data.spec_shape(),
            idx3(i, c, p),
        ) ==> #[trigger] tnew.spec_blocks()[b].values.data.at(idx3(i, c, p)) == {
            let srow = told.spec_blocks()[b].values.samples.rows_view()[i];
            let keyrow = told.spec_keys().rows_view()[b];
            let prow = told.spec_blocks()[b].values.properties.rows_view()[p];
            let previous = told.spec_blocks()[b].values.data.at(idx3(i, c, p));
            if sample_in_range(views, srow) && ((srow[0] as int) < s || ((srow[0] as int) == s && (
            srow[1] as int) < k)) {
                value_after(views, keyrow, srow, prow, c, previous, full)
            } else {
                previous
            }
        }
}

/// The gradient entries of `tnew` once the pairs strictly before system
/// `s`, pair `k` have been applied to `told`.
pub open spec fn grads_state(
    told: crate::tensormap::TensorMap,
    tnew: crate::tensormap::TensorMap,
    views: Seq<SysView>,
    s: int,
    k: int,
    full: bool,
) -> bool {
    forall|b: int, j: int, c1: int, c2: int, p: int|
        0 <= b < told.spec_blocks().len() && told.spec_blocks()[b].positions_gradient is Some
            && crate::tensor::valid_index(
            told.spec_blocks()[b].positions_gradient.unwrap().data.spec_shape(),
            idx4(j, c1, c2, p),
        ) ==> #[trigger] tnew.spec_blocks()[b].positions_gradient.unwrap().data.at(
            idx4(j, c1, c2, p),
        ) == {
            let g = told.spec_blocks()[b].positions_gradient.unwrap();
            let srows = told.spec_blocks()[b].values.samples.rows_view();
            let keyrow = told.spec_keys().rows_view()[b];
            let grow = g.samples.rows_view()[j];
            let previous = g.data.at(idx4(j, c1, c2, p));
            if grow.len() == 3 && 0 <= grow[0] && (grow[0] as int) < srows.len() && sample_in_range(
                views,
                srows[grow[0] as int],
            ) && ((srows[grow[0] as int][0] as int) < s || ((srows[grow[0] as int][0] as int) == s
                && (srows[grow[0] as int][1] as int) < k)) {
                grad_after(
                    views,
                    keyrow,
                    srows,
                    told.spec_blocks()[b].values.properties.rows_view(),
                    grow,
                    g.properties.rows_view()[p],
                    c1,
                    c2,
                    previous,
                    full,
                )
            } else {
                previous
            }
        }
}

/// Build a three-axis index vector.
fn idx3v(i: usize, c: usize, p: usize) -> (r: Vec<usize>)
    ensures
        r@.map_values(|x: usize| x as int) == idx3(i as int, c as int, p as int),
{
    let mut v: Vec<usize> = Vec::new();
    v.push(i);
    v.push(c);
    v.push(p);
    proof {
        assert(v@.map_values(|x: usize| x as int) =~= idx3(i as int, c as int, p as int));
    }
    v
}

/// Build a four-axis index vector.
fn idx4v(i: usize, c1: usize, c2: usize, p: usize) -> (r: Vec<usize>)
    ensures
        r@.map_values(|x: usize| x as int) == idx4(i as int, c1 as int, c2 as int, p as int),
{
    let mut v: Vec<usize> = Vec::new();
    v.push(i);
    v.push(c1);
    v.push(c2);
    v.push(p);
    proof {
        assert(v@.map_values(|x: usize| x as int) =~= idx4(
            i as int,
            c1 as int,
            c2 as int,
            p as int,
        ));
    }
    v
}

} // verus!

verus! {

/// Write the three components of a pair vector into the `p0`-th property
/// column of sample `i` of block `b`. Everything else is kept.
fn write_values(
    descriptor: &mut crate::tensormap::TensorMap,
    b: usize,
    i: usize,
    p0: usize,
    vec: crate::bits::Vector3Bits,
)
    requires
        old(descriptor).wf(),
        b < old(descriptor).spec_blocks().len(),
        nl_block_shape(old(descriptor).spec_blocks()[b as int]),
        i < old(descriptor).spec_blocks()[b as int].values.samples.rows_view().len(),
        p0 < old(descriptor).spec_blocks()[b as int].values.properties.rows_view().len(),
    ensures
        final(descriptor).wf(),
        final(descriptor).spec_keys() == old(descriptor).spec_keys(),
        final(descriptor).spec_blocks().len() == old(descriptor).spec_blocks().len(),
        forall|b2: int|
            0 <= b2 < old(descriptor).spec_blocks().len() && b2 != b
                ==> #[trigger] final(descriptor).spec_blocks()[b2] == old(descriptor).spec_blocks()[b2],
        block_structure_preserved(
            old(descriptor).spec_blocks()[b as int],
            final(descriptor).spec_blocks()[b as int],
        ),
        final(descriptor).spec_blocks()[b as int].positions_gradient == old(descriptor).spec_blocks()[b as int].positions_gradient,
        forall|c: int|
            0 <= c < 3 ==> #[trigger] final(descriptor).spec_blocks()[b as int].values.data.at(
                idx3(i as int, c, p0 as int),
            ) == crate::bits::vector_component(vec, c),
        forall|i2: int, c2: int, p2: int|
            crate::tensor::valid_index(
                old(descriptor).spec_blocks()[b as int].values.data.spec_shape(),
                idx3(i2, c2, p2),
            ) && !(i2 == i && p2 == p0) ==> #[trigger] final(descriptor).spec_blocks()[b as int].values.data.at(
                idx3(i2, c2, p2),
            ) == old(descriptor).spec_blocks()[b as int].values.data.at(idx3(i2, c2, p2)),
{
    let idx0 = idx3v(i, 0, p0);
    let idx1 = idx3v(i, 1, p0);
    let idx2 = idx3v(i, 2, p0);
    proof {
        crate::tensormap::lemma_block3_shape(old(descriptor).spec_blocks()[b as int].values);
    }
    let block = descriptor.block_mut_by_id(b);
    proof {
        let shape = block.values.data.spec_shape();
        assert(shape[1] == 3);
        assert(crate::tensor::valid_index(shape, idx3(i as int, 0, p0 as int)));
        assert(crate::tensor::valid_index(shape, idx3(i as int, 1, p0 as int)));
        assert(crate::tensor::valid_index(shape, idx3(i as int, 2, p0 as int)));
    }
    block.values.set_entry(&idx0, vec.x);
    block.values.set_entry(&idx1, vec.y);
    block.values.set_entry(&idx2, vec.z);
    proof {
        assert(idx3(i as int, 0, p0 as int)[1] == 0 && idx3(i as int, 1, p0 as int)[1] == 1 && idx3(
            i as int,
            2,
            p0 as int,
        )[1] == 2);
        assert(idx3(i as int, 0, p0 as int) != idx3(i as int, 1, p0 as int));
        assert(idx3(i as int, 0, p0 as int) != idx3(i as int, 2, p0 as int));
        assert(idx3(i as int, 1, p0 as int) != idx3(i as int, 2, p0 as int));
        assert forall|i2: int, c2: int, p2: int|
            crate::tensor::valid_index(block.values.data.spec_shape(), idx3(i2, c2, p2)) && !(i2
                == i && p2 == p0) implies #[trigger] block.values.data.at(idx3(i2, c2, p2)) == old(
            descriptor,
        ).spec_blocks()[b as int].values.data.at(idx3(i2, c2, p2)) by {
            assert(idx3(i2, c2, p2)[0] == i2 && idx3(i2, c2, p2)[2] == p2);
            assert(idx3(i2, c2, p2) != idx3(i as int, 0, p0 as int));
            assert(idx3(i2, c2, p2) != idx3(i as int, 1, p0 as int));
            assert(idx3(i2, c2, p2) != idx3(i as int, 2, p0 as int));
        }
    }
}

/// Write the diagonal `-1` of the first atom's gradient row `gneg`, then
/// the diagonal `+1` of the second atom's gradient row `gpos`, into the
/// `gp0`-th property column of the gradient of block `b`. For a self-pair
/// the rows coincide and the `+1` written last wins.
fn write_gradient_pair(
    descriptor: &mut crate::tensormap::TensorMap,
    b: usize,
    gneg: usize,
    gpos: usize,
    gp0: usize,
)
    requires
        old(descriptor).wf(),
        b < old(descriptor).spec_blocks().len(),
        nl_block_shape(old(descriptor).spec_blocks()[b as int]),
        old(descriptor).spec_blocks()[b as int].positions_gradient is Some,
        gneg < old(descriptor).spec_blocks()[b as int].positions_gradient.unwrap().samples.rows_view().len(),
        gpos < old(descriptor).spec_blocks()[b as int].positions_gradient.unwrap().samples.rows_view().len(),
        gp0 < old(descriptor).spec_blocks()[b as int].positions_gradient.unwrap().properties.rows_view().len(),
    ensures
        final(descriptor).wf(),
        final(descriptor).spec_keys() == old(descriptor).spec_keys(),
        final(descriptor).spec_blocks().len() == old(descriptor).spec_blocks().len(),
        forall|b2: int|
            0 <= b2 < old(descriptor).spec_blocks().len() && b2 != b
                ==> #[trigger] final(descriptor).spec_blocks()[b2] == old(descriptor).spec_blocks()[b2],
        block_structure_preserved(
            old(descriptor).spec_blocks()[b as int],
            final(descriptor).spec_blocks()[b as int],
        ),
        final(descriptor).spec_blocks()[b as int].values == old(descriptor).spec_blocks()[b as int].values,
        final(descriptor).spec_blocks()[b as int].positions_gradient is Some,
        forall|d: int|
            0 <= d < 3 ==> #[trigger] final(descriptor).spec_blocks()[b as int].positions_gradient.unwrap().data.at(
                idx4(gpos as int, d, d, gp0 as int),
            ) == ONE_BITS,
        gneg != gpos ==> forall|d: int|
            0 <= d < 3 ==> #[trigger] final(descriptor).spec_blocks()[b as int].positions_gradient.unwrap().data.at(
                idx4(gneg as int, d, d, gp0 as int),
            ) == MINUS_ONE_BITS,
        forall|j: int, c1: int, c2: int, p: int|
            crate::tensor::valid_index(
                old(descriptor).spec_blocks()[b as int].positions_gradient.unwrap().data.spec_shape(),
                idx4(j, c1, c2, p),
            ) && !((j == gneg || j == gpos) && c1 == c2 && p == gp0) ==> #[trigger] final(descriptor).spec_blocks()[b as int].positions_gradient.unwrap().data.at(
                idx4(j, c1, c2, p),
            ) == old(descriptor).spec_blocks()[b as int].positions_gradient.unwrap().data.at(
                idx4(j, c1, c2, p),
            ),
{
    let in0 = idx4v(gneg, 0, 0, gp0);
    let in1 = idx4v(gneg, 1, 1, gp0);
    let in2 = idx4v(gneg, 2, 2, gp0);
    let ip0 = idx4v(gpos, 0, 0, gp0);
    let ip1 = idx4v(gpos, 1, 1, gp0);
    let ip2 = idx4v(gpos, 2, 2, gp0);
    proof {
        crate::tensormap::lemma_block4_shape(
            old(descriptor).spec_blocks()[b as int].positions_gradient.unwrap(),
        );
    }
    let block = descriptor.block_mut_by_id(b);
    if let Some(g) = &mut block.positions_gradient {
        proof {
            let shape = g.data.spec_shape();
            assert(shape[1] == 3 && shape[2] == 3);
            assert(crate::tensor::valid_index(shape, idx4(gneg as int, 0, 0, gp0 as int)));
            assert(crate::tensor::valid_index(shape, idx4(gneg as int, 1, 1, gp0 as int)));
            assert(crate::tensor::valid_index(shape, idx4(gneg as int, 2, 2, gp0 as int)));
            assert(crate::tensor::valid_index(shape, idx4(gpos as int, 0, 0, gp0 as int)));
            assert(crate::tensor::valid_index(shape, idx4(gpos as int, 1, 1, gp0 as int)));
            assert(crate::tensor::valid_index(shape, idx4(gpos as int, 2, 2, gp0 as int)));
        }
        g.set_entry(&in0, MINUS_ONE_BITS);
        g.set_entry(&in1, MINUS_ONE_BITS);
        g.set_entry(&in2, MINUS_ONE_BITS);
        g.set_entry(&ip0, ONE_BITS);
        g.set_entry(&ip1, ONE_BITS);
        g.set_entry(&ip2, ONE_BITS);
        proof {
            assert forall|d1: int, d2: int, e1: int, e2: int, j1: int, j2: int|
                !(j1 == j2 && d1 == e1 && d2 == e2) implies idx4(j1, d1, d2, gp0 as int) != idx4(
                j2,
                e1,
                e2,
                gp0 as int,
            ) by {
                assert(idx4(j1, d1, d2, gp0 as int)[0] == j1 && idx4(j1, d1, d2, gp0 as int)[1]
                    == d1 && idx4(j1, d1, d2, gp0 as int)[2] == d2);
                assert(idx4(j2, e1, e2, gp0 as int)[0] == j2 && idx4(j2, e1, e2, gp0 as int)[1]
                    == e1 && idx4(j2, e1, e2, gp0 as int)[2] == e2);
            }
            assert forall|j: int, c1: int, c2: int, p: int|
                crate::tensor::valid_index(g.data.spec_shape(), idx4(j, c1, c2, p)) && !((j == gneg
                    || j == gpos) && c1 == c2 && p == gp0) implies #[trigger] g.data.at(
                idx4(j, c1, c2, p),
            ) == old(descriptor).spec_blocks()[b as int].positions_gradient.unwrap().data.at(
                idx4(j, c1, c2, p),
            ) by {
                assert(idx4(j, c1, c2, p)[0] == j && idx4(j, c1, c2, p)[1] == c1 && idx4(
                    j,
                    c1,
                    c2,
                    p,
                )[2] == c2 && idx4(j, c1, c2, p)[3] == p);
                assert(idx4(j, c1, c2, p) != idx4(gneg as int, 0, 0, gp0 as int));
                assert(idx4(j, c1, c2, p) != idx4(gneg as int, 1, 1, gp0 as int));
                assert(idx4(j, c1, c2, p) != idx4(gneg as int, 2, 2, gp0 as int));
                assert(idx4(j, c1, c2, p) != idx4(gpos as int, 0, 0, gp0 as int));
                assert(idx4(j, c1, c2, p) != idx4(gpos as int, 1, 1, gp0 as int));
                assert(idx4(j, c1, c2, p) != idx4(gpos as int, 2, 2, gp0 as int));
            }
        }
    }
}

} // verus!

verus! {

/// Build a two-entry label row.
fn two_row(a: i32, b: i32) -> (r: Vec<i32>)
    ensures
        r@ == key_row(a, b),
{
    let mut v: Vec<i32> = Vec::new();
    v.push(a);
    v.push(b);
    proof {
        assert(v@ =~= key_row(a, b));
    }
    v
}

/// Build a three-entry label row.
fn three_row(a: i32, b: i32, c: i32) -> (r: Vec<i32>)
    ensures
        r@ == seq![a, b, c],
{
    let mut v: Vec<i32> = Vec::new();
    v.push(a);
    v.push(b);
    v.push(c);
    proof {
        assert(v@ =~= seq![a, b, c]);
    }
    v
}

/// Build the one-entry row `[0]`.
fn zero_row_vec() -> (r: Vec<i32>)
    ensures
        r@ == zero_row(),
{
    let mut v: Vec<i32> = Vec::new();
    v.push(0);
    proof {
        assert(v@ =~= zero_row());
    }
    v
}

/// Fill the value and gradient entries that one oriented pair sample owes:
/// the pair vector across the components of its sample row, and `∓1`
/// diagonals on the gradient rows of its two atoms. A sample or property
/// row that the descriptor does not carry is skipped; a missing block or a
/// missing gradient row is an invariant violation and aborts the call.
fn apply_orientation(
    descriptor: &mut crate::tensormap::TensorMap,
    keyv: &Vec<i32>,
    rowv: &Vec<i32>,
    vecv: crate::bits::Vector3Bits,
    Ghost(views): Ghost<Seq<SysView>>,
    full: bool,
) -> (r: Result<(), Error>)
    requires
        old(descriptor).wf(),
        nl_shape(*old(descriptor)),
        list_entry(views, keyv@, rowv@, full) == Some(vecv),
        rowv@.len() == 4,
    ensures
        final(descriptor).wf(),
        nl_shape(*final(descriptor)),
        descriptor_structure_preserved(*old(descriptor), *final(descriptor)),
        r matches Err(e) ==> ((e matches Error::Internal(_) && !old(
            descriptor,
        ).spec_keys().rows_view().contains(keyv@)) || (e matches Error::MissingGradientSample(_)
            && !grads_complete(views, *old(descriptor), full))),
        r is Ok ==> forall|b: int, i: int, c: int, p: int|
            0 <= b < old(descriptor).spec_blocks().len() && crate::tensor::valid_index(
                old(descriptor).spec_blocks()[b].values.data.spec_shape(),
                idx3(i, c, p),
            ) ==> #[trigger] final(descriptor).spec_blocks()[b].values.data.at(idx3(i, c, p)) == (
            if old(descriptor).spec_keys().rows_view()[b] == keyv@ && old(
                descriptor,
            ).spec_blocks()[b].values.samples.rows_view()[i] == rowv@ {
                value_after(
                    views,
                    keyv@,
                    rowv@,
                    old(descriptor).spec_blocks()[b].values.properties.rows_view()[p],
                    c,
                    old(descriptor).spec_blocks()[b].values.data.at(idx3(i, c, p)),
                    full,
                )
            } else {
                old(descriptor).spec_blocks()[b].values.data.at(idx3(i, c, p))
            }),
        r is Ok ==> forall|b: int, j: int, c1: int, c2: int, p: int|
            0 <= b < old(descriptor).spec_blocks().len() && old(
                descriptor,
            ).spec_blocks()[b].positions_gradient is Some && crate::tensor::valid_index(
                old(descriptor).spec_blocks()[b].positions_gradient.unwrap().data.spec_shape(),
                idx4(j, c1, c2, p),
            ) ==> #[trigger] final(descriptor).spec_blocks()[b].positions_gradient.unwrap().data.at(
                idx4(j, c1, c2, p),
            ) == (if old(descriptor).spec_keys().rows_view()[b] == keyv@ && {
                let grow = old(
                    descriptor,
                ).spec_blocks()[b].positions_gradient.unwrap().samples.rows_view()[j];
                let srows = old(descriptor).spec_blocks()[b].values.samples.rows_view();
                &&& 0 <= grow[0]
                &&& (grow[0] as int) < srows.len()
                &&& srows[grow[0] as int] == rowv@
            } {
                grad_after(
                    views,
                    keyv@,
                    old(descriptor).spec_blocks()[b].values.samples.rows_view(),
                    old(descriptor).spec_blocks()[b].values.properties.rows_view(),
                    old(
                        descriptor,
                    ).spec_blocks()[b].positions_gradient.unwrap().samples.rows_view()[j],
                    old(
                        descriptor,
                    ).spec_blocks()[b].positions_gradient.unwrap().properties.rows_view()[p],
                    c1,
                    c2,
                    old(descriptor).spec_blocks()[b].positions_gradient.unwrap().data.at(
                        idx4(j, c1, c2, p),
                    ),
                    full,
                )
            } else {
                old(descriptor).spec_blocks()[b].positions_gradient.unwrap().data.at(
                    idx4(j, c1, c2, p),
                )
            }),
{
    let ghost told = *old(descriptor);
    let bid = match descriptor.position(keyv) {
        Some(b) => b,
        None => {
            return Err(Error::Internal("a species pair of the batch has no block".to_owned()));
        },
    };
    let block = descriptor.block_by_id(bid);
    let si = match block.values.samples.position(rowv) {
        Some(i) => i,
        None => {
            proof {
                assert forall|b: int, i: int, c: int, p: int|
                    0 <= b < told.spec_blocks().len() && crate::tensor::valid_index(
                        told.spec_blocks()[b].values.data.spec_shape(),
                        idx3(i, c, p),
                    ) && told.spec_keys().rows_view()[b] == keyv@ && told.spec_blocks()[b].values.samples.rows_view()[i]
                    == rowv@ implies false by {
                    if b != bid {
                        assert(told.spec_keys().rows_view()[bid as int] == keyv@);
                    } else {
                        assert(told.spec_blocks()[b].values.samples.rows_view().contains(rowv@));
                    }
                }
            }
            return Ok(());
        },
    };
    let zerov = zero_row_vec();
    let p0 = match block.values.properties.position(&zerov) {
        Some(p) => p,
        None => {
            proof {
                assert forall|b: int, i: int, c: int, p: int|
                    0 <= b < told.spec_blocks().len() && crate::tensor::valid_index(
                        told.spec_blocks()[b].values.data.spec_shape(),
                        idx3(i, c, p),
                    ) && told.spec_keys().rows_view()[b] == keyv@ && told.spec_blocks()[b].values.samples.rows_view()[i]
                    == rowv@ implies #[trigger] told.spec_blocks()[b].values.data.at(idx3(i, c, p))
                    == value_after(
                    views,
                    keyv@,
                    rowv@,
                    told.spec_blocks()[b].values.properties.rows_view()[p],
                    c,
                    told.spec_blocks()[b].values.data.at(idx3(i, c, p)),
                    full,
                ) by {
                    if b != bid {
                        assert(told.spec_keys().rows_view()[bid as int] == keyv@);
                    } else {
                        crate::tensormap::lemma_block3_shape(told.spec_blocks()[b].values);
                        assert(told.spec_blocks()[b].values.properties.rows_view().contains(
                            told.spec_blocks()[b].values.properties.rows_view()[p],
                        ));
                        assert(told.spec_blocks()[b].values.properties.rows_view()[p]
                            != zero_row());
                    }
                }
                assert forall|b: int, j: int, c1: int, c2: int, p: int|
                    0 <= b < told.spec_blocks().len() && told.spec_blocks()[b].positions_gradient
                        is Some && crate::tensor::valid_index(
                        told.spec_blocks()[b].positions_gradient.unwrap().data.spec_shape(),
                        idx4(j, c1, c2, p),
                    ) && told.spec_keys().rows_view()[b] == keyv@ && {
                        let grow =
                            told.spec_blocks()[b].positions_gradient.unwrap().samples.rows_view()[j];
                        let srows = told.spec_blocks()[b].values.samples.rows_view();
                        &&& 0 <= grow[0]
                        &&& (grow[0] as int) < srows.len()
                        &&& srows[grow[0] as int] == rowv@
                    } implies #[trigger] told.spec_blocks()[b].positions_gradient.unwrap().data.at(
                    idx4(j, c1, c2, p),
                ) == grad_after(
                    views,
                    keyv@,
                    told.spec_blocks()[b].values.samples.rows_view(),
                    told.spec_blocks()[b].values.properties.rows_view(),
                    told.spec_blocks()[b].positions_gradient.unwrap().samples.rows_view()[j],
                    told.spec_blocks()[b].positions_gradient.unwrap().properties.rows_view()[p],
                    c1,
                    c2,
                    told.spec_blocks()[b].positions_gradient.unwrap().data.at(idx4(j, c1, c2, p)),
                    full,
                ) by {
                    if b != bid {
                        assert(told.spec_keys().rows_view()[bid as int] == keyv@);
                    } else {
                        assert(!told.spec_blocks()[b].values.properties.rows_view().contains(
                            zero_row(),
                        ));
                    }
                }
            }
            return Ok(());
        },
    };
    proof {
        assert(told.spec_blocks()[bid as int].values.properties.rows_view()[p0 as int]
            == zero_row());
    }
    let grad_lookup: Option<(usize, usize, usize)> = match &block.positions_gradient {
        Some(g) => {
            match g.properties.position(&zerov) {
                Some(gp0) => {
                    let negrow = three_row(si as i32, rowv[0], rowv[2]);
                    let posrow = three_row(si as i32, rowv[0], rowv[3]);
                    let gneg = match g.samples.position(&negrow) {
                        Some(x) => x,
                        None => {
                            proof {
                                assert(!grads_complete(views, told, full)) by {
                                    assert(told.spec_blocks()[bid as int].positions_gradient is
                                        Some);
                                    assert(list_entry(
                                        views,
                                        told.spec_keys().rows_view()[bid as int],
                                        told.spec_blocks()[bid as int].values.samples.rows_view()[si as int],
                                        full,
                                    ) is Some);
                                    assert(!told.spec_blocks()[bid as int].positions_gradient.unwrap().samples.rows_view().contains(
                                        seq![
                                            si as i32,
                                            rowv@[0],
                                            rowv@[2],
                                        ],
                                    ));
                                }
                            }
                            return Err(
                                Error::MissingGradientSample(
                                    "a gradient row of a sample is absent".to_owned(),
                                ),
                            );
                        },
                    };
                    let gpos = match g.samples.position(&posrow) {
                        Some(x) => x,
                        None => {
                            proof {
                                assert(!grads_complete(views, told, full)) by {
                                    assert(told.spec_blocks()[bid as int].positions_gradient is
                                        Some);
                                    assert(list_entry(
                                        views,
                                        told.spec_keys().rows_view()[bid as int],
                                        told.spec_blocks()[bid as int].values.samples.rows_view()[si as int],
                                        full,
                                    ) is Some);
                                    assert(!told.spec_blocks()[bid as int].positions_gradient.unwrap().samples.rows_view().contains(
                                        seq![
                                            si as i32,
                                            rowv@[0],
                                            rowv@[3],
                                        ],
                                    ));
                                }
                            }
                            return Err(
                                Error::MissingGradientSample(
                                    "a gradient row of a sample is absent".to_owned(),
                                ),
                            );
                        },
                    };
                    Some((gneg, gpos, gp0))
                },
                None => None,
            }
        },
        None => None,
    };
    proof {
        crate::tensormap::lemma_block3_shape(told.spec_blocks()[bid as int].values);
    }
    write_values(descriptor, bid, si, p0, vecv);
    let ghost mid = *descriptor;
    if let Some((gneg, gpos, gp0)) = grad_lookup {
        write_gradient_pair(descriptor, bid, gneg, gpos, gp0);
    }
    proof {
        let fin = *descriptor;
        let srows = told.spec_blocks()[bid as int].values.samples.rows_view();
        let vprops = told.spec_blocks()[bid as int].values.properties.rows_view();
        // the values entries
        assert forall|b: int, i: int, c: int, p: int|
            0 <= b < told.spec_blocks().len() && crate::tensor::valid_index(
                told.spec_blocks()[b].values.data.spec_shape(),
                idx3(i, c, p),
            ) implies #[trigger] fin.spec_blocks()[b].values.data.at(idx3(i, c, p)) == (if told.spec_keys().rows_view()[b]
            == keyv@ && told.spec_blocks()[b].values.samples.rows_view()[i] == rowv@ {
            value_after(
                views,
                keyv@,
                rowv@,
                told.spec_blocks()[b].values.properties.rows_view()[p],
                c,
                told.spec_blocks()[b].values.data.at(idx3(i, c, p)),
                full,
            )
        } else {
            told.spec_blocks()[b].values.data.at(idx3(i, c, p))
        }) by {
            crate::tensormap::lemma_block3_shape(told.spec_blocks()[b].values);
            assert(idx3(i, c, p)[0] == i && idx3(i, c, p)[1] == c && idx3(i, c, p)[2] == p);
            if b != bid {
                assert(fin.spec_blocks()[b] == told.spec_blocks()[b]);
                if told.spec_keys().rows_view()[b] == keyv@ {
                    assert(told.spec_keys().rows_view()[bid as int] == keyv@);
                }
            } else {
                assert(mid.spec_blocks()[b].values == fin.spec_blocks()[b].values);
                if i == si {
                    assert(srows[i] == rowv@);
                    if p == p0 {
                        assert(told.spec_blocks()[b].values.properties.rows_view()[p]
                            == zero_row());
                        assert(0 <= c < 3);
                        assert(mid.spec_blocks()[b].values.data.at(idx3(i, c, p))
                            == crate::bits::vector_component(vecv, c));
                    } else {
                        assert(told.spec_blocks()[b].values.properties.rows_view()[p]
                            != zero_row()) by {
                            if told.spec_blocks()[b].values.properties.rows_view()[p]
                                == zero_row() {
                                assert(told.spec_blocks()[b].values.properties.wf());
                                assert(told.spec_blocks()[b].values.properties.rows_view()[p0 as int]
                                    == zero_row());
                            }
                        }
                        assert(mid.spec_blocks()[b].values.data.at(idx3(i, c, p))
                            == told.spec_blocks()[b].values.data.at(idx3(i, c, p)));
                    }
                } else {
                    assert(srows[i] != rowv@) by {
                        if srows[i] == rowv@ {
                            assert(told.spec_blocks()[b].values.samples.wf());
                            assert(srows[si as int] == rowv@);
                        }
                    }
                    assert(mid.spec_blocks()[b].values.data.at(idx3(i, c, p))
                        == told.spec_blocks()[b].values.data.at(idx3(i, c, p)));
                }
            }
        }
        // the gradient entries
        assert forall|b: int, j: int, c1: int, c2: int, p: int|
            0 <= b < told.spec_blocks().len() && told.spec_blocks()[b].positions_gradient is Some
                && crate::tensor::valid_index(
                told.spec_blocks()[b].positions_gradient.unwrap().data.spec_shape(),
                idx4(j, c1, c2, p),
            ) implies #[trigger] fin.spec_blocks()[b].positions_gradient.unwrap().data.at(
            idx4(j, c1, c2, p),
        ) == (if told.spec_keys().rows_view()[b] == keyv@ && {
            let grow = told.spec_blocks()[b].positions_gradient.unwrap().samples.rows_view()[j];
            let srows2 = told.spec_blocks()[b].values.samples.rows_view();
            &&& 0 <= grow[0]
            &&& (grow[0] as int) < srows2.len()
            &&& srows2[grow[0] as int] == rowv@
        } {
            grad_after(
                views,
                keyv@,
                told.spec_blocks()[b].values.samples.rows_view(),
                told.spec_blocks()[b].values.properties.rows_view(),
                told.spec_blocks()[b].positions_gradient.unwrap().samples.rows_view()[j],
                told.spec_blocks()[b].positions_gradient.unwrap().properties.rows_view()[p],
                c1,
                c2,
                told.spec_blocks()[b].positions_gradient.unwrap().data.at(idx4(j, c1, c2, p)),
                full,
            )
        } else {
            told.spec_blocks()[b].positions_gradient.unwrap().data.at(idx4(j, c1, c2, p))
        }) by {
            let g = told.spec_blocks()[b].positions_gradient.unwrap();
            crate::tensormap::lemma_block4_shape(g);
            assert(idx4(j, c1, c2, p)[0] == j && idx4(j, c1, c2, p)[1] == c1 && idx4(
                j,
                c1,
                c2,
                p,
            )[2] == c2 && idx4(j, c1, c2, p)[3] == p);
            if b != bid {
                assert(fin.spec_blocks()[b] == told.spec_blocks()[b]);
                if told.spec_keys().rows_view()[b] == keyv@ {
                    assert(told.spec_keys().rows_view()[bid as int] == keyv@);
                }
            } else {
                assert(mid.spec_blocks()[b].values == fin.spec_blocks()[b].values);
                let grow = g.samples.rows_view()[j];
                match grad_lookup {
                    Some((gneg, gpos, gp0)) => {
                        assert(g.samples.rows_view()[gneg as int] == seq![
                            si as i32,
                            rowv@[0],
                            rowv@[2],
                        ]);
                        assert(g.samples.rows_view()[gpos as int] == seq![
                            si as i32,
                            rowv@[0],
                            rowv@[3],
                        ]);
                        assert(g.properties.rows_view()[gp0 as int] == zero_row());
                        assert(vprops.contains(zero_row())) by {
                            assert(vprops[p0 as int] == zero_row());
                        }
                        if j == gpos {
                            assert(grow == seq![si as i32, rowv@[0], rowv@[3]]);
                            assert((grow[0] as int) == si);
                            assert(srows[si as int] == rowv@);
                            assert(grad_entry(views, keyv@, srows, grow, full) == Some(true)) by {
                                assert(grow == seq![grow[0], srows[grow[0] as int][0], srows[grow[0] as int][3]]);
                            }
                            if p == gp0 {
                                assert(g.properties.rows_view()[p] == zero_row());
                                if c1 == c2 {
                                    assert(fin.spec_blocks()[b].positions_gradient.unwrap().data.at(
                                        idx4(j, c1, c2, p),
                                    ) == ONE_BITS);
                                } else {
                                    assert(fin.spec_blocks()[b].positions_gradient.unwrap().data.at(
                                        idx4(j, c1, c2, p),
                                    ) == mid.spec_blocks()[b].positions_gradient.unwrap().data.at(
                                        idx4(j, c1, c2, p),
                                    ));
                                }
                            } else {
                                assert(g.properties.rows_view()[p] != zero_row()) by {
                                    if g.properties.rows_view()[p] == zero_row() {
                                        assert(g.properties.wf());
                                    }
                                }
                            }
                        } else if j == gneg {
                            assert(gneg != gpos);
                            assert(grow == seq![si as i32, rowv@[0], rowv@[2]]);
                            assert((grow[0] as int) == si);
                            assert(grow != seq![si as i32, rowv@[0], rowv@[3]]) by {
                                assert(g.samples.wf());
                            }
                            assert(grad_entry(views, keyv@, srows, grow, full) == Some(false)) by {
                                assert(grow != seq![grow[0], srows[grow[0] as int][0], srows[grow[0] as int][3]]);
                                assert(grow == seq![grow[0], srows[grow[0] as int][0], srows[grow[0] as int][2]]);
                            }
                            if p == gp0 {
                                if c1 == c2 {
                                    assert(fin.spec_blocks()[b].positions_gradient.unwrap().data.at(
                                        idx4(j, c1, c2, p),
                                    ) == MINUS_ONE_BITS);
                                }
                            } else {
                                assert(g.properties.rows_view()[p] != zero_row()) by {
                                    if g.properties.rows_view()[p] == zero_row() {
                                        assert(g.properties.wf());
                                    }
                                }
                            }
                        } else {
                            // an untouched gradient row: its entry, if its
                            // parent is this sample, would name one of the
                            // two atom rows, which sit at gneg and gpos
                            assert(fin.spec_blocks()[b].positions_gradient.unwrap().data.at(
                                idx4(j, c1, c2, p),
                            ) == g.data.at(idx4(j, c1, c2, p)));
                            if 0 <= grow[0] && (grow[0] as int) < srows.len() && srows[grow[0] as int]
                                == rowv@ {
                                assert(grow.len() == 3) by {
                                    assert(g.samples.wf());
                                    assert(g.samples.rows_view()[j] == grow);
                                }
                                assert((grow[0] as int) == si) by {
                                    assert(told.spec_blocks()[b].values.samples.wf());
                                    if (grow[0] as int) != si {
                                        assert(srows[grow[0] as int] == srows[si as int]);
                                    }
                                }
                                assert(grad_entry(views, keyv@, srows, grow, full) is None) by {
                                    assert(g.samples.wf());
                                    if grow == seq![grow[0], srows[grow[0] as int][0], srows[grow[0] as int][3]] {
                                        assert(grow == g.samples.rows_view()[gpos as int]);
                                    }
                                    if grow == seq![grow[0], srows[grow[0] as int][0], srows[grow[0] as int][2]] {
                                        assert(grow == g.samples.rows_view()[gneg as int]);
                                    }
                                }
                            }
                        }
                    },
                    None => {
                        assert(fin.spec_blocks()[b].positions_gradient
                            == told.spec_blocks()[b].positions_gradient);
                        if 0 <= grow[0] && (grow[0] as int) < srows.len() && srows[grow[0] as int]
                            == rowv@ {
                            assert(!g.properties.rows_view().contains(zero_row()));
                            assert(g.properties.rows_view()[p] != zero_row());
                        }
                    },
                }
            }
        }
    }
    Ok(())
}

} // verus!

verus! {

/// The structure and pair columns of `row` name system `s`, pair `k`.
pub open spec fn row_is_pair(row: Seq<i32>, s: int, k: int) -> bool {
    (row[0] as int) == s && (row[1] as int) == k
}

/// The values entries of `tnew` are those of `told` with pair `k` of system
/// `s` applied.
pub open spec fn pair_values_applied(
    told: crate::tensormap::TensorMap,
    tnew: crate::tensormap::TensorMap,
    views: Seq<SysView>,
    s: int,
    k: int,
    full: bool,
) -> bool {
    forall|b: int, i: int, c: int, p: int|
        0 <= b < told.spec_blocks().len() && crate::tensor::valid_index(
            told.spec_blocks()[b].values.data.spec_shape(),
            idx3(i, c, p),
        ) ==> #[trigger] tnew.spec_blocks()[b].values.data.at(idx3(i, c, p)) == (
        if row_is_pair(told.spec_blocks()[b].values.samples.rows_view()[i], s, k) {
            value_after(
                views,
                told.spec_keys().rows_view()[b],
                told.spec_blocks()[b].values.samples.rows_view()[i],
                told.spec_blocks()[b].values.properties.rows_view()[p],
                c,
                told.spec_blocks()[b].values.data.at(idx3(i, c, p)),
                full,
            )
        } else {
            told.spec_blocks()[b].values.data.at(idx3(i, c, p))
        })
}

/// The gradient entries of `tnew` are those of `told` with pair `k` of
/// system `s` applied.
pub open spec fn pair_grads_applied(
    told: crate::tensormap::TensorMap,
    tnew: crate::tensormap::TensorMap,
    views: Seq<SysView>,
    s: int,
    k: int,
    full: bool,
) -> bool {
    forall|b: int, j: int, c1: int, c2: int, p: int|
        0 <= b < told.spec_blocks().len() && told.spec_blocks()[b].positions_gradient is Some
            && crate::tensor::valid_index(
            told.spec_blocks()[b].positions_gradient.unwrap().data.spec_shape(),
            idx4(j, c1, c2, p),
        ) ==> #[trigger] tnew.spec_blocks()[b].positions_gradient.unwrap().data.at(
            idx4(j, c1, c2, p),
        ) == ({
            let grow = told.spec_blocks()[b].positions_gradient.unwrap().samples.rows_view()[j];
            let srows = told.spec_blocks()[b].values.samples.rows_view();
            if 0 <= grow[0] && (grow[0] as int) < srows.len() && row_is_pair(
                srows[grow[0] as int],
                s,
                k,
            ) {
                grad_after(
                    views,
                    told.spec_keys().rows_view()[b],
                    srows,
                    told.spec_blocks()[b].values.properties.rows_view(),
                    grow,
                    told.spec_blocks()[b].positions_gradient.unwrap().properties.rows_view()[p],
                    c1,
                    c2,
                    told.spec_blocks()[b].positions_gradient.unwrap().data.at(idx4(j, c1, c2, p)),
                    full,
                )
            } else {
                told.spec_blocks()[b].positions_gradient.unwrap().data.at(idx4(j, c1, c2, p))
            }
        })
}

/// Structure-preserving writes keep the gradient-row completeness of a
/// descriptor: it depends on keys and labels alone.
pub proof fn lemma_grads_complete_preserved(
    t1: crate::tensormap::TensorMap,
    t2: crate::tensormap::TensorMap,
    views: Seq<SysView>,
    full: bool,
)
    requires
        descriptor_structure_preserved(t1, t2),
    ensures
        grads_complete(views, t2, full) == grads_complete(views, t1, full),
{
    assert forall|b: int|
        0 <= b < t1.spec_blocks().len() implies (t2.spec_blocks()[b].positions_gradient is Some
        <==> #[trigger] t1.spec_blocks()[b].positions_gradient is Some)
        && t2.spec_blocks()[b].values.samples == t1.spec_blocks()[b].values.samples && (
    t1.spec_blocks()[b].positions_gradient is Some
        ==> t2.spec_blocks()[b].positions_gradient.unwrap().samples
        == t1.spec_blocks()[b].positions_gradient.unwrap().samples) by {
        assert(block_structure_preserved(t1.spec_blocks()[b], t2.spec_blocks()[b]));
    }
}

/// Apply one pair of one system to the descriptor: fill the sample rows of
/// its orientation(s) and their gradient rows.
fn apply_pair(
    descriptor: &mut crate::tensormap::TensorMap,
    data: &Vec<SystemData>,
    s: usize,
    k: usize,
    full: bool,
) -> (r: Result<(), Error>)
    requires
        data_wf(data@),
        crate::system::views_bounded(crate::system::data_views(data@)),
        old(descriptor).wf(),
        nl_shape(*old(descriptor)),
        s < data@.len(),
        k < data@[s as int].pairs@.len(),
    ensures
        final(descriptor).wf(),
        nl_shape(*final(descriptor)),
        descriptor_structure_preserved(*old(descriptor), *final(descriptor)),
        r is Ok ==> pair_values_applied(
            *old(descriptor),
            *final(descriptor),
            crate::system::data_views(data@),
            s as int,
            k as int,
            full,
        ) && pair_grads_applied(
            *old(descriptor),
            *final(descriptor),
            crate::system::data_views(data@),
            s as int,
            k as int,
            full,
        ),
        r matches Err(e) ==> ((e matches Error::Internal(_) && !keys_complete(
            crate::system::data_views(data@),
            old(descriptor).spec_keys(),
            full,
        )) || (e matches Error::MissingGradientSample(_) && !grads_complete(
            crate::system::data_views(data@),
            *old(descriptor),
            full,
        ))),
{
    let ghost views = crate::system::data_views(data@);
    let ghost told = *old(descriptor);
    proof {
        assert(views[s as int] == data@[s as int].as_view());
        assert(data@[s as int].wf());
        assert(data@[s as int].as_view().bounded());
        assert(views.len() <= i32::MAX);
    }
    let p = data[s].pairs[k];
    proof {
        assert(p == views[s as int].pairs[k as int]);
        assert(p.first < data@[s as int].species@.len());
        assert(p.second < data@[s as int].species@.len());
    }
    let spf = data[s].species[p.first];
    let sps = data[s].species[p.second];
    proof {
        assert(spf == pair_species_first(views[s as int], k as int));
        assert(sps == pair_species_second(views[s as int], k as int));
    }
    if !full {
        let ((a0, b0), inverted) = sort_pair((spf, sps));
        let (ai, aj) = if inverted {
            (p.second, p.first)
        } else {
            (p.first, p.second)
        };
        let vecv = if inverted {
            crate::bits::neg_vector(p.vector)
        } else {
            p.vector
        };
        let keyv = two_row(a0, b0);
        let mut rowv: Vec<i32> = Vec::new();
        rowv.push(s as i32);
        rowv.push(k as i32);
        rowv.push(ai as i32);
        rowv.push(aj as i32);
        proof {
            assert(rowv@ =~= sample_row(s as int, k as int, ai as int, aj as int));
            assert(sample_in_range(views, rowv@));
            assert((a0, b0) == half_pair_key(views[s as int], k as int));
            assert((ai, aj) == half_atoms(views[s as int], k as int));
            assert(list_entry(views, keyv@, rowv@, false) == Some(vecv));
            assert(row_is_pair(rowv@, s as int, k as int));
        }
        let r = apply_orientation(descriptor, &keyv, &rowv, vecv, Ghost(views), false);
        match r {
            Err(e) => {
                proof {
                    if !told.spec_keys().rows_view().contains(keyv@) {
                        assert(!keys_complete(views, told.spec_keys(), false)) by {
                            assert(key_row(
                                half_pair_key(views[s as int], k as int).0,
                                half_pair_key(views[s as int], k as int).1,
                            ) == keyv@);
                        }
                    }
                }
                return Err(e);
            },
            Ok(()) => {},
        }
        proof {
            let fin = *descriptor;
            assert forall|b: int, i: int, c: int, p2: int|
                0 <= b < told.spec_blocks().len() && crate::tensor::valid_index(
                    told.spec_blocks()[b].values.data.spec_shape(),
                    idx3(i, c, p2),
                ) implies #[trigger] fin.spec_blocks()[b].values.data.at(idx3(i, c, p2)) == (
            if row_is_pair(told.spec_blocks()[b].values.samples.rows_view()[i], s as int, k as int) {
                value_after(
                    views,
                    told.spec_keys().rows_view()[b],
                    told.spec_blocks()[b].values.samples.rows_view()[i],
                    told.spec_blocks()[b].values.properties.rows_view()[p2],
                    c,
                    told.spec_blocks()[b].values.data.at(idx3(i, c, p2)),
                    false,
                )
            } else {
                told.spec_blocks()[b].values.data.at(idx3(i, c, p2))
            }) by {
                let keyrow = told.spec_keys().rows_view()[b];
                let srow = told.spec_blocks()[b].values.samples.rows_view()[i];
                if keyrow == keyv@ && srow == rowv@ {
                } else {
                    if row_is_pair(srow, s as int, k as int) {
                        assert(half_entry(views, keyrow, srow) is None) by {
                            if half_entry(views, keyrow, srow) is Some {
                                assert(keyrow == keyv@);
                                assert(srow == rowv@);
                            }
                        }
                    }
                }
            }
            assert forall|b: int, j: int, c1: int, c2: int, p2: int|
                0 <= b < told.spec_blocks().len() && told.spec_blocks()[b].positions_gradient is
                    Some && crate::tensor::valid_index(
                    told.spec_blocks()[b].positions_gradient.unwrap().data.spec_shape(),
                    idx4(j, c1, c2, p2),
                ) implies #[trigger] fin.spec_blocks()[b].positions_gradient.unwrap().data.at(
                idx4(j, c1, c2, p2),
            ) == ({
                let grow = told.spec_blocks()[b].positions_gradient.unwrap().samples.rows_view()[j];
                let srows = told.spec_blocks()[b].values.samples.rows_view();
                if 0 <= grow[0] && (grow[0] as int) < srows.len() && row_is_pair(
                    srows[grow[0] as int],
                    s as int,
                    k as int,
                ) {
                    grad_after(
                        views,
                        told.spec_keys().rows_view()[b],
                        srows,
                        told.spec_blocks()[b].values.properties.rows_view(),
                        grow,
                        told.spec_blocks()[b].positions_gradient.unwrap().properties.rows_view()[p2],
                        c1,
                        c2,
                        told.spec_blocks()[b].positions_gradient.unwrap().data.at(
                            idx4(j, c1, c2, p2),
                        ),
                        false,
                    )
                } else {
                    told.spec_blocks()[b].positions_gradient.unwrap().data.at(idx4(j, c1, c2, p2))
                }
            }) by {
                let keyrow = told.spec_keys().rows_view()[b];
                let grow = told.spec_blocks()[b].positions_gradient.unwrap().samples.rows_view()[j];
                let srows = told.spec_blocks()[b].values.samples.rows_view();
                if 0 <= grow[0] && (grow[0] as int) < srows.len() {
                    let srow = srows[grow[0] as int];
                    if keyrow == keyv@ && srow == rowv@ {
                    } else if row_is_pair(srow, s as int, k as int) {
                        assert(half_entry(views, keyrow, srow) is None) by {
                            if half_entry(views, keyrow, srow) is Some {
                                assert(keyrow == keyv@);
                                assert(srow == rowv@);
                            }
                        }
                        assert(grad_entry(views, keyrow, srows, grow, false) is None);
                    }
                }
            }
        }
        Ok(())
    } else {
        let keyv1 = two_row(spf, sps);
        let mut rowv1: Vec<i32> = Vec::new();
        rowv1.push(s as i32);
        rowv1.push(k as i32);
        rowv1.push(p.first as i32);
        rowv1.push(p.second as i32);
        proof {
            assert(rowv1@ =~= sample_row(s as int, k as int, p.first as int, p.second as int));
            assert(sample_in_range(views, rowv1@));
            assert(list_entry(views, keyv1@, rowv1@, true) == Some(p.vector));
            assert(row_is_pair(rowv1@, s as int, k as int));
        }
        let r1 = apply_orientation(descriptor, &keyv1, &rowv1, p.vector, Ghost(views), true);
        match r1 {
            Err(e) => {
                proof {
                    if !told.spec_keys().rows_view().contains(keyv1@) {
                        assert(!keys_complete(views, told.spec_keys(), true)) by {
                            assert(key_row(
                                pair_species_first(views[s as int], k as int),
                                pair_species_second(views[s as int], k as int),
                            ) == keyv1@);
                        }
                    }
                }
                return Err(e);
            },
            Ok(()) => {},
        }
        let ghost mid = *descriptor;
        let mut second_done: bool = false;
        let ghost keyv2g: Seq<i32> = key_row(sps, spf);
        let ghost rowv2g: Seq<i32> = sample_row(s as int, k as int, p.second as int, p.first as int);
        if p.first != p.second {
            let keyv2 = two_row(sps, spf);
            let mut rowv2: Vec<i32> = Vec::new();
            rowv2.push(s as i32);
            rowv2.push(k as i32);
            rowv2.push(p.second as i32);
            rowv2.push(p.first as i32);
            let vec2 = crate::bits::neg_vector(p.vector);
            proof {
                assert(rowv2@ =~= rowv2g);
                assert(sample_in_range(views, rowv2@));
                assert(rowv2@[2] != rowv1@[2]);
                assert(rowv2@ != rowv1@);
                assert(list_entry(views, keyv2@, rowv2@, true) == Some(vec2));
                assert(row_is_pair(rowv2@, s as int, k as int));
            }
            let r2 = apply_orientation(descriptor, &keyv2, &rowv2, vec2, Ghost(views), true);
            match r2 {
                Err(e) => {
                    proof {
                        if !mid.spec_keys().rows_view().contains(keyv2@) {
                            assert(mid.spec_keys() == told.spec_keys());
                            assert(!keys_complete(views, told.spec_keys(), true)) by {
                                assert(key_row(
                                    pair_species_second(views[s as int], k as int),
                                    pair_species_first(views[s as int], k as int),
                                ) == keyv2@);
                            }
                        }
                        if e matches Error::MissingGradientSample(_) {
                            lemma_grads_complete_preserved(told, mid, views, true);
                        }
                    }
                    return Err(e);
                },
                Ok(()) => {},
            }
            second_done = true;
        }
        proof {
            let fin = *descriptor;
            // the two orientations touch disjoint rows; everything else is kept
            assert forall|b: int, i: int, c: int, p2: int|
                0 <= b < told.spec_blocks().len() && crate::tensor::valid_index(
                    told.spec_blocks()[b].values.data.spec_shape(),
                    idx3(i, c, p2),
                ) implies #[trigger] fin.spec_blocks()[b].values.data.at(idx3(i, c, p2)) == (
            if row_is_pair(told.spec_blocks()[b].values.samples.rows_view()[i], s as int, k as int) {
                value_after(
                    views,
                    told.spec_keys().rows_view()[b],
                    told.spec_blocks()[b].values.samples.rows_view()[i],
                    told.spec_blocks()[b].values.properties.rows_view()[p2],
                    c,
                    told.spec_blocks()[b].values.data.at(idx3(i, c, p2)),
                    true,
                )
            } else {
                told.spec_blocks()[b].values.data.at(idx3(i, c, p2))
            }) by {
                let keyrow = told.spec_keys().rows_view()[b];
                let srow = told.spec_blocks()[b].values.samples.rows_view()[i];
                assert(mid.spec_keys().rows_view()[b] == keyrow);
                assert(mid.spec_blocks()[b].values.samples == told.spec_blocks()[b].values.samples);
                assert(mid.spec_blocks()[b].values.properties
                    == told.spec_blocks()[b].values.properties);
                assert(mid.spec_blocks()[b].values.data.spec_shape()
                    == told.spec_blocks()[b].values.data.spec_shape());
                if keyrow == keyv1@ && srow == rowv1@ {
                    // written by the first orientation, untouched by the second
                    assert(mid.spec_blocks()[b].values.data.at(idx3(i, c, p2)) == value_after(
                        views,
                        keyv1@,
                        rowv1@,
                        told.spec_blocks()[b].values.properties.rows_view()[p2],
                        c,
                        told.spec_blocks()[b].values.data.at(idx3(i, c, p2)),
                        true,
                    ));
                    if second_done {
                        assert(srow != rowv2g);
                        assert(fin.spec_blocks()[b].values.data.at(idx3(i, c, p2))
                            == mid.spec_blocks()[b].values.data.at(idx3(i, c, p2)));
                    }
                } else if second_done && keyrow == keyv2g && srow == rowv2g {
                    assert(mid.spec_blocks()[b].values.data.at(idx3(i, c, p2))
                        == told.spec_blocks()[b].values.data.at(idx3(i, c, p2)));
                    assert(fin.spec_blocks()[b].values.data.at(idx3(i, c, p2)) == value_after(
                        views,
                        keyv2g,
                        rowv2g,
                        told.spec_blocks()[b].values.properties.rows_view()[p2],
                        c,
                        told.spec_blocks()[b].values.data.at(idx3(i, c, p2)),
                        true,
                    ));
                } else {
                    assert(mid.spec_blocks()[b].values.data.at(idx3(i, c, p2))
                        == told.spec_blocks()[b].values.data.at(idx3(i, c, p2)));
                    assert(fin.spec_blocks()[b].values.data.at(idx3(i, c, p2))
                        == mid.spec_blocks()[b].values.data.at(idx3(i, c, p2)));
                    if row_is_pair(srow, s as int, k as int) {
                        assert(full_entry(views, keyrow, srow) is None) by {
                            if full_entry(views, keyrow, srow) is Some {
                                if !(keyrow == keyv1@ && srow == rowv1@) {
                                    assert(keyrow == keyv2g && srow == rowv2g);
                                    assert(second_done) by {
                                        if p.first == p.second {
                                            assert(rowv2g == rowv1@);
                                            assert(keyv2g == keyv1@);
                                        }
                                    }
                                }
                            }
                        }
                    }
                }
            }
            assert forall|b: int, j: int, c1: int, c2: int, p2: int|
                0 <= b < told.spec_blocks().len() && told.spec_blocks()[b].positions_gradient is
                    Some && crate::tensor::valid_index(
                    told.spec_blocks()[b].positions_gradient.unwrap().data.spec_shape(),
                    idx4(j, c1, c2, p2),
                ) implies #[trigger] fin.spec_blocks()[b].positions_gradient.unwrap().data.at(
                idx4(j, c1, c2, p2),
            ) == ({
                let grow = told.spec_blocks()[b].positions_gradient.unwrap().samples.rows_view()[j];
                let srows = told.spec_blocks()[b].values.samples.rows_view();
                if 0 <= grow[0] && (grow[0] as int) < srows.len() && row_is_pair(
                    srows[grow[0] as int],
                    s as int,
                    k as int,
                ) {
                    grad_after(
                        views,
                        told.spec_keys().rows_view()[b],
                        srows,
                        told.spec_blocks()[b].values.properties.rows_view(),
                        grow,
                        told.spec_blocks()[b].positions_gradient.unwrap().properties.rows_view()[p2],
                        c1,
                        c2,
                        told.spec_blocks()[b].positions_gradient.unwrap().data.at(
                            idx4(j, c1, c2, p2),
                        ),
                        true,
                    )
                } else {
                    told.spec_blocks()[b].positions_gradient.unwrap().data.at(idx4(j, c1, c2, p2))
                }
            }) by {
                let keyrow = told.spec_keys().rows_view()[b];
                let g = told.spec_blocks()[b].positions_gradient.unwrap();
                let grow = g.samples.rows_view()[j];
                let srows = told.spec_blocks()[b].values.samples.rows_view();
                assert(mid.spec_keys().rows_view()[b] == keyrow);
                assert(mid.spec_blocks()[b].values.samples == told.spec_blocks()[b].values.samples);
                assert(mid.spec_blocks()[b].values.properties
                    == told.spec_blocks()[b].values.properties);
                assert(mid.spec_blocks()[b].positions_gradient is Some);
                assert(mid.spec_blocks()[b].positions_gradient.unwrap().samples == g.samples);
                assert(mid.spec_blocks()[b].positions_gradient.unwrap().properties == g.properties);
                assert(mid.spec_blocks()[b].positions_gradient.unwrap().data.spec_shape()
                    == g.data.spec_shape());
                if 0 <= grow[0] && (grow[0] as int) < srows.len() {
                    let srow = srows[grow[0] as int];
                    if keyrow == keyv1@ && srow == rowv1@ {
                        assert(mid.spec_blocks()[b].positions_gradient.unwrap().data.at(
                            idx4(j, c1, c2, p2),
                        ) == grad_after(
                            views,
                            keyv1@,
                            srows,
                            told.spec_blocks()[b].values.properties.rows_view(),
                            grow,
                            g.properties.rows_view()[p2],
                            c1,
                            c2,
                            g.data.at(idx4(j, c1, c2, p2)),
                            true,
                        ));
                        if second_done {
                            assert(srow != rowv2g);
                            assert(fin.spec_blocks()[b].positions_gradient.unwrap().data.at(
                                idx4(j, c1, c2, p2),
                            ) == mid.spec_blocks()[b].positions_gradient.unwrap().data.at(
                                idx4(j, c1, c2, p2),
                            ));
                        }
                    } else if second_done && keyrow == keyv2g && srow == rowv2g {
                        assert(mid.spec_blocks()[b].positions_gradient.unwrap().data.at(
                            idx4(j, c1, c2, p2),
                        ) == g.data.at(idx4(j, c1, c2, p2)));
                        assert(fin.spec_blocks()[b].positions_gradient.unwrap().data.at(
                            idx4(j, c1, c2, p2),
                        ) == grad_after(
                            views,
                            keyv2g,
                            srows,
                            told.spec_blocks()[b].values.properties.rows_view(),
                            grow,
                            g.properties.rows_view()[p2],
                            c1,
                            c2,
                            g.data.at(idx4(j, c1, c2, p2)),
                            true,
                        ));
                    } else {
                        assert(mid.spec_blocks()[b].positions_gradient.unwrap().data.at(
                            idx4(j, c1, c2, p2),
                        ) == g.data.at(idx4(j, c1, c2, p2)));
                        assert(fin.spec_blocks()[b].positions_gradient.unwrap().data.at(
                            idx4(j, c1, c2, p2),
                        ) == mid.spec_blocks()[b].positions_gradient.unwrap().data.at(
                            idx4(j, c1, c2, p2),
                        ));
                        if row_is_pair(srow, s as int, k as int) {
                            assert(full_entry(views, keyrow, srow) is None) by {
                                if full_entry(views, keyrow, srow) is Some {
                                    if !(keyrow == keyv1@ && srow == rowv1@) {
                                        assert(keyrow == keyv2g && srow == rowv2g);
                                        assert(second_done) by {
                                            if p.first == p.second {
                                                assert(rowv2g == rowv1@);
                                                assert(keyv2g == keyv1@);
                                            }
                                        }
                                    }
                                }
                            }
                            assert(grad_entry(views, keyrow, srows, grow, true) is None);
                        }
                    }
                }
            }
        }
        Ok(())
    }
}

} // verus!

verus! {

/// Fill a descriptor's blocks from captured system data: for every pair of
/// every system, write the pair vector into the sample rows of its
/// orientation(s) and `∓1` diagonals into their gradient rows. Sample rows
/// the descriptor does not carry are skipped, so a caller-restricted
/// descriptor is filled only where it asks. A species pair without a block,
/// or a sample whose gradient row is absent, is an invariant violation: the
/// call aborts with an error and the descriptor's entries are unspecified.
pub fn compute_from_data(
    data: &Vec<SystemData>,
    descriptor: &mut crate::tensormap::TensorMap,
    full: bool,
) -> (r: Result<(), Error>)
    requires
        data_wf(data@),
        crate::system::views_bounded(crate::system::data_views(data@)),
        old(descriptor).wf(),
        nl_shape(*old(descriptor)),
    ensures
        final(descriptor).wf(),
        nl_shape(*final(descriptor)),
        descriptor_structure_preserved(*old(descriptor), *final(descriptor)),
        r is Ok ==> values_state(
            *old(descriptor),
            *final(descriptor),
            crate::system::data_views(data@),
            crate::system::data_views(data@).len() as int,
            0,
            full,
        ) && grads_state(
            *old(descriptor),
            *final(descriptor),
            crate::system::data_views(data@),
            crate::system::data_views(data@).len() as int,
            0,
            full,
        ),
        r matches Err(e) ==> ((e matches Error::Internal(_) && !keys_complete(
            crate::system::data_views(data@),
            old(descriptor).spec_keys(),
            full,
        )) || (e matches Error::MissingGradientSample(_) && !grads_complete(
            crate::system::data_views(data@),
            *old(descriptor),
            full,
        ))),
{
    let ghost views = crate::system::data_views(data@);
    let ghost told = *old(descriptor);
    proof {
        assert(views.len() == data@.len());
        assert(forall|s: int| 0 <= s < data@.len() ==> (#[trigger] views[s]) == data@[s].as_view());
        assert(values_state(told, told, views, 0, 0, full));
        assert(grads_state(told, told, views, 0, 0, full));
    }
    let ns = data.len();
    let mut s: usize = 0;
    while s < ns
        invariant
            ns == data@.len(),
            s <= ns,
            data_wf(data@),
            crate::system::views_bounded(views),
            views == crate::system::data_views(data@),
            views.len() == data@.len(),
            forall|s2: int|
                0 <= s2 < data@.len() ==> (#[trigger] views[s2]) == data@[s2].as_view(),
            told == *old(descriptor),
            descriptor.wf(),
            nl_shape(*descriptor),
            descriptor_structure_preserved(told, *descriptor),
            values_state(told, *descriptor, views, s as int, 0, full),
            grads_state(told, *descriptor, views, s as int, 0, full),
        decreases ns - s,
    {
        let np = data[s].pairs.len();
        let mut k: usize = 0;
        proof {
            assert(np == views[s as int].pairs.len());
        }
        while k < np
            invariant
                ns == data@.len(),
                s < ns,
                np == data@[s as int].pairs@.len(),
                np == views[s as int].pairs.len(),
                k <= np,
                data_wf(data@),
                crate::system::views_bounded(views),
                views == crate::system::data_views(data@),
                views.len() == data@.len(),
                forall|s2: int|
                    0 <= s2 < data@.len() ==> (#[trigger] views[s2]) == data@[s2].as_view(),
                told == *old(descriptor),
                descriptor.wf(),
                nl_shape(*descriptor),
                descriptor_structure_preserved(told, *descriptor),
                values_state(told, *descriptor, views, s as int, k as int, full),
                grads_state(told, *descriptor, views, s as int, k as int, full),
            decreases np - k,
        {
            let ghost mid = *descriptor;
            let r = apply_pair(descriptor, data, s, k, full);
            match r {
                Err(e) => {
                    proof {
                        if e matches Error::MissingGradientSample(_) {
                            lemma_grads_complete_preserved(told, mid, views, full);
                        }
                    }
                    return Err(e);
                },
                Ok(()) => {},
            }
            proof {
                let fin = *descriptor;
                // carry the state forward by one pair
                assert forall|b: int, i: int, c: int, p: int|
                    0 <= b < told.spec_blocks().len() && crate::tensor::valid_index(
                        told.spec_blocks()[b].values.data.spec_shape(),
                        idx3(i, c, p),
                    ) implies #[trigger] fin.spec_blocks()[b].values.data.at(idx3(i, c, p)) == ({
                    let srow = told.spec_blocks()[b].values.samples.rows_view()[i];
                    let keyrow = told.spec_keys().rows_view()[b];
                    let prow = told.spec_blocks()[b].values.properties.rows_view()[p];
                    let previous = told.spec_blocks()[b].values.data.at(idx3(i, c, p));
                    if sample_in_range(views, srow) && ((srow[0] as int) < s || ((srow[0] as int)
                        == s && (srow[1] as int) < k + 1)) {
                        value_after(views, keyrow, srow, prow, c, previous, full)
                    } else {
                        previous
                    }
                }) by {
                    let srow = told.spec_blocks()[b].values.samples.rows_view()[i];
                    assert(block_structure_preserved(told.spec_blocks()[b], mid.spec_blocks()[b]));
                    assert(mid.spec_keys() == told.spec_keys());
                    assert(mid.spec_blocks()[b].values.samples
                        == told.spec_blocks()[b].values.samples);
                    assert(mid.spec_blocks()[b].values.properties
                        == told.spec_blocks()[b].values.properties);
                    assert(mid.spec_blocks()[b].values.data.spec_shape()
                        == told.spec_blocks()[b].values.data.spec_shape());
                    if row_is_pair(srow, s as int, k as int) {
                        assert(mid.spec_blocks()[b].values.data.at(idx3(i, c, p))
                            == told.spec_blocks()[b].values.data.at(idx3(i, c, p)));
                    }
                }
                assert forall|b: int, j: int, c1: int, c2: int, p: int|
                    0 <= b < told.spec_blocks().len() && told.spec_blocks()[b].positions_gradient
                        is Some && crate::tensor::valid_index(
                        told.spec_blocks()[b].positions_gradient.unwrap().data.spec_shape(),
                        idx4(j, c1, c2, p),
                    ) implies #[trigger] fin.spec_blocks()[b].positions_gradient.unwrap().data.at(
                    idx4(j, c1, c2, p),
                ) == ({
                    let g = told.spec_blocks()[b].positions_gradient.unwrap();
                    let srows = told.spec_blocks()[b].values.samples.rows_view();
                    let keyrow = told.spec_keys().rows_view()[b];
                    let grow = g.samples.rows_view()[j];
                    let previous = g.data.at(idx4(j, c1, c2, p));
                    if grow.len() == 3 && 0 <= grow[0] && (grow[0] as int) < srows.len()
                        && sample_in_range(views, srows[grow[0] as int]) && ((srows[grow[0] as int][0] as int)
                        < s || ((srows[grow[0] as int][0] as int) == s && (srows[grow[0] as int][1] as int)
                        < k + 1)) {
                        grad_after(
                            views,
                            keyrow,
                            srows,
                            told.spec_blocks()[b].values.properties.rows_view(),
                            grow,
                            g.properties.rows_view()[p],
                            c1,
                            c2,
                            previous,
                            full,
                        )
                    } else {
                        previous
                    }
                }) by {
                    let g = told.spec_blocks()[b].positions_gradient.unwrap();
                    let srows = told.spec_blocks()[b].values.samples.rows_view();
                    let grow = g.samples.rows_view()[j];
                    assert(block_structure_preserved(told.spec_blocks()[b], mid.spec_blocks()[b]));
                    assert(mid.spec_keys() == told.spec_keys());
                    assert(mid.spec_blocks()[b].values.samples
                        == told.spec_blocks()[b].values.samples);
                    assert(mid.spec_blocks()[b].values.properties
                        == told.spec_blocks()[b].values.properties);
                    assert(mid.spec_blocks()[b].positions_gradient is Some);
                    assert(mid.spec_blocks()[b].positions_gradient.unwrap().samples == g.samples);
                    assert(mid.spec_blocks()[b].positions_gradient.unwrap().properties
                        == g.properties);
                    assert(mid.spec_blocks()[b].positions_gradient.unwrap().data.spec_shape()
                        == g.data.spec_shape());
                    if 0 <= grow[0] && (grow[0] as int) < srows.len() && row_is_pair(
                        srows[grow[0] as int],
                        s as int,
                        k as int,
                    ) {
                        assert(mid.spec_blocks()[b].positions_gradient.unwrap().data.at(
                            idx4(j, c1, c2, p),
                        ) == g.data.at(idx4(j, c1, c2, p)));
                    }
                }
            }
            k += 1;
        }
        proof {
            // pairs of system `s` are exhausted: the bound moves to the next
            // system
            assert forall|b: int, i: int, c: int, p: int|
                0 <= b < told.spec_blocks().len() && crate::tensor::valid_index(
                    told.spec_blocks()[b].values.data.spec_shape(),
                    idx3(i, c, p),
                ) implies #[trigger] descriptor.spec_blocks()[b].values.data.at(idx3(i, c, p))
                == ({
                let srow = told.spec_blocks()[b].values.samples.rows_view()[i];
                let keyrow = told.spec_keys().rows_view()[b];
                let prow = told.spec_blocks()[b].values.properties.rows_view()[p];
                let previous = told.spec_blocks()[b].values.data.at(idx3(i, c, p));
                if sample_in_range(views, srow) && ((srow[0] as int) < s + 1 || ((srow[0] as int)
                    == s + 1 && (srow[1] as int) < 0)) {
                    value_after(views, keyrow, srow, prow, c, previous, full)
                } else {
                    previous
                }
            }) by {
                let srow = told.spec_blocks()[b].values.samples.rows_view()[i];
                if sample_in_range(views, srow) && (srow[0] as int) == s {
                    assert((srow[1] as int) < views[s as int].pairs.len());
                }
            }
            assert forall|b: int, j: int, c1: int, c2: int, p: int|
                0 <= b < told.spec_blocks().len() && told.spec_blocks()[b].positions_gradient is
                    Some && crate::tensor::valid_index(
                    told.spec_blocks()[b].positions_gradient.unwrap().data.spec_shape(),
                    idx4(j, c1, c2, p),
                ) implies #[trigger] descriptor.spec_blocks()[b].positions_gradient.unwrap().data.at(
                idx4(j, c1, c2, p),
            ) == ({
                let g = told.spec_blocks()[b].positions_gradient.unwrap();
                let srows = told.spec_blocks()[b].values.samples.rows_view();
                let keyrow = told.spec_keys().rows_view()[b];
                let grow = g.samples.rows_view()[j];
                let previous = g.data.at(idx4(j, c1, c2, p));
                if grow.len() == 3 && 0 <= grow[0] && (grow[0] as int) < srows.len()
                    && sample_in_range(views, srows[grow[0] as int]) && ((srows[grow[0] as int][0] as int)
                    < s + 1 || ((srows[grow[0] as int][0] as int) == s + 1 && (srows[grow[0] as int][1] as int)
                    < 0)) {
                    grad_after(
                        views,
                        keyrow,
                        srows,
                        told.spec_blocks()[b].values.properties.rows_view(),
                        grow,
                        g.properties.rows_view()[p],
                        c1,
                        c2,
                        previous,
                        full,
                    )
                } else {
                    previous
                }
            }) by {
                let srows = told.spec_blocks()[b].values.samples.rows_view();
                let grow =
                    told.spec_blocks()[b].positions_gradient.unwrap().samples.rows_view()[j];
                if 0 <= grow[0] && (grow[0] as int) < srows.len() && sample_in_range(
                    views,
                    srows[grow[0] as int],
                ) && (srows[grow[0] as int][0] as int) == s {
                    assert((srows[grow[0] as int][1] as int) < views[s as int].pairs.len());
                }
            }
        }
        s += 1;
    }
    Ok(())
}

} // verus!

verus! {

/// The gradient labels of a block hold the rows of both atoms of every
/// sample.
pub proof fn lemma_grad_rows_member(rows: Seq<Seq<i32>>, i: int, upto: int)
    requires
        forall|i2: int| 0 <= i2 < rows.len() ==> (#[trigger] rows[i2]).len() == 4,
        0 <= i < upto <= rows.len(),
    ensures
        grad_rows_upto(rows, upto).contains(seq![i as i32, rows[i][0], rows[i][2]]),
        grad_rows_upto(rows, upto).contains(seq![i as i32, rows[i][0], rows[i][3]]),
    decreases upto,
{
    let prefix = grad_rows_upto(rows, upto - 1);
    let seg = grad_rows_for_sample(rows, upto - 1);
    let whole = grad_rows_upto(rows, upto);
    if i == upto - 1 {
        if rows[i][2] == rows[i][3] {
            assert(seg[0] == seq![i as i32, rows[i][0], rows[i][2]]);
            assert(whole[prefix.len() as int] == seg[0]);
        } else {
            assert(seg[0] == seq![i as i32, rows[i][0], rows[i][2]]);
            assert(seg[1] == seq![i as i32, rows[i][0], rows[i][3]]);
            assert(whole[prefix.len() as int] == seg[0]);
            assert(whole[prefix.len() as int + 1] == seg[1]);
        }
    } else {
        lemma_grad_rows_member(rows, i, upto - 1);
        let r2 = seq![i as i32, rows[i][0], rows[i][2]];
        let r3 = seq![i as i32, rows[i][0], rows[i][3]];
        let k2 = choose|k: int| 0 <= k < prefix.len() && prefix[k] == r2;
        assert(whole[k2] == r2);
        let k3 = choose|k: int| 0 <= k < prefix.len() && prefix[k] == r3;
        assert(whole[k3] == r3);
    }
}

/// Everything the end-to-end calculation promises of one block: its sample
/// labels enumerate the pairs of its key, its values hold the pair vectors,
/// and, when asked for, its gradient holds the `±1` diagonals.
pub open spec fn nl_block_ok(
    bl: crate::tensormap::Block,
    keyrow: Seq<i32>,
    views: Seq<SysView>,
    full: bool,
    gradients: bool,
) -> bool {
    let srows = bl.values.samples.rows_view();
    &&& bl.values.samples.names_view() == seq![
        "structure"@,
        "pair_id"@,
        "first_atom"@,
        "second_atom"@,
    ]
    &&& bl.values.samples.spec_width() == 4
    &&& srows == (if full {
        full_sample_rows(views, (keyrow[0], keyrow[1]))
    } else {
        half_sample_rows(views, (keyrow[0], keyrow[1]))
    })
    &&& bl.values.components@.len() == 1
    &&& is_component_labels(bl.values.components@[0])
    &&& is_property_labels(bl.values.properties)
    &&& forall|i: int, c: int|
        0 <= i < srows.len() && 0 <= c < 3 ==> #[trigger] bl.values.data.at(idx3(i, c, 0))
            == (match list_entry(views, keyrow, srows[i], full) {
            Some(v) => crate::bits::vector_component(v, c),
            None => 0u64,
        })
    &&& (if gradients {
        bl.positions_gradient matches Some(g) && {
            &&& g.samples.names_view() == seq!["sample"@, "structure"@, "atom"@]
            &&& g.samples.spec_width() == 3
            &&& g.samples.rows_view() == gradient_sample_rows(srows)
            &&& g.components@.len() == 2
            &&& is_spatial_labels(g.components@[0])
            &&& is_component_labels(g.components@[1])
            &&& is_property_labels(g.properties)
            &&& forall|j: int, c1: int, c2: int|
                0 <= j < g.samples.rows_view().len() && 0 <= c1 < 3 && 0 <= c2 < 3
                    ==> #[trigger] g.data.at(idx4(j, c1, c2, 0)) == (match grad_entry(
                    views,
                    keyrow,
                    srows,
                    g.samples.rows_view()[j],
                    full,
                ) {
                    Some(sign) => if c1 == c2 {
                        if sign {
                            ONE_BITS
                        } else {
                            MINUS_ONE_BITS
                        }
                    } else {
                        0u64
                    },
                    None => 0u64,
                })
        }
    } else {
        bl.positions_gradient is None
    })
}

/// Everything the end-to-end calculation promises of its result.
pub open spec fn nl_result_ok(
    tm: crate::tensormap::TensorMap,
    views: Seq<SysView>,
    full: bool,
    gradients: bool,
) -> bool {
    &&& tm.wf()
    &&& nl_shape(tm)
    &&& (if full {
        full_keys_ok(tm.spec_keys(), views)
    } else {
        half_keys_ok(tm.spec_keys(), views)
    })
    &&& forall|b: int|
        0 <= b < tm.spec_blocks().len() ==> nl_block_ok(
            #[trigger] tm.spec_blocks()[b],
            tm.spec_keys().rows_view()[b],
            views,
            full,
            gradients,
        )
}

} // verus!

verus! {

/// Allocating the block of the key `(a, b)` would overflow a machine
/// limit: its sample count does not fit a label entry, or a tensor's entry
/// count does not fit the address space.
pub open spec fn key_allocation_overflows(
    views: Seq<SysView>,
    a: i32,
    b: i32,
    full: bool,
    gradients: bool,
) -> bool {
    let srows = if full {
        full_sample_rows(views, (a, b))
    } else {
        half_sample_rows(views, (a, b))
    };
    ||| srows.len() > i32::MAX
    ||| srows.len() * 3 > usize::MAX
    ||| (gradients && gradient_sample_rows(srows).len() * 9 > usize::MAX)
}

/// Build a zero-filled descriptor for the given keys over the captured
/// batch: per key the sample labels of its pairs, one `pair_direction`
/// component, the `distance` property, and, when asked for, a zeroed
/// position-gradient block whose samples name both atoms of every pair
/// sample.
fn allocate_blocks(data: &Vec<SystemData>, keys: &Labels, full: bool, gradients: bool) -> (r:
    Result<Vec<crate::tensormap::Block>, Error>)
    requires
        data_wf(data@),
        crate::system::views_bounded(crate::system::data_views(data@)),
        keys.wf(),
        keys.spec_width() == 2,
    ensures
        r matches Ok(blocks) ==> blocks@.len() == keys.rows_view().len() && forall|b: int|
            0 <= b < blocks@.len() ==> (#[trigger] blocks@[b]).wf() && nl_block_shape(blocks@[b])
                && nl_block_ok_zeroed(
                blocks@[b],
                keys.rows_view()[b],
                crate::system::data_views(data@),
                full,
                gradients,
            ),
        r matches Err(e) ==> (e matches Error::Internal(_)) && exists|b: int|
            0 <= b < keys.rows_view().len() && #[trigger] key_allocation_overflows(
                crate::system::data_views(data@),
                keys.rows_view()[b][0],
                keys.rows_view()[b][1],
                full,
                gradients,
            ),
{
    let ghost views = crate::system::data_views(data@);
    let nk = keys.count();
    let mut blocks: Vec<crate::tensormap::Block> = Vec::new();
    let mut b: usize = 0;
    while b < nk
        invariant
            nk == keys.rows_view().len(),
            b <= nk,
            b == blocks@.len(),
            data_wf(data@),
            crate::system::views_bounded(views),
            views == crate::system::data_views(data@),
            keys.wf(),
            keys.spec_width() == 2,
            forall|b2: int|
                0 <= b2 < b ==> (#[trigger] blocks@[b2]).wf() && nl_block_shape(blocks@[b2])
                    && nl_block_ok_zeroed(blocks@[b2], keys.rows_view()[b2], views, full, gradients),
        decreases nk - b,
    {
        let krow = keys.row(b);
        proof {
            assert(krow@.len() == 2);
        }
        let ka = krow[0];
        let kb = krow[1];
        let rows = collect_sample_rows(data, ka, kb, full);
        let names = sample_names();
        proof {
            let rview = rows@.map_values(|v: Vec<i32>| v@);
            if full {
                crate::system::lemma_views_wf_of_data(data@);
                lemma_full_sample_rows_shape(views, (ka, kb), views.len() as int);
            } else {
                lemma_half_sample_rows_shape(views, (ka, kb), views.len() as int);
            }
            assert(names@.len() == 4) by {
                assert(names@.map_values(|s: String| s@).len() == names@.len());
            }
            assert forall|i: int| 0 <= i < rows@.len() implies (#[trigger] rows@[i])@.len()
                == names@.len() by {
                assert(rview[i] == rows@[i]@);
            }
            assert forall|i: int, j: int| 0 <= i < j < rows@.len() implies rows@[i]@
                != rows@[j]@ by {
                assert(rview[i] == rows@[i]@ && rview[j] == rows@[j]@);
            }
        }
        let sample_labels = Labels::from_parts(names, rows);
        let ghost srows = sample_labels.rows_view();
        proof {
            assert(keys.rows_view()[b as int][0] == ka && keys.rows_view()[b as int][1] == kb);
            assert(srows == (if full {
                full_sample_rows(views, (ka, kb))
            } else {
                half_sample_rows(views, (ka, kb))
            }));
        }
        let n_samples = sample_labels.count();
        if n_samples > 2147483647usize {
            proof {
                assert(key_allocation_overflows(views, ka, kb, full, gradients));
            }
            return Err(Error::Internal("too many samples for label bookkeeping".to_owned()));
        }
        let mut components: Vec<Labels> = Vec::new();
        components.push(component_labels());
        let properties = property_labels();
        let ghost vshape = crate::tensormap::axes_shape(sample_labels, components@, properties);
        proof {
            assert(vshape =~= seq![n_samples, 3usize, 1usize]);
            crate::tensor::lemma_shape3_fits(n_samples, 3, 1);
        }
        let values = match crate::tensormap::BasicBlock::new(sample_labels, components, properties) {
            Some(v) => v,
            None => {
                proof {
                    assert(!crate::tensor::shape_fits(vshape));
                    assert((n_samples as nat) * 3 > usize::MAX || (n_samples as nat) * 3 * 1
                        > usize::MAX);
                    assert(srows.len() * 3 > usize::MAX);
                    assert(key_allocation_overflows(views, ka, kb, full, gradients));
                }
                return Err(Error::Internal("tensor allocation overflowed".to_owned()));
            },
        };
        let positions_gradient: Option<crate::tensormap::BasicBlock> = if gradients {
            let grad_samples = positions_gradient_labels(&values.samples);
            let ghost grows = grad_samples.rows_view();
            let g_count = grad_samples.count();
            let mut gcomponents: Vec<Labels> = Vec::new();
            gcomponents.push(spatial_labels());
            gcomponents.push(component_labels());
            let gproperties = property_labels();
            let ghost gshape = crate::tensormap::axes_shape(
                grad_samples,
                gcomponents@,
                gproperties,
            );
            proof {
                assert(gshape =~= seq![g_count, 3usize, 3usize, 1usize]);
                crate::tensor::lemma_shape4_fits(g_count, 3, 3, 1);
            }
            match crate::tensormap::BasicBlock::new(grad_samples, gcomponents, gproperties) {
                Some(g) => Some(g),
                None => {
                    proof {
                        assert(grows == gradient_sample_rows(srows));
                        assert(!crate::tensor::shape_fits(gshape));
                        assert((g_count as nat) * 3 > usize::MAX || (g_count as nat) * 3 * 3
                            > usize::MAX || (g_count as nat) * 3 * 3 * 1 > usize::MAX);
                        assert(gradient_sample_rows(srows).len() * 9 > usize::MAX);
                        assert(key_allocation_overflows(views, ka, kb, full, gradients));
                    }
                    return Err(Error::Internal("tensor allocation overflowed".to_owned()));
                },
            }
        } else {
            None
        };
        let block = crate::tensormap::Block { values, positions_gradient };
        blocks.push(block);
        b += 1;
    }
    Ok(blocks)
}

/// Like [`nl_block_ok`] but with every tensor entry still zero.
pub open spec fn nl_block_ok_zeroed(
    bl: crate::tensormap::Block,
    keyrow: Seq<i32>,
    views: Seq<SysView>,
    full: bool,
    gradients: bool,
) -> bool {
    let srows = bl.values.samples.rows_view();
    &&& bl.values.samples.names_view() == seq![
        "structure"@,
        "pair_id"@,
        "first_atom"@,
        "second_atom"@,
    ]
    &&& bl.values.samples.spec_width() == 4
    &&& srows == (if full {
        full_sample_rows(views, (keyrow[0], keyrow[1]))
    } else {
        half_sample_rows(views, (keyrow[0], keyrow[1]))
    })
    &&& bl.values.components@.len() == 1
    &&& is_component_labels(bl.values.components@[0])
    &&& is_property_labels(bl.values.properties)
    &&& forall|idx: Seq<int>|
        crate::tensor::valid_index(bl.values.data.spec_shape(), idx) ==> #[trigger] bl.values.data.at(
            idx,
        ) == 0u64
    &&& (if gradients {
        bl.positions_gradient matches Some(g) && {
            &&& g.samples.names_view() == seq!["sample"@, "structure"@, "atom"@]
            &&& g.samples.spec_width() == 3
            &&& g.samples.rows_view() == gradient_sample_rows(srows)
            &&& g.components@.len() == 2
            &&& is_spatial_labels(g.components@[0])
            &&& is_component_labels(g.components@[1])
            &&& is_property_labels(g.properties)
            &&& forall|idx: Seq<int>|
                crate::tensor::valid_index(g.data.spec_shape(), idx) ==> #[trigger] g.data.at(idx)
                    == 0u64
        }
    } else {
        bl.positions_gradient is None
    })
}

} // verus!

verus! {

impl HalfNeighborList {
    /// Fill an allocated descriptor with the half neighbor list of a batch.
    pub fn compute<S: crate::system::System>(
        &self,
        systems: &mut Vec<S>,
        descriptor: &mut crate::tensormap::TensorMap,
    ) -> (r: Result<(), Error>)
        requires
            crate::bits::cutoff_is_valid(self.cutoff),
            crate::system::views_bounded(crate::system::views_of(systems@, self.cutoff)),
            old(descriptor).wf(),
            nl_shape(*old(descriptor)),
        ensures
            crate::system::systems_preserved(old(systems)@, final(systems)@),
            final(descriptor).wf(),
            nl_shape(*final(descriptor)),
            descriptor_structure_preserved(*old(descriptor), *final(descriptor)),
            r is Ok ==> values_state(
                *old(descriptor),
                *final(descriptor),
                crate::system::views_of(old(systems)@, self.cutoff),
                crate::system::views_of(old(systems)@, self.cutoff).len() as int,
                0,
                false,
            ) && grads_state(
                *old(descriptor),
                *final(descriptor),
                crate::system::views_of(old(systems)@, self.cutoff),
                crate::system::views_of(old(systems)@, self.cutoff).len() as int,
                0,
                false,
            ),
            r matches Err(e) ==> (e matches Error::NeighborList(_) || e matches Error::Internal(_)
                || e matches Error::MissingGradientSample(_)),
    {
        let data = match crate::system::gather(systems, self.cutoff) {
            Ok(d) => d,
            Err(e) => {
                return Err(e);
            },
        };
        compute_from_data(&data, descriptor, false)
    }
}

impl FullNeighborList {
    /// Fill an allocated descriptor with the full neighbor list of a batch.
    pub fn compute<S: crate::system::System>(
        &self,
        systems: &mut Vec<S>,
        descriptor: &mut crate::tensormap::TensorMap,
    ) -> (r: Result<(), Error>)
        requires
            crate::bits::cutoff_is_valid(self.cutoff),
            crate::system::views_bounded(crate::system::views_of(systems@, self.cutoff)),
            old(descriptor).wf(),
            nl_shape(*old(descriptor)),
        ensures
            crate::system::systems_preserved(old(systems)@, final(systems)@),
            final(descriptor).wf(),
            nl_shape(*final(descriptor)),
            descriptor_structure_preserved(*old(descriptor), *final(descriptor)),
            r is Ok ==> values_state(
                *old(descriptor),
                *final(descriptor),
                crate::system::views_of(old(systems)@, self.cutoff),
                crate::system::views_of(old(systems)@, self.cutoff).len() as int,
                0,
                true,
            ) && grads_state(
                *old(descriptor),
                *final(descriptor),
                crate::system::views_of(old(systems)@, self.cutoff),
                crate::system::views_of(old(systems)@, self.cutoff).len() as int,
                0,
                true,
            ),
            r matches Err(e) ==> (e matches Error::NeighborList(_) || e matches Error::Internal(_)
                || e matches Error::MissingGradientSample(_)),
    {
        let data = match crate::system::gather(systems, self.cutoff) {
            Ok(d) => d,
            Err(e) => {
                return Err(e);
            },
        };
        compute_from_data(&data, descriptor, true)
    }
}

impl NeighborList {
    /// Fill an allocated descriptor with the neighbor list of a batch.
    pub fn compute<S: crate::system::System>(
        &self,
        systems: &mut Vec<S>,
        descriptor: &mut crate::tensormap::TensorMap,
    ) -> (r: Result<(), Error>)
        requires
            crate::bits::cutoff_is_valid(self.cutoff),
            crate::system::views_bounded(crate::system::views_of(systems@, self.cutoff)),
            old(descriptor).wf(),
            nl_shape(*old(descriptor)),
        ensures
            crate::system::systems_preserved(old(systems)@, final(systems)@),
            final(descriptor).wf(),
            nl_shape(*final(descriptor)),
            descriptor_structure_preserved(*old(descriptor), *final(descriptor)),
            r is Ok ==> values_state(
                *old(descriptor),
                *final(descriptor),
                crate::system::views_of(old(systems)@, self.cutoff),
                crate::system::views_of(old(systems)@, self.cutoff).len() as int,
                0,
                self.full_neighbor_list,
            ) && grads_state(
                *old(descriptor),
                *final(descriptor),
                crate::system::views_of(old(systems)@, self.cutoff),
                crate::system::views_of(old(systems)@, self.cutoff).len() as int,
                0,
                self.full_neighbor_list,
            ),
            r matches Err(e) ==> (e matches Error::NeighborList(_) || e matches Error::Internal(_)
                || e matches Error::MissingGradientSample(_)),
    {
        if self.full_neighbor_list {
            let inner = FullNeighborList { cutoff: self.cutoff };
            inner.compute(systems, descriptor)
        } else {
            let inner = HalfNeighborList { cutoff: self.cutoff };
            inner.compute(systems, descriptor)
        }
    }

    /// The whole calculation over a batch of systems: build the keys, the
    /// per-key sample labels and, when `gradients` is set, the gradient
    /// sample labels; allocate the blocks; and fill values and gradients
    /// from the neighbor lists. On an error nothing is handed out. An
    /// `Internal` error can only arise when a tensor or a label count
    /// overflows the address space of the machine.
    pub fn compute_descriptor<S: crate::system::System>(
        &self,
        systems: &mut Vec<S>,
        gradients: bool,
    ) -> (r: Result<crate::tensormap::TensorMap, Error>)
        requires
            crate::bits::cutoff_is_valid(self.cutoff),
            crate::system::views_bounded(crate::system::views_of(systems@, self.cutoff)),
        ensures
            crate::system::systems_preserved(old(systems)@, final(systems)@),
            r matches Ok(tm) ==> nl_result_ok(
                tm,
                crate::system::views_of(old(systems)@, self.cutoff),
                self.full_neighbor_list,
                gradients,
            ),
            r matches Err(e) ==> (e matches Error::NeighborList(_) || e matches Error::Internal(
                _,
            )),
            r matches Err(Error::Internal(_)) ==> exists|a: i32, b: i32|
                (if self.full_neighbor_list {
                    full_key_in(crate::system::views_of(old(systems)@, self.cutoff), a, b)
                } else {
                    half_key_in(crate::system::views_of(old(systems)@, self.cutoff), a, b)
                }) && #[trigger] key_allocation_overflows(
                    crate::system::views_of(old(systems)@, self.cutoff),
                    a,
                    b,
                    self.full_neighbor_list,
                    gradients,
                ),
    {
        let ghost views = crate::system::views_of(old(systems)@, self.cutoff);
        let full = self.full_neighbor_list;
        let data = match crate::system::gather(systems, self.cutoff) {
            Ok(d) => d,
            Err(e) => {
                return Err(e);
            },
        };
        let keys = if full {
            full_keys_from_data(&data)
        } else {
            half_keys_from_data(&data)
        };
        let blocks = match allocate_blocks(&data, &keys, full, gradients) {
            Ok(b) => b,
            Err(e) => {
                proof {
                    let b = choose|b: int|
                        0 <= b < keys.rows_view().len() && #[trigger] key_allocation_overflows(
                            crate::system::data_views(data@),
                            keys.rows_view()[b][0],
                            keys.rows_view()[b][1],
                            full,
                            gradients,
                        );
                    let row = keys.rows_view()[b];
                    assert(keys.rows_view().contains(row));
                    assert(row.len() == 2);
                    assert(row =~= key_row(row[0], row[1]));
                    assert(keys.rows_view().contains(key_row(row[0], row[1])));
                    assert(if full {
                        full_key_in(views, row[0], row[1])
                    } else {
                        half_key_in(views, row[0], row[1])
                    });
                }
                return Err(e);
            },
        };
        let mut descriptor = crate::tensormap::TensorMap::new(keys, blocks);
        let ghost init = descriptor;
        proof {
            assert(descriptor.wf());
            assert(nl_shape(descriptor));
            // every species pair that compute will look up has a key
            assert(keys_complete(views, descriptor.spec_keys(), full)) by {
                assert forall|s: int, k: int|
                    0 <= s < views.len() && 0 <= k < views[s].pairs.len() implies (if full {
                    descriptor.spec_keys().rows_view().contains(
                        #[trigger] key_row(
                            pair_species_first(views[s], k),
                            pair_species_second(views[s], k),
                        ),
                    ) && descriptor.spec_keys().rows_view().contains(
                        key_row(pair_species_second(views[s], k), pair_species_first(views[s], k)),
                    )
                } else {
                    descriptor.spec_keys().rows_view().contains(
                        #[trigger] key_row(
                            half_pair_key(views[s], k).0,
                            half_pair_key(views[s], k).1,
                        ),
                    )
                }) by {
                    if full {
                        assert(full_key_in(
                            views,
                            pair_species_first(views[s], k),
                            pair_species_second(views[s], k),
                        ));
                        assert(full_key_in(
                            views,
                            pair_species_second(views[s], k),
                            pair_species_first(views[s], k),
                        ));
                    } else {
                        assert(half_key_in(
                            views,
                            half_pair_key(views[s], k).0,
                            half_pair_key(views[s], k).1,
                        ));
                    }
                }
            }
            // every gradient row that compute will look up is present
            assert(grads_complete(views, descriptor, full)) by {
                assert forall|b: int, i: int|
                    0 <= b < descriptor.spec_blocks().len()
                        && descriptor.spec_blocks()[b].positions_gradient is Some && 0 <= i
                        < descriptor.spec_blocks()[b].values.samples.rows_view().len()
                        && list_entry(
                        views,
                        descriptor.spec_keys().rows_view()[b],
                        #[trigger] descriptor.spec_blocks()[b].values.samples.rows_view()[i],
                        full,
                    ) is Some implies {
                    let srow = descriptor.spec_blocks()[b].values.samples.rows_view()[i];
                    let grows =
                        descriptor.spec_blocks()[b].positions_gradient.unwrap().samples.rows_view();
                    grows.contains(seq![i as i32, srow[0], srow[2]]) && grows.contains(
                        seq![i as i32, srow[0], srow[3]],
                    )
                } by {
                    let srows = descriptor.spec_blocks()[b].values.samples.rows_view();
                    assert(forall|i2: int|
                        0 <= i2 < srows.len() ==> (#[trigger] srows[i2]).len() == 4);
                    lemma_grad_rows_member(srows, i, srows.len() as int);
                }
            }
        }
        let rc = compute_from_data(&data, &mut descriptor, full);
        match rc {
            Err(_) => {
                return Err(Error::Internal("the filled labels were incomplete".to_owned()));
            },
            Ok(()) => {},
        }
        proof {
            let fin = descriptor;
            assert forall|b: int| 0 <= b < fin.spec_blocks().len() implies nl_block_ok(
                #[trigger] fin.spec_blocks()[b],
                fin.spec_keys().rows_view()[b],
                views,
                full,
                gradients,
            ) by {
                let keyrow = init.spec_keys().rows_view()[b];
                let initb = init.spec_blocks()[b];
                let finb = fin.spec_blocks()[b];
                assert(block_structure_preserved(initb, finb));
                let srows = initb.values.samples.rows_view();
                crate::tensormap::lemma_block3_shape(initb.values);
                assert forall|i: int, c: int| 0 <= i < srows.len() && 0 <= c < 3 implies
                    #[trigger] finb.values.data.at(idx3(i, c, 0)) == (match list_entry(
                    views,
                    keyrow,
                    srows[i],
                    full,
                ) {
                    Some(v) => crate::bits::vector_component(v, c),
                    None => 0u64,
                }) by {
                    assert(idx3(i, c, 0)[0] == i && idx3(i, c, 0)[1] == c && idx3(i, c, 0)[2] == 0);
                    assert(crate::tensor::valid_index(initb.values.data.spec_shape(), idx3(i, c, 0)));
                    assert(initb.values.data.at(idx3(i, c, 0)) == 0u64);
                    assert(initb.values.properties.rows_view()[0] == zero_row());
                    if sample_in_range(views, srows[i]) {
                        assert((srows[i][0] as int) < views.len());
                    } else {
                        assert(list_entry(views, keyrow, srows[i], full) is None);
                    }
                }
                if gradients {
                    let g0 = initb.positions_gradient.unwrap();
                    crate::tensormap::lemma_block4_shape(g0);
                    let grows = g0.samples.rows_view();
                    assert forall|j: int, c1: int, c2: int|
                        0 <= j < grows.len() && 0 <= c1 < 3 && 0 <= c2 < 3 implies
                        #[trigger] finb.positions_gradient.unwrap().data.at(idx4(j, c1, c2, 0))
                        == (match grad_entry(views, keyrow, srows, grows[j], full) {
                        Some(sign) => if c1 == c2 {
                            if sign {
                                ONE_BITS
                            } else {
                                MINUS_ONE_BITS
                            }
                        } else {
                            0u64
                        },
                        None => 0u64,
                    }) by {
                        assert(idx4(j, c1, c2, 0)[0] == j && idx4(j, c1, c2, 0)[1] == c1 && idx4(
                            j,
                            c1,
                            c2,
                            0,
                        )[2] == c2 && idx4(j, c1, c2, 0)[3] == 0);
                        assert(crate::tensor::valid_index(g0.data.spec_shape(), idx4(j, c1, c2, 0)));
                        assert(g0.data.at(idx4(j, c1, c2, 0)) == 0u64);
                        assert(g0.properties.rows_view()[0] == zero_row());
                        assert(initb.values.properties.rows_view().contains(zero_row())) by {
                            assert(initb.values.properties.rows_view()[0] == zero_row());
                        }
                        let grow = grows[j];
                        assert(grow.len() == 3);
                        if 0 <= grow[0] && (grow[0] as int) < srows.len() && sample_in_range(
                            views,
                            srows[grow[0] as int],
                        ) {
                            assert((srows[grow[0] as int][0] as int) < views.len());
                        } else {
                            assert(grad_entry(views, keyrow, srows, grow, full) is None);
                        }
                    }
                }
            }
        }
        Ok(descriptor)
    }
}

} // verus!

verus! {

/// Determinism: for fixed inputs, every label sequence and every tensor
/// entry is bit-identical across runs. Any two results of the calculation
/// over the same system views agree on their keys, their sample labels and
/// every stored bit.
pub proof fn lemma_calculation_deterministic(
    tm1: crate::tensormap::TensorMap,
    tm2: crate::tensormap::TensorMap,
    views: Seq<SysView>,
    full: bool,
    gradients: bool,
)
    requires
        nl_result_ok(tm1, views, full, gradients),
        nl_result_ok(tm2, views, full, gradients),
    ensures
        tm1.spec_keys().rows_view() == tm2.spec_keys().rows_view(),
        forall|b: int|
            0 <= b < tm1.spec_blocks().len()
                ==> (#[trigger] tm1.spec_blocks()[b]).values.samples.rows_view()
                == tm2.spec_blocks()[b].values.samples.rows_view(),
        forall|b: int, i: int, c: int|
            0 <= b < tm1.spec_blocks().len() && 0 <= i
                < tm1.spec_blocks()[b].values.samples.rows_view().len() && 0 <= c < 3
                ==> #[trigger] tm1.spec_blocks()[b].values.data.at(idx3(i, c, 0))
                == tm2.spec_blocks()[b].values.data.at(idx3(i, c, 0)),
        gradients ==> forall|b: int|
            0 <= b < tm1.spec_blocks().len()
                ==> (#[trigger] tm1.spec_blocks()[b]).positions_gradient.unwrap().samples.rows_view()
                == tm2.spec_blocks()[b].positions_gradient.unwrap().samples.rows_view(),
        gradients ==> forall|b: int, j: int, c1: int, c2: int|
            0 <= b < tm1.spec_blocks().len() && 0 <= j
                < tm1.spec_blocks()[b].positions_gradient.unwrap().samples.rows_view().len() && 0
                <= c1 < 3 && 0 <= c2 < 3
                ==> #[trigger] tm1.spec_blocks()[b].positions_gradient.unwrap().data.at(
                idx4(j, c1, c2, 0),
            ) == tm2.spec_blocks()[b].positions_gradient.unwrap().data.at(idx4(j, c1, c2, 0)),
{
    assert(tm1.spec_keys().rows_view() == tm2.spec_keys().rows_view()) by {
        assert forall|r: Seq<i32>|
                tm1.spec_keys().rows_view().contains(r) implies tm2.spec_keys().rows_view().contains(
                r,
            ) by {
                assert(r.len() == 2);
                assert(r =~= key_row(r[0], r[1]));
                assert(tm1.spec_keys().rows_view().contains(key_row(r[0], r[1])));
                assert(tm2.spec_keys().rows_view().contains(key_row(r[0], r[1])));
            }
            assert forall|r: Seq<i32>|
                tm2.spec_keys().rows_view().contains(r) implies tm1.spec_keys().rows_view().contains(
                r,
            ) by {
                assert(r.len() == 2);
                assert(r =~= key_row(r[0], r[1]));
                assert(tm2.spec_keys().rows_view().contains(key_row(r[0], r[1])));
                assert(tm1.spec_keys().rows_view().contains(key_row(r[0], r[1])));
            }
        crate::labels::lemma_sorted_unique_representation(
            tm1.spec_keys().rows_view(),
            tm2.spec_keys().rows_view(),
        );
    }
    assert forall|b: int| 0 <= b < tm1.spec_blocks().len() implies (
    #[trigger] tm1.spec_blocks()[b]).values.samples.rows_view()
        == tm2.spec_blocks()[b].values.samples.rows_view() by {
        assert(nl_block_ok(tm1.spec_blocks()[b], tm1.spec_keys().rows_view()[b], views, full, gradients));
        assert(nl_block_ok(tm2.spec_blocks()[b], tm2.spec_keys().rows_view()[b], views, full, gradients));
    }
    assert forall|b: int, i: int, c: int|
        0 <= b < tm1.spec_blocks().len() && 0 <= i
            < tm1.spec_blocks()[b].values.samples.rows_view().len() && 0 <= c < 3 implies
        #[trigger] tm1.spec_blocks()[b].values.data.at(idx3(i, c, 0))
        == tm2.spec_blocks()[b].values.data.at(idx3(i, c, 0)) by {
        assert(nl_block_ok(tm1.spec_blocks()[b], tm1.spec_keys().rows_view()[b], views, full, gradients));
        assert(nl_block_ok(tm2.spec_blocks()[b], tm2.spec_keys().rows_view()[b], views, full, gradients));
    }
    if gradients {
        assert forall|b: int| 0 <= b < tm1.spec_blocks().len() implies (
        #[trigger] tm1.spec_blocks()[b]).positions_gradient.unwrap().samples.rows_view()
            == tm2.spec_blocks()[b].positions_gradient.unwrap().samples.rows_view() by {
            assert(nl_block_ok(tm1.spec_blocks()[b], tm1.spec_keys().rows_view()[b], views, full, gradients));
            assert(nl_block_ok(tm2.spec_blocks()[b], tm2.spec_keys().rows_view()[b], views, full, gradients));
        }
        assert forall|b: int, j: int, c1: int, c2: int|
            0 <= b < tm1.spec_blocks().len() && 0 <= j
                < tm1.spec_blocks()[b].positions_gradient.unwrap().samples.rows_view().len() && 0
                <= c1 < 3 && 0 <= c2 < 3 implies
            #[trigger] tm1.spec_blocks()[b].positions_gradient.unwrap().data.at(idx4(j, c1, c2, 0))
            == tm2.spec_blocks()[b].positions_gradient.unwrap().data.at(idx4(j, c1, c2, 0)) by {
            assert(nl_block_ok(tm1.spec_blocks()[b], tm1.spec_keys().rows_view()[b], views, full, gradients));
            assert(nl_block_ok(tm2.spec_blocks()[b], tm2.spec_keys().rows_view()[b], views, full, gradients));
        }
    }
}

/// Antisymmetry of full-list entries: when a sample `(s, k, i, j)` with
/// `i != j` holds a value in the block keyed `(a, b)`, the sample
/// `(s, k, j, i)` holds exactly the negated value in the block keyed
/// `(b, a)`.
pub proof fn lemma_full_list_antisymmetry(
    views: Seq<SysView>,
    keyrow: Seq<i32>,
    row: Seq<i32>,
    x: crate::bits::Vector3Bits,
)
    requires
        full_entry(views, keyrow, row) == Some(x),
        row[2] != row[3],
        keyrow.len() == 2,
    ensures
        full_entry(views, key_row(keyrow[1], keyrow[0]), seq![row[0], row[1], row[3], row[2]])
            == Some(crate::bits::spec_neg_vector(x)),
{
    let v = views[row[0] as int];
    let k = row[1] as int;
    let p = v.pairs[k];
    let swapped = seq![row[0], row[1], row[3], row[2]];
    assert(sample_in_range(views, swapped));
    crate::bits::lemma_neg_vector_involutive(p.vector);
    if keyrow == key_row(pair_species_first(v, k), pair_species_second(v, k)) && row == sample_row(
        row[0] as int,
        k,
        p.first as int,
        p.second as int,
    ) {
        assert(swapped =~= sample_row(row[0] as int, k, p.second as int, p.first as int));
        assert(key_row(keyrow[1], keyrow[0]) =~= key_row(
            pair_species_second(v, k),
            pair_species_first(v, k),
        ));
        assert(p.first as i32 != p.second as i32);
    } else {
        assert(swapped =~= sample_row(row[0] as int, k, p.first as int, p.second as int));
        assert(key_row(keyrow[1], keyrow[0]) =~= key_row(
            pair_species_first(v, k),
            pair_species_second(v, k),
        ));
    }
}

/// Half/full consistency, first direction: every half-list entry exists in
/// the full-list output with the identical value, at the same key and the
/// same sample row.
pub proof fn lemma_half_entry_in_full(
    views: Seq<SysView>,
    keyrow: Seq<i32>,
    row: Seq<i32>,
    x: crate::bits::Vector3Bits,
)
    requires
        half_entry(views, keyrow, row) == Some(x),
    ensures
        full_entry(views, keyrow, row) == Some(x),
{
    let v = views[row[0] as int];
    let k = row[1] as int;
    let p = v.pairs[k];
    if half_pair_inverted(v, k) {
        assert(pair_species_first(v, k) > pair_species_second(v, k));
        assert(keyrow == key_row(pair_species_second(v, k), pair_species_first(v, k)));
        assert(row == sample_row(row[0] as int, k, p.second as int, p.first as int));
        assert(keyrow != key_row(pair_species_first(v, k), pair_species_second(v, k))) by {
            assert(keyrow[0] == pair_species_second(v, k));
            assert(key_row(pair_species_first(v, k), pair_species_second(v, k))[0]
                == pair_species_first(v, k));
        }
    }
}

/// Half/full consistency, second direction: every full-list entry equals
/// the half-list entry of its pair, or its negation. The half-list entry
/// sits at the canonically sorted key and the canonically ordered sample
/// row of the same pair.
pub proof fn lemma_full_entry_in_half(
    views: Seq<SysView>,
    keyrow: Seq<i32>,
    row: Seq<i32>,
    x: crate::bits::Vector3Bits,
)
    requires
        full_entry(views, keyrow, row) == Some(x),
    ensures
        ({
            let v = views[row[0] as int];
            let k = row[1] as int;
            let hkey = key_row(half_pair_key(v, k).0, half_pair_key(v, k).1);
            let hrow = sample_row(
                row[0] as int,
                k,
                half_atoms(v, k).0 as int,
                half_atoms(v, k).1 as int,
            );
            exists|y: crate::bits::Vector3Bits|
                half_entry(views, hkey, hrow) == Some(y) && (y == x || y
                    == crate::bits::spec_neg_vector(x))
        }),
{
    let v = views[row[0] as int];
    let k = row[1] as int;
    let p = v.pairs[k];
    let hkey = key_row(half_pair_key(v, k).0, half_pair_key(v, k).1);
    let hrow = sample_row(row[0] as int, k, half_atoms(v, k).0 as int, half_atoms(v, k).1 as int);
    assert(sample_in_range(views, hrow));
    assert(hrow[0] == row[0] && hrow[1] == row[1]);
    let y = if half_pair_inverted(v, k) {
        crate::bits::spec_neg_vector(p.vector)
    } else {
        p.vector
    };
    assert(half_entry(views, hkey, hrow) == Some(y));
    crate::bits::lemma_neg_vector_involutive(p.vector);
    assert(y == x || y == crate::bits::spec_neg_vector(x));
}

/// Gradient completeness: in a computed descriptor with gradients, every
/// sample of a pair of two distinct atoms has exactly two non-zero gradient
/// rows — the row of its second atom holding the `+1` diagonal, the row of
/// its first atom holding the `-1` diagonal — and every other gradient row
/// of that sample is zero.
pub proof fn lemma_gradient_completeness(
    tm: crate::tensormap::TensorMap,
    views: Seq<SysView>,
    full: bool,
    b: int,
    i: int,
)
    requires
        nl_result_ok(tm, views, full, true),
        0 <= b < tm.spec_blocks().len(),
        0 <= i < tm.spec_blocks()[b].values.samples.rows_view().len(),
        list_entry(
            views,
            tm.spec_keys().rows_view()[b],
            tm.spec_blocks()[b].values.samples.rows_view()[i],
            full,
        ) is Some,
        tm.spec_blocks()[b].values.samples.rows_view()[i][2]
            != tm.spec_blocks()[b].values.samples.rows_view()[i][3],
    ensures
        ({
            let srow = tm.spec_blocks()[b].values.samples.rows_view()[i];
            let g = tm.spec_blocks()[b].positions_gradient.unwrap();
            let grows = g.samples.rows_view();
            let minus_row = seq![i as i32, srow[0], srow[2]];
            let plus_row = seq![i as i32, srow[0], srow[3]];
            &&& grows.contains(minus_row)
            &&& grows.contains(plus_row)
            &&& minus_row != plus_row
            &&& forall|j: int, c1: int, c2: int|
                0 <= j < grows.len() && 0 <= c1 < 3 && 0 <= c2 < 3 && grows[j][0] == i as i32
                    && grows[j].len() == 3 ==> #[trigger] g.data.at(idx4(j, c1, c2, 0)) == (
                if grows[j] == plus_row && c1 == c2 {
                    ONE_BITS
                } else if grows[j] == minus_row && c1 == c2 {
                    MINUS_ONE_BITS
                } else {
                    0u64
                })
        }),
{
    let srow = tm.spec_blocks()[b].values.samples.rows_view()[i];
    let srows = tm.spec_blocks()[b].values.samples.rows_view();
    let keyrow = tm.spec_keys().rows_view()[b];
    let g = tm.spec_blocks()[b].positions_gradient.unwrap();
    let grows = g.samples.rows_view();
    let minus_row = seq![i as i32, srow[0], srow[2]];
    let plus_row = seq![i as i32, srow[0], srow[3]];
    assert(nl_block_ok(tm.spec_blocks()[b], keyrow, views, full, true));
    assert(nl_block_shape(tm.spec_blocks()[b]));
    assert(srows.len() <= i32::MAX);
    assert(forall|i2: int| 0 <= i2 < srows.len() ==> (#[trigger] srows[i2]).len() == 4);
    lemma_grad_rows_member(srows, i, srows.len() as int);
    assert(minus_row[2] == srow[2] && plus_row[2] == srow[3]);
    assert forall|j: int, c1: int, c2: int|
        0 <= j < grows.len() && 0 <= c1 < 3 && 0 <= c2 < 3 && grows[j][0] == i as i32
            && grows[j].len() == 3 implies #[trigger] g.data.at(idx4(j, c1, c2, 0)) == (
        if grows[j] == plus_row && c1 == c2 {
        ONE_BITS
    } else if grows[j] == minus_row && c1 == c2 {
        MINUS_ONE_BITS
    } else {
        0u64
    }) by {
        let grow = grows[j];
        assert((grow[0] as int) == i);
        assert(grad_entry(views, keyrow, srows, grow, full) == (if grow == seq![grow[0], srow[0], srow[3]] {
            Some(true)
        } else if grow == seq![grow[0], srow[0], srow[2]] {
            Some(false)
        } else {
            None::<bool>
        }));
        assert(grow == seq![grow[0], srow[0], srow[3]] <==> grow == plus_row) by {
            if grow == plus_row {
                assert(grow[0] == i as i32);
                assert(grow =~= seq![grow[0], srow[0], srow[3]]);
            }
            if grow == seq![grow[0], srow[0], srow[3]] {
                assert(grow =~= plus_row);
            }
        }
        assert(grow == seq![grow[0], srow[0], srow[2]] <==> grow == minus_row) by {
            if grow == minus_row {
                assert(grow =~= seq![grow[0], srow[0], srow[2]]);
            }
            if grow == seq![grow[0], srow[0], srow[2]] {
                assert(grow =~= minus_row);
            }
        }
    }
}

/// Key coverage: every pair of the batch (and hence every sample the
/// calculation fills) references a species-pair key present in the keys of
/// a computed descriptor.
pub proof fn lemma_key_coverage(
    tm: crate::tensormap::TensorMap,
    views: Seq<SysView>,
    full: bool,
    gradients: bool,
)
    requires
        nl_result_ok(tm, views, full, gradients),
    ensures
        keys_complete(views, tm.spec_keys(), full),
{
    assert forall|s: int, k: int|
        0 <= s < views.len() && 0 <= k < views[s].pairs.len() implies (if full {
        tm.spec_keys().rows_view().contains(
            #[trigger] key_row(pair_species_first(views[s], k), pair_species_second(views[s], k)),
        ) && tm.spec_keys().rows_view().contains(
            key_row(pair_species_second(views[s], k), pair_species_first(views[s], k)),
        )
    } else {
        tm.spec_keys().rows_view().contains(
            #[trigger] key_row(half_pair_key(views[s], k).0, half_pair_key(views[s], k).1),
        )
    }) by {
        if full {
            assert(full_key_in(
                views,
                pair_species_first(views[s], k),
                pair_species_second(views[s], k),
            ));
            assert(full_key_in(
                views,
                pair_species_second(views[s], k),
                pair_species_first(views[s], k),
            ));
        } else {
            assert(half_key_in(views, half_pair_key(views[s], k).0, half_pair_key(views[s], k).1));
        }
    }
}

} // verus!

verus! {

/// Half/full consistency at the key level: every key of the half list is a
/// key of the full list.
pub proof fn lemma_half_key_in_full(views: Seq<SysView>, a: i32, b: i32)
    requires
        half_key_in(views, a, b),
    ensures
        full_key_in(views, a, b),
{
    let (s, k) = choose|s: int, k: int|
        0 <= s < views.len() && 0 <= k < views[s].pairs.len() && (s < views.len() as int || (s
            == views.len() as int && k < 0)) && half_pair_key(views[s], k) == (a, b);
    assert((pair_species_first(views[s], k) == a && pair_species_second(views[s], k) == b) || (
    pair_species_first(views[s], k) == b && pair_species_second(views[s], k) == a));
}

/// Half/full consistency at the sample level, for the pairs of one system:
/// every half-list sample row is a full-list sample row of the same key.
pub proof fn lemma_half_rows_in_full_pairs(v: SysView, s: int, key: (i32, i32), upto: int)
    ensures
        forall|row: Seq<i32>|
            #[trigger] half_rows_pairs(v, s, key, upto).contains(row) ==> full_rows_pairs(
                v,
                s,
                key,
                upto,
            ).contains(row),
    decreases upto,
{
    if upto > 0 {
        lemma_half_rows_in_full_pairs(v, s, key, upto - 1);
        let hprefix = half_rows_pairs(v, s, key, upto - 1);
        let hwhole = half_rows_pairs(v, s, key, upto);
        let fprefix = full_rows_pairs(v, s, key, upto - 1);
        let fseg = full_rows_pair(v, s, key, upto - 1);
        let fwhole = full_rows_pairs(v, s, key, upto);
        assert forall|row: Seq<i32>| #[trigger] hwhole.contains(row) implies fwhole.contains(
            row,
        ) by {
            let k = choose|k: int| 0 <= k < hwhole.len() && hwhole[k] == row;
            if k < hprefix.len() {
                assert(hprefix[k] == row);
                assert(hprefix.contains(row));
                assert(fprefix.contains(row));
                let m = choose|m: int| 0 <= m < fprefix.len() && fprefix[m] == row;
                assert(fwhole[m] == row);
            } else {
                // the canonical row of this pair is one of its full-list
                // orientations
                assert(half_pair_key(v, upto - 1) == key);
                assert(row == sample_row(
                    s,
                    upto - 1,
                    half_atoms(v, upto - 1).0 as int,
                    half_atoms(v, upto - 1).1 as int,
                ));
                let p = v.pairs[upto - 1];
                let spf = pair_species_first(v, upto - 1);
                let sps = pair_species_second(v, upto - 1);
                if half_pair_inverted(v, upto - 1) {
                    assert(spf > sps);
                    assert(key == (sps, spf));
                    assert(fseg[0] == sample_row(s, upto - 1, p.second as int, p.first as int));
                    assert(fseg.contains(row));
                } else {
                    assert(key == (spf, sps));
                    assert(fseg[0] == sample_row(s, upto - 1, p.first as int, p.second as int));
                    assert(fseg.contains(row));
                }
                let m = choose|m: int| 0 <= m < fseg.len() && fseg[m] == row;
                assert(fwhole[fprefix.len() + m] == row);
            }
        }
    }
}

/// Half/full consistency at the sample level: every half-list sample row of
/// a batch is a full-list sample row of the same key.
pub proof fn lemma_half_sample_rows_in_full(views: Seq<SysView>, key: (i32, i32), upto: int)
    requires
        0 <= upto <= views.len(),
    ensures
        forall|row: Seq<i32>|
            #[trigger] half_rows_systems(views, key, upto).contains(row) ==> full_rows_systems(
                views,
                key,
                upto,
            ).contains(row),
    decreases upto,
{
    if upto > 0 {
        lemma_half_sample_rows_in_full(views, key, upto - 1);
        let v = views[upto - 1];
        lemma_half_rows_in_full_pairs(v, upto - 1, key, v.pairs.len() as int);
        let hprefix = half_rows_systems(views, key, upto - 1);
        let hseg = half_rows_pairs(v, upto - 1, key, v.pairs.len() as int);
        let hwhole = half_rows_systems(views, key, upto);
        let fprefix = full_rows_systems(views, key, upto - 1);
        let fseg = full_rows_pairs(v, upto - 1, key, v.pairs.len() as int);
        let fwhole = full_rows_systems(views, key, upto);
        assert forall|row: Seq<i32>| #[trigger] hwhole.contains(row) implies fwhole.contains(
            row,
        ) by {
            let k = choose|k: int| 0 <= k < hwhole.len() && hwhole[k] == row;
            if k < hprefix.len() {
                assert(hprefix[k] == row);
                assert(hprefix.contains(row));
                assert(fprefix.contains(row));
                let m = choose|m: int| 0 <= m < fprefix.len() && fprefix[m] == row;
                assert(fwhole[m] == row);
            } else {
                assert(hseg[k - hprefix.len()] == row);
                assert(hseg.contains(row));
                assert(fseg.contains(row));
                let m = choose|m: int| 0 <= m < fseg.len() && fseg[m] == row;
                assert(fwhole[fprefix.len() + m] == row);
            }
        }
    }
}

} // verus!

verus! {

impl NeighborList {
    /// Validate the parameters: the cutoff must be positive and finite.
    pub fn check_parameters(&self) -> (r: Result<(), Error>)
        ensures
            r is Ok <==> crate::bits::cutoff_is_valid(self.cutoff),
            r matches Err(e) ==> (e matches Error::InvalidParameter(_)),
    {
        if crate::bits::check_cutoff(self.cutoff) {
            Ok(())
        } else {
            Err(Error::InvalidParameter("the cutoff must be positive and finite".to_owned()))
        }
    }

    /// The whole calculation with its parameters validated first: an
    /// invalid cutoff is rejected with `InvalidParameter` instead of being
    /// assumed away.
    pub fn compute_descriptor_checked<S: crate::system::System>(
        &self,
        systems: &mut Vec<S>,
        gradients: bool,
    ) -> (r: Result<crate::tensormap::TensorMap, Error>)
        requires
            crate::system::views_bounded(crate::system::views_of(systems@, self.cutoff)),
        ensures
            crate::system::systems_preserved(old(systems)@, final(systems)@),
            !crate::bits::cutoff_is_valid(self.cutoff) ==> (r matches Err(
                Error::InvalidParameter(_),
            )),
            r matches Ok(tm) ==> crate::bits::cutoff_is_valid(self.cutoff) && nl_result_ok(
                tm,
                crate::system::views_of(old(systems)@, self.cutoff),
                self.full_neighbor_list,
                gradients,
            ),
            r matches Err(e) ==> (e matches Error::InvalidParameter(_) || e
                matches Error::NeighborList(_) || e matches Error::Internal(_)),
            r matches Err(Error::Internal(_)) ==> exists|a: i32, b: i32|
                (if self.full_neighbor_list {
                    full_key_in(crate::system::views_of(old(systems)@, self.cutoff), a, b)
                } else {
                    half_key_in(crate::system::views_of(old(systems)@, self.cutoff), a, b)
                }) && #[trigger] key_allocation_overflows(
                    crate::system::views_of(old(systems)@, self.cutoff),
                    a,
                    b,
                    self.full_neighbor_list,
                    gradients,
                ),
    {
        match self.check_parameters() {
            Err(e) => Err(e),
            Ok(()) => self.compute_descriptor(systems, gradients),
        }
    }
}

} // verus!
